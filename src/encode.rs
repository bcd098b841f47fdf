use vstd::prelude::*;

use crate::bitmap::{bits_of, byte_hex, unit_encoding, BitMap};
use crate::traits::Encode;
use crate::types::{BitMapError, ErrorKind};
use crate::{digit_char, digit_of, push_char};

verus! {

/// Whether the codes of `cs` strictly increase.
pub open spec fn strictly_sorted(cs: Seq<char>) -> bool {
    forall|i: int, j: int| 0 <= i < j < cs.len() ==> (cs[i] as u32) < (cs[j] as u32)
}

/// Whether `cs` lists the distinct characters of `text` in ascending code order.
pub open spec fn lists_distinct(text: Seq<char>, cs: Seq<char>) -> bool {
    strictly_sorted(cs) && forall|c: char| #[trigger] cs.contains(c) <==> text.contains(c)
}

/// The distinct characters of `text`, in ascending code order.
pub open spec fn distinct_chars(text: Seq<char>) -> Seq<char> {
    choose|cs: Seq<char>| lists_distinct(text, cs)
}

/// The lowercase hexadecimal digits of `n`, without leading zeros.
pub open spec fn hex_digits(n: nat) -> Seq<char>
    decreases n,
{
    if n < 16 {
        seq![digit_char(n)]
    } else {
        hex_digits(n / 16).push(digit_char(n % 16))
    }
}

/// The frame header for a text of `len` characters: the digit count of the
/// length as two hex digits, then the length in hex.
pub open spec fn header(len: nat) -> Seq<char> {
    byte_hex(hex_digits(len).len()) + hex_digits(len)
}

/// The serialised bitmaps of the characters `cs` over `text`, in order.
pub open spec fn units(text: Seq<char>, cs: Seq<char>) -> Result<Seq<char>, ErrorKind>
    decreases cs.len(),
{
    if cs.len() == 0 {
        Ok(Seq::empty())
    } else {
        match units(text, cs.drop_last()) {
            Err(e) => Err(e),
            Ok(u) => match unit_encoding(cs.last(), bits_of(text, cs.last())) {
                Err(e) => Err(e),
                Ok(x) => Ok(u + x),
            },
        }
    }
}

/// The frame of `text`: the header, then one unit per distinct character in
/// ascending code order; or the kind of error.
pub open spec fn frame(text: Seq<char>) -> Result<Seq<char>, ErrorKind> {
    match units(text, distinct_chars(text)) {
        Err(e) => Err(e),
        Ok(u) => Ok(header(text.len()) + u),
    }
}

proof fn lemma_code_injective(c: char, d: char)
    requires
        c != d,
    ensures
        c as u32 != d as u32,
{
}

proof fn lemma_units_err(text: Seq<char>, cs: Seq<char>, k: int)
    requires
        0 <= k <= cs.len(),
        units(text, cs.subrange(0, k)) is Err,
    ensures
        units(text, cs) == units(text, cs.subrange(0, k)),
    decreases cs.len() - k,
{
    if k < cs.len() {
        assert(cs.subrange(0, k + 1).drop_last() =~= cs.subrange(0, k));
        lemma_units_err(text, cs, k + 1);
    } else {
        assert(cs.subrange(0, k) =~= cs);
    }
}

/// Two ascending lists of the same characters are the same list.
pub proof fn lemma_sorted_unique(a: Seq<char>, b: Seq<char>)
    requires
        strictly_sorted(a),
        strictly_sorted(b),
        forall|c: char| #[trigger] a.contains(c) <==> b.contains(c),
    ensures
        a == b,
    decreases a.len(),
{
    if a.len() == 0 {
        if b.len() > 0 {
            assert(b.contains(b[0]));
            assert(a.contains(b[0]));
        }
        assert(a =~= b);
    } else {
        assert(a.contains(a[0]));
        assert(b.contains(a[0]));
        assert(b.len() > 0);
        assert(b.contains(b[0]));
        assert(a.contains(b[0]));
        let ia = choose|i: int| 0 <= i < a.len() && a[i] == b[0];
        let ib = choose|i: int| 0 <= i < b.len() && b[i] == a[0];
        assert(a[0] == b[0]) by {
            if ia > 0 {
                assert((a[0] as u32) < (a[ia] as u32));
            }
            if ib > 0 {
                assert((b[0] as u32) < (b[ib] as u32));
            }
        }
        let a1 = a.drop_first();
        let b1 = b.drop_first();
        assert forall|c: char| #[trigger] a1.contains(c) <==> b1.contains(c) by {
            if a1.contains(c) {
                let i = choose|i: int| 0 <= i < a1.len() && a1[i] == c;
                assert(a[i + 1] == c);
                assert(a.contains(c));
                assert(b.contains(c));
                let j = choose|j: int| 0 <= j < b.len() && b[j] == c;
                assert(j != 0);
                assert(b1[j - 1] == c);
            }
            if b1.contains(c) {
                let i = choose|i: int| 0 <= i < b1.len() && b1[i] == c;
                assert(b[i + 1] == c);
                assert(b.contains(c));
                assert(a.contains(c));
                let j = choose|j: int| 0 <= j < a.len() && a[j] == c;
                assert(j != 0);
                assert(a1[j - 1] == c);
            }
        }
        lemma_sorted_unique(a1, b1);
        assert(a =~= seq![a[0]] + a1);
        assert(b =~= seq![b[0]] + b1);
    }
}

pub open spec fn pow16(k: nat) -> nat
    decreases k,
{
    if k == 0 {
        1
    } else {
        16 * pow16((k - 1) as nat)
    }
}

pub(crate) proof fn lemma_hex_digits_len(n: nat, k: nat)
    requires
        k >= 1,
        n < pow16(k) || (k == 16 && n <= 0xffff_ffff_ffff_ffff),
    ensures
        hex_digits(n).len() <= k,
    decreases k,
{
    if k == 16 {
        assert(pow16(16) == 0x1_0000_0000_0000_0000) by {
            reveal_with_fuel(pow16, 17);
        }
    }
    if n >= 16 {
        let p = pow16((k - 1) as nat);
        assert(k > 1) by {
            reveal_with_fuel(pow16, 2);
        }
        assert(n / 16 < p) by (nonlinear_arith)
            requires
                n < 16 * p,
        ;
        lemma_hex_digits_len(n / 16, (k - 1) as nat);
    }
}

/// The lowercase hexadecimal digits of `n`.
pub(crate) fn hex_string(n: usize) -> (r: String)
    ensures
        r@ == hex_digits(n as nat),
        r@.len() <= 16,
{
    proof {
        lemma_hex_digits_len(n as nat, 16);
    }
    let mut m: usize = n;
    let mut digits: Vec<char> = Vec::new();
    while m >= 16
        invariant
            hex_digits(n as nat) == hex_digits(m as nat) + digits@,
            hex_digits(m as nat).len() + digits@.len() <= 16,
        decreases m,
    {
        let d = digit_of((m % 16) as u8);
        let ghost old_digits = digits@;
        digits.insert(0, d);
        assert(hex_digits(m as nat) == hex_digits((m / 16) as nat).push(digit_char((m % 16) as nat)));
        assert(hex_digits(m as nat) + old_digits =~= hex_digits((m / 16) as nat) + digits@);
        m = m / 16;
    }
    digits.insert(0, digit_of(m as u8));
    let mut r = String::new();
    let mut i: usize = 0;
    assert(digits@ =~= hex_digits(n as nat));
    while i < digits.len()
        invariant
            i <= digits@.len(),
            r@ == digits@.subrange(0, i as int),
        decreases digits.len() - i,
    {
        push_char(&mut r, digits[i]);
        i += 1;
        assert(r@ =~= digits@.subrange(0, i as int));
    }
    assert(digits@.subrange(0, digits@.len() as int) =~= digits@);
    r
}

/// A text with one bitmap for each distinct character, in ascending code order.
#[derive(Debug)]
pub struct Encoder {
    data: String,
    bitmaps: Vec<BitMap>,
}

impl Encoder {
    #[verifier::type_invariant]
    spec fn inv(&self) -> bool {
        Self::bitmaps_of(self.data@, self.bitmaps@)
    }

    /// The text to encode.
    pub closed spec fn spec_data(&self) -> Seq<char> {
        self.data@
    }

    /// The bitmaps of the text.
    pub closed spec fn spec_bitmaps(&self) -> Seq<BitMap> {
        self.bitmaps@
    }

    /// The characters of a list of bitmaps.
    pub open spec fn chars_of(bs: Seq<BitMap>) -> Seq<char> {
        bs.map_values(|b: BitMap| b.spec_character())
    }

    /// Whether `bs` holds the bitmap of each distinct character of `text`, in
    /// ascending code order.
    pub open spec fn bitmaps_of(text: Seq<char>, bs: Seq<BitMap>) -> bool {
        &&& text.len() <= usize::MAX
        &&& lists_distinct(text, Self::chars_of(bs))
        &&& Self::chars_of(bs) == distinct_chars(text)
        &&& forall|i: int|
            0 <= i < bs.len() ==> #[trigger] bs[i].spec_bits() == bits_of(
                text,
                bs[i].spec_character(),
            )
    }

    /// An encoder of `data`, with the bitmaps of its distinct characters.
    pub fn new(data: String) -> (r: Self)
        ensures
            r.spec_data() == data@,
            Self::bitmaps_of(data@, r.spec_bitmaps()),
    {
        let bitmaps = Self::initialize_bitmaps(&data);
        Encoder { data, bitmaps }
    }

    /// The bitmaps, one per distinct character in ascending code order.
    pub fn bitmaps(&self) -> (r: &Vec<BitMap>)
        ensures
            r@ == self.spec_bitmaps(),
    {
        &self.bitmaps
    }

    fn initialize_bitmaps(data: &String) -> (r: Vec<BitMap>)
        ensures
            Self::bitmaps_of(data@, r@),
    {
        let n = data.as_str().unicode_len();
        let ghost text = data@;
        let mut cs: Vec<char> = Vec::new();
        let mut i: usize = 0;
        while i < n
            invariant
                text == data@,
                n == text.len(),
                i <= n,
                strictly_sorted(cs@),
                forall|c: char| #[trigger] cs@.contains(c) <==> text.subrange(0, i as int).contains(c),
            decreases n - i,
        {
            let c = data.as_str().get_char(i);
            let mut p: usize = 0;
            while p < cs.len() && (cs[p] as u32) < (c as u32)
                invariant
                    p <= cs@.len(),
                    forall|q: int| 0 <= q < p ==> (cs@[q] as u32) < (c as u32),
                decreases cs.len() - p,
            {
                p += 1;
            }
            assert(p < cs@.len() ==> (c as u32) <= (cs@[p as int] as u32));
            let ghost prefix = text.subrange(0, i as int);
            let ghost next = text.subrange(0, i + 1);
            assert(next =~= prefix.push(c));
            if p < cs.len() && cs[p] == c {
                assert forall|x: char| #[trigger] cs@.contains(x) <==> next.contains(x) by {
                    if next.contains(x) && x != c {
                        let k = choose|k: int| 0 <= k < next.len() && next[k] == x;
                        assert(prefix[k] == x);
                    }
                    if prefix.contains(x) {
                        let k = choose|k: int| 0 <= k < prefix.len() && prefix[k] == x;
                        assert(next[k] == x);
                    }
                }
            } else {
                let ghost before = cs@;
                proof {
                    if p < before.len() {
                        lemma_code_injective(before[p as int], c);
                    }
                }
                cs.insert(p, c);
                assert(cs@ == before.insert(p as int, c));
                assert(strictly_sorted(cs@)) by {
                    assert forall|a: int, b: int| 0 <= a < b < cs@.len() implies (cs@[a] as u32) < (
                    cs@[b] as u32) by {
                        if p < before.len() {
                            assert((before[p as int] as u32) != (c as u32));
                        }
                    }
                }
                assert forall|x: char| #[trigger] cs@.contains(x) <==> next.contains(x) by {
                    if cs@.contains(x) {
                        let k = choose|k: int| 0 <= k < cs@.len() && cs@[k] == x;
                        if x != c {
                            if k < p {
                                assert(before[k] == x);
                            } else {
                                assert(before[k - 1] == x);
                            }
                            assert(before.contains(x));
                            let j = choose|j: int| 0 <= j < prefix.len() && prefix[j] == x;
                            assert(next[j] == x);
                        } else {
                            assert(next[i as int] == x);
                        }
                    }
                    if next.contains(x) {
                        if x == c {
                            assert(cs@[p as int] == x);
                        } else {
                            let k = choose|k: int| 0 <= k < next.len() && next[k] == x;
                            assert(prefix[k] == x);
                            assert(before.contains(x));
                            let j = choose|j: int| 0 <= j < before.len() && before[j] == x;
                            if j < p {
                                assert(cs@[j] == x);
                            } else {
                                assert(cs@[j + 1] == x);
                            }
                        }
                    }
                }
            }
            i += 1;
        }
        assert(text.subrange(0, n as int) =~= text);
        proof {
            assert(lists_distinct(text, cs@));
            lemma_sorted_unique(cs@, distinct_chars(text));
        }
        let mut bitmaps: Vec<BitMap> = Vec::new();
        let mut k: usize = 0;
        while k < cs.len()
            invariant
                text == data@,
                k <= cs@.len(),
                bitmaps@.len() == k,
                forall|j: int| 0 <= j < k ==> #[trigger] bitmaps@[j].spec_character() == cs@[j],
                forall|j: int|
                    0 <= j < k ==> #[trigger] bitmaps@[j].spec_bits() == bits_of(text, cs@[j]),
            decreases cs.len() - k,
        {
            bitmaps.push(BitMap::new(data.as_str(), cs[k]));
            k += 1;
        }
        assert(Self::chars_of(bitmaps@) =~= cs@);
        bitmaps
    }
}

impl Encode for Encoder {
    open spec fn encode_spec(&self) -> Result<Seq<char>, ErrorKind> {
        frame(self.spec_data())
    }

    /// The header, then the encoding of each bitmap in ascending code order.
    fn encode(&self) -> (r: Result<String, BitMapError>) {
        let ghost text = self.data@;
        let ghost cs = Self::chars_of(self.bitmaps@);
        proof {
            use_type_invariant(self);
        }
        let mut encoded_bitmaps = String::new();
        let mut i: usize = 0;
        while i < self.bitmaps.len()
            invariant
                text == self.data@,
                cs == Self::chars_of(self.bitmaps@),
                Self::bitmaps_of(text, self.bitmaps@),
                i <= self.bitmaps@.len(),
                units(text, cs.subrange(0, i as int)) == Ok::<Seq<char>, ErrorKind>(encoded_bitmaps@),
            decreases self.bitmaps.len() - i,
        {
            let unit = self.bitmaps[i].encode();
            let ghost b = self.bitmaps@[i as int];
            assert(cs.subrange(0, i + 1).drop_last() =~= cs.subrange(0, i as int));
            assert(cs[i as int] == b.spec_character());
            assert(b.spec_bits() == bits_of(text, b.spec_character()));
            match unit {
                Err(e) => {
                    proof {
                        lemma_units_err(text, cs, i + 1);
                    }
                    return Err(e);
                },
                Ok(u) => {
                    encoded_bitmaps = encoded_bitmaps.concat(u.as_str());
                },
            }
            i += 1;
        }
        assert(cs.subrange(0, cs.len() as int) =~= cs);
        let data_length = hex_string(self.data.as_str().unicode_len());
        let mut out = String::new();
        let ll = data_length.as_str().unicode_len() as u8;
        push_char(&mut out, digit_of(ll / 16));
        push_char(&mut out, digit_of(ll % 16));
        let out = out.concat(data_length.as_str());
        let out = out.concat(encoded_bitmaps.as_str());
        assert(out@ =~= header(text.len()) + encoded_bitmaps@);
        Ok(out)
    }
}

} // verus!
