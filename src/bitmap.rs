use vstd::prelude::*;

use crate::traits::Encode;
use crate::types::{BitMapError, ErrorKind};
use crate::{
    digit_char, digit_of, hex_val, hex_value, is_bits, is_hex_char, lemma_leading_zeros_bound,
    lemma_trailing_zeros_bound, nibble, push_char, trim, trim_binary_number,
};

verus! {

/// The positions of `c` in `text`: 1 where the text holds `c`, else 0.
pub open spec fn bits_of(text: Seq<char>, c: char) -> Seq<u8> {
    Seq::new(text.len(), |i: int| if text[i] == c { 1u8 } else { 0u8 })
}

/// The unsigned value of a run of bits, most significant first.
pub open spec fn bits_value(g: Seq<u8>) -> nat
    decreases g.len(),
{
    if g.len() == 0 {
        0
    } else {
        2 * bits_value(g.drop_last()) + g.last() as nat
    }
}

/// The `i`-th group of four bits; the last group may be shorter.
pub open spec fn group(b: Seq<u8>, i: int) -> Seq<u8> {
    b.subrange(4 * i, if 4 * i + 4 <= b.len() { 4 * i + 4 } else { b.len() as int })
}

/// One hexadecimal digit for each group of four bits, the value of the group.
pub open spec fn hex_of_bits(b: Seq<u8>) -> Seq<char> {
    Seq::new((b.len() + 3) / 4, |i: int| digit_char(bits_value(group(b, i))))
}

/// The two lowercase hexadecimal digits of a byte.
pub open spec fn byte_hex(v: nat) -> Seq<char> {
    seq![digit_char(v / 16), digit_char(v % 16)]
}

/// A tracked character and its bits serialised: the character code, then the bits.
pub open spec fn unit_encoding(c: char, b: Seq<u8>) -> Result<Seq<char>, ErrorKind> {
    if c as u32 > 255 {
        Err(ErrorKind::CharacterOutOfRange)
    } else {
        Ok(byte_hex(c as u32 as nat) + hex_of_bits(b))
    }
}

/// Every hexadecimal digit of `d` expanded to its four bits.
pub open spec fn expand(d: Seq<char>) -> Seq<u8>
    decreases d.len(),
{
    if d.len() == 0 {
        Seq::empty()
    } else {
        expand(d.drop_last()) + nibble(hex_val(d.last()))
    }
}

/// The bits of an expansion cut back to `expected` bits by trimming its last group.
pub open spec fn splice(e: Seq<u8>, expected: nat) -> Seq<u8> {
    let r = expected % 4;
    if r == 0 {
        e
    } else if expected >= 4 {
        e.subrange(0, e.len() - 4) + trim(e.subrange(e.len() - 4, e.len() as int), (4 - r) as nat)
    } else {
        trim(e, (4 - r) as nat)
    }
}

/// Whether every character of `s` is a hexadecimal digit.
pub open spec fn all_hex(s: Seq<char>) -> bool {
    forall|i: int| 0 <= i < s.len() ==> is_hex_char(#[trigger] s[i])
}

/// The character of a byte code.
pub open spec fn char_of_code(v: nat) -> char {
    (v as u8) as char
}

/// What a fragment decodes to: the tracked character and its bits, or the kind of error.
pub open spec fn fragment_bits(s: Seq<char>, expected: nat) -> Result<(char, Seq<u8>), ErrorKind> {
    if s.len() < 3 {
        Err(ErrorKind::MalformedPayload)
    } else if !all_hex(s) {
        Err(ErrorKind::InvalidHexDigit)
    } else {
        Ok(
            (
                char_of_code(16 * hex_val(s[0]) + hex_val(s[1])),
                splice(expand(s.subrange(2, s.len() as int)), expected),
            ),
        )
    }
}

/// The text of a bitmap: its character where a bit is set, else '0'.
pub open spec fn placed(c: char, b: Seq<u8>) -> Seq<char> {
    Seq::new(b.len(), |i: int| if b[i] == 1 { c } else { '0' })
}

pub open spec fn pow2(k: nat) -> nat
    decreases k,
{
    if k == 0 {
        1
    } else {
        2 * pow2((k - 1) as nat)
    }
}

proof fn lemma_expand_len(d: Seq<char>)
    ensures
        expand(d).len() == 4 * d.len(),
    decreases d.len(),
{
    if d.len() > 0 {
        lemma_expand_len(d.drop_last());
    }
}

proof fn lemma_expand_bits(d: Seq<char>)
    ensures
        is_bits(expand(d)),
    decreases d.len(),
{
    if d.len() > 0 {
        lemma_expand_bits(d.drop_last());
        let v = hex_val(d.last());
        assert(is_bits(nibble(v)));
    }
}

proof fn lemma_trim_bits(s: Seq<u8>, n: nat)
    requires
        is_bits(s),
    ensures
        is_bits(trim(s, n)),
        trim(s, n).len() + n >= s.len(),
        trim(s, n).len() <= s.len(),
{
    lemma_leading_zeros_bound(s);
    lemma_trailing_zeros_bound(s);
}

/// The positions at which one character occurs in a text.
#[derive(Debug)]
pub struct BitMap {
    map: Vec<u8>,
    character: char,
}

impl BitMap {
    #[verifier::type_invariant]
    spec fn inv(&self) -> bool {
        is_bits(self.map@)
    }

    /// The bits of this bitmap, one for each position of the text.
    pub closed spec fn spec_bits(&self) -> Seq<u8> {
        self.map@
    }

    /// The character that this bitmap tracks.
    pub closed spec fn spec_character(&self) -> char {
        self.character
    }

    /// The bitmap of `character` over `s`.
    pub fn new(s: &str, character: char) -> (r: Self)
        ensures
            r.spec_bits() == bits_of(s@, character),
            r.spec_character() == character,
    {
        let n = s.unicode_len();
        let mut map: Vec<u8> = Vec::new();
        let mut i: usize = 0;
        while i < n
            invariant
                n == s@.len(),
                i <= n,
                map@ == bits_of(s@.subrange(0, i as int), character),
            decreases n - i,
        {
            let c = s.get_char(i);
            if c == character {
                map.push(1);
            } else {
                map.push(0);
            }
            i += 1;
            assert(map@ =~= bits_of(s@.subrange(0, i as int), character));
        }
        assert(s@.subrange(0, n as int) =~= s@);
        BitMap { map, character }
    }

    /// The bits of this bitmap.
    pub fn map(&self) -> (r: &Vec<u8>)
        ensures
            r@ == self.spec_bits(),
            is_bits(r@),
    {
        proof {
            use_type_invariant(self);
        }
        &self.map
    }

    /// The character that this bitmap tracks.
    pub fn character(&self) -> (r: char)
        ensures
            r == self.spec_character(),
    {
        self.character
    }

    /// One hexadecimal digit for each group of four bits.
    pub fn to_hex(&self) -> (r: String)
        ensures
            r@ == hex_of_bits(self.spec_bits()),
    {
        proof {
            use_type_invariant(self);
        }
        let n = self.map.len();
        let groups: usize = n / 4 + if n % 4 == 0 { 0 } else { 1 };
        let mut r = String::new();
        let mut g: usize = 0;
        while g < groups
            invariant
                n == self.map@.len(),
                is_bits(self.map@),
                groups == (n + 3) / 4,
                g <= groups,
                r@ == hex_of_bits(self.map@).subrange(0, g as int),
            decreases groups - g,
        {
            let start: usize = 4 * g;
            let end: usize = if n - start >= 4 { start + 4 } else { n };
            let mut v: u8 = 0;
            let mut j: usize = start;
            while j < end
                invariant
                    n == self.map@.len(),
                    is_bits(self.map@),
                    start <= j <= end,
                    end <= n,
                    end <= start + 4,
                    v as nat == bits_value(self.map@.subrange(start as int, j as int)),
                    (v as nat) < pow2((j - start) as nat),
                decreases end - j,
            {
                let b = self.map[j];
                assert(self.map@.subrange(start as int, j + 1).drop_last() =~= self.map@.subrange(
                    start as int,
                    j as int,
                ));
                assert(pow2((j + 1 - start) as nat) == 2 * pow2((j - start) as nat));
                assert((j - start) <= 3);
                reveal_with_fuel(pow2, 5);
                v = v * 2 + b;
                j += 1;
            }
            assert(pow2(4) == 16 && pow2(3) == 8 && pow2(2) == 4 && pow2(1) == 2 && pow2(0) == 1) by {
                reveal_with_fuel(pow2, 5);
            }
            assert((end - start) <= 4);
            assert(v < 16);
            let c = digit_of(v);
            push_char(&mut r, c);
            g += 1;
            assert(self.map@.subrange(start as int, end as int) == group(self.map@, (g - 1) as int));
            assert(r@ =~= hex_of_bits(self.map@).subrange(0, g as int));
        }
        assert(r@ =~= hex_of_bits(self.map@));
        r
    }

    /// Reads a bitmap from a fragment: two hex digits of character code, then
    /// the packed bits, cut back to `expected_length` bits.
    pub fn from_str(s: &str, expected_length: usize) -> (r: Result<Self, BitMapError>)
        ensures
            match r {
                Ok(b) => fragment_bits(s@, expected_length as nat) == Ok::<(char, Seq<u8>), ErrorKind>(
                    (b.spec_character(), b.spec_bits()),
                ),
                Err(e) => fragment_bits(s@, expected_length as nat) == Err::<(char, Seq<u8>), ErrorKind>(
                    e.spec_kind(),
                ),
            },
            s@.len() < 3 ==> (r matches Err(e) && e.spec_kind() == ErrorKind::MalformedPayload),
            expected_length % 4 == 0 ==> (r matches Ok(b) ==> b.spec_bits() == expand(
                s@.subrange(2, s@.len() as int),
            )),
    {
        let s_len = s.unicode_len();
        if s_len < 3 {
            return Err(BitMapError::with_message(ErrorKind::MalformedPayload, "String too short"));
        }
        let hi = hex_value(s.get_char(0));
        let lo = hex_value(s.get_char(1));
        if hi.is_none() || lo.is_none() {
            proof {
                assert(!is_hex_char(s@[0]) || !is_hex_char(s@[1]));
            }
            return Err(
                BitMapError::with_message(ErrorKind::InvalidHexDigit, "invalid digit found in string"),
            );
        }
        let code: u8 = hi.unwrap() * 16 + lo.unwrap();
        let character = code as char;
        let ghost digits = s@.subrange(2, s@.len() as int);
        let mut map: Vec<u8> = Vec::new();
        let mut i: usize = 2;
        while i < s_len
            invariant
                s_len == s@.len(),
                2 <= i <= s_len,
                digits == s@.subrange(2, s@.len() as int),
                all_hex(s@.subrange(0, i as int)),
                map@ == expand(s@.subrange(2, i as int)),
            decreases s_len - i,
        {
            let d = hex_value(s.get_char(i));
            match d {
                None => {
                    return Err(
                        BitMapError::with_message(
                            ErrorKind::InvalidHexDigit,
                            "invalid digit found in string",
                        ),
                    );
                },
                Some(v) => {
                    map.push((v / 8) % 2);
                    map.push((v / 4) % 2);
                    map.push((v / 2) % 2);
                    map.push(v % 2);
                    proof {
                        let prev = s@.subrange(2, i as int);
                        let next = s@.subrange(2, i + 1);
                        assert(next.drop_last() =~= prev);
                        assert(map@ =~= expand(next));
                    }
                    i += 1;
                    assert(all_hex(s@.subrange(0, i as int))) by {
                        assert forall|k: int| 0 <= k < i implies is_hex_char(
                            #[trigger] s@.subrange(0, i as int)[k],
                        ) by {
                            if k < i - 1 {
                                assert(s@.subrange(0, i - 1)[k] == s@[k]);
                            }
                        }
                    }
                },
            }
        }
        assert(s@.subrange(0, s_len as int) =~= s@);
        assert(s@.subrange(2, s_len as int) =~= digits);
        proof {
            lemma_expand_len(digits);
            lemma_expand_bits(digits);
        }
        let remainder = expected_length % 4;
        let map = if remainder == 0 {
            map
        } else {
            let bits_to_remove: u8 = (4 - remainder) as u8;
            if expected_length >= 4 {
                let cut: usize = map.len() - 4;
                let mut head: Vec<u8> = Vec::new();
                let mut last_4_bits: Vec<u8> = Vec::new();
                let mut k: usize = 0;
                while k < map.len()
                    invariant
                        cut == map@.len() - 4,
                        k <= map@.len(),
                        k <= cut ==> head@ == map@.subrange(0, k as int),
                        k <= cut ==> last_4_bits@.len() == 0,
                        k > cut ==> head@ == map@.subrange(0, cut as int),
                        k > cut ==> last_4_bits@ == map@.subrange(cut as int, k as int),
                    decreases map.len() - k,
                {
                    if k < cut {
                        head.push(map[k]);
                    } else {
                        last_4_bits.push(map[k]);
                    }
                    k += 1;
                    assert(k <= cut ==> head@ =~= map@.subrange(0, k as int));
                    assert(k > cut ==> last_4_bits@ =~= map@.subrange(cut as int, k as int));
                }
                let trimmed = trim_binary_number(&last_4_bits, bits_to_remove);
                proof {
                    lemma_trim_bits(last_4_bits@, bits_to_remove as nat);
                }
                let mut k: usize = 0;
                let ghost h = head@;
                while k < trimmed.len()
                    invariant
                        k <= trimmed@.len(),
                        head@ == h + trimmed@.subrange(0, k as int),
                    decreases trimmed.len() - k,
                {
                    head.push(trimmed[k]);
                    k += 1;
                    assert(head@ =~= h + trimmed@.subrange(0, k as int));
                }
                assert(trimmed@.subrange(0, trimmed@.len() as int) =~= trimmed@);
                head
            } else {
                proof {
                    lemma_trim_bits(map@, bits_to_remove as nat);
                }
                trim_binary_number(&map, bits_to_remove)
            }
        };
        proof {
            lemma_trim_bits(
                expand(digits).subrange(expand(digits).len() - 4, expand(digits).len() as int),
                (4 - expected_length % 4) as nat,
            );
            assert(is_bits(map@));
        }
        Ok(BitMap { map, character })
    }

    /// The text of this bitmap: its character where a bit is set, else '0'.
    pub fn decode(&self) -> (r: Result<String, BitMapError>)
        ensures
            r matches Ok(t) && t@ == placed(self.spec_character(), self.spec_bits()),
    {
        let mut out = String::new();
        let mut i: usize = 0;
        while i < self.map.len()
            invariant
                i <= self.map@.len(),
                out@ == placed(self.character, self.map@.subrange(0, i as int)),
            decreases self.map.len() - i,
        {
            if self.map[i] == 1 {
                push_char(&mut out, self.character);
            } else {
                push_char(&mut out, '0');
            }
            i += 1;
            assert(out@ =~= placed(self.character, self.map@.subrange(0, i as int)));
        }
        assert(self.map@.subrange(0, self.map@.len() as int) =~= self.map@);
        Ok(out)
    }
}

impl Encode for BitMap {
    open spec fn encode_spec(&self) -> Result<Seq<char>, ErrorKind> {
        unit_encoding(self.spec_character(), self.spec_bits())
    }

    /// The character code as two hex digits, then the packed bits.
    fn encode(&self) -> (r: Result<String, BitMapError>) {
        let code = self.character as u32;
        if code > 255 {
            return Err(
                BitMapError::with_message(ErrorKind::CharacterOutOfRange, "character out of range"),
            );
        }
        let code = code as u8;
        let mut out = String::new();
        push_char(&mut out, digit_of(code / 16));
        push_char(&mut out, digit_of(code % 16));
        let hex = self.to_hex();
        let mut out = out.concat(hex.as_str());
        assert(out@ =~= byte_hex(code as nat) + hex_of_bits(self.map@));
        Ok(out)
    }
}

impl PartialEq for BitMap {
    fn eq(&self, o: &BitMap) -> (r: bool) {
        if self.character != o.character || self.map.len() != o.map.len() {
            return false;
        }
        let mut i: usize = 0;
        while i < self.map.len()
            invariant
                i <= self.map@.len(),
                self.map@.len() == o.map@.len(),
                forall|k: int| 0 <= k < i ==> self.map@[k] == o.map@[k],
            decreases self.map.len() - i,
        {
            if self.map[i] != o.map[i] {
                return false;
            }
            i += 1;
        }
        assert(self.map@ =~= o.map@);
        true
    }
}

impl vstd::std_specs::cmp::PartialEqSpecImpl for BitMap {
    open spec fn obeys_eq_spec() -> bool {
        true
    }

    open spec fn eq_spec(&self, o: &BitMap) -> bool {
        self.spec_character() == o.spec_character() && self.spec_bits() == o.spec_bits()
    }
}

} // verus!
