use vstd::prelude::*;

use crate::bitmap::{all_hex, fragment_bits, BitMap};
use crate::traits::Decode;
use crate::types::{BitMapError, ErrorKind};
use crate::{hex_val, hex_value, is_hex_char, push_char};

verus! {

/// The value of a run of hexadecimal digits, most significant first.
pub open spec fn hex_num(d: Seq<char>) -> nat
    decreases d.len(),
{
    if d.len() == 0 {
        0
    } else {
        16 * hex_num(d.drop_last()) + hex_val(d.last())
    }
}

/// The header of a frame read from `s`: the text length and the payload
/// after the header, or the kind of error.
pub open spec fn parse_header(s: Seq<char>) -> Result<(nat, Seq<char>), ErrorKind> {
    if s.len() < 2 || !is_hex_char(s[0]) || !is_hex_char(s[1]) {
        Err(ErrorKind::MalformedHeader)
    } else {
        let ll = 16 * hex_val(s[0]) + hex_val(s[1]);
        let digits = s.subrange(2, 2 + ll as int);
        if ll == 0 || s.len() < 2 + ll || !all_hex(digits) || hex_num(digits) > usize::MAX {
            Err(ErrorKind::MalformedHeader)
        } else {
            Ok((hex_num(digits), s.subrange(2 + ll as int, s.len() as int)))
        }
    }
}

/// The width of one serialised bitmap for a text of `len` characters.
pub open spec fn unit_width(len: nat) -> nat {
    (len + 3) / 4 + 2
}

/// `acc` with each unset position at which `b` has a 1 set to `c`; a set
/// position is never overwritten.
pub open spec fn merge(acc: Seq<Option<char>>, c: char, b: Seq<u8>) -> Seq<Option<char>> {
    Seq::new(
        acc.len(),
        |i: int| if acc[i] is None && i < b.len() && b[i] == 1 { Some(c) } else { acc[i] },
    )
}

/// The text of a merge: each set character, and '0' where nothing is set.
pub open spec fn filled(acc: Seq<Option<char>>) -> Seq<char> {
    Seq::new(
        acc.len(),
        |i: int|
            match acc[i] {
                Some(c) => c,
                None => '0',
            },
    )
}

/// The `j`-th unit of width `w` of the payload `p`.
pub open spec fn unit_of(p: Seq<char>, w: nat, j: nat) -> Seq<char> {
    p.subrange((j * w) as int, (j * w + w) as int)
}

/// The first `k` units of `p` decoded and merged, in order, over `len`
/// unset positions.
pub open spec fn merge_units(p: Seq<char>, w: nat, len: nat, k: nat) -> Result<
    Seq<Option<char>>,
    ErrorKind,
>
    decreases k,
{
    if k == 0 {
        Ok(Seq::new(len, |i: int| None))
    } else {
        match merge_units(p, w, len, (k - 1) as nat) {
            Err(e) => Err(e),
            Ok(acc) => match fragment_bits(unit_of(p, w, (k - 1) as nat), len) {
                Err(e) => Err(e),
                Ok(cb) => Ok(merge(acc, cb.0, cb.1)),
            },
        }
    }
}

/// The text that a payload of whole units decodes to, or the kind of error.
pub open spec fn decode_payload(len: nat, p: Seq<char>) -> Result<Seq<char>, ErrorKind> {
    let w = unit_width(len);
    if p.len() % w != 0 {
        Err(ErrorKind::MalformedPayload)
    } else {
        match merge_units(p, w, len, p.len() / w) {
            Err(e) => Err(e),
            Ok(acc) => Ok(filled(acc)),
        }
    }
}

proof fn lemma_merge_units_err(p: Seq<char>, w: nat, len: nat, j: nat, k: nat)
    requires
        j <= k,
        merge_units(p, w, len, j) is Err,
    ensures
        merge_units(p, w, len, k) == merge_units(p, w, len, j),
    decreases k - j,
{
    if j < k {
        lemma_merge_units_err(p, w, len, j, (k - 1) as nat);
    }
}

/// A frame split into its header's text length and its payload.
#[derive(Debug)]
pub struct Decoder {
    data_length: usize,
    data: String,
}

impl Decoder {
    /// The length of the text that the frame holds.
    pub closed spec fn spec_data_length(&self) -> nat {
        self.data_length as nat
    }

    /// The payload after the header.
    pub closed spec fn spec_data(&self) -> Seq<char> {
        self.data@
    }

    /// Reads the header of the frame `data`.
    pub fn new(data: &str) -> (r: Result<Self, BitMapError>)
        ensures
            match r {
                Ok(d) => parse_header(data@) == Ok::<(nat, Seq<char>), ErrorKind>(
                    (d.spec_data_length(), d.spec_data()),
                ),
                Err(e) => parse_header(data@) == Err::<(nat, Seq<char>), ErrorKind>(e.spec_kind()),
            },
    {
        let n = data.unicode_len();
        if n < 2 {
            return Err(BitMapError::with_message(ErrorKind::MalformedHeader, "header too short"));
        }
        let hi = hex_value(data.get_char(0));
        let lo = hex_value(data.get_char(1));
        if hi.is_none() || lo.is_none() {
            return Err(
                BitMapError::with_message(ErrorKind::MalformedHeader, "invalid digit found in string"),
            );
        }
        let ll: usize = (hi.unwrap() as usize) * 16 + lo.unwrap() as usize;
        if ll == 0 || n - 2 < ll {
            return Err(BitMapError::with_message(ErrorKind::MalformedHeader, "header too short"));
        }
        let ghost digits = data@.subrange(2, 2 + ll);
        let mut acc: usize = 0;
        let mut i: usize = 0;
        while i < ll
            invariant
                n == data@.len(),
                is_hex_char(data@[0]),
                is_hex_char(data@[1]),
                ll as nat == 16 * hex_val(data@[0]) + hex_val(data@[1]),
                ll > 0,
                2 + ll <= n,
                i <= ll,
                digits == data@.subrange(2, 2 + ll),
                all_hex(digits.subrange(0, i as int)),
                acc as nat == hex_num(digits.subrange(0, i as int)),
            decreases ll - i,
        {
            let d = hex_value(data.get_char(2 + i));
            assert(data@[2 + i] == digits[i as int]);
            assert(digits.subrange(0, i + 1).drop_last() =~= digits.subrange(0, i as int));
            assert(digits.subrange(0, i + 1).last() == digits[i as int]);
            match d {
                None => {
                    assert(!is_hex_char(digits[i as int]));
                    assert(!all_hex(digits));
                    assert(parse_header(data@) == Err::<(nat, Seq<char>), ErrorKind>(
                        ErrorKind::MalformedHeader,
                    ));
                    return Err(
                        BitMapError::with_message(
                            ErrorKind::MalformedHeader,
                            "invalid digit found in string",
                        ),
                    );
                },
                Some(v) => {
                    if acc > (usize::MAX - v as usize) / 16 {
                        proof {
                            assert(16 * (acc as nat) + v as nat > usize::MAX) by (nonlinear_arith)
                                requires
                                    acc as nat > (usize::MAX - v as nat) / 16,
                                    v < 16,
                            ;
                            lemma_hex_num_prefix(digits, i + 1);
                            assert(hex_num(digits) > usize::MAX);
                            assert(parse_header(data@) == Err::<(nat, Seq<char>), ErrorKind>(
                                ErrorKind::MalformedHeader,
                            ));
                        }
                        return Err(
                            BitMapError::with_message(
                                ErrorKind::MalformedHeader,
                                "number too large to fit in target type",
                            ),
                        );
                    }
                    proof {
                        assert(16 * (acc as nat) + v as nat <= usize::MAX) by (nonlinear_arith)
                            requires
                                acc as nat <= (usize::MAX - v as nat) / 16,
                                v < 16,
                        ;
                    }
                    acc = acc * 16 + v as usize;
                    i += 1;
                    assert(all_hex(digits.subrange(0, i as int))) by {
                        assert forall|k: int| 0 <= k < i implies is_hex_char(
                            #[trigger] digits.subrange(0, i as int)[k],
                        ) by {
                            if k < i - 1 {
                                assert(digits.subrange(0, i - 1)[k] == digits[k]);
                            }
                        }
                    }
                },
            }
        }
        assert(digits.subrange(0, ll as int) =~= digits);
        let rest = String::from_str(data.substring_char(2 + ll, n));
        Ok(Decoder { data_length: acc, data: rest })
    }

    /// The length of the text that the frame holds.
    pub fn data_length(&self) -> (r: usize)
        ensures
            r as nat == self.spec_data_length(),
    {
        self.data_length
    }

    /// The payload after the header.
    pub fn data(&self) -> (r: &str)
        ensures
            r@ == self.spec_data(),
    {
        self.data.as_str()
    }

    /// The bitmaps of the payload, one for each unit of width
    /// `encoded_data_length`; a payload that is not made of whole units is
    /// malformed.
    #[verifier::rlimit(30)]
    fn decode_into_bitmaps(&self, encoded_data_length: usize) -> (r: Result<Vec<BitMap>, BitMapError>)
        requires
            encoded_data_length > 0,
        ensures
            match r {
                Ok(bs) => {
                    &&& self.data@.len() % (encoded_data_length as nat) == 0
                    &&& bs@.len() == self.data@.len() / (encoded_data_length as nat)
                    &&& forall|j: int|
                        0 <= j < bs@.len() ==> fragment_bits(
                            unit_of(self.data@, encoded_data_length as nat, j as nat),
                            self.data_length as nat,
                        ) == Ok::<(char, Seq<u8>), ErrorKind>(
                            (#[trigger] bs@[j].spec_character(), bs@[j].spec_bits()),
                        )
                },
                Err(e) => if self.data@.len() % (encoded_data_length as nat) != 0 {
                    e.spec_kind() == ErrorKind::MalformedPayload
                } else {
                    merge_units(
                        self.data@,
                        encoded_data_length as nat,
                        self.data_length as nat,
                        self.data@.len() / (encoded_data_length as nat),
                    ) == Err::<Seq<Option<char>>, ErrorKind>(e.spec_kind())
                },
            },
    {
        let w = encoded_data_length;
        let n = self.data.as_str().unicode_len();
        if n % w != 0 {
            return Err(
                BitMapError::with_message(ErrorKind::MalformedPayload, "payload is not whole units"),
            );
        }
        let k = n / w;
        let ghost p = self.data@;
        let ghost len = self.data_length as nat;
        let mut bitmaps: Vec<BitMap> = Vec::new();
        let mut j: usize = 0;
        while j < k
            invariant
                p == self.data@,
                len == self.data_length as nat,
                w == encoded_data_length,
                n == p.len(),
                k == n / w,
                n % w == 0,
                w > 0,
                j <= k,
                bitmaps@.len() == j,
                forall|q: int|
                    0 <= q < j ==> fragment_bits(unit_of(p, w as nat, q as nat), len)
                        == Ok::<(char, Seq<u8>), ErrorKind>(
                        (#[trigger] bitmaps@[q].spec_character(), bitmaps@[q].spec_bits()),
                    ),
            decreases k - j,
        {
            proof {
                lemma_unit_in_bounds(j as nat, k as nat, n as nat, w as nat);
            }
            let chunk = self.data.as_str().substring_char(j * w, j * w + w);
            match BitMap::from_str(chunk, self.data_length) {
                Err(e) => {
                    proof {
                        let jj = j as nat;
                        assert(chunk@ == unit_of(p, w as nat, jj));
                        assert(fragment_bits(unit_of(p, w as nat, jj), len) is Err);
                        assert forall|q: nat| q < jj implies #[trigger] fragment_bits(
                            unit_of(p, w as nat, q),
                            len,
                        ) is Ok by {
                            let qi = q as int;
                            assert(0 <= qi < j);
                            assert(fragment_bits(unit_of(p, w as nat, qi as nat), len) == Ok::<
                                (char, Seq<u8>),
                                ErrorKind,
                            >((bitmaps@[qi].spec_character(), bitmaps@[qi].spec_bits())));
                            assert(qi as nat == q);
                        }
                        lemma_merge_units_prefix_ok(p, w as nat, len, jj);
                        lemma_merge_units_err(p, w as nat, len, jj + 1, k as nat);
                        assert(fragment_bits(unit_of(p, w as nat, jj), len) == Err::<
                            (char, Seq<u8>),
                            ErrorKind,
                        >(e.spec_kind()));
                        assert(merge_units(p, w as nat, len, jj + 1) == Err::<Seq<Option<char>>, ErrorKind>(
                            e.spec_kind(),
                        ));
                    }
                    return Err(e);
                },
                Ok(b) => {
                    bitmaps.push(b);
                },
            }
            j += 1;
        }
        Ok(bitmaps)
    }
}

proof fn lemma_unit_in_bounds(j: nat, k: nat, n: nat, w: nat)
    requires
        j < k,
        k == n / w,
        w > 0,
    ensures
        j * w + w <= n,
{
    assert((j + 1) * w <= n) by (nonlinear_arith)
        requires
            j < k,
            k == n / w,
            w > 0,
    ;
    assert((j + 1) * w == j * w + w) by (nonlinear_arith);
}

impl Decode for Decoder {
    open spec fn decode_spec(&self) -> Result<Seq<char>, ErrorKind> {
        decode_payload(self.spec_data_length(), self.spec_data())
    }

    /// Splits the payload into units, decodes each, and merges them in
    /// order: the first unit with a bit set at a position supplies its
    /// character there, and positions that no unit sets hold '0'.
    fn decode(&mut self) -> (r: Result<String, BitMapError>) {
        let len = self.data_length;
        let w: usize = len / 4 + if len % 4 == 0 { 2 } else { 3 };
        let ghost p = self.data@;
        let bitmaps = match self.decode_into_bitmaps(w) {
            Err(e) => {
                return Err(e);
            },
            Ok(bs) => bs,
        };
        let mut acc: Vec<Option<char>> = Vec::new();
        let mut i: usize = 0;
        while i < len
            invariant
                i <= len,
                acc@ == Seq::new(i as nat, |q: int| None::<char>),
            decreases len - i,
        {
            acc.push(None);
            i += 1;
            assert(acc@ =~= Seq::new(i as nat, |q: int| None::<char>));
        }
        let mut j: usize = 0;
        while j < bitmaps.len()
            invariant
                p == self.data@,
                len == self.data_length,
                w as nat == unit_width(len as nat),
                bitmaps@.len() == p.len() / (w as nat),
                j <= bitmaps@.len(),
                forall|q: int|
                    0 <= q < bitmaps@.len() ==> fragment_bits(unit_of(p, w as nat, q as nat), len as nat)
                        == Ok::<(char, Seq<u8>), ErrorKind>(
                        (#[trigger] bitmaps@[q].spec_character(), bitmaps@[q].spec_bits()),
                    ),
                merge_units(p, w as nat, len as nat, j as nat) == Ok::<Seq<Option<char>>, ErrorKind>(
                    acc@,
                ),
            decreases bitmaps.len() - j,
        {
            let bits = bitmaps[j].map();
            let c = bitmaps[j].character();
            let ghost before = acc@;
            let mut i: usize = 0;
            while i < acc.len()
                invariant
                    acc@.len() == before.len(),
                    i <= acc@.len(),
                    forall|q: int| 0 <= q < i ==> acc@[q] == merge(before, c, bits@)[q],
                    forall|q: int| i <= q < acc@.len() ==> acc@[q] == before[q],
                decreases acc.len() - i,
            {
                if acc[i].is_none() && i < bits.len() && bits[i] == 1 {
                    acc.set(i, Some(c));
                }
                i += 1;
            }
            assert(acc@ =~= merge(before, c, bits@));
            proof {
                assert(fragment_bits(unit_of(p, w as nat, j as nat), len as nat) == Ok::<
                    (char, Seq<u8>),
                    ErrorKind,
                >((bitmaps@[j as int].spec_character(), bitmaps@[j as int].spec_bits())));
            }
            j += 1;
        }
        let mut out = String::new();
        let mut i: usize = 0;
        while i < acc.len()
            invariant
                i <= acc@.len(),
                out@ == filled(acc@).subrange(0, i as int),
            decreases acc.len() - i,
        {
            match acc[i] {
                Some(c) => push_char(&mut out, c),
                None => push_char(&mut out, '0'),
            }
            i += 1;
            assert(out@ =~= filled(acc@).subrange(0, i as int));
        }
        assert(filled(acc@).subrange(0, acc@.len() as int) =~= filled(acc@));
        Ok(out)
    }
}

proof fn lemma_merge_units_prefix_ok(p: Seq<char>, w: nat, len: nat, j: nat)
    requires
        forall|q: nat| q < j ==> #[trigger] fragment_bits(unit_of(p, w, q), len) is Ok,
        fragment_bits(unit_of(p, w, j), len) is Err,
    ensures
        merge_units(p, w, len, j + 1) == Err::<Seq<Option<char>>, ErrorKind>(
            fragment_bits(unit_of(p, w, j), len)->Err_0,
        ),
        forall|q: nat| q <= j ==> #[trigger] merge_units(p, w, len, q) is Ok,
    decreases j,
{
    if j > 0 {
        assert(fragment_bits(unit_of(p, w, (j - 1) as nat), len) is Ok);
        lemma_merge_units_all_ok(p, w, len, j);
    }
    assert(merge_units(p, w, len, j) is Ok) by {
        lemma_merge_units_all_ok(p, w, len, j);
    }
}

proof fn lemma_merge_units_all_ok(p: Seq<char>, w: nat, len: nat, j: nat)
    requires
        forall|q: nat| q < j ==> #[trigger] fragment_bits(unit_of(p, w, q), len) is Ok,
    ensures
        forall|q: nat| q <= j ==> #[trigger] merge_units(p, w, len, q) is Ok,
    decreases j,
{
    if j > 0 {
        lemma_merge_units_all_ok(p, w, len, (j - 1) as nat);
        assert(fragment_bits(unit_of(p, w, (j - 1) as nat), len) is Ok);
        assert forall|q: nat| q <= j implies #[trigger] merge_units(p, w, len, q) is Ok by {
            if q == j {
                assert(merge_units(p, w, len, (j - 1) as nat) is Ok);
            }
        }
    }
}

proof fn lemma_hex_num_prefix(d: Seq<char>, k: int)
    requires
        0 <= k <= d.len(),
    ensures
        hex_num(d.subrange(0, k)) <= hex_num(d),
    decreases d.len() - k,
{
    if k < d.len() {
        lemma_hex_num_prefix(d, k + 1);
        assert(d.subrange(0, k + 1).drop_last() =~= d.subrange(0, k));
    } else {
        assert(d.subrange(0, k) =~= d);
    }
}

} // verus!
