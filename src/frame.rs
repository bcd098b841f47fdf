use vstd::prelude::*;

use crate::bitmap::{
    all_hex, bits_value, byte_hex, char_of_code, expand, fragment_bits, group, hex_of_bits, splice,
};
use crate::bitmap::{bits_of, unit_encoding};
use crate::decode::{
    decode_payload, filled, hex_num, merge, merge_units, parse_header, unit_of, unit_width,
};
use crate::decode::Decoder;
use crate::encode::{
    distinct_chars, frame, header, hex_digits, lists_distinct, strictly_sorted, units, Encoder,
};
use crate::traits::{Decode, Encode};
use crate::types::ErrorKind;
use crate::{
    digit_char, hex_val, is_bits, is_hex_char, lemma_leading_zeros, leading_zeros, nibble, trim,
};

verus! {

proof fn lemma_digit(v: nat)
    requires
        v < 16,
    ensures
        is_hex_char(digit_char(v)),
        hex_val(digit_char(v)) == v,
{
}

proof fn lemma_hex_digits(n: nat)
    ensures
        hex_digits(n).len() >= 1,
        all_hex(hex_digits(n)),
        hex_num(hex_digits(n)) == n,
    decreases n,
{
    if n < 16 {
        lemma_digit(n);
        let d = hex_digits(n);
        assert(d.drop_last() =~= Seq::<char>::empty());
        assert(hex_num(d.drop_last()) == 0);
        assert(d.last() == digit_char(n));
    } else {
        lemma_hex_digits(n / 16);
        lemma_digit(n % 16);
        let d = hex_digits(n);
        assert(d.drop_last() =~= hex_digits(n / 16));
        assert(d.last() == digit_char(n % 16));
        assert(hex_num(d) == 16 * hex_num(hex_digits(n / 16)) + hex_val(digit_char(n % 16)));
        assert(all_hex(d)) by {
            assert forall|i: int| 0 <= i < d.len() implies is_hex_char(#[trigger] d[i]) by {
                if i < d.len() - 1 {
                    assert(d[i] == hex_digits(n / 16)[i]);
                }
            }
        }
    }
}

/// `n` zero bits.
pub open spec fn zeros(n: nat) -> Seq<u8> {
    Seq::new(n, |i: int| 0u8)
}

proof fn lemma_short_group(g: Seq<u8>)
    requires
        is_bits(g),
        1 <= g.len() <= 4,
    ensures
        bits_value(g) < 16,
        nibble(bits_value(g)) == zeros((4 - g.len()) as nat) + g,
{
    reveal_with_fuel(bits_value, 5);
    assert(g[0] == 0 || g[0] == 1);
    if g.len() == 1 {
        assert(g.drop_last().len() == 0);
        assert(bits_value(g) == g[0]);
    } else if g.len() == 2 {
        assert(g[1] == 0 || g[1] == 1);
        assert(g.drop_last().drop_last().len() == 0);
        assert(bits_value(g) == 2 * g[0] + g[1]);
    } else if g.len() == 3 {
        assert(g[1] == 0 || g[1] == 1);
        assert(g[2] == 0 || g[2] == 1);
        assert(g.drop_last().drop_last().drop_last().len() == 0);
        assert(bits_value(g) == 4 * g[0] + 2 * g[1] + g[2]);
    } else {
        assert(g[1] == 0 || g[1] == 1);
        assert(g[2] == 0 || g[2] == 1);
        assert(g[3] == 0 || g[3] == 1);
        assert(g.drop_last().drop_last().drop_last().drop_last().len() == 0);
        assert(bits_value(g) == 8 * g[0] + 4 * g[1] + 2 * g[2] + g[3]);
    }
    assert(nibble(bits_value(g)) =~= zeros((4 - g.len()) as nat) + g);
}

proof fn lemma_hex_of_bits_split(b: Seq<u8>)
    requires
        b.len() >= 1,
    ensures
        ({
            let m = 4 * ((b.len() + 3) / 4 - 1);
            &&& 0 <= m < b.len() <= m + 4
            &&& hex_of_bits(b) == hex_of_bits(b.subrange(0, m)).push(
                digit_char(bits_value(b.subrange(m, b.len() as int))),
            )
        }),
{
    let n = b.len();
    let m = 4 * ((n + 3) / 4 - 1);
    let b1 = b.subrange(0, m);
    assert forall|i: int| 0 <= i < (m + 3) / 4 implies #[trigger] group(b1, i) == group(b, i) by {
        assert(group(b1, i) =~= group(b, i));
    }
    assert(group(b, (n + 3) / 4 - 1) == b.subrange(m, n as int));
    assert(hex_of_bits(b) =~= hex_of_bits(b1).push(digit_char(bits_value(b.subrange(m, n as int)))));
}

proof fn lemma_expand_push(d: Seq<char>, c: char)
    ensures
        expand(d.push(c)) == expand(d) + nibble(hex_val(c)),
{
    assert(d.push(c).drop_last() =~= d);
}

proof fn lemma_expand_whole_groups(b: Seq<u8>)
    requires
        is_bits(b),
        b.len() % 4 == 0,
    ensures
        expand(hex_of_bits(b)) == b,
    decreases b.len(),
{
    if b.len() == 0 {
        assert(hex_of_bits(b) =~= Seq::<char>::empty());
        assert(b =~= Seq::<u8>::empty());
    } else {
        lemma_hex_of_bits_split(b);
        let m = b.len() - 4;
        let b1 = b.subrange(0, m);
        let g = b.subrange(m, b.len() as int);
        lemma_short_group(g);
        lemma_digit(bits_value(g));
        lemma_expand_whole_groups(b1);
        lemma_expand_push(hex_of_bits(b1), digit_char(bits_value(g)));
        assert(zeros(0) + g =~= g);
        assert(b1 + g =~= b);
    }
}

/// Packing the bits of a bitmap into hexadecimal digits and unpacking them
/// for the same number of bits gives the bits back: the trim rule recovers
/// the last, short group exactly.
pub proof fn lemma_bits_round_trip(b: Seq<u8>)
    requires
        is_bits(b),
        b.len() >= 1,
    ensures
        all_hex(hex_of_bits(b)),
        hex_of_bits(b).len() == (b.len() + 3) / 4,
        splice(expand(hex_of_bits(b)), b.len()) == b,
{
    let n = b.len();
    let hex = hex_of_bits(b);
    assert forall|i: int| 0 <= i < hex.len() implies is_hex_char(#[trigger] hex[i]) by {
        let g = group(b, i);
        lemma_short_group(g);
        lemma_digit(bits_value(g));
    }
    lemma_hex_of_bits_split(b);
    let m = 4 * ((n + 3) / 4 - 1);
    let b1 = b.subrange(0, m);
    let g = b.subrange(m, n as int);
    lemma_short_group(g);
    lemma_digit(bits_value(g));
    lemma_expand_whole_groups(b1);
    lemma_expand_push(hex_of_bits(b1), digit_char(bits_value(g)));
    let e = expand(hex);
    assert(e == b1 + zeros((4 - g.len()) as nat) + g);
    let r = n % 4;
    if r == 0 {
        assert(g.len() == 4);
        assert(e =~= b);
    } else {
        let z = (4 - r) as nat;
        assert(g.len() == r);
        let last = zeros(z) + g;
        if n >= 4 {
            assert(e.subrange(0, e.len() - 4) =~= b1);
            assert(e.subrange(e.len() - 4, e.len() as int) =~= last);
        } else {
            assert(b1.len() == 0);
            assert(e =~= last);
        }
        lemma_leading_zeros(last, z as int);
        crate::lemma_leading_zeros_bound(last);
        assert(last[0] == 0);
        assert(trim(last, z) =~= g);
        assert(b1 + g =~= b);
    }
}

/// A unit of a frame reads back as the character and the bits it was made of.
pub proof fn lemma_unit_round_trip(c: char, b: Seq<u8>)
    requires
        c as u32 <= 255,
        is_bits(b),
        b.len() >= 1,
    ensures
        (byte_hex(c as u32 as nat) + hex_of_bits(b)).len() == (b.len() + 3) / 4 + 2,
        fragment_bits(byte_hex(c as u32 as nat) + hex_of_bits(b), b.len()) == Ok::<
            (char, Seq<u8>),
            ErrorKind,
        >((c, b)),
{
    let code = c as u32 as nat;
    lemma_bits_round_trip(b);
    lemma_digit(code / 16);
    lemma_digit(code % 16);
    let hex = hex_of_bits(b);
    let s = byte_hex(code) + hex;
    assert(all_hex(s)) by {
        assert forall|i: int| 0 <= i < s.len() implies is_hex_char(#[trigger] s[i]) by {
            if i >= 2 {
                assert(s[i] == hex[i - 2]);
            }
        }
    }
    assert(s.subrange(2, s.len() as int) =~= hex);
    assert(16 * (code / 16) + code % 16 == code);
    assert(char_of_code(code) == c);
}

/// The unit of the character `c` over `text`.
pub open spec fn unit_text(text: Seq<char>, c: char) -> Seq<char> {
    byte_hex(c as u32 as nat) + hex_of_bits(bits_of(text, c))
}

pub open spec fn all_bytes(cs: Seq<char>) -> bool {
    forall|i: int| 0 <= i < cs.len() ==> (#[trigger] cs[i] as u32) <= 255
}

proof fn lemma_bits_of(text: Seq<char>, c: char)
    ensures
        is_bits(bits_of(text, c)),
        bits_of(text, c).len() == text.len(),
{
}

proof fn lemma_units_layout(text: Seq<char>, cs: Seq<char>)
    requires
        text.len() >= 1,
        all_bytes(cs),
    ensures
        units(text, cs) is Ok,
        units(text, cs)->Ok_0.len() == cs.len() * unit_width(text.len()),
        forall|j: int|
            0 <= j < cs.len() ==> unit_of(units(text, cs)->Ok_0, unit_width(text.len()), j as nat)
                == unit_text(text, #[trigger] cs[j]),
    decreases cs.len(),
{
    let w = unit_width(text.len());
    if cs.len() > 0 {
        let k = cs.len();
        let front = cs.drop_last();
        lemma_units_layout(text, front);
        let c = cs.last();
        assert(c == cs[k - 1]);
        lemma_bits_of(text, c);
        lemma_unit_round_trip(c, bits_of(text, c));
        let u0 = units(text, front)->Ok_0;
        let x = unit_text(text, c);
        assert(unit_encoding(c, bits_of(text, c)) == Ok::<Seq<char>, ErrorKind>(x));
        let u = u0 + x;
        assert(units(text, cs) == Ok::<Seq<char>, ErrorKind>(u));
        assert(u.len() == k * w) by (nonlinear_arith)
            requires
                u.len() == u0.len() + x.len(),
                u0.len() == (k - 1) * w,
                x.len() == w,
        ;
        assert forall|j: int| 0 <= j < k implies unit_of(u, w, j as nat) == unit_text(
            text,
            #[trigger] cs[j],
        ) by {
            if j < k - 1 {
                assert(j * w + w <= (k - 1) * w) by (nonlinear_arith)
                    requires
                        j < k - 1,
                        w >= 0,
                ;
                assert(front[j] == cs[j]);
                assert(unit_of(u, w, j as nat) =~= unit_of(u0, w, j as nat));
            } else {
                assert(j * w == (k - 1) * w);
                assert(unit_of(u, w, j as nat) =~= x);
            }
        }
    }
}

/// The positions of `text` that hold one of the first `j` characters of
/// `cs`, set to that character; the others unset.
pub open spec fn revealed(text: Seq<char>, cs: Seq<char>, j: int) -> Seq<Option<char>> {
    Seq::new(
        text.len(),
        |i: int|
            if exists|q: int| 0 <= q < j && cs[q] == text[i] {
                Some(text[i])
            } else {
                None
            },
    )
}

proof fn lemma_merge_reveals(text: Seq<char>, cs: Seq<char>, p: Seq<char>, j: nat)
    requires
        text.len() >= 1,
        j <= cs.len(),
        all_bytes(cs),
        forall|q: int|
            0 <= q < cs.len() ==> unit_of(p, unit_width(text.len()), q as nat) == unit_text(
                text,
                #[trigger] cs[q],
            ),
    ensures
        merge_units(p, unit_width(text.len()), text.len(), j) == Ok::<
            Seq<Option<char>>,
            ErrorKind,
        >(revealed(text, cs, j as int)),
    decreases j,
{
    let w = unit_width(text.len());
    let n = text.len();
    if j == 0 {
        assert(revealed(text, cs, 0) =~= Seq::new(n, |i: int| None::<char>));
    } else {
        lemma_merge_reveals(text, cs, p, (j - 1) as nat);
        let c = cs[j - 1];
        let b = bits_of(text, c);
        lemma_bits_of(text, c);
        lemma_unit_round_trip(c, b);
        assert(unit_of(p, w, (j - 1) as nat) == unit_text(text, c));
        let acc = revealed(text, cs, j - 1);
        assert(merge_units(p, w, n, j) == Ok::<Seq<Option<char>>, ErrorKind>(merge(acc, c, b)));
        assert forall|i: int| 0 <= i < n implies #[trigger] merge(acc, c, b)[i] == revealed(
            text,
            cs,
            j as int,
        )[i] by {
            if exists|q: int| 0 <= q < j - 1 && cs[q] == text[i] {
                let q = choose|q: int| 0 <= q < j - 1 && cs[q] == text[i];
                assert(acc[i] == Some(text[i]));
                assert(0 <= q < j && cs[q] == text[i]);
            } else {
                assert(acc[i] is None);
                if text[i] == c {
                    assert(0 <= j - 1 < j && cs[j - 1] == text[i]);
                } else {
                    assert forall|q: int| 0 <= q < j implies cs[q] != text[i] by {
                        if q == j - 1 {
                        }
                    }
                }
            }
        }
        assert(merge(acc, c, b) =~= revealed(text, cs, j as int));
    }
}

/// The units of a frame come in ascending character-code order, one for
/// each distinct character of the text: the frame of a text whose characters
/// all fit in one byte is its header followed by units of equal width, the
/// `j`-th of which is the code and the packed bits of the `j`-th character
/// in that order, whatever the order in which the characters first occur.
pub proof fn lemma_units_in_code_order(e: Encoder)
    requires
        Encoder::bitmaps_of(e.spec_data(), e.spec_bitmaps()),
        all_bytes(e.spec_data()),
    ensures
        ({
            let text = e.spec_data();
            let cs = distinct_chars(text);
            let w = unit_width(text.len());
            &&& strictly_sorted(cs)
            &&& forall|c: char| #[trigger] cs.contains(c) <==> text.contains(c)
            &&& units(text, cs) is Ok
            &&& e.encode_spec() == Ok::<Seq<char>, ErrorKind>(
                header(text.len()) + units(text, cs)->Ok_0,
            )
            &&& units(text, cs)->Ok_0.len() == cs.len() * w
            &&& forall|j: int|
                0 <= j < cs.len() ==> unit_of(units(text, cs)->Ok_0, w, j as nat) == unit_text(
                    text,
                    #[trigger] cs[j],
                )
        }),
{
    let text = e.spec_data();
    let cs = distinct_chars(text);
    assert(lists_distinct(text, cs));
    lemma_chars_are_bytes(text, cs);
    if text.len() == 0 {
        if cs.len() > 0 {
            assert(cs.contains(cs[0]));
            assert(text.contains(cs[0]));
        }
        assert(cs.len() == 0);
    } else {
        lemma_units_layout(text, cs);
    }
}

proof fn lemma_chars_are_bytes(text: Seq<char>, cs: Seq<char>)
    requires
        lists_distinct(text, cs),
        all_bytes(text),
    ensures
        all_bytes(cs),
{
    assert forall|i: int| 0 <= i < cs.len() implies (#[trigger] cs[i] as u32) <= 255 by {
        assert(cs.contains(cs[i]));
        assert(text.contains(cs[i]));
        let k = choose|k: int| 0 <= k < text.len() && text[k] == cs[i];
        assert((text[k] as u32) <= 255);
    }
}

/// Decoding undoes encoding: for a text whose characters all fit in one
/// byte, the frame that its encoder produces has a header that reads back
/// the text's length, and every decoder of that frame decodes to the text.
pub proof fn lemma_round_trip(e: Encoder)
    requires
        Encoder::bitmaps_of(e.spec_data(), e.spec_bitmaps()),
        all_bytes(e.spec_data()),
    ensures
        e.encode_spec() is Ok,
        parse_header(e.encode_spec()->Ok_0) is Ok,
        parse_header(e.encode_spec()->Ok_0)->Ok_0.0 == e.spec_data().len(),
        decode_payload(e.spec_data().len(), parse_header(e.encode_spec()->Ok_0)->Ok_0.1) == Ok::<
            Seq<char>,
            ErrorKind,
        >(e.spec_data()),
        forall|d: Decoder|
            parse_header(e.encode_spec()->Ok_0) == Ok::<(nat, Seq<char>), ErrorKind>(
                (d.spec_data_length(), d.spec_data()),
            ) ==> #[trigger] d.decode_spec() == Ok::<Seq<char>, ErrorKind>(e.spec_data()),
{
    let text = e.spec_data();
    let n = text.len();
    let cs = Encoder::chars_of(e.spec_bitmaps());
    assert(lists_distinct(text, cs));
    lemma_chars_are_bytes(text, cs);
    if n == 0 {
        if cs.len() > 0 {
            assert(cs.contains(cs[0]));
            assert(text.contains(cs[0]));
        }
        assert(cs =~= Seq::<char>::empty());
        assert(units(text, cs) == Ok::<Seq<char>, ErrorKind>(Seq::empty()));
        lemma_header_round_trip(0, Seq::empty());
        assert(header(0) + Seq::<char>::empty() =~= header(0));
        assert(frame(text) == Ok::<Seq<char>, ErrorKind>(header(0)));
        assert(Seq::new(0, |i: int| '0') =~= text);
        assert(filled(Seq::new(0, |i: int| None::<char>)) =~= text);
        assert(unit_width(0) == 2);
        assert(decode_payload(0, Seq::empty()) == Ok::<Seq<char>, ErrorKind>(text));
    } else {
        let w = unit_width(n);
        let k = cs.len();
        lemma_units_layout(text, cs);
        let u = units(text, cs)->Ok_0;
        assert(frame(text) == Ok::<Seq<char>, ErrorKind>(header(n) + u));
        lemma_header_round_trip(n as usize, u);
        assert(u.len() % w == 0 && u.len() / w == k) by (nonlinear_arith)
            requires
                u.len() == k * w,
                w > 0,
        ;
        lemma_merge_reveals(text, cs, u, k);
        assert(filled(revealed(text, cs, k as int)) =~= text) by {
            assert forall|i: int| 0 <= i < n implies #[trigger] revealed(text, cs, k as int)[i]
                == Some(text[i]) by {
                assert(text.contains(text[i]));
                assert(cs.contains(text[i]));
            }
        }
        assert(decode_payload(n, u) == Ok::<Seq<char>, ErrorKind>(text));
    }
}

/// The header of a frame describes itself: its first two digits give the
/// number of digits of the length, and reading the header of any frame that
/// starts with it gives back that length and the rest of the frame.
pub proof fn lemma_header_round_trip(len: usize, rest: Seq<char>)
    ensures
        header(len as nat) == byte_hex(hex_digits(len as nat).len()) + hex_digits(len as nat),
        parse_header(header(len as nat) + rest) == Ok::<(nat, Seq<char>), ErrorKind>(
            (len as nat, rest),
        ),
{
    let digits = hex_digits(len as nat);
    lemma_hex_digits(len as nat);
    crate::encode::lemma_hex_digits_len(len as nat, 16);
    let k = digits.len();
    lemma_digit(k / 16);
    lemma_digit(k % 16);
    let s = header(len as nat) + rest;
    assert(s[0] == digit_char(k / 16));
    assert(s[1] == digit_char(k % 16));
    assert(16 * (k / 16) + k % 16 == k);
    assert(s.subrange(2, 2 + k as int) =~= digits);
    assert(s.subrange(2 + k as int, s.len() as int) =~= rest);
}

/// Encoding is deterministic: two encoders of the same text hold their
/// bitmaps for the same characters in the same order, and encode to the same
/// frame, whatever the order in which the characters first occur.
pub proof fn lemma_encoding_deterministic(a: Encoder, b: Encoder)
    requires
        a.spec_data() == b.spec_data(),
        Encoder::bitmaps_of(a.spec_data(), a.spec_bitmaps()),
        Encoder::bitmaps_of(b.spec_data(), b.spec_bitmaps()),
    ensures
        Encoder::chars_of(a.spec_bitmaps()) == Encoder::chars_of(b.spec_bitmaps()),
        forall|i: int|
            0 <= i < a.spec_bitmaps().len() ==> #[trigger] a.spec_bitmaps()[i].spec_bits()
                == b.spec_bitmaps()[i].spec_bits(),
        a.encode_spec() == b.encode_spec(),
{
    assert(Encoder::chars_of(a.spec_bitmaps()).len() == a.spec_bitmaps().len());
    assert(Encoder::chars_of(b.spec_bitmaps()).len() == b.spec_bitmaps().len());
    assert forall|i: int| 0 <= i < a.spec_bitmaps().len() implies #[trigger] a.spec_bitmaps()[i].spec_bits()
        == b.spec_bitmaps()[i].spec_bits() by {
        assert(Encoder::chars_of(a.spec_bitmaps())[i] == a.spec_bitmaps()[i].spec_character());
        assert(Encoder::chars_of(b.spec_bitmaps())[i] == b.spec_bitmaps()[i].spec_character());
    }
}

} // verus!
