use vstd::prelude::*;

pub mod bitmap;
pub mod decode;
pub mod encode;
pub mod frame;
pub mod traits;
pub mod types;

verus! {

/// Whether `c` is a hexadecimal digit, in either case.
pub open spec fn is_hex_char(c: char) -> bool {
    (48 <= c as u32 <= 57) || (97 <= c as u32 <= 102) || (65 <= c as u32 <= 70)
}

/// The value of the hexadecimal digit `c`.
pub open spec fn hex_val(c: char) -> nat {
    if 48 <= c as u32 <= 57 {
        (c as u32 - 48) as nat
    } else if 97 <= c as u32 <= 102 {
        (c as u32 - 87) as nat
    } else {
        (c as u32 - 55) as nat
    }
}

/// The lowercase hexadecimal digit of a value below 16.
pub open spec fn digit_char(v: nat) -> char {
    if v < 10 {
        ((v + 48) as u8) as char
    } else {
        ((v + 87) as u8) as char
    }
}

/// The four bits of a value below 16, most significant first.
pub open spec fn nibble(v: nat) -> Seq<u8> {
    seq![((v / 8) % 2) as u8, ((v / 4) % 2) as u8, ((v / 2) % 2) as u8, (v % 2) as u8]
}

/// The four bits of a value below 16 as the characters '0' and '1'.
pub open spec fn nibble_text(v: nat) -> Seq<char> {
    nibble(v).map_values(|b: u8| if b == 1 { '1' } else { '0' })
}

/// Whether every element of `s` is a bit.
pub open spec fn is_bits(s: Seq<u8>) -> bool {
    forall|i: int| 0 <= i < s.len() ==> (#[trigger] s[i] == 0 || s[i] == 1)
}

/// The length of the longest prefix of `s` made of zeros.
pub open spec fn leading_zeros(s: Seq<u8>) -> nat
    decreases s.len(),
{
    if s.len() == 0 || s[0] != 0 {
        0
    } else {
        1 + leading_zeros(s.drop_first())
    }
}

/// The length of the longest suffix of `s` made of zeros.
pub open spec fn trailing_zeros(s: Seq<u8>) -> nat
    decreases s.len(),
{
    if s.len() == 0 || s.last() != 0 {
        0
    } else {
        1 + trailing_zeros(s.drop_last())
    }
}

pub open spec fn min_nat(a: nat, b: nat) -> nat {
    if a <= b { a } else { b }
}

/// `s` without up to `n` of its leading zeros.
pub open spec fn trim_left(s: Seq<u8>, n: nat) -> Seq<u8> {
    s.subrange(min_nat(n, leading_zeros(s)) as int, s.len() as int)
}

/// `s` without up to `n` of its trailing zeros.
pub open spec fn trim_right(s: Seq<u8>, n: nat) -> Seq<u8> {
    s.subrange(0, s.len() - min_nat(n, trailing_zeros(s)))
}

/// The trim heuristic: zeros come off the front when `s` starts with a zero,
/// else off the back.
pub open spec fn trim(s: Seq<u8>, n: nat) -> Seq<u8> {
    if s.len() > 0 && s[0] == 0 {
        trim_left(s, n)
    } else {
        trim_right(s, n)
    }
}

pub(crate) proof fn lemma_leading_zeros(s: Seq<u8>, k: int)
    requires
        0 <= k <= s.len(),
        forall|j: int| 0 <= j < k ==> s[j] == 0,
    ensures
        leading_zeros(s) >= k,
        k < s.len() && s[k] != 0 ==> leading_zeros(s) == k,
    decreases k,
{
    if k > 0 {
        lemma_leading_zeros(s.drop_first(), k - 1);
    }
}

proof fn lemma_trailing_zeros(s: Seq<u8>, k: int)
    requires
        0 <= k <= s.len(),
        forall|j: int| s.len() - k <= j < s.len() ==> s[j] == 0,
    ensures
        trailing_zeros(s) >= k,
        k < s.len() && s[s.len() - 1 - k] != 0 ==> trailing_zeros(s) == k,
    decreases k,
{
    if k > 0 {
        lemma_trailing_zeros(s.drop_last(), k - 1);
    }
}

pub proof fn lemma_leading_zeros_bound(s: Seq<u8>)
    ensures
        leading_zeros(s) <= s.len(),
    decreases s.len(),
{
    if s.len() > 0 && s[0] == 0 {
        lemma_leading_zeros_bound(s.drop_first());
    }
}

pub proof fn lemma_trailing_zeros_bound(s: Seq<u8>)
    ensures
        trailing_zeros(s) <= s.len(),
    decreases s.len(),
{
    if s.len() > 0 && s.last() == 0 {
        lemma_trailing_zeros_bound(s.drop_last());
    }
}

/// Relies on String::push: appends one character at the end.
#[verifier::external_body]
pub(crate) fn push_char(s: &mut String, c: char)
    ensures
        final(s)@ == old(s)@.push(c),
{
    s.push(c);
}

/// The value of the hexadecimal digit `c`, if it is one.
pub(crate) fn hex_value(c: char) -> (r: Option<u8>)
    ensures
        is_hex_char(c) ==> r == Some(hex_val(c) as u8) && hex_val(c) < 16,
        !is_hex_char(c) ==> r is None,
{
    let u = c as u32;
    if 48 <= u && u <= 57 {
        Some((u - 48) as u8)
    } else if 97 <= u && u <= 102 {
        Some((u - 87) as u8)
    } else if 65 <= u && u <= 70 {
        Some((u - 55) as u8)
    } else {
        None
    }
}

/// The lowercase hexadecimal digit of `v`.
pub(crate) fn digit_of(v: u8) -> (c: char)
    requires
        v < 16,
    ensures
        c == digit_char(v as nat),
{
    if v < 10 {
        (v + 48) as char
    } else {
        (v + 87) as char
    }
}

/// The four binary digits of the hexadecimal digit `c`, or the empty string
/// when `c` is not a hex digit.
pub fn to_binary(c: char) -> (r: &'static str)
    ensures
        is_hex_char(c) ==> r@ == nibble_text(hex_val(c)),
        !is_hex_char(c) ==> r@.len() == 0,
{
    proof {
        if is_hex_char(c) {
            assert(nibble_text(hex_val(c)) =~= nibble(hex_val(c)).map_values(
                |b: u8| if b == 1 { '1' } else { '0' }));
        }
    }
    match c {
        '0' => {
            proof { reveal_strlit("0000"); }
            "0000"
        }
        '1' => {
            proof { reveal_strlit("0001"); }
            "0001"
        }
        '2' => {
            proof { reveal_strlit("0010"); }
            "0010"
        }
        '3' => {
            proof { reveal_strlit("0011"); }
            "0011"
        }
        '4' => {
            proof { reveal_strlit("0100"); }
            "0100"
        }
        '5' => {
            proof { reveal_strlit("0101"); }
            "0101"
        }
        '6' => {
            proof { reveal_strlit("0110"); }
            "0110"
        }
        '7' => {
            proof { reveal_strlit("0111"); }
            "0111"
        }
        '8' => {
            proof { reveal_strlit("1000"); }
            "1000"
        }
        '9' => {
            proof { reveal_strlit("1001"); }
            "1001"
        }
        'A' | 'a' => {
            proof { reveal_strlit("1010"); }
            "1010"
        }
        'B' | 'b' => {
            proof { reveal_strlit("1011"); }
            "1011"
        }
        'C' | 'c' => {
            proof { reveal_strlit("1100"); }
            "1100"
        }
        'D' | 'd' => {
            proof { reveal_strlit("1101"); }
            "1101"
        }
        'E' | 'e' => {
            proof { reveal_strlit("1110"); }
            "1110"
        }
        'F' | 'f' => {
            proof { reveal_strlit("1111"); }
            "1111"
        }
        _ => {
            proof { reveal_strlit(""); }
            ""
        }
    }
}

/// Removes up to `n_bits_to_trim` leading zeros.
pub fn trim_binary_number_left(bin: &Vec<u8>, n_bits_to_trim: u8) -> (r: Vec<u8>)
    ensures
        r@ == trim_left(bin@, n_bits_to_trim as nat),
{
    let mut k: usize = 0;
    while k < bin.len() && k < n_bits_to_trim as usize && bin[k] == 0
        invariant
            k <= bin.len(),
            k <= n_bits_to_trim,
            forall|j: int| 0 <= j < k ==> bin@[j] == 0,
        decreases bin.len() - k,
    {
        k += 1;
    }
    proof {
        lemma_leading_zeros(bin@, k as int);
        lemma_leading_zeros_bound(bin@);
    }
    let mut r: Vec<u8> = Vec::new();
    let mut i: usize = k;
    while i < bin.len()
        invariant
            k <= i <= bin.len(),
            r@ == bin@.subrange(k as int, i as int),
        decreases bin.len() - i,
    {
        r.push(bin[i]);
        i += 1;
        assert(r@ =~= bin@.subrange(k as int, i as int));
    }
    r
}

/// Removes up to `n_bits_to_trim` trailing zeros.
pub fn trim_binary_number_right(bin: &Vec<u8>, n_bits_to_trim: u8) -> (r: Vec<u8>)
    ensures
        r@ == trim_right(bin@, n_bits_to_trim as nat),
{
    let mut k: usize = 0;
    while k < bin.len() && k < n_bits_to_trim as usize && bin[bin.len() - 1 - k] == 0
        invariant
            k <= bin.len(),
            k <= n_bits_to_trim,
            forall|j: int| bin.len() - k <= j < bin.len() ==> bin@[j] == 0,
        decreases bin.len() - k,
    {
        k += 1;
    }
    proof {
        lemma_trailing_zeros(bin@, k as int);
        lemma_trailing_zeros_bound(bin@);
    }
    let end: usize = bin.len() - k;
    let mut r: Vec<u8> = Vec::new();
    let mut i: usize = 0;
    while i < end
        invariant
            end == bin.len() - k,
            i <= end,
            r@ == bin@.subrange(0, i as int),
        decreases end - i,
    {
        r.push(bin[i]);
        i += 1;
        assert(r@ =~= bin@.subrange(0, i as int));
    }
    r
}

/// Removes up to `n_bits_to_trim` padding zeros: from the front when the
/// number starts with a zero, else from the back.
pub fn trim_binary_number(bin: &Vec<u8>, n_bits_to_trim: u8) -> (r: Vec<u8>)
    ensures
        r@ == trim(bin@, n_bits_to_trim as nat),
{
    if bin.len() > 0 && bin[0] == 0 {
        trim_binary_number_left(bin, n_bits_to_trim)
    } else {
        trim_binary_number_right(bin, n_bits_to_trim)
    }
}

} // verus!
