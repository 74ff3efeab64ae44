//! Hexadecimal encoding and decoding of byte strings, stated over a
//! direct mathematical description and carried out by the `hex` crate.
use vstd::prelude::*;

verus! {

/// A hexadecimal digit character, in either case.
pub open spec fn is_hex_digit(c: char) -> bool {
    let u = c as u32;
    (48 <= u && u <= 57) || (97 <= u && u <= 102) || (65 <= u && u <= 70)
}

/// Numeric value of a hexadecimal digit character.
pub open spec fn hex_val(c: char) -> int
    recommends
        is_hex_digit(c),
{
    let u = c as u32;
    if 48 <= u && u <= 57 {
        u - 48
    } else if 97 <= u && u <= 102 {
        u - 97 + 10
    } else {
        u - 65 + 10
    }
}

/// The lowercase hexadecimal digit character of a nibble.
pub open spec fn hex_digit(n: int) -> char
    recommends
        0 <= n < 16,
{
    if n < 10 {
        ((48 + n) as u32) as char
    } else {
        ((87 + n) as u32) as char
    }
}

/// Lowercase hexadecimal rendering of a byte string: two digits per
/// byte, high nibble first.
pub open spec fn hex_of(b: Seq<u8>) -> Seq<char> {
    Seq::new(2 * b.len(), |i: int| if i % 2 == 0 { hex_digit(b[i / 2] as int / 16) } else { hex_digit(b[i / 2] as int % 16) })
}

/// A string of hexadecimal digits of even length: exactly the strings
/// that decode to a byte string.
pub open spec fn is_hex_str(s: Seq<char>) -> bool {
    s.len() % 2 == 0 && forall|i: int| 0 <= i < s.len() ==> is_hex_digit(#[trigger] s[i])
}

/// The byte string a hexadecimal string decodes to.
pub open spec fn unhex_of(s: Seq<char>) -> Seq<u8>
    recommends
        is_hex_str(s),
{
    Seq::new(s.len() / 2, |i: int| (16 * hex_val(s[2 * i]) + hex_val(s[2 * i + 1])) as u8)
}

/// A hexadecimal digit as an ASCII byte, in either case.
pub open spec fn is_hex_digit8(b: u8) -> bool {
    (48 <= b && b <= 57) || (97 <= b && b <= 102) || (65 <= b && b <= 70)
}

/// Numeric value of a hexadecimal ASCII byte.
pub open spec fn hex_val8(b: u8) -> int
    recommends
        is_hex_digit8(b),
{
    if 48 <= b && b <= 57 {
        b - 48
    } else if 97 <= b && b <= 102 {
        b - 97 + 10
    } else {
        b - 65 + 10
    }
}

/// The lowercase hexadecimal ASCII byte of a nibble.
pub open spec fn hex_digit8(n: int) -> u8
    recommends
        0 <= n < 16,
{
    if n < 10 {
        (48 + n) as u8
    } else {
        (87 + n) as u8
    }
}

/// Four lowercase hexadecimal ASCII bytes rendering a sixteen-bit
/// value, high nibble first.
pub open spec fn hex4_bytes(v: int) -> Seq<u8>
    recommends
        0 <= v < 0x10000,
{
    seq![
        hex_digit8(v / 0x1000 % 16),
        hex_digit8(v / 0x100 % 16),
        hex_digit8(v / 16 % 16),
        hex_digit8(v % 16),
    ]
}

/// Hexadecimal ASCII bytes decode back to the nibble they render.
pub proof fn lemma_hex_digit8_val(n: int)
    requires
        0 <= n < 16,
    ensures
        is_hex_digit8(hex_digit8(n)),
        hex_val8(hex_digit8(n)) == n,
        48 <= hex_digit8(n) && hex_digit8(n) < 127,
{
}

/// The four digits of a sixteen-bit value recompose to that value.
pub proof fn lemma_hex4_val(v: int)
    requires
        0 <= v < 0x10000,
    ensures
        0x1000 * hex_val8(hex4_bytes(v)[0]) + 0x100 * hex_val8(hex4_bytes(v)[1]) + 16 * hex_val8(
            hex4_bytes(v)[2],
        ) + hex_val8(hex4_bytes(v)[3]) == v,
        forall|i: int| 0 <= i < 4 ==> is_hex_digit8(#[trigger] hex4_bytes(v)[i]),
{
    lemma_hex_digit8_val(v / 0x1000 % 16);
    lemma_hex_digit8_val(v / 0x100 % 16);
    lemma_hex_digit8_val(v / 16 % 16);
    lemma_hex_digit8_val(v % 16);
    assert(0x1000 * (v / 0x1000 % 16) + 0x100 * (v / 0x100 % 16) + 16 * (v / 16 % 16) + v % 16
        == v) by (nonlinear_arith)
        requires
            0 <= v < 0x10000,
    ;
    assert forall|i: int| 0 <= i < 4 implies is_hex_digit8(#[trigger] hex4_bytes(v)[i]) by {
        if i == 0 {
        } else if i == 1 {
        } else if i == 2 {
        } else {
        }
    }
}

/// Relies on `hex::encode`: renders bytes as lowercase hexadecimal,
/// two digits per byte, high nibble first.
#[verifier::external_body]
pub(crate) fn hex_encode(b: &[u8]) -> (r: String)
    ensures
        r@ == hex_of(b@),
{
    hex::encode(b)
}

/// Relies on `hex::decode`: succeeds exactly on even-length strings of
/// hexadecimal digits (either case accepted), pairing digits into
/// bytes, high nibble first.
#[verifier::external_body]
pub(crate) fn hex_decode(s: &str) -> (r: Option<Vec<u8>>)
    ensures
        r is Some <==> is_hex_str(s@),
        r is Some ==> r.unwrap()@ == unhex_of(s@),
{
    hex::decode(s).ok()
}

/// Hexadecimal digits decode back to the nibble they render.
pub proof fn lemma_hex_digit_val(n: int)
    requires
        0 <= n < 16,
    ensures
        is_hex_digit(hex_digit(n)),
        hex_val(hex_digit(n)) == n,
{
}

/// Encoding a byte string gives a hexadecimal string that decodes to
/// the same bytes.
pub proof fn lemma_unhex_hex(b: Seq<u8>)
    ensures
        is_hex_str(hex_of(b)),
        unhex_of(hex_of(b)) == b,
{
    assert forall|i: int| 0 <= i < hex_of(b).len() implies is_hex_digit(#[trigger] hex_of(b)[i]) by {
        if i % 2 == 0 {
            lemma_hex_digit_val(b[i / 2] as int / 16);
        } else {
            lemma_hex_digit_val(b[i / 2] as int % 16);
        }
    }
    assert forall|i: int| 0 <= i < b.len() implies unhex_of(hex_of(b))[i] == b[i] by {
        lemma_hex_digit_val(b[i] as int / 16);
        lemma_hex_digit_val(b[i] as int % 16);
        assert((2 * i) / 2 == i && (2 * i + 1) / 2 == i) by (nonlinear_arith);
        assert((2 * i) % 2 == 0 && (2 * i + 1) % 2 == 1) by (nonlinear_arith);
        assert(unhex_of(hex_of(b))[i] == (16 * (b[i] as int / 16) + (b[i] as int % 16)) as u8);
    }
    assert(unhex_of(hex_of(b)) =~= b);
}

} // verus!
