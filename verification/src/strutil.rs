//! Trusted shims around std string operations that vstd leaves
//! unspecified.
use vstd::prelude::*;
use vstd::utf8::decode_utf8;
use vstd::utf8::is_scalar;
use vstd::utf8::valid_utf8;

verus! {

/// Relies on `String::push`: appends exactly one character.
#[verifier::external_body]
pub(crate) fn string_push(s: &mut String, c: char)
    ensures
        final(s)@ == old(s)@.push(c),
{
    s.push(c);
}

/// Relies on `String::from_utf8`: a valid UTF-8 byte string becomes
/// the string that those bytes encode.
#[verifier::external_body]
pub(crate) fn string_from_utf8(b: Vec<u8>) -> (r: String)
    requires
        valid_utf8(b@),
    ensures
        r@ == decode_utf8(b@),
{
    match String::from_utf8(b) {
        Ok(s) => s,
        Err(_) => String::new(),
    }
}

/// Relies on `char::from_u32`: a Unicode scalar value becomes the
/// character with that value.
#[verifier::external_body]
pub(crate) fn char_of_scalar(u: u32) -> (r: char)
    requires
        is_scalar(u),
    ensures
        r == (u as char),
{
    match char::from_u32(u) {
        Some(c) => c,
        None => ' ',
    }
}

/// ASCII bytes are valid UTF-8, and decode to the characters with
/// the same values.
proof fn lemma_ascii_utf8(b: Seq<u8>)
    requires
        forall|k: int| 0 <= k < b.len() ==> #[trigger] b[k] < 128,
    ensures
        valid_utf8(b),
        decode_utf8(b).len() == b.len(),
        forall|k: int|
            0 <= k < b.len() ==> #[trigger] decode_utf8(b)[k] == ((b[k] as u32) as char),
    decreases b.len(),
{
    if b.len() != 0 {
        let b0 = b[0];
        assert(b0 < 128);
        assert(b0 & 0x7F == b0) by (bit_vector)
            requires
                b0 < 128,
        ;
        assert(vstd::utf8::valid_first_scalar(b));
        assert(vstd::utf8::length_of_first_scalar(b) == 1);
        assert(vstd::utf8::pop_first_scalar(b) =~= b.skip(1));
        assert forall|k: int| 0 <= k < b.skip(1).len() implies #[trigger] b.skip(1)[k] < 128 by {
            assert(b.skip(1)[k] == b[k + 1]);
        }
        lemma_ascii_utf8(b.skip(1));
        assert(vstd::utf8::decode_first_scalar(b) == (b0 as u32));
        assert(decode_utf8(b) == seq![(b0 as u32) as char] + decode_utf8(b.skip(1)));
        assert forall|k: int| 0 <= k < b.len() implies #[trigger] decode_utf8(b)[k] == ((b[k]
            as u32) as char) by {
            if k > 0 {
                assert(decode_utf8(b)[k] == decode_utf8(b.skip(1))[k - 1]);
                assert(b.skip(1)[k - 1] == b[k]);
            }
        }
    }
}

/// The characters that a string of ASCII bytes reads as.
pub open spec fn chars_of_ascii(b: Seq<u8>) -> Seq<char> {
    Seq::new(b.len(), |i: int| (b[i] as u32) as char)
}

/// Builds the string that a vector of ASCII bytes spells.
pub(crate) fn ascii_string(b: Vec<u8>) -> (r: String)
    requires
        forall|k: int| 0 <= k < b@.len() ==> #[trigger] b@[k] < 128,
    ensures
        r@ == chars_of_ascii(b@),
{
    proof {
        lemma_ascii_utf8(b@);
    }
    let ghost gb = b@;
    let r = string_from_utf8(b);
    proof {
        assert(r@ =~= chars_of_ascii(gb));
    }
    r
}

} // verus!
