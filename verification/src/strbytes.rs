//! Conversions between strings and their UTF-8 byte encodings, stated over
//! vstd's `encode_utf8` / `decode_utf8` model.

use vstd::prelude::*;
use vstd::utf8::{valid_utf8, decode_utf8, encode_utf8, encode_utf8_valid_utf8,
    encode_utf8_decode_utf8};

verus! {

#[verifier::external_type_specification]
#[verifier::external_body]
pub struct ExFromUtf8Error(std::string::FromUtf8Error);

/// Relies on String::from_utf8: succeeds exactly on valid UTF-8 and decodes
/// it to the characters the bytes encode.
pub assume_specification[ String::from_utf8 ](v: Vec<u8>) -> (r: Result<
    String,
    std::string::FromUtf8Error,
>)
    ensures
        valid_utf8(v@) <==> r is Ok,
        r matches Ok(s) ==> s@ == decode_utf8(v@),
;

/// Relies on str's equality operator: true exactly when the two character
/// sequences are equal.
#[verifier::external_body]
pub fn str_eq(a: &str, b: &str) -> (r: bool)
    ensures
        r == (a@ == b@),
{
    a == b
}

/// Decodes UTF-8 bytes to a string, or reports that the bytes are not a
/// valid encoding.
pub fn utf8_to_string(bytes: Vec<u8>) -> (r: Option<String>)
    ensures
        r is Some <==> valid_utf8(bytes@),
        r matches Some(s) ==> s@ == decode_utf8(bytes@),
{
    match String::from_utf8(bytes) {
        Ok(s) => Some(s),
        Err(_) => None,
    }
}

/// Copies the UTF-8 encoding of a string into a byte vector.
pub fn string_to_bytes(s: &str) -> (r: Vec<u8>)
    ensures
        r@ == encode_utf8(s@),
{
    let b = s.as_bytes();
    let mut out: Vec<u8> = Vec::new();
    out.extend_from_slice(b);
    proof {
        assert(out@ =~= encode_utf8(s@));
    }
    out
}

/// Round trip: decoding the encoding of any character sequence yields the
/// sequence back.
pub proof fn lemma_utf8_round_trip(chars: Seq<char>)
    ensures
        valid_utf8(encode_utf8(chars)),
        decode_utf8(encode_utf8(chars)) == chars,
{
    encode_utf8_valid_utf8(chars);
    encode_utf8_decode_utf8(chars);
}

} // verus!
