//! The content hasher: a cryptographic digest over arbitrary bytes, hex
//! encoded so that fingerprints can serve as map keys.

use vstd::prelude::*;
use vstd::utf8::is_ascii_chars;
use blake2::Digest;

verus! {

/// The 64-byte BLAKE2b digest of a byte sequence. The digest is a pure
/// function of its input; its value is not modelled here.
pub uninterp spec fn blake2b_of(data: Seq<u8>) -> Seq<u8>;

/// The lowercase hexadecimal character for a value below 16.
pub open spec fn hex_digit_char(n: u8) -> char
    recommends
        n < 16,
{
    if n < 10 {
        (n + 48) as char
    } else {
        (n + 87) as char
    }
}

/// Lowercase hexadecimal encoding: two digits for each byte, high nibble
/// first.
pub open spec fn hex_of(b: Seq<u8>) -> Seq<char>
    decreases b.len(),
{
    if b.len() == 0 {
        Seq::empty()
    } else {
        seq![hex_digit_char(b[0] / 16), hex_digit_char(b[0] % 16)] + hex_of(b.drop_first())
    }
}

pub proof fn lemma_hex_of_len(b: Seq<u8>)
    ensures
        hex_of(b).len() == 2 * b.len(),
        is_ascii_chars(hex_of(b)),
    decreases b.len(),
{
    if b.len() > 0 {
        lemma_hex_of_len(b.drop_first());
    }
}

/// Relies on blake2's Blake2b512: a 64-byte digest that depends on the
/// input bytes alone.
#[verifier::external_body]
fn blake2b_digest(data: &[u8]) -> (r: Vec<u8>)
    ensures
        r@ == blake2b_of(data@),
        r@.len() == 64,
{
    let mut hasher = blake2::Blake2b512::new();
    hasher.update(data);
    hasher.finalize().to_vec()
}

/// Relies on hex::encode: two lowercase digits for each byte, in order.
#[verifier::external_body]
fn hex_encode(b: &[u8]) -> (r: String)
    ensures
        r@ == hex_of(b@),
{
    hex::encode(b)
}

/// The fingerprint of a byte sequence: its BLAKE2b digest in lowercase hex,
/// 128 characters wide.
pub open spec fn fingerprint_of(data: Seq<u8>) -> Seq<char> {
    hex_of(blake2b_of(data))
}

/// Computes the content fingerprint used for cell hashes and chain ids.
pub fn fingerprint(data: &[u8]) -> (r: String)
    ensures
        r@ == fingerprint_of(data@),
        r@.len() == 128,
        is_ascii_chars(r@),
{
    let digest = blake2b_digest(data);
    proof {
        lemma_hex_of_len(digest@);
    }
    hex_encode(digest.as_slice())
}

} // verus!
