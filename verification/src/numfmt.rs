//! Verified rendering of unsigned integers as decimal and hexadecimal text.

use vstd::prelude::*;
use vstd::utf8::{is_ascii_chars, is_ascii_chars_encode_utf8};
use crate::hasher::hex_digit_char;
use crate::strbytes::utf8_to_string;

verus! {

/// The ASCII bytes of `n` written in decimal, most significant digit first.
pub open spec fn decimal_bytes(n: u64) -> Seq<u8>
    decreases n,
{
    if n < 10 {
        seq![(n + 48) as u8]
    } else {
        decimal_bytes(n / 10).push((n % 10 + 48) as u8)
    }
}

/// The characters of `n` written in decimal.
pub open spec fn decimal_chars(n: u64) -> Seq<char> {
    decimal_bytes(n).map_values(|b: u8| b as char)
}

/// The ASCII bytes of `n` written in lowercase hexadecimal, most
/// significant digit first, without leading zeros.
pub open spec fn hex_u64_bytes(n: u64) -> Seq<u8>
    decreases n,
{
    if n < 16 {
        seq![hex_digit_char(n as u8) as u8]
    } else {
        hex_u64_bytes(n / 16).push(hex_digit_char((n % 16) as u8) as u8)
    }
}

/// The characters of `n` written in lowercase hexadecimal.
pub open spec fn hex_u64_chars(n: u64) -> Seq<char> {
    hex_u64_bytes(n).map_values(|b: u8| b as char)
}

proof fn lemma_decimal_bytes_ascii(n: u64)
    ensures
        forall|i: int| 0 <= i < decimal_bytes(n).len() ==> 48 <= #[trigger] decimal_bytes(n)[i]
            < 58,
    decreases n,
{
    if n < 10 {
        assert(decimal_bytes(n) =~= seq![(n + 48) as u8]);
    } else {
        lemma_decimal_bytes_ascii(n / 10);
        let prefix = decimal_bytes(n / 10);
        assert(decimal_bytes(n) =~= prefix.push((n % 10 + 48) as u8));
        assert forall|i: int| 0 <= i < decimal_bytes(n).len() implies 48 <= #[trigger] decimal_bytes(
            n,
        )[i] < 58 by {
            if i < prefix.len() {
                assert(decimal_bytes(n)[i] == prefix[i]);
            }
        }
    }
}

proof fn lemma_hex_u64_bytes_ascii(n: u64)
    ensures
        forall|i: int| 0 <= i < hex_u64_bytes(n).len() ==> 48 <= #[trigger] hex_u64_bytes(n)[i]
            < 123,
    decreases n,
{
    if n < 16 {
        assert(hex_u64_bytes(n) =~= seq![hex_digit_char(n as u8) as u8]);
    } else {
        lemma_hex_u64_bytes_ascii(n / 16);
        let prefix = hex_u64_bytes(n / 16);
        assert(hex_u64_bytes(n) =~= prefix.push(hex_digit_char((n % 16) as u8) as u8));
        assert forall|i: int| 0 <= i < hex_u64_bytes(n).len() implies 48 <= #[trigger] hex_u64_bytes(
            n,
        )[i] < 123 by {
            if i < prefix.len() {
                assert(hex_u64_bytes(n)[i] == prefix[i]);
            }
        }
    }
}

fn push_decimal(out: &mut Vec<u8>, n: u64)
    ensures
        final(out)@ == old(out)@ + decimal_bytes(n),
    decreases n,
{
    if n >= 10 {
        push_decimal(out, n / 10);
    }
    out.push((n % 10) as u8 + 48);
    proof {
        if n < 10 {
            assert(out@ =~= old(out)@ + decimal_bytes(n));
        } else {
            assert(out@ =~= old(out)@ + decimal_bytes(n));
        }
    }
}

fn push_hex(out: &mut Vec<u8>, n: u64)
    ensures
        final(out)@ == old(out)@ + hex_u64_bytes(n),
    decreases n,
{
    if n >= 16 {
        push_hex(out, n / 16);
    }
    let d = (n % 16) as u8;
    if d < 10 {
        out.push(d + 48);
    } else {
        out.push(d + 87);
    }
    proof {
        assert(out@ =~= old(out)@ + hex_u64_bytes(n));
    }
}

/// Proves that a sequence of ASCII bytes read as characters encodes back to
/// exactly those bytes.
proof fn lemma_ascii_bytes_to_chars(bytes: Seq<u8>)
    requires
        forall|i: int| 0 <= i < bytes.len() ==> #[trigger] bytes[i] < 128,
    ensures
        is_ascii_chars(bytes.map_values(|b: u8| b as char)),
        vstd::utf8::encode_utf8(bytes.map_values(|b: u8| b as char)) == bytes,
{
    let chars = bytes.map_values(|b: u8| b as char);
    assert forall|i: int| 0 <= i < chars.len() implies '\0' <= #[trigger] chars[i]
        <= '\u{7f}' by {
        assert(bytes[i] < 128);
    }
    is_ascii_chars_encode_utf8(chars);
    assert(vstd::utf8::encode_utf8(chars) =~= bytes);
}

/// Renders `n` in decimal.
pub fn u64_to_decimal(n: u64) -> (r: String)
    ensures
        r@ == decimal_chars(n),
{
    let mut bytes: Vec<u8> = Vec::new();
    push_decimal(&mut bytes, n);
    proof {
        lemma_decimal_bytes_ascii(n);
        assert(bytes@ =~= decimal_bytes(n));
        lemma_ascii_bytes_to_chars(bytes@);
        crate::strbytes::lemma_utf8_round_trip(decimal_chars(n));
    }
    match utf8_to_string(bytes) {
        Some(s) => s,
        None => {
            proof {
                assert(false);
            }
            String::new()
        },
    }
}

/// Renders `n` in lowercase hexadecimal.
pub fn u64_to_hex(n: u64) -> (r: String)
    ensures
        r@ == hex_u64_chars(n),
{
    let mut bytes: Vec<u8> = Vec::new();
    push_hex(&mut bytes, n);
    proof {
        lemma_hex_u64_bytes_ascii(n);
        assert(bytes@ =~= hex_u64_bytes(n));
        lemma_ascii_bytes_to_chars(bytes@);
        crate::strbytes::lemma_utf8_round_trip(hex_u64_chars(n));
    }
    match utf8_to_string(bytes) {
        Some(s) => s,
        None => {
            proof {
                assert(false);
            }
            String::new()
        },
    }
}

} // verus!
