//! BLAKE3 digests, spelled in lowercase hexadecimal.

use crate::text::{lower_hex, to_lower_hex};
use vstd::prelude::*;

verus! {

/// The 32-byte BLAKE3 digest of a byte string.
pub uninterp spec fn blake3_digest(input: Seq<u8>) -> Seq<u8>;

/// `blake3::hash`, its `Hash` turned into its 32 raw bytes. Trusted: the
/// digest is named [`blake3_digest`] of the input and is 32 bytes long.
#[verifier::external_body]
fn blake3_hash(input: &[u8]) -> (out: Vec<u8>)
    ensures
        out@ == blake3_digest(input@),
        out@.len() == 32,
{
    blake3::hash(input).as_bytes().to_vec()
}

/// The BLAKE3 digest of `input` in lowercase hexadecimal: 64 characters.
pub fn blake3_hex(input: &[u8]) -> (s: String)
    ensures
        s@ == lower_hex(blake3_digest(input@)),
        s@.len() == 64,
{
    let d = blake3_hash(input);
    to_lower_hex(d.as_slice())
}

/// The BLAKE3 digest of the UTF-8 bytes of a text, in lowercase hex.
pub fn blake3_hex_of_str(s: &str) -> (h: String)
    ensures
        h@ == lower_hex(blake3_digest(vstd::utf8::encode_utf8(s@))),
        h@.len() == 64,
{
    blake3_hex(s.as_bytes())
}

} // verus!
