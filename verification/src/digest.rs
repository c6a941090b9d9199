//! The content check that comes before any parsing: two inputs with the same
//! SHA-2 256 digest are taken to be the same.

use chksum::Digest;
use vstd::prelude::*;

verus! {

/// The SHA-2 256 digest of `data` in lowercase hexadecimal, as `chksum` computes it.
pub uninterp spec fn sha2_256_hex(data: Seq<u8>) -> Seq<char>;

/// Calls `chksum::chksum` with `chksum::SHA2_256` on the bytes and renders the digest
/// with `to_hex_lowercase`.
///
/// The contract names the text of the digest. It also claims that the call succeeds:
/// `chksum` fails only where it has to read (a file, a directory, the standard
/// input), and bytes in memory are hashed as they are.
#[verifier::external_body]
fn digest_hex(data: &[u8]) -> (hex: Option<String>)
    ensures
        hex is Some,
        hex matches Some(text) ==> text@ == sha2_256_hex(data@),
{
    chksum::chksum::<chksum::SHA2_256>(data).ok().map(|digest| digest.to_hex_lowercase())
}

/// The SHA-2 256 digest of `data` in lowercase hexadecimal.
pub fn digest(data: &[u8]) -> (hex: String)
    ensures
        hex@ == sha2_256_hex(data@),
{
    match digest_hex(data) {
        Some(text) => text,
        None => String::new(),
    }
}

/// Compares two inputs by their SHA-2 256 digests.
pub fn check_for_is_same_input(first: &[u8], second: &[u8]) -> (same: bool)
    ensures
        same == (sha2_256_hex(first@) == sha2_256_hex(second@)),
{
    digest(first) == digest(second)
}

} // verus!
