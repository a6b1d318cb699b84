//! Trusted contracts for functions of outside crates and for the few std
//! functions that vstd leaves unspecified. Everything verified in this
//! library rests on the clauses stated here; each item names the function it
//! relies on.

use vstd::prelude::*;

use sha2::Digest;

verus! {

/// Relies on std's `String::push`: appends the given character to the end of
/// the string.
pub assume_specification[ String::push ](s: &mut String, ch: char)
    ensures
        final(s)@ == old(s)@.push(ch),
;

/// The SHA-256 digest of a byte sequence: a function of the input bytes
/// alone, left unstated here; the sha2 crate computes it.
pub uninterp spec fn sha256_of(b: Seq<u8>) -> Seq<u8>;

/// Relies on sha2's `Sha256`: the digest depends on the input bytes alone
/// and is 32 bytes long.
#[verifier::external_body]
pub(crate) fn sha256(bytes: &Vec<u8>) -> (r: Vec<u8>)
    ensures
        r@ == sha256_of(bytes@),
        r@.len() == 32,
{
    sha2::Sha256::digest(bytes.as_slice()).to_vec()
}

/// Relies on `hex::encode`: two lowercase hexadecimal digits per input
/// byte, most significant digit first, in input order.
#[verifier::external_body]
pub(crate) fn hex_encode(bytes: &Vec<u8>) -> (r: String)
    ensures
        r@ == crate::digest::spec_hex(bytes@),
{
    hex::encode(bytes.as_slice())
}

} // verus!
