//! The stretcher: from key material and a salt to a 256-bit key.

use pbkdf2::pbkdf2_hmac;
use sha2::Sha256;
use vstd::prelude::*;

verus! {

/// The number of rounds of the stretching function. It is part of the
/// format: another number gives other keys for the same material.
pub const ROUNDS: u32 = 600_000;

/// A derived key: 256 bits.
pub type DerivedKey = [u8; 32];

/// The output of PBKDF2 with HMAC-SHA-256 as its pseudo-random function,
/// for a password, a salt, a number of rounds and an output length in bytes.
pub uninterp spec fn pbkdf2_hmac_sha256(
    password: Seq<u8>,
    salt: Seq<u8>,
    rounds: u32,
    len: nat,
) -> Seq<u8>;

/// Calls `pbkdf2::pbkdf2_hmac::<Sha256>` on a buffer of 32 bytes.
///
/// Not proved: that the buffer then holds the PBKDF2 output named by
/// [`pbkdf2_hmac_sha256`] for these arguments and the buffer's length. The
/// outside function overwrites the whole buffer, whatever it held, and
/// computes from its arguments alone. It does not fail: HMAC takes a key of
/// any length, and any number of rounds is accepted.
#[verifier::external_body]
fn pbkdf2_hmac_sha256_into(password: &[u8], salt: &[u8], rounds: u32, res: &mut [u8; 32])
    ensures
        final(res)@ == pbkdf2_hmac_sha256(password@, salt@, rounds, old(res)@.len()),
{
    pbkdf2_hmac::<Sha256>(password, salt, rounds, res);
}

/// The key that belongs to a pair of material and salt: 32 bytes of
/// PBKDF2-HMAC-SHA-256 after [`ROUNDS`] rounds.
pub open spec fn derived_key(material: Seq<u8>, salt: Seq<u8>) -> Seq<u8> {
    pbkdf2_hmac_sha256(material, salt, ROUNDS, 32)
}

/// Stretches material and salt into a key.
///
/// The key is a function of the pair alone, and always 32 bytes long. Any
/// material and any salt are accepted, the empty ones too.
pub fn derive(material: &[u8], salt: &[u8]) -> (key: DerivedKey)
    ensures
        key@ == derived_key(material@, salt@),
        key@.len() == 32,
{
    let mut key: DerivedKey = [0u8; 32];
    pbkdf2_hmac_sha256_into(material, salt, ROUNDS, &mut key);
    key
}

/// Determinism: two calls of [`derive`] on the same material and salt give
/// the same key.
pub proof fn lemma_derive_deterministic(
    material: &[u8],
    salt: &[u8],
    first: DerivedKey,
    second: DerivedKey,
)
    requires
        call_ensures(derive, (material, salt), first),
        call_ensures(derive, (material, salt), second),
    ensures
        first == second,
{
    assert(first@ =~= second@);
}

} // verus!
