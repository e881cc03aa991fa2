//! Ed25519 keys and signatures, as bytes.
//!
//! `ed25519-dalek` does the work. A secret key, a public key and a signature are held
//! in their standard encodings of 32, 32 and 64 bytes.
use ed25519_dalek::{Signature, Signer, SigningKey, Verifier, VerifyingKey};
use vstd::prelude::*;

verus! {

/// The public key that belongs to a secret key.
pub uninterp spec fn ed25519_public_key(secret: Seq<u8>) -> Seq<u8>;

/// The signature of a message under a secret key.
pub uninterp spec fn ed25519_signature(secret: Seq<u8>, message: Seq<u8>) -> Seq<u8>;

/// Whether a signature of a message verifies under a public key.
pub uninterp spec fn ed25519_verifies(key: Seq<u8>, message: Seq<u8>, signature: Seq<u8>) -> bool;

/// `SigningKey::generate` on the operating system's generator: some secret key. Which
/// one is left to chance, so nothing is said of it. The generator panics where the
/// operating system has no randomness to give.
#[verifier::external_body]
pub(crate) fn generate_secret_key() -> (r: [u8; 32]) {
    SigningKey::generate(&mut rand::rngs::OsRng).to_bytes()
}

/// The key came back from a call of the generator.
pub closed spec fn is_drawn_key(key: [u8; 32]) -> bool {
    call_ensures(generate_secret_key, (), key)
}

/// A secret key drawn for a slot. The slot has no part in the draw: it tells the draws
/// of one setup apart, so that a contract that speaks of the keys of two slots speaks
/// of two draws.
pub fn draw_secret_key(_slot: usize) -> (r: [u8; 32])
    ensures
        is_drawn_key(r),
{
    generate_secret_key()
}

/// What is drawn for a slot is what the generator returned, whatever the slot.
pub(crate) proof fn lemma_draw_asks_generator(slot: usize, key: [u8; 32])
    requires
        call_ensures(draw_secret_key, (slot,), key),
    ensures
        call_ensures(generate_secret_key, (), key),
{
}

/// `SigningKey::verifying_key`: the public key of a secret key, which depends on
/// nothing else.
#[verifier::external_body]
pub(crate) fn public_key(secret: &[u8; 32]) -> (r: [u8; 32])
    ensures
        r@ == ed25519_public_key(secret@),
{
    SigningKey::from_bytes(secret).verifying_key().to_bytes()
}

/// `SigningKey::sign`: the signature of a message, which depends on the secret key and
/// the message alone, and verifies under the public key of that secret key.
#[verifier::external_body]
pub(crate) fn sign_message(secret: &[u8; 32], message: &[u8]) -> (r: [u8; 64])
    ensures
        r@ == ed25519_signature(secret@, message@),
        ed25519_verifies(ed25519_public_key(secret@), message@, r@),
{
    SigningKey::from_bytes(secret).sign(message).to_bytes()
}

/// `VerifyingKey::verify`: whether a signature verifies, which depends on the key, the
/// message and the signature alone. Under bytes that are no public key nothing
/// verifies. `Signature::from_slice`, which reads the signature, fails on any length
/// but 64.
#[verifier::external_body]
pub(crate) fn verify_signature(key: &[u8; 32], message: &[u8], signature: &[u8]) -> (r: bool)
    requires
        signature@.len() == 64,
    ensures
        r == ed25519_verifies(key@, message@, signature@),
{
    let sig = Signature::from_slice(signature).unwrap();
    match VerifyingKey::from_bytes(key) {
        Ok(k) => k.verify(message, &sig).is_ok(),
        Err(_) => false,
    }
}

} // verus!
