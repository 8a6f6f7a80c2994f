//! Hashing and signatures. SHA-256 comes from `sha2` and Ed25519 from
//! `ed25519_dalek`; what they compute is named here, not restated.

use crate::bytes::zeros;
use ed25519_dalek::{Signature, Signer, SigningKey, Verifier, VerifyingKey};
use sha2::{Digest, Sha256};
use vstd::prelude::*;

verus! {

/// The SHA-256 digest of a byte string.
pub uninterp spec fn spec_sha256(data: Seq<u8>) -> Seq<u8>;

/// Whether Ed25519 accepts `sig` as a signature of `msg` under the encoded
/// public key `pubkey`; false where `pubkey` encodes no curve point.
pub uninterp spec fn spec_ed25519_verify(pubkey: Seq<u8>, msg: Seq<u8>, sig: Seq<u8>) -> bool;

/// The Ed25519 signature of `msg` under the 32-byte secret key `secret`.
pub uninterp spec fn spec_ed25519_sign(secret: Seq<u8>, msg: Seq<u8>) -> Seq<u8>;

/// The encoded Ed25519 public key that belongs to the secret key `secret`.
pub uninterp spec fn spec_ed25519_public(secret: Seq<u8>) -> Seq<u8>;

/// A SHA-256 digest as the ledger uses it: 32 bytes. SHA-256 yields no other
/// length, so this is `spec_sha256` with its length made known.
pub open spec fn spec_digest(data: Seq<u8>) -> Seq<u8> {
    let d = spec_sha256(data);
    if d.len() == 32 {
        d
    } else {
        zeros(32)
    }
}

/// Double SHA-256, the hash behind every identifier of the ledger.
pub open spec fn spec_hash256(data: Seq<u8>) -> Seq<u8> {
    spec_digest(spec_digest(data))
}

/// The address of a public key: its SHA-256 digest.
pub open spec fn spec_pubkey_hash(pubkey: Seq<u8>) -> Seq<u8> {
    spec_digest(pubkey)
}

/// What a valid signature is: the key is 32 bytes, the signature 64, and
/// Ed25519 accepts the triple.
pub open spec fn spec_verify_signature(pubkey: Seq<u8>, msg: Seq<u8>, sig: Seq<u8>) -> bool {
    pubkey.len() == 32 && sig.len() == 64 && spec_ed25519_verify(pubkey, msg, sig)
}

/// The secret key that a seed of any length stands for: its SHA-256 digest.
pub open spec fn spec_secret_key(seed: Seq<u8>) -> Seq<u8> {
    spec_digest(seed)
}

/// `sha2::Sha256::digest`: the SHA-256 digest of `data`. Trusted: the result
/// is the digest, which is a function of the input alone and 32 bytes long.
#[verifier::external_body]
fn sha256_digest(data: &[u8]) -> (digest: Vec<u8>)
    ensures
        digest@ == spec_sha256(data@),
        digest@.len() == 32,
{
    Sha256::digest(data).to_vec()
}

/// SHA-256 of `data`.
pub fn sha256(data: &[u8]) -> (digest: Vec<u8>)
    ensures
        digest@ == spec_digest(data@),
        digest@.len() == 32,
{
    sha256_digest(data)
}

/// `ed25519_dalek::VerifyingKey::verify` on a key decoded with
/// `VerifyingKey::from_bytes`. Trusted: the answer is a function of the three
/// byte strings alone; a key that does not decode gives `false`.
#[verifier::external_body]
fn ed25519_verify(pubkey: &[u8], msg: &[u8], sig: &[u8]) -> (ok: bool)
    requires
        pubkey@.len() == 32,
        sig@.len() == 64,
    ensures
        ok == spec_ed25519_verify(pubkey@, msg@, sig@),
{
    let key_bytes: [u8; 32] = pubkey.try_into().unwrap();
    let sig_bytes: [u8; 64] = sig.try_into().unwrap();
    match VerifyingKey::from_bytes(&key_bytes) {
        Ok(key) => key.verify(msg, &Signature::from_bytes(&sig_bytes)).is_ok(),
        Err(_) => false,
    }
}

/// `ed25519_dalek::SigningKey::sign`. Trusted: the signature is a function of
/// key and message alone (Ed25519 signing draws no randomness) and 64 bytes
/// long; and it is one that `VerifyingKey::verify` accepts for the same
/// message under the public half of the key, which is what the crate's
/// documentation shows of every signature that `sign` makes.
#[verifier::external_body]
pub(crate) fn ed25519_sign(secret: &[u8], msg: &[u8]) -> (sig: Vec<u8>)
    requires
        secret@.len() == 32,
    ensures
        sig@ == spec_ed25519_sign(secret@, msg@),
        sig@.len() == 64,
        spec_ed25519_verify(spec_ed25519_public(secret@), msg@, sig@),
{
    let key_bytes: [u8; 32] = secret.try_into().unwrap();
    SigningKey::from_bytes(&key_bytes).sign(msg).to_bytes().to_vec()
}

/// `ed25519_dalek::SigningKey::verifying_key`. Trusted: the encoded public
/// key is a function of the secret key alone and 32 bytes long.
#[verifier::external_body]
pub(crate) fn ed25519_public(secret: &[u8]) -> (pubkey: Vec<u8>)
    requires
        secret@.len() == 32,
    ensures
        pubkey@ == spec_ed25519_public(secret@),
        pubkey@.len() == 32,
{
    let key_bytes: [u8; 32] = secret.try_into().unwrap();
    SigningKey::from_bytes(&key_bytes).verifying_key().to_bytes().to_vec()
}

/// Double SHA-256 of `data`.
pub fn hash256(data: &[u8]) -> (digest: Vec<u8>)
    ensures
        digest@ == spec_hash256(data@),
        digest@.len() == 32,
{
    let first = sha256(data);
    sha256(first.as_slice())
}

/// The address that pays to `pubkey`.
pub fn pubkey_hash(pubkey: &[u8]) -> (hash: Vec<u8>)
    ensures
        hash@ == spec_pubkey_hash(pubkey@),
        hash@.len() == 32,
{
    sha256(pubkey)
}

/// Checks an Ed25519 signature. Keys and signatures of the wrong length are
/// refused before any curve arithmetic.
pub fn verify_signature(pubkey: &[u8], msg: &[u8], sig: &[u8]) -> (ok: bool)
    ensures
        ok == spec_verify_signature(pubkey@, msg@, sig@),
{
    if pubkey.len() != 32 || sig.len() != 64 {
        return false;
    }
    ed25519_verify(pubkey, msg, sig)
}

/// Signs `message` with the key derived from `private_key_seed`. Ed25519
/// accepts the signature under the public key of the same seed.
pub fn sign(private_key_seed: &[u8], message: &[u8]) -> (sig: Vec<u8>)
    ensures
        sig@ == spec_ed25519_sign(spec_secret_key(private_key_seed@), message@),
        sig@.len() == 64,
        spec_ed25519_verify(
            spec_ed25519_public(spec_secret_key(private_key_seed@)),
            message@,
            sig@,
        ),
{
    let secret = sha256(private_key_seed);
    ed25519_sign(secret.as_slice(), message)
}

/// The public key of the key derived from `private_key_seed`.
pub fn public_key(private_key_seed: &[u8]) -> (pubkey: Vec<u8>)
    ensures
        pubkey@ == spec_ed25519_public(spec_secret_key(private_key_seed@)),
        pubkey@.len() == 32,
{
    let secret = sha256(private_key_seed);
    ed25519_public(secret.as_slice())
}

} // verus!
