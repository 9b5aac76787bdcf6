//! The cryptographic functions that come from outside crates, each under a
//! name for its result, and the system's random generator.

use aes_gcm::aead::{Aead, KeyInit};
use ed25519_dalek::{Signer, Verifier};
use rand::RngCore;
use vstd::prelude::*;

verus! {

/// Longest plaintext that AES-GCM takes, in bytes.
pub const GCM_MAX_PLAINTEXT: u64 = 0x10_0000_0000;

/// Bytes that AES-GCM appends to the ciphertext.
pub const GCM_TAG_LEN: usize = 16;

/// The X25519 public key of a secret key.
pub uninterp spec fn x25519_public(secret: Seq<u8>) -> Seq<u8>;

/// The X25519 shared secret of a secret key and a public key.
pub uninterp spec fn x25519_shared(secret: Seq<u8>, public: Seq<u8>) -> Seq<u8>;

/// The first 32 bytes of HKDF-SHA256 output.
pub uninterp spec fn hkdf_sha256(salt: Seq<u8>, ikm: Seq<u8>, info: Seq<u8>) -> Seq<u8>;

/// The AES-256-GCM ciphertext, tag included, without associated data.
pub uninterp spec fn aes256_gcm(key: Seq<u8>, nonce: Seq<u8>, plain: Seq<u8>) -> Seq<u8>;

/// What AES-256-GCM decryption gives, `None` where the tag does not match.
pub uninterp spec fn aes256_gcm_open(key: Seq<u8>, nonce: Seq<u8>, cipher: Seq<u8>) -> Option<Seq<u8>>;

/// The Ed25519 public key of a seed.
pub uninterp spec fn ed25519_public(seed: Seq<u8>) -> Seq<u8>;

/// The unclamped scalar bytes that Ed25519 expands a seed to.
pub uninterp spec fn ed25519_scalar(seed: Seq<u8>) -> Seq<u8>;

/// The Ed25519 signature of a message under a seed.
pub uninterp spec fn ed25519_signature(seed: Seq<u8>, msg: Seq<u8>) -> Seq<u8>;

/// Whether 32 bytes are the encoding of an Ed25519 public key.
pub uninterp spec fn ed25519_is_key(public: Seq<u8>) -> bool;

/// Whether a signature of a message verifies under a public key.
pub uninterp spec fn ed25519_verifies(public: Seq<u8>, msg: Seq<u8>, sig: Seq<u8>) -> bool;

/// The Montgomery form of an Edwards point given by its encoding, `None`
/// where the bytes encode no point.
pub uninterp spec fn edwards_to_montgomery(point: Seq<u8>) -> Option<Seq<u8>>;

/// Whether AES-GCM encrypts a plaintext of this length.
pub open spec fn gcm_fits(len: nat) -> bool {
    len <= GCM_MAX_PLAINTEXT && len + GCM_TAG_LEN <= isize::MAX
}

/// `x25519_dalek::PublicKey::from(&StaticSecret)`: the public key that belongs
/// to the secret bytes.
#[verifier::external_body]
pub(crate) fn x25519_public_key(secret: &[u8; 32]) -> (r: [u8; 32])
    ensures
        r@ == x25519_public(secret@),
{
    x25519_dalek::PublicKey::from(&x25519_dalek::StaticSecret::from(*secret)).to_bytes()
}

/// `x25519_dalek::StaticSecret::diffie_hellman`: the shared secret. Where the
/// other side's public key belongs to a secret key, that side computes the
/// same bytes from our public key (RFC 7748).
#[verifier::external_body]
pub(crate) fn x25519_diffie_hellman(secret: &[u8; 32], public: &[u8; 32]) -> (r: [u8; 32])
    ensures
        r@ == x25519_shared(secret@, public@),
        forall|other: Seq<u8>|
            other.len() == 32 && public@ == #[trigger] x25519_public(other) ==> r@
                == x25519_shared(other, x25519_public(secret@)),
{
    x25519_dalek::StaticSecret::from(*secret).diffie_hellman(
        &x25519_dalek::PublicKey::from(*public),
    ).to_bytes()
}

/// `hkdf::Hkdf::<sha2::Sha256>::new` and `expand` to 32 bytes, a length that
/// `expand` always takes.
#[verifier::external_body]
pub(crate) fn hkdf_sha256_32(salt: &[u8], ikm: &[u8], info: &[u8]) -> (r: [u8; 32])
    ensures
        r@ == hkdf_sha256(salt@, ikm@, info@),
{
    let mut okm = [0u8; 32];
    hkdf::Hkdf::<sha2::Sha256>::new(Some(salt), ikm).expand(info, &mut okm).expect(
        "32 bytes are a valid HKDF output length",
    );
    okm
}

/// `aes_gcm::Aes256Gcm::encrypt` without associated data. It fails exactly on
/// plaintexts over the length limit; the ciphertext is the plaintext's length
/// and the tag.
#[verifier::external_body]
pub(crate) fn aes256_gcm_encrypt(key: &[u8; 32], nonce: &[u8; 12], plain: &[u8]) -> (r: Option<
    Vec<u8>,
>)
    requires
        plain@.len() + GCM_TAG_LEN <= isize::MAX,
    ensures
        r is Some <==> plain@.len() <= GCM_MAX_PLAINTEXT,
        r matches Some(c) ==> c@ == aes256_gcm(key@, nonce@, plain@),
        r matches Some(c) ==> c@.len() == plain@.len() + GCM_TAG_LEN,
{
    aes_gcm::Aes256Gcm::new(key.into()).encrypt(nonce.into(), plain).ok()
}

/// `aes_gcm::Aes256Gcm::decrypt` without associated data. It gives back what
/// `encrypt` was given under the same key and nonce.
#[verifier::external_body]
pub(crate) fn aes256_gcm_decrypt(key: &[u8; 32], nonce: &[u8; 12], cipher: &[u8]) -> (r: Option<
    Vec<u8>,
>)
    ensures
        r is Some <==> aes256_gcm_open(key@, nonce@, cipher@) is Some,
        r matches Some(p) ==> aes256_gcm_open(key@, nonce@, cipher@) == Some(p@),
        forall|plain: Seq<u8>|
            plain.len() <= GCM_MAX_PLAINTEXT && cipher@ == #[trigger] aes256_gcm(
                key@,
                nonce@,
                plain,
            ) ==> r is Some && r->0@ == plain,
{
    aes_gcm::Aes256Gcm::new(key.into()).decrypt(nonce.into(), cipher).ok()
}

/// `ed25519_dalek::SigningKey::verifying_key`: the public key of a seed. Its
/// Montgomery form is the X25519 public key of the seed's scalar bytes, as the
/// documentation of `to_scalar_bytes` says.
#[verifier::external_body]
pub(crate) fn ed25519_public_key(seed: &[u8; 32]) -> (r: [u8; 32])
    ensures
        r@ == ed25519_public(seed@),
        edwards_to_montgomery(r@) == Some(x25519_public(ed25519_scalar(seed@))),
{
    ed25519_dalek::SigningKey::from_bytes(seed).verifying_key().to_bytes()
}

/// `ed25519_dalek::SigningKey::to_scalar_bytes`: the unclamped scalar of a
/// seed.
#[verifier::external_body]
pub(crate) fn ed25519_scalar_bytes(seed: &[u8; 32]) -> (r: [u8; 32])
    ensures
        r@ == ed25519_scalar(seed@),
{
    ed25519_dalek::SigningKey::from_bytes(seed).to_scalar_bytes()
}

/// `ed25519_dalek::SigningKey::sign`: the signature, which is deterministic.
#[verifier::external_body]
pub(crate) fn ed25519_sign(seed: &[u8; 32], msg: &[u8]) -> (r: [u8; 64])
    ensures
        r@ == ed25519_signature(seed@, msg@),
{
    ed25519_dalek::SigningKey::from_bytes(seed).sign(msg).to_bytes()
}

/// `ed25519_dalek::VerifyingKey::from_bytes`: whether it takes the bytes. It
/// takes every public key of a seed.
#[verifier::external_body]
pub(crate) fn ed25519_key_is_valid(public: &[u8; 32]) -> (r: bool)
    ensures
        r == ed25519_is_key(public@),
        forall|seed: Seq<u8>|
            seed.len() == 32 && public@ == #[trigger] ed25519_public(seed) ==> r,
{
    ed25519_dalek::VerifyingKey::from_bytes(public).is_ok()
}

/// `ed25519_dalek::VerifyingKey::verify`: whether the signature is good. A
/// signature made with the seed of the public key is.
#[verifier::external_body]
pub(crate) fn ed25519_verify(public: &[u8; 32], msg: &[u8], sig: &[u8; 64]) -> (r: bool)
    requires
        ed25519_is_key(public@),
    ensures
        r == ed25519_verifies(public@, msg@, sig@),
        forall|seed: Seq<u8>|
            seed.len() == 32 && public@ == #[trigger] ed25519_public(seed) && sig@
                == ed25519_signature(seed, msg@) ==> r,
{
    match ed25519_dalek::VerifyingKey::from_bytes(public) {
        Ok(key) => key.verify(msg, &ed25519_dalek::Signature::from_bytes(sig)).is_ok(),
        Err(_) => false,
    }
}

/// `curve25519_dalek`'s `CompressedEdwardsY::decompress` and
/// `EdwardsPoint::to_montgomery`. On the Ed25519 public key of a seed the
/// result is the X25519 public key of that seed's scalar bytes.
#[verifier::external_body]
pub(crate) fn montgomery_of_edwards(point: &[u8; 32]) -> (r: Option<[u8; 32]>)
    ensures
        r is Some <==> edwards_to_montgomery(point@) is Some,
        r matches Some(m) ==> edwards_to_montgomery(point@) == Some(m@),
        forall|seed: Seq<u8>|
            seed.len() == 32 && point@ == #[trigger] ed25519_public(seed) ==> r is Some && r->0@
                == x25519_public(ed25519_scalar(seed)),
{
    let point = curve25519_dalek::edwards::CompressedEdwardsY(*point).decompress()?;
    Some(point.to_montgomery().to_bytes())
}

/// `rand::rngs::OsRng`: fresh random bytes. Nothing is known of them.
#[verifier::external_body]
pub(crate) fn random_bytes<const N: usize>() -> (r: [u8; N]) {
    let mut out = [0u8; N];
    rand::rngs::OsRng.fill_bytes(&mut out);
    out
}

/// `rand::random`: a fresh random number. Nothing is known of it.
#[verifier::external_body]
pub(crate) fn random_u64() -> (r: u64) {
    rand::random::<u64>()
}

} // verus!
