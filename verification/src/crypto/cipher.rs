//! End-to-end encryption of messages.
//!
//! Each message has a one-time X25519 key. The AES-256-GCM message key is
//! derived by HKDF-SHA256 from `DH(ephemeral, recipient) || DH(sender,
//! recipient)`, and the derivation binds both user IDs. Signatures are made
//! in the packet layer.

use vstd::prelude::*;

use crate::bytes::append;
use crate::crypto::primitives;

verus! {

/// An encrypted message: ephemeral public key, nonce, ciphertext and tag.
pub struct Sealed {
    pub eph_pub: [u8; 32],
    pub nonce: [u8; 12],
    pub ciphertext: Vec<u8>,
}

/// The contents of a [`Sealed`].
#[verifier::ext_equal]
pub struct SealedView {
    pub eph_pub: Seq<u8>,
    pub nonce: Seq<u8>,
    pub ciphertext: Seq<u8>,
}

impl View for Sealed {
    type V = SealedView;

    open spec fn view(&self) -> SealedView {
        SealedView {
            eph_pub: self.eph_pub@,
            nonce: self.nonce@,
            ciphertext: self.ciphertext@,
        }
    }
}

/// Why a message could not be encrypted or decrypted.
#[derive(Clone, Copy, Debug, PartialEq, Eq, Structural)]
pub enum CipherError {
    Encrypt,
    Decrypt,
}

impl CipherError {
    pub open spec fn text(self) -> Seq<char> {
        match self {
            CipherError::Encrypt => "AES-GCM 加密失败"@,
            CipherError::Decrypt => "AES-GCM 解密失败（密钥或密文不匹配）"@,
        }
    }

    pub fn message(&self) -> (r: String)
        ensures
            r@ == self.text(),
    {
        match self {
            CipherError::Encrypt => "AES-GCM 加密失败".to_owned(),
            CipherError::Decrypt => "AES-GCM 解密失败（密钥或密文不匹配）".to_owned(),
        }
    }
}

/// `KokonaChat-v1-static-salt`
pub const KDF_SALT: [u8; 25] = [75, 111, 107, 111, 110, 97, 67, 104, 97, 116, 45, 118, 49, 45, 115, 116, 97, 116, 105, 99, 45, 115, 97, 108, 116];

/// `KokonaChat/1.0/`
pub const KDF_INFO_PREFIX: [u8; 15] = [75, 111, 107, 111, 110, 97, 67, 104, 97, 116, 47, 49, 46, 48, 47];

/// The message key for two shared secrets and the two user IDs.
pub open spec fn message_key(
    shared_a: Seq<u8>,
    shared_b: Seq<u8>,
    sender_id: Seq<u8>,
    recipient_id: Seq<u8>,
) -> Seq<u8> {
    primitives::hkdf_sha256(
        KDF_SALT@,
        shared_a + shared_b,
        KDF_INFO_PREFIX@ + sender_id + recipient_id,
    )
}

fn derive_key(
    shared_a: &[u8; 32],
    shared_b: &[u8; 32],
    sender_id: &[u8; 32],
    recipient_id: &[u8; 32],
) -> (key: [u8; 32])
    ensures
        key@ == message_key(shared_a@, shared_b@, sender_id@, recipient_id@),
{
    let mut ikm: Vec<u8> = Vec::new();
    append(&mut ikm, shared_a);
    append(&mut ikm, shared_b);
    let mut info: Vec<u8> = Vec::new();
    append(&mut info, &KDF_INFO_PREFIX);
    append(&mut info, sender_id);
    append(&mut info, recipient_id);
    assert(ikm@ =~= shared_a@ + shared_b@);
    assert(info@ =~= KDF_INFO_PREFIX@ + sender_id@ + recipient_id@);
    primitives::hkdf_sha256_32(&KDF_SALT, &ikm, &info)
}

/// The sealed form of `plaintext` for a given ephemeral secret and nonce.
pub open spec fn sealed_with(
    eph: Seq<u8>,
    nonce: Seq<u8>,
    our_static: Seq<u8>,
    recip_xpub: Seq<u8>,
    sender_id: Seq<u8>,
    recipient_id: Seq<u8>,
    plaintext: Seq<u8>,
) -> SealedView {
    SealedView {
        eph_pub: primitives::x25519_public(eph),
        nonce,
        ciphertext: primitives::aes256_gcm(
            message_key(
                primitives::x25519_shared(eph, recip_xpub),
                primitives::x25519_shared(our_static, recip_xpub),
                sender_id,
                recipient_id,
            ),
            nonce,
            plaintext,
        ),
    }
}

/// Whether `sealed` is well-formed and is `plaintext` sealed under some
/// ephemeral secret and nonce.
pub open spec fn is_sealed(
    sealed: SealedView,
    our_static: Seq<u8>,
    recip_xpub: Seq<u8>,
    sender_id: Seq<u8>,
    recipient_id: Seq<u8>,
    plaintext: Seq<u8>,
) -> bool {
    &&& primitives::gcm_fits(plaintext.len())
    &&& sealed.eph_pub.len() == 32
    &&& sealed.ciphertext.len() == plaintext.len() + primitives::GCM_TAG_LEN
    &&& exists|eph: Seq<u8>, nonce: Seq<u8>|
        eph.len() == 32 && nonce.len() == 12 && sealed == #[trigger] sealed_with(
            eph,
            nonce,
            our_static,
            recip_xpub,
            sender_id,
            recipient_id,
            plaintext,
        )
}

/// Encrypts `plaintext` for a recipient under a fresh ephemeral key and nonce.
pub fn seal(
    our_static: &[u8; 32],
    recip_xpub: &[u8; 32],
    sender_id: &[u8; 32],
    recipient_id: &[u8; 32],
    plaintext: &[u8],
) -> (r: Result<Sealed, CipherError>)
    ensures
        r is Ok <==> primitives::gcm_fits(plaintext@.len()),
        r matches Ok(s) ==> is_sealed(
            s@,
            our_static@,
            recip_xpub@,
            sender_id@,
            recipient_id@,
            plaintext@,
        ),
        r matches Err(e) ==> e == CipherError::Encrypt,
{
    let eph: [u8; 32] = primitives::random_bytes::<32>();
    let nonce: [u8; 12] = primitives::random_bytes::<12>();
    seal_with(&eph, &nonce, our_static, recip_xpub, sender_id, recipient_id, plaintext)
}

/// Encrypts `plaintext` for a recipient under the given ephemeral secret and
/// nonce.
pub fn seal_with(
    eph: &[u8; 32],
    nonce: &[u8; 12],
    our_static: &[u8; 32],
    recip_xpub: &[u8; 32],
    sender_id: &[u8; 32],
    recipient_id: &[u8; 32],
    plaintext: &[u8],
) -> (r: Result<Sealed, CipherError>)
    ensures
        r is Ok <==> primitives::gcm_fits(plaintext@.len()),
        r matches Ok(s) ==> {
            &&& s@ == sealed_with(
                eph@,
                nonce@,
                our_static@,
                recip_xpub@,
                sender_id@,
                recipient_id@,
                plaintext@,
            )
            &&& s@.ciphertext.len() == plaintext@.len() + primitives::GCM_TAG_LEN
        },
        r matches Err(e) ==> e == CipherError::Encrypt,
{
    if plaintext.len() > isize::MAX as usize - primitives::GCM_TAG_LEN {
        return Err(CipherError::Encrypt);
    }
    let eph_pub: [u8; 32] = primitives::x25519_public_key(eph);
    let s1: [u8; 32] = primitives::x25519_diffie_hellman(eph, recip_xpub);
    let s2: [u8; 32] = primitives::x25519_diffie_hellman(our_static, recip_xpub);
    let key: [u8; 32] = derive_key(&s1, &s2, sender_id, recipient_id);
    match primitives::aes256_gcm_encrypt(&key, nonce, plaintext) {
        Some(ciphertext) => Ok(Sealed { eph_pub, nonce: *nonce, ciphertext }),
        None => Err(CipherError::Encrypt),
    }
}

/// What [`open`] makes of a sealed message.
pub open spec fn opened(
    sealed: SealedView,
    our_static: Seq<u8>,
    sender_xpub: Seq<u8>,
    sender_id: Seq<u8>,
    recipient_id: Seq<u8>,
) -> Option<Seq<u8>> {
    primitives::aes256_gcm_open(
        message_key(
            primitives::x25519_shared(our_static, sealed.eph_pub),
            primitives::x25519_shared(our_static, sender_xpub),
            sender_id,
            recipient_id,
        ),
        sealed.nonce,
        sealed.ciphertext,
    )
}

/// Decrypts a sealed message. The owner of the secret key that a message was
/// sealed for gets the plaintext back.
pub fn open(
    sealed: &Sealed,
    our_static: &[u8; 32],
    sender_xpub: &[u8; 32],
    sender_id: &[u8; 32],
    recipient_id: &[u8; 32],
) -> (r: Result<Vec<u8>, CipherError>)
    ensures
        ({
            let plain = opened(sealed@, our_static@, sender_xpub@, sender_id@, recipient_id@);
            &&& r is Ok <==> plain is Some
            &&& r matches Ok(p) ==> plain == Some(p@)
        }),
        r matches Err(e) ==> e == CipherError::Decrypt,
        forall|sender_static: Seq<u8>, plaintext: Seq<u8>|
            sender_static.len() == 32 && sender_xpub@ == primitives::x25519_public(sender_static)
                && #[trigger] is_sealed(
                sealed@,
                sender_static,
                primitives::x25519_public(our_static@),
                sender_id@,
                recipient_id@,
                plaintext,
            ) ==> (r matches Ok(p) && p@ == plaintext),
{
    let s1: [u8; 32] = primitives::x25519_diffie_hellman(our_static, &sealed.eph_pub);
    let s2: [u8; 32] = primitives::x25519_diffie_hellman(our_static, sender_xpub);
    let key: [u8; 32] = derive_key(&s1, &s2, sender_id, recipient_id);
    match primitives::aes256_gcm_decrypt(&key, &sealed.nonce, &sealed.ciphertext) {
        Some(p) => Ok(p),
        None => Err(CipherError::Decrypt),
    }
}

/// The X25519 public key of the user with the given ID, where the ID is a
/// point of the curve.
pub fn ed_pub_to_x25519(ed_pub: &[u8; 32]) -> (r: Option<[u8; 32]>)
    ensures
        r is Some <==> primitives::edwards_to_montgomery(ed_pub@) is Some,
        r matches Some(x) ==> primitives::edwards_to_montgomery(ed_pub@) == Some(x@),
        forall|seed: Seq<u8>|
            seed.len() == 32 && ed_pub@ == #[trigger] primitives::ed25519_public(seed) ==> (
            r matches Some(x) && x@ == primitives::x25519_public(primitives::ed25519_scalar(seed))),
{
    primitives::montgomery_of_edwards(ed_pub)
}

/// The key of a message comes from both shared secrets, that of the one-time
/// key and that of the two accounts, and is bound to who sends it to whom.
pub proof fn law_message_key(
    eph: Seq<u8>,
    nonce: Seq<u8>,
    our_static: Seq<u8>,
    recip_xpub: Seq<u8>,
    sender_id: Seq<u8>,
    recipient_id: Seq<u8>,
    plaintext: Seq<u8>,
)
    ensures
        ({
            let s = sealed_with(
                eph,
                nonce,
                our_static,
                recip_xpub,
                sender_id,
                recipient_id,
                plaintext,
            );
            let secrets = primitives::x25519_shared(eph, recip_xpub) + primitives::x25519_shared(
                our_static,
                recip_xpub,
            );
            let key = primitives::hkdf_sha256(
                KDF_SALT@,
                secrets,
                KDF_INFO_PREFIX@ + (sender_id + recipient_id),
            );
            &&& s.eph_pub == primitives::x25519_public(eph)
            &&& s.nonce == nonce
            &&& s.ciphertext == primitives::aes256_gcm(key, nonce, plaintext)
        }),
{
    assert(KDF_INFO_PREFIX@ + (sender_id + recipient_id) =~= KDF_INFO_PREFIX@ + sender_id
        + recipient_id);
}

} // verus!
