//! The local identity: one seed from which the signing key and the
//! encryption key are derived.

use vstd::prelude::*;

use crate::bytes::array_at;
use crate::crypto::id;
use crate::crypto::primitives;

verus! {

/// A key pair whose Ed25519 public key is the user ID. The X25519 key comes
/// from the same seed, so that anyone can compute its public half from the
/// user ID.
pub struct Identity {
    /// Identity seed, which is also the Ed25519 secret key.
    pub seed: [u8; 32],
    /// Ed25519 public key: the user ID.
    pub ed_pub: [u8; 32],
    /// X25519 secret key.
    pub x25519_sk: [u8; 32],
}

/// Why stored key material is not an identity.
#[derive(Clone, Copy, Debug, PartialEq, Eq, Structural)]
pub enum KeyError {
    /// The material is not 32 bytes long.
    Length,
    /// The text is not hexadecimal.
    Hex,
}

impl Identity {
    /// The public half and the encryption key belong to the seed, and the
    /// public encryption key is what others compute from the user ID.
    pub open spec fn wf(&self) -> bool {
        &&& self.ed_pub@ == primitives::ed25519_public(self.seed@)
        &&& self.x25519_sk@ == primitives::ed25519_scalar(self.seed@)
        &&& primitives::edwards_to_montgomery(self.ed_pub@) == Some(
            primitives::x25519_public(self.x25519_sk@),
        )
    }

    /// A new identity from a random seed.
    pub fn generate() -> (r: Self)
        ensures
            r.wf(),
    {
        Self::from_seed(primitives::random_bytes::<32>())
    }

    /// The identity of a seed.
    pub fn from_seed(seed: [u8; 32]) -> (r: Self)
        ensures
            r.wf(),
            r.seed == seed,
    {
        let ed_pub: [u8; 32] = primitives::ed25519_public_key(&seed);
        let x25519_sk: [u8; 32] = primitives::ed25519_scalar_bytes(&seed);
        Identity { seed, ed_pub, x25519_sk }
    }

    /// The identity stored in a key file with the given contents.
    pub fn from_key_file(bytes: &[u8]) -> (r: Result<Self, KeyError>)
        ensures
            r is Ok <==> bytes@.len() == 32,
            r matches Ok(i) ==> i.wf() && i.seed@ == bytes@,
            r matches Err(e) ==> e == KeyError::Length,
    {
        if bytes.len() != 32 {
            return Err(KeyError::Length);
        }
        let seed: [u8; 32] = array_at::<32>(bytes, 0);
        assert(seed@ =~= bytes@);
        Ok(Self::from_seed(seed))
    }

    /// The identity whose seed is written out in hexadecimal.
    pub fn from_seed_hex(text: &str) -> (r: Result<Self, KeyError>)
        ensures
            match id::hex_value(vstd::utf8::encode_utf8(text@)) {
                Some(b) => if b.len() == 32 {
                    r matches Ok(i) && i.wf() && i.seed@ == b
                } else {
                    r matches Err(KeyError::Length)
                },
                None => r matches Err(KeyError::Hex),
            },
    {
        match id::hex_decode(text.as_bytes()) {
            Ok(bytes) => Self::from_key_file(&bytes),
            Err(_) => Err(KeyError::Hex),
        }
    }

    /// The user ID in hexadecimal.
    pub fn user_id(&self) -> (r: String)
        ensures
            r@ == id::hex_text(self.ed_pub@),
    {
        id::encode(self.ed_pub)
    }

    /// The seed in hexadecimal, for backup and migration.
    pub fn seed_hex(&self) -> (r: String)
        ensures
            r@ == id::hex_text(self.seed@),
    {
        id::hex_encode(&self.seed)
    }
}

} // verus!
