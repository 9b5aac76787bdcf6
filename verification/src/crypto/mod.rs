//! Identities, user IDs and end-to-end encryption.

pub mod cipher;
pub mod id;
pub mod keys;
pub mod primitives;
