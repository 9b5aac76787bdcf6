//! What the messenger remembers.

pub mod friend_laws;
pub mod friends;
pub mod log;
