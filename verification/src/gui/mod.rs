//! Pictures of the graphical interface.

pub mod avatar;
pub mod qr;
