//! Verified core of KokonaChat, a peer-to-peer messenger over UDP.

pub mod account;
pub mod backup;
pub mod bytes;
pub mod config;
pub mod crypto;
pub mod deeplink;
pub mod gui;
pub mod headless;
pub mod headless_laws;
pub mod ipc;
pub mod net;
pub mod people_laws;
pub mod proto;
pub mod scan;
pub mod store;
pub mod table;
pub mod text;
pub mod text_laws;
pub mod tui;
pub mod util;
pub mod util_laws;
