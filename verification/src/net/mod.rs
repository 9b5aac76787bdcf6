//! Network layer.

pub mod addr_laws;
pub mod announce;
pub mod announce_laws;
pub mod attach;
pub mod attach_laws;
pub mod clock_laws;
pub mod contact_laws;
pub mod driver;
pub mod event;
pub mod fail_laws;
pub mod ip;
pub mod ip_laws;
pub mod laws;
pub mod local_laws;
pub mod lookup;
pub mod messages;
pub mod node;
pub mod packet;
pub mod push_laws;
pub mod pushes;
pub mod retransmit;
pub mod rounds;
pub mod route_laws;
pub mod saving_laws;
pub mod search_laws;
pub mod sending_laws;
pub mod session;
pub mod socket;
pub mod tick_laws;
pub mod traffic_laws;
pub mod transfer_laws;
