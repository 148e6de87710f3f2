//! What the library promises as a whole.

pub mod bandwidth;
pub mod delivery;
pub mod estimates;
pub mod fragments;
pub mod handshake;
pub mod hosts;
pub mod layout;
pub mod negotiation;
pub mod packets;
pub mod receiving;
pub mod sending;
pub mod service;
pub mod stream;
pub mod teardown;
pub mod transport;
pub mod window;
