//! ENet: reliable UDP as a verified protocol engine.

pub mod address;
pub mod buffer;
pub mod channel;
pub mod error;
pub mod laws;
pub mod outgoing;
pub mod packet;
pub mod peer;
pub mod protocol;
pub mod task;

pub use address::{Address, PeerKey};
pub use error::{Error, Result};
pub use packet::{HostConfig, Packet, SendMode};
pub use peer::{Action, CloseReason, PeerEntry, PeerState};
pub use task::{Event, HostTask, ToTask};
