//! Packets and host configuration.

use vstd::prelude::*;

use bytes::Bytes;

use crate::buffer;

verus! {

/// Delivery semantics for a [`Packet`].
#[derive(Debug, Clone, Copy, PartialEq, Eq, Structural)]
pub enum SendMode {
    /// Reliable, ordered delivery (retransmitted until ACKed).
    Reliable,
    /// Unreliable, ordered delivery (late arrivals are discarded).
    Unreliable,
    /// Fire-and-forget, no ordering guarantees.
    Unsequenced,
}

/// A message sent to or received from a peer.
#[derive(Debug, Clone)]
pub struct Packet {
    /// The raw payload.
    pub data: Bytes,
    /// Channel index (0-based).
    pub channel: u8,
    /// Delivery semantics.
    pub mode: SendMode,
}

/// A packet with its payload as a sequence.
#[verifier::ext_equal]
pub struct PacketView {
    pub data: Seq<u8>,
    pub channel: u8,
    pub mode: SendMode,
}

impl View for Packet {
    type V = PacketView;

    open spec fn view(&self) -> PacketView {
        PacketView { data: buffer::content(self.data), channel: self.channel, mode: self.mode }
    }
}

impl Packet {
    /// Create a reliable packet.
    pub fn reliable(data: impl Into<Bytes>, channel: u8) -> (p: Self)
        ensures
            call_ensures(Into::<Bytes>::into, (data,), p.data),
            p.channel == channel,
            p.mode == SendMode::Reliable,
    {
        Self { data: data.into(), channel, mode: SendMode::Reliable }
    }

    /// Create an unreliable, sequenced packet.
    pub fn unreliable(data: impl Into<Bytes>, channel: u8) -> (p: Self)
        ensures
            call_ensures(Into::<Bytes>::into, (data,), p.data),
            p.channel == channel,
            p.mode == SendMode::Unreliable,
    {
        Self { data: data.into(), channel, mode: SendMode::Unreliable }
    }

    /// Create an unsequenced (fire-and-forget) packet.
    pub fn unsequenced(data: impl Into<Bytes>) -> (p: Self)
        ensures
            call_ensures(Into::<Bytes>::into, (data,), p.data),
            p.channel == 0,
            p.mode == SendMode::Unsequenced,
    {
        Self { data: data.into(), channel: 0, mode: SendMode::Unsequenced }
    }
}

/// Configuration for a host.
#[derive(Debug, Clone, Copy)]
pub struct HostConfig {
    /// Maximum number of simultaneous peers (default: 64).
    pub max_peers: usize,
    /// Number of channels per peer (default: 2).
    pub channel_count: u8,
    /// Whether to compute and verify CRC-32 checksums (default: false).
    pub use_checksum: bool,
    /// Incoming bandwidth limit in bytes/sec (0 = unlimited).
    pub incoming_bandwidth: u32,
    /// Outgoing bandwidth limit in bytes/sec (0 = unlimited).
    pub outgoing_bandwidth: u32,
}

impl Default for HostConfig {
    fn default() -> (c: Self)
        ensures
            c == (HostConfig {
                max_peers: 64,
                channel_count: 2,
                use_checksum: false,
                incoming_bandwidth: 0,
                outgoing_bandwidth: 0,
            }),
    {
        Self {
            max_peers: 64,
            channel_count: 2,
            use_checksum: false,
            incoming_bandwidth: 0,
            outgoing_bandwidth: 0,
        }
    }
}

} // verus!
