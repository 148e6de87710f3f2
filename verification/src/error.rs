//! What can go wrong, and what a caller is told of it.

use vstd::prelude::*;

use crate::packet::Packet;

verus! {

/// The I/O error of the standard library.
#[verifier::external_type_specification]
#[verifier::external_body]
pub struct ExIoError(std::io::Error);

#[derive(Debug)]
pub enum Error {
    /// An operation on the socket failed.
    Io(std::io::Error),
    /// The connection was not established in time.
    TimedOut,
    /// The peer disconnected, with the reason it gave, or it stopped
    /// answering.
    Disconnected(Option<u32>),
    ConnectionRefused,
    InvalidPacket(&'static str),
    /// The host task has shut down.
    ChannelClosed,
    ConnectIdMismatch,
    TooManyPeers,
}

pub type Result<T> = std::result::Result<T, Error>;

/// What the host task hands to a peer's receiver: a packet, or the end of the
/// connection with the reason that the remote side gave, if it gave one.
pub type PeerMsg = std::result::Result<Packet, Option<u32>>;

/// What waiting for a connection came to.
pub enum ConnectOutcome {
    /// The time was up.
    Elapsed,
    /// The host task dropped the request.
    Dropped,
    /// The connection stands.
    Established,
}

/// What a receiver is told of a message from the host task, `None` where the
/// task is gone.
///
/// `Err(Error::Disconnected(Some(data)))` is a graceful disconnect by the
/// remote peer, `Err(Error::Disconnected(None))` a connection timeout, and
/// `Err(Error::ChannelClosed)` the end of the host task.
pub fn received(msg: Option<PeerMsg>) -> (r: Result<Packet>)
    ensures
        match msg {
            Some(Ok(p)) => r matches Ok(q) && q == p,
            Some(Err(data)) => r matches Err(Error::Disconnected(d)) && d == data,
            None => r matches Err(Error::ChannelClosed),
        },
{
    match msg {
        Some(Ok(pkt)) => Ok(pkt),
        Some(Err(data)) => Err(Error::Disconnected(data)),
        None => Err(Error::ChannelClosed),
    }
}

/// What a caller is told of an attempt to connect.
pub fn connected(outcome: ConnectOutcome) -> (r: Result<()>)
    ensures
        match outcome {
            ConnectOutcome::Elapsed => r matches Err(Error::TimedOut),
            ConnectOutcome::Dropped => r matches Err(Error::ChannelClosed),
            ConnectOutcome::Established => r is Ok,
        },
{
    match outcome {
        ConnectOutcome::Elapsed => Err(Error::TimedOut),
        ConnectOutcome::Dropped => Err(Error::ChannelClosed),
        ConnectOutcome::Established => Ok(()),
    }
}

} // verus!
