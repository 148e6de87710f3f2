//! The host as one function of its events.

use vstd::prelude::*;

use bytes::Bytes;

use crate::address::{Address, PeerKey};
use crate::buffer;
use crate::packet::{Packet, PacketView};
use crate::peer;
use crate::peer::{Action, ActionView};
use crate::task::{HostTask, HostView};

verus! {

/// What a user asks of the host.
#[derive(Debug)]
pub enum ToTask {
    Send { peer_key: PeerKey, packet: Packet },
    Disconnect { peer_key: PeerKey, data: u32 },
    /// Client-side connect request.
    Connect { addr: Address, channel_count: u8, data: u32 },
}

/// What happens to a host.
#[derive(Debug)]
pub enum Event {
    /// A datagram came.
    Datagram { from: Address, data: Bytes },
    /// A user asks for something.
    Request(ToTask),
    /// Time has passed.
    Tick,
}

/// An event with its payload as a sequence.
#[verifier::ext_equal]
pub enum EventView {
    Datagram { from: Address, data: Seq<u8> },
    Send { peer_key: PeerKey, packet: PacketView },
    Disconnect { peer_key: PeerKey, data: u32 },
    Connect { addr: Address, channel_count: u8, data: u32 },
    Tick,
}

impl View for Event {
    type V = EventView;

    open spec fn view(&self) -> EventView {
        match *self {
            Event::Datagram { from, data } => EventView::Datagram {
                from,
                data: buffer::content(data),
            },
            Event::Request(ToTask::Send { peer_key, packet }) => EventView::Send {
                peer_key,
                packet: packet@,
            },
            Event::Request(ToTask::Disconnect { peer_key, data }) => EventView::Disconnect {
                peer_key,
                data,
            },
            Event::Request(ToTask::Connect { addr, channel_count, data }) => EventView::Connect {
                addr,
                channel_count,
                data,
            },
            Event::Tick => EventView::Tick,
        }
    }
}

impl HostView {
    /// The host can take an event: the datagrams that a packet needs can be
    /// laid out, and another attempt of every command that is due can be
    /// counted.
    pub open spec fn can_step(self, e: EventView, now: u32) -> bool {
        match e {
            EventView::Send { peer_key, packet } => self.can_send(peer_key, packet),
            EventView::Tick => self.serviceable(now),
            _ => true,
        }
    }

    /// The host after an event, where a new connection gets the connect ID
    /// `id`.
    pub open spec fn step(self, e: EventView, id: u32, now: u32) -> (Self, Seq<ActionView>) {
        match e {
            EventView::Datagram { from, data } => self.on_datagram(data, from, now),
            EventView::Send { peer_key, packet } => self.send_packet(peer_key, packet, now),
            EventView::Disconnect { peer_key, data } => self.send_disconnect(peer_key, data, now),
            EventView::Connect { addr, channel_count, data } => self.connect(
                addr,
                channel_count,
                data,
                id,
                now,
            ),
            EventView::Tick => self.service_all(now),
        }
    }
}

impl HostTask {
    /// Whether the host can take an event.
    pub fn can_step(&self, event: &Event, now_ms: u32) -> (r: bool)
        ensures
            r == self@.can_step(event@, now_ms),
    {
        match event {
            Event::Request(ToTask::Send { peer_key, packet }) => self.can_send(*peer_key, packet),
            Event::Tick => self.can_service(now_ms),
            _ => true,
        }
    }

    /// Takes an event. Returns the key of the connection that a connect
    /// request started, or nothing where there is no free slot.
    pub fn step(&mut self, event: Event, now_ms: u32, out: &mut Vec<Action>) -> (r: Option<PeerKey>)
        requires
            old(self).wf(),
            old(self)@.can_step(event@, now_ms),
        ensures
            final(self).wf(),
            exists|id: u32|
                {
                    let (h, sent) = #[trigger] old(self)@.step(event@, id, now_ms);
                    final(self)@ == h && peer::actions(final(out)@) == peer::actions(old(out)@)
                        + sent
                },
            r == (match (event@, old(self)@.free_slot()) {
                (EventView::Connect { .. }, Some(slot)) => Some(PeerKey(slot as usize)),
                _ => None,
            }),
    {
        match event {
            Event::Datagram { from, data } => {
                self.on_datagram(buffer::as_slice(&data), from, now_ms, out);
                assert(self@ == old(self)@.step(event@, 0, now_ms).0);
                None
            },
            Event::Request(ToTask::Send { peer_key, packet }) => {
                self.send_packet(peer_key, packet, now_ms, out);
                assert(self@ == old(self)@.step(event@, 0, now_ms).0);
                None
            },
            Event::Request(ToTask::Disconnect { peer_key, data }) => {
                self.send_disconnect(peer_key, data, now_ms, out);
                assert(self@ == old(self)@.step(event@, 0, now_ms).0);
                None
            },
            Event::Request(ToTask::Connect { addr, channel_count, data }) => {
                let r = self.connect(addr, channel_count, data, now_ms, out);
                proof {
                    let id = choose|connect_id: u32|
                        {
                            let (h, sent) = #[trigger] old(self)@.connect(
                                addr,
                                channel_count,
                                data,
                                connect_id,
                                now_ms,
                            );
                            self@ == h && peer::actions(out@) == peer::actions(old(out)@) + sent
                        };
                    assert(self@ == old(self)@.step(event@, id, now_ms).0);
                }
                r
            },
            Event::Tick => {
                self.service_all(now_ms, out);
                assert(self@ == old(self)@.step(event@, 0, now_ms).0);
                None
            },
        }
    }
}

} // verus!
