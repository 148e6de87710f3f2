//! One peer of a host: its state, what it keeps true, and what it asks the
//! host to do.

use std::collections::VecDeque;

use vstd::prelude::*;

use bytes::Bytes;

use crate::address::{Address, PeerKey};
use crate::buffer;
use crate::channel;
use crate::channel::{Channel, ChannelView, UnsequencedWindow};
use crate::outgoing;
use crate::outgoing::{OutView, OutstandingReliable};
use crate::packet::{Packet, PacketView, SendMode};
use crate::protocol::{
    DEFAULT_PACKET_THROTTLE, DEFAULT_RTT_MS, MAX_CHANNELS, PACKET_THROTTLE_SCALE,
};

pub mod budget;
pub mod emit;
pub mod receive;
pub mod rtt;
pub mod send;
pub mod service;
pub mod timing;

verus! {

/// Maximum concurrent in-progress fragment reassemblies per channel.
/// Caps per-channel memory use.
pub const MAX_FRAGMENT_BUFFERS_PER_CHANNEL: usize = 64;

/// Maximum total bytes held in in-progress fragment buffers across all channels
/// for a single peer: 16 MiB.
pub const MAX_FRAGMENT_BYTES_PER_PEER: usize = 16 * 1024 * 1024;

#[derive(Debug, Clone, Copy, PartialEq, Eq, Structural)]
pub enum PeerState {
    Connecting,
    /// Server side: VERIFY_CONNECT sent, waiting for ACK before exposing to application.
    AcknowledgingConnect,
    Connected,
    /// User called disconnect; draining the reliable-send queue before sending CMD_DISCONNECT.
    DisconnectLater(u32),
    Disconnecting,
}

/// Why a connection ended.
#[derive(Debug, Clone, Copy, PartialEq, Eq, Structural)]
pub enum CloseReason {
    /// The remote side disconnected and gave this reason.
    Remote(u32),
    /// The remote side stopped acknowledging.
    TimedOut,
    /// The disconnect that was asked for here is complete.
    Local,
}

/// What the host asks its surroundings to do.
#[derive(Debug)]
pub enum Action {
    /// Send a datagram.
    SendTo { addr: Address, datagram: Bytes },
    /// Hand a packet to the peer's user.
    Deliver { key: PeerKey, packet: Packet },
    /// Hand a new connection to whoever accepts connections.
    Accept { key: PeerKey },
    /// Tell whoever asked for the connection that it stands.
    ConnectReply { key: PeerKey },
    /// Tell the peer's user that the connection ended.
    Closed { key: PeerKey, reason: CloseReason },
}

/// An action with its payload as a sequence.
#[verifier::ext_equal]
pub enum ActionView {
    SendTo { addr: Address, datagram: Seq<u8> },
    Deliver { key: PeerKey, packet: PacketView },
    Accept { key: PeerKey },
    ConnectReply { key: PeerKey },
    Closed { key: PeerKey, reason: CloseReason },
}

impl View for Action {
    type V = ActionView;

    open spec fn view(&self) -> ActionView {
        match *self {
            Action::SendTo { addr, datagram } => ActionView::SendTo {
                addr,
                datagram: buffer::content(datagram),
            },
            Action::Deliver { key, packet } => ActionView::Deliver { key, packet: packet@ },
            Action::Accept { key } => ActionView::Accept { key },
            Action::ConnectReply { key } => ActionView::ConnectReply { key },
            Action::Closed { key, reason } => ActionView::Closed { key, reason },
        }
    }
}

/// The views of a list of actions.
pub open spec fn actions(s: Seq<Action>) -> Seq<ActionView> {
    s.map_values(|a: Action| a@)
}

/// One peer.
pub struct PeerEntry {
    pub addr: Address,
    pub state: PeerState,
    pub outgoing_peer_id: u16,
    pub connect_id: u32,
    pub incoming_session_id: u8,
    pub outgoing_session_id: u8,
    pub mtu: u32,
    pub window_size: u32,
    /// ENet packet throttle (0..=PACKET_THROTTLE_SCALE). Controls how much of window_size
    /// is usable: effective_window = (packet_throttle / scale) * window_size.
    pub packet_throttle: u32,
    pub throttle_interval: u32,
    pub throttle_acceleration: u32,
    pub throttle_deceleration: u32,
    pub rtt: u32,
    pub rtt_var: u32,
    pub rtt_initialized: bool,
    pub last_send_time: u32,
    pub last_receive_time: u32,
    pub channels: Vec<Channel>,
    pub unsequenced_window: UnsequencedWindow,
    /// In-flight reliable packets in the order of (channel_id, reliable_seq).
    pub outgoing_reliable: Vec<OutstandingReliable>,
    /// Packets queued because the reliable send window was full at send time, or
    /// behind such a packet of their channel. Tried again in each service.
    pub pending_send: VecDeque<Packet>,
    /// Total bytes currently committed to in-progress fragment reassembly buffers.
    /// Checked before allocating new buffers to prevent per-peer memory exhaustion.
    pub fragment_bytes_in_flight: usize,
    /// Timestamp of the start of the current throttle measurement interval.
    pub packet_throttle_epoch: u32,
    /// RTT snapshot taken at the start of the current throttle interval.
    /// Used to determine if the link has improved or degraded.
    pub rtt_at_throttle_epoch: u32,
    /// The user's end of the connection is held back until it is established.
    pub handle_held: bool,
    /// Client side: whoever asked for the connection waits for a reply.
    pub reply_held: bool,
    // Connection-level sequence number tracking
    pub incoming_reliable_seq: u16,
    pub outgoing_reliable_seq: u16,
}

/// The state of a peer, with payloads as sequences.
#[verifier::ext_equal]
pub struct PeerView {
    pub addr: Address,
    pub state: PeerState,
    pub outgoing_peer_id: u16,
    pub connect_id: u32,
    pub incoming_session_id: u8,
    pub outgoing_session_id: u8,
    pub mtu: u32,
    pub window_size: u32,
    pub packet_throttle: u32,
    pub throttle_interval: u32,
    pub throttle_acceleration: u32,
    pub throttle_deceleration: u32,
    pub rtt: u32,
    pub rtt_var: u32,
    pub rtt_initialized: bool,
    pub last_send_time: u32,
    pub last_receive_time: u32,
    pub channels: Seq<ChannelView>,
    pub unsequenced: channel::unsequenced::UnsequencedView,
    pub outgoing: Seq<OutView>,
    pub pending: Seq<PacketView>,
    pub fragment_bytes: int,
    pub packet_throttle_epoch: u32,
    pub rtt_at_throttle_epoch: u32,
    pub handle_held: bool,
    pub reply_held: bool,
    pub incoming_reliable_seq: u16,
    pub outgoing_reliable_seq: u16,
}

impl View for PeerEntry {
    type V = PeerView;

    open spec fn view(&self) -> PeerView {
        PeerView {
            addr: self.addr,
            state: self.state,
            outgoing_peer_id: self.outgoing_peer_id,
            connect_id: self.connect_id,
            incoming_session_id: self.incoming_session_id,
            outgoing_session_id: self.outgoing_session_id,
            mtu: self.mtu,
            window_size: self.window_size,
            packet_throttle: self.packet_throttle,
            throttle_interval: self.throttle_interval,
            throttle_acceleration: self.throttle_acceleration,
            throttle_deceleration: self.throttle_deceleration,
            rtt: self.rtt,
            rtt_var: self.rtt_var,
            rtt_initialized: self.rtt_initialized,
            last_send_time: self.last_send_time,
            last_receive_time: self.last_receive_time,
            channels: channel_views(self.channels@),
            unsequenced: self.unsequenced_window@,
            outgoing: outgoing::views(self.outgoing_reliable@),
            pending: packet_views(self.pending_send@),
            fragment_bytes: self.fragment_bytes_in_flight as int,
            packet_throttle_epoch: self.packet_throttle_epoch,
            rtt_at_throttle_epoch: self.rtt_at_throttle_epoch,
            handle_held: self.handle_held,
            reply_held: self.reply_held,
            incoming_reliable_seq: self.incoming_reliable_seq,
            outgoing_reliable_seq: self.outgoing_reliable_seq,
        }
    }
}

/// The views of channels.
pub open spec fn channel_views(s: Seq<Channel>) -> Seq<ChannelView> {
    s.map_values(|c: Channel| c@)
}

/// The views of packets.
pub open spec fn packet_views(s: Seq<Packet>) -> Seq<PacketView> {
    s.map_values(|p: Packet| p@)
}

/// The bytes that a checksum takes in a datagram.
pub open spec fn checksum_size(ck: bool) -> int {
    if ck {
        4
    } else {
        0
    }
}

/// Commands in flight: in order, each sent at least once and small enough
/// for a datagram.
pub open spec fn outgoing_ok(s: Seq<OutView>) -> bool {
    &&& outgoing::sorted(s)
    &&& forall|i: int| 0 <= i < s.len() ==> command_ok(#[trigger] s[i])
}

/// A command in flight was sent at least once and fits in a datagram.
pub open spec fn command_ok(v: OutView) -> bool {
    v.send_attempts >= 1 && v.packet_bytes.len() + 8 <= isize::MAX
}

impl PeerView {
    /// A new peer with `channels` empty channels.
    pub open spec fn fresh(addr: Address, state: PeerState, channels: int, now: u32) -> Self {
        PeerView {
            addr,
            state,
            outgoing_peer_id: 0xFFFF,
            connect_id: 0,
            incoming_session_id: 0xFF,
            outgoing_session_id: 0xFF,
            mtu: 0,
            window_size: 0,
            packet_throttle: DEFAULT_PACKET_THROTTLE,
            throttle_interval: 0,
            throttle_acceleration: 0,
            throttle_deceleration: 0,
            rtt: DEFAULT_RTT_MS,
            rtt_var: DEFAULT_RTT_MS / 2,
            rtt_initialized: false,
            last_send_time: now,
            last_receive_time: now,
            channels: Seq::new(channels as nat, |i: int| ChannelView::fresh()),
            unsequenced: channel::unsequenced::UnsequencedView::fresh(),
            outgoing: Seq::empty(),
            pending: Seq::empty(),
            fragment_bytes: 0,
            packet_throttle_epoch: 0,
            rtt_at_throttle_epoch: DEFAULT_RTT_MS,
            handle_held: true,
            reply_held: false,
            incoming_reliable_seq: 0,
            outgoing_reliable_seq: 0,
        }
    }

    /// A batch of up to one MTU fits in memory. On machines with 64-bit
    /// addresses every MTU does.
    pub open spec fn mtu_fits(self) -> bool {
        self.mtu + 64 <= isize::MAX
    }

    /// Whether the datagrams that `p` needs can be laid out: the MTU leaves
    /// room for a payload behind the headers, the channel exists, and the
    /// commands fit in memory.
    pub open spec fn sendable(self, ck: bool, p: PacketView) -> bool {
        &&& self.mtu_fits()
        &&& p.data.len() + 64 <= isize::MAX
        &&& match p.mode {
            SendMode::Reliable => p.channel < self.channels.len() ==> {
                &&& self.mtu >= 10 + checksum_size(ck)
                &&& p.data.len() > self.mtu - 10 - checksum_size(ck) ==> self.mtu > 28
                    + checksum_size(ck)
            },
            SendMode::Unreliable => {
                &&& p.channel < self.channels.len()
                &&& self.mtu >= 12 + checksum_size(ck)
                &&& p.data.len() > self.mtu - 12 - checksum_size(ck) ==> self.mtu > 28
                    + checksum_size(ck)
            },
            SendMode::Unsequenced => true,
        }
    }

    /// What holds of every peer: the bounds on what it keeps for later, the
    /// order of what is in flight, and the ranges of its estimates.
    pub open spec fn wf(self, ck: bool) -> bool {
        &&& 1 <= self.channels.len() <= MAX_CHANNELS
        &&& forall|i: int|
            0 <= i < self.channels.len() ==> (#[trigger] self.channels[i]).wf()
                && self.channels[i].fragments.len() <= MAX_FRAGMENT_BUFFERS_PER_CHANNEL
        &&& outgoing_ok(self.outgoing)
        &&& self.packet_throttle <= PACKET_THROTTLE_SCALE
        &&& 1 <= self.rtt <= 0xFFFF
        &&& self.rtt_var <= 0xFFFF
        &&& self.fragment_bytes == budget::total_held(self.channels)
        &&& self.fragment_bytes <= MAX_FRAGMENT_BYTES_PER_PEER
        &&& forall|i: int|
            0 <= i < self.pending.len() ==> self.sendable(ck, #[trigger] self.pending[i])
        &&& self.state == PeerState::Connecting ==> self.pending.len() == 0
    }
}

impl PeerEntry {
    /// The peer's state is well-formed, and so is every reassembly.
    pub open spec fn wf(&self, ck: bool) -> bool {
        &&& self@.wf(ck)
        &&& forall|i: int| 0 <= i < self.channels@.len() ==> (#[trigger] self.channels@[i]).wf()
    }
}

/// A command in flight more keeps what holds of them.
pub proof fn lemma_insert_ok(s: Seq<OutView>, v: OutView)
    requires
        outgoing_ok(s),
        command_ok(v),
    ensures
        outgoing_ok(outgoing::insert(s, v)),
{
    outgoing::lemma_insert_sorted(s, v);
    let t = outgoing::insert(s, v);
    assert forall|i: int| 0 <= i < t.len() implies command_ok(#[trigger] t[i]) by {
        if t[i] != v {
            let j = choose|j: int| 0 <= j < s.len() && s[j] == t[i];
            assert(command_ok(s[j]));
        }
    }
}

/// Several commands in flight more keep what holds of them.
pub proof fn lemma_insert_all_ok(s: Seq<OutView>, items: Seq<OutView>)
    requires
        outgoing_ok(s),
        forall|i: int| 0 <= i < items.len() ==> command_ok(#[trigger] items[i]),
    ensures
        outgoing_ok(outgoing::insert_all(s, items)),
    decreases items.len(),
{
    if items.len() > 0 {
        lemma_insert_all_ok(s, items.drop_last());
        lemma_insert_ok(outgoing::insert_all(s, items.drop_last()), items.last());
    }
}

/// A command in flight less keeps what holds of them.
pub proof fn lemma_remove_ok(s: Seq<OutView>, channel_id: u8, seq: u16)
    requires
        outgoing_ok(s),
    ensures
        outgoing_ok(outgoing::remove(s, channel_id, seq)),
{
    outgoing::lemma_remove_sorted(s, channel_id, seq);
    let t = outgoing::remove(s, channel_id, seq);
    assert forall|i: int| 0 <= i < t.len() implies command_ok(#[trigger] t[i]) by {
        let j = choose|j: int| 0 <= j < s.len() && s[j] == t[i];
        assert(command_ok(s[j]));
    }
}

/// A channel that holds the same reassemblies keeps the peer well-formed.
pub proof fn lemma_with_channel_wf(p: PeerView, ck: bool, ch: u8, c: ChannelView)
    requires
        p.wf(ck),
        ch < p.channels.len(),
        c.wf(),
        c.fragments == p.channels[ch as int].fragments,
    ensures
        p.with_channel(ch, c).wf(ck),
{
    let q = p.with_channel(ch, c);
    budget::lemma_total_held_changed(p.channels, ch as int, c);
    assert forall|i: int| 0 <= i < q.pending.len() implies q.sendable(
        ck,
        #[trigger] q.pending[i],
    ) by {
        assert(p.sendable(ck, p.pending[i]));
    }
    assert forall|i: int| 0 <= i < q.channels.len() implies (#[trigger] q.channels[i]).wf()
        && q.channels[i].fragments.len() <= MAX_FRAGMENT_BUFFERS_PER_CHANNEL by {
        assert(p.channels[i].wf());
        assert(p.channels[ch as int].wf());
    }
}

} // verus!
