//! Receiving: packets, fragments, and what the remote side configures.

use vstd::prelude::*;

use bytes::Bytes;

use crate::address::PeerKey;
use crate::buffer;
use crate::channel;
use crate::channel::key_of;
use crate::channel::ChannelView;
use crate::outgoing;
use crate::outgoing::remove_outstanding;
use crate::packet::{Packet, PacketView, SendMode};
use crate::peer;
use crate::peer::budget;
use crate::peer::send;
use crate::peer::service;
use crate::peer::{
    Action, ActionView, PeerEntry, PeerState, PeerView, MAX_FRAGMENT_BUFFERS_PER_CHANNEL,
    MAX_FRAGMENT_BYTES_PER_PEER,
};
use crate::protocol::command;
use crate::protocol::sequence;
use crate::protocol::{
    seq_lt, BandwidthLimitCmd, Command, CommandBody, SendFragmentCmd, ThrottleConfigureCmd, VerifyConnectCmd,
    CHANNEL_ID_CONNECTION, MAX_FRAGMENT_COUNT, MAX_PACKET_SIZE, WINDOW_SIZE_MAX, WINDOW_SIZE_MIN,
};

verus! {

/// The window that a bandwidth allows, without a limit above.
pub open spec fn bandwidth_window(bandwidth: u32) -> u32 {
    if bandwidth == 0 {
        WINDOW_SIZE_MAX
    } else if bandwidth / 65536 * 4096 < WINDOW_SIZE_MIN {
        WINDOW_SIZE_MIN
    } else {
        (bandwidth / 65536 * 4096) as u32
    }
}

/// A window size within its limits.
pub open spec fn clamp_window(w: u32) -> u32 {
    if w < WINDOW_SIZE_MIN {
        WINDOW_SIZE_MIN
    } else if w > WINDOW_SIZE_MAX {
        WINDOW_SIZE_MAX
    } else {
        w
    }
}

/// A fragment that makes sense by itself: its message has at least one
/// fragment, not too many, is not too large, and its data lies in it.
pub open spec fn fragment_valid(f: command::FragmentView) -> bool {
    &&& 1 <= f.fragment_count <= MAX_FRAGMENT_COUNT
    &&& f.total_length <= MAX_PACKET_SIZE
    &&& f.fragment_offset + f.data.len() <= f.total_length
}

/// The packets that are handed to the user of `key`.
pub open spec fn deliveries(key: PeerKey, ch: u8, mode: SendMode, ready: Seq<Seq<u8>>) -> Seq<
    ActionView,
> {
    ready.map_values(
        |d: Seq<u8>|
            ActionView::Deliver { key, packet: PacketView { data: d, channel: ch, mode } },
    )
}

impl PeerView {
    /// The peer after something came from it.
    pub open spec fn heard(self, now: u32) -> Self {
        PeerView { last_receive_time: now, ..self }
    }

    /// A reliable packet, and the payloads that come out.
    pub open spec fn on_reliable(self, ch: u8, seq: u16, data: Seq<u8>, now: u32) -> (
        Self,
        Seq<Seq<u8>>,
    ) {
        if ch >= self.channels.len() {
            (self.heard(now), Seq::empty())
        } else {
            let (c, ready) = self.channels[ch as int].receive_reliable(seq, data);
            (self.heard(now).with_channel(ch, c), ready)
        }
    }

    /// Whether an unreliable packet is taken: it comes after all that were
    /// taken, and was not sent before a reliable packet that was received.
    pub open spec fn takes_unreliable(self, ch: u8, reliable_seq: u16, seq: u16) -> bool {
        &&& ch < self.channels.len()
        &&& !sequence::seq_before(reliable_seq, self.channels[ch as int].incoming_reliable_seq)
        &&& self.channels[ch as int].accepts_unreliable(seq)
    }

    /// An unreliable packet, and the payload if it is taken.
    pub open spec fn on_unreliable(
        self,
        ch: u8,
        reliable_seq: u16,
        seq: u16,
        data: Seq<u8>,
        now: u32,
    ) -> (Self, Seq<Seq<u8>>) {
        if self.takes_unreliable(ch, reliable_seq, seq) {
            let q = self.heard(now).with_channel(
                ch,
                self.channels[ch as int].take_unreliable(seq),
            );
            (PeerView { fragment_bytes: budget::total_held(q.channels), ..q }, seq![data])
        } else {
            (self.heard(now), Seq::empty())
        }
    }

    /// An unsequenced packet, and the payload if it is new.
    pub open spec fn on_unsequenced(self, group: u16, data: Seq<u8>, now: u32) -> (
        Self,
        Seq<Seq<u8>>,
    ) {
        (
            PeerView { unsequenced: self.unsequenced.receive(group), ..self.heard(now) },
            if self.unsequenced.accepts(group) {
                seq![data]
            } else {
                Seq::empty()
            },
        )
    }

    /// Whether there is room for the reassembly that a fragment belongs to,
    /// and for the message itself where it is a reliable one.
    pub open spec fn fragment_fits(self, ch: u8, f: command::FragmentView, reliable: bool) -> bool {
        let c = self.channels[ch as int];
        &&& c.fragments.contains_key(channel::reassembly_key(f.start_seq, reliable)) || (
        c.fragments.len() < MAX_FRAGMENT_BUFFERS_PER_CHANNEL && self.fragment_bytes + f.total_length
            <= MAX_FRAGMENT_BYTES_PER_PEER)
        &&& reliable ==> c.takes(f.start_seq)
    }

    /// Whether a fragment comes when its message is through, or too late.
    pub open spec fn stale(self, ch: u8, f: command::FragmentView, reliable: bool) -> bool {
        if reliable {
            self.channels[ch as int].settled(f.start_seq)
        } else {
            !self.channels[ch as int].accepts_unreliable(f.start_seq)
        }
    }

    /// Whether a reliable command is dropped for lack of room. It is then not
    /// acknowledged, so that the other side sends it again.
    pub open spec fn refuses(self, c: command::CommandView) -> bool {
        let ch = c.header.channel_id;
        ch < self.channels.len() && match c.body {
            command::BodyView::SendReliable(_) => !self.channels[ch as int].takes(
                c.header.reliable_seq,
            ),
            command::BodyView::SendFragment(f) => fragment_valid(f) && !self.stale(ch, f, true)
                && !self.make_room(ch, f, true).fragment_fits(ch, f, true),
            _ => false,
        }
    }

    /// The peer without reassemblies of unreliable messages.
    pub open spec fn give_way(self) -> Self {
        let channels = self.channels.map_values(|c: ChannelView| c.without_unreliable(true));
        PeerView { channels, fragment_bytes: budget::total_held(channels), ..self }
    }

    /// The peer with room for a fragment, as far as there can be: unreliable
    /// messages give way to a reliable one.
    pub open spec fn make_room(self, ch: u8, f: command::FragmentView, reliable: bool) -> Self {
        if reliable && !self.fragment_fits(ch, f, reliable) {
            self.give_way()
        } else {
            self
        }
    }

    /// The peer with room for a command.
    pub open spec fn room_for(self, c: command::CommandView) -> Self {
        let ch = c.header.channel_id;
        match c.body {
            command::BodyView::SendFragment(f) => if ch < self.channels.len() && fragment_valid(f)
                && !self.stale(ch, f, true) {
                self.make_room(ch, f, true)
            } else {
                self
            },
            _ => self,
        }
    }

    /// The channel after a fragment, and what comes out of it.
    pub open spec fn fragment_step(self, ch: u8, f: command::FragmentView, reliable: bool) -> (
        ChannelView,
        Seq<Seq<u8>>,
    ) {
        self.channels[ch as int].receive_fragment(f, reliable)
    }

    /// A fragment, and the payloads that come out.
    pub open spec fn on_fragment(
        self,
        ch: u8,
        f: command::FragmentView,
        reliable: bool,
        now: u32,
    ) -> (Self, Seq<Seq<u8>>) {
        if !fragment_valid(f) {
            (self, Seq::empty())
        } else if ch >= self.channels.len() || self.stale(ch, f, reliable) {
            (self.heard(now), Seq::empty())
        } else {
            self.heard(now).make_room(ch, f, reliable).put_fragment(ch, f, reliable)
        }
    }

    /// A fragment for which room was made, and the payloads that come out.
    pub open spec fn put_fragment(self, ch: u8, f: command::FragmentView, reliable: bool) -> (
        Self,
        Seq<Seq<u8>>,
    ) {
        if !self.fragment_fits(ch, f, reliable) {
            (self, Seq::empty())
        } else {
            let (c, ready) = self.fragment_step(ch, f, reliable);
            let q = self.with_channel(ch, c);
            (PeerView { fragment_bytes: budget::total_held(q.channels), ..q }, ready)
        }
    }

    /// The remote side says how much it can take.
    pub open spec fn on_bandwidth_limit(self, bl: BandwidthLimitCmd) -> Self {
        if bl.incoming_bandwidth == 0 && bl.outgoing_bandwidth == 0 {
            self
        } else {
            PeerView {
                window_size: clamp_window(bandwidth_window(bl.incoming_bandwidth)),
                ..self
            }
        }
    }

    /// The remote side configures the throttle.
    pub open spec fn on_throttle_configure(self, tc: ThrottleConfigureCmd) -> Self {
        PeerView {
            throttle_interval: tc.throttle_interval,
            throttle_acceleration: tc.throttle_acceleration,
            throttle_deceleration: tc.throttle_deceleration,
            ..self
        }
    }

    /// A command that carries data or settings, and what is handed to the
    /// peer's user.
    pub open spec fn on_data(self, key: PeerKey, c: command::CommandView, now: u32) -> (
        Self,
        Seq<ActionView>,
    ) {
        let ch = c.header.channel_id;
        match c.body {
            command::BodyView::Ping => (self.heard(now), Seq::empty()),
            command::BodyView::SendReliable(d) => {
                let (p, ready) = self.on_reliable(ch, c.header.reliable_seq, d, now);
                (p, deliveries(key, ch, SendMode::Reliable, ready))
            },
            command::BodyView::SendUnreliable(n, d) => {
                let (p, ready) = self.on_unreliable(ch, c.header.reliable_seq, n, d, now);
                (p, deliveries(key, ch, SendMode::Unreliable, ready))
            },
            command::BodyView::SendFragment(f) => {
                let (p, ready) = self.on_fragment(ch, f, true, now);
                (p, deliveries(key, ch, SendMode::Reliable, ready))
            },
            command::BodyView::SendUnreliableFragment(f) => {
                let (p, ready) = self.on_fragment(ch, f, false, now);
                (p, deliveries(key, ch, SendMode::Unreliable, ready))
            },
            command::BodyView::SendUnsequenced(g, d) => {
                let (p, ready) = self.on_unsequenced(g, d, now);
                (p, deliveries(key, 0, SendMode::Unsequenced, ready))
            },
            command::BodyView::BandwidthLimit(bl) => (self.on_bandwidth_limit(bl), Seq::empty()),
            command::BodyView::ThrottleConfigure(tc) => (
                self.on_throttle_configure(tc),
                Seq::empty(),
            ),
            _ => (self, Seq::empty()),
        }
    }

    /// The server's answer is to this connection attempt, and the first one.
    pub open spec fn accepts_verify(self, vc: VerifyConnectCmd) -> bool {
        self.state == PeerState::Connecting && vc.connect_id == self.connect_id
    }

    /// The server's answer is acknowledged: when it is taken, and again when
    /// it comes once more because the acknowledgement was lost.
    pub open spec fn acks_verify(self, vc: VerifyConnectCmd, flagged: bool) -> bool {
        vc.connect_id == self.connect_id && (self.state == PeerState::Connecting || flagged)
    }

    /// The connection stands, with what the server negotiated. The answer
    /// stands for the acknowledgement of CONNECT.
    pub open spec fn on_verify(self, vc: VerifyConnectCmd, seq: u16, now: u32) -> Self {
        if self.accepts_verify(vc) {
            PeerView {
                outgoing_peer_id: vc.outgoing_peer_id,
                incoming_session_id: vc.incoming_session_id,
                outgoing_session_id: vc.outgoing_session_id,
                mtu: vc.mtu,
                window_size: vc.window_size,
                throttle_interval: vc.throttle_interval,
                throttle_acceleration: vc.throttle_acceleration,
                throttle_deceleration: vc.throttle_deceleration,
                state: PeerState::Connected,
                last_receive_time: now,
                incoming_reliable_seq: seq,
                handle_held: false,
                reply_held: false,
                outgoing: outgoing::remove(self.outgoing, CHANNEL_ID_CONNECTION, 1),
                ..self
            }
        } else {
            self
        }
    }
}

/// What was received last has no part in what holds of a peer.
proof fn lemma_heard_wf(p: PeerView, ck: bool, now: u32)
    requires
        p.wf(ck),
    ensures
        p.heard(now).wf(ck),
{
    service::lemma_same_bounds_wf(p, p.heard(now), ck);
}

/// The bytes that a channel's reassemblies hold after a fragment.
proof fn lemma_store_held(c: ChannelView, f: command::FragmentView, reliable: bool)
    ensures
        ({
            let d = c.store_fragment(f, reliable);
            budget::held(d.fragments) == budget::held(c.fragments) - budget::held_at(
                c.fragments,
                channel::reassembly_key(f.start_seq, reliable),
            ) + (if c.completes(f, reliable) {
                0
            } else {
                c.reassembly(f, reliable).buf.len() as int
            })
        }),
        c.reassembled(f, reliable).buf.len() == c.reassembly(f, reliable).buf.len(),
{
    let d = c.store_fragment(f, reliable);
    let r = c.reassembly(f, reliable);
    if r.accepts(f.fragment_number as int, f.fragment_offset as int, f.data) {
        assert(channel::fragment::overwrite(r.buf, f.fragment_offset as int, f.data).len()
            == r.buf.len());
    }
    let k = channel::reassembly_key(f.start_seq, reliable);
    assert forall|j: u32| j != k implies budget::held_at(c.fragments, j)
        == #[trigger] budget::held_at(d.fragments, j) by {}
    budget::lemma_held_changed(c.fragments, d.fragments, k);
}

/// Channels within their bounds keep the peer well-formed.
proof fn lemma_channels_wf(p: PeerView, q: PeerView, ck: bool)
    requires
        p.wf(ck),
        q == (PeerView {
            channels: q.channels,
            fragment_bytes: budget::total_held(q.channels),
            ..p
        }),
        q.channels.len() == p.channels.len(),
        forall|i: int|
            0 <= i < q.channels.len() ==> (#[trigger] q.channels[i]).wf()
                && q.channels[i].fragments.len() <= MAX_FRAGMENT_BUFFERS_PER_CHANNEL,
        budget::total_held(q.channels) <= MAX_FRAGMENT_BYTES_PER_PEER,
    ensures
        q.wf(ck),
{
    assert forall|i: int| 0 <= i < q.pending.len() implies q.sendable(
        ck,
        #[trigger] q.pending[i],
    ) by {
        assert(p.sendable(ck, p.pending[i]));
    }
}

/// One channel that holds no more than before keeps the peer well-formed.
proof fn lemma_channel_wf(p: PeerView, ck: bool, ch: u8, e: ChannelView)
    requires
        p.wf(ck),
        ch < p.channels.len(),
        e.wf(),
        e.fragments.len() <= MAX_FRAGMENT_BUFFERS_PER_CHANNEL,
        p.fragment_bytes + budget::held(e.fragments) - budget::held(
            p.channels[ch as int].fragments,
        ) <= MAX_FRAGMENT_BYTES_PER_PEER,
    ensures
        ({
            let q = p.with_channel(ch, e);
            &&& PeerView { fragment_bytes: budget::total_held(q.channels), ..q }.wf(ck)
            &&& budget::total_held(q.channels) == p.fragment_bytes + budget::held(e.fragments)
                - budget::held(p.channels[ch as int].fragments)
        }),
{
    let q = p.with_channel(ch, e);
    let r = PeerView { fragment_bytes: budget::total_held(q.channels), ..q };
    budget::lemma_total_held_changed(p.channels, ch as int, e);
    assert forall|i: int| 0 <= i < r.channels.len() implies (#[trigger] r.channels[i]).wf()
        && r.channels[i].fragments.len() <= MAX_FRAGMENT_BUFFERS_PER_CHANNEL by {
        assert(p.channels[i].wf());
    }
    lemma_channels_wf(p, r, ck);
}

/// Law: giving unreliable messages up keeps the peer well-formed.
pub proof fn lemma_give_way_wf(p: PeerView, ck: bool)
    requires
        p.wf(ck),
    ensures
        p.give_way().wf(ck),
{
    let q = p.give_way();
    assert forall|i: int| 0 <= i < q.channels.len() implies (#[trigger] q.channels[i]).wf()
        && q.channels[i].fragments.len() <= MAX_FRAGMENT_BUFFERS_PER_CHANNEL by {
        assert(p.channels[i].wf());
        channel::lemma_without_wf(p.channels[i], true);
    }
    assert forall|i: int| 0 <= i < p.channels.len() implies budget::held(
        (#[trigger] q.channels[i]).fragments,
    ) <= budget::held(p.channels[i].fragments) by {
        budget::lemma_without_held(p.channels[i], true);
    }
    budget::lemma_total_held_less(p.channels, q.channels);
    lemma_channels_wf(p, q, ck);
}

/// Making room twice is making room once, and a reliable command finds the
/// same room afterwards.
pub proof fn lemma_room_once(p: PeerView, key: PeerKey, c: command::CommandView, now: u32)
    ensures
        p.room_for(c).on_data(key, c, now) == p.on_data(key, c, now),
{
    let ch = c.header.channel_id;
    if let command::BodyView::SendFragment(f) = c.body {
        if ch < p.channels.len() && fragment_valid(f) && !p.stale(ch, f, true)
            && !p.fragment_fits(ch, f, true) {
            let q = p.give_way();
            assert(p.room_for(c) == q);
            assert(q.channels[ch as int] == p.channels[ch as int].without_unreliable(true));
            assert(!q.stale(ch, f, true));
            lemma_give_way_once(p);
            assert(p.heard(now).give_way() =~= q.heard(now));
            assert(q.heard(now).give_way() =~= q.heard(now));
            assert(p.heard(now).make_room(ch, f, true) == q.heard(now));
            assert(q.heard(now).make_room(ch, f, true) == q.heard(now));
        }
    }
}

proof fn lemma_give_way_once(p: PeerView)
    ensures
        p.give_way().give_way() == p.give_way(),
{
    let q = p.give_way();
    assert forall|i: int| 0 <= i < p.channels.len() implies #[trigger] q.give_way().channels[i]
        == q.channels[i] by {
        let c = p.channels[i];
        assert(c.without_unreliable(true).without_unreliable(true).fragments
            =~= c.without_unreliable(true).fragments);
    }
    assert(q.give_way().channels =~= q.channels);
}

/// Law: no reliable command is refused on account of unreliable messages: it
/// is refused if and only if it is without any of them.
pub proof fn lemma_unreliable_in_no_way(p: PeerView, ck: bool, c: command::CommandView)
    requires
        p.wf(ck),
    ensures
        p.refuses(c) == p.give_way().refuses(c),
{
    let q = p.give_way();
    let ch = c.header.channel_id;
    if let command::BodyView::SendFragment(f) = c.body {
        if ch < p.channels.len() {
            let a = p.channels[ch as int];
            let b = q.channels[ch as int];
            assert(b == a.without_unreliable(true));
            assert(a.wf());
            channel::lemma_without_wf(a, true);
            assert forall|i: int| 0 <= i < p.channels.len() implies budget::held(
                (#[trigger] q.channels[i]).fragments,
            ) <= budget::held(p.channels[i].fragments) by {
                budget::lemma_without_held(p.channels[i], true);
            }
            budget::lemma_total_held_less(p.channels, q.channels);
            lemma_give_way_once(p);
            assert(p.fragment_fits(ch, f, true) ==> q.fragment_fits(ch, f, true));
        }
    }
}

/// What a channel holds after a fragment for which there is room.
proof fn lemma_fragment_held(
    p: PeerView,
    ck: bool,
    ch: u8,
    f: command::FragmentView,
    reliable: bool,
)
    requires
        p.wf(ck),
        ch < p.channels.len(),
        fragment_valid(f),
        p.fragment_fits(ch, f, reliable),
    ensures
        ({
            let c = p.channels[ch as int];
            let d = c.store_fragment(f, reliable);
            let e = p.fragment_step(ch, f, reliable).0;
            &&& d.wf()
            &&& d.fragments.len() <= MAX_FRAGMENT_BUFFERS_PER_CHANNEL
            &&& e.wf()
            &&& e.fragments.len() <= MAX_FRAGMENT_BUFFERS_PER_CHANNEL
            &&& budget::held(e.fragments) <= budget::held(d.fragments)
            &&& p.fragment_bytes + budget::held(d.fragments) - budget::held(c.fragments)
                <= MAX_FRAGMENT_BYTES_PER_PEER
        }),
{
    let c = p.channels[ch as int];
    let d = c.store_fragment(f, reliable);
    let e = p.fragment_step(ch, f, reliable).0;
    assert(c.wf());
    assert(d.wf());
    channel::lemma_receive_wf(d, f.start_seq, f.fragment_count, c.reassembled(f, reliable).buf);
    lemma_store_held(c, f, reliable);
    budget::lemma_held_part(c.fragments, channel::reassembly_key(f.start_seq, reliable));
    budget::lemma_total_held_part(p.channels, ch as int);
    if !reliable && c.completes(f, reliable) && d.accepts_unreliable(f.start_seq) {
        budget::lemma_without_held(d.receive_unreliable(f.start_seq), false);
    } else {
        assert(e.fragments == d.fragments);
    }
}

/// Law: a fragment keeps the peer within its budgets.
pub proof fn lemma_fragment_wf(
    p: PeerView,
    ck: bool,
    ch: u8,
    f: command::FragmentView,
    reliable: bool,
    now: u32,
)
    requires
        p.wf(ck),
    ensures
        p.on_fragment(ch, f, reliable, now).0.wf(ck),
{
    lemma_heard_wf(p, ck, now);
    if fragment_valid(f) && ch < p.channels.len() && !p.stale(ch, f, reliable) {
        lemma_give_way_wf(p.heard(now), ck);
        lemma_put_wf(p.heard(now).make_room(ch, f, reliable), ck, ch, f, reliable);
    }
}

proof fn lemma_put_wf(p: PeerView, ck: bool, ch: u8, f: command::FragmentView, reliable: bool)
    requires
        p.wf(ck),
        ch < p.channels.len(),
        fragment_valid(f),
    ensures
        p.put_fragment(ch, f, reliable).0.wf(ck),
{
    if p.fragment_fits(ch, f, reliable) {
        lemma_fragment_held(p, ck, ch, f, reliable);
        lemma_channel_wf(p, ck, ch, p.fragment_step(ch, f, reliable).0);
    }
}

/// Law: packets keep the peer well-formed.
pub proof fn lemma_packets_wf(
    p: PeerView,
    ck: bool,
    ch: u8,
    reliable_seq: u16,
    seq: u16,
    data: Seq<u8>,
    now: u32,
)
    requires
        p.wf(ck),
    ensures
        p.on_reliable(ch, seq, data, now).0.wf(ck),
        p.on_unreliable(ch, reliable_seq, seq, data, now).0.wf(ck),
        p.on_unsequenced(seq, data, now).0.wf(ck),
{
    lemma_heard_wf(p, ck, now);
    let h = p.heard(now);
    if ch < p.channels.len() {
        let c = p.channels[ch as int];
        assert(c.wf());
        channel::lemma_receive_wf(c, seq, 1, data);
        peer::lemma_with_channel_wf(h, ck, ch, c.receive_reliable(seq, data).0);
        budget::lemma_without_held(c.receive_unreliable(seq), false);
        lemma_channel_wf(h, ck, ch, c.take_unreliable(seq));
    }
    service::lemma_same_bounds_wf(p, p.on_unsequenced(seq, data, now).0, ck);
}

/// Law: what the remote side configures keeps the peer well-formed.
pub proof fn lemma_configure_wf(
    p: PeerView,
    ck: bool,
    bl: BandwidthLimitCmd,
    tc: ThrottleConfigureCmd,
    vc: VerifyConnectCmd,
    seq: u16,
    now: u32,
)
    requires
        p.wf(ck),
    ensures
        p.on_bandwidth_limit(bl).wf(ck),
        p.on_throttle_configure(tc).wf(ck),
        p.on_verify(vc, seq, now).wf(ck),
{
    service::lemma_same_bounds_wf(p, p.on_bandwidth_limit(bl), ck);
    service::lemma_same_bounds_wf(p, p.on_throttle_configure(tc), ck);
    peer::lemma_remove_ok(p.outgoing, CHANNEL_ID_CONNECTION, 1);
}

/// The window that a bandwidth allows.
pub fn window_for(bandwidth: u32) -> (r: u32)
    ensures
        r == bandwidth_window(bandwidth),
{
    if bandwidth == 0 {
        WINDOW_SIZE_MAX
    } else {
        let w: u32 = bandwidth / WINDOW_SIZE_MAX * 4096;
        if w < WINDOW_SIZE_MIN {
            WINDOW_SIZE_MIN
        } else {
            w
        }
    }
}

/// A window size within its limits.
pub fn clamped_window(w: u32) -> (r: u32)
    ensures
        r == clamp_window(w),
{
    if w < WINDOW_SIZE_MIN {
        WINDOW_SIZE_MIN
    } else if w > WINDOW_SIZE_MAX {
        WINDOW_SIZE_MAX
    } else {
        w
    }
}

/// Hands payloads to the user of `key`.
fn deliver_all(key: PeerKey, ch: u8, mode: SendMode, ready: Vec<Bytes>, out: &mut Vec<Action>)
    ensures
        peer::actions(final(out)@) == peer::actions(old(out)@) + deliveries(
            key,
            ch,
            mode,
            channel::contents(ready@),
        ),
{
    let ghost start = peer::actions(out@);
    let ghost all = channel::contents(ready@);
    let mut i: usize = 0;
    assert(all.take(0) =~= Seq::empty());
    assert(start + deliveries(key, ch, mode, all.take(0)) =~= start);
    while i < ready.len()
        invariant
            i <= ready@.len(),
            all == channel::contents(ready@),
            peer::actions(out@) == start + deliveries(key, ch, mode, all.take(i as int)),
        decreases ready@.len() - i,
    {
        let ghost before = peer::actions(out@);
        let packet = Packet { data: ready[i].clone(), channel: ch, mode };
        out.push(Action::Deliver { key, packet });
        proof {
            assert(packet@.data == all[i as int]);
            assert(peer::actions(out@) =~= before.push(
                ActionView::Deliver { key, packet: packet@ },
            ));
            assert(all.take(i + 1) =~= all.take(i as int).push(all[i as int]));
            assert(deliveries(key, ch, mode, all.take(i + 1)) =~= deliveries(
                key,
                ch,
                mode,
                all.take(i as int),
            ).push(ActionView::Deliver { key, packet: packet@ }));
        }
        i += 1;
    }
    assert(all.take(i as int) =~= all);
}

impl PeerEntry {
    /// Takes a reliable packet.
    pub fn on_reliable(
        &mut self,
        ck: bool,
        key: PeerKey,
        ch: u8,
        seq: u16,
        data: Bytes,
        now_ms: u32,
        out: &mut Vec<Action>,
    )
        requires
            old(self).wf(ck),
        ensures
            final(self).wf(ck),
            final(self)@ == old(self)@.on_reliable(ch, seq, buffer::content(data), now_ms).0,
            peer::actions(final(out)@) == peer::actions(old(out)@) + deliveries(
                key,
                ch,
                SendMode::Reliable,
                old(self)@.on_reliable(ch, seq, buffer::content(data), now_ms).1,
            ),
    {
        let ghost start = self@;
        let ghost payload = buffer::content(data);
        proof {
            lemma_packets_wf(start, ck, ch, 0, seq, payload, now_ms);
        }
        self.last_receive_time = now_ms;
        let k: usize = ch as usize;
        if k >= self.channels.len() {
            assert(peer::actions(out@) + deliveries(key, ch, SendMode::Reliable, Seq::empty())
                =~= peer::actions(out@));
            return;
        }
        let ghost before = self.channels@;
        let ready = self.channels[k].receive_reliable(seq, data);
        proof {
            send::lemma_channel_update(before, k as int, self.channels@[k as int]);
            assert(self.channels@ =~= before.update(k as int, self.channels@[k as int]));
        }
        deliver_all(key, ch, SendMode::Reliable, ready, out);
    }

    /// Takes an unreliable packet.
    pub fn on_unreliable(
        &mut self,
        ck: bool,
        key: PeerKey,
        ch: u8,
        reliable_seq: u16,
        seq: u16,
        data: Bytes,
        now_ms: u32,
        out: &mut Vec<Action>,
    )
        requires
            old(self).wf(ck),
        ensures
            final(self).wf(ck),
            final(self)@ == old(self)@.on_unreliable(
                ch,
                reliable_seq,
                seq,
                buffer::content(data),
                now_ms,
            ).0,
            peer::actions(final(out)@) == peer::actions(old(out)@) + deliveries(
                key,
                ch,
                SendMode::Unreliable,
                old(self)@.on_unreliable(ch, reliable_seq, seq, buffer::content(data), now_ms).1,
            ),
    {
        let ghost start = self@;
        let ghost actions = peer::actions(out@);
        let ghost payload = buffer::content(data);
        proof {
            lemma_packets_wf(start, ck, ch, reliable_seq, seq, payload, now_ms);
            assert(actions + deliveries(key, ch, SendMode::Unreliable, Seq::empty()) =~= actions);
        }
        self.last_receive_time = now_ms;
        let k: usize = ch as usize;
        if k >= self.channels.len() {
            return;
        }
        if seq_lt(reliable_seq, self.channels[k].incoming_reliable_seq) {
            return;
        }
        let ghost before = self.channels@;
        let accepted = self.channels[k].receive_unreliable(seq, data);
        proof {
            send::lemma_channel_update(before, k as int, self.channels@[k as int]);
            assert(self.channels@ =~= before.update(k as int, self.channels@[k as int]));
            assert(start.channels.update(k as int, start.channels[k as int]) =~= start.channels);
        }
        if let Some(d) = accepted {
            let ghost stage = self.channels@;
            proof {
                budget::lemma_total_held_part(start.channels, k as int);
                budget::lemma_total_held_changed(
                    start.channels,
                    k as int,
                    start.channels[k as int].take_unreliable(seq),
                );
                budget::lemma_held_part(
                    start.channels[k as int].take_unreliable(seq).fragments,
                    0,
                );
            }
            let freed: usize = self.channels[k].drop_unreliable(false);
            self.fragment_bytes_in_flight = self.fragment_bytes_in_flight - freed;
            proof {
                send::lemma_channel_update(stage, k as int, self.channels@[k as int]);
                assert(self.channels@ =~= stage.update(k as int, self.channels@[k as int]));
                assert(self@.channels =~= start.channels.update(
                    k as int,
                    self.channels@[k as int]@,
                ));
            }
            let packet = Packet { data: d, channel: ch, mode: SendMode::Unreliable };
            out.push(Action::Deliver { key, packet });
            assert(peer::actions(out@) =~= actions + deliveries(
                key,
                ch,
                SendMode::Unreliable,
                seq![payload],
            ));
        }
    }

    /// Takes an unsequenced packet.
    pub fn on_unsequenced(
        &mut self,
        ck: bool,
        key: PeerKey,
        group: u16,
        data: Bytes,
        now_ms: u32,
        out: &mut Vec<Action>,
    )
        requires
            old(self).wf(ck),
        ensures
            final(self).wf(ck),
            final(self)@ == old(self)@.on_unsequenced(group, buffer::content(data), now_ms).0,
            peer::actions(final(out)@) == peer::actions(old(out)@) + deliveries(
                key,
                0,
                SendMode::Unsequenced,
                old(self)@.on_unsequenced(group, buffer::content(data), now_ms).1,
            ),
    {
        let ghost start = self@;
        let ghost actions = peer::actions(out@);
        let ghost payload = buffer::content(data);
        proof {
            lemma_packets_wf(start, ck, 0, 0, group, payload, now_ms);
            assert(actions + deliveries(key, 0, SendMode::Unsequenced, Seq::empty()) =~= actions);
        }
        self.last_receive_time = now_ms;
        if self.unsequenced_window.check_and_set(group) {
            let packet = Packet { data, channel: 0, mode: SendMode::Unsequenced };
            out.push(Action::Deliver { key, packet });
            assert(peer::actions(out@) =~= actions + deliveries(
                key,
                0,
                SendMode::Unsequenced,
                seq![payload],
            ));
        }
    }

    /// Takes a fragment.
    #[verifier::rlimit(30)]
    pub fn on_fragment(
        &mut self,
        ck: bool,
        key: PeerKey,
        ch: u8,
        sf: SendFragmentCmd,
        reliable: bool,
        now_ms: u32,
        out: &mut Vec<Action>,
    )
        requires
            old(self).wf(ck),
        ensures
            final(self).wf(ck),
            final(self)@ == old(self)@.on_fragment(ch, sf@, reliable, now_ms).0,
            peer::actions(final(out)@) == peer::actions(old(out)@) + deliveries(
                key,
                ch,
                if reliable {
                    SendMode::Reliable
                } else {
                    SendMode::Unreliable
                },
                old(self)@.on_fragment(ch, sf@, reliable, now_ms).1,
            ),
    {
        let ghost start = self@;
        let ghost actions = peer::actions(out@);
        let ghost f = sf@;
        let mode = if reliable {
            SendMode::Reliable
        } else {
            SendMode::Unreliable
        };
        proof {
            lemma_fragment_wf(start, ck, ch, f, reliable, now_ms);
            assert(actions + deliveries(key, ch, mode, Seq::empty()) =~= actions);
        }
        // Malformed fragments are rejected before anything is allocated.
        if sf.fragment_count == 0 || sf.fragment_count > MAX_FRAGMENT_COUNT {
            return;
        }
        if sf.total_length as usize > MAX_PACKET_SIZE {
            return;
        }
        let frag_end: usize = (sf.fragment_offset as usize).saturating_add(sf.data.len());
        if frag_end > sf.total_length as usize {
            return;
        }
        self.last_receive_time = now_ms;
        let k: usize = ch as usize;
        if k >= self.channels.len() {
            return;
        }
        proof {
            assert(self.channels@[k as int]@ == start.channels[k as int]);
            lemma_heard_wf(start, ck, now_ms);
        }
        // A fragment of a message that is through, or late, starts no new
        // reassembly.
        let late: bool = if reliable {
            self.channels[k].settled(sf.start_seq)
        } else {
            !seq_lt(self.channels[k].incoming_unreliable_seq, sf.start_seq)
        };
        if late {
            return;
        }
        if reliable && !self.fragment_fits(ck, ch, &sf, reliable) {
            self.give_way(ck);
        }
        self.put_fragment(ck, key, ch, sf, reliable, out);
    }

    /// Gives reassemblies of unreliable messages up.
    fn give_way(&mut self, ck: bool)
        requires
            old(self).wf(ck),
        ensures
            final(self).wf(ck),
            final(self)@ == old(self)@.give_way(),
    {
        let ghost start = self@;
        let ghost all = start.give_way().channels;
        let mut i: usize = 0;
        assert(self@.channels =~= all.take(0) + start.channels.skip(0));
        while i < self.channels.len()
            invariant
                i <= self.channels@.len(),
                self.channels@.len() == start.channels.len(),
                start.wf(ck),
                all == start.give_way().channels,
                self@.channels == all.take(i as int) + start.channels.skip(i as int),
                self.fragment_bytes_in_flight == budget::total_held(self@.channels),
                self.fragment_bytes_in_flight <= MAX_FRAGMENT_BYTES_PER_PEER,
                self@ == (PeerView {
                    channels: self@.channels,
                    fragment_bytes: self@.fragment_bytes,
                    ..start
                }),
                forall|j: int|
                    0 <= j < self.channels@.len() ==> (#[trigger] self.channels@[j]).wf(),
            decreases self.channels@.len() - i,
        {
            let ghost before = self.channels@;
            let ghost was = self@;
            proof {
                assert(was.channels[i as int] == start.channels[i as int]);
                assert(before[i as int]@ == was.channels[i as int]);
                budget::lemma_total_held_part(was.channels, i as int);
                budget::lemma_total_held_changed(was.channels, i as int, all[i as int]);
                budget::lemma_held_part(all[i as int].fragments, 0);
            }
            let freed: usize = self.channels[i].drop_unreliable(true);
            self.fragment_bytes_in_flight = self.fragment_bytes_in_flight - freed;
            proof {
                send::lemma_channel_update(before, i as int, self.channels@[i as int]);
                assert(self.channels@ =~= before.update(i as int, self.channels@[i as int]));
                assert(self@.channels =~= was.channels.update(i as int, all[i as int]));
                assert(self@.channels =~= all.take(i + 1) + start.channels.skip(i + 1));
            }
            i += 1;
        }
        proof {
            assert(self@.channels =~= all);
            lemma_give_way_wf(start, ck);
        }
    }

    /// Takes a fragment for which room was made, if there is any.
    #[verifier::rlimit(30)]
    fn put_fragment(
        &mut self,
        ck: bool,
        key: PeerKey,
        ch: u8,
        sf: SendFragmentCmd,
        reliable: bool,
        out: &mut Vec<Action>,
    )
        requires
            old(self).wf(ck),
            ch < old(self)@.channels.len(),
            fragment_valid(sf@),
            !old(self)@.stale(ch, sf@, reliable),
        ensures
            final(self).wf(ck),
            final(self)@ == old(self)@.put_fragment(ch, sf@, reliable).0,
            peer::actions(final(out)@) == peer::actions(old(out)@) + deliveries(
                key,
                ch,
                if reliable {
                    SendMode::Reliable
                } else {
                    SendMode::Unreliable
                },
                old(self)@.put_fragment(ch, sf@, reliable).1,
            ),
    {
        let ghost start = self@;
        let ghost actions = peer::actions(out@);
        let ghost f = sf@;
        let k: usize = ch as usize;
        let mode = if reliable {
            SendMode::Reliable
        } else {
            SendMode::Unreliable
        };
        let ghost before = self.channels@;
        let id: u32 = key_of(sf.start_seq, reliable);
        proof {
            lemma_put_wf(start, ck, ch, f, reliable);
            assert(actions + deliveries(key, ch, mode, Seq::empty()) =~= actions);
            assert(before[k as int]@ == start.channels[k as int]);
            assert(before[k as int].fragment_buffers@.dom()
                =~= start.channels[k as int].fragments.dom());
        }
        // Limits on the number of reassemblies and on the memory they take.
        if !self.fragment_fits(ck, ch, &sf, reliable) {
            return;
        }
        let ghost c = start.channels[k as int];
        let ghost d = c.store_fragment(f, reliable);
        proof {
            lemma_fragment_held(start, ck, ch, f, reliable);
            lemma_store_held(c, f, reliable);
            budget::lemma_total_held_part(start.channels, k as int);
            budget::lemma_held_part(c.fragments, id);
            budget::lemma_held_part(d.fragments, 0);
            budget::lemma_total_held_changed(start.channels, k as int, d);
        }
        if !self.channels[k].fragment_buffers.contains_key(&id) {
            self.fragment_bytes_in_flight = self.fragment_bytes_in_flight
                + sf.total_length as usize;
        }
        let stored = self.channels[k].store_fragment(&sf, reliable);
        proof {
            send::lemma_channel_update(before, k as int, self.channels@[k as int]);
            assert(self.channels@ =~= before.update(k as int, self.channels@[k as int]));
        }
        match stored {
            None => {},
            Some(assembled) => {
                // The memory of the reassembly is free again.
                let len: usize = assembled.len();
                self.fragment_bytes_in_flight = self.fragment_bytes_in_flight - len;
                let ghost stage = self.channels@;
                proof {
                    budget::lemma_total_held_changed(
                        start.channels,
                        k as int,
                        start.fragment_step(ch, f, reliable).0,
                    );
                }
                let ready = if reliable {
                    self.channels[k].receive_reassembled(
                        sf.start_seq,
                        sf.fragment_count,
                        assembled,
                    )
                } else {
                    self.put_unreliable(ck, k, sf.start_seq, assembled)
                };
                proof {
                    if reliable {
                        channel::lemma_receive_wf(
                            d,
                            f.start_seq,
                            f.fragment_count,
                            c.reassembled(f, reliable).buf,
                        );
                    }
                    send::lemma_channel_update(stage, k as int, self.channels@[k as int]);
                    assert(self.channels@ =~= stage.update(k as int, self.channels@[k as int]));
                    assert(self@.channels =~= start.channels.update(
                        k as int,
                        self.channels@[k as int]@,
                    ));
                }
                deliver_all(key, ch, mode, ready, out);
            },
        }
    }

    /// Takes an unreliable message that was put together, and gives up the
    /// reassemblies that are late now.
    fn put_unreliable(&mut self, ck: bool, k: usize, seq: u16, data: Bytes) -> (r: Vec<Bytes>)
        requires
            k < old(self).channels@.len(),
            old(self).channels@[k as int].wf(),
            budget::held(old(self).channels@[k as int]@.fragments)
                <= old(self).fragment_bytes_in_flight,
            old(self).channels@[k as int]@.accepts_unreliable(seq),
        ensures
            final(self).channels@ == old(self).channels@.update(
                k as int,
                final(self).channels@[k as int],
            ),
            final(self).channels@[k as int].wf(),
            final(self).channels@[k as int]@ == old(self).channels@[k as int]@.take_unreliable(seq),
            final(self).fragment_bytes_in_flight == old(self).fragment_bytes_in_flight
                - budget::held(old(self).channels@[k as int]@.fragments) + budget::held(
                final(self).channels@[k as int]@.fragments,
            ),
            final(self)@ == (PeerView {
                channels: final(self)@.channels,
                fragment_bytes: final(self)@.fragment_bytes,
                ..old(self)@
            }),
            channel::contents(r@) == seq![buffer::content(data)],
    {
        let ghost payload = buffer::content(data);
        let mut r: Vec<Bytes> = Vec::new();
        if let Some(d) = self.channels[k].receive_unreliable(seq, data) {
            r.push(d);
        }
        proof {
            assert(channel::contents(r@) =~= seq![payload]);
            budget::lemma_without_held(self.channels@[k as int]@, false);
            budget::lemma_held_part(
                self.channels@[k as int]@.without_unreliable(false).fragments,
                0,
            );
        }
        let freed: usize = self.channels[k].drop_unreliable(false);
        self.fragment_bytes_in_flight = self.fragment_bytes_in_flight - freed;
        assert(self.channels@ =~= old(self).channels@.update(k as int, self.channels@[k as int]));
        r
    }

    /// Whether there is room for a fragment.
    fn fragment_fits(&self, ck: bool, ch: u8, sf: &SendFragmentCmd, reliable: bool) -> (r: bool)
        requires
            self.wf(ck),
            ch < self@.channels.len(),
        ensures
            r == self@.fragment_fits(ch, sf@, reliable),
    {
        let c = &self.channels[ch as usize];
        proof {
            assert(c@ == self@.channels[ch as int]);
            assert(self.channels@[ch as int].wf());
            assert(c.fragment_buffers@.dom() =~= c@.fragments.dom());
        }
        let new_total: usize = self.fragment_bytes_in_flight.saturating_add(
            sf.total_length as usize,
        );
        let id: u32 = key_of(sf.start_seq, reliable);
        (c.fragment_buffers.contains_key(&id) || (c.fragment_buffers.len()
            < MAX_FRAGMENT_BUFFERS_PER_CHANNEL && new_total <= MAX_FRAGMENT_BYTES_PER_PEER)) && (
        !reliable || c.takes(sf.start_seq))
    }

    /// Makes room for a reliable command. Returns false if it is to be dropped
    /// for lack of room.
    pub fn make_room(&mut self, ck: bool, cmd: &Command) -> (r: bool)
        requires
            old(self).wf(ck),
        ensures
            final(self).wf(ck),
            final(self)@ == old(self)@.room_for(cmd@),
            r == !old(self)@.refuses(cmd@),
    {
        let ch: u8 = cmd.header.channel_id;
        let k: usize = ch as usize;
        if k >= self.channels.len() {
            return true;
        }
        assert(self.channels@[k as int].wf());
        assert(self.channels@[k as int]@ == self@.channels[k as int]);
        match &cmd.body {
            CommandBody::SendReliable(_) => self.channels[k].takes(cmd.header.reliable_seq),
            CommandBody::SendFragment(sf) => {
                let end: u64 = sf.fragment_offset as u64;
                let len: usize = sf.data.len();
                let valid: bool = 1 <= sf.fragment_count && sf.fragment_count <= MAX_FRAGMENT_COUNT
                    && sf.total_length as usize <= MAX_PACKET_SIZE && end <= sf.total_length as u64
                    && len as u64 <= sf.total_length as u64 - end;
                assert(valid == fragment_valid(sf@));
                if !valid || self.channels[k].settled(sf.start_seq) || self.fragment_fits(
                    ck,
                    ch,
                    sf,
                    true,
                ) {
                    return true;
                }
                self.give_way(ck);
                self.fragment_fits(ck, ch, sf, true)
            },
            _ => true,
        }
    }

    /// Takes the remote side's bandwidth limits.
    pub fn on_bandwidth_limit(&mut self, ck: bool, bl: BandwidthLimitCmd)
        requires
            old(self).wf(ck),
        ensures
            final(self).wf(ck),
            final(self)@ == old(self)@.on_bandwidth_limit(bl),
    {
        let ghost start = self@;
        if bl.incoming_bandwidth != 0 || bl.outgoing_bandwidth != 0 {
            self.window_size = clamped_window(window_for(bl.incoming_bandwidth));
        }
        proof {
            service::lemma_same_bounds_wf(start, self@, ck);
        }
    }

    /// Takes the remote side's throttle configuration.
    pub fn on_throttle_configure(&mut self, ck: bool, tc: ThrottleConfigureCmd)
        requires
            old(self).wf(ck),
        ensures
            final(self).wf(ck),
            final(self)@ == old(self)@.on_throttle_configure(tc),
    {
        let ghost start = self@;
        self.throttle_interval = tc.throttle_interval;
        self.throttle_acceleration = tc.throttle_acceleration;
        self.throttle_deceleration = tc.throttle_deceleration;
        proof {
            service::lemma_same_bounds_wf(start, self@, ck);
        }
    }

    /// Takes the server's answer to CONNECT. Returns whether whoever asked
    /// for the connection is to be told.
    pub fn on_verify(&mut self, ck: bool, vc: VerifyConnectCmd, seq: u16, now_ms: u32) -> (r: bool)
        requires
            old(self).wf(ck),
        ensures
            final(self).wf(ck),
            final(self)@ == old(self)@.on_verify(vc, seq, now_ms),
            r == (old(self)@.accepts_verify(vc) && old(self).handle_held && old(self).reply_held),
    {
        if self.state != PeerState::Connecting || vc.connect_id != self.connect_id {
            return false;
        }
        proof {
            peer::lemma_remove_ok(self@.outgoing, CHANNEL_ID_CONNECTION, 1);
        }
        self.outgoing_peer_id = vc.outgoing_peer_id;
        self.incoming_session_id = vc.incoming_session_id;
        self.outgoing_session_id = vc.outgoing_session_id;
        self.mtu = vc.mtu;
        self.window_size = vc.window_size;
        self.throttle_interval = vc.throttle_interval;
        self.throttle_acceleration = vc.throttle_acceleration;
        self.throttle_deceleration = vc.throttle_deceleration;
        self.state = PeerState::Connected;
        self.last_receive_time = now_ms;
        self.incoming_reliable_seq = seq;
        let told: bool = self.handle_held && self.reply_held;
        self.handle_held = false;
        self.reply_held = false;
        remove_outstanding(&mut self.outgoing_reliable, CHANNEL_ID_CONNECTION, 1);
        told
    }
}

impl PeerEntry {
    /// Takes a command that carries data or settings.
    pub fn on_data(
        &mut self,
        ck: bool,
        key: PeerKey,
        cmd: Command,
        now_ms: u32,
        out: &mut Vec<Action>,
    )
        requires
            old(self).wf(ck),
        ensures
            final(self).wf(ck),
            final(self)@ == old(self)@.on_data(key, cmd@, now_ms).0,
            peer::actions(final(out)@) == peer::actions(old(out)@) + old(self)@.on_data(
                key,
                cmd@,
                now_ms,
            ).1,
            final(self).addr == old(self).addr,
    {
        let ch: u8 = cmd.header.channel_id;
        let seq: u16 = cmd.header.reliable_seq;
        assert(peer::actions(out@) + Seq::<ActionView>::empty() =~= peer::actions(out@));
        match cmd.body {
            CommandBody::Ping => {
                proof {
                    lemma_heard_wf(self@, ck, now_ms);
                }
                self.last_receive_time = now_ms;
            },
            CommandBody::SendReliable(sr) => {
                self.on_reliable(ck, key, ch, seq, sr.data, now_ms, out);
            },
            CommandBody::SendUnreliable(su) => {
                self.on_unreliable(ck, key, ch, seq, su.unreliable_seq, su.data, now_ms, out);
            },
            CommandBody::SendFragment(sf) => {
                self.on_fragment(ck, key, ch, sf, true, now_ms, out);
            },
            CommandBody::SendUnreliableFragment(sf) => {
                self.on_fragment(ck, key, ch, sf, false, now_ms, out);
            },
            CommandBody::SendUnsequenced(su) => {
                self.on_unsequenced(ck, key, su.unsequenced_group, su.data, now_ms, out);
            },
            CommandBody::BandwidthLimit(bl) => {
                self.on_bandwidth_limit(ck, bl);
            },
            CommandBody::ThrottleConfigure(tc) => {
                self.on_throttle_configure(ck, tc);
            },
            _ => {},
        }
    }
}

} // verus!
