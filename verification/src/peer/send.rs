//! Sending: reliable commands, packets and fragments.

use vstd::prelude::*;

use bytes::Bytes;

use crate::buffer;
use crate::channel;
use crate::channel::encode_command;
use crate::channel::fragment;
use crate::channel::ChannelView;
use crate::outgoing;
use crate::outgoing::{insert_outstanding, OutView, OutstandingReliable};
use crate::packet::{Packet, PacketView, SendMode};
use crate::peer;
use crate::peer::emit;
use crate::peer::{Action, ActionView, PeerEntry, PeerState, PeerView};
use crate::protocol::command;
use crate::protocol::sequence;
use crate::protocol::{
    seq_lt, CommandBody, SendFragmentCmd, SendReliableCmd, SendUnreliableCmd, SendUnsequencedCmd,
    CHANNEL_ID_CONNECTION, CMD_SEND_FRAGMENT, CMD_SEND_RELIABLE, CMD_SEND_UNRELIABLE,
    CMD_SEND_UNRELIABLE_FRAGMENT, CMD_SEND_UNSEQUENCED, COMMAND_FLAG_ACKNOWLEDGE,
    COMMAND_FLAG_UNSEQUENCED, FREE_RELIABLE_WINDOWS, PACKET_THROTTLE_SCALE, RELIABLE_WINDOW_SIZE,
};

verus! {

/// The lowest sequence number of a channel that is still in flight, in the
/// order of wrapped numbers.
pub open spec fn oldest(s: Seq<OutView>, ch: u8) -> Option<u16>
    decreases s.len(),
{
    if s.len() == 0 {
        None
    } else {
        let before = oldest(s.drop_last(), ch);
        let r = s.last();
        if r.channel_id != ch {
            before
        } else {
            match before {
                Some(a) if sequence::seq_before(a, r.reliable_seq) => Some(a),
                _ => Some(r.reliable_seq),
            }
        }
    }
}

/// The bytes of all commands in flight.
pub open spec fn in_transit(s: Seq<OutView>) -> int
    decreases s.len(),
{
    if s.len() == 0 {
        0
    } else {
        in_transit(s.drop_last()) + s.last().packet_bytes.len()
    }
}

/// The command that carries fragment `i` of a message cut into pieces of at
/// most `size` bytes. Numbers that do not fit their field are cut to it.
pub open spec fn fragment_fields(data: Seq<u8>, size: int, start: u16, i: int)
    -> command::FragmentView {
    command::FragmentView {
        start_seq: start,
        fragment_count: (fragment::piece_count(data.len() as int, size) % 0x1_0000_0000) as u32,
        fragment_number: (i % 0x1_0000_0000) as u32,
        total_length: (data.len() % 0x1_0000_0000) as u32,
        fragment_offset: (i * size % 0x1_0000_0000) as u32,
        data: fragment::piece(data, size, i),
    }
}

impl PeerView {
    /// The next reliable sequence number of a channel, or of the connection.
    pub open spec fn next_seq(self, channel_id: u8) -> u16 {
        if channel_id == CHANNEL_ID_CONNECTION {
            sequence::seq_next(self.outgoing_reliable_seq)
        } else {
            sequence::seq_next(self.channels[channel_id as int].outgoing_reliable_seq)
        }
    }

    /// The peer after the next reliable sequence number was used.
    pub open spec fn bump_seq(self, channel_id: u8) -> Self {
        if channel_id == CHANNEL_ID_CONNECTION {
            PeerView { outgoing_reliable_seq: self.next_seq(channel_id), ..self }
        } else {
            PeerView {
                channels: self.channels.update(
                    channel_id as int,
                    self.channels[channel_id as int].bump_reliable(),
                ),
                ..self
            }
        }
    }

    /// A command that is sent for the first time.
    pub open spec fn outstanding(self, channel_id: u8, seq: u16, bytes: Seq<u8>, now: u32)
        -> OutView {
        OutView {
            reliable_seq: seq,
            channel_id,
            original_sent_time: now,
            sent_time: now,
            rtt_timeout: self.initial_timeout(),
            send_attempts: 1,
            packet_bytes: bytes,
        }
    }

    /// The bytes of the next reliable command.
    pub open spec fn reliable_command(self, channel_id: u8, cmd_type: u8, body: command::BodyView)
        -> Seq<u8> {
        channel::encoded(
            cmd_type,
            COMMAND_FLAG_ACKNOWLEDGE,
            channel_id,
            self.next_seq(channel_id),
            body,
        )
    }

    /// The peer with the next reliable command in flight.
    pub open spec fn with_reliable(
        self,
        channel_id: u8,
        cmd_type: u8,
        body: command::BodyView,
        now: u32,
    ) -> Self {
        PeerView {
            outgoing: outgoing::insert(
                self.outgoing,
                self.outstanding(
                    channel_id,
                    self.next_seq(channel_id),
                    self.reliable_command(channel_id, cmd_type, body),
                    now,
                ),
            ),
            ..self.bump_seq(channel_id)
        }
    }

    /// The usable part of the window.
    pub open spec fn usable_window(self) -> int {
        self.packet_throttle * self.window_size / 32
    }

    /// How many sequence numbers may be in flight on a channel: the usable
    /// part of the window, and no more than the receiver can tell apart.
    pub open spec fn effective_window(self) -> int {
        if self.usable_window() < 32768 {
            self.usable_window()
        } else {
            32768
        }
    }

    /// How many commands, and so sequence numbers, a reliable message takes.
    pub open spec fn reliable_pieces(self, ck: bool, data: Seq<u8>) -> int {
        if data.len() <= self.reliable_room(ck) {
            1
        } else {
            fragment::piece_count(data.len() as int, self.fragment_room(ck))
        }
    }

    /// The bytes of those commands: the payload, and what stands in front of
    /// each part of it.
    pub open spec fn reliable_bytes(self, ck: bool, data: Seq<u8>) -> int {
        if data.len() <= self.reliable_room(ck) {
            data.len() as int + 6
        } else {
            data.len() as int + 24 * self.reliable_pieces(ck, data)
        }
    }

    /// Whether the window has room for a reliable message: the number of its
    /// last command is within the effective window of the oldest one in flight
    /// on the channel, and with it the bytes in transit are within the usable
    /// window. A message that is larger than the window goes when nothing of
    /// its channel is in flight, so that every message goes some time.
    pub open spec fn window_open(self, ck: bool, ch: u8, data: Seq<u8>) -> bool {
        &&& match oldest(self.outgoing, ch) {
            None => true,
            Some(o) => sequence::seq_distance(o, self.next_seq(ch)) + self.reliable_pieces(ck, data)
                - 1 < self.effective_window(),
        }
        &&& in_transit(self.outgoing) + self.reliable_bytes(ck, data) <= self.usable_window() || (
        self.reliable_bytes(ck, data) > self.usable_window() && oldest(self.outgoing, ch) is None)
    }

    /// A reliable packet of the channel is held back.
    pub open spec fn waits(self, ch: u8) -> bool {
        exists|i: int|
            0 <= i < self.pending.len() && (#[trigger] self.pending[i]).channel == ch
                && self.pending[i].mode == SendMode::Reliable
    }

    /// Whether a reliable packet is held back: behind one that is, so that the
    /// order is kept, or because the window has no room for it.
    pub open spec fn holds_back(self, ck: bool, p: PacketView) -> bool {
        self.waits(p.channel) || !self.window_open(ck, p.channel, p.data)
    }

    /// The payload that fits in one reliable command.
    pub open spec fn reliable_room(self, ck: bool) -> int {
        self.mtu - 10 - peer::checksum_size(ck)
    }

    /// The payload that fits in one unreliable command.
    pub open spec fn unreliable_room(self, ck: bool) -> int {
        self.mtu - 12 - peer::checksum_size(ck)
    }

    /// The payload that fits in one fragment.
    pub open spec fn fragment_room(self, ck: bool) -> int {
        self.mtu - 28 - peer::checksum_size(ck)
    }

    /// The commands of a reliable message in fragments. Each fragment uses a
    /// sequence number of its own; the first one names the message.
    pub open spec fn reliable_fragments(self, ck: bool, ch: u8, data: Seq<u8>) -> Seq<Seq<u8>> {
        let size = self.fragment_room(ck);
        let last = self.channels[ch as int].outgoing_reliable_seq;
        Seq::new(
            fragment::piece_count(data.len() as int, size) as nat,
            |i: int|
                channel::encoded(
                    CMD_SEND_FRAGMENT,
                    COMMAND_FLAG_ACKNOWLEDGE,
                    ch,
                    sequence::seq_plus(last, i + 1),
                    command::BodyView::SendFragment(
                        fragment_fields(data, size, sequence::seq_next(last), i),
                    ),
                ),
        )
    }

    /// The peer with commands in flight that follow the channel's last
    /// sequence number.
    pub open spec fn with_fragments(self, ch: u8, cmds: Seq<Seq<u8>>, now: u32) -> Self {
        let c = self.channels[ch as int];
        PeerView {
            channels: self.channels.update(
                ch as int,
                ChannelView {
                    outgoing_reliable_seq: sequence::seq_plus(
                        c.outgoing_reliable_seq,
                        cmds.len() as int,
                    ),
                    ..c
                },
            ),
            outgoing: outgoing::insert_all(
                self.outgoing,
                Seq::new(
                    cmds.len(),
                    |i: int|
                        self.outstanding(
                            ch,
                            sequence::seq_plus(c.outgoing_reliable_seq, i + 1),
                            cmds[i],
                            now,
                        ),
                ),
            ),
            ..self
        }
    }

    /// The commands of an unreliable message in fragments, named by its
    /// unreliable sequence number.
    pub open spec fn unreliable_fragments(self, ck: bool, ch: u8, data: Seq<u8>) -> Seq<Seq<u8>> {
        let size = self.fragment_room(ck);
        let c = self.channels[ch as int];
        Seq::new(
            fragment::piece_count(data.len() as int, size) as nat,
            |i: int|
                channel::encoded(
                    CMD_SEND_UNRELIABLE_FRAGMENT,
                    0,
                    ch,
                    c.outgoing_reliable_seq,
                    command::BodyView::SendUnreliableFragment(
                        fragment_fields(
                            data,
                            size,
                            sequence::seq_next(c.outgoing_unreliable_seq),
                            i,
                        ),
                    ),
                ),
        )
    }

    /// The peer with another channel in the place of channel `ch`.
    pub open spec fn with_channel(self, ch: u8, c: ChannelView) -> Self {
        PeerView { channels: self.channels.update(ch as int, c), ..self }
    }

    /// What a packet turns into: the peer with what is in flight or held
    /// back, and the commands that go out now.
    pub open spec fn transmit_plan(self, ck: bool, p: PacketView, now: u32) -> (Self, Seq<Seq<u8>>) {
        let ch = p.channel;
        let none = Seq::<Seq<u8>>::empty();
        match p.mode {
            SendMode::Reliable => if ch >= self.channels.len() {
                (self, none)
            } else if self.holds_back(ck, p) {
                (PeerView { pending: self.pending.push(p), ..self }, none)
            } else if p.data.len() <= self.reliable_room(ck) {
                let body = command::BodyView::SendReliable(p.data);
                (
                    self.with_reliable(ch, CMD_SEND_RELIABLE, body, now),
                    seq![self.reliable_command(ch, CMD_SEND_RELIABLE, body)],
                )
            } else {
                let cmds = self.reliable_fragments(ck, ch, p.data);
                (self.with_fragments(ch, cmds, now), cmds)
            },
            SendMode::Unreliable => {
                let c = self.channels[ch as int].bump_unreliable();
                let q = self.with_channel(ch, c);
                if p.data.len() <= self.unreliable_room(ck) {
                    (
                        q,
                        seq![
                            channel::encoded(
                                CMD_SEND_UNRELIABLE,
                                0,
                                ch,
                                c.outgoing_reliable_seq,
                                command::BodyView::SendUnreliable(
                                    c.outgoing_unreliable_seq,
                                    p.data,
                                ),
                            ),
                        ],
                    )
                } else {
                    (q, self.unreliable_fragments(ck, ch, p.data))
                }
            },
            SendMode::Unsequenced => {
                let c = self.channels[ch as int].bump_unsequenced();
                let known = ch < self.channels.len();
                (
                    if known {
                        self.with_channel(ch, c)
                    } else {
                        self
                    },
                    seq![
                        channel::encoded(
                            CMD_SEND_UNSEQUENCED,
                            COMMAND_FLAG_UNSEQUENCED,
                            ch,
                            0,
                            command::BodyView::SendUnsequenced(
                                if known {
                                    c.outgoing_unsequenced_group
                                } else {
                                    0
                                },
                                p.data,
                            ),
                        ),
                    ],
                )
            },
        }
    }

    /// The peer after a packet was transmitted or held back, and the datagrams
    /// that carry it.
    pub open spec fn transmit(self, ck: bool, p: PacketView, now: u32) -> (Self, Seq<ActionView>) {
        let (q, cmds) = self.transmit_plan(ck, p, now);
        (q.sent(cmds, now), q.flushed(ck, cmds, now))
    }

    /// The peer after its user sent a packet, and the datagrams that carry it.
    /// Only a connected peer takes packets.
    pub open spec fn send(self, ck: bool, p: PacketView, now: u32) -> (Self, Seq<ActionView>) {
        if self.state != PeerState::Connected {
            (self, Seq::empty())
        } else {
            self.transmit(ck, p, now)
        }
    }

    /// The peer after packets were transmitted one after the other, and the
    /// datagrams that carry them.
    pub open spec fn transmit_all(self, ck: bool, packets: Seq<PacketView>, now: u32) -> (
        Self,
        Seq<ActionView>,
    )
        decreases packets.len(),
    {
        if packets.len() == 0 {
            (self, Seq::empty())
        } else {
            let (q, out) = self.transmit_all(ck, packets.drop_last(), now);
            let (r, more) = q.transmit(ck, packets.last(), now);
            (r, out + more)
        }
    }
}

/// One command goes into one datagram.
pub proof fn lemma_single(p: PeerView, ck: bool, c: Seq<u8>, now: u32)
    ensures
        p.flushed(ck, seq![c], now) == p.emitted(ck, seq![c], now),
        emit::concat(seq![c]) == c,
{
    let one = seq![c];
    assert(one.drop_last() =~= Seq::empty());
    assert(emit::batches(one.drop_last(), p.room(ck)) == Seq::<Seq<Seq<u8>>>::empty());
    assert(emit::batches(one, p.room(ck)) =~= seq![one]);
    assert(p.flushed(ck, one, now) =~= p.emitted(ck, one, now));
    assert(emit::concat(one.drop_last()) == Seq::<u8>::empty());
    assert(emit::concat(one) =~= c);
}

/// No command takes no datagram.
pub proof fn lemma_none(p: PeerView, ck: bool, now: u32)
    ensures
        p.flushed(ck, Seq::empty(), now) == Seq::<ActionView>::empty(),
{
    assert(p.flushed(ck, Seq::empty(), now) =~= Seq::empty());
}

/// A reliable command in flight keeps a peer well-formed.
pub proof fn lemma_with_reliable_wf(
    p: PeerView,
    ck: bool,
    channel_id: u8,
    cmd_type: u8,
    body: command::BodyView,
    now: u32,
)
    requires
        p.wf(ck),
        channel_id == CHANNEL_ID_CONNECTION || channel_id < p.channels.len(),
        command::body_bytes(body).len() + 12 <= isize::MAX,
    ensures
        p.with_reliable(channel_id, cmd_type, body, now).wf(ck),
{
    let v = p.outstanding(
        channel_id,
        p.next_seq(channel_id),
        p.reliable_command(channel_id, cmd_type, body),
        now,
    );
    channel::lemma_encoded_len(
        cmd_type,
        COMMAND_FLAG_ACKNOWLEDGE,
        channel_id,
        p.next_seq(channel_id),
        body,
    );
    peer::lemma_insert_ok(p.outgoing, v);
    if channel_id != CHANNEL_ID_CONNECTION {
        let c = p.channels[channel_id as int].bump_reliable();
        peer::lemma_with_channel_wf(p, ck, channel_id, c);
        let q = p.with_channel(channel_id, c);
        let r = p.with_reliable(channel_id, cmd_type, body, now);
        assert forall|i: int| 0 <= i < r.pending.len() implies r.sendable(
            ck,
            #[trigger] r.pending[i],
        ) by {
            assert(q.sendable(ck, q.pending[i]));
        }
        assert(r.channels == q.channels);
    } else {
        let r = p.with_reliable(channel_id, cmd_type, body, now);
        assert forall|i: int| 0 <= i < r.pending.len() implies r.sendable(
            ck,
            #[trigger] r.pending[i],
        ) by {
            assert(p.sendable(ck, p.pending[i]));
        }
    }
}

/// Fragments in flight keep a peer well-formed.
proof fn lemma_with_fragments_wf(p: PeerView, ck: bool, ch: u8, cmds: Seq<Seq<u8>>, now: u32)
    requires
        p.wf(ck),
        ch < p.channels.len(),
        forall|i: int| 0 <= i < cmds.len() ==> (#[trigger] cmds[i]).len() + 8 <= isize::MAX,
    ensures
        p.with_fragments(ch, cmds, now).wf(ck),
{
    let c = p.channels[ch as int];
    let d = ChannelView {
        outgoing_reliable_seq: sequence::seq_plus(c.outgoing_reliable_seq, cmds.len() as int),
        ..c
    };
    peer::lemma_with_channel_wf(p, ck, ch, d);
    let items = Seq::new(
        cmds.len(),
        |i: int|
            p.outstanding(
                ch,
                sequence::seq_plus(c.outgoing_reliable_seq, i + 1),
                cmds[i],
                now,
            ),
    );
    peer::lemma_insert_all_ok(p.outgoing, items);
    let q = p.with_channel(ch, d);
    let r = p.with_fragments(ch, cmds, now);
    assert forall|i: int| 0 <= i < r.pending.len() implies r.sendable(
        ck,
        #[trigger] r.pending[i],
    ) by {
        assert(q.sendable(ck, q.pending[i]));
    }
    assert(r.channels == q.channels);
}

/// The last time of sending has no part in what holds of a peer.
pub proof fn lemma_sent_wf(p: PeerView, ck: bool, cmds: Seq<Seq<u8>>, now: u32)
    requires
        p.wf(ck),
    ensures
        p.sent(cmds, now).wf(ck),
{
    let q = p.sent(cmds, now);
    assert forall|i: int| 0 <= i < q.pending.len() implies q.sendable(
        ck,
        #[trigger] q.pending[i],
    ) by {
        assert(p.sendable(ck, p.pending[i]));
    }
}

/// The bytes of a fragment command.
proof fn lemma_fragment_size(
    cmd_type: u8,
    flags: u8,
    ch: u8,
    seq: u16,
    data: Seq<u8>,
    size: int,
    start: u16,
    i: int,
)
    requires
        0 < size,
        0 <= i < fragment::piece_count(data.len() as int, size),
        data.len() + 64 <= isize::MAX,
    ensures
        ({
            let f = fragment_fields(data, size, start, i);
            let a = channel::encoded(cmd_type, flags, ch, seq, command::BodyView::SendFragment(f));
            let b = channel::encoded(
                cmd_type,
                flags,
                ch,
                seq,
                command::BodyView::SendUnreliableFragment(f),
            );
            a.len() + 8 <= isize::MAX && b.len() + 8 <= isize::MAX
        }),
{
    fragment::lemma_piece_bounds(data.len() as int, size, i);
    let f = fragment_fields(data, size, start, i);
    channel::lemma_encoded_len(cmd_type, flags, ch, seq, command::BodyView::SendFragment(f));
    channel::lemma_encoded_len(
        cmd_type,
        flags,
        ch,
        seq,
        command::BodyView::SendUnreliableFragment(f),
    );
}

/// Every command of a packet fits in a datagram by itself.
#[verifier::rlimit(30)]
pub proof fn lemma_plan_sizes(p: PeerView, ck: bool, pkt: PacketView, now: u32)
    requires
        p.sendable(ck, pkt),
    ensures
        ({
            let cmds = p.transmit_plan(ck, pkt, now).1;
            forall|i: int| 0 <= i < cmds.len() ==> (#[trigger] cmds[i]).len() + 8 <= isize::MAX
        }),
{
    reveal(channel::encoded);
    let cmds = p.transmit_plan(ck, pkt, now).1;
    let ch = pkt.channel;
    let size = p.fragment_room(ck);
    let last = p.channels[ch as int].outgoing_reliable_seq;
    let unreliable = p.channels[ch as int].outgoing_unreliable_seq;
    assert forall|i: int| 0 <= i < cmds.len() implies (#[trigger] cmds[i]).len() + 8
        <= isize::MAX by {
        match pkt.mode {
            SendMode::Reliable => {
                if pkt.data.len() > p.reliable_room(ck) {
                    lemma_fragment_size(
                        CMD_SEND_FRAGMENT,
                        COMMAND_FLAG_ACKNOWLEDGE,
                        ch,
                        sequence::seq_plus(last, i + 1),
                        pkt.data,
                        size,
                        sequence::seq_next(last),
                        i,
                    );
                }
            },
            SendMode::Unreliable => {
                if pkt.data.len() > p.unreliable_room(ck) {
                    lemma_fragment_size(
                        CMD_SEND_UNRELIABLE_FRAGMENT,
                        0,
                        ch,
                        last,
                        pkt.data,
                        size,
                        sequence::seq_next(unreliable),
                        i,
                    );
                }
            },
            SendMode::Unsequenced => {},
        }
    }
}

/// Law: sending a packet keeps the peer well-formed.
pub proof fn lemma_send_wf(p: PeerView, ck: bool, pkt: PacketView, now: u32)
    requires
        p.wf(ck),
        p.sendable(ck, pkt),
        p.state != PeerState::Connecting,
    ensures
        p.transmit(ck, pkt, now).0.wf(ck),
{
    let (q, cmds) = p.transmit_plan(ck, pkt, now);
    let ch = pkt.channel;
    lemma_plan_sizes(p, ck, pkt, now);
    match pkt.mode {
        SendMode::Reliable => {
            if ch < p.channels.len() {
                if p.holds_back(ck, pkt) {
                    assert forall|i: int| 0 <= i < q.pending.len() implies q.sendable(
                        ck,
                        #[trigger] q.pending[i],
                    ) by {
                        if i < p.pending.len() {
                            assert(p.sendable(ck, p.pending[i]));
                        } else {
                            assert(p.sendable(ck, pkt));
                        }
                    }
                } else if pkt.data.len() <= p.reliable_room(ck) {
                    lemma_with_reliable_wf(
                        p,
                        ck,
                        ch,
                        CMD_SEND_RELIABLE,
                        command::BodyView::SendReliable(pkt.data),
                        now,
                    );
                } else {
                    lemma_with_fragments_wf(p, ck, ch, cmds, now);
                }
            }
        },
        SendMode::Unreliable => {
            peer::lemma_with_channel_wf(p, ck, ch, p.channels[ch as int].bump_unreliable());
        },
        SendMode::Unsequenced => {
            if ch < p.channels.len() {
                peer::lemma_with_channel_wf(p, ck, ch, p.channels[ch as int].bump_unsequenced());
            }
        },
    }
    lemma_sent_wf(q, ck, cmds, now);
}

/// A change to one channel changes the view of that channel.
pub proof fn lemma_channel_update(s: Seq<channel::Channel>, i: int, c: channel::Channel)
    requires
        0 <= i < s.len(),
    ensures
        peer::channel_views(s.update(i, c)) == peer::channel_views(s).update(i, c@),
{
    assert(peer::channel_views(s.update(i, c)) =~= peer::channel_views(s).update(i, c@));
}

impl PeerEntry {
    /// Puts the next reliable command of a channel, or of the connection, in
    /// flight and returns its bytes.
    pub fn make_reliable(
        &mut self,
        ck: bool,
        channel_id: u8,
        cmd_type: u8,
        now_ms: u32,
        body: &CommandBody,
    ) -> (r: Bytes)
        requires
            old(self).wf(ck),
            channel_id == CHANNEL_ID_CONNECTION || channel_id < old(self)@.channels.len(),
            command::body_bytes(body@).len() + 12 <= isize::MAX,
        ensures
            final(self).wf(ck),
            final(self)@ == old(self)@.with_reliable(channel_id, cmd_type, body@, now_ms),
            buffer::content(r) == old(self)@.reliable_command(channel_id, cmd_type, body@),
    {
        proof {
            lemma_with_reliable_wf(self@, ck, channel_id, cmd_type, body@, now_ms);
        }
        let timeout: u32 = self.initial_rtt_timeout();
        let seq: u16 = if channel_id == CHANNEL_ID_CONNECTION {
            self.next_connect_seq()
        } else {
            let ghost before = self.channels@;
            let i: usize = channel_id as usize;
            let n: u16 = self.channels[i].next_reliable_seq();
            proof {
                lemma_channel_update(before, i as int, self.channels@[i as int]);
                assert(self.channels@ =~= before.update(i as int, self.channels@[i as int]));
            }
            n
        };
        let cmd = encode_command(cmd_type, COMMAND_FLAG_ACKNOWLEDGE, channel_id, seq, body);
        insert_outstanding(
            &mut self.outgoing_reliable,
            OutstandingReliable {
                reliable_seq: seq,
                channel_id,
                original_sent_time: now_ms,
                sent_time: now_ms,
                rtt_timeout: timeout,
                send_attempts: 1,
                packet_bytes: cmd.clone(),
            },
        );
        cmd
    }

    /// The lowest sequence number of a channel that is still in flight.
    fn oldest_in_flight(&self, ch: u8) -> (r: Option<u16>)
        ensures
            r == oldest(self@.outgoing, ch),
    {
        let ghost all = self@.outgoing;
        let mut r: Option<u16> = None;
        let mut i: usize = 0;
        assert(all.take(0) =~= Seq::empty());
        while i < self.outgoing_reliable.len()
            invariant
                i <= self.outgoing_reliable@.len(),
                all == outgoing::views(self.outgoing_reliable@),
                r == oldest(all.take(i as int), ch),
            decreases self.outgoing_reliable@.len() - i,
        {
            assert(all.take(i + 1).drop_last() =~= all.take(i as int));
            assert(all.take(i + 1).last() == self.outgoing_reliable@[i as int]@);
            if self.outgoing_reliable[i].channel_id == ch {
                let seq: u16 = self.outgoing_reliable[i].reliable_seq;
                r = match r {
                    Some(a) => if seq_lt(a, seq) {
                        Some(a)
                    } else {
                        Some(seq)
                    },
                    None => Some(seq),
                };
            }
            i += 1;
        }
        assert(all.take(i as int) =~= all);
        r
    }

    /// The bytes of all commands in flight.
    fn bytes_in_transit(&self) -> (r: u128)
        ensures
            r == in_transit(self@.outgoing),
    {
        let ghost all = self@.outgoing;
        let mut r: u128 = 0;
        let mut i: usize = 0;
        assert(all.take(0) =~= Seq::empty());
        while i < self.outgoing_reliable.len()
            invariant
                i <= self.outgoing_reliable@.len(),
                all == outgoing::views(self.outgoing_reliable@),
                r == in_transit(all.take(i as int)),
                r <= i * 0x7FFF_FFFF_FFFF_FFFF,
            decreases self.outgoing_reliable@.len() - i,
        {
            assert(all.take(i + 1).drop_last() =~= all.take(i as int));
            assert(all.take(i + 1).last() == self.outgoing_reliable@[i as int]@);
            assert(i * 0x7FFF_FFFF_FFFF_FFFF + 0x7FFF_FFFF_FFFF_FFFF <= 0xFFFF_FFFF_FFFF_FFFF
                * 0x7FFF_FFFF_FFFF_FFFF) by (nonlinear_arith)
                requires
                    0 <= i < 0xFFFF_FFFF_FFFF_FFFF,
            ;
            r = r + self.outgoing_reliable[i].packet_bytes.len() as u128;
            i += 1;
        }
        assert(all.take(i as int) =~= all);
        r
    }

    /// The usable part of the window.
    fn usable(&self) -> (r: u64)
        ensures
            r == self@.usable_window(),
    {
        let throttle: u64 = self.packet_throttle as u64;
        let window: u64 = self.window_size as u64;
        assert(throttle * window <= 0xFFFF_FFFF * 0xFFFF_FFFF) by (nonlinear_arith)
            requires
                throttle <= 0xFFFF_FFFF,
                window <= 0xFFFF_FFFF,
        ;
        throttle * window / PACKET_THROTTLE_SCALE as u64
    }

    /// How many commands a reliable message takes, and their bytes.
    fn reliable_size(&self, ck: bool, len: usize, data: Ghost<Seq<u8>>) -> (r: (u128, u128))
        requires
            len == data@.len(),
            self.mtu >= 10 + peer::checksum_size(ck),
            len > self@.reliable_room(ck) ==> self@.fragment_room(ck) > 0,
        ensures
            r.0 == self@.reliable_pieces(ck, data@),
            r.1 == self@.reliable_bytes(ck, data@),
            r.0 <= u64::MAX,
    {
        let over: u64 = if ck {
            4
        } else {
            0
        };
        let room: u64 = self.mtu as u64 - 10 - over;
        if len as u64 <= room {
            (1, len as u128 + 6)
        } else {
            let size: u64 = self.mtu as u64 - 28 - over;
            let count: u64 = count_wide(len as u64, size);
            (count as u128, len as u128 + 24 * count as u128)
        }
    }

    /// Whether the window has room for a reliable message.
    #[verifier::rlimit(30)]
    pub fn window_open(&self, ck: bool, ch: u8, data: &Bytes) -> (r: bool)
        requires
            ch < self@.channels.len(),
            ch != CHANNEL_ID_CONNECTION,
            self.mtu >= 10 + peer::checksum_size(ck),
            buffer::content(*data).len() > self@.reliable_room(ck) ==> self@.fragment_room(ck) > 0,
        ensures
            r == self@.window_open(ck, ch, buffer::content(*data)),
    {
        let next_seq: u16 = self.channels[ch as usize].outgoing_reliable_seq.wrapping_add(1);
        assert(next_seq == self@.next_seq(ch));
        let usable: u64 = self.usable();
        assert(8u64 * 4096u64 == 32768) by (nonlinear_arith);
        let cap: u64 = FREE_RELIABLE_WINDOWS as u64 * RELIABLE_WINDOW_SIZE as u64;
        let effective: u64 = if usable < cap {
            usable
        } else {
            cap
        };
        assert(effective == self@.effective_window());
        let len: usize = data.len();
        let (pieces, bytes): (u128, u128) = self.reliable_size(
            ck,
            len,
            Ghost(buffer::content(*data)),
        );
        match self.oldest_in_flight(ch) {
            None => if bytes > usable as u128 {
                return true;
            },
            Some(o) => if next_seq.wrapping_sub(o) as u128 + pieces > effective as u128 {
                return false;
            },
        }
        let transit: u128 = self.bytes_in_transit();
        transit <= usable as u128 && bytes <= usable as u128 - transit
    }

    /// Whether a reliable packet of the channel is held back.
    fn waits(&self, ch: u8) -> (r: bool)
        ensures
            r == self@.waits(ch),
    {
        let mut i: usize = 0;
        while i < self.pending_send.len()
            invariant
                i <= self.pending_send@.len(),
                forall|j: int|
                    0 <= j < i ==> !((#[trigger] self@.pending[j]).channel == ch
                        && self@.pending[j].mode == SendMode::Reliable),
            decreases self.pending_send@.len() - i,
        {
            assert(self@.pending[i as int] == self.pending_send@[i as int]@);
            if self.pending_send[i].channel == ch && self.pending_send[i].mode
                == SendMode::Reliable {
                return true;
            }
            i += 1;
        }
        false
    }

    /// Whether the datagrams that a packet needs can be laid out.
    pub fn can_send(&self, ck: bool, pkt: &Packet) -> (r: bool)
        ensures
            r == self@.sendable(ck, pkt@),
    {
        let over: u64 = if ck {
            4
        } else {
            0
        };
        let mtu: u64 = self.mtu as u64;
        let len: u64 = pkt.data.len() as u64;
        let known: bool = (pkt.channel as usize) < self.channels.len();
        let most: u64 = isize::MAX as u64;
        if mtu + 64 > most || len > most - 64 {
            return false;
        }
        match pkt.mode {
            SendMode::Reliable => !known || (mtu >= 10 + over && (len <= mtu - 10 - over || mtu > 28
                + over)),
            SendMode::Unreliable => known && mtu >= 12 + over && (len <= mtu - 12 - over || mtu > 28
                + over),
            SendMode::Unsequenced => true,
        }
    }

    /// The command body of fragment `i`.
    fn fragment_cmd(data: &Bytes, size: usize, count: usize, start: u16, i: usize) -> (r:
        SendFragmentCmd)
        requires
            0 < size,
            count == fragment::piece_count(buffer::content(*data).len() as int, size as int),
            i < count,
        ensures
            r@ == fragment_fields(buffer::content(*data), size as int, start, i as int),
    {
        let total: usize = data.len();
        proof {
            fragment::lemma_piece_bounds(total as int, size as int, i as int);
        }
        let offset: usize = i * size;
        let end: usize = if total - offset > size {
            offset + size
        } else {
            total
        };
        SendFragmentCmd {
            start_seq: start,
            fragment_count: low_32(count),
            fragment_number: low_32(i),
            total_length: low_32(total),
            fragment_offset: low_32(offset),
            data: buffer::slice(data, offset, end),
        }
    }
}

/// Fragments are put in flight one after the other.
proof fn lemma_fragments_step(
    p: PeerView,
    ch: u8,
    cmds: Seq<Seq<u8>>,
    body: command::BodyView,
    now: u32,
)
    requires
        ch < p.channels.len(),
        ch != CHANNEL_ID_CONNECTION,
    ensures
        ({
            let q = p.with_fragments(ch, cmds, now);
            let c = channel::encoded(
                CMD_SEND_FRAGMENT,
                COMMAND_FLAG_ACKNOWLEDGE,
                ch,
                sequence::seq_plus(
                    p.channels[ch as int].outgoing_reliable_seq,
                    cmds.len() as int + 1,
                ),
                body,
            );
            &&& q.reliable_command(ch, CMD_SEND_FRAGMENT, body) == c
            &&& q.with_reliable(ch, CMD_SEND_FRAGMENT, body, now) == p.with_fragments(
                ch,
                cmds.push(c),
                now,
            )
        }),
{
    let q = p.with_fragments(ch, cmds, now);
    let last = p.channels[ch as int].outgoing_reliable_seq;
    let n = cmds.len() as int;
    assert(q.next_seq(ch) == sequence::seq_plus(last, n + 1));
    let c = q.reliable_command(ch, CMD_SEND_FRAGMENT, body);
    let more = cmds.push(c);
    let r = q.with_reliable(ch, CMD_SEND_FRAGMENT, body, now);
    let t = p.with_fragments(ch, more, now);
    let items = Seq::new(
        cmds.len(),
        |i: int| p.outstanding(ch, sequence::seq_plus(last, i + 1), cmds[i], now),
    );
    let more_items = Seq::new(
        more.len(),
        |i: int| p.outstanding(ch, sequence::seq_plus(last, i + 1), more[i], now),
    );
    assert(more_items.drop_last() =~= items);
    assert(more_items.last() == q.outstanding(ch, q.next_seq(ch), c, now));
    assert(r.outgoing == t.outgoing);
    assert(r.channels =~= t.channels);
}

proof fn lemma_fragments_none(p: PeerView, ch: u8, now: u32)
    requires
        ch < p.channels.len(),
    ensures
        p.with_fragments(ch, Seq::empty(), now) == p,
{
    let q = p.with_fragments(ch, Seq::empty(), now);
    let last = p.channels[ch as int].outgoing_reliable_seq;
    assert(sequence::seq_plus(last, 0) == last);
    assert(q.channels =~= p.channels);
    assert(q =~= p);
}

impl PeerEntry {
    /// Puts fragment `i` of a reliable message in flight and returns its
    /// command.
    fn make_reliable_fragment(
        &mut self,
        ck: bool,
        ch: u8,
        data: &Bytes,
        size: usize,
        count: usize,
        start_seq: u16,
        i: usize,
        now_ms: u32,
    ) -> (r: Bytes)
        requires
            old(self).wf(ck),
            ch < old(self)@.channels.len(),
            0 < size,
            count == fragment::piece_count(buffer::content(*data).len() as int, size as int),
            i < count,
            buffer::content(*data).len() + 64 <= isize::MAX,
        ensures
            final(self).wf(ck),
            ({
                let body = command::BodyView::SendFragment(
                    fragment_fields(buffer::content(*data), size as int, start_seq, i as int),
                );
                &&& final(self)@ == old(self)@.with_reliable(ch, CMD_SEND_FRAGMENT, body, now_ms)
                &&& buffer::content(r) == old(self)@.reliable_command(ch, CMD_SEND_FRAGMENT, body)
            }),
    {
        let frag = Self::fragment_cmd(data, size, count, start_seq, i);
        proof {
            fragment::lemma_piece_bounds(
                buffer::content(*data).len() as int,
                size as int,
                i as int,
            );
        }
        let body = CommandBody::SendFragment(frag);
        self.make_reliable(ck, ch, CMD_SEND_FRAGMENT, now_ms, &body)
    }

    /// Puts a reliable message in flight as fragments and returns their
    /// commands.
    fn make_reliable_fragments(&mut self, ck: bool, ch: u8, data: &Bytes, now_ms: u32) -> (r: Vec<
        Bytes,
    >)
        requires
            old(self).wf(ck),
            ch < old(self)@.channels.len(),
            old(self)@.fragment_room(ck) > 0,
            old(self)@.mtu_fits(),
            buffer::content(*data).len() + 64 <= isize::MAX,
        ensures
            final(self).wf(ck),
            channel::contents(r@) == old(self)@.reliable_fragments(ck, ch, buffer::content(*data)),
            final(self)@ == old(self)@.with_fragments(ch, channel::contents(r@), now_ms),
    {
        let ghost start = self@;
        let ghost whole = buffer::content(*data);
        let ghost all = start.reliable_fragments(ck, ch, whole);
        let size: usize = self.mtu as usize - 28 - if ck {
            4
        } else {
            0
        };
        let count: usize = count_pieces(data.len(), size);
        let last: u16 = self.channels[ch as usize].outgoing_reliable_seq;
        let start_seq: u16 = last.wrapping_add(1);
        let mut cmds: Vec<Bytes> = Vec::new();
        let mut i: usize = 0;
        proof {
            assert(start_seq == sequence::seq_next(last));
            assert(all.take(0) =~= Seq::empty());
            assert(channel::contents(cmds@) =~= all.take(0));
            lemma_fragments_none(start, ch, now_ms);
        }
        while i < count
            invariant
                i <= count,
                whole == buffer::content(*data),
                whole.len() + 64 <= isize::MAX,
                0 < size,
                size == start.fragment_room(ck),
                count == fragment::piece_count(whole.len() as int, size as int),
                all == start.reliable_fragments(ck, ch, whole),
                all.len() == count,
                last == start.channels[ch as int].outgoing_reliable_seq,
                start_seq == sequence::seq_next(last),
                ch < start.channels.len() <= 255,
                channel::contents(cmds@) == all.take(i as int),
                self@ == start.with_fragments(ch, all.take(i as int), now_ms),
                self.wf(ck),
            decreases count - i,
        {
            let ghost so_far = channel::contents(cmds@);
            proof {
                lemma_fragments_step(
                    start,
                    ch,
                    all.take(i as int),
                    command::BodyView::SendFragment(
                        fragment_fields(whole, size as int, start_seq, i as int),
                    ),
                    now_ms,
                );
                assert(all.take(i + 1) =~= all.take(i as int).push(all[i as int]));
            }
            let cmd = self.make_reliable_fragment(ck, ch, data, size, count, start_seq, i, now_ms);
            assert(buffer::content(cmd) == all[i as int]);
            cmds.push(cmd);
            assert(channel::contents(cmds@) =~= so_far.push(buffer::content(cmd)));
            i += 1;
        }
        assert(all.take(i as int) =~= all);
        cmds
    }

    /// The commands of an unreliable message in fragments.
    fn make_unreliable_fragments(
        &self,
        ck: bool,
        ch: u8,
        start_seq: u16,
        reliable_seq: u16,
        data: &Bytes,
    ) -> (r: Vec<Bytes>)
        requires
            self@.fragment_room(ck) > 0,
            self@.mtu_fits(),
            buffer::content(*data).len() + 64 <= isize::MAX,
        ensures
            channel::contents(r@) == Seq::new(
                fragment::piece_count(
                    buffer::content(*data).len() as int,
                    self@.fragment_room(ck),
                ) as nat,
                |i: int|
                    channel::encoded(
                        CMD_SEND_UNRELIABLE_FRAGMENT,
                        0,
                        ch,
                        reliable_seq,
                        command::BodyView::SendUnreliableFragment(
                            fragment_fields(
                                buffer::content(*data),
                                self@.fragment_room(ck),
                                start_seq,
                                i,
                            ),
                        ),
                    ),
            ),
    {
        let ghost whole = buffer::content(*data);
        let size: usize = self.mtu as usize - 28 - if ck {
            4
        } else {
            0
        };
        let count: usize = count_pieces(data.len(), size);
        let ghost all = Seq::new(
            count as nat,
            |i: int|
                channel::encoded(
                    CMD_SEND_UNRELIABLE_FRAGMENT,
                    0,
                    ch,
                    reliable_seq,
                    command::BodyView::SendUnreliableFragment(
                        fragment_fields(whole, size as int, start_seq, i),
                    ),
                ),
        );
        let mut cmds: Vec<Bytes> = Vec::new();
        let mut i: usize = 0;
        assert(channel::contents(cmds@) =~= all.take(0));
        while i < count
            invariant
                i <= count,
                whole == buffer::content(*data),
                whole.len() + 64 <= isize::MAX,
                0 < size,
                count == fragment::piece_count(whole.len() as int, size as int),
                all == Seq::new(
                    count as nat,
                    |j: int|
                        channel::encoded(
                            CMD_SEND_UNRELIABLE_FRAGMENT,
                            0,
                            ch,
                            reliable_seq,
                            command::BodyView::SendUnreliableFragment(
                                fragment_fields(whole, size as int, start_seq, j),
                            ),
                        ),
                ),
                channel::contents(cmds@) == all.take(i as int),
            decreases count - i,
        {
            let frag = Self::fragment_cmd(data, size, count, start_seq, i);
            let body = CommandBody::SendUnreliableFragment(frag);
            proof {
                lemma_fragment_size(
                    CMD_SEND_UNRELIABLE_FRAGMENT,
                    0,
                    ch,
                    reliable_seq,
                    whole,
                    size as int,
                    start_seq,
                    i as int,
                );
            }
            proof {
                channel::lemma_encoded_len(
                    CMD_SEND_UNRELIABLE_FRAGMENT,
                    0,
                    ch,
                    reliable_seq,
                    body@,
                );
            }
            let cmd = encode_command(CMD_SEND_UNRELIABLE_FRAGMENT, 0, ch, reliable_seq, &body);
            assert(buffer::content(cmd) == all[i as int]);
            let ghost so_far = channel::contents(cmds@);
            cmds.push(cmd);
            assert(channel::contents(cmds@) =~= so_far.push(buffer::content(cmd)));
            assert(all.take(i + 1) =~= all.take(i as int).push(all[i as int]));
            i += 1;
        }
        assert(all.take(i as int) =~= all);
        cmds
    }
}

impl PeerEntry {
    /// Sends one command in a datagram of its own.
    pub fn emit_one(&mut self, ck: bool, cmd: Bytes, now_ms: u32, out: &mut Vec<Action>)
        requires
            buffer::content(cmd).len() + 8 <= isize::MAX,
        ensures
            final(self)@ == old(self)@.sent(seq![buffer::content(cmd)], now_ms),
            peer::actions(final(out)@) == peer::actions(old(out)@) + old(self)@.flushed(
                ck,
                seq![buffer::content(cmd)],
                now_ms,
            ),
            old(self).wf(ck) ==> final(self).wf(ck),
    {
        proof {
            lemma_single(self@, ck, buffer::content(cmd), now_ms);
            if self.wf(ck) {
                lemma_sent_wf(self@, ck, seq![buffer::content(cmd)], now_ms);
            }
        }
        let one = [cmd];
        assert(channel::contents(one@) =~= seq![buffer::content(cmd)]);
        self.emit(ck, &one, now_ms, out);
    }

    /// Sends several commands in datagrams of up to one MTU.
    fn emit_all(&mut self, ck: bool, cmds: Vec<Bytes>, now_ms: u32, out: &mut Vec<Action>)
        requires
            old(self)@.mtu_fits(),
            forall|i: int|
                0 <= i < cmds@.len() ==> buffer::content(#[trigger] cmds@[i]).len() + 8
                    <= isize::MAX,
        ensures
            final(self)@ == old(self)@.sent(channel::contents(cmds@), now_ms),
            peer::actions(final(out)@) == peer::actions(old(out)@) + old(self)@.flushed(
                ck,
                channel::contents(cmds@),
                now_ms,
            ),
            old(self).wf(ck) ==> final(self).wf(ck),
    {
        proof {
            if self.wf(ck) {
                lemma_sent_wf(self@, ck, channel::contents(cmds@), now_ms);
            }
        }
        self.flush_batch(ck, cmds, now_ms, out);
    }

    /// Sends a reliable packet on a channel that exists, or holds it back
    /// until the window opens.
    fn send_reliable(&mut self, ck: bool, pkt: Packet, now_ms: u32, out: &mut Vec<Action>)
        requires
            old(self).wf(ck),
            old(self).state != PeerState::Connecting,
            pkt.mode == SendMode::Reliable,
            pkt.channel < old(self)@.channels.len(),
            old(self)@.sendable(ck, pkt@),
        ensures
            final(self).wf(ck),
            final(self)@ == old(self)@.transmit(ck, pkt@, now_ms).0,
            peer::actions(final(out)@) == peer::actions(old(out)@) + old(self)@.transmit(
                ck,
                pkt@,
                now_ms,
            ).1,
    {
        let ghost start = self@;
        let ghost actions = peer::actions(out@);
        let ghost view = pkt@;
        proof {
            lemma_send_wf(start, ck, view, now_ms);
            lemma_plan_sizes(start, ck, view, now_ms);
        }
        let ch: u8 = pkt.channel;
        if self.waits(ch) || !self.window_open(ck, ch, &pkt.data) {
            // Held back instead of dropped: delivery is guaranteed.
            self.pending_send.push_back(pkt);
            proof {
                assert(self@.pending =~= start.pending.push(view));
                lemma_none(self@, ck, now_ms);
                assert(actions + Seq::<ActionView>::empty() =~= actions);
            }
            return;
        }
        let over: usize = if ck {
            4
        } else {
            0
        };
        let max_payload: usize = self.mtu as usize - 10 - over;
        if pkt.data.len() <= max_payload {
            let body = CommandBody::SendReliable(SendReliableCmd { data: pkt.data });
            let cmd = self.make_reliable(ck, ch, CMD_SEND_RELIABLE, now_ms, &body);
            assert(buffer::content(cmd) == start.transmit_plan(ck, view, now_ms).1[0]);
            self.emit_one(ck, cmd, now_ms, out);
        } else {
            let cmds = self.make_reliable_fragments(ck, ch, &pkt.data, now_ms);
            proof {
                assert forall|i: int| 0 <= i < cmds@.len() implies buffer::content(
                    #[trigger] cmds@[i],
                ).len() + 8 <= isize::MAX by {
                    assert(channel::contents(cmds@)[i] == buffer::content(cmds@[i]));
                }
            }
            self.emit_all(ck, cmds, now_ms, out);
        }
    }

    /// Sends an unreliable packet.
    fn send_unreliable(&mut self, ck: bool, pkt: Packet, now_ms: u32, out: &mut Vec<Action>)
        requires
            old(self).wf(ck),
            old(self).state != PeerState::Connecting,
            pkt.mode == SendMode::Unreliable,
            old(self)@.sendable(ck, pkt@),
        ensures
            final(self).wf(ck),
            final(self)@ == old(self)@.transmit(ck, pkt@, now_ms).0,
            peer::actions(final(out)@) == peer::actions(old(out)@) + old(self)@.transmit(
                ck,
                pkt@,
                now_ms,
            ).1,
    {
        let ghost start = self@;
        let ghost view = pkt@;
        proof {
            lemma_send_wf(start, ck, view, now_ms);
            lemma_plan_sizes(start, ck, view, now_ms);
        }
        let ch: u8 = pkt.channel;
        let k: usize = ch as usize;
        let over: usize = if ck {
            4
        } else {
            0
        };
        let max_payload: usize = self.mtu as usize - 12 - over;
        let ghost before = self.channels@;
        let unreliable_seq: u16 = self.channels[k].next_unreliable_seq();
        let reliable_seq: u16 = self.channels[k].outgoing_reliable_seq;
        proof {
            lemma_channel_update(before, k as int, self.channels@[k as int]);
            assert(self.channels@ =~= before.update(k as int, self.channels@[k as int]));
            peer::lemma_with_channel_wf(start, ck, ch, start.channels[ch as int].bump_unreliable());
            assert(self@ == start.transmit_plan(ck, view, now_ms).0);
        }
        if pkt.data.len() <= max_payload {
            let body = CommandBody::SendUnreliable(
                SendUnreliableCmd { unreliable_seq, data: pkt.data },
            );
            let cmd = encode_command(CMD_SEND_UNRELIABLE, 0, ch, reliable_seq, &body);
            assert(buffer::content(cmd) == start.transmit_plan(ck, view, now_ms).1[0]);
            self.emit_one(ck, cmd, now_ms, out);
        } else {
            let cmds = self.make_unreliable_fragments(
                ck,
                ch,
                unreliable_seq,
                reliable_seq,
                &pkt.data,
            );
            proof {
                assert(channel::contents(cmds@) =~= start.transmit_plan(ck, view, now_ms).1);
                assert forall|i: int| 0 <= i < cmds@.len() implies buffer::content(
                    #[trigger] cmds@[i],
                ).len() + 8 <= isize::MAX by {
                    assert(channel::contents(cmds@)[i] == buffer::content(cmds@[i]));
                }
            }
            self.emit_all(ck, cmds, now_ms, out);
        }
    }

    /// Sends an unsequenced packet.
    fn send_unsequenced(&mut self, ck: bool, pkt: Packet, now_ms: u32, out: &mut Vec<Action>)
        requires
            old(self).wf(ck),
            old(self).state != PeerState::Connecting,
            pkt.mode == SendMode::Unsequenced,
            old(self)@.sendable(ck, pkt@),
        ensures
            final(self).wf(ck),
            final(self)@ == old(self)@.transmit(ck, pkt@, now_ms).0,
            peer::actions(final(out)@) == peer::actions(old(out)@) + old(self)@.transmit(
                ck,
                pkt@,
                now_ms,
            ).1,
    {
        let ghost start = self@;
        let ghost view = pkt@;
        proof {
            lemma_plan_sizes(start, ck, view, now_ms);
        }
        let ch: u8 = pkt.channel;
        let k: usize = ch as usize;
        let mut group: u16 = 0;
        if k < self.channels.len() {
            let ghost before = self.channels@;
            group = self.channels[k].next_unsequenced_group();
            proof {
                lemma_channel_update(before, k as int, self.channels@[k as int]);
                assert(self.channels@ =~= before.update(k as int, self.channels@[k as int]));
                peer::lemma_with_channel_wf(
                    start,
                    ck,
                    ch,
                    start.channels[ch as int].bump_unsequenced(),
                );
            }
        }
        assert(self@ == start.transmit_plan(ck, view, now_ms).0);
        let body = CommandBody::SendUnsequenced(
            SendUnsequencedCmd { unsequenced_group: group, data: pkt.data },
        );
        let cmd = encode_command(CMD_SEND_UNSEQUENCED, COMMAND_FLAG_UNSEQUENCED, ch, 0, &body);
        assert(buffer::content(cmd) == start.transmit_plan(ck, view, now_ms).1[0]);
        self.emit_one(ck, cmd, now_ms, out);
    }

    /// Transmits a packet or holds it back.
    pub fn transmit(&mut self, ck: bool, pkt: Packet, now_ms: u32, out: &mut Vec<Action>)
        requires
            old(self).wf(ck),
            old(self).state != PeerState::Connecting,
            old(self)@.sendable(ck, pkt@),
        ensures
            final(self).wf(ck),
            final(self)@ == old(self)@.transmit(ck, pkt@, now_ms).0,
            peer::actions(final(out)@) == peer::actions(old(out)@) + old(self)@.transmit(
                ck,
                pkt@,
                now_ms,
            ).1,
    {
        match pkt.mode {
            SendMode::Reliable => {
                if pkt.channel as usize >= self.channels.len() {
                    proof {
                        lemma_none(self@, ck, now_ms);
                        assert(peer::actions(out@) + Seq::<ActionView>::empty()
                            =~= peer::actions(out@));
                    }
                    return;
                }
                self.send_reliable(ck, pkt, now_ms, out);
            },
            SendMode::Unreliable => {
                self.send_unreliable(ck, pkt, now_ms, out);
            },
            SendMode::Unsequenced => {
                self.send_unsequenced(ck, pkt, now_ms, out);
            },
        }
    }

    /// Sends a packet for the peer's user.
    pub fn send_packet(&mut self, ck: bool, pkt: Packet, now_ms: u32, out: &mut Vec<Action>)
        requires
            old(self).wf(ck),
            old(self).state == PeerState::Connected ==> old(self)@.sendable(ck, pkt@),
        ensures
            final(self).wf(ck),
            final(self)@ == old(self)@.send(ck, pkt@, now_ms).0,
            peer::actions(final(out)@) == peer::actions(old(out)@) + old(self)@.send(
                ck,
                pkt@,
                now_ms,
            ).1,
    {
        if self.state != PeerState::Connected {
            assert(peer::actions(out@) + Seq::<ActionView>::empty() =~= peer::actions(out@));
            return;
        }
        self.transmit(ck, pkt, now_ms, out);
    }
}

/// How many pieces of at most `size` bytes `total` bytes take.
fn count_wide(total: u64, size: u64) -> (r: u64)
    requires
        0 < size,
    ensures
        r == fragment::piece_count(total as int, size as int),
{
    let q: u64 = total / size;
    let m: u64 = total % size;
    proof {
        let n = fragment::piece_count(total as int, size as int);
        assert(total == q * size + m && m < size) by (nonlinear_arith)
            requires
                q == total / size,
                m == total % size,
                0 < size,
        ;
        assert(n == if m != 0 {
            q + 1
        } else {
            q as int
        }) by (nonlinear_arith)
            requires
                total == q * size + m,
                0 <= m < size,
                n == (total + size - 1) / size as int,
        ;
        assert(q <= total) by (nonlinear_arith)
            requires
                q == total / size,
                0 < size,
        ;
        assert(m != 0 ==> q < total) by (nonlinear_arith)
            requires
                total == q * size + m,
                0 < size,
                0 <= m,
        ;
    }
    if m != 0 {
        q + 1
    } else {
        q
    }
}

/// The low 32 bits of a number.
fn low_32(n: usize) -> (r: u32)
    ensures
        r == n as int % 0x1_0000_0000,
{
    let wide: u64 = n as u64;
    assert(wide as u32 == wide % 0x1_0000_0000) by (bit_vector);
    wide as u32
}

/// How many pieces of at most `size` bytes `total` bytes take.
fn count_pieces(total: usize, size: usize) -> (r: usize)
    requires
        0 < size,
    ensures
        r == fragment::piece_count(total as int, size as int),
{
    let q: usize = total / size;
    let m: usize = total % size;
    proof {
        let n = fragment::piece_count(total as int, size as int);
        assert(total == q * size + m && m < size) by (nonlinear_arith)
            requires
                q == total / size,
                m == total % size,
                0 < size,
        ;
        assert(n == if m != 0 {
            q + 1
        } else {
            q as int
        }) by (nonlinear_arith)
            requires
                total == q * size + m,
                0 <= m,
                m < size,
                n == (total + size - 1) / (size as int),
        ;
        if m != 0 {
            assert(q + 1 <= total) by (nonlinear_arith)
                requires
                    total == q * size + m,
                    0 < m,
                    0 < size,
            ;
        }
    }
    if m != 0 {
        q + 1
    } else {
        q
    }
}

} // verus!
