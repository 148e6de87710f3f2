//! Datagrams: whom they are from, whether they are genuine, and what each
//! command does.

use vstd::prelude::*;

use bytes::Bytes;

use crate::address::{Address, PeerKey};
use crate::buffer;
use crate::channel;
use crate::peer;
use crate::peer::emit;
use crate::peer::receive;
use crate::peer::rtt::AckOutcome;
use crate::peer::send;
use crate::peer::{Action, ActionView, CloseReason, PeerState, PeerView};
use crate::protocol::command;
use crate::protocol::crc32;
use crate::protocol::header;
use crate::protocol::wire;
use crate::protocol::{
    parse_commands, AcknowledgeCmd, Command, CommandBody, CommandHeader, DisconnectCmd,
    ProtocolHeader, VerifyConnectCmd, CHANNEL_ID_CONNECTION, HEADER_PEER_ID_MAX,
    MAX_COMMANDS_PER_PACKET,
};
use crate::task;
use crate::task::connect;
use crate::task::connect::ack;
use crate::task::{HostTask, HostView};

verus! {

/// The host in the course of a datagram: what it did so far, and the
/// acknowledgements that it collected.
#[verifier::ext_equal]
pub struct Turn {
    pub host: HostView,
    pub out: Seq<ActionView>,
    pub acks: Seq<Seq<u8>>,
}

/// Whether a command is acknowledged: where it asks for it, and where it is
/// of a kind that always does.
pub open spec fn wants_ack(c: command::CommandView) -> bool {
    header::ack_bit(c.header.command) || c.body is SendReliable || c.body is SendFragment
}

/// The acknowledgements with one for command `c` of a datagram sent at
/// `sent_time`. Without that time there is none.
pub open spec fn with_ack(
    acks: Seq<Seq<u8>>,
    channel_id: u8,
    seq: u16,
    sent_time: Option<u16>,
) -> Seq<Seq<u8>> {
    match sent_time {
        Some(st) => acks.push(connect::ack_command(channel_id, seq, st)),
        None => acks,
    }
}

impl HostView {
    /// Whether a peer drops a reliable command for lack of room.
    pub open spec fn refuses(self, key: PeerKey, c: command::CommandView) -> bool {
        self.live(key) && self.peer(key).refuses(c)
    }

    /// The host with room for a command.
    pub open spec fn room_for(self, key: PeerKey, c: command::CommandView) -> Self {
        if self.live(key) {
            self.with_peer(key, self.peer(key).room_for(c))
        } else {
            self
        }
    }

    /// The peer that a datagram is for: named by its slot, or found by the
    /// sender's address where no slot was assigned yet.
    pub open spec fn receiver(self, hdr: ProtocolHeader, from: Address) -> Option<PeerKey> {
        let id = header::peer_id_bits(hdr.peer_id_raw);
        if id == HEADER_PEER_ID_MAX {
            if self.addr_map.contains_key(from) {
                Some(self.addr_map[from])
            } else {
                None
            }
        } else if id < self.peers.len() {
            Some(PeerKey(id as usize))
        } else {
            None
        }
    }

    /// A datagram is of the peer's current session, where one is known.
    pub open spec fn session_ok(self, key: Option<PeerKey>, hdr: ProtocolHeader) -> bool {
        match key {
            Some(k) => self.live(k) && self.peer(k).incoming_session_id != 0xFF
                ==> header::session_bits(hdr.peer_id_raw) == self.peer(k).incoming_session_id,
            None => true,
        }
    }

    /// The connect ID that goes into a datagram's checksum.
    pub open spec fn checksum_id(self, key: Option<PeerKey>) -> u32 {
        match key {
            Some(k) => if self.live(k) {
                self.peer(k).connect_id
            } else {
                0
            },
            None => 0,
        }
    }

    /// What a datagram that is let in carries: its header, the peer it is
    /// for, and the bytes of its commands. A datagram is dropped if its
    /// header is incomplete, if it is compressed, of another session, or if
    /// its checksum is wrong.
    pub open spec fn admitted(self, raw: Seq<u8>, from: Address) -> Option<
        (ProtocolHeader, Option<PeerKey>, Seq<u8>),
    > {
        match header::parse_protocol_header(raw) {
            (None, _) => None,
            (Some(hdr), n) => {
                let key = self.receiver(hdr, from);
                let rest = raw.skip(n);
                if header::compressed_bit(hdr.peer_id_raw) || !self.session_ok(key, hdr) {
                    None
                } else if !self.use_checksum {
                    Some((hdr, key, rest))
                } else if rest.len() < 4 || emit::checksum(
                    raw.take(n),
                    self.checksum_id(key),
                    rest.skip(4),
                ) != wire::u32_at(rest, 0) {
                    None
                } else {
                    Some((hdr, key, rest.skip(4)))
                }
            },
        }
    }

    /// An acknowledgement from a peer.
    pub open spec fn on_ack(self, key: PeerKey, channel_id: u8, ack: AcknowledgeCmd, now: u32) -> (
        Self,
        Seq<ActionView>,
    ) {
        let p = self.peer(key);
        let h = self.with_peer(key, p.acknowledged(channel_id, ack, now));
        match p.ack_outcome(channel_id, ack, now) {
            AckOutcome::Nothing => (h, Seq::empty()),
            AckOutcome::Accepted => (h, seq![ActionView::Accept { key }]),
            AckOutcome::Disconnected => (h.without_peer(key), h.closing(key, CloseReason::Local)),
        }
    }

    /// A DISCONNECT from a peer: acknowledged where it is graceful, and the
    /// peer is gone.
    pub open spec fn on_disconnect(
        self,
        key: PeerKey,
        hdr: CommandHeader,
        data: u32,
        sent_time: Option<u16>,
        now: u32,
    ) -> (Self, Seq<ActionView>) {
        let (h, sent) = match sent_time {
            Some(st) if header::ack_bit(hdr.command) => self.emit(
                key,
                seq![connect::ack_command(hdr.channel_id, hdr.reliable_seq, st)],
                now,
            ),
            _ => (self, Seq::empty()),
        };
        (h.without_peer(key), sent + h.closing(key, CloseReason::Remote(data)))
    }

    /// The answer of a server to CONNECT.
    pub open spec fn on_verify_connect(
        self,
        key: PeerKey,
        vc: VerifyConnectCmd,
        seq: u16,
        now: u32,
    ) -> (Self, Seq<ActionView>) {
        let p = self.peer(key);
        (
            self.with_peer(key, p.on_verify(vc, seq, now)),
            if p.accepts_verify(vc) && p.handle_held && p.reply_held {
                seq![ActionView::ConnectReply { key }]
            } else {
                Seq::empty()
            },
        )
    }
}

impl Turn {
    /// The turn before the first command.
    pub open spec fn first(h: HostView) -> Self {
        Turn { host: h, out: Seq::empty(), acks: Seq::empty() }
    }

    /// The turn with more done.
    pub open spec fn then_do(self, step: (HostView, Seq<ActionView>)) -> Self {
        Turn { host: step.0, out: self.out + step.1, ..self }
    }

    /// One command of a datagram.
    pub open spec fn on_command(
        self,
        key: Option<PeerKey>,
        sent_time: Option<u16>,
        c: command::CommandView,
        from: Address,
        now: u32,
    ) -> Self {
        let hdr = c.header;
        let h = self.host;
        match (c.body, key) {
            (command::BodyView::Connect(connect), _) => self.then_do(
                h.on_connect(connect, hdr.reliable_seq, sent_time, from, now),
            ),
            (_, None) => self,
            (command::BodyView::Disconnect(d), Some(k)) => self.then_do(
                h.on_disconnect(k, hdr, d.data, sent_time, now),
            ),
            (command::BodyView::VerifyConnect(vc), Some(k)) => if !h.live(k) {
                self
            } else {
                Turn {
                    acks: if h.peer(k).acks_verify(vc, header::ack_bit(hdr.command)) {
                        with_ack(self.acks, CHANNEL_ID_CONNECTION, hdr.reliable_seq, sent_time)
                    } else {
                        self.acks
                    },
                    ..self.then_do(h.on_verify_connect(k, vc, hdr.reliable_seq, now))
                }
            },
            (body, Some(k)) => {
                let acks = if wants_ack(c) && !h.refuses(k, c) {
                    with_ack(self.acks, hdr.channel_id, hdr.reliable_seq, sent_time)
                } else {
                    self.acks
                };
                if !h.live(k) {
                    Turn { acks, ..self }
                } else {
                    match body {
                        command::BodyView::Acknowledge(a) => Turn {
                            acks,
                            ..self.then_do(h.on_ack(k, hdr.channel_id, a, now))
                        },
                        _ => {
                            let (p, out) = h.peer(k).on_data(k, c, now);
                            Turn { acks, ..self.then_do((h.with_peer(k, p), out)) }
                        },
                    }
                }
            },
        }
    }

    /// The commands of a datagram one after the other.
    pub open spec fn on_commands(
        self,
        key: Option<PeerKey>,
        sent_time: Option<u16>,
        cmds: Seq<command::CommandView>,
        from: Address,
        now: u32,
    ) -> Self
        decreases cmds.len(),
    {
        if cmds.len() == 0 {
            self
        } else {
            self.on_commands(key, sent_time, cmds.drop_last(), from, now).on_command(
                key,
                sent_time,
                cmds.last(),
                from,
                now,
            )
        }
    }

    /// The acknowledgements go out: to the peer that the datagram was for, or
    /// to the one that it brought about.
    pub open spec fn flush_acks(self, key: Option<PeerKey>, from: Address, now: u32) -> (
        HostView,
        Seq<ActionView>,
    ) {
        let to = match key {
            Some(k) => Some(k),
            None => if self.host.addr_map.contains_key(from) {
                Some(self.host.addr_map[from])
            } else {
                None
            },
        };
        match to {
            Some(k) if self.acks.len() > 0 => {
                let (h, sent) = self.host.flush(k, self.acks, now);
                (h, self.out + sent)
            },
            _ => (self.host, self.out),
        }
    }
}

impl HostView {
    /// A datagram.
    #[verifier::opaque]
    pub open spec fn on_datagram(self, raw: Seq<u8>, from: Address, now: u32) -> (
        Self,
        Seq<ActionView>,
    ) {
        match self.admitted(raw, from) {
            None => (self, Seq::empty()),
            Some((hdr, key, body)) => Turn::first(self).on_commands(
                key,
                hdr.sent_time,
                command::parse_all(body, MAX_COMMANDS_PER_PACKET as nat),
                from,
                now,
            ).flush_acks(key, from, now),
        }
    }
}

/// Acknowledgements are eight bytes long each.
spec fn acks_ok(acks: Seq<Seq<u8>>, n: int) -> bool {
    &&& acks.len() <= n
    &&& forall|i: int| 0 <= i < acks.len() ==> (#[trigger] acks[i]).len() == 8
}

proof fn lemma_acks_size(acks: Seq<Seq<u8>>, n: int)
    requires
        acks_ok(acks, n),
    ensures
        emit::concat(acks).len() <= 8 * n,
    decreases acks.len(),
{
    if acks.len() > 0 {
        let front = acks.drop_last();
        assert forall|i: int| 0 <= i < front.len() implies (#[trigger] front[i]).len() == 8 by {
            assert(acks[i].len() == 8);
        }
        lemma_acks_size(front, n - 1);
        assert(acks[acks.len() - 1].len() == 8);
    }
}

/// Adds an acknowledgement, where the time of sending is known.
fn push_ack(acks: &mut Vec<Bytes>, channel_id: u8, seq: u16, sent_time: Option<u16>)
    ensures
        channel::contents(final(acks)@) == with_ack(
            channel::contents(old(acks)@),
            channel_id,
            seq,
            sent_time,
        ),
        forall|n: int| #[trigger]
            acks_ok(channel::contents(old(acks)@), n) ==> acks_ok(
                channel::contents(final(acks)@),
                n + 1,
            ),
{
    let ghost before = channel::contents(acks@);
    if let Some(st) = sent_time {
        let a = ack(channel_id, seq, st);
        acks.push(a);
        assert(channel::contents(acks@) =~= before.push(buffer::content(a)));
    }
}

impl HostTask {
    /// The turn that the host is in.
    spec fn turn(self, out: Seq<Action>, acks: Seq<Bytes>) -> Turn {
        Turn { host: self@, out: peer::actions(out), acks: channel::contents(acks) }
    }

    /// Takes an acknowledgement from a peer.
    pub fn on_ack(
        &mut self,
        key: PeerKey,
        channel_id: u8,
        ack: AcknowledgeCmd,
        now_ms: u32,
        out: &mut Vec<Action>,
    )
        requires
            old(self).wf(),
            old(self)@.live(key),
        ensures
            final(self).wf(),
            final(self)@ == old(self)@.on_ack(key, channel_id, ack, now_ms).0,
            peer::actions(final(out)@) == peer::actions(old(out)@) + old(self)@.on_ack(
                key,
                channel_id,
                ack,
                now_ms,
            ).1,
    {
        let i: usize = key.0;
        let ghost before = self.peers@;
        let ghost start = self@;
        let ghost actions = peer::actions(out@);
        assert(start.peers[i as int] == task::slot_view(before[i as int]));
        let outcome = match &mut self.peers[i] {
            Some(p) => p.on_ack(channel_id, ack, now_ms),
            None => AckOutcome::Nothing,
        };
        proof {
            task::lemma_slot_update(before, i as int, self.peers@[i as int]);
            assert(self.peers@ =~= before.update(i as int, self.peers@[i as int]));
            lemma_acknowledged_wf(
                start.peer(key),
                start.use_checksum,
                channel_id,
                ack,
                now_ms,
            );
            task::lemma_with_peer_wf(start, key, self@.peer(key));
            assert(actions + Seq::<ActionView>::empty() =~= actions);
        }
        match outcome {
            AckOutcome::Nothing => {},
            AckOutcome::Accepted => {
                out.push(Action::Accept { key });
                assert(peer::actions(out@) =~= actions + seq![ActionView::Accept { key }]);
            },
            AckOutcome::Disconnected => {
                self.remove_peer(key, CloseReason::Local, out);
            },
        }
    }

    /// Takes a DISCONNECT from a peer.
    fn on_disconnect(
        &mut self,
        key: PeerKey,
        hdr: CommandHeader,
        d: DisconnectCmd,
        sent_time: Option<u16>,
        now_ms: u32,
        out: &mut Vec<Action>,
    )
        requires
            old(self).wf(),
        ensures
            final(self).wf(),
            final(self)@ == old(self)@.on_disconnect(key, hdr, d.data, sent_time, now_ms).0,
            peer::actions(final(out)@) == peer::actions(old(out)@) + old(self)@.on_disconnect(
                key,
                hdr,
                d.data,
                sent_time,
                now_ms,
            ).1,
    {
        let ghost start = self@;
        let ghost actions = peer::actions(out@);
        assert(actions + Seq::<ActionView>::empty() =~= actions);
        if hdr.has_ack_flag() {
            // The acknowledgement goes out before the peer's state is gone.
            if let Some(st) = sent_time {
                let a = ack(hdr.channel_id, hdr.reliable_seq, st);
                let one = [a];
                proof {
                    assert(channel::contents(one@) =~= seq![buffer::content(a)]);
                    send::lemma_single(start.peer(key), false, buffer::content(a), now_ms);
                }
                self.emit_by_key(key, &one, now_ms, out);
            }
        }
        let ghost h = self@;
        let ghost sent = peer::actions(out@);
        self.remove_peer(key, CloseReason::Remote(d.data), out);
        proof {
            let all = start.on_disconnect(key, hdr, d.data, sent_time, now_ms).1;
            assert(peer::actions(out@) =~= actions + all);
        }
    }

    /// Takes the answer of a server to CONNECT.
    fn on_verify_connect(
        &mut self,
        key: PeerKey,
        vc: VerifyConnectCmd,
        seq: u16,
        now_ms: u32,
        out: &mut Vec<Action>,
    )
        requires
            old(self).wf(),
            old(self)@.live(key),
        ensures
            final(self).wf(),
            final(self)@ == old(self)@.on_verify_connect(key, vc, seq, now_ms).0,
            peer::actions(final(out)@) == peer::actions(old(out)@) + old(self)@.on_verify_connect(
                key,
                vc,
                seq,
                now_ms,
            ).1,
    {
        let ck: bool = self.use_checksum;
        let i: usize = key.0;
        let ghost before = self.peers@;
        let ghost start = self@;
        let ghost actions = peer::actions(out@);
        assert(start.peers[i as int] == task::slot_view(before[i as int]));
        let told: bool = match &mut self.peers[i] {
            Some(p) => p.on_verify(ck, vc, seq, now_ms),
            None => false,
        };
        proof {
            task::lemma_slot_update(before, i as int, self.peers@[i as int]);
            assert(self.peers@ =~= before.update(i as int, self.peers@[i as int]));
            task::lemma_with_peer_wf(start, key, self@.peer(key));
            assert(actions + Seq::<ActionView>::empty() =~= actions);
        }
        if told {
            out.push(Action::ConnectReply { key });
            assert(peer::actions(out@) =~= actions + seq![ActionView::ConnectReply { key }]);
        }
    }

    /// Takes a command that carries data or settings.
    fn on_data(&mut self, key: PeerKey, cmd: Command, now_ms: u32, out: &mut Vec<Action>)
        requires
            old(self).wf(),
            old(self)@.live(key),
        ensures
            final(self).wf(),
            final(self)@ == old(self)@.with_peer(
                key,
                old(self)@.peer(key).on_data(key, cmd@, now_ms).0,
            ),
            peer::actions(final(out)@) == peer::actions(old(out)@) + old(self)@.peer(key).on_data(
                key,
                cmd@,
                now_ms,
            ).1,
    {
        let ck: bool = self.use_checksum;
        let i: usize = key.0;
        let ghost before = self.peers@;
        let ghost start = self@;
        assert(start.peers[i as int] == task::slot_view(before[i as int]));
        match &mut self.peers[i] {
            Some(p) => {
                p.on_data(ck, key, cmd, now_ms, out);
            },
            None => {},
        }
        proof {
            task::lemma_slot_update(before, i as int, self.peers@[i as int]);
            assert(self.peers@ =~= before.update(i as int, self.peers@[i as int]));
            task::lemma_with_peer_wf(start, key, self@.peer(key));
        }
    }

    /// Makes room for a reliable command. Returns false if it is to be dropped
    /// for lack of room.
    fn make_room(&mut self, key: PeerKey, cmd: &Command) -> (r: bool)
        requires
            old(self).wf(),
        ensures
            final(self).wf(),
            final(self)@ == old(self)@.room_for(key, cmd@),
            r == !old(self)@.refuses(key, cmd@),
    {
        let ck: bool = self.use_checksum;
        let i: usize = key.0;
        let ghost start = self@;
        let ghost before = self.peers@;
        if i >= self.peers.len() {
            return true;
        }
        assert(self@.peers[i as int] == task::slot_view(self.peers@[i as int]));
        let r: bool = match &mut self.peers[i] {
            Some(p) => p.make_room(ck, cmd),
            None => return true,
        };
        proof {
            task::lemma_slot_update(before, i as int, self.peers@[i as int]);
            assert(self.peers@ =~= before.update(i as int, self.peers@[i as int]));
            task::lemma_with_peer_wf(start, key, self@.peer(key));
            assert(self@ =~= start.room_for(key, cmd@));
        }
        r
    }

    /// Whether a server's answer is acknowledged.
    fn acks_verify(&self, key: PeerKey, vc: &VerifyConnectCmd, flagged: bool) -> (r: bool)
        requires
            self@.live(key),
        ensures
            r == self@.peer(key).acks_verify(*vc, flagged),
    {
        assert(self@.peers[key.0 as int] == task::slot_view(self.peers@[key.0 as int]));
        match &self.peers[key.0] {
            Some(p) => vc.connect_id == p.connect_id && (p.state == PeerState::Connecting
                || flagged),
            None => false,
        }
    }
}

impl HostTask {
    /// Takes one command of a datagram.
    fn on_command(
        &mut self,
        key: Option<PeerKey>,
        sent_time: Option<u16>,
        cmd: Command,
        from: Address,
        now_ms: u32,
        pending_acks: &mut Vec<Bytes>,
        out: &mut Vec<Action>,
    )
        requires
            old(self).wf(),
        ensures
            final(self).wf(),
            final(self).turn(final(out)@, final(pending_acks)@) == old(self).turn(
                old(out)@,
                old(pending_acks)@,
            ).on_command(key, sent_time, cmd@, from, now_ms),
            forall|n: int| #[trigger]
                acks_ok(channel::contents(old(pending_acks)@), n) ==> acks_ok(
                    channel::contents(final(pending_acks)@),
                    n + 1,
                ),
    {
        let hdr: CommandHeader = cmd.header;
        let always: bool = match &cmd.body {
            CommandBody::SendReliable(_) => true,
            CommandBody::SendFragment(_) => true,
            _ => false,
        };
        let wants: bool = hdr.has_ack_flag() || always;
        assert(wants == wants_ack(cmd@));
        match cmd.body {
            CommandBody::Connect(c) => {
                // The acknowledgement goes out with VERIFY_CONNECT.
                self.on_connect(c, hdr.reliable_seq, sent_time, from, now_ms, out);
            },
            CommandBody::Disconnect(d) => {
                if let Some(k) = key {
                    self.on_disconnect(k, hdr, d, sent_time, now_ms, out);
                }
            },
            CommandBody::VerifyConnect(vc) => {
                if let Some(k) = key {
                    if self.is_live(k) {
                        if self.acks_verify(k, &vc, hdr.has_ack_flag()) {
                            push_ack(
                                pending_acks,
                                CHANNEL_ID_CONNECTION,
                                hdr.reliable_seq,
                                sent_time,
                            );
                        }
                        self.on_verify_connect(k, vc, hdr.reliable_seq, now_ms, out);
                    }
                }
            },
            CommandBody::Acknowledge(a) => {
                if let Some(k) = key {
                    if wants {
                        push_ack(pending_acks, hdr.channel_id, hdr.reliable_seq, sent_time);
                    }
                    if self.is_live(k) {
                        self.on_ack(k, hdr.channel_id, a, now_ms, out);
                    }
                }
            },
            body => {
                if let Some(k) = key {
                    let data = Command { header: hdr, body };
                    // What there is no room for is not acknowledged, so that it comes again.
                    let ghost h = self@;
                    proof {
                        if h.live(k) {
                            receive::lemma_room_once(h.peer(k), k, data@, now_ms);
                        }
                    }
                    if wants && self.make_room(k, &data) {
                        push_ack(pending_acks, hdr.channel_id, hdr.reliable_seq, sent_time);
                    }
                    proof {
                        if h.live(k) {
                            let q = h.peer(k).on_data(k, data@, now_ms).0;
                            assert(self@.with_peer(k, q) =~= h.with_peer(k, q));
                            assert(self@.peer(k).on_data(k, data@, now_ms) == h.peer(k).on_data(
                                k,
                                data@,
                                now_ms,
                            ));
                        }
                    }
                    if self.is_live(k) {
                        self.on_data(k, data, now_ms, out);
                    }
                }
            },
        }
    }

    /// The peer that a datagram is for.
    fn receiver(&self, hdr: &ProtocolHeader, from: Address) -> (r: Option<PeerKey>)
        requires
            self.wf(),
        ensures
            r == self@.receiver(*hdr, from),
    {
        let peer_id: u16 = hdr.peer_id();
        if peer_id == HEADER_PEER_ID_MAX {
            self.addr_map.get(from)
        } else if (peer_id as usize) < self.peers.len() {
            Some(PeerKey(peer_id as usize))
        } else {
            None
        }
    }

    /// Whether a datagram is of the peer's current session.
    fn session_ok(&self, key: Option<PeerKey>, hdr: &ProtocolHeader) -> (r: bool)
        ensures
            r == self@.session_ok(key, *hdr),
    {
        match key {
            Some(k) => {
                if k.0 < self.peers.len() {
                    assert(self@.peers[k.0 as int] == task::slot_view(self.peers@[k.0 as int]));
                    match &self.peers[k.0] {
                        Some(p) => p.incoming_session_id == 0xFF || hdr.session_id()
                            == p.incoming_session_id,
                        None => true,
                    }
                } else {
                    true
                }
            },
            None => true,
        }
    }

    /// The connect ID that goes into a datagram's checksum.
    fn checksum_id(&self, key: Option<PeerKey>) -> (r: u32)
        ensures
            r == self@.checksum_id(key),
    {
        match key {
            Some(k) => {
                if k.0 < self.peers.len() {
                    assert(self@.peers[k.0 as int] == task::slot_view(self.peers@[k.0 as int]));
                    match &self.peers[k.0] {
                        Some(p) => p.connect_id,
                        None => 0,
                    }
                } else {
                    0
                }
            },
            None => 0,
        }
    }

    /// Takes a datagram.
    pub fn on_datagram(
        &mut self,
        raw: &[u8],
        from: Address,
        now_ms: u32,
        out: &mut Vec<Action>,
    )
        requires
            old(self).wf(),
        ensures
            final(self).wf(),
            final(self)@ == old(self)@.on_datagram(raw@, from, now_ms).0,
            peer::actions(final(out)@) == peer::actions(old(out)@) + old(self)@.on_datagram(
                raw@,
                from,
                now_ms,
            ).1,
    {
        let ghost start = self@;
        let ghost actions = peer::actions(out@);
        reveal(HostView::on_datagram);
        assert(actions + Seq::<ActionView>::empty() =~= actions);
        let mut slice: &[u8] = raw;
        let hdr = match ProtocolHeader::parse(&mut slice) {
            Some(h) => h,
            None => return,
        };
        let ghost n = header::parse_protocol_header(raw@).1;
        assert(slice@ == raw@.skip(n));
        // Compressed datagrams are not supported.
        if hdr.is_compressed() {
            return;
        }
        let key = self.receiver(&hdr, from);
        if !self.session_ok(key, &hdr) {
            return;
        }
        if self.use_checksum {
            if slice.len() < 4 {
                return;
            }
            let stored: u32 = wire::read_u32(slice, 0);
            // The checksum is that of the datagram with the connect ID in its place.
            let connect_id: u32 = self.checksum_id(key);
            let hdr_len: usize = raw.len() - slice.len();
            let mut scratch: Vec<u8> = Vec::new();
            scratch.extend_from_slice(&raw[0..hdr_len]);
            scratch.extend_from_slice(&wire::to_be32(connect_id));
            scratch.extend_from_slice(&slice[4..slice.len()]);
            proof {
                assert(raw@.subrange(0, hdr_len as int) =~= raw@.take(n));
                assert(slice@.subrange(4, slice@.len() as int) =~= slice@.skip(4));
                assert(scratch@ =~= raw@.take(n) + wire::be32(connect_id) + slice@.skip(4));
            }
            if crc32(&scratch) != stored {
                return;
            }
            let ghost rest = slice@;
            slice = &slice[4..slice.len()];
            assert(slice@ =~= rest.skip(4));
        }
        assert(start.admitted(raw@, from) == Some((hdr, key, slice@)));
        self.on_commands(key, hdr.sent_time, slice, from, now_ms, out);
    }

    /// Takes the commands of a datagram that was let in.
    fn on_commands(
        &mut self,
        key: Option<PeerKey>,
        sent_time: Option<u16>,
        body: &[u8],
        from: Address,
        now_ms: u32,
        out: &mut Vec<Action>,
    )
        requires
            old(self).wf(),
        ensures
            final(self).wf(),
            ({
                let (h, sent) = Turn::first(old(self)@).on_commands(
                    key,
                    sent_time,
                    command::parse_all(body@, MAX_COMMANDS_PER_PACKET as nat),
                    from,
                    now_ms,
                ).flush_acks(key, from, now_ms);
                &&& final(self)@ == h
                &&& peer::actions(final(out)@) == peer::actions(old(out)@) + sent
            }),
    {
        let ghost actions = peer::actions(out@);
        let ghost first = Turn::first(self@);
        let mut cmds = parse_commands(body);
        let ghost all = cmds@.map_values(|c: Command| c@);
        proof {
            command::lemma_parse_all_limit(body@, MAX_COMMANDS_PER_PACKET as nat);
        }
        // Acknowledgements are collected and go out together at the end.
        let mut acks: Vec<Bytes> = Vec::new();
        let ghost mut done: int = 0;
        proof {
            assert(all.take(0) =~= Seq::empty());
            assert(channel::contents(acks@) =~= Seq::empty());
            assert(actions + Seq::<ActionView>::empty() =~= actions);
            assert(acks_ok(channel::contents(acks@), 0));
        }
        while cmds.len() > 0
            invariant
                self.wf(),
                0 <= done <= all.len(),
                all.len() <= MAX_COMMANDS_PER_PACKET,
                cmds@.len() == all.len() - done,
                forall|i: int| 0 <= i < cmds@.len() ==> (#[trigger] cmds@[i])@ == all[done + i],
                ({
                    let t = first.on_commands(key, sent_time, all.take(done), from, now_ms);
                    &&& self@ == t.host
                    &&& peer::actions(out@) == actions + t.out
                    &&& channel::contents(acks@) == t.acks
                }),
                acks_ok(channel::contents(acks@), done),
            decreases cmds@.len(),
        {
            let ghost t = first.on_commands(key, sent_time, all.take(done), from, now_ms);
            let cmd: Command = cmds.remove(0);
            let ghost before = self.turn(out@, acks@);
            let ghost c = cmd@;
            self.on_command(key, sent_time, cmd, from, now_ms, &mut acks, out);
            proof {
                assert(all.take(done + 1).drop_last() =~= all.take(done));
                assert(all.take(done + 1).last() == c);
                lemma_turn_shift(t, actions, key, sent_time, c, from, now_ms);
                assert(before == (Turn { out: actions + t.out, ..t }));
                done = done + 1;
            }
        }
        assert(all.take(done) =~= all);
        let ghost t = first.on_commands(key, sent_time, all, from, now_ms);
        if acks.len() > 0 {
            let to = match key {
                Some(k) => Some(k),
                None => self.addr_map.get(from),
            };
            if let Some(k) = to {
                proof {
                    lemma_acks_size(channel::contents(acks@), done);
                    assert forall|i: int| 0 <= i < acks@.len() implies buffer::content(
                        #[trigger] acks@[i],
                    ).len() + 8 <= isize::MAX by {
                        assert(channel::contents(acks@)[i] == buffer::content(acks@[i]));
                    }
                }
                let ghost sent = t.host.flush(k, t.acks, now_ms).1;
                self.flush_batch(k, acks, now_ms, out);
                assert((actions + t.out) + sent =~= actions + (t.out + sent));
            }
        } else {
            assert(t.acks.len() == 0);
        }
    }
}

/// The actions that were there before a turn have no part in it.
proof fn lemma_turn_shift(
    t: Turn,
    actions: Seq<ActionView>,
    key: Option<PeerKey>,
    sent_time: Option<u16>,
    c: command::CommandView,
    from: Address,
    now: u32,
)
    ensures
        ({
            let shifted = Turn { out: actions + t.out, ..t };
            let a = t.on_command(key, sent_time, c, from, now);
            let b = shifted.on_command(key, sent_time, c, from, now);
            &&& b.host == a.host
            &&& b.acks == a.acks
            &&& b.out == actions + a.out
        }),
{
    let shifted = Turn { out: actions + t.out, ..t };
    let a = t.on_command(key, sent_time, c, from, now);
    let b = shifted.on_command(key, sent_time, c, from, now);
    assert(b.out =~= actions + a.out);
}

/// Law: an acknowledgement keeps the peer well-formed.
pub proof fn lemma_acknowledged_wf(
    p: PeerView,
    ck: bool,
    channel_id: u8,
    ack: AcknowledgeCmd,
    now: u32,
)
    requires
        p.wf(ck),
    ensures
        p.acknowledged(channel_id, ack, now).wf(ck),
{
    let q = p.acknowledged(channel_id, ack, now);
    peer::rtt::lemma_sample_range(ack.received_sent_time, now);
    peer::lemma_remove_ok(p.outgoing, channel_id, ack.received_reliable_seq);
    if let Some(sample) = peer::rtt::rtt_sample(ack.received_sent_time, now) {
        peer::rtt::lemma_rtt_follows(p, sample);
    }
    assert forall|i: int| 0 <= i < q.pending.len() implies q.sendable(
        ck,
        #[trigger] q.pending[i],
    ) by {
        assert(p.sendable(ck, p.pending[i]));
    }
}

} // verus!
