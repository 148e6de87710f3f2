//! Periodic service: retransmission, timeout, keep-alive and disconnect.

use std::collections::VecDeque;

use vstd::prelude::*;

use bytes::Bytes;

use crate::buffer;
use crate::channel;
use crate::channel::encode_command;
use crate::outgoing;
use crate::outgoing::{OutView, OutstandingReliable};
use crate::packet::{Packet, PacketView};
use crate::peer;
use crate::peer::send;
use crate::peer::{Action, ActionView, PeerEntry, PeerState, PeerView};
use crate::protocol::command;
use crate::protocol::{
    CommandBody, DisconnectCmd, CHANNEL_ID_CONNECTION, CMD_DISCONNECT, CMD_PING,
    COMMAND_FLAG_ACKNOWLEDGE, DEFAULT_PING_INTERVAL_MS, TIMEOUT_LIMIT, TIMEOUT_MAXIMUM_MS,
    TIMEOUT_MINIMUM_MS,
};

verus! {

/// The bytes of the commands whose timeout has passed, in order.
pub open spec fn due_commands(s: Seq<OutView>, now: u32) -> Seq<Seq<u8>>
    decreases s.len(),
{
    if s.len() == 0 {
        Seq::empty()
    } else {
        let before = due_commands(s.drop_last(), now);
        if s.last().due(now) {
            before.push(s.last().packet_bytes)
        } else {
            before
        }
    }
}

/// All commands after those whose timeout has passed were sent again.
pub open spec fn serviced(s: Seq<OutView>, now: u32) -> Seq<OutView> {
    s.map_values(|v: OutView| v.serviced(now))
}

impl PeerView {
    /// The peer in the course of a disconnect, and the command that says so.
    pub open spec fn disconnect_plan(self, data: u32, now: u32) -> (Self, Seq<Seq<u8>>) {
        let p = PeerView { state: PeerState::Disconnecting, ..self };
        let body = command::BodyView::Disconnect(DisconnectCmd { data });
        (
            p.with_reliable(CHANNEL_ID_CONNECTION, CMD_DISCONNECT, body, now),
            seq![p.reliable_command(CHANNEL_ID_CONNECTION, CMD_DISCONNECT, body)],
        )
    }

    /// The peer after DISCONNECT was sent, and the datagram that carries it.
    pub open spec fn disconnect_now(self, ck: bool, data: u32, now: u32) -> (
        Self,
        Seq<ActionView>,
    ) {
        let (q, cmds) = self.disconnect_plan(data, now);
        (q.sent(cmds, now), q.flushed(ck, cmds, now))
    }

    /// A disconnect that the user asks for: at once, or as soon as nothing is
    /// in flight or held back. Asking again changes nothing.
    pub open spec fn send_disconnect(self, ck: bool, data: u32, now: u32) -> (
        Self,
        Seq<ActionView>,
    ) {
        match self.state {
            PeerState::Disconnecting => (self, Seq::empty()),
            PeerState::DisconnectLater(_) => (self, Seq::empty()),
            _ => if self.outgoing.len() > 0 || self.pending.len() > 0 {
                (PeerView { state: PeerState::DisconnectLater(data), ..self }, Seq::empty())
            } else {
                self.disconnect_now(ck, data, now)
            },
        }
    }

    /// A command in flight waited too long: the peer is given up on.
    pub open spec fn times_out(self, now: u32) -> bool {
        exists|i: int|
            0 <= i < self.outgoing.len() && (#[trigger] self.outgoing[i]).due(now)
                && self.outgoing[i].expired(now)
    }

    /// Another attempt of every command that is due can be counted and laid
    /// out.
    pub open spec fn serviceable(self, now: u32) -> bool {
        forall|i: int|
            0 <= i < self.outgoing.len() && (#[trigger] self.outgoing[i]).due(now)
                && !self.outgoing[i].expired(now) ==> self.outgoing[i].retry_fits()
                && self.mtu_fits()
    }

    /// The commands that are due are sent again.
    pub open spec fn retransmit(self, ck: bool, now: u32) -> (Self, Seq<ActionView>) {
        let p = PeerView { outgoing: serviced(self.outgoing, now), ..self };
        let cmds = due_commands(self.outgoing, now);
        (p.sent(cmds, now), p.flushed(ck, cmds, now))
    }

    /// Nothing was sent to a connected peer for the ping interval.
    pub open spec fn ping_due(self, now: u32) -> bool {
        self.state == PeerState::Connected && outgoing::elapsed(now, self.last_send_time)
            >= DEFAULT_PING_INTERVAL_MS
    }

    /// A PING, where one is due.
    pub open spec fn ping(self, ck: bool, now: u32) -> (Self, Seq<ActionView>) {
        if self.ping_due(now) {
            let p = self.bump_seq(CHANNEL_ID_CONNECTION);
            let cmds = seq![
                self.reliable_command(CHANNEL_ID_CONNECTION, CMD_PING, command::BodyView::Ping),
            ];
            (p.sent(cmds, now), p.flushed(ck, cmds, now))
        } else {
            (self, Seq::empty())
        }
    }

    /// The disconnect that was put off, once nothing is in flight or held
    /// back.
    pub open spec fn disconnect_later(self, ck: bool, now: u32) -> (Self, Seq<ActionView>) {
        match self.state {
            PeerState::DisconnectLater(data) if self.outgoing.len() == 0 && self.pending.len()
                == 0 => self.disconnect_now(ck, data, now),
            _ => (self, Seq::empty()),
        }
    }

    /// The packets that were held back are tried again, also while a
    /// disconnect is put off.
    pub open spec fn send_pending(self, ck: bool, now: u32) -> (Self, Seq<ActionView>) {
        PeerView { pending: Seq::empty(), ..self }.transmit_all(ck, self.pending, now)
    }

    /// A service of a peer that does not time out: retransmission, ping,
    /// disconnect, and what was held back.
    pub open spec fn service(self, ck: bool, now: u32) -> (Self, Seq<ActionView>) {
        let (a, out_a) = self.retransmit(ck, now);
        let (b, out_b) = a.ping(ck, now);
        let (c, out_c) = b.disconnect_later(ck, now);
        let (d, out_d) = c.send_pending(ck, now);
        (d, out_a + out_b + out_c + out_d)
    }
}

/// The parts of a peer that what holds of it speaks of are the same.
pub open spec fn same_bounds(p: PeerView, q: PeerView) -> bool {
    &&& q.mtu == p.mtu
    &&& q.channels == p.channels
    &&& q.packet_throttle == p.packet_throttle
    &&& q.rtt == p.rtt
    &&& q.rtt_var == p.rtt_var
    &&& q.fragment_bytes == p.fragment_bytes
    &&& q.pending == p.pending
}

/// What holds of a peer stays when only other parts of it change.
pub proof fn lemma_same_bounds_wf(p: PeerView, q: PeerView, ck: bool)
    requires
        p.wf(ck),
        same_bounds(p, q),
        peer::outgoing_ok(q.outgoing),
        q.state == PeerState::Connecting ==> p.state == PeerState::Connecting,
    ensures
        q.wf(ck),
{
    assert forall|i: int| 0 <= i < q.pending.len() implies q.sendable(
        ck,
        #[trigger] q.pending[i],
    ) by {
        assert(p.sendable(ck, p.pending[i]));
    }
}

/// Law: a disconnect keeps the peer well-formed.
pub proof fn lemma_disconnect_wf(p: PeerView, ck: bool, data: u32, now: u32)
    requires
        p.wf(ck),
    ensures
        p.disconnect_now(ck, data, now).0.wf(ck),
        p.send_disconnect(ck, data, now).0.wf(ck),
{
    let body = command::BodyView::Disconnect(DisconnectCmd { data });
    let q = PeerView { state: PeerState::Disconnecting, ..p };
    lemma_same_bounds_wf(p, q, ck);
    send::lemma_with_reliable_wf(q, ck, CHANNEL_ID_CONNECTION, CMD_DISCONNECT, body, now);
    let (r, cmds) = p.disconnect_plan(data, now);
    send::lemma_sent_wf(r, ck, cmds, now);
    lemma_same_bounds_wf(p, PeerView { state: PeerState::DisconnectLater(data), ..p }, ck);
}

proof fn lemma_serviced_ok(s: Seq<OutView>, now: u32)
    requires
        peer::outgoing_ok(s),
        forall|i: int| 0 <= i < s.len() && (#[trigger] s[i]).due(now) ==> s[i].retry_fits(),
    ensures
        peer::outgoing_ok(serviced(s, now)),
{
    let t = serviced(s, now);
    assert forall|i: int, j: int| 0 <= i < j < t.len() implies (#[trigger] t[i]).rank() < (
    #[trigger] t[j]).rank() by {
        assert(s[i].rank() < s[j].rank());
    }
    assert forall|i: int| 0 <= i < t.len() implies peer::command_ok(#[trigger] t[i]) by {
        assert(peer::command_ok(s[i]));
    }
}

/// Sending changes neither the state nor what packets are measured by.
proof fn lemma_send_keeps(p: PeerView, ck: bool, pkt: PacketView, now: u32)
    requires
        p.sendable(ck, pkt),
    ensures
        ({
            let q = p.transmit(ck, pkt, now).0;
            &&& q.state == p.state
            &&& q.mtu == p.mtu
            &&& q.channels.len() == p.channels.len()
        }),
{
}

proof fn lemma_transmit_all_wf(p: PeerView, ck: bool, packets: Seq<PacketView>, now: u32)
    requires
        p.wf(ck),
        packets.len() > 0 ==> p.state != PeerState::Connecting,
        forall|i: int| 0 <= i < packets.len() ==> p.sendable(ck, #[trigger] packets[i]),
    ensures
        ({
            let q = p.transmit_all(ck, packets, now).0;
            &&& q.wf(ck)
            &&& q.state == p.state
            &&& q.mtu == p.mtu
            &&& q.channels.len() == p.channels.len()
        }),
    decreases packets.len(),
{
    if packets.len() > 0 {
        let front = packets.drop_last();
        assert forall|i: int| 0 <= i < front.len() implies p.sendable(
            ck,
            #[trigger] front[i],
        ) by {
            assert(p.sendable(ck, packets[i]));
        }
        lemma_transmit_all_wf(p, ck, front, now);
        let q = p.transmit_all(ck, front, now).0;
        assert(p.sendable(ck, packets[packets.len() - 1]));
        lemma_send_wf_after(p, q, ck, packets.last(), now);
    }
}

proof fn lemma_send_wf_after(p: PeerView, q: PeerView, ck: bool, pkt: PacketView, now: u32)
    requires
        q.wf(ck),
        q.state != PeerState::Connecting,
        p.sendable(ck, pkt),
        q.mtu == p.mtu,
        q.channels.len() == p.channels.len(),
    ensures
        q.sendable(ck, pkt),
        q.transmit(ck, pkt, now).0.wf(ck),
        q.transmit(ck, pkt, now).0.state == q.state,
        q.transmit(ck, pkt, now).0.mtu == q.mtu,
        q.transmit(ck, pkt, now).0.channels.len() == q.channels.len(),
{
    send::lemma_send_wf(q, ck, pkt, now);
    lemma_send_keeps(q, ck, pkt, now);
}

/// Law: a service keeps the peer well-formed.
pub proof fn lemma_service_wf(p: PeerView, ck: bool, now: u32)
    requires
        p.wf(ck),
        p.serviceable(now),
        !p.times_out(now),
    ensures
        p.retransmit(ck, now).0.wf(ck),
        p.retransmit(ck, now).0.ping(ck, now).0.wf(ck),
        p.retransmit(ck, now).0.ping(ck, now).0.disconnect_later(ck, now).0.wf(ck),
        p.service(ck, now).0.wf(ck),
{
    assert forall|i: int| 0 <= i < p.outgoing.len() && (#[trigger] p.outgoing[i]).due(
        now,
    ) implies p.outgoing[i].retry_fits() by {}
    lemma_serviced_ok(p.outgoing, now);
    let a = p.retransmit(ck, now).0;
    lemma_same_bounds_wf(p, a, ck);
    let b = a.ping(ck, now).0;
    lemma_same_bounds_wf(a, b, ck);
    let c = b.disconnect_later(ck, now).0;
    if let PeerState::DisconnectLater(data) = b.state {
        lemma_disconnect_wf(b, ck, data, now);
    }
    let d = PeerView { pending: Seq::empty(), ..c };
    assert(d.wf(ck));
    assert(c.pending.len() > 0 ==> d.state != PeerState::Connecting);
    assert forall|i: int| 0 <= i < c.pending.len() implies d.sendable(
        ck,
        #[trigger] c.pending[i],
    ) by {
        assert(c.sendable(ck, c.pending[i]));
    }
    lemma_transmit_all_wf(d, ck, c.pending, now);
}

impl PeerEntry {
    /// Whether a command in flight waited too long.
    pub fn times_out(&self, now_ms: u32) -> (r: bool)
        ensures
            r == self@.times_out(now_ms),
    {
        let mut i: usize = 0;
        while i < self.outgoing_reliable.len()
            invariant
                i <= self.outgoing_reliable@.len(),
                forall|j: int|
                    0 <= j < i ==> !((#[trigger] self@.outgoing[j]).due(now_ms)
                        && self@.outgoing[j].expired(now_ms)),
            decreases self.outgoing_reliable@.len() - i,
        {
            assert(self@.outgoing[i as int] == self.outgoing_reliable@[i as int]@);
            if is_due(&self.outgoing_reliable[i], now_ms) && is_expired(
                &self.outgoing_reliable[i],
                now_ms,
            ) {
                return true;
            }
            i += 1;
        }
        false
    }

    /// Whether another attempt of every command that is due can be counted
    /// and laid out.
    pub fn can_service(&self, now_ms: u32) -> (r: bool)
        ensures
            r == self@.serviceable(now_ms),
    {
        let fits: bool = self.mtu as u64 + 64 <= isize::MAX as u64;
        let mut i: usize = 0;
        while i < self.outgoing_reliable.len()
            invariant
                i <= self.outgoing_reliable@.len(),
                fits == self@.mtu_fits(),
                forall|j: int|
                    0 <= j < i && (#[trigger] self@.outgoing[j]).due(now_ms)
                        && !self@.outgoing[j].expired(now_ms) ==> self@.outgoing[j].retry_fits()
                        && self@.mtu_fits(),
            decreases self.outgoing_reliable@.len() - i,
        {
            let r = &self.outgoing_reliable[i];
            assert(self@.outgoing[i as int] == r@);
            if is_due(r, now_ms) && !is_expired(r, now_ms) && !(r.send_attempts <= 32
                && r.rtt_timeout <= u32::MAX / 2 && fits) {
                return false;
            }
            i += 1;
        }
        true
    }

    /// Counts another attempt of every command that is due and returns their
    /// bytes.
    fn retry_due(&mut self, now_ms: u32) -> (r: Vec<Bytes>)
        requires
            old(self)@.serviceable(now_ms),
            !old(self)@.times_out(now_ms),
        ensures
            channel::contents(r@) == due_commands(old(self)@.outgoing, now_ms),
            final(self)@ == (PeerView {
                outgoing: serviced(old(self)@.outgoing, now_ms),
                ..old(self)@
            }),
            final(self).channels == old(self).channels,
    {
        let ghost start = self@;
        let ghost all = self@.outgoing;
        let mut retransmits: Vec<Bytes> = Vec::new();
        let mut i: usize = 0;
        assert(all.take(0) =~= Seq::empty());
        assert(channel::contents(retransmits@) =~= Seq::empty());
        while i < self.outgoing_reliable.len()
            invariant
                i <= self.outgoing_reliable@.len(),
                all == start.outgoing,
                start.serviceable(now_ms),
                !start.times_out(now_ms),
                self@ == (PeerView { outgoing: self@.outgoing, ..start }),
                self@.outgoing.len() == all.len(),
                self.channels == old(self).channels,
                forall|j: int| 0 <= j < i ==> #[trigger] self@.outgoing[j] == all[j].serviced(now_ms),
                forall|j: int| i <= j < all.len() ==> #[trigger] self@.outgoing[j] == all[j],
                channel::contents(retransmits@) == due_commands(all.take(i as int), now_ms),
            decreases all.len() - i,
        {
            let ghost before = self.outgoing_reliable@;
            proof {
                assert(self@.outgoing[i as int] == self.outgoing_reliable@[i as int]@);
                assert(all.take(i + 1).drop_last() =~= all.take(i as int));
                assert(all.take(i + 1).last() == all[i as int]);
            }
            if is_due(&self.outgoing_reliable[i], now_ms) {
                assert(all[i as int].retry_fits());
                let ghost so_far = channel::contents(retransmits@);
                let bytes: Bytes = self.outgoing_reliable[i].packet_bytes.clone();
                self.outgoing_reliable[i].send_attempts = self.outgoing_reliable[i].send_attempts + 1;
                self.outgoing_reliable[i].rtt_timeout = self.outgoing_reliable[i].rtt_timeout * 2;
                self.outgoing_reliable[i].sent_time = now_ms;
                retransmits.push(bytes);
                assert(channel::contents(retransmits@) =~= so_far.push(buffer::content(bytes)));
            }
            proof {
                assert(self.outgoing_reliable@[i as int]@ == all[i as int].serviced(now_ms));
                assert forall|j: int| 0 <= j < all.len() && j != i implies
                    #[trigger] self.outgoing_reliable@[j] == before[j] by {}
                assert forall|j: int| 0 <= j < i + 1 implies #[trigger] self@.outgoing[j]
                    == all[j].serviced(now_ms) by {
                    assert(self@.outgoing[j] == self.outgoing_reliable@[j]@);
                    assert(outgoing::views(before)[j] == before[j]@);
                }
                assert forall|j: int| i + 1 <= j < all.len() implies #[trigger] self@.outgoing[j]
                    == all[j] by {
                    assert(self@.outgoing[j] == self.outgoing_reliable@[j]@);
                    assert(outgoing::views(before)[j] == before[j]@);
                }
            }
            i += 1;
        }
        assert(all.take(i as int) =~= all);
        assert(self@.outgoing =~= serviced(all, now_ms));
        retransmits
    }
}

impl PeerEntry {
    /// Puts DISCONNECT in flight and sends it.
    fn disconnect_now(&mut self, ck: bool, data: u32, now_ms: u32, out: &mut Vec<Action>)
        requires
            old(self).wf(ck),
        ensures
            final(self).wf(ck),
            final(self)@ == old(self)@.disconnect_now(ck, data, now_ms).0,
            peer::actions(final(out)@) == peer::actions(old(out)@) + old(self)@.disconnect_now(
                ck,
                data,
                now_ms,
            ).1,
    {
        let ghost start = self@;
        self.state = PeerState::Disconnecting;
        proof {
            lemma_same_bounds_wf(start, self@, ck);
        }
        let body = CommandBody::Disconnect(DisconnectCmd { data });
        let cmd = self.make_reliable(ck, CHANNEL_ID_CONNECTION, CMD_DISCONNECT, now_ms, &body);
        proof {
            channel::lemma_encoded_len(
                CMD_DISCONNECT,
                COMMAND_FLAG_ACKNOWLEDGE,
                CHANNEL_ID_CONNECTION,
                start.next_seq(CHANNEL_ID_CONNECTION),
                body@,
            );
        }
        self.emit_one(ck, cmd, now_ms, out);
    }

    /// A disconnect that the user asks for.
    pub fn send_disconnect(&mut self, ck: bool, data: u32, now_ms: u32, out: &mut Vec<Action>)
        requires
            old(self).wf(ck),
        ensures
            final(self).wf(ck),
            final(self)@ == old(self)@.send_disconnect(ck, data, now_ms).0,
            peer::actions(final(out)@) == peer::actions(old(out)@) + old(self)@.send_disconnect(
                ck,
                data,
                now_ms,
            ).1,
    {
        proof {
            lemma_disconnect_wf(self@, ck, data, now_ms);
            assert(peer::actions(out@) + Seq::<ActionView>::empty() =~= peer::actions(out@));
            assert(self.outgoing_reliable@.len() == self@.outgoing.len());
            assert(self.pending_send@.len() == self@.pending.len());
        }
        match self.state {
            PeerState::Disconnecting => return,
            PeerState::DisconnectLater(_) => return,
            _ => {},
        }
        if self.outgoing_reliable.len() > 0 || self.pending_send.len() > 0 {
            self.state = PeerState::DisconnectLater(data);
            return;
        }
        self.disconnect_now(ck, data, now_ms, out);
    }

    /// Sends a PING, where one is due.
    fn ping(&mut self, ck: bool, now_ms: u32, out: &mut Vec<Action>)
        requires
            old(self).wf(ck),
        ensures
            final(self).wf(ck),
            final(self)@ == old(self)@.ping(ck, now_ms).0,
            peer::actions(final(out)@) == peer::actions(old(out)@) + old(self)@.ping(ck, now_ms).1,
    {
        let ghost start = self@;
        if self.state == PeerState::Connected && now_ms.wrapping_sub(self.last_send_time)
            >= DEFAULT_PING_INTERVAL_MS as u32 {
            let seq: u16 = self.next_connect_seq();
            let cmd = encode_command(
                CMD_PING,
                COMMAND_FLAG_ACKNOWLEDGE,
                CHANNEL_ID_CONNECTION,
                seq,
                &CommandBody::Ping,
            );
            proof {
                channel::lemma_encoded_len(
                    CMD_PING,
                    COMMAND_FLAG_ACKNOWLEDGE,
                    CHANNEL_ID_CONNECTION,
                    seq,
                    command::BodyView::Ping,
                );
                lemma_same_bounds_wf(start, self@, ck);
            }
            self.emit_one(ck, cmd, now_ms, out);
        } else {
            assert(peer::actions(out@) + Seq::<ActionView>::empty() =~= peer::actions(out@));
        }
    }

    /// Sends packets one after the other.
    #[verifier::rlimit(30)]
    fn transmit_all(
        &mut self,
        ck: bool,
        packets: VecDeque<Packet>,
        now_ms: u32,
        out: &mut Vec<Action>,
    )
        requires
            old(self).wf(ck),
            packets@.len() > 0 ==> old(self).state != PeerState::Connecting,
            forall|i: int|
                0 <= i < packets@.len() ==> old(self)@.sendable(ck, (#[trigger] packets@[i])@),
        ensures
            final(self).wf(ck),
            final(self)@ == old(self)@.transmit_all(ck, peer::packet_views(packets@), now_ms).0,
            peer::actions(final(out)@) == peer::actions(old(out)@) + old(self)@.transmit_all(
                ck,
                peer::packet_views(packets@),
                now_ms,
            ).1,
    {
        let ghost start = self@;
        let ghost actions = peer::actions(out@);
        let ghost all = peer::packet_views(packets@);
        let mut i: usize = 0;
        assert(all.take(0) =~= Seq::empty());
        assert(actions + Seq::<ActionView>::empty() =~= actions);
        while i < packets.len()
            invariant
                i <= packets@.len(),
                all == peer::packet_views(packets@),
                start.wf(ck),
                packets@.len() > 0 ==> start.state != PeerState::Connecting,
                forall|j: int|
                    0 <= j < packets@.len() ==> start.sendable(ck, (#[trigger] packets@[j])@),
                self.wf(ck),
                self@ == start.transmit_all(ck, all.take(i as int), now_ms).0,
                peer::actions(out@) == actions + start.transmit_all(
                    ck,
                    all.take(i as int),
                    now_ms,
                ).1,
            decreases packets@.len() - i,
        {
            let ghost front = all.take(i as int);
            let ghost before = self@;
            let pkt = Packet {
                data: packets[i].data.clone(),
                channel: packets[i].channel,
                mode: packets[i].mode,
            };
            proof {
                assert(pkt@ == packets@[i as int]@);
                assert forall|j: int| 0 <= j < front.len() implies start.sendable(
                    ck,
                    #[trigger] front[j],
                ) by {
                    assert(start.sendable(ck, packets@[j]@));
                }
                lemma_transmit_all_wf(start, ck, front, now_ms);
                assert(start.sendable(ck, packets@[i as int]@));
                lemma_send_wf_after(start, before, ck, pkt@, now_ms);
                assert(all.take(i + 1).drop_last() =~= front);
                assert(all.take(i + 1).last() == pkt@);
            }
            self.transmit(ck, pkt, now_ms, out);
            proof {
                let done = start.transmit_all(ck, front, now_ms).1;
                let more = before.transmit(ck, pkt@, now_ms).1;
                assert(start.transmit_all(ck, all.take(i + 1), now_ms).1 == done + more);
                assert((actions + done) + more =~= actions + (done + more));
            }
            i += 1;
        }
        assert(all.take(i as int) =~= all);
    }

    /// Sends the commands that are due again.
    fn retransmit(&mut self, ck: bool, now_ms: u32, out: &mut Vec<Action>)
        requires
            old(self).wf(ck),
            old(self)@.serviceable(now_ms),
            !old(self)@.times_out(now_ms),
        ensures
            final(self).wf(ck),
            final(self)@ == old(self)@.retransmit(ck, now_ms).0,
            peer::actions(final(out)@) == peer::actions(old(out)@) + old(self)@.retransmit(
                ck,
                now_ms,
            ).1,
    {
        let ghost start = self@;
        let ghost actions = peer::actions(out@);
        proof {
            lemma_service_wf(start, ck, now_ms);
        }
        let retransmits = self.retry_due(now_ms);
        proof {
            lemma_due_sizes(start.outgoing, now_ms);
            assert forall|i: int| 0 <= i < retransmits@.len() implies buffer::content(
                #[trigger] retransmits@[i],
            ).len() + 8 <= isize::MAX by {
                assert(channel::contents(retransmits@)[i] == buffer::content(retransmits@[i]));
            }
        }
        if retransmits.len() > 0 {
            proof {
                lemma_due_exists(start.outgoing, now_ms);
            }
            self.flush_batch(ck, retransmits, now_ms, out);
        } else {
            proof {
                assert(channel::contents(retransmits@) =~= Seq::empty());
                assert(self@.flushed(ck, Seq::empty(), now_ms) =~= Seq::empty());
                assert(actions + Seq::<ActionView>::empty() =~= actions);
            }
        }
    }

    /// Tries the packets that were held back again.
    fn send_pending(&mut self, ck: bool, now_ms: u32, out: &mut Vec<Action>)
        requires
            old(self).wf(ck),
        ensures
            final(self).wf(ck),
            final(self)@ == old(self)@.send_pending(ck, now_ms).0,
            peer::actions(final(out)@) == peer::actions(old(out)@) + old(self)@.send_pending(
                ck,
                now_ms,
            ).1,
    {
        let ghost c = self@;
        let mut pending: VecDeque<Packet> = VecDeque::new();
        std::mem::swap(&mut pending, &mut self.pending_send);
        proof {
            let d = PeerView { pending: Seq::empty(), ..c };
            assert(self@ =~= d);
            assert(peer::packet_views(pending@) == c.pending);
            assert forall|i: int| 0 <= i < pending@.len() implies d.sendable(
                ck,
                (#[trigger] pending@[i])@,
            ) by {
                assert(c.sendable(ck, c.pending[i]));
            }
        }
        self.transmit_all(ck, pending, now_ms, out);
    }

    /// Starts the disconnect that was put off, once nothing is in flight or
    /// held back.
    fn disconnect_later(&mut self, ck: bool, now_ms: u32, out: &mut Vec<Action>)
        requires
            old(self).wf(ck),
        ensures
            final(self).wf(ck),
            final(self)@ == old(self)@.disconnect_later(ck, now_ms).0,
            peer::actions(final(out)@) == peer::actions(old(out)@) + old(self)@.disconnect_later(
                ck,
                now_ms,
            ).1,
    {
        assert(peer::actions(out@) + Seq::<ActionView>::empty() =~= peer::actions(out@));
        assert(self.outgoing_reliable@.len() == self@.outgoing.len());
        assert(self.pending_send@.len() == self@.pending.len());
        if let PeerState::DisconnectLater(data) = self.state {
            if self.outgoing_reliable.len() == 0 && self.pending_send.len() == 0 {
                self.disconnect_now(ck, data, now_ms, out);
            }
        }
    }

    /// A service of a peer that does not time out.
    pub fn service(&mut self, ck: bool, now_ms: u32, out: &mut Vec<Action>)
        requires
            old(self).wf(ck),
            old(self)@.serviceable(now_ms),
            !old(self)@.times_out(now_ms),
        ensures
            final(self).wf(ck),
            final(self)@ == old(self)@.service(ck, now_ms).0,
            peer::actions(final(out)@) == peer::actions(old(out)@) + old(self)@.service(
                ck,
                now_ms,
            ).1,
    {
        let ghost actions = peer::actions(out@);
        let ghost start = self@;
        self.retransmit(ck, now_ms, out);
        let ghost a = self@;
        self.ping(ck, now_ms, out);
        let ghost b = self@;
        self.disconnect_later(ck, now_ms, out);
        let ghost c = self@;
        self.send_pending(ck, now_ms, out);
        proof {
            lemma_append_four(
                actions,
                start.retransmit(ck, now_ms).1,
                a.ping(ck, now_ms).1,
                b.disconnect_later(ck, now_ms).1,
                c.send_pending(ck, now_ms).1,
            );
        }
    }
}

proof fn lemma_append_four(
    s: Seq<ActionView>,
    a: Seq<ActionView>,
    b: Seq<ActionView>,
    c: Seq<ActionView>,
    d: Seq<ActionView>,
)
    ensures
        s + a + b + c + d == s + (a + b + c + d),
{
    assert(s + a + b + c + d =~= s + (a + b + c + d));
}

proof fn lemma_due_sizes(s: Seq<OutView>, now: u32)
    requires
        forall|i: int| 0 <= i < s.len() ==> peer::command_ok(#[trigger] s[i]),
    ensures
        forall|i: int|
            0 <= i < due_commands(s, now).len() ==> (#[trigger] due_commands(s, now)[i]).len() + 8
                <= isize::MAX,
    decreases s.len(),
{
    if s.len() > 0 {
        let front = s.drop_last();
        assert forall|i: int| 0 <= i < front.len() implies peer::command_ok(
            #[trigger] front[i],
        ) by {
            assert(peer::command_ok(s[i]));
        }
        lemma_due_sizes(front, now);
        assert(peer::command_ok(s[s.len() - 1]));
        let before = due_commands(front, now);
        let d = due_commands(s, now);
        assert forall|i: int| 0 <= i < d.len() implies (#[trigger] d[i]).len() + 8
            <= isize::MAX by {
            if i < before.len() {
                assert(d[i] == before[i]);
            }
        }
    }
}

/// Where a command goes out again, one was due.
proof fn lemma_due_exists(s: Seq<OutView>, now: u32)
    ensures
        due_commands(s, now).len() > 0 ==> exists|i: int|
            0 <= i < s.len() && (#[trigger] s[i]).due(now),
    decreases s.len(),
{
    if s.len() > 0 {
        let front = s.drop_last();
        lemma_due_exists(front, now);
        if s.last().due(now) {
            assert(s[s.len() - 1].due(now));
        } else if due_commands(front, now).len() > 0 {
            let i = choose|i: int| 0 <= i < front.len() && (#[trigger] front[i]).due(now);
            assert(s[i].due(now));
        }
    }
}

/// Whether no acknowledgement came within the command's timeout.
fn is_due(r: &OutstandingReliable, now_ms: u32) -> (b: bool)
    ensures
        b == r@.due(now_ms),
{
    now_ms.wrapping_sub(r.sent_time) >= r.rtt_timeout
}

/// Whether the peer is given up on for this command.
fn is_expired(r: &OutstandingReliable, now_ms: u32) -> (b: bool)
    ensures
        b == r@.expired(now_ms),
{
    // The original transmission counts here: a retransmission does not put
    // the deadline off.
    let elapsed: u32 = now_ms.wrapping_sub(r.original_sent_time);
    let over: bool = r.send_attempts > 32 || limit_reached(r.send_attempts);
    elapsed >= TIMEOUT_MAXIMUM_MS || (over && elapsed >= TIMEOUT_MINIMUM_MS)
}

/// Whether 2 to the power of the retransmissions reaches the limit.
fn limit_reached(attempts: u32) -> (b: bool)
    requires
        attempts <= 32,
    ensures
        b == (attempts >= 6),
{
    let n: u32 = attempts.saturating_sub(1);
    assert(((1u32 << n) >= 32) == (n >= 5)) by (bit_vector)
        requires
            n < 32,
    ;
    (1u32 << n) >= TIMEOUT_LIMIT
}

} // verus!
