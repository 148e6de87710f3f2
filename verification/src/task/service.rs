//! Periodic service of all peers and the host-wide bandwidth limits.

use vstd::prelude::*;

use crate::address::{Address, PeerKey};
use crate::channel;
use crate::outgoing;
use crate::packet::PacketView;
use crate::peer;
use crate::peer::service;
use crate::peer::{Action, ActionView, CloseReason, PeerState, PeerView};
use crate::protocol::command;
use crate::protocol::{
    BandwidthLimitCmd, CommandBody, BANDWIDTH_THROTTLE_INTERVAL_MS, CHANNEL_ID_CONNECTION,
    CMD_BANDWIDTH_LIMIT, WINDOW_SIZE_MAX,
};
use crate::task;
use crate::task::connect;
use crate::task::connect::smaller;
use crate::task::{HostTask, HostView};

verus! {

/// There is a connected peer in a slot.
pub open spec fn connected(slot: Option<PeerView>) -> bool {
    match slot {
        Some(p) => p.state == PeerState::Connected,
        None => false,
    }
}

/// How many slots have a connected peer.
pub open spec fn connected_count(peers: Seq<Option<PeerView>>) -> int
    decreases peers.len(),
{
    if peers.len() == 0 {
        0
    } else {
        connected_count(peers.drop_last()) + if connected(peers.last()) {
            1int
        } else {
            0
        }
    }
}

/// A slot whose peer, if connected, has another window.
pub open spec fn with_window(slot: Option<PeerView>, w: u32) -> Option<PeerView> {
    if connected(slot) {
        Some(PeerView { window_size: w, ..slot->0 })
    } else {
        slot
    }
}

impl PeerView {
    /// The peer is told of bandwidth limits.
    pub open spec fn notify(self, ck: bool, bl: BandwidthLimitCmd, now: u32) -> (
        Self,
        Seq<ActionView>,
    ) {
        let body = command::BodyView::BandwidthLimit(bl);
        let cmds = seq![self.reliable_command(CHANNEL_ID_CONNECTION, CMD_BANDWIDTH_LIMIT, body)];
        let q = self.with_reliable(CHANNEL_ID_CONNECTION, CMD_BANDWIDTH_LIMIT, body, now);
        (q.sent(cmds, now), q.flushed(ck, cmds, now))
    }
}

impl HostView {
    /// Every peer that does not time out can be serviced.
    pub open spec fn serviceable(self, now: u32) -> bool {
        forall|i: int|
            0 <= i < self.peers.len() ==> ((#[trigger] self.peers[i]) matches Some(p)
                ==> p.times_out(now) || p.serviceable(now))
    }

    /// A service of one peer: it is given up on, or serviced.
    pub open spec fn service_one(self, key: PeerKey, now: u32) -> (Self, Seq<ActionView>) {
        if !self.live(key) {
            (self, Seq::empty())
        } else if self.peer(key).times_out(now) {
            (self.without_peer(key), self.closing(key, CloseReason::TimedOut))
        } else {
            let (p, out) = self.peer(key).service(self.use_checksum, now);
            (self.with_peer(key, p), out)
        }
    }

    /// A service of the peers in the first `n` slots.
    pub open spec fn service_first(self, n: nat, now: u32) -> (Self, Seq<ActionView>)
        decreases n,
    {
        if n == 0 {
            (self, Seq::empty())
        } else {
            let (h, out) = self.service_first((n - 1) as nat, now);
            let (g, more) = h.service_one(PeerKey((n - 1) as usize), now);
            (g, out + more)
        }
    }

    /// The connected peers in the first `n` slots are told of bandwidth
    /// limits.
    pub open spec fn notify_first(self, n: nat, bl: BandwidthLimitCmd, now: u32) -> (
        Self,
        Seq<ActionView>,
    )
        decreases n,
    {
        if n == 0 {
            (self, Seq::empty())
        } else {
            let (h, out) = self.notify_first((n - 1) as nat, bl, now);
            let key = PeerKey((n - 1) as usize);
            if connected(h.peers[n - 1]) {
                let (p, more) = h.peer(key).notify(self.use_checksum, bl, now);
                (h.with_peer(key, p), out + more)
            } else {
                (h, out)
            }
        }
    }

    /// All connected peers get the same window.
    pub open spec fn with_windows(self, w: u32) -> Self {
        HostView {
            peers: self.peers.map_values(|s: Option<PeerView>| with_window(s, w)),
            ..self
        }
    }

    /// The host-wide bandwidth limits, once per interval: each connected peer
    /// gets an equal share of what the host may send as its window, up to the
    /// largest window there is, and is told of that share and of what the host
    /// can take.
    pub open spec fn bandwidth_throttle(self, now: u32) -> (Self, Seq<ActionView>) {
        let h = HostView { bandwidth_throttle_epoch: now, ..self };
        let n = (connected_count(self.peers) % 0x1_0000_0000) as u32;
        let share = if self.outgoing_bandwidth > 0 {
            self.outgoing_bandwidth / n
        } else {
            0
        };
        if outgoing::elapsed(now, self.bandwidth_throttle_epoch) < BANDWIDTH_THROTTLE_INTERVAL_MS {
            (self, Seq::empty())
        } else if (self.incoming_bandwidth == 0 && self.outgoing_bandwidth == 0) || n == 0 {
            (h, Seq::empty())
        } else {
            let g = if self.outgoing_bandwidth > 0 {
                h.with_windows(connect::least(share, WINDOW_SIZE_MAX))
            } else {
                h
            };
            if self.incoming_bandwidth == 0 && share == 0 {
                (g, Seq::empty())
            } else {
                g.notify_first(
                    g.peers.len(),
                    BandwidthLimitCmd {
                        incoming_bandwidth: self.incoming_bandwidth,
                        outgoing_bandwidth: share,
                    },
                    now,
                )
            }
        }
    }

    /// A service of all peers.
    pub open spec fn service_all(self, now: u32) -> (Self, Seq<ActionView>) {
        let (h, out) = self.service_first(self.peers.len(), now);
        let (g, more) = h.bandwidth_throttle(now);
        (g, out + more)
    }
}

/// The services of other slots leave a slot alone.
proof fn lemma_service_first_keeps(h: HostView, n: nat, now: u32)
    requires
        n <= h.peers.len() <= usize::MAX,
    ensures
        ({
            let g = h.service_first(n, now).0;
            &&& g.peers.len() == h.peers.len()
            &&& g.use_checksum == h.use_checksum
            &&& forall|j: int| n <= j < h.peers.len() ==> #[trigger] g.peers[j] == h.peers[j]
        }),
    decreases n,
{
    if n > 0 {
        lemma_service_first_keeps(h, (n - 1) as nat, now);
    }
}

/// The address of a peer stays.
proof fn lemma_service_addr(p: PeerView, ck: bool, now: u32)
    ensures
        p.service(ck, now).0.addr == p.addr,
{
    let a = p.retransmit(ck, now).0;
    let b = a.ping(ck, now).0;
    let c = b.disconnect_later(ck, now).0;
    let d = PeerView { pending: Seq::empty(), ..c };
    lemma_transmit_all_addr(d, ck, c.pending, now);
}

proof fn lemma_transmit_all_addr(p: PeerView, ck: bool, packets: Seq<PacketView>, now: u32)
    ensures
        p.transmit_all(ck, packets, now).0.addr == p.addr,
    decreases packets.len(),
{
    if packets.len() > 0 {
        lemma_transmit_all_addr(p, ck, packets.drop_last(), now);
    }
}

impl HostTask {
    /// Whether every peer that does not time out can be serviced.
    pub fn can_service(&self, now_ms: u32) -> (r: bool)
        ensures
            r == self@.serviceable(now_ms),
    {
        let mut i: usize = 0;
        while i < self.peers.len()
            invariant
                i <= self.peers@.len(),
                forall|j: int|
                    0 <= j < i ==> ((#[trigger] self@.peers[j]) matches Some(p) ==> p.times_out(
                        now_ms,
                    ) || p.serviceable(now_ms)),
            decreases self.peers@.len() - i,
        {
            assert(self@.peers[i as int] == task::slot_view(self.peers@[i as int]));
            if let Some(p) = &self.peers[i] {
                if !p.times_out(now_ms) && !p.can_service(now_ms) {
                    return false;
                }
            }
            i += 1;
        }
        true
    }

    /// Services one peer.
    pub fn service_one(&mut self, key: PeerKey, now_ms: u32, out: &mut Vec<Action>)
        requires
            old(self).wf(),
            old(self)@.live(key) ==> old(self)@.peer(key).times_out(now_ms) || old(self)@.peer(
                key,
            ).serviceable(now_ms),
        ensures
            final(self).wf(),
            final(self)@ == old(self)@.service_one(key, now_ms).0,
            peer::actions(final(out)@) == peer::actions(old(out)@) + old(self)@.service_one(
                key,
                now_ms,
            ).1,
    {
        let ck: bool = self.use_checksum;
        let i: usize = key.0;
        let ghost before = self.peers@;
        let ghost start = self@;
        assert(peer::actions(out@) + Seq::<ActionView>::empty() =~= peer::actions(out@));
        if i >= self.peers.len() {
            return;
        }
        assert(start.peers[i as int] == task::slot_view(before[i as int]));
        let timed_out: bool = match &self.peers[i] {
            Some(p) => p.times_out(now_ms),
            None => return,
        };
        if timed_out {
            self.remove_peer(key, CloseReason::TimedOut, out);
            return;
        }
        match &mut self.peers[i] {
            Some(p) => {
                p.service(ck, now_ms, out);
            },
            None => {},
        }
        proof {
            task::lemma_slot_update(before, i as int, self.peers@[i as int]);
            assert(self.peers@ =~= before.update(i as int, self.peers@[i as int]));
            lemma_service_addr(start.peer(key), ck, now_ms);
            task::lemma_with_peer_wf(start, key, self@.peer(key));
        }
    }

    /// Services all peers and looks at the bandwidth limits.
    pub fn service_all(&mut self, now_ms: u32, out: &mut Vec<Action>)
        requires
            old(self).wf(),
            old(self)@.serviceable(now_ms),
        ensures
            final(self).wf(),
            final(self)@ == old(self)@.service_all(now_ms).0,
            peer::actions(final(out)@) == peer::actions(old(out)@) + old(self)@.service_all(
                now_ms,
            ).1,
    {
        let ghost start = self@;
        let ghost actions = peer::actions(out@);
        let n: usize = self.peers.len();
        let mut i: usize = 0;
        assert(actions + Seq::<ActionView>::empty() =~= actions);
        while i < n
            invariant
                i <= n,
                n == start.peers.len(),
                start.serviceable(now_ms),
                self.wf(),
                self@ == start.service_first(i as nat, now_ms).0,
                peer::actions(out@) == actions + start.service_first(i as nat, now_ms).1,
            decreases n - i,
        {
            let ghost h = self@;
            proof {
                lemma_service_first_keeps(start, i as nat, now_ms);
                assert(h.peers[i as int] == start.peers[i as int]);
            }
            self.service_one(PeerKey(i), now_ms, out);
            proof {
                let done = start.service_first(i as nat, now_ms).1;
                let more = h.service_one(PeerKey(i), now_ms).1;
                assert((actions + done) + more =~= actions + (done + more));
            }
            i += 1;
        }
        let ghost h = self@;
        self.bandwidth_throttle(now_ms, out);
        proof {
            let done = start.service_first(n as nat, now_ms).1;
            let more = h.bandwidth_throttle(now_ms).1;
            assert((actions + done) + more =~= actions + (done + more));
        }
    }

    /// How many peers are connected.
    fn count_connected(&self) -> (r: usize)
        ensures
            r == connected_count(self@.peers),
    {
        let ghost all = self@.peers;
        let mut n: usize = 0;
        let mut i: usize = 0;
        assert(all.take(0) =~= Seq::empty());
        while i < self.peers.len()
            invariant
                n <= i <= self.peers@.len(),
                all == self@.peers,
                n == connected_count(all.take(i as int)),
            decreases self.peers@.len() - i,
        {
            assert(all.take(i + 1).drop_last() =~= all.take(i as int));
            assert(all.take(i + 1).last() == task::slot_view(self.peers@[i as int]));
            if let Some(p) = &self.peers[i] {
                if p.state == PeerState::Connected {
                    n += 1;
                }
            }
            i += 1;
        }
        assert(all.take(i as int) =~= all);
        n
    }

    /// Gives all connected peers the same window.
    fn set_windows(&mut self, w: u32)
        requires
            old(self).wf(),
        ensures
            final(self).wf(),
            final(self)@ == old(self)@.with_windows(w),
    {
        let ghost start = self@;
        let ck: bool = self.use_checksum;
        let mut i: usize = 0;
        while i < self.peers.len()
            invariant
                i <= self.peers@.len(),
                self.wf(),
                ck == self.use_checksum,
                self@ == (HostView { peers: self@.peers, ..start }),
                self@.peers.len() == start.peers.len(),
                self.addr_map.wf(),
                forall|j: int| 0 <= j < i ==> #[trigger] self@.peers[j] == with_window(
                    start.peers[j],
                    w,
                ),
                forall|j: int| i <= j < start.peers.len() ==> #[trigger] self@.peers[j]
                    == start.peers[j],
            decreases self.peers@.len() - i,
        {
            let ghost before = self.peers@;
            let ghost h = self@;
            assert(h.peers[i as int] == task::slot_view(before[i as int]));
            match &mut self.peers[i] {
                Some(p) => {
                    if p.state == PeerState::Connected {
                        p.window_size = w;
                    }
                },
                None => {},
            }
            proof {
                task::lemma_slot_update(before, i as int, self.peers@[i as int]);
                assert(self.peers@ =~= before.update(i as int, self.peers@[i as int]));
                if h.live(PeerKey(i)) {
                    service::lemma_same_bounds_wf(
                        h.peer(PeerKey(i)),
                        self@.peer(PeerKey(i)),
                        ck,
                    );
                    task::lemma_with_peer_wf(h, PeerKey(i), self@.peer(PeerKey(i)));
                    assert(self@ =~= h.with_peer(PeerKey(i), self@.peer(PeerKey(i))));
                } else {
                    assert(self.peers@ =~= before);
                    assert(self@ =~= h);
                }
            }
            i += 1;
        }
        assert(self@ =~= start.with_windows(w));
    }

    /// Tells a connected peer of bandwidth limits.
    fn notify(&mut self, key: PeerKey, bl: BandwidthLimitCmd, now_ms: u32, out: &mut Vec<Action>)
        requires
            old(self).wf(),
            old(self)@.live(key),
        ensures
            final(self).wf(),
            final(self)@ == old(self)@.with_peer(
                key,
                old(self)@.peer(key).notify(old(self).use_checksum, bl, now_ms).0,
            ),
            peer::actions(final(out)@) == peer::actions(old(out)@) + old(self)@.peer(key).notify(
                old(self).use_checksum,
                bl,
                now_ms,
            ).1,
    {
        let ck: bool = self.use_checksum;
        let i: usize = key.0;
        let ghost before = self.peers@;
        let ghost start = self@;
        assert(start.peers[i as int] == task::slot_view(before[i as int]));
        let body = CommandBody::BandwidthLimit(bl);
        proof {
            channel::lemma_encoded_len(
                CMD_BANDWIDTH_LIMIT,
                0x80,
                CHANNEL_ID_CONNECTION,
                start.peer(key).next_seq(CHANNEL_ID_CONNECTION),
                body@,
            );
        }
        match &mut self.peers[i] {
            Some(p) => {
                let cmd = p.make_reliable(
                    ck,
                    CHANNEL_ID_CONNECTION,
                    CMD_BANDWIDTH_LIMIT,
                    now_ms,
                    &body,
                );
                p.emit_one(ck, cmd, now_ms, out);
            },
            None => {},
        }
        proof {
            task::lemma_slot_update(before, i as int, self.peers@[i as int]);
            assert(self.peers@ =~= before.update(i as int, self.peers@[i as int]));
            task::lemma_with_peer_wf(start, key, self@.peer(key));
        }
    }

    /// Enforce host-wide outgoing/incoming bandwidth limits.
    ///
    /// Runs every [`BANDWIDTH_THROTTLE_INTERVAL_MS`] and:
    /// 1. Gives each connected peer an equal share of the host's
    ///    `outgoing_bandwidth` as its send window, so that the sum of all
    ///    windows does not exceed the host's `outgoing_bandwidth`.
    /// 2. Sends CMD_BANDWIDTH_LIMIT to every connected peer advertising our
    ///    `incoming_bandwidth` so they throttle how much they send to us.
    pub fn bandwidth_throttle(&mut self, now_ms: u32, out: &mut Vec<Action>)
        requires
            old(self).wf(),
        ensures
            final(self).wf(),
            final(self)@ == old(self)@.bandwidth_throttle(now_ms).0,
            peer::actions(final(out)@) == peer::actions(old(out)@) + old(self)@.bandwidth_throttle(
                now_ms,
            ).1,
    {
        let ghost start = self@;
        let ghost actions = peer::actions(out@);
        assert(actions + Seq::<ActionView>::empty() =~= actions);
        if now_ms.wrapping_sub(self.bandwidth_throttle_epoch)
            < BANDWIDTH_THROTTLE_INTERVAL_MS as u32 {
            return;
        }
        self.bandwidth_throttle_epoch = now_ms;
        let ghost h = self@;
        proof {
            lemma_epoch_wf(start, h);
        }
        let ib: u32 = self.incoming_bandwidth;
        if ib == 0 && self.outgoing_bandwidth == 0 {
            return;
        }
        let count: u64 = self.count_connected() as u64;
        assert(count as u32 == count % 0x1_0000_0000) by (bit_vector);
        let peer_count: u32 = count as u32;
        if peer_count == 0 {
            return;
        }
        let ob: u32 = if self.outgoing_bandwidth > 0 {
            self.outgoing_bandwidth / peer_count
        } else {
            0
        };
        if self.outgoing_bandwidth > 0 {
            self.set_windows(smaller(ob, WINDOW_SIZE_MAX));
        }
        if ib == 0 && ob == 0 {
            return;
        }
        let bl = BandwidthLimitCmd { incoming_bandwidth: ib, outgoing_bandwidth: ob };
        let ghost g = self@;
        let n: usize = self.peers.len();
        let mut i: usize = 0;
        while i < n
            invariant
                i <= n,
                n == g.peers.len(),
                self.wf(),
                self@ == g.notify_first(i as nat, bl, now_ms).0,
                self@.peers.len() == n,
                self@.use_checksum == g.use_checksum,
                peer::actions(out@) == actions + g.notify_first(i as nat, bl, now_ms).1,
            decreases n - i,
        {
            let ghost k = self@;
            assert(k.peers[i as int] == task::slot_view(self.peers@[i as int]));
            let told: bool = match &self.peers[i] {
                Some(p) => p.state == PeerState::Connected,
                None => false,
            };
            if told {
                self.notify(PeerKey(i), bl, now_ms, out);
                proof {
                    let done = g.notify_first(i as nat, bl, now_ms).1;
                    let more = k.peer(PeerKey(i)).notify(g.use_checksum, bl, now_ms).1;
                    assert((actions + done) + more =~= actions + (done + more));
                }
            }
            i += 1;
        }
    }
}

proof fn lemma_epoch_wf(g: HostView, h: HostView)
    requires
        g.wf(),
        h == (HostView { bandwidth_throttle_epoch: h.bandwidth_throttle_epoch, ..g }),
    ensures
        h.wf(),
{
    assert forall|a: Address| #[trigger] h.addr_map.contains_key(a) implies h.live(h.addr_map[a])
        && h.peer(h.addr_map[a]).addr == a by {
        assert(g.addr_map.contains_key(a));
    }
}

} // verus!
