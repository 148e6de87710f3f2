//! The host: its peers, and what it does with datagrams, requests and time.

use vstd::prelude::*;

use bytes::Bytes;

use crate::address::{Address, AddressMap, PeerKey};
use crate::buffer;
use crate::channel;
use crate::packet::{Packet, PacketView};
use crate::peer;
use crate::peer::{Action, ActionView, CloseReason, PeerEntry, PeerState, PeerView};
use crate::protocol::{MAX_PEERS, MTU_DEFAULT};

pub mod connect;
pub mod dispatch;
pub mod run;
pub mod service;

pub use run::{Event, ToTask};

verus! {

/// A host: the state machine behind a socket.
///
/// Each operation takes the time in milliseconds and appends to a list what
/// is to be done: datagrams to send, packets to deliver, connections to hand
/// out.
pub struct HostTask {
    pub peers: Vec<Option<PeerEntry>>,
    pub addr_map: AddressMap,
    pub host_mtu: u32,
    pub incoming_bandwidth: u32,
    pub outgoing_bandwidth: u32,
    pub use_checksum: bool,
    /// Timestamp of the start of the current bandwidth-throttle measurement window.
    pub bandwidth_throttle_epoch: u32,
    /// For each slot the sessions that were last assigned in it: the incoming
    /// one and the outgoing one.
    pub sessions: Vec<(u8, u8)>,
}

/// The state of a host, with payloads as sequences.
#[verifier::ext_equal]
pub struct HostView {
    pub peers: Seq<Option<PeerView>>,
    pub addr_map: Map<Address, PeerKey>,
    pub host_mtu: u32,
    pub incoming_bandwidth: u32,
    pub outgoing_bandwidth: u32,
    pub use_checksum: bool,
    pub bandwidth_throttle_epoch: u32,
    pub sessions: Seq<(u8, u8)>,
}

/// The view of a slot.
pub open spec fn slot_view(s: Option<PeerEntry>) -> Option<PeerView> {
    match s {
        Some(p) => Some(p@),
        None => None,
    }
}

/// The views of slots.
pub open spec fn slot_views(s: Seq<Option<PeerEntry>>) -> Seq<Option<PeerView>> {
    s.map_values(|o: Option<PeerEntry>| slot_view(o))
}

/// The first slot from `i` on that is free.
pub open spec fn free_slot_from(peers: Seq<Option<PeerView>>, i: int) -> Option<int>
    decreases peers.len() - i,
{
    if i < 0 || i >= peers.len() {
        None
    } else if peers[i] is None {
        Some(i)
    } else {
        free_slot_from(peers, i + 1)
    }
}

impl View for HostTask {
    type V = HostView;

    open spec fn view(&self) -> HostView {
        HostView {
            peers: slot_views(self.peers@),
            addr_map: self.addr_map@,
            host_mtu: self.host_mtu,
            incoming_bandwidth: self.incoming_bandwidth,
            outgoing_bandwidth: self.outgoing_bandwidth,
            use_checksum: self.use_checksum,
            bandwidth_throttle_epoch: self.bandwidth_throttle_epoch,
            sessions: self.sessions@,
        }
    }
}

impl HostView {
    /// A host without peers. It has no more slots than there are peer IDs.
    pub open spec fn fresh(
        max_peers: int,
        use_checksum: bool,
        incoming_bandwidth: u32,
        outgoing_bandwidth: u32,
    ) -> Self {
        let n = if max_peers < MAX_PEERS {
            max_peers as nat
        } else {
            MAX_PEERS as nat
        };
        HostView {
            peers: Seq::new(n, |i: int| None::<PeerView>),
            sessions: Seq::new(n, |i: int| (0u8, 1u8)),
            addr_map: Map::empty(),
            host_mtu: MTU_DEFAULT,
            incoming_bandwidth,
            outgoing_bandwidth,
            use_checksum,
            bandwidth_throttle_epoch: 0,
        }
    }

    /// There is a peer under this key.
    pub open spec fn live(self, key: PeerKey) -> bool {
        key.0 < self.peers.len() && self.peers[key.0 as int] is Some
    }

    /// The peer under a key.
    pub open spec fn peer(self, key: PeerKey) -> PeerView {
        self.peers[key.0 as int]->0
    }

    /// The first free slot.
    pub open spec fn free_slot(self) -> Option<int> {
        free_slot_from(self.peers, 0)
    }

    /// The host with a peer under a key.
    pub open spec fn with_peer(self, key: PeerKey, p: PeerView) -> Self {
        HostView { peers: self.peers.update(key.0 as int, Some(p)), ..self }
    }

    /// The host without the peer under a key, and without its address.
    pub open spec fn without_peer(self, key: PeerKey) -> Self {
        if self.live(key) {
            HostView {
                peers: self.peers.update(key.0 as int, None),
                addr_map: self.addr_map.remove(self.peer(key).addr),
                ..self
            }
        } else {
            self
        }
    }

    /// What the user of a peer is told when the peer is removed.
    pub open spec fn closing(self, key: PeerKey, reason: CloseReason) -> Seq<ActionView> {
        if self.live(key) {
            seq![ActionView::Closed { key, reason }]
        } else {
            Seq::empty()
        }
    }

    /// What holds of every host: every slot has a peer ID, every peer is
    /// well-formed, and every known address is that of the peer in its slot.
    pub open spec fn wf(self) -> bool {
        &&& self.host_mtu == MTU_DEFAULT
        &&& self.peers.len() <= MAX_PEERS
        &&& self.sessions.len() == self.peers.len()
        &&& forall|i: int|
            0 <= i < self.peers.len() ==> ((#[trigger] self.peers[i]) matches Some(p) ==> p.wf(
                self.use_checksum,
            ))
        &&& forall|a: Address| #[trigger]
            self.addr_map.contains_key(a) ==> self.live(self.addr_map[a]) && self.peer(
                self.addr_map[a],
            ).addr == a
    }

    /// A packet to a connected peer can be laid out.
    pub open spec fn can_send(self, key: PeerKey, p: PacketView) -> bool {
        self.live(key) && self.peer(key).state == PeerState::Connected ==> self.peer(key).sendable(
            self.use_checksum,
            p,
        )
    }

    /// A packet that the user sends.
    pub open spec fn send_packet(self, key: PeerKey, p: PacketView, now: u32) -> (
        Self,
        Seq<ActionView>,
    ) {
        if self.live(key) {
            let (q, out) = self.peer(key).send(self.use_checksum, p, now);
            (self.with_peer(key, q), out)
        } else {
            (self, Seq::empty())
        }
    }

    /// A disconnect that the user asks for.
    pub open spec fn send_disconnect(self, key: PeerKey, data: u32, now: u32) -> (
        Self,
        Seq<ActionView>,
    ) {
        if self.live(key) {
            let (q, out) = self.peer(key).send_disconnect(self.use_checksum, data, now);
            (self.with_peer(key, q), out)
        } else {
            (self, Seq::empty())
        }
    }

    /// One datagram to a peer.
    pub open spec fn emit(self, key: PeerKey, cmds: Seq<Seq<u8>>, now: u32) -> (
        Self,
        Seq<ActionView>,
    ) {
        if self.live(key) {
            let p = self.peer(key);
            (self.with_peer(key, p.sent(cmds, now)), p.emitted(self.use_checksum, cmds, now))
        } else {
            (self, Seq::empty())
        }
    }

    /// Datagrams of up to one MTU to a peer.
    pub open spec fn flush(self, key: PeerKey, cmds: Seq<Seq<u8>>, now: u32) -> (
        Self,
        Seq<ActionView>,
    ) {
        if self.live(key) {
            let p = self.peer(key);
            (self.with_peer(key, p.sent(cmds, now)), p.flushed(self.use_checksum, cmds, now))
        } else {
            (self, Seq::empty())
        }
    }
}

/// A free slot is the first one, and there is none where none is found.
pub proof fn lemma_free_slot(peers: Seq<Option<PeerView>>, i: int)
    requires
        0 <= i,
    ensures
        match free_slot_from(peers, i) {
            Some(k) => {
                &&& i <= k < peers.len()
                &&& peers[k] is None
                &&& forall|j: int| i <= j < k ==> #[trigger] peers[j] is Some
            },
            None => forall|j: int| i <= j < peers.len() ==> #[trigger] peers[j] is Some,
        },
    decreases peers.len() - i,
{
    if i < peers.len() && peers[i] is Some {
        lemma_free_slot(peers, i + 1);
    }
}

/// Another well-formed peer with the same address in a slot keeps the host
/// well-formed.
pub proof fn lemma_with_peer_wf(h: HostView, key: PeerKey, p: PeerView)
    requires
        h.wf(),
        h.live(key),
        p.wf(h.use_checksum),
        p.addr == h.peer(key).addr,
    ensures
        h.with_peer(key, p).wf(),
{
    let g = h.with_peer(key, p);
    assert forall|a: Address| #[trigger] g.addr_map.contains_key(a) implies g.live(g.addr_map[a])
        && g.peer(g.addr_map[a]).addr == a by {
        assert(h.addr_map.contains_key(a));
    }
}

/// Law: removing a peer keeps the host well-formed.
pub proof fn lemma_without_peer_wf(h: HostView, key: PeerKey)
    requires
        h.wf(),
    ensures
        h.without_peer(key).wf(),
        !h.without_peer(key).live(key),
{
    let g = h.without_peer(key);
    assert forall|a: Address| #[trigger] g.addr_map.contains_key(a) implies g.live(g.addr_map[a])
        && g.peer(g.addr_map[a]).addr == a by {
        assert(h.addr_map.contains_key(a));
    }
}

/// A change to one slot changes the view of that slot.
pub proof fn lemma_slot_update(s: Seq<Option<PeerEntry>>, i: int, o: Option<PeerEntry>)
    requires
        0 <= i < s.len(),
    ensures
        slot_views(s.update(i, o)) == slot_views(s).update(i, slot_view(o)),
{
    assert(slot_views(s.update(i, o)) =~= slot_views(s).update(i, slot_view(o)));
}

impl HostTask {
    /// The host's state is well-formed, and so is every peer.
    pub open spec fn wf(&self) -> bool {
        &&& self@.wf()
        &&& self.addr_map.wf()
        &&& forall|i: int|
            0 <= i < self.peers@.len() ==> ((#[trigger] self.peers@[i]) matches Some(p) ==> p.wf(
                self.use_checksum,
            ))
    }

    /// A host with room for `max_peers` peers, or for as many as there are
    /// peer IDs where that is fewer.
    pub fn new(
        max_peers: usize,
        use_checksum: bool,
        incoming_bandwidth: u32,
        outgoing_bandwidth: u32,
    ) -> (r: Self)
        ensures
            r.wf(),
            r@ == HostView::fresh(
                max_peers as int,
                use_checksum,
                incoming_bandwidth,
                outgoing_bandwidth,
            ),
    {
        let n: usize = if max_peers < MAX_PEERS {
            max_peers
        } else {
            MAX_PEERS
        };
        let mut peers: Vec<Option<PeerEntry>> = Vec::new();
        let mut sessions: Vec<(u8, u8)> = Vec::new();
        let mut i: usize = 0;
        while i < n
            invariant
                i <= n,
                peers@.len() == i,
                sessions@.len() == i,
                forall|j: int| 0 <= j < i ==> #[trigger] peers@[j] is None,
                forall|j: int| 0 <= j < i ==> #[trigger] sessions@[j] == (0u8, 1u8),
            decreases n - i,
        {
            peers.push(None);
            sessions.push((0, 1));
            i += 1;
        }
        let r = Self {
            peers,
            addr_map: AddressMap::new(),
            host_mtu: MTU_DEFAULT,
            incoming_bandwidth,
            outgoing_bandwidth,
            use_checksum,
            bandwidth_throttle_epoch: 0,
            sessions,
        };
        assert(r@.peers =~= Seq::new(n as nat, |i: int| None::<PeerView>));
        assert(r@.sessions =~= Seq::new(n as nat, |i: int| (0u8, 1u8)));
        r
    }

    /// The first free slot.
    pub fn alloc_slot(&self) -> (r: Option<usize>)
        ensures
            match r {
                Some(i) => self@.free_slot() == Some(i as int) && i < self.peers@.len(),
                None => self@.free_slot() is None,
            },
    {
        let mut i: usize = 0;
        while i < self.peers.len()
            invariant
                i <= self.peers@.len(),
                self@.free_slot() == free_slot_from(self@.peers, i as int),
            decreases self.peers@.len() - i,
        {
            assert(self@.peers[i as int] == slot_view(self.peers@[i as int]));
            if self.peers[i].is_none() {
                return Some(i);
            }
            i += 1;
        }
        None
    }

    /// Whether there is a peer under a key.
    pub fn is_live(&self, key: PeerKey) -> (r: bool)
        ensures
            r == self@.live(key),
    {
        if key.0 < self.peers.len() {
            assert(self@.peers[key.0 as int] == slot_view(self.peers@[key.0 as int]));
            self.peers[key.0].is_some()
        } else {
            false
        }
    }

    /// Whether a packet to a connected peer can be laid out.
    pub fn can_send(&self, key: PeerKey, pkt: &Packet) -> (r: bool)
        ensures
            r == self@.can_send(key, pkt@),
    {
        if key.0 < self.peers.len() {
            assert(self@.peers[key.0 as int] == slot_view(self.peers@[key.0 as int]));
            match &self.peers[key.0] {
                Some(p) => p.state != PeerState::Connected || p.can_send(self.use_checksum, pkt),
                None => true,
            }
        } else {
            true
        }
    }

    /// Sends a packet to a peer.
    pub fn send_packet(&mut self, key: PeerKey, pkt: Packet, now_ms: u32, out: &mut Vec<Action>)
        requires
            old(self).wf(),
            old(self)@.can_send(key, pkt@),
        ensures
            final(self).wf(),
            final(self)@ == old(self)@.send_packet(key, pkt@, now_ms).0,
            peer::actions(final(out)@) == peer::actions(old(out)@) + old(self)@.send_packet(
                key,
                pkt@,
                now_ms,
            ).1,
    {
        let ck: bool = self.use_checksum;
        let i: usize = key.0;
        let ghost before = self.peers@;
        let ghost start = self@;
        assert(peer::actions(out@) + Seq::<ActionView>::empty() =~= peer::actions(out@));
        if i >= self.peers.len() {
            return;
        }
        assert(start.peers[i as int] == slot_view(before[i as int]));
        match &mut self.peers[i] {
            Some(p) => {
                p.send_packet(ck, pkt, now_ms, out);
            },
            None => {},
        }
        proof {
            lemma_slot_update(before, i as int, self.peers@[i as int]);
            assert(self.peers@ =~= before.update(i as int, self.peers@[i as int]));
            if start.live(key) {
                lemma_with_peer_wf(start, key, self@.peer(key));
            } else {
                assert(self.peers@ =~= before);
            }
        }
    }

    /// Starts a graceful disconnect of a peer.
    pub fn send_disconnect(&mut self, key: PeerKey, data: u32, now_ms: u32, out: &mut Vec<Action>)
        requires
            old(self).wf(),
        ensures
            final(self).wf(),
            final(self)@ == old(self)@.send_disconnect(key, data, now_ms).0,
            peer::actions(final(out)@) == peer::actions(old(out)@) + old(self)@.send_disconnect(
                key,
                data,
                now_ms,
            ).1,
    {
        let ck: bool = self.use_checksum;
        let i: usize = key.0;
        let ghost before = self.peers@;
        let ghost start = self@;
        assert(peer::actions(out@) + Seq::<ActionView>::empty() =~= peer::actions(out@));
        if i >= self.peers.len() {
            return;
        }
        assert(start.peers[i as int] == slot_view(before[i as int]));
        match &mut self.peers[i] {
            Some(p) => {
                p.send_disconnect(ck, data, now_ms, out);
            },
            None => {},
        }
        proof {
            lemma_slot_update(before, i as int, self.peers@[i as int]);
            assert(self.peers@ =~= before.update(i as int, self.peers@[i as int]));
            if start.live(key) {
                lemma_with_peer_wf(start, key, self@.peer(key));
            } else {
                assert(self.peers@ =~= before);
            }
        }
    }

    /// Sends all of `cmds` to a peer in one datagram.
    pub fn emit_by_key(&mut self, key: PeerKey, cmds: &[Bytes], now_ms: u32, out: &mut Vec<Action>)
        requires
            old(self).wf(),
            8 + peer::emit::concat(channel::contents(cmds@)).len() <= isize::MAX,
        ensures
            final(self).wf(),
            final(self)@ == old(self)@.emit(key, channel::contents(cmds@), now_ms).0,
            peer::actions(final(out)@) == peer::actions(old(out)@) + old(self)@.emit(
                key,
                channel::contents(cmds@),
                now_ms,
            ).1,
    {
        let ck: bool = self.use_checksum;
        let i: usize = key.0;
        let ghost before = self.peers@;
        let ghost start = self@;
        assert(peer::actions(out@) + Seq::<ActionView>::empty() =~= peer::actions(out@));
        if i >= self.peers.len() {
            return;
        }
        assert(start.peers[i as int] == slot_view(before[i as int]));
        match &mut self.peers[i] {
            Some(p) => {
                p.emit(ck, cmds, now_ms, out);
            },
            None => {},
        }
        proof {
            lemma_slot_update(before, i as int, self.peers@[i as int]);
            assert(self.peers@ =~= before.update(i as int, self.peers@[i as int]));
            if start.live(key) {
                peer::send::lemma_sent_wf(
                    start.peer(key),
                    ck,
                    channel::contents(cmds@),
                    now_ms,
                );
                lemma_with_peer_wf(start, key, self@.peer(key));
            } else {
                assert(self.peers@ =~= before);
            }
        }
    }

    /// Sends `cmds` to a peer in datagrams of up to one MTU.
    pub fn flush_batch(
        &mut self,
        key: PeerKey,
        cmds: Vec<Bytes>,
        now_ms: u32,
        out: &mut Vec<Action>,
    )
        requires
            old(self).wf(),
            (old(self)@.live(key) && old(self)@.peer(key).mtu_fits()) || 8 + peer::emit::concat(
                channel::contents(cmds@),
            ).len() <= isize::MAX,
            forall|i: int|
                0 <= i < cmds@.len() ==> buffer::content(#[trigger] cmds@[i]).len() + 8
                    <= isize::MAX,
        ensures
            final(self).wf(),
            final(self)@ == old(self)@.flush(key, channel::contents(cmds@), now_ms).0,
            peer::actions(final(out)@) == peer::actions(old(out)@) + old(self)@.flush(
                key,
                channel::contents(cmds@),
                now_ms,
            ).1,
    {
        let ck: bool = self.use_checksum;
        let i: usize = key.0;
        let ghost before = self.peers@;
        let ghost start = self@;
        let ghost all = channel::contents(cmds@);
        assert(peer::actions(out@) + Seq::<ActionView>::empty() =~= peer::actions(out@));
        if i >= self.peers.len() {
            return;
        }
        assert(start.peers[i as int] == slot_view(before[i as int]));
        match &mut self.peers[i] {
            Some(p) => {
                p.flush_batch(ck, cmds, now_ms, out);
            },
            None => {},
        }
        proof {
            lemma_slot_update(before, i as int, self.peers@[i as int]);
            assert(self.peers@ =~= before.update(i as int, self.peers@[i as int]));
            if start.live(key) {
                peer::send::lemma_sent_wf(start.peer(key), ck, all, now_ms);
                lemma_with_peer_wf(start, key, self@.peer(key));
            } else {
                assert(self.peers@ =~= before);
            }
        }
    }

    /// Removes a peer and tells its user why.
    pub fn remove_peer(&mut self, key: PeerKey, reason: CloseReason, out: &mut Vec<Action>)
        requires
            old(self).wf(),
        ensures
            final(self).wf(),
            final(self)@ == old(self)@.without_peer(key),
            peer::actions(final(out)@) == peer::actions(old(out)@) + old(self)@.closing(
                key,
                reason,
            ),
    {
        let i: usize = key.0;
        let ghost before = self.peers@;
        let ghost start = self@;
        let ghost actions = peer::actions(out@);
        proof {
            lemma_without_peer_wf(start, key);
            assert(actions + Seq::<ActionView>::empty() =~= actions);
        }
        if i >= self.peers.len() {
            return;
        }
        assert(start.peers[i as int] == slot_view(before[i as int]));
        let addr: Address = match &self.peers[i] {
            Some(p) => p.addr,
            None => return,
        };
        self.addr_map.remove(addr);
        self.peers.set(i, None);
        out.push(Action::Closed { key, reason });
        proof {
            lemma_slot_update(before, i as int, None);
            assert(peer::actions(out@) =~= actions + start.closing(key, reason));
        }
    }
}

} // verus!
