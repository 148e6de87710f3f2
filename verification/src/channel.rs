//! Channels: sequencing, reassembly and duplicate detection.

use std::collections::BTreeMap;

use vstd::prelude::*;

use bytes::{Bytes, BytesMut};

use crate::buffer;
use crate::peer::budget;
use crate::protocol::command;
use crate::protocol::sequence;
use crate::protocol::wire;
use crate::protocol::{
    seq_lt, CommandBody, CommandHeader, SendFragmentCmd, FREE_RELIABLE_WINDOWS, RELIABLE_WINDOW_SIZE,
};

pub mod fragment;
pub mod ordering;
pub mod unsequenced;

pub use fragment::FragmentBuffer;
pub use unsequenced::UnsequencedWindow;

verus! {

/// Maximum number of out-of-order reliable packets buffered per channel.
/// Caps per-channel memory use.
pub const MAX_INCOMING_RELIABLE_QUEUE: usize = 4096;

/// A message that waits for an earlier one: its payload, and how many sequence
/// numbers it uses up.
#[derive(Debug)]
pub struct Held {
    pub count: u32,
    pub data: Bytes,
}

/// A waiting message with its payload as a sequence.
#[verifier::ext_equal]
pub struct HeldView {
    pub count: u32,
    pub data: Seq<u8>,
}

impl View for Held {
    type V = HeldView;

    open spec fn view(&self) -> HeldView {
        HeldView { count: self.count, data: buffer::content(self.data) }
    }
}

/// One channel of a peer.
#[derive(Debug)]
pub struct Channel {
    // Outgoing
    pub outgoing_reliable_seq: u16,
    pub outgoing_unreliable_seq: u16,
    pub outgoing_unsequenced_group: u16,
    // Incoming reliable
    pub incoming_reliable_seq: u16,
    /// Reliable messages held waiting for an earlier seq to arrive.
    pub incoming_reliable_queue: BTreeMap<u16, Held>,
    // Incoming unreliable
    pub incoming_unreliable_seq: u16,
    // Fragment reassembly: start_seq -> buffer, with unreliable messages apart
    // from reliable ones
    pub fragment_buffers: BTreeMap<u32, FragmentBuffer>,
}

/// The state of a channel, with payloads as sequences.
#[verifier::ext_equal]
pub struct ChannelView {
    pub outgoing_reliable_seq: u16,
    pub outgoing_unreliable_seq: u16,
    pub outgoing_unsequenced_group: u16,
    pub incoming_reliable_seq: u16,
    pub queue: Map<u16, HeldView>,
    pub incoming_unreliable_seq: u16,
    pub fragments: Map<u32, fragment::ReassemblyView>,
}

/// What is left, and what comes out, when the messages held directly behind
/// `seq` are taken from the queue.
#[verifier::ext_equal]
pub struct Drained {
    pub seq: u16,
    pub queue: Map<u16, HeldView>,
    pub out: Seq<Seq<u8>>,
}

/// Takes the message behind `seq` from the queue, then the one behind its
/// last number, as long as there is one.
pub open spec fn drain(seq: u16, queue: Map<u16, HeldView>) -> Drained
    decreases queue.dom().len(),
    when queue.dom().finite()
{
    let next = sequence::seq_next(seq);
    if queue.contains_key(next) {
        let h = queue[next];
        let rest = drain(sequence::seq_plus(seq, h.count as int), queue.remove(next));
        Drained { out: seq![h.data] + rest.out, ..rest }
    } else {
        Drained { seq, queue, out: Seq::empty() }
    }
}

impl ChannelView {
    /// A channel on which nothing was sent or received.
    pub open spec fn fresh() -> Self {
        ChannelView {
            outgoing_reliable_seq: 0,
            outgoing_unreliable_seq: 0,
            outgoing_unsequenced_group: 0,
            incoming_reliable_seq: 0,
            queue: Map::empty(),
            incoming_unreliable_seq: 0,
            fragments: Map::empty(),
        }
    }

    /// The bounds on what a channel holds for later.
    pub open spec fn wf(self) -> bool {
        &&& self.queue.dom().finite()
        &&& self.queue.len() <= MAX_INCOMING_RELIABLE_QUEUE
        &&& self.fragments.dom().finite()
        &&& forall|k: u32| #[trigger] self.fragments.contains_key(k) ==> k < 0x2_0000
    }

    pub open spec fn bump_reliable(self) -> Self {
        ChannelView {
            outgoing_reliable_seq: sequence::seq_next(self.outgoing_reliable_seq),
            ..self
        }
    }

    pub open spec fn bump_unreliable(self) -> Self {
        ChannelView {
            outgoing_unreliable_seq: sequence::seq_next(self.outgoing_unreliable_seq),
            ..self
        }
    }

    pub open spec fn bump_unsequenced(self) -> Self {
        ChannelView {
            outgoing_unsequenced_group: sequence::seq_next(self.outgoing_unsequenced_group),
            ..self
        }
    }

    /// The sequence number that is due next.
    pub open spec fn expected(self) -> u16 {
        sequence::seq_next(self.incoming_reliable_seq)
    }

    /// Moves the incoming sequence number to `seq` and takes what is held
    /// directly behind it.
    pub open spec fn catch_up(self, seq: u16) -> (Self, Seq<Seq<u8>>) {
        let d = drain(seq, self.queue);
        (ChannelView { incoming_reliable_seq: d.seq, queue: d.queue, ..self }, d.out)
    }

    /// Whether there is room for a reliable message: one that is due or that
    /// came before needs none.
    pub open spec fn takes(self, seq: u16) -> bool {
        sequence::seq_before(self.expected(), seq) && !self.queue.contains_key(seq)
            ==> self.queue.len() < MAX_INCOMING_RELIABLE_QUEUE
    }

    /// A reliable message from `seq` on is through: it came out, or all of it
    /// is held.
    pub open spec fn settled(self, seq: u16) -> bool {
        self.queue.contains_key(seq) || (seq != self.expected() && !sequence::seq_before(
            self.expected(),
            seq,
        ))
    }

    /// A reliable message that uses up `count` numbers from `seq` on: the one
    /// that is due comes out, with those held directly behind its last
    /// number; a later one is held while there is room, with its count; an
    /// earlier one is dropped.
    pub open spec fn receive_counted(self, seq: u16, count: u32, data: Seq<u8>) -> (
        Self,
        Seq<Seq<u8>>,
    ) {
        if seq == self.expected() {
            let (c, more) = self.catch_up(
                sequence::seq_plus(self.incoming_reliable_seq, count as int),
            );
            (c, seq![data] + more)
        } else if sequence::seq_before(self.expected(), seq) && self.queue.len()
            < MAX_INCOMING_RELIABLE_QUEUE {
            (
                ChannelView { queue: self.queue.insert(seq, HeldView { count, data }), ..self },
                Seq::empty(),
            )
        } else {
            (self, Seq::empty())
        }
    }

    /// A reliable message in one piece.
    pub open spec fn receive_reliable(self, seq: u16, data: Seq<u8>) -> (Self, Seq<Seq<u8>>) {
        self.receive_counted(seq, 1, data)
    }

    /// Whether an unreliable packet is taken: only one that comes after all
    /// that were taken.
    pub open spec fn accepts_unreliable(self, seq: u16) -> bool {
        sequence::seq_before(self.incoming_unreliable_seq, seq)
    }

    pub open spec fn receive_unreliable(self, seq: u16) -> Self {
        if self.accepts_unreliable(seq) {
            ChannelView { incoming_unreliable_seq: seq, ..self }
        } else {
            self
        }
    }

    /// Which reassemblies go: those of unreliable messages that can no longer
    /// be taken, or of all unreliable messages.
    pub open spec fn drops(self, all: bool, k: u32) -> bool {
        0x1_0000 <= k && (all || !self.accepts_unreliable((k - 0x1_0000) as u16))
    }

    /// The channel without these reassemblies.
    pub open spec fn without_unreliable(self, all: bool) -> Self {
        ChannelView {
            fragments: self.fragments.restrict(Set::new(|k: u32| !self.drops(all, k))),
            ..self
        }
    }

    /// The channel after an unreliable message was taken: reassemblies of
    /// those that are late now are given up.
    pub open spec fn take_unreliable(self, seq: u16) -> Self {
        self.receive_unreliable(seq).without_unreliable(false)
    }

    /// A reassembled reliable message of `count` fragments, which used up as
    /// many sequence numbers, whether it is due now or later.
    pub open spec fn receive_reassembled(self, start: u16, count: u32, data: Seq<u8>) -> (
        Self,
        Seq<Seq<u8>>,
    ) {
        self.receive_counted(start, count, data)
    }

    /// The reassembly that fragment `f` belongs to.
    pub open spec fn reassembly(self, f: command::FragmentView, reliable: bool)
        -> fragment::ReassemblyView {
        let k = reassembly_key(f.start_seq, reliable);
        if self.fragments.contains_key(k) {
            self.fragments[k]
        } else {
            fragment::ReassemblyView::fresh(f.total_length as int, f.fragment_count)
        }
    }

    /// Whether fragment `f` completes its message.
    pub open spec fn completes(self, f: command::FragmentView, reliable: bool) -> bool {
        let r = self.reassembly(f, reliable);
        &&& r.accepts(f.fragment_number as int, f.fragment_offset as int, f.data)
        &&& self.reassembled(f, reliable).complete()
    }

    /// The reassembly of fragment `f` with the fragment in it.
    pub open spec fn reassembled(self, f: command::FragmentView, reliable: bool)
        -> fragment::ReassemblyView {
        self.reassembly(f, reliable).receive(
            f.fragment_number as int,
            f.fragment_offset as int,
            f.data,
        )
    }

    /// The channel after a fragment, and what comes out of it.
    pub open spec fn receive_fragment(self, f: command::FragmentView, reliable: bool) -> (
        Self,
        Seq<Seq<u8>>,
    ) {
        let d = self.store_fragment(f, reliable);
        let data = self.reassembled(f, reliable).buf;
        if !self.completes(f, reliable) {
            (d, Seq::empty())
        } else if reliable {
            d.receive_reassembled(f.start_seq, f.fragment_count, data)
        } else if d.accepts_unreliable(f.start_seq) {
            (d.take_unreliable(f.start_seq), seq![data])
        } else {
            (d, Seq::empty())
        }
    }

    /// The channel after fragment `f`: the reassembly goes on, or ends.
    pub open spec fn store_fragment(self, f: command::FragmentView, reliable: bool) -> Self {
        let k = reassembly_key(f.start_seq, reliable);
        ChannelView {
            fragments: if self.completes(f, reliable) {
                self.fragments.remove(k)
            } else {
                self.fragments.insert(k, self.reassembled(f, reliable))
            },
            ..self
        }
    }
}

impl View for Channel {
    type V = ChannelView;

    open spec fn view(&self) -> ChannelView {
        ChannelView {
            outgoing_reliable_seq: self.outgoing_reliable_seq,
            outgoing_unreliable_seq: self.outgoing_unreliable_seq,
            outgoing_unsequenced_group: self.outgoing_unsequenced_group,
            incoming_reliable_seq: self.incoming_reliable_seq,
            queue: self.incoming_reliable_queue@.map_values(|h: Held| h@),
            incoming_unreliable_seq: self.incoming_unreliable_seq,
            fragments: self.fragment_buffers@.map_values(|b: FragmentBuffer| b@),
        }
    }
}

/// Under which number a message is put together: reliable and unreliable
/// messages are numbered apart.
pub open spec fn reassembly_key(start: u16, reliable: bool) -> u32 {
    if reliable {
        start as u32
    } else {
        (start + 0x1_0000) as u32
    }
}

/// Under which number a message is put together.
pub fn key_of(start: u16, reliable: bool) -> (r: u32)
    ensures
        r == reassembly_key(start, reliable),
{
    if reliable {
        start as u32
    } else {
        start as u32 + 0x1_0000
    }
}

/// The number of an unreliable message that is put together under `k`.
fn low_number(k: u32) -> (r: u16)
    requires
        0x1_0000 <= k < 0x2_0000,
    ensures
        r == (k - 0x1_0000) as u16,
{
    (k - 0x1_0000) as u16
}

/// The payloads of a vector of buffers.
pub open spec fn contents(v: Seq<Bytes>) -> Seq<Seq<u8>> {
    v.map_values(|b: Bytes| buffer::content(b))
}

impl Channel {
    /// Every reassembly is well-formed and the queue within its bound.
    pub open spec fn wf(&self) -> bool {
        &&& self@.wf()
        &&& forall|k: u32|
            self.fragment_buffers@.contains_key(k) ==> (#[trigger] self.fragment_buffers@[k]).wf()
    }

    pub fn new() -> (r: Self)
        ensures
            r.wf(),
            r@ == ChannelView::fresh(),
    {
        let r = Self {
            outgoing_reliable_seq: 0,
            outgoing_unreliable_seq: 0,
            outgoing_unsequenced_group: 0,
            incoming_reliable_seq: 0,
            incoming_reliable_queue: BTreeMap::new(),
            incoming_unreliable_seq: 0,
            fragment_buffers: BTreeMap::new(),
        };
        assert(r@ =~= ChannelView::fresh());
        r
    }

    /// Advance and return the next outgoing reliable sequence number.
    pub fn next_reliable_seq(&mut self) -> (r: u16)
        ensures
            final(self)@ == old(self)@.bump_reliable(),
            r == final(self)@.outgoing_reliable_seq,
            old(self).wf() ==> final(self).wf(),
    {
        self.outgoing_reliable_seq = self.outgoing_reliable_seq.wrapping_add(1);
        self.outgoing_reliable_seq
    }

    /// Advance and return the next outgoing unreliable sequence number.
    pub fn next_unreliable_seq(&mut self) -> (r: u16)
        ensures
            final(self)@ == old(self)@.bump_unreliable(),
            r == final(self)@.outgoing_unreliable_seq,
            old(self).wf() ==> final(self).wf(),
    {
        self.outgoing_unreliable_seq = self.outgoing_unreliable_seq.wrapping_add(1);
        self.outgoing_unreliable_seq
    }

    /// Advance and return the next outgoing unsequenced group.
    pub fn next_unsequenced_group(&mut self) -> (r: u16)
        ensures
            final(self)@ == old(self)@.bump_unsequenced(),
            r == final(self)@.outgoing_unsequenced_group,
            old(self).wf() ==> final(self).wf(),
    {
        self.outgoing_unsequenced_group = self.outgoing_unsequenced_group.wrapping_add(1);
        self.outgoing_unsequenced_group
    }

    /// Returns true if the reliable window is open for sending.
    pub fn reliable_window_open(&self, in_flight: usize) -> (r: bool)
        ensures
            r == (in_flight < 32768),
    {
        assert(8usize * 4096usize == 32768) by (nonlinear_arith);
        in_flight < (FREE_RELIABLE_WINDOWS as usize * RELIABLE_WINDOW_SIZE as usize)
    }

    /// Takes from the queue what is held directly behind the incoming
    /// sequence number, and appends it to `out`.
    fn drain_queue(&mut self, out: &mut Vec<Bytes>)
        requires
            old(self).wf(),
        ensures
            final(self).wf(),
            final(self)@ == old(self)@.catch_up(old(self)@.incoming_reliable_seq).0,
            contents(final(out)@) == contents(old(out)@) + old(self)@.catch_up(
                old(self)@.incoming_reliable_seq,
            ).1,
    {
        let ghost goal = drain(self@.incoming_reliable_seq, self@.queue);
        assert(contents(out@) + goal.out =~= contents(old(out)@) + goal.out);
        loop
            invariant
                self.wf(),
                self@ == (ChannelView {
                    incoming_reliable_seq: self@.incoming_reliable_seq,
                    queue: self@.queue,
                    ..old(self)@
                }),
                ({
                    let d = drain(self@.incoming_reliable_seq, self@.queue);
                    &&& d.seq == goal.seq
                    &&& d.queue == goal.queue
                    &&& contents(out@) + d.out == contents(old(out)@) + goal.out
                }),
            ensures
                self.wf(),
                self@ == (ChannelView {
                    incoming_reliable_seq: goal.seq,
                    queue: goal.queue,
                    ..old(self)@
                }),
                contents(out@) == contents(old(out)@) + goal.out,
            decreases self@.queue.dom().len(),
        {
            let ghost before = self@;
            let ghost so_far = contents(out@);
            let next: u16 = self.incoming_reliable_seq.wrapping_add(1);
            assert(next == sequence::seq_next(self.incoming_reliable_seq));
            match self.incoming_reliable_queue.remove(&next) {
                Some(h) => {
                    let last: u16 = numbers_after(self.incoming_reliable_seq, h.count);
                    self.incoming_reliable_seq = last;
                    let ghost d = h@.data;
                    out.push(h.data);
                    proof {
                        assert(before.queue[next] == h@);
                        assert(self@.queue =~= before.queue.remove(next));
                        assert(contents(out@) =~= so_far + seq![d]);
                        let rest = drain(last, self@.queue);
                        assert((so_far + seq![d]) + rest.out =~= so_far + (seq![d] + rest.out));
                    }
                },
                None => {
                    assert(self@.queue =~= before.queue);
                    assert(so_far + Seq::<Seq<u8>>::empty() =~= so_far);
                    break;
                },
            }
        }
    }

    /// Whether a reliable message came out, or is held.
    pub fn settled(&self, seq: u16) -> (r: bool)
        requires
            self.wf(),
        ensures
            r == self@.settled(seq),
    {
        assert(self.incoming_reliable_queue@.dom() =~= self@.queue.dom());
        let expected: u16 = self.incoming_reliable_seq.wrapping_add(1);
        self.incoming_reliable_queue.contains_key(&seq) || (seq != expected && !seq_lt(
            expected,
            seq,
        ))
    }

    /// Returns true if there is room for a reliable message.
    pub fn takes(&self, seq: u16) -> (r: bool)
        requires
            self.wf(),
        ensures
            r == self@.takes(seq),
    {
        let expected: u16 = self.incoming_reliable_seq.wrapping_add(1);
        assert(self.incoming_reliable_queue@.dom() =~= self@.queue.dom());
        !seq_lt(expected, seq) || self.incoming_reliable_queue.contains_key(&seq)
            || self.incoming_reliable_queue.len() < MAX_INCOMING_RELIABLE_QUEUE
    }

    /// Receive a reliable message that uses up `count` sequence numbers.
    fn receive_counted(&mut self, seq: u16, count: u32, data: Bytes) -> (out: Vec<Bytes>)
        requires
            old(self).wf(),
        ensures
            final(self).wf(),
            final(self)@ == old(self)@.receive_counted(seq, count, buffer::content(data)).0,
            contents(out@) == old(self)@.receive_counted(seq, count, buffer::content(data)).1,
    {
        let expected: u16 = self.incoming_reliable_seq.wrapping_add(1);
        assert(expected == self@.expected());
        let mut out: Vec<Bytes> = Vec::new();
        if seq == expected {
            let last: u16 = numbers_after(self.incoming_reliable_seq, count);
            self.incoming_reliable_seq = last;
            out.push(data);
            assert(contents(out@) =~= seq![buffer::content(data)]);
            self.drain_queue(&mut out);
        } else if seq_lt(expected, seq) {
            // Held only within the receive window and below the queue size cap.
            assert(8u16 * 4096u16 == 32768) by (nonlinear_arith);
            let window: u16 = FREE_RELIABLE_WINDOWS * RELIABLE_WINDOW_SIZE;
            assert(self.incoming_reliable_queue@.dom() =~= self@.queue.dom());
            if seq.wrapping_sub(expected) <= window && self.incoming_reliable_queue.len()
                < MAX_INCOMING_RELIABLE_QUEUE {
                let ghost before = self@;
                let h = Held { count, data };
                self.incoming_reliable_queue.insert(seq, h);
                assert(self@.queue =~= before.queue.insert(seq, h@));
            }
            assert(contents(out@) =~= Seq::empty());
        } else {
            // Old duplicate: dropped.
            assert(contents(out@) =~= Seq::empty());
        }
        out
    }

    /// Receive a reliable in-order delivery. Returns in-order messages that are now deliverable.
    pub fn receive_reliable(&mut self, seq: u16, data: Bytes) -> (out: Vec<Bytes>)
        requires
            old(self).wf(),
        ensures
            final(self).wf(),
            final(self)@ == old(self)@.receive_reliable(seq, buffer::content(data)).0,
            contents(out@) == old(self)@.receive_reliable(seq, buffer::content(data)).1,
    {
        self.receive_counted(seq, 1, data)
    }

    /// Receive an unreliable sequenced message. Returns Some(data) if accepted.
    pub fn receive_unreliable(&mut self, seq: u16, data: Bytes) -> (r: Option<Bytes>)
        requires
            old(self).wf(),
        ensures
            final(self).wf(),
            final(self)@ == old(self)@.receive_unreliable(seq),
            r is Some <==> old(self)@.accepts_unreliable(seq),
            r matches Some(d) ==> d == data,
    {
        if seq_lt(self.incoming_unreliable_seq, seq) {
            self.incoming_unreliable_seq = seq;
            Some(data)
        } else {
            None
        }
    }

    /// The reassemblies that go.
    fn dropped(&self, all: bool) -> (r: Vec<u32>)
        requires
            self.wf(),
        ensures
            forall|k: u32|
                self@.fragments.contains_key(k) && self@.drops(all, k) ==> #[trigger] r@.contains(
                    k,
                ),
            forall|i: int| 0 <= i < r@.len() ==> self@.drops(all, #[trigger] r@[i]),
    {
        let mut r: Vec<u32> = Vec::new();
        for k in it: self.fragment_buffers.keys()
            invariant
                self.wf(),
                it.seq().unref().to_set() == self.fragment_buffers@.dom(),
                forall|j: int|
                    0 <= j < it.index() && self@.drops(all, *(#[trigger] it.seq()[j]))
                        ==> r@.contains(*it.seq()[j]),
                forall|i: int| 0 <= i < r@.len() ==> self@.drops(all, #[trigger] r@[i]),
        {
            let ghost before = r@;
            let n: u32 = *k;
            proof {
                let seen = it.seq().unref();
                assert(seen[it.index()] == n);
                assert(seen.to_set().contains(n));
                assert(self@.fragments.contains_key(n));
            }
            if n >= 0x1_0000 && (all || !seq_lt(
                self.incoming_unreliable_seq,
                low_number(n),
            )) {
                r.push(n);
                assert(r@[before.len() as int] == n);
            }
            assert forall|j: int|
                0 <= j < it.index() + 1 && self@.drops(
                    all,
                    *(#[trigger] it.seq()[j]),
                ) implies r@.contains(*it.seq()[j]) by {
                if j < it.index() {
                    let x = choose|x: int| 0 <= x < before.len() && before[x] == *it.seq()[j];
                    assert(r@[x] == *it.seq()[j]);
                }
            }
        }
        r
    }

    /// Gives up reassemblies of unreliable messages: those that can no longer
    /// be taken, or all. Returns how many bytes they held.
    pub fn drop_unreliable(&mut self, all: bool) -> (freed: usize)
        requires
            old(self).wf(),
            budget::held(old(self)@.fragments) <= usize::MAX,
        ensures
            final(self).wf(),
            final(self)@ == old(self)@.without_unreliable(all),
            freed == budget::held(old(self)@.fragments) - budget::held(final(self)@.fragments),
    {
        let keys = self.dropped(all);
        let ghost start = self@;
        let mut freed: usize = 0;
        let mut i: usize = 0;
        while i < keys.len()
            invariant
                i <= keys@.len(),
                self.wf(),
                budget::held(start.fragments) <= usize::MAX,
                freed == budget::held(start.fragments) - budget::held(self@.fragments),
                self@ == (ChannelView { fragments: self@.fragments, ..start }),
                forall|k: u32| #[trigger]
                    self@.fragments.contains_key(k) <==> start.fragments.contains_key(k)
                        && !keys@.take(i as int).contains(k),
                forall|k: u32| #[trigger]
                    self@.fragments.contains_key(k) ==> self@.fragments[k] == start.fragments[k],
            decreases keys@.len() - i,
        {
            let k: u32 = keys[i];
            let ghost before = self@;
            proof {
                assert(keys@.take(i + 1) =~= keys@.take(i as int).push(k));
                assert forall|j: u32| #[trigger] keys@.take(i + 1).contains(j) <==> keys@.take(
                    i as int,
                ).contains(j) || j == k by {
                    let a = keys@.take(i as int);
                    let b = keys@.take(i + 1);
                    if a.contains(j) {
                        let x = choose|x: int| 0 <= x < a.len() && a[x] == j;
                        assert(b[x] == j);
                    }
                    assert(b[i as int] == k);
                }
            }
            if let Some(b) = self.fragment_buffers.remove(&k) {
                let len: usize = b.buf.len();
                proof {
                    assert(self@.fragments =~= before.fragments.remove(k));
                    assert(before.fragments.contains_key(k) && before.fragments[k] == b@);
                    assert forall|j: u32| j != k implies budget::held_at(before.fragments, j)
                        == #[trigger] budget::held_at(self@.fragments, j) by {}
                    budget::lemma_held_changed(before.fragments, self@.fragments, k);
                    budget::lemma_held_part(self@.fragments, 0);
                }
                freed = freed + len;
            } else {
                assert(self@.fragments =~= before.fragments);
            }
            i += 1;
        }
        proof {
            assert(keys@.take(i as int) =~= keys@);
            assert(self@.fragments =~= start.without_unreliable(all).fragments);
        }
        freed
    }

    /// Receive a reassembled reliable message of `count` fragments. Returns
    /// the messages that are now deliverable.
    pub fn receive_reassembled(&mut self, start: u16, count: u32, data: Bytes) -> (out: Vec<Bytes>)
        requires
            old(self).wf(),
        ensures
            final(self).wf(),
            final(self)@ == old(self)@.receive_reassembled(start, count, buffer::content(data)).0,
            contents(out@) == old(self)@.receive_reassembled(start, count, buffer::content(data)).1,
    {
        self.receive_counted(start, count, data)
    }

    /// Receive a fragment. Returns the message if this completes it.
    pub fn store_fragment(&mut self, f: &SendFragmentCmd, reliable: bool) -> (r: Option<Bytes>)
        requires
            old(self).wf(),
            f.total_length <= isize::MAX,
        ensures
            final(self).wf(),
            final(self)@ == old(self)@.store_fragment(f@, reliable),
            r is Some <==> old(self)@.completes(f@, reliable),
            r matches Some(d) ==> buffer::content(d) == old(self)@.reassembled(f@, reliable).buf,
    {
        let ghost before = *self;
        let k: u32 = key_of(f.start_seq, reliable);
        let mut buf = match self.fragment_buffers.remove(&k) {
            Some(b) => b,
            None => FragmentBuffer::new(f.total_length as usize, f.fragment_count),
        };
        assert(buf@ == before@.reassembly(f@, reliable));
        let done: bool = buf.receive(
            f.fragment_number,
            f.fragment_offset as usize,
            buffer::as_slice(&f.data),
        );
        if done {
            assert(self@.fragments =~= before@.fragments.remove(k));
            Some(buf.finish())
        } else {
            self.fragment_buffers.insert(k, buf);
            assert(self@.fragments =~= before@.fragments.insert(k, buf@));
            None
        }
    }
}

/// The last of `count` sequence numbers behind `seq`.
fn numbers_after(seq: u16, count: u32) -> (r: u16)
    ensures
        r == sequence::seq_plus(seq, count as int),
{
    assert(count as u16 == count % 0x1_0000) by (bit_vector);
    seq.wrapping_add(count as u16)
}

/// Encode a command into bytes (without the datagram header).
pub fn encode_command(
    cmd_type: u8,
    flags: u8,
    channel_id: u8,
    reliable_seq: u16,
    body: &CommandBody,
) -> (r: Bytes)
    requires
        4 + command::body_bytes(body@).len() <= isize::MAX,
    ensures
        buffer::content(r) == encoded(cmd_type, flags, channel_id, reliable_seq, body@),
{
    let mut buf = BytesMut::with_capacity(64);
    buf.extend_from_slice(&[cmd_type | flags, channel_id]);
    buf.extend_from_slice(&wire::to_be16(reliable_seq));
    body.write(&mut buf);
    let r = buf.freeze();
    reveal(encoded);
    assert(buffer::content(r) =~= encoded(cmd_type, flags, channel_id, reliable_seq, body@));
    r
}

/// The command whose command byte is `cmd_type` with `flags`.
pub open spec fn command_of(
    cmd_type: u8,
    flags: u8,
    channel_id: u8,
    reliable_seq: u16,
    body: command::BodyView,
) -> command::CommandView {
    command::CommandView {
        header: CommandHeader { command: cmd_type | flags, channel_id, reliable_seq },
        body,
    }
}

/// The bytes of the command whose command byte is `cmd_type` with `flags`.
#[verifier::opaque]
pub open spec fn encoded(
    cmd_type: u8,
    flags: u8,
    channel_id: u8,
    reliable_seq: u16,
    body: command::BodyView,
) -> Seq<u8> {
    command::command_bytes(command_of(cmd_type, flags, channel_id, reliable_seq, body))
}

/// A command has a header of four bytes in front of its body.
pub proof fn lemma_encoded_len(
    cmd_type: u8,
    flags: u8,
    channel_id: u8,
    reliable_seq: u16,
    body: command::BodyView,
)
    ensures
        encoded(cmd_type, flags, channel_id, reliable_seq, body).len() == 4 + command::body_bytes(
            body,
        ).len(),
{
    reveal(encoded);
}

/// Draining leaves a part of the queue.
pub proof fn lemma_drain_bounds(seq: u16, queue: Map<u16, HeldView>)
    requires
        queue.dom().finite(),
    ensures
        drain(seq, queue).queue.dom().finite(),
        drain(seq, queue).queue.len() <= queue.len(),
    decreases queue.dom().len(),
{
    let next = sequence::seq_next(seq);
    if queue.contains_key(next) {
        lemma_drain_bounds(
            sequence::seq_plus(seq, queue[next].count as int),
            queue.remove(next),
        );
    }
}

/// Giving reassemblies up keeps a channel within its bounds.
pub proof fn lemma_without_wf(c: ChannelView, all: bool)
    requires
        c.wf(),
    ensures
        c.without_unreliable(all).wf(),
        c.without_unreliable(all).fragments.len() <= c.fragments.len(),
{
    let d = c.without_unreliable(all);
    assert(d.fragments.dom().subset_of(c.fragments.dom()));
    vstd::set_lib::lemma_len_subset(d.fragments.dom(), c.fragments.dom());
    assert forall|k: u32| #[trigger] d.fragments.contains_key(k) implies k < 0x2_0000 by {
        assert(c.fragments.contains_key(k));
    }
}

/// Law: receiving keeps a channel within its bounds and leaves the
/// reassemblies of reliable messages alone.
pub proof fn lemma_receive_wf(c: ChannelView, seq: u16, count: u32, data: Seq<u8>)
    requires
        c.wf(),
    ensures
        c.receive_counted(seq, count, data).0.wf(),
        c.receive_counted(seq, count, data).0.fragments == c.fragments,
        c.receive_reliable(seq, data).0.wf(),
        c.receive_reliable(seq, data).0.fragments == c.fragments,
        c.receive_reassembled(seq, count, data).0.wf(),
        c.receive_reassembled(seq, count, data).0.fragments == c.fragments,
        c.receive_unreliable(seq).wf(),
        c.receive_unreliable(seq).fragments == c.fragments,
        c.take_unreliable(seq).wf(),
        c.take_unreliable(seq).fragments.len() <= c.fragments.len(),
{
    lemma_without_wf(c.receive_unreliable(seq), false);
    lemma_drain_bounds(sequence::seq_plus(c.incoming_reliable_seq, count as int), c.queue);
    lemma_drain_bounds(sequence::seq_plus(c.incoming_reliable_seq, 1), c.queue);
}

} // verus!
