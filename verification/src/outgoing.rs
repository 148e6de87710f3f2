//! Reliable commands in flight, in the order of channel and sequence number.

use vstd::prelude::*;

use bytes::Bytes;

use crate::buffer;
use crate::protocol::{TIMEOUT_MAXIMUM_MS, TIMEOUT_MINIMUM_MS};

verus! {

/// A reliable command that was sent and not acknowledged yet.
#[derive(Debug)]
pub struct OutstandingReliable {
    pub reliable_seq: u16,
    pub channel_id: u8,
    /// Time of the original (first) transmission: used for absolute timeout checks.
    pub original_sent_time: u32,
    /// Time of the most recent transmission: reset on each retransmit.
    pub sent_time: u32,
    pub rtt_timeout: u32,
    pub send_attempts: u32,
    pub packet_bytes: Bytes,
}

/// An outstanding command with its bytes as a sequence.
#[verifier::ext_equal]
pub struct OutView {
    pub reliable_seq: u16,
    pub channel_id: u8,
    pub original_sent_time: u32,
    pub sent_time: u32,
    pub rtt_timeout: u32,
    pub send_attempts: u32,
    pub packet_bytes: Seq<u8>,
}

impl View for OutstandingReliable {
    type V = OutView;

    open spec fn view(&self) -> OutView {
        OutView {
            reliable_seq: self.reliable_seq,
            channel_id: self.channel_id,
            original_sent_time: self.original_sent_time,
            sent_time: self.sent_time,
            rtt_timeout: self.rtt_timeout,
            send_attempts: self.send_attempts,
            packet_bytes: buffer::content(self.packet_bytes),
        }
    }
}

/// How many milliseconds `now` is after `then`, on a clock that wraps.
pub open spec fn elapsed(now: u32, then: u32) -> int {
    (now - then) % 0x1_0000_0000
}

/// The order of channel and sequence number as one number.
pub open spec fn rank(channel_id: u8, seq: u16) -> int {
    channel_id * 0x1_0000 + seq
}

impl OutView {
    pub open spec fn rank(self) -> int {
        rank(self.channel_id, self.reliable_seq)
    }

    /// No acknowledgement came within the command's timeout.
    pub open spec fn due(self, now: u32) -> bool {
        elapsed(now, self.sent_time) >= self.rtt_timeout
    }

    /// The peer is given up on: the command is outstanding for the maximum
    /// time, or for the minimum time after enough attempts (six of them: 2
    /// to the power of the retransmissions reaches the limit of 32).
    pub open spec fn expired(self, now: u32) -> bool {
        let e = elapsed(now, self.original_sent_time);
        e >= TIMEOUT_MAXIMUM_MS || (self.send_attempts >= 6 && e >= TIMEOUT_MINIMUM_MS)
    }

    /// The command after a retransmission: the timeout doubles.
    pub open spec fn retried(self, now: u32) -> OutView {
        OutView {
            send_attempts: (self.send_attempts + 1) as u32,
            rtt_timeout: (self.rtt_timeout * 2) as u32,
            sent_time: now,
            ..self
        }
    }

    /// Another attempt can be counted.
    pub open spec fn retry_fits(self) -> bool {
        self.send_attempts <= 32 && self.rtt_timeout * 2 <= u32::MAX
    }

    /// The command after a service at `now`.
    pub open spec fn serviced(self, now: u32) -> OutView {
        if self.due(now) {
            self.retried(now)
        } else {
            self
        }
    }
}

/// Outstanding commands in strictly increasing order.
pub open spec fn sorted(s: Seq<OutView>) -> bool {
    forall|i: int, j: int|
        0 <= i < j < s.len() ==> (#[trigger] s[i]).rank() < (#[trigger] s[j]).rank()
}

/// `s` with `v` at its place, instead of one with the same channel and
/// number.
pub open spec fn insert(s: Seq<OutView>, v: OutView) -> Seq<OutView>
    decreases s.len(),
{
    if s.len() == 0 || v.rank() < s[0].rank() {
        seq![v] + s
    } else if v.rank() == s[0].rank() {
        seq![v] + s.drop_first()
    } else {
        seq![s[0]] + insert(s.drop_first(), v)
    }
}

/// `s` with all of `items` inserted one after the other.
pub open spec fn insert_all(s: Seq<OutView>, items: Seq<OutView>) -> Seq<OutView>
    decreases items.len(),
{
    if items.len() == 0 {
        s
    } else {
        insert(insert_all(s, items.drop_last()), items.last())
    }
}

/// `s` without the command with this channel and number.
pub open spec fn remove(s: Seq<OutView>, channel_id: u8, seq: u16) -> Seq<OutView> {
    s.filter(|v: OutView| v.rank() != rank(channel_id, seq))
}

/// The views of a vector of outstanding commands.
pub open spec fn views(s: Seq<OutstandingReliable>) -> Seq<OutView> {
    s.map_values(|r: OutstandingReliable| r@)
}

proof fn lemma_insert_at(s: Seq<OutView>, v: OutView, i: int)
    requires
        0 <= i <= s.len(),
        forall|j: int| 0 <= j < i ==> (#[trigger] s[j]).rank() < v.rank(),
        i < s.len() ==> s[i].rank() >= v.rank(),
    ensures
        insert(s, v) == if i < s.len() && s[i].rank() == v.rank() {
            s.update(i, v)
        } else {
            s.insert(i, v)
        },
    decreases s.len(),
{
    if i == 0 {
        if s.len() > 0 && s[0].rank() == v.rank() {
            assert(insert(s, v) =~= s.update(0, v));
        } else {
            assert(insert(s, v) =~= s.insert(0, v));
        }
    } else {
        let t = s.drop_first();
        assert forall|j: int| 0 <= j < i - 1 implies (#[trigger] t[j]).rank() < v.rank() by {
            assert(t[j] == s[j + 1]);
        }
        lemma_insert_at(t, v, i - 1);
        if i < s.len() && s[i].rank() == v.rank() {
            assert(seq![s[0]] + t.update(i - 1, v) =~= s.update(i, v));
        } else {
            assert(seq![s[0]] + t.insert(i - 1, v) =~= s.insert(i, v));
        }
    }
}

/// Inserting keeps the order.
pub proof fn lemma_insert_sorted(s: Seq<OutView>, v: OutView)
    requires
        sorted(s),
    ensures
        sorted(insert(s, v)),
        forall|i: int|
            0 <= i < insert(s, v).len() ==> #[trigger] insert(s, v)[i] == v || s.contains(
                insert(s, v)[i],
            ),
        insert(s, v).contains(v),
{
    let i = first_at_least(s, v.rank());
    lemma_first_at_least(s, v.rank());
    lemma_insert_at(s, v, i);
    let t = insert(s, v);
    assert(t[i] == v);
    assert forall|j: int| 0 <= j < t.len() implies #[trigger] t[j] == v || s.contains(t[j]) by {
        if j < i {
            assert(t[j] == s[j]);
        } else if j > i {
            assert(t[j] == s[j] || t[j] == s[j - 1]);
        }
    }
}

/// What is there after an insertion was inserted, or was there before.
pub proof fn lemma_insert_members(s: Seq<OutView>, v: OutView, i: int)
    requires
        0 <= i < insert(s, v).len(),
    ensures
        insert(s, v)[i] == v || s.contains(insert(s, v)[i]),
    decreases s.len(),
{
    let t = insert(s, v);
    if s.len() == 0 {
    } else if v.rank() <= s[0].rank() {
        if i > 0 {
            let j = if v.rank() < s[0].rank() {
                i - 1
            } else {
                i
            };
            assert(t[i] == s[j]);
        }
    } else if i == 0 {
        assert(t[0] == s[0]);
    } else {
        let rest = s.drop_first();
        lemma_insert_members(rest, v, i - 1);
        assert(t[i] == insert(rest, v)[i - 1]);
        if t[i] != v {
            let j = choose|j: int| 0 <= j < rest.len() && rest[j] == t[i];
            assert(s[j + 1] == t[i]);
        }
    }
}

/// What was inserted is there.
pub proof fn lemma_insert_contains(s: Seq<OutView>, v: OutView)
    ensures
        insert(s, v).contains(v),
    decreases s.len(),
{
    let t = insert(s, v);
    if s.len() == 0 || v.rank() <= s[0].rank() {
        assert(t[0] == v);
    } else {
        let rest = s.drop_first();
        lemma_insert_contains(rest, v);
        let j = choose|j: int| 0 <= j < insert(rest, v).len() && insert(rest, v)[j] == v;
        assert(t[j + 1] == v);
    }
}

spec fn first_at_least(s: Seq<OutView>, r: int) -> int
    decreases s.len(),
{
    if s.len() == 0 || s[0].rank() >= r {
        0
    } else {
        1 + first_at_least(s.drop_first(), r)
    }
}

proof fn lemma_first_at_least(s: Seq<OutView>, r: int)
    requires
        sorted(s),
    ensures
        0 <= first_at_least(s, r) <= s.len(),
        forall|j: int| 0 <= j < first_at_least(s, r) ==> (#[trigger] s[j]).rank() < r,
        first_at_least(s, r) < s.len() ==> s[first_at_least(s, r)].rank() >= r,
        forall|j: int| first_at_least(s, r) < j < s.len() ==> (#[trigger] s[j]).rank() > r,
    decreases s.len(),
{
    if s.len() > 0 && s[0].rank() < r {
        let t = s.drop_first();
        lemma_first_at_least(t, r);
        let i = first_at_least(t, r);
        assert forall|j: int| 0 <= j < i + 1 implies (#[trigger] s[j]).rank() < r by {
            if j > 0 {
                assert(s[j] == t[j - 1]);
            }
        }
    }
}

proof fn lemma_remove_at(s: Seq<OutView>, channel_id: u8, seq: u16, i: int)
    requires
        sorted(s),
        0 <= i < s.len(),
        s[i].rank() == rank(channel_id, seq),
    ensures
        remove(s, channel_id, seq) == s.remove(i),
{
    let keep = |v: OutView| v.rank() != rank(channel_id, seq);
    let front = s.take(i);
    let back = s.skip(i + 1);
    assert(s =~= (front + seq![s[i]]) + back);
    Seq::filter_distributes_over_add(front + seq![s[i]], back, keep);
    Seq::filter_distributes_over_add(front, seq![s[i]], keep);
    lemma_filter_all(front, keep);
    lemma_filter_all(back, keep);
    assert(seq![s[i]].filter(keep) =~= Seq::empty()) by {
        reveal_with_fuel(Seq::filter, 2);
        let one = seq![s[i]];
        assert(one.drop_last() =~= Seq::empty());
        assert(one.last() == s[i]);
        assert(!keep(s[i]));
    }
    assert(front + Seq::empty() + back =~= s.remove(i));
}

proof fn lemma_filter_all(s: Seq<OutView>, keep: spec_fn(OutView) -> bool)
    requires
        forall|j: int| 0 <= j < s.len() ==> keep(#[trigger] s[j]),
    ensures
        s.filter(keep) == s,
    decreases s.len(),
{
    reveal(Seq::filter);
    if s.len() > 0 {
        lemma_filter_all(s.drop_last(), keep);
        assert(s =~= s.drop_last().push(s.last()));
    }
}

/// Removing keeps the order, and what is left was there.
pub proof fn lemma_remove_sorted(s: Seq<OutView>, channel_id: u8, seq: u16)
    requires
        sorted(s),
    ensures
        sorted(remove(s, channel_id, seq)),
        forall|i: int|
            0 <= i < remove(s, channel_id, seq).len() ==> s.contains(
                #[trigger] remove(s, channel_id, seq)[i],
            ),
{
    let r = rank(channel_id, seq);
    let i = first_at_least(s, r);
    lemma_first_at_least(s, r);
    if i < s.len() && s[i].rank() == r {
        lemma_remove_at(s, channel_id, seq, i);
        let t = s.remove(i);
        assert forall|j: int| 0 <= j < t.len() implies s.contains(#[trigger] t[j]) by {
            if j < i {
                assert(t[j] == s[j]);
            } else {
                assert(t[j] == s[j + 1]);
            }
        }
    } else {
        assert forall|j: int| 0 <= j < s.len() implies (#[trigger] s[j]).rank() != r by {}
        lemma_filter_all(s, |v: OutView| v.rank() != r);
    }
}

/// Puts a command at its place, instead of one with the same channel and
/// number.
pub fn insert_outstanding(items: &mut Vec<OutstandingReliable>, r: OutstandingReliable)
    requires
        sorted(views(old(items)@)),
    ensures
        views(final(items)@) == insert(views(old(items)@), r@),
        sorted(views(final(items)@)),
{
    let ghost before = views(items@);
    let mut i: usize = 0;
    while i < items.len() && rank_less(&items[i], &r)
        invariant
            i <= items@.len(),
            items@ == old(items)@,
            before == views(items@),
            forall|j: int| 0 <= j < i ==> (#[trigger] before[j]).rank() < r@.rank(),
        decreases items@.len() - i,
    {
        i += 1;
    }
    proof {
        if i < items@.len() {
            assert(before[i as int] == items@[i as int]@);
        }
        lemma_insert_at(before, r@, i as int);
        lemma_insert_sorted(before, r@);
    }
    if i < items.len() && items[i].channel_id == r.channel_id && items[i].reliable_seq
        == r.reliable_seq {
        items.set(i, r);
        assert(views(items@) =~= before.update(i as int, r@));
    } else {
        items.insert(i, r);
        assert(views(items@) =~= before.insert(i as int, r@));
    }
}

fn rank_less(a: &OutstandingReliable, b: &OutstandingReliable) -> (r: bool)
    ensures
        r == (a@.rank() < b@.rank()),
{
    a.channel_id < b.channel_id || (a.channel_id == b.channel_id && a.reliable_seq
        < b.reliable_seq)
}

/// Takes out the command with this channel and number, if it is there.
pub fn remove_outstanding(items: &mut Vec<OutstandingReliable>, channel_id: u8, seq: u16)
    requires
        sorted(views(old(items)@)),
    ensures
        views(final(items)@) == remove(views(old(items)@), channel_id, seq),
        sorted(views(final(items)@)),
{
    let ghost before = views(items@);
    proof {
        lemma_remove_sorted(before, channel_id, seq);
    }
    let mut i: usize = 0;
    while i < items.len()
        invariant
            i <= items@.len(),
            items@ == old(items)@,
            before == views(items@),
            sorted(before),
            sorted(remove(before, channel_id, seq)),
            forall|j: int| 0 <= j < i ==> (#[trigger] before[j]).rank() != rank(channel_id, seq),
        decreases items@.len() - i,
    {
        if items[i].channel_id == channel_id && items[i].reliable_seq == seq {
            assert(before[i as int] == items@[i as int]@);
            proof {
                lemma_remove_at(before, channel_id, seq, i as int);
            }
            items.remove(i);
            assert(views(items@) =~= before.remove(i as int));
            return;
        }
        assert(before[i as int].rank() != rank(channel_id, seq)) by {
            assert(before[i as int] == items@[i as int]@);
        }
        i += 1;
    }
    proof {
        lemma_filter_all(before, |v: OutView| v.rank() != rank(channel_id, seq));
    }
}

/// Law: after an acknowledgement the command is no longer outstanding, and
/// every other one still is.
pub proof fn lemma_acknowledged(s: Seq<OutView>, channel_id: u8, seq: u16, v: OutView)
    ensures
        remove(s, channel_id, seq).contains(v) <==> s.contains(v) && !(v.channel_id == channel_id
            && v.reliable_seq == seq),
{
    let keep = |v: OutView| v.rank() != rank(channel_id, seq);
    lemma_filter_contains(s, keep, v);
}

proof fn lemma_filter_contains(s: Seq<OutView>, keep: spec_fn(OutView) -> bool, v: OutView)
    ensures
        s.filter(keep).contains(v) <==> s.contains(v) && keep(v),
    decreases s.len(),
{
    reveal(Seq::filter);
    if s.len() > 0 {
        let t = s.drop_last();
        lemma_filter_contains(t, keep, v);
        assert(s =~= t.push(s.last()));
        lemma_push_contains(t, s.last(), v);
        lemma_push_contains(t.filter(keep), s.last(), v);
    }
}

proof fn lemma_push_contains(s: Seq<OutView>, last: OutView, v: OutView)
    ensures
        s.push(last).contains(v) <==> s.contains(v) || v == last,
{
    if s.contains(v) {
        let j = choose|j: int| 0 <= j < s.len() && s[j] == v;
        assert(s.push(last)[j] == v);
    }
    assert(s.push(last)[s.len() as int] == last);
    if s.push(last).contains(v) && v != last {
        let j = choose|j: int| 0 <= j < s.push(last).len() && s.push(last)[j] == v;
        assert(s[j] == v);
    }
}

/// The only command in flight is removed.
pub proof fn lemma_remove_only(v: OutView)
    ensures
        remove(seq![v], v.channel_id, v.reliable_seq) == Seq::<OutView>::empty(),
{
    lemma_remove_at(seq![v], v.channel_id, v.reliable_seq, 0);
    assert(seq![v].remove(0) =~= Seq::empty());
}

/// Law: a command that is added to those in flight is there, in the place of
/// one with the same channel and number, and every other one still is.
pub proof fn lemma_added(s: Seq<OutView>, v: OutView, x: OutView)
    requires
        forall|i: int, j: int|
            0 <= i < j < s.len() ==> (#[trigger] s[i]).channel_id < (#[trigger] s[j]).channel_id || (
            s[i].channel_id == s[j].channel_id && s[i].reliable_seq < s[j].reliable_seq),
    ensures
        insert(s, v).contains(x) <==> x == v || (s.contains(x) && !(x.channel_id == v.channel_id
            && x.reliable_seq == v.reliable_seq)),
    decreases s.len(),
{
    let t = insert(s, v);
    if s.len() == 0 {
        assert(t =~= seq![v]);
        assert(t[0] == v);
        assert(t.contains(x) <==> x == v);
    } else {
        let rest = s.drop_first();
        assert(s =~= seq![s[0]] + rest);
        assert forall|i: int, j: int| 0 <= i < j < rest.len() implies (
        #[trigger] rest[i]).channel_id < (#[trigger] rest[j]).channel_id || (rest[i].channel_id
            == rest[j].channel_id && rest[i].reliable_seq < rest[j].reliable_seq) by {
            assert(s[i + 1] == rest[i] && s[j + 1] == rest[j]);
        }
        lemma_added(rest, v, x);
        lemma_front_contains(s[0], rest, x);
        assert forall|j: int| 0 < j < s.len() implies s[0].rank() < (#[trigger] s[j]).rank() by {
            assert(s[0].channel_id < s[j].channel_id || (s[0].channel_id == s[j].channel_id
                && s[0].reliable_seq < s[j].reliable_seq));
        }
        if v.rank() < s[0].rank() {
            lemma_front_contains(v, s, x);
            if s.contains(x) {
                let j = choose|j: int| 0 <= j < s.len() && s[j] == x;
                assert(x.rank() >= s[0].rank());
            }
        } else if v.rank() == s[0].rank() {
            lemma_front_contains(v, rest, x);
            if rest.contains(x) {
                let j = choose|j: int| 0 <= j < rest.len() && rest[j] == x;
                assert(s[j + 1] == x);
            }
        } else {
            lemma_front_contains(s[0], insert(rest, v), x);
        }
    }
}

proof fn lemma_front_contains(a: OutView, s: Seq<OutView>, x: OutView)
    ensures
        (seq![a] + s).contains(x) <==> x == a || s.contains(x),
{
    let t = seq![a] + s;
    assert(t[0] == a);
    if s.contains(x) {
        let j = choose|j: int| 0 <= j < s.len() && s[j] == x;
        assert(t[j + 1] == x);
    }
    if t.contains(x) {
        let j = choose|j: int| 0 <= j < t.len() && t[j] == x;
        if j > 0 {
            assert(s[j - 1] == x);
        }
    }
}

/// Law: several commands are added one after the other.
pub proof fn lemma_added_all(s: Seq<OutView>, items: Seq<OutView>, v: OutView)
    ensures
        insert_all(s, Seq::empty()) == s,
        insert_all(s, items.push(v)) == insert(insert_all(s, items), v),
{
    assert(items.push(v).drop_last() =~= items);
}

} // verus!
