//! The bytes that reassemblies hold.

use vstd::prelude::*;

use crate::channel;
use crate::channel::ChannelView;

verus! {

/// The bytes of the reassembly of message `k`, if there is one.
pub open spec fn held_at(fragments: Map<u32, channel::fragment::ReassemblyView>, k: u32) -> int {
    if fragments.contains_key(k) {
        fragments[k].buf.len() as int
    } else {
        0
    }
}

/// The bytes of the reassemblies with a number below `n`.
pub open spec fn held_below(
    fragments: Map<u32, channel::fragment::ReassemblyView>,
    n: nat,
) -> int
    decreases n,
{
    if n == 0 {
        0
    } else {
        held_below(fragments, (n - 1) as nat) + held_at(fragments, (n - 1) as u32)
    }
}

/// The bytes of all reassemblies of a channel, reliable and unreliable ones.
pub open spec fn held(fragments: Map<u32, channel::fragment::ReassemblyView>) -> int {
    held_below(fragments, 0x2_0000)
}

/// The bytes of all reassemblies of all channels.
pub open spec fn total_held(channels: Seq<ChannelView>) -> int
    decreases channels.len(),
{
    if channels.len() == 0 {
        0
    } else {
        total_held(channels.drop_last()) + held(channels.last().fragments)
    }
}

proof fn lemma_held_below_changed(
    a: Map<u32, channel::fragment::ReassemblyView>,
    b: Map<u32, channel::fragment::ReassemblyView>,
    k: u32,
    n: nat,
)
    requires
        n <= 0x2_0000,
        forall|j: u32| j != k ==> held_at(a, j) == #[trigger] held_at(b, j),
    ensures
        held_below(b, n) == held_below(a, n) + if k < n {
            held_at(b, k) - held_at(a, k)
        } else {
            0
        },
    decreases n,
{
    if n > 0 {
        lemma_held_below_changed(a, b, k, (n - 1) as nat);
    }
}

/// Where the reassemblies of two channels differ in one message, their bytes
/// differ by that message.
pub proof fn lemma_held_changed(
    a: Map<u32, channel::fragment::ReassemblyView>,
    b: Map<u32, channel::fragment::ReassemblyView>,
    k: u32,
)
    requires
        k < 0x2_0000,
        forall|j: u32| j != k ==> held_at(a, j) == #[trigger] held_at(b, j),
    ensures
        held(b) == held(a) + held_at(b, k) - held_at(a, k),
{
    lemma_held_below_changed(a, b, k, 0x2_0000);
}

/// A change to one channel changes the total by the change in that channel.
pub proof fn lemma_total_held_changed(channels: Seq<ChannelView>, i: int, c: ChannelView)
    requires
        0 <= i < channels.len(),
    ensures
        total_held(channels.update(i, c)) == total_held(channels) + held(c.fragments) - held(
            channels[i].fragments,
        ),
    decreases channels.len(),
{
    let after = channels.update(i, c);
    if i == channels.len() - 1 {
        assert(after.drop_last() =~= channels.drop_last());
    } else {
        assert(after.drop_last() =~= channels.drop_last().update(i, c));
        lemma_total_held_changed(channels.drop_last(), i, c);
    }
}

/// Reassemblies hold no negative number of bytes, each no more than all.
pub proof fn lemma_held_part(
    fragments: Map<u32, channel::fragment::ReassemblyView>,
    k: u32,
)
    requires
        k < 0x2_0000,
    ensures
        0 <= held_at(fragments, k) <= held(fragments),
{
    lemma_held_below_part(fragments, k, 0x2_0000);
}

proof fn lemma_held_below_part(
    fragments: Map<u32, channel::fragment::ReassemblyView>,
    k: u32,
    n: nat,
)
    ensures
        0 <= held_below(fragments, n),
        k < n ==> held_at(fragments, k) <= held_below(fragments, n),
    decreases n,
{
    if n > 0 {
        lemma_held_below_part(fragments, k, (n - 1) as nat);
    }
}

/// Where no reassembly holds more, all of them do not.
pub proof fn lemma_held_less(
    a: Map<u32, channel::fragment::ReassemblyView>,
    b: Map<u32, channel::fragment::ReassemblyView>,
)
    requires
        forall|k: u32| #[trigger] held_at(b, k) <= held_at(a, k),
    ensures
        held(b) <= held(a),
{
    lemma_held_below_less(a, b, 0x2_0000);
}

proof fn lemma_held_below_less(
    a: Map<u32, channel::fragment::ReassemblyView>,
    b: Map<u32, channel::fragment::ReassemblyView>,
    n: nat,
)
    requires
        forall|k: u32| #[trigger] held_at(b, k) <= held_at(a, k),
    ensures
        held_below(b, n) <= held_below(a, n),
    decreases n,
{
    if n > 0 {
        lemma_held_below_less(a, b, (n - 1) as nat);
    }
}

/// Giving reassemblies up frees memory.
pub proof fn lemma_without_held(c: ChannelView, all: bool)
    ensures
        held(c.without_unreliable(all).fragments) <= held(c.fragments),
{
    let d = c.without_unreliable(all);
    assert forall|k: u32| #[trigger] held_at(d.fragments, k) <= held_at(c.fragments, k) by {}
    lemma_held_less(c.fragments, d.fragments);
}

/// Where no channel holds more, all of them do not.
pub proof fn lemma_total_held_less(a: Seq<ChannelView>, b: Seq<ChannelView>)
    requires
        a.len() == b.len(),
        forall|i: int| 0 <= i < a.len() ==> held((#[trigger] b[i]).fragments) <= held(
            a[i].fragments,
        ),
    ensures
        total_held(b) <= total_held(a),
    decreases a.len(),
{
    if a.len() > 0 {
        assert forall|i: int| 0 <= i < a.len() - 1 implies held(
            (#[trigger] b.drop_last()[i]).fragments,
        ) <= held(a.drop_last()[i].fragments) by {
            assert(held(b[i].fragments) <= held(a[i].fragments));
        }
        lemma_total_held_less(a.drop_last(), b.drop_last());
        assert(held(b[b.len() - 1].fragments) <= held(a[b.len() - 1].fragments));
    }
}

/// A channel holds no more than all channels.
pub proof fn lemma_total_held_part(channels: Seq<ChannelView>, i: int)
    requires
        0 <= i < channels.len(),
    ensures
        0 <= held(channels[i].fragments) <= total_held(channels),
    decreases channels.len(),
{
    lemma_total_held_nonnegative(channels);
    lemma_held_part(channels[i].fragments, 0);
    lemma_held_part(channels.last().fragments, 0);
    if i < channels.len() - 1 {
        lemma_total_held_part(channels.drop_last(), i);
        assert(channels.drop_last()[i] == channels[i]);
    } else {
        lemma_total_held_nonnegative(channels.drop_last());
    }
}

proof fn lemma_total_held_nonnegative(channels: Seq<ChannelView>)
    ensures
        0 <= total_held(channels),
    decreases channels.len(),
{
    if channels.len() > 0 {
        lemma_total_held_nonnegative(channels.drop_last());
        lemma_held_part(channels.last().fragments, 0);
    }
}

/// Channels without reassemblies hold nothing.
pub proof fn lemma_fresh_held(n: nat)
    ensures
        total_held(Seq::new(n, |i: int| ChannelView::fresh())) == 0,
    decreases n,
{
    let s = Seq::new(n, |i: int| ChannelView::fresh());
    if n > 0 {
        assert(s.drop_last() =~= Seq::new((n - 1) as nat, |i: int| ChannelView::fresh()));
        lemma_fresh_held((n - 1) as nat);
        lemma_held_below_empty(0x2_0000);
    }
}

proof fn lemma_held_below_empty(n: nat)
    ensures
        held_below(Map::empty(), n) == 0,
    decreases n,
{
    if n > 0 {
        lemma_held_below_empty((n - 1) as nat);
    }
}

/// Law: channels without reassemblies hold nothing.
pub proof fn lemma_nothing_held(channels: Seq<ChannelView>)
    requires
        forall|i: int|
            0 <= i < channels.len() ==> (#[trigger] channels[i]).fragments == Map::<
                u32,
                channel::fragment::ReassemblyView,
            >::empty(),
    ensures
        total_held(channels) == 0,
    decreases channels.len(),
{
    if channels.len() > 0 {
        let front = channels.drop_last();
        assert forall|i: int| 0 <= i < front.len() implies (#[trigger] front[i]).fragments == Map::<
            u32,
            channel::fragment::ReassemblyView,
        >::empty() by {
            assert(front[i] == channels[i]);
        }
        lemma_nothing_held(front);
        lemma_held_below_empty(0x2_0000);
        assert(channels[channels.len() - 1].fragments == Map::<
            u32,
            channel::fragment::ReassemblyView,
        >::empty());
    }
}

} // verus!
