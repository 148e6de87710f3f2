//! Duplicate detection for unsequenced packets.

use vstd::prelude::*;

use crate::protocol::sequence;

verus! {

/// A sliding window over the 1024 most recent unsequenced groups.
pub struct UnsequencedWindow {
    pub window: [u32; 32],
    pub group: u16,
}

/// The highest group so far and those seen of the 1024 groups up to it.
#[verifier::ext_equal]
pub struct UnsequencedView {
    pub group: u16,
    pub seen: Set<u16>,
}

/// How many groups the window covers.
pub const WINDOW_GROUPS: u16 = 1024;

/// Bit `i` of a bitmask of 32-bit words.
pub open spec fn window_bit(window: Seq<u32>, i: int) -> bool {
    window[i / 32] & (1u32 << ((i % 32) as u32)) != 0
}

/// Whether `g` is one of the 1024 groups up to `high`.
pub open spec fn in_window(high: u16, g: u16) -> bool {
    sequence::seq_distance(g, high) < WINDOW_GROUPS
}

impl UnsequencedView {
    /// Nothing seen yet.
    pub open spec fn fresh() -> Self {
        UnsequencedView { group: 0, seen: Set::empty() }
    }

    /// Whether a packet of group `g` is new: it is ahead of all groups so
    /// far, or within the window and not seen.
    pub open spec fn accepts(self, g: u16) -> bool {
        sequence::seq_before(self.group, g) || (in_window(self.group, g) && !self.seen.contains(g))
    }

    /// The window after a packet of group `g`.
    pub open spec fn receive(self, g: u16) -> Self {
        if sequence::seq_before(self.group, g) {
            UnsequencedView {
                group: g,
                seen: self.seen.filter(|x: u16| in_window(g, x)).insert(g),
            }
        } else if in_window(self.group, g) {
            UnsequencedView { group: self.group, seen: self.seen.insert(g) }
        } else {
            self
        }
    }
}

impl View for UnsequencedWindow {
    type V = UnsequencedView;

    open spec fn view(&self) -> UnsequencedView {
        UnsequencedView {
            group: self.group,
            seen: Set::new(
                |x: u16| in_window(self.group, x) && window_bit(self.window@, x as int % 1024),
            ),
        }
    }
}

proof fn lemma_bits(w: u32, b: u32, j: u32)
    by (bit_vector)
    requires
        b < 32,
        j < 32,
    ensures
        ((w | (1u32 << b)) & (1u32 << j) != 0) == (j == b || w & (1u32 << j) != 0),
        ((w & !(1u32 << b)) & (1u32 << j) != 0) == (j != b && w & (1u32 << j) != 0),
        0u32 & (1u32 << j) == 0,
{
}

/// Whether slot `idx` is recycled when the window moves `n` groups ahead.
spec fn recycled(group: u16, n: int, idx: int) -> bool {
    1 <= (idx - group) % 1024 <= n
}

impl UnsequencedWindow {
    /// A window that has seen nothing.
    pub fn new() -> (r: Self)
        ensures
            r@ == UnsequencedView::fresh(),
    {
        let r = Self { window: [0u32; 32], group: 0 };
        proof {
            assert forall|i: int| 0 <= i < 1024 implies !window_bit(r.window@, i) by {
                lemma_bits(0, 0, (i % 32) as u32);
            }
            assert(r@.seen =~= Set::empty());
        }
        r
    }

    /// Makes room for the `n` groups after the highest one.
    fn recycle(&mut self, n: u16)
        requires
            n < 1024,
        ensures
            final(self).group == old(self).group,
            forall|i: int|
                0 <= i < 1024 ==> #[trigger] window_bit(final(self).window@, i) == (window_bit(
                    old(self).window@,
                    i,
                ) && !recycled(old(self).group, n as int, i)),
    {
        let mut k: u16 = 0;
        while k < n
            invariant
                k <= n < 1024,
                self.group == old(self).group,
                forall|i: int|
                    0 <= i < 1024 ==> #[trigger] window_bit(self.window@, i) == (window_bit(
                        old(self).window@,
                        i,
                    ) && !recycled(old(self).group, k as int, i)),
            decreases n - k,
        {
            let ghost before = self.window@;
            k += 1;
            let pos: u16 = self.group.wrapping_add(k);
            let idx: usize = pos as usize % 1024;
            let w: u32 = self.window[idx / 32];
            let b: u32 = (idx % 32) as u32;
            self.window[idx / 32] = w & !(1u32 << b);
            assert forall|i: int| 0 <= i < 1024 implies #[trigger] window_bit(self.window@, i) == (
            window_bit(old(self).window@, i) && !recycled(old(self).group, k as int, i)) by {
                lemma_bits(w, b, (i % 32) as u32);
                assert(window_bit(before, i) == (window_bit(old(self).window@, i) && !recycled(
                    old(self).group,
                    k - 1,
                    i,
                )));
                assert(window_bit(self.window@, i) == (i != idx && window_bit(before, i)));
                assert((i == idx) == ((i - self.group) % 1024 == k));
            }
        }
    }

    /// Moves the window so that `group` is its highest group.
    fn advance(&mut self, group: u16)
        requires
            sequence::seq_before(old(self).group, group),
        ensures
            final(self)@.group == group,
            final(self)@.seen == old(self)@.seen.filter(|x: u16| in_window(group, x)),
    {
        let ahead: u16 = group.wrapping_sub(self.group);
        if ahead >= WINDOW_GROUPS {
            self.window = [0u32; 32];
            proof {
                assert forall|i: int| 0 <= i < 1024 implies !window_bit(self.window@, i) by {
                    lemma_bits(0, 0, (i % 32) as u32);
                }
            }
        } else {
            self.recycle(ahead);
        }
        self.group = group;
        assert forall|x: u16| self@.seen.contains(x) == (old(self)@.seen.contains(x) && in_window(
            group,
            x,
        )) by {
            lemma_recycled(old(self).group, group, x);
        }
        assert(self@.seen =~= old(self)@.seen.filter(|x: u16| in_window(group, x)));
    }

    /// Marks a group of the window as seen. Returns whether it was not.
    fn mark(&mut self, group: u16) -> (fresh: bool)
        requires
            in_window(old(self).group, group),
        ensures
            fresh == !old(self)@.seen.contains(group),
            final(self)@.group == old(self)@.group,
            final(self)@.seen == old(self)@.seen.insert(group),
    {
        let ghost before = *self;
        let idx: usize = group as usize % 1024;
        let word: usize = idx / 32;
        let b: u32 = (idx % 32) as u32;
        let w: u32 = self.window[word];
        if w & (1u32 << b) != 0 {
            assert(before@.seen.insert(group) =~= before@.seen);
            return false;
        }
        self.window[word] = w | (1u32 << b);
        assert forall|x: u16| #[trigger] self@.seen.contains(x) == before@.seen.insert(
            group,
        ).contains(x) by {
            lemma_bits(w, b, ((x as int % 1024) % 32) as u32);
            if in_window(self.group, x) && x as int % 1024 == idx {
                lemma_slots(self.group, x, group);
            }
        }
        assert(self@.seen =~= before@.seen.insert(group));
        true
    }

    /// Returns true if the packet with this group is new (not a duplicate).
    ///
    /// `self.group` tracks the highest received group (high-water mark).
    /// The window covers the 1024 most recent group values.
    pub fn check_and_set(&mut self, group: u16) -> (fresh: bool)
        ensures
            fresh == old(self)@.accepts(group),
            final(self)@ == old(self)@.receive(group),
    {
        let ahead: u16 = group.wrapping_sub(self.group);
        if 0 < ahead && ahead < 0x8000 {
            self.advance(group);
            assert(!self@.seen.contains(group));
        } else if ahead != 0 {
            let behind: u16 = self.group.wrapping_sub(group);
            if behind >= WINDOW_GROUPS {
                return false;  // Too old: outside the window.
            }
        }
        self.mark(group)
    }
}

/// When the window moves from `old_high` to `high`, the slots that are
/// recycled are those of the groups that come in.
#[verifier::rlimit(30)]
proof fn lemma_recycled(old_high: u16, high: u16, x: u16)
    requires
        sequence::seq_before(old_high, high),
    ensures
        in_window(high, x) && sequence::seq_distance(old_high, high) < WINDOW_GROUPS ==> recycled(
            old_high,
            sequence::seq_distance(old_high, high),
            x as int % 1024,
        ) == !in_window(old_high, x),
        in_window(high, x) && sequence::seq_distance(old_high, high) >= WINDOW_GROUPS
            ==> !in_window(old_high, x),
{
}

/// The groups of a window have slots of their own.
proof fn lemma_slots(high: u16, x: u16, y: u16)
    requires
        in_window(high, x),
        in_window(high, y),
        x as int % 1024 == y as int % 1024,
    ensures
        x == y,
{
}

/// Law: a group that was taken is not taken again as long as the window
/// still covers it.
pub proof fn lemma_no_duplicate(w: UnsequencedView, g: u16)
    requires
        w.accepts(g),
    ensures
        !w.receive(g).accepts(g),
        w.receive(g).seen.contains(g),
{
}

/// Law: once a group was seen, a later packet of another group leaves it seen
/// or pushes it out of the window, and either way it is not taken again.
pub proof fn lemma_seen_stays(w: UnsequencedView, g: u16, other: u16)
    requires
        w.seen.contains(g),
        in_window(w.group, g),
        sequence::seq_distance(g, w.receive(other).group) < 0x8000,
    ensures
        !w.receive(other).accepts(g),
        in_window(w.receive(other).group, g) ==> w.receive(other).seen.contains(g),
{
}

} // verus!
