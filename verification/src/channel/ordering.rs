//! What a channel promises of the order in which messages come out.

use vstd::prelude::*;

use crate::channel;
use crate::channel::fragment;
use crate::channel::{ChannelView, HeldView, MAX_INCOMING_RELIABLE_QUEUE};
use crate::peer::send;
use crate::protocol::sequence;

verus! {

/// Sequence number `i`, where the first one follows `base`.
#[verifier::opaque]
pub open spec fn number_of(base: u16, i: int) -> u16 {
    sequence::seq_plus(base, i + 1)
}

/// Under which number a reliable message is put together.
pub open spec fn at(k: u16) -> u32 {
    channel::reassembly_key(k, true)
}

/// The reliable messages that are sent on a channel, in the order in which
/// they are sent, and how they are cut: one of at most `limit` bytes goes in
/// one piece, a longer one in fragments of `size` bytes. The first sequence
/// number follows `base`.
pub struct Stream {
    pub msgs: Seq<Seq<u8>>,
    pub limit: int,
    pub size: int,
    pub base: u16,
}

/// One piece of a message: the whole of it, or a fragment.
pub struct Piece {
    pub msg: int,
    pub part: int,
}

impl Stream {
    /// Message `i` goes in fragments.
    pub open spec fn split(self, i: int) -> bool {
        self.msgs[i].len() > self.limit
    }

    /// How many pieces, and so sequence numbers, message `i` takes.
    pub open spec fn pieces(self, i: int) -> int {
        if self.split(i) {
            fragment::piece_count(self.msgs[i].len() as int, self.size)
        } else {
            1
        }
    }

    /// How many numbers the first `n` messages take.
    pub open spec fn used(self, n: int) -> int
        decreases n,
    {
        if n <= 0 {
            0
        } else {
            self.used(n - 1) + self.pieces(n - 1)
        }
    }

    /// The first number of message `i`.
    pub open spec fn first(self, i: int) -> u16 {
        number_of(self.base, self.used(i))
    }

    /// The number of a piece.
    pub open spec fn number(self, p: Piece) -> u16 {
        number_of(self.base, self.used(p.msg) + p.part)
    }

    /// The fields of a fragment.
    pub open spec fn fragment(self, p: Piece) -> crate::protocol::command::FragmentView {
        send::fragment_fields(self.msgs[p.msg], self.size, self.first(p.msg), p.part)
    }

    /// A piece of one of the messages.
    pub open spec fn has(self, p: Piece) -> bool {
        0 <= p.msg < self.msgs.len() && 0 <= p.part < self.pieces(p.msg)
    }

    /// Message `i` is within half of the number space of message `n`, where
    /// its number tells whether it is before or behind.
    pub open spec fn near(self, n: int, i: int) -> bool {
        0 <= i < self.msgs.len() && -0x8000 <= self.used(i) - self.used(n) < 0x8000
    }

    /// Message `i` is one of those from `n` on that are near.
    pub open spec fn ahead(self, n: int, i: int) -> bool {
        n <= i && self.near(n, i)
    }

    /// Messages that can be cut.
    pub open spec fn wf(self) -> bool {
        &&& 0 < self.size <= self.limit
        &&& forall|i: int| 0 <= i < self.msgs.len() ==> (#[trigger] self.msgs[i]).len() <= u32::MAX
    }
}

/// Message `i` is among the pieces: each of its pieces is.
pub open spec fn whole(s: Stream, taken: Set<Piece>, i: int) -> bool {
    forall|k: int|
        0 <= k < s.pieces(i) ==> #[trigger] taken.contains(Piece { msg: i, part: k })
}

/// What is held under number `k` is a message behind the first `n`, of which
/// all pieces came.
pub open spec fn held_right(
    s: Stream,
    queue: Map<u16, HeldView>,
    taken: Set<Piece>,
    n: int,
    k: u16,
) -> bool {
    exists|i: int| #[trigger]
        s.first(i) == k && s.ahead(n, i) && queue[k] == (HeldView {
            count: s.pieces(i) as u32,
            data: s.msgs[i],
        }) && whole(s, taken, i)
}

/// What is under reassembly under number `k` is a message behind the first
/// `n`, with fragments that came, but not all of them.
pub open spec fn collected_right(
    s: Stream,
    fragments: Map<u32, fragment::ReassemblyView>,
    taken: Set<Piece>,
    n: int,
    k: u16,
) -> bool {
    exists|i: int| #[trigger]
        s.first(i) == k && s.ahead(n, i) && s.split(i) && fragment::reassembles(
            fragments[at(k)],
            s.msgs[i],
            s.size,
        ) && !fragments[at(k)].complete() && (forall|part: int| #[trigger]
            fragments[at(k)].got.contains(part) ==> taken.contains(Piece { msg: i, part }))
}

/// Fragment `part` of message `i` is under reassembly.
pub open spec fn stored(c: ChannelView, s: Stream, n: int, i: int, part: int) -> bool {
    let k = at(s.first(i));
    s.ahead(n, i) && s.split(i) && c.fragments.contains_key(k) && c.fragments[k].got.contains(part)
}

/// What came of message `i` is kept: it is held whole, or the pieces that came
/// are under reassembly. Of a message that is far ahead nothing came.
pub open spec fn kept(c: ChannelView, s: Stream, taken: Set<Piece>, n: int, i: int) -> bool {
    (s.ahead(n, i) && c.queue.contains_key(s.first(i))) || (forall|part: int| #[trigger]
        taken.contains(Piece { msg: i, part }) ==> stored(c, s, n, i, part))
}

/// The state of a channel from which the first `n` messages came out, when the
/// pieces in `taken` came.
pub open spec fn follows(c: ChannelView, s: Stream, taken: Set<Piece>, n: int) -> bool {
    &&& 0 <= n <= s.msgs.len()
    &&& c.wf()
    &&& c.expected() == s.first(n)
    &&& !c.queue.contains_key(s.first(n))
    &&& forall|k: u16| #[trigger] c.queue.contains_key(k) ==> held_right(s, c.queue, taken, n, k)
    &&& forall|k: u16| #[trigger]
        c.fragments.contains_key(at(k)) ==> !c.queue.contains_key(k)
            && collected_right(s, c.fragments, taken, n, k)
    &&& forall|i: int| n <= i < s.msgs.len() ==> #[trigger] kept(c, s, taken, n, i)
    &&& forall|i: int| 0 <= i < n ==> #[trigger] whole(s, taken, i)
}

/// Every message takes at least one number.
pub proof fn lemma_pieces(s: Stream, i: int)
    requires
        s.wf(),
        0 <= i < s.msgs.len(),
    ensures
        1 <= s.pieces(i) <= u32::MAX,
        s.split(i) ==> s.pieces(i) == fragment::piece_count(s.msgs[i].len() as int, s.size)
            <= s.msgs[i].len(),
{
    if s.split(i) {
        let len = s.msgs[i].len() as int;
        let size = s.size;
        assert(1 <= (len + size - 1) / size <= len) by (nonlinear_arith)
            requires
                len >= 1,
                size >= 1,
        ;
    }
}

/// Later messages have later numbers.
proof fn lemma_used(s: Stream, i: int, j: int)
    requires
        0 < s.size,
        0 <= i <= j <= s.msgs.len(),
        0 <= s.limit,
    ensures
        0 <= s.used(i),
        s.used(i) + (j - i) <= s.used(j),
    decreases j,
{
    if 0 < j {
        if s.split(j - 1) {
            let len = s.msgs[j - 1].len() as int;
            let size = s.size;
            assert((len + size - 1) / size >= 1) by (nonlinear_arith)
                requires
                    len >= 1,
                    size >= 1,
            ;
        }
        if i < j {
            lemma_used(s, i, j - 1);
        } else {
            lemma_used(s, i - 1, j - 1);
        }
    }
}

/// Which of two numbers comes first.
proof fn lemma_number_order(base: u16, n: int, i: int)
    requires
        -0x8000 <= i - n < 0x8000,
    ensures
        sequence::seq_before(number_of(base, n), number_of(base, i)) == (n < i),
        number_of(base, n) == number_of(base, i) ==> n == i,
{
    reveal(number_of);
}

proof fn lemma_number_distinct(base: u16, n: int, i: int)
    requires
        -0x1_0000 < i - n < 0x1_0000,
    ensures
        number_of(base, n) == number_of(base, i) ==> n == i,
{
    reveal(number_of);
}

/// Earlier messages have earlier numbers.
proof fn lemma_used_order(s: Stream, i: int, j: int)
    requires
        s.wf(),
        0 <= i <= s.msgs.len(),
        0 <= j <= s.msgs.len(),
    ensures
        i < j <==> s.used(i) < s.used(j),
        i == j <==> s.used(i) == s.used(j),
{
    if i <= j {
        lemma_used(s, i, j);
    } else {
        lemma_used(s, j, i);
    }
}

/// Messages ahead are told apart by their first numbers.
proof fn lemma_distinct(s: Stream, n: int, i: int, j: int)
    requires
        s.wf(),
        0 <= n <= s.msgs.len(),
        s.ahead(n, i),
        s.ahead(n, j),
    ensures
        s.first(i) == s.first(j) ==> i == j,
{
    lemma_used_order(s, i, j);
    lemma_used_order(s, n, i);
    lemma_used_order(s, n, j);
    lemma_number_distinct(s.base, s.used(i), s.used(j));
}

/// Messages that are near are before or behind by their first numbers.
proof fn lemma_order(s: Stream, n: int, i: int)
    requires
        s.wf(),
        0 <= n <= s.msgs.len(),
        s.near(n, i),
    ensures
        s.first(n) == s.first(i) ==> n == i,
        sequence::seq_before(s.first(n), s.first(i)) == (n < i),
{
    lemma_used_order(s, n, i);
    lemma_number_order(s.base, s.used(n), s.used(i));
}

/// What is ahead stays ahead until it comes out.
proof fn lemma_ahead(s: Stream, n: int, m: int, i: int)
    requires
        s.wf(),
        0 <= n <= m <= i,
        s.ahead(n, i),
    ensures
        s.ahead(m, i),
{
    lemma_used(s, n, m);
    lemma_used(s, m, i);
}

/// Behind the numbers of message `i` comes the next message.
proof fn lemma_next(s: Stream, i: int, seq: u16)
    requires
        s.wf(),
        0 <= i < s.msgs.len(),
        sequence::seq_next(seq) == s.first(i),
    ensures
        sequence::seq_next(sequence::seq_plus(seq, s.pieces(i))) == s.first(i + 1),
{
    reveal(number_of);
    lemma_pieces(s, i);
    assert(s.used(i + 1) == s.used(i) + s.pieces(i));
}

/// Taking what is held from message `n` on gives the next messages in order.
proof fn lemma_drain(
    seq: u16,
    queue: Map<u16, HeldView>,
    s: Stream,
    taken: Set<Piece>,
    n: int,
) -> (m: int)
    requires
        s.wf(),
        queue.dom().finite(),
        0 <= n <= s.msgs.len(),
        sequence::seq_next(seq) == s.first(n),
        forall|k: u16| #[trigger] queue.contains_key(k) ==> held_right(s, queue, taken, n, k),
    ensures
        ({
            let d = channel::drain(seq, queue);
            &&& n <= m <= s.msgs.len()
            &&& d.out == s.msgs.subrange(n, m)
            &&& sequence::seq_next(d.seq) == s.first(m)
            &&& !d.queue.contains_key(s.first(m))
            &&& forall|k: u16| #[trigger]
                d.queue.contains_key(k) ==> queue.contains_key(k) && held_right(
                    s,
                    d.queue,
                    taken,
                    m,
                    k,
                )
            &&& forall|i: int| #[trigger]
                s.ahead(m, i) && s.ahead(n, i) && queue.contains_key(s.first(i))
                    ==> d.queue.contains_key(s.first(i))
            &&& forall|i: int|
                n <= i < m ==> #[trigger] whole(s, taken, i) && queue.contains_key(s.first(i))
        }),
    decreases queue.dom().len(),
{
    let next = sequence::seq_next(seq);
    if queue.contains_key(next) {
        assert(held_right(s, queue, taken, n, next));
        let i = choose|i: int| #[trigger]
            s.first(i) == next && s.ahead(n, i) && queue[next] == (HeldView {
                count: s.pieces(i) as u32,
                data: s.msgs[i],
            }) && whole(s, taken, i);
        lemma_order(s, n, i);
        lemma_pieces(s, n);
        lemma_next(s, n, seq);
        let rest = queue.remove(next);
        let after = sequence::seq_plus(seq, s.pieces(n));
        assert forall|k: u16| #[trigger] rest.contains_key(k) implies held_right(
            s,
            rest,
            taken,
            n + 1,
            k,
        ) by {
            assert(held_right(s, queue, taken, n, k));
            let j = choose|j: int| #[trigger]
                s.first(j) == k && s.ahead(n, j) && queue[k] == (HeldView {
                    count: s.pieces(j) as u32,
                    data: s.msgs[j],
                }) && whole(s, taken, j);
            assert(s.first(j) == k && rest[k] == queue[k] && j != n);
            lemma_ahead(s, n, n + 1, j);
        }
        let m = lemma_drain(after, rest, s, taken, n + 1);
        let d = channel::drain(after, rest);
        assert(seq![s.msgs[n]] + s.msgs.subrange(n + 1, m) =~= s.msgs.subrange(n, m));
        assert forall|j: int| #[trigger]
            s.ahead(m, j) && s.ahead(n, j) && queue.contains_key(s.first(j)) implies
            d.queue.contains_key(s.first(j)) by {
            lemma_order(s, n, j);
            lemma_ahead(s, n, n + 1, j);
            assert(rest.contains_key(s.first(j)));
        }
        assert forall|j: int| n <= j < m implies #[trigger] whole(s, taken, j)
            && queue.contains_key(s.first(j)) by {
            if j > n {
                assert(whole(s, taken, j));
                assert(rest.contains_key(s.first(j)));
            }
        }
        m
    } else {
        assert(s.msgs.subrange(n, n) =~= Seq::empty());
        n
    }
}

/// What stays true of what is held when more pieces came.
proof fn lemma_held_more(
    s: Stream,
    queue: Map<u16, HeldView>,
    taken: Set<Piece>,
    more: Set<Piece>,
    n: int,
    k: u16,
)
    requires
        taken.subset_of(more),
        held_right(s, queue, taken, n, k),
    ensures
        held_right(s, queue, more, n, k),
{
    let i = choose|i: int| #[trigger]
        s.first(i) == k && s.ahead(n, i) && queue[k] == (HeldView {
            count: s.pieces(i) as u32,
            data: s.msgs[i],
        }) && whole(s, taken, i);
    assert(whole(s, more, i));
    assert(s.first(i) == k);
}

/// What a channel holds, apart from what is under reassembly.
spec fn holding(c: ChannelView, s: Stream, taken: Set<Piece>, n: int) -> bool {
    &&& 0 <= n <= s.msgs.len()
    &&& c.wf()
    &&& c.expected() == s.first(n)
    &&& !c.queue.contains_key(s.first(n))
    &&& forall|k: u16| #[trigger] c.queue.contains_key(k) ==> held_right(s, c.queue, taken, n, k)
    &&& forall|i: int| 0 <= i < n ==> #[trigger] whole(s, taken, i)
}

/// A whole message arrives.
proof fn lemma_whole_arrives(c: ChannelView, s: Stream, taken: Set<Piece>, n: int, i: int) -> (m:
    int)
    requires
        s.wf(),
        holding(c, s, taken, n),
        s.near(n, i),
        whole(s, taken, i),
        c.takes(s.first(i)),
    ensures
        ({
            let (d, out) = c.receive_counted(s.first(i), s.pieces(i) as u32, s.msgs[i]);
            &&& n <= m
            &&& holding(d, s, taken, m)
            &&& out == s.msgs.subrange(n, m)
            &&& d.fragments == c.fragments
            &&& forall|j: int| #[trigger]
                s.ahead(m, j) && s.ahead(n, j) && (c.queue.contains_key(s.first(j)) || j == i)
                    ==> d.queue.contains_key(s.first(j))
            &&& forall|j: int|
                n <= j < m ==> j == i || c.queue.contains_key(#[trigger] s.first(j))
            &&& forall|k: u16| #[trigger]
                d.queue.contains_key(k) ==> c.queue.contains_key(k) || (k == s.first(i) && n < i)
            &&& m <= i ==> i != m
        }),
{
    let (d, out) = c.receive_counted(s.first(i), s.pieces(i) as u32, s.msgs[i]);
    lemma_order(s, n, i);
    lemma_pieces(s, i);
    channel::lemma_receive_wf(c, s.first(i), s.pieces(i) as u32, s.msgs[i]);
    if i == n {
        let seq = sequence::seq_plus(c.incoming_reliable_seq, s.pieces(i));
        lemma_next(s, n, c.incoming_reliable_seq);
        assert forall|k: u16| #[trigger] c.queue.contains_key(k) implies held_right(
            s,
            c.queue,
            taken,
            n + 1,
            k,
        ) by {
            assert(held_right(s, c.queue, taken, n, k));
            let j = choose|j: int| #[trigger]
                s.first(j) == k && s.ahead(n, j) && c.queue[k] == (HeldView {
                    count: s.pieces(j) as u32,
                    data: s.msgs[j],
                }) && whole(s, taken, j);
            assert(s.first(j) == k && j != n);
            lemma_ahead(s, n, n + 1, j);
        }
        let m = lemma_drain(seq, c.queue, s, taken, n + 1);
        assert(seq![s.msgs[n]] + s.msgs.subrange(n + 1, m) =~= s.msgs.subrange(n, m));
        assert forall|j: int| 0 <= j < m implies #[trigger] whole(s, taken, j) by {}
        assert forall|j: int| n <= j < m implies j == i || c.queue.contains_key(
            #[trigger] s.first(j),
        ) by {
            assert(whole(s, taken, j));
        }
        assert forall|j: int| #[trigger]
            s.ahead(m, j) && s.ahead(n, j) && (c.queue.contains_key(s.first(j)) || j
                == i) implies d.queue.contains_key(s.first(j)) by {
            lemma_ahead(s, n, n + 1, j);
        }
        m
    } else {
        assert(s.msgs.subrange(n, n) =~= Seq::empty());
        if i > n {
            assert forall|k: u16| #[trigger] d.queue.contains_key(k) implies held_right(
                s,
                d.queue,
                taken,
                n,
                k,
            ) by {
                if k == s.first(i) && d.queue[k] == (HeldView {
                    count: s.pieces(i) as u32,
                    data: s.msgs[i],
                }) {
                    assert(s.first(i) == k);
                } else {
                    assert(held_right(s, c.queue, taken, n, k));
                    let j = choose|j: int| #[trigger]
                        s.first(j) == k && s.ahead(n, j) && c.queue[k] == (HeldView {
                            count: s.pieces(j) as u32,
                            data: s.msgs[j],
                        }) && whole(s, taken, j);
                    assert(s.first(j) == k && d.queue[k] == c.queue[k]);
                }
            }
        }
        n
    }
}

/// A piece arrives for which there is room. A fragment of a message that is
/// through changes nothing.
pub open spec fn receive_piece(c: ChannelView, s: Stream, p: Piece) -> (
    ChannelView,
    Seq<Seq<u8>>,
) {
    if s.split(p.msg) {
        if c.settled(s.first(p.msg)) {
            (c, Seq::empty())
        } else {
            c.receive_fragment(s.fragment(p), true)
        }
    } else {
        c.receive_reliable(s.first(p.msg), s.msgs[p.msg])
    }
}

/// A piece is in one of the sets, or is the new one.
proof fn lemma_whole_more(s: Stream, taken: Set<Piece>, p: Piece, i: int)
    requires
        whole(s, taken, i),
    ensures
        whole(s, taken.insert(p), i),
{
}

/// The state of the rest of a channel when another piece came.
proof fn lemma_holding_more(c: ChannelView, s: Stream, taken: Set<Piece>, p: Piece, n: int)
    requires
        follows(c, s, taken, n),
    ensures
        holding(c, s, taken.insert(p), n),
{
    let more = taken.insert(p);
    assert forall|k: u16| #[trigger] c.queue.contains_key(k) implies held_right(
        s,
        c.queue,
        more,
        n,
        k,
    ) by {
        lemma_held_more(s, c.queue, taken, more, n, k);
    }
    assert forall|i: int| 0 <= i < n implies #[trigger] whole(s, more, i) by {
        lemma_whole_more(s, taken, p, i);
    }
}

/// Reassemblies of other messages are as they were.
proof fn lemma_collected_more(
    s: Stream,
    a: Map<u32, fragment::ReassemblyView>,
    b: Map<u32, fragment::ReassemblyView>,
    taken: Set<Piece>,
    p: Piece,
    n: int,
    m: int,
    k: u16,
)
    requires
        s.wf(),
        0 <= n <= m,
        collected_right(s, a, taken, n, k),
        b[at(k)] == a[at(k)],
        forall|i: int| n <= i < m && s.split(i) ==> #[trigger] s.first(i) != k,
    ensures
        collected_right(s, b, taken.insert(p), m, k),
{
    let i = choose|i: int| #[trigger]
        s.first(i) == k && s.ahead(n, i) && s.split(i) && fragment::reassembles(
            a[at(k)],
            s.msgs[i],
            s.size,
        ) && !a[at(k)].complete() && (forall|part: int| #[trigger]
            a[at(k)].got.contains(part) ==> taken.contains(Piece { msg: i, part }));
    assert(s.first(i) == k);
    lemma_ahead(s, n, m, i);
}

/// A message in one piece arrives.
proof fn lemma_plain_arrives(c: ChannelView, s: Stream, taken: Set<Piece>, n: int, p: Piece) -> (m:
    int)
    requires
        s.wf(),
        follows(c, s, taken, n),
        s.has(p),
        s.near(n, p.msg),
        !s.split(p.msg),
        c.takes(s.first(p.msg)),
    ensures
        n <= m,
        follows(receive_piece(c, s, p).0, s, taken.insert(p), m),
        receive_piece(c, s, p).1 == s.msgs.subrange(n, m),
{
    let more = taken.insert(p);
    let i = p.msg;
    lemma_holding_more(c, s, taken, p, n);
    assert(whole(s, more, i)) by {
        assert(p == Piece { msg: i, part: 0 });
    }
    let m = lemma_whole_arrives(c, s, more, n, i);
    let d = receive_piece(c, s, p).0;
    assert forall|k: u16| #[trigger] d.fragments.contains_key(at(k)) implies !d.queue.contains_key(
        k,
    ) && collected_right(s, d.fragments, more, m, k) by {
        let j = choose|j: int| #[trigger]
            s.first(j) == k && s.ahead(n, j) && s.split(j) && fragment::reassembles(
                c.fragments[at(k)],
                s.msgs[j],
                s.size,
            ) && !c.fragments[at(k)].complete() && (forall|part: int| #[trigger]
                c.fragments[at(k)].got.contains(part) ==> taken.contains(Piece { msg: j, part }));
        if n < i {
            lemma_distinct(s, n, i, j);
        }
        lemma_collected_more(s, c.fragments, d.fragments, taken, p, n, m, k);
    }
    assert forall|j: int| m <= j < s.msgs.len() implies #[trigger] kept(d, s, more, m, j) by {
        assert(kept(c, s, taken, n, j));
        if s.ahead(n, j) {
            lemma_ahead(s, n, m, j);
        }
        if j != i && !d.queue.contains_key(s.first(j)) {
            assert forall|part: int| #[trigger] more.contains(
                Piece { msg: j, part },
            ) implies stored(d, s, m, j, part) by {
                assert(taken.contains(Piece { msg: j, part }));
            }
        }
    }
    m
}

/// A message that is not through is ahead.
proof fn lemma_unsettled(c: ChannelView, s: Stream, n: int, i: int)
    requires
        s.wf(),
        0 <= n <= s.msgs.len(),
        c.expected() == s.first(n),
        s.near(n, i),
        !c.settled(s.first(i)),
    ensures
        s.ahead(n, i),
{
    lemma_order(s, n, i);
}

/// The reassembly that a fragment belongs to, before and after it.
proof fn lemma_collect(c: ChannelView, s: Stream, taken: Set<Piece>, n: int, p: Piece)
    requires
        s.wf(),
        follows(c, s, taken, n),
        s.has(p),
        s.ahead(n, p.msg),
        s.split(p.msg),
    ensures
        ({
            let f = s.fragment(p);
            let r = c.reassembly(f, true);
            let q = c.reassembled(f, true);
            &&& f.start_seq == s.first(p.msg)
            &&& f.fragment_count == s.pieces(p.msg)
            &&& f.total_length == s.msgs[p.msg].len()
            &&& fragment::reassembles(q, s.msgs[p.msg], s.size)
            &&& q.got == r.got.insert(p.part)
            &&& c.completes(f, true) <==> q.complete()
            &&& forall|part: int| #[trigger]
                r.got.contains(part) ==> taken.contains(Piece { msg: p.msg, part })
            &&& c.fragments.contains_key(at(s.first(p.msg))) ==> r == c.fragments[at(
                s.first(p.msg),
            )]
        }),
{
    let i = p.msg;
    let data = s.msgs[i];
    let f = s.fragment(p);
    let k = s.first(i);
    lemma_pieces(s, i);
    fragment::lemma_piece_bounds(data.len() as int, s.size, p.part);
    let r = c.reassembly(f, true);
    if c.fragments.contains_key(at(k)) {
        assert(collected_right(s, c.fragments, taken, n, k));
        let j = choose|j: int| #[trigger]
            s.first(j) == k && s.ahead(n, j) && s.split(j) && fragment::reassembles(
                c.fragments[at(k)],
                s.msgs[j],
                s.size,
            ) && !c.fragments[at(k)].complete() && (forall|part: int| #[trigger]
                c.fragments[at(k)].got.contains(part) ==> taken.contains(Piece { msg: j, part }));
        lemma_distinct(s, n, i, j);
        assert(!r.complete());
    } else {
        fragment::lemma_fresh_reassembles(data, s.size);
        assert(!r.complete());
    }
    fragment::lemma_piece_received(r, data, s.size, p.part);
    if r.got.contains(p.part) {
        assert(r.got.insert(p.part) =~= r.got);
        assert(c.reassembled(f, true) == r);
    }
}

/// A fragment arrives that does not complete its message.
proof fn lemma_fragment_stored(c: ChannelView, s: Stream, taken: Set<Piece>, n: int, p: Piece)
    requires
        s.wf(),
        follows(c, s, taken, n),
        s.has(p),
        s.ahead(n, p.msg),
        s.split(p.msg),
        !c.queue.contains_key(s.first(p.msg)),
        !c.completes(s.fragment(p), true),
    ensures
        follows(c.store_fragment(s.fragment(p), true), s, taken.insert(p), n),
{
    let more = taken.insert(p);
    let i = p.msg;
    let f = s.fragment(p);
    let d = c.store_fragment(f, true);
    let k0 = s.first(i);
    lemma_collect(c, s, taken, n, p);
    lemma_holding_more(c, s, taken, p, n);
    assert forall|k: u16| #[trigger] d.fragments.contains_key(at(k)) implies !d.queue.contains_key(
        k,
    ) && collected_right(s, d.fragments, more, n, k) by {
        if k == k0 {
            assert(d.fragments[at(k)] == c.reassembled(f, true));
            assert forall|part: int| #[trigger] d.fragments[at(k)].got.contains(part) implies
                more.contains(Piece { msg: i, part }) by {
                if part != p.part {
                    assert(c.reassembly(f, true).got.contains(part));
                } else {
                    assert(p == Piece { msg: i, part });
                }
            }
            assert(s.first(i) == k);
        } else {
            lemma_collected_more(s, c.fragments, d.fragments, taken, p, n, n, k);
        }
    }
    assert forall|j: int| n <= j < s.msgs.len() implies #[trigger] kept(d, s, more, n, j) by {
        assert(kept(c, s, taken, n, j));
        if s.ahead(n, j) {
            lemma_distinct(s, n, i, j);
        }
        if !(s.ahead(n, j) && d.queue.contains_key(s.first(j))) {
            assert forall|part: int| #[trigger] more.contains(
                Piece { msg: j, part },
            ) implies stored(d, s, n, j, part) by {
                if j != i || part != p.part {
                    assert(taken.contains(Piece { msg: j, part }));
                }
            }
        }
    }
}

/// A fragment arrives of a message that is through.
proof fn lemma_fragment_stale(c: ChannelView, s: Stream, taken: Set<Piece>, n: int, p: Piece)
    requires
        s.wf(),
        follows(c, s, taken, n),
        s.has(p),
        s.near(n, p.msg),
        c.settled(s.first(p.msg)),
    ensures
        follows(c, s, taken.insert(p), n),
{
    let more = taken.insert(p);
    lemma_holding_more(c, s, taken, p, n);
    assert forall|k: u16| #[trigger] c.fragments.contains_key(at(k)) implies !c.queue.contains_key(
        k,
    ) && collected_right(s, c.fragments, more, n, k) by {
        lemma_collected_more(s, c.fragments, c.fragments, taken, p, n, n, k);
    }
    lemma_order(s, n, p.msg);
    assert forall|j: int| n <= j < s.msgs.len() implies #[trigger] kept(c, s, more, n, j) by {
        assert(kept(c, s, taken, n, j));
        if !(s.ahead(n, j) && c.queue.contains_key(s.first(j))) {
            assert forall|part: int| #[trigger] more.contains(
                Piece { msg: j, part },
            ) implies stored(c, s, n, j, part) by {
                assert(j != p.msg);
                assert(taken.contains(Piece { msg: j, part }));
            }
        }
    }
}

/// A fragment arrives that completes its message.
proof fn lemma_fragment_completes(c: ChannelView, s: Stream, taken: Set<Piece>, n: int, p: Piece)
    -> (m: int)
    requires
        s.wf(),
        follows(c, s, taken, n),
        s.has(p),
        s.ahead(n, p.msg),
        s.split(p.msg),
        c.completes(s.fragment(p), true),
        c.takes(s.first(p.msg)),
        !c.settled(s.first(p.msg)),
    ensures
        n <= m,
        follows(receive_piece(c, s, p).0, s, taken.insert(p), m),
        receive_piece(c, s, p).1 == s.msgs.subrange(n, m),
{
    let more = taken.insert(p);
    let i = p.msg;
    let f = s.fragment(p);
    let e = c.store_fragment(f, true);
    let k0 = s.first(i);
    lemma_collect(c, s, taken, n, p);
    lemma_holding_more(c, s, taken, p, n);
    let q = c.reassembled(f, true);
    fragment::lemma_complete(q, s.msgs[i], s.size);
    assert(whole(s, more, i)) by {
        assert forall|part: int| 0 <= part < s.pieces(i) implies #[trigger] more.contains(
            Piece { msg: i, part },
        ) by {
            assert(q.got.contains(part));
            if part == p.part {
                assert(p == Piece { msg: i, part });
            } else {
                assert(c.reassembly(f, true).got.contains(part));
            }
        }
    }
    assert(e.wf());
    assert(holding(e, s, more, n));
    let m = lemma_whole_arrives(e, s, more, n, i);
    let d = receive_piece(c, s, p).0;
    assert forall|k: u16| #[trigger] d.fragments.contains_key(at(k)) implies !d.queue.contains_key(
        k,
    ) && collected_right(s, d.fragments, more, m, k) by {
        assert(c.fragments.contains_key(at(k)) && k != k0);
        lemma_collected_more(s, c.fragments, d.fragments, taken, p, n, m, k);
    }
    assert forall|j: int| m <= j < s.msgs.len() implies #[trigger] kept(d, s, more, m, j) by {
        assert(kept(c, s, taken, n, j));
        if s.ahead(n, j) {
            lemma_ahead(s, n, m, j);
            lemma_distinct(s, n, i, j);
        }
        if j != i && !(s.ahead(m, j) && d.queue.contains_key(s.first(j))) {
            assert forall|part: int| #[trigger] more.contains(
                Piece { msg: j, part },
            ) implies stored(d, s, m, j, part) by {
                assert(taken.contains(Piece { msg: j, part }));
            }
        }
    }
    m
}

/// Law: whichever piece of a stream of whole and fragmented messages arrives,
/// and whichever came before it, the messages that come out are the next ones
/// of the stream: all that are whole by now, up to the first that is not. The
/// stream may be of any length, as long as the piece is near what comes out
/// next.
pub proof fn lemma_piece_arrives(c: ChannelView, s: Stream, taken: Set<Piece>, n: int, p: Piece)
    -> (m: int)
    requires
        s.wf(),
        follows(c, s, taken, n),
        s.has(p),
        s.near(n, p.msg),
        c.takes(s.first(p.msg)),
    ensures
        n <= m <= s.msgs.len(),
        follows(receive_piece(c, s, p).0, s, taken.insert(p), m),
        receive_piece(c, s, p).1 == s.msgs.subrange(n, m),
{
    if !s.split(p.msg) {
        lemma_plain_arrives(c, s, taken, n, p)
    } else if c.settled(s.first(p.msg)) {
        lemma_fragment_stale(c, s, taken, n, p);
        assert(s.msgs.subrange(n, n) =~= Seq::empty());
        n
    } else {
        lemma_unsettled(c, s, n, p.msg);
        if c.completes(s.fragment(p), true) {
            lemma_fragment_completes(c, s, taken, n, p)
        } else {
            lemma_fragment_stored(c, s, taken, n, p);
            assert(s.msgs.subrange(n, n) =~= Seq::empty());
            n
        }
    }
}

/// Law: of the first message that did not come out, a piece is missing, and of
/// all that did none is.
pub proof fn lemma_next_missing(c: ChannelView, s: Stream, taken: Set<Piece>, n: int)
    requires
        s.wf(),
        follows(c, s, taken, n),
    ensures
        n < s.msgs.len() ==> !whole(s, taken, n),
        forall|i: int| 0 <= i < n ==> whole(s, taken, i),
{
    if n < s.msgs.len() && whole(s, taken, n) {
        assert(kept(c, s, taken, n, n));
        lemma_pieces(s, n);
        let k = s.first(n);
        assert(taken.contains(Piece { msg: n, part: 0 }));
        assert(collected_right(s, c.fragments, taken, n, k));
        let j = choose|j: int| #[trigger]
            s.first(j) == k && s.ahead(n, j) && s.split(j) && fragment::reassembles(
                c.fragments[at(k)],
                s.msgs[j],
                s.size,
            ) && !c.fragments[at(k)].complete() && (forall|part: int| #[trigger]
                c.fragments[at(k)].got.contains(part) ==> taken.contains(Piece { msg: j, part }));
        lemma_distinct(s, n, n, j);
        fragment::lemma_complete(c.fragments[at(k)], s.msgs[n], s.size);
        assert forall|part: int| 0 <= part < c.fragments[at(k)].fragment_count implies
            #[trigger] c.fragments[at(k)].got.contains(part) by {
            assert(taken.contains(Piece { msg: n, part }));
        }
        assert(false);
    }
}

/// Law: a channel on which nothing is held follows a stream from its start.
pub proof fn lemma_stream_starts(c: ChannelView, s: Stream)
    requires
        c.wf(),
        c.incoming_reliable_seq == s.base,
        c.queue == Map::<u16, HeldView>::empty(),
        forall|k: u16| !#[trigger] c.fragments.contains_key(at(k)),
    ensures
        follows(c, s, Set::empty(), 0),
{
    reveal(number_of);
    assert(s.used(0) == 0);
    assert forall|i: int| 0 <= i < s.msgs.len() implies #[trigger] kept(
        c,
        s,
        Set::empty(),
        0,
        i,
    ) by {}
}

/// In a stream that has no more numbers than a channel may have in flight
/// every message is near every other.
pub proof fn lemma_short_near(s: Stream, n: int, i: int)
    requires
        s.wf(),
        s.used(s.msgs.len() as int) <= 0x8000,
        0 <= n <= s.msgs.len(),
        0 <= i < s.msgs.len(),
    ensures
        s.near(n, i),
{
    lemma_used(s, 0, n);
    lemma_used(s, 0, i);
    lemma_used(s, n, s.msgs.len() as int);
    lemma_used(s, i, s.msgs.len() as int);
}

/// Law: a channel has room for every message of a stream of no more than it
/// holds.
pub proof fn lemma_room(c: ChannelView, s: Stream, taken: Set<Piece>, n: int, seq: u16)
    requires
        follows(c, s, taken, n),
        s.msgs.len() <= MAX_INCOMING_RELIABLE_QUEUE,
    ensures
        c.takes(seq),
{
    let len = s.msgs.len() as int;
    let hi = if n < len {
        len
    } else {
        n + 1
    };
    let range = vstd::set_lib::set_int_range(n + 1, hi);
    let f = |i: int| s.first(i);
    let image = range.map(f);
    vstd::set_lib::lemma_int_range(n + 1, hi);
    vstd::set_lib::lemma_map_size_bound(range, image, f);
    assert forall|k: u16| #[trigger] c.queue.dom().contains(k) implies image.contains(k) by {
        assert(c.queue.contains_key(k));
        assert(held_right(s, c.queue, taken, n, k));
        let i = choose|i: int| #[trigger]
            s.first(i) == k && s.ahead(n, i) && c.queue[k] == (HeldView {
                count: s.pieces(i) as u32,
                data: s.msgs[i],
            }) && whole(s, taken, i);
        assert(range.contains(i) && f(i) == k);
    }
    vstd::set_lib::lemma_len_subset(c.queue.dom(), image);
}

/// What happens to the rest of a channel does not matter to a stream.
pub proof fn lemma_still_follows(
    c: ChannelView,
    d: ChannelView,
    s: Stream,
    taken: Set<Piece>,
    n: int,
)
    requires
        follows(c, s, taken, n),
        d.wf(),
        d.incoming_reliable_seq == c.incoming_reliable_seq,
        d.queue == c.queue,
        forall|k: u16|
            d.fragments.contains_key(#[trigger] at(k)) == c.fragments.contains_key(at(k)) && (
            c.fragments.contains_key(at(k)) ==> d.fragments[at(k)] == c.fragments[at(k)]),
    ensures
        follows(d, s, taken, n),
{
    assert forall|k: u16| #[trigger]
        d.fragments.contains_key(at(k)) implies !d.queue.contains_key(k)
        && collected_right(s, d.fragments, taken, n, k) by {
        assert(collected_right(s, c.fragments, taken, n, k));
        let i = choose|i: int| #[trigger]
            s.first(i) == k && s.ahead(n, i) && s.split(i) && fragment::reassembles(
                c.fragments[at(k)],
                s.msgs[i],
                s.size,
            ) && !c.fragments[at(k)].complete() && (forall|part: int| #[trigger]
                c.fragments[at(k)].got.contains(part) ==> taken.contains(Piece { msg: i, part }));
        assert(s.first(i) == k);
    }
    assert forall|i: int| n <= i < s.msgs.len() implies #[trigger] kept(d, s, taken, n, i) by {
        assert(kept(c, s, taken, n, i));
        if !(s.ahead(n, i) && c.queue.contains_key(s.first(i))) {
            assert forall|part: int| #[trigger] taken.contains(
                Piece { msg: i, part },
            ) implies stored(d, s, n, i, part) by {
            }
        }
    }
}

/// Law: once an unreliable message is taken, nothing is kept of those that are
/// late then. Reliable messages are not touched.
pub proof fn lemma_late_given_up(c: ChannelView, seq: u16, k: u16)
    requires
        c.accepts_unreliable(seq),
    ensures
        ({
            let d = c.take_unreliable(seq);
            let loose = channel::reassembly_key(k, false);
            &&& d.fragments.contains_key(loose) <==> c.fragments.contains_key(loose)
                && sequence::seq_before(seq, k)
            &&& d.fragments.contains_key(at(k)) <==> c.fragments.contains_key(at(k))
            &&& d.fragments.contains_key(at(k)) ==> d.fragments[at(k)] == c.fragments[at(k)]
        }),
{
    let d = c.receive_unreliable(seq);
    let loose = channel::reassembly_key(k, false);
    assert((loose - 0x1_0000) as u16 == k);
    assert(d.accepts_unreliable(k) == sequence::seq_before(seq, k));
}

/// Law: unreliable packets come out in the order in which they were sent:
/// once one was taken, none that is not after it is.
pub proof fn lemma_unreliable_order(c: ChannelView, seq: u16, later: u16)
    requires
        c.accepts_unreliable(seq),
    ensures
        !c.receive_unreliable(seq).accepts_unreliable(seq),
        c.receive_unreliable(seq).accepts_unreliable(later) <==> sequence::seq_before(seq, later),
{
}

} // verus!
