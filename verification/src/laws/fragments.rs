//! Messages that are sent in fragments arrive whole.

use vstd::prelude::*;

use crate::address::PeerKey;
use crate::channel;
use crate::channel::fragment;
use crate::channel::ChannelView;
use crate::laws::receiving;
use crate::laws::transport;
use crate::packet::{PacketView, SendMode};
use crate::peer::receive;
use crate::peer::send;
use crate::peer::{ActionView, PeerView};
use crate::protocol::command;
use crate::protocol::sequence;
use crate::protocol::{CommandHeader, CMD_SEND_FRAGMENT};

verus! {

/// What fragment `i` of a message says that is cut into pieces of `size` bytes:
/// the number of the message, how many pieces there are and which one this is,
/// how long the message is, and where in it the piece stands.
pub open spec fn fragment_of(data: Seq<u8>, size: int, start: u16, i: int)
    -> command::FragmentView {
    let len = data.len() as int;
    let end = if (i + 1) * size < len {
        (i + 1) * size
    } else {
        len
    };
    command::FragmentView {
        start_seq: start,
        fragment_count: pieces(len, size) as u32,
        fragment_number: i as u32,
        total_length: len as u32,
        fragment_offset: (i * size) as u32,
        data: data.subrange(i * size, end),
    }
}

/// How many pieces of `size` bytes, the last one perhaps shorter, `len` bytes
/// are.
pub open spec fn pieces(len: int, size: int) -> int {
    if len % size == 0 {
        len / size
    } else {
        len / size + 1
    }
}

/// Counting the pieces.
pub proof fn lemma_pieces(len: int, size: int)
    requires
        0 < size,
        0 <= len,
    ensures
        pieces(len, size) == fragment::piece_count(len, size),
{
    let q = len / size;
    let m = len % size;
    assert(pieces(len, size) == (len + size - 1) / size) by (nonlinear_arith)
        requires
            0 < size,
            q == len / size,
            m == len % size,
            pieces(len, size) == (if m == 0 {
                q
            } else {
                q + 1
            }),
    ;
}

/// The fields of a fragment that is sent are those.
proof fn lemma_fields(data: Seq<u8>, size: int, start: u16, i: int)
    requires
        0 < size,
        data.len() <= u32::MAX,
        0 <= i < fragment::piece_count(data.len() as int, size),
    ensures
        send::fragment_fields(data, size, start, i) == fragment_of(data, size, start, i),
        fragment::piece_count(data.len() as int, size) <= data.len(),
{
    let len = data.len() as int;
    lemma_pieces(len, size);
    fragment::lemma_piece_bounds(len, size, i);
    assert((i + 1) * size == i * size + size) by (nonlinear_arith);
    assert(1 <= (len + size - 1) / size <= len) by (nonlinear_arith)
        requires
            len >= 1,
            size >= 1,
    ;
}

/// The command that carries fragment `i` of a reliable message.
pub open spec fn fragment_command(p: PeerView, ck: bool, ch: u8, data: Seq<u8>, i: int)
    -> command::CommandView {
    let last = p.channels[ch as int].outgoing_reliable_seq;
    channel::command_of(
        CMD_SEND_FRAGMENT,
        0x80,
        ch,
        sequence::seq_plus(last, i + 1),
        command::BodyView::SendFragment(
            send::fragment_fields(data, p.fragment_room(ck), sequence::seq_next(last), i),
        ),
    )
}

/// Law: the fragments of a message that is sent are as many as there are
/// pieces of what a datagram holds behind 28 bytes of headers, and four more
/// with checksums. Each says which piece of which message it is. Those of a
/// reliable message have the numbers that follow the channel's last one, the
/// first of which names the message. Those of an unreliable message are named
/// by the channel's next unreliable number.
pub proof fn lemma_fragments_say(p: PeerView, ck: bool, ch: u8, data: Seq<u8>, i: int)
    requires
        data.len() <= u32::MAX,
        28 + (if ck {
            4int
        } else {
            0
        }) < p.mtu,
    ensures
        ({
            let size = p.mtu - 28 - (if ck {
                4int
            } else {
                0
            });
            let c = p.channels[ch as int];
            let last = c.outgoing_reliable_seq;
            let firm = p.reliable_fragments(ck, ch, data);
            let loose = p.unreliable_fragments(ck, ch, data);
            &&& firm.len() == pieces(data.len() as int, size)
            &&& loose.len() == pieces(data.len() as int, size)
            &&& 0 <= i < firm.len() ==> firm[i] == command::command_bytes(
                command::CommandView {
                    header: CommandHeader {
                        command: 0x88,
                        channel_id: ch,
                        reliable_seq: ((last + i + 1) % 65536) as u16,
                    },
                    body: command::BodyView::SendFragment(
                        fragment_of(data, size, ((last + 1) % 65536) as u16, i),
                    ),
                },
            )
            &&& 0 <= i < loose.len() ==> loose[i] == command::command_bytes(
                command::CommandView {
                    header: CommandHeader { command: 12, channel_id: ch, reliable_seq: last },
                    body: command::BodyView::SendUnreliableFragment(
                        fragment_of(
                            data,
                            size,
                            ((c.outgoing_unreliable_seq + 1) % 65536) as u16,
                            i,
                        ),
                    ),
                },
            )
        }),
{
    let size = p.fragment_room(ck);
    reveal(channel::encoded);
    lemma_pieces(data.len() as int, size);
    assert(8u8 | 0x80u8 == 0x88u8) by (bit_vector);
    assert(12u8 | 0u8 == 12u8) by (bit_vector);
    if 0 <= i < fragment::piece_count(data.len() as int, size) {
        let c = p.channels[ch as int];
        lemma_fields(data, size, sequence::seq_next(c.outgoing_reliable_seq), i);
        lemma_fields(data, size, sequence::seq_next(c.outgoing_unreliable_seq), i);
    }
}

/// Law: the fragments of a reliable message are sent as commands that read
/// back as they are.
pub proof fn lemma_fragments_sent(p: PeerView, ck: bool, ch: u8, data: Seq<u8>, i: int)
    requires
        0 < p.fragment_room(ck) <= 0xFFFF,
        0 <= i < fragment::piece_count(data.len() as int, p.fragment_room(ck)),
    ensures
        command::well_typed(fragment_command(p, ck, ch, data, i)),
        p.reliable_fragments(ck, ch, data)[i] == command::command_bytes(
            fragment_command(p, ck, ch, data, i),
        ),
{
    let c = fragment_command(p, ck, ch, data, i);
    fragment::lemma_piece_bounds(data.len() as int, p.fragment_room(ck), i);
    transport::lemma_well_typed(CMD_SEND_FRAGMENT, 0x80, ch, c.header.reliable_seq, c.body);
    reveal(channel::encoded);
}

/// The peer, and all that came out, after fragments of a message arrived in
/// the given order.
pub open spec fn fragments_received(
    q: PeerView,
    ch: u8,
    data: Seq<u8>,
    size: int,
    start: u16,
    order: Seq<int>,
    reliable: bool,
    now: u32,
) -> (PeerView, Seq<Seq<u8>>)
    decreases order.len(),
{
    if order.len() == 0 {
        (q, Seq::empty())
    } else {
        let (r, out) = fragments_received(
            q,
            ch,
            data,
            size,
            start,
            order.drop_last(),
            reliable,
            now,
        );
        let (s, more) = r.on_fragment(
            ch,
            fragment_of(data, size, start, order.last()),
            reliable,
            now,
        );
        (s, out + more)
    }
}

/// Every fragment is among those that arrived.
pub open spec fn covers(order: Seq<int>, n: int) -> bool {
    forall|i: int| 0 <= i < n ==> #[trigger] order.contains(i)
}

/// The receiving side has room for a message that it has no part of yet: of at
/// most 1048576 pieces, where fewer than 64 messages of the channel are being
/// put together, and together with them all messages of the peer take at most
/// 16 MiB. A reliable message is due, or later and fewer than 4096 are held
/// back; an unreliable one is after all that were taken.
pub open spec fn has_room(
    q: PeerView,
    ch: u8,
    data: Seq<u8>,
    size: int,
    start: u16,
    reliable: bool,
) -> bool {
    let c = q.channels[ch as int];
    &&& ch < q.channels.len()
    &&& 0 < size
    &&& 1 <= pieces(data.len() as int, size) <= 1_048_576
    &&& if reliable {
        let ahead = receiving::steps(c.incoming_reliable_seq, start);
        &&& ahead == 1 || (2 <= ahead <= 32768 && c.queue.len() < 4096)
        &&& !c.queue.contains_key(start)
        &&& !c.fragments.contains_key(start as u32)
    } else {
        &&& 1 <= receiving::steps(c.incoming_unreliable_seq, start) <= 32767
        &&& !c.fragments.contains_key((start + 65536) as u32)
    }
    &&& c.fragments.len() < 64
    &&& 0 <= q.fragment_bytes
    &&& q.fragment_bytes + data.len() <= 16_777_216
}

/// The numbers of fragments.
pub open spec fn in_range(order: Seq<int>, n: int) -> bool {
    forall|j: int| 0 <= j < order.len() ==> 0 <= #[trigger] order[j] < n
}

/// The channel after a message that was put together is taken as a whole.
pub open spec fn taken_whole(c: ChannelView, start: u16, n: int, data: Seq<u8>, reliable: bool) -> (
    ChannelView,
    Seq<Seq<u8>>,
) {
    if reliable {
        c.receive_reassembled(start, n as u32, data)
    } else {
        (c.take_unreliable(start), seq![data])
    }
}

/// The state of the channel while fragments are missing.
spec fn collecting(
    q: PeerView,
    r: PeerView,
    ch: u8,
    data: Seq<u8>,
    size: int,
    start: u16,
    order: Seq<int>,
    reliable: bool,
) -> bool {
    let c = q.channels[ch as int];
    &&& r.channels == if order.len() == 0 {
        q.channels
    } else {
        q.channels.update(
            ch as int,
            ChannelView {
                fragments: c.fragments.insert(
                    channel::reassembly_key(start, reliable),
                    fragment::arrivals(data, size, order),
                ),
                ..c
            },
        )
    }
    &&& order.len() == 0 ==> r.fragment_bytes == q.fragment_bytes
}

/// One more fragment.
proof fn lemma_fragment_step(
    q: PeerView,
    r: PeerView,
    ch: u8,
    data: Seq<u8>,
    size: int,
    start: u16,
    order: Seq<int>,
    i: int,
    reliable: bool,
    now: u32,
)
    requires
        has_room(q, ch, data, size, start, reliable),
        collecting(q, r, ch, data, size, start, order, reliable),
        in_range(order, pieces(data.len() as int, size)),
        0 <= i < pieces(data.len() as int, size),
        !covers(order, pieces(data.len() as int, size)),
    ensures
        ({
            let n = pieces(data.len() as int, size);
            let f = fragment_of(data, size, start, i);
            let (s, out) = r.on_fragment(ch, f, reliable, now);
            let c = q.channels[ch as int];
            if covers(order.push(i), n) {
                let (d, ready) = taken_whole(c, start, n, data, reliable);
                &&& out == ready
                &&& s.channels == q.channels.update(ch as int, d)
            } else {
                &&& out == Seq::<Seq<u8>>::empty()
                &&& collecting(q, s, ch, data, size, start, order.push(i), reliable)
            }
        }),
{
    let n = pieces(data.len() as int, size);
    let f = fragment_of(data, size, start, i);
    lemma_pieces(data.len() as int, size);
    lemma_fields(data, size, start, i);
    let c = q.channels[ch as int];
    let d = r.channels[ch as int];
    let before = fragment::arrivals(data, size, order);
    let more = order.push(i);
    let after = fragment::arrivals(data, size, more);
    assert(more.drop_last() =~= order);
    assert(after == before.receive(i, i * size, fragment::piece(data, size, i)));
    fragment::lemma_piece_bounds(data.len() as int, size, i);
    assert(f.fragment_offset == i * size);
    assert(f.fragment_count == n);
    assert(f.total_length == data.len());
    assert(f.fragment_number == i);
    assert(receive::fragment_valid(f));
    assert(d.reassembly(f, reliable) == before);
    assert(d.reassembled(f, reliable) == after);
    assert(r.fragment_fits(ch, f, reliable));
    fragment::lemma_reassembly(data, size, order);
    assert forall|j: int| 0 <= j < more.len() implies 0 <= #[trigger] more[j] < n by {
        if j < order.len() {
            assert(more[j] == order[j]);
        }
    }
    fragment::lemma_reassembly(data, size, more);
    if covers(more, n) {
        if order.contains(i) {
            assert forall|k: int| 0 <= k < n implies #[trigger] order.contains(k) by {
                assert(more.contains(k));
                let j = choose|j: int| 0 <= j < more.len() && more[j] == k;
                if j < order.len() {
                    assert(order[j] == k);
                }
            }
            assert(false);
        }
        assert(!before.got.contains(i));
        assert(before.buf.len() == data.len()) by {
            lemma_arrivals_len(data, size, order);
        }
        assert(d.completes(f, reliable));
        assert(d.store_fragment(f, reliable).fragments =~= c.fragments);
        assert(d.store_fragment(f, reliable) =~= c);
        let (e, ready) = r.fragment_step(ch, f, reliable);
        assert(r.on_fragment(ch, f, reliable, now).0.channels =~= q.channels.update(ch as int, e));
    } else {
        assert(!after.complete());
        assert(!d.completes(f, reliable));
        let e = ChannelView {
            fragments: c.fragments.insert(channel::reassembly_key(start, reliable), after),
            ..c
        };
        assert(d.store_fragment(f, reliable).fragments =~= e.fragments);
        assert(d.store_fragment(f, reliable) =~= e);
        let s = r.on_fragment(ch, f, reliable, now).0;
        assert(s.channels =~= q.channels.update(ch as int, e));
    }
}

proof fn lemma_arrivals_len(data: Seq<u8>, size: int, order: Seq<int>)
    ensures
        fragment::arrivals(data, size, order).buf.len() == data.len(),
    decreases order.len(),
{
    if order.len() > 0 {
        lemma_arrivals_len(data, size, order.drop_last());
    }
}

proof fn lemma_collecting(
    q: PeerView,
    ch: u8,
    data: Seq<u8>,
    size: int,
    start: u16,
    order: Seq<int>,
    reliable: bool,
    now: u32,
)
    requires
        has_room(q, ch, data, size, start, reliable),
        in_range(order, pieces(data.len() as int, size)),
        !covers(order, pieces(data.len() as int, size)),
    ensures
        ({
            let (r, out) = fragments_received(q, ch, data, size, start, order, reliable, now);
            &&& out == Seq::<Seq<u8>>::empty()
            &&& collecting(q, r, ch, data, size, start, order, reliable)
        }),
    decreases order.len(),
{
    if order.len() > 0 {
        let n = pieces(data.len() as int, size);
        let front = order.drop_last();
        let i = order.last();
        assert(order[order.len() - 1] == i);
        assert forall|j: int| 0 <= j < front.len() implies 0 <= #[trigger] front[j] < n by {
            assert(front[j] == order[j]);
        }
        if covers(front, n) {
            assert forall|k: int| 0 <= k < n implies #[trigger] order.contains(k) by {
                assert(front.contains(k));
                let j = choose|j: int| 0 <= j < front.len() && front[j] == k;
                assert(order[j] == k);
            }
            assert(false);
        }
        lemma_collecting(q, ch, data, size, start, front, reliable, now);
        let r = fragments_received(q, ch, data, size, start, front, reliable, now).0;
        assert(front.push(i) =~= order);
        lemma_fragment_step(q, r, ch, data, size, start, front, i, reliable, now);
        assert(Seq::<Seq<u8>>::empty() + Seq::<Seq<u8>>::empty() =~= Seq::empty());
    }
}

/// When the last fragment arrives, the message is taken as a whole.
proof fn lemma_whole(
    q: PeerView,
    ch: u8,
    data: Seq<u8>,
    size: int,
    start: u16,
    front: Seq<int>,
    last: int,
    reliable: bool,
    now: u32,
)
    requires
        has_room(q, ch, data, size, start, reliable),
        in_range(front.push(last), pieces(data.len() as int, size)),
        !covers(front, pieces(data.len() as int, size)),
        covers(front.push(last), pieces(data.len() as int, size)),
    ensures
        fragments_received(q, ch, data, size, start, front, reliable, now).1
            == Seq::<Seq<u8>>::empty(),
        ({
            let n = pieces(data.len() as int, size);
            let (s, out) = fragments_received(
                q,
                ch,
                data,
                size,
                start,
                front.push(last),
                reliable,
                now,
            );
            let (d, ready) = taken_whole(q.channels[ch as int], start, n, data, reliable);
            &&& out == ready
            &&& s.channels == q.channels.update(ch as int, d)
        }),
{
    let n = pieces(data.len() as int, size);
    let order = front.push(last);
    assert(order[front.len() as int] == last);
    assert forall|j: int| 0 <= j < front.len() implies 0 <= #[trigger] front[j] < n by {
        assert(front[j] == order[j]);
    }
    lemma_collecting(q, ch, data, size, start, front, reliable, now);
    let r = fragments_received(q, ch, data, size, start, front, reliable, now).0;
    lemma_fragment_step(q, r, ch, data, size, start, front, last, reliable, now);
    assert(order.drop_last() =~= front);
    let ready = taken_whole(q.channels[ch as int], start, n, data, reliable).1;
    assert(Seq::<Seq<u8>>::empty() + ready =~= ready);
}

/// Law: a reliable message in fragments. However the fragments arrive, out of
/// order or more than once, nothing comes out as long as one is missing. When
/// the last one arrives, the message comes out whole, as if it had been
/// received in one piece that uses up one sequence number per fragment, and
/// the memory of the reassembly is free again.
pub proof fn lemma_message_arrives(
    q: PeerView,
    ch: u8,
    data: Seq<u8>,
    size: int,
    start: u16,
    front: Seq<int>,
    last: int,
    now: u32,
)
    requires
        has_room(q, ch, data, size, start, true),
        in_range(front.push(last), pieces(data.len() as int, size)),
        !covers(front, pieces(data.len() as int, size)),
        covers(front.push(last), pieces(data.len() as int, size)),
    ensures
        fragments_received(q, ch, data, size, start, front, true, now).1
            == Seq::<Seq<u8>>::empty(),
        ({
            let n = pieces(data.len() as int, size);
            let (s, out) = fragments_received(
                q,
                ch,
                data,
                size,
                start,
                front.push(last),
                true,
                now,
            );
            let (d, ready) = q.channels[ch as int].receive_reassembled(start, n as u32, data);
            &&& out == ready
            &&& s.channels == q.channels.update(ch as int, d)
            &&& receiving::steps(q.channels[ch as int].incoming_reliable_seq, start) == 1
                ==> out.len() > 0 && out[0] == data
        }),
{
    lemma_whole(q, ch, data, size, start, front, last, true, now);
}

/// Law: an unreliable message in fragments. However the fragments arrive, out
/// of order or more than once, also after the last one came, exactly one
/// message comes out, when the last one arrives, and it is the message that was
/// sent. It is then the last one taken, and nothing of it is kept.
pub proof fn lemma_unreliable_message_arrives(
    q: PeerView,
    ch: u8,
    data: Seq<u8>,
    size: int,
    start: u16,
    front: Seq<int>,
    last: int,
    rest: Seq<int>,
    now: u32,
)
    requires
        has_room(q, ch, data, size, start, false),
        in_range(front.push(last) + rest, pieces(data.len() as int, size)),
        !covers(front, pieces(data.len() as int, size)),
        covers(front.push(last), pieces(data.len() as int, size)),
    ensures
        fragments_received(q, ch, data, size, start, front, false, now).1
            == Seq::<Seq<u8>>::empty(),
        fragments_received(q, ch, data, size, start, front.push(last), false, now).1 == seq![data],
        ({
            let (r, out) = fragments_received(
                q,
                ch,
                data,
                size,
                start,
                front.push(last) + rest,
                false,
                now,
            );
            let c = q.channels[ch as int];
            let d = r.channels[ch as int];
            &&& out == seq![data]
            &&& r.channels.len() == q.channels.len()
            &&& forall|i: int| 0 <= i < q.channels.len() && i != ch ==> #[trigger] r.channels[i]
                == q.channels[i]
            &&& receiving::only_unreliable(c, d)
            &&& receiving::only_later(c, d, start)
            &&& d.incoming_unreliable_seq == start
            &&& !d.fragments.contains_key((start + 65536) as u32)
        }),
    decreases rest.len(),
{
    let all = front.push(last) + rest;
    let c = q.channels[ch as int];
    if rest.len() == 0 {
        assert(all =~= front.push(last));
        lemma_whole(q, ch, data, size, start, front, last, false, now);
        let r = fragments_received(q, ch, data, size, start, all, false, now).0;
        assert(r.channels[ch as int] == c.take_unreliable(start));
        receiving::lemma_only_later(c, start);
    } else {
        let less = rest.drop_last();
        let before = front.push(last) + less;
        assert(all.drop_last() =~= before);
        assert forall|j: int| 0 <= j < before.len() implies 0 <= #[trigger] before[j] < pieces(
            data.len() as int,
            size,
        ) by {
            assert(before[j] == all[j]);
        }
        lemma_unreliable_message_arrives(q, ch, data, size, start, front, last, less, now);
        let (r, out) = fragments_received(q, ch, data, size, start, before, false, now);
        let f = fragment_of(data, size, start, all.last());
        assert(all[all.len() - 1] == all.last());
        assert(r.stale(ch, f, false));
        assert(out + r.on_fragment(ch, f, false, now).1 =~= seq![data]);
    }
}

/// Law: what comes out when a fragment arrives goes to the user of the peer,
/// on the channel of the fragment, as a reliable or an unreliable packet.
pub proof fn lemma_fragment_delivers(
    q: PeerView,
    key: PeerKey,
    c: command::CommandView,
    f: command::FragmentView,
    now: u32,
)
    requires
        c.body == command::BodyView::SendFragment(f) || c.body
            == command::BodyView::SendUnreliableFragment(f),
    ensures
        ({
            let reliable = c.body is SendFragment;
            let ch = c.header.channel_id;
            let (r, ready) = q.on_fragment(ch, f, reliable, now);
            let (s, out) = q.on_data(key, c, now);
            &&& s == r
            &&& out.len() == ready.len()
            &&& forall|i: int|
                0 <= i < out.len() ==> (#[trigger] out[i]) == (ActionView::Deliver {
                    key,
                    packet: PacketView {
                        data: ready[i],
                        channel: ch,
                        mode: if reliable {
                            SendMode::Reliable
                        } else {
                            SendMode::Unreliable
                        },
                    },
                })
        }),
{
}

/// Law: a piece is taken if and only if it is one of those that are waited for,
/// did not come yet, and lies within the message. It is then written where it
/// belongs, every other byte stays, and it has come. The message is complete
/// when as many pieces came as it has.
pub proof fn lemma_piece_written(
    r: fragment::ReassemblyView,
    number: int,
    offset: int,
    data: Seq<u8>,
    i: int,
)
    requires
        0 <= offset,
    ensures
        ({
            let s = r.receive(number, offset, data);
            let taken = 0 <= number < r.fragment_count && !r.got.contains(number) && offset
                + data.len() <= r.buf.len();
            &&& !taken ==> s == r
            &&& taken ==> {
                &&& s.fragment_count == r.fragment_count
                &&& s.got == r.got.insert(number)
                &&& s.buf.len() == r.buf.len()
                &&& 0 <= i < r.buf.len() ==> s.buf[i] == if offset <= i < offset + data.len() {
                    data[i - offset]
                } else {
                    r.buf[i]
                }
            }
            &&& r.complete() <==> r.got.len() == r.fragment_count
        }),
{
}

/// Law: a new reassembly waits for all pieces and has none.
pub proof fn lemma_new_reassembly(len: int, n: u32, i: int)
    requires
        0 <= len,
    ensures
        ({
            let r = fragment::ReassemblyView::fresh(len, n);
            &&& r.fragment_count == n
            &&& r.buf.len() == len
            &&& 0 <= i < len ==> r.buf[i] == 0
            &&& r.got == Set::<int>::empty()
        }),
{
}

} // verus!
