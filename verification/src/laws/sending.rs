//! Reliable messages are numbered in the order in which they are sent, also
//! where they are held back for a while.

use vstd::prelude::*;

use crate::address::PeerKey;
use crate::channel;
use crate::channel::ordering;
use crate::channel::ordering::{Piece, Stream};
use crate::laws::stream;
use crate::laws::stream::{Arrival, Item, Link};
use crate::laws::teardown;
use crate::laws::transport;
use crate::packet::{PacketView, SendMode};
use crate::peer::emit;
use crate::peer::send;
use crate::peer::{ActionView, PeerState, PeerView};
use crate::protocol::command;
use crate::protocol::sequence;
use crate::protocol::{AcknowledgeCmd, CMD_SEND_RELIABLE, MAX_COMMANDS_PER_PACKET};

verus! {

/// A reliable packet on a channel.
pub open spec fn reliable_on(pkt: PacketView, ch: u8) -> bool {
    pkt.mode == SendMode::Reliable && pkt.channel == ch
}

/// The payloads of the reliable packets of a channel, in order.
pub open spec fn reliable_data(packets: Seq<PacketView>, ch: u8) -> Seq<Seq<u8>>
    decreases packets.len(),
{
    if packets.len() == 0 {
        Seq::empty()
    } else {
        let before = reliable_data(packets.drop_last(), ch);
        if reliable_on(packets.last(), ch) {
            before.push(packets.last().data)
        } else {
            before
        }
    }
}

/// The commands of message `i`, as bytes.
pub open spec fn message_commands(s: Stream, ch: u8, i: int) -> Seq<Seq<u8>> {
    Seq::new(
        s.pieces(i) as nat,
        |k: int| command::command_bytes(stream::piece_command(s, ch, Piece { msg: i, part: k })),
    )
}

/// Of the messages of a stream the first `m` have their numbers. The others
/// are held back, in order, but for the last ones, which are `rest`.
pub open spec fn numbered(q: PeerView, ck: bool, ch: u8, s: Stream, m: int, rest: Seq<Seq<u8>>)
    -> bool {
    &&& 0 <= m <= s.msgs.len()
    &&& s.limit == q.reliable_room(ck)
    &&& s.size == q.fragment_room(ck)
    &&& 0 < s.size
    &&& ch < q.channels.len() <= 255
    &&& q.channels[ch as int].outgoing_reliable_seq == sequence::seq_plus(s.base, s.used(m))
    &&& reliable_data(q.pending, ch) + rest == s.msgs.skip(m)
}

/// A packet on a channel that exists, where that matters.
pub open spec fn in_range(q: PeerView, pkt: PacketView) -> bool {
    pkt.mode == SendMode::Unreliable ==> pkt.channel < q.channels.len()
}

/// None of a channel's packets is held back where none waits.
proof fn lemma_none_waits(packets: Seq<PacketView>, ch: u8)
    ensures
        reliable_data(packets, ch).len() == 0 <==> (forall|i: int|
            0 <= i < packets.len() ==> !reliable_on(#[trigger] packets[i], ch)),
    decreases packets.len(),
{
    if packets.len() > 0 {
        let front = packets.drop_last();
        lemma_none_waits(front, ch);
        if reliable_data(packets, ch).len() == 0 {
            assert forall|i: int| 0 <= i < packets.len() implies !reliable_on(
                #[trigger] packets[i],
                ch,
            ) by {
                if i < front.len() {
                    assert(!reliable_on(front[i], ch));
                }
            }
        } else if !reliable_on(packets.last(), ch) {
            let i = choose|i: int| 0 <= i < front.len() && reliable_on(#[trigger] front[i], ch);
            assert(reliable_on(packets[i], ch));
        } else {
            assert(reliable_on(packets[packets.len() - 1], ch));
        }
    }
}

proof fn lemma_waits(q: PeerView, ch: u8)
    ensures
        q.waits(ch) <==> reliable_data(q.pending, ch).len() > 0,
{
    lemma_none_waits(q.pending, ch);
    if q.waits(ch) {
        let i = choose|i: int|
            0 <= i < q.pending.len() && (#[trigger] q.pending[i]).channel == ch
                && q.pending[i].mode == SendMode::Reliable;
        assert(reliable_on(q.pending[i], ch));
    }
    if reliable_data(q.pending, ch).len() > 0 {
        let i = choose|i: int|
            0 <= i < q.pending.len() && reliable_on(#[trigger] q.pending[i], ch);
        assert(q.pending[i].channel == ch);
    }
}

/// The numbers of the next message.
proof fn lemma_numbers(s: Stream, m: int, last: u16, k: int)
    requires
        0 <= m,
        last == sequence::seq_plus(s.base, s.used(m)),
    ensures
        s.first(m) == sequence::seq_next(last),
        s.number(Piece { msg: m, part: k }) == sequence::seq_plus(last, k + 1),
        sequence::seq_plus(last, s.pieces(m)) == sequence::seq_plus(s.base, s.used(m + 1)),
{
    reveal(ordering::number_of);
    assert(s.used(m + 1) == s.used(m) + s.pieces(m));
}

/// The commands that a message needs next.
spec fn next_commands(q: PeerView, ck: bool, ch: u8, data: Seq<u8>) -> Seq<Seq<u8>> {
    if data.len() <= q.reliable_room(ck) {
        seq![q.reliable_command(ch, CMD_SEND_RELIABLE, command::BodyView::SendReliable(data))]
    } else {
        q.reliable_fragments(ck, ch, data)
    }
}

/// They are those of the stream.
proof fn lemma_commands(q: PeerView, ck: bool, ch: u8, s: Stream, m: int)
    requires
        0 <= m < s.msgs.len(),
        s.limit == q.reliable_room(ck),
        s.size == q.fragment_room(ck),
        0 < s.size,
        ch < 255,
        q.channels[ch as int].outgoing_reliable_seq == sequence::seq_plus(s.base, s.used(m)),
    ensures
        message_commands(s, ch, m) == next_commands(q, ck, ch, s.msgs[m]),
{
    reveal(channel::encoded);
    let data = s.msgs[m];
    let last = q.channels[ch as int].outgoing_reliable_seq;
    let want = message_commands(s, ch, m);
    let have = next_commands(q, ck, ch, data);
    assert(0 <= s.pieces(m)) by {
        if s.split(m) {
            let len = data.len() as int;
            assert((len + s.size - 1) / s.size >= 0) by (nonlinear_arith)
                requires
                    len >= 1,
                    s.size >= 1,
            ;
        }
    }
    assert(want.len() == have.len());
    assert forall|k: int| 0 <= k < want.len() implies want[k] == have[k] by {
        lemma_numbers(s, m, last, k);
    }
    assert(want =~= have);
}

/// Law: a reliable packet that is transmitted gets the next numbers of its
/// channel, and its commands are those of the next message of the stream. It
/// is held back behind any that is. Packets on other channels or of other
/// modes leave the numbers alone.
pub proof fn lemma_transmitted(
    q: PeerView,
    ck: bool,
    ch: u8,
    s: Stream,
    m: int,
    rest: Seq<Seq<u8>>,
    pkt: PacketView,
    now: u32,
)
    requires
        in_range(q, pkt),
        reliable_on(pkt, ch) ==> rest.len() > 0 && rest[0] == pkt.data,
        numbered(q, ck, ch, s, m, rest),
    ensures
        ({
            let (r, cmds) = q.transmit_plan(ck, pkt, now);
            &&& q.transmit(ck, pkt, now) == (r.sent(cmds, now), r.flushed(ck, cmds, now))
            &&& r.channels.len() == q.channels.len()
            &&& if !reliable_on(pkt, ch) {
                numbered(r, ck, ch, s, m, rest)
            } else if q.holds_back(ck, pkt) {
                cmds.len() == 0 && numbered(r, ck, ch, s, m, rest.skip(1))
            } else {
                &&& m < s.msgs.len()
                &&& s.msgs[m] == pkt.data
                &&& cmds == message_commands(s, ch, m)
                &&& numbered(r, ck, ch, s, m + 1, rest.skip(1))
            }
        }),
{
    let (r, cmds) = q.transmit_plan(ck, pkt, now);
    let data = reliable_data(q.pending, ch);
    if reliable_on(pkt, ch) {
        assert(seq![pkt.data] + rest.skip(1) =~= rest);
        if q.holds_back(ck, pkt) {
            assert(r.pending.drop_last() =~= q.pending);
            assert(data.push(pkt.data) + rest.skip(1) =~= data + rest);
        } else {
            lemma_waits(q, ch);
            assert(data + rest =~= rest);
            assert(s.msgs.skip(m)[0] == s.msgs[m]);
            lemma_commands(q, ck, ch, s, m);
            lemma_numbers(s, m, q.channels[ch as int].outgoing_reliable_seq, 0);
            assert(cmds == next_commands(q, ck, ch, pkt.data));
            assert(data + rest.skip(1) =~= s.msgs.skip(m + 1));
        }
    } else if pkt.mode == SendMode::Reliable && pkt.channel < q.channels.len() && q.holds_back(
        ck,
        pkt,
    ) {
        assert(r.pending.drop_last() =~= q.pending);
    }
}

/// Law: a channel on which nothing is held back begins a stream.
pub proof fn lemma_begins(q: PeerView, ck: bool, ch: u8)
    requires
        ch < q.channels.len() <= 255,
        0 < q.fragment_room(ck),
        reliable_data(q.pending, ch).len() == 0,
    ensures
        numbered(
            q,
            ck,
            ch,
            Stream {
                msgs: Seq::empty(),
                limit: q.reliable_room(ck),
                size: q.fragment_room(ck),
                base: q.channels[ch as int].outgoing_reliable_seq,
            },
            0,
            Seq::empty(),
        ),
{
    let none = Seq::<Seq<u8>>::empty();
    assert(reliable_data(q.pending, ch) + none =~= none.skip(0));
}

/// The messages of a stream with one more behind them.
pub open spec fn followed_by(s: Stream, data: Seq<u8>) -> Stream {
    Stream { msgs: s.msgs.push(data), ..s }
}

/// Earlier messages keep their numbers when one more is sent.
proof fn lemma_used_before(s: Stream, data: Seq<u8>, n: int)
    requires
        n <= s.msgs.len(),
    ensures
        followed_by(s, data).used(n) == s.used(n),
    decreases n,
{
    if n > 0 {
        lemma_used_before(s, data, n - 1);
        assert(followed_by(s, data).msgs[n - 1] == s.msgs[n - 1]);
    }
}

/// Law: reliable packets of one channel get their numbers in the order of the
/// calls. A packet that the user sends is the next message of the stream. It
/// goes out at once, under the numbers that follow those of all messages
/// before it, or it is held back behind all that are.
pub proof fn lemma_sent_in_order(
    q: PeerView,
    ck: bool,
    s: Stream,
    m: int,
    pkt: PacketView,
    now: u32,
)
    requires
        q.state == PeerState::Connected,
        pkt.mode == SendMode::Reliable,
        numbered(q, ck, pkt.channel, s, m, Seq::empty()),
    ensures
        ({
            let (r, out) = q.send(ck, pkt, now);
            let t = followed_by(s, pkt.data);
            if q.holds_back(ck, pkt) {
                &&& out == Seq::<ActionView>::empty()
                &&& numbered(r, ck, pkt.channel, t, m, Seq::empty())
            } else {
                let cmds = message_commands(t, pkt.channel, m);
                &&& m == s.msgs.len()
                &&& out == q.flushed(ck, cmds, now)
                &&& numbered(r, ck, pkt.channel, t, m + 1, Seq::empty())
            }
        }),
{
    let ch = pkt.channel;
    let t = followed_by(s, pkt.data);
    let rest = seq![pkt.data];
    let data = reliable_data(q.pending, ch);
    assert(data + Seq::<Seq<u8>>::empty() =~= data);
    assert(t.msgs.skip(m) =~= s.msgs.skip(m).push(pkt.data));
    assert(data + rest =~= data.push(pkt.data));
    lemma_used_before(s, pkt.data, m);
    lemma_transmitted(q, ck, ch, t, m, rest, pkt, now);
    assert(rest.skip(1) =~= Seq::<Seq<u8>>::empty());
    let (r, cmds) = q.transmit_plan(ck, pkt, now);
    if q.holds_back(ck, pkt) {
        assert(cmds =~= Seq::empty());
        send::lemma_none(r, ck, now);
    } else {
        lemma_waits(q, ch);
        assert(s.msgs.skip(m).len() == 0);
        lemma_flushed_alike(q, r, ck, cmds, now);
    }
}

/// The datagrams to a peer depend on its address, its IDs and its MTU.
proof fn lemma_flushed_alike(q: PeerView, r: PeerView, ck: bool, cmds: Seq<Seq<u8>>, now: u32)
    requires
        r.addr == q.addr,
        r.outgoing_peer_id == q.outgoing_peer_id,
        r.outgoing_session_id == q.outgoing_session_id,
        r.connect_id == q.connect_id,
        r.mtu == q.mtu,
    ensures
        r.flushed(ck, cmds, now) == q.flushed(ck, cmds, now),
{
    assert(r.room(ck) == q.room(ck));
    assert(r.flushed(ck, cmds, now) =~= q.flushed(ck, cmds, now));
}

/// Law: packets that are transmitted one after the other keep the order of
/// their channel.
pub proof fn lemma_all_in_order(
    q: PeerView,
    ck: bool,
    ch: u8,
    s: Stream,
    m: int,
    packets: Seq<PacketView>,
    rest: Seq<Seq<u8>>,
    now: u32,
) -> (n: int)
    requires
        forall|i: int| 0 <= i < packets.len() ==> in_range(q, #[trigger] packets[i]),
        numbered(q, ck, ch, s, m, reliable_data(packets, ch) + rest),
    ensures
        m <= n,
        numbered(q.transmit_all(ck, packets, now).0, ck, ch, s, n, rest),
        q.transmit_all(ck, packets, now).0.channels.len() == q.channels.len(),
    decreases packets.len(),
{
    if packets.len() == 0 {
        assert(reliable_data(packets, ch) + rest =~= rest);
        m
    } else {
        let front = packets.drop_last();
        let pkt = packets.last();
        assert forall|i: int| 0 <= i < front.len() implies in_range(q, #[trigger] front[i]) by {
            assert(in_range(q, packets[i]));
        }
        assert(in_range(q, packets[packets.len() - 1]));
        let after = if reliable_on(pkt, ch) {
            seq![pkt.data] + rest
        } else {
            rest
        };
        assert(reliable_data(packets, ch) + rest =~= reliable_data(front, ch) + after);
        let i = lemma_all_in_order(q, ck, ch, s, m, front, after, now);
        let r = q.transmit_all(ck, front, now).0;
        lemma_transmitted(r, ck, ch, s, i, after, pkt, now);
        if reliable_on(pkt, ch) {
            assert(after.skip(1) =~= rest);
            if r.holds_back(ck, pkt) {
                i
            } else {
                i + 1
            }
        } else {
            i
        }
    }
}

/// Law: a service sends what was held back in the order of the calls, as far
/// as the window allows, and before anything that is sent later.
pub proof fn lemma_service_in_order(
    q: PeerView,
    ck: bool,
    ch: u8,
    s: Stream,
    m: int,
    now: u32,
) -> (n: int)
    requires
        q.wf(ck),
        numbered(q, ck, ch, s, m, Seq::empty()),
    ensures
        m <= n,
        numbered(q.service(ck, now).0, ck, ch, s, n, Seq::empty()),
{
    let none = Seq::<Seq<u8>>::empty();
    let a = q.retransmit(ck, now).0;
    let b = a.ping(ck, now).0;
    let c = b.disconnect_later(ck, now).0;
    assert(c.pending == q.pending);
    assert(c.channels == q.channels);
    let d = PeerView { pending: Seq::empty(), ..c };
    assert(reliable_data(d.pending, ch) + (reliable_data(q.pending, ch) + none)
        =~= reliable_data(q.pending, ch) + none);
    assert forall|i: int| 0 <= i < c.pending.len() implies in_range(d, #[trigger] c.pending[i]) by {
        assert(q.sendable(ck, q.pending[i]));
    }
    lemma_all_in_order(d, ck, ch, s, m, c.pending, none, now)
}

/// Law: what comes from the other side, and a disconnect that the user asks
/// for, leave the numbers of a stream, and what is held back, alone.
pub proof fn lemma_numbers_kept(
    q: PeerView,
    ck: bool,
    ch: u8,
    s: Stream,
    m: int,
    key: PeerKey,
    c: command::CommandView,
    channel_id: u8,
    ack: AcknowledgeCmd,
    data: u32,
    now: u32,
)
    requires
        numbered(q, ck, ch, s, m, Seq::empty()),
    ensures
        numbered(q.on_data(key, c, now).0, ck, ch, s, m, Seq::empty()),
        numbered(q.acknowledged(channel_id, ack, now), ck, ch, s, m, Seq::empty()),
        numbered(q.send_disconnect(ck, data, now).0, ck, ch, s, m, Seq::empty()),
{
}

/// Law: a disconnect that was put off goes out only when all messages have
/// their numbers and nothing is in flight: every message that was sent before
/// was acknowledged.
pub proof fn lemma_disconnect_after_all(
    q: PeerView,
    ck: bool,
    ch: u8,
    s: Stream,
    m: int,
    now: u32,
)
    requires
        q.state is DisconnectLater,
        numbered(q, ck, ch, s, m, Seq::empty()),
        q.service(ck, now).0.state == PeerState::Disconnecting,
    ensures
        m == s.msgs.len(),
        q.outgoing.len() == 0,
{
    let a = q.retransmit(ck, now).0;
    let b = a.ping(ck, now).0;
    let c = b.disconnect_later(ck, now).0;
    teardown::lemma_transmit_state(PeerView { pending: Seq::empty(), ..c }, ck, c.pending, now);
    assert(b.pending == q.pending);
    assert(b.outgoing.len() == q.outgoing.len());
    assert(q.pending =~= Seq::empty());
    assert(s.msgs.skip(m).len() == 0);
}

/// Where a group of commands stands among all of them.
proof fn lemma_group(groups: Seq<Seq<Seq<u8>>>, i: int) -> (x: int)
    requires
        0 <= i < groups.len(),
    ensures
        0 <= x,
        x + groups[i].len() <= emit::join(groups).len(),
        emit::join(groups).subrange(x, x + groups[i].len()) == groups[i],
    decreases groups.len(),
{
    let front = emit::join(groups.drop_last());
    let all = emit::join(groups);
    if i == groups.len() - 1 {
        let x = front.len() as int;
        assert(all.subrange(x, x + groups[i].len()) =~= groups[i]);
        x
    } else {
        let x = lemma_group(groups.drop_last(), i);
        assert(all.subrange(x, x + groups[i].len()) =~= front.subrange(x, x + groups[i].len()));
        x
    }
}

/// Law: each datagram that goes out for a message of a stream carries pieces
/// of that message and nothing else, and no more than a datagram may have, so
/// that it is one of those that the law of reliable delivery speaks of.
pub proof fn lemma_message_datagram(l: Link, ck: bool, m: int, now: u32, i: int) -> (items: Seq<
    Item,
>)
    requires
        l.s.wf(),
        0 <= m < l.s.msgs.len(),
        0 <= i < l.p.flushed(ck, message_commands(l.s, l.ch, m), now).len(),
    ensures
        0 < items.len() <= MAX_COMMANDS_PER_PACKET,
        forall|k: int|
            0 <= k < items.len() ==> ((#[trigger] items[k]) matches Item::Part(p) && p.msg == m
                && l.s.has(p)),
        l.p.flushed(ck, message_commands(l.s, l.ch, m), now)[i] == (ActionView::SendTo {
            addr: l.p.addr,
            datagram: l.datagram(ck, Arrival { items, sent: now, now }),
        }),
{
    let cmds = message_commands(l.s, l.ch, m);
    let groups = emit::batches(cmds, l.p.room(ck));
    emit::lemma_batches(cmds, l.p.room(ck));
    assert(emit::join(groups) == cmds);
    let x = lemma_group(groups, i);
    let n = groups[i].len();
    let items = parts(m, x, n);
    ordering::lemma_pieces(l.s, m);
    lemma_parts_bytes(l, m, x, n);
    items
}

/// Pieces `x` to `x + n` of a message.
spec fn parts(m: int, x: int, n: nat) -> Seq<Item> {
    Seq::new(n, |k: int| Item::Part(Piece { msg: m, part: x + k }))
}

proof fn lemma_parts_bytes(l: Link, m: int, x: int, n: nat)
    requires
        0 <= x,
        x + n <= message_commands(l.s, l.ch, m).len(),
    ensures
        transport::bytes_of(l.commands(parts(m, x, n))) == message_commands(
            l.s,
            l.ch,
            m,
        ).subrange(x, x + n),
{
    let have = transport::bytes_of(l.commands(parts(m, x, n)));
    let want = message_commands(l.s, l.ch, m).subrange(x, x + n);
    assert forall|k: int| 0 <= k < n implies have[k] == want[k] by {
        assert(l.commands(parts(m, x, n))[k] == l.command(parts(m, x, n)[k]));
        assert(parts(m, x, n)[k] == Item::Part(Piece { msg: m, part: x + k }));
        assert(want[k] == message_commands(l.s, l.ch, m)[x + k]);
    }
    assert(have =~= want);
}

} // verus!
