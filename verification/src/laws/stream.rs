//! Reliable messages from one user to the other: in order, each once,
//! however the network treats the datagrams.

use vstd::prelude::*;

use crate::address::{Address, PeerKey};
use crate::channel;
use crate::channel::fragment;
use crate::channel::ordering;
use crate::channel::ordering::{Piece, Stream};
use crate::channel::{HeldView, MAX_INCOMING_RELIABLE_QUEUE};
use crate::laws::delivery;
use crate::laws::transport;
use crate::packet::SendMode;
use crate::peer::receive;
use crate::peer::{ActionView, PeerState, PeerView};
use crate::protocol::command;
use crate::protocol::{
    CMD_SEND_FRAGMENT, CMD_SEND_RELIABLE, MAX_COMMANDS_PER_PACKET, MAX_FRAGMENT_COUNT,
    MAX_PACKET_SIZE,
};
use crate::task::dispatch::Turn;
use crate::task::HostView;

verus! {

/// The payloads of the reliable packets that are handed to the user of `key`
/// on a channel.
pub open spec fn payloads(out: Seq<ActionView>, key: PeerKey, ch: u8) -> Seq<Seq<u8>>
    decreases out.len(),
{
    if out.len() == 0 {
        Seq::empty()
    } else {
        let before = payloads(out.drop_last(), key, ch);
        match out.last() {
            ActionView::Deliver { key: k, packet } if k == key && packet.channel == ch
                && packet.mode == SendMode::Reliable => before.push(packet.data),
            _ => before,
        }
    }
}

proof fn lemma_payloads_append(a: Seq<ActionView>, b: Seq<ActionView>, key: PeerKey, ch: u8)
    ensures
        payloads(a + b, key, ch) == payloads(a, key, ch) + payloads(b, key, ch),
    decreases b.len(),
{
    if b.len() == 0 {
        assert(a + b =~= a);
        assert(payloads(a, key, ch) + payloads(b, key, ch) =~= payloads(a, key, ch));
    } else {
        let s = a + b;
        assert(s.drop_last() =~= a + b.drop_last());
        assert(s.last() == b.last());
        lemma_payloads_append(a, b.drop_last(), key, ch);
        assert(payloads(s, key, ch) =~= payloads(a, key, ch) + payloads(b, key, ch));
    }
}

proof fn lemma_payloads_delivered(key: PeerKey, ch: u8, ready: Seq<Seq<u8>>)
    ensures
        payloads(receive::deliveries(key, ch, SendMode::Reliable, ready), key, ch) == ready,
    decreases ready.len(),
{
    let out = receive::deliveries(key, ch, SendMode::Reliable, ready);
    if ready.len() > 0 {
        lemma_payloads_delivered(key, ch, ready.drop_last());
        assert(out.drop_last() =~= receive::deliveries(
            key,
            ch,
            SendMode::Reliable,
            ready.drop_last(),
        ));
        assert(payloads(out, key, ch) =~= ready.drop_last().push(ready.last()));
        assert(ready =~= ready.drop_last().push(ready.last()));
    } else {
        assert(payloads(out, key, ch) =~= ready);
    }
}

/// Packets on another channel or of another mode are not counted.
proof fn lemma_payloads_foreign(
    key: PeerKey,
    other: u8,
    mode: SendMode,
    ready: Seq<Seq<u8>>,
    ch: u8,
)
    requires
        other != ch || mode != SendMode::Reliable,
    ensures
        payloads(receive::deliveries(key, other, mode, ready), key, ch) == Seq::<Seq<u8>>::empty(),
    decreases ready.len(),
{
    let out = receive::deliveries(key, other, mode, ready);
    if ready.len() > 0 {
        lemma_payloads_foreign(key, other, mode, ready.drop_last(), ch);
        assert(out.drop_last() =~= receive::deliveries(key, other, mode, ready.drop_last()));
    }
}

/// Datagrams are not counted.
proof fn lemma_payloads_sent(out: Seq<ActionView>, key: PeerKey, ch: u8)
    requires
        forall|i: int| 0 <= i < out.len() ==> (#[trigger] out[i]) is SendTo,
    ensures
        payloads(out, key, ch) == Seq::<Seq<u8>>::empty(),
    decreases out.len(),
{
    if out.len() > 0 {
        assert(out.last() is SendTo);
        assert forall|i: int| 0 <= i < out.drop_last().len() implies (
        #[trigger] out.drop_last()[i]) is SendTo by {
            assert(out[i] is SendTo);
        }
        lemma_payloads_sent(out.drop_last(), key, ch);
    }
}

/// The command of a piece.
pub open spec fn piece_command(s: Stream, ch: u8, p: Piece) -> command::CommandView {
    if s.split(p.msg) {
        channel::command_of(
            CMD_SEND_FRAGMENT,
            0x80,
            ch,
            s.number(p),
            command::BodyView::SendFragment(s.fragment(p)),
        )
    } else {
        channel::command_of(
            CMD_SEND_RELIABLE,
            0x80,
            ch,
            s.number(p),
            command::BodyView::SendReliable(s.msgs[p.msg]),
        )
    }
}

/// One command that one side sends to the other: a piece of the stream, or
/// anything else that is said on a connection.
pub enum Item {
    Part(Piece),
    Other(command::CommandView),
}

/// A stream of messages on a channel: the peer to which the datagrams are
/// sent, and the slot and the address by which the host that gets them knows
/// their sender.
pub struct Link {
    pub p: PeerView,
    pub key: PeerKey,
    pub from: Address,
    pub ch: u8,
    pub s: Stream,
}

/// A datagram as it arrives: its commands, when it was sent, and when it came.
pub struct Arrival {
    pub items: Seq<Item>,
    pub sent: u32,
    pub now: u32,
}

/// When a datagram was sent, as its header tells.
pub open spec fn stamp(a: Arrival) -> Option<u16> {
    Some((a.sent % 0x1_0000) as u16)
}

impl Link {
    /// Every message can be received, and fits the commands that carry it.
    pub open spec fn ok(self) -> bool {
        &&& self.s.wf()
        &&& self.s.limit <= 0xFFFF
        &&& forall|i: int|
            0 <= i < self.s.msgs.len() ==> (#[trigger] self.s.msgs[i]).len() <= MAX_PACKET_SIZE
                && self.s.pieces(i) <= MAX_FRAGMENT_COUNT
    }

    /// There is always room for a piece: it is a whole message of a stream of
    /// no more messages than a channel holds.
    pub open spec fn roomy(self, p: Piece) -> bool {
        &&& self.s.msgs.len() <= MAX_INCOMING_RELIABLE_QUEUE
        &&& !self.s.split(p.msg)
    }

    /// The command of an item.
    pub open spec fn command(self, it: Item) -> command::CommandView {
        match it {
            Item::Part(p) => piece_command(self.s, self.ch, p),
            Item::Other(c) => c,
        }
    }

    /// An item is a piece of one of the messages, or a command that is neither
    /// part of a handshake or disconnect nor a reliable one on the channel of
    /// the stream.
    pub open spec fn item_ok(self, it: Item) -> bool {
        match it {
            Item::Part(p) => self.s.has(p),
            Item::Other(c) => {
                &&& command::well_typed(c)
                &&& delivery::is_data(c) || c.body is Acknowledge
                &&& c.header.channel_id == self.ch ==> !(c.body is SendReliable) && !(
                c.body is SendFragment)
            },
        }
    }

    /// The commands of a datagram.
    pub open spec fn commands(self, items: Seq<Item>) -> Seq<command::CommandView> {
        items.map_values(|it: Item| self.command(it))
    }

    /// The datagram of an arrival.
    pub open spec fn datagram(self, ck: bool, a: Arrival) -> Seq<u8> {
        self.p.datagram(ck, transport::bytes_of(self.commands(a.items)), a.sent)
    }

    /// A datagram holds what can be read, and nothing that ends the
    /// connection.
    pub open spec fn arrival_ok(self, a: Arrival) -> bool {
        &&& a.items.len() <= MAX_COMMANDS_PER_PACKET
        &&& forall|k: int| 0 <= k < a.items.len() ==> self.item_ok(#[trigger] a.items[k])
    }

    /// Every datagram is such a one.
    pub open spec fn traffic_ok(self, traffic: Seq<Arrival>) -> bool {
        forall|j: int| 0 <= j < traffic.len() ==> self.arrival_ok(#[trigger] traffic[j])
    }

    /// The host, and all that it did, after datagrams came.
    pub open spec fn received(self, h: HostView, traffic: Seq<Arrival>) -> (
        HostView,
        Seq<ActionView>,
    )
        decreases traffic.len(),
    {
        if traffic.len() == 0 {
            (h, Seq::empty())
        } else {
            let (g, out) = self.received(h, traffic.drop_last());
            let a = traffic.last();
            let (k, more) = g.on_datagram(self.datagram(h.use_checksum, a), self.from, a.now);
            (k, out + more)
        }
    }

    /// The turn of the host after commands of a datagram.
    pub open spec fn turn(self, h: HostView, items: Seq<Item>, a: Arrival) -> Turn {
        Turn::first(h).on_commands(
            Some(self.key),
            stamp(a),
            self.commands(items),
            self.from,
            a.now,
        )
    }

    /// The pieces among the first commands of a datagram that are not refused
    /// for lack of room, and so acknowledged.
    pub open spec fn taken_in(self, h: HostView, items: Seq<Item>, a: Arrival) -> Set<Piece>
        decreases items.len(),
    {
        if items.len() == 0 {
            Set::empty()
        } else {
            let before = self.taken_in(h, items.drop_last(), a);
            let host = self.turn(h, items.drop_last(), a).host;
            match items.last() {
                Item::Part(p) if !host.refuses(self.key, self.command(items.last())) =>
                    before.insert(p),
                _ => before,
            }
        }
    }

    /// The pieces that were acknowledged so far.
    pub open spec fn taken(self, h: HostView, traffic: Seq<Arrival>) -> Set<Piece>
        decreases traffic.len(),
    {
        if traffic.len() == 0 {
            Set::empty()
        } else {
            let g = self.received(h, traffic.drop_last()).0;
            let a = traffic.last();
            self.taken(h, traffic.drop_last()) + self.taken_in(g, a.items, a)
        }
    }

    /// Each piece in a datagram that comes after `n` messages came out is near
    /// the message that is to come out next.
    pub open spec fn timely_in(self, h: HostView, n: int, items: Seq<Item>, a: Arrival) -> bool
        decreases items.len(),
    {
        items.len() > 0 ==> {
            let front = items.drop_last();
            let more = payloads(self.turn(h, front, a).out, self.key, self.ch).len();
            &&& self.timely_in(h, n, front, a)
            &&& items.last() matches Item::Part(p) ==> self.s.near(n + more, p.msg)
        }
    }

    /// No piece comes so late, or so early, that its number stands for another
    /// message: when it arrives, it is near the message that is to come out
    /// next.
    pub open spec fn timely(self, h: HostView, traffic: Seq<Arrival>) -> bool
        decreases traffic.len(),
    {
        traffic.len() > 0 ==> {
            let front = traffic.drop_last();
            let (g, out) = self.received(h, front);
            &&& self.timely(h, front)
            &&& self.timely_in(
                g,
                payloads(out, self.key, self.ch).len() as int,
                traffic.last().items,
                traffic.last(),
            )
        }
    }

    /// The host knows the sender, and `n` messages of the stream came out.
    pub open spec fn listening(self, h: HostView, ck: bool, taken: Set<Piece>, n: int) -> bool {
        &&& transport::addressed(self.p, h, Some(self.key), self.from)
        &&& h.use_checksum == ck
        &&& h.live(self.key)
        &&& h.peer(self.key).state == PeerState::Connected
        &&& self.ch < h.peer(self.key).channels.len()
        &&& ordering::follows(
            h.peer(self.key).channels[self.ch as int],
            self.s,
            taken,
            n,
        )
    }
}

/// A piece arrived in one of the datagrams.
pub open spec fn arrived(traffic: Seq<Arrival>, p: Piece) -> bool {
    exists|j: int| 0 <= j < traffic.len() && arrived_in((#[trigger] traffic[j]).items, p)
}

/// A piece is among the commands of a datagram.
pub open spec fn arrived_in(items: Seq<Item>, p: Piece) -> bool {
    items.contains(Item::Part(p))
}

/// A command that is not of the stream.
proof fn lemma_other_data(
    l: Link,
    q: PeerView,
    c: command::CommandView,
    taken: Set<Piece>,
    n: int,
    now: u32,
)
    requires
        l.ch < q.channels.len(),
        delivery::is_data(c),
        l.item_ok(Item::Other(c)),
        ordering::follows(q.channels[l.ch as int], l.s, taken, n),
    ensures
        ({
            let (r, out) = q.on_data(l.key, c, now);
            &&& r.state == q.state
            &&& r.incoming_session_id == q.incoming_session_id
            &&& r.connect_id == q.connect_id
            &&& r.channels.len() == q.channels.len()
            &&& ordering::follows(r.channels[l.ch as int], l.s, taken, n)
            &&& payloads(out, l.key, l.ch) == Seq::<Seq<u8>>::empty()
        }),
{
    let other = c.header.channel_id;
    let (key, ch) = (l.key, l.ch);
    let a = q.channels[ch as int];
    let b = q.on_data(key, c, now).0.channels[ch as int];
    match c.body {
        command::BodyView::SendReliable(d) => {
            let ready = q.on_reliable(other, c.header.reliable_seq, d, now).1;
            lemma_payloads_foreign(key, other, SendMode::Reliable, ready, ch);
        },
        command::BodyView::SendUnreliable(m, d) => {
            channel::lemma_receive_wf(a, m, 1, d);
            let ready = q.on_unreliable(other, c.header.reliable_seq, m, d, now).1;
            lemma_payloads_foreign(key, other, SendMode::Unreliable, ready, ch);
        },
        command::BodyView::SendFragment(f) => {
            channel::lemma_without_wf(a, true);
            let ready = q.on_fragment(other, f, true, now).1;
            lemma_payloads_foreign(key, other, SendMode::Reliable, ready, ch);
        },
        command::BodyView::SendUnreliableFragment(f) => {
            let stored = a.store_fragment(f, false);
            assert(stored.wf());
            channel::lemma_receive_wf(stored, f.start_seq, 1, Seq::empty());
            let ready = q.on_fragment(other, f, false, now).1;
            lemma_payloads_foreign(key, other, SendMode::Unreliable, ready, ch);
        },
        command::BodyView::SendUnsequenced(g, d) => {
            let ready = q.on_unsequenced(g, d, now).1;
            lemma_payloads_foreign(key, 0, SendMode::Unsequenced, ready, ch);
        },
        _ => {},
    }
    ordering::lemma_still_follows(a, b, l.s, taken, n);
}

/// Another state of the peer from which the stream can go on.
proof fn lemma_still_listening(
    l: Link,
    h: HostView,
    ck: bool,
    taken: Set<Piece>,
    n: int,
    q: PeerView,
    more: Set<Piece>,
    m: int,
)
    requires
        l.listening(h, ck, taken, n),
        q.state == PeerState::Connected,
        q.incoming_session_id == h.peer(l.key).incoming_session_id,
        q.connect_id == h.peer(l.key).connect_id,
        q.channels.len() == h.peer(l.key).channels.len(),
        ordering::follows(q.channels[l.ch as int], l.s, more, m),
    ensures
        l.listening(h.with_peer(l.key, q), ck, more, m),
{
    assert(h.with_peer(l.key, q).peer(l.key) == q);
}

/// A fragment of the stream makes sense by itself.
proof fn lemma_piece_valid(l: Link, p: Piece)
    requires
        l.ok(),
        l.s.has(p),
        l.s.split(p.msg),
    ensures
        receive::fragment_valid(l.s.fragment(p)),
        l.s.fragment(p).start_seq == l.s.first(p.msg),
        l.s.fragment(p).data.len() <= 0xFFFF,
{
    let data = l.s.msgs[p.msg];
    fragment::lemma_piece_bounds(data.len() as int, l.s.size, p.part);
    ordering::lemma_pieces(l.s, p.msg);
}

/// A piece of the stream.
proof fn lemma_part(
    l: Link,
    q: PeerView,
    p: Piece,
    taken: Set<Piece>,
    n: int,
    now: u32,
) -> (m: int)
    requires
        l.ok(),
        l.s.has(p),
        l.s.near(n, p.msg),
        l.ch < q.channels.len(),
        ordering::follows(q.channels[l.ch as int], l.s, taken, n),
    ensures
        ({
            let c = piece_command(l.s, l.ch, p);
            let (r, out) = q.on_data(l.key, c, now);
            &&& r.state == q.state
            &&& r.incoming_session_id == q.incoming_session_id
            &&& r.connect_id == q.connect_id
            &&& r.channels.len() == q.channels.len()
            &&& n <= m <= l.s.msgs.len()
            &&& payloads(out, l.key, l.ch) == l.s.msgs.subrange(n, m)
            &&& if q.refuses(c) {
                m == n && ordering::follows(r.channels[l.ch as int], l.s, taken, m)
            } else {
                ordering::follows(r.channels[l.ch as int], l.s, taken.insert(p), m)
            }
        }),
{
    let c = piece_command(l.s, l.ch, p);
    let a = q.channels[l.ch as int];
    assert(l.s.msgs.subrange(n, n) =~= Seq::empty());
    if l.s.split(p.msg) {
        lemma_piece_valid(l, p);
        let ready = q.on_fragment(l.ch, l.s.fragment(p), true, now).1;
        lemma_payloads_delivered(l.key, l.ch, ready);
    } else {
        assert(l.s.number(p) == l.s.first(p.msg));
        let ready = q.on_reliable(l.ch, l.s.first(p.msg), l.s.msgs[p.msg], now).1;
        lemma_payloads_delivered(l.key, l.ch, ready);
    }
    if l.s.split(p.msg) && !q.stale(l.ch, l.s.fragment(p), true) {
        let b = q.heard(now).make_room(l.ch, l.s.fragment(p), true).channels[l.ch as int];
        channel::lemma_without_wf(a, true);
        ordering::lemma_still_follows(a, b, l.s, taken, n);
        if q.refuses(c) {
            n
        } else {
            ordering::lemma_piece_arrives(b, l.s, taken, n, p)
        }
    } else if q.refuses(c) {
        n
    } else {
        ordering::lemma_piece_arrives(a, l.s, taken, n, p)
    }
}

/// One command of the traffic.
proof fn lemma_item(
    l: Link,
    t: Turn,
    ck: bool,
    st: Option<u16>,
    it: Item,
    taken: Set<Piece>,
    n: int,
    now: u32,
) -> (m: int)
    requires
        l.ok(),
        l.listening(t.host, ck, taken, n),
        l.item_ok(it),
        it matches Item::Part(p) ==> l.s.near(n, p.msg),
    ensures
        ({
            let u = t.on_command(Some(l.key), st, l.command(it), l.from, now);
            let more = match it {
                Item::Part(p) if !t.host.refuses(l.key, l.command(it)) => taken.insert(p),
                _ => taken,
            };
            &&& n <= m <= l.s.msgs.len()
            &&& l.listening(u.host, ck, more, m)
            &&& payloads(u.out, l.key, l.ch) == payloads(t.out, l.key, l.ch) + l.s.msgs.subrange(
                n,
                m,
            )
            &&& it matches Item::Part(p) ==> l.roomy(p) ==> more.contains(p)
        }),
{
    let (key, ch) = (l.key, l.ch);
    let h = t.host;
    let q = h.peer(key);
    match it {
        Item::Part(p) => {
            let c = l.command(it);
            let (r, out) = q.on_data(key, c, now);
            let m = lemma_part(l, q, p, taken, n, now);
            lemma_payloads_append(t.out, out, key, ch);
            if l.roomy(p) {
                let a = q.channels[ch as int];
                ordering::lemma_room(a, l.s, taken, n, c.header.reliable_seq);
            }
            let more = if q.refuses(c) {
                taken
            } else {
                taken.insert(p)
            };
            lemma_still_listening(l, h, ck, taken, n, r, more, m);
            m
        },
        Item::Other(o) => {
            let none = l.s.msgs.subrange(n, n);
            assert(none =~= Seq::empty());
            assert(payloads(t.out, key, ch) + none =~= payloads(t.out, key, ch));
            match o.body {
                command::BodyView::Acknowledge(ack) => {
                    let r = q.acknowledged(o.header.channel_id, ack, now);
                    lemma_still_listening(l, h, ck, taken, n, r, taken, n);
                    assert(t.out + Seq::<ActionView>::empty() =~= t.out);
                },
                _ => {
                    let (r, out) = q.on_data(key, o, now);
                    lemma_other_data(l, q, o, taken, n, now);
                    lemma_payloads_append(t.out, out, key, ch);
                    lemma_still_listening(l, h, ck, taken, n, r, taken, n);
                },
            }
            n
        },
    }
}

/// The commands of one datagram.
proof fn lemma_items(l: Link, h: HostView, items: Seq<Item>, a: Arrival, taken: Set<Piece>, n: int)
    -> (m: int)
    requires
        l.ok(),
        l.listening(h, h.use_checksum, taken, n),
        forall|k: int| 0 <= k < items.len() ==> l.item_ok(#[trigger] items[k]),
        l.timely_in(h, n, items, a),
    ensures
        ({
            let t = l.turn(h, items, a);
            &&& n <= m <= l.s.msgs.len()
            &&& l.listening(t.host, h.use_checksum, taken + l.taken_in(h, items, a), m)
            &&& payloads(t.out, l.key, l.ch) == l.s.msgs.subrange(n, m)
            &&& forall|p: Piece| #[trigger]
                arrived_in(items, p) && l.roomy(p) ==> (taken + l.taken_in(h, items, a)).contains(p)
        }),
    decreases items.len(),
{
    let cmds = l.commands(items);
    if items.len() == 0 {
        assert(cmds.len() == 0);
        assert(taken + l.taken_in(h, items, a) =~= taken);
        assert(l.s.msgs.subrange(n, n) =~= Seq::empty());
        n
    } else {
        let front = items.drop_last();
        assert(l.commands(front) =~= cmds.drop_last());
        assert forall|k: int| 0 <= k < front.len() implies l.item_ok(#[trigger] front[k]) by {
            assert(l.item_ok(items[k]));
        }
        let i = lemma_items(l, h, front, a, taken, n);
        let t = l.turn(h, front, a);
        let it = items.last();
        let so_far = taken + l.taken_in(h, front, a);
        assert(l.item_ok(items[items.len() - 1]));
        assert(cmds.last() == l.command(it));
        let m = lemma_item(l, t, h.use_checksum, stamp(a), it, so_far, i, a.now);
        assert(l.s.msgs.subrange(n, i) + l.s.msgs.subrange(i, m) =~= l.s.msgs.subrange(n, m));
        if let Item::Part(p) = it {
            assert(taken + l.taken_in(h, front, a).insert(p) =~= so_far.insert(p));
        }
        assert forall|p: Piece| #[trigger] arrived_in(items, p) && l.roomy(p) implies (taken
            + l.taken_in(h, items, a)).contains(p) by {
            if it != Item::Part(p) {
                let k = choose|k: int| 0 <= k < items.len() && items[k] == Item::Part(p);
                assert(front[k] == Item::Part(p));
                assert(arrived_in(front, p));
                assert(so_far.contains(p));
            }
        }
        m
    }
}

/// One datagram, with the acknowledgements that it brings about.
proof fn lemma_arrival(l: Link, h: HostView, a: Arrival, taken: Set<Piece>, n: int) -> (m: int)
    requires
        l.ok(),
        l.listening(h, h.use_checksum, taken, n),
        l.arrival_ok(a),
        l.timely_in(h, n, a.items, a),
    ensures
        ({
            let (g, out) = h.on_datagram(l.datagram(h.use_checksum, a), l.from, a.now);
            &&& n <= m <= l.s.msgs.len()
            &&& l.listening(g, h.use_checksum, taken + l.taken_in(h, a.items, a), m)
            &&& payloads(out, l.key, l.ch) == l.s.msgs.subrange(n, m)
            &&& forall|p: Piece| #[trigger]
                arrived_in(a.items, p) && l.roomy(p) ==> (taken + l.taken_in(
                    h,
                    a.items,
                    a,
                )).contains(p)
        }),
{
    let (key, ch) = (l.key, l.ch);
    let cmds = l.commands(a.items);
    assert forall|k: int| 0 <= k < cmds.len() implies command::well_typed(#[trigger] cmds[k]) by {
        let it = a.items[k];
        assert(l.item_ok(it));
        if let Item::Part(p) = it {
            let c = l.command(it);
            if l.s.split(p.msg) {
                lemma_piece_valid(l, p);
                transport::lemma_well_typed(CMD_SEND_FRAGMENT, 0x80, ch, l.s.number(p), c.body);
            } else {
                transport::lemma_well_typed(CMD_SEND_RELIABLE, 0x80, ch, l.s.number(p), c.body);
            }
        }
    }
    transport::lemma_datagram_received(l.p, h, Some(key), l.from, cmds, a.sent, a.now);
    let m = lemma_items(l, h, a.items, a, taken, n);
    let t = l.turn(h, a.items, a);
    let more = taken + l.taken_in(h, a.items, a);
    if t.acks.len() > 0 {
        let q = t.host.peer(key);
        let sent = q.flushed(t.host.use_checksum, t.acks, a.now);
        lemma_payloads_sent(sent, key, ch);
        lemma_payloads_append(t.out, sent, key, ch);
        assert(payloads(t.out, key, ch) + Seq::<Seq<u8>>::empty() =~= payloads(t.out, key, ch));
        lemma_still_listening(
            l,
            t.host,
            h.use_checksum,
            more,
            m,
            q.sent(t.acks, a.now),
            more,
            m,
        );
    }
    m
}

proof fn lemma_traffic(l: Link, h: HostView, traffic: Seq<Arrival>) -> (n: int)
    requires
        l.ok(),
        l.listening(h, h.use_checksum, Set::empty(), 0),
        l.traffic_ok(traffic),
        l.timely(h, traffic),
    ensures
        ({
            let (g, out) = l.received(h, traffic);
            &&& 0 <= n <= l.s.msgs.len()
            &&& l.listening(g, h.use_checksum, l.taken(h, traffic), n)
            &&& payloads(out, l.key, l.ch) == l.s.msgs.take(n)
            &&& forall|p: Piece| #[trigger]
                arrived(traffic, p) && l.roomy(p) ==> l.taken(h, traffic).contains(p)
        }),
    decreases traffic.len(),
{
    if traffic.len() == 0 {
        assert(l.s.msgs.take(0) =~= Seq::empty());
        0
    } else {
        let front = traffic.drop_last();
        let a = traffic.last();
        assert forall|j: int| 0 <= j < front.len() implies l.arrival_ok(#[trigger] front[j]) by {
            assert(l.arrival_ok(traffic[j]));
        }
        let i = lemma_traffic(l, h, front);
        let (g, out) = l.received(h, front);
        assert(l.arrival_ok(traffic[traffic.len() - 1]));
        let n = lemma_arrival(l, g, a, l.taken(h, front), i);
        let more = g.on_datagram(l.datagram(h.use_checksum, a), l.from, a.now).1;
        lemma_payloads_append(out, more, l.key, l.ch);
        assert(l.s.msgs.take(i) + l.s.msgs.subrange(i, n) =~= l.s.msgs.take(n));
        assert forall|p: Piece| #[trigger] arrived(traffic, p) && l.roomy(p) implies l.taken(
            h,
            traffic,
        ).contains(p) by {
            let j = choose|j: int|
                0 <= j < traffic.len() && arrived_in((#[trigger] traffic[j]).items, p);
            if j < front.len() {
                assert(arrived_in(front[j].items, p));
                assert(arrived(front, p));
            } else {
                assert(arrived_in(a.items, p));
            }
        }
        n
    }
}

/// Only what arrived is acknowledged.
proof fn lemma_taken_in(l: Link, h: HostView, items: Seq<Item>, a: Arrival)
    ensures
        forall|p: Piece| #[trigger] l.taken_in(h, items, a).contains(p) ==> arrived_in(items, p),
    decreases items.len(),
{
    if items.len() > 0 {
        let front = items.drop_last();
        lemma_taken_in(l, h, front, a);
        assert forall|p: Piece| #[trigger] l.taken_in(h, items, a).contains(p) implies arrived_in(
            items,
            p,
        ) by {
            if items.last() == Item::Part(p) {
                assert(items[items.len() - 1] == Item::Part(p));
            } else {
                assert(l.taken_in(h, front, a).contains(p));
                assert(arrived_in(front, p));
                let k = choose|k: int| 0 <= k < front.len() && front[k] == Item::Part(p);
                assert(items[k] == Item::Part(p));
            }
        }
    }
}

proof fn lemma_taken(l: Link, h: HostView, traffic: Seq<Arrival>)
    ensures
        forall|p: Piece| #[trigger] l.taken(h, traffic).contains(p) ==> arrived(traffic, p),
    decreases traffic.len(),
{
    if traffic.len() > 0 {
        let front = traffic.drop_last();
        let a = traffic.last();
        let g = l.received(h, front).0;
        lemma_taken(l, h, front);
        lemma_taken_in(l, g, a.items, a);
        assert forall|p: Piece| #[trigger] l.taken(h, traffic).contains(p) implies arrived(
            traffic,
            p,
        ) by {
            if l.taken(h, front).contains(p) {
                assert(arrived(front, p));
                let j = choose|j: int|
                    0 <= j < front.len() && arrived_in((#[trigger] front[j]).items, p);
                assert(arrived_in(traffic[j].items, p));
            } else {
                assert(arrived_in(traffic[traffic.len() - 1].items, p));
            }
        }
    }
}

/// A stream begins: nothing of it came yet.
pub open spec fn begins(l: Link, h: HostView) -> bool {
    &&& transport::addressed(l.p, h, Some(l.key), l.from)
    &&& h.live(l.key)
    &&& h.peer(l.key).wf(h.use_checksum)
    &&& h.peer(l.key).state == PeerState::Connected
    &&& l.ch < h.peer(l.key).channels.len()
    &&& ({
        let c = h.peer(l.key).channels[l.ch as int];
        &&& c.incoming_reliable_seq == l.s.base
        &&& c.queue == Map::<u16, HeldView>::empty()
        &&& forall|k: u16| !#[trigger] c.fragments.contains_key(ordering::at(k))
    })
}

/// Law: reliable delivery, from host to user. One side of a connection sends
/// any number of messages of any size on a channel, each in one piece or in
/// fragments. The network loses datagrams, repeats them and hands them over in
/// any order, as long as none is so late that its numbers are in use again;
/// commands go out again, alone or with others, and whatever else is said on
/// the connection comes in between. The user of the other side gets a front
/// part of the messages, in the order in which they were sent, each whole and
/// each once: all of them up to the first of which some piece was not
/// acknowledged so far. A piece is acknowledged when it arrives, unless it is
/// refused for lack of room; a whole message of a stream of no more than a
/// channel holds never is.
pub proof fn lemma_reliable_stream(l: Link, h: HostView, traffic: Seq<Arrival>)
    requires
        l.ok(),
        begins(l, h),
        l.traffic_ok(traffic),
        l.timely(h, traffic),
    ensures
        ({
            let got = payloads(l.received(h, traffic).1, l.key, l.ch);
            let n = got.len() as int;
            let taken = l.taken(h, traffic);
            &&& got == l.s.msgs.take(n)
            &&& forall|i: int| 0 <= i < n ==> #[trigger] ordering::whole(l.s, taken, i)
            &&& n < l.s.msgs.len() ==> !ordering::whole(l.s, taken, n)
            &&& forall|p: Piece| #[trigger] taken.contains(p) ==> arrived(traffic, p)
            &&& forall|p: Piece| #[trigger]
                arrived(traffic, p) && l.roomy(p) ==> taken.contains(p)
        }),
{
    let c = h.peer(l.key).channels[l.ch as int];
    assert(c.wf());
    ordering::lemma_stream_starts(c, l.s);
    let n = lemma_traffic(l, h, traffic);
    let g = l.received(h, traffic).0;
    let d = g.peer(l.key).channels[l.ch as int];
    ordering::lemma_next_missing(d, l.s, l.taken(h, traffic), n);
    lemma_taken(l, h, traffic);
}

/// Law: with no more numbers than a channel may have in flight nothing comes
/// too late or too early, whatever the network does, so that the messages of
/// such a stream come out as the law of reliable delivery says.
pub proof fn lemma_short_stream(l: Link, h: HostView, traffic: Seq<Arrival>)
    requires
        l.ok(),
        l.s.used(l.s.msgs.len() as int) <= 0x8000,
        begins(l, h),
        l.traffic_ok(traffic),
    ensures
        l.timely(h, traffic),
    decreases traffic.len(),
{
    if traffic.len() > 0 {
        let front = traffic.drop_last();
        let a = traffic.last();
        assert forall|j: int| 0 <= j < front.len() implies l.arrival_ok(#[trigger] front[j]) by {
            assert(l.arrival_ok(traffic[j]));
        }
        assert(l.arrival_ok(traffic[traffic.len() - 1]));
        lemma_short_stream(l, h, front);
        let c = h.peer(l.key).channels[l.ch as int];
        assert(c.wf());
        ordering::lemma_stream_starts(c, l.s);
        let n = lemma_traffic(l, h, front);
        lemma_short_items(l, l.received(h, front).0, a.items, a, l.taken(h, front), n);
    }
}

proof fn lemma_short_items(
    l: Link,
    h: HostView,
    items: Seq<Item>,
    a: Arrival,
    taken: Set<Piece>,
    n: int,
)
    requires
        l.ok(),
        l.s.used(l.s.msgs.len() as int) <= 0x8000,
        l.listening(h, h.use_checksum, taken, n),
        forall|k: int| 0 <= k < items.len() ==> l.item_ok(#[trigger] items[k]),
    ensures
        l.timely_in(h, n, items, a),
    decreases items.len(),
{
    if items.len() > 0 {
        let front = items.drop_last();
        assert forall|k: int| 0 <= k < front.len() implies l.item_ok(#[trigger] front[k]) by {
            assert(l.item_ok(items[k]));
        }
        assert(l.item_ok(items[items.len() - 1]));
        lemma_short_items(l, h, front, a, taken, n);
        let i = lemma_items(l, h, front, a, taken, n);
        if let Item::Part(p) = items.last() {
            ordering::lemma_short_near(l.s, i, p.msg);
        }
    }
}

} // verus!
