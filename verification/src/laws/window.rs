//! How much is in flight on a channel, and to a peer.

use vstd::prelude::*;

use crate::channel;
use crate::channel::fragment;
use crate::laws::delivery;
use crate::laws::fragments;
use crate::laws::packets;
use crate::laws::receiving;
use crate::outgoing;
use crate::outgoing::OutView;
use crate::packet::{PacketView, SendMode};
use crate::peer::send;
use crate::peer::{PeerState, PeerView};
use crate::protocol::command;
use crate::protocol::sequence;
use crate::protocol::{CMD_SEND_FRAGMENT, CMD_SEND_RELIABLE};

verus! {

/// Every command of a channel in flight has one of the `width` numbers up to
/// `last`.
pub open spec fn within(s: Seq<OutView>, ch: u8, last: u16, width: int) -> bool {
    forall|i: int|
        0 <= i < s.len() && (#[trigger] s[i]).channel_id == ch ==> sequence::seq_distance(
            s[i].reliable_seq,
            last,
        ) < width
}

/// Law: the oldest command in flight on a channel is the one furthest behind.
pub proof fn lemma_oldest(s: Seq<OutView>, ch: u8, last: u16)
    requires
        within(s, ch, last, 0x8000),
    ensures
        match send::oldest(s, ch) {
            None => forall|i: int| 0 <= i < s.len() ==> (#[trigger] s[i]).channel_id != ch,
            Some(o) => {
                &&& sequence::seq_distance(o, last) < 0x8000
                &&& forall|i: int|
                    0 <= i < s.len() && (#[trigger] s[i]).channel_id == ch
                        ==> sequence::seq_distance(s[i].reliable_seq, last)
                        <= sequence::seq_distance(o, last)
            },
        },
    decreases s.len(),
{
    if s.len() > 0 {
        let front = s.drop_last();
        assert forall|i: int| 0 <= i < front.len() && (#[trigger] front[i]).channel_id
            == ch implies sequence::seq_distance(front[i].reliable_seq, last) < 0x8000 by {
            assert(s[i] == front[i]);
        }
        lemma_oldest(front, ch, last);
        let r = s.last();
        assert(s[s.len() - 1] == r);
        assert forall|i: int| 0 <= i < s.len() - 1 implies #[trigger] s[i] == front[i] by {}
    }
}

/// What is there after insertions was inserted, or was there before.
proof fn lemma_all_members(s: Seq<OutView>, items: Seq<OutView>, i: int)
    requires
        0 <= i < outgoing::insert_all(s, items).len(),
    ensures
        s.contains(outgoing::insert_all(s, items)[i]) || items.contains(
            outgoing::insert_all(s, items)[i],
        ),
    decreases items.len(),
{
    let t = outgoing::insert_all(s, items);
    if items.len() == 0 {
        assert(s[i] == t[i]);
    } else {
        let front = items.drop_last();
        let u = outgoing::insert_all(s, front);
        outgoing::lemma_insert_members(u, items.last(), i);
        if t[i] == items.last() {
            assert(items[items.len() - 1] == t[i]);
        } else {
            let j = choose|j: int| 0 <= j < u.len() && u[j] == t[i];
            lemma_all_members(s, front, j);
            if front.contains(t[i]) {
                let k = choose|k: int| 0 <= k < front.len() && front[k] == t[i];
                assert(items[k] == t[i]);
            }
        }
    }
}

/// How far a new command is behind the last one.
proof fn lemma_new_distance(last: u16, j: int, n: int)
    requires
        0 <= j < n <= 0x8000,
    ensures
        sequence::seq_distance(sequence::seq_plus(last, j + 1), sequence::seq_plus(last, n)) == n
            - j - 1,
{
}

/// How far a command is behind once `n` more are sent.
proof fn lemma_old_distance(x: u16, last: u16, n: int)
    requires
        0 <= n <= 0x8000,
        sequence::seq_distance(x, last) < 0x8000,
    ensures
        sequence::seq_distance(x, sequence::seq_plus(last, n)) == sequence::seq_distance(x, last)
            + n || sequence::seq_distance(x, last) + n >= 0x1_0000,
{
}

/// Commands that follow `last` join those in flight.
proof fn lemma_joined(s: Seq<OutView>, ch: u8, last: u16, items: Seq<OutView>, width: int)
    requires
        within(s, ch, last, 0x8000),
        1 <= items.len() <= width <= 0x8000,
        forall|i: int|
            0 <= i < items.len() ==> (#[trigger] items[i]).reliable_seq == sequence::seq_plus(
                last,
                i + 1,
            ),
        send::oldest(s, ch) matches Some(o) ==> sequence::seq_distance(
            o,
            sequence::seq_next(last),
        ) + items.len() - 1 < width,
    ensures
        within(
            outgoing::insert_all(s, items),
            ch,
            sequence::seq_plus(last, items.len() as int),
            width,
        ),
{
    let next = sequence::seq_plus(last, items.len() as int);
    let t = outgoing::insert_all(s, items);
    lemma_oldest(s, ch, last);
    assert forall|i: int|
        0 <= i < t.len() && (#[trigger] t[i]).channel_id == ch implies sequence::seq_distance(
        t[i].reliable_seq,
        next,
    ) < width by {
        lemma_all_members(s, items, i);
        if items.contains(t[i]) {
            let j = choose|j: int| 0 <= j < items.len() && items[j] == t[i];
            assert(items[j].reliable_seq == sequence::seq_plus(last, j + 1));
            lemma_new_distance(last, j, items.len() as int);
        } else {
            let j = choose|j: int| 0 <= j < s.len() && s[j] == t[i];
            assert(s[j].channel_id == ch);
            let o = send::oldest(s, ch)->0;
            lemma_old_distance(o, last, 1);
            lemma_old_distance(t[i].reliable_seq, last, items.len() as int);
        }
    }
}

/// How wide the numbers in flight on a channel spread once a reliable message
/// is sent: within the effective window, or within the numbers of the message
/// where it goes alone.
pub open spec fn spread(p: PeerView, ck: bool, data: Seq<u8>) -> int {
    let n = p.reliable_pieces(ck, data);
    if p.effective_window() >= n {
        p.effective_window()
    } else {
        n
    }
}

proof fn lemma_sent_count(p: PeerView, ck: bool, pkt: PacketView, now: u32)
    requires
        pkt.mode == SendMode::Reliable,
        pkt.channel < p.channels.len(),
        !p.holds_back(ck, pkt),
        pkt.data.len() > p.reliable_room(ck) ==> p.fragment_room(ck) > 0,
        0 <= p.reliable_room(ck),
    ensures
        p.transmit_plan(ck, pkt, now).1.len() == p.reliable_pieces(ck, pkt.data),
        1 <= p.reliable_pieces(ck, pkt.data),
{
    if pkt.data.len() > p.reliable_room(ck) {
        let len = pkt.data.len() as int;
        let size = p.fragment_room(ck);
        assert((len + size - 1) / size >= 1) by (nonlinear_arith)
            requires
                len >= 1,
                size >= 1,
        ;
    }
}

/// Law: when a reliable message is sent, in one piece or in fragments, the
/// numbers in flight on its channel stay within the effective window, or
/// within its own numbers where nothing else of the channel is in flight, and
/// so within half of the number space, where the receiver can tell what is old
/// from what is new.
pub proof fn lemma_window_kept(p: PeerView, ck: bool, pkt: PacketView, now: u32)
    requires
        p.wf(ck),
        p.state == PeerState::Connected,
        pkt.mode == SendMode::Reliable,
        pkt.channel < p.channels.len(),
        p.sendable(ck, pkt),
        p.reliable_pieces(ck, pkt.data) <= 0x8000,
        within(
            p.outgoing,
            pkt.channel,
            p.channels[pkt.channel as int].outgoing_reliable_seq,
            0x8000,
        ),
    ensures
        ({
            let q = p.send(ck, pkt, now).0;
            let last = q.channels[pkt.channel as int].outgoing_reliable_seq;
            &&& within(q.outgoing, pkt.channel, last, 0x8000)
            &&& !p.holds_back(ck, pkt) ==> within(
                q.outgoing,
                pkt.channel,
                last,
                spread(p, ck, pkt.data),
            )
            &&& spread(p, ck, pkt.data) <= 0x8000
        }),
{
    let ch = pkt.channel;
    let last = p.channels[ch as int].outgoing_reliable_seq;
    let (q, cmds) = p.transmit_plan(ck, pkt, now);
    delivery::lemma_reliable_kept(p, ck, pkt, now);
    if !p.holds_back(ck, pkt) {
        lemma_sent_count(p, ck, pkt, now);
        let items = delivery::sent_commands(p, ck, pkt, now);
        let width = spread(p, ck, pkt.data);
        lemma_joined(p.outgoing, ch, last, items, width);
        assert(q.channels[ch as int].outgoing_reliable_seq == sequence::seq_plus(
            last,
            items.len() as int,
        ));
        let r = p.send(ck, pkt, now).0;
        assert forall|i: int|
            0 <= i < r.outgoing.len() && (#[trigger] r.outgoing[i]).channel_id
                == ch implies sequence::seq_distance(
            r.outgoing[i].reliable_seq,
            r.channels[ch as int].outgoing_reliable_seq,
        ) < 0x8000 by {
            assert(within(r.outgoing, ch, sequence::seq_plus(last, items.len() as int), width));
        }
    }
}

/// Law: where nothing is in flight and nothing of the channel is held back, a
/// reliable message goes out, however large it is. One that is larger than the
/// window waits for nothing on other channels.
pub proof fn lemma_never_stuck(p: PeerView, ck: bool, pkt: PacketView)
    requires
        p.outgoing.len() == 0 || (send::oldest(p.outgoing, pkt.channel) is None
            && p.reliable_bytes(ck, pkt.data) > p.usable_window()),
        !p.waits(pkt.channel),
    ensures
        !p.holds_back(ck, pkt),
{
}

/// Law: the bytes in transit are those of all commands together.
pub proof fn lemma_transit_append(a: Seq<OutView>, b: Seq<OutView>)
    ensures
        send::in_transit(a + b) == send::in_transit(a) + send::in_transit(b),
        send::in_transit(b) >= 0,
    decreases b.len(),
{
    if b.len() == 0 {
        assert(a + b =~= a);
    } else {
        assert((a + b).drop_last() =~= a + b.drop_last());
        lemma_transit_append(a, b.drop_last());
    }
}

/// Law: the bytes in transit of one command are its bytes.
pub proof fn lemma_transit_one(v: OutView)
    ensures
        send::in_transit(seq![v]) == v.packet_bytes.len(),
{
    assert(seq![v].drop_last() =~= Seq::empty());
    assert(send::in_transit(seq![v].drop_last()) == 0);
}

proof fn lemma_transit_insert(s: Seq<OutView>, v: OutView)
    ensures
        send::in_transit(outgoing::insert(s, v)) <= send::in_transit(s) + v.packet_bytes.len(),
    decreases s.len(),
{
    lemma_transit_one(v);
    if s.len() == 0 || v.rank() < s[0].rank() {
        lemma_transit_append(seq![v], s);
    } else {
        let rest = s.drop_first();
        assert(seq![s[0]] + rest =~= s);
        lemma_transit_one(s[0]);
        lemma_transit_append(seq![s[0]], rest);
        if v.rank() == s[0].rank() {
            lemma_transit_append(seq![v], rest);
        } else {
            lemma_transit_insert(rest, v);
            lemma_transit_append(seq![s[0]], outgoing::insert(rest, v));
        }
    }
}

proof fn lemma_transit_all(s: Seq<OutView>, items: Seq<OutView>)
    ensures
        send::in_transit(outgoing::insert_all(s, items)) <= send::in_transit(s)
            + send::in_transit(items),
    decreases items.len(),
{
    if items.len() > 0 {
        let front = items.drop_last();
        lemma_transit_all(s, front);
        lemma_transit_insert(outgoing::insert_all(s, front), items.last());
    }
}

/// The bytes of the first `k` fragments.
proof fn lemma_fragment_bytes(p: PeerView, ck: bool, pkt: PacketView, items: Seq<OutView>, k: int)
    requires
        p.fragment_room(ck) > 0,
        0 <= k <= items.len(),
        items.len() == fragment::piece_count(pkt.data.len() as int, p.fragment_room(ck)),
        forall|i: int|
            0 <= i < items.len() ==> (#[trigger] items[i]).packet_bytes == p.reliable_fragments(
                ck,
                pkt.channel,
                pkt.data,
            )[i],
    ensures
        send::in_transit(items.take(k)) == 24 * k + if k * p.fragment_room(ck) <= pkt.data.len() {
            k * p.fragment_room(ck)
        } else {
            pkt.data.len() as int
        },
    decreases k,
{
    let size = p.fragment_room(ck);
    let len = pkt.data.len() as int;
    if k == 0 {
        assert(items.take(0) =~= Seq::empty());
        assert(0 * size == 0) by (nonlinear_arith);
    } else {
        lemma_fragment_bytes(p, ck, pkt, items, k - 1);
        assert(items.take(k).drop_last() =~= items.take(k - 1));
        fragment::lemma_piece_bounds(len, size, k - 1);
        let last = p.channels[pkt.channel as int].outgoing_reliable_seq;
        let f = send::fragment_fields(pkt.data, size, sequence::seq_next(last), k - 1);
        channel::lemma_encoded_len(
            CMD_SEND_FRAGMENT,
            0x80,
            pkt.channel,
            sequence::seq_plus(last, k),
            command::BodyView::SendFragment(f),
        );
        assert(items[k - 1].packet_bytes.len() == 24 + f.data.len());
        assert((k - 1) * size + size == k * size) by (nonlinear_arith);
    }
}

proof fn lemma_sent_bytes(p: PeerView, ck: bool, pkt: PacketView, now: u32)
    requires
        pkt.mode == SendMode::Reliable,
        pkt.channel < p.channels.len() <= 255,
        !p.holds_back(ck, pkt),
        pkt.data.len() > p.reliable_room(ck) ==> p.fragment_room(ck) > 0,
        0 <= p.reliable_room(ck),
    ensures
        send::in_transit(delivery::sent_commands(p, ck, pkt, now)) == p.reliable_bytes(
            ck,
            pkt.data,
        ),
{
    let items = delivery::sent_commands(p, ck, pkt, now);
    lemma_sent_count(p, ck, pkt, now);
    if pkt.data.len() <= p.reliable_room(ck) {
        let body = command::BodyView::SendReliable(pkt.data);
        channel::lemma_encoded_len(
            CMD_SEND_RELIABLE,
            0x80,
            pkt.channel,
            p.next_seq(pkt.channel),
            body,
        );
        assert(items =~= seq![items[0]]);
        lemma_transit_one(items[0]);
    } else {
        let size = p.fragment_room(ck);
        let len = pkt.data.len() as int;
        let n = items.len() as int;
        assert(items.take(n) =~= items);
        assert(n * size >= len) by (nonlinear_arith)
            requires
                n == (len + size - 1) / size,
                size > 0,
        ;
        lemma_fragment_bytes(p, ck, pkt, items, n);
    }
}

/// Law: a reliable message that is not larger than the usable window is sent
/// only where the bytes in transit, with those of its commands, stay within
/// the window.
pub proof fn lemma_bytes_kept(p: PeerView, ck: bool, pkt: PacketView, now: u32)
    requires
        p.wf(ck),
        p.state == PeerState::Connected,
        pkt.mode == SendMode::Reliable,
        pkt.channel < p.channels.len(),
        p.sendable(ck, pkt),
        !p.holds_back(ck, pkt),
    ensures
        ({
            let q = p.send(ck, pkt, now).0;
            &&& send::in_transit(q.outgoing) <= send::in_transit(p.outgoing) + p.reliable_bytes(
                ck,
                pkt.data,
            )
            &&& p.reliable_bytes(ck, pkt.data) <= p.usable_window() ==> send::in_transit(q.outgoing)
                <= p.usable_window()
        }),
{
    delivery::lemma_reliable_kept(p, ck, pkt, now);
    lemma_sent_bytes(p, ck, pkt, now);
    lemma_transit_all(p.outgoing, delivery::sent_commands(p, ck, pkt, now));
}

/// How many commands a reliable message takes, and how many bytes they are:
/// one with six bytes of headers where a datagram holds it behind ten, else as
/// many as there are pieces, with 24 bytes of headers each.
pub open spec fn load(p: PeerView, ck: bool, len: int) -> (int, int) {
    let over = packets::sum_size(ck);
    if len + 10 + over <= p.mtu {
        (1, len + 6)
    } else {
        let n = fragments::pieces(len, p.mtu - 28 - over);
        (n, len + 24 * n)
    }
}

/// Law: when a reliable packet is held back. The window is the part of its size
/// that the throttle allows, in 32nds. A packet waits behind every other one of
/// its channel that waits. It waits where the number of its last command would
/// be further than the window, or than 32768, from one in flight on the
/// channel. It waits where its bytes and those in transit do not fit in the
/// window, unless they never can and nothing of the channel is in flight. It
/// waits for no other reason.
pub proof fn lemma_held_exactly(p: PeerView, ck: bool, pkt: PacketView)
    requires
        pkt.channel < p.channels.len() <= 255,
        pkt.data.len() + 10 + packets::sum_size(ck) > p.mtu ==> 28 + packets::sum_size(ck) < p.mtu,
        within(
            p.outgoing,
            pkt.channel,
            p.channels[pkt.channel as int].outgoing_reliable_seq,
            0x8000,
        ),
    ensures
        ({
            let ch = pkt.channel;
            let next = ((p.channels[ch as int].outgoing_reliable_seq + 1) % 65536) as u16;
            let window = p.packet_throttle as int * p.window_size as int / 32;
            let numbers = if window < 32768 {
                window
            } else {
                32768
            };
            let (n, bytes) = load(p, ck, pkt.data.len() as int);
            let waiting = exists|i: int|
                0 <= i < p.pending.len() && (#[trigger] p.pending[i]).channel == ch
                    && p.pending[i].mode == SendMode::Reliable;
            let idle = forall|i: int|
                0 <= i < p.outgoing.len() ==> (#[trigger] p.outgoing[i]).channel_id != ch;
            let too_far = exists|i: int|
                0 <= i < p.outgoing.len() && (#[trigger] p.outgoing[i]).channel_id == ch
                    && receiving::steps(p.outgoing[i].reliable_seq, next) + n > numbers;
            let fits = send::in_transit(p.outgoing) + bytes <= window;
            p.holds_back(ck, pkt) <==> waiting || too_far || !(fits || (bytes > window && idle))
        }),
{
    let ch = pkt.channel;
    let last = p.channels[ch as int].outgoing_reliable_seq;
    let next = ((last + 1) % 65536) as u16;
    let len = pkt.data.len() as int;
    assert(next == p.next_seq(ch));
    lemma_oldest(p.outgoing, ch, last);
    lemma_oldest_there(p.outgoing, ch);
    if len + 10 + packets::sum_size(ck) > p.mtu {
        fragments::lemma_pieces(len, p.mtu - 28 - packets::sum_size(ck));
    }
    let (n, bytes) = load(p, ck, len);
    assert(n == p.reliable_pieces(ck, pkt.data));
    assert(bytes == p.reliable_bytes(ck, pkt.data));
    assert(p.usable_window() == p.packet_throttle as int * p.window_size as int / 32);
    match send::oldest(p.outgoing, ch) {
        None => {},
        Some(o) => {
            let k = choose|k: int|
                0 <= k < p.outgoing.len() && (#[trigger] p.outgoing[k]).channel_id == ch
                    && p.outgoing[k].reliable_seq == o;
            assert(p.outgoing[k].channel_id == ch);
            assert forall|i: int|
                0 <= i < p.outgoing.len() && (#[trigger] p.outgoing[i]).channel_id
                    == ch implies receiving::steps(p.outgoing[i].reliable_seq, next)
                <= receiving::steps(o, next) by {
                lemma_old_distance(o, last, 1);
                lemma_old_distance(p.outgoing[i].reliable_seq, last, 1);
                assert(receiving::steps(o, next) == sequence::seq_distance(o, next));
                assert(receiving::steps(p.outgoing[i].reliable_seq, next)
                    == sequence::seq_distance(p.outgoing[i].reliable_seq, next));
            }
            assert(receiving::steps(o, next) == sequence::seq_distance(o, next));
        },
    }
}

/// The oldest command is one of those in flight.
proof fn lemma_oldest_there(s: Seq<OutView>, ch: u8)
    ensures
        send::oldest(s, ch) matches Some(o) ==> exists|k: int|
            0 <= k < s.len() && (#[trigger] s[k]).channel_id == ch && s[k].reliable_seq == o,
    decreases s.len(),
{
    if s.len() > 0 {
        let t = s.drop_last();
        lemma_oldest_there(t, ch);
        if let Some(o) = send::oldest(s, ch) {
            let last = s[s.len() - 1];
            if last.channel_id == ch && last.reliable_seq == o {
            } else {
                let k = choose|k: int|
                    0 <= k < t.len() && (#[trigger] t[k]).channel_id == ch && t[k].reliable_seq
                        == o;
                assert(s[k] == t[k]);
            }
        }
    }
}

} // verus!
