//! What a packet turns into when it is sent, in numbers.

use vstd::prelude::*;

use crate::channel;
use crate::channel::ChannelView;
use crate::laws::delivery;
use crate::laws::fragments;
use crate::laws::layout;
use crate::laws::transport;
use crate::outgoing;
use crate::outgoing::OutView;
use crate::packet::{PacketView, SendMode};
use crate::peer::emit;
use crate::peer::send;
use crate::peer::{ActionView, PeerState, PeerView};
use crate::protocol::command;
use crate::protocol::sequence;

verus! {

/// The bytes that a checksum takes in a datagram.
pub open spec fn sum_size(ck: bool) -> int {
    if ck {
        4
    } else {
        0
    }
}

/// Only one channel of a peer changed, in its outgoing numbers, and when
/// something was sent.
pub open spec fn only_numbers(p: PeerView, q: PeerView, ch: int) -> bool {
    &&& q.channels.len() == p.channels.len()
    &&& forall|i: int| 0 <= i < p.channels.len() && i != ch ==> #[trigger] q.channels[i]
        == p.channels[i]
    &&& 0 <= ch < p.channels.len() ==> q.channels[ch] == (ChannelView {
        outgoing_reliable_seq: q.channels[ch].outgoing_reliable_seq,
        outgoing_unreliable_seq: q.channels[ch].outgoing_unreliable_seq,
        outgoing_unsequenced_group: q.channels[ch].outgoing_unsequenced_group,
        ..p.channels[ch]
    })
    &&& q == (PeerView {
        channels: q.channels,
        outgoing: q.outgoing,
        last_send_time: q.last_send_time,
        ..p
    })
}

/// Law: nothing is sent for the user of a peer that is not connected, nor a
/// reliable packet on a channel that does not exist.
pub proof fn lemma_not_sent(p: PeerView, ck: bool, pkt: PacketView, now: u32)
    requires
        p.state != PeerState::Connected || (pkt.mode == SendMode::Reliable && pkt.channel
            >= p.channels.len()),
    ensures
        p.send(ck, pkt, now) == (p, Seq::<ActionView>::empty()),
{
    send::lemma_none(p, ck, now);
}

proof fn lemma_one_command(p: PeerView, ck: bool, c: command::CommandView, now: u32)
    ensures
        ({
            let d = p.datagram(ck, transport::bytes_of(seq![c]), now);
            let o = 4 + sum_size(ck);
            let b = command::command_bytes(c);
            &&& d.len() == o + b.len()
            &&& d.skip(o) == b
            &&& d[o] == c.header.command
            &&& d[o + 1] == c.header.channel_id
            &&& layout::num16(d, o + 2) == c.header.reliable_seq
            &&& d.skip(o + 4) == command::body_bytes(c.body)
        }),
{
    let b = command::command_bytes(c);
    let cmds = transport::bytes_of(seq![c]);
    assert(cmds =~= seq![b]);
    layout::lemma_datagram_layout(p, ck, cmds, now);
    layout::lemma_concat(Seq::empty(), Seq::empty(), b);
    layout::lemma_command_head(c);
    let d = p.datagram(ck, cmds, now);
    let o = 4 + sum_size(ck);
    assert(d.skip(o)[0] == d[o] && d.skip(o)[1] == d[o + 1] && d.skip(o)[2] == d[o + 2] && d.skip(
        o,
    )[3] == d[o + 3]);
    assert(d.skip(o + 4) =~= d.skip(o).skip(4));
}

/// Law: a reliable packet that a datagram holds behind ten bytes of headers,
/// sent when nothing is in flight and nothing waits, goes out at once in one
/// datagram. It has the number after the channel's last one, asks for an
/// acknowledgement, and carries the data with its length. It is then the one
/// command in flight.
pub proof fn lemma_reliable_sent(p: PeerView, ck: bool, pkt: PacketView, now: u32)
    requires
        p.state == PeerState::Connected,
        pkt.mode == SendMode::Reliable,
        pkt.channel < p.channels.len() <= 255,
        pkt.data.len() + 10 + sum_size(ck) <= p.mtu,
        pkt.data.len() <= 65535,
        p.outgoing.len() == 0,
        p.pending.len() == 0,
        p.rtt <= 65535,
        p.rtt_var <= 65535,
    ensures
        ({
            let ch = pkt.channel as int;
            let next = (p.channels[ch].outgoing_reliable_seq + 1) % 65536;
            let o = 4 + sum_size(ck);
            let (q, out) = p.send(ck, pkt, now);
            let d = out[0]->datagram;
            &&& out.len() == 1
            &&& out[0] == (ActionView::SendTo { addr: p.addr, datagram: d })
            &&& d.len() == o + 6 + pkt.data.len()
            &&& d[o] == 0x86
            &&& d[o + 1] == ch
            &&& layout::num16(d, o + 2) == next
            &&& layout::num16(d, o + 4) == pkt.data.len()
            &&& d.skip(o + 6) == pkt.data
            &&& only_numbers(p, q, ch)
            &&& q.channels[ch].outgoing_reliable_seq == next
            &&& q.channels[ch].outgoing_unreliable_seq == p.channels[ch].outgoing_unreliable_seq
            &&& q.last_send_time == now
            &&& q.pending == p.pending
            &&& q.outgoing == seq![
                OutView {
                    reliable_seq: next as u16,
                    channel_id: pkt.channel,
                    original_sent_time: now,
                    sent_time: now,
                    rtt_timeout: (p.rtt + 4 * p.rtt_var) as u32,
                    send_attempts: 1,
                    packet_bytes: d.skip(o),
                },
            ]
        }),
{
    let c = delivery::packet_command(p, pkt);
    assert(!p.waits(pkt.channel));
    assert(p.outgoing =~= Seq::empty());
    assert(send::oldest(p.outgoing, pkt.channel) is None);
    assert(send::in_transit(p.outgoing) == 0);
    assert(delivery::in_one_piece(p, ck, pkt));
    delivery::lemma_packet_sent(p, ck, pkt, now);
    lemma_one_command(p, ck, c, now);
    assert(6u8 | 0x80u8 == 0x86u8) by (bit_vector);
    layout::lemma_payload_layout(0, pkt.data, fragments::fragment_of(Seq::empty(), 1, 0, 0));
    let d = p.datagram(ck, transport::bytes_of(seq![c]), now);
    let o = 4 + sum_size(ck);
    let body = command::body_bytes(c.body);
    assert(body[0] == d[o + 4] && body[1] == d[o + 5]);
    assert(d.skip(o + 6) =~= body.skip(2));
    let q = p.send(ck, pkt, now).0;
    assert(q.outgoing =~= seq![
        p.outstanding(pkt.channel, p.next_seq(pkt.channel), command::command_bytes(c), now),
    ]) by {
        reveal(channel::encoded);
    }
}

/// Law: an unreliable packet that a datagram holds behind twelve bytes of
/// headers goes out at once in one datagram, whatever is in flight or waits. It
/// says after which reliable number it was sent, has the unreliable number
/// after the channel's last one, and carries the data with its length. It is
/// not kept.
pub proof fn lemma_unreliable_sent(p: PeerView, ck: bool, pkt: PacketView, now: u32)
    requires
        p.state == PeerState::Connected,
        pkt.mode == SendMode::Unreliable,
        pkt.channel < p.channels.len() <= 255,
        pkt.data.len() + 12 + sum_size(ck) <= p.mtu,
        pkt.data.len() <= 65535,
    ensures
        ({
            let ch = pkt.channel as int;
            let c = p.channels[ch];
            let next = (c.outgoing_unreliable_seq + 1) % 65536;
            let o = 4 + sum_size(ck);
            let (q, out) = p.send(ck, pkt, now);
            let d = out[0]->datagram;
            &&& out.len() == 1
            &&& out[0] == (ActionView::SendTo { addr: p.addr, datagram: d })
            &&& d.len() == o + 8 + pkt.data.len()
            &&& d[o] == 7
            &&& d[o + 1] == ch
            &&& layout::num16(d, o + 2) == c.outgoing_reliable_seq
            &&& layout::num16(d, o + 4) == next
            &&& layout::num16(d, o + 6) == pkt.data.len()
            &&& d.skip(o + 8) == pkt.data
            &&& only_numbers(p, q, ch)
            &&& q.channels[ch].outgoing_unreliable_seq == next
            &&& q.channels[ch].outgoing_reliable_seq == c.outgoing_reliable_seq
            &&& q.outgoing == p.outgoing
            &&& q.pending == p.pending
            &&& q.last_send_time == now
        }),
{
    let c = delivery::packet_command(p, pkt);
    assert(delivery::in_one_piece(p, ck, pkt));
    delivery::lemma_packet_sent(p, ck, pkt, now);
    lemma_one_command(p, ck, c, now);
    assert(7u8 | 0x00u8 == 7u8) by (bit_vector);
    let next = sequence::seq_next(p.channels[pkt.channel as int].outgoing_unreliable_seq);
    layout::lemma_payload_layout(next, pkt.data, fragments::fragment_of(Seq::empty(), 1, 0, 0));
    let d = p.datagram(ck, transport::bytes_of(seq![c]), now);
    let o = 4 + sum_size(ck);
    let body = command::body_bytes(c.body);
    assert(body[0] == d[o + 4] && body[1] == d[o + 5] && body[2] == d[o + 6] && body[3] == d[o
        + 7]);
    assert(d.skip(o + 8) =~= body.skip(4));
}

/// Law: an unsequenced packet goes out at once in one datagram, whatever is in
/// flight or waits, also on a channel that does not exist. It has the group
/// after the channel's last one, and carries the data with its length. It is
/// not kept.
pub proof fn lemma_unsequenced_sent(p: PeerView, ck: bool, pkt: PacketView, now: u32)
    requires
        p.state == PeerState::Connected,
        pkt.mode == SendMode::Unsequenced,
        pkt.data.len() <= 65535,
    ensures
        ({
            let ch = pkt.channel as int;
            let known = ch < p.channels.len();
            let next = if known {
                (p.channels[ch].outgoing_unsequenced_group + 1) % 65536
            } else {
                0
            };
            let o = 4 + sum_size(ck);
            let (q, out) = p.send(ck, pkt, now);
            let d = out[0]->datagram;
            &&& out.len() == 1
            &&& out[0] == (ActionView::SendTo { addr: p.addr, datagram: d })
            &&& d.len() == o + 8 + pkt.data.len()
            &&& d[o] == 0x49
            &&& d[o + 1] == ch
            &&& layout::num16(d, o + 2) == 0
            &&& layout::num16(d, o + 4) == next
            &&& layout::num16(d, o + 6) == pkt.data.len()
            &&& d.skip(o + 8) == pkt.data
            &&& only_numbers(p, q, ch)
            &&& known ==> q.channels[ch].outgoing_unsequenced_group == next
            &&& known ==> q.channels[ch].outgoing_reliable_seq
                == p.channels[ch].outgoing_reliable_seq
            &&& q.outgoing == p.outgoing
            &&& q.pending == p.pending
            &&& q.last_send_time == now
        }),
{
    let c = delivery::packet_command(p, pkt);
    assert(delivery::in_one_piece(p, ck, pkt));
    delivery::lemma_packet_sent(p, ck, pkt, now);
    lemma_one_command(p, ck, c, now);
    assert(9u8 | 0x40u8 == 0x49u8) by (bit_vector);
    let ch = pkt.channel as int;
    let next = if ch < p.channels.len() {
        sequence::seq_next(p.channels[ch].outgoing_unsequenced_group)
    } else {
        0
    };
    layout::lemma_payload_layout(next, pkt.data, fragments::fragment_of(Seq::empty(), 1, 0, 0));
    let d = p.datagram(ck, transport::bytes_of(seq![c]), now);
    let o = 4 + sum_size(ck);
    let body = command::body_bytes(c.body);
    assert(body[0] == d[o + 4] && body[1] == d[o + 5] && body[2] == d[o + 6] && body[3] == d[o
        + 7]);
    assert(d.skip(o + 8) =~= body.skip(4));
}

/// Law: a larger message is cut. The commands that go out are its fragments,
/// all of them and in order. A reliable one then has each of them in flight
/// under its number, and uses up as many numbers as there are; an unreliable
/// one uses up one unreliable number and is not kept.
pub proof fn lemma_cut(p: PeerView, ck: bool, pkt: PacketView, now: u32)
    requires
        p.state == PeerState::Connected,
        pkt.channel < p.channels.len() <= 255,
        28 + sum_size(ck) < p.mtu,
        pkt.mode == SendMode::Reliable ==> pkt.data.len() + 10 + sum_size(ck) > p.mtu
            && p.outgoing.len() == 0 && p.pending.len() == 0,
        pkt.mode == SendMode::Unreliable ==> pkt.data.len() + 12 + sum_size(ck) > p.mtu,
        pkt.mode != SendMode::Unsequenced,
    ensures
        ({
            let ch = pkt.channel as int;
            let size = p.mtu - 28 - sum_size(ck);
            let n = fragments::pieces(pkt.data.len() as int, size);
            let c = p.channels[ch];
            let (q, out) = p.send(ck, pkt, now);
            let d = q.channels[ch];
            &&& only_numbers(p, q, ch)
            &&& q.last_send_time == now
            &&& q.pending == p.pending
            &&& if pkt.mode == SendMode::Reliable {
                let cmds = p.reliable_fragments(ck, pkt.channel, pkt.data);
                &&& cmds.len() == n
                &&& out == p.flushed(ck, cmds, now)
                &&& d.outgoing_reliable_seq == (c.outgoing_reliable_seq + n) % 65536
                &&& d.outgoing_unreliable_seq == c.outgoing_unreliable_seq
                &&& q.outgoing == outgoing::insert_all(
                    p.outgoing,
                    Seq::new(
                        cmds.len(),
                        |i: int|
                            p.outstanding(
                                pkt.channel,
                                ((c.outgoing_reliable_seq + i + 1) % 65536) as u16,
                                cmds[i],
                                now,
                            ),
                    ),
                )
            } else {
                let cmds = p.unreliable_fragments(ck, pkt.channel, pkt.data);
                &&& cmds.len() == n
                &&& out == p.flushed(ck, cmds, now)
                &&& d.outgoing_unreliable_seq == (c.outgoing_unreliable_seq + 1) % 65536
                &&& d.outgoing_reliable_seq == c.outgoing_reliable_seq
                &&& q.outgoing == p.outgoing
            }
        }),
{
    let ch = pkt.channel as int;
    let size = p.mtu - 28 - sum_size(ck);
    let len = pkt.data.len() as int;
    assert(size == p.fragment_room(ck));
    fragments::lemma_pieces(len, size);
    assert((len + size - 1) / size >= 1) by (nonlinear_arith)
        requires
            len >= 1,
            size >= 1,
    ;
    let (r, cmds) = p.transmit_plan(ck, pkt, now);
    if pkt.mode == SendMode::Reliable {
        assert(!p.waits(pkt.channel));
        assert(p.outgoing =~= Seq::empty());
        assert(send::oldest(p.outgoing, pkt.channel) is None);
        assert(send::in_transit(p.outgoing) == 0);
        assert(!p.holds_back(ck, pkt));
        let items = Seq::new(
            cmds.len(),
            |i: int|
                p.outstanding(
                    pkt.channel,
                    sequence::seq_plus(p.channels[ch].outgoing_reliable_seq, i + 1),
                    cmds[i],
                    now,
                ),
        );
        assert(items =~= Seq::new(
            cmds.len(),
            |i: int|
                p.outstanding(
                    pkt.channel,
                    ((p.channels[ch].outgoing_reliable_seq + i + 1) % 65536) as u16,
                    cmds[i],
                    now,
                ),
        ));
    }
    assert(r.room(ck) == p.room(ck));
    assert(r.flushed(ck, cmds, now) =~= p.flushed(ck, cmds, now));
}

/// Law: a datagram is filled before another one is begun: the first command of
/// the next one did not fit any more, or there were 32 already.
pub proof fn lemma_filled(cmds: Seq<Seq<u8>>, room: int, i: int)
    requires
        0 <= i,
        i + 1 < emit::batches(cmds, room).len(),
    ensures
        ({
            let b = emit::batches(cmds, room);
            emit::concat(b[i]).len() + b[i + 1][0].len() > room || b[i].len() >= 32
        }),
    decreases cmds.len(),
{
    let front = cmds.drop_last();
    let before = emit::batches(front, room);
    let after = emit::batches(cmds, room);
    emit::lemma_batches(front, room);
    if i + 1 < before.len() {
        lemma_filled(front, room, i);
        if i + 1 == before.len() - 1 {
            assert(before[i + 1].len() > 0);
        }
    }
}

/// Law: each group of commands is one datagram, to the address of the peer, and
/// no other datagram is sent.
pub proof fn lemma_flushed(p: PeerView, ck: bool, cmds: Seq<Seq<u8>>, now: u32, i: int)
    ensures
        ({
            let groups = emit::batches(cmds, p.mtu - 4 - sum_size(ck));
            let out = p.flushed(ck, cmds, now);
            &&& out.len() == groups.len()
            &&& 0 <= i < out.len() ==> out[i] == (ActionView::SendTo {
                addr: p.addr,
                datagram: p.datagram(ck, groups[i], now),
            })
        }),
{
}

} // verus!
