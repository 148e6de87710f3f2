//! Packets that are sent arrive as they were.

use vstd::prelude::*;

use crate::address::{Address, PeerKey};
use crate::channel;
use crate::laws::handshake;
use crate::laws::transport;
use crate::outgoing;
use crate::packet::{PacketView, SendMode};
use crate::peer::rtt;
use crate::peer::send;
use crate::peer::{ActionView, PeerState, PeerView};
use crate::protocol::command;
use crate::protocol::header;
use crate::protocol::sequence;
use crate::protocol::{
    AcknowledgeCmd, CMD_ACKNOWLEDGE, CMD_SEND_RELIABLE, CMD_SEND_UNRELIABLE, CMD_SEND_UNSEQUENCED,
};
use crate::task::connect;
use crate::task::dispatch;
use crate::task::dispatch::Turn;
use crate::task::HostView;

verus! {

/// A command that carries data or settings.
pub open spec fn is_data(c: command::CommandView) -> bool {
    &&& !(c.body is Connect)
    &&& !(c.body is VerifyConnect)
    &&& !(c.body is Disconnect)
    &&& !(c.body is Acknowledge)
}

/// Law: a datagram with one command that carries data does to the peer what
/// the command does, and is acknowledged where the command asks for it and is
/// not refused for want of room.
pub proof fn lemma_data_received(
    p: PeerView,
    h: HostView,
    key: PeerKey,
    from: Address,
    c: command::CommandView,
    sent: u32,
    now: u32,
)
    requires
        transport::addressed(p, h, Some(key), from),
        h.live(key),
        command::well_typed(c),
        is_data(c),
    ensures
        ({
            let (q, out) = h.peer(key).on_data(key, c, now);
            let acks = if dispatch::wants_ack(c) && !h.peer(key).refuses(c) {
                seq![
                    connect::ack_command(
                        c.header.channel_id,
                        c.header.reliable_seq,
                        handshake::low(sent),
                    ),
                ]
            } else {
                Seq::empty()
            };
            h.on_datagram(
                p.datagram(h.use_checksum, transport::bytes_of(seq![c]), sent),
                from,
                now,
            ) == (
                h.with_peer(key, q.sent(acks, now)),
                out + q.flushed(h.use_checksum, acks, now),
            )
        }),
{
    let st = Some(handshake::low(sent));
    transport::lemma_datagram_received(p, h, Some(key), from, seq![c], sent, now);
    let first = Turn::first(h);
    handshake::lemma_one_command(first, Some(key), st, c, from, now);
    let (q, out) = h.peer(key).on_data(key, c, now);
    let g = h.with_peer(key, q);
    let t = first.on_command(Some(key), st, c, from, now);
    assert(t.host == g);
    assert(t.out =~= out);
    assert(g.live(key) && g.peer(key) == q);
    if dispatch::wants_ack(c) && !h.peer(key).refuses(c) {
        let acks = seq![
            connect::ack_command(
                c.header.channel_id,
                c.header.reliable_seq,
                handshake::low(sent),
            ),
        ];
        assert(t.acks =~= acks);
        assert(g.with_peer(key, q.sent(acks, now)) =~= h.with_peer(key, q.sent(acks, now)));
    } else {
        assert(t.acks == Seq::<Seq<u8>>::empty());
        send::lemma_none(q, h.use_checksum, now);
        assert(out + Seq::<ActionView>::empty() =~= out);
    }
}

/// The command that carries a packet in one piece.
pub open spec fn packet_command(p: PeerView, pkt: PacketView) -> command::CommandView {
    let ch = pkt.channel;
    match pkt.mode {
        SendMode::Reliable => channel::command_of(
            CMD_SEND_RELIABLE,
            0x80,
            ch,
            p.next_seq(ch),
            command::BodyView::SendReliable(pkt.data),
        ),
        SendMode::Unreliable => channel::command_of(
            CMD_SEND_UNRELIABLE,
            0,
            ch,
            p.channels[ch as int].outgoing_reliable_seq,
            command::BodyView::SendUnreliable(
                sequence::seq_next(p.channels[ch as int].outgoing_unreliable_seq),
                pkt.data,
            ),
        ),
        SendMode::Unsequenced => channel::command_of(
            CMD_SEND_UNSEQUENCED,
            0x40,
            ch,
            0,
            command::BodyView::SendUnsequenced(
                if ch < p.channels.len() {
                    sequence::seq_next(p.channels[ch as int].outgoing_unsequenced_group)
                } else {
                    0
                },
                pkt.data,
            ),
        ),
    }
}

/// A packet goes out now and in one piece.
pub open spec fn in_one_piece(p: PeerView, ck: bool, pkt: PacketView) -> bool {
    &&& p.state == PeerState::Connected
    &&& pkt.data.len() <= 0xFFFF
    &&& match pkt.mode {
        SendMode::Reliable => {
            &&& pkt.channel < p.channels.len()
            &&& !p.holds_back(ck, pkt)
            &&& pkt.data.len() <= p.reliable_room(ck)
        },
        SendMode::Unreliable => {
            &&& pkt.channel < p.channels.len()
            &&& pkt.data.len() <= p.unreliable_room(ck)
        },
        SendMode::Unsequenced => true,
    }
}

/// Law: a packet in one piece is sent as one datagram with one command.
pub proof fn lemma_packet_sent(p: PeerView, ck: bool, pkt: PacketView, now: u32)
    requires
        in_one_piece(p, ck, pkt),
    ensures
        ({
            let c = packet_command(p, pkt);
            let (q, out) = p.send(ck, pkt, now);
            &&& command::well_typed(c)
            &&& is_data(c)
            &&& out == seq![
                ActionView::SendTo {
                    addr: p.addr,
                    datagram: p.datagram(ck, transport::bytes_of(seq![c]), now),
                },
            ]
            &&& pkt.mode == SendMode::Reliable ==> q.outgoing.contains(
                p.outstanding(
                    pkt.channel,
                    p.next_seq(pkt.channel),
                    command::command_bytes(c),
                    now,
                ),
            )
        }),
{
    let c = packet_command(p, pkt);
    let bytes = command::command_bytes(c);
    assert(transport::bytes_of(seq![c]) =~= seq![bytes]);
    assert(p.transmit_plan(ck, pkt, now).1 =~= seq![bytes]) by {
        reveal(channel::encoded);
    }
    let q = p.transmit_plan(ck, pkt, now).0;
    send::lemma_single(q, ck, bytes, now);
    assert(q.datagram(ck, seq![bytes], now) == p.datagram(ck, seq![bytes], now));
    match pkt.mode {
        SendMode::Reliable => {
            transport::lemma_well_typed(
                CMD_SEND_RELIABLE,
                0x80,
                pkt.channel,
                p.next_seq(pkt.channel),
                c.body,
            );
            outgoing::lemma_insert_contains(
                p.outgoing,
                p.outstanding(pkt.channel, p.next_seq(pkt.channel), bytes, now),
            );
        },
        SendMode::Unreliable => {
            transport::lemma_well_typed(
                CMD_SEND_UNRELIABLE,
                0,
                pkt.channel,
                c.header.reliable_seq,
                c.body,
            );
        },
        SendMode::Unsequenced => {
            transport::lemma_well_typed(CMD_SEND_UNSEQUENCED, 0x40, pkt.channel, 0, c.body);
        },
    }
}

/// The receiving side takes a packet at once: the reliable one is due, the
/// unreliable one is not late, the unsequenced one is not a duplicate.
pub open spec fn takes(q: PeerView, c: command::CommandView) -> bool {
    let ch = c.header.channel_id;
    match c.body {
        command::BodyView::SendReliable(_) => ch < q.channels.len() && q.channels[ch as int].expected()
            == c.header.reliable_seq,
        command::BodyView::SendUnreliable(n, _) => q.takes_unreliable(
            ch,
            c.header.reliable_seq,
            n,
        ),
        command::BodyView::SendUnsequenced(g, _) => q.unsequenced.accepts(g),
        _ => false,
    }
}

/// The packet that the receiving user sees: an unsequenced one has no
/// channel.
pub open spec fn as_received(pkt: PacketView) -> PacketView {
    match pkt.mode {
        SendMode::Unsequenced => PacketView { channel: 0, ..pkt },
        _ => pkt,
    }
}

/// Law: a packet that is sent in one piece to a peer that takes it is handed
/// to that peer's user with the payload, the channel and the mode it was sent
/// with, before anything else happens.
pub proof fn lemma_packet_delivered(
    p: PeerView,
    h: HostView,
    key: PeerKey,
    from: Address,
    pkt: PacketView,
    sent: u32,
    now: u32,
)
    requires
        transport::addressed(p, h, Some(key), from),
        h.live(key),
        in_one_piece(p, h.use_checksum, pkt),
        takes(h.peer(key), packet_command(p, pkt)),
    ensures
        ({
            let out = p.send(h.use_checksum, pkt, sent).1;
            &&& out.len() == 1
            &&& out[0] matches ActionView::SendTo { addr, datagram }
            &&& addr == p.addr
            &&& {
                let received = h.on_datagram(datagram, from, now).1;
                &&& received.len() > 0
                &&& received[0] == (ActionView::Deliver { key, packet: as_received(pkt) })
            }
        }),
{
    let ck = h.use_checksum;
    let c = packet_command(p, pkt);
    lemma_packet_sent(p, ck, pkt, sent);
    lemma_data_received(p, h, key, from, c, sent, now);
    let q = h.peer(key);
    let delivered = q.on_data(key, c, now).1;
    match pkt.mode {
        SendMode::Reliable => {
            let ready = q.on_reliable(pkt.channel, c.header.reliable_seq, pkt.data, now).1;
            assert(ready[0] == pkt.data);
            assert(delivered[0] == (ActionView::Deliver { key, packet: pkt }));
        },
        SendMode::Unreliable => {
            assert(delivered[0] == (ActionView::Deliver { key, packet: pkt }));
        },
        SendMode::Unsequenced => {
            assert(delivered[0] == (ActionView::Deliver { key, packet: as_received(pkt) }));
        },
    }
}

/// Law: the acknowledgement of a reliable command, when it comes back to a
/// connected peer, takes the command out of flight and nothing else.
pub proof fn lemma_acknowledgement_returns(
    r: PeerView,
    h: HostView,
    key: PeerKey,
    from: Address,
    channel_id: u8,
    seq: u16,
    t: u16,
    sent: u32,
    now: u32,
)
    requires
        transport::addressed(r, h, Some(key), from),
        h.live(key),
        h.peer(key).state == PeerState::Connected,
        rtt::rtt_sample(t, now) is Some,
    ensures
        ({
            let c = handshake::acknowledge_command(channel_id, seq, t);
            let (g, out) = h.on_datagram(
                r.datagram(h.use_checksum, transport::bytes_of(seq![c]), sent),
                from,
                now,
            );
            &&& out == Seq::<ActionView>::empty()
            &&& g.live(key)
            &&& g.peer(key).outgoing == outgoing::remove(h.peer(key).outgoing, channel_id, seq)
            &&& g.peer(key).pending == h.peer(key).pending
            &&& g.peer(key).channels == h.peer(key).channels
        }),
{
    let ack = AcknowledgeCmd { received_reliable_seq: seq, received_sent_time: t };
    let c = handshake::acknowledge_command(channel_id, seq, t);
    transport::lemma_well_typed(
        CMD_ACKNOWLEDGE,
        0,
        channel_id,
        0,
        command::BodyView::Acknowledge(ack),
    );
    transport::lemma_datagram_received(r, h, Some(key), from, seq![c], sent, now);
    let first = Turn::first(h);
    let st = Some(handshake::low(sent));
    handshake::lemma_one_command(first, Some(key), st, c, from, now);
    let t1 = first.on_command(Some(key), st, c, from, now);
    assert(t1.out =~= Seq::empty());
    assert(t1.acks == Seq::<Seq<u8>>::empty());
    assert(t1.host == h.with_peer(key, h.peer(key).acknowledged(channel_id, ack, now)));
}

/// Law: a reliable packet to a connected peer is never dropped: it is in
/// flight or held back, and what was in flight or held back before still is,
/// unless its sequence number comes round again.
pub proof fn lemma_reliable_kept(p: PeerView, ck: bool, pkt: PacketView, now: u32)
    requires
        p.wf(ck),
        p.state == PeerState::Connected,
        pkt.mode == SendMode::Reliable,
        pkt.channel < p.channels.len(),
        p.sendable(ck, pkt),
    ensures
        ({
            let (q, out) = p.send(ck, pkt, now);
            if !p.holds_back(ck, pkt) {
                &&& q.pending == p.pending
                &&& q.outgoing == outgoing::insert_all(
                    p.outgoing,
                    sent_commands(p, ck, pkt, now),
                )
            } else {
                &&& q.pending == p.pending.push(pkt)
                &&& q.outgoing == p.outgoing
                &&& out == Seq::<ActionView>::empty()
            }
        }),
{
    let ch = pkt.channel;
    if p.holds_back(ck, pkt) {
        send::lemma_none(PeerView { pending: p.pending.push(pkt), ..p }, ck, now);
    } else if pkt.data.len() <= p.reliable_room(ck) {
        let items = sent_commands(p, ck, pkt, now);
        assert(items.drop_last() =~= Seq::empty());
        assert(outgoing::insert_all(p.outgoing, items.drop_last()) == p.outgoing);
        assert(sequence::seq_plus(p.channels[ch as int].outgoing_reliable_seq, 1) == p.next_seq(ch));
    } else {
        let cmds = p.reliable_fragments(ck, ch, pkt.data);
        assert(sent_commands(p, ck, pkt, now) =~= Seq::new(
            cmds.len(),
            |i: int|
                p.outstanding(
                    ch,
                    sequence::seq_plus(p.channels[ch as int].outgoing_reliable_seq, i + 1),
                    cmds[i],
                    now,
                ),
        ));
    }
}

/// The commands of a reliable packet, in flight under the sequence numbers
/// that follow the channel's last one.
pub open spec fn sent_commands(p: PeerView, ck: bool, pkt: PacketView, now: u32) -> Seq<
    outgoing::OutView,
> {
    let cmds = p.transmit_plan(ck, pkt, now).1;
    Seq::new(
        cmds.len(),
        |i: int|
            p.outstanding(
                pkt.channel,
                sequence::seq_plus(
                    p.channels[pkt.channel as int].outgoing_reliable_seq,
                    i + 1,
                ),
                cmds[i],
                now,
            ),
    )
}

} // verus!
