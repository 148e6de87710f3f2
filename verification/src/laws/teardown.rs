//! How connections end, and how they are kept alive.

use vstd::prelude::*;

use crate::address::{Address, PeerKey};
use crate::channel;
use crate::laws::handshake;
use crate::laws::transport;
use crate::outgoing;
use crate::outgoing::OutView;
use crate::packet::PacketView;
use crate::peer;
use crate::peer::rtt;
use crate::peer::send;
use crate::peer::service;
use crate::peer::{ActionView, CloseReason, PeerState, PeerView};
use crate::protocol::command;
use crate::protocol::header;
use crate::protocol::{
    AcknowledgeCmd, CommandHeader, ConnectCmd, DisconnectCmd, CHANNEL_ID_CONNECTION,
    CMD_ACKNOWLEDGE, CMD_DISCONNECT, DEFAULT_PING_INTERVAL_MS, TIMEOUT_MAXIMUM_MS,
    TIMEOUT_MINIMUM_MS,
};
use crate::task::connect;
use crate::task::dispatch::Turn;
use crate::task::HostView;

verus! {

/// The DISCONNECT command.
pub open spec fn disconnect_command(flags: u8, seq: u16, data: u32) -> command::CommandView {
    channel::command_of(
        CMD_DISCONNECT,
        flags,
        CHANNEL_ID_CONNECTION,
        seq,
        command::BodyView::Disconnect(DisconnectCmd { data }),
    )
}

proof fn lemma_disconnect_typed(flags: u8, seq: u16, data: u32)
    requires
        flags == 0 || flags == 0x80,
    ensures
        command::well_typed(disconnect_command(flags, seq, data)),
        header::ack_bit(disconnect_command(flags, seq, data).header.command) == (flags == 0x80),
{
    transport::lemma_well_typed(
        CMD_DISCONNECT,
        flags,
        CHANNEL_ID_CONNECTION,
        seq,
        command::BodyView::Disconnect(DisconnectCmd { data }),
    );
}

/// Law: a CONNECT that comes when all slots are taken changes nothing at the
/// server and is answered at once. The answer makes the client, which still
/// waits, give the attempt up and say so, where both sides use checksums or
/// neither does.
pub proof fn lemma_connect_refused(
    s: HostView,
    c: HostView,
    key: PeerKey,
    body: ConnectCmd,
    seq: u16,
    sent_time: Option<u16>,
    client: Address,
    server: Address,
    t: u32,
    now: u32,
)
    requires
        s.free_slot() is None,
        !s.addr_map.contains_key(client),
        c.wf(),
        c.use_checksum == s.use_checksum,
        c.live(key),
        body.outgoing_peer_id == key.0,
        body.connect_id == c.peer(key).connect_id,
        c.peer(key).incoming_session_id == 0xFF,
    ensures
        s.on_connect(body, seq, sent_time, client, t) == (
            s,
            seq![
                ActionView::SendTo {
                    addr: client,
                    datagram: connect::refusal(body, s.use_checksum, t),
                },
            ],
        ),
        c.on_datagram(connect::refusal(body, s.use_checksum, t), server, now) == (
            c.without_peer(key),
            seq![ActionView::Closed { key, reason: CloseReason::Remote(0) }],
        ),
{
    let p = PeerView {
        outgoing_peer_id: body.outgoing_peer_id,
        outgoing_session_id: 0,
        ..c.peer(key)
    };
    let d = disconnect_command(0, 0, 0);
    lemma_disconnect_typed(0, 0, 0);
    header::lemma_header_fields(0x8000, 0, p.outgoing_peer_id);
    let ck = s.use_checksum;
    assert(p.datagram(ck, transport::bytes_of(seq![d]), t) == connect::refusal(body, ck, t)) by {
        reveal(channel::encoded);
        assert(transport::bytes_of(seq![d]) =~= seq![command::command_bytes(d)]);
        send::lemma_single(p, ck, command::command_bytes(d), t);
    }
    transport::lemma_datagram_received(p, c, Some(key), server, seq![d], t, now);
    let first = Turn::first(c);
    let st = Some(handshake::low(t));
    handshake::lemma_one_command(first, Some(key), st, d, server, now);
    let t1 = first.on_command(Some(key), st, d, server, now);
    assert(t1.out =~= seq![ActionView::Closed { key, reason: CloseReason::Remote(0) }]);
    assert(t1.acks == Seq::<Seq<u8>>::empty());
}

/// Law: a graceful disconnect of a peer with nothing in flight or held back
/// sends one datagram with DISCONNECT, which is then the only command in flight. Asking
/// again changes nothing and sends nothing.
pub proof fn lemma_disconnect_sent(p: PeerView, ck: bool, data: u32, now: u32, again: u32, later: u32)
    requires
        p.outgoing.len() == 0,
        p.pending.len() == 0,
        p.state != PeerState::Disconnecting,
        !(p.state is DisconnectLater),
    ensures
        ({
            let seq = p.next_seq(CHANNEL_ID_CONNECTION);
            let d = disconnect_command(0x80, seq, data);
            let (q, out) = p.send_disconnect(ck, data, now);
            &&& out == seq![
                ActionView::SendTo {
                    addr: p.addr,
                    datagram: p.datagram(ck, transport::bytes_of(seq![d]), now),
                },
            ]
            &&& q.state == PeerState::Disconnecting
            &&& q.outgoing == seq![
                p.outstanding(CHANNEL_ID_CONNECTION, seq, command::command_bytes(d), now),
            ]
            &&& q.send_disconnect(ck, again, later) == (q, Seq::<ActionView>::empty())
        }),
{
    let seq = p.next_seq(CHANNEL_ID_CONNECTION);
    let d = disconnect_command(0x80, seq, data);
    let bytes = command::command_bytes(d);
    let (q, cmds) = p.disconnect_plan(data, now);
    assert(transport::bytes_of(seq![d]) =~= seq![bytes]);
    assert(cmds =~= seq![bytes]) by {
        reveal(channel::encoded);
    }
    send::lemma_single(q, ck, bytes, now);
    assert(q.datagram(ck, seq![bytes], now) == p.datagram(ck, seq![bytes], now));
    let v = p.outstanding(CHANNEL_ID_CONNECTION, seq, bytes, now);
    assert(p.outgoing =~= Seq::empty());
    assert(q.outgoing =~= seq![v]);
}

/// Transmitting packets keeps the state.
pub proof fn lemma_transmit_state(p: PeerView, ck: bool, packets: Seq<PacketView>, now: u32)
    ensures
        p.transmit_all(ck, packets, now).0.state == p.state,
    decreases packets.len(),
{
    if packets.len() > 0 {
        lemma_transmit_state(p, ck, packets.drop_last(), now);
    }
}

/// Law: with commands in flight or packets held back a disconnect is put off.
/// Each service then sends the commands that are due again and tries the held
/// back packets, as it does for a connected peer, and sends no DISCONNECT. The
/// first service that finds nothing in flight and nothing held back sends
/// DISCONNECT and nothing else.
pub proof fn lemma_disconnect_put_off(p: PeerView, ck: bool, data: u32, now: u32, later: u32)
    requires
        p.outgoing.len() > 0 || p.pending.len() > 0,
        p.state != PeerState::Disconnecting,
        !(p.state is DisconnectLater),
    ensures
        ({
            let (q, out) = p.send_disconnect(ck, data, now);
            let (a, again) = q.retransmit(ck, later);
            let (r, held) = a.send_pending(ck, later);
            let e = PeerView { outgoing: Seq::empty(), pending: Seq::empty(), ..q };
            &&& out == Seq::<ActionView>::empty()
            &&& q == (PeerView { state: PeerState::DisconnectLater(data), ..p })
            &&& q.service(ck, later) == (r, again + held)
            &&& r.state == PeerState::DisconnectLater(data)
            &&& e.service(ck, later) == e.disconnect_now(ck, data, later)
        }),
{
    let none = Seq::<ActionView>::empty();
    let q = p.send_disconnect(ck, data, now).0;
    let (a, again) = q.retransmit(ck, later);
    assert(service::serviced(q.outgoing, later).len() == q.outgoing.len());
    assert(again + none + none =~= again);
    lemma_transmit_state(PeerView { pending: Seq::empty(), ..a }, ck, a.pending, later);

    let e = PeerView { outgoing: Seq::empty(), pending: Seq::empty(), ..q };
    let (d, last) = e.disconnect_now(ck, data, later);
    lemma_nothing_due(e, ck, later);
    assert(d.pending =~= Seq::empty());
    assert(none + none + last + none =~= last);
}

/// With nothing in flight nothing is sent again.
proof fn lemma_nothing_due(p: PeerView, ck: bool, now: u32)
    requires
        p.outgoing.len() == 0,
    ensures
        p.retransmit(ck, now) == (p, Seq::<ActionView>::empty()),
{
    let (q, out) = p.retransmit(ck, now);
    assert(service::due_commands(p.outgoing, now) =~= Seq::empty());
    assert(service::serviced(p.outgoing, now) =~= p.outgoing);
    send::lemma_none(p, ck, now);
}

/// Law: a graceful DISCONNECT is acknowledged, and then the peer is gone and
/// its user is told the reason that the other side gave.
pub proof fn lemma_disconnect_received(
    p: PeerView,
    h: HostView,
    key: PeerKey,
    from: Address,
    seq: u16,
    data: u32,
    sent: u32,
    now: u32,
)
    requires
        transport::addressed(p, h, Some(key), from),
        h.live(key),
    ensures
        ({
            let q = h.peer(key);
            let ack = transport::bytes_of(
                seq![handshake::acknowledge_command(
                    CHANNEL_ID_CONNECTION,
                    seq,
                    handshake::low(sent),
                )],
            );
            h.on_datagram(
                p.datagram(
                    h.use_checksum,
                    transport::bytes_of(seq![disconnect_command(0x80, seq, data)]),
                    sent,
                ),
                from,
                now,
            ) == (
                h.without_peer(key),
                seq![
                    ActionView::SendTo {
                        addr: q.addr,
                        datagram: q.datagram(h.use_checksum, ack, now),
                    },
                    ActionView::Closed { key, reason: CloseReason::Remote(data) },
                ],
            )
        }),
{
    let d = disconnect_command(0x80, seq, data);
    lemma_disconnect_typed(0x80, seq, data);
    transport::lemma_datagram_received(p, h, Some(key), from, seq![d], sent, now);
    handshake::lemma_ack_bytes(CHANNEL_ID_CONNECTION, seq, handshake::low(sent));
    let q = h.peer(key);
    let acks = seq![connect::ack_command(CHANNEL_ID_CONNECTION, seq, handshake::low(sent))];
    let first = Turn::first(h);
    let st = Some(handshake::low(sent));
    handshake::lemma_one_command(first, Some(key), st, d, from, now);
    let t1 = first.on_command(Some(key), st, d, from, now);
    let g = h.with_peer(key, q.sent(acks, now));
    assert(g.live(key) && g.peer(key).addr == q.addr);
    assert(g.without_peer(key) =~= h.without_peer(key));
    assert(t1.host == h.without_peer(key));
    assert(t1.out =~= seq![
        ActionView::SendTo { addr: q.addr, datagram: q.datagram(h.use_checksum, acks, now) },
        ActionView::Closed { key, reason: CloseReason::Remote(data) },
    ]);
    assert(t1.acks == Seq::<Seq<u8>>::empty());
}

/// Law: when the only command in flight of a disconnecting peer, its
/// DISCONNECT, is acknowledged, the peer is gone and its user is told.
pub proof fn lemma_disconnect_completes(
    r: PeerView,
    h: HostView,
    key: PeerKey,
    from: Address,
    v: OutView,
    t: u16,
    sent: u32,
    now: u32,
)
    requires
        transport::addressed(r, h, Some(key), from),
        h.live(key),
        h.peer(key).state == PeerState::Disconnecting,
        h.peer(key).outgoing == seq![v],
        v.channel_id == CHANNEL_ID_CONNECTION,
        rtt::rtt_sample(t, now) is Some,
    ensures
        h.on_datagram(
            r.datagram(
                h.use_checksum,
                transport::bytes_of(
                    seq![handshake::acknowledge_command(
                        CHANNEL_ID_CONNECTION,
                        v.reliable_seq,
                        t,
                    )],
                ),
                sent,
            ),
            from,
            now,
        ) == (
            h.without_peer(key),
            seq![ActionView::Closed { key, reason: CloseReason::Local }],
        ),
{
    let ack = AcknowledgeCmd { received_reliable_seq: v.reliable_seq, received_sent_time: t };
    let c = handshake::acknowledge_command(CHANNEL_ID_CONNECTION, v.reliable_seq, t);
    transport::lemma_well_typed(
        CMD_ACKNOWLEDGE,
        0,
        CHANNEL_ID_CONNECTION,
        0,
        command::BodyView::Acknowledge(ack),
    );
    transport::lemma_datagram_received(r, h, Some(key), from, seq![c], sent, now);
    let first = Turn::first(h);
    let st = Some(handshake::low(sent));
    handshake::lemma_one_command(first, Some(key), st, c, from, now);
    let p = h.peer(key);
    assert(outgoing::remove(p.outgoing, CHANNEL_ID_CONNECTION, v.reliable_seq).len() == 0) by {
        outgoing::lemma_remove_only(v);
    }
    let q = p.acknowledged(CHANNEL_ID_CONNECTION, ack, now);
    let g = h.with_peer(key, q);
    assert(g.live(key) && g.peer(key) == q && q.addr == p.addr);
    assert(g.without_peer(key) =~= h.without_peer(key));
    let t1 = first.on_command(Some(key), st, c, from, now);
    assert(t1.out =~= seq![ActionView::Closed { key, reason: CloseReason::Local }]);
    assert(t1.acks == Seq::<Seq<u8>>::empty());
}

/// Law: keep-alive. After a service of a connected peer, the last datagram to
/// it is less than the ping interval ago.
#[verifier::rlimit(30)]
pub proof fn lemma_keep_alive(p: PeerView, ck: bool, now: u32)
    requires
        p.state == PeerState::Connected,
    ensures
        outgoing::elapsed(now, p.service(ck, now).0.last_send_time) < DEFAULT_PING_INTERVAL_MS,
{
    let a = p.retransmit(ck, now).0;
    let b = a.ping(ck, now).0;
    lemma_pinged(a, ck, now);
    assert(b.disconnect_later(ck, now).0 == b);
    let d = PeerView { pending: Seq::empty(), ..b };
    lemma_transmit_time(d, ck, b.pending, now);
    assert(p.service(ck, now).0 == d.transmit_all(ck, b.pending, now).0);
}

/// A ping goes out where it is time for one.
proof fn lemma_pinged(a: PeerView, ck: bool, now: u32)
    requires
        a.state == PeerState::Connected,
    ensures
        a.ping(ck, now).0.state == PeerState::Connected,
        outgoing::elapsed(now, a.ping(ck, now).0.last_send_time) < DEFAULT_PING_INTERVAL_MS,
{
}

proof fn lemma_transmit_time(p: PeerView, ck: bool, packets: Seq<PacketView>, now: u32)
    ensures
        ({
            let t = p.transmit_all(ck, packets, now).0.last_send_time;
            t == p.last_send_time || t == now
        }),
    decreases packets.len(),
{
    if packets.len() > 0 {
        lemma_transmit_time(p, ck, packets.drop_last(), now);
    }
}

/// Law: a command whose timeout has passed goes out again in the next service
/// of a peer that is not given up on, and stays in flight with a doubled
/// timeout.
pub proof fn lemma_retransmitted(p: PeerView, ck: bool, i: int, now: u32)
    requires
        0 <= i < p.outgoing.len(),
        p.outgoing[i].due(now),
    ensures
        service::due_commands(p.outgoing, now).contains(p.outgoing[i].packet_bytes),
        p.retransmit(ck, now).0.outgoing[i] == p.outgoing[i].retried(now),
        p.retransmit(ck, now).1 == (PeerView {
            outgoing: service::serviced(p.outgoing, now),
            ..p
        }).flushed(ck, service::due_commands(p.outgoing, now), now),
{
    lemma_due_contains(p.outgoing, i, now);
}

/// Law: a peer is given up on, and its user told, in the first service in
/// which a command is due that was first sent the maximum timeout ago.
pub proof fn lemma_given_up(h: HostView, key: PeerKey, i: int, now: u32)
    requires
        h.live(key),
        0 <= i < h.peer(key).outgoing.len(),
        h.peer(key).outgoing[i].due(now),
        outgoing::elapsed(now, h.peer(key).outgoing[i].original_sent_time) >= TIMEOUT_MAXIMUM_MS,
    ensures
        h.service_one(key, now) == (
            h.without_peer(key),
            seq![ActionView::Closed { key, reason: CloseReason::TimedOut }],
        ),
{
    assert(h.peer(key).outgoing[i].expired(now));
}

/// Law: no service gives up on a peer unless a command that was first sent at
/// least the minimum timeout ago is due.
pub proof fn lemma_not_given_up(h: HostView, key: PeerKey, now: u32)
    requires
        h.live(key),
        forall|i: int|
            0 <= i < h.peer(key).outgoing.len() && (#[trigger] h.peer(key).outgoing[i]).due(now)
                ==> outgoing::elapsed(now, h.peer(key).outgoing[i].original_sent_time)
                < TIMEOUT_MINIMUM_MS,
    ensures
        h.service_one(key, now) == (
            h.with_peer(key, h.peer(key).service(h.use_checksum, now).0),
            h.peer(key).service(h.use_checksum, now).1,
        ),
        h.service_one(key, now).0.live(key),
{
}

proof fn lemma_due_contains(s: Seq<OutView>, i: int, now: u32)
    requires
        0 <= i < s.len(),
        s[i].due(now),
    ensures
        service::due_commands(s, now).contains(s[i].packet_bytes),
    decreases s.len(),
{
    let all = service::due_commands(s, now);
    if i == s.len() - 1 {
        assert(all[all.len() - 1] == s[i].packet_bytes);
    } else {
        let front = s.drop_last();
        lemma_due_contains(front, i, now);
        let before = service::due_commands(front, now);
        let j = choose|j: int| 0 <= j < before.len() && before[j] == s[i].packet_bytes;
        assert(all[j] == s[i].packet_bytes);
    }
}

/// Law: the DISCONNECT that was put off says what the user said when asking for
/// it. It goes out in the first service that finds nothing in flight and
/// nothing held back, as one datagram with one command of the connection under
/// its next number, and is then the only command in flight.
pub proof fn lemma_put_off_sent(p: PeerView, ck: bool, data: u32, now: u32)
    requires
        p.state == PeerState::DisconnectLater(data),
        p.outgoing.len() == 0,
        p.pending.len() == 0,
    ensures
        ({
            let (q, out) = p.service(ck, now);
            let next = ((p.outgoing_reliable_seq + 1) % 65536) as u16;
            let bytes = command::command_bytes(
                command::CommandView {
                    header: CommandHeader { command: 0x84, channel_id: 255, reliable_seq: next },
                    body: command::BodyView::Disconnect(DisconnectCmd { data }),
                },
            );
            &&& out == seq![
                ActionView::SendTo { addr: p.addr, datagram: p.datagram(ck, seq![bytes], now) },
            ]
            &&& q.outgoing == seq![p.outstanding(255, next, bytes, now)]
            &&& q == (PeerView {
                state: PeerState::Disconnecting,
                outgoing: q.outgoing,
                outgoing_reliable_seq: next,
                last_send_time: now,
                ..p
            })
        }),
{
    let none = Seq::<ActionView>::empty();
    lemma_nothing_due(p, ck, now);
    let next = ((p.outgoing_reliable_seq + 1) % 65536) as u16;
    let d = disconnect_command(0x80, next, data);
    let bytes = command::command_bytes(d);
    assert(4u8 | 0x80u8 == 0x84u8) by (bit_vector);
    let (r, cmds) = p.disconnect_plan(data, now);
    assert(cmds =~= seq![bytes]) by {
        reveal(channel::encoded);
    }
    send::lemma_single(r, ck, bytes, now);
    assert(r.datagram(ck, seq![bytes], now) == p.datagram(ck, seq![bytes], now));
    assert(p.outgoing =~= Seq::empty());
    assert(r.outgoing =~= seq![p.outstanding(255, next, bytes, now)]);
    let (c, last) = p.disconnect_now(ck, data, now);
    assert(c.pending =~= Seq::empty());
    assert(PeerView { pending: Seq::empty(), ..c } == c);
    assert(c.send_pending(ck, now) == (c, none));
    assert(none + none + last + none =~= last);
}

} // verus!
