//! The handshake brings both sides to the connected state.

use vstd::prelude::*;

use crate::address::{Address, PeerKey};
use crate::channel;
use crate::laws::transport;
use crate::peer::emit;
use crate::peer::rtt;
use crate::peer::send;
use crate::peer::{ActionView, PeerState, PeerView};
use crate::protocol::command;
use crate::protocol::header;
use crate::protocol::{
    AcknowledgeCmd, ConnectCmd, VerifyConnectCmd, CHANNEL_ID_CONNECTION, CMD_ACKNOWLEDGE,
    CMD_CONNECT, CMD_VERIFY_CONNECT, MAX_PEERS,
};
use crate::task;
use crate::task::connect;
use crate::task::dispatch::Turn;
use crate::task::HostView;

verus! {

/// The commands of the handshake.
pub open spec fn connect_command(body: ConnectCmd) -> command::CommandView {
    channel::command_of(
        CMD_CONNECT,
        0x80,
        CHANNEL_ID_CONNECTION,
        1,
        command::BodyView::Connect(body),
    )
}

pub open spec fn verify_command(body: VerifyConnectCmd) -> command::CommandView {
    channel::command_of(
        CMD_VERIFY_CONNECT,
        0x80,
        CHANNEL_ID_CONNECTION,
        1,
        command::BodyView::VerifyConnect(body),
    )
}

pub open spec fn acknowledge_command(channel_id: u8, seq: u16, t: u16) -> command::CommandView {
    channel::command_of(
        CMD_ACKNOWLEDGE,
        0,
        channel_id,
        0,
        command::BodyView::Acknowledge(
            AcknowledgeCmd { received_reliable_seq: seq, received_sent_time: t },
        ),
    )
}

/// The low 16 bits of a time.
pub open spec fn low(t: u32) -> u16 {
    (t % 0x1_0000) as u16
}

pub proof fn lemma_one_command(
    t: Turn,
    key: Option<PeerKey>,
    sent_time: Option<u16>,
    c: command::CommandView,
    from: Address,
    now: u32,
)
    ensures
        t.on_commands(key, sent_time, seq![c], from, now) == t.on_command(
            key,
            sent_time,
            c,
            from,
            now,
        ),
{
    let one = seq![c];
    assert(one.drop_last() =~= Seq::empty());
    assert(t.on_commands(key, sent_time, one.drop_last(), from, now) == t);
}

pub proof fn lemma_two_commands(
    t: Turn,
    key: Option<PeerKey>,
    sent_time: Option<u16>,
    c: command::CommandView,
    d: command::CommandView,
    from: Address,
    now: u32,
)
    ensures
        t.on_commands(key, sent_time, seq![c, d], from, now) == t.on_command(
            key,
            sent_time,
            c,
            from,
            now,
        ).on_command(key, sent_time, d, from, now),
{
    let two = seq![c, d];
    assert(two.drop_last() =~= seq![c]);
    lemma_one_command(t, key, sent_time, c, from, now);
}

/// The client's peer once CONNECT is on its way.
pub open spec fn connecting(
    c: HostView,
    server: Address,
    channel_count: u8,
    data: u32,
    id: u32,
    t: u32,
) -> PeerView {
    let slot = c.free_slot()->0;
    c.client_peer(server, channel_count, id, t).with_reliable(
        CHANNEL_ID_CONNECTION,
        CMD_CONNECT,
        command::BodyView::Connect(c.connect_body(slot, channel_count, id, data)),
        t,
    )
}

/// Law: a connection attempt sends one datagram, with CONNECT in it, to a host
/// that does not know the sender yet.
pub proof fn lemma_connect_sent(
    c: HostView,
    server: Address,
    channel_count: u8,
    data: u32,
    id: u32,
    t: u32,
)
    requires
        c.wf(),
        c.free_slot() is Some,
        c.peers.len() <= usize::MAX,
    ensures
        ({
            let slot = c.free_slot()->0;
            let p = connecting(c, server, channel_count, data, id, t);
            let cmds = seq![connect_command(c.connect_body(slot, channel_count, id, data))];
            let (c1, out) = c.connect(server, channel_count, data, id, t);
            &&& c1 == c.with_new_peer(slot, p.sent(transport::bytes_of(cmds), t))
            &&& out == seq![
                ActionView::SendTo {
                    addr: server,
                    datagram: p.datagram(c.use_checksum, transport::bytes_of(cmds), t),
                },
            ]
        }),
{
    let slot = c.free_slot()->0;
    task::lemma_free_slot(c.peers, 0);
    let p0 = c.client_peer(server, channel_count, id, t);
    let p = connecting(c, server, channel_count, data, id, t);
    let body = command::BodyView::Connect(c.connect_body(slot, channel_count, id, data));
    let cmd = p0.reliable_command(CHANNEL_ID_CONNECTION, CMD_CONNECT, body);
    reveal(channel::encoded);
    assert(p0.next_seq(CHANNEL_ID_CONNECTION) == 1);
    let cmds = seq![connect_command(c.connect_body(slot, channel_count, id, data))];
    assert(transport::bytes_of(cmds) =~= seq![cmd]);
    let h = c.with_new_peer(slot, p);
    let key = PeerKey(slot as usize);
    assert(h.live(key) && h.peer(key) == p);
    let (c1, out) = h.emit(key, seq![cmd], t);
    assert(c1 =~= c.with_new_peer(slot, p.sent(seq![cmd], t)));
}

/// Law: a host without the sender's address that gets CONNECT does what it
/// does with a CONNECT, and nothing else.
pub proof fn lemma_connect_received(
    p: PeerView,
    s: HostView,
    body: ConnectCmd,
    client: Address,
    sent: u32,
    now: u32,
)
    requires
        p.outgoing_peer_id == 0xFFFF,
        !s.addr_map.contains_key(client),
    ensures
        s.on_datagram(
            p.datagram(
                s.use_checksum,
                transport::bytes_of(seq![connect_command(body)]),
                sent,
            ),
            client,
            now,
        ) == s.on_connect(body, 1, Some(low(sent)), client, now),
{
    let c = connect_command(body);
    let cmds = seq![c];
    transport::lemma_well_typed(
        CMD_CONNECT,
        0x80,
        CHANNEL_ID_CONNECTION,
        1,
        command::BodyView::Connect(body),
    );
    header::lemma_header_fields(0x8000, p.outgoing_session_id, p.outgoing_peer_id);
    transport::lemma_datagram_received(p, s, None, client, cmds, sent, now);
    let t = Turn::first(s);
    lemma_one_command(t, None, Some(low(sent)), c, client, now);
    let step = s.on_connect(body, 1, Some(low(sent)), client, now);
    assert(Seq::<ActionView>::empty() + step.1 =~= step.1);
}

/// The server's peer once VERIFY_CONNECT is on its way.
pub open spec fn accepting(s: HostView, body: ConnectCmd, client: Address, now: u32) -> PeerView {
    let slot = s.free_slot()->0;
    s.server_peer(slot, body, 1, client, now).with_reliable(
        CHANNEL_ID_CONNECTION,
        CMD_VERIFY_CONNECT,
        command::BodyView::VerifyConnect(s.verify_body(slot, body)),
        now,
    )
}

/// Law: a host with a free slot answers a CONNECT from an unknown address with
/// one datagram, in which CONNECT is acknowledged and VERIFY_CONNECT follows.
pub proof fn lemma_connect_answered(
    s: HostView,
    body: ConnectCmd,
    st: u16,
    client: Address,
    now: u32,
)
    requires
        s.wf(),
        s.free_slot() is Some,
        !s.addr_map.contains_key(client),
    ensures
        ({
            let slot = s.free_slot()->0;
            let q = accepting(s, body, client, now);
            let cmds = seq![
                acknowledge_command(CHANNEL_ID_CONNECTION, 1, st),
                verify_command(s.verify_body(slot, body)),
            ];
            let (s1, out) = s.on_connect(body, 1, Some(st), client, now);
            &&& s1 == s.with_sessions(slot, s.next_sessions(slot, body)).with_new_peer(
                slot,
                q.sent(transport::bytes_of(cmds), now),
            )
            &&& out == seq![
                ActionView::SendTo {
                    addr: client,
                    datagram: q.datagram(s.use_checksum, transport::bytes_of(cmds), now),
                },
            ]
        }),
{
    let slot = s.free_slot()->0;
    task::lemma_free_slot(s.peers, 0);
    reveal(channel::encoded);
    let q0 = s.server_peer(slot, body, 1, client, now);
    let q = accepting(s, body, client, now);
    assert(q0.next_seq(CHANNEL_ID_CONNECTION) == 1);
    let cmds = seq![
        acknowledge_command(CHANNEL_ID_CONNECTION, 1, st),
        verify_command(s.verify_body(slot, body)),
    ];
    let verify = q0.reliable_command(
        CHANNEL_ID_CONNECTION,
        CMD_VERIFY_CONNECT,
        command::BodyView::VerifyConnect(s.verify_body(slot, body)),
    );
    let bytes = seq![connect::ack_command(CHANNEL_ID_CONNECTION, 1, st), verify];
    assert(transport::bytes_of(cmds) =~= bytes);
    let noted = s.with_sessions(slot, s.next_sessions(slot, body));
    let h = noted.with_new_peer(slot, q);
    let key = PeerKey(slot as usize);
    assert(h.live(key) && h.peer(key) == q);
    assert(h.emit(key, bytes, now).0 =~= noted.with_new_peer(slot, q.sent(bytes, now)));
}

/// The client's peer once the answer of the server has come.
pub open spec fn verified(p: PeerView, vb: VerifyConnectCmd, t: u16, now: u32) -> PeerView {
    p.acknowledged(
        CHANNEL_ID_CONNECTION,
        AcknowledgeCmd { received_reliable_seq: 1, received_sent_time: t },
        now,
    ).on_verify(vb, 1, now)
}

pub proof fn lemma_ack_bytes(channel_id: u8, seq: u16, t: u16)
    ensures
        transport::bytes_of(seq![acknowledge_command(channel_id, seq, t)]) == seq![
            connect::ack_command(channel_id, seq, t),
        ],
{
    reveal(channel::encoded);
    assert(transport::bytes_of(seq![acknowledge_command(channel_id, seq, t)]) =~= seq![
        connect::ack_command(channel_id, seq, t),
    ]);
}

/// The acknowledgement of CONNECT alone changes nothing for the connection.
proof fn lemma_connect_acknowledged(
    c: HostView,
    key: PeerKey,
    t: u16,
    st: Option<u16>,
    server: Address,
    now: u32,
)
    requires
        c.live(key),
        c.peer(key).state == PeerState::Connecting,
    ensures
        ({
            let p = c.peer(key);
            let p1 = p.acknowledged(
                CHANNEL_ID_CONNECTION,
                AcknowledgeCmd { received_reliable_seq: 1, received_sent_time: t },
                now,
            );
            &&& Turn::first(c).on_command(
                Some(key),
                st,
                acknowledge_command(CHANNEL_ID_CONNECTION, 1, t),
                server,
                now,
            ) == Turn::first(c.with_peer(key, p1))
            &&& p1.state == p.state
            &&& p1.connect_id == p.connect_id
            &&& p1.handle_held == p.handle_held
            &&& p1.reply_held == p.reply_held
            &&& p1.addr == p.addr
            &&& p1.channels == p.channels
        }),
{
    let ack_body = AcknowledgeCmd { received_reliable_seq: 1, received_sent_time: t };
    transport::lemma_well_typed(
        CMD_ACKNOWLEDGE,
        0,
        CHANNEL_ID_CONNECTION,
        0,
        command::BodyView::Acknowledge(ack_body),
    );
    let t1 = Turn::first(c).on_command(
        Some(key),
        st,
        acknowledge_command(CHANNEL_ID_CONNECTION, 1, t),
        server,
        now,
    );
    assert(t1.out =~= Seq::empty());
}

/// The server's answer makes the connection stand.
proof fn lemma_verify_step(
    c: HostView,
    key: PeerKey,
    vb: VerifyConnectCmd,
    st: u16,
    server: Address,
    now: u32,
)
    requires
        c.live(key),
        c.peer(key).state == PeerState::Connecting,
        c.peer(key).connect_id == vb.connect_id,
        c.peer(key).handle_held,
        c.peer(key).reply_held,
    ensures
        ({
            let t = Turn::first(c).on_command(
                Some(key),
                Some(st),
                verify_command(vb),
                server,
                now,
            );
            &&& t.host == c.with_peer(key, c.peer(key).on_verify(vb, 1, now))
            &&& t.out == seq![ActionView::ConnectReply { key }]
            &&& t.acks == seq![connect::ack_command(CHANNEL_ID_CONNECTION, 1, st)]
        }),
{
    let t = Turn::first(c).on_command(Some(key), Some(st), verify_command(vb), server, now);
    assert(t.out =~= seq![ActionView::ConnectReply { key }]);
    assert(t.acks =~= seq![connect::ack_command(CHANNEL_ID_CONNECTION, 1, st)]);
}

/// Law: a client that gets the answer to its CONNECT is connected, tells
/// whoever asked for the connection, and acknowledges the answer.
#[verifier::rlimit(30)]
pub proof fn lemma_verify_received(
    c: HostView,
    key: PeerKey,
    q: PeerView,
    vb: VerifyConnectCmd,
    t: u16,
    server: Address,
    sent: u32,
    now: u32,
)
    requires
        c.peers.len() <= MAX_PEERS,
        c.live(key),
        q.outgoing_peer_id == key.0,
        q.connect_id == vb.connect_id,
        c.peer(key).state == PeerState::Connecting,
        c.peer(key).incoming_session_id == 0xFF,
        c.peer(key).connect_id == vb.connect_id,
        c.peer(key).handle_held,
        c.peer(key).reply_held,
    ensures
        ({
            let cmds = seq![
                acknowledge_command(CHANNEL_ID_CONNECTION, 1, t),
                verify_command(vb),
            ];
            let r = verified(c.peer(key), vb, t, now);
            let acks = transport::bytes_of(
                seq![acknowledge_command(CHANNEL_ID_CONNECTION, 1, low(sent))],
            );
            let (after, out) = c.on_datagram(
                q.datagram(c.use_checksum, transport::bytes_of(cmds), sent),
                server,
                now,
            );
            &&& after == c.with_peer(key, r.sent(acks, now))
            &&& out == seq![
                ActionView::ConnectReply { key },
                ActionView::SendTo {
                    addr: r.addr,
                    datagram: r.datagram(c.use_checksum, acks, now),
                },
            ]
            &&& r.state == PeerState::Connected
            &&& r.addr == c.peer(key).addr
        }),
{
    lemma_ack_bytes(CHANNEL_ID_CONNECTION, 1, low(sent));
    let a = acknowledge_command(CHANNEL_ID_CONNECTION, 1, t);
    let v = verify_command(vb);
    let cmds = seq![a, v];
    let ack_body = AcknowledgeCmd { received_reliable_seq: 1, received_sent_time: t };
    transport::lemma_well_typed(
        CMD_ACKNOWLEDGE,
        0,
        CHANNEL_ID_CONNECTION,
        0,
        command::BodyView::Acknowledge(ack_body),
    );
    transport::lemma_well_typed(
        CMD_VERIFY_CONNECT,
        0x80,
        CHANNEL_ID_CONNECTION,
        1,
        command::BodyView::VerifyConnect(vb),
    );
    header::lemma_header_fields(0x8000, q.outgoing_session_id, q.outgoing_peer_id);
    transport::lemma_datagram_received(q, c, Some(key), server, cmds, sent, now);
    let first = Turn::first(c);
    let st = Some(low(sent));
    lemma_two_commands(first, Some(key), st, a, v, server, now);
    lemma_connect_acknowledged(c, key, t, st, server, now);
    let p = c.peer(key);
    let p1 = p.acknowledged(CHANNEL_ID_CONNECTION, ack_body, now);
    let c1 = c.with_peer(key, p1);
    assert(c1.live(key) && c1.peer(key) == p1);
    lemma_verify_step(c1, key, vb, low(sent), server, now);
    let r = verified(p, vb, t, now);
    let c2 = c1.with_peer(key, r);
    let acks = seq![connect::ack_command(CHANNEL_ID_CONNECTION, 1, low(sent))];
    assert(c2.live(key) && c2.peer(key) == r);
    send::lemma_single(r, c.use_checksum, acks[0], now);
    let t2 = Turn::first(c1).on_command(Some(key), st, v, server, now);
    let sent_out = r.flushed(c.use_checksum, acks, now);
    assert(t2.out + sent_out =~= seq![
        ActionView::ConnectReply { key },
        ActionView::SendTo { addr: r.addr, datagram: r.datagram(c.use_checksum, acks, now) },
    ]);
    assert(c2.with_peer(key, r.sent(acks, now)) =~= c.with_peer(key, r.sent(acks, now)));
}

/// Law: a server whose VERIFY_CONNECT is acknowledged hands the connection
/// out.
pub proof fn lemma_handshake_acknowledged(
    s: HostView,
    key: PeerKey,
    r: PeerView,
    t: u16,
    client: Address,
    sent: u32,
    now: u32,
)
    requires
        s.peers.len() <= MAX_PEERS,
        s.live(key),
        r.outgoing_peer_id == key.0,
        r.connect_id == s.peer(key).connect_id,
        s.peer(key).incoming_session_id == 0xFF || s.peer(key).incoming_session_id
            == r.outgoing_session_id % 4,
        s.peer(key).state == PeerState::AcknowledgingConnect,
        s.peer(key).handle_held,
        rtt::rtt_sample(t, now) is Some,
    ensures
        ({
            let cmds = seq![acknowledge_command(CHANNEL_ID_CONNECTION, 1, t)];
            let q = s.peer(key).acknowledged(
                CHANNEL_ID_CONNECTION,
                AcknowledgeCmd { received_reliable_seq: 1, received_sent_time: t },
                now,
            );
            let (after, out) = s.on_datagram(
                r.datagram(s.use_checksum, transport::bytes_of(cmds), sent),
                client,
                now,
            );
            &&& after == s.with_peer(key, q)
            &&& out == seq![ActionView::Accept { key }]
            &&& q.state == PeerState::Connected
        }),
{
    let a = acknowledge_command(CHANNEL_ID_CONNECTION, 1, t);
    let ack_body = AcknowledgeCmd { received_reliable_seq: 1, received_sent_time: t };
    transport::lemma_well_typed(
        CMD_ACKNOWLEDGE,
        0,
        CHANNEL_ID_CONNECTION,
        0,
        command::BodyView::Acknowledge(ack_body),
    );
    header::lemma_header_fields(0x8000, r.outgoing_session_id, r.outgoing_peer_id);
    transport::lemma_datagram_received(r, s, Some(key), client, seq![a], sent, now);
    let first = Turn::first(s);
    let st = Some(low(sent));
    lemma_one_command(first, Some(key), st, a, client, now);
    let t1 = first.on_command(Some(key), st, a, client, now);
    assert(t1.out =~= seq![ActionView::Accept { key }]);
    assert(t1.acks == Seq::<Seq<u8>>::empty());
}

/// Law: the handshake. A client with a free slot connects to a server with a
/// free slot that does not know it, both with checksums or both without. Three
/// datagrams go back and forth. Then
/// the client tells whoever asked that the connection stands, the server hands
/// the connection out, and both sides are connected with the same connect ID,
/// MTU and window, each using the slot and the session that the other expects.
#[verifier::rlimit(30)]
pub proof fn lemma_handshake(
    c: HostView,
    s: HostView,
    client: Address,
    server: Address,
    channel_count: u8,
    data: u32,
    id: u32,
    t0: u32,
    t1: u32,
    t2: u32,
    t3: u32,
)
    requires
        c.wf(),
        s.wf(),
        c.use_checksum == s.use_checksum,
        c.free_slot() is Some,
        s.free_slot() is Some,
        !s.addr_map.contains_key(client),
        rtt::rtt_sample(low(t1), t3) is Some,
    ensures
        ({
            let ck = PeerKey(c.free_slot()->0 as usize);
            let sk = PeerKey(s.free_slot()->0 as usize);
            let (c1, out1) = c.connect(server, channel_count, data, id, t0);
            &&& out1.len() == 1
            &&& out1[0] matches ActionView::SendTo { addr: a1, datagram: d1 }
            &&& a1 == server
            &&& {
                let (s1, out2) = s.on_datagram(d1, client, t1);
                &&& out2.len() == 1
                &&& out2[0] matches ActionView::SendTo { addr: a2, datagram: d2 }
                &&& a2 == client
                &&& {
                    let (c2, out3) = c1.on_datagram(d2, server, t2);
                    &&& out3.len() == 2
                    &&& out3[0] == (ActionView::ConnectReply { key: ck })
                    &&& out3[1] matches ActionView::SendTo { addr: a3, datagram: d3 }
                    &&& a3 == server
                    &&& {
                        let (s2, out4) = s1.on_datagram(d3, client, t3);
                        &&& out4 == seq![ActionView::Accept { key: sk }]
                        &&& paired(c2, ck, s2, sk)
                    }
                }
            }
        }),
{
    task::lemma_free_slot(c.peers, 0);
    task::lemma_free_slot(s.peers, 0);
    let cs = c.free_slot()->0;
    let ss = s.free_slot()->0;
    let ck = PeerKey(cs as usize);
    let sk = PeerKey(ss as usize);
    let body = c.connect_body(cs, channel_count, id, data);
    lemma_connect_sent(c, server, channel_count, data, id, t0);
    let p = connecting(c, server, channel_count, data, id, t0);
    let cmds1 = transport::bytes_of(seq![connect_command(body)]);
    let c1 = c.with_new_peer(cs, p.sent(cmds1, t0));
    lemma_connect_received(p, s, body, client, t0, t1);
    lemma_connect_answered(s, body, low(t0), client, t1);
    let q = accepting(s, body, client, t1);
    let vb = s.verify_body(ss, body);
    let cmds2 = transport::bytes_of(
        seq![acknowledge_command(CHANNEL_ID_CONNECTION, 1, low(t0)), verify_command(vb)],
    );
    let s1 = s.with_sessions(ss, s.next_sessions(ss, body)).with_new_peer(ss, q.sent(cmds2, t1));
    assert(c1.live(ck) && c1.peer(ck) == p.sent(cmds1, t0));
    lemma_verify_received(c1, ck, q, vb, low(t0), server, t1, t2);
    let r = verified(c1.peer(ck), vb, low(t0), t2);
    let cmds3 = transport::bytes_of(
        seq![acknowledge_command(CHANNEL_ID_CONNECTION, 1, low(t1))],
    );
    let c2 = c1.with_peer(ck, r.sent(cmds3, t2));
    assert(s1.live(sk) && s1.peer(sk) == q.sent(cmds2, t1));
    lemma_handshake_acknowledged(s1, sk, r, low(t1), client, t2, t3);
}

/// Law: a session that a server picks is another one than the slot had before,
/// and another one than the client declares for what it sends.
pub proof fn lemma_session_differs(previous: u8, other: u8)
    ensures
        connect::next_session(0xFF, previous, other) < 4,
        connect::next_session(0xFF, previous, other) != previous % 4,
        connect::next_session(0xFF, previous, other) != other,
{
}

/// The two sides of a connection agree.
pub open spec fn paired(c: HostView, ck: PeerKey, s: HostView, sk: PeerKey) -> bool {
    &&& c.live(ck)
    &&& s.live(sk)
    &&& ({
        let p = c.peer(ck);
        let q = s.peer(sk);
        &&& p.state == PeerState::Connected
        &&& q.state == PeerState::Connected
        &&& p.connect_id == q.connect_id
        &&& p.mtu == q.mtu
        &&& p.window_size == q.window_size
        &&& p.outgoing_peer_id == sk.0
        &&& q.outgoing_peer_id == ck.0
        &&& p.outgoing_session_id == q.incoming_session_id
        &&& q.outgoing_session_id == p.incoming_session_id
        &&& p.channels.len() == q.channels.len()
    })
}

} // verus!
