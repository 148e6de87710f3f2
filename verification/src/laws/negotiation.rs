//! What the two sides of a handshake tell each other, and what they settle on.

use vstd::prelude::*;

use crate::address::{Address, PeerKey};
use crate::channel;
use crate::channel::unsequenced::UnsequencedView;
use crate::channel::ChannelView;
use crate::laws::handshake;
use crate::laws::layout;
use crate::laws::transport;
use crate::peer::emit;
use crate::peer::rtt;
use crate::peer::{ActionView, PeerState, PeerView};
use crate::protocol::command;
use crate::protocol::{
    BandwidthLimitCmd, ConnectCmd, DisconnectCmd, ThrottleConfigureCmd, VerifyConnectCmd,
    CHANNEL_ID_CONNECTION, CMD_CONNECT, CMD_VERIFY_CONNECT,
};
use crate::task;
use crate::task::connect;
use crate::task::HostView;

verus! {

/// A number within limits.
pub open spec fn within_limits(n: int, low: int, high: int) -> int {
    if n < low {
        low
    } else if n > high {
        high
    } else {
        n
    }
}

/// The smaller of two numbers.
pub open spec fn smallest(a: int, b: int) -> int {
    if a < b {
        a
    } else {
        b
    }
}

/// What a side that can take `b` bytes a second allows the other: 4096 for each
/// full 65536, at least 4096, and 65536 where it can take any number.
pub open spec fn allowance(b: u32) -> int {
    if b == 0 {
        65536
    } else if b < 65536 {
        4096
    } else {
        b as int / 65536 * 4096
    }
}

/// The first free slot.
pub open spec fn first_free(h: HostView, slot: int) -> bool {
    &&& 0 <= slot < h.peers.len()
    &&& h.peers[slot] is None
    &&& forall|i: int| 0 <= i < slot ==> #[trigger] h.peers[i] is Some
}

/// Law: a connection attempt takes the first free slot, and no other slot
/// changes. The new peer waits for the answer, under the connect ID, with one
/// CONNECT in flight, as many channels as were asked for and at least one,
/// an MTU of 1392, the full window, and nothing sent or received yet.
pub proof fn lemma_attempt(
    c: HostView,
    server: Address,
    channel_count: u8,
    data: u32,
    id: u32,
    t: u32,
    slot: int,
)
    requires
        c.host_mtu == 1392,
        c.peers.len() <= 4095,
        first_free(c, slot),
    ensures
        ({
            let (c1, out) = c.connect(server, channel_count, data, id, t);
            &&& c1.peers.len() == c.peers.len()
            &&& c1.peers[slot] is Some
            &&& forall|i: int| 0 <= i < c.peers.len() && i != slot ==> #[trigger] c1.peers[i]
                == c.peers[i]
            &&& c1.addr_map == c.addr_map.insert(server, PeerKey(slot as usize))
            &&& c1 == (HostView { peers: c1.peers, addr_map: c1.addr_map, ..c })
            &&& ({
                let p = c1.peers[slot]->0;
                &&& p.addr == server
                &&& p.state == PeerState::Connecting
                &&& p.connect_id == id
                &&& p.outgoing_peer_id == 65535
                &&& p.incoming_session_id == 255
                &&& p.mtu == 1392
                &&& p.window_size == 65536
                &&& p.channels.len() == (if channel_count == 0 {
                    1
                } else {
                    channel_count as int
                })
                &&& forall|i: int| 0 <= i < p.channels.len() ==> #[trigger] p.channels[i]
                    == ChannelView::fresh()
                &&& p.packet_throttle == 32
                &&& p.throttle_interval == 5000
                &&& p.throttle_acceleration == 2
                &&& p.throttle_deceleration == 2
                &&& p.rtt == 500
                &&& p.rtt_var == 250
                &&& !p.rtt_initialized
                &&& p.outgoing.len() == 1
                &&& p.outgoing[0].channel_id == 255
                &&& p.outgoing[0].reliable_seq == 1
                &&& p.outgoing[0].sent_time == t
                &&& p.outgoing[0].original_sent_time == t
                &&& p.outgoing[0].send_attempts == 1
                &&& p.outgoing[0].rtt_timeout == 1500
                &&& p.outgoing_reliable_seq == 1
                &&& p.pending.len() == 0
                &&& p.last_send_time == t
                &&& p.handle_held
                &&& p.reply_held
                &&& p.last_receive_time == t
                &&& p.rtt_at_throttle_epoch == 500
                &&& p.packet_throttle_epoch == 0
                &&& p.fragment_bytes == 0
                &&& p.unsequenced == UnsequencedView::fresh()
            })
            &&& out.len() == 1
            &&& out[0] matches ActionView::SendTo { addr, datagram }
            &&& addr == server
        }),
{
    task::lemma_free_slot(c.peers, 0);
    assert(c.free_slot() == Some(slot)) by {
        lemma_first_free(c, slot);
    }
    let body = command::BodyView::Connect(c.connect_body(slot, channel_count, id, data));
    let p0 = c.client_peer(server, channel_count, id, t);
    let p = p0.with_reliable(CHANNEL_ID_CONNECTION, CMD_CONNECT, body, t);
    let h = c.with_new_peer(slot, p);
    let key = PeerKey(slot as usize);
    assert(h.live(key) && h.peer(key) == p);
    assert(p.outgoing =~= seq![
        p0.outstanding(
            CHANNEL_ID_CONNECTION,
            1,
            p0.reliable_command(CHANNEL_ID_CONNECTION, CMD_CONNECT, body),
            t,
        ),
    ]);
    let c1 = c.connect(server, channel_count, data, id, t).0;
    assert(c1.peers =~= c.peers.update(slot, c1.peers[slot]));
}

/// The slot that is found free is the first one.
pub proof fn lemma_first_free(h: HostView, slot: int)
    requires
        first_free(h, slot),
    ensures
        h.free_slot() == Some(slot),
{
    task::lemma_free_slot(h.peers, 0);
    match h.free_slot() {
        Some(k) => {
            if k < slot {
                assert(h.peers[k] is Some);
            } else if slot < k {
                assert(h.peers[slot] is Some);
            }
        },
        None => {
            assert(h.peers[slot] is Some);
        },
    }
}

/// Law: CONNECT states the client's own settings. Behind the header, which
/// names no slot, and the checksum where there is one, stand: the command with
/// number 1 of the connection, which asks for an acknowledgement; the client's
/// slot; a request for new sessions; the MTU of 1392; the full window; the
/// number of channels; what the client can take in and what it may send; the
/// throttle; the connect ID; and the data of the user.
pub proof fn lemma_connect_says(
    c: HostView,
    server: Address,
    channel_count: u8,
    data: u32,
    id: u32,
    t: u32,
    slot: int,
)
    requires
        c.wf(),
        c.host_mtu == 1392,
        c.peers.len() <= 4095,
        first_free(c, slot),
    ensures
        ({
            let out = c.connect(server, channel_count, data, id, t).1;
            let s = out[0]->datagram;
            let o = if c.use_checksum {
                8int
            } else {
                4
            };
            &&& out.len() == 1
            &&& out[0] == (ActionView::SendTo { addr: server, datagram: s })
            &&& s.len() == o + 48
            &&& layout::num16(s, 0) == 32768 + 3 * 4096 + 4095
            &&& layout::num16(s, 2) == t % 65536
            &&& s[o] == 0x82
            &&& s[o + 1] == 255
            &&& layout::num16(s, o + 2) == 1
            &&& layout::num16(s, o + 4) == slot
            &&& s[o + 6] == 255
            &&& s[o + 7] == 255
            &&& layout::num32(s, o + 8) == 1392
            &&& layout::num32(s, o + 12) == 65536
            &&& layout::num32(s, o + 16) == (if channel_count == 0 {
                1
            } else {
                channel_count as int
            })
            &&& layout::num32(s, o + 20) == c.incoming_bandwidth
            &&& layout::num32(s, o + 24) == c.outgoing_bandwidth
            &&& layout::num32(s, o + 28) == 5000
            &&& layout::num32(s, o + 32) == 2
            &&& layout::num32(s, o + 36) == 2
            &&& layout::num32(s, o + 40) == id
            &&& layout::num32(s, o + 44) == data
        }),
{
    lemma_first_free(c, slot);
    let body = c.connect_body(slot, channel_count, id, data);
    let cmd = handshake::connect_command(body);
    handshake::lemma_connect_sent(c, server, channel_count, data, id, t);
    let p = handshake::connecting(c, server, channel_count, data, id, t);
    let cmds = transport::bytes_of(seq![cmd]);
    let s = p.datagram(c.use_checksum, cmds, t);
    layout::lemma_datagram_layout(p, c.use_checksum, cmds, t);
    layout::lemma_concat(Seq::empty(), Seq::empty(), command::command_bytes(cmd));
    assert(cmds =~= seq![command::command_bytes(cmd)]);
    assert(0x02u8 | 0x80u8 == 0x82u8) by (bit_vector);
    let o = if c.use_checksum {
        8int
    } else {
        4
    };
    let b = command::command_bytes(cmd);
    assert(s.subrange(o, o + 48) =~= b);
    layout::lemma_command_head(cmd);
    layout::lemma_connect_layout(body);
    assert(b.subrange(4, 48) =~= b.skip(4));
    layout::lemma_part(s, o, 48);
    layout::lemma_part(b, 4, 44);
    lemma_connect_numbers(b);
}

/// The places of a body, seen from the front of its command.
proof fn lemma_connect_numbers(b: Seq<u8>)
    requires
        b.len() >= 44,
    ensures
        ({
            let t = b.subrange(4, b.len() as int);
            &&& layout::num16(t, 0) == layout::num16(b, 4)
            &&& t[2] == b[6]
            &&& t[3] == b[7]
            &&& layout::num32(t, 4) == layout::num32(b, 8)
            &&& layout::num32(t, 8) == layout::num32(b, 12)
            &&& layout::num32(t, 12) == layout::num32(b, 16)
            &&& layout::num32(t, 16) == layout::num32(b, 20)
            &&& layout::num32(t, 20) == layout::num32(b, 24)
            &&& layout::num32(t, 24) == layout::num32(b, 28)
            &&& layout::num32(t, 28) == layout::num32(b, 32)
            &&& layout::num32(t, 32) == layout::num32(b, 36)
            &&& layout::num32(t, 36) == layout::num32(b, 40)
        }),
{
}

/// A session that a server picks: the one behind what the client declares, or
/// else the one behind the slot's last one that the client does not use.
pub open spec fn picked(declared: u8, previous: u8, other: u8) -> int {
    if declared < 255 {
        (declared + 1) % 4
    } else if other == (previous + 1) % 4 {
        (previous + 2) % 4
    } else {
        (previous + 1) % 4
    }
}

/// The window that a server grants.
pub open spec fn window_for(s: HostView, body: ConnectCmd) -> int {
    let sending = if s.outgoing_bandwidth == 0 {
        allowance(body.incoming_bandwidth)
    } else if body.incoming_bandwidth == 0 || s.outgoing_bandwidth < body.incoming_bandwidth {
        allowance(s.outgoing_bandwidth)
    } else {
        allowance(body.incoming_bandwidth)
    };
    within_limits(
        smallest(smallest(allowance(s.incoming_bandwidth), sending), body.window_size as int),
        4096,
        65536,
    )
}

/// Law: a server with a free slot that does not know the client gives it the
/// first free slot, and no other slot changes. The new peer has the client's
/// slot and connect ID and the throttle that it asked for, the MTU that both
/// allow, the window that the bandwidths of both and the client's request
/// allow, and waits for the acknowledgement of one VERIFY_CONNECT.
#[verifier::rlimit(40)]
pub proof fn lemma_admission(
    s: HostView,
    body: ConnectCmd,
    seq: u16,
    st: Option<u16>,
    client: Address,
    now: u32,
    slot: int,
)
    requires
        s.host_mtu == 1392,
        s.peers.len() <= 4095,
        s.sessions.len() == s.peers.len(),
        first_free(s, slot),
        !s.addr_map.contains_key(client),
    ensures
        ({
            let (s1, out) = s.on_connect(body, seq, st, client, now);
            let other = body.outgoing_session_id;
            let incoming = picked(body.incoming_session_id, s.sessions[slot].0, other);
            let outgoing = picked(body.outgoing_session_id, s.sessions[slot].1, other);
            &&& s1.peers.len() == s.peers.len()
            &&& s1.peers[slot] is Some
            &&& forall|i: int| 0 <= i < s.peers.len() && i != slot ==> #[trigger] s1.peers[i]
                == s.peers[i]
            &&& s1.addr_map == s.addr_map.insert(client, PeerKey(slot as usize))
            &&& s1.sessions == s.sessions.update(slot, (incoming as u8, outgoing as u8))
            &&& s1 == (HostView {
                peers: s1.peers,
                addr_map: s1.addr_map,
                sessions: s1.sessions,
                ..s
            })
            &&& ({
                let q = s1.peers[slot]->0;
                &&& q.addr == client
                &&& q.state == PeerState::AcknowledgingConnect
                &&& q.connect_id == body.connect_id
                &&& q.outgoing_peer_id == body.outgoing_peer_id
                &&& q.incoming_session_id == incoming
                &&& q.outgoing_session_id == outgoing
                &&& q.mtu == smallest(within_limits(body.mtu as int, 576, 4096), 1392)
                &&& q.window_size == window_for(s, body)
                &&& q.channels.len() == (if body.channel_count % 256 == 0 {
                    1
                } else {
                    body.channel_count as int % 256
                })
                &&& forall|i: int| 0 <= i < q.channels.len() ==> #[trigger] q.channels[i]
                    == ChannelView::fresh()
                &&& q.packet_throttle == 32
                &&& q.throttle_interval == body.throttle_interval
                &&& q.throttle_acceleration == body.throttle_acceleration
                &&& q.throttle_deceleration == body.throttle_deceleration
                &&& q.rtt == 500
                &&& q.rtt_var == 250
                &&& q.outgoing.len() == 1
                &&& q.outgoing[0].channel_id == 255
                &&& q.outgoing[0].reliable_seq == 1
                &&& q.outgoing[0].sent_time == now
                &&& q.outgoing[0].original_sent_time == now
                &&& q.outgoing[0].send_attempts == 1
                &&& q.outgoing[0].rtt_timeout == 1500
                &&& q.pending.len() == 0
                &&& q.incoming_reliable_seq == seq
                &&& q.last_send_time == now
                &&& q.handle_held
                &&& !q.reply_held
                &&& q.last_receive_time == now
                &&& q.outgoing_reliable_seq == 1
                &&& !q.rtt_initialized
                &&& q.rtt_at_throttle_epoch == 500
                &&& q.packet_throttle_epoch == 0
                &&& q.fragment_bytes == 0
                &&& q.unsequenced == UnsequencedView::fresh()
            })
            &&& out.len() == 1
            &&& out[0] matches ActionView::SendTo { addr, datagram }
            &&& addr == client
        }),
{
    lemma_first_free(s, slot);
    let q0 = s.server_peer(slot, body, seq, client, now);
    let vb = s.verify_body(slot, body);
    let v = command::BodyView::VerifyConnect(vb);
    let q = q0.with_reliable(CHANNEL_ID_CONNECTION, CMD_VERIFY_CONNECT, v, now);
    let noted = s.with_sessions(slot, s.next_sessions(slot, body));
    let h = noted.with_new_peer(slot, q);
    let key = PeerKey(slot as usize);
    assert(h.live(key) && h.peer(key) == q);
    assert(q.outgoing =~= seq![
        q0.outstanding(
            CHANNEL_ID_CONNECTION,
            1,
            q0.reliable_command(CHANNEL_ID_CONNECTION, CMD_VERIFY_CONNECT, v),
            now,
        ),
    ]);
    lemma_window(s, body);
    let s1 = s.on_connect(body, seq, st, client, now).0;
    assert(s1.peers =~= s.peers.update(slot, s1.peers[slot]));
}

proof fn lemma_window(s: HostView, body: ConnectCmd)
    ensures
        s.granted_window(body) == window_for(s, body),
{
    lemma_allowance(s.incoming_bandwidth);
    lemma_allowance(s.outgoing_bandwidth);
    lemma_allowance(body.incoming_bandwidth);
}

proof fn lemma_allowance(b: u32)
    ensures
        crate::peer::receive::bandwidth_window(b) == allowance(b),
{
}

/// Law: the answer to CONNECT is one datagram, to the client's slot and under
/// the session that the client is to expect. In it CONNECT is acknowledged,
/// where the time it was sent is known, and VERIFY_CONNECT tells the client its
/// slot at the server, the two sessions, what was settled, what the server can
/// take in and what it may send, and the connect ID.
#[verifier::rlimit(40)]
pub proof fn lemma_answer_says(
    s: HostView,
    body: ConnectCmd,
    seq: u16,
    sent: Option<u16>,
    client: Address,
    now: u32,
    slot: int,
)
    requires
        s.host_mtu == 1392,
        s.peers.len() <= 4095,
        s.sessions.len() == s.peers.len(),
        first_free(s, slot),
        !s.addr_map.contains_key(client),
    ensures
        ({
            let (s1, out) = s.on_connect(body, seq, sent, client, now);
            let q = s1.peers[slot]->0;
            let d = out[0]->datagram;
            let head = if s.use_checksum {
                8int
            } else {
                4
            };
            let o = if sent is Some {
                head
            } else {
                head - 8
            };
            &&& out.len() == 1
            &&& d.len() == o + 52
            &&& layout::num16(d, 0) == 32768 + 4096 * q.outgoing_session_id + body.outgoing_peer_id
                % 4096
            &&& layout::num16(d, 2) == now % 65536
            &&& sent matches Some(st) ==> {
                &&& d[o] == 1
                &&& d[o + 1] == 255
                &&& layout::num16(d, o + 2) == 0
                &&& layout::num16(d, o + 4) == seq
                &&& layout::num16(d, o + 6) == st
            }
            &&& d[o + 8] == 0x83
            &&& d[o + 9] == 255
            &&& layout::num16(d, o + 10) == 1
            &&& layout::num16(d, o + 12) == slot
            &&& d[o + 14] == q.outgoing_session_id
            &&& d[o + 15] == q.incoming_session_id
            &&& layout::num32(d, o + 16) == q.mtu
            &&& layout::num32(d, o + 20) == q.window_size
            &&& layout::num32(d, o + 24) == q.channels.len()
            &&& layout::num32(d, o + 28) == s.incoming_bandwidth
            &&& layout::num32(d, o + 32) == s.outgoing_bandwidth
            &&& layout::num32(d, o + 36) == body.throttle_interval
            &&& layout::num32(d, o + 40) == body.throttle_acceleration
            &&& layout::num32(d, o + 44) == body.throttle_deceleration
            &&& layout::num32(d, o + 48) == body.connect_id
        }),
{
    lemma_first_free(s, slot);
    lemma_admission(s, body, seq, sent, client, now, slot);
    let q0 = s.server_peer(slot, body, seq, client, now);
    let vb = s.verify_body(slot, body);
    let v = command::BodyView::VerifyConnect(vb);
    let q = q0.with_reliable(CHANNEL_ID_CONNECTION, CMD_VERIFY_CONNECT, v, now);
    let noted = s.with_sessions(slot, s.next_sessions(slot, body));
    let h = noted.with_new_peer(slot, q);
    let key = PeerKey(slot as usize);
    assert(h.live(key) && h.peer(key) == q);
    lemma_answer_bytes(q, s.use_checksum, seq, sent, vb, now);
    assert(answer_commands(seq, sent, vb) == match sent {
        Some(st) => seq![
            connect::ack_command(CHANNEL_ID_CONNECTION, seq, st),
            q0.reliable_command(CHANNEL_ID_CONNECTION, CMD_VERIFY_CONNECT, v),
        ],
        None => seq![q0.reliable_command(CHANNEL_ID_CONNECTION, CMD_VERIFY_CONNECT, v)],
    }) by {
        reveal(channel::encoded);
    }
    assert(s.on_connect(body, seq, sent, client, now).1[0]->datagram == q.datagram(
        s.use_checksum,
        answer_commands(seq, sent, vb),
        now,
    ));
}

/// The commands of the answer, as bytes.
spec fn answer_commands(seq: u16, sent: Option<u16>, vb: VerifyConnectCmd) -> Seq<Seq<u8>> {
    let ver = command::command_bytes(handshake::verify_command(vb));
    match sent {
        Some(st) => seq![
            command::command_bytes(
                handshake::acknowledge_command(CHANNEL_ID_CONNECTION, seq, st),
            ),
            ver,
        ],
        None => seq![ver],
    }
}

#[verifier::rlimit(40)]
proof fn lemma_answer_bytes(
    q: PeerView,
    ck: bool,
    seq: u16,
    sent: Option<u16>,
    vb: VerifyConnectCmd,
    now: u32,
)
    ensures
        ({
            let d = q.datagram(ck, answer_commands(seq, sent, vb), now);
            let head = if ck {
                8int
            } else {
                4
            };
            let o = if sent is Some {
                head
            } else {
                head - 8
            };
            &&& d.len() == o + 52
            &&& layout::num16(d, 0) == 32768 + 4096 * (q.outgoing_session_id % 4)
                + q.outgoing_peer_id % 4096
            &&& layout::num16(d, 2) == now % 65536
            &&& sent matches Some(st) ==> {
                &&& d[o] == 1
                &&& d[o + 1] == 255
                &&& layout::num16(d, o + 2) == 0
                &&& layout::num16(d, o + 4) == seq
                &&& layout::num16(d, o + 6) == st
            }
            &&& d[o + 8] == 0x83
            &&& d[o + 9] == 255
            &&& layout::num16(d, o + 10) == 1
            &&& layout::num16(d, o + 12) == vb.outgoing_peer_id
            &&& d[o + 14] == vb.incoming_session_id
            &&& d[o + 15] == vb.outgoing_session_id
            &&& layout::num32(d, o + 16) == vb.mtu
            &&& layout::num32(d, o + 20) == vb.window_size
            &&& layout::num32(d, o + 24) == vb.channel_count
            &&& layout::num32(d, o + 28) == vb.incoming_bandwidth
            &&& layout::num32(d, o + 32) == vb.outgoing_bandwidth
            &&& layout::num32(d, o + 36) == vb.throttle_interval
            &&& layout::num32(d, o + 40) == vb.throttle_acceleration
            &&& layout::num32(d, o + 44) == vb.throttle_deceleration
            &&& layout::num32(d, o + 48) == vb.connect_id
        }),
{
    let st = match sent {
        Some(t) => t,
        None => 0,
    };
    let ack = handshake::acknowledge_command(CHANNEL_ID_CONNECTION, seq, st);
    let ver = handshake::verify_command(vb);
    let a = command::command_bytes(ack);
    let b = command::command_bytes(ver);
    let cmds = answer_commands(seq, sent, vb);
    let d = q.datagram(ck, cmds, now);
    layout::lemma_datagram_layout(q, ck, cmds, now);
    lemma_two(a, b);
    layout::lemma_concat(Seq::empty(), Seq::empty(), b);
    let head = if ck {
        8int
    } else {
        4
    };
    let o = if sent is Some {
        head
    } else {
        head - 8
    };
    layout::lemma_command_head(ack);
    layout::lemma_command_head(ver);
    layout::lemma_verify_layout(vb);
    lemma_ack_numbers(ack);
    assert(0x03u8 | 0x80u8 == 0x83u8) by (bit_vector);
    assert(0x01u8 | 0x00u8 == 0x01u8) by (bit_vector);
    assert(a.len() == 8 && b.len() == 44);
    if sent is Some {
        assert(d.skip(o) == a + b);
        assert(d.subrange(o, o + 8) =~= d.skip(o).subrange(0, 8));
        assert((a + b).subrange(0, 8) =~= a);
        assert(d.subrange(o + 8, o + 52) =~= d.skip(o).subrange(8, 52));
        assert((a + b).subrange(8, 52) =~= b);
        layout::lemma_part(d, o, 8);
    } else {
        assert(d.skip(head) == b);
        assert(d.subrange(o + 8, o + 52) =~= d.skip(head));
    }
    assert(b.subrange(4, 44) =~= b.skip(4));
    lemma_connect_numbers(b);
    lemma_verify_numbers(d, o + 8, b);
}

proof fn lemma_verify_numbers(d: Seq<u8>, o: int, b: Seq<u8>)
    requires
        0 <= o,
        o + 44 == d.len(),
        b == d.subrange(o, o + 44),
    ensures
        d[o] == b[0],
        d[o + 1] == b[1],
        layout::num16(d, o + 2) == layout::num16(b, 2),
        layout::num16(d, o + 4) == layout::num16(b, 4),
        d[o + 6] == b[6],
        d[o + 7] == b[7],
        layout::num32(d, o + 8) == layout::num32(b, 8),
        layout::num32(d, o + 12) == layout::num32(b, 12),
        layout::num32(d, o + 16) == layout::num32(b, 16),
        layout::num32(d, o + 20) == layout::num32(b, 20),
        layout::num32(d, o + 24) == layout::num32(b, 24),
        layout::num32(d, o + 28) == layout::num32(b, 28),
        layout::num32(d, o + 32) == layout::num32(b, 32),
        layout::num32(d, o + 36) == layout::num32(b, 36),
        layout::num32(d, o + 40) == layout::num32(b, 40),
{
}

proof fn lemma_two(a: Seq<u8>, b: Seq<u8>)
    ensures
        emit::concat(seq![a, b]) == a + b,
{
    assert(seq![a, b] =~= seq![a] + seq![b]);
    layout::lemma_concat(seq![a], seq![b], a);
    layout::lemma_concat(seq![a], seq![b], b);
}

proof fn lemma_ack_numbers(c: command::CommandView)
    requires
        c.body is Acknowledge,
    ensures
        ({
            let s = command::command_bytes(c);
            &&& s.len() == 8
            &&& layout::num16(s, 4) == c.body->Acknowledge_0.received_reliable_seq
            &&& layout::num16(s, 6) == c.body->Acknowledge_0.received_sent_time
        }),
{
    let s = command::command_bytes(c);
    layout::lemma_command_head(c);
    layout::lemma_settings_layout(
        c.body->Acknowledge_0,
        DisconnectCmd { data: 0 },
        BandwidthLimitCmd { incoming_bandwidth: 0, outgoing_bandwidth: 0 },
        ThrottleConfigureCmd {
            throttle_interval: 0,
            throttle_acceleration: 0,
            throttle_deceleration: 0,
        },
    );
    let t = s.skip(4);
    assert(t[0] == s[4] && t[1] == s[5] && t[2] == s[6] && t[3] == s[7]);
}

/// Law: a CONNECT from a client that the server knows already does nothing. One
/// from an unknown client, when every slot is taken, changes nothing and is
/// answered with one datagram to the client's slot that ends the connection.
pub proof fn lemma_not_admitted(
    s: HostView,
    body: ConnectCmd,
    seq: u16,
    st: Option<u16>,
    client: Address,
    now: u32,
)
    ensures
        s.addr_map.contains_key(client) ==> s.on_connect(body, seq, st, client, now) == (
            s,
            Seq::<ActionView>::empty(),
        ),
        !s.addr_map.contains_key(client) && (forall|i: int|
            0 <= i < s.peers.len() ==> #[trigger] s.peers[i] is Some) ==> ({
            let (s1, out) = s.on_connect(body, seq, st, client, now);
            let d = out[0]->datagram;
            let o = if s.use_checksum {
                8int
            } else {
                4
            };
            &&& s1 == s
            &&& out.len() == 1
            &&& out[0] == (ActionView::SendTo { addr: client, datagram: d })
            &&& d.len() == o + 8
            &&& layout::num16(d, 0) == 32768 + body.outgoing_peer_id % 4096
            &&& d[o] == 4
            &&& d[o + 1] == 255
            &&& layout::num16(d, o + 2) == 0
            &&& layout::num32(d, o + 4) == 0
        }),
{
    task::lemma_free_slot(s.peers, 0);
    if !s.addr_map.contains_key(client) && s.free_slot() is None {
        lemma_refusal_layout(body, s.use_checksum, now);
    }
}

proof fn lemma_refusal_layout(body: ConnectCmd, ck: bool, now: u32)
    ensures
        ({
            let d = connect::refusal(body, ck, now);
            let o = if ck {
                8int
            } else {
                4
            };
            &&& d.len() == o + 8
            &&& layout::num16(d, 0) == 32768 + body.outgoing_peer_id % 4096
            &&& d[o] == 4
            &&& d[o + 1] == 255
            &&& layout::num16(d, o + 2) == 0
            &&& layout::num32(d, o + 4) == 0
        }),
{
    reveal(emit::framed);
    reveal(channel::encoded);
    assert(0x04u8 | 0x00u8 == 0x04u8) by (bit_vector);
    let raw = crate::protocol::header::timed_raw(body.outgoing_peer_id, 0);
    let d = connect::refusal(body, ck, now);
    assert(d.subrange(0, 2) =~= crate::protocol::wire::be16(raw));
    layout::lemma_part(d, 0, 2);
    let t = d.subrange(0, 2);
    assert(layout::num16(t, 0) == layout::num16(d, 0));
}

/// Law: what a handshake settles. Both sides end up with the connect ID of the
/// attempt, an MTU of 1392, as many channels as the client asked for, and the
/// same window: the smallest that the server's incoming bandwidth, the server's
/// outgoing bandwidth and the client's incoming bandwidth allow.
#[verifier::rlimit(40)]
pub proof fn lemma_settled(
    c: HostView,
    s: HostView,
    client: Address,
    server: Address,
    channel_count: u8,
    data: u32,
    id: u32,
    t0: u32,
    t1: u32,
    t2: u32,
    t3: u32,
    cs: int,
    ss: int,
)
    requires
        c.wf(),
        s.wf(),
        c.host_mtu == 1392,
        s.host_mtu == 1392,
        c.use_checksum == s.use_checksum,
        first_free(c, cs),
        first_free(s, ss),
        !s.addr_map.contains_key(client),
        rtt::rtt_sample(handshake::low(t1), t3) is Some,
    ensures
        ({
            let (c1, out1) = c.connect(server, channel_count, data, id, t0);
            let (s1, out2) = s.on_datagram(out1[0]->datagram, client, t1);
            let (c2, out3) = c1.on_datagram(out2[0]->datagram, server, t2);
            let (s2, out4) = s1.on_datagram(out3[1]->datagram, client, t3);
            let p = c2.peers[cs]->0;
            let q = s2.peers[ss]->0;
            let window = smallest(
                allowance(s.incoming_bandwidth),
                if s.outgoing_bandwidth == 0 {
                    allowance(c.incoming_bandwidth)
                } else if c.incoming_bandwidth == 0 {
                    allowance(s.outgoing_bandwidth)
                } else {
                    smallest(allowance(s.outgoing_bandwidth), allowance(c.incoming_bandwidth))
                },
            );
            &&& c2.peers[cs] is Some
            &&& s2.peers[ss] is Some
            &&& p.state == PeerState::Connected
            &&& q.state == PeerState::Connected
            &&& p.connect_id == id
            &&& q.connect_id == id
            &&& p.mtu == 1392
            &&& q.mtu == 1392
            &&& p.window_size == smallest(window, 65536)
            &&& q.window_size == smallest(window, 65536)
            &&& p.channels.len() == q.channels.len()
            &&& q.channels.len() == (if channel_count == 0 {
                1
            } else {
                channel_count as int
            })
            &&& p.throttle_interval == 5000
            &&& q.throttle_interval == 5000
            &&& p.throttle_acceleration == 2
            &&& q.throttle_acceleration == 2
            &&& p.throttle_deceleration == 2
            &&& q.throttle_deceleration == 2
            &&& p.outgoing_peer_id == ss
            &&& q.outgoing_peer_id == cs
        }),
{
    lemma_first_free(c, cs);
    lemma_first_free(s, ss);
    handshake::lemma_handshake(
        c,
        s,
        client,
        server,
        channel_count,
        data,
        id,
        t0,
        t1,
        t2,
        t3,
    );
    let body = c.connect_body(cs, channel_count, id, data);
    handshake::lemma_connect_sent(c, server, channel_count, data, id, t0);
    let p = handshake::connecting(c, server, channel_count, data, id, t0);
    handshake::lemma_connect_received(p, s, body, client, t0, t1);
    lemma_admission(s, body, 1, Some(handshake::low(t0)), client, t1, ss);
    handshake::lemma_connect_answered(s, body, handshake::low(t0), client, t1);
    let q = handshake::accepting(s, body, client, t1);
    let vb = s.verify_body(ss, body);
    let cmds1 = transport::bytes_of(seq![handshake::connect_command(body)]);
    let c1 = c.with_new_peer(cs, p.sent(cmds1, t0));
    let ck = PeerKey(cs as usize);
    let sk = PeerKey(ss as usize);
    assert(c1.live(ck) && c1.peer(ck) == p.sent(cmds1, t0));
    handshake::lemma_verify_received(c1, ck, q, vb, handshake::low(t0), server, t1, t2);
    let r = handshake::verified(c1.peer(ck), vb, handshake::low(t0), t2);
    assert(r.throttle_interval == vb.throttle_interval);
    lemma_smallest(s, body);
    let cmds2 = transport::bytes_of(
        seq![
            handshake::acknowledge_command(CHANNEL_ID_CONNECTION, 1, handshake::low(t0)),
            handshake::verify_command(vb),
        ],
    );
    let s1 = s.with_sessions(ss, s.next_sessions(ss, body)).with_new_peer(
        ss,
        q.sent(cmds2, t1),
    );
    assert(s1.live(sk) && s1.peer(sk) == q.sent(cmds2, t1));
    handshake::lemma_handshake_acknowledged(s1, sk, r, handshake::low(t1), client, t2, t3);
}

proof fn lemma_smallest(s: HostView, body: ConnectCmd)
    requires
        body.window_size == 65536,
    ensures
        window_for(s, body) == smallest(
            smallest(
                allowance(s.incoming_bandwidth),
                if s.outgoing_bandwidth == 0 {
                    allowance(body.incoming_bandwidth)
                } else if body.incoming_bandwidth == 0 {
                    allowance(s.outgoing_bandwidth)
                } else {
                    smallest(allowance(s.outgoing_bandwidth), allowance(body.incoming_bandwidth))
                },
            ),
            65536,
        ),
{
}

/// Law: what a side of a handshake keeps in flight, to send it again, is the
/// command that it sent: CONNECT at the client, VERIFY_CONNECT, behind the
/// acknowledgement where there is one, at the server. A client without a free
/// slot does nothing.
pub proof fn lemma_kept_in_flight(
    c: HostView,
    server: Address,
    channel_count: u8,
    data: u32,
    id: u32,
    s: HostView,
    body: ConnectCmd,
    seq: u16,
    sent: Option<u16>,
    client: Address,
    now: u32,
    slot: int,
)
    requires
        c.wf(),
        c.peers.len() <= 4095,
        s.host_mtu == 1392,
        s.peers.len() <= 4095,
        s.sessions.len() == s.peers.len(),
        first_free(s, slot),
        !s.addr_map.contains_key(client),
    ensures
        (forall|i: int| 0 <= i < c.peers.len() ==> #[trigger] c.peers[i] is Some) ==> c.connect(
            server,
            channel_count,
            data,
            id,
            now,
        ) == (c, Seq::<ActionView>::empty()),
        forall|k: int|
            #![trigger c.peers[k]]
            first_free(c, k) ==> ({
                let (c1, out) = c.connect(server, channel_count, data, id, now);
                let o = if c.use_checksum {
                    8int
                } else {
                    4
                };
                c1.peers[k]->0.outgoing[0].packet_bytes == out[0]->datagram.skip(o)
            }),
        ({
            let (s1, out) = s.on_connect(body, seq, sent, client, now);
            let o = (if s.use_checksum {
                8int
            } else {
                4
            }) + (if sent is Some {
                8int
            } else {
                0
            });
            s1.peers[slot]->0.outgoing[0].packet_bytes == out[0]->datagram.skip(o)
        }),
{
    task::lemma_free_slot(c.peers, 0);
    assert forall|k: int|
        #![trigger c.peers[k]]
        first_free(c, k) implies ({
        let (c1, out) = c.connect(server, channel_count, data, id, now);
        let o = if c.use_checksum {
            8int
        } else {
            4
        };
        c1.peers[k]->0.outgoing[0].packet_bytes == out[0]->datagram.skip(o)
    }) by {
        lemma_first_free(c, k);
        lemma_client_keeps(c, server, channel_count, data, id, now, k);
    }
    lemma_server_keeps(s, body, seq, sent, client, now, slot);
}

proof fn lemma_client_keeps(
    c: HostView,
    server: Address,
    channel_count: u8,
    data: u32,
    id: u32,
    now: u32,
    k: int,
)
    requires
        c.wf(),
        c.free_slot() == Some(k),
        0 <= k < c.peers.len() <= 4095,
    ensures
        ({
            let (c1, out) = c.connect(server, channel_count, data, id, now);
            let o = if c.use_checksum {
                8int
            } else {
                4
            };
            c1.peers[k]->0.outgoing[0].packet_bytes == out[0]->datagram.skip(o)
        }),
{
    let cmd = handshake::connect_command(c.connect_body(k, channel_count, id, data));
    handshake::lemma_connect_sent(c, server, channel_count, data, id, now);
    let p = handshake::connecting(c, server, channel_count, data, id, now);
    let p0 = c.client_peer(server, channel_count, id, now);
    let b = command::command_bytes(cmd);
    let cmds = transport::bytes_of(seq![cmd]);
    assert(cmds =~= seq![b]);
    layout::lemma_datagram_layout(p, c.use_checksum, cmds, now);
    layout::lemma_concat(Seq::empty(), Seq::empty(), b);
    assert(p.outgoing =~= seq![p0.outstanding(CHANNEL_ID_CONNECTION, 1, b, now)]) by {
        reveal(channel::encoded);
    }
}

proof fn lemma_server_keeps(
    s: HostView,
    body: ConnectCmd,
    seq: u16,
    sent: Option<u16>,
    client: Address,
    now: u32,
    slot: int,
)
    requires
        s.peers.len() <= 4095,
        first_free(s, slot),
        !s.addr_map.contains_key(client),
    ensures
        ({
            let (s1, out) = s.on_connect(body, seq, sent, client, now);
            let o = (if s.use_checksum {
                8int
            } else {
                4
            }) + (if sent is Some {
                8int
            } else {
                0
            });
            s1.peers[slot]->0.outgoing[0].packet_bytes == out[0]->datagram.skip(o)
        }),
{
    lemma_first_free(s, slot);
    let q0 = s.server_peer(slot, body, seq, client, now);
    let vb = s.verify_body(slot, body);
    let v = command::BodyView::VerifyConnect(vb);
    let q = q0.with_reliable(CHANNEL_ID_CONNECTION, CMD_VERIFY_CONNECT, v, now);
    let noted = s.with_sessions(slot, s.next_sessions(slot, body));
    let h = noted.with_new_peer(slot, q);
    let key = PeerKey(slot as usize);
    assert(h.live(key) && h.peer(key) == q);
    let b = q0.reliable_command(CHANNEL_ID_CONNECTION, CMD_VERIFY_CONNECT, v);
    assert(q.outgoing =~= seq![q0.outstanding(CHANNEL_ID_CONNECTION, 1, b, now)]);
    let cmds = match sent {
        Some(st) => seq![connect::ack_command(CHANNEL_ID_CONNECTION, seq, st), b],
        None => seq![b],
    };
    let head = if s.use_checksum {
        8int
    } else {
        4
    };
    let d = q.datagram(s.use_checksum, cmds, now);
    assert(s.on_connect(body, seq, sent, client, now).1[0]->datagram == d);
    layout::lemma_datagram_layout(q, s.use_checksum, cmds, now);
    layout::lemma_concat(Seq::empty(), Seq::empty(), b);
    if let Some(st) = sent {
        let a = connect::ack_command(CHANNEL_ID_CONNECTION, seq, st);
        lemma_two(a, b);
        handshake::lemma_ack_bytes(CHANNEL_ID_CONNECTION, seq, st);
        let ack = handshake::acknowledge_command(CHANNEL_ID_CONNECTION, seq, st);
        assert(transport::bytes_of(seq![ack])[0] == command::command_bytes(ack));
        assert(seq![a][0] == a);
        lemma_ack_numbers(ack);
        assert(a.len() == 8);
        assert(d.skip(head + 8) =~= d.skip(head).skip(8));
        assert((a + b).skip(8) =~= b);
    }
}

} // verus!
