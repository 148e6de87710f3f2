//! Where each number stands in what is sent.

use vstd::prelude::*;

use crate::peer::emit;
use crate::peer::PeerView;
use crate::protocol::command;
use crate::protocol::crc;
use crate::protocol::header;
use crate::protocol::wire;
use crate::protocol::{
    AcknowledgeCmd, BandwidthLimitCmd, CommandHeader, ConnectCmd, DisconnectCmd, ProtocolHeader,
    ThrottleConfigureCmd, VerifyConnectCmd,
};

verus! {

/// The number that two bytes from position `i` on make, the higher one first.
pub open spec fn num16(s: Seq<u8>, i: int) -> int {
    s[i] * 256 + s[i + 1]
}

/// The number that four bytes from position `i` on make, the highest one
/// first.
pub open spec fn num32(s: Seq<u8>, i: int) -> int {
    ((s[i] * 256 + s[i + 1]) * 256 + s[i + 2]) * 256 + s[i + 3]
}

/// Law: numbers are written with the highest byte first, and read that way.
pub proof fn lemma_numbers(n: u16, m: u32, s: Seq<u8>, i: int)
    requires
        0 <= i,
        i + 4 <= s.len(),
    ensures
        wire::be16(n).len() == 2,
        num16(wire::be16(n), 0) == n,
        wire::be32(m).len() == 4,
        num32(wire::be32(m), 0) == m,
        wire::u16_at(s, i) == num16(s, i),
        wire::u32_at(s, i) == num32(s, i),
{
}

/// Four bytes at a place of a longer string.
proof fn lemma_at32(s: Seq<u8>, i: int, n: u32)
    requires
        0 <= i,
        i + 4 <= s.len(),
        s.subrange(i, i + 4) == wire::be32(n),
    ensures
        num32(s, i) == n,
{
    let t = s.subrange(i, i + 4);
    assert(t[0] == s[i] && t[1] == s[i + 1] && t[2] == s[i + 2] && t[3] == s[i + 3]);
}

proof fn lemma_at16(s: Seq<u8>, i: int, n: u16)
    requires
        0 <= i,
        i + 2 <= s.len(),
        s.subrange(i, i + 2) == wire::be16(n),
    ensures
        num16(s, i) == n,
{
    let t = s.subrange(i, i + 2);
    assert(t[0] == s[i] && t[1] == s[i + 1]);
}

/// Law: a command begins with its command byte, its channel and its number.
pub proof fn lemma_command_head(c: command::CommandView)
    ensures
        ({
            let s = command::command_bytes(c);
            &&& s.len() >= 4
            &&& s[0] == c.header.command
            &&& s[1] == c.header.channel_id
            &&& num16(s, 2) == c.header.reliable_seq
            &&& s.skip(4) == command::body_bytes(c.body)
        }),
{
    let s = command::command_bytes(c);
    assert(s.skip(4) =~= command::body_bytes(c.body));
    assert(s.subrange(2, 4) =~= wire::be16(c.header.reliable_seq));
    lemma_at16(s, 2, c.header.reliable_seq);
}

/// Law: the type numbers of the commands.
pub proof fn lemma_types(b: command::BodyView)
    ensures
        command::body_type(b) == match b {
            command::BodyView::Acknowledge(_) => 1u8,
            command::BodyView::Connect(_) => 2,
            command::BodyView::VerifyConnect(_) => 3,
            command::BodyView::Disconnect(_) => 4,
            command::BodyView::Ping => 5,
            command::BodyView::SendReliable(_) => 6,
            command::BodyView::SendUnreliable(_, _) => 7,
            command::BodyView::SendFragment(_) => 8,
            command::BodyView::SendUnsequenced(_, _) => 9,
            command::BodyView::BandwidthLimit(_) => 10,
            command::BodyView::ThrottleConfigure(_) => 11,
            command::BodyView::SendUnreliableFragment(_) => 12,
        },
{
}

/// Law: the fields of CONNECT: slot, sessions, MTU, window, channels, the two
/// bandwidths, the throttle, the connect ID, and the data of the user.
pub proof fn lemma_connect_layout(c: ConnectCmd)
    ensures
        ({
            let s = command::body_bytes(command::BodyView::Connect(c));
            &&& s.len() == 44
            &&& num16(s, 0) == c.outgoing_peer_id
            &&& s[2] == c.incoming_session_id
            &&& s[3] == c.outgoing_session_id
            &&& num32(s, 4) == c.mtu
            &&& num32(s, 8) == c.window_size
            &&& num32(s, 12) == c.channel_count
            &&& num32(s, 16) == c.incoming_bandwidth
            &&& num32(s, 20) == c.outgoing_bandwidth
            &&& num32(s, 24) == c.throttle_interval
            &&& num32(s, 28) == c.throttle_acceleration
            &&& num32(s, 32) == c.throttle_deceleration
            &&& num32(s, 36) == c.connect_id
            &&& num32(s, 40) == c.data
        }),
{
    let s = command::body_bytes(command::BodyView::Connect(c));
    lemma_connect_places(
        s,
        c.outgoing_peer_id,
        c.incoming_session_id,
        c.outgoing_session_id,
        seq![
            c.mtu,
            c.window_size,
            c.channel_count,
            c.incoming_bandwidth,
            c.outgoing_bandwidth,
            c.throttle_interval,
            c.throttle_acceleration,
            c.throttle_deceleration,
            c.connect_id,
        ],
        wire::be32(c.data),
    );
    assert(s.subrange(40, 44) =~= wire::be32(c.data));
    lemma_at32(s, 40, c.data);
}

/// Law: the fields of VERIFY_CONNECT stand in the same places as those of
/// CONNECT.
pub proof fn lemma_verify_layout(v: VerifyConnectCmd)
    ensures
        ({
            let s = command::body_bytes(command::BodyView::VerifyConnect(v));
            &&& s.len() == 40
            &&& num16(s, 0) == v.outgoing_peer_id
            &&& s[2] == v.incoming_session_id
            &&& s[3] == v.outgoing_session_id
            &&& num32(s, 4) == v.mtu
            &&& num32(s, 8) == v.window_size
            &&& num32(s, 12) == v.channel_count
            &&& num32(s, 16) == v.incoming_bandwidth
            &&& num32(s, 20) == v.outgoing_bandwidth
            &&& num32(s, 24) == v.throttle_interval
            &&& num32(s, 28) == v.throttle_acceleration
            &&& num32(s, 32) == v.throttle_deceleration
            &&& num32(s, 36) == v.connect_id
        }),
{
    let t = command::body_bytes(command::BodyView::VerifyConnect(v));
    assert(t =~= t + Seq::<u8>::empty());
    lemma_connect_places(
        t,
        v.outgoing_peer_id,
        v.incoming_session_id,
        v.outgoing_session_id,
        seq![
            v.mtu,
            v.window_size,
            v.channel_count,
            v.incoming_bandwidth,
            v.outgoing_bandwidth,
            v.throttle_interval,
            v.throttle_acceleration,
            v.throttle_deceleration,
            v.connect_id,
        ],
        Seq::empty(),
    );
}

/// Numbers in a part of a byte string.
pub proof fn lemma_part(s: Seq<u8>, o: int, n: int)
    requires
        0 <= o,
        0 <= n,
        o + n <= s.len(),
    ensures
        ({
            let t = s.subrange(o, o + n);
            &&& forall|i: int| 0 <= i < n ==> #[trigger] t[i] == s[o + i]
            &&& forall|i: int| 0 <= i && i + 2 <= n ==> #[trigger] num16(t, i) == num16(s, o + i)
            &&& forall|i: int| 0 <= i && i + 4 <= n ==> #[trigger] num32(t, i) == num32(s, o + i)
        }),
{
}

#[verifier::rlimit(40)]
proof fn lemma_connect_places(
    s: Seq<u8>,
    id: u16,
    a: u8,
    b: u8,
    n: Seq<u32>,
    tail: Seq<u8>,
)
    requires
        n.len() == 9,
        s == wire::be16(id) + seq![a] + seq![b] + wire::be32(n[0]) + wire::be32(n[1])
            + wire::be32(n[2]) + wire::be32(n[3]) + wire::be32(n[4]) + wire::be32(n[5])
            + wire::be32(n[6]) + wire::be32(n[7]) + wire::be32(n[8]) + tail,
    ensures
        s.len() == 40 + tail.len(),
        num16(s, 0) == id,
        s[2] == a,
        s[3] == b,
        num32(s, 4) == n[0],
        num32(s, 8) == n[1],
        num32(s, 12) == n[2],
        num32(s, 16) == n[3],
        num32(s, 20) == n[4],
        num32(s, 24) == n[5],
        num32(s, 28) == n[6],
        num32(s, 32) == n[7],
        num32(s, 36) == n[8],
{
    assert(s.subrange(0, 2) =~= wire::be16(id));
    lemma_at16(s, 0, id);
    assert(s.subrange(4, 8) =~= wire::be32(n[0]));
    lemma_at32(s, 4, n[0]);
    assert(s.subrange(8, 12) =~= wire::be32(n[1]));
    lemma_at32(s, 8, n[1]);
    assert(s.subrange(12, 16) =~= wire::be32(n[2]));
    lemma_at32(s, 12, n[2]);
    assert(s.subrange(16, 20) =~= wire::be32(n[3]));
    lemma_at32(s, 16, n[3]);
    assert(s.subrange(20, 24) =~= wire::be32(n[4]));
    lemma_at32(s, 20, n[4]);
    assert(s.subrange(24, 28) =~= wire::be32(n[5]));
    lemma_at32(s, 24, n[5]);
    assert(s.subrange(28, 32) =~= wire::be32(n[6]));
    lemma_at32(s, 28, n[6]);
    assert(s.subrange(32, 36) =~= wire::be32(n[7]));
    lemma_at32(s, 32, n[7]);
    assert(s.subrange(36, 40) =~= wire::be32(n[8]));
    lemma_at32(s, 36, n[8]);
}

/// Law: the fields of the other commands that carry no payload.
pub proof fn lemma_settings_layout(
    a: AcknowledgeCmd,
    d: DisconnectCmd,
    bl: BandwidthLimitCmd,
    tc: ThrottleConfigureCmd,
)
    ensures
        ({
            let s = command::body_bytes(command::BodyView::Acknowledge(a));
            &&& s.len() == 4
            &&& num16(s, 0) == a.received_reliable_seq
            &&& num16(s, 2) == a.received_sent_time
        }),
        ({
            let s = command::body_bytes(command::BodyView::Disconnect(d));
            s.len() == 4 && num32(s, 0) == d.data
        }),
        command::body_bytes(command::BodyView::Ping).len() == 0,
        ({
            let s = command::body_bytes(command::BodyView::BandwidthLimit(bl));
            &&& s.len() == 8
            &&& num32(s, 0) == bl.incoming_bandwidth
            &&& num32(s, 4) == bl.outgoing_bandwidth
        }),
        ({
            let s = command::body_bytes(command::BodyView::ThrottleConfigure(tc));
            &&& s.len() == 12
            &&& num32(s, 0) == tc.throttle_interval
            &&& num32(s, 4) == tc.throttle_acceleration
            &&& num32(s, 8) == tc.throttle_deceleration
        }),
{
    let s = command::body_bytes(command::BodyView::BandwidthLimit(bl));
    assert(s.subrange(0, 4) =~= wire::be32(bl.incoming_bandwidth));
    lemma_at32(s, 0, bl.incoming_bandwidth);
    assert(s.subrange(4, 8) =~= wire::be32(bl.outgoing_bandwidth));
    lemma_at32(s, 4, bl.outgoing_bandwidth);
    let t = command::body_bytes(command::BodyView::ThrottleConfigure(tc));
    assert(t.subrange(0, 4) =~= wire::be32(tc.throttle_interval));
    lemma_at32(t, 0, tc.throttle_interval);
    assert(t.subrange(4, 8) =~= wire::be32(tc.throttle_acceleration));
    lemma_at32(t, 4, tc.throttle_acceleration);
    assert(t.subrange(8, 12) =~= wire::be32(tc.throttle_deceleration));
    lemma_at32(t, 8, tc.throttle_deceleration);
    let u = command::body_bytes(command::BodyView::Acknowledge(a));
    assert(u.subrange(0, 2) =~= wire::be16(a.received_reliable_seq));
    lemma_at16(u, 0, a.received_reliable_seq);
    assert(u.subrange(2, 4) =~= wire::be16(a.received_sent_time));
    lemma_at16(u, 2, a.received_sent_time);
}

/// Law: the fields of the commands that carry a payload, which comes last and
/// is announced by its length.
pub proof fn lemma_payload_layout(n: u16, d: Seq<u8>, f: command::FragmentView)
    requires
        d.len() <= 65535,
        f.data.len() <= 65535,
    ensures
        ({
            let s = command::body_bytes(command::BodyView::SendReliable(d));
            &&& s.len() == 2 + d.len()
            &&& num16(s, 0) == d.len()
            &&& s.skip(2) == d
        }),
        ({
            let s = command::body_bytes(command::BodyView::SendUnreliable(n, d));
            &&& s.len() == 4 + d.len()
            &&& num16(s, 0) == n
            &&& num16(s, 2) == d.len()
            &&& s.skip(4) == d
        }),
        command::body_bytes(command::BodyView::SendUnsequenced(n, d)) == command::body_bytes(
            command::BodyView::SendUnreliable(n, d),
        ),
        ({
            let s = command::body_bytes(command::BodyView::SendFragment(f));
            &&& s.len() == 20 + f.data.len()
            &&& num16(s, 0) == f.start_seq
            &&& num16(s, 2) == f.data.len()
            &&& num32(s, 4) == f.fragment_count
            &&& num32(s, 8) == f.fragment_number
            &&& num32(s, 12) == f.total_length
            &&& num32(s, 16) == f.fragment_offset
            &&& s.skip(20) == f.data
        }),
        command::body_bytes(command::BodyView::SendUnreliableFragment(f)) == command::body_bytes(
            command::BodyView::SendFragment(f),
        ),
{
    let s = command::body_bytes(command::BodyView::SendReliable(d));
    assert(s.subrange(0, 2) =~= wire::be16(d.len() as u16));
    lemma_at16(s, 0, d.len() as u16);
    assert(s.skip(2) =~= d);
    let t = command::body_bytes(command::BodyView::SendUnreliable(n, d));
    assert(t.subrange(0, 2) =~= wire::be16(n));
    lemma_at16(t, 0, n);
    assert(t.subrange(2, 4) =~= wire::be16(d.len() as u16));
    lemma_at16(t, 2, d.len() as u16);
    assert(t.skip(4) =~= d);
    let u = command::body_bytes(command::BodyView::SendFragment(f));
    assert(u.subrange(0, 2) =~= wire::be16(f.start_seq));
    lemma_at16(u, 0, f.start_seq);
    assert(u.subrange(2, 4) =~= wire::be16(f.data.len() as u16));
    lemma_at16(u, 2, f.data.len() as u16);
    assert(u.subrange(4, 8) =~= wire::be32(f.fragment_count));
    lemma_at32(u, 4, f.fragment_count);
    assert(u.subrange(8, 12) =~= wire::be32(f.fragment_number));
    lemma_at32(u, 8, f.fragment_number);
    assert(u.subrange(12, 16) =~= wire::be32(f.total_length));
    lemma_at32(u, 12, f.total_length);
    assert(u.subrange(16, 20) =~= wire::be32(f.fragment_offset));
    lemma_at32(u, 16, f.fragment_offset);
    assert(u.skip(20) =~= f.data);
}

/// Law: the first field of a datagram has the slot in its low twelve bits, the
/// session in the next two, then a bit for compression and one for the send
/// time. The send time stands behind it if and only if the bit says so.
pub proof fn lemma_header_layout(h: ProtocolHeader, s: Seq<u8>)
    ensures
        num16(header::protocol_header_bytes(h), 0) == h.peer_id_raw,
        h.sent_time matches Some(t) ==> header::protocol_header_bytes(h).len() == 4 && num16(
            header::protocol_header_bytes(h),
            2,
        ) == t,
        h.sent_time is None ==> header::protocol_header_bytes(h).len() == 2,
        h.peer_id_raw == header::peer_id_bits(h.peer_id_raw) + 4096 * header::session_bits(
            h.peer_id_raw,
        ) + (if header::compressed_bit(h.peer_id_raw) {
            16384int
        } else {
            0
        }) + (if header::sent_time_bit(h.peer_id_raw) {
            32768int
        } else {
            0
        }),
        header::peer_id_bits(h.peer_id_raw) < 4096,
        header::session_bits(h.peer_id_raw) < 4,
        header::parse_protocol_header(s).0 is Some <==> s.len() >= 4 || (s.len() >= 2 && s[0]
            < 128),
        header::parse_protocol_header(s).0 matches Some(p) ==> {
            &&& p.peer_id_raw == num16(s, 0)
            &&& p.sent_time is Some <==> s[0] >= 128
            &&& p.sent_time matches Some(t) ==> t == num16(s, 2)
            &&& header::parse_protocol_header(s).1 == if s[0] >= 128 {
                4int
            } else {
                2
            }
        },
{
    let b = header::protocol_header_bytes(h);
    assert(b.subrange(0, 2) =~= wire::be16(h.peer_id_raw));
    lemma_at16(b, 0, h.peer_id_raw);
    if let Some(t) = h.sent_time {
        assert(b.subrange(2, 4) =~= wire::be16(t));
        lemma_at16(b, 2, t);
    }
}

/// Law: a command byte has the type in its low four bits; the highest bit asks
/// for an acknowledgement.
pub proof fn lemma_command_byte(b: u8)
    ensures
        header::command_type_bits(b) == b % 16,
        header::ack_bit(b) <==> b / 128 == 1,
        header::unsequenced_bit(b) <==> b / 64 % 2 == 1,
{
}

/// Law: a datagram to a peer names the slot and the session that the peer
/// assigned, says when it was sent, and carries the commands one behind the
/// other. With checksums there are four more bytes in front of the commands:
/// the CRC of the datagram with the connect ID in their place, or with zero
/// where no slot was assigned yet.
pub proof fn lemma_datagram_layout(p: PeerView, ck: bool, cmds: Seq<Seq<u8>>, now: u32)
    ensures
        ({
            let s = p.datagram(ck, cmds, now);
            let body = emit::concat(cmds);
            let id = if p.outgoing_peer_id == 65535 {
                0
            } else {
                p.connect_id
            };
            &&& num16(s, 0) == 32768 + 4096 * (p.outgoing_session_id % 4) + p.outgoing_peer_id
                % 4096
            &&& num16(s, 2) == now % 65536
            &&& !ck ==> s.len() == 4 + body.len() && s.skip(4) == body
            &&& ck ==> {
                &&& s.len() == 8 + body.len()
                &&& s.skip(8) == body
                &&& num32(s, 4) == crc::crc32_of(s.take(4) + wire::be32(id) + body)
            }
        }),
{
    reveal(emit::framed);
    let s = p.datagram(ck, cmds, now);
    let body = emit::concat(cmds);
    let raw = header::timed_raw(p.outgoing_peer_id, p.outgoing_session_id);
    assert(s.subrange(0, 2) =~= wire::be16(raw));
    lemma_at16(s, 0, raw);
    assert(s.subrange(2, 4) =~= wire::be16((now % 65536) as u16));
    lemma_at16(s, 2, (now % 65536) as u16);
    let head = emit::datagram_header(p.outgoing_peer_id, p.outgoing_session_id, now);
    assert(s.take(4) =~= head);
    if ck {
        let sum = emit::checksum(head, p.checksum_id(), body);
        assert(s.subrange(4, 8) =~= wire::be32(sum));
        lemma_at32(s, 4, sum);
        assert(s.skip(8) =~= body);
    } else {
        assert(s.skip(4) =~= body);
    }
}

/// Law: byte strings are put one behind the other.
pub proof fn lemma_concat(a: Seq<Seq<u8>>, b: Seq<Seq<u8>>, one: Seq<u8>)
    ensures
        emit::concat(Seq::<Seq<u8>>::empty()) == Seq::<u8>::empty(),
        emit::concat(seq![one]) == one,
        emit::concat(a + b) == emit::concat(a) + emit::concat(b),
    decreases b.len(),
{
    assert(seq![one].drop_last() =~= Seq::empty());
    assert(emit::concat(seq![one].drop_last()) =~= Seq::empty());
    assert(emit::concat(seq![one]) =~= one);
    if b.len() == 0 {
        assert(a + b =~= a);
        assert(emit::concat(a) + emit::concat(b) =~= emit::concat(a));
    } else {
        lemma_concat(a, b.drop_last(), one);
        assert((a + b).drop_last() =~= a + b.drop_last());
        assert((a + b).last() == b.last());
        assert(emit::concat(a + b) =~= emit::concat(a) + emit::concat(b));
    }
}

/// One bit of a register that shifts to the right, with the polynomial of
/// ISO 3309.
pub open spec fn shifted(r: u32) -> u32 {
    if r & 1u32 == 1u32 {
        (r >> 1u32) ^ 0xEDB8_8320u32
    } else {
        r >> 1u32
    }
}

/// Law: the checksum is computed over every byte, one after the other: each is
/// added to the complement of the checksum so far and shifted out bit by bit.
/// That of nothing is zero.
pub proof fn lemma_crc(s: Seq<u8>, b: u8)
    ensures
        crc::crc32_of(Seq::<u8>::empty()) == 0,
        crc::crc32_of(s.push(b)) == !shifted(
            shifted(
                shifted(
                    shifted(shifted(shifted(shifted(shifted((!crc::crc32_of(s)) ^ (b as u32)))))),
                ),
            ),
        ),
{
    assert(!0xFFFF_FFFFu32 == 0u32) by (bit_vector);
    assert(s.push(b).drop_last() =~= s);
    reveal_with_fuel(crc::crc_steps, 9);
    let f = crc::crc_fold(0xFFFF_FFFF, s);
    assert(!(!f) == f) by (bit_vector);
    assert forall|r: u32| #[trigger] crc::crc_step(r) == shifted(r) by {
        assert(r & 1u32 == 1u32 <==> r & 1u32 != 0u32) by (bit_vector);
    }
}

/// Law: bytes that are no complete command of a known type are not read, and
/// neither is anything behind them.
pub proof fn lemma_malformed(s: Seq<u8>, limit: nat)
    ensures
        s.len() < 4 ==> command::parse_command(s).0 is None,
        s.len() >= 4 && (s[0] % 16 == 0 || s[0] % 16 > 12) ==> command::parse_command(s).0 is None,
        s.len() >= 4 ==> (command::parse_command(s).0 matches Some(c) ==> c.header
            == (CommandHeader {
            command: s[0],
            channel_id: s[1],
            reliable_seq: num16(s, 2) as u16,
        })),
        command::parse_command(s).0 is None ==> command::parse_all(s, limit)
            == Seq::<command::CommandView>::empty(),
{
}

/// Law: commands in front of bytes that are none are read all the same.
pub proof fn lemma_read_up_to(cmds: Seq<command::CommandView>, junk: Seq<u8>, limit: nat)
    requires
        cmds.len() <= limit,
        forall|i: int| 0 <= i < cmds.len() ==> command::well_typed(#[trigger] cmds[i]),
        command::parse_command(junk).0 is None,
    ensures
        command::parse_all(command::all_bytes(cmds) + junk, limit) == cmds,
    decreases cmds.len(),
{
    if cmds.len() == 0 {
        assert(command::all_bytes(cmds) + junk =~= junk);
    } else {
        let rest = command::all_bytes(cmds.drop_first()) + junk;
        assert(command::all_bytes(cmds) + junk =~= command::command_bytes(cmds[0]) + rest);
        command::lemma_command_round_trip(cmds[0], rest);
        lemma_read_up_to(cmds.drop_first(), junk, (limit - 1) as nat);
        assert(cmds =~= seq![cmds[0]] + cmds.drop_first());
    }
}

/// Law: a command whose type number is that of its fields, with a payload of at
/// most 65535 bytes, is read back from its bytes, whatever follows them.
pub proof fn lemma_read_back(c: command::CommandView, rest: Seq<u8>)
    requires
        match c.body {
            command::BodyView::Acknowledge(_) => c.header.command % 16 == 1,
            command::BodyView::Connect(_) => c.header.command % 16 == 2,
            command::BodyView::VerifyConnect(_) => c.header.command % 16 == 3,
            command::BodyView::Disconnect(_) => c.header.command % 16 == 4,
            command::BodyView::Ping => c.header.command % 16 == 5,
            command::BodyView::SendReliable(d) => c.header.command % 16 == 6 && d.len() <= 65535,
            command::BodyView::SendUnreliable(_, d) => c.header.command % 16 == 7 && d.len()
                <= 65535,
            command::BodyView::SendFragment(f) => c.header.command % 16 == 8 && f.data.len()
                <= 65535,
            command::BodyView::SendUnsequenced(_, d) => c.header.command % 16 == 9 && d.len()
                <= 65535,
            command::BodyView::BandwidthLimit(_) => c.header.command % 16 == 10,
            command::BodyView::ThrottleConfigure(_) => c.header.command % 16 == 11,
            command::BodyView::SendUnreliableFragment(f) => c.header.command % 16 == 12
                && f.data.len() <= 65535,
        },
    ensures
        command::parse_command(command::command_bytes(c) + rest) == (
            Some(c),
            command::command_bytes(c).len() as int,
        ),
        command::well_typed(c),
{
    command::lemma_command_round_trip(c, rest);
}

/// Law: of more commands than are allowed in a datagram the first ones are
/// read.
pub proof fn lemma_read_first(cmds: Seq<command::CommandView>, limit: nat)
    requires
        limit <= cmds.len(),
        forall|i: int| 0 <= i < cmds.len() ==> command::well_typed(#[trigger] cmds[i]),
    ensures
        command::parse_all(command::all_bytes(cmds), limit) == cmds.take(limit as int),
    decreases limit,
{
    if limit == 0 {
        assert(cmds.take(0) =~= Seq::empty());
    } else {
        let rest = command::all_bytes(cmds.drop_first());
        command::lemma_command_round_trip(cmds[0], rest);
        lemma_read_first(cmds.drop_first(), (limit - 1) as nat);
        assert(cmds.take(limit as int) =~= seq![cmds[0]] + cmds.drop_first().take(limit - 1));
    }
}

} // verus!
