//! What a host does with its slots, with events and with datagrams.

use vstd::prelude::*;

use crate::address::{Address, PeerKey};
use crate::laws::delivery;
use crate::laws::handshake;
use crate::laws::layout;
use crate::laws::receiving;
use crate::laws::service;
use crate::laws::transport;
use crate::packet::PacketView;
use crate::peer::rtt::AckOutcome;
use crate::peer::send;
use crate::peer::{ActionView, CloseReason, PeerState, PeerView};
use crate::protocol::command;
use crate::protocol::crc;
use crate::protocol::header;
use crate::protocol::wire;
use crate::protocol::{
    AcknowledgeCmd, BandwidthLimitCmd, CommandHeader, DisconnectCmd, ThrottleConfigureCmd,
    VerifyConnectCmd,
};
use crate::task::connect;
use crate::task::dispatch::Turn;
use crate::task::run::EventView;
use crate::task::service as host_service;
use crate::task::HostView;

verus! {

/// Law: a new host has as many free slots as were asked for, up to 4095, knows
/// no address, uses an MTU of 1392 and the settings that it was given.
pub proof fn lemma_new_host(n: int, ck: bool, incoming: u32, outgoing: u32)
    requires
        0 <= n,
    ensures
        ({
            let h = HostView::fresh(n, ck, incoming, outgoing);
            &&& h.peers.len() == if n <= 4095 {
                n
            } else {
                4095
            }
            &&& forall|i: int| 0 <= i < h.peers.len() ==> #[trigger] h.peers[i] is None
            &&& forall|i: int|
                0 <= i < h.peers.len() ==> #[trigger] h.sessions[i] == (0u8, 1u8)
            &&& forall|a: Address| !(#[trigger] h.addr_map.contains_key(a))
            &&& h.host_mtu == 1392
            &&& h.use_checksum == ck
            &&& h.incoming_bandwidth == incoming
            &&& h.outgoing_bandwidth == outgoing
            &&& h.bandwidth_throttle_epoch == 0
        }),
{
}

/// Law: a peer that is removed leaves its slot free and its address unknown.
/// Every other slot and address stays.
pub proof fn lemma_removed(h: HostView, key: PeerKey)
    requires
        key.0 < h.peers.len(),
        h.peers[key.0 as int] is Some,
    ensures
        ({
            let g = h.without_peer(key);
            let gone = h.peers[key.0 as int]->0.addr;
            &&& g.peers.len() == h.peers.len()
            &&& g.peers[key.0 as int] is None
            &&& forall|i: int| 0 <= i < h.peers.len() && i != key.0 ==> #[trigger] g.peers[i]
                == h.peers[i]
            &&& forall|a: Address| #[trigger]
                g.addr_map.contains_key(a) <==> h.addr_map.contains_key(a) && a != gone
            &&& forall|a: Address| #[trigger]
                g.addr_map.contains_key(a) ==> g.addr_map[a] == h.addr_map[a]
            &&& g.sessions == h.sessions
        }),
{
}

/// Law: what a user asks of a peer is done to that peer and to no other. On a
/// slot without a peer nothing is done.
pub proof fn lemma_one_slot(h: HostView, key: PeerKey, pkt: PacketView, data: u32, now: u32)
    ensures
        ({
            let (g, out) = h.send_packet(key, pkt, now);
            let (k, ended) = h.send_disconnect(key, data, now);
            if key.0 < h.peers.len() && h.peers[key.0 as int] is Some {
                let p = h.peers[key.0 as int]->0;
                &&& g.peers.len() == h.peers.len()
                &&& k.peers.len() == h.peers.len()
                &&& g.peers[key.0 as int] == Some(p.send(h.use_checksum, pkt, now).0)
                &&& out == p.send(h.use_checksum, pkt, now).1
                &&& k.peers[key.0 as int] == Some(p.send_disconnect(h.use_checksum, data, now).0)
                &&& ended == p.send_disconnect(h.use_checksum, data, now).1
                &&& forall|i: int| 0 <= i < h.peers.len() && i != key.0 ==> #[trigger] g.peers[i]
                    == h.peers[i]
                &&& forall|i: int| 0 <= i < h.peers.len() && i != key.0 ==> #[trigger] k.peers[i]
                    == h.peers[i]
                &&& g == (HostView { peers: g.peers, ..h })
                &&& k == (HostView { peers: k.peers, ..h })
            } else {
                &&& g == h
                &&& k == h
                &&& out == Seq::<ActionView>::empty()
                &&& ended == Seq::<ActionView>::empty()
            }
        }),
{
}

/// Law: each event has its own effect: a tick is a service of all peers, a
/// datagram is taken as one, and each request is done as it was asked.
pub proof fn lemma_events(
    h: HostView,
    addr: Address,
    raw: Seq<u8>,
    key: PeerKey,
    packet: PacketView,
    channel_count: u8,
    data: u32,
    id: u32,
    now: u32,
)
    ensures
        h.step(EventView::Tick, id, now) == h.service_all(now),
        h.step(EventView::Datagram { from: addr, data: raw }, id, now) == h.on_datagram(
            raw,
            addr,
            now,
        ),
        h.step(EventView::Send { peer_key: key, packet }, id, now) == h.send_packet(
            key,
            packet,
            now,
        ),
        h.step(EventView::Disconnect { peer_key: key, data }, id, now) == h.send_disconnect(
            key,
            data,
            now,
        ),
        h.step(EventView::Connect { addr, channel_count, data }, id, now) == h.connect(
            addr,
            channel_count,
            data,
            id,
            now,
        ),
{
}

/// Law: a packet can be sent on every channel that exists, whatever its size up
/// to what memory holds, where the MTU leaves room for a byte behind the
/// headers; and an event other than a packet and a tick can always be taken.
pub proof fn lemma_can_send(p: PeerView, ck: bool, pkt: PacketView)
    requires
        33 <= p.mtu <= 4096,
        pkt.channel < p.channels.len(),
        pkt.data.len() + 64 <= isize::MAX,
    ensures
        p.sendable(ck, pkt),
{
}

/// The slots with a connected peer.
pub open spec fn connected_slots(h: HostView) -> Set<int> {
    Set::new(
        |i: int|
            0 <= i < h.peers.len() && h.peers[i] is Some && h.peers[i]->0.state
                == PeerState::Connected,
    )
}

proof fn lemma_count(peers: Seq<Option<PeerView>>)
    ensures
        ({
            let s = Set::new(
                |i: int|
                    0 <= i < peers.len() && peers[i] is Some && peers[i]->0.state
                        == PeerState::Connected,
            );
            &&& s.finite()
            &&& host_service::connected_count(peers) == s.len()
        }),
    decreases peers.len(),
{
    let s = Set::new(
        |i: int|
            0 <= i < peers.len() && peers[i] is Some && peers[i]->0.state == PeerState::Connected,
    );
    if peers.len() == 0 {
        assert(s =~= Set::empty());
    } else {
        let front = peers.drop_last();
        let t = Set::new(
            |i: int|
                0 <= i < front.len() && front[i] is Some && front[i]->0.state
                    == PeerState::Connected,
        );
        lemma_count(front);
        let last = peers.len() - 1;
        if host_service::connected(peers.last()) {
            assert(s =~= t.insert(last));
        } else {
            assert(s =~= t);
        }
    }
}

/// Law: once a second, and not more often, the host's outgoing bandwidth is
/// shared out: every connected peer has then the same window, what the
/// bandwidth divided by their number is, up to 65536. No other peer is touched.
/// A host without a limit on what it sends leaves the windows alone.
pub proof fn lemma_equal_shares(h: HostView, now: u32, i: int)
    requires
        h.peers.len() <= 4095,
        0 <= i < h.peers.len(),
        h.peers[i] is Some,
    ensures
        ({
            let (g, out) = h.bandwidth_throttle(now);
            let p = h.peers[i]->0;
            let n = connected_slots(h).len();
            &&& service::passed(now, h.bandwidth_throttle_epoch) < 1000 ==> g == h && out
                == Seq::<ActionView>::empty()
            &&& service::passed(now, h.bandwidth_throttle_epoch) >= 1000 ==> {
                &&& g.bandwidth_throttle_epoch == now
                &&& g.peers[i] is Some
                &&& p.state != PeerState::Connected ==> g.peers[i] == h.peers[i]
                &&& h.outgoing_bandwidth == 0 ==> g.peers[i]->0.window_size == p.window_size
                &&& p.state == PeerState::Connected && h.outgoing_bandwidth > 0 ==> {
                    let share = h.outgoing_bandwidth as int / n as int;
                    g.peers[i]->0.window_size == if share < 65536 {
                        share
                    } else {
                        65536
                    }
                }
            }
        }),
{
    lemma_count(h.peers);
    let n = host_service::connected_count(h.peers);
    lemma_count_range(h.peers);
    if service::passed(now, h.bandwidth_throttle_epoch) >= 1000 {
        let e = HostView { bandwidth_throttle_epoch: now, ..h };
        if h.peers[i]->0.state == PeerState::Connected {
            assert(connected_slots(h).contains(i));
            assert(n > 0);
        }
        if n > 0 {
            let share = if h.outgoing_bandwidth > 0 {
                h.outgoing_bandwidth / (n as u32)
            } else {
                0
            };
            let w = connect::least(share, 65536);
            let f = if h.outgoing_bandwidth > 0 {
                e.with_windows(w)
            } else {
                e
            };
            lemma_windows(e, w);
            let bl = BandwidthLimitCmd {
                incoming_bandwidth: h.incoming_bandwidth,
                outgoing_bandwidth: share,
            };
            lemma_notify_windows(f, f.peers.len(), bl, now, i);
        }
    }
}

proof fn lemma_count_range(peers: Seq<Option<PeerView>>)
    ensures
        0 <= host_service::connected_count(peers) <= peers.len(),
    decreases peers.len(),
{
    if peers.len() > 0 {
        lemma_count_range(peers.drop_last());
    }
}

proof fn lemma_windows(h: HostView, w: u32)
    ensures
        h.with_windows(w).peers.len() == h.peers.len(),
        forall|i: int| 0 <= i < h.peers.len() ==> #[trigger] h.with_windows(w).peers[i]
            == host_service::with_window(h.peers[i], w),
{
}

proof fn lemma_notify_windows(h: HostView, n: nat, bl: BandwidthLimitCmd, now: u32, i: int)
    requires
        n <= h.peers.len() <= 4095,
        0 <= i < h.peers.len(),
        h.peers[i] is Some,
    ensures
        ({
            let g = h.notify_first(n, bl, now).0;
            &&& g.peers.len() == h.peers.len()
            &&& g.bandwidth_throttle_epoch == h.bandwidth_throttle_epoch
            &&& g.use_checksum == h.use_checksum
            &&& g.peers[i] is Some
            &&& g.peers[i]->0.window_size == h.peers[i]->0.window_size
            &&& g.peers[i]->0.state == h.peers[i]->0.state
            &&& h.peers[i]->0.state != PeerState::Connected ==> g.peers[i] == h.peers[i]
        }),
    decreases n,
{
    if n > 0 {
        lemma_notify_windows(h, (n - 1) as nat, bl, now, i);
    }
}

/// Law: an acknowledgement hands the connection out, ends it, or does neither,
/// and touches no other slot.
pub proof fn lemma_acknowledged_host(
    h: HostView,
    key: PeerKey,
    channel_id: u8,
    ack: AcknowledgeCmd,
    now: u32,
)
    requires
        key.0 < h.peers.len(),
        h.peers[key.0 as int] is Some,
    ensures
        ({
            let p = h.peers[key.0 as int]->0;
            let (g, out) = h.on_ack(key, channel_id, ack, now);
            let o = p.ack_outcome(channel_id, ack, now);
            &&& g.peers.len() == h.peers.len()
            &&& forall|i: int| 0 <= i < h.peers.len() && i != key.0 ==> #[trigger] g.peers[i]
                == h.peers[i]
            &&& g == (HostView { peers: g.peers, addr_map: g.addr_map, ..h })
            &&& o != AckOutcome::Disconnected ==> g.addr_map == h.addr_map
            &&& o == AckOutcome::Disconnected ==> g.addr_map == h.addr_map.remove(p.addr)
            &&& if o == AckOutcome::Disconnected {
                &&& g.peers[key.0 as int] is None
                &&& out == seq![ActionView::Closed { key, reason: CloseReason::Local }]
            } else {
                &&& g.peers[key.0 as int] == Some(p.acknowledged(channel_id, ack, now))
                &&& out == if o == AckOutcome::Accepted {
                    seq![ActionView::Accept { key }]
                } else {
                    Seq::empty()
                }
            }
        }),
{
}

/// The bytes of an acknowledgement of the command with a channel and a number
/// in a datagram that was sent at `t`.
pub open spec fn is_acknowledgement(s: Seq<u8>, channel_id: u8, seq: u16, t: int) -> bool {
    &&& s.len() == 8
    &&& s[0] == 1
    &&& s[1] == channel_id
    &&& layout::num16(s, 2) == 0
    &&& layout::num16(s, 4) == seq
    &&& layout::num16(s, 6) == t
}

proof fn lemma_ack_layout(channel_id: u8, seq: u16, t: u16)
    ensures
        is_acknowledgement(connect::ack_command(channel_id, seq, t), channel_id, seq, t as int),
{
    handshake::lemma_ack_bytes(channel_id, seq, t);
    let c = handshake::acknowledge_command(channel_id, seq, t);
    let s = command::command_bytes(c);
    assert(transport::bytes_of(seq![c])[0] == s);
    assert(seq![connect::ack_command(channel_id, seq, t)][0] == s);
    layout::lemma_command_head(c);
    assert(1u8 | 0u8 == 1u8) by (bit_vector);
    layout::lemma_settings_layout(
        AcknowledgeCmd { received_reliable_seq: seq, received_sent_time: t },
        DisconnectCmd { data: 0 },
        BandwidthLimitCmd { incoming_bandwidth: 0, outgoing_bandwidth: 0 },
        ThrottleConfigureCmd {
            throttle_interval: 0,
            throttle_acceleration: 0,
            throttle_deceleration: 0,
        },
    );
    let b = s.skip(4);
    assert(b[0] == s[4] && b[1] == s[5] && b[2] == s[6] && b[3] == s[7]);
}

/// Law: a DISCONNECT ends the connection and tells the user the reason that it
/// carries. It is acknowledged first, where it asks for it and the time it was
/// sent is known.
pub proof fn lemma_ended_by_other(
    h: HostView,
    key: PeerKey,
    hdr: CommandHeader,
    data: u32,
    st: Option<u16>,
    now: u32,
)
    requires
        key.0 < h.peers.len(),
        h.peers[key.0 as int] is Some,
    ensures
        ({
            let p = h.peers[key.0 as int]->0;
            let (g, out) = h.on_disconnect(key, hdr, data, st, now);
            let told = ActionView::Closed { key, reason: CloseReason::Remote(data) };
            &&& g == h.without_peer(key)
            &&& if hdr.command >= 128 && st is Some {
                &&& out.len() == 2
                &&& out[1] == told
                &&& out[0] matches ActionView::SendTo { addr, datagram }
                &&& addr == p.addr
                &&& is_acknowledgement(
                    datagram.skip(
                        if h.use_checksum {
                            8
                        } else {
                            4
                        },
                    ),
                    hdr.channel_id,
                    hdr.reliable_seq,
                    st->0 as int,
                )
            } else {
                out == seq![told]
            }
        }),
{
    let p = h.peers[key.0 as int]->0;
    let (g, out) = h.on_disconnect(key, hdr, data, st, now);
    let told = ActionView::Closed { key, reason: CloseReason::Remote(data) };
    assert(h.live(key));
    if hdr.command >= 128 && st is Some {
        let t = st->0;
        let a = connect::ack_command(hdr.channel_id, hdr.reliable_seq, t);
        let k = h.with_peer(key, p.sent(seq![a], now));
        assert(k.live(key) && k.peer(key).addr == p.addr);
        assert(k.without_peer(key) =~= h.without_peer(key));
        lemma_ack_layout(hdr.channel_id, hdr.reliable_seq, t);
        layout::lemma_datagram_layout(p, h.use_checksum, seq![a], now);
        layout::lemma_concat(Seq::empty(), Seq::empty(), a);
        assert(out =~= seq![
            ActionView::SendTo { addr: p.addr, datagram: p.datagram(h.use_checksum, seq![a], now) },
            told,
        ]);
    } else {
        assert(out =~= seq![told]);
    }
}

/// Law: the answer of a server is taken by the peer that waits for it, and
/// whoever asked for the connection is told then, and only then. No other slot
/// is touched.
pub proof fn lemma_answer_reported(
    h: HostView,
    key: PeerKey,
    vc: VerifyConnectCmd,
    seq: u16,
    now: u32,
)
    requires
        key.0 < h.peers.len(),
        h.peers[key.0 as int] is Some,
    ensures
        ({
            let p = h.peers[key.0 as int]->0;
            let (g, out) = h.on_verify_connect(key, vc, seq, now);
            &&& g == (HostView { peers: g.peers, ..h })
            &&& g.peers.len() == h.peers.len()
            &&& g.peers[key.0 as int] == Some(p.on_verify(vc, seq, now))
            &&& forall|i: int| 0 <= i < h.peers.len() && i != key.0 ==> #[trigger] g.peers[i]
                == h.peers[i]
            &&& out == if p.state == PeerState::Connecting && vc.connect_id == p.connect_id
                && p.handle_held && p.reply_held {
                seq![ActionView::ConnectReply { key }]
            } else {
                Seq::empty()
            }
        }),
{
}

/// There is room for a reliable command, as far as it needs any.
pub open spec fn room(q: PeerView, c: command::CommandView) -> bool {
    let ch = c.header.channel_id;
    let a = q.channels[ch as int];
    ch < q.channels.len() ==> match c.body {
        command::BodyView::SendReliable(_) => {
            ||| a.queue.len() < 4096
            ||| a.queue.contains_key(c.header.reliable_seq)
            ||| !(2 <= receiving::steps(a.incoming_reliable_seq, c.header.reliable_seq) <= 32768)
        },
        command::BodyView::SendFragment(f) => {
            let ahead = receiving::steps(a.incoming_reliable_seq, f.start_seq);
            ||| !(1 <= ahead <= 32768)
            ||| a.queue.contains_key(f.start_seq)
            ||| (ahead == 1 || a.queue.len() < 4096) && (a.fragments.contains_key(
                f.start_seq as u32,
            ) || (a.fragments.len() < 64 && q.fragment_bytes + f.total_length <= 16_777_216))
        },
        _ => true,
    }
}

/// Law: a command that asks for an acknowledgement, and every reliable packet
/// and fragment, is acknowledged in a datagram to the peer that it came from,
/// with its channel, its number and the time its datagram was sent, where there
/// is room for it. Where it asks for none, nothing is sent.
#[verifier::rlimit(40)]
pub proof fn lemma_acknowledged(
    p: PeerView,
    h: HostView,
    key: PeerKey,
    from: Address,
    c: command::CommandView,
    sent: u32,
    now: u32,
)
    requires
        transport::addressed(p, h, Some(key), from),
        h.live(key),
        command::well_typed(c),
        delivery::is_data(c),
    ensures
        ({
            let out = h.on_datagram(
                p.datagram(h.use_checksum, transport::bytes_of(seq![c]), sent),
                from,
                now,
            ).1;
            let asked = c.header.command >= 128 || c.body is SendReliable || c.body is SendFragment;
            &&& asked && room(h.peer(key), c) ==> exists|b: Seq<u8>|
                is_acknowledgement(
                    b,
                    c.header.channel_id,
                    c.header.reliable_seq,
                    sent as int % 65536,
                ) && #[trigger] service::sent_to(out, h.peer(key), b)
            &&& !asked ==> forall|k: int| 0 <= k < out.len() ==> !((#[trigger] out[k]) is SendTo)
        }),
{
    let q0 = h.peer(key);
    let (q, done) = q0.on_data(key, c, now);
    delivery::lemma_data_received(p, h, key, from, c, sent, now);
    lemma_no_datagrams(q0, key, c, now);
    let asked = c.header.command >= 128 || c.body is SendReliable || c.body is SendFragment;
    let ack = connect::ack_command(
        c.header.channel_id,
        c.header.reliable_seq,
        handshake::low(sent),
    );
    if asked && room(q0, c) {
        lemma_room(q0, c);
        lemma_ack_layout(c.header.channel_id, c.header.reliable_seq, handshake::low(sent));
        service::lemma_flushed_carries(q, h.use_checksum, seq![ack], now, 0);
        let sent_out = q.flushed(h.use_checksum, seq![ack], now);
        assert(q.addr == q0.addr);
        let k = choose|k: int|
            0 <= k < sent_out.len() && ((#[trigger] sent_out[k]) matches ActionView::SendTo {
                addr,
                datagram,
            } && addr == q.addr && service::carries(datagram, ack));
        let out = done + sent_out;
        assert(out[done.len() + k] == sent_out[k]);
        assert(service::sent_to(out, q0, ack));
    } else if !asked {
        send::lemma_none(q, h.use_checksum, now);
        assert(done + Seq::<ActionView>::empty() =~= done);
    }
}

/// What there is room for is not refused.
proof fn lemma_room(q: PeerView, c: command::CommandView)
    requires
        room(q, c),
    ensures
        !q.refuses(c),
{
}

proof fn lemma_no_datagrams(q: PeerView, key: PeerKey, c: command::CommandView, now: u32)
    ensures
        forall|k: int|
            0 <= k < q.on_data(key, c, now).1.len() ==> (
            #[trigger] q.on_data(key, c, now).1[k]) is Deliver,
        q.on_data(key, c, now).0.addr == q.addr,
{
}

/// Law: nothing in a datagram that does not say when it was sent is
/// acknowledged.
pub proof fn lemma_untimed(
    t: Turn,
    key: Option<PeerKey>,
    cmds: Seq<command::CommandView>,
    from: Address,
    now: u32,
)
    ensures
        t.on_commands(key, None, cmds, from, now).acks == t.acks,
    decreases cmds.len(),
{
    if cmds.len() > 0 {
        lemma_untimed(t, key, cmds.drop_last(), from, now);
    }
}

/// The slot that the first two bytes of a datagram name.
pub open spec fn named_slot(raw: Seq<u8>) -> int {
    raw[0] % 16 * 256 + raw[1]
}

/// The peer that a datagram is for: the one in the slot that it names, or,
/// where it names none, the one with the sender's address.
pub open spec fn meant_for(h: HostView, raw: Seq<u8>, from: Address) -> Option<PeerKey> {
    let i = named_slot(raw);
    if i == 4095 {
        if h.addr_map.contains_key(from) {
            Some(h.addr_map[from])
        } else {
            None
        }
    } else if i < h.peers.len() {
        Some(PeerKey(i as usize))
    } else {
        None
    }
}

/// The connect ID of a peer, or zero where there is none.
pub open spec fn id_of(h: HostView, key: Option<PeerKey>) -> u32 {
    if key is Some && (key->0).0 < h.peers.len() && h.peers[(key->0).0 as int] is Some {
        h.peers[(key->0).0 as int]->0.connect_id
    } else {
        0
    }
}

/// Law: a datagram is dropped, and changes nothing, if its header is
/// incomplete, if it is compressed, if it is of another session than the peer
/// that it is for expects, or if checksums are used and its own is not that of
/// the datagram with the peer's connect ID, or zero, in its place.
pub proof fn lemma_dropped(h: HostView, raw: Seq<u8>, from: Address, now: u32)
    requires
        ({
            let n = if raw[0] >= 128 {
                4int
            } else {
                2
            };
            let key = meant_for(h, raw, from);
            let k = (key->0).0 as int;
            ||| raw.len() < 2
            ||| raw.len() < n
            ||| raw[0] / 64 % 2 == 1
            ||| key is Some && k < h.peers.len() && h.peers[k] is Some
                && h.peers[k]->0.incoming_session_id != 255 && h.peers[k]->0.incoming_session_id
                != raw[0] / 16 % 4
            ||| h.use_checksum && (raw.len() < n + 4 || layout::num32(raw, n) != crc::crc32_of(
                raw.take(n) + wire::be32(id_of(h, key)) + raw.skip(n + 4),
            ))
        }),
    ensures
        h.on_datagram(raw, from, now) == (h, Seq::<ActionView>::empty()),
{
    reveal(HostView::on_datagram);
    let n = if raw[0] >= 128 {
        4int
    } else {
        2
    };
    if raw.len() >= 2 && raw.len() >= n {
        let v = layout::num16(raw, 0);
        assert(wire::u16_at(raw, 0) == v);
        assert(v % 4096 == named_slot(raw) && v / 4096 % 4 == raw[0] as int / 16 % 4 && v / 16384 % 2
            == raw[0] as int / 64 % 2 && (v >= 32768 <==> raw[0] >= 128));
        let rest = raw.skip(n);
        if raw.len() >= n + 4 {
            assert(rest.skip(4) =~= raw.skip(n + 4));
            assert(rest[0] == raw[n] && rest[1] == raw[n + 1] && rest[2] == raw[n + 2] && rest[3]
                == raw[n + 3]);
            assert(wire::u32_at(rest, 0) == layout::num32(raw, n));
        }
    }
}

/// Law: a datagram that is not dropped for one of these reasons is let in: its
/// commands, as far as they can be read and at most 32 of them, are done one
/// after the other for the peer that it is for, and then what is to be
/// acknowledged is.
#[verifier::rlimit(30)]
pub proof fn lemma_let_in(h: HostView, raw: Seq<u8>, from: Address, now: u32)
    requires
        ({
            let n = if raw[0] >= 128 {
                4int
            } else {
                2
            };
            let key = meant_for(h, raw, from);
            let k = (key->0).0 as int;
            &&& raw.len() >= 2
            &&& raw.len() >= n
            &&& raw[0] / 64 % 2 == 0
            &&& key is Some && k < h.peers.len() && h.peers[k] is Some ==> (
            h.peers[k]->0.incoming_session_id == 255 || h.peers[k]->0.incoming_session_id == raw[0]
                / 16 % 4)
            &&& h.use_checksum ==> raw.len() >= n + 4 && layout::num32(raw, n) == crc::crc32_of(
                raw.take(n) + wire::be32(id_of(h, key)) + raw.skip(n + 4),
            )
        }),
    ensures
        ({
            let n = if raw[0] >= 128 {
                4int
            } else {
                2
            };
            let key = meant_for(h, raw, from);
            let st = if raw[0] >= 128 {
                Some(layout::num16(raw, 2) as u16)
            } else {
                None
            };
            let body = if h.use_checksum {
                raw.skip(n + 4)
            } else {
                raw.skip(n)
            };
            h.on_datagram(raw, from, now) == Turn::first(h).on_commands(
                key,
                st,
                command::parse_all(body, 32),
                from,
                now,
            ).flush_acks(key, from, now)
        }),
{
    reveal(HostView::on_datagram);
    let n = if raw[0] >= 128 {
        4int
    } else {
        2
    };
    let v = layout::num16(raw, 0);
    assert(wire::u16_at(raw, 0) == v);
    assert(v % 4096 == named_slot(raw) && v / 4096 % 4 == raw[0] as int / 16 % 4 && v / 16384 % 2
        == raw[0] as int / 64 % 2 && (v >= 32768 <==> raw[0] >= 128));
    let rest = raw.skip(n);
    if raw[0] >= 128 {
        assert(wire::u16_at(raw, 2) == layout::num16(raw, 2));
    }
    if raw.len() >= n + 4 {
        assert(rest.skip(4) =~= raw.skip(n + 4));
        assert(rest[0] == raw[n] && rest[1] == raw[n + 1] && rest[2] == raw[n + 2] && rest[3]
            == raw[n + 3]);
        assert(wire::u32_at(rest, 0) == layout::num32(raw, n));
    }
}

/// Law: the commands of a datagram are done one after the other.
pub proof fn lemma_in_turn(
    t: Turn,
    key: Option<PeerKey>,
    st: Option<u16>,
    a: Seq<command::CommandView>,
    b: Seq<command::CommandView>,
    c: command::CommandView,
    from: Address,
    now: u32,
)
    ensures
        t.on_commands(key, st, Seq::empty(), from, now) == t,
        t.on_commands(key, st, seq![c], from, now) == t.on_command(key, st, c, from, now),
        ({
            let u = t.on_commands(key, st, a, from, now);
            t.on_commands(key, st, a + b, from, now) == u.on_commands(key, st, b, from, now)
        }),
    decreases b.len(),
{
    handshake::lemma_one_command(t, key, st, c, from, now);
    if b.len() == 0 {
        assert(a + b =~= a);
    } else {
        lemma_in_turn(t, key, st, a, b.drop_last(), c, from, now);
        assert((a + b).drop_last() =~= a + b.drop_last());
        assert((a + b).last() == b.last());
    }
}

/// Law: what each command of a datagram does, in every state of the connection.
/// CONNECT is taken whoever it comes from. Without a peer nothing else is. For
/// a peer, DISCONNECT ends the connection, an acknowledgement is taken as one,
/// VERIFY_CONNECT as the answer of a server, and any other command is done to
/// the peer, and acknowledged where it asks for it and there is room. What comes for a slot without a peer does nothing. What was done
/// before stays done.
#[verifier::rlimit(30)]
pub proof fn lemma_done(
    t: Turn,
    key: Option<PeerKey>,
    st: Option<u16>,
    c: command::CommandView,
    from: Address,
    now: u32,
)
    ensures
        ({
            let h = t.host;
            let u = t.on_command(key, st, c, from, now);
            let there = key is Some && (key->0).0 < h.peers.len()
                && h.peers[(key->0).0 as int] is Some;
            let p = h.peers[(key->0).0 as int]->0;
            &&& c.body matches command::BodyView::Connect(body) ==> {
                let step = h.on_connect(body, c.header.reliable_seq, st, from, now);
                u.host == step.0 && u.out == t.out + step.1 && u.acks == t.acks
            }
            &&& !(c.body is Connect) && !there ==> u.host == h && u.out == t.out
            &&& there ==> match c.body {
                command::BodyView::Connect(_) => true,
                command::BodyView::Disconnect(d) => {
                    let step = h.on_disconnect(key->0, c.header, d.data, st, now);
                    u.host == step.0 && u.out == t.out + step.1 && u.acks == t.acks
                },
                command::BodyView::VerifyConnect(v) => {
                    let step = h.on_verify_connect(key->0, v, c.header.reliable_seq, now);
                    &&& u.host == step.0
                    &&& u.out == t.out + step.1
                    &&& st matches Some(sent) ==> u.acks == if v.connect_id == p.connect_id && (
                    p.state == PeerState::Connecting || c.header.command >= 128) {
                        t.acks.push(connect::ack_command(255, c.header.reliable_seq, sent))
                    } else {
                        t.acks
                    }
                },
                command::BodyView::Acknowledge(a) => {
                    let step = h.on_ack(key->0, c.header.channel_id, a, now);
                    u.host == step.0 && u.out == t.out + step.1
                },
                _ => {
                    let (q, out) = p.on_data(key->0, c, now);
                    u.host == h.with_peer(key->0, q) && u.out == t.out + out
                },
            }
            &&& there && !(c.body is Connect) && !(c.body is Disconnect) && !(
            c.body is VerifyConnect) ==> {
                let asked = c.header.command >= 128 || c.body is SendReliable
                    || c.body is SendFragment;
                &&& asked && room(p, c) && st is Some ==> u.acks == t.acks.push(
                    connect::ack_command(c.header.channel_id, c.header.reliable_seq, st->0),
                )
                &&& !asked || st is None ==> u.acks == t.acks
            }
        }),
{
    let h = t.host;
    if key is Some && !h.live(key->0) {
        assert(t.out + Seq::<ActionView>::empty() =~= t.out);
    }
    if key is Some && h.live(key->0) && room(h.peer(key->0), c) {
        lemma_room(h.peer(key->0), c);
    }
}

/// Law: a reliable packet for which there is no room is not acknowledged, and
/// nothing is sent.
#[verifier::rlimit(30)]
pub proof fn lemma_not_acknowledged(
    p: PeerView,
    h: HostView,
    key: PeerKey,
    from: Address,
    c: command::CommandView,
    sent: u32,
    now: u32,
)
    requires
        transport::addressed(p, h, Some(key), from),
        h.live(key),
        command::well_typed(c),
        c.body is SendReliable,
        !room(h.peer(key), c),
    ensures
        ({
            let out = h.on_datagram(
                p.datagram(h.use_checksum, transport::bytes_of(seq![c]), sent),
                from,
                now,
            ).1;
            forall|k: int| 0 <= k < out.len() ==> !((#[trigger] out[k]) is SendTo)
        }),
{
    let q0 = h.peer(key);
    let (q, done) = q0.on_data(key, c, now);
    delivery::lemma_data_received(p, h, key, from, c, sent, now);
    lemma_no_datagrams(q0, key, c, now);
    assert(q0.refuses(c));
    send::lemma_none(q, h.use_checksum, now);
    assert(done + Seq::<ActionView>::empty() =~= done);
}

/// Law: what is to be acknowledged goes to the peer that the datagram was for,
/// all of it, and nothing more is sent where there is nothing.
pub proof fn lemma_acknowledgements_sent(
    t: Turn,
    key: PeerKey,
    from: Address,
    now: u32,
    i: int,
)
    requires
        key.0 < t.host.peers.len(),
        t.host.peers[key.0 as int] is Some,
    ensures
        ({
            let p = t.host.peers[key.0 as int]->0;
            let (g, out) = t.flush_acks(Some(key), from, now);
            &&& t.acks.len() == 0 ==> g == t.host && out == t.out
            &&& 0 <= i < t.acks.len() ==> service::sent_to(out, p, t.acks[i])
            &&& out.len() >= t.out.len() && out.subrange(0, t.out.len() as int) == t.out
            &&& g.peers.len() == t.host.peers.len()
            &&& forall|j: int| 0 <= j < g.peers.len() && j != key.0 ==> #[trigger] g.peers[j]
                == t.host.peers[j]
            &&& g.peers[key.0 as int] is Some
            &&& g.peers[key.0 as int]->0 == (PeerView {
                last_send_time: g.peers[key.0 as int]->0.last_send_time,
                ..p
            })
        }),
{
    let p = t.host.peers[key.0 as int]->0;
    let (g, out) = t.flush_acks(Some(key), from, now);
    assert(t.host.live(key));
    assert(out.subrange(0, t.out.len() as int) =~= t.out);
    if 0 <= i < t.acks.len() {
        let sent = p.flushed(t.host.use_checksum, t.acks, now);
        service::lemma_flushed_carries(p, t.host.use_checksum, t.acks, now, i);
        let k = choose|k: int|
            0 <= k < sent.len() && ((#[trigger] sent[k]) matches ActionView::SendTo {
                addr,
                datagram,
            } && addr == p.addr && service::carries(datagram, t.acks[i]));
        assert(out[t.out.len() + k] == sent[k]);
    }
}

/// Law: a packet can be taken from the user of every peer that is not there or
/// not connected, and of a connected one where it can be sent; every event that
/// is neither a packet nor a tick can be taken.
pub proof fn lemma_can_step(
    h: HostView,
    key: PeerKey,
    packet: PacketView,
    addr: Address,
    raw: Seq<u8>,
    channel_count: u8,
    data: u32,
    now: u32,
)
    ensures
        h.can_step(EventView::Datagram { from: addr, data: raw }, now),
        h.can_step(EventView::Disconnect { peer_key: key, data }, now),
        h.can_step(EventView::Connect { addr, channel_count, data }, now),
        key.0 >= h.peers.len() || h.peers[key.0 as int] is None || h.peers[key.0 as int]->0.state
            != PeerState::Connected || h.peers[key.0 as int]->0.sendable(h.use_checksum, packet)
            ==> h.can_step(EventView::Send { peer_key: key, packet }, now),
        (forall|i: int|
            0 <= i < h.peers.len() ==> ((#[trigger] h.peers[i]) matches Some(p) ==> p.serviceable(
                now,
            ))) ==> h.can_step(EventView::Tick, now),
{
}

/// Law: a peer that is put in a slot is there, and nothing else changes.
pub proof fn lemma_put(h: HostView, key: PeerKey, p: PeerView)
    requires
        key.0 < h.peers.len(),
    ensures
        ({
            let g = h.with_peer(key, p);
            &&& g.peers.len() == h.peers.len()
            &&& g.peers[key.0 as int] == Some(p)
            &&& forall|i: int| 0 <= i < h.peers.len() && i != key.0 ==> #[trigger] g.peers[i]
                == h.peers[i]
            &&& g == (HostView { peers: g.peers, ..h })
        }),
{
}

} // verus!
