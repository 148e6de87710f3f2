//! What is negotiated, and how bandwidth is shared.

use vstd::prelude::*;

use crate::channel;
use crate::laws::transport;
use crate::outgoing;
use crate::peer::send;
use crate::peer::{ActionView, PeerView};
use crate::protocol::command;
use crate::protocol::{
    BandwidthLimitCmd, CommandHeader, ConnectCmd, BANDWIDTH_THROTTLE_INTERVAL_MS,
    CHANNEL_ID_CONNECTION, CMD_BANDWIDTH_LIMIT, MTU_MAX, MTU_MIN, WINDOW_SIZE_MAX, WINDOW_SIZE_MIN,
};
use crate::task::connect;
use crate::task::service;
use crate::task::HostView;

verus! {

/// Law: what a server grants is within the protocol's limits, and no more
/// than the client asked for, as far as the limits allow.
pub proof fn lemma_negotiated(h: HostView, connect: ConnectCmd)
    requires
        h.wf(),
    ensures
        ({
            let mtu = connect::granted_mtu(connect.mtu, h.host_mtu);
            let window = h.granted_window(connect);
            let channels = connect::granted_channels(connect.channel_count);
            &&& MTU_MIN <= mtu <= MTU_MAX
            &&& mtu <= h.host_mtu
            &&& connect.mtu >= MTU_MIN ==> mtu <= connect.mtu
            &&& WINDOW_SIZE_MIN <= window <= WINDOW_SIZE_MAX
            &&& connect.window_size >= WINDOW_SIZE_MIN ==> window <= connect.window_size
            &&& 1 <= channels <= 255
        }),
{
}

/// The sum of the windows of all connected peers.
pub open spec fn window_sum(peers: Seq<Option<PeerView>>) -> int
    decreases peers.len(),
{
    if peers.len() == 0 {
        0
    } else {
        window_sum(peers.drop_last()) + if service::connected(peers.last()) {
            peers.last()->0.window_size as int
        } else {
            0
        }
    }
}

/// Two lists of slots have the same connected peers with the same windows.
spec fn same_windows(a: Seq<Option<PeerView>>, b: Seq<Option<PeerView>>) -> bool {
    &&& a.len() == b.len()
    &&& forall|i: int|
        0 <= i < a.len() ==> service::connected(#[trigger] a[i]) == service::connected(b[i]) && (
        service::connected(a[i]) ==> a[i]->0.window_size == b[i]->0.window_size)
}

proof fn lemma_same_sum(a: Seq<Option<PeerView>>, b: Seq<Option<PeerView>>)
    requires
        same_windows(a, b),
    ensures
        window_sum(a) == window_sum(b),
    decreases a.len(),
{
    if a.len() > 0 {
        assert forall|i: int| 0 <= i < a.len() - 1 implies service::connected(
            #[trigger] a.drop_last()[i],
        ) == service::connected(b.drop_last()[i]) && (service::connected(a.drop_last()[i])
            ==> a.drop_last()[i]->0.window_size == b.drop_last()[i]->0.window_size) by {
            assert(service::connected(a[i]) == service::connected(b[i]));
        }
        lemma_same_sum(a.drop_last(), b.drop_last());
        assert(service::connected(a[a.len() - 1]) == service::connected(b[a.len() - 1]));
    }
}

proof fn lemma_equal_windows(peers: Seq<Option<PeerView>>, w: u32)
    ensures
        window_sum(peers.map_values(|s: Option<PeerView>| service::with_window(s, w)))
            == service::connected_count(peers) * w,
        service::connected_count(peers) >= 0,
    decreases peers.len(),
{
    let f = |s: Option<PeerView>| service::with_window(s, w);
    let n = service::connected_count(peers);
    if peers.len() > 0 {
        lemma_equal_windows(peers.drop_last(), w);
        assert(peers.map_values(f).drop_last() =~= peers.drop_last().map_values(f));
        let m = service::connected_count(peers.drop_last());
        assert((m + 1) * w == m * w + w) by (nonlinear_arith);
    } else {
        assert(0 * w == 0) by (nonlinear_arith);
    }
}

proof fn lemma_notify_keeps(h: HostView, n: nat, bl: BandwidthLimitCmd, now: u32)
    requires
        n <= h.peers.len() <= usize::MAX,
    ensures
        same_windows(h.peers, h.notify_first(n, bl, now).0.peers),
        h.notify_first(n, bl, now).0.use_checksum == h.use_checksum,
    decreases n,
{
    if n > 0 {
        lemma_notify_keeps(h, (n - 1) as nat, bl, now);
        let g = h.notify_first((n - 1) as nat, bl, now).0;
        let k = h.notify_first(n, bl, now).0;
        assert forall|i: int| 0 <= i < h.peers.len() implies service::connected(
            #[trigger] h.peers[i],
        ) == service::connected(k.peers[i]) && (service::connected(h.peers[i])
            ==> h.peers[i]->0.window_size == k.peers[i]->0.window_size) by {
            assert(service::connected(h.peers[i]) == service::connected(g.peers[i]));
        }
    }
}

/// Law: where the host's outgoing bandwidth is limited, the windows of all
/// connected peers together are no more than that bandwidth after it was
/// shared out.
pub proof fn lemma_bandwidth_shared(h: HostView, now: u32)
    requires
        h.wf(),
        outgoing::elapsed(now, h.bandwidth_throttle_epoch) >= BANDWIDTH_THROTTLE_INTERVAL_MS,
        h.outgoing_bandwidth > 0,
    ensures
        window_sum(h.bandwidth_throttle(now).0.peers) <= h.outgoing_bandwidth,
{
    lemma_count_bound(h.peers);
    let n = service::connected_count(h.peers);
    let ob = h.outgoing_bandwidth;
    if n == 0 {
        lemma_no_windows(h.peers);
    } else {
        let share = ob / (n as u32);
        let w = connect::least(share, WINDOW_SIZE_MAX);
        let g = HostView { bandwidth_throttle_epoch: now, ..h }.with_windows(w);
        lemma_equal_windows(h.peers, w);
        assert(n * w <= ob) by (nonlinear_arith)
            requires
                w <= share,
                share == ob as int / n,
                n > 0,
        ;
        let bl = BandwidthLimitCmd {
            incoming_bandwidth: h.incoming_bandwidth,
            outgoing_bandwidth: share,
        };
        lemma_notify_keeps(g, g.peers.len(), bl, now);
        lemma_same_sum(g.peers, g.notify_first(g.peers.len(), bl, now).0.peers);
    }
}

proof fn lemma_no_windows(peers: Seq<Option<PeerView>>)
    requires
        service::connected_count(peers) == 0,
    ensures
        window_sum(peers) == 0,
    decreases peers.len(),
{
    if peers.len() > 0 {
        lemma_count_bound(peers.drop_last());
        lemma_no_windows(peers.drop_last());
    }
}

proof fn lemma_count_bound(peers: Seq<Option<PeerView>>)
    ensures
        0 <= service::connected_count(peers) <= peers.len(),
    decreases peers.len(),
{
    if peers.len() > 0 {
        lemma_count_bound(peers.drop_last());
    }
}

/// The command that tells a peer of bandwidth limits.
pub open spec fn limit_command(p: PeerView, bl: BandwidthLimitCmd) -> command::CommandView {
    channel::command_of(
        CMD_BANDWIDTH_LIMIT,
        0x80,
        CHANNEL_ID_CONNECTION,
        p.next_seq(CHANNEL_ID_CONNECTION),
        command::BodyView::BandwidthLimit(bl),
    )
}

/// The datagram with that command.
pub open spec fn limit_sent(p: PeerView, ck: bool, bl: BandwidthLimitCmd, now: u32) -> ActionView {
    ActionView::SendTo {
        addr: p.addr,
        datagram: p.datagram(ck, transport::bytes_of(seq![limit_command(p, bl)]), now),
    }
}

proof fn lemma_notified(p: PeerView, ck: bool, bl: BandwidthLimitCmd, now: u32)
    ensures
        p.notify(ck, bl, now).1 == seq![limit_sent(p, ck, bl, now)],
{
    let c = limit_command(p, bl);
    let bytes = command::command_bytes(c);
    let body = command::BodyView::BandwidthLimit(bl);
    let q = p.with_reliable(CHANNEL_ID_CONNECTION, CMD_BANDWIDTH_LIMIT, body, now);
    assert(transport::bytes_of(seq![c]) =~= seq![bytes]);
    assert(p.reliable_command(CHANNEL_ID_CONNECTION, CMD_BANDWIDTH_LIMIT, body) == bytes) by {
        reveal(channel::encoded);
    }
    send::lemma_single(q, ck, bytes, now);
    assert(q.datagram(ck, seq![bytes], now) == p.datagram(ck, seq![bytes], now));
}

proof fn lemma_first_notified(h: HostView, n: nat, bl: BandwidthLimitCmd, now: u32)
    requires
        n <= h.peers.len() <= usize::MAX,
    ensures
        ({
            let (g, out) = h.notify_first(n, bl, now);
            &&& g.use_checksum == h.use_checksum
            &&& g.peers.len() == h.peers.len()
            &&& forall|i: int| n <= i < h.peers.len() ==> #[trigger] g.peers[i] == h.peers[i]
            &&& out.len() == service::connected_count(h.peers.take(n as int))
            &&& forall|i: int|
                0 <= i < n && service::connected(#[trigger] h.peers[i]) ==> out.contains(
                    limit_sent(h.peers[i]->0, h.use_checksum, bl, now),
                )
        }),
    decreases n,
{
    if n > 0 {
        let m = (n - 1) as nat;
        lemma_first_notified(h, m, bl, now);
        let (g, out) = h.notify_first(m, bl, now);
        let all = h.notify_first(n, bl, now).1;
        assert(h.peers.take(n as int).drop_last() =~= h.peers.take(m as int));
        assert(h.peers.take(n as int).last() == h.peers[m as int]);
        assert(g.peers[m as int] == h.peers[m as int]);
        let p = h.peers[m as int]->0;
        lemma_notified(p, h.use_checksum, bl, now);
        assert forall|i: int|
            0 <= i < n && service::connected(#[trigger] h.peers[i]) implies all.contains(
            limit_sent(h.peers[i]->0, h.use_checksum, bl, now),
        ) by {
            let sent = limit_sent(h.peers[i]->0, h.use_checksum, bl, now);
            if i < m {
                assert(out.contains(sent));
                let j = choose|j: int| 0 <= j < out.len() && out[j] == sent;
                assert(all[j] == sent);
            } else {
                assert(all[out.len() as int] == sent);
            }
        }
    }
}

/// There is something to tell: what the host can take is limited, or each
/// connected peer has a share of what it may send.
pub open spec fn tells(h: HostView) -> bool {
    h.incoming_bandwidth > 0 || h.outgoing_bandwidth as int >= service::connected_count(h.peers)
}

/// Law: when the bandwidth is shared out and there is something to tell, each
/// connected peer is sent one datagram with a bandwidth limit, which advertises
/// what the host can take and the peer's share of what it may send, and nothing
/// else is sent. Where there is nothing to tell, nothing is sent.
pub proof fn lemma_bandwidth_told(h: HostView, now: u32)
    requires
        h.wf(),
        outgoing::elapsed(now, h.bandwidth_throttle_epoch) >= BANDWIDTH_THROTTLE_INTERVAL_MS,
    ensures
        ({
            let out = h.bandwidth_throttle(now).1;
            let n = service::connected_count(h.peers);
            let bl = BandwidthLimitCmd {
                incoming_bandwidth: h.incoming_bandwidth,
                outgoing_bandwidth: (h.outgoing_bandwidth as int / n) as u32,
            };
            &&& tells(h) ==> out.len() == n
            &&& tells(h) ==> forall|i: int|
                0 <= i < h.peers.len() && service::connected(#[trigger] h.peers[i])
                    ==> out.contains(limit_sent(h.peers[i]->0, h.use_checksum, bl, now))
            &&& !tells(h) ==> out == Seq::<ActionView>::empty()
        }),
{
    lemma_count_bound(h.peers);
    let n = service::connected_count(h.peers);
    if n == 0 {
        lemma_none_connected(h.peers);
    } else if !tells(h) {
        lemma_silent(h, now);
    } else {
        let share = (h.outgoing_bandwidth as int / n) as u32;
        let bl = BandwidthLimitCmd {
            incoming_bandwidth: h.incoming_bandwidth,
            outgoing_bandwidth: share,
        };
        let g = shared(h, share, now);
        lemma_shared_out(h, now);
        lemma_first_notified(g, g.peers.len(), bl, now);
        assert(g.peers.take(g.peers.len() as int) =~= g.peers);
        assert(tells(h));
        assert forall|i: int| 0 <= i < h.peers.len() implies service::connected(
            #[trigger] h.peers[i],
        ) == service::connected(g.peers[i]) by {}
        lemma_same_count(h.peers, g.peers);
        let out = h.bandwidth_throttle(now).1;
        assert forall|i: int|
            0 <= i < h.peers.len() && service::connected(
                #[trigger] h.peers[i],
            ) implies out.contains(limit_sent(h.peers[i]->0, h.use_checksum, bl, now)) by {
            assert(service::connected(g.peers[i]));
            lemma_sent_alike(h.peers[i]->0, g.peers[i]->0, h.use_checksum, bl, now);
        }
    }
}

/// The host with the bandwidth shared out.
spec fn shared(h: HostView, share: u32, now: u32) -> HostView {
    let e = HostView { bandwidth_throttle_epoch: now, ..h };
    if h.outgoing_bandwidth > 0 {
        e.with_windows(connect::least(share, WINDOW_SIZE_MAX))
    } else {
        e
    }
}

proof fn lemma_shared_out(h: HostView, now: u32)
    requires
        h.wf(),
        outgoing::elapsed(now, h.bandwidth_throttle_epoch) >= BANDWIDTH_THROTTLE_INTERVAL_MS,
        tells(h),
        service::connected_count(h.peers) > 0,
    ensures
        ({
            let share = (h.outgoing_bandwidth as int / service::connected_count(h.peers)) as u32;
            let g = shared(h, share, now);
            h.bandwidth_throttle(now) == g.notify_first(
                g.peers.len(),
                BandwidthLimitCmd {
                    incoming_bandwidth: h.incoming_bandwidth,
                    outgoing_bandwidth: share,
                },
                now,
            )
        }),
{
    lemma_count_bound(h.peers);
    lemma_share(h.outgoing_bandwidth, service::connected_count(h.peers));
}

/// Nothing is sent where there is nothing to tell.
proof fn lemma_silent(h: HostView, now: u32)
    requires
        h.wf(),
        outgoing::elapsed(now, h.bandwidth_throttle_epoch) >= BANDWIDTH_THROTTLE_INTERVAL_MS,
        !tells(h),
    ensures
        h.bandwidth_throttle(now).1 == Seq::<ActionView>::empty(),
{
    lemma_count_bound(h.peers);
    if service::connected_count(h.peers) > 0 {
        lemma_share(h.outgoing_bandwidth, service::connected_count(h.peers));
    }
}

/// A share is at least one where there is enough for all.
proof fn lemma_share(ob: u32, n: int)
    requires
        0 < n,
    ensures
        0 <= ob as int / n <= ob,
        ob as int / n > 0 <==> ob >= n,
{
    assert(0 <= ob as int / n <= ob && (ob as int / n > 0 <==> ob >= n)) by (nonlinear_arith)
        requires
            n > 0,
            ob >= 0,
    ;
}

proof fn lemma_sent_alike(p: PeerView, q: PeerView, ck: bool, bl: BandwidthLimitCmd, now: u32)
    requires
        q == (PeerView { window_size: q.window_size, ..p }),
    ensures
        limit_sent(p, ck, bl, now) == limit_sent(q, ck, bl, now),
{
    assert(limit_command(p, bl) == limit_command(q, bl));
}

proof fn lemma_none_connected(peers: Seq<Option<PeerView>>)
    requires
        service::connected_count(peers) == 0,
    ensures
        forall|i: int| 0 <= i < peers.len() ==> !service::connected(#[trigger] peers[i]),
    decreases peers.len(),
{
    if peers.len() > 0 {
        lemma_count_bound(peers.drop_last());
        lemma_none_connected(peers.drop_last());
        assert forall|i: int| 0 <= i < peers.len() implies !service::connected(
            #[trigger] peers[i],
        ) by {
            if i < peers.len() - 1 {
                assert(!service::connected(peers.drop_last()[i]));
            }
        }
    }
}

proof fn lemma_same_count(a: Seq<Option<PeerView>>, b: Seq<Option<PeerView>>)
    requires
        a.len() == b.len(),
        forall|i: int|
            0 <= i < a.len() ==> service::connected(#[trigger] a[i]) == service::connected(b[i]),
    ensures
        service::connected_count(a) == service::connected_count(b),
    decreases a.len(),
{
    if a.len() > 0 {
        assert forall|i: int| 0 <= i < a.len() - 1 implies service::connected(
            #[trigger] a.drop_last()[i],
        ) == service::connected(b.drop_last()[i]) by {
            assert(service::connected(a[i]) == service::connected(b[i]));
        }
        lemma_same_count(a.drop_last(), b.drop_last());
        assert(service::connected(a[a.len() - 1]) == service::connected(b[a.len() - 1]));
    }
}

/// Law: a bandwidth limit that a peer is told is a command of the connection
/// under its next number, in flight until it is acknowledged, with the very
/// bytes that were sent.
pub proof fn lemma_limit_in_flight(p: PeerView, ck: bool, bl: BandwidthLimitCmd, now: u32)
    ensures
        ({
            let (q, out) = p.notify(ck, bl, now);
            let next = ((p.outgoing_reliable_seq + 1) % 65536) as u16;
            let bytes = command::command_bytes(
                command::CommandView {
                    header: CommandHeader { command: 0x8A, channel_id: 255, reliable_seq: next },
                    body: command::BodyView::BandwidthLimit(bl),
                },
            );
            &&& out == seq![
                ActionView::SendTo { addr: p.addr, datagram: p.datagram(ck, seq![bytes], now) },
            ]
            &&& q.outgoing == outgoing::insert(p.outgoing, p.outstanding(255, next, bytes, now))
            &&& q == (PeerView {
                outgoing: q.outgoing,
                outgoing_reliable_seq: next,
                last_send_time: now,
                ..p
            })
        }),
{
    lemma_notified(p, ck, bl, now);
    reveal(channel::encoded);
    assert(10u8 | 0x80u8 == 0x8Au8) by (bit_vector);
    let c = limit_command(p, bl);
    assert(transport::bytes_of(seq![c]) =~= seq![command::command_bytes(c)]);
}

} // verus!
