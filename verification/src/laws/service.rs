//! What the periodic service does for every peer, in numbers.

use vstd::prelude::*;

use crate::address::{Address, PeerKey};
use crate::channel;
use crate::laws::layout;
use crate::laws::teardown;
use crate::outgoing;
use crate::outgoing::OutView;
use crate::packet::{PacketView, SendMode};
use crate::peer::emit;
use crate::peer::send;
use crate::peer::service;
use crate::peer::{ActionView, CloseReason, PeerState, PeerView};
use crate::protocol::command;
use crate::protocol::BandwidthLimitCmd;
use crate::task::service as host_service;
use crate::task::HostView;

verus! {

/// How many milliseconds passed on a 32-bit clock.
pub open spec fn passed(now: u32, then: u32) -> int {
    if then <= now {
        now - then
    } else {
        now - then + 4_294_967_296
    }
}

/// No acknowledgement came within the timeout of a command.
pub open spec fn overdue(v: OutView, now: u32) -> bool {
    passed(now, v.sent_time) >= v.rtt_timeout
}

/// A command waited too long: 30 seconds, or five after six attempts.
pub open spec fn hopeless(v: OutView, now: u32) -> bool {
    let age = passed(now, v.original_sent_time);
    age >= 30_000 || (v.send_attempts >= 6 && age >= 5_000)
}

/// A peer is given up on.
pub open spec fn lost(p: PeerView, now: u32) -> bool {
    exists|j: int|
        0 <= j < p.outgoing.len() && overdue(#[trigger] p.outgoing[j], now) && hopeless(
            p.outgoing[j],
            now,
        )
}

/// A datagram has a byte string in it.
pub open spec fn carries(d: Seq<u8>, b: Seq<u8>) -> bool {
    exists|x: int| 0 <= x && x + b.len() <= d.len() && #[trigger] d.subrange(x, x + b.len()) == b
}

/// A datagram with a byte string in it goes to a peer.
pub open spec fn sent_to(out: Seq<ActionView>, p: PeerView, b: Seq<u8>) -> bool {
    exists|k: int|
        0 <= k < out.len() && ((#[trigger] out[k]) matches ActionView::SendTo { addr, datagram }
            && addr == p.addr && carries(datagram, b))
}

/// One list of actions is a part of another.
pub open spec fn part_of(some: Seq<ActionView>, all: Seq<ActionView>) -> bool {
    exists|x: int|
        0 <= x && x + some.len() <= all.len() && #[trigger] all.subrange(x, x + some.len()) == some
}

/// The same peer, but for what sharing out the bandwidth does: another window,
/// and one more command in flight.
pub open spec fn but_for_bandwidth(p: PeerView, q: PeerView) -> bool {
    q == (PeerView {
        window_size: q.window_size,
        outgoing: q.outgoing,
        outgoing_reliable_seq: q.outgoing_reliable_seq,
        last_send_time: q.last_send_time,
        ..p
    })
}

/// Law: the clocks agree.
pub proof fn lemma_lost(p: PeerView, now: u32)
    ensures
        p.times_out(now) <==> lost(p, now),
        forall|j: int|
            0 <= j < p.outgoing.len() ==> ((#[trigger] p.outgoing[j]).due(now) <==> overdue(
                p.outgoing[j],
                now,
            )),
{
    assert forall|j: int| 0 <= j < p.outgoing.len() implies (#[trigger] p.outgoing[j]).expired(now)
        == hopeless(p.outgoing[j], now) by {}
    if lost(p, now) {
        let j = choose|j: int|
            0 <= j < p.outgoing.len() && overdue(#[trigger] p.outgoing[j], now) && hopeless(
                p.outgoing[j],
                now,
            );
        assert(p.outgoing[j].due(now) && p.outgoing[j].expired(now));
    }
}

proof fn lemma_part_of_sum(a: Seq<ActionView>, b: Seq<ActionView>, some: Seq<ActionView>)
    requires
        part_of(some, a) || part_of(some, b),
    ensures
        part_of(some, a + b),
{
    let n = some.len() as int;
    let all = a + b;
    if part_of(some, a) {
        let x = choose|x: int|
            0 <= x && x + n <= a.len() && #[trigger] a.subrange(x, x + n) == some;
        assert(all.subrange(x, x + n) =~= a.subrange(x, x + n));
    } else {
        let x = choose|x: int|
            0 <= x && x + n <= b.len() && #[trigger] b.subrange(x, x + n) == some;
        let y = a.len() + x;
        assert(all.subrange(y, y + n) =~= b.subrange(x, x + n));
    }
}

/// The services of the first `n` slots.
proof fn lemma_first_serviced(h: HostView, n: nat, now: u32, i: int)
    requires
        n <= h.peers.len() <= usize::MAX,
        0 <= i < h.peers.len(),
    ensures
        ({
            let (g, out) = h.service_first(n, now);
            &&& g.peers.len() == h.peers.len()
            &&& g.use_checksum == h.use_checksum
            &&& g.incoming_bandwidth == h.incoming_bandwidth
            &&& g.outgoing_bandwidth == h.outgoing_bandwidth
            &&& g.bandwidth_throttle_epoch == h.bandwidth_throttle_epoch
            &&& i >= n ==> g.peers[i] == h.peers[i]
            &&& h.peers[i] is None ==> g.peers[i] is None
            &&& i < n && h.peers[i] is Some ==> {
                let p = h.peers[i]->0;
                if p.times_out(now) {
                    &&& g.peers[i] is None
                    &&& part_of(
                        seq![
                            ActionView::Closed {
                                key: PeerKey(i as usize),
                                reason: CloseReason::TimedOut,
                            },
                        ],
                        out,
                    )
                } else {
                    &&& g.peers[i] == Some(p.service(h.use_checksum, now).0)
                    &&& part_of(p.service(h.use_checksum, now).1, out)
                }
            }
        }),
    decreases n,
{
    if n > 0 {
        let m = (n - 1) as nat;
        lemma_first_serviced(h, m, now, i);
        let (g, out) = h.service_first(m, now);
        let key = PeerKey(m as usize);
        lemma_slot_untouched(h, m, now, m as int);
        let (k, more) = g.service_one(key, now);
        if h.peers[i] is Some && i < n {
            let p = h.peers[i]->0;
            let some = if p.times_out(now) {
                seq![
                    ActionView::Closed { key: PeerKey(i as usize), reason: CloseReason::TimedOut },
                ]
            } else {
                p.service(h.use_checksum, now).1
            };
            if i == m {
                assert(more == some);
                assert(more.subrange(0, 0int + more.len()) =~= more);
            }
            lemma_part_of_sum(out, more, some);
        }
    }
}

proof fn lemma_slot_untouched(h: HostView, n: nat, now: u32, i: int)
    requires
        n <= i < h.peers.len() <= usize::MAX,
    ensures
        h.service_first(n, now).0.peers.len() == h.peers.len(),
        h.service_first(n, now).0.peers[i] == h.peers[i],
        h.service_first(n, now).0.use_checksum == h.use_checksum,
    decreases n,
{
    if n > 0 {
        lemma_slot_untouched(h, (n - 1) as nat, now, i);
    }
}

proof fn lemma_windows(h: HostView, w: u32)
    ensures
        h.with_windows(w).peers.len() == h.peers.len(),
        forall|i: int| 0 <= i < h.peers.len() ==> #[trigger] h.with_windows(w).peers[i]
            == host_service::with_window(h.peers[i], w),
{
}

/// Sharing out the bandwidth leaves every slot its peer.
proof fn lemma_bandwidth_keeps(h: HostView, now: u32, i: int)
    requires
        0 <= i < h.peers.len() <= usize::MAX,
    ensures
        ({
            let g = h.bandwidth_throttle(now).0;
            &&& g.peers.len() == h.peers.len()
            &&& g.peers[i] is Some <==> h.peers[i] is Some
            &&& h.peers[i] is Some ==> but_for_bandwidth(h.peers[i]->0, g.peers[i]->0)
            &&& h.peers[i] is Some ==> g.peers[i]->0.last_send_time == h.peers[i]->0.last_send_time
                || g.peers[i]->0.last_send_time == now
        }),
{
    let e = HostView { bandwidth_throttle_epoch: now, ..h };
    let n = (host_service::connected_count(h.peers) % 0x1_0000_0000) as u32;
    let share = if h.outgoing_bandwidth > 0 {
        h.outgoing_bandwidth / n
    } else {
        0
    };
    let w = crate::task::connect::least(share, 65536);
    let f = if h.outgoing_bandwidth > 0 {
        e.with_windows(w)
    } else {
        e
    };
    let bl = BandwidthLimitCmd {
        incoming_bandwidth: h.incoming_bandwidth,
        outgoing_bandwidth: share,
    };
    lemma_windows(e, w);
    assert(f.peers.len() == h.peers.len());
    lemma_notify_keeps(f, f.peers.len(), bl, now, i);
}

proof fn lemma_notify_keeps(h: HostView, n: nat, bl: BandwidthLimitCmd, now: u32, i: int)
    requires
        n <= h.peers.len() <= usize::MAX,
        0 <= i < h.peers.len(),
    ensures
        ({
            let g = h.notify_first(n, bl, now).0;
            &&& g.peers.len() == h.peers.len()
            &&& g.use_checksum == h.use_checksum
            &&& g.peers[i] is Some <==> h.peers[i] is Some
            &&& h.peers[i] is Some ==> but_for_bandwidth(h.peers[i]->0, g.peers[i]->0)
            &&& h.peers[i] is Some ==> g.peers[i]->0.last_send_time == h.peers[i]->0.last_send_time
                || g.peers[i]->0.last_send_time == now
        }),
    decreases n,
{
    if n > 0 {
        lemma_notify_keeps(h, (n - 1) as nat, bl, now, i);
    }
}

/// Law: a service of all peers is a service of each of them, whatever its slot.
/// A peer with a command that is overdue and hopeless is gone, and its user is
/// told that it timed out. Every other peer is afterwards what a service of it
/// alone makes of it, but for the bandwidth that was shared out, and all that
/// its service does is done. Free slots stay free.
pub proof fn lemma_everyone_serviced(h: HostView, now: u32, i: int)
    requires
        h.peers.len() <= 4095,
        0 <= i < h.peers.len(),
    ensures
        ({
            let (g, out) = h.service_all(now);
            &&& g.peers.len() == h.peers.len()
            &&& h.peers[i] is None ==> g.peers[i] is None
            &&& h.peers[i] is Some ==> {
                let p = h.peers[i]->0;
                if lost(p, now) {
                    &&& g.peers[i] is None
                    &&& out.contains(
                        ActionView::Closed {
                            key: PeerKey(i as usize),
                            reason: CloseReason::TimedOut,
                        },
                    )
                } else {
                    let (q, done) = p.service(h.use_checksum, now);
                    &&& g.peers[i] is Some
                    &&& but_for_bandwidth(q, g.peers[i]->0)
                    &&& g.peers[i]->0.last_send_time == q.last_send_time
                        || g.peers[i]->0.last_send_time == now
                    &&& part_of(done, out)
                }
            }
        }),
{
    let n = h.peers.len();
    lemma_first_serviced(h, n, now, i);
    let (f, first) = h.service_first(n, now);
    lemma_bandwidth_keeps(f, now, i);
    let more = f.bandwidth_throttle(now).1;
    if h.peers[i] is Some {
        let p = h.peers[i]->0;
        lemma_lost(p, now);
        let closed = ActionView::Closed {
            key: PeerKey(i as usize),
            reason: CloseReason::TimedOut,
        };
        if lost(p, now) {
            lemma_part_of_sum(first, more, seq![closed]);
            let all = first + more;
            let x = choose|x: int|
                0 <= x && x + 1 <= all.len() && #[trigger] all.subrange(x, x + 1) == seq![closed];
            assert(all[x] == all.subrange(x, x + 1)[0]);
        } else {
            lemma_part_of_sum(first, more, p.service(h.use_checksum, now).1);
        }
    }
}

/// A command is in the datagram that its group is put into.
proof fn lemma_concat_carries(cmds: Seq<Seq<u8>>, k: int) -> (x: int)
    requires
        0 <= k < cmds.len(),
    ensures
        0 <= x,
        x + cmds[k].len() <= emit::concat(cmds).len(),
        emit::concat(cmds).subrange(x, x + cmds[k].len()) == cmds[k],
    decreases cmds.len(),
{
    let front = emit::concat(cmds.drop_last());
    let all = emit::concat(cmds);
    if k == cmds.len() - 1 {
        let x = front.len() as int;
        assert(all.subrange(x, x + cmds[k].len()) =~= cmds[k]);
        x
    } else {
        let x = lemma_concat_carries(cmds.drop_last(), k);
        assert(all.subrange(x, x + cmds[k].len()) =~= front.subrange(x, x + cmds[k].len()));
        x
    }
}

/// Every command is in some group.
proof fn lemma_in_a_batch(cmds: Seq<Seq<u8>>, room: int, k: int) -> (i: int)
    requires
        0 <= k < cmds.len(),
    ensures
        0 <= i < emit::batches(cmds, room).len(),
        emit::batches(cmds, room)[i].contains(cmds[k]),
    decreases cmds.len(),
{
    let before = emit::batches(cmds.drop_last(), room);
    let after = emit::batches(cmds, room);
    if k == cmds.len() - 1 {
        let i = after.len() - 1;
        let b = after[i];
        assert(b[b.len() - 1] == cmds[k]);
        i
    } else {
        let i = lemma_in_a_batch(cmds.drop_last(), room, k);
        let j = choose|j: int| 0 <= j < before[i].len() && before[i][j] == cmds[k];
        assert(after[i][j] == cmds[k]);
        i
    }
}

/// Law: every command that is sent to a peer is in a datagram to the peer's
/// address.
pub proof fn lemma_flushed_carries(
    p: PeerView,
    ck: bool,
    cmds: Seq<Seq<u8>>,
    now: u32,
    k: int,
)
    requires
        0 <= k < cmds.len(),
    ensures
        sent_to(p.flushed(ck, cmds, now), p, cmds[k]),
{
    let room = p.room(ck);
    let groups = emit::batches(cmds, room);
    let i = lemma_in_a_batch(cmds, room, k);
    let b = groups[i];
    let j = choose|j: int| 0 <= j < b.len() && b[j] == cmds[k];
    let x = lemma_concat_carries(b, j);
    let d = p.datagram(ck, b, now);
    layout::lemma_datagram_layout(p, ck, b, now);
    let o = if ck {
        8int
    } else {
        4
    };
    let n = cmds[k].len() as int;
    assert(d.subrange(o + x, o + x + n) =~= d.skip(o).subrange(x, x + n));
    assert(carries(d, cmds[k]));
    let out = p.flushed(ck, cmds, now);
    assert(out[i] == (ActionView::SendTo { addr: p.addr, datagram: d }));
}

proof fn lemma_sent_part(
    some: Seq<ActionView>,
    all: Seq<ActionView>,
    p: PeerView,
    b: Seq<u8>,
)
    requires
        part_of(some, all),
        sent_to(some, p, b),
    ensures
        sent_to(all, p, b),
{
    let n = some.len() as int;
    let x = choose|x: int|
        0 <= x && x + n <= all.len() && #[trigger] all.subrange(x, x + n) == some;
    let k = choose|k: int|
        0 <= k < some.len() && ((#[trigger] some[k]) matches ActionView::SendTo { addr, datagram }
            && addr == p.addr && carries(datagram, b));
    assert(all[x + k] == all.subrange(x, x + n)[k]);
}

proof fn lemma_due_index(s: Seq<OutView>, now: u32, j: int) -> (k: int)
    requires
        0 <= j < s.len(),
        s[j].due(now),
    ensures
        0 <= k < service::due_commands(s, now).len(),
        service::due_commands(s, now)[k] == s[j].packet_bytes,
    decreases s.len(),
{
    if j == s.len() - 1 {
        service::due_commands(s.drop_last(), now).len() as int
    } else {
        lemma_due_index(s.drop_last(), now, j)
    }
}

/// Law: a command that is overdue goes out again in the next service, to the
/// peer that it is for, whatever the slot and whatever else is in flight,
/// unless the peer is given up on.
pub proof fn lemma_overdue_sent_again(h: HostView, now: u32, i: int, j: int)
    requires
        h.peers.len() <= 4095,
        0 <= i < h.peers.len(),
        h.peers[i] is Some,
        !lost(h.peers[i]->0, now),
        0 <= j < h.peers[i]->0.outgoing.len(),
        overdue(h.peers[i]->0.outgoing[j], now),
    ensures
        sent_to(
            h.service_all(now).1,
            h.peers[i]->0,
            h.peers[i]->0.outgoing[j].packet_bytes,
        ),
{
    let p = h.peers[i]->0;
    let ck = h.use_checksum;
    let b = p.outgoing[j].packet_bytes;
    lemma_everyone_serviced(h, now, i);
    lemma_lost(p, now);
    let again = PeerView { outgoing: service::serviced(p.outgoing, now), ..p };
    let cmds = service::due_commands(p.outgoing, now);
    let k = lemma_due_index(p.outgoing, now, j);
    lemma_flushed_carries(again, ck, cmds, now, k);
    let sent = p.retransmit(ck, now).1;
    let done = p.service(ck, now).1;
    assert(sent_to(sent, p, b)) by {
        let x = choose|x: int|
            0 <= x < sent.len() && ((#[trigger] sent[x]) matches ActionView::SendTo {
                addr,
                datagram,
            } && addr == again.addr && carries(datagram, b));
        assert(sent[x] is SendTo);
    }
    assert(done.subrange(0, 0int + sent.len()) =~= sent);
    lemma_sent_part(sent, done, p, b);
    lemma_sent_part(done, h.service_all(now).1, p, b);
}

/// Law: a command that is sent again waits twice as long for the next time and
/// counts one more attempt. One that is not overdue waits on as it is.
pub proof fn lemma_attempts(p: PeerView, ck: bool, now: u32, j: int)
    requires
        0 <= j < p.outgoing.len(),
        p.outgoing[j].rtt_timeout <= 2_147_483_647,
        p.outgoing[j].send_attempts < 4_294_967_295,
    ensures
        ({
            let v = p.outgoing[j];
            let (q, out) = p.retransmit(ck, now);
            let w = q.outgoing[j];
            &&& q.outgoing.len() == p.outgoing.len()
            &&& w.reliable_seq == v.reliable_seq
            &&& w.channel_id == v.channel_id
            &&& w.packet_bytes == v.packet_bytes
            &&& w.original_sent_time == v.original_sent_time
            &&& if overdue(v, now) {
                &&& w.sent_time == now
                &&& w.rtt_timeout == 2 * v.rtt_timeout
                &&& w.send_attempts == v.send_attempts + 1
            } else {
                w == v
            }
            &&& q == (PeerView { outgoing: q.outgoing, last_send_time: q.last_send_time, ..p })
        }),
{
    lemma_lost(p, now);
}

/// Law: nothing is sent again before its time.
pub proof fn lemma_nothing_overdue(p: PeerView, ck: bool, now: u32)
    requires
        forall|j: int| 0 <= j < p.outgoing.len() ==> !overdue(#[trigger] p.outgoing[j], now),
    ensures
        p.retransmit(ck, now) == (p, Seq::<ActionView>::empty()),
{
    lemma_lost(p, now);
    lemma_no_due(p.outgoing, now);
    assert(service::serviced(p.outgoing, now) =~= p.outgoing);
    send::lemma_none(p, ck, now);
}

proof fn lemma_no_due(s: Seq<OutView>, now: u32)
    requires
        forall|j: int| 0 <= j < s.len() ==> !(#[trigger] s[j]).due(now),
    ensures
        service::due_commands(s, now) == Seq::<Seq<u8>>::empty(),
    decreases s.len(),
{
    if s.len() > 0 {
        let t = s.drop_last();
        assert forall|j: int| 0 <= j < t.len() implies !(#[trigger] t[j]).due(now) by {
            assert(t[j] == s[j]);
        }
        assert(!s[s.len() - 1].due(now));
        lemma_no_due(t, now);
    }
}

/// Law: a connected peer to which nothing is due and for which nothing waits
/// is sent a ping if and only if nothing was sent to it for half a second: one
/// datagram with one command of the connection, under the next number, which
/// asks for an acknowledgement. It is not sent again.
pub proof fn lemma_idle(p: PeerView, ck: bool, now: u32)
    requires
        p.state == PeerState::Connected,
        p.pending.len() == 0,
        forall|j: int| 0 <= j < p.outgoing.len() ==> !overdue(#[trigger] p.outgoing[j], now),
    ensures
        ({
            let (q, out) = p.service(ck, now);
            if passed(now, p.last_send_time) < 500 {
                q == p && out == Seq::<ActionView>::empty()
            } else {
                let o = if ck {
                    8int
                } else {
                    4
                };
                let d = out[0]->datagram;
                &&& out.len() == 1
                &&& out[0] == (ActionView::SendTo { addr: p.addr, datagram: d })
                &&& d.len() == o + 4
                &&& d[o] == 0x85
                &&& d[o + 1] == 255
                &&& layout::num16(d, o + 2) == (p.outgoing_reliable_seq + 1) % 65536
                &&& q == (PeerView {
                    last_send_time: now,
                    outgoing_reliable_seq: ((p.outgoing_reliable_seq + 1) % 65536) as u16,
                    ..p
                })
            }
        }),
{
    lemma_nothing_overdue(p, ck, now);
    lemma_ping(p, ck, now);
    let none = Seq::<ActionView>::empty();
    assert(p.pending =~= Seq::empty());
    let (b, pinged) = p.ping(ck, now);
    lemma_only_pinged(p, b, pinged, ck, now);
}

/// A service that does nothing but ping.
proof fn lemma_only_pinged(
    p: PeerView,
    b: PeerView,
    pinged: Seq<ActionView>,
    ck: bool,
    now: u32,
)
    requires
        p.retransmit(ck, now) == (p, Seq::<ActionView>::empty()),
        p.ping(ck, now) == (b, pinged),
        b.state == PeerState::Connected,
        b.pending == Seq::<PacketView>::empty(),
    ensures
        p.service(ck, now) == (b, pinged),
{
    let none = Seq::<ActionView>::empty();
    assert(PeerView { pending: Seq::empty(), ..b } == b);
    assert(b.transmit_all(ck, Seq::empty(), now) == (b, none));
    assert(b.send_pending(ck, now) == (b, none));
    assert(b.disconnect_later(ck, now) == (b, none));
    assert(none + pinged + none + none =~= pinged);
}

/// A ping.
proof fn lemma_ping(p: PeerView, ck: bool, now: u32)
    requires
        p.state == PeerState::Connected,
    ensures
        ({
            let (q, out) = p.ping(ck, now);
            if passed(now, p.last_send_time) < 500 {
                q == p && out == Seq::<ActionView>::empty()
            } else {
                let o = if ck {
                    8int
                } else {
                    4
                };
                let d = out[0]->datagram;
                &&& out.len() == 1
                &&& out[0] == (ActionView::SendTo { addr: p.addr, datagram: d })
                &&& d.len() == o + 4
                &&& d[o] == 0x85
                &&& d[o + 1] == 255
                &&& layout::num16(d, o + 2) == (p.outgoing_reliable_seq + 1) % 65536
                &&& q == (PeerView {
                    last_send_time: now,
                    outgoing_reliable_seq: ((p.outgoing_reliable_seq + 1) % 65536) as u16,
                    ..p
                })
            }
        }),
{
    if passed(now, p.last_send_time) >= 500 {
        let c = channel::command_of(
            5,
            0x80,
            255,
            p.next_seq(255),
            command::BodyView::Ping,
        );
        let bytes = command::command_bytes(c);
        let r = p.bump_seq(255);
        assert(p.reliable_command(255, 5, command::BodyView::Ping) == bytes) by {
            reveal(channel::encoded);
        }
        assert(5u8 | 0x80u8 == 0x85u8) by (bit_vector);
        send::lemma_single(r, ck, bytes, now);
        layout::lemma_datagram_layout(r, ck, seq![bytes], now);
        layout::lemma_concat(Seq::empty(), Seq::empty(), bytes);
        layout::lemma_command_head(c);
        let g = r.datagram(ck, seq![bytes], now);
        let o = if ck {
            8int
        } else {
            4
        };
        assert(bytes.len() == 4);
        let t = g.skip(o);
        assert(t[0] == g[o] && t[1] == g[o + 1] && t[2] == g[o + 2] && t[3] == g[o + 3]);
    }
}

/// Law: after a service of all peers, something was sent to each connected one
/// within the last half second, whatever its slot, unless it was given up on.
pub proof fn lemma_all_kept_alive(h: HostView, now: u32, i: int)
    requires
        h.peers.len() <= 4095,
        0 <= i < h.peers.len(),
        h.peers[i] is Some,
        h.peers[i]->0.state == PeerState::Connected,
        !lost(h.peers[i]->0, now),
    ensures
        h.service_all(now).0.peers[i] is Some,
        passed(now, h.service_all(now).0.peers[i]->0.last_send_time) < 500,
{
    let p = h.peers[i]->0;
    lemma_everyone_serviced(h, now, i);
    teardown::lemma_keep_alive(p, h.use_checksum, now);
    lemma_passed(now, p.service(h.use_checksum, now).0.last_send_time);
}

proof fn lemma_passed(now: u32, then: u32)
    ensures
        passed(now, then) == outgoing::elapsed(now, then),
{
}

proof fn lemma_transmit_first(p: PeerView, ck: bool, packets: Seq<PacketView>, now: u32)
    requires
        packets.len() > 0,
    ensures
        part_of(p.transmit(ck, packets[0], now).1, p.transmit_all(ck, packets, now).1),
    decreases packets.len(),
{
    let front = packets.drop_last();
    let first = p.transmit(ck, packets[0], now).1;
    let (q, out) = p.transmit_all(ck, front, now);
    let more = q.transmit(ck, packets.last(), now).1;
    if front.len() == 0 {
        assert(packets.last() == packets[0]);
        assert(p.transmit_all(ck, front, now) == (p, Seq::<ActionView>::empty()));
        assert(more == first);
        assert(more.subrange(0, 0int + more.len()) =~= more);
        assert(part_of(first, more));
    } else {
        assert(front[0] == packets[0]);
        lemma_transmit_first(p, ck, front, now);
    }
    lemma_part_of_sum(out, more, first);
}

proof fn lemma_carries_part(d: Seq<u8>, b: Seq<u8>, c: Seq<u8>)
    requires
        carries(d, b),
        carries(b, c),
    ensures
        carries(d, c),
{
    let x = choose|x: int|
        0 <= x && x + b.len() <= d.len() && #[trigger] d.subrange(x, x + b.len()) == b;
    let y = choose|y: int|
        0 <= y && y + c.len() <= b.len() && #[trigger] b.subrange(y, y + c.len()) == c;
    let z = x + y;
    assert(d.subrange(z, z + c.len()) =~= b.subrange(y, y + c.len()));
}

/// Law: what was held back is sent. Where nothing is in flight any more, the
/// packet that waits longest goes out in the next service of a connected peer,
/// or of one that waits to disconnect, as it was given by the user.
pub proof fn lemma_held_back_sent(p: PeerView, ck: bool, now: u32)
    requires
        p.state == PeerState::Connected || p.state is DisconnectLater,
        p.outgoing.len() == 0,
        p.pending.len() > 0,
        p.pending[0].mode == SendMode::Reliable,
        p.pending[0].channel < p.channels.len() <= 255,
        p.pending[0].data.len() + 10 + (if ck {
            4int
        } else {
            0
        }) <= p.mtu,
    ensures
        sent_to(p.service(ck, now).1, p, p.pending[0].data),
{
    let pkt = p.pending[0];
    let (a, out_a) = p.retransmit(ck, now);
    let (b, out_b) = a.ping(ck, now);
    let (c, out_c) = b.disconnect_later(ck, now);
    let d = PeerView { pending: Seq::empty(), ..c };
    assert(service::serviced(p.outgoing, now) =~= p.outgoing);
    assert(c == b);
    assert(c.pending == p.pending);
    assert(c.outgoing =~= Seq::empty());
    assert(send::oldest(d.outgoing, pkt.channel) is None);
    assert(send::in_transit(d.outgoing) == 0);
    assert(!d.waits(pkt.channel));
    assert(!d.holds_back(ck, pkt));
    let (r, cmds) = d.transmit_plan(ck, pkt, now);
    let body = command::BodyView::SendReliable(pkt.data);
    let cmd = d.reliable_command(pkt.channel, 6, body);
    assert(cmds == seq![cmd]);
    lemma_flushed_carries(r, ck, cmds, now, 0);
    lemma_data_carried(d, pkt.channel, pkt.data);
    let first = d.transmit(ck, pkt, now).1;
    assert(r.addr == p.addr);
    assert(sent_to(first, p, pkt.data)) by {
        let k = choose|k: int|
            0 <= k < first.len() && ((#[trigger] first[k]) matches ActionView::SendTo {
                addr,
                datagram,
            } && addr == r.addr && carries(datagram, cmd));
        lemma_carries_part(first[k]->datagram, cmd, pkt.data);
    }
    lemma_transmit_first(d, ck, c.pending, now);
    let held = d.transmit_all(ck, c.pending, now).1;
    lemma_part_of_sum(out_a + out_b + out_c, held, first);
    lemma_sent_part(first, p.service(ck, now).1, p, pkt.data);
}

proof fn lemma_data_carried(d: PeerView, ch: u8, data: Seq<u8>)
    ensures
        carries(d.reliable_command(ch, 6, command::BodyView::SendReliable(data)), data),
{
    reveal(channel::encoded);
    let cmd = d.reliable_command(ch, 6, command::BodyView::SendReliable(data));
    let x = cmd.len() - data.len();
    assert(cmd.subrange(x, x + data.len()) =~= data);
}

/// Law: only a connected peer is pinged. A peer of another state with nothing
/// overdue and nothing held back is left alone by a service, unless it waits to
/// disconnect and nothing is in flight.
pub proof fn lemma_left_alone(p: PeerView, ck: bool, now: u32)
    requires
        p.state != PeerState::Connected,
        p.pending.len() == 0,
        p.state is DisconnectLater ==> p.outgoing.len() > 0,
        forall|j: int| 0 <= j < p.outgoing.len() ==> !overdue(#[trigger] p.outgoing[j], now),
    ensures
        p.service(ck, now) == (p, Seq::<ActionView>::empty()),
{
    lemma_nothing_overdue(p, ck, now);
    let none = Seq::<ActionView>::empty();
    assert(p.pending =~= Seq::empty());
    assert(p.ping(ck, now) == (p, none));
    assert(p.disconnect_later(ck, now) == (p, none));
    assert(PeerView { pending: Seq::empty(), ..p } == p);
    assert(p.send_pending(ck, now) == (p, none));
    assert(none + none + none + none =~= none);
}

/// An address of a peer that is given up on.
pub open spec fn lost_address(h: HostView, a: Address, now: u32) -> bool {
    exists|i: int|
        0 <= i < h.peers.len() && ((#[trigger] h.peers[i]) matches Some(p) && p.addr == a && lost(
            p,
            now,
        ))
}

/// The host after the services, before the bandwidth is shared out: peers that
/// are given up on are gone and their addresses unknown, and each other one was
/// serviced.
pub open spec fn after_services(h: HostView, k: HostView, now: u32) -> bool {
    &&& k.peers.len() == h.peers.len()
    &&& k == (HostView { peers: k.peers, addr_map: k.addr_map, ..h })
    &&& forall|a: Address| #[trigger]
        k.addr_map.contains_key(a) <==> h.addr_map.contains_key(a) && !lost_address(h, a, now)
    &&& forall|a: Address| #[trigger]
        k.addr_map.contains_key(a) ==> k.addr_map[a] == h.addr_map[a]
    &&& forall|i: int|
        0 <= i < h.peers.len() ==> #[trigger] k.peers[i] == match h.peers[i] {
            Some(p) => if lost(p, now) {
                None
            } else {
                Some(p.service(h.use_checksum, now).0)
            },
            None => None,
        }
}

/// Law: the bandwidth is shared out in the same service, behind the services of
/// the peers, among those that are then connected.
pub proof fn lemma_then_shared(h: HostView, now: u32) -> (k: HostView)
    requires
        h.peers.len() <= 4095,
    ensures
        after_services(h, k, now),
        h.service_all(now).0 == k.bandwidth_throttle(now).0,
        part_of(k.bandwidth_throttle(now).1, h.service_all(now).1),
{
    let n = h.peers.len();
    let (k, out) = h.service_first(n, now);
    assert forall|i: int| 0 <= i < h.peers.len() implies #[trigger] k.peers[i] == match h.peers[i] {
        Some(p) => if lost(p, now) {
            None
        } else {
            Some(p.service(h.use_checksum, now).0)
        },
        None => None,
    } by {
        lemma_first_serviced(h, n, now, i);
        if h.peers[i] is Some {
            lemma_lost(h.peers[i]->0, now);
        }
    }
    lemma_settings_kept(h, n, now);
    assert forall|a: Address| #[trigger]
        k.addr_map.contains_key(a) <==> h.addr_map.contains_key(a) && !lost_address(h, a, now) by {
        lemma_addresses(h, n, now, a);
    }
    assert forall|a: Address| #[trigger] k.addr_map.contains_key(a) implies k.addr_map[a]
        == h.addr_map[a] by {
        lemma_addresses(h, n, now, a);
    }
    let more = k.bandwidth_throttle(now).1;
    assert(more.subrange(0, 0int + more.len()) =~= more);
    lemma_part_of_sum(out, more, more);
    k
}

proof fn lemma_settings_kept(h: HostView, n: nat, now: u32)
    requires
        n <= h.peers.len() <= usize::MAX,
    ensures
        ({
            let g = h.service_first(n, now).0;
            &&& g.peers.len() == h.peers.len()
            &&& g == (HostView { peers: g.peers, addr_map: g.addr_map, ..h })
        }),
    decreases n,
{
    if n > 0 {
        lemma_settings_kept(h, (n - 1) as nat, now);
    }
}

proof fn lemma_addresses(h: HostView, n: nat, now: u32, a: Address)
    requires
        n <= h.peers.len() <= usize::MAX,
    ensures
        ({
            let g = h.service_first(n, now).0;
            &&& g.addr_map.contains_key(a) <==> h.addr_map.contains_key(a) && !(exists|i: int|
                0 <= i < n && ((#[trigger] h.peers[i]) matches Some(p) && p.addr == a && lost(
                    p,
                    now,
                )))
            &&& g.addr_map.contains_key(a) ==> g.addr_map[a] == h.addr_map[a]
        }),
    decreases n,
{
    if n > 0 {
        let m = (n - 1) as nat;
        lemma_addresses(h, m, now, a);
        lemma_slot_untouched(h, m, now, m as int);
        let g = h.service_first(m, now).0;
        let key = PeerKey(m as usize);
        let k = g.service_one(key, now).0;
        if h.peers[m as int] is Some {
            let p = h.peers[m as int]->0;
            lemma_lost(p, now);
            if lost(p, now) {
                assert(k.addr_map == g.addr_map.remove(p.addr));
            } else {
                assert(k.addr_map == g.addr_map);
            }
        } else {
            assert(k == g);
        }
        let some_before = exists|i: int|
            0 <= i < m && ((#[trigger] h.peers[i]) matches Some(p) && p.addr == a && lost(p, now));
        let some_now = exists|i: int|
            0 <= i < n && ((#[trigger] h.peers[i]) matches Some(p) && p.addr == a && lost(p, now));
        if some_now && !some_before {
            let i = choose|i: int|
                0 <= i < n && ((#[trigger] h.peers[i]) matches Some(p) && p.addr == a && lost(
                    p,
                    now,
                ));
            assert(i == m);
        }
    }
}

/// Law: a peer whose commands were sent at most 32 times, with timeouts of less
/// than half of the clock's range, can be serviced.
pub proof fn lemma_can_service(p: PeerView, now: u32)
    requires
        p.mtu <= 4096,
        forall|i: int|
            0 <= i < p.outgoing.len() ==> (#[trigger] p.outgoing[i]).send_attempts <= 32
                && p.outgoing[i].rtt_timeout <= 2_147_483_647,
    ensures
        p.serviceable(now),
{
}

/// Law: the commands that are sent again are those that are overdue, each once,
/// in their order, and no others.
pub proof fn lemma_due_commands(a: Seq<OutView>, b: Seq<OutView>, v: OutView, now: u32)
    ensures
        service::due_commands(Seq::empty(), now) == Seq::<Seq<u8>>::empty(),
        service::due_commands(seq![v], now) == if overdue(v, now) {
            seq![v.packet_bytes]
        } else {
            Seq::empty()
        },
        service::due_commands(a + b, now) == service::due_commands(a, now)
            + service::due_commands(b, now),
    decreases b.len(),
{
    assert(seq![v].drop_last() =~= Seq::empty());
    assert(service::due_commands(seq![v].drop_last(), now) =~= Seq::empty());
    assert(Seq::<Seq<u8>>::empty().push(v.packet_bytes) =~= seq![v.packet_bytes]);
    lemma_passed(now, v.sent_time);
    if b.len() == 0 {
        assert(a + b =~= a);
        assert(service::due_commands(a, now) + service::due_commands(b, now)
            =~= service::due_commands(a, now));
    } else {
        lemma_due_commands(a, b.drop_last(), v, now);
        assert((a + b).drop_last() =~= a + b.drop_last());
        assert((a + b).last() == b.last());
        assert(service::due_commands(a + b, now) =~= service::due_commands(a, now)
            + service::due_commands(b, now));
    }
}

/// Law: a service sends the overdue commands, all in datagrams to the peer, and
/// then a ping where one is due, a disconnect where one is, and what was held
/// back.
pub proof fn lemma_service_order(p: PeerView, ck: bool, now: u32)
    ensures
        ({
            let again = PeerView { outgoing: service::serviced(p.outgoing, now), ..p };
            let cmds = service::due_commands(p.outgoing, now);
            let (a, first) = p.retransmit(ck, now);
            let (b, second) = a.ping(ck, now);
            let (c, third) = b.disconnect_later(ck, now);
            let (d, fourth) = c.send_pending(ck, now);
            &&& first == again.flushed(ck, cmds, now)
            &&& a == (PeerView {
                last_send_time: if cmds.len() > 0 {
                    now
                } else {
                    p.last_send_time
                },
                ..again
            })
            &&& p.service(ck, now) == (d, first + second + third + fourth)
        }),
{
}

} // verus!
