//! What a peer does with each kind of command, in numbers.

use vstd::prelude::*;

use crate::address::PeerKey;
use crate::channel;
use crate::channel::unsequenced::UnsequencedView;
use crate::channel::ChannelView;
use crate::packet::{PacketView, SendMode};
use crate::peer::budget;
use crate::peer::{ActionView, PeerState, PeerView};
use crate::protocol::command;
use crate::protocol::sequence;
use crate::protocol::{BandwidthLimitCmd, ThrottleConfigureCmd, VerifyConnectCmd};

verus! {

/// How many steps of a 16-bit counter lead from `a` to `b`.
pub open spec fn steps(a: u16, b: u16) -> int {
    if a <= b {
        b - a
    } else {
        b - a + 65536
    }
}

/// Only the channel `ch` of a peer changed, and what was heard last.
pub open spec fn only_channel(p: PeerView, q: PeerView, ch: int) -> bool {
    &&& q.channels.len() == p.channels.len()
    &&& forall|i: int| 0 <= i < p.channels.len() && i != ch ==> #[trigger] q.channels[i]
        == p.channels[i]
    &&& q == (PeerView {
        channels: q.channels,
        fragment_bytes: q.fragment_bytes,
        last_receive_time: q.last_receive_time,
        ..p
    })
}

/// Only what a channel knows of unreliable messages changed.
pub open spec fn only_unreliable(c: ChannelView, d: ChannelView) -> bool {
    &&& d == (ChannelView {
        incoming_unreliable_seq: d.incoming_unreliable_seq,
        fragments: d.fragments,
        ..c
    })
    &&& forall|k: u32| k < 65536 ==> (#[trigger] d.fragments.contains_key(k)
        <==> c.fragments.contains_key(k))
    &&& forall|k: u32| k < 65536 && #[trigger] c.fragments.contains_key(k) ==> d.fragments[k]
        == c.fragments[k]
}

/// Of unreliable messages only those are still put together that come one to
/// 32767 steps after number `n`.
pub open spec fn only_later(c: ChannelView, d: ChannelView, n: u16) -> bool {
    forall|k: u16| #[trigger]
        d.fragments.contains_key((k + 65536) as u32) <==> c.fragments.contains_key(
            (k + 65536) as u32,
        ) && 1 <= steps(n, k) <= 32767
}

/// Law: an unreliable packet is handed to the user, at once and as it was sent,
/// if and only if its number is one to 32767 steps after the last one taken,
/// and the reliable number that it was sent after is not one to 32767 steps
/// before the last reliable one received. It does not matter whether reliable
/// packets that were sent before it are still missing. Messages in fragments
/// that are late then are given up. Otherwise nothing happens but that the peer
/// was heard.
pub proof fn lemma_unreliable_taken(
    q: PeerView,
    key: PeerKey,
    c: command::CommandView,
    n: u16,
    data: Seq<u8>,
    now: u32,
)
    requires
        c.body == command::BodyView::SendUnreliable(n, data),
        c.header.channel_id < q.channels.len(),
    ensures
        ({
            let ch = c.header.channel_id;
            let a = q.channels[ch as int];
            let new = 1 <= steps(a.incoming_unreliable_seq, n) <= 32767;
            let late = 1 <= steps(c.header.reliable_seq, a.incoming_reliable_seq) <= 32767;
            let (r, out) = q.on_data(key, c, now);
            &&& r.last_receive_time == now
            &&& only_channel(q, r, ch as int)
            &&& if new && !late {
                &&& out == seq![
                    ActionView::Deliver {
                        key,
                        packet: PacketView { data, channel: ch, mode: SendMode::Unreliable },
                    },
                ]
                &&& r.channels[ch as int].incoming_unreliable_seq == n
                &&& only_unreliable(a, r.channels[ch as int])
                &&& only_later(a, r.channels[ch as int], n)
            } else {
                &&& out == Seq::<ActionView>::empty()
                &&& r.channels == q.channels
                &&& r.fragment_bytes == q.fragment_bytes
            }
        }),
{
    let ch = c.header.channel_id;
    let (r, out) = q.on_data(key, c, now);
    let a = q.channels[ch as int];
    if q.takes_unreliable(ch, c.header.reliable_seq, n) {
        lemma_only_later(a, n);
        assert(out =~= seq![
            ActionView::Deliver {
                key,
                packet: PacketView { data, channel: ch, mode: SendMode::Unreliable },
            },
        ]);
    } else {
        assert(out =~= Seq::empty());
    }
}

/// What is left once an unreliable message was taken.
pub proof fn lemma_only_later(a: ChannelView, n: u16)
    requires
        1 <= steps(a.incoming_unreliable_seq, n) <= 32767,
    ensures
        only_later(a, a.take_unreliable(n), n),
{
    let d = a.take_unreliable(n);
    assert forall|k: u16| #[trigger]
        d.fragments.contains_key((k + 65536) as u32) <==> a.fragments.contains_key(
            (k + 65536) as u32,
        ) && 1 <= steps(n, k) <= 32767 by {
        channel::ordering::lemma_late_given_up(a, n, k);
    }
}

/// Law: an unsequenced packet is handed to the user, at once and without a
/// channel, if and only if its group is one to 32767 steps after the highest
/// one so far, or is one of the 1024 up to it and did not come yet. Afterwards
/// the highest group is the later one of the two, and of the 1024 groups up to
/// it those came that had come before, and this one.
pub proof fn lemma_unsequenced_taken(
    q: PeerView,
    key: PeerKey,
    c: command::CommandView,
    g: u16,
    data: Seq<u8>,
    now: u32,
)
    requires
        c.body == command::BodyView::SendUnsequenced(g, data),
    ensures
        ({
            let w = q.unsequenced;
            let ahead = 1 <= steps(w.group, g) <= 32767;
            let recent = steps(g, w.group) < 1024;
            let (r, out) = q.on_data(key, c, now);
            &&& r == (PeerView { unsequenced: r.unsequenced, last_receive_time: now, ..q })
            &&& out == if ahead || (recent && !w.seen.contains(g)) {
                seq![
                    ActionView::Deliver {
                        key,
                        packet: PacketView { data, channel: 0, mode: SendMode::Unsequenced },
                    },
                ]
            } else {
                Seq::empty()
            }
            &&& r.unsequenced.group == if ahead {
                g
            } else {
                w.group
            }
            &&& forall|x: u16|
                steps(x, r.unsequenced.group) < 1024 ==> (#[trigger] r.unsequenced.seen.contains(x)
                    <==> w.seen.contains(x) || (x == g && (ahead || recent)))
        }),
{
    let (r, out) = q.on_data(key, c, now);
    let w = q.unsequenced;
    if w.accepts(g) {
        assert(out =~= seq![
            ActionView::Deliver {
                key,
                packet: PacketView { data, channel: 0, mode: SendMode::Unsequenced },
            },
        ]);
    } else {
        assert(out =~= Seq::empty());
    }
}

/// Law: a new peer has seen no unsequenced group and no number, and takes the
/// first ones.
pub proof fn lemma_nothing_seen(g: u16)
    ensures
        UnsequencedView::fresh().seen == Set::<u16>::empty(),
        UnsequencedView::fresh().group == 0,
        ChannelView::fresh().incoming_reliable_seq == 0,
        ChannelView::fresh().incoming_unreliable_seq == 0,
        ChannelView::fresh().outgoing_reliable_seq == 0,
        ChannelView::fresh().outgoing_unreliable_seq == 0,
        ChannelView::fresh().outgoing_unsequenced_group == 0,
        forall|k: u16| !(#[trigger] ChannelView::fresh().queue.contains_key(k)),
        forall|k: u32| !(#[trigger] ChannelView::fresh().fragments.contains_key(k)),
{
}

/// Law: a reliable packet in one piece. The one that is due is the first that
/// comes out. One that is one to 32767 numbers after it is kept, where fewer
/// than 4096 are, and comes out later. Any other changes nothing. What comes
/// out goes to the user of the peer as reliable packets of the channel.
pub proof fn lemma_reliable_taken(
    q: PeerView,
    key: PeerKey,
    c: command::CommandView,
    data: Seq<u8>,
    now: u32,
)
    requires
        c.body == command::BodyView::SendReliable(data),
        c.header.channel_id < q.channels.len(),
        q.channels[c.header.channel_id as int].queue.dom().finite(),
    ensures
        ({
            let ch = c.header.channel_id;
            let a = q.channels[ch as int];
            let seq = c.header.reliable_seq;
            let ahead = steps(a.incoming_reliable_seq, seq);
            let (r, out) = q.on_data(key, c, now);
            let b = r.channels[ch as int];
            &&& r.last_receive_time == now
            &&& r.fragment_bytes == q.fragment_bytes
            &&& only_channel(q, r, ch as int)
            &&& forall|i: int|
                0 <= i < out.len() ==> ((#[trigger] out[i]) matches ActionView::Deliver {
                    key: k,
                    packet,
                } && k == key && packet.channel == ch && packet.mode == SendMode::Reliable)
            &&& b == (ChannelView {
                incoming_reliable_seq: b.incoming_reliable_seq,
                queue: b.queue,
                ..a
            })
            &&& ahead == 1 ==> out.len() > 0 && out[0]->packet.data == data
            &&& ahead == 1 && !a.queue.contains_key(((seq + 1) % 65536) as u16) ==> {
                &&& out.len() == 1
                &&& b.incoming_reliable_seq == seq
                &&& b.queue == a.queue
            }
            &&& 2 <= ahead <= 32768 && a.queue.len() < 4096 ==> {
                &&& out.len() == 0
                &&& b.incoming_reliable_seq == a.incoming_reliable_seq
                &&& b.queue.contains_key(seq)
                &&& b.queue[seq].data == data
                &&& b.queue[seq].count == 1
                &&& forall|k: u16| k != seq ==> (#[trigger] b.queue.contains_key(k)
                    <==> a.queue.contains_key(k))
            }
            &&& 2 <= ahead <= 32768 && a.queue.len() >= 4096 ==> out.len() == 0 && b == a
            &&& !(1 <= ahead <= 32768) ==> out.len() == 0 && b == a
        }),
{
    let ch = c.header.channel_id;
    let (r, out) = q.on_data(key, c, now);
    let a = q.channels[ch as int];
    let seq = c.header.reliable_seq;
    let ready = a.receive_reliable(seq, data).1;
    assert(out.len() == ready.len());
    if seq == a.expected() {
        assert(ready[0] == data);
        assert(out[0]->packet.data == ready[0]);
        assert(crate::protocol::sequence::seq_plus(a.incoming_reliable_seq, 1) == seq);
        let d = channel::drain(seq, a.queue);
        if !a.queue.contains_key(((seq + 1) % 65536) as u16) {
            assert(d.out.len() == 0 && d.seq == seq && d.queue == a.queue);
        }
    }
}

/// Law: a bandwidth limit sets the window by what the other side can take in,
/// 4096 for each full 65536, between 4096 and 65536, and without a limit there
/// to the largest one. What the other side sends does not matter, but for a
/// command without any limit, which changes nothing. Nothing else changes.
pub proof fn lemma_limit_followed(
    q: PeerView,
    key: PeerKey,
    c: command::CommandView,
    bl: BandwidthLimitCmd,
    now: u32,
)
    requires
        c.body == command::BodyView::BandwidthLimit(bl),
    ensures
        ({
            let b = bl.incoming_bandwidth as int;
            let (r, out) = q.on_data(key, c, now);
            &&& out == Seq::<ActionView>::empty()
            &&& r == (PeerView { window_size: r.window_size, ..q })
            &&& b > 0 && 4096 <= b / 65536 * 4096 <= 65536 ==> r.window_size == b / 65536 * 4096
            &&& b > 0 && b / 65536 * 4096 < 4096 ==> r.window_size == 4096
            &&& b / 65536 * 4096 > 65536 ==> r.window_size == 65536
            &&& b == 0 && bl.outgoing_bandwidth > 0 ==> r.window_size == 65536
            &&& b == 0 && bl.outgoing_bandwidth == 0 ==> r.window_size == q.window_size
        }),
{
}

/// Law: two bandwidth limits with the same incoming bandwidth give the same
/// window, whatever else they say, and one that allows more does not give a
/// smaller one.
pub proof fn lemma_limits_agree(
    q: PeerView,
    p: PeerView,
    a: BandwidthLimitCmd,
    b: BandwidthLimitCmd,
)
    requires
        0 < a.incoming_bandwidth <= b.incoming_bandwidth,
    ensures
        q.on_bandwidth_limit(a).window_size <= p.on_bandwidth_limit(b).window_size,
        a.incoming_bandwidth == b.incoming_bandwidth ==> q.on_bandwidth_limit(a).window_size
            == p.on_bandwidth_limit(b).window_size,
{
    assert(a.incoming_bandwidth as int / 65536 <= b.incoming_bandwidth as int / 65536);
}

/// Law: a throttle configuration sets the interval and the two steps, each to
/// what it says, and nothing else.
pub proof fn lemma_throttle_configured(
    q: PeerView,
    key: PeerKey,
    c: command::CommandView,
    tc: ThrottleConfigureCmd,
    now: u32,
)
    requires
        c.body == command::BodyView::ThrottleConfigure(tc),
    ensures
        q.on_data(key, c, now) == (
            PeerView {
                throttle_interval: tc.throttle_interval,
                throttle_acceleration: tc.throttle_acceleration,
                throttle_deceleration: tc.throttle_deceleration,
                ..q
            },
            Seq::<ActionView>::empty(),
        ),
{
}

/// Law: a ping shows that the other side lives, and nothing else.
pub proof fn lemma_pinged(q: PeerView, key: PeerKey, c: command::CommandView, now: u32)
    requires
        c.body is Ping,
    ensures
        q.on_data(key, c, now) == (
            PeerView { last_receive_time: now, ..q },
            Seq::<ActionView>::empty(),
        ),
{
}

/// Law: on a channel that does not exist nothing is taken.
pub proof fn lemma_unknown_channel(
    q: PeerView,
    key: PeerKey,
    c: command::CommandView,
    now: u32,
)
    requires
        c.header.channel_id >= q.channels.len(),
        c.body is SendReliable || c.body is SendUnreliable || c.body is SendFragment
            || c.body is SendUnreliableFragment,
    ensures
        ({
            let (r, out) = q.on_data(key, c, now);
            &&& out == Seq::<ActionView>::empty()
            &&& r == (PeerView { last_receive_time: r.last_receive_time, ..q })
        }),
{
    let out = q.on_data(key, c, now).1;
    assert(out =~= Seq::empty());
}

/// Law: a client that waits takes the answer with its own connect ID, and with
/// it everything the server settled: its slot there, the two sessions, the MTU,
/// the window and the throttle. CONNECT is then out of flight. An answer with
/// another ID, or to a client that does not wait, changes nothing.
pub proof fn lemma_answer_taken(q: PeerView, vc: VerifyConnectCmd, seq: u16, now: u32)
    ensures
        ({
            let r = q.on_verify(vc, seq, now);
            if q.state == PeerState::Connecting && vc.connect_id == q.connect_id {
                &&& r.state == PeerState::Connected
                &&& r.outgoing_peer_id == vc.outgoing_peer_id
                &&& r.incoming_session_id == vc.incoming_session_id
                &&& r.outgoing_session_id == vc.outgoing_session_id
                &&& r.mtu == vc.mtu
                &&& r.window_size == vc.window_size
                &&& r.throttle_interval == vc.throttle_interval
                &&& r.throttle_acceleration == vc.throttle_acceleration
                &&& r.throttle_deceleration == vc.throttle_deceleration
                &&& r.incoming_reliable_seq == seq
                &&& r.last_receive_time == now
                &&& r.connect_id == q.connect_id
                &&& r.addr == q.addr
                &&& r.channels == q.channels
                &&& r.pending == q.pending
                &&& r.rtt == q.rtt
                &&& r.rtt_var == q.rtt_var
                &&& r.packet_throttle == q.packet_throttle
                &&& r.outgoing_reliable_seq == q.outgoing_reliable_seq
                &&& r.unsequenced == q.unsequenced
                &&& forall|v: crate::outgoing::OutView| #[trigger]
                    r.outgoing.contains(v) <==> q.outgoing.contains(v) && !(v.channel_id == 255
                        && v.reliable_seq == 1)
            } else {
                r == q
            }
        }),
{
    assert forall|v: crate::outgoing::OutView|
        q.state == PeerState::Connecting && vc.connect_id == q.connect_id implies (
    #[trigger] q.on_verify(vc, seq, now).outgoing.contains(v) <==> q.outgoing.contains(v) && !(
    v.channel_id == 255 && v.reliable_seq == 1)) by {
        crate::outgoing::lemma_acknowledged(q.outgoing, 255, 1, v);
    }
}

/// Law: one number comes before another if and only if the other is one to
/// 32767 steps further.
pub proof fn lemma_before(a: u16, b: u16)
    ensures
        sequence::seq_before(a, b) <==> 1 <= steps(a, b) <= 32767,
        sequence::seq_distance(a, b) == steps(a, b),
        forall|n: int| 0 <= n < 65536 ==> steps(a, #[trigger] sequence::seq_plus(a, n)) == n,
        sequence::seq_next(a) == if a == 65535 {
            0
        } else {
            a + 1
        },
{
}

/// Law: a fragment that makes no sense changes nothing: of a message without
/// fragments, or with more than 1048576, or of more than 32 MiB, or with data
/// behind the end of the message.
pub proof fn lemma_senseless(
    q: PeerView,
    ch: u8,
    f: command::FragmentView,
    reliable: bool,
    now: u32,
)
    requires
        f.fragment_count == 0 || f.fragment_count > 1_048_576 || f.total_length > 33_554_432
            || f.fragment_offset + f.data.len() > f.total_length,
    ensures
        q.on_fragment(ch, f, reliable, now) == (q, Seq::<Seq<u8>>::empty()),
{
}

/// Law: an unreliable fragment that begins a message changes nothing where 64
/// messages of the channel are being put together, or 16 MiB of the peer would
/// be exceeded. One of a message that is late changes nothing either.
pub proof fn lemma_no_room(q: PeerView, ch: u8, f: command::FragmentView, now: u32)
    requires
        ch < q.channels.len(),
        ({
            let c = q.channels[ch as int];
            ||| !(1 <= steps(c.incoming_unreliable_seq, f.start_seq) <= 32767)
            ||| !c.fragments.contains_key((f.start_seq + 65536) as u32) && (c.fragments.len() >= 64
                || q.fragment_bytes + f.total_length > 16_777_216)
        }),
    ensures
        ({
            let (r, out) = q.on_fragment(ch, f, false, now);
            &&& out == Seq::<Seq<u8>>::empty()
            &&& r == (PeerView { last_receive_time: r.last_receive_time, ..q })
        }),
{
}

/// Law: the bounds on what a peer keeps.
pub proof fn lemma_bounds(q: PeerView, ck: bool, i: int)
    requires
        q.wf(ck),
        0 <= i < q.channels.len(),
    ensures
        q.channels.len() <= 255,
        q.channels[i].queue.len() <= 4096,
        q.channels[i].fragments.len() <= 64,
        q.fragment_bytes <= 16_777_216,
        q.packet_throttle <= 32,
        q.fragment_bytes == budget::total_held(q.channels),
{
    assert(q.channels[i].wf());
}

/// Law: unreliable messages give way: none of them is being put together
/// afterwards, on any channel, and every reliable one still is, as far as
/// before. Nothing else of the peer changes.
pub proof fn lemma_way_given(q: PeerView, i: int, k: u32)
    requires
        0 <= i < q.channels.len(),
    ensures
        ({
            let r = q.give_way();
            let a = q.channels[i];
            let b = r.channels[i];
            &&& r.channels.len() == q.channels.len()
            &&& b == (ChannelView { fragments: b.fragments, ..a })
            &&& b.fragments.contains_key(k) <==> a.fragments.contains_key(k) && k < 65536
            &&& b.fragments.contains_key(k) ==> b.fragments[k] == a.fragments[k]
            &&& r == (PeerView { channels: r.channels, fragment_bytes: r.fragment_bytes, ..q })
        }),
{
}

/// Law: a reliable fragment is never refused where no reliable message is being
/// put together, whatever unreliable ones are, and fewer than 4096 packets of
/// the channel are held.
pub proof fn lemma_reliable_first(q: PeerView, c: command::CommandView, f: command::FragmentView)
    requires
        c.body == command::BodyView::SendFragment(f),
        c.header.channel_id < q.channels.len(),
        q.channels[c.header.channel_id as int].queue.len() < 4096,
        f.total_length <= 16_777_216,
        forall|i: int, k: u32|
            0 <= i < q.channels.len() && #[trigger] q.channels[i].fragments.contains_key(k) ==> k
                >= 65536,
    ensures
        !q.refuses(c),
{
    let r = q.give_way();
    let ch = c.header.channel_id as int;
    assert forall|i: int| 0 <= i < q.channels.len() implies (#[trigger] r.channels[i]).fragments
        == Map::<u32, channel::fragment::ReassemblyView>::empty() by {
        let a = q.channels[i];
        assert forall|k: u32| !(#[trigger] r.channels[i].fragments.contains_key(k)) by {
            if a.fragments.contains_key(k) {
                assert(q.channels[i].fragments.contains_key(k));
            }
        }
        assert(r.channels[i].fragments =~= Map::empty());
    }
    budget::lemma_nothing_held(r.channels);
    assert(r.channels[ch].fragments.len() == 0);
}

} // verus!
