//! How the round-trip time and the throttle follow the acknowledgements, in
//! numbers.

use vstd::prelude::*;

use crate::laws::service;
use crate::outgoing;
use crate::outgoing::OutView;
use crate::peer::rtt;
use crate::peer::rtt::AckOutcome;
use crate::peer::{PeerState, PeerView};
use crate::protocol::AcknowledgeCmd;

verus! {

/// The distance of two numbers.
pub open spec fn apart(a: int, b: int) -> int {
    if a < b {
        b - a
    } else {
        a - b
    }
}

/// Law: a sample is the time that passed since the latest moment with these low
/// 16 bits that is not half of their range or more ahead, and at least a
/// millisecond. There is none where that moment is ahead of the clock, or
/// before its start.
pub proof fn lemma_sample(t: u16, now: u32, then: int)
    requires
        then % 65536 == t,
        now / 65536 * 65536 - 65536 <= then < now / 65536 * 65536 + 65536,
        now % 65536 < 32768 && t >= 32768 <==> then < now / 65536 * 65536,
    ensures
        0 <= then < now ==> rtt::rtt_sample(t, now) == Some((now - then) as u32),
        then == now ==> rtt::rtt_sample(t, now) == Some(1u32),
        then < 0 || then > now ==> rtt::rtt_sample(t, now) is None,
{
}

/// Law: the first sample is the round-trip time, and half of it, rounded up,
/// its variation. A later one moves the round-trip time an eighth of the way
/// towards it, rounded down, and the variation loses a quarter of itself and
/// gains a quarter of the distance, each rounded down.
pub proof fn lemma_estimated(p: PeerView, sample: u32)
    requires
        1 <= p.rtt <= 65535,
        p.rtt_var <= 65535,
        1 <= sample <= 65535,
    ensures
        ({
            let q = p.rtt_sampled(sample);
            let d = apart(sample as int, p.rtt as int);
            &&& q.rtt_initialized
            &&& q == (PeerView {
                rtt: q.rtt,
                rtt_var: q.rtt_var,
                rtt_initialized: true,
                ..p
            })
            &&& !p.rtt_initialized ==> q.rtt == sample && 2 * q.rtt_var - 1 <= sample <= 2
                * q.rtt_var
            &&& p.rtt_initialized ==> {
                &&& sample >= p.rtt ==> q.rtt >= p.rtt
                &&& sample <= p.rtt ==> q.rtt <= p.rtt
                &&& 8 * apart(q.rtt as int, p.rtt as int) <= d < 8 * apart(
                    q.rtt as int,
                    p.rtt as int,
                ) + 8
                &&& q.rtt_var == p.rtt_var - p.rtt_var as int / 4 + d / 4
            }
        }),
{
}

/// Law: a command that is sent for the first time waits for the round-trip time
/// and four times its variation.
pub proof fn lemma_patience(
    p: PeerView,
    channel_id: u8,
    seq: u16,
    bytes: Seq<u8>,
    now: u32,
)
    requires
        p.rtt <= 65535,
        p.rtt_var <= 65535,
    ensures
        ({
            let v = p.outstanding(channel_id, seq, bytes, now);
            &&& v.rtt_timeout == p.rtt + 4 * p.rtt_var
            &&& v.sent_time == now
            &&& v.original_sent_time == now
            &&& v.send_attempts == 1
            &&& v.channel_id == channel_id
            &&& v.reliable_seq == seq
            &&& v.packet_bytes == bytes
        }),
{
}

/// Law: the throttle is looked at once per interval, counted from the last
/// time, and at the first acknowledgement. Where the round-trip time became
/// shorter since then it goes up by the one step, to 32 at most; where it
/// became longer by more than twice its variation it goes down by the other
/// step, to zero at least; else it stays.
pub proof fn lemma_throttle_adapts(p: PeerView, now: u32)
    requires
        p.packet_throttle <= 32,
        p.rtt_initialized,
        p.rtt_at_throttle_epoch > 0,
    ensures
        ({
            let q = p.throttled(now);
            let was = p.rtt_at_throttle_epoch;
            let up = p.packet_throttle + p.throttle_acceleration;
            let down = p.packet_throttle - p.throttle_deceleration;
            if p.packet_throttle_epoch == 0 || service::passed(now, p.packet_throttle_epoch)
                >= p.throttle_interval {
                &&& q == (PeerView {
                    packet_throttle: q.packet_throttle,
                    packet_throttle_epoch: now,
                    rtt_at_throttle_epoch: p.rtt,
                    ..p
                })
                &&& p.rtt < was && up <= 32 ==> q.packet_throttle == up
                &&& p.rtt < was && up > 32 ==> q.packet_throttle == 32
                &&& p.rtt > was + 2 * p.rtt_var && down >= 0 ==> q.packet_throttle == down
                &&& p.rtt > was + 2 * p.rtt_var && down < 0 ==> q.packet_throttle == 0
                &&& was <= p.rtt <= was + 2 * p.rtt_var ==> q.packet_throttle == p.packet_throttle
            } else {
                q == p
            }
        }),
{
}

/// Law: an acknowledgement that gives a sample takes exactly the command with
/// its channel and number out of flight, lets the estimates and the throttle
/// follow the sample, and shows that the other side lives. One that gives none
/// changes nothing. The first one of a server's answer makes the connection
/// stand, and no other acknowledgement changes the state.
pub proof fn lemma_acknowledgement(
    p: PeerView,
    channel_id: u8,
    ack: AcknowledgeCmd,
    now: u32,
    v: OutView,
)
    ensures
        ({
            let q = p.acknowledged(channel_id, ack, now);
            let seq = ack.received_reliable_seq;
            match rtt::rtt_sample(ack.received_sent_time, now) {
                None => q == p,
                Some(sample) => {
                    let e = PeerView { last_receive_time: now, ..p }.rtt_sampled(sample);
                    let f = e.throttled(now);
                    &&& q.outgoing.contains(v) <==> p.outgoing.contains(v) && !(v.channel_id
                        == channel_id && v.reliable_seq == seq)
                    &&& q.last_receive_time == now
                    &&& q.rtt == e.rtt
                    &&& q.rtt_var == e.rtt_var
                    &&& q.packet_throttle == f.packet_throttle
                    &&& q.packet_throttle_epoch == f.packet_throttle_epoch
                    &&& q == (PeerView {
                        outgoing: q.outgoing,
                        state: q.state,
                        handle_held: q.handle_held,
                        ..f
                    })
                    &&& if p.state == PeerState::AcknowledgingConnect && channel_id == 255 && seq
                        == 1 {
                        q.state == PeerState::Connected && !q.handle_held
                    } else {
                        q.state == p.state && q.handle_held == p.handle_held
                    }
                },
            }
        }),
{
    outgoing::lemma_acknowledged(p.outgoing, channel_id, ack.received_reliable_seq, v);
}

/// Law: what an acknowledgement means. It completes a handshake where the
/// server's answer waits for it and the connection was not handed out yet. It
/// completes a disconnect where after it nothing is in flight any more. Else it
/// means nothing.
pub proof fn lemma_outcome(p: PeerView, channel_id: u8, ack: AcknowledgeCmd, now: u32)
    ensures
        ({
            let o = p.ack_outcome(channel_id, ack, now);
            let sampled = rtt::rtt_sample(ack.received_sent_time, now) is Some;
            let answer = p.state == PeerState::AcknowledgingConnect && channel_id == 255
                && ack.received_reliable_seq == 1;
            &&& o == AckOutcome::Accepted <==> sampled && answer && p.handle_held
            &&& o == AckOutcome::Disconnected <==> sampled && p.state == PeerState::Disconnecting
                && (forall|i: int|
                0 <= i < p.outgoing.len() ==> (#[trigger] p.outgoing[i]).channel_id == channel_id
                    && p.outgoing[i].reliable_seq == ack.received_reliable_seq)
        }),
{
    let seq = ack.received_reliable_seq;
    let rest = outgoing::remove(p.outgoing, channel_id, seq);
    if rest.len() > 0 {
        let v = rest[0];
        outgoing::lemma_acknowledged(p.outgoing, channel_id, seq, v);
        assert(rest.contains(v));
        let i = choose|i: int| 0 <= i < p.outgoing.len() && p.outgoing[i] == v;
        assert(p.outgoing[i].channel_id != channel_id || p.outgoing[i].reliable_seq != seq);
    } else {
        assert forall|i: int| 0 <= i < p.outgoing.len() implies (
        #[trigger] p.outgoing[i]).channel_id == channel_id && p.outgoing[i].reliable_seq == seq by {
            outgoing::lemma_acknowledged(p.outgoing, channel_id, seq, p.outgoing[i]);
            if !(p.outgoing[i].channel_id == channel_id && p.outgoing[i].reliable_seq == seq) {
                assert(rest.contains(p.outgoing[i]));
            }
        }
    }
}

} // verus!
