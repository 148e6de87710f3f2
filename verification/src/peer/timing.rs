//! What a clock that runs forward means for retransmission.

use vstd::prelude::*;

use vstd::arithmetic::power2;

use crate::outgoing;
use crate::outgoing::OutView;
use crate::peer::PeerView;

verus! {

/// The times of a command on a clock that does not wrap: when it was first
/// sent, when it was last sent, and its first timeout.
pub struct Times {
    pub first: int,
    pub last: int,
    pub timeout: int,
}

/// The reading of a 32-bit clock at time `t`.
pub open spec fn reading(t: int) -> u32 {
    (t % 0x1_0000_0000) as u32
}

/// A command's times at time `t`: the timeout has doubled with each attempt,
/// and each attempt waited for the timeout of the one before.
pub open spec fn timed(v: OutView, w: Times, t: int) -> bool {
    &&& v.send_attempts >= 1
    &&& v.original_sent_time == reading(w.first)
    &&& v.sent_time == reading(w.last)
    &&& 0 <= w.first <= w.last <= t
    &&& 1 <= w.timeout <= 5 * 0xFFFF
    &&& v.rtt_timeout == w.timeout * power2::pow2((v.send_attempts - 1) as nat)
    &&& w.last - w.first >= w.timeout * (power2::pow2((v.send_attempts - 1) as nat) - 1)
}

/// Law: a command has its times when it is sent for the first time.
pub proof fn lemma_first_attempt(
    p: PeerView,
    ck: bool,
    channel_id: u8,
    seq: u16,
    bytes: Seq<u8>,
    t: int,
)
    requires
        p.wf(ck),
        0 <= t,
    ensures
        timed(
            p.outstanding(channel_id, seq, bytes, reading(t)),
            Times { first: t, last: t, timeout: p.initial_timeout() as int },
            t,
        ),
{
    power2::lemma2_to64();
    let first = p.initial_timeout() as int;
    assert(power2::pow2(0) == 1);
    assert(first * 1 == first && first * (1 - 1) == 0) by (nonlinear_arith);
    let v = p.outstanding(channel_id, seq, bytes, reading(t));
    assert((v.send_attempts - 1) as nat == 0);
}

/// Law: on a clock that runs forward, a command that is looked at within the
/// range of the clock can always be sent again: its attempts and its timeout
/// stay far below what their fields hold, and it keeps its times.
pub proof fn lemma_retries_bounded(v: OutView, w: Times, t: int, later: int)
    requires
        timed(v, w, t),
        t <= later < w.first + 0x1_0000_0000,
    ensures
        timed(v, w, later),
        v.due(reading(later)) && !v.expired(reading(later)) ==> {
            &&& v.retry_fits()
            &&& v.send_attempts <= 14
            &&& timed(v.retried(reading(later)), Times { last: later, ..w }, later)
        },
{
    let now = reading(later);
    if v.due(now) && !v.expired(now) {
        let n = v.send_attempts as nat;
        let p = power2::pow2((n - 1) as nat);
        assert(outgoing::elapsed(now, v.sent_time) == later - w.last);
        assert(outgoing::elapsed(now, v.original_sent_time) == later - w.first);
        power2::lemma_pow2_unfold(n);
        power2::lemma_pow2_pos((n - 1) as nat);
        assert(power2::pow2(n) == 2 * p);
        assert(later - w.first >= w.timeout * (2 * p - 1)) by (nonlinear_arith)
            requires
                later - w.last >= w.timeout * p,
                w.last - w.first >= w.timeout * (p - 1),
        ;
        assert(2 * p - 1 <= w.timeout * (2 * p - 1)) by (nonlinear_arith)
            requires
                w.timeout >= 1,
                p >= 1,
        ;
        if n >= 15 {
            power2::lemma2_to64();
            if n > 15 {
                power2::lemma_pow2_strictly_increases(15, n);
            }
            assert(false);
        }
        assert(w.timeout * p * 2 == w.timeout * (2 * p) && w.timeout * (2 * p) <= 30000 + w.timeout)
            by (nonlinear_arith)
            requires
                w.timeout * (2 * p - 1) <= 30000,
        ;
    }
}

/// Law: a peer whose commands all have their times can be serviced, on a
/// machine where a datagram of one MTU fits in memory.
pub proof fn lemma_serviceable(p: PeerView, times: Seq<Times>, t: int, later: int)
    requires
        p.mtu_fits(),
        times.len() == p.outgoing.len(),
        forall|i: int| 0 <= i < times.len() ==> timed(p.outgoing[i], #[trigger] times[i], t),
        forall|i: int|
            0 <= i < times.len() ==> t <= later < (#[trigger] times[i]).first + 0x1_0000_0000,
    ensures
        p.serviceable(reading(later)),
{
    assert forall|i: int|
        0 <= i < p.outgoing.len() && (#[trigger] p.outgoing[i]).due(reading(later))
            && !p.outgoing[i].expired(reading(later)) implies p.outgoing[i].retry_fits()
        && p.mtu_fits() by {
        lemma_retries_bounded(p.outgoing[i], times[i], t, later);
    }
}

} // verus!
