//! Round-trip time, acknowledgements and the adaptive packet throttle.

use vstd::prelude::*;

use crate::outgoing;
use crate::outgoing::remove_outstanding;
use crate::peer::{PeerEntry, PeerState, PeerView};
use crate::protocol::sequence;
use crate::protocol::{AcknowledgeCmd, CHANNEL_ID_CONNECTION, PACKET_THROTTLE_SCALE};

verus! {

/// What an acknowledgement means for the connection.
#[derive(Debug, Clone, Copy, PartialEq, Eq, Structural)]
pub enum AckOutcome {
    /// The connection goes on as before.
    Nothing,
    /// The handshake is complete and the user's end can be handed out.
    Accepted,
    /// The disconnect is complete.
    Disconnected,
}

/// The time that the low 16 bits `t` of a timestamp stand for: the latest
/// one that is not ahead of `now` by half of their range or more.
pub open spec fn full_time(t: u16, now: u32) -> int {
    let base = now / 0x1_0000 * 0x1_0000 + t;
    if t >= 0x8000 && now % 0x1_0000 < 0x8000 {
        base - 0x1_0000
    } else {
        base
    }
}

/// The round-trip time that an acknowledgement of a packet sent at `t` gives,
/// if the packet was sent before `now`.
pub open spec fn rtt_sample(t: u16, now: u32) -> Option<u32> {
    let then = full_time(t, now);
    if 0 <= then <= now {
        Some(
            if now == then {
                1
            } else {
                (now - then) as u32
            },
        )
    } else {
        None
    }
}

/// The distance of two times.
pub open spec fn distance(a: u32, b: u32) -> int {
    if a >= b {
        a - b
    } else {
        b - a
    }
}

impl PeerView {
    /// The estimates after a round-trip time was measured. The first sample
    /// replaces them, later ones are weighted by an eighth for the time and a
    /// quarter for its variation.
    pub open spec fn rtt_sampled(self, sample: u32) -> Self {
        if !self.rtt_initialized {
            PeerView {
                rtt: sample,
                rtt_var: ((sample + 1) / 2) as u32,
                rtt_initialized: true,
                ..self
            }
        } else {
            let diff = distance(sample, self.rtt);
            PeerView {
                rtt_var: (self.rtt_var - self.rtt_var / 4 + diff / 4) as u32,
                rtt: if sample >= self.rtt {
                    (self.rtt + diff / 8) as u32
                } else {
                    (self.rtt - diff / 8) as u32
                },
                ..self
            }
        }
    }

    /// The timeout of a command that is sent for the first time.
    pub open spec fn initial_timeout(self) -> u32 {
        (self.rtt + 4 * self.rtt_var) as u32
    }

    /// A new throttle interval starts.
    pub open spec fn throttle_due(self, now: u32) -> bool {
        self.packet_throttle_epoch == 0 || outgoing::elapsed(now, self.packet_throttle_epoch)
            >= self.throttle_interval
    }

    /// The throttle for a round-trip time that was `before` at the start of
    /// the interval: up where the link improved, down where it became worse
    /// by more than twice its variation, within its scale.
    pub open spec fn adapted_throttle(self, before: u32) -> u32 {
        if before == 0 || !self.rtt_initialized {
            self.packet_throttle
        } else if self.rtt < before {
            if self.packet_throttle + self.throttle_acceleration <= PACKET_THROTTLE_SCALE {
                (self.packet_throttle + self.throttle_acceleration) as u32
            } else {
                PACKET_THROTTLE_SCALE
            }
        } else if self.rtt > before + 2 * self.rtt_var {
            if self.packet_throttle >= self.throttle_deceleration {
                (self.packet_throttle - self.throttle_deceleration) as u32
            } else {
                0
            }
        } else {
            self.packet_throttle
        }
    }

    /// The peer after the throttle was looked at.
    pub open spec fn throttled(self, now: u32) -> Self {
        if self.throttle_due(now) {
            PeerView {
                packet_throttle_epoch: now,
                rtt_at_throttle_epoch: self.rtt,
                packet_throttle: self.adapted_throttle(self.rtt_at_throttle_epoch),
                ..self
            }
        } else {
            self
        }
    }

    /// The acknowledgement completes the handshake: VERIFY_CONNECT is always
    /// the first command of the connection.
    pub open spec fn completes_handshake(self, channel_id: u8, seq: u16) -> bool {
        self.state == PeerState::AcknowledgingConnect && channel_id == CHANNEL_ID_CONNECTION && seq
            == 1
    }

    /// The peer after an acknowledgement. One that claims to answer a packet
    /// from the future is discarded.
    pub open spec fn acknowledged(self, channel_id: u8, ack: AcknowledgeCmd, now: u32) -> Self {
        match rtt_sample(ack.received_sent_time, now) {
            None => self,
            Some(sample) => {
                let p = PeerView { last_receive_time: now, ..self }.rtt_sampled(sample).throttled(
                    now,
                );
                let q = PeerView {
                    outgoing: outgoing::remove(p.outgoing, channel_id, ack.received_reliable_seq),
                    ..p
                };
                if self.completes_handshake(channel_id, ack.received_reliable_seq) {
                    PeerView { state: PeerState::Connected, handle_held: false, ..q }
                } else {
                    q
                }
            },
        }
    }

    /// What an acknowledgement means for the connection.
    pub open spec fn ack_outcome(self, channel_id: u8, ack: AcknowledgeCmd, now: u32) -> AckOutcome {
        let seq = ack.received_reliable_seq;
        if rtt_sample(ack.received_sent_time, now) is None {
            AckOutcome::Nothing
        } else if self.completes_handshake(channel_id, seq) {
            if self.handle_held {
                AckOutcome::Accepted
            } else {
                AckOutcome::Nothing
            }
        } else if self.state == PeerState::Disconnecting && outgoing::remove(
            self.outgoing,
            channel_id,
            seq,
        ).len() == 0 {
            AckOutcome::Disconnected
        } else {
            AckOutcome::Nothing
        }
    }
}

/// The round-trip time that an acknowledgement gives.
fn take_sample(t16: u16, now_ms: u32) -> (r: Option<u32>)
    ensures
        r == rtt_sample(t16, now_ms),
{
    assert(now_ms & 0xFFFF_0000 == now_ms / 0x1_0000 * 0x1_0000) by (bit_vector);
    let base: u32 = now_ms & 0xFFFF_0000;
    let low: u32 = t16 as u32;
    assert((low | base) == low + base && ((low | base) & 0x8000 != 0) == (low >= 0x8000) && ((low
        | base) & 0x8000 == 0 || (low | base) & 0x8000 == 0x8000)) by (bit_vector)
        requires
            low < 0x1_0000,
            base == now_ms & 0xFFFF_0000,
    ;
    assert((now_ms & 0x8000 != 0) == (now_ms % 0x1_0000 >= 0x8000) && (now_ms & 0x8000 == 0
        || now_ms & 0x8000 == 0x8000)) by (bit_vector);
    let mut t32: u32 = low | base;
    if (t32 & 0x8000) > (now_ms & 0x8000) {
        t32 = t32.wrapping_sub(0x10000);
    }
    if now_ms >= t32 {
        let gap: u32 = now_ms - t32;
        Some(
            if gap > 1 {
                gap
            } else {
                1
            },
        )
    } else {
        None
    }
}

impl PeerEntry {
    /// Takes a measured round-trip time into the estimates.
    pub fn update_rtt(&mut self, sample: u32)
        ensures
            final(self)@ == old(self)@.rtt_sampled(sample),
            final(self).channels == old(self).channels,
    {
        if !self.rtt_initialized {
            self.rtt = sample;
            self.rtt_var = sample / 2 + sample % 2;
            self.rtt_initialized = true;
        } else {
            self.rtt_var = self.rtt_var - self.rtt_var / 4;
            if sample >= self.rtt {
                let diff: u32 = sample - self.rtt;
                self.rtt_var = self.rtt_var + diff / 4;
                self.rtt = self.rtt + diff / 8;
            } else {
                let diff: u32 = self.rtt - sample;
                self.rtt_var = self.rtt_var + diff / 4;
                self.rtt = self.rtt - diff / 8;
            }
        }
    }

    /// The timeout of a command that is sent for the first time.
    pub fn initial_rtt_timeout(&self) -> (r: u32)
        requires
            self.rtt + 4 * self.rtt_var <= u32::MAX,
        ensures
            r == self@.initial_timeout(),
    {
        self.rtt + 4 * self.rtt_var
    }

    /// Bump the outgoing connection-level reliable sequence number.
    pub fn next_connect_seq(&mut self) -> (r: u16)
        ensures
            r == sequence::seq_next(old(self).outgoing_reliable_seq),
            final(self)@ == (PeerView { outgoing_reliable_seq: r, ..old(self)@ }),
            final(self).channels == old(self).channels,
    {
        self.outgoing_reliable_seq = self.outgoing_reliable_seq.wrapping_add(1);
        self.outgoing_reliable_seq
    }

    /// Once per throttle interval, compares the round-trip time with the one
    /// at the start of the interval and adapts the packet throttle.
    fn update_throttle(&mut self, now_ms: u32)
        requires
            old(self).packet_throttle <= PACKET_THROTTLE_SCALE,
            old(self).rtt_var <= 0xFFFF,
        ensures
            final(self)@ == old(self)@.throttled(now_ms),
            final(self).channels == old(self).channels,
    {
        if self.packet_throttle_epoch == 0 || now_ms.wrapping_sub(self.packet_throttle_epoch)
            >= self.throttle_interval {
            let prev_rtt: u32 = self.rtt_at_throttle_epoch;
            self.packet_throttle_epoch = now_ms;
            self.rtt_at_throttle_epoch = self.rtt;
            if prev_rtt > 0 && self.rtt_initialized {
                if self.rtt < prev_rtt {
                    // Link improved: accelerate.
                    let raised: u32 = self.packet_throttle.saturating_add(
                        self.throttle_acceleration,
                    );
                    self.packet_throttle = if raised < PACKET_THROTTLE_SCALE {
                        raised
                    } else {
                        PACKET_THROTTLE_SCALE
                    };
                } else if self.rtt > prev_rtt.saturating_add(2 * self.rtt_var) {
                    // Link significantly worsened: decelerate.
                    self.packet_throttle = self.packet_throttle.saturating_sub(
                        self.throttle_deceleration,
                    );
                }
            }
        }
    }

    /// Takes an acknowledgement.
    pub fn on_ack(&mut self, channel_id: u8, ack: AcknowledgeCmd, now_ms: u32) -> (r: AckOutcome)
        requires
            outgoing::sorted(old(self)@.outgoing),
            old(self).packet_throttle <= PACKET_THROTTLE_SCALE,
            old(self).rtt <= 0xFFFF,
            old(self).rtt_var <= 0xFFFF,
        ensures
            final(self)@ == old(self)@.acknowledged(channel_id, ack, now_ms),
            r == old(self)@.ack_outcome(channel_id, ack, now_ms),
            final(self).channels == old(self).channels,
    {
        let sample: u32 = match take_sample(ack.received_sent_time, now_ms) {
            Some(s) => s,
            None => return AckOutcome::Nothing,
        };
        self.last_receive_time = now_ms;
        self.update_rtt(sample);
        assert(self.rtt_var <= 0xFFFF) by {
            lemma_sample_range(ack.received_sent_time, now_ms);
        }
        self.update_throttle(now_ms);
        let seq: u16 = ack.received_reliable_seq;
        remove_outstanding(&mut self.outgoing_reliable, channel_id, seq);
        assert(self.outgoing_reliable@.len() == outgoing::views(self.outgoing_reliable@).len());
        if self.state == PeerState::AcknowledgingConnect && channel_id == CHANNEL_ID_CONNECTION
            && seq == 1 {
            self.state = PeerState::Connected;
            let held: bool = self.handle_held;
            self.handle_held = false;
            if held {
                AckOutcome::Accepted
            } else {
                AckOutcome::Nothing
            }
        } else if self.state == PeerState::Disconnecting && self.outgoing_reliable.len() == 0 {
            AckOutcome::Disconnected
        } else {
            AckOutcome::Nothing
        }
    }
}

/// Law: a measured round-trip time is at least a millisecond and less than
/// what 16 bits hold.
pub proof fn lemma_sample_range(t: u16, now: u32)
    ensures
        rtt_sample(t, now) matches Some(s) ==> 1 <= s <= 0xFFFF,
{
}

/// Law: the estimates follow the samples: the round-trip time moves towards
/// the sample and never past it, and both stay within what 16 bits hold.
pub proof fn lemma_rtt_follows(p: PeerView, sample: u32)
    requires
        1 <= p.rtt <= 0xFFFF,
        p.rtt_var <= 0xFFFF,
        1 <= sample <= 0xFFFF,
    ensures
        ({
            let q = p.rtt_sampled(sample);
            &&& 1 <= q.rtt <= 0xFFFF
            &&& q.rtt_var <= 0xFFFF
            &&& p.rtt <= sample ==> p.rtt <= q.rtt <= sample
            &&& sample <= p.rtt ==> sample <= q.rtt <= p.rtt
        }),
{
}

/// Law: an acknowledgement that comes back at once, or within half of the
/// range of the timestamp, measures the time that passed.
pub proof fn lemma_sample_exact(then: u32, now: u32)
    requires
        then <= now < then + 0x8000,
    ensures
        rtt_sample((then % 0x1_0000) as u16, now) == Some(
            if now == then {
                1
            } else {
                (now - then) as u32
            },
        ),
{
}

/// Law: the throttle stays within its scale.
pub proof fn lemma_throttle_range(p: PeerView, now: u32)
    requires
        p.packet_throttle <= PACKET_THROTTLE_SCALE,
    ensures
        p.throttled(now).packet_throttle <= PACKET_THROTTLE_SCALE,
{
}

} // verus!
