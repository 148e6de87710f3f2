//! Sequence numbers in wrapped 16-bit space.

use vstd::prelude::*;

verus! {

/// How far `b` is ahead of `a`, going up and wrapping at 65536.
pub open spec fn seq_distance(a: u16, b: u16) -> int {
    (b - a) % 0x1_0000
}

/// `a` comes before `b`: `b` is ahead of `a` by less than half of the space.
pub open spec fn seq_before(a: u16, b: u16) -> bool {
    0 < seq_distance(a, b) < 0x8000
}

/// The sequence number after `a`.
pub open spec fn seq_next(a: u16) -> u16 {
    seq_plus(a, 1)
}

/// The sequence number `n` after `a`.
pub open spec fn seq_plus(a: u16, n: int) -> u16 {
    ((a + n) % 0x1_0000) as u16
}

/// Returns true if `a` comes before `b` in wrapped 16-bit sequence space.
pub fn seq_lt(a: u16, b: u16) -> (r: bool)
    ensures
        r == seq_before(a, b),
{
    let ahead: u16 = b.wrapping_sub(a);
    0 < ahead && ahead < 0x8000
}

/// Law: nothing comes before itself, and of two numbers at most one comes
/// before the other; exactly one does unless they are equal or half of the
/// space apart.
pub proof fn lemma_seq_order(a: u16, b: u16)
    ensures
        !seq_before(a, a),
        !(seq_before(a, b) && seq_before(b, a)),
        a != b && seq_distance(a, b) != 0x8000 ==> seq_before(a, b) || seq_before(b, a),
{
}

/// Law: a number comes before each of the 32767 numbers that follow it, also
/// across the wrap.
pub proof fn lemma_seq_ahead(a: u16, n: int)
    requires
        0 < n < 0x8000,
    ensures
        seq_before(a, seq_plus(a, n)),
{
}

} // verus!
