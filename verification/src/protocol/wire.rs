//! Big-endian integers.

use vstd::prelude::*;

verus! {

/// The two bytes of `n`, most significant first.
pub open spec fn be16(n: u16) -> Seq<u8> {
    seq![(n / 256) as u8, (n % 256) as u8]
}

/// The four bytes of `n`, most significant first.
pub open spec fn be32(n: u32) -> Seq<u8> {
    seq![
        (n / 0x100_0000) as u8,
        (n / 0x1_0000 % 256) as u8,
        (n / 0x100 % 256) as u8,
        (n % 256) as u8,
    ]
}

/// The 16-bit integer that starts at position `i`.
pub open spec fn u16_at(s: Seq<u8>, i: int) -> u16 {
    (s[i] * 256 + s[i + 1]) as u16
}

/// The 32-bit integer that starts at position `i`.
pub open spec fn u32_at(s: Seq<u8>, i: int) -> u32 {
    (s[i] * 0x100_0000 + s[i + 1] * 0x1_0000 + s[i + 2] * 0x100 + s[i + 3]) as u32
}

/// Reads the 16-bit integer at position `i`.
pub fn read_u16(s: &[u8], i: usize) -> (n: u16)
    requires
        i + 2 <= s@.len(),
    ensures
        n == u16_at(s@, i as int),
{
    s[i] as u16 * 256 + s[i + 1] as u16
}

/// Reads the 32-bit integer at position `i`.
pub fn read_u32(s: &[u8], i: usize) -> (n: u32)
    requires
        i + 4 <= s@.len(),
    ensures
        n == u32_at(s@, i as int),
{
    s[i] as u32 * 0x100_0000 + s[i + 1] as u32 * 0x1_0000 + s[i + 2] as u32 * 0x100 + s[i + 3] as u32
}

/// The two bytes of `n`, most significant first.
pub fn to_be16(n: u16) -> (b: [u8; 2])
    ensures
        b@ == be16(n),
{
    [(n / 256) as u8, (n % 256) as u8]
}

/// The four bytes of `n`, most significant first.
pub fn to_be32(n: u32) -> (b: [u8; 4])
    ensures
        b@ == be32(n),
{
    [
        (n / 0x100_0000) as u8,
        (n / 0x1_0000 % 256) as u8,
        (n / 0x100 % 256) as u8,
        (n % 256) as u8,
    ]
}

/// Law: the bytes of a 16-bit integer read back as that integer, wherever
/// they stand.
pub proof fn lemma_be16_reads_back(s: Seq<u8>, i: int, n: u16)
    requires
        0 <= i,
        i + 2 <= s.len(),
        s.subrange(i, i + 2) == be16(n),
    ensures
        u16_at(s, i) == n,
{
    assert(s[i] == s.subrange(i, i + 2)[0]);
    assert(s[i + 1] == s.subrange(i, i + 2)[1]);
}

/// Law: the bytes of a 32-bit integer read back as that integer, wherever
/// they stand.
pub proof fn lemma_be32_reads_back(s: Seq<u8>, i: int, n: u32)
    requires
        0 <= i,
        i + 4 <= s.len(),
        s.subrange(i, i + 4) == be32(n),
    ensures
        u32_at(s, i) == n,
{
    assert(s[i] == s.subrange(i, i + 4)[0]);
    assert(s[i + 1] == s.subrange(i, i + 4)[1]);
    assert(s[i + 2] == s.subrange(i, i + 4)[2]);
    assert(s[i + 3] == s.subrange(i, i + 4)[3]);
}

/// Law: two bytes are the bytes of the integer read from them.
pub proof fn lemma_u16_at_writes_back(s: Seq<u8>, i: int)
    requires
        0 <= i,
        i + 2 <= s.len(),
    ensures
        be16(u16_at(s, i)) == s.subrange(i, i + 2),
{
    assert(be16(u16_at(s, i)) =~= s.subrange(i, i + 2));
}

proof fn lemma_be32_digits(a: u8, b: u8, c: u8, d: u8)
    by (bit_vector)
    ensures
        ({
            let n = (a * 0x100_0000 + b * 0x1_0000 + c * 0x100 + d) as u32;
            &&& n / 0x100_0000 == a
            &&& n / 0x1_0000 % 256 == b
            &&& n / 0x100 % 256 == c
            &&& n % 256 == d
        }),
{
}

/// Law: four bytes are the bytes of the integer read from them.
pub proof fn lemma_u32_at_writes_back(s: Seq<u8>, i: int)
    requires
        0 <= i,
        i + 4 <= s.len(),
    ensures
        be32(u32_at(s, i)) == s.subrange(i, i + 4),
{
    lemma_be32_digits(s[i], s[i + 1], s[i + 2], s[i + 3]);
    assert(be32(u32_at(s, i)) =~= s.subrange(i, i + 4));
}

} // verus!
