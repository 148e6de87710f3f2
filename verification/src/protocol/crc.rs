//! CRC-32 (reflected polynomial `0xEDB88320`).

use vstd::prelude::*;

verus! {

/// The reflected generator polynomial.
pub const CRC32_POLYNOMIAL: u32 = 0xEDB8_8320;

/// One bit of the shift register.
pub open spec fn crc_step(crc: u32) -> u32 {
    if crc & 1 != 0 {
        (crc >> 1) ^ CRC32_POLYNOMIAL
    } else {
        crc >> 1
    }
}

/// `n` bits of the shift register.
pub open spec fn crc_steps(crc: u32, n: nat) -> u32
    decreases n,
{
    if n == 0 {
        crc
    } else {
        crc_steps(crc_step(crc), (n - 1) as nat)
    }
}

/// The register after the bytes of `data` were fed to it bit by bit.
pub open spec fn crc_fold(crc: u32, data: Seq<u8>) -> u32
    decreases data.len(),
{
    if data.len() == 0 {
        crc
    } else {
        crc_steps(crc_fold(crc, data.drop_last()) ^ data.last() as u32, 8)
    }
}

/// The CRC-32 of `data`.
pub open spec fn crc32_of(data: Seq<u8>) -> u32 {
    !crc_fold(0xFFFF_FFFF, data)
}

proof fn lemma_steps_xor(a: u32, b: u32, n: nat)
    ensures
        crc_steps(a ^ b, n) == crc_steps(a, n) ^ crc_steps(b, n),
    decreases n,
{
    if n > 0 {
        assert(crc_step(a ^ b) == crc_step(a) ^ crc_step(b)) by {
            let p = CRC32_POLYNOMIAL;
            assert((if (a ^ b) & 1 != 0 { ((a ^ b) >> 1) ^ p } else { (a ^ b) >> 1 }) == (if a & 1
                != 0 { (a >> 1) ^ p } else { a >> 1 }) ^ (if b & 1 != 0 { (b >> 1) ^ p } else {
                b >> 1
            })) by (bit_vector);
        }
        lemma_steps_xor(crc_step(a), crc_step(b), (n - 1) as nat);
    }
}

/// A register whose low byte is zero only shifts for eight bits.
proof fn lemma_steps_shift(x: u32)
    requires
        x & 0xFF == 0,
    ensures
        crc_steps(x, 8) == x >> 8,
{
    reveal_with_fuel(crc_steps, 9);
    assert(x & 1 == 0 && (x >> 1) & 1 == 0 && (x >> 1 >> 1) & 1 == 0 && (x >> 1 >> 1 >> 1) & 1 == 0
        && (x >> 1 >> 1 >> 1 >> 1) & 1 == 0 && (x >> 1 >> 1 >> 1 >> 1 >> 1) & 1 == 0 && (x >> 1 >> 1
        >> 1 >> 1 >> 1 >> 1) & 1 == 0 && (x >> 1 >> 1 >> 1 >> 1 >> 1 >> 1 >> 1) & 1 == 0 && x >> 1
        >> 1 >> 1 >> 1 >> 1 >> 1 >> 1 >> 1 == x >> 8) by (bit_vector)
        requires
            x & 0xFF == 0,
    ;
}

/// Feeding a byte through a table of the 256 low bytes is feeding it bit by
/// bit.
proof fn lemma_table_step(x: u32)
    ensures
        crc_steps(x, 8) == (x >> 8) ^ crc_steps(x & 0xFF, 8),
{
    let high = x & 0xFFFF_FF00;
    let low = x & 0xFF;
    assert(x == (x & 0xFFFF_FF00) ^ (x & 0xFF)) by (bit_vector);
    assert((x & 0xFFFF_FF00) & 0xFF == 0) by (bit_vector);
    assert((x & 0xFFFF_FF00) >> 8 == x >> 8) by (bit_vector);
    lemma_steps_xor(high, low, 8);
    lemma_steps_shift(high);
}

/// What each low byte of the register becomes after eight bits.
fn crc32_table() -> (table: [u32; 256])
    ensures
        forall|i: int| 0 <= i < 256 ==> #[trigger] table[i] == crc_steps(i as u32, 8),
{
    let mut table: [u32; 256] = [0u32; 256];
    let mut i: usize = 0;
    while i < 256
        invariant
            i <= 256,
            forall|k: int| 0 <= k < i ==> #[trigger] table[k] == crc_steps(k as u32, 8),
        decreases 256 - i,
    {
        let mut crc: u32 = i as u32;
        let mut j: u32 = 0;
        while j < 8
            invariant
                j <= 8,
                crc_steps(crc, (8 - j) as nat) == crc_steps(i as u32, 8),
            decreases 8 - j,
        {
            if crc & 1 != 0 {
                crc = (crc >> 1) ^ CRC32_POLYNOMIAL;
            } else {
                crc = crc >> 1;
            }
            j += 1;
        }
        table[i] = crc;
        i += 1;
    }
    table
}

/// CRC-32 of `data`.
pub fn crc32(data: &[u8]) -> (r: u32)
    ensures
        r == crc32_of(data@),
{
    let table = crc32_table();
    let mut crc: u32 = 0xFFFF_FFFF;
    let mut i: usize = 0;
    assert(data@.take(0) =~= Seq::<u8>::empty());
    while i < data.len()
        invariant
            i <= data@.len(),
            crc == crc_fold(0xFFFF_FFFF, data@.take(i as int)),
            forall|k: int| 0 <= k < 256 ==> #[trigger] table[k] == crc_steps(k as u32, 8),
        decreases data@.len() - i,
    {
        let b: u32 = data[i] as u32;
        let x: u32 = crc ^ b;
        assert(x & 0xFF < 256 && x >> 8 == crc >> 8) by (bit_vector)
            requires
                x == crc ^ b,
                b < 256,
        ;
        proof {
            lemma_table_step(x);
            assert(data@.take(i + 1).drop_last() =~= data@.take(i as int));
        }
        crc = (crc >> 8) ^ table[(x & 0xFF) as usize];
        i += 1;
    }
    assert(data@.take(i as int) =~= data@);
    !crc
}

} // verus!
