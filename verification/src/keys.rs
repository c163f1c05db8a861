//! The key schedule: a 32-bit key evolved through the fixed linear
//! recurrence `key * 7 + 3 (mod 2^32)`, its little-endian byte
//! decomposition, and the little-endian decoding of 32-bit fields.

use vstd::prelude::*;

verus! {

/// One step of the key recurrence: `k * 7 + 3`, wrapping modulo 2^32.
pub open spec fn next_key(k: u32) -> u32 {
    ((k * 7 + 3) % 0x1_0000_0000) as u32
}

/// The key after `n` steps of the recurrence.
pub open spec fn key_after(k: u32, n: nat) -> u32
    decreases n,
{
    if n == 0 {
        k
    } else {
        next_key(key_after(k, (n - 1) as nat))
    }
}

/// Byte `i` of the little-endian decomposition of `k`, for `0 <= i < 4`.
pub open spec fn key_byte(k: u32, i: int) -> u8
    recommends
        0 <= i < 4,
{
    if i == 0 {
        (k & 0xFF) as u8
    } else if i == 1 {
        ((k >> 8) & 0xFF) as u8
    } else if i == 2 {
        ((k >> 16) & 0xFF) as u8
    } else {
        ((k >> 24) & 0xFF) as u8
    }
}

/// The unsigned 32-bit value encoded little-endian by a 4-byte sequence.
pub open spec fn le32(s: Seq<u8>) -> u32
    recommends
        s.len() == 4,
{
    (s[0] as u32) | ((s[1] as u32) << 8) | ((s[2] as u32) << 16) | ((s[3] as u32) << 24)
}

/// The table-wide key the newer variant derives from its stored seed:
/// `seed * 9 + 3`, wrapping modulo 2^32.
pub open spec fn vx_key(seed: u32) -> u32 {
    ((seed * 9 + 3) % 0x1_0000_0000) as u32
}

/// Executes one step of the key recurrence.
pub fn advance_key(k: u32) -> (r: u32)
    ensures
        r == next_key(k),
{
    (((k as u64) * 7 + 3) % 0x1_0000_0000) as u32
}

/// Derives the newer variant's table-wide key from its seed.
pub fn derive_vx_key(seed: u32) -> (r: u32)
    ensures
        r == vx_key(seed),
{
    (((seed as u64) * 9 + 3) % 0x1_0000_0000) as u32
}

/// Extracts byte `i` of the little-endian decomposition of `k`.
pub fn key_byte_at(k: u32, i: usize) -> (r: u8)
    requires
        i < 4,
    ensures
        r == key_byte(k, i as int),
{
    if i == 0 {
        proof {
            assert(k & 0xFF < 256) by (bit_vector);
        }
        (k & 0xFF) as u8
    } else if i == 1 {
        proof {
            assert((k >> 8) & 0xFF < 256) by (bit_vector);
        }
        ((k >> 8) & 0xFF) as u8
    } else if i == 2 {
        proof {
            assert((k >> 16) & 0xFF < 256) by (bit_vector);
        }
        ((k >> 16) & 0xFF) as u8
    } else {
        proof {
            assert((k >> 24) & 0xFF < 256) by (bit_vector);
        }
        ((k >> 24) & 0xFF) as u8
    }
}

} // verus!
