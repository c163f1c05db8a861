//! The XOR stream cipher: what decrypting a content region or a filename
//! means, stated over byte sequences and the key schedule.

use vstd::prelude::*;

use crate::keys::{key_after, key_byte};

verus! {

/// Byte `i` of the content keystream seeded with `k`: the key advances
/// through the recurrence once every 4 bytes, and each 4-byte block is the
/// little-endian decomposition of the key current for that block.
pub open spec fn stream_byte(k: u32, i: int) -> u8
    recommends
        0 <= i,
{
    key_byte(key_after(k, (i / 4) as nat), i % 4)
}

/// Decryption of a content region seeded with key `k`: each byte is XORed
/// with the corresponding keystream byte. Encryption is the identical
/// operation, so this function is its own inverse.
pub open spec fn decrypt_content(c: Seq<u8>, k: u32) -> Seq<u8> {
    Seq::new(c.len(), |i: int| c[i] ^ stream_byte(k, i))
}

/// Filename decryption of the older variant: byte `i` is XORed with the low
/// 8 bits of the key, and the key advances after every single byte.
pub open spec fn decrypt_name_older(c: Seq<u8>, k: u32) -> Seq<u8> {
    Seq::new(c.len(), |i: int| c[i] ^ key_byte(key_after(k, i as nat), 0))
}

/// Filename decryption of the newer variant: byte `i` is XORed with byte
/// `i % 4` of the fixed table-wide key, which never advances.
pub open spec fn decrypt_name_vx(c: Seq<u8>, k: u32) -> Seq<u8> {
    Seq::new(c.len(), |i: int| c[i] ^ key_byte(k, i % 4))
}

/// Round trip: running the keystream over a plaintext twice with the same
/// seed gives the plaintext back, so encrypting with the documented XOR
/// recurrence and then decrypting restores the original bytes.
pub proof fn lemma_content_round_trip(p: Seq<u8>, k: u32)
    ensures
        decrypt_content(decrypt_content(p, k), k) == p,
{
    let once = decrypt_content(p, k);
    let twice = decrypt_content(once, k);
    assert forall|i: int| 0 <= i < p.len() implies twice[i] == p[i] by {
        let b = p[i];
        let s = stream_byte(k, i);
        assert((b ^ s) ^ s == b) by (bit_vector);
    }
    assert(twice =~= p);
}

} // verus!
