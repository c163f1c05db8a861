//! The entry table: what a decoded archive means, as recursive functions
//! over the raw byte sequence. The two engine variants have incompatible
//! layouts and key schedules, so each gets its own decoder.
//!
//! All four-byte fields are signed 32-bit integers on the wire; a decrypted
//! field whose value has the sign bit set names a negative count or offset,
//! which only a corrupt archive produces, so decoding fails there. Decoding
//! also fails where a field or a content region would run past the end of
//! the buffer: every entry of a decoded table satisfies
//! `0 <= offset && 0 <= size && offset + size <= data.len()`.

use vstd::prelude::*;

use crate::cipher::{decrypt_content, decrypt_name_older, decrypt_name_vx};
use crate::keys::{key_after, le32, next_key, vx_key};

verus! {

/// One decoded entry: the decrypted filename, the absolute offset and byte
/// count of its content region, and the seed of its content keystream.
pub ghost struct EntrySpec {
    pub filename: Seq<u8>,
    pub offset: int,
    pub size: int,
    pub key: u32,
}

/// One extracted file: the decrypted filename and the decrypted content.
pub ghost struct FileSpec {
    pub filename: Seq<u8>,
    pub content: Seq<u8>,
}

/// The fixed 6-byte magic `RGSSAD` that opens every archive.
pub open spec fn spec_magic() -> Seq<u8> {
    seq![82u8, 71u8, 83u8, 83u8, 65u8, 68u8]
}

/// The fixed initial key of the older variant.
pub open spec fn older_default_key() -> u32 {
    0xDEADCAFE
}

/// A decrypted signed 32-bit field is usable as a count or offset only when
/// it is non-negative, i.e. below 2^31.
pub open spec fn field_ok(v: u32) -> bool {
    v < 0x8000_0000
}

/// An entry's content region lies inside a buffer of length `len`.
pub open spec fn entry_in_bounds(e: EntrySpec, len: int) -> bool {
    0 <= e.offset && 0 <= e.size && e.offset + e.size <= len
}

/// Decodes the older variant's table starting at `pos` with key `key`.
///
/// Each round decrypts a filename length (key advances), the filename (key
/// advances once per byte), and a content size (key advances); the content
/// starts right after, the cursor skips it, and the key current at that
/// point seeds the entry's content keystream. The table ends exactly when
/// the cursor lands on the end of the buffer after recording an entry.
pub open spec fn older_table(data: Seq<u8>, pos: int, key: u32) -> Option<Seq<EntrySpec>>
    decreases data.len() - pos,
{
    if pos + 4 > data.len() {
        None
    } else {
        let name_len_field = le32(data.subrange(pos, pos + 4)) ^ key;
        let name_len = name_len_field as int;
        let k1 = next_key(key);
        if !field_ok(name_len_field) || pos + 8 + name_len > data.len() {
            None
        } else {
            let name = decrypt_name_older(data.subrange(pos + 4, pos + 4 + name_len), k1);
            let k2 = key_after(k1, name_len as nat);
            let size_field = le32(data.subrange(pos + 4 + name_len, pos + 8 + name_len)) ^ k2;
            let size = size_field as int;
            let k3 = next_key(k2);
            let off = pos + 8 + name_len;
            if !field_ok(size_field) || off + size > data.len() {
                None
            } else {
                let e = EntrySpec { filename: name, offset: off, size: size, key: k3 };
                if off + size == data.len() {
                    Some(seq![e])
                } else {
                    match older_table(data, off + size, k3) {
                        None => None,
                        Some(rest) => Some(seq![e] + rest),
                    }
                }
            }
        }
    }
}

/// Decodes the newer variant's table starting at `pos`.
///
/// Every field of every entry is decrypted with the same fixed table-wide
/// `key`, which never advances. Each round decrypts an offset (a decrypted
/// offset of `0` is the terminator sentinel, recording no entry), a size,
/// the entry's own content key, a filename length, and the filename, whose
/// keystream restarts at byte 0 of the table-wide key for every entry.
pub open spec fn vx_table(data: Seq<u8>, pos: int, key: u32) -> Option<Seq<EntrySpec>>
    decreases data.len() - pos,
{
    if pos + 4 > data.len() {
        None
    } else {
        let off_field = le32(data.subrange(pos, pos + 4)) ^ key;
        let off = off_field as int;
        if off == 0 {
            Some(Seq::<EntrySpec>::empty())
        } else if pos + 16 > data.len() {
            None
        } else {
            let size_field = le32(data.subrange(pos + 4, pos + 8)) ^ key;
            let size = size_field as int;
            let ekey = le32(data.subrange(pos + 8, pos + 12)) ^ key;
            let name_len_field = le32(data.subrange(pos + 12, pos + 16)) ^ key;
            let name_len = name_len_field as int;
            if !field_ok(off_field) || !field_ok(size_field) || !field_ok(name_len_field) || pos
                + 16 + name_len > data.len() || off + size > data.len() {
                None
            } else {
                let name = decrypt_name_vx(data.subrange(pos + 16, pos + 16 + name_len), key);
                let e = EntrySpec { filename: name, offset: off, size: size, key: ekey };
                match vx_table(data, pos + 16 + name_len, key) {
                    None => None,
                    Some(rest) => Some(seq![e] + rest),
                }
            }
        }
    }
}

/// Every entry of a decoded older table lies inside the buffer.
pub proof fn lemma_older_table_in_bounds(data: Seq<u8>, pos: int, key: u32)
    requires
        0 <= pos,
    ensures
        older_table(data, pos, key) is Some ==> forall|i: int|
            0 <= i < older_table(data, pos, key)->Some_0.len() ==> #[trigger] entry_in_bounds(
                older_table(data, pos, key)->Some_0[i],
                data.len() as int,
            ),
    decreases data.len() - pos,
{
    if older_table(data, pos, key) is Some {
        let es = older_table(data, pos, key)->Some_0;
        let name_len = (le32(data.subrange(pos, pos + 4)) ^ key) as int;
        let k1 = next_key(key);
        let k2 = key_after(k1, name_len as nat);
        let k3 = next_key(k2);
        let off = pos + 8 + name_len;
        let size = (le32(data.subrange(pos + 4 + name_len, pos + 8 + name_len)) ^ k2) as int;
        if off + size == data.len() {
            assert(entry_in_bounds(es[0], data.len() as int));
        } else {
            lemma_older_table_in_bounds(data, off + size, k3);
            let rest = older_table(data, off + size, k3)->Some_0;
            assert forall|i: int| 0 <= i < es.len() implies #[trigger] entry_in_bounds(
                es[i],
                data.len() as int,
            ) by {
                if i > 0 {
                    assert(es[i] == rest[i - 1]);
                }
            }
        }
    }
}

/// Every entry of a decoded newer-variant table lies inside the buffer.
pub proof fn lemma_vx_table_in_bounds(data: Seq<u8>, pos: int, key: u32)
    requires
        0 <= pos,
    ensures
        vx_table(data, pos, key) is Some ==> forall|i: int|
            0 <= i < vx_table(data, pos, key)->Some_0.len() ==> #[trigger] entry_in_bounds(
                vx_table(data, pos, key)->Some_0[i],
                data.len() as int,
            ),
    decreases data.len() - pos,
{
    if vx_table(data, pos, key) is Some {
        let es = vx_table(data, pos, key)->Some_0;
        let off = (le32(data.subrange(pos, pos + 4)) ^ key) as int;
        if off != 0 {
            let name_len = (le32(data.subrange(pos + 12, pos + 16)) ^ key) as int;
            lemma_vx_table_in_bounds(data, pos + 16 + name_len, key);
            let rest = vx_table(data, pos + 16 + name_len, key)->Some_0;
            assert forall|i: int| 0 <= i < es.len() implies #[trigger] entry_in_bounds(
                es[i],
                data.len() as int,
            ) by {
                if i > 0 {
                    assert(es[i] == rest[i - 1]);
                }
            }
        }
    }
}

/// Terminator law of the newer variant: a table whose next decrypted offset
/// field is readable decodes to the empty table exactly when that field is
/// zero — the sentinel, and nothing else, ends the table.
pub proof fn lemma_vx_terminator(data: Seq<u8>, pos: int, key: u32)
    requires
        pos + 4 <= data.len(),
    ensures
        vx_table(data, pos, key) == Some(Seq::<EntrySpec>::empty()) <==> le32(
            data.subrange(pos, pos + 4),
        ) ^ key == 0,
{
    let off = (le32(data.subrange(pos, pos + 4)) ^ key) as int;
    if off != 0 && vx_table(data, pos, key) is Some {
        assert(vx_table(data, pos, key)->Some_0.len() >= 1);
    }
}

/// Terminator law of the older variant: a table that decodes at all holds
/// at least one entry, and its last entry's content region ends exactly at
/// the end of the buffer — the cursor reaching the buffer length, and
/// nothing else, ends the table.
pub proof fn lemma_older_terminator(data: Seq<u8>, pos: int, key: u32)
    requires
        older_table(data, pos, key) is Some,
    ensures
        older_table(data, pos, key)->Some_0.len() >= 1,
        older_table(data, pos, key)->Some_0.last().offset + older_table(
            data,
            pos,
            key,
        )->Some_0.last().size == data.len(),
    decreases data.len() - pos,
{
    let es = older_table(data, pos, key)->Some_0;
    let name_len = (le32(data.subrange(pos, pos + 4)) ^ key) as int;
    let k1 = next_key(key);
    let k2 = key_after(k1, name_len as nat);
    let k3 = next_key(k2);
    let off = pos + 8 + name_len;
    let size = (le32(data.subrange(pos + 4 + name_len, pos + 8 + name_len)) ^ k2) as int;
    if off + size != data.len() {
        lemma_older_terminator(data, off + size, k3);
        let rest = older_table(data, off + size, k3)->Some_0;
        assert(es.last() == rest.last());
    }
}

} // verus!
