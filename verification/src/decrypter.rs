//! The decoding session: a cursor over the archive buffer, the evolving
//! key, and the methods that walk header, entry table and content regions.

use vstd::prelude::*;

use crate::cipher::{decrypt_content, decrypt_name_older, decrypt_name_vx, stream_byte};
use crate::keys::{advance_key, derive_vx_key, key_after, key_byte, key_byte_at, le32, next_key,
    vx_key};
use crate::table::{entry_in_bounds, lemma_older_table_in_bounds,
    lemma_vx_table_in_bounds, older_default_key, older_table, spec_magic, vx_table, EntrySpec,
    FileSpec};

verus! {

/// Why a decode failed: a wrong magic (carrying the 6 bytes found), a
/// variant byte that names no known engine (carrying the byte), or an
/// archive whose fields or regions do not fit its buffer.
#[derive(Debug)]
#[allow(inconsistent_fields)]
pub enum ExtractError {
    InvalidHeader { found: [u8; 6] },
    InvalidEngine { found: u8 },
    Corruption,
}

/// What an extraction against a filesystem ended as: every file written, or
/// a collision with an existing file while overwriting was disabled.
#[derive(Debug, PartialEq, Eq, Structural)]
pub enum ExtractOutcome {
    Extracted,
    FilesExist,
}

/// The two archive layouts: `Older` for the two earlier engines, `VXAce`
/// for the newer one. Selected by the header's variant byte.
#[derive(Debug, PartialEq, Eq, Structural, Clone, Copy)]
pub enum EngineType {
    Older,
    VXAce,
}

/// Where a cursor move counts from.
pub enum SeekFrom {
    Start,
    Current,
}

/// One decoded table entry: the decrypted filename, the content region it
/// names, and the seed of its content keystream.
pub struct ArchiveEntry {
    pub filename_bytes: Vec<u8>,
    pub size: usize,
    pub offset: usize,
    pub key: u32,
}

impl View for ArchiveEntry {
    type V = EntrySpec;

    open spec fn view(&self) -> EntrySpec {
        EntrySpec {
            filename: self.filename_bytes@,
            offset: self.offset as int,
            size: self.size as int,
            key: self.key,
        }
    }
}

/// One decrypted file: the decrypted filename bytes, interpreted by callers
/// as a relative path, and the decrypted content.
pub struct DecryptedFile {
    pub filename_bytes: Vec<u8>,
    pub content: Vec<u8>,
}

impl View for DecryptedFile {
    type V = FileSpec;

    open spec fn view(&self) -> FileSpec {
        FileSpec { filename: self.filename_bytes@, content: self.content@ }
    }
}

/// The mathematical contents of a list of decoded entries.
pub open spec fn entries_view(es: Seq<ArchiveEntry>) -> Seq<EntrySpec> {
    es.map_values(|e: ArchiveEntry| e@)
}

/// The table a buffer decodes to under a given engine variant, starting
/// just past the 8-byte header with a given initial key. The newer variant
/// first reads its raw 4-byte seed and derives the fixed table-wide key
/// from it; the initial key does not matter there.
pub open spec fn table_spec(data: Seq<u8>, engine: EngineType, key: u32) -> Option<Seq<EntrySpec>> {
    if engine == EngineType::Older {
        older_table(data, 8, key)
    } else if data.len() < 12 {
        None
    } else {
        vx_table(data, 12, vx_key(le32(data.subrange(8, 12))))
    }
}

/// Whether the first 8 bytes are a well-formed header: the magic, any
/// separator byte, and a variant byte naming one of the two engines.
pub open spec fn header_ok(data: Seq<u8>) -> bool {
    data.len() >= 8 && data.subrange(0, 6) == spec_magic() && (data[7] == 1 || data[7] == 3)
}

/// The files a well-formed archive decodes to, in archive order: each table
/// entry's decrypted filename paired with its decrypted content region.
/// `None` where the header is right but the table does not decode.
pub open spec fn spec_files(data: Seq<u8>) -> Option<Seq<FileSpec>>
    recommends
        header_ok(data),
{
    let engine = if data[7] == 1 {
        EngineType::Older
    } else {
        EngineType::VXAce
    };
    match table_spec(data, engine, older_default_key()) {
        None => None,
        Some(es) => Some(
            Seq::new(
                es.len(),
                |i: int|
                    FileSpec {
                        filename: es[i].filename,
                        content: decrypt_content(
                            data.subrange(es[i].offset, es[i].offset + es[i].size),
                            es[i].key,
                        ),
                    },
            ),
        ),
    }
}

/// Decrypts and extracts files from encrypted game archives.
pub struct Decrypter {
    pub pos: usize,
    pub force: bool,
    pub engine_type: EngineType,
    pub key: u32,
}

impl Decrypter {
    /// Creates a decrypter with the cursor at the start, `force` disabled,
    /// and the key schedule of the older variant.
    pub fn new() -> (r: Self)
        ensures
            r.pos == 0,
            r.force == false,
            r.engine_type == EngineType::Older,
            r.key == older_default_key(),
    {
        Self { pos: 0, force: false, engine_type: EngineType::Older, key: 0xDEADCAFE }
    }

    /// Enables or disables forced overwrite during extraction, returning
    /// the decrypter itself.
    pub fn force(self, enabled: bool) -> (r: Self)
        ensures
            r.force == enabled,
            r.pos == self.pos,
            r.engine_type == self.engine_type,
            r.key == self.key,
    {
        let mut s = self;
        s.force = enabled;
        s
    }

    /// Enables or disables forced overwrite during extraction.
    pub fn set_force(&mut self, enabled: bool)
        ensures
            final(self).force == enabled,
            final(self).pos == old(self).pos,
            final(self).engine_type == old(self).engine_type,
            final(self).key == old(self).key,
    {
        self.force = enabled;
    }

    /// Replaces the current key.
    fn update_key(&mut self, new_key: u32)
        ensures
            final(self).key == new_key,
            final(self).pos == old(self).pos,
            final(self).engine_type == old(self).engine_type,
            final(self).force == old(self).force,
    {
        self.key = new_key;
    }

    /// Moves the cursor back to the start of a fresh decoding session.
    fn reset(&mut self)
        ensures
            final(self).pos == 0,
            final(self).engine_type == EngineType::Older,
            final(self).key == older_default_key(),
            final(self).force == old(self).force,
    {
        self.pos = 0;
        self.engine_type = EngineType::Older;
        self.key = 0xDEADCAFE;
    }

    /// Reads exactly `n` raw bytes at the cursor, or fails where the buffer
    /// ends first.
    fn read_bytes(&mut self, data: &[u8], n: usize) -> (r: Result<Vec<u8>, ExtractError>)
        ensures
            ({
                match r {
                    Ok(v) => old(self).pos + n <= data@.len() && v@ == data@.subrange(
                        old(self).pos as int,
                        old(self).pos + n,
                    ) && final(self).pos == old(self).pos + n && final(self).key == old(self).key
                        && final(self).engine_type == old(self).engine_type && final(self).force
                        == old(self).force,
                    Err(e) => e == ExtractError::Corruption && old(self).pos + n > data@.len()
                        && *final(self) == *old(self),
                }
            }),
    {
        if n > data.len() || self.pos > data.len() - n {
            return Err(ExtractError::Corruption);
        }
        let p = self.pos;
        let len = data.len();
        let mut v: Vec<u8> = Vec::new();
        let mut i: usize = 0;
        while i < n
            invariant
                i <= n,
                p + n <= len,
                len == data@.len(),
                v@ == data@.subrange(p as int, p + i),
            decreases n - i,
        {
            v.push(data[p + i]);
            assert(v@ =~= data@.subrange(p as int, p + i + 1));
            i += 1;
        }
        self.pos = p + n;
        Ok(v)
    }

    /// Reads one raw byte at the cursor, or fails where the buffer ends.
    fn read_byte(&mut self, data: &[u8]) -> (r: Result<u8, ExtractError>)
        ensures
            ({
                match r {
                    Ok(b) => old(self).pos + 1 <= data@.len() && b == data@[old(self).pos as int]
                        && final(self).pos == old(self).pos + 1 && final(self).key == old(
                        self,
                    ).key && final(self).engine_type == old(self).engine_type && final(self).force
                        == old(self).force,
                    Err(e) => e == ExtractError::Corruption && old(self).pos + 1 > data@.len()
                        && *final(self) == *old(self),
                }
            }),
    {
        if self.pos >= data.len() {
            return Err(ExtractError::Corruption);
        }
        let b = data[self.pos];
        self.pos = self.pos + 1;
        Ok(b)
    }

    /// Reads the next 4 bytes as a raw little-endian 32-bit integer, or
    /// fails where the buffer ends first.
    fn read_int(&mut self, data: &[u8]) -> (r: Result<u32, ExtractError>)
        ensures
            ({
                match r {
                    Ok(v) => old(self).pos + 4 <= data@.len() && v == le32(
                        data@.subrange(old(self).pos as int, old(self).pos + 4),
                    ) && final(self).pos == old(self).pos + 4 && final(self).key == old(self).key
                        && final(self).engine_type == old(self).engine_type && final(self).force
                        == old(self).force,
                    Err(e) => e == ExtractError::Corruption && old(self).pos + 4 > data@.len()
                        && *final(self) == *old(self),
                }
            }),
    {
        if data.len() < 4 || self.pos > data.len() - 4 {
            return Err(ExtractError::Corruption);
        }
        let p = self.pos;
        let b0 = data[p];
        let b1 = data[p + 1];
        let b2 = data[p + 2];
        let b3 = data[p + 3];
        let v = (b0 as u32) | ((b1 as u32) << 8u32) | ((b2 as u32) << 16u32) | ((b3 as u32)
            << 24u32);
        proof {
            let s = data@.subrange(p as int, p + 4);
            assert(s[0] == data@[p as int] && s[1] == data@[p + 1] && s[2] == data@[p + 2] && s[3]
                == data@[p + 3]);
        }
        self.pos = p + 4;
        Ok(v)
    }

    /// Moves the cursor to `offset`, counted from the start or from the
    /// current position.
    fn seek_byte(&mut self, offset: usize, seek_from: SeekFrom)
        requires
            (seek_from matches SeekFrom::Current) ==> old(self).pos + offset <= usize::MAX,
        ensures
            final(self).pos == (match seek_from {
                SeekFrom::Start => offset as int,
                SeekFrom::Current => old(self).pos + offset,
            }),
            final(self).key == old(self).key,
            final(self).engine_type == old(self).engine_type,
            final(self).force == old(self).force,
    {
        self.pos = match seek_from {
            SeekFrom::Start => offset,
            SeekFrom::Current => self.pos + offset,
        };
    }

    /// Decrypts the next 32-bit table field with the current key. Only the
    /// older variant advances the key afterwards; the newer variant reuses
    /// its fixed table-wide key for every field.
    fn decrypt_int(&mut self, data: &[u8]) -> (r: Result<u32, ExtractError>)
        ensures
            ({
                match r {
                    Ok(v) => old(self).pos + 4 <= data@.len() && v == (le32(
                        data@.subrange(old(self).pos as int, old(self).pos + 4),
                    ) ^ old(self).key) && final(self).pos == old(self).pos + 4 && final(self).key
                        == (if old(self).engine_type == EngineType::Older {
                        next_key(old(self).key)
                    } else {
                        old(self).key
                    }) && final(self).engine_type == old(self).engine_type && final(self).force
                        == old(self).force,
                    Err(e) => e == ExtractError::Corruption && old(self).pos + 4 > data@.len()
                        && *final(self) == *old(self),
                }
            }),
    {
        let v = match self.read_int(data) {
            Ok(v) => v,
            Err(e) => return Err(e),
        };
        let result = v ^ self.key;
        if self.engine_type == EngineType::Older {
            let nk = advance_key(self.key);
            self.update_key(nk);
        }
        Ok(result)
    }

    /// Decrypts the next `name_len` bytes as a filename, or fails where the
    /// buffer ends first. The newer variant XORs with the 4-byte cycle of
    /// the fixed table-wide key, restarted at byte 0 for every filename;
    /// the older variant XORs with the low byte of the key and advances the
    /// key after every single byte.
    #[verifier::loop_isolation(false)]
    fn decrypt_filename(&mut self, data: &[u8], name_len: usize) -> (r: Result<
        Vec<u8>,
        ExtractError,
    >)
        ensures
            ({
                match r {
                    Ok(v) => old(self).pos + name_len <= data@.len() && v@ == (if old(
                        self,
                    ).engine_type == EngineType::VXAce {
                        decrypt_name_vx(
                            data@.subrange(old(self).pos as int, old(self).pos + name_len),
                            old(self).key,
                        )
                    } else {
                        decrypt_name_older(
                            data@.subrange(old(self).pos as int, old(self).pos + name_len),
                            old(self).key,
                        )
                    }) && final(self).pos == old(self).pos + name_len && final(self).key == (if old(
                        self,
                    ).engine_type == EngineType::Older {
                        key_after(old(self).key, name_len as nat)
                    } else {
                        old(self).key
                    }) && final(self).engine_type == old(self).engine_type && final(self).force
                        == old(self).force,
                    Err(e) => e == ExtractError::Corruption && old(self).pos + name_len
                        > data@.len() && *final(self) == *old(self),
                }
            }),
    {
        if name_len > data.len() || self.pos > data.len() - name_len {
            return Err(ExtractError::Corruption);
        }
        let p = self.pos;
        let len = data.len();
        let ghost sub = data@.subrange(p as int, p + name_len);
        let mut v: Vec<u8> = Vec::new();
        if self.engine_type == EngineType::VXAce {
            let k = self.key;
            let mut i: usize = 0;
            while i < name_len
                invariant
                    i <= name_len,
                    v@.len() == i,
                    forall|j: int|
                        0 <= j < i ==> v@[j] == (data@[p + j] ^ key_byte(k, j % 4)),
                decreases name_len - i,
            {
                let kb = key_byte_at(k, i % 4);
                v.push(data[p + i] ^ kb);
                i += 1;
            }
            proof {
                assert forall|j: int| 0 <= j < name_len implies v@[j] == decrypt_name_vx(
                    sub,
                    k,
                )[j] by {
                    assert(sub[j] == data@[p + j]);
                }
                assert(v@ =~= decrypt_name_vx(sub, k));
            }
            self.pos = p + name_len;
            Ok(v)
        } else {
            let ghost k0 = self.key;
            let mut i: usize = 0;
            while i < name_len
                invariant
                    i <= name_len,
                    v@.len() == i,
                    self.key == key_after(k0, i as nat),
                    self.pos == p,
                    self.engine_type == EngineType::Older,
                    self.force == old(self).force,
                    forall|j: int|
                        0 <= j < i ==> v@[j] == (data@[p + j] ^ key_byte(
                            key_after(k0, j as nat),
                            0,
                        )),
                decreases name_len - i,
            {
                let kb = key_byte_at(self.key, 0);
                v.push(data[p + i] ^ kb);
                let nk = advance_key(self.key);
                self.update_key(nk);
                proof {
                    assert(key_after(k0, (i + 1) as nat) == next_key(key_after(k0, i as nat)));
                }
                i += 1;
            }
            proof {
                assert forall|j: int| 0 <= j < name_len implies v@[j] == decrypt_name_older(
                    sub,
                    k0,
                )[j] by {
                    assert(sub[j] == data@[p + j]);
                }
                assert(v@ =~= decrypt_name_older(sub, k0));
            }
            self.pos = p + name_len;
            Ok(v)
        }
    }

    /// Decrypts one entry's content region: a fresh keystream seeded with
    /// the entry's own key is XORed over the `size` bytes at `offset`.
    /// Fails where the region does not lie inside the buffer.
    #[verifier::loop_isolation(false)]
    pub fn decrypt_entry(&mut self, data: &[u8], entry: &ArchiveEntry) -> (r: Result<
        Vec<u8>,
        ExtractError,
    >)
        ensures
            ({
                match r {
                    Ok(v) => entry.offset + entry.size <= data@.len() && v@ == decrypt_content(
                        data@.subrange(entry.offset as int, entry.offset + entry.size),
                        entry.key,
                    ) && final(self).pos == entry.offset + entry.size && final(self).key == old(
                        self,
                    ).key && final(self).engine_type == old(self).engine_type && final(self).force
                        == old(self).force,
                    Err(e) => e == ExtractError::Corruption && entry.offset + entry.size
                        > data@.len() && *final(self) == *old(self),
                }
            }),
    {
        if entry.size > data.len() || entry.offset > data.len() - entry.size {
            return Err(ExtractError::Corruption);
        }
        let mut key = entry.key;
        self.seek_byte(entry.offset, SeekFrom::Start);
        let size = entry.size;
        let offset = entry.offset;
        let ghost sub = data@.subrange(offset as int, offset + size);
        let mut decrypted: Vec<u8> = Vec::new();
        let mut i: usize = 0;
        while i < size
            invariant
                i <= size,
                decrypted@.len() == i,
                key == key_after(entry.key, (i / 4) as nat),
                forall|j: int|
                    0 <= j < i ==> decrypted@[j] == (data@[offset + j] ^ stream_byte(
                        entry.key,
                        j,
                    )),
            decreases size - i,
        {
            let kb = key_byte_at(key, i % 4);
            decrypted.push(data[offset + i] ^ kb);
            proof {
                assert((i as int) % 4 == (i % 4) as int);
                assert((i as int) / 4 == (i / 4) as int);
                assert(stream_byte(entry.key, i as int) == key_byte(
                    key_after(entry.key, ((i as int) / 4) as nat),
                    (i as int) % 4,
                ));
            }
            if i % 4 == 3 {
                key = advance_key(key);
                proof {
                    assert((i + 1) as int / 4 == (i as int) / 4 + 1);
                    assert(key_after(entry.key, ((i as int) / 4 + 1) as nat) == next_key(
                        key_after(entry.key, ((i as int) / 4) as nat),
                    ));
                }
            } else {
                proof {
                    assert((i + 1) as int / 4 == (i as int) / 4);
                }
            }
            i += 1;
        }
        proof {
            assert forall|j: int| 0 <= j < size implies decrypted@[j] == decrypt_content(
                sub,
                entry.key,
            )[j] by {
                assert(sub[j] == data@[offset + j]);
            }
            assert(decrypted@ =~= decrypt_content(sub, entry.key));
        }
        self.seek_byte(size, SeekFrom::Current);
        Ok(decrypted)
    }

    /// Reads the 6-byte magic, the separator byte and the variant byte,
    /// recording the detected engine variant. Fails with the found bytes
    /// where the magic is not `RGSSAD`, with the found byte where the
    /// variant byte names no engine, and as corruption where the buffer is
    /// too short to hold the 8-byte header.
    pub fn parse_header(&mut self, data: &[u8]) -> (r: Result<(), ExtractError>)
        requires
            old(self).pos == 0,
        ensures
            final(self).force == old(self).force,
            final(self).key == old(self).key,
            ({
                match r {
                    Ok(_) => data@.len() >= 8 && data@.subrange(0, 6) == spec_magic() && (data@[7]
                        == 1 || data@[7] == 3) && final(self).engine_type == (if data@[7] == 1 {
                        EngineType::Older
                    } else {
                        EngineType::VXAce
                    }) && final(self).pos == 8 && final(self).key == old(self).key
                        && final(self).force == old(self).force,
                    Err(ExtractError::InvalidHeader { found }) => data@.len() >= 6 && found@
                        == data@.subrange(0, 6) && found@ != spec_magic(),
                    Err(ExtractError::InvalidEngine { found }) => data@.len() >= 8
                        && data@.subrange(0, 6) == spec_magic() && found == data@[7] && found != 1
                        && found != 3,
                    Err(ExtractError::Corruption) => data@.len() < 6 || (data@.subrange(0, 6)
                        == spec_magic() && data@.len() < 8),
                }
            }),
    {
        let header = match self.read_bytes(data, 6) {
            Ok(v) => v,
            Err(e) => return Err(e),
        };
        let is_magic = header[0] == 82 && header[1] == 71 && header[2] == 83 && header[3] == 83
            && header[4] == 65 && header[5] == 68;
        if !is_magic {
            let found: [u8; 6] = [header[0], header[1], header[2], header[3], header[4], header[5]];
            proof {
                assert(found@ =~= data@.subrange(0, 6));
                assert(spec_magic()[0] == 82 && spec_magic()[1] == 71 && spec_magic()[2] == 83
                    && spec_magic()[3] == 83 && spec_magic()[4] == 65 && spec_magic()[5] == 68);
            }
            return Err(ExtractError::InvalidHeader { found });
        }
        proof {
            assert(header@ =~= spec_magic());
        }
        self.seek_byte(1, SeekFrom::Current);
        let engine_byte = match self.read_byte(data) {
            Ok(b) => b,
            Err(_) => return Err(ExtractError::Corruption),
        };
        self.engine_type = match engine_byte {
            1 => EngineType::Older,
            3 => EngineType::VXAce,
            _ => return Err(ExtractError::InvalidEngine { found: engine_byte }),
        };
        Ok(())
    }

    /// Decodes the entry table that begins just past the header, in the
    /// layout of the detected engine variant, and returns the entries in
    /// archive order. Fails as corruption exactly where the table does not
    /// decode: a field or region past the end of the buffer, or a field
    /// with the sign bit set.
    #[verifier::loop_isolation(false)]
    pub fn extract_entries(&mut self, data: &[u8]) -> (r: Result<Vec<ArchiveEntry>, ExtractError>)
        requires
            old(self).pos == 8,
            data@.len() >= 8,
            old(self).engine_type == EngineType::Older ==> old(self).key == older_default_key(),
        ensures
            final(self).force == old(self).force,
            ({
                match r {
                    Ok(es) => table_spec(data@, old(self).engine_type, old(self).key) == Some(
                        entries_view(es@),
                    ) && final(self).engine_type == old(self).engine_type && final(self).force
                        == old(self).force && (old(self).engine_type == EngineType::VXAce
                        ==> final(self).key == vx_key(le32(data@.subrange(8, 12)))),
                    Err(e) => e == ExtractError::Corruption && table_spec(
                        data@,
                        old(self).engine_type,
                        old(self).key,
                    ) is None,
                }
            }),
    {
        let ghost k_start = self.key;
        let mut entries: Vec<ArchiveEntry> = Vec::new();
        if self.engine_type == EngineType::VXAce {
            let seed = match self.read_int(data) {
                Ok(v) => v,
                Err(_) => {
                    return Err(ExtractError::Corruption);
                },
            };
            let tk = derive_vx_key(seed);
            self.update_key(tk);
            let ghost sd = le32(data@.subrange(8, 12));
            proof {
                assert(sd == seed);
            }
            let mut done: bool = false;
            while !done
                invariant
                    self.engine_type == EngineType::VXAce,
                    self.force == old(self).force,
                    self.key == vx_key(sd),
                    self.pos <= data@.len(),
                    !done ==> vx_table(data@, 12, vx_key(sd)) == (match vx_table(
                        data@,
                        self.pos as int,
                        vx_key(sd),
                    ) {
                        None => None::<Seq<EntrySpec>>,
                        Some(rest) => Some(entries_view(entries@) + rest),
                    }),
                    done ==> vx_table(data@, 12, vx_key(sd)) == Some(entries_view(entries@)),
                decreases data@.len() - self.pos,
            {
                let ghost pos0 = self.pos as int;
                let ghost suffix0 = vx_table(data@, pos0, vx_key(sd));
                let off_f = match self.decrypt_int(data) {
                    Ok(v) => v,
                    Err(_) => {
                        return Err(ExtractError::Corruption);
                    },
                };
                if off_f == 0 {
                    proof {
                        assert(suffix0 == Some(Seq::<EntrySpec>::empty()));
                        assert(entries_view(entries@) + Seq::<EntrySpec>::empty() =~= entries_view(
                            entries@,
                        ));
                    }
                    done = true;
                    continue;
                }
                if off_f >= 0x8000_0000 {
                    return Err(ExtractError::Corruption);
                }
                let size_f = match self.decrypt_int(data) {
                    Ok(v) => v,
                    Err(_) => {
                        return Err(ExtractError::Corruption);
                    },
                };
                if size_f >= 0x8000_0000 {
                    return Err(ExtractError::Corruption);
                }
                let ekey = match self.decrypt_int(data) {
                    Ok(v) => v,
                    Err(_) => {
                        return Err(ExtractError::Corruption);
                    },
                };
                let name_len_f = match self.decrypt_int(data) {
                    Ok(v) => v,
                    Err(_) => {
                        return Err(ExtractError::Corruption);
                    },
                };
                if name_len_f >= 0x8000_0000 {
                    return Err(ExtractError::Corruption);
                }
                let name_len = name_len_f as usize;
                let name = match self.decrypt_filename(data, name_len) {
                    Ok(v) => v,
                    Err(_) => {
                        return Err(ExtractError::Corruption);
                    },
                };
                let offset = off_f as usize;
                let size = size_f as usize;
                if size > data.len() || offset > data.len() - size {
                    return Err(ExtractError::Corruption);
                }
                let entry = ArchiveEntry { filename_bytes: name, size, offset, key: ekey };
                proof {
                    let e = EntrySpec {
                        filename: decrypt_name_vx(
                            data@.subrange(pos0 + 16, pos0 + 16 + name_len as int),
                            vx_key(sd),
                        ),
                        offset: offset as int,
                        size: size as int,
                        key: ekey,
                    };
                    assert(entry@ == e);
                    let rest_suffix = vx_table(data@, pos0 + 16 + name_len as int, vx_key(sd));
                    assert(suffix0 == (match rest_suffix {
                        None => None::<Seq<EntrySpec>>,
                        Some(rest) => Some(seq![e] + rest),
                    }));
                    if rest_suffix is Some {
                        let rest = rest_suffix->Some_0;
                        assert(entries_view(entries@.push(entry)) =~= entries_view(
                            entries@,
                        ).push(entry@));
                        assert(entries_view(entries@) + (seq![e] + rest) =~= entries_view(
                            entries@.push(entry),
                        ) + rest);
                    }
                }
                entries.push(entry);
            }
            Ok(entries)
        } else {
            let mut done: bool = false;
            while !done
                invariant
                    self.engine_type == EngineType::Older,
                    self.force == old(self).force,
                    self.pos <= data@.len(),
                    !done ==> older_table(data@, 8, k_start) == (match older_table(
                        data@,
                        self.pos as int,
                        self.key,
                    ) {
                        None => None::<Seq<EntrySpec>>,
                        Some(rest) => Some(entries_view(entries@) + rest),
                    }),
                    done ==> older_table(data@, 8, k_start) == Some(entries_view(entries@)),
                decreases data@.len() - self.pos,
            {
                let ghost pos0 = self.pos as int;
                let ghost key0 = self.key;
                let ghost suffix0 = older_table(data@, pos0, key0);
                let name_len_f = match self.decrypt_int(data) {
                    Ok(v) => v,
                    Err(_) => {
                        return Err(ExtractError::Corruption);
                    },
                };
                if name_len_f >= 0x8000_0000 {
                    return Err(ExtractError::Corruption);
                }
                let name_len = name_len_f as usize;
                let name = match self.decrypt_filename(data, name_len) {
                    Ok(v) => v,
                    Err(_) => {
                        return Err(ExtractError::Corruption);
                    },
                };
                let size_f = match self.decrypt_int(data) {
                    Ok(v) => v,
                    Err(_) => {
                        return Err(ExtractError::Corruption);
                    },
                };
                if size_f >= 0x8000_0000 {
                    return Err(ExtractError::Corruption);
                }
                let size = size_f as usize;
                let offset = self.pos;
                let key_snap = self.key;
                if size > data.len() - offset {
                    return Err(ExtractError::Corruption);
                }
                self.seek_byte(size, SeekFrom::Current);
                let entry = ArchiveEntry { filename_bytes: name, size, offset, key: key_snap };
                proof {
                    let k1 = next_key(key0);
                    let e = EntrySpec {
                        filename: decrypt_name_older(
                            data@.subrange(pos0 + 4, pos0 + 4 + name_len as int),
                            k1,
                        ),
                        offset: offset as int,
                        size: size as int,
                        key: key_snap,
                    };
                    assert(entry@ == e);
                    if offset + size == data@.len() {
                        assert(suffix0 == Some(seq![e]));
                        assert(entries_view(entries@) + seq![e] =~= entries_view(
                            entries@.push(entry),
                        ));
                    } else {
                        let rest_suffix = older_table(data@, offset + size, key_snap);
                        assert(suffix0 == (match rest_suffix {
                            None => None::<Seq<EntrySpec>>,
                            Some(rest) => Some(seq![e] + rest),
                        }));
                        if rest_suffix is Some {
                            let rest = rest_suffix->Some_0;
                            assert(entries_view(entries@) + (seq![e] + rest) =~= entries_view(
                                entries@.push(entry),
                            ) + rest);
                        }
                    }
                }
                entries.push(entry);
                if self.pos == data.len() {
                    done = true;
                }
            }
            Ok(entries)
        }
    }

    /// Runs a whole decoding session over `data`: header, entry table, and
    /// every entry's content, returning the decrypted files in archive
    /// order. Succeeds exactly on the archives that decode; each error
    /// names what was wrong, and a wrong magic or variant byte carries the
    /// offending bytes.
    #[verifier::loop_isolation(false)]
    pub fn extract(&mut self, data: &[u8]) -> (r: Result<Vec<DecryptedFile>, ExtractError>)
        ensures
            final(self).force == old(self).force,
            ({
                match r {
                    Ok(files) => header_ok(data@) && spec_files(data@) == Some(
                        files@.map_values(|f: DecryptedFile| f@),
                    ),
                    Err(ExtractError::InvalidHeader { found }) => data@.len() >= 6 && found@
                        == data@.subrange(0, 6) && found@ != spec_magic(),
                    Err(ExtractError::InvalidEngine { found }) => data@.len() >= 8
                        && data@.subrange(0, 6) == spec_magic() && found == data@[7] && found != 1
                        && found != 3,
                    Err(ExtractError::Corruption) => data@.len() < 6 || (data@.subrange(0, 6)
                        == spec_magic() && data@.len() < 8) || (header_ok(data@) && spec_files(
                        data@,
                    ) is None),
                }
            }),
    {
        self.reset();
        match self.parse_header(data) {
            Ok(_) => {},
            Err(e) => return Err(e),
        }
        let ghost engine = self.engine_type;
        let entries = match self.extract_entries(data) {
            Ok(es) => es,
            Err(e) => return Err(e),
        };
        let ghost es_spec = entries_view(entries@);
        let ghost fs_spec = spec_files(data@)->Some_0;
        proof {
            if engine == EngineType::Older {
                lemma_older_table_in_bounds(data@, 8, older_default_key());
            } else {
                lemma_vx_table_in_bounds(data@, 12, vx_key(le32(data@.subrange(8, 12))));
            }
            assert(spec_files(data@) == Some(fs_spec));
            assert(fs_spec.len() == es_spec.len());
        }
        let mut files: Vec<DecryptedFile> = Vec::new();
        let mut i: usize = 0;
        while i < entries.len()
            invariant
                i <= entries@.len(),
                files@.len() == i,
                entries_view(entries@) == es_spec,
                spec_files(data@) == Some(fs_spec),
                fs_spec.len() == es_spec.len(),
                forall|j: int|
                    0 <= j < es_spec.len() ==> #[trigger] entry_in_bounds(
                        es_spec[j],
                        data@.len() as int,
                    ),
                forall|j: int| 0 <= j < i ==> files@[j]@ == fs_spec[j],
                self.force == old(self).force,
            decreases entries@.len() - i,
        {
            let entry = &entries[i];
            proof {
                assert(entry@ == es_spec[i as int]);
                assert(entry_in_bounds(es_spec[i as int], data@.len() as int));
            }
            let content = match self.decrypt_entry(data, entry) {
                Ok(v) => v,
                Err(_) => {
                    proof {
                        assert(false);
                    }
                    return Err(ExtractError::Corruption);
                },
            };
            let name_copy = entry.filename_bytes.clone();
            proof {
                assert forall|j: int| 0 <= j < name_copy@.len() implies name_copy@[j]
                    == entry.filename_bytes@[j] by {}
                assert(name_copy@ =~= entry.filename_bytes@);
                assert(fs_spec[i as int] == FileSpec {
                    filename: es_spec[i as int].filename,
                    content: decrypt_content(
                        data@.subrange(
                            es_spec[i as int].offset,
                            es_spec[i as int].offset + es_spec[i as int].size,
                        ),
                        es_spec[i as int].key,
                    ),
                });
            }
            let file = DecryptedFile { filename_bytes: name_copy, content };
            files.push(file);
            i += 1;
        }
        proof {
            assert(files@.map_values(|f: DecryptedFile| f@) =~= fs_spec);
        }
        Ok(files)
    }
}

impl Default for Decrypter {
    /// Same as `Decrypter::new`.
    fn default() -> (r: Self)
        ensures
            r.pos == 0,
            r.force == false,
            r.engine_type == EngineType::Older,
            r.key == older_default_key(),
    {
        Self::new()
    }
}

/// Decodes a whole archive in one call: a fresh session over `data`,
/// returning the decrypted files in archive order, with the same contract
/// as `Decrypter::extract`.
pub fn extract_archive(data: &[u8]) -> (r: Result<Vec<DecryptedFile>, ExtractError>)
    ensures
        ({
            match r {
                Ok(files) => header_ok(data@) && spec_files(data@) == Some(
                    files@.map_values(|f: DecryptedFile| f@),
                ),
                Err(ExtractError::InvalidHeader { found }) => data@.len() >= 6 && found@
                    == data@.subrange(0, 6) && found@ != spec_magic(),
                Err(ExtractError::InvalidEngine { found }) => data@.len() >= 8 && data@.subrange(
                    0,
                    6,
                ) == spec_magic() && found == data@[7] && found != 1 && found != 3,
                Err(ExtractError::Corruption) => data@.len() < 6 || (data@.subrange(0, 6)
                    == spec_magic() && data@.len() < 8) || (header_ok(data@) && spec_files(
                    data@,
                ) is None),
            }
        }),
{
    let mut decrypter = Decrypter::new();
    decrypter.extract(data)
}

} // verus!
