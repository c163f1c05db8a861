//! Decrypter for RPG Maker `rgss` archives.
//!
//! An archive is a single byte buffer: an 8-byte header (6-byte magic
//! `RGSSAD`, a separator byte, an engine-variant byte), an encrypted entry
//! table, and the raw content regions the table points into. Two engine
//! variants exist, with different table layouts and key schedules; both
//! protect data with an XOR keystream whose 32-bit key evolves through the
//! fixed recurrence `key * 7 + 3 (mod 2^32)`.

pub mod cipher;
pub mod decrypter;
pub mod keys;
pub mod table;

pub use decrypter::{extract_archive, ArchiveEntry, DecryptedFile, Decrypter, EngineType,
    ExtractError, ExtractOutcome};
