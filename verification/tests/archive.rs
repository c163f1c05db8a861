use rpgmad_lib::{extract_archive, ArchiveEntry, DecryptedFile, Decrypter, ExtractError};

fn adv(k: u32) -> u32 {
    k.wrapping_mul(7).wrapping_add(3)
}

/// Applies the 4-byte-cycle keystream seeded with `k` (advancing every 4
/// bytes); its own inverse, so it both encrypts and decrypts.
fn xor_stream(p: &[u8], k: u32) -> Vec<u8> {
    let mut key = k;
    let mut out = Vec::with_capacity(p.len());
    for (i, &b) in p.iter().enumerate() {
        if i % 4 == 0 && i != 0 {
            key = adv(key);
        }
        out.push(b ^ key.to_le_bytes()[i % 4]);
    }
    out
}

/// Builds an Older-variant archive holding the given (filename, content)
/// pairs, encrypting with the documented recurrence from the fixed seed.
fn build_older(entries: &[(&[u8], &[u8])]) -> Vec<u8> {
    let mut out = vec![82, 71, 83, 83, 65, 68, 0, 1];
    let mut key: u32 = 0xDEADCAFE;
    for (name, content) in entries {
        out.extend_from_slice(&((name.len() as u32) ^ key).to_le_bytes());
        key = adv(key);
        for &b in *name {
            out.push(b ^ (key as u8));
            key = adv(key);
        }
        out.extend_from_slice(&((content.len() as u32) ^ key).to_le_bytes());
        key = adv(key);
        out.extend_from_slice(&xor_stream(content, key));
    }
    out
}

/// Builds a VXAce-variant archive from explicit entry descriptors
/// (offset, size, entry key, filename) and a raw tail holding the content
/// regions the offsets point into. All table fields are encrypted with the
/// one table-wide key derived from `seed`.
fn build_vx_raw(seed: u32, entries: &[(u32, u32, u32, &[u8])], tail: &[u8]) -> Vec<u8> {
    let tk = seed.wrapping_mul(9).wrapping_add(3);
    let mut out = vec![82, 71, 83, 83, 65, 68, 0, 3];
    out.extend_from_slice(&seed.to_le_bytes());
    for &(off, size, ekey, name) in entries {
        out.extend_from_slice(&(off ^ tk).to_le_bytes());
        out.extend_from_slice(&(size ^ tk).to_le_bytes());
        out.extend_from_slice(&(ekey ^ tk).to_le_bytes());
        out.extend_from_slice(&((name.len() as u32) ^ tk).to_le_bytes());
        for (i, &b) in name.iter().enumerate() {
            out.push(b ^ tk.to_le_bytes()[i % 4]);
        }
    }
    out.extend_from_slice(&(0u32 ^ tk).to_le_bytes());
    out.extend_from_slice(tail);
    out
}

/// Builds a VXAce archive holding the given (filename, content, key)
/// triples, laying the content regions out after the table.
fn build_vx(seed: u32, entries: &[(&[u8], &[u8], u32)]) -> Vec<u8> {
    let table_len: usize = entries.iter().map(|(n, _, _)| 16 + n.len()).sum::<usize>() + 4;
    let mut off = 12 + table_len;
    let mut descr: Vec<(u32, u32, u32, &[u8])> = Vec::new();
    let mut tail: Vec<u8> = Vec::new();
    for &(name, content, ekey) in entries {
        descr.push((off as u32, content.len() as u32, ekey, name));
        tail.extend_from_slice(&xor_stream(content, ekey));
        off += content.len();
    }
    build_vx_raw(seed, &descr, &tail)
}

fn names_and_contents(files: &[DecryptedFile]) -> Vec<(Vec<u8>, Vec<u8>)> {
    files
        .iter()
        .map(|f| (f.filename_bytes.clone(), f.content.clone()))
        .collect()
}

#[test]
fn older_roundtrip_single_entry() {
    let data = build_older(&[(b"Data/Map001.rvdata", b"hello older world")]);
    let files = extract_archive(&data).unwrap();
    assert_eq!(files.len(), 1);
    assert_eq!(files[0].filename_bytes, b"Data/Map001.rvdata".to_vec());
    assert_eq!(files[0].content, b"hello older world".to_vec());
}

#[test]
fn older_two_entries_in_order() {
    let data = build_older(&[
        (b"Graphics/a.png", b"first content"),
        (b"Data/b.bin", b"second content, longer than the first one"),
    ]);
    let files = extract_archive(&data).unwrap();
    assert_eq!(
        names_and_contents(&files),
        vec![
            (b"Graphics/a.png".to_vec(), b"first content".to_vec()),
            (
                b"Data/b.bin".to_vec(),
                b"second content, longer than the first one".to_vec()
            ),
        ]
    );
}

#[test]
fn older_empty_name_and_content() {
    let data = build_older(&[(b"", b""), (b"x", b"y")]);
    let files = extract_archive(&data).unwrap();
    assert_eq!(
        names_and_contents(&files),
        vec![
            (Vec::new(), Vec::new()),
            (b"x".to_vec(), b"y".to_vec()),
        ]
    );
}

#[test]
fn vxace_two_entries_in_order() {
    let data = build_vx(
        0x12345678,
        &[
            (b"Data/Scripts.rvdata2", b"script body", 0xCAFEBABE),
            (b"Graphics/t.png", b"png bytes here", 0x01020304),
        ],
    );
    let files = extract_archive(&data).unwrap();
    assert_eq!(
        names_and_contents(&files),
        vec![
            (b"Data/Scripts.rvdata2".to_vec(), b"script body".to_vec()),
            (b"Graphics/t.png".to_vec(), b"png bytes here".to_vec()),
        ]
    );
}

// The table-wide key decrypts every entry's four header fields the same
// way wherever the entry stands in the table: swapping two entries' rows
// swaps exactly the two decoded entries, with no hidden key advance
// between rows.
#[test]
fn vxace_fields_single_key_any_order() {
    let a = (b"a.bin".as_slice(), b"content of a".as_slice(), 0x11111111u32);
    let b = (b"b.bin".as_slice(), b"content of b!".as_slice(), 0x22222222u32);
    let seed = 0xDEAD0001u32;

    let fwd = extract_archive(&build_vx(seed, &[a, b])).unwrap();
    let rev = extract_archive(&build_vx(seed, &[b, a])).unwrap();

    let mut fwd_pairs = names_and_contents(&fwd);
    let mut rev_pairs = names_and_contents(&rev);
    assert_eq!(fwd_pairs.len(), 2);
    assert_eq!(rev_pairs.len(), 2);
    fwd_pairs.sort();
    rev_pairs.sort();
    assert_eq!(fwd_pairs, rev_pairs);
}

#[test]
fn vxace_terminator_empty_table() {
    // A terminator as the very first table row: no entries at all.
    let data = build_vx_raw(7, &[], b"trailing bytes the table never names");
    let files = extract_archive(&data).unwrap();
    assert_eq!(files.len(), 0);
}

#[test]
fn vxace_terminator_after_one_entry() {
    let data = build_vx(99, &[(b"only.txt", b"only content", 0x55AA55AA)]);
    let files = extract_archive(&data).unwrap();
    assert_eq!(files.len(), 1);
    assert_eq!(files[0].filename_bytes, b"only.txt".to_vec());
    assert_eq!(files[0].content, b"only content".to_vec());
}

#[test]
fn vxace_missing_terminator_is_corruption() {
    // One entry row, then the buffer ends without a terminator field.
    let seed = 3u32;
    let tk = seed.wrapping_mul(9).wrapping_add(3);
    let mut data = vec![82, 71, 83, 83, 65, 68, 0, 3];
    data.extend_from_slice(&seed.to_le_bytes());
    data.extend_from_slice(&(28u32 ^ tk).to_le_bytes());
    data.extend_from_slice(&(0u32 ^ tk).to_le_bytes());
    data.extend_from_slice(&(1u32 ^ tk).to_le_bytes());
    data.extend_from_slice(&(0u32 ^ tk).to_le_bytes());
    let r = extract_archive(&data);
    assert!(matches!(r, Err(ExtractError::Corruption)));
}

#[test]
fn older_table_stops_exactly_at_buffer_end() {
    // A single entry whose content ends exactly at the buffer end: the
    // table stops after recording it, and the whole entry is kept.
    let data = build_older(&[(b"last.txt", b"the last content bytes")]);
    let files = extract_archive(&data).unwrap();
    assert_eq!(files.len(), 1);
    assert_eq!(files[0].content, b"the last content bytes".to_vec());
}

#[test]
fn older_content_overrunning_buffer_is_corruption() {
    // Same archive with the final content byte cut off: the entry's region
    // runs past the end of the buffer.
    let mut data = build_older(&[(b"last.txt", b"the last content bytes")]);
    data.pop();
    let r = extract_archive(&data);
    assert!(matches!(r, Err(ExtractError::Corruption)));
}

#[test]
fn content_roundtrip_sizes() {
    let key = 0xDEADCAFEu32;
    for size in [0usize, 1, 3, 4, 5, 4096] {
        let plaintext: Vec<u8> = (0..size).map(|i| (i * 31 + 7) as u8).collect();
        let encrypted = xor_stream(&plaintext, key);
        let entry = ArchiveEntry {
            filename_bytes: Vec::new(),
            size,
            offset: 0,
            key,
        };
        let mut d = Decrypter::new();
        let decrypted = d.decrypt_entry(&encrypted, &entry).unwrap();
        assert_eq!(decrypted, plaintext, "size {}", size);
    }
}

#[test]
fn decrypt_entry_out_of_bounds_is_corruption() {
    let entry = ArchiveEntry {
        filename_bytes: Vec::new(),
        size: 5,
        offset: 6,
        key: 1,
    };
    let mut d = Decrypter::new();
    let r = d.decrypt_entry(&[0u8; 10], &entry);
    assert!(matches!(r, Err(ExtractError::Corruption)));
}

#[test]
fn invalid_header_reports_found_bytes() {
    let mut data = build_older(&[(b"n", b"c")]);
    data[5] = 66; // magic now reads RGSSAB
    match extract_archive(&data) {
        Err(ExtractError::InvalidHeader { found }) => {
            assert_eq!(&found, b"RGSSAB");
        }
        other => panic!("expected InvalidHeader, got {:?}", other.map(|_| ())),
    }
}

#[test]
fn invalid_engine_byte_reported() {
    let mut data = build_older(&[(b"n", b"c")]);
    data[7] = 2;
    match extract_archive(&data) {
        Err(ExtractError::InvalidEngine { found }) => assert_eq!(found, 2),
        other => panic!("expected InvalidEngine, got {:?}", other.map(|_| ())),
    }
}

#[test]
fn truncated_buffers_are_corruption() {
    assert!(matches!(
        extract_archive(b"RGS"),
        Err(ExtractError::Corruption)
    ));
    assert!(matches!(
        extract_archive(b"RGSSAD"),
        Err(ExtractError::Corruption)
    ));
    assert!(matches!(
        extract_archive(b"RGSSAD\0"),
        Err(ExtractError::Corruption)
    ));
    // A bare Older header with no table at all is corrupt: the table
    // decoder always expects at least one entry.
    assert!(matches!(
        extract_archive(b"RGSSAD\0\x01"),
        Err(ExtractError::Corruption)
    ));
}

#[test]
fn vxace_negative_size_is_corruption() {
    // A VXAce entry whose decrypted size field has the sign bit set.
    let seed = 5u32;
    let data = build_vx_raw(seed, &[(60, 0x8000_0000, 1, b"n")], &[0u8; 64]);
    assert!(matches!(
        extract_archive(&data),
        Err(ExtractError::Corruption)
    ));
}

#[test]
fn negative_field_is_corruption() {
    // An Older archive whose first decrypted field (a filename length)
    // comes out as a negative signed 32-bit value.
    let mut data = vec![82, 71, 83, 83, 65, 68, 0, 1];
    let key = 0xDEADCAFEu32;
    data.extend_from_slice(&(0xFFFF_FFFFu32 ^ key).to_le_bytes());
    data.extend_from_slice(&[0u8; 64]);
    assert!(matches!(
        extract_archive(&data),
        Err(ExtractError::Corruption)
    ));
}

// Entries decode to pure (buffer slice, key) functions, so decrypting them
// in any order — as a concurrent worker pool would — gives the same bytes,
// even where their regions overlap in the source buffer.
#[test]
fn entries_decrypt_independently_with_overlap() {
    let seed = 0x00C0FFEEu32;
    let k1 = 0x10203040u32;
    let k2 = 0x0BADF00Du32;
    // Both entries point into the same tail region: entry one reads 12
    // bytes at the tail start, entry two reads 8 bytes 4 bytes further in.
    let tail_plain: Vec<u8> = (0u8..16).collect();
    let tail = xor_stream(&tail_plain, k1);
    let base = 12 + 16 + 16 + 4 + 2; // header, two rows, terminator, two 1-byte names
    let data = build_vx_raw(
        seed,
        &[
            (base as u32, 12, k1, b"p"),
            ((base + 4) as u32, 8, k2, b"q"),
        ],
        &tail,
    );

    let files = extract_archive(&data).unwrap();
    assert_eq!(files.len(), 2);

    // Re-derive each entry alone, in reverse order, on a fresh session.
    let mut d = Decrypter::new();
    d.parse_header(&data).unwrap();
    let entries = d.extract_entries(&data).unwrap();
    assert_eq!(entries.len(), 2);
    let mut d2 = Decrypter::new();
    let second_alone = d2.decrypt_entry(&data, &entries[1]).unwrap();
    let first_alone = d2.decrypt_entry(&data, &entries[0]).unwrap();
    assert_eq!(first_alone, files[0].content);
    assert_eq!(second_alone, files[1].content);
    assert_eq!(first_alone, tail_plain[0..12].to_vec());
}

#[test]
fn force_builder_and_setter() {
    let d = Decrypter::new();
    assert!(!d.force);
    let d = d.force(true);
    assert!(d.force);
    let mut d = Decrypter::new();
    d.set_force(true);
    assert!(d.force);
    d.set_force(false);
    assert!(!d.force);
}

#[test]
fn extract_matches_extract_archive() {
    let data = build_older(&[(b"same.txt", b"same bytes out of both paths")]);
    let via_fn = extract_archive(&data).unwrap();
    let mut d = Decrypter::new();
    let via_method = d.extract(&data).unwrap();
    assert_eq!(names_and_contents(&via_fn), names_and_contents(&via_method));
}
