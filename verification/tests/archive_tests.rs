use lspk_mod::codec::{decompress, CodecError, Method};
use lspk_mod::lspk::{extract, parse, ExtractError, FileEntry, FormatError};
use lspk_mod::merge::{descriptor_payload, ActivateError};

const ENTRY_SIZE: usize = 272;

fn le32(v: u32) -> [u8; 4] {
    v.to_le_bytes()
}

fn record(name: &str, offset: u64, flags: u8, size_on_disk: u32, uncompressed: u32) -> Vec<u8> {
    let mut rec = vec![0u8; ENTRY_SIZE];
    rec[..name.len()].copy_from_slice(name.as_bytes());
    rec[256..260].copy_from_slice(&le32((offset & 0xFFFF_FFFF) as u32));
    rec[260..262].copy_from_slice(&((offset >> 32) as u16).to_le_bytes());
    rec[262] = 0;
    rec[263] = flags;
    rec[264..268].copy_from_slice(&le32(size_on_disk));
    rec[268..272].copy_from_slice(&le32(uncompressed));
    rec
}

/// Build a complete synthetic archive: header, payload section, then the
/// LZ4-compressed file table describing the given entries.
fn make_archive(entries: &[(String, Vec<u8>, u8)]) -> Vec<u8> {
    let mut body: Vec<u8> = Vec::new();
    let mut records: Vec<u8> = Vec::new();
    let mut cursor = 20u64;
    let mut stored: Vec<u8> = Vec::new();
    for (name, payload, flags) in entries {
        let uncompressed = payload.len() as u32;
        let on_disk: Vec<u8> = if flags & 0x0F == 2 {
            lz4_flex::block::compress(payload)
        } else {
            payload.clone()
        };
        records.extend_from_slice(&record(
            name,
            cursor,
            *flags,
            on_disk.len() as u32,
            uncompressed,
        ));
        cursor += on_disk.len() as u64;
        stored.extend_from_slice(&on_disk);
    }
    let blob = lz4_flex::block::compress(&records);
    let table_offset = 20 + stored.len() as u64;
    let table_size = 8 + blob.len() as u32;
    body.extend_from_slice(b"LSPK");
    body.extend_from_slice(&le32(18));
    body.extend_from_slice(&table_offset.to_le_bytes());
    body.extend_from_slice(&le32(table_size));
    body.extend_from_slice(&stored);
    body.extend_from_slice(&le32(entries.len() as u32));
    body.extend_from_slice(&le32(blob.len() as u32));
    body.extend_from_slice(&blob);
    body
}

#[test]
fn bad_magic_is_rejected() {
    let archive = b"NOPE\x12\x00\x00\x00".to_vec();
    assert!(matches!(parse(&archive), Err(FormatError::BadMagic)));
    let empty: Vec<u8> = Vec::new();
    assert!(matches!(parse(&empty), Err(FormatError::BadMagic)));
    let short = b"LS".to_vec();
    assert!(matches!(parse(&short), Err(FormatError::BadMagic)));
}

#[test]
fn unsupported_version_is_rejected() {
    let mut archive = make_archive(&[]);
    archive[4..8].copy_from_slice(&le32(17));
    assert!(matches!(parse(&archive), Err(FormatError::UnsupportedVersion)));
}

#[test]
fn table_range_past_end_is_truncated() {
    let mut archive = make_archive(&[]);
    // Declare a file table far past the end of the buffer.
    archive[8..16].copy_from_slice(&(1_000_000u64).to_le_bytes());
    assert!(matches!(parse(&archive), Err(FormatError::Truncated)));
}

#[test]
fn empty_archive_parses_to_no_entries() {
    let archive = make_archive(&[]);
    let (header, parsed) = parse(&archive).unwrap();
    assert_eq!(header.table_offset, 20);
    assert_eq!(parsed.len(), 0);
}

#[test]
fn full_width_name_is_kept_whole() {
    // A name filling the whole fixed-width buffer, with no NUL terminator.
    let name = "n".repeat(256);
    let entries = vec![(name.clone(), b"p".to_vec(), 0u8)];
    let archive = make_archive(&entries);
    let (_, parsed) = parse(&archive).unwrap();
    assert_eq!(parsed[0].name.len(), 256);
    assert_eq!(parsed[0].name, name.as_bytes().to_vec());
}

#[test]
fn table_round_trip_preserves_entries() {
    let entries = vec![
        ("Alpha/meta.lsx".to_string(), b"hello".to_vec(), 0u8),
        ("Beta/data.bin".to_string(), vec![7u8; 40], 0u8),
        ("Gamma/info.txt".to_string(), b"world".to_vec(), 0u8),
    ];
    let archive = make_archive(&entries);
    let (header, parsed) = parse(&archive).expect("well-formed archive must parse");
    assert_eq!(header.version, 18);
    assert_eq!(parsed.len(), 3);
    let expected_names = ["Alpha/meta.lsx", "Beta/data.bin", "Gamma/info.txt"];
    let mut offset = 20u64;
    for (i, e) in parsed.iter().enumerate() {
        assert_eq!(e.name, expected_names[i].as_bytes().to_vec());
        let combined = ((e.offset_high as u64) << 32) | e.offset_low as u64;
        assert_eq!(combined, offset);
        assert_eq!(e.flags, entries[i].2);
        assert_eq!(e.uncompressed_size as usize, entries[i].1.len());
        offset += e.size_on_disk as u64;
    }
}

#[test]
fn corrupt_table_blob_fails_decompression() {
    // A table whose compressed blob is garbage: the token demands a literal
    // run far longer than the remaining input.
    let blob = [0xFFu8, 0xFF, 0xFF, 0xFF];
    let mut archive: Vec<u8> = Vec::new();
    archive.extend_from_slice(b"LSPK");
    archive.extend_from_slice(&le32(18));
    archive.extend_from_slice(&20u64.to_le_bytes());
    archive.extend_from_slice(&le32(8 + blob.len() as u32));
    archive.extend_from_slice(&le32(1));
    archive.extend_from_slice(&le32(blob.len() as u32));
    archive.extend_from_slice(&blob);
    let r = parse(&archive);
    assert!(
        matches!(r, Err(FormatError::TableDecompressionFailed)),
        "expected TableDecompressionFailed, got {:?}",
        r
    );
}

#[test]
fn entry_range_past_end_is_truncated() {
    let archive = make_archive(&[]);
    let entry = FileEntry {
        name: b"x".to_vec(),
        offset_low: 10,
        offset_high: 0,
        archive_part: 0,
        flags: 0,
        size_on_disk: 1_000_000,
        uncompressed_size: 1_000_000,
    };
    assert!(matches!(
        extract(&archive, &entry),
        Err(ExtractError::Format(FormatError::Truncated))
    ));
    // The high half of the split offset takes part in the bounds check: a
    // tiny low offset with a nonzero high half lies far past the buffer.
    let entry = FileEntry {
        name: b"x".to_vec(),
        offset_low: 0,
        offset_high: 1,
        archive_part: 0,
        flags: 0,
        size_on_disk: 1,
        uncompressed_size: 1,
    };
    assert!(matches!(
        extract(&archive, &entry),
        Err(ExtractError::Format(FormatError::Truncated))
    ));
}

#[test]
fn stored_entry_extracts_unchanged() {
    let entries = vec![("A/file".to_string(), b"payload bytes".to_vec(), 0u8)];
    let archive = make_archive(&entries);
    let (_, parsed) = parse(&archive).unwrap();
    let payload = extract(&archive, &parsed[0]).unwrap();
    assert_eq!(payload, b"payload bytes".to_vec());
}

#[test]
fn lz4_entry_round_trips() {
    let original: Vec<u8> = (0..200u16).map(|i| (i % 11) as u8).collect();
    let entries = vec![("A/file".to_string(), original.clone(), 2u8)];
    let archive = make_archive(&entries);
    let (_, parsed) = parse(&archive).unwrap();
    assert_eq!(parsed[0].flags & 0x0F, 2);
    let payload = extract(&archive, &parsed[0]).unwrap();
    assert_eq!(payload.len(), original.len());
    assert_eq!(payload, original);
}

#[test]
fn decompress_dispatch() {
    let data = b"some stored data".to_vec();
    // Method none: bytes come back unchanged.
    let out = decompress(Method::Stored, &data, data.len()).unwrap();
    assert_eq!(out, data);
    // Block codec: round-trips to the original content.
    let original = vec![3u8; 100];
    let compressed = lz4_flex::block::compress(&original);
    let out = decompress(Method::Lz4, &compressed, 100).unwrap();
    assert_eq!(out, original);
    // Block codec with the wrong expected size fails.
    assert!(matches!(
        decompress(Method::Lz4, &compressed, 99),
        Err(CodecError::DecompressionFailed)
    ));
    // The zlib family has no decoder in this build.
    assert!(matches!(
        decompress(Method::Zlib, &data, data.len()),
        Err(CodecError::UnsupportedMethod)
    ));
    // Any unrecognized method value fails the same way.
    assert!(matches!(
        decompress(Method::Unrecognized, &data, data.len()),
        Err(CodecError::UnsupportedMethod)
    ));
}

#[test]
fn unrecognized_entry_method_fails() {
    let entries = vec![("A/file".to_string(), b"zzz".to_vec(), 5u8)];
    let archive = make_archive(&entries);
    let (_, parsed) = parse(&archive).unwrap();
    assert!(matches!(
        extract(&archive, &parsed[0]),
        Err(ExtractError::Codec(CodecError::UnsupportedMethod))
    ));
}

#[test]
fn descriptor_payload_finds_first_match() {
    let entries = vec![
        ("Other/file.bin".to_string(), vec![1u8, 2, 3], 0u8),
        ("ModA/meta.lsx".to_string(), b"<save/>".to_vec(), 0u8),
        ("ModB/meta.lsx".to_string(), b"<other/>".to_vec(), 0u8),
    ];
    let archive = make_archive(&entries);
    let payload = descriptor_payload(&archive).unwrap();
    assert_eq!(payload, b"<save/>".to_vec());
}

#[test]
fn descriptor_payload_missing_descriptor() {
    let entries = vec![("Other/file.bin".to_string(), vec![1u8, 2, 3], 0u8)];
    let archive = make_archive(&entries);
    assert!(matches!(
        descriptor_payload(&archive),
        Err(ActivateError::DescriptorMissing)
    ));
}

#[test]
fn descriptor_payload_rejects_invalid_utf8_payload() {
    let entries = vec![("ModA/meta.lsx".to_string(), vec![0xFFu8, 0xFE, 0x01], 0u8)];
    let archive = make_archive(&entries);
    assert!(matches!(
        descriptor_payload(&archive),
        Err(ActivateError::Format(FormatError::InvalidPayload))
    ));
}

#[test]
fn invalid_entry_name_is_reported() {
    // Build an archive whose only record has a name that is not UTF-8.
    let mut rec = record("X", 20, 0, 0, 0);
    rec[0] = 0xFF;
    rec[1] = 0xFE;
    let blob = lz4_flex::block::compress(&rec);
    let mut body: Vec<u8> = Vec::new();
    body.extend_from_slice(b"LSPK");
    body.extend_from_slice(&le32(18));
    body.extend_from_slice(&20u64.to_le_bytes());
    body.extend_from_slice(&le32(8 + blob.len() as u32));
    body.extend_from_slice(&le32(1));
    body.extend_from_slice(&le32(blob.len() as u32));
    body.extend_from_slice(&blob);
    assert!(matches!(
        descriptor_payload(&body),
        Err(ActivateError::Format(FormatError::InvalidName))
    ));
}
