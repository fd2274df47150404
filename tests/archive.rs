use unpak::bytes::{read_cstring, read_u32_le};
use unpak::extract::{resolve_spans, span_data, Span};
use unpak::pak::{read_directory, PAKRawEntry, PAKRawEntryReader, UnpakError};

fn archive_with_payload() -> Vec<u8> {
    let mut b = vec![16, 0, 0, 0, b'A', 0, 21, 0, 0, 0, b'B', 0, 0, 0, 0, 0];
    b.extend_from_slice(b"hello");
    b.extend_from_slice(b"hi");
    b
}

fn entry(offset: u64, name: &str) -> PAKRawEntry {
    PAKRawEntry(offset, name.to_string())
}

fn extract_all(archive: &[u8]) -> Result<Vec<(String, Vec<u8>)>, UnpakError> {
    let entries = read_directory(archive)?;
    let spans = resolve_spans(&entries)?;
    let mut out = Vec::new();
    for span in spans.iter() {
        out.push((span.name.clone(), span_data(archive, span)?));
    }
    Ok(out)
}

#[test]
fn reads_little_endian_offsets() {
    assert_eq!(read_u32_le(&[0x78, 0x56, 0x34, 0x12, 0xff], 0), 0x1234_5678);
    assert_eq!(read_u32_le(&[0xff, 0x01, 0x00, 0x00, 0x80], 1), 0x8000_0001);
}

#[test]
fn directory_records_in_order() {
    let archive = archive_with_payload();
    let entries = read_directory(&archive).unwrap();
    assert_eq!(entries.len(), 3);
    assert_eq!((entries[0].0, entries[0].1.as_str()), (16, "A"));
    assert_eq!((entries[1].0, entries[1].1.as_str()), (21, "B"));
    assert_eq!((entries[2].0, entries[2].1.as_str()), (23, ""));
}

#[test]
fn two_entries_scenario() {
    // Records (4, "A"), (9, "B") and a terminator; the archive is the
    // sixteen directory bytes alone.
    let archive: Vec<u8> = vec![4, 0, 0, 0, b'A', 0, 9, 0, 0, 0, b'B', 0, 0, 0, 0, 0];
    let entries = read_directory(&archive).unwrap();
    let spans = resolve_spans(&entries).unwrap();
    assert_eq!(spans.len(), 2);
    assert_eq!((spans[0].offset, spans[0].size, spans[0].name.as_str()), (4, 5, "A"));
    assert_eq!((spans[1].offset, spans[1].size, spans[1].name.as_str()), (9, 7, "B"));
    let files = extract_all(&archive).unwrap();
    assert_eq!(files[0], ("A".to_string(), archive[4..9].to_vec()));
    assert_eq!(files[1], ("B".to_string(), archive[9..16].to_vec()));
}

#[test]
fn payload_after_directory() {
    let files = extract_all(&archive_with_payload()).unwrap();
    assert_eq!(files, vec![
        ("A".to_string(), b"hello".to_vec()),
        ("B".to_string(), b"hi".to_vec()),
    ]);
}

#[test]
fn entry_count_is_records_minus_one() {
    let archive = archive_with_payload();
    let entries = read_directory(&archive).unwrap();
    let spans = resolve_spans(&entries).unwrap();
    assert_eq!(spans.len(), entries.len() - 1);
}

#[test]
fn entries_join_back_into_the_archive() {
    let archive = archive_with_payload();
    let joined: Vec<u8> = extract_all(&archive).unwrap().into_iter().flat_map(|f| f.1).collect();
    assert_eq!(joined, archive[16..].to_vec());
}

#[test]
fn lone_terminator_yields_no_entries() {
    let archive: Vec<u8> = vec![0, 0, 0, 0, 7, 7, 7];
    let entries = read_directory(&archive).unwrap();
    assert_eq!(entries.len(), 1);
    assert_eq!(entries[0].0, 7);
    assert!(resolve_spans(&entries).unwrap().is_empty());
}

#[test]
fn terminator_resolves_to_archive_length() {
    let archive: Vec<u8> = vec![6, 0, 0, 0, b'x', 0, 0, 0, 0, 0, b'y', 0, 1, 2, 3];
    let mut reader = PAKRawEntryReader::new(&archive);
    let first = reader.next().unwrap();
    assert_eq!((first.0, first.1.as_str()), (6, "x"));
    let last = reader.next().unwrap();
    assert_eq!((last.0, last.1.as_str()), (15, ""));
    assert_eq!(reader.position(), archive.len());
    assert!(reader.next().is_none());
}

#[test]
fn sizes_are_offset_differences() {
    let entries = vec![entry(10, "a"), entry(10, "b"), entry(25, "c"), entry(40, "")];
    let spans = resolve_spans(&entries).unwrap();
    let sizes: Vec<u64> = spans.iter().map(|s| s.size).collect();
    assert_eq!(sizes, vec![0, 15, 15]);
    assert_eq!(spans[2].offset + spans[2].size, 40);
}

#[test]
fn name_without_nul_is_taken_whole() {
    let (name, next) = read_cstring(b"abc", 0);
    assert_eq!((name.as_str(), next), ("abc", 3));
    let (name, next) = read_cstring(b"ab\0cd", 1);
    assert_eq!((name.as_str(), next), ("b", 3));
    let archive: Vec<u8> = vec![5, 0, 0, 0, b'x', b'y'];
    let entries = read_directory(&archive).unwrap();
    assert_eq!(entries.len(), 1);
    assert_eq!((entries[0].0, entries[0].1.as_str()), (5, "xy"));
}

#[test]
fn invalid_utf8_is_replaced() {
    let (name, next) = read_cstring(&[b'a', 0xff, b'b', 0], 0);
    assert_eq!((name.as_str(), next), ("a\u{fffd}b", 4));
}

#[test]
fn duplicate_names_are_kept_in_order() {
    let archive: Vec<u8> = vec![
        16, 0, 0, 0, b'n', 0, 18, 0, 0, 0, b'n', 0, 0, 0, 0, 0, b'1', b'1', b'2',
    ];
    let files = extract_all(&archive).unwrap();
    assert_eq!(files.len(), 2);
    assert_eq!(files[0], ("n".to_string(), b"11".to_vec()));
    assert_eq!(files[1], ("n".to_string(), b"2".to_vec()));
    let mut last = std::collections::HashMap::new();
    for (name, data) in files {
        last.insert(name, data);
    }
    assert_eq!(last.len(), 1);
    assert_eq!(last["n"], b"2".to_vec());
}

#[test]
fn empty_archive_has_no_entries() {
    let entries = read_directory(&[]).unwrap();
    assert!(entries.is_empty());
    assert!(resolve_spans(&entries).unwrap().is_empty());
}

#[test]
fn partial_offset_field_is_an_error() {
    let archive: Vec<u8> = vec![5, 0, 0, 0, b'a', 0, 1, 2];
    assert!(matches!(read_directory(&archive), Err(UnpakError::TruncatedDirectory)));
    assert!(matches!(read_directory(&[1, 0, 0]), Err(UnpakError::TruncatedDirectory)));
}

#[test]
fn decreasing_offsets_are_malformed() {
    let entries = vec![entry(20, "a"), entry(10, "b"), entry(30, "")];
    assert!(matches!(resolve_spans(&entries), Err(UnpakError::MalformedArchive)));
}

#[test]
fn entry_past_the_end_is_out_of_bounds() {
    let archive: Vec<u8> = vec![1, 2, 3, 4];
    let span = Span { offset: 2, size: 3, name: "x".to_string() };
    assert!(matches!(span_data(&archive, &span), Err(UnpakError::EntryOutOfBounds)));
    let span = Span { offset: 9, size: 0, name: "y".to_string() };
    assert!(matches!(span_data(&archive, &span), Err(UnpakError::EntryOutOfBounds)));
    let span = Span { offset: 2, size: 2, name: "z".to_string() };
    assert_eq!(span_data(&archive, &span).unwrap(), vec![3, 4]);
}
