use dunepak::codec::{decode, encode, entry_content, read_filename_with_nul, read_int32};
use dunepak::entry::{FileEntry, PakError};

fn entry(name: &[u8], contents: &[u8]) -> FileEntry {
    FileEntry { filename: name.to_vec(), contents: contents.to_vec() }
}

#[test]
fn round_trip_two_entries() {
    let entries = vec![entry(b"A.BIN", &[1, 2]), entry(b"B.BIN", &[3])];
    let buf = encode(&entries).unwrap();
    let hdrs = decode(&buf).unwrap();
    assert_eq!(hdrs.len(), 2);
    assert_eq!(hdrs[0].filename, b"A.BIN".to_vec());
    assert_eq!(hdrs[1].filename, b"B.BIN".to_vec());
    assert_eq!(entry_content(&buf, &hdrs[0]).unwrap(), vec![1, 2]);
    assert_eq!(entry_content(&buf, &hdrs[1]).unwrap(), vec![3]);
}

#[test]
fn concrete_scenario_exact_bytes() {
    // Header table of 24 bytes: two 10-byte records and the sentinel; then
    // the three content bytes; 27 bytes in all.
    let entries = vec![entry(b"A.BIN", &[1, 2]), entry(b"B.BIN", &[3])];
    let buf = encode(&entries).unwrap();
    let mut expected: Vec<u8> = Vec::new();
    expected.extend_from_slice(&[24, 0, 0, 0]);
    expected.extend_from_slice(b"A.BIN\0");
    expected.extend_from_slice(&[26, 0, 0, 0]);
    expected.extend_from_slice(b"B.BIN\0");
    expected.extend_from_slice(&[0, 0, 0, 0]);
    expected.extend_from_slice(&[1, 2, 3]);
    assert_eq!(buf, expected);
    assert_eq!(buf.len(), 27);
    let hdrs = decode(&buf).unwrap();
    assert_eq!(hdrs.len(), 2);
    assert_eq!(hdrs[0].starts, 24);
    assert_eq!(hdrs[0].ends, 25);
    assert_eq!(hdrs[1].starts, 26);
    assert_eq!(hdrs[1].ends, 26);
    assert_eq!(entry_content(&buf, &hdrs[0]).unwrap(), vec![1, 2]);
    assert_eq!(entry_content(&buf, &hdrs[1]).unwrap(), vec![3]);
}

#[test]
fn empty_archive() {
    let buf = encode(&vec![]).unwrap();
    assert_eq!(buf, vec![0, 0, 0, 0]);
    let hdrs = decode(&buf).unwrap();
    assert_eq!(hdrs.len(), 0);
}

#[test]
fn name_length_boundary() {
    let twelve = entry(b"ABCDEFGH.BIN", &[9]);
    assert_eq!(twelve.filename.len(), 12);
    let buf = encode(&vec![twelve]).unwrap();
    let hdrs = decode(&buf).unwrap();
    assert_eq!(hdrs[0].filename, b"ABCDEFGH.BIN".to_vec());

    let thirteen = entry(b"ABCDEFGHI.BIN", &[9]);
    assert_eq!(thirteen.filename.len(), 13);
    let r = encode(&vec![entry(b"OK.BIN", &[]), thirteen]);
    assert_eq!(r.unwrap_err(), PakError::FormatViolation { index: 1 });
}

#[test]
fn sentinel_placement() {
    let entries = vec![entry(b"ONE", &[7, 8]), entry(b"LONGER.EXT", &[9])];
    let buf = encode(&entries).unwrap();
    // sum of 4 + len(name) + 1 over both entries
    let off = (4 + 3 + 1) + (4 + 10 + 1);
    assert_eq!(&buf[off..off + 4], &[0, 0, 0, 0]);
}

#[test]
fn offset_contiguity() {
    let entries = vec![
        entry(b"A", &[1]),
        entry(b"B", &[]),
        entry(b"C", &[2, 3, 4]),
        entry(b"D", &[5]),
    ];
    let buf = encode(&entries).unwrap();
    let hdrs = decode(&buf).unwrap();
    assert_eq!(hdrs.len(), 4);
    for i in 1..hdrs.len() {
        assert_eq!(hdrs[i].starts, hdrs[i - 1].ends + 1);
    }
}

#[test]
fn names_are_uppercased() {
    let entries = vec![entry(b"scene1.pak", &[42])];
    let buf = encode(&entries).unwrap();
    let hdrs = decode(&buf).unwrap();
    assert_eq!(hdrs[0].filename, b"SCENE1.PAK".to_vec());
}

#[test]
fn truncated_input() {
    let r = decode(&vec![1, 2, 3]);
    assert_eq!(r.unwrap_err(), PakError::TruncatedHeader);
}

#[test]
fn truncated_after_one_record() {
    // One full record, then two stray bytes instead of an offset field.
    let mut buf: Vec<u8> = Vec::new();
    buf.extend_from_slice(&[16, 0, 0, 0]);
    buf.extend_from_slice(b"A\0");
    buf.extend_from_slice(&[1, 2]);
    let r = decode(&buf);
    assert_eq!(r.unwrap_err(), PakError::TruncatedHeader);
}

#[test]
fn corrupt_filename() {
    // A non-zero offset followed by thirteen non-null bytes: no terminator
    // inside the scan window.
    let mut buf: Vec<u8> = Vec::new();
    buf.extend_from_slice(&[32, 0, 0, 0]);
    buf.extend_from_slice(b"ABCDEFGHIJKLM");
    buf.extend_from_slice(&[0, 0, 0, 0]);
    let r = decode(&buf);
    assert_eq!(r.unwrap_err(), PakError::CorruptFilename);
}

#[test]
fn range_out_of_bounds() {
    let entries = vec![entry(b"A.BIN", &[1, 2])];
    let buf = encode(&entries).unwrap();
    let mut hdr = decode(&buf).unwrap().remove(0);
    hdr.ends = buf.len() as u32;
    assert_eq!(entry_content(&buf, &hdr).unwrap_err(), PakError::RangeOutOfBounds);
    hdr.ends = 2;
    hdr.starts = 9;
    assert_eq!(entry_content(&buf, &hdr).unwrap_err(), PakError::RangeOutOfBounds);
}

#[test]
fn empty_contents_round_trip() {
    let entries = vec![entry(b"EMPTY", &[]), entry(b"FULL", &[5, 6])];
    let buf = encode(&entries).unwrap();
    let hdrs = decode(&buf).unwrap();
    assert_eq!(hdrs.len(), 2);
    assert_eq!(entry_content(&buf, &hdrs[0]).unwrap(), Vec::<u8>::new());
    assert_eq!(entry_content(&buf, &hdrs[1]).unwrap(), vec![5, 6]);
}

#[test]
fn read_int32_little_endian() {
    let buf = vec![0x78, 0x56, 0x34, 0x12, 0xff];
    assert_eq!(read_int32(&buf, 0).unwrap(), 0x12345678);
    assert_eq!(read_int32(&buf, 2).unwrap_err(), PakError::TruncatedHeader);
    assert_eq!(read_int32(&vec![], 0).unwrap_err(), PakError::TruncatedHeader);
}

#[test]
fn read_filename_scan() {
    let buf = b"HERRING.BIN\0rest".to_vec();
    let (name, next) = read_filename_with_nul(&buf, 0).unwrap();
    assert_eq!(name, b"HERRING.BIN".to_vec());
    assert_eq!(next, 12);

    // An immediate null byte reads as the empty name.
    let (name, next) = read_filename_with_nul(&vec![0, 9], 0).unwrap();
    assert_eq!(name, Vec::<u8>::new());
    assert_eq!(next, 1);

    // No terminator within thirteen bytes.
    let r = read_filename_with_nul(&b"ABCDEFGHIJKLMNOP\0".to_vec(), 0);
    assert_eq!(r.unwrap_err(), PakError::CorruptFilename);
}
