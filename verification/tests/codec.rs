use std::path::PathBuf;

use filearco::codec::{decode_table, encode_table};
use filearco::entries::{Entries, Entry};
use filearco::file_data::{FileData, FileDatum};
use filearco::header::{
    filearco_id, Header, CHECKSUM_LENGTH, HEADER_LENGTH, PREAMBLE_LENGTH, VERSION_NUMBER,
};
use filearco::wire::{append_bytes, append_u64, append_zeros, read_u64};

fn listing(files: &[(&str, u64, u64)]) -> FileData {
    let data = files
        .iter()
        .map(|(name, length, checksum)| FileDatum::new(String::from(*name), *length, *checksum))
        .collect();
    FileData::new(PathBuf::from("base"), data)
}

fn table(files: &[(&str, u64, u64)]) -> Entries {
    Entries::new(listing(files), 4096).ok().unwrap()
}

fn number(x: u64) -> Vec<u8> {
    x.to_le_bytes().to_vec()
}

fn row(path: &[u8], offset: u64, length: u64, aligned_length: u64, checksum: u64) -> Vec<u8> {
    let mut out = number(path.len() as u64);
    out.extend_from_slice(path);
    out.extend_from_slice(&number(offset));
    out.extend_from_slice(&number(length));
    out.extend_from_slice(&number(aligned_length));
    out.extend_from_slice(&number(checksum));
    out
}

fn rows(count: u64, rows: &[Vec<u8>]) -> Vec<u8> {
    let mut out = number(count);
    for row in rows {
        out.extend_from_slice(row);
    }
    out
}

#[test]
fn numbers_are_written_lowest_byte_first() {
    let mut out = vec![9u8];
    append_u64(&mut out, 0x0102030405060708);
    assert_eq!(out, vec![9, 8, 7, 6, 5, 4, 3, 2, 1]);
    assert_eq!(read_u64(&out, 1), 0x0102030405060708);
    append_u64(&mut out, u64::MAX);
    assert_eq!(read_u64(&out, 9), u64::MAX);
    assert_eq!(read_u64(&[1, 0, 0, 0, 0, 0, 0, 0, 7], 0), 1);
    assert_eq!(read_u64(&[7, 0, 1, 0, 0, 0, 0, 0, 0], 1), 256);
}

#[test]
fn bytes_and_zeros_are_appended() {
    let mut out = vec![1u8, 2];
    append_bytes(&mut out, &[3, 4, 5]);
    assert_eq!(out, vec![1, 2, 3, 4, 5]);
    append_bytes(&mut out, &[]);
    assert_eq!(out, vec![1, 2, 3, 4, 5]);
    append_zeros(&mut out, 3);
    assert_eq!(out, vec![1, 2, 3, 4, 5, 0, 0, 0]);
    append_zeros(&mut out, 0);
    assert_eq!(out.len(), 8);
}

#[test]
fn a_table_is_serialized_row_by_row() {
    let entries = table(&[("b.txt", 0, 8), ("a.txt", 3, 7)]);
    let expected = rows(
        2,
        &[row(b"a.txt", 0, 3, 4096, 7), row(b"b.txt", 4096, 0, 0, 8)],
    );
    assert_eq!(expected.len(), 98);
    assert_eq!(encode_table(&entries), expected);
}

#[test]
fn an_empty_table_is_its_count() {
    let entries = table(&[]);
    assert_eq!(encode_table(&entries), vec![0u8; 8]);
    let back = decode_table(&[0u8; 8]).unwrap();
    assert_eq!(back.len(), 0);
}

#[test]
fn a_serialized_table_is_what_bincode_writes_for_its_rows() {
    let entries = table(&[("src/lib.rs", 70000, 1), ("Cargo.toml", 328, 2), ("\u{e9}t\u{e9}", 1, 3)]);
    let mut plain: Vec<(String, (u64, u64, u64, u64))> = Vec::new();
    for k in 0..entries.len() {
        let entry = entries.entry(k);
        plain.push((
            String::from(entries.path(k)),
            (entry.offset, entry.length, entry.aligned_length, entry.checksum),
        ));
    }
    assert_eq!(encode_table(&entries), bincode::serialize(&plain).unwrap());

    let back: Vec<(String, (u64, u64, u64, u64))> =
        bincode::deserialize(&encode_table(&entries)).unwrap();
    assert_eq!(back, plain);
}

#[test]
fn a_table_is_read_back_from_its_serialized_form() {
    let entries = table(&[("q", 9000, 1), ("a/b", 12, 2), ("a", 0, 3), ("\u{20ac}", 4096, 4)]);
    let bytes = encode_table(&entries);
    let back = decode_table(&bytes).unwrap();
    assert_eq!(back.len(), entries.len());
    for k in 0..entries.len() {
        assert_eq!(back.path(k), entries.path(k));
        assert_eq!(back.entry(k), entries.entry(k));
    }
    assert_eq!(encode_table(&back), bytes);
}

#[test]
fn a_table_keeps_any_numbers_in_its_entries() {
    let bytes = rows(
        2,
        &[row(b"a", u64::MAX, 5, 3, 0), row(b"b", 7, u64::MAX, u64::MAX, u64::MAX)],
    );
    let back = decode_table(&bytes).unwrap();
    assert_eq!(
        back.get("a"),
        Some(Entry { offset: u64::MAX, length: 5, aligned_length: 3, checksum: 0 })
    );
    assert_eq!(
        back.get("b"),
        Some(Entry {
            offset: 7,
            length: u64::MAX,
            aligned_length: u64::MAX,
            checksum: u64::MAX
        })
    );
    assert_eq!(back.total_aligned_length(), None);
}

#[test]
fn bytes_that_are_no_table_are_refused() {
    let good = rows(2, &[row(b"a", 0, 1, 4096, 1), row(b"b", 4096, 1, 4096, 2)]);
    assert!(decode_table(&good).is_some());

    // Too short for the count.
    assert!(decode_table(&[]).is_none());
    assert!(decode_table(&[0u8; 7]).is_none());
    // Fewer rows than the count says, and more.
    assert!(decode_table(&rows(3, &[row(b"a", 0, 1, 4096, 1), row(b"b", 4096, 1, 4096, 2)])).is_none());
    assert!(decode_table(&rows(1, &[row(b"a", 0, 1, 4096, 1), row(b"b", 4096, 1, 4096, 2)])).is_none());
    assert!(decode_table(&rows(u64::MAX, &[])).is_none());
    // Bytes left over, and bytes missing.
    let mut longer = good.clone();
    longer.push(0);
    assert!(decode_table(&longer).is_none());
    for n in 0..good.len() {
        assert!(decode_table(&good[..n]).is_none());
    }
    // A path that claims more bytes than there are.
    let mut claims = number(1);
    claims.extend_from_slice(&number(u64::MAX));
    claims.extend_from_slice(&[b'a'; 40]);
    assert!(decode_table(&claims).is_none());
    let mut claims = number(1);
    claims.extend_from_slice(&number(9));
    claims.extend_from_slice(&[b'a'; 40]);
    assert!(decode_table(&claims).is_none());
    // A path that is not UTF-8.
    assert!(decode_table(&rows(1, &[row(&[0xff, 0xfe], 0, 1, 4096, 1)])).is_none());
    assert!(decode_table(&rows(1, &[row(&[0xc3], 0, 1, 4096, 1)])).is_none());
    // Paths that do not grow strictly.
    assert!(decode_table(&rows(2, &[row(b"b", 0, 1, 4096, 1), row(b"a", 4096, 1, 4096, 2)])).is_none());
    assert!(decode_table(&rows(2, &[row(b"a", 0, 1, 4096, 1), row(b"a", 4096, 1, 4096, 2)])).is_none());
}

#[test]
fn a_header_is_seven_fields_of_eight_bytes() {
    assert_eq!(HEADER_LENGTH, 56);
    assert_eq!(CHECKSUM_LENGTH, 8);
    assert_eq!(PREAMBLE_LENGTH, 64);
    assert_eq!(VERSION_NUMBER, 1);
    assert_eq!(&filearco_id(), b"FILEARCO");

    let header = Header::new(4096, 98, 8192, 0x1122334455667788);
    assert_eq!(header.id, *b"FILEARCO");
    assert_eq!(header.version_number, 1);
    assert_eq!(header.file_offset, 4096);
    assert_eq!(header.file_length, 4096 + 8192);
    assert_eq!(header.page_size, 4096);
    assert_eq!(header.entries_length, 98);
    assert_eq!(header.entries_checksum, 0x1122334455667788);

    let bytes = header.encode();
    assert_eq!(bytes.len(), 56);
    assert_eq!(&bytes[0..8], b"FILEARCO");
    assert_eq!(&bytes[8..16], &number(1)[..]);
    assert_eq!(&bytes[16..24], &number(12288)[..]);
    assert_eq!(&bytes[24..32], &number(4096)[..]);
    assert_eq!(&bytes[32..40], &number(4096)[..]);
    assert_eq!(&bytes[40..48], &number(98)[..]);
    assert_eq!(&bytes[48..56], &[0x88, 0x77, 0x66, 0x55, 0x44, 0x33, 0x22, 0x11]);
    assert_eq!(Header::decode(&bytes), header);
}

#[test]
fn a_serialized_header_is_what_bincode_writes_for_its_fields() {
    let header = Header::new(16384, 123456, 98304, 42);
    let plain = (
        header.id,
        header.version_number,
        header.file_length,
        header.file_offset,
        header.page_size,
        header.entries_length,
        header.entries_checksum,
    );
    assert_eq!(header.encode(), bincode::serialize(&plain).unwrap());
}

#[test]
fn the_content_region_starts_at_the_page_boundary_after_the_table() {
    // The header, its checksum and the table together fill a page.
    assert_eq!(Header::new(4096, 4096 - 64, 0, 0).file_offset, 4096);
    // One byte more, and the content region moves on by a page.
    assert_eq!(Header::new(4096, 4096 - 63, 0, 0).file_offset, 8192);
    assert_eq!(Header::new(4096, 0, 0, 0).file_offset, 4096);
    assert_eq!(Header::new(64, 0, 0, 0).file_offset, 64);
    assert_eq!(Header::new(64, 1, 0, 0).file_offset, 128);
    assert_eq!(Header::new(1, 5, 10, 0).file_offset, 69);
    assert_eq!(Header::new(1, 5, 10, 0).file_length, 79);
}

#[test]
fn a_header_is_read_from_any_bytes() {
    let mut bytes = Vec::new();
    for i in 0..64u8 {
        bytes.push(i);
    }
    let header = Header::decode(&bytes);
    assert_eq!(header.id, [0, 1, 2, 3, 4, 5, 6, 7]);
    assert_eq!(header.version_number, 0x0f0e0d0c0b0a0908);
    assert_eq!(header.file_length, 0x1716151413121110);
    assert_eq!(header.file_offset, 0x1f1e1d1c1b1a1918);
    assert_eq!(header.page_size, 0x2726252423222120);
    assert_eq!(header.entries_length, 0x2f2e2d2c2b2a2928);
    assert_eq!(header.entries_checksum, 0x3736353433323130);
    assert_eq!(header.encode(), bytes[..56].to_vec());
}
