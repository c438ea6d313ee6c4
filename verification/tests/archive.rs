use std::path::PathBuf;

use filearco::file_data::{FileData, FileDataError, FileDatum};
use filearco::header::Header;
use filearco::v1::{FileArco, FileArcoV1Error};

fn get_file_data_stub(base_path: &str) -> FileData {
    let mut data = Vec::<FileDatum>::new();
    data.push(FileDatum::new(
        String::from("Cargo.toml"),
        328,
        10574576474013701409,
    ));
    data.push(FileDatum::new(
        String::from("LICENSE-APACHE"),
        10771,
        8740797956101379381,
    ));
    data.push(FileDatum::new(
        String::from("LICENSE-MIT"),
        1082,
        13423357612537305206,
    ));

    FileData::new(PathBuf::from(base_path), data)
}

fn get_simple() -> Vec<String> {
    let mut v = Vec::<String>::new();

    v.push(String::from("Cargo.toml"));
    v.push(String::from("LICENSE-APACHE"));
    v.push(String::from("LICENSE-MIT"));

    v
}

/// Contents of the length given, that differ from file to file.
fn filler(length: usize, seed: u8) -> Vec<u8> {
    let mut out = Vec::with_capacity(length);
    for i in 0..length {
        out.push((i as u8).wrapping_mul(31).wrapping_add(seed));
    }
    out
}

/// Contents of the length and the checksum given: filler, and eight bytes
/// that bring the checksum to where it is wanted.
fn contents_with(length: usize, checksum: u64, seed: u8) -> Vec<u8> {
    let table = crc::crc64::make_table(crc::crc64::ISO);
    let mut out = filler(length - 8, seed);
    let mut register = !crc::crc64::checksum_iso(&out);

    // The table entries that lead to the checksum, found from the last back.
    let mut wanted = !checksum;
    let mut indices = [0usize; 8];
    for step in (0..8).rev() {
        let top = (wanted >> 56) as u8;
        let index = (0..256).find(|i| (table[*i] >> 56) as u8 == top).unwrap();
        indices[step] = index;
        wanted = (wanted ^ table[index]) << 8;
    }
    for index in indices {
        out.push((index as u8) ^ (register as u8));
        register = table[index] ^ (register >> 8);
    }
    out
}

/// Contents for the files of the simple listing: of the lengths and the
/// checksums that it gives.
fn stub_contents() -> Vec<Vec<u8>> {
    vec![
        contents_with(328, 10574576474013701409, 1),
        contents_with(10771, 8740797956101379381, 2),
        contents_with(1082, 13423357612537305206, 3),
    ]
}

/// The archive of the simple listing, laid out for pages of 4096 bytes.
fn simple_v1() -> Vec<u8> {
    let file_data = get_file_data_stub("testarchives/simple");
    FileArco::make_with_page_size(file_data, &stub_contents(), 4096).unwrap().ok().unwrap()
}

fn sources(files: &[(&str, &[u8])]) -> (FileData, Vec<Vec<u8>>) {
    let mut data = Vec::new();
    let mut contents = Vec::new();
    for (name, bytes) in files {
        data.push(FileDatum::from_contents(String::from(*name), bytes));
        contents.push(bytes.to_vec());
    }
    (FileData::new(PathBuf::from("base"), data), contents)
}

fn build(files: &[(&str, &[u8])], page_size: u64) -> Vec<u8> {
    let (file_data, contents) = sources(files);
    FileArco::make_with_page_size(file_data, &contents, page_size).unwrap().ok().unwrap()
}

fn number(x: u64) -> Vec<u8> {
    x.to_le_bytes().to_vec()
}

fn row(path: &[u8], offset: u64, length: u64, aligned_length: u64, checksum: u64) -> Vec<u8> {
    let mut out = number(path.len() as u64);
    out.extend_from_slice(path);
    out.extend_from_slice(&number(offset));
    out.extend_from_slice(&number(length));
    out.extend_from_slice(&number(aligned_length));
    out.extend_from_slice(&number(checksum));
    out
}

/// An archive with the table and the content region given, whatever they
/// hold, with a header and checksums that fit them.
fn assemble(table: &[u8], content: &[u8]) -> Vec<u8> {
    let header = Header::new(
        4096,
        table.len() as u64,
        content.len() as u64,
        crc::crc64::checksum_iso(table),
    );
    let mut out = header.encode();
    let header_checksum = crc::crc64::checksum_iso(&out);
    out.extend_from_slice(&number(header_checksum));
    out.extend_from_slice(table);
    out.resize(header.file_offset as usize, 0);
    out.extend_from_slice(content);
    out
}

#[test]
fn test_v1_filearco_make() {
    let file_data = get_file_data_stub("testarchives/simple");

    FileArco::make(file_data, &stub_contents()).unwrap().ok().unwrap();
}

#[test]
fn test_v1_filearco_new() {
    let archive_bytes = simple_v1();
    let simple = get_simple();

    match FileArco::new(&archive_bytes) {
        Ok(archive) => {
            for name in simple.iter() {
                assert!(archive.entries().contains_key(name));
            }
        },
        Err(err) => {
            println!("test_v1_filearco_new {}", err.to_string());
            assert!(false);
        },
    }
}

#[test]
fn test_v1_filearco_page_size() {
    let archive_bytes = simple_v1();
    let archive = FileArco::new(&archive_bytes).ok().unwrap();

    assert_eq!(archive.page_size(), 4096);
}

#[test]
fn test_v1_filearco_get() {
    let archive_bytes = simple_v1();
    let archive = FileArco::new(&archive_bytes).ok().unwrap();

    let simple = get_file_data_stub("testarchives/simple");
    let svec = simple.into_vec();

    for entry in svec.iter() {
        if let Some(fileref) = archive.get(&archive_bytes, &entry.name()) {
            assert_eq!(fileref.len(), entry.len());
            assert!(fileref.is_valid());
        } else {
            assert!(false);
        }
    }
}

#[test]
fn test_v1_fileref_as_slice() {
    let archive_bytes = simple_v1();
    let archive = FileArco::new(&archive_bytes).ok().unwrap();

    let simple = get_file_data_stub("testarchives/simple");
    let svec = simple.into_vec();

    for (entry, contents) in svec.into_iter().zip(stub_contents().into_iter()) {
        let archived_file = archive.get(&archive_bytes, &entry.name()).unwrap();
        let length2 = archived_file.len();

        assert_eq!(entry.len(), archived_file.as_slice().len() as u64);
        assert_eq!(length2, archived_file.as_slice().len() as u64);
        assert_eq!(contents, archived_file.as_slice());
    }
}

#[test]
fn test_v1_fileref_as_raw() {
    let archive_bytes = simple_v1();
    let archive = FileArco::new(&archive_bytes).ok().unwrap();

    let simple = get_file_data_stub("testarchives/simple");
    let svec = simple.into_vec();

    let mut expected: usize = 4096;
    for entry in svec.into_iter() {
        let archived_file = archive.get(&archive_bytes, &entry.name()).unwrap();

        let (offset, len) = archived_file.as_raw();
        assert_eq!(offset, expected);
        assert_eq!(offset % 4096, 0);
        assert_eq!(len % 4096, 0);
        assert!(len as u64 >= entry.len());
        assert!(offset + len <= archive_bytes.len());
        expected += len;
    }
}

#[test]
fn contents_have_the_checksums_of_the_listing() {
    let contents = stub_contents();
    for (entry, bytes) in get_file_data_stub("x").into_vec().iter().zip(contents.iter()) {
        assert_eq!(bytes.len() as u64, entry.len());
        assert_eq!(crc::crc64::checksum_iso(bytes), entry.checksum());
        let datum = FileDatum::from_contents(entry.name(), bytes);
        assert_eq!(datum.len(), entry.len());
        assert_eq!(datum.checksum(), entry.checksum());
    }
}

#[test]
fn contents_of_another_checksum_are_told() {
    let file_data = get_file_data_stub("testarchives/simple");
    let contents = vec![filler(328, 1), filler(10771, 2), filler(1082, 3)];
    let archive_bytes =
        FileArco::make_with_page_size(file_data, &contents, 4096).unwrap().ok().unwrap();
    let archive = FileArco::new(&archive_bytes).ok().unwrap();
    for (entry, bytes) in get_file_data_stub("x").into_vec().iter().zip(contents.iter()) {
        let fileref = archive.get(&archive_bytes, &entry.name()).unwrap();
        assert_eq!(fileref.len(), entry.len());
        assert_eq!(fileref.as_slice(), &bytes[..]);
        assert!(!fileref.is_valid());
    }
}

#[test]
fn two_small_files_are_read_back() {
    let archive_bytes = build(&[("a.txt", b"abc"), ("b.txt", b"")], 4096);
    assert_eq!(archive_bytes.len(), 8192);
    let archive = FileArco::new_with_page_size(&archive_bytes, 4096).ok().unwrap();

    let a = archive.get(&archive_bytes, "a.txt").unwrap();
    assert_eq!(a.as_slice(), &[0x61, 0x62, 0x63]);
    assert_eq!(a.len(), 3);
    assert!(a.is_valid());
    assert_eq!(a.as_str(), Ok("abc"));
    assert_eq!(a.as_raw(), (4096, 4096));

    let b = archive.get(&archive_bytes, "b.txt").unwrap();
    assert_eq!(b.as_slice(), &[] as &[u8]);
    assert_eq!(b.len(), 0);
    assert!(b.is_valid());
    assert_eq!(b.as_str(), Ok(""));
    assert_eq!(b.as_raw(), (8192, 0));

    assert!(archive.get(&archive_bytes, "c.txt").is_none());
}

#[test]
fn an_archive_is_laid_out_as_the_format_says() {
    let archive_bytes = build(&[("b.txt", b""), ("a.txt", b"abc")], 4096);
    let table_length: usize = 8 + 2 * (8 + 5 + 32);

    assert_eq!(&archive_bytes[0..8], b"FILEARCO");
    assert_eq!(&archive_bytes[8..16], &number(1)[..]);
    assert_eq!(&archive_bytes[16..24], &number(8192)[..]);
    assert_eq!(&archive_bytes[24..32], &number(4096)[..]);
    assert_eq!(&archive_bytes[32..40], &number(4096)[..]);
    assert_eq!(&archive_bytes[40..48], &number(table_length as u64)[..]);
    let table = &archive_bytes[64..64 + table_length];
    assert_eq!(&archive_bytes[48..56], &number(crc::crc64::checksum_iso(table))[..]);
    assert_eq!(
        &archive_bytes[56..64],
        &number(crc::crc64::checksum_iso(&archive_bytes[0..56]))[..]
    );

    let mut expected_table = number(2);
    expected_table.extend_from_slice(&row(b"a.txt", 0, 3, 4096, crc::crc64::checksum_iso(b"abc")));
    expected_table.extend_from_slice(&row(b"b.txt", 4096, 0, 0, 0));
    assert_eq!(table, &expected_table[..]);

    assert!(archive_bytes[64 + table_length..4096].iter().all(|b| *b == 0));
    assert_eq!(&archive_bytes[4096..4099], b"abc");
    assert!(archive_bytes[4099..8192].iter().all(|b| *b == 0));
}

#[test]
fn what_is_built_gives_back_every_file() {
    let big = filler(3 * 4096 + 17, 9);
    let exact = filler(4096, 5);
    let odd: Vec<u8> = vec![0xff, 0x00, 0xfe, 0x80, 0x0a];
    let files: Vec<(&str, &[u8])> = vec![
        ("zero", b""),
        ("dir/big.bin", &big),
        ("dir/exact", &exact),
        ("odd bytes", &odd),
        ("text.txt", "gr\u{fc}\u{df}e".as_bytes()),
        ("a", b"a"),
        ("Z/\u{e9}", b"accent"),
    ];
    for page_size in [1u64, 64, 4096, 16384] {
        let archive_bytes = build(&files, page_size);
        let archive = FileArco::new_with_page_size(&archive_bytes, 4096).ok().unwrap();
        assert_eq!(archive.page_size(), page_size);
        assert_eq!(archive.should_prefetch(), page_size == 4096);
        assert_eq!(archive.entries().len(), files.len());
        for (name, bytes) in files.iter() {
            let view = archive.get(&archive_bytes, name).unwrap();
            assert_eq!(view.as_slice(), *bytes);
            assert_eq!(view.len(), bytes.len() as u64);
            assert!(view.is_valid());
            let (offset, room) = view.as_raw();
            assert_eq!(offset as u64 % page_size, 0);
            assert_eq!(room as u64 % page_size, 0);
            assert_eq!(&archive_bytes[offset..offset + bytes.len()], *bytes);
            assert!(archive_bytes[offset + bytes.len()..offset + room].iter().all(|b| *b == 0));
            assert_eq!(view.prefetch_region().is_some(), page_size == 4096);
        }
        assert!(archive.get(&archive_bytes, "missing").is_none());
    }
}

#[test]
fn an_absent_path_is_not_found() {
    let archive_bytes = build(&[("a.txt", b"abc"), ("b.txt", b"")], 4096);
    let archive = FileArco::new(&archive_bytes).ok().unwrap();
    assert!(archive.get(&archive_bytes, "missing").is_none());
    assert!(archive.get(&archive_bytes, "").is_none());
    assert!(archive.get(&archive_bytes, "a.txt/").is_none());
    assert!(archive.get(&archive_bytes, "A.txt").is_none());
}

#[test]
fn building_twice_gives_the_same_bytes() {
    let big = filler(9000, 1);
    let files: Vec<(&str, &[u8])> = vec![("one", b"1"), ("two", &big), ("three", b"")];
    let first = build(&files, 4096);
    let second = build(&files, 4096);
    assert_eq!(first, second);

    let shuffled: Vec<(&str, &[u8])> = vec![("three", b""), ("one", b"1"), ("two", &big)];
    assert_eq!(build(&shuffled, 4096), first);
    let reversed: Vec<(&str, &[u8])> = vec![("two", &big), ("three", b""), ("one", b"1")];
    assert_eq!(build(&reversed, 4096), first);
}

#[test]
fn make_uses_the_page_size_of_the_system() {
    let (file_data, contents) = sources(&[("a.txt", b"abc"), ("b.txt", b"xyz")]);
    let made = FileArco::make(file_data.clone(), &contents).unwrap().ok().unwrap();
    let page_size = page_size::get() as u64;
    let expected =
        FileArco::make_with_page_size(file_data, &contents, page_size).unwrap().ok().unwrap();
    assert_eq!(made, expected);

    let archive = FileArco::new(&made).ok().unwrap();
    assert_eq!(archive.page_size(), page_size);
    assert!(archive.should_prefetch());
    let view = archive.get(&made, "b.txt").unwrap();
    assert_eq!(view.prefetch_region(), Some(view.as_raw()));
}

#[test]
fn the_archive_is_prepared_up_to_its_content_region() {
    let (file_data, contents) = sources(&[("b", b"bbbb"), ("a", b"aa")]);
    let whole =
        FileArco::make_with_page_size(file_data.clone(), &contents, 512).unwrap().ok().unwrap();
    assert_eq!(FileArco::archive_length(&file_data, 512), Some(whole.len() as u64));

    let (prefix, table) =
        FileArco::prepare_with_page_size(file_data.clone(), 512).unwrap().ok().unwrap();
    assert_eq!(prefix.len(), 512);
    assert_eq!(&whole[..512], &prefix[..]);
    assert_eq!(table.len(), 2);
    assert_eq!(table.path(0), "a");
    assert_eq!(table.path(1), "b");

    // What follows is each file and its padding, in the order of the table.
    let mut streamed = prefix.clone();
    for k in 0..table.len() {
        let bytes: &[u8] = if table.path(k) == "a" { b"aa" } else { b"bbbb" };
        streamed.extend_from_slice(bytes);
        streamed.resize(streamed.len() + table.entry(k).padding() as usize, 0);
    }
    assert_eq!(streamed, whole);

    let page_size = page_size::get() as u64;
    let (system_prefix, _) = FileArco::prepare(file_data.clone()).unwrap().ok().unwrap();
    let (expected, _) = FileArco::prepare_with_page_size(file_data, page_size).unwrap().ok().unwrap();
    assert_eq!(system_prefix, expected);
}

#[test]
fn no_archive_is_built_of_what_does_not_fit() {
    let (file_data, contents) = sources(&[("a", b"aa")]);
    // No power of two.
    assert!(FileArco::make_with_page_size(file_data.clone(), &contents, 0).is_none());
    assert!(FileArco::make_with_page_size(file_data.clone(), &contents, 4095).is_none());
    assert!(FileArco::prepare_with_page_size(file_data.clone(), 3).is_none());
    assert_eq!(FileArco::archive_length(&file_data, 3), None);
    // Contents that are not as long as the data say, or too few, or too many.
    assert!(FileArco::make_with_page_size(file_data.clone(), &vec![b"a".to_vec()], 4096).is_none());
    assert!(FileArco::make_with_page_size(file_data.clone(), &vec![], 4096).is_none());
    assert!(FileArco::make_with_page_size(
        file_data.clone(),
        &vec![b"aa".to_vec(), b"aa".to_vec()],
        4096
    )
    .is_none());
    // Lengths that do not fit in 64 bits.
    let huge = FileData::new(
        PathBuf::from("base"),
        vec![
            FileDatum::new(String::from("a"), u64::MAX - 5000, 0),
            FileDatum::new(String::from("b"), 5000, 0),
        ],
    );
    assert_eq!(FileArco::archive_length(&huge, 4096), None);
    assert!(FileArco::prepare_with_page_size(huge, 4096).is_none());
    let large = FileData::new(
        PathBuf::from("base"),
        vec![FileDatum::new(String::from("a"), 1 << 40, 0)],
    );
    assert_eq!(FileArco::archive_length(&large, 4096), Some(4096 + (1 << 40)));
}

#[test]
fn two_files_of_one_path_make_no_archive() {
    let (file_data, contents) = sources(&[("a", b"1"), ("b", b"2"), ("a", b"3")]);
    assert_eq!(
        FileArco::make_with_page_size(file_data.clone(), &contents, 4096),
        Some(Err(FileDataError::DuplicateEntry))
    );
    assert_eq!(
        FileArco::prepare_with_page_size(file_data.clone(), 4096).map(|r| r.err()),
        Some(Some(FileDataError::DuplicateEntry))
    );
    assert_eq!(FileArco::make(file_data, &contents), Some(Err(FileDataError::DuplicateEntry)));
}

#[test]
fn too_few_bytes_are_too_small() {
    let archive_bytes = build(&[("a.txt", b"abc")], 4096);
    for n in 0..64 {
        assert_eq!(
            FileArco::new(&archive_bytes[..n]).err(),
            Some(FileArcoV1Error::FileTooSmall)
        );
    }
    assert_eq!(FileArco::new(&[]).err(), Some(FileArcoV1Error::FileTooSmall));
}

#[test]
fn a_shortened_archive_is_truncated() {
    let archive_bytes = build(&[("a.txt", b"abc"), ("b.txt", b"defg")], 256);
    assert!(FileArco::new(&archive_bytes).is_ok());
    for n in 64..archive_bytes.len() {
        assert_eq!(
            FileArco::new(&archive_bytes[..n]).err(),
            Some(FileArcoV1Error::FileTruncated)
        );
    }
    let mut longer = archive_bytes.clone();
    longer.extend_from_slice(&[1, 2, 3]);
    assert!(FileArco::new(&longer).is_ok());
}

#[test]
fn a_changed_header_is_refused() {
    let archive_bytes = build(&[("a.txt", b"abc"), ("b.txt", b"")], 4096);
    for at in 0..64 {
        for bit in [0x01u8, 0x10, 0x80, 0xff] {
            let mut changed = archive_bytes.clone();
            changed[at] ^= bit;
            let expected = if at < 8 {
                FileArcoV1Error::NotArchive
            } else if at < 16 {
                FileArcoV1Error::UnsupportedVersion
            } else {
                FileArcoV1Error::CorruptedHeader
            };
            assert_eq!(FileArco::new(&changed).err(), Some(expected));
        }
    }
}

#[test]
fn a_changed_entries_table_is_refused() {
    let archive_bytes = build(&[("a.txt", b"abc"), ("b.txt", b"")], 4096);
    let table_length: usize = 8 + 2 * (8 + 5 + 32);
    for at in 64..64 + table_length {
        for bit in [0x01u8, 0x10, 0x80, 0xff] {
            let mut changed = archive_bytes.clone();
            changed[at] ^= bit;
            assert_eq!(
                FileArco::new(&changed).err(),
                Some(FileArcoV1Error::CorruptedEntriesTable)
            );
        }
    }
}

#[test]
fn changed_contents_are_told_by_their_checksum() {
    let archive_bytes = build(&[("a.txt", b"abc"), ("b.txt", b"defg")], 4096);
    let mut changed = archive_bytes.clone();
    changed[4096 + 1] ^= 0x20;
    let archive = FileArco::new(&changed).ok().unwrap();
    let a = archive.get(&changed, "a.txt").unwrap();
    assert_eq!(a.as_slice(), b"aBc");
    assert!(!a.is_valid());
    assert!(archive.get(&changed, "b.txt").unwrap().is_valid());
}

#[test]
fn a_table_that_is_no_table_is_refused_though_its_checksum_fits() {
    let good = assemble(&number(0), &[0u8; 4096]);
    assert!(FileArco::new(&good).is_ok());

    // One row is promised and none is there.
    let none = assemble(&number(1), &[0u8; 4096]);
    assert_eq!(FileArco::new(&none).err(), Some(FileArcoV1Error::CorruptedEntriesTable));

    // The path is not UTF-8.
    let mut table = number(1);
    table.extend_from_slice(&row(&[0xff], 0, 1, 4096, 0));
    let odd = assemble(&table, &[0u8; 4096]);
    assert_eq!(FileArco::new(&odd).err(), Some(FileArcoV1Error::CorruptedEntriesTable));

    // The paths do not grow.
    let mut table = number(2);
    table.extend_from_slice(&row(b"b", 0, 1, 4096, 0));
    table.extend_from_slice(&row(b"a", 4096, 1, 4096, 0));
    let unsorted = assemble(&table, &[0u8; 8192]);
    assert_eq!(FileArco::new(&unsorted).err(), Some(FileArcoV1Error::CorruptedEntriesTable));
}

#[test]
fn another_identifier_or_version_is_refused_first() {
    let mut archive_bytes = build(&[("a.txt", b"abc")], 4096);
    archive_bytes[0] = b'f';
    // The header's checksum is wrong as well, and the identifier decides.
    assert_eq!(FileArco::new(&archive_bytes).err(), Some(FileArcoV1Error::NotArchive));
    assert_eq!(FileArco::new(&[0u8; 64]).err(), Some(FileArcoV1Error::NotArchive));

    let mut header = Header::new(4096, 8, 4096, crc::crc64::checksum_iso(&number(0)));
    header.version_number = 2;
    let mut bytes = header.encode();
    let header_checksum = crc::crc64::checksum_iso(&bytes);
    bytes.extend_from_slice(&number(header_checksum));
    bytes.extend_from_slice(&number(0));
    bytes.resize(8192, 0);
    assert_eq!(FileArco::new(&bytes).err(), Some(FileArcoV1Error::UnsupportedVersion));
}

#[test]
fn an_archive_shorter_than_its_table_and_content_start_is_too_small() {
    // Files that take up less room than the table is long: the archive ends
    // before the place that the content region's start and the table's
    // length add up to.
    let empty = build(&[], 4096);
    assert_eq!(empty.len(), 4096);
    assert_eq!(FileArco::new(&empty).err(), Some(FileArcoV1Error::FileTooSmall));

    let only_empty_files = build(&[("a", b""), ("b", b"")], 4096);
    assert_eq!(only_empty_files.len(), 4096);
    assert_eq!(FileArco::new(&only_empty_files).err(), Some(FileArcoV1Error::FileTooSmall));

    let mut with_room = empty.clone();
    with_room.resize(4096 + 8, 0);
    assert!(FileArco::new(&with_room).is_ok());

    // A header that places the content region before the end of the table.
    let table = number(0);
    let mut header = Header::new(4096, 8, 0, crc::crc64::checksum_iso(&table));
    header.file_offset = 0;
    header.file_length = 70;
    let mut bytes = header.encode();
    let header_checksum = crc::crc64::checksum_iso(&bytes);
    bytes.extend_from_slice(&number(header_checksum));
    bytes.extend_from_slice(&table[..6]);
    assert_eq!(bytes.len(), 70);
    assert_eq!(FileArco::new(&bytes).err(), Some(FileArcoV1Error::FileTooSmall));
}

#[test]
fn room_that_lies_outside_the_mapping_is_not_handed_out() {
    let mut table = number(4);
    table.extend_from_slice(&row(b"beyond", 8192, 1, 4096, 0));
    table.extend_from_slice(&row(b"far", u64::MAX - 4096, 1, 4096, 0));
    table.extend_from_slice(&row(b"fits", 4096, 4096, 4096, 0));
    table.extend_from_slice(&row(b"long", 0, 4097, 4096, 0));
    let bytes = assemble(&table, &[7u8; 8192]);
    let archive = FileArco::new(&bytes).ok().unwrap();
    assert!(archive.entries().contains_key("beyond"));
    assert!(archive.get(&bytes, "beyond").is_none());
    assert!(archive.get(&bytes, "far").is_none());
    assert!(archive.get(&bytes, "long").is_none());
    let fits = archive.get(&bytes, "fits").unwrap();
    assert_eq!(fits.as_slice(), &[7u8; 4096][..]);
    assert_eq!(fits.as_raw(), (8192, 4096));

    // Against a shorter mapping the same entry is refused.
    assert!(archive.get(&bytes[..bytes.len() - 1], "fits").is_none());
}

#[test]
fn contents_that_are_no_text_are_refused_as_text() {
    let archive_bytes = build(
        &[("bad", &[0x66, 0x6f, 0xff]), ("cut", &[0xe2, 0x82]), ("good", "\u{20ac}".as_bytes())],
        4096,
    );
    let archive = FileArco::new(&archive_bytes).ok().unwrap();
    let bad = archive.get(&archive_bytes, "bad").unwrap();
    assert_eq!(bad.as_str(), Err(FileArcoV1Error::InvalidUtf8Content));
    assert_eq!(bad.as_slice(), &[0x66, 0x6f, 0xff]);
    assert!(bad.is_valid());
    let cut = archive.get(&archive_bytes, "cut").unwrap();
    assert_eq!(cut.as_str(), Err(FileArcoV1Error::InvalidUtf8Content));
    let good = archive.get(&archive_bytes, "good").unwrap();
    assert_eq!(good.as_str(), Ok("\u{20ac}"));
}

#[test]
fn views_outlive_the_archive_that_found_them() {
    let archive_bytes = build(&[("a.txt", b"abc")], 4096);
    let view = {
        let archive = FileArco::new(&archive_bytes).ok().unwrap();
        archive.get(&archive_bytes, "a.txt").unwrap()
    };
    assert_eq!(view.as_slice(), b"abc");
    assert!(view.is_valid());
}

#[test]
fn errors_describe_themselves() {
    assert_eq!(FileArcoV1Error::CorruptedEntriesTable.description(), "Corrupted entries table");
    assert_eq!(FileArcoV1Error::CorruptedHeader.description(), "Corrupted header");
    assert_eq!(
        FileArcoV1Error::FileTooSmall.description(),
        "File either too small for FileArco v1 archive or truncated"
    );
    assert_eq!(FileArcoV1Error::FileTruncated.description(), "File truncated");
    assert_eq!(FileArcoV1Error::NotArchive.description(), "Not FileArco archive");
    assert_eq!(FileArcoV1Error::UnsupportedVersion.description(), "Not FileArco v1 archive");
    assert_eq!(
        FileArcoV1Error::InvalidUtf8Content.description(),
        "File contents are not valid UTF-8"
    );
    assert_eq!(FileArcoV1Error::CorruptedHeader.to_string(), "Corrupted header");
    assert_eq!(FileArcoV1Error::FileTruncated.to_string(), "File truncated");
}
