//! Archives of format version 1: opening one that is mapped into memory,
//! finding its files, and building one.
//!
//! An archive is a header, the header's checksum, the serialized entries
//! table, zero bytes up to the next page boundary, and from there the
//! contents of the files in the order of their paths, each followed by
//! zero bytes up to the next page boundary.
//!
//! The archive's bytes belong to the caller, who maps the file and hands
//! the mapping to `FileArco::new` and to `FileArco::get`. A `FileRef`
//! borrows from that mapping, so the mapping outlives every view into it.

use vstd::prelude::*;
use vstd::slice::slice_subrange;
use vstd::utf8::{decode_utf8, encode_utf8_decode_utf8, valid_utf8};
use crate::align::system_page_size;
use crate::checksum::{checksum, crc64_iso};
use crate::codec::{decode_table, parse_table};
use crate::entries::{lookup, Entries, Entry};
use crate::header::{
    filearco_id, magic, stored_entries_checksum, stored_entries_length, stored_file_length,
    stored_file_offset, stored_header_checksum, stored_id, stored_page_size, stored_version, Header,
    HEADER_LENGTH, PREAMBLE_LENGTH, VERSION_NUMBER,
};
use crate::wire::{read_u64, str_from_utf8};

verus! {

/// Why bytes are not an archive that can be read, or why a file in it is
/// not text.
#[derive(Clone, Copy, Debug, PartialEq, Eq, Structural)]
pub enum FileArcoV1Error {
    /// The entries table does not have the checksum that the header
    /// records, or is not the serialized form of a table.
    CorruptedEntriesTable,
    /// The header does not have the checksum that follows it.
    CorruptedHeader,
    /// There are too few bytes for a header, or for the entries table that
    /// the header speaks of.
    FileTooSmall,
    /// There are fewer bytes than the header says the archive has.
    FileTruncated,
    /// The bytes do not start with the identifier of the format.
    NotArchive,
    /// The archive has another version than the one supported.
    UnsupportedVersion,
    /// The contents of a file are not valid UTF-8.
    InvalidUtf8Content,
}

impl FileArcoV1Error {
    /// The text that describes each kind of error.
    pub open spec fn spec_description(&self) -> Seq<char> {
        match self {
            FileArcoV1Error::CorruptedEntriesTable => "Corrupted entries table"@,
            FileArcoV1Error::CorruptedHeader => "Corrupted header"@,
            FileArcoV1Error::FileTooSmall => "File either too small for FileArco v1 archive or truncated"@,
            FileArcoV1Error::FileTruncated => "File truncated"@,
            FileArcoV1Error::NotArchive => "Not FileArco archive"@,
            FileArcoV1Error::UnsupportedVersion => "Not FileArco v1 archive"@,
            FileArcoV1Error::InvalidUtf8Content => "File contents are not valid UTF-8"@,
        }
    }

    /// A short description of the kind of error.
    pub fn description(&self) -> (r: &'static str)
        ensures
            r@ == self.spec_description(),
    {
        match self {
            FileArcoV1Error::CorruptedEntriesTable => "Corrupted entries table",
            FileArcoV1Error::CorruptedHeader => "Corrupted header",
            FileArcoV1Error::FileTooSmall => "File either too small for FileArco v1 archive or truncated",
            FileArcoV1Error::FileTruncated => "File truncated",
            FileArcoV1Error::NotArchive => "Not FileArco archive",
            FileArcoV1Error::UnsupportedVersion => "Not FileArco v1 archive",
            FileArcoV1Error::InvalidUtf8Content => "File contents are not valid UTF-8",
        }
    }

    /// The message that a user is shown.
    pub fn to_string(&self) -> (r: String)
        ensures
            r@ == self.spec_description(),
    {
        self.description().to_owned()
    }
}

/// The serialized entries table of an archive: the bytes that follow the
/// header's checksum, as many as the header says.
pub open spec fn stored_table(map: Seq<u8>) -> Seq<u8> {
    map.subrange(PREAMBLE_LENGTH as int, PREAMBLE_LENGTH + stored_entries_length(map))
}

/// What the checks on an archive's bytes come to: the first of them that
/// fails or, if none does, the entries table. In their order, the checks
/// ask
///
/// - that there are bytes enough for a header and its checksum,
/// - that the bytes start with the identifier of the format,
/// - that the version is the one supported,
/// - that the header has the checksum that follows it,
/// - that there are as many bytes as the header says the archive has,
/// - that there are as many bytes as the start of the content region and
///   the length of the serialized entries table add up to, and that the
///   serialized entries table, which follows the header's checksum, lies
///   within the bytes,
/// - that the serialized entries table has the checksum that the header
///   records for it, and
/// - that it is the serialized form of a table.
pub open spec fn validate(map: Seq<u8>) -> Result<Seq<(Seq<char>, Entry)>, FileArcoV1Error> {
    if map.len() < PREAMBLE_LENGTH {
        Err(FileArcoV1Error::FileTooSmall)
    } else if stored_id(map) != magic() {
        Err(FileArcoV1Error::NotArchive)
    } else if stored_version(map) != VERSION_NUMBER {
        Err(FileArcoV1Error::UnsupportedVersion)
    } else if crc64_iso(map.subrange(0, HEADER_LENGTH as int)) != stored_header_checksum(map) {
        Err(FileArcoV1Error::CorruptedHeader)
    } else if map.len() < stored_file_length(map) {
        Err(FileArcoV1Error::FileTruncated)
    } else if map.len() < stored_file_offset(map) + stored_entries_length(map) || map.len()
        < PREAMBLE_LENGTH + stored_entries_length(map) {
        Err(FileArcoV1Error::FileTooSmall)
    } else if crc64_iso(stored_table(map)) != stored_entries_checksum(map) {
        Err(FileArcoV1Error::CorruptedEntriesTable)
    } else {
        match parse_table(stored_table(map)) {
            None => Err(FileArcoV1Error::CorruptedEntriesTable),
            Some(rows) => Ok(rows),
        }
    }
}

/// The room that `entry` claims lies within a mapping of `map_length` bytes
/// whose content region starts at `content_offset`, and holds the file.
pub open spec fn room_lies_within(content_offset: u64, entry: Entry, map_length: int) -> bool {
    &&& content_offset + entry.offset + entry.aligned_length <= map_length
    &&& entry.length <= entry.aligned_length
}

/// The contents of the file of `entry` in the mapping `map`, whose content
/// region starts at `content_offset`: none where the room that the entry
/// claims does not lie within the mapping.
pub open spec fn contents_at(map: Seq<u8>, content_offset: u64, entry: Entry) -> Option<Seq<u8>> {
    if room_lies_within(content_offset, entry, map.len() as int) {
        Some(
            map.subrange(
                content_offset + entry.offset,
                content_offset + entry.offset + entry.length,
            ),
        )
    } else {
        None
    }
}

/// What opening the archive at `map` and getting the file at `path` comes
/// to: the file's contents, where the archive can be opened and holds the
/// file.
pub open spec fn fetch(map: Seq<u8>, path: Seq<char>) -> Option<Seq<u8>> {
    match validate(map) {
        Err(_) => None,
        Ok(rows) => match lookup(rows, path) {
            None => None,
            Some(entry) => contents_at(map, stored_file_offset(map), entry),
        },
    }
}

/// Tells whether two identifiers are the same.
fn same_id(a: &[u8; 8], b: &[u8; 8]) -> (r: bool)
    ensures
        r == (a@ == b@),
{
    let mut i: usize = 0;
    while i < 8
        invariant
            i <= 8,
            forall|j: int| 0 <= j < i ==> a@[j] == b@[j],
        decreases 8 - i,
    {
        if a[i] != b[i] {
            return false;
        }
        i += 1;
    }
    assert(a@ =~= b@);
    true
}

/// An archive that was opened: what its header and its entries table say.
#[derive(Debug)]
pub struct FileArco {
    file_offset: u64,
    page_size: u64,
    should_prefetch: bool,
    entries: Entries,
}

impl FileArco {
    /// The rows of the entries table.
    pub closed spec fn rows(&self) -> Seq<(Seq<char>, Entry)> {
        self.entries@
    }

    /// Where the content region starts.
    pub closed spec fn content_offset(&self) -> u64 {
        self.file_offset
    }

    /// The page size that the archive was laid out for.
    pub closed spec fn built_for(&self) -> u64 {
        self.page_size
    }

    /// Whether views into the archive ask for their pages ahead of time.
    pub closed spec fn prefetches(&self) -> bool {
        self.should_prefetch
    }

    /// Opens the archive that is mapped at `map`, on a system with the page
    /// size given. The checks are made in a fixed order, and the first that
    /// fails decides the error. Views into the archive ask for their pages
    /// ahead of time only where the archive was laid out for the system's
    /// page size.
    pub fn new_with_page_size(map: &[u8], system_page_size: u64) -> (r: Result<
        FileArco,
        FileArcoV1Error,
    >)
        ensures
            match r {
                Ok(archive) => {
                    &&& validate(map@) == Ok::<Seq<(Seq<char>, Entry)>, FileArcoV1Error>(
                        archive.rows(),
                    )
                    &&& archive.content_offset() == stored_file_offset(map@)
                    &&& archive.built_for() == stored_page_size(map@)
                    &&& archive.prefetches() == (stored_page_size(map@) == system_page_size)
                },
                Err(e) => validate(map@) == Err::<Seq<(Seq<char>, Entry)>, FileArcoV1Error>(e),
            },
    {
        let length: usize = map.len();
        if length < PREAMBLE_LENGTH {
            return Err(FileArcoV1Error::FileTooSmall);
        }
        let header = Header::decode(map);
        let header_checksum: u64 = read_u64(map, HEADER_LENGTH);
        if !same_id(&header.id, &filearco_id()) {
            return Err(FileArcoV1Error::NotArchive);
        }
        if header.version_number != VERSION_NUMBER {
            return Err(FileArcoV1Error::UnsupportedVersion);
        }
        if checksum(slice_subrange(map, 0, HEADER_LENGTH)) != header_checksum {
            return Err(FileArcoV1Error::CorruptedHeader);
        }
        if (length as u64) < header.file_length {
            return Err(FileArcoV1Error::FileTruncated);
        }
        match header.file_offset.checked_add(header.entries_length) {
            None => {
                return Err(FileArcoV1Error::FileTooSmall);
            },
            Some(end) => {
                if (length as u64) < end {
                    return Err(FileArcoV1Error::FileTooSmall);
                }
            },
        }
        if ((length - PREAMBLE_LENGTH) as u64) < header.entries_length {
            return Err(FileArcoV1Error::FileTooSmall);
        }
        let table_end: usize = PREAMBLE_LENGTH + (header.entries_length as usize);
        let table = slice_subrange(map, PREAMBLE_LENGTH, table_end);
        if checksum(table) != header.entries_checksum {
            return Err(FileArcoV1Error::CorruptedEntriesTable);
        }
        match decode_table(table) {
            None => Err(FileArcoV1Error::CorruptedEntriesTable),
            Some(entries) => Ok(
                FileArco {
                    file_offset: header.file_offset,
                    page_size: header.page_size,
                    should_prefetch: header.page_size == system_page_size,
                    entries,
                },
            ),
        }
    }

    /// Opens the archive that is mapped at `map`, on this system: see
    /// `new_with_page_size`, which is given this system's page size.
    pub fn new(map: &[u8]) -> (r: Result<FileArco, FileArcoV1Error>)
        ensures
            match r {
                Ok(archive) => {
                    &&& validate(map@) == Ok::<Seq<(Seq<char>, Entry)>, FileArcoV1Error>(
                        archive.rows(),
                    )
                    &&& archive.content_offset() == stored_file_offset(map@)
                    &&& archive.built_for() == stored_page_size(map@)
                },
                Err(e) => validate(map@) == Err::<Seq<(Seq<char>, Entry)>, FileArcoV1Error>(e),
            },
    {
        FileArco::new_with_page_size(map, system_page_size())
    }

    /// The page size of the system that the archive was built on.
    pub fn page_size(&self) -> (r: u64)
        ensures
            r == self.built_for(),
    {
        self.page_size
    }

    /// Whether views into the archive ask for their pages ahead of time.
    pub fn should_prefetch(&self) -> (r: bool)
        ensures
            r == self.prefetches(),
    {
        self.should_prefetch
    }

    /// The entries table.
    pub fn entries(&self) -> (r: &Entries)
        ensures
            r@ == self.rows(),
    {
        &self.entries
    }

    /// A view of the file at `file_path`, where `map` is the mapping of the
    /// archive. `None` where the archive holds no file of that path. The
    /// room that the table claims for the file is held against the length
    /// of the mapping before any of it is handed out: `None` also where
    /// that room does not lie within the mapping or is too small for the
    /// file.
    pub fn get<'a>(&self, map: &'a [u8], file_path: &str) -> (r: Option<FileRef<'a>>)
        ensures
            match r {
                Some(view) => {
                    &&& lookup(self.rows(), file_path@) matches Some(entry)
                    &&& contents_at(map@, self.content_offset(), entry) == Some(view.contents())
                    &&& view.start() == self.content_offset() + entry.offset
                    &&& view.region() == map@.subrange(
                        view.start() as int,
                        view.start() + entry.aligned_length,
                    )
                    &&& view.spec_len() == entry.length
                    &&& view.expected_checksum() == entry.checksum
                    &&& view.prefetched() == self.prefetches()
                },
                None => lookup(self.rows(), file_path@) matches Some(entry) ==> contents_at(
                    map@,
                    self.content_offset(),
                    entry,
                ) is None,
            },
    {
        let length: usize = map.len();
        let entry = match self.entries.get(file_path) {
            Some(entry) => entry,
            None => {
                return None;
            },
        };
        let start: u64 = match self.file_offset.checked_add(entry.offset) {
            Some(start) => start,
            None => {
                return None;
            },
        };
        let end: u64 = match start.checked_add(entry.aligned_length) {
            Some(end) => end,
            None => {
                return None;
            },
        };
        if end > (length as u64) || entry.length > entry.aligned_length {
            return None;
        }
        let region = slice_subrange(map, start as usize, end as usize);
        assert(region@.take(entry.length as int) =~= map@.subrange(
            start as int,
            start + entry.length,
        ));
        Some(
            FileRef {
                region,
                start: start as usize,
                length: entry.length,
                checksum: entry.checksum,
                prefetch: self.should_prefetch,
            },
        )
    }
}

/// A view of one file in a mapped archive.
#[derive(Clone, Copy, Debug)]
pub struct FileRef<'a> {
    region: &'a [u8],
    start: usize,
    length: u64,
    checksum: u64,
    prefetch: bool,
}

impl<'a> FileRef<'a> {
    #[verifier::type_invariant]
    spec fn well_formed(&self) -> bool {
        self.length <= self.region@.len()
    }

    /// The room of the file in the mapping: its contents and the padding
    /// after them.
    pub closed spec fn region(&self) -> Seq<u8> {
        self.region@
    }

    /// Where the file starts in the mapping.
    pub closed spec fn start(&self) -> usize {
        self.start
    }

    /// The length of the file.
    pub closed spec fn spec_len(&self) -> u64 {
        self.length
    }

    /// The checksum that the entries table records for the file.
    pub closed spec fn expected_checksum(&self) -> u64 {
        self.checksum
    }

    /// Whether the view asks for its pages ahead of time.
    pub closed spec fn prefetched(&self) -> bool {
        self.prefetch
    }

    /// The contents of the file.
    pub open spec fn contents(&self) -> Seq<u8> {
        self.region().take(self.spec_len() as int)
    }

    /// Tells whether the contents have the checksum that the entries table
    /// records for them. This reads the whole file.
    pub fn is_valid(&self) -> (r: bool)
        ensures
            r == (crc64_iso(self.contents()) == self.expected_checksum()),
    {
        checksum(self.as_slice()) == self.checksum
    }

    /// The contents of the file: as many bytes as the file is long, and
    /// none of the padding.
    pub fn as_slice(&self) -> (r: &'a [u8])
        ensures
            r@ == self.contents(),
    {
        proof {
            use_type_invariant(self);
        }
        let room: usize = self.region.len();
        assert(self.length <= room);
        slice_subrange(self.region, 0, self.length as usize)
    }

    /// The contents of the file as text, where they are valid UTF-8.
    pub fn as_str(&self) -> (r: Result<&'a str, FileArcoV1Error>)
        ensures
            match r {
                Ok(text) => valid_utf8(self.contents()) && text@ == decode_utf8(self.contents()),
                Err(e) => e == FileArcoV1Error::InvalidUtf8Content && !valid_utf8(self.contents()),
            },
    {
        match str_from_utf8(self.as_slice()) {
            Ok(text) => {
                proof {
                    encode_utf8_decode_utf8(text@);
                }
                Ok(text)
            },
            Err(_) => Err(FileArcoV1Error::InvalidUtf8Content),
        }
    }

    /// The room of the file in the mapping, as the place where it starts,
    /// counted in bytes from the start of the mapping, and its length, which
    /// is the file's length rounded up to the page size. This is what a
    /// caller needs to advise the system about the file's pages.
    pub fn as_raw(&self) -> (r: (usize, usize))
        ensures
            r.0 == self.start(),
            r.1 == self.region().len(),
    {
        (self.start, self.region.len())
    }

    /// The room to ask the system for ahead of use, and to give back when
    /// the view is done with: that of `as_raw`, where the archive was laid
    /// out for the system's page size, else none.
    pub fn prefetch_region(&self) -> (r: Option<(usize, usize)>)
        ensures
            r == if self.prefetched() {
                Some((self.start(), self.region().len() as usize))
            } else {
                None
            },
    {
        if self.prefetch {
            Some((self.start, self.region.len()))
        } else {
            None
        }
    }

    /// The length of the file.
    pub fn len(&self) -> (r: u64)
        ensures
            r == self.spec_len(),
    {
        self.length
    }
}

} // verus!
