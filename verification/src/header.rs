//! The header that an archive starts with.
//!
//! The header is seven fields of eight bytes each: the identifier, the
//! format version, the length of the whole archive, the place where the
//! content region starts, the page size that the archive was laid out for,
//! the length of the serialized entries table, and that table's checksum.
//! Numbers are written lowest byte first. The header's own checksum follows
//! it, the serialized entries table follows that, and zero bytes fill the
//! room up to the content region.

use vstd::prelude::*;
use crate::align::{align_up, aligned, is_page_size, lemma_aligned_is_least_multiple};
use crate::wire::{
    append_bytes, append_u64, le_bytes, lemma_le_bytes, lemma_u64_at_written, read_u64, u64_at,
};

verus! {

/// The only version of the format.
pub const VERSION_NUMBER: u64 = 1;

/// The number of bytes that a header takes up.
pub const HEADER_LENGTH: usize = 56;

/// The number of bytes that the header's checksum takes up.
pub const CHECKSUM_LENGTH: usize = 8;

/// The number of bytes before the serialized entries table: the header and
/// its checksum.
pub const PREAMBLE_LENGTH: usize = 64;

/// The identifier that every archive starts with: `FILEARCO`.
pub open spec fn magic() -> Seq<u8> {
    seq![70u8, 73u8, 76u8, 69u8, 65u8, 82u8, 67u8, 79u8]
}

/// The identifier that every archive starts with.
pub fn filearco_id() -> (r: [u8; 8])
    ensures
        r@ == magic(),
{
    let id: [u8; 8] = [70, 73, 76, 69, 65, 82, 67, 79];
    assert(id@ =~= magic());
    id
}

/// The top-level description of an archive.
#[derive(Clone, Copy, Debug, PartialEq, Eq)]
pub struct Header {
    /// The identifier of the format.
    pub id: [u8; 8],
    /// The version of the format.
    pub version_number: u64,
    /// The length of the whole archive.
    pub file_length: u64,
    /// Where the content region starts.
    pub file_offset: u64,
    /// The page size that the archive was laid out for.
    pub page_size: u64,
    /// The length of the serialized entries table.
    pub entries_length: u64,
    /// The checksum of the serialized entries table.
    pub entries_checksum: u64,
}

/// The serialized form of a header.
pub open spec fn header_bytes(header: Header) -> Seq<u8> {
    header.id@ + le_bytes(header.version_number) + le_bytes(header.file_length) + le_bytes(
        header.file_offset,
    ) + le_bytes(header.page_size) + le_bytes(header.entries_length) + le_bytes(
        header.entries_checksum,
    )
}

/// The serialized form of a header of this format with the given fields.
pub open spec fn header_bytes_of(
    file_length: u64,
    file_offset: u64,
    page_size: u64,
    entries_length: u64,
    entries_checksum: u64,
) -> Seq<u8> {
    magic() + le_bytes(VERSION_NUMBER) + le_bytes(file_length) + le_bytes(file_offset) + le_bytes(
        page_size,
    ) + le_bytes(entries_length) + le_bytes(entries_checksum)
}

/// The identifier that the bytes start with.
pub open spec fn stored_id(bytes: Seq<u8>) -> Seq<u8> {
    bytes.subrange(0, 8)
}

/// The version that the bytes claim.
pub open spec fn stored_version(bytes: Seq<u8>) -> u64 {
    u64_at(bytes, 8)
}

/// The length of the whole archive, as the bytes claim it.
pub open spec fn stored_file_length(bytes: Seq<u8>) -> u64 {
    u64_at(bytes, 16)
}

/// The start of the content region, as the bytes claim it.
pub open spec fn stored_file_offset(bytes: Seq<u8>) -> u64 {
    u64_at(bytes, 24)
}

/// The page size that the bytes claim.
pub open spec fn stored_page_size(bytes: Seq<u8>) -> u64 {
    u64_at(bytes, 32)
}

/// The length of the serialized entries table, as the bytes claim it.
pub open spec fn stored_entries_length(bytes: Seq<u8>) -> u64 {
    u64_at(bytes, 40)
}

/// The checksum of the serialized entries table, as the bytes claim it.
pub open spec fn stored_entries_checksum(bytes: Seq<u8>) -> u64 {
    u64_at(bytes, 48)
}

/// The checksum of the header, as the bytes claim it.
pub open spec fn stored_header_checksum(bytes: Seq<u8>) -> u64 {
    u64_at(bytes, 56)
}

/// Where the content region starts in an archive whose serialized entries
/// table takes up `entries_length` bytes: at the first page boundary after
/// the header, its checksum and the table.
pub open spec fn content_start(entries_length: u64, page_size: u64) -> int {
    aligned(HEADER_LENGTH + CHECKSUM_LENGTH + entries_length, page_size as int)
}

impl Header {
    /// The header holds what the bytes claim, field by field.
    pub open spec fn describes(&self, bytes: Seq<u8>) -> bool {
        &&& self.id@ == stored_id(bytes)
        &&& self.version_number == stored_version(bytes)
        &&& self.file_length == stored_file_length(bytes)
        &&& self.file_offset == stored_file_offset(bytes)
        &&& self.page_size == stored_page_size(bytes)
        &&& self.entries_length == stored_entries_length(bytes)
        &&& self.entries_checksum == stored_entries_checksum(bytes)
    }

    /// The header of an archive with the given page size, whose serialized
    /// entries table takes up `entries_length` bytes and has the checksum
    /// `entries_checksum`, and whose files take up `file_contents_length`
    /// bytes together. Every header takes up `HEADER_LENGTH` bytes, so the
    /// start of the content region is known before the header is written.
    pub fn new(
        page_size: u64,
        entries_length: u64,
        file_contents_length: u64,
        entries_checksum: u64,
    ) -> (r: Header)
        requires
            is_page_size(page_size),
            content_start(entries_length, page_size) + file_contents_length <= u64::MAX,
        ensures
            r.id@ == magic(),
            r.version_number == VERSION_NUMBER,
            r.file_offset == content_start(entries_length, page_size),
            r.file_length == r.file_offset + file_contents_length,
            r.page_size == page_size,
            r.entries_length == entries_length,
            r.entries_checksum == entries_checksum,
    {
        proof {
            lemma_aligned_is_least_multiple(
                HEADER_LENGTH + CHECKSUM_LENGTH + entries_length,
                page_size as int,
            );
        }
        let start: u64 = (HEADER_LENGTH as u64) + (CHECKSUM_LENGTH as u64) + entries_length;
        let file_offset: u64 = align_up(start, page_size);
        Header {
            id: filearco_id(),
            version_number: VERSION_NUMBER,
            file_length: file_offset + file_contents_length,
            file_offset,
            page_size,
            entries_length,
            entries_checksum,
        }
    }

    /// Writes the header in its serialized form.
    pub fn encode(&self) -> (r: Vec<u8>)
        ensures
            r@ == header_bytes(*self),
            r@.len() == HEADER_LENGTH,
    {
        let mut out: Vec<u8> = Vec::new();
        append_bytes(&mut out, &self.id);
        append_u64(&mut out, self.version_number);
        append_u64(&mut out, self.file_length);
        append_u64(&mut out, self.file_offset);
        append_u64(&mut out, self.page_size);
        append_u64(&mut out, self.entries_length);
        append_u64(&mut out, self.entries_checksum);
        proof {
            lemma_header_bytes_len(*self);
            assert(out@ =~= header_bytes(*self));
        }
        out
    }

    /// Reads a header from the bytes that an archive starts with.
    pub fn decode(bytes: &[u8]) -> (r: Header)
        requires
            bytes@.len() >= HEADER_LENGTH,
        ensures
            r.describes(bytes@),
    {
        let mut id: [u8; 8] = [0; 8];
        let mut i: usize = 0;
        while i < 8
            invariant
                i <= 8,
                bytes@.len() >= HEADER_LENGTH,
                forall|j: int| 0 <= j < i ==> id@[j] == bytes@[j],
            decreases 8 - i,
        {
            id[i] = bytes[i];
            i += 1;
        }
        assert(id@ =~= stored_id(bytes@));
        Header {
            id,
            version_number: read_u64(bytes, 8),
            file_length: read_u64(bytes, 16),
            file_offset: read_u64(bytes, 24),
            page_size: read_u64(bytes, 32),
            entries_length: read_u64(bytes, 40),
            entries_checksum: read_u64(bytes, 48),
        }
    }
}

/// A serialized header takes up `HEADER_LENGTH` bytes.
pub proof fn lemma_header_bytes_len(header: Header)
    ensures
        header_bytes(header).len() == HEADER_LENGTH,
{
    lemma_le_bytes(header.version_number);
    lemma_le_bytes(header.file_length);
    lemma_le_bytes(header.file_offset);
    lemma_le_bytes(header.page_size);
    lemma_le_bytes(header.entries_length);
    lemma_le_bytes(header.entries_checksum);
}

/// A serialized header of this format takes up `HEADER_LENGTH` bytes.
pub proof fn lemma_header_bytes_of_len(
    file_length: u64,
    file_offset: u64,
    page_size: u64,
    entries_length: u64,
    entries_checksum: u64,
)
    ensures
        header_bytes_of(
            file_length,
            file_offset,
            page_size,
            entries_length,
            entries_checksum,
        ).len() == HEADER_LENGTH,
{
    lemma_le_bytes(VERSION_NUMBER);
    lemma_le_bytes(file_length);
    lemma_le_bytes(file_offset);
    lemma_le_bytes(page_size);
    lemma_le_bytes(entries_length);
    lemma_le_bytes(entries_checksum);
}

/// Reading undoes writing: bytes that start with a serialized header of
/// this format claim the identifier and the version of the format, and
/// what the header's fields hold.
pub proof fn lemma_header_read_back(
    bytes: Seq<u8>,
    file_length: u64,
    file_offset: u64,
    page_size: u64,
    entries_length: u64,
    entries_checksum: u64,
)
    requires
        bytes.len() >= HEADER_LENGTH,
        bytes.subrange(0, HEADER_LENGTH as int) == header_bytes_of(
            file_length,
            file_offset,
            page_size,
            entries_length,
            entries_checksum,
        ),
    ensures
        stored_id(bytes) == magic(),
        stored_version(bytes) == VERSION_NUMBER,
        stored_file_length(bytes) == file_length,
        stored_file_offset(bytes) == file_offset,
        stored_page_size(bytes) == page_size,
        stored_entries_length(bytes) == entries_length,
        stored_entries_checksum(bytes) == entries_checksum,
{
    let whole = header_bytes_of(
        file_length,
        file_offset,
        page_size,
        entries_length,
        entries_checksum,
    );
    lemma_header_bytes_of_len(file_length, file_offset, page_size, entries_length, entries_checksum);
    lemma_le_bytes(VERSION_NUMBER);
    lemma_le_bytes(file_length);
    lemma_le_bytes(file_offset);
    lemma_le_bytes(page_size);
    lemma_le_bytes(entries_length);
    lemma_le_bytes(entries_checksum);
    assert(bytes.subrange(0, 8) =~= whole.subrange(0, 8));
    assert(whole.subrange(0, 8) =~= magic());
    assert(bytes.subrange(8, 16) =~= whole.subrange(8, 16));
    assert(whole.subrange(8, 16) =~= le_bytes(VERSION_NUMBER));
    assert(bytes.subrange(16, 24) =~= whole.subrange(16, 24));
    assert(whole.subrange(16, 24) =~= le_bytes(file_length));
    assert(bytes.subrange(24, 32) =~= whole.subrange(24, 32));
    assert(whole.subrange(24, 32) =~= le_bytes(file_offset));
    assert(bytes.subrange(32, 40) =~= whole.subrange(32, 40));
    assert(whole.subrange(32, 40) =~= le_bytes(page_size));
    assert(bytes.subrange(40, 48) =~= whole.subrange(40, 48));
    assert(whole.subrange(40, 48) =~= le_bytes(entries_length));
    assert(bytes.subrange(48, 56) =~= whole.subrange(48, 56));
    assert(whole.subrange(48, 56) =~= le_bytes(entries_checksum));
    lemma_u64_at_written(bytes, 8, VERSION_NUMBER);
    lemma_u64_at_written(bytes, 16, file_length);
    lemma_u64_at_written(bytes, 24, file_offset);
    lemma_u64_at_written(bytes, 32, page_size);
    lemma_u64_at_written(bytes, 40, entries_length);
    lemma_u64_at_written(bytes, 48, entries_checksum);
}

} // verus!
