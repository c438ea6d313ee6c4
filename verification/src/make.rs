//! Building an archive.
//!
//! The files are laid out in the order of their paths. The archive starts
//! with the header, the header's checksum, the serialized entries table and
//! zero bytes up to the next page boundary; the contents of the files
//! follow in the order of the table, each with zero bytes after it up to
//! the next page boundary.

use vstd::prelude::*;
use crate::align::{
    check_page_size, checked_align_up, is_page_size, lemma_aligned_is_least_multiple,
    system_page_size,
};
use crate::checksum::{checksum, crc64_iso};
use crate::codec::{
    encode_table, lemma_table_bytes_len, lemma_table_size_ignores_order, row_size, table_bytes,
    table_size,
};
use crate::entries::{Entries, Entry};
use crate::file_data::{metadata, FileData, FileDataError, FileDatum, Metadatum};
use crate::layout::{
    build_order, layout, lemma_build_order, lemma_layout_is_aligned, lemma_layout_total,
    lemma_rows_total_prefix, lemma_total_aligned_ignores_order, lemma_total_aligned_prefix,
    listing, names_distinct, rows_aligned, rows_total, sum_of, total_aligned,
};
use crate::header::{
    content_start, header_bytes, header_bytes_of, magic, Header, CHECKSUM_LENGTH, HEADER_LENGTH,
    PREAMBLE_LENGTH, VERSION_NUMBER,
};
use crate::v1::FileArco;
use crate::wire::{append_bytes, append_u64, append_zeros, le_bytes, lemma_le_bytes, zeros};

verus! {

/// The entries table of the archive of these files.
pub open spec fn table_of(data: Seq<Metadatum>, page_size: u64) -> Seq<(Seq<char>, Entry)> {
    layout(build_order(data), page_size)
}

/// Where the content region starts in the archive of these files.
pub open spec fn archive_start(data: Seq<Metadatum>, page_size: u64) -> int {
    content_start(table_size(data) as u64, page_size)
}

/// The length of the archive of these files.
pub open spec fn archive_length(data: Seq<Metadatum>, page_size: u64) -> int {
    archive_start(data, page_size) + total_aligned(data, page_size)
}

/// An archive of these files can be laid out: the page size is a power of
/// two, the lengths that the header records fit in 64 bits, and what comes
/// before the content region fits in memory.
pub open spec fn archive_fits(data: Seq<Metadatum>, page_size: u64) -> bool {
    &&& is_page_size(page_size)
    &&& table_size(data) <= u64::MAX
    &&& archive_length(data, page_size) <= u64::MAX
    &&& archive_start(data, page_size) <= usize::MAX
}

/// The serialized header of the archive of these files.
pub open spec fn archive_header(data: Seq<Metadatum>, page_size: u64) -> Seq<u8> {
    let table = table_bytes(table_of(data, page_size));
    header_bytes_of(
        archive_length(data, page_size) as u64,
        archive_start(data, page_size) as u64,
        page_size,
        table.len() as u64,
        crc64_iso(table),
    )
}

/// What the archive of these files holds before its content region: the
/// header, the header's checksum, the serialized entries table, and zero
/// bytes up to the page boundary at which the content region starts.
pub open spec fn archive_prefix(data: Seq<Metadatum>, page_size: u64) -> Seq<u8> {
    let header = archive_header(data, page_size);
    let table = table_bytes(table_of(data, page_size));
    header + le_bytes(crc64_iso(header)) + table + zeros(
        archive_start(data, page_size) - PREAMBLE_LENGTH - table.len(),
    )
}

/// The contents that were handed over for the file at `name`.
pub open spec fn contents_of(data: Seq<Metadatum>, contents: Seq<Seq<u8>>, name: Seq<char>) -> Seq<
    u8,
> {
    contents[choose|i: int| 0 <= i < data.len() && data[i].name == name]
}

/// The contents of a file with the zero bytes that fill its room.
pub open spec fn padded(content: Seq<u8>, entry: Entry) -> Seq<u8> {
    content + zeros(entry.aligned_length - entry.length)
}

/// The content region for the rows given: the padded contents of each
/// row's file, in the order of the rows.
pub open spec fn content_region(
    rows: Seq<(Seq<char>, Entry)>,
    data: Seq<Metadatum>,
    contents: Seq<Seq<u8>>,
) -> Seq<u8>
    decreases rows.len(),
{
    if rows.len() == 0 {
        Seq::empty()
    } else {
        content_region(rows.drop_last(), data, contents) + padded(
            contents_of(data, contents, rows.last().0),
            rows.last().1,
        )
    }
}

/// The archive of these files.
pub open spec fn archive_bytes(data: Seq<Metadatum>, contents: Seq<Seq<u8>>, page_size: u64) -> Seq<
    u8,
> {
    archive_prefix(data, page_size) + content_region(table_of(data, page_size), data, contents)
}

/// The contents are as long as the data say.
pub open spec fn lengths_match(data: Seq<Metadatum>, contents: Seq<Seq<u8>>) -> bool {
    &&& contents.len() == data.len()
    &&& forall|i: int| 0 <= i < data.len() ==> (#[trigger] contents[i]).len() == data[i].length
}

/// A header of this format is serialized as `header_bytes_of` says.
pub proof fn lemma_header_bytes_of(header: Header)
    requires
        header.id@ == magic(),
        header.version_number == VERSION_NUMBER,
    ensures
        header_bytes(header) == header_bytes_of(
            header.file_length,
            header.file_offset,
            header.page_size,
            header.entries_length,
            header.entries_checksum,
        ),
{
}

/// A sum of numbers that are not negative grows with every file.
proof fn lemma_sum_prefix(data: Seq<Metadatum>, k: int, f: spec_fn(Metadatum) -> int)
    requires
        0 <= k <= data.len(),
        forall|d: Metadatum| 0 <= #[trigger] f(d),
    ensures
        0 <= sum_of(data.take(k), f) <= sum_of(data, f),
        k < data.len() ==> sum_of(data.take(k + 1), f) == sum_of(data.take(k), f) + f(data[k]),
    decreases data.len() - k,
{
    if k == data.len() {
        assert(data.take(k) =~= data);
        lemma_sum_nonnegative(data, f);
    } else {
        assert(data.take(k + 1).drop_last() =~= data.take(k));
        lemma_sum_prefix(data, k + 1, f);
        lemma_sum_nonnegative(data.take(k), f);
    }
}

proof fn lemma_sum_nonnegative(data: Seq<Metadatum>, f: spec_fn(Metadatum) -> int)
    requires
        forall|d: Metadatum| 0 <= #[trigger] f(d),
    ensures
        0 <= sum_of(data, f),
    decreases data.len(),
{
    if data.len() > 0 {
        lemma_sum_nonnegative(data.drop_last(), f);
    }
}

/// Bounds on the table and the content region of an archive that fits.
proof fn lemma_fits_bounds(data: Seq<Metadatum>, page_size: u64)
    requires
        is_page_size(page_size),
    ensures
        0 <= total_aligned(data, page_size),
        8 <= table_size(data),
        table_size(data) <= u64::MAX ==> PREAMBLE_LENGTH + table_size(data) <= archive_start(
            data,
            page_size,
        ),
        archive_fits(data, page_size) ==> total_aligned(data, page_size) <= u64::MAX
            && PREAMBLE_LENGTH + table_size(data) <= u64::MAX,
{
    lemma_total_aligned_prefix(data, 0, page_size);
    lemma_sum_nonnegative(data, row_size());
    if table_size(data) <= u64::MAX {
        lemma_aligned_is_least_multiple(
            HEADER_LENGTH + CHECKSUM_LENGTH + table_size(data),
            page_size as int,
        );
    }
}

/// The table of the archive: it is as long, serialized, as `table_size`
/// says, and claims the room that the files take up.
pub proof fn lemma_table_of(data: Seq<Metadatum>, page_size: u64)
    requires
        page_size > 0,
        total_aligned(data, page_size) <= u64::MAX,
    ensures
        table_bytes(table_of(data, page_size)).len() == table_size(data),
        rows_total(table_of(data, page_size)) == total_aligned(data, page_size),
        table_of(data, page_size).len() == data.len(),
{
    lemma_build_order(data);
    lemma_table_bytes_len(build_order(data), page_size);
    lemma_table_size_ignores_order(build_order(data), data);
    lemma_total_aligned_ignores_order(build_order(data), data, page_size);
    lemma_layout_total(build_order(data), page_size);
}

/// The views of the contents that were handed over, in the same order.
pub open spec fn views(contents: Seq<Vec<u8>>) -> Seq<Seq<u8>> {
    contents.map_values(|c: Vec<u8>| c@)
}

/// An archive of these files and contents can be built in memory: it can be
/// laid out, the contents are as long as the data say, and the archive
/// fits in memory.
pub open spec fn archive_can_be_made(
    data: Seq<Metadatum>,
    contents: Seq<Seq<u8>>,
    page_size: u64,
) -> bool {
    &&& archive_fits(data, page_size)
    &&& lengths_match(data, contents)
    &&& archive_length(data, page_size) <= usize::MAX
}

/// `r` is what preparing the archive of these files comes to, for the page
/// size given: nothing where no archive can be laid out, an error where
/// two files share a path, else the archive up to its content region and
/// its entries table.
pub open spec fn is_prepared(
    data: Seq<Metadatum>,
    page_size: u64,
    r: Option<Result<(Vec<u8>, Entries), FileDataError>>,
) -> bool {
    match r {
        None => !archive_fits(data, page_size),
        Some(Ok((prefix, table))) => {
            &&& archive_fits(data, page_size)
            &&& names_distinct(data)
            &&& table@ == table_of(data, page_size)
            &&& prefix@ == archive_prefix(data, page_size)
        },
        Some(Err(e)) => {
            &&& archive_fits(data, page_size)
            &&& e == FileDataError::DuplicateEntry
            &&& !names_distinct(data)
        },
    }
}

/// `r` is what building the archive of these files and contents comes to,
/// for the page size given: nothing where no archive can be built in
/// memory, an error where two files share a path, else the archive.
pub open spec fn is_made(
    data: Seq<Metadatum>,
    contents: Seq<Seq<u8>>,
    page_size: u64,
    r: Option<Result<Vec<u8>, FileDataError>>,
) -> bool {
    match r {
        None => !archive_can_be_made(data, contents, page_size),
        Some(Ok(archive)) => {
            &&& archive_can_be_made(data, contents, page_size)
            &&& names_distinct(data)
            &&& archive@ == archive_bytes(data, contents, page_size)
        },
        Some(Err(e)) => {
            &&& archive_can_be_made(data, contents, page_size)
            &&& e == FileDataError::DuplicateEntry
            &&& !names_distinct(data)
        },
    }
}

/// Among files of distinct paths, the contents handed over for a file's
/// path are those at the file's place.
pub proof fn lemma_contents_of(data: Seq<Metadatum>, contents: Seq<Seq<u8>>, i: int)
    requires
        names_distinct(data),
        0 <= i < data.len(),
    ensures
        contents_of(data, contents, data[i].name) == contents[i],
{
    let j = choose|j: int| 0 <= j < data.len() && data[j].name == data[i].name;
    if j < i {
        assert(data[j].name != data[i].name);
    } else if i < j {
        assert(data[i].name != data[j].name);
    }
}

/// The content region grows by the padded contents of each row's file.
pub proof fn lemma_content_region_step(
    rows: Seq<(Seq<char>, Entry)>,
    data: Seq<Metadatum>,
    contents: Seq<Seq<u8>>,
    k: int,
)
    requires
        0 <= k < rows.len(),
    ensures
        content_region(rows.take(k + 1), data, contents) == content_region(
            rows.take(k),
            data,
            contents,
        ) + padded(contents_of(data, contents, rows[k].0), rows[k].1),
{
    assert(rows.take(k + 1).drop_last() =~= rows.take(k));
    assert(rows.take(k + 1).last() == rows[k]);
}

/// Writes the archive of these files up to its content region. With the
/// table comes, for each of its rows, the place of the row's file in
/// `data`.
fn start_archive(data: &Vec<FileDatum>, page_size: u64) -> (r: Result<
    (Vec<u8>, Entries, Vec<usize>),
    FileDataError,
>)
    requires
        archive_fits(metadata(data@), page_size),
    ensures
        match r {
            Ok((prefix, table, order)) => {
                &&& names_distinct(metadata(data@))
                &&& table@ == table_of(metadata(data@), page_size)
                &&& prefix@ == archive_prefix(metadata(data@), page_size)
                &&& prefix@.len() == archive_start(metadata(data@), page_size)
                &&& order@.len() == data@.len()
                &&& forall|k: int| 0 <= k < order@.len() ==> (#[trigger] order@[k]) < data@.len()
                &&& listing(order@, metadata(data@)) == build_order(metadata(data@))
            },
            Err(e) => e == FileDataError::DuplicateEntry && !names_distinct(metadata(data@)),
        },
{
    let ghost md = metadata(data@);
    proof {
        lemma_fits_bounds(md, page_size);
        lemma_table_of(md, page_size);
    }
    let (table, order) = match Entries::build(data, page_size) {
        Ok(built) => built,
        Err(e) => {
            return Err(e);
        },
    };
    let table_bytes = encode_table(&table);
    let room: u64 = table.total_aligned_length().unwrap();
    let header = Header::new(
        page_size,
        table_bytes.len() as u64,
        room,
        checksum(table_bytes.as_slice()),
    );
    let mut out = header.encode();
    proof {
        lemma_header_bytes_of(header);
        lemma_le_bytes(crc64_iso(header_bytes(header)));
    }
    let header_checksum: u64 = checksum(out.as_slice());
    append_u64(&mut out, header_checksum);
    append_bytes(&mut out, table_bytes.as_slice());
    let padding: usize = (header.file_offset as usize) - out.len();
    append_zeros(&mut out, padding);
    proof {
        assert(out@ =~= archive_prefix(md, page_size));
    }
    Ok((out, table, order))
}

impl FileArco {
    /// The length of the archive of these files, where one can be laid
    /// out.
    pub fn archive_length(file_data: &FileData, page_size: u64) -> (r: Option<u64>)
        ensures
            match r {
                Some(length) => archive_fits(file_data@, page_size) && length == archive_length(
                    file_data@,
                    page_size,
                ),
                None => !archive_fits(file_data@, page_size),
            },
    {
        if !check_page_size(page_size) {
            return None;
        }
        let data = file_data.as_vec();
        let ghost md = metadata(data@);
        let mut size: u64 = 8;
        let mut room: u64 = 0;
        let mut i: usize = 0;
        while i < data.len()
            invariant
                is_page_size(page_size),
                md == metadata(data@),
                md == file_data@,
                i <= data@.len(),
                size == 8 + sum_of(md.take(i as int), row_size()),
                room == total_aligned(md.take(i as int), page_size),
            decreases data@.len() - i,
        {
            proof {
                lemma_sum_prefix(md, i as int, row_size());
                lemma_sum_prefix(md, i + 1, row_size());
                lemma_total_aligned_prefix(md, i as int, page_size);
                lemma_total_aligned_prefix(md, i + 1, page_size);
                lemma_fits_bounds(md, page_size);
                assert(md[i as int] == data@[i as int]@);
            }
            let name_length: usize = data[i].name_str().as_bytes().len();
            assert(row_size()(md[i as int]) == name_length + 40);
            let row: u64 = match (name_length as u64).checked_add(40) {
                Some(row) => row,
                None => {
                    return None;
                },
            };
            size = match size.checked_add(row) {
                Some(size) => size,
                None => {
                    return None;
                },
            };
            let aligned_length: u64 = match checked_align_up(data[i].len(), page_size) {
                Some(aligned_length) => aligned_length,
                None => {
                    return None;
                },
            };
            room = match room.checked_add(aligned_length) {
                Some(room) => room,
                None => {
                    return None;
                },
            };
            i += 1;
        }
        proof {
            assert(md.take(i as int) =~= md);
        }
        let before: u64 = match size.checked_add(PREAMBLE_LENGTH as u64) {
            Some(before) => before,
            None => {
                proof {
                    lemma_fits_bounds(md, page_size);
                }
                return None;
            },
        };
        let start: u64 = match checked_align_up(before, page_size) {
            Some(start) => start,
            None => {
                proof {
                    lemma_fits_bounds(md, page_size);
                }
                return None;
            },
        };
        proof {
            lemma_fits_bounds(md, page_size);
        }
        if start > usize::MAX as u64 {
            return None;
        }
        start.checked_add(room)
    }

    /// Writes the archive of these files up to its content region, for the
    /// page size given, and hands out the entries table with it. What
    /// follows in the archive is, for each row of the table in turn, the
    /// contents of the row's file and as many zero bytes as the entry's
    /// `padding` says. Nothing where no archive of these files can be laid
    /// out; the error where two files share a path.
    pub fn prepare_with_page_size(file_data: FileData, page_size: u64) -> (r: Option<
        Result<(Vec<u8>, Entries), FileDataError>,
    >)
        ensures
            is_prepared(file_data@, page_size, r),
    {
        if FileArco::archive_length(&file_data, page_size).is_none() {
            return None;
        }
        let data = file_data.into_vec();
        match start_archive(&data, page_size) {
            Ok((prefix, table, _)) => Some(Ok((prefix, table))),
            Err(e) => Some(Err(e)),
        }
    }

    /// Writes the archive of these files up to its content region, for the
    /// page size of this system: see `prepare_with_page_size`.
    pub fn prepare(file_data: FileData) -> (r: Option<Result<(Vec<u8>, Entries), FileDataError>>)
        ensures
            exists|page_size: u64| is_prepared(file_data@, page_size, r),
    {
        FileArco::prepare_with_page_size(file_data, system_page_size())
    }

    /// Builds the archive of these files in memory, for the page size
    /// given. `contents` holds the contents of each file, in the order of
    /// `file_data`. Nothing where no archive of these files can be built in
    /// memory; the error where two files share a path.
    pub fn make_with_page_size(
        file_data: FileData,
        contents: &Vec<Vec<u8>>,
        page_size: u64,
    ) -> (r: Option<Result<Vec<u8>, FileDataError>>)
        ensures
            is_made(file_data@, views(contents@), page_size, r),
    {
        let ghost md = file_data@;
        let ghost cv = views(contents@);
        let length: u64 = match FileArco::archive_length(&file_data, page_size) {
            Some(length) => length,
            None => {
                return None;
            },
        };
        if length > usize::MAX as u64 {
            return None;
        }
        let data = file_data.into_vec();
        if !same_lengths(&data, contents) {
            return None;
        }
        let (mut out, table, order) = match start_archive(&data, page_size) {
            Ok(started) => started,
            Err(e) => {
                return Some(Err(e));
            },
        };
        let ghost rows = table@;
        proof {
            lemma_fits_bounds(md, page_size);
            lemma_table_of(md, page_size);
            lemma_build_order(md);
            lemma_total_aligned_ignores_order(build_order(md), md, page_size);
            lemma_layout_is_aligned(build_order(md), page_size);
            assert(rows.take(0) =~= Seq::empty());
        }
        let count: usize = order.len();
        let mut k: usize = 0;
        while k < count
            invariant
                md == metadata(data@),
                cv == views(contents@),
                lengths_match(md, cv),
                names_distinct(md),
                is_page_size(page_size),
                rows == table@,
                rows == layout(build_order(md), page_size),
                rows.len() == count,
                count == order@.len(),
                count == data@.len(),
                forall|j: int| 0 <= j < order@.len() ==> (#[trigger] order@[j]) < data@.len(),
                listing(order@, md) == build_order(md),
                rows_aligned(rows, page_size),
                rows_total(rows) == total_aligned(md, page_size),
                archive_length(md, page_size) <= usize::MAX,
                k <= count,
                out@ == archive_prefix(md, page_size) + content_region(rows.take(k as int), md, cv),
                out@.len() == archive_start(md, page_size) + rows_total(rows.take(k as int)),
            decreases count - k,
        {
            let content = &contents[order[k]];
            let entry = table.entry(k);
            proof {
                let i = order@[k as int] as int;
                assert(listing(order@, md)[k as int] == md[i]);
                assert(rows[k as int].0 == md[i].name);
                assert(rows[k as int].1.length == md[i].length);
                lemma_contents_of(md, cv, i);
                assert(cv[i] == content@);
                lemma_content_region_step(rows, md, cv, k as int);
                lemma_rows_total_prefix(rows, k as int);
                lemma_rows_total_prefix(rows, k + 1);
                lemma_aligned_is_least_multiple(entry.length as int, page_size as int);
            }
            let ghost before = out@;
            append_bytes(&mut out, content.as_slice());
            append_zeros(&mut out, (entry.aligned_length - entry.length) as usize);
            proof {
                assert(out@ =~= before + padded(content@, entry));
                assert(out@ =~= archive_prefix(md, page_size) + content_region(
                    rows.take(k + 1),
                    md,
                    cv,
                ));
            }
            k += 1;
        }
        proof {
            assert(rows.take(k as int) =~= rows);
        }
        Some(Ok(out))
    }

    /// Builds the archive of these files in memory, for the page size of
    /// this system: see `make_with_page_size`.
    pub fn make(file_data: FileData, contents: &Vec<Vec<u8>>) -> (r: Option<
        Result<Vec<u8>, FileDataError>,
    >)
        ensures
            exists|page_size: u64| is_made(file_data@, views(contents@), page_size, r),
    {
        FileArco::make_with_page_size(file_data, contents, system_page_size())
    }
}

/// Tells whether the contents are as long as the data say.
fn same_lengths(data: &Vec<FileDatum>, contents: &Vec<Vec<u8>>) -> (r: bool)
    ensures
        r == lengths_match(metadata(data@), views(contents@)),
{
    if data.len() != contents.len() {
        return false;
    }
    let mut i: usize = 0;
    while i < data.len()
        invariant
            i <= data@.len(),
            data@.len() == contents@.len(),
            forall|j: int|
                0 <= j < i ==> (#[trigger] views(contents@)[j]).len() == metadata(
                    data@,
                )[j].length,
        decreases data@.len() - i,
    {
        if (contents[i].len() as u64) != data[i].len() {
            assert(views(contents@)[i as int].len() != metadata(data@)[i as int].length);
            return false;
        }
        i += 1;
    }
    true
}

} // verus!
