//! What holds of archives as a whole: that what is built can be opened and
//! gives back the files that went in, that the order in which the files
//! are listed does not matter, and that a shortened or changed archive is
//! refused.

use vstd::prelude::*;
use vstd::seq_lib::to_multiset_contains;
use vstd::utf8::encode_utf8;
use crate::align::lemma_aligned_is_least_multiple;
use crate::checksum::crc64_iso;
use crate::codec::{
    lemma_parse_inverts_encode, lemma_table_size_ignores_order, parse_table, row_size,
    table_bytes, table_size,
};
use crate::entries::{lemma_lookup_present, lookup, rows_sorted, Entry};
use crate::file_data::Metadatum;
use crate::header::{
    lemma_header_bytes_of_len, lemma_header_read_back, magic, stored_entries_checksum,
    stored_entries_length, stored_file_length, stored_file_offset, stored_header_checksum,
    stored_id, stored_page_size, stored_version, HEADER_LENGTH, PREAMBLE_LENGTH, VERSION_NUMBER,
};
use crate::layout::{
    build_order, lemma_build_order, lemma_build_order_is_the_sorted_listing,
    lemma_layout_is_aligned, lemma_layout_take, lemma_layout_total, lemma_rows_total_prefix,
    lemma_sum_ignores_order, lemma_total_aligned_ignores_order, lemma_total_aligned_prefix,
    names_distinct, rows_total, sum_of, total_aligned,
};
use crate::make::{
    archive_bytes, archive_fits, archive_header, archive_length, archive_prefix, archive_start,
    content_region, contents_of, lemma_contents_of, lemma_table_of, lengths_match, table_of,
};
use crate::order::path_less;
use crate::v1::{fetch, stored_table, validate, FileArcoV1Error};
use crate::wire::{le_bytes, lemma_le_bytes, lemma_u64_at_written};

verus! {

/// Each row's file was handed over with contents as long as the row says,
/// and the row's room holds them.
pub open spec fn rows_hold(
    rows: Seq<(Seq<char>, Entry)>,
    data: Seq<Metadatum>,
    contents: Seq<Seq<u8>>,
) -> bool {
    forall|j: int|
        0 <= j < rows.len() ==> contents_of(data, contents, (#[trigger] rows[j]).0).len()
            == rows[j].1.length && rows[j].1.length <= rows[j].1.aligned_length
}

proof fn lemma_rows_hold_drop_last(
    rows: Seq<(Seq<char>, Entry)>,
    data: Seq<Metadatum>,
    contents: Seq<Seq<u8>>,
)
    requires
        rows_hold(rows, data, contents),
        rows.len() > 0,
    ensures
        rows_hold(rows.drop_last(), data, contents),
{
    assert forall|j: int| 0 <= j < rows.drop_last().len() implies contents_of(
        data,
        contents,
        (#[trigger] rows.drop_last()[j]).0,
    ).len() == rows.drop_last()[j].1.length && rows.drop_last()[j].1.length
        <= rows.drop_last()[j].1.aligned_length by {
        assert(rows.drop_last()[j] == rows[j]);
    }
}

/// The content region is as long as the room that its rows claim.
pub proof fn lemma_content_region_len(
    rows: Seq<(Seq<char>, Entry)>,
    data: Seq<Metadatum>,
    contents: Seq<Seq<u8>>,
)
    requires
        rows_hold(rows, data, contents),
    ensures
        content_region(rows, data, contents).len() == rows_total(rows),
    decreases rows.len(),
{
    if rows.len() > 0 {
        lemma_rows_hold_drop_last(rows, data, contents);
        lemma_content_region_len(rows.drop_last(), data, contents);
        assert(rows.last() == rows[rows.len() - 1]);
    }
}

/// In the content region, the contents of each row's file stand where the
/// room of the rows before it ends.
pub proof fn lemma_content_region_holds(
    rows: Seq<(Seq<char>, Entry)>,
    data: Seq<Metadatum>,
    contents: Seq<Seq<u8>>,
    k: int,
)
    requires
        rows_hold(rows, data, contents),
        0 <= k < rows.len(),
    ensures
        0 <= rows_total(rows.take(k)),
        rows_total(rows.take(k)) + rows[k].1.aligned_length <= rows_total(rows),
        content_region(rows, data, contents).subrange(
            rows_total(rows.take(k)),
            rows_total(rows.take(k)) + rows[k].1.length,
        ) == contents_of(data, contents, rows[k].0),
    decreases rows.len(),
{
    let front = rows.drop_last();
    let whole = content_region(rows, data, contents);
    let at = rows_total(rows.take(k));
    lemma_rows_hold_drop_last(rows, data, contents);
    lemma_content_region_len(front, data, contents);
    lemma_content_region_len(rows, data, contents);
    lemma_rows_total_prefix(rows, k);
    lemma_rows_total_prefix(rows, k + 1);
    assert(rows.last() == rows[rows.len() - 1]);
    if k == rows.len() - 1 {
        assert(rows.take(k) =~= front);
        assert(whole.subrange(at, at + rows[k].1.length) =~= contents_of(
            data,
            contents,
            rows[k].0,
        ));
    } else {
        assert(front.take(k) =~= rows.take(k));
        assert(front[k] == rows[k]);
        lemma_content_region_holds(front, data, contents, k);
        assert(whole.subrange(at, at + rows[k].1.length) =~= content_region(
            front,
            data,
            contents,
        ).subrange(at, at + rows[k].1.length));
    }
}

/// Every term of a sum of numbers that are not negative is at most the sum,
/// and a sum of terms that are at least `low` is at least `low` for each.
proof fn lemma_sum_bounds(data: Seq<Metadatum>, f: spec_fn(Metadatum) -> int, low: int)
    requires
        0 <= low,
        forall|d: Metadatum| low <= #[trigger] f(d),
    ensures
        low * data.len() <= sum_of(data, f),
        forall|k: int| 0 <= k < data.len() ==> f(#[trigger] data[k]) <= sum_of(data, f),
    decreases data.len(),
{
    if data.len() > 0 {
        let rest = data.drop_last();
        lemma_sum_bounds(rest, f, low);
        assert(low * data.len() == low * rest.len() + low) by (nonlinear_arith)
            requires
                data.len() == rest.len() + 1,
        ;
        assert(0 <= low * rest.len()) by (nonlinear_arith)
            requires
                0 <= low,
                0 <= rest.len(),
        ;
        assert forall|k: int| 0 <= k < data.len() implies f(#[trigger] data[k]) <= sum_of(
            data,
            f,
        ) by {
            if k < rest.len() {
                assert(rest[k] == data[k]);
            }
        }
    } else {
        assert(low * data.len() == 0) by (nonlinear_arith)
            requires
                data.len() == 0,
        ;
    }
}

/// The table of the archive of files with distinct paths: its paths grow
/// strictly, it is read back from its serialized form, and its rows hold
/// the files' contents.
proof fn lemma_table_of_is_sound(data: Seq<Metadatum>, contents: Seq<Seq<u8>>, page_size: u64)
    requires
        archive_fits(data, page_size),
        names_distinct(data),
        lengths_match(data, contents),
    ensures
        rows_sorted(table_of(data, page_size)),
        parse_table(table_bytes(table_of(data, page_size))) == Some(
            table_of(data, page_size),
        ),
        rows_hold(table_of(data, page_size), data, contents),
        total_aligned(data, page_size) <= u64::MAX,
{
    let sorted = build_order(data);
    let rows = table_of(data, page_size);
    lemma_build_order(data);
    lemma_sum_bounds(data, row_size(), 40);
    lemma_aligned_is_least_multiple(PREAMBLE_LENGTH + table_size(data), page_size as int);
    lemma_total_aligned_prefix(data, 0, page_size);
    lemma_total_aligned_ignores_order(sorted, data, page_size);
    lemma_layout_is_aligned(sorted, page_size);
    assert forall|i: int, j: int| 0 <= i < j < rows.len() implies path_less(
        rows[i].0,
        rows[j].0,
    ) by {
        assert(path_less(sorted[i].name, sorted[j].name));
    }
    assert forall|k: int| 0 <= k < sorted.len() implies (exists|m: int|
        0 <= m < data.len() && data[m] == #[trigger] sorted[k]) by {
        assert(sorted.contains(sorted[k]));
        to_multiset_contains(sorted, sorted[k]);
        to_multiset_contains(data, sorted[k]);
    }
    lemma_sum_bounds(sorted, row_size(), 40);
    lemma_sum_ignores_order(sorted, data, row_size());
    assert forall|k: int| 0 <= k < rows.len() implies encode_utf8((#[trigger] rows[k]).0).len()
        <= u64::MAX by {
        assert(row_size()(sorted[k]) <= sum_of(sorted, row_size()));
    }
    lemma_parse_inverts_encode(rows);
    assert forall|j: int| 0 <= j < rows.len() implies contents_of(
        data,
        contents,
        (#[trigger] rows[j]).0,
    ).len() == rows[j].1.length && rows[j].1.length <= rows[j].1.aligned_length by {
        let m = choose|m: int| 0 <= m < data.len() && data[m] == sorted[j];
        lemma_contents_of(data, contents, m);
        lemma_aligned_is_least_multiple(rows[j].1.length as int, page_size as int);
    }
}

/// What is built can be opened. The archive of files with distinct paths,
/// built from contents that are as long as the data say, passes every
/// check, and opening it gives the table that the files were laid out by.
/// The archive must be at least as long as the start of its content region
/// and the length of its serialized table together: one of the checks asks
/// for that, and refuses archives whose files take up less room than the
/// serialized table is long.
pub proof fn lemma_built_archive_opens(
    data: Seq<Metadatum>,
    contents: Seq<Seq<u8>>,
    page_size: u64,
)
    requires
        archive_fits(data, page_size),
        names_distinct(data),
        lengths_match(data, contents),
        archive_start(data, page_size) + table_size(data) <= archive_length(data, page_size),
    ensures
        archive_bytes(data, contents, page_size).len() == archive_length(data, page_size),
        validate(archive_bytes(data, contents, page_size)) == Ok::<
            Seq<(Seq<char>, Entry)>,
            FileArcoV1Error,
        >(table_of(data, page_size)),
        stored_file_offset(archive_bytes(data, contents, page_size)) == archive_start(
            data,
            page_size,
        ),
        stored_page_size(archive_bytes(data, contents, page_size)) == page_size,
{
    let rows = table_of(data, page_size);
    let table = table_bytes(rows);
    let header = archive_header(data, page_size);
    let prefix = archive_prefix(data, page_size);
    let region = content_region(rows, data, contents);
    let bytes = archive_bytes(data, contents, page_size);
    let start = archive_start(data, page_size);
    lemma_table_of_is_sound(data, contents, page_size);
    lemma_table_of(data, page_size);
    lemma_content_region_len(rows, data, contents);
    lemma_aligned_is_least_multiple(PREAMBLE_LENGTH + table_size(data), page_size as int);
    lemma_header_bytes_of_len(
        archive_length(data, page_size) as u64,
        start as u64,
        page_size,
        table.len() as u64,
        crc64_iso(table),
    );
    lemma_le_bytes(crc64_iso(header));
    assert(prefix.len() == start);
    assert(bytes.subrange(0, HEADER_LENGTH as int) =~= header);
    lemma_header_read_back(
        bytes,
        archive_length(data, page_size) as u64,
        start as u64,
        page_size,
        table.len() as u64,
        crc64_iso(table),
    );
    assert(bytes.subrange(56, 64) =~= le_bytes(crc64_iso(header)));
    lemma_u64_at_written(bytes, 56, crc64_iso(header));
    assert(stored_table(bytes) =~= table);
}

/// What is built gives back the files that went in. From the archive of
/// files with distinct paths, built from contents that are as long as the
/// data say, opening the archive and getting a file's path gives the
/// contents that went in, and the entry's checksum is the one that the data
/// hold for the file: the checksum of the contents, where the data hold
/// that.
pub proof fn lemma_built_archive_gives_back_files(
    data: Seq<Metadatum>,
    contents: Seq<Seq<u8>>,
    page_size: u64,
    i: int,
)
    requires
        archive_fits(data, page_size),
        names_distinct(data),
        lengths_match(data, contents),
        archive_start(data, page_size) + table_size(data) <= archive_length(data, page_size),
        0 <= i < data.len(),
    ensures
        fetch(archive_bytes(data, contents, page_size), data[i].name) == Some(contents[i]),
        lookup(table_of(data, page_size), data[i].name) matches Some(entry) && entry.length
            == data[i].length && entry.checksum == data[i].checksum,
        data[i].checksum == crc64_iso(contents[i]) ==> (lookup(
            table_of(data, page_size),
            data[i].name,
        ) matches Some(entry) && entry.checksum == crc64_iso(contents[i])),
{
    let sorted = build_order(data);
    let rows = table_of(data, page_size);
    let prefix = archive_prefix(data, page_size);
    let region = content_region(rows, data, contents);
    let bytes = archive_bytes(data, contents, page_size);
    let start = archive_start(data, page_size);
    lemma_built_archive_opens(data, contents, page_size);
    lemma_table_of_is_sound(data, contents, page_size);
    lemma_table_of(data, page_size);
    lemma_build_order(data);
    lemma_total_aligned_ignores_order(sorted, data, page_size);
    lemma_content_region_len(rows, data, contents);
    lemma_aligned_is_least_multiple(PREAMBLE_LENGTH + table_size(data), page_size as int);
    lemma_header_bytes_of_len(
        archive_length(data, page_size) as u64,
        start as u64,
        page_size,
        table_bytes(rows).len() as u64,
        crc64_iso(table_bytes(rows)),
    );
    lemma_le_bytes(crc64_iso(archive_header(data, page_size)));
    assert(prefix.len() == start);
    // The row that stands for the file.
    assert(data.contains(data[i]));
    to_multiset_contains(data, data[i]);
    to_multiset_contains(sorted, data[i]);
    let k = choose|k: int| 0 <= k < sorted.len() && sorted[k] == data[i];
    lemma_lookup_present(rows, data[i].name, k);
    let entry = rows[k].1;
    // Where the row's room starts.
    lemma_layout_take(sorted, k, page_size);
    lemma_total_aligned_prefix(sorted, k, page_size);
    lemma_layout_total(sorted.take(k), page_size);
    assert(entry.offset == rows_total(rows.take(k)));
    lemma_content_region_holds(rows, data, contents, k);
    lemma_contents_of(data, contents, i);
    let at = start + entry.offset;
    assert(bytes.subrange(at, at + entry.length) =~= region.subrange(
        entry.offset as int,
        entry.offset + entry.length,
    ));
}

/// A path that the archive does not hold is not found: getting it gives
/// nothing, whatever the archive holds otherwise.
pub proof fn lemma_absent_path_is_not_found(map: Seq<u8>, path: Seq<char>)
    requires
        validate(map) matches Ok(rows) && lookup(rows, path) is None,
    ensures
        fetch(map, path) is None,
{
}

/// A shortened archive is refused. Of an archive that can be opened, what
/// is left when bytes are taken off its end, with fewer bytes than the
/// header records and no fewer than the header and its checksum take up, is
/// refused as truncated.
pub proof fn lemma_truncation_is_detected(map: Seq<u8>, n: int)
    requires
        validate(map) is Ok,
        PREAMBLE_LENGTH <= n < stored_file_length(map),
    ensures
        validate(map.take(n)) == Err::<Seq<(Seq<char>, Entry)>, FileArcoV1Error>(
            FileArcoV1Error::FileTruncated,
        ),
{
    let short = map.take(n);
    assert(short.subrange(0, PREAMBLE_LENGTH as int) =~= map.subrange(0, PREAMBLE_LENGTH as int));
    lemma_same_preamble(map, short);
}

/// Bytes with the same first `PREAMBLE_LENGTH` bytes claim the same header
/// and the same checksum of it.
proof fn lemma_same_preamble(a: Seq<u8>, b: Seq<u8>)
    requires
        a.len() >= PREAMBLE_LENGTH,
        b.len() >= PREAMBLE_LENGTH,
        a.subrange(0, PREAMBLE_LENGTH as int) == b.subrange(0, PREAMBLE_LENGTH as int),
    ensures
        stored_id(a) == stored_id(b),
        stored_version(a) == stored_version(b),
        stored_file_length(a) == stored_file_length(b),
        stored_file_offset(a) == stored_file_offset(b),
        stored_page_size(a) == stored_page_size(b),
        stored_entries_length(a) == stored_entries_length(b),
        stored_entries_checksum(a) == stored_entries_checksum(b),
        stored_header_checksum(a) == stored_header_checksum(b),
        a.subrange(0, HEADER_LENGTH as int) == b.subrange(0, HEADER_LENGTH as int),
{
    let pa = a.subrange(0, PREAMBLE_LENGTH as int);
    let pb = b.subrange(0, PREAMBLE_LENGTH as int);
    assert(a.subrange(0, 8) =~= pa.subrange(0, 8));
    assert(b.subrange(0, 8) =~= pb.subrange(0, 8));
    assert(a.subrange(8, 16) =~= pa.subrange(8, 16));
    assert(b.subrange(8, 16) =~= pb.subrange(8, 16));
    assert(a.subrange(16, 24) =~= pa.subrange(16, 24));
    assert(b.subrange(16, 24) =~= pb.subrange(16, 24));
    assert(a.subrange(24, 32) =~= pa.subrange(24, 32));
    assert(b.subrange(24, 32) =~= pb.subrange(24, 32));
    assert(a.subrange(32, 40) =~= pa.subrange(32, 40));
    assert(b.subrange(32, 40) =~= pb.subrange(32, 40));
    assert(a.subrange(40, 48) =~= pa.subrange(40, 48));
    assert(b.subrange(40, 48) =~= pb.subrange(40, 48));
    assert(a.subrange(48, 56) =~= pa.subrange(48, 56));
    assert(b.subrange(48, 56) =~= pb.subrange(48, 56));
    assert(a.subrange(56, 64) =~= pa.subrange(56, 64));
    assert(b.subrange(56, 64) =~= pb.subrange(56, 64));
    assert(a.subrange(0, 56) =~= pa.subrange(0, 56));
    assert(b.subrange(0, 56) =~= pb.subrange(0, 56));
}

/// A change to the entries table that its checksum tells is refused. Of
/// an archive that can be opened, bytes of the same length that differ from
/// it only after the header's checksum, and whose entries table has another
/// checksum, are refused for a corrupted entries table.
pub proof fn lemma_changed_table_is_detected(map: Seq<u8>, changed: Seq<u8>)
    requires
        validate(map) is Ok,
        changed.len() == map.len(),
        changed.subrange(0, PREAMBLE_LENGTH as int) == map.subrange(0, PREAMBLE_LENGTH as int),
        crc64_iso(stored_table(changed)) != crc64_iso(stored_table(map)),
    ensures
        validate(changed) == Err::<Seq<(Seq<char>, Entry)>, FileArcoV1Error>(
            FileArcoV1Error::CorruptedEntriesTable,
        ),
{
    lemma_same_preamble(map, changed);
}

/// A change to the header that its checksum tells is refused. Of an archive
/// that can be opened, bytes of the same length that still start with the
/// identifier and the version of the format and are followed by the same
/// checksum, but whose header has another checksum, are refused for a
/// corrupted header.
pub proof fn lemma_changed_header_is_detected(map: Seq<u8>, changed: Seq<u8>)
    requires
        validate(map) is Ok,
        changed.len() == map.len(),
        stored_id(changed) == magic(),
        stored_version(changed) == VERSION_NUMBER,
        stored_header_checksum(changed) == stored_header_checksum(map),
        crc64_iso(changed.subrange(0, HEADER_LENGTH as int)) != crc64_iso(
            map.subrange(0, HEADER_LENGTH as int),
        ),
    ensures
        validate(changed) == Err::<Seq<(Seq<char>, Entry)>, FileArcoV1Error>(
            FileArcoV1Error::CorruptedHeader,
        ),
{
}

/// The content regions of the same rows are the same where the same
/// contents were handed over for each row's path.
proof fn lemma_content_region_same(
    rows: Seq<(Seq<char>, Entry)>,
    a: Seq<Metadatum>,
    contents_a: Seq<Seq<u8>>,
    b: Seq<Metadatum>,
    contents_b: Seq<Seq<u8>>,
)
    requires
        forall|j: int|
            0 <= j < rows.len() ==> contents_of(a, contents_a, (#[trigger] rows[j]).0)
                == contents_of(b, contents_b, rows[j].0),
    ensures
        content_region(rows, a, contents_a) == content_region(rows, b, contents_b),
    decreases rows.len(),
{
    if rows.len() > 0 {
        assert(rows.last() == rows[rows.len() - 1]);
        assert forall|j: int| 0 <= j < rows.drop_last().len() implies contents_of(
            a,
            contents_a,
            (#[trigger] rows.drop_last()[j]).0,
        ) == contents_of(b, contents_b, rows.drop_last()[j].0) by {
            assert(rows.drop_last()[j] == rows[j]);
        }
        lemma_content_region_same(rows.drop_last(), a, contents_a, b, contents_b);
    }
}

/// The order in which the files are listed does not matter. Two listings
/// of the same files, each with distinct paths, with the same contents for
/// each path, give the same archive, byte for byte.
pub proof fn lemma_archive_ignores_order(
    a: Seq<Metadatum>,
    contents_a: Seq<Seq<u8>>,
    b: Seq<Metadatum>,
    contents_b: Seq<Seq<u8>>,
    page_size: u64,
)
    requires
        names_distinct(a),
        names_distinct(b),
        a.to_multiset() == b.to_multiset(),
        contents_a.len() == a.len(),
        contents_b.len() == b.len(),
        forall|i: int, j: int|
            0 <= i < a.len() && 0 <= j < b.len() && a[i].name == b[j].name
                ==> #[trigger] contents_a[i] == #[trigger] contents_b[j],
    ensures
        archive_bytes(a, contents_a, page_size) == archive_bytes(b, contents_b, page_size),
{
    lemma_build_order(a);
    lemma_build_order(b);
    lemma_build_order_is_the_sorted_listing(build_order(a), b);
    lemma_total_aligned_ignores_order(a, b, page_size);
    lemma_table_size_ignores_order(a, b);
    let sorted = build_order(a);
    let rows = table_of(a, page_size);
    assert forall|j: int| 0 <= j < rows.len() implies contents_of(
        a,
        contents_a,
        (#[trigger] rows[j]).0,
    ) == contents_of(b, contents_b, rows[j].0) by {
        assert(sorted.contains(sorted[j]));
        to_multiset_contains(sorted, sorted[j]);
        to_multiset_contains(a, sorted[j]);
        to_multiset_contains(b, sorted[j]);
        let m = choose|m: int| 0 <= m < a.len() && a[m] == sorted[j];
        let n = choose|n: int| 0 <= n < b.len() && b[n] == sorted[j];
        lemma_contents_of(a, contents_a, m);
        lemma_contents_of(b, contents_b, n);
    }
    lemma_content_region_same(rows, a, contents_a, b, contents_b);
}

} // verus!
