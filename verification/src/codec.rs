//! The serialized form of the entries table.
//!
//! The table is written as the number of its rows, followed by the rows in
//! the order of their paths. A row is the length of the path's UTF-8
//! encoding, that encoding, and the entry's offset, length, aligned length
//! and checksum. Every number takes eight bytes, lowest first.

use vstd::prelude::*;
use vstd::slice::slice_subrange;
use vstd::utf8::{
    decode_utf8, decode_utf8_encode_utf8, encode_utf8, encode_utf8_decode_utf8,
    encode_utf8_valid_utf8, valid_utf8,
};
use crate::entries::{rows_sorted, strings_sorted, Entries, Entry};
use crate::layout::{layout, lemma_layout_drop_last, lemma_sum_ignores_order, sum_of};
use crate::file_data::Metadatum;
use crate::order::{lemma_path_less_transitive, order_paths, path_less, PathOrder};
use crate::wire::{
    append_bytes, append_u64, le_bytes, lemma_le_bytes, lemma_le_bytes_of_u64_at,
    lemma_u64_at_written, read_u64, str_from_utf8, u64_at,
};

verus! {

/// The number of bytes that an entry takes up.
pub const ENTRY_LENGTH: usize = 32;

/// The serialized form of an entry.
pub open spec fn entry_bytes(entry: Entry) -> Seq<u8> {
    le_bytes(entry.offset) + le_bytes(entry.length) + le_bytes(entry.aligned_length) + le_bytes(
        entry.checksum,
    )
}

/// The serialized form of a row.
pub open spec fn row_bytes(row: (Seq<char>, Entry)) -> Seq<u8> {
    le_bytes(encode_utf8(row.0).len() as u64) + encode_utf8(row.0) + entry_bytes(row.1)
}

/// The serialized forms of the rows, one after the other.
pub open spec fn rows_bytes(rows: Seq<(Seq<char>, Entry)>) -> Seq<u8>
    decreases rows.len(),
{
    if rows.len() == 0 {
        Seq::empty()
    } else {
        rows_bytes(rows.drop_last()) + row_bytes(rows.last())
    }
}

/// The serialized form of a table.
pub open spec fn table_bytes(rows: Seq<(Seq<char>, Entry)>) -> Seq<u8> {
    le_bytes(rows.len() as u64) + rows_bytes(rows)
}

/// What a file's row adds to the length of the serialized table.
pub open spec fn row_size() -> spec_fn(Metadatum) -> int {
    |d: Metadatum| (8 + encode_utf8(d.name).len() + 32) as int
}

/// The length of the serialized table of these files.
pub open spec fn table_size(data: Seq<Metadatum>) -> int {
    8 + sum_of(data, row_size())
}

/// The entry whose serialized form stands at `pos`.
pub open spec fn entry_at(bytes: Seq<u8>, pos: int) -> Entry {
    Entry {
        offset: u64_at(bytes, pos),
        length: u64_at(bytes, pos + 8),
        aligned_length: u64_at(bytes, pos + 16),
        checksum: u64_at(bytes, pos + 24),
    }
}

/// The row whose serialized form starts at `pos`, and the place after it.
pub open spec fn parse_row(bytes: Seq<u8>, pos: int) -> Option<((Seq<char>, Entry), int)> {
    if bytes.len() - pos < 8 {
        None
    } else {
        let path_length = u64_at(bytes, pos) as int;
        let path = bytes.subrange(pos + 8, pos + 8 + path_length);
        if bytes.len() - (pos + 8) < path_length + 32 {
            None
        } else if !valid_utf8(path) {
            None
        } else {
            Some(
                (
                    (decode_utf8(path), entry_at(bytes, pos + 8 + path_length)),
                    pos + 8 + path_length + 32,
                ),
            )
        }
    }
}

/// The `count` rows whose serialized forms start at `pos` and end where
/// the bytes end.
pub open spec fn parse_rows(bytes: Seq<u8>, pos: int, count: nat) -> Option<
    Seq<(Seq<char>, Entry)>,
>
    decreases count,
{
    if count == 0 {
        if pos == bytes.len() {
            Some(Seq::empty())
        } else {
            None
        }
    } else {
        match parse_row(bytes, pos) {
            None => None,
            Some((row, next)) => match parse_rows(bytes, next, (count - 1) as nat) {
                None => None,
                Some(rest) => Some(seq![row] + rest),
            },
        }
    }
}

/// The table that the bytes are the serialized form of: its rows follow
/// the count to the end of the bytes, and their paths grow strictly.
pub open spec fn parse_table(bytes: Seq<u8>) -> Option<Seq<(Seq<char>, Entry)>> {
    if bytes.len() < 8 {
        None
    } else {
        match parse_rows(bytes, 8, u64_at(bytes, 0) as nat) {
            None => None,
            Some(rows) => if rows_sorted(rows) {
                Some(rows)
            } else {
                None
            },
        }
    }
}

/// The serialized table of files is as long as `table_size` says.
pub proof fn lemma_table_bytes_len(data: Seq<Metadatum>, page_size: u64)
    ensures
        table_bytes(layout(data, page_size)).len() == table_size(data),
        rows_bytes(layout(data, page_size)).len() == sum_of(data, row_size()),
    decreases data.len(),
{
    lemma_le_bytes(data.len() as u64);
    if data.len() > 0 {
        lemma_layout_drop_last(data, page_size);
        lemma_row_bytes_len(layout(data, page_size).last());
        lemma_table_bytes_len(data.drop_last(), page_size);
    }
}

/// The length of the serialized table does not depend on the order in
/// which the files are listed.
pub proof fn lemma_table_size_ignores_order(a: Seq<Metadatum>, b: Seq<Metadatum>)
    requires
        a.to_multiset() == b.to_multiset(),
    ensures
        table_size(a) == table_size(b),
{
    lemma_sum_ignores_order(a, b, row_size());
}

/// The serialized rows start with the serialized first row.
proof fn lemma_rows_bytes_front(rows: Seq<(Seq<char>, Entry)>)
    requires
        rows.len() > 0,
    ensures
        rows_bytes(rows) == row_bytes(rows[0]) + rows_bytes(rows.drop_first()),
    decreases rows.len(),
{
    if rows.len() == 1 {
        assert(rows.drop_last() =~= Seq::empty());
        assert(rows.drop_first() =~= Seq::empty());
        assert(rows_bytes(rows) =~= row_bytes(rows[0]) + rows_bytes(rows.drop_first()));
    } else {
        lemma_rows_bytes_front(rows.drop_last());
        assert(rows.drop_last().drop_first() =~= rows.drop_first().drop_last());
        assert(rows.drop_first().last() == rows.last());
        assert(rows.drop_last()[0] == rows[0]);
        assert(rows_bytes(rows) =~= row_bytes(rows[0]) + rows_bytes(rows.drop_first()));
    }
}

/// The length of a row's serialized form.
proof fn lemma_row_bytes_len(row: (Seq<char>, Entry))
    ensures
        row_bytes(row).len() == 8 + encode_utf8(row.0).len() + 32,
        entry_bytes(row.1).len() == 32,
{
    lemma_le_bytes(encode_utf8(row.0).len() as u64);
    lemma_le_bytes(row.1.offset);
    lemma_le_bytes(row.1.length);
    lemma_le_bytes(row.1.aligned_length);
    lemma_le_bytes(row.1.checksum);
}

/// An entry is read back from where its serialized form stands.
proof fn lemma_entry_at_written(bytes: Seq<u8>, pos: int, entry: Entry)
    requires
        0 <= pos,
        pos + 32 <= bytes.len(),
        bytes.subrange(pos, pos + 32) == entry_bytes(entry),
    ensures
        entry_at(bytes, pos) == entry,
{
    lemma_le_bytes(entry.offset);
    lemma_le_bytes(entry.length);
    lemma_le_bytes(entry.aligned_length);
    lemma_le_bytes(entry.checksum);
    let whole = bytes.subrange(pos, pos + 32);
    assert(bytes.subrange(pos, pos + 8) =~= whole.subrange(0, 8));
    assert(bytes.subrange(pos + 8, pos + 16) =~= whole.subrange(8, 16));
    assert(bytes.subrange(pos + 16, pos + 24) =~= whole.subrange(16, 24));
    assert(bytes.subrange(pos + 24, pos + 32) =~= whole.subrange(24, 32));
    assert(whole.subrange(0, 8) =~= le_bytes(entry.offset));
    assert(whole.subrange(8, 16) =~= le_bytes(entry.length));
    assert(whole.subrange(16, 24) =~= le_bytes(entry.aligned_length));
    assert(whole.subrange(24, 32) =~= le_bytes(entry.checksum));
    lemma_u64_at_written(bytes, pos, entry.offset);
    lemma_u64_at_written(bytes, pos + 8, entry.length);
    lemma_u64_at_written(bytes, pos + 16, entry.aligned_length);
    lemma_u64_at_written(bytes, pos + 24, entry.checksum);
}

/// The bytes from which an entry is read are its serialized form.
proof fn lemma_entry_bytes_of_entry_at(bytes: Seq<u8>, pos: int)
    requires
        0 <= pos,
        pos + 32 <= bytes.len(),
    ensures
        entry_bytes(entry_at(bytes, pos)) == bytes.subrange(pos, pos + 32),
{
    lemma_le_bytes_of_u64_at(bytes, pos);
    lemma_le_bytes_of_u64_at(bytes, pos + 8);
    lemma_le_bytes_of_u64_at(bytes, pos + 16);
    lemma_le_bytes_of_u64_at(bytes, pos + 24);
    assert(entry_bytes(entry_at(bytes, pos)) =~= bytes.subrange(pos, pos + 32));
}

/// A row is read back from where its serialized form stands.
proof fn lemma_parse_row_of_row_bytes(bytes: Seq<u8>, pos: int, row: (Seq<char>, Entry))
    requires
        0 <= pos,
        pos + row_bytes(row).len() <= bytes.len(),
        bytes.subrange(pos, pos + row_bytes(row).len()) == row_bytes(row),
        encode_utf8(row.0).len() <= u64::MAX,
    ensures
        parse_row(bytes, pos) == Some((row, pos + row_bytes(row).len())),
{
    let path = encode_utf8(row.0);
    let n = path.len() as int;
    let whole = row_bytes(row);
    lemma_row_bytes_len(row);
    lemma_le_bytes(n as u64);
    assert(bytes.subrange(pos, pos + 8) =~= whole.subrange(0, 8));
    assert(whole.subrange(0, 8) =~= le_bytes(n as u64));
    lemma_u64_at_written(bytes, pos, n as u64);
    assert(bytes.subrange(pos + 8, pos + 8 + n) =~= whole.subrange(8, 8 + n));
    assert(whole.subrange(8, 8 + n) =~= path);
    encode_utf8_valid_utf8(row.0);
    encode_utf8_decode_utf8(row.0);
    assert(bytes.subrange(pos + 8 + n, pos + 8 + n + 32) =~= whole.subrange(8 + n, 8 + n + 32));
    assert(whole.subrange(8 + n, 8 + n + 32) =~= entry_bytes(row.1));
    lemma_entry_at_written(bytes, pos + 8 + n, row.1);
}

/// Rows are read back from where their serialized forms stand.
proof fn lemma_parse_rows_of_rows_bytes(bytes: Seq<u8>, pos: int, rows: Seq<(Seq<char>, Entry)>)
    requires
        0 <= pos <= bytes.len(),
        bytes.subrange(pos, bytes.len() as int) == rows_bytes(rows),
        forall|k: int| 0 <= k < rows.len() ==> encode_utf8((#[trigger] rows[k]).0).len() <= u64::MAX,
    ensures
        parse_rows(bytes, pos, rows.len()) == Some(rows),
    decreases rows.len(),
{
    if rows.len() == 0 {
        assert(bytes.subrange(pos, bytes.len() as int).len() == 0);
        assert(rows =~= Seq::empty());
    } else {
        let row = rows[0];
        let rest = rows.drop_first();
        let next = pos + row_bytes(row).len();
        lemma_rows_bytes_front(rows);
        let tail = bytes.subrange(pos, bytes.len() as int);
        assert(tail.len() == row_bytes(row).len() + rows_bytes(rest).len());
        assert(bytes.subrange(pos, next) =~= tail.subrange(0, row_bytes(row).len() as int));
        assert(tail.subrange(0, row_bytes(row).len() as int) =~= row_bytes(row));
        lemma_parse_row_of_row_bytes(bytes, pos, row);
        assert(bytes.subrange(next, bytes.len() as int) =~= tail.subrange(
            row_bytes(row).len() as int,
            tail.len() as int,
        ));
        assert(tail.subrange(row_bytes(row).len() as int, tail.len() as int) =~= rows_bytes(rest));
        assert forall|k: int| 0 <= k < rest.len() implies encode_utf8((#[trigger] rest[k]).0).len()
            <= u64::MAX by {
            assert(rest[k] == rows[k + 1]);
        }
        lemma_parse_rows_of_rows_bytes(bytes, next, rest);
        assert(seq![row] + rest =~= rows);
    }
}

/// Reading undoes writing: a table whose paths grow strictly is read back
/// from its serialized form.
pub proof fn lemma_parse_inverts_encode(rows: Seq<(Seq<char>, Entry)>)
    requires
        rows_sorted(rows),
        rows.len() <= u64::MAX,
        forall|k: int| 0 <= k < rows.len() ==> encode_utf8((#[trigger] rows[k]).0).len() <= u64::MAX,
    ensures
        parse_table(table_bytes(rows)) == Some(rows),
{
    let bytes = table_bytes(rows);
    lemma_le_bytes(rows.len() as u64);
    assert(bytes.subrange(0, 8) =~= le_bytes(rows.len() as u64));
    lemma_u64_at_written(bytes, 0, rows.len() as u64);
    assert(bytes.subrange(8, bytes.len() as int) =~= rows_bytes(rows));
    lemma_parse_rows_of_rows_bytes(bytes, 8, rows);
}

/// The bytes from which a row is read are its serialized form.
proof fn lemma_row_bytes_of_parse_row(bytes: Seq<u8>, pos: int)
    requires
        0 <= pos,
        parse_row(bytes, pos) is Some,
    ensures
        parse_row(bytes, pos) matches Some((row, next)) && pos < next <= bytes.len()
            && bytes.subrange(pos, next) == row_bytes(row),
{
    let n = u64_at(bytes, pos) as int;
    let path = bytes.subrange(pos + 8, pos + 8 + n);
    let (row, next) = parse_row(bytes, pos)->0;
    decode_utf8_encode_utf8(path);
    lemma_le_bytes_of_u64_at(bytes, pos);
    lemma_entry_bytes_of_entry_at(bytes, pos + 8 + n);
    assert(bytes.subrange(pos, next) =~= bytes.subrange(pos, pos + 8) + path + bytes.subrange(
        pos + 8 + n,
        pos + 8 + n + 32,
    ));
}

/// The bytes from which rows are read are their serialized forms.
proof fn lemma_rows_bytes_of_parse_rows(bytes: Seq<u8>, pos: int, count: nat)
    requires
        0 <= pos <= bytes.len(),
        parse_rows(bytes, pos, count) is Some,
    ensures
        parse_rows(bytes, pos, count)->0.len() == count,
        rows_bytes(parse_rows(bytes, pos, count)->0) == bytes.subrange(pos, bytes.len() as int),
    decreases count,
{
    let rows = parse_rows(bytes, pos, count)->0;
    if count == 0 {
        assert(bytes.subrange(pos, bytes.len() as int) =~= Seq::empty());
    } else {
        let (row, next) = parse_row(bytes, pos)->0;
        let rest = parse_rows(bytes, next, (count - 1) as nat)->0;
        lemma_row_bytes_of_parse_row(bytes, pos);
        lemma_rows_bytes_of_parse_rows(bytes, next, (count - 1) as nat);
        assert(rows == seq![row] + rest);
        assert(rows.drop_first() =~= rest);
        lemma_rows_bytes_front(rows);
        assert(bytes.subrange(pos, bytes.len() as int) =~= bytes.subrange(pos, next)
            + bytes.subrange(next, bytes.len() as int));
    }
}

/// Writing undoes reading: bytes that are read as a table are that table's
/// serialized form, and the table's paths grow strictly.
pub proof fn lemma_encode_inverts_parse(bytes: Seq<u8>)
    requires
        parse_table(bytes) is Some,
    ensures
        table_bytes(parse_table(bytes)->0) == bytes,
        rows_sorted(parse_table(bytes)->0),
{
    let count = u64_at(bytes, 0);
    lemma_rows_bytes_of_parse_rows(bytes, 8, count as nat);
    lemma_le_bytes_of_u64_at(bytes, 0);
    assert(bytes =~= bytes.subrange(0, 8) + bytes.subrange(8, bytes.len() as int));
}

/// Writes the table in its serialized form.
pub fn encode_table(table: &Entries) -> (r: Vec<u8>)
    ensures
        r@ == table_bytes(table@),
{
    let mut out: Vec<u8> = Vec::new();
    let count: usize = table.len();
    append_u64(&mut out, count as u64);
    let mut k: usize = 0;
    while k < count
        invariant
            count == table@.len(),
            k <= count,
            out@ == le_bytes(count as u64) + rows_bytes(table@.take(k as int)),
        decreases count - k,
    {
        let path = table.path(k).as_bytes();
        let entry = table.entry(k);
        let ghost before = out@;
        append_u64(&mut out, path.len() as u64);
        append_bytes(&mut out, path);
        append_u64(&mut out, entry.offset);
        append_u64(&mut out, entry.length);
        append_u64(&mut out, entry.aligned_length);
        append_u64(&mut out, entry.checksum);
        proof {
            assert(table@.take(k + 1).drop_last() =~= table@.take(k as int));
            assert(table@.take(k + 1).last() == table@[k as int]);
            assert(out@ =~= before + row_bytes(table@[k as int]));
            assert(out@ =~= le_bytes(count as u64) + rows_bytes(table@.take(k + 1)));
        }
        k += 1;
    }
    proof {
        assert(table@.take(k as int) =~= table@);
    }
    out
}

/// The rows that were read so far, as the table will show them.
pub open spec fn rows_of(paths: Seq<String>, entries: Seq<Entry>) -> Seq<(Seq<char>, Entry)> {
    Seq::new(paths.len(), |k: int| (paths[k]@, entries[k]))
}

/// Rows that can be read from `pos` on can be read after one more row
/// before them.
proof fn lemma_parse_rows_step(bytes: Seq<u8>, pos: int, count: nat)
    requires
        count > 0,
    ensures
        parse_rows(bytes, pos, count) == match parse_row(bytes, pos) {
            None => None,
            Some((row, next)) => match parse_rows(bytes, next, (count - 1) as nat) {
                None => None,
                Some(rest) => Some(seq![row] + rest),
            },
        },
{
}

/// Reads a table from its serialized form. `None` where the bytes are not
/// the serialized form of a table.
pub fn decode_table(bytes: &[u8]) -> (r: Option<Entries>)
    ensures
        match r {
            Some(table) => parse_table(bytes@) == Some(table@),
            None => parse_table(bytes@) is None,
        },
{
    let len: usize = bytes.len();
    if len < 8 {
        return None;
    }
    let count: u64 = read_u64(bytes, 0);
    let mut paths: Vec<String> = Vec::new();
    let mut entries: Vec<Entry> = Vec::new();
    let mut pos: usize = 8;
    let mut k: u64 = 0;
    while k < count
        invariant
            len == bytes@.len(),
            8 <= pos <= len,
            count == u64_at(bytes@, 0),
            k <= count,
            paths@.len() == k,
            entries@.len() == k,
            strings_sorted(paths@),
            parse_rows(bytes@, 8, count as nat) == match parse_rows(
                bytes@,
                pos as int,
                (count - k) as nat,
            ) {
                Some(rest) => Some(rows_of(paths@, entries@) + rest),
                None => None,
            },
        decreases count - k,
    {
        proof {
            lemma_parse_rows_step(bytes@, pos as int, (count - k) as nat);
        }
        if len - pos < 8 {
            return None;
        }
        let path_length: u64 = read_u64(bytes, pos);
        let room: usize = len - pos - 8;
        if (room as u64) < path_length || (room as u64) - path_length < 32 {
            return None;
        }
        let start: usize = pos + 8;
        let end: usize = start + (path_length as usize);
        let path = match str_from_utf8(slice_subrange(bytes, start, end)) {
            Ok(text) => text,
            Err(_) => {
                return None;
            },
        };
        let entry = Entry {
            offset: read_u64(bytes, end),
            length: read_u64(bytes, end + 8),
            aligned_length: read_u64(bytes, end + 16),
            checksum: read_u64(bytes, end + 24),
        };
        proof {
            encode_utf8_decode_utf8(path@);
            assert(parse_row(bytes@, pos as int) == Some(((path@, entry), end + 32)));
        }
        let ghost before = rows_of(paths@, entries@);
        if paths.len() > 0 {
            match order_paths(paths[paths.len() - 1].as_str(), path) {
                PathOrder::Before => {},
                _ => {
                    proof {
                        match parse_rows(bytes@, end + 32, (count - k - 1) as nat) {
                            Some(rest) => {
                                let all = before + (seq![(path@, entry)] + rest);
                                assert(all[k - 1] == before[k - 1]);
                                assert(all[k as int] == (path@, entry));
                                assert(!path_less(all[k - 1].0, all[k as int].0));
                                assert(!rows_sorted(all));
                            },
                            None => {},
                        }
                    }
                    return None;
                },
            }
        }
        let ghost old_paths = paths@;
        paths.push(path.to_owned());
        entries.push(entry);
        proof {
            assert forall|i: int, j: int| 0 <= i < j < paths@.len() implies path_less(
                #[trigger] paths@[i]@,
                #[trigger] paths@[j]@,
            ) by {
                if j == k {
                    if i < k - 1 {
                        assert(path_less(old_paths[i]@, old_paths[k - 1]@));
                        lemma_path_less_transitive(paths@[i]@, old_paths[k - 1]@, path@);
                    }
                } else {
                    assert(path_less(old_paths[i]@, old_paths[j]@));
                }
            }
            let after = rows_of(paths@, entries@);
            assert(after =~= before.push((path@, entry)));
            match parse_rows(bytes@, end + 32, (count - k - 1) as nat) {
                Some(rest) => {
                    assert(before + (seq![(path@, entry)] + rest) =~= after + rest);
                },
                None => {},
            }
        }
        pos = end + 32;
        k += 1;
    }
    if pos != len {
        return None;
    }
    proof {
        assert(rows_of(paths@, entries@) + Seq::empty() =~= rows_of(paths@, entries@));
        assert forall|i: int, j: int| 0 <= i < j < paths@.len() implies path_less(
            rows_of(paths@, entries@)[i].0,
            rows_of(paths@, entries@)[j].0,
        ) by {
            assert(path_less(paths@[i]@, paths@[j]@));
        }
    }
    Some(Entries::from_parts(paths, entries))
}

} // verus!
