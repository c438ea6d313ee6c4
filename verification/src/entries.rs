//! The entries table: for each archived path where its contents lie in the
//! content region, how long they are, how much room they take up, and
//! their checksum.
//!
//! The table is built once, from the files in the order of their paths, or
//! read from an archive; after that it only answers questions.

use vstd::prelude::*;
use vstd::seq_lib::{
    group_to_multiset_ensures, to_multiset_build, to_multiset_contains, to_multiset_insert,
};
use crate::align::{align_up, is_page_size};
use crate::file_data::{metadata, FileData, FileDataError, FileDatum};
use crate::layout::{
    build_order, layout, lemma_build_order, lemma_build_order_is_the_sorted_listing,
    lemma_layout_is_aligned, lemma_rows_total_prefix, lemma_total_aligned_ignores_order,
    lemma_total_aligned_prefix, listing, names_distinct, row_of, rows_aligned, rows_total,
    total_aligned,
};
use crate::order::{
    lemma_path_less_asymmetric, lemma_path_less_irreflexive, lemma_path_less_transitive,
    order_paths, path_less, PathOrder,
};

verus! {

/// Where one file lies in the content region.
#[derive(Clone, Copy, Debug, PartialEq, Eq, Structural)]
pub struct Entry {
    /// Where the contents start, counted from the start of the content
    /// region.
    pub offset: u64,
    /// The number of bytes of contents.
    pub length: u64,
    /// The length rounded up to a multiple of the page size: the room that
    /// the file takes up.
    pub aligned_length: u64,
    /// The checksum of the contents.
    pub checksum: u64,
}

impl Entry {
    /// The number of zero bytes that fill the file's room after its
    /// contents.
    pub fn padding(&self) -> (r: u64)
        ensures
            r == if self.length <= self.aligned_length {
                self.aligned_length - self.length
            } else {
                0
            },
    {
        if self.length <= self.aligned_length {
            self.aligned_length - self.length
        } else {
            0
        }
    }
}

/// The rows' paths grow strictly from each row to the next.
pub open spec fn rows_sorted(rows: Seq<(Seq<char>, Entry)>) -> bool {
    forall|i: int, j: int| 0 <= i < j < rows.len() ==> path_less(rows[i].0, rows[j].0)
}

/// The strings grow strictly, as paths, from each to the next.
pub open spec fn strings_sorted(paths: Seq<String>) -> bool {
    forall|i: int, j: int|
        0 <= i < j < paths.len() ==> path_less(#[trigger] paths[i]@, #[trigger] paths[j]@)
}

/// The entry that the rows hold for `path`, if any.
pub open spec fn lookup(rows: Seq<(Seq<char>, Entry)>, path: Seq<char>) -> Option<Entry>
    decreases rows.len(),
{
    if rows.len() == 0 {
        None
    } else if rows.last().0 == path {
        Some(rows.last().1)
    } else {
        lookup(rows.drop_last(), path)
    }
}

/// A path that no row holds is not found.
pub proof fn lemma_lookup_absent(rows: Seq<(Seq<char>, Entry)>, path: Seq<char>)
    requires
        forall|k: int| 0 <= k < rows.len() ==> (#[trigger] rows[k]).0 != path,
    ensures
        lookup(rows, path) is None,
    decreases rows.len(),
{
    if rows.len() > 0 {
        assert(rows.last() == rows[rows.len() - 1]);
        assert forall|k: int| 0 <= k < rows.drop_last().len() implies (#[trigger] rows.drop_last()[k]).0
            != path by {
            assert(rows.drop_last()[k] == rows[k]);
        }
        lemma_lookup_absent(rows.drop_last(), path);
    }
}

/// In sorted rows a path is found with the entry of the row that holds it.
pub proof fn lemma_lookup_present(rows: Seq<(Seq<char>, Entry)>, path: Seq<char>, k: int)
    requires
        rows_sorted(rows),
        0 <= k < rows.len(),
        rows[k].0 == path,
    ensures
        lookup(rows, path) == Some(rows[k].1),
    decreases rows.len(),
{
    if k < rows.len() - 1 {
        lemma_path_less_asymmetric(rows[k].0, rows.last().0);
        assert(rows.drop_last()[k] == rows[k]);
        assert forall|i: int, j: int| 0 <= i < j < rows.drop_last().len() implies path_less(
            rows.drop_last()[i].0,
            rows.drop_last()[j].0,
        ) by {
            assert(rows.drop_last()[i] == rows[i] && rows.drop_last()[j] == rows[j]);
        }
        lemma_lookup_present(rows.drop_last(), path, k);
    }
}

/// The entries table of an archive.
#[derive(Debug)]
pub struct Entries {
    paths: Vec<String>,
    entries: Vec<Entry>,
}

impl View for Entries {
    type V = Seq<(Seq<char>, Entry)>;

    closed spec fn view(&self) -> Seq<(Seq<char>, Entry)> {
        Seq::new(self.paths@.len(), |k: int| (self.paths@[k]@, self.entries@[k]))
    }
}

/// Looks for `key` among sorted paths: the place where it stands or would
/// have to be put, and whether it stands there.
fn find(paths: &Vec<String>, key: &str) -> (r: (usize, bool))
    requires
        strings_sorted(paths@),
    ensures
        r.0 <= paths@.len(),
        forall|i: int| 0 <= i < r.0 ==> path_less(#[trigger] paths@[i]@, key@),
        r.1 ==> r.0 < paths@.len() && paths@[r.0 as int]@ == key@,
        !r.1 ==> forall|i: int| r.0 <= i < paths@.len() ==> path_less(key@, #[trigger] paths@[i]@),
{
    let mut lo: usize = 0;
    let mut hi: usize = paths.len();
    while lo < hi
        invariant
            lo <= hi <= paths@.len(),
            strings_sorted(paths@),
            forall|i: int| 0 <= i < lo ==> path_less(#[trigger] paths@[i]@, key@),
            forall|i: int| hi <= i < paths@.len() ==> path_less(key@, #[trigger] paths@[i]@),
        decreases hi - lo,
    {
        let mid: usize = lo + (hi - lo) / 2;
        match order_paths(paths[mid].as_str(), key) {
            PathOrder::Before => {
                proof {
                    assert forall|i: int| 0 <= i < mid + 1 implies path_less(
                        #[trigger] paths@[i]@,
                        key@,
                    ) by {
                        if i < mid {
                            lemma_path_less_transitive(paths@[i]@, paths@[mid as int]@, key@);
                        }
                    }
                }
                lo = mid + 1;
            },
            PathOrder::Same => {
                proof {
                    assert forall|i: int| 0 <= i < mid implies path_less(
                        #[trigger] paths@[i]@,
                        key@,
                    ) by {}
                }
                return (mid, true);
            },
            PathOrder::After => {
                proof {
                    assert forall|i: int| mid <= i < paths@.len() implies path_less(
                        key@,
                        #[trigger] paths@[i]@,
                    ) by {
                        if mid < i {
                            lemma_path_less_transitive(key@, paths@[mid as int]@, paths@[i]@);
                        }
                    }
                }
                hi = mid;
            },
        }
    }
    (lo, false)
}

impl Entries {
    #[verifier::type_invariant]
    spec fn well_formed(&self) -> bool {
        &&& self.paths@.len() == self.entries@.len()
        &&& strings_sorted(self.paths@)
    }

    /// Puts a table together from its paths, which must grow strictly,
    /// and the entry of each.
    pub(crate) fn from_parts(paths: Vec<String>, entries: Vec<Entry>) -> (r: Entries)
        requires
            paths@.len() == entries@.len(),
            strings_sorted(paths@),
        ensures
            r@ == Seq::new(paths@.len(), |k: int| (paths@[k]@, entries@[k])),
    {
        Entries { paths, entries }
    }

    /// The number of files in the table.
    pub fn len(&self) -> (r: usize)
        ensures
            r == self@.len(),
            rows_sorted(self@),
    {
        proof {
            use_type_invariant(self);
        }
        self.paths.len()
    }

    /// The path of the `k`th file, counted from 0 in the order of layout.
    pub fn path(&self, k: usize) -> (r: &str)
        requires
            k < self@.len(),
        ensures
            r@ == self@[k as int].0,
    {
        self.paths[k].as_str()
    }

    /// The entry of the `k`th file, counted from 0 in the order of layout.
    pub fn entry(&self, k: usize) -> (r: Entry)
        requires
            k < self@.len(),
        ensures
            r == self@[k as int].1,
    {
        proof {
            use_type_invariant(self);
        }
        self.entries[k]
    }

    /// The entry of the file at `path`, if the table holds one.
    pub fn get(&self, path: &str) -> (r: Option<Entry>)
        ensures
            r == lookup(self@, path@),
    {
        proof {
            use_type_invariant(self);
        }
        let (pos, found) = find(&self.paths, path);
        if found {
            proof {
                lemma_lookup_present(self@, path@, pos as int);
            }
            Some(self.entries[pos])
        } else {
            proof {
                assert forall|k: int| 0 <= k < self@.len() implies (#[trigger] self@[k]).0
                    != path@ by {
                    if k < pos {
                        lemma_path_less_asymmetric(self.paths@[k]@, path@);
                    } else {
                        lemma_path_less_asymmetric(path@, self.paths@[k]@);
                    }
                }
                lemma_lookup_absent(self@, path@);
            }
            None
        }
    }

    /// Tells whether the table holds a file at `path`.
    pub fn contains_key(&self, path: &str) -> (r: bool)
        ensures
            r == lookup(self@, path@) is Some,
    {
        self.get(path).is_some()
    }

    /// The room that the table's files claim together, where that fits in
    /// 64 bits.
    pub fn total_aligned_length(&self) -> (r: Option<u64>)
        ensures
            match r {
                Some(total) => total == rows_total(self@),
                None => rows_total(self@) > u64::MAX,
            },
    {
        proof {
            use_type_invariant(self);
        }
        let mut total: u64 = 0;
        let mut k: usize = 0;
        while k < self.entries.len()
            invariant
                k <= self.entries@.len(),
                self.entries@.len() == self@.len(),
                forall|j: int| 0 <= j < self@.len() ==> (#[trigger] self@[j]).1 == self.entries@[j],
                total == rows_total(self@.take(k as int)),
            decreases self.entries@.len() - k,
        {
            proof {
                lemma_rows_total_prefix(self@, k as int);
                lemma_rows_total_prefix(self@, k + 1);
            }
            match total.checked_add(self.entries[k].aligned_length) {
                Some(sum) => {
                    total = sum;
                },
                None => {
                    return None;
                },
            }
            k += 1;
        }
        proof {
            assert(self@.take(k as int) =~= self@);
        }
        Some(total)
    }

    /// Lays the files out in the order of their paths. The files must have
    /// distinct paths.
    pub fn new(file_data: FileData, page_size: u64) -> (r: Result<Entries, FileDataError>)
        requires
            is_page_size(page_size),
            total_aligned(file_data@, page_size) <= u64::MAX,
        ensures
            match r {
                Ok(table) => {
                    &&& names_distinct(file_data@)
                    &&& table@ == layout(build_order(file_data@), page_size)
                    &&& rows_sorted(table@)
                    &&& rows_aligned(table@, page_size)
                },
                Err(e) => e == FileDataError::DuplicateEntry && !names_distinct(file_data@),
            },
    {
        let data = file_data.into_vec();
        match Entries::build(&data, page_size) {
            Ok((table, _)) => {
                proof {
                    use_type_invariant(&table);
                    lemma_build_order(file_data@);
                    lemma_total_aligned_ignores_order(
                        build_order(file_data@),
                        file_data@,
                        page_size,
                    );
                    lemma_layout_is_aligned(build_order(file_data@), page_size);
                }
                Ok(table)
            },
            Err(e) => Err(e),
        }
    }

    /// Lays the files out in the order of their paths, and tells for each
    /// row of the table which of the files it stands for.
    pub(crate) fn build(data: &Vec<FileDatum>, page_size: u64) -> (r: Result<
        (Entries, Vec<usize>),
        FileDataError,
    >)
        requires
            is_page_size(page_size),
            total_aligned(metadata(data@), page_size) <= u64::MAX,
        ensures
            match r {
                Ok((table, order)) => {
                    &&& names_distinct(metadata(data@))
                    &&& table@ == layout(build_order(metadata(data@)), page_size)
                    &&& order@.len() == data@.len()
                    &&& forall|k: int|
                        0 <= k < order@.len() ==> (#[trigger] order@[k]) < data@.len()
                    &&& listing(order@, metadata(data@)) == build_order(metadata(data@))
                },
                Err(e) => e == FileDataError::DuplicateEntry && !names_distinct(metadata(data@)),
            },
    {
        match sort_by_path(data) {
            Err(e) => Err(e),
            Ok((paths, order)) => {
                proof {
                    lemma_build_order(metadata(data@));
                    lemma_total_aligned_ignores_order(
                        build_order(metadata(data@)),
                        metadata(data@),
                        page_size,
                    );
                }
                let entries = assign_offsets(data, &order, page_size);
                let table = Entries { paths, entries };
                assert(table@ =~= layout(build_order(metadata(data@)), page_size));
                Ok((table, order))
            },
        }
    }
}

/// Sorts the files by path: the paths in increasing order, and for each the
/// place of its file in `data`.
fn sort_by_path(data: &Vec<FileDatum>) -> (r: Result<
    (Vec<String>, Vec<usize>),
    FileDataError,
>)
    ensures
        match r {
            Ok((paths, order)) => {
                &&& names_distinct(metadata(data@))
                &&& listing(order@, metadata(data@)) == build_order(metadata(data@))
                &&& paths@.len() == data@.len()
                &&& order@.len() == data@.len()
                &&& strings_sorted(paths@)
                &&& forall|k: int|
                    0 <= k < order@.len() ==> (#[trigger] order@[k]) < data@.len() && paths@[k]@
                        == data@[order@[k] as int]@.name
            },
            Err(e) => e == FileDataError::DuplicateEntry && !names_distinct(metadata(data@)),
        },
{
    broadcast use group_to_multiset_ensures;

    let ghost md = metadata(data@);
    let mut paths: Vec<String> = Vec::new();
    let mut order: Vec<usize> = Vec::new();
    let mut i: usize = 0;
    while i < data.len()
        invariant
            md == metadata(data@),
            i <= data@.len(),
            paths@.len() == i,
            order@.len() == i,
            strings_sorted(paths@),
            forall|k: int|
                0 <= k < order@.len() ==> (#[trigger] order@[k]) < i && paths@[k]@
                    == data@[order@[k] as int]@.name,
            listing(order@, md).to_multiset() == md.take(i as int).to_multiset(),
            names_distinct(md.take(i as int)),
        decreases data@.len() - i,
    {
        let name = data[i].name();
        let (pos, found) = find(&paths, name.as_str());
        if found {
            proof {
                let j = order@[pos as int] as int;
                assert(md[j].name == md[i as int].name);
            }
            return Err(FileDataError::DuplicateEntry);
        }
        let ghost old_paths = paths@;
        let ghost old_order = order@;
        paths.insert(pos, name);
        order.insert(pos, i);
        proof {
            let before = listing(old_order, md);
            let after = listing(order@, md);
            assert(after =~= before.insert(pos as int, md[i as int]));
            let next = md.take(i + 1);
            assert(next =~= md.take(i as int).push(md[i as int]));
            to_multiset_insert(before, pos as int, md[i as int]);
            to_multiset_build(md.take(i as int), md[i as int]);
            assert(after.to_multiset() == next.to_multiset());
            assert forall|a: int, b: int| 0 <= a < b < next.len() implies next[a].name
                != next[b].name by {
                if b == i {
                    assert(md.take(i as int)[a] == md[a]);
                    assert(md.take(i as int).contains(md[a]));
                    to_multiset_contains(md.take(i as int), md[a]);
                    to_multiset_contains(before, md[a]);
                    assert(before.contains(md[a]));
                    let k = choose|k: int| 0 <= k < before.len() && before[k] == md[a];
                    assert(old_paths[k]@ == md[a].name);
                    lemma_path_less_irreflexive(md[i as int].name);
                } else {
                    assert(md.take(i as int)[a].name != md.take(i as int)[b].name);
                }
            }
            assert forall|a: int, b: int| 0 <= a < b < paths@.len() implies path_less(
                #[trigger] paths@[a]@,
                #[trigger] paths@[b]@,
            ) by {
                if a == pos {
                    assert(paths@[b] == old_paths[b - 1]);
                } else if b == pos {
                    assert(paths@[a] == old_paths[a]);
                } else if a < pos && b < pos {
                    assert(paths@[a] == old_paths[a] && paths@[b] == old_paths[b]);
                } else if a < pos {
                    assert(paths@[a] == old_paths[a] && paths@[b] == old_paths[b - 1]);
                } else {
                    assert(paths@[a] == old_paths[a - 1] && paths@[b] == old_paths[b - 1]);
                }
            }
        }
        i += 1;
    }
    proof {
        assert(md.take(i as int) =~= md);
        let sorted = listing(order@, md);
        assert forall|a: int, b: int| 0 <= a < b < sorted.len() implies path_less(
            sorted[a].name,
            sorted[b].name,
        ) by {
            assert(path_less(paths@[a]@, paths@[b]@));
        }
        lemma_build_order_is_the_sorted_listing(sorted, md);
    }
    Ok((paths, order))
}

/// Gives each file, in the order given, its place after the files before
/// it.
fn assign_offsets(data: &Vec<FileDatum>, order: &Vec<usize>, page_size: u64) -> (r: Vec<Entry>)
    requires
        is_page_size(page_size),
        forall|k: int| 0 <= k < order@.len() ==> (#[trigger] order@[k]) < data@.len(),
        total_aligned(listing(order@, metadata(data@)), page_size) <= u64::MAX,
    ensures
        r@.len() == order@.len(),
        forall|k: int|
            0 <= k < r@.len() ==> #[trigger] r@[k] == row_of(
                listing(order@, metadata(data@)),
                k,
                page_size,
            ).1,
{
    let ghost sorted = listing(order@, metadata(data@));
    let mut entries: Vec<Entry> = Vec::new();
    let mut offset: u64 = 0;
    let mut k: usize = 0;
    while k < order.len()
        invariant
            is_page_size(page_size),
            sorted == listing(order@, metadata(data@)),
            forall|j: int| 0 <= j < order@.len() ==> (#[trigger] order@[j]) < data@.len(),
            total_aligned(sorted, page_size) <= u64::MAX,
            k <= order@.len(),
            entries@.len() == k,
            offset == total_aligned(sorted.take(k as int), page_size),
            forall|j: int| 0 <= j < k ==> #[trigger] entries@[j] == row_of(sorted, j, page_size).1,
        decreases order@.len() - k,
    {
        let datum = &data[order[k]];
        proof {
            lemma_total_aligned_prefix(sorted, k as int, page_size);
            lemma_total_aligned_prefix(sorted, k + 1, page_size);
            assert(sorted[k as int] == datum@);
        }
        let aligned_length = align_up(datum.len(), page_size);
        entries.push(
            Entry { offset, length: datum.len(), aligned_length, checksum: datum.checksum() },
        );
        offset = offset + aligned_length;
        k += 1;
    }
    entries
}

} // verus!
