//! How the files of an archive are laid out.
//!
//! The files are put in the order of their paths. Each takes up its length
//! rounded up to a multiple of the page size, and starts where the room of
//! the files before it ends, the first at 0. So every file starts on a page
//! boundary.

use vstd::prelude::*;
use vstd::relations::{sorted_by, total_ordering};
use vstd::seq_lib::{
    lemma_sorted_unique, to_multiset_contains, to_multiset_len, to_multiset_remove,
};
use crate::align::{aligned, lemma_aligned_is_least_multiple};
use crate::entries::Entry;
use crate::file_data::Metadatum;
use crate::order::{
    lemma_path_less_asymmetric, lemma_path_less_total, lemma_path_less_transitive, path_less,
};

verus! {

/// Orders file data by path; data of one path by length and, among those
/// of one length, by checksum.
pub open spec fn datum_leq(a: Metadatum, b: Metadatum) -> bool {
    ||| path_less(a.name, b.name)
    ||| a.name == b.name && a.length < b.length
    ||| a.name == b.name && a.length == b.length && a.checksum <= b.checksum
}

/// `datum_leq` as a relation.
pub open spec fn by_path() -> spec_fn(Metadatum, Metadatum) -> bool {
    |a: Metadatum, b: Metadatum| datum_leq(a, b)
}

/// The order in which files are laid out: sorted by path.
pub open spec fn build_order(data: Seq<Metadatum>) -> Seq<Metadatum> {
    data.sort_by(by_path())
}

/// No two files have the same path.
pub open spec fn names_distinct(data: Seq<Metadatum>) -> bool {
    forall|i: int, j: int| 0 <= i < j < data.len() ==> data[i].name != data[j].name
}

/// The paths grow strictly from each file to the next.
pub open spec fn names_increase(data: Seq<Metadatum>) -> bool {
    forall|i: int, j: int| 0 <= i < j < data.len() ==> path_less(data[i].name, data[j].name)
}

/// The room that the files take up together.
pub open spec fn total_aligned(data: Seq<Metadatum>, page_size: u64) -> int
    decreases data.len(),
{
    if data.len() == 0 {
        0
    } else {
        total_aligned(data.drop_last(), page_size) + aligned(
            data.last().length as int,
            page_size as int,
        )
    }
}

/// The table's row for the file at place `k` of `data`: it starts where
/// the room of the files before it ends.
pub open spec fn row_of(data: Seq<Metadatum>, k: int, page_size: u64) -> (Seq<char>, Entry) {
    (
        data[k].name,
        Entry {
            offset: total_aligned(data.take(k), page_size) as u64,
            length: data[k].length,
            aligned_length: aligned(data[k].length as int, page_size as int) as u64,
            checksum: data[k].checksum,
        },
    )
}

/// The table for files that are laid out in the order given.
pub open spec fn layout(data: Seq<Metadatum>, page_size: u64) -> Seq<(Seq<char>, Entry)> {
    Seq::new(data.len(), |k: int| row_of(data, k, page_size))
}

/// Every row starts on a page boundary, the first at 0 and each next one
/// where the room of the one before it ends, which is its length rounded up
/// to the page size.
pub open spec fn rows_aligned(rows: Seq<(Seq<char>, Entry)>, page_size: u64) -> bool {
    &&& rows.len() > 0 ==> rows[0].1.offset == 0
    &&& forall|k: int|
        0 <= k < rows.len() ==> (#[trigger] rows[k]).1.offset % page_size == 0
            && rows[k].1.aligned_length == aligned(rows[k].1.length as int, page_size as int)
    &&& forall|k: int|
        0 <= k < rows.len() - 1 ==> rows[k + 1].1.offset == (#[trigger] rows[k]).1.offset
            + rows[k].1.aligned_length
}

/// The room that the rows claim together.
pub open spec fn rows_total(rows: Seq<(Seq<char>, Entry)>) -> int
    decreases rows.len(),
{
    if rows.len() == 0 {
        0
    } else {
        rows_total(rows.drop_last()) + rows.last().1.aligned_length
    }
}

/// The data that `order` picks out of `data`, one by one.
pub open spec fn listing(order: Seq<usize>, data: Seq<Metadatum>) -> Seq<Metadatum> {
    Seq::new(order.len(), |k: int| data[order[k] as int])
}

/// `datum_leq` is a total order.
pub proof fn lemma_by_path_is_total_order()
    ensures
        total_ordering(by_path()),
{
    let r = by_path();
    assert forall|x: Metadatum| #[trigger] r(x, x) by {}
    assert forall|x: Metadatum, y: Metadatum| #[trigger] r(x, y) && #[trigger] r(y, x) implies x
        == y by {
        if path_less(x.name, y.name) {
            lemma_path_less_asymmetric(x.name, y.name);
        }
        if path_less(y.name, x.name) {
            lemma_path_less_asymmetric(y.name, x.name);
        }
    }
    assert forall|x: Metadatum, y: Metadatum, z: Metadatum| #[trigger]
        r(x, y) && #[trigger] r(y, z) implies r(x, z) by {
        if path_less(x.name, y.name) && path_less(y.name, z.name) {
            lemma_path_less_transitive(x.name, y.name, z.name);
        }
    }
    assert forall|x: Metadatum, y: Metadatum| #[trigger] r(x, y) || #[trigger] r(y, x) by {
        lemma_path_less_total(x.name, y.name);
    }
}

/// Files whose paths grow strictly are sorted by path.
pub proof fn lemma_increasing_names_are_sorted(data: Seq<Metadatum>)
    requires
        names_increase(data),
    ensures
        sorted_by(data, by_path()),
        names_distinct(data),
{
    assert forall|i: int, j: int| 0 <= i < j < data.len() implies data[i].name
        != data[j].name by {
        lemma_path_less_asymmetric(data[i].name, data[j].name);
    }
}

/// A listing of the same files whose paths grow strictly is the build
/// order.
pub proof fn lemma_build_order_is_the_sorted_listing(sorted: Seq<Metadatum>, data: Seq<Metadatum>)
    requires
        names_increase(sorted),
        sorted.to_multiset() == data.to_multiset(),
    ensures
        sorted == build_order(data),
{
    lemma_by_path_is_total_order();
    lemma_increasing_names_are_sorted(sorted);
    data.lemma_sort_by_ensures(by_path());
    lemma_sorted_unique(sorted, build_order(data), by_path());
}

/// The room of the first `k` files: it grows with `k` by the room of each
/// file, and never exceeds the total.
pub proof fn lemma_total_aligned_prefix(data: Seq<Metadatum>, k: int, page_size: u64)
    requires
        0 <= k <= data.len(),
        page_size > 0,
    ensures
        0 <= total_aligned(data.take(k), page_size) <= total_aligned(data, page_size),
        k < data.len() ==> total_aligned(data.take(k + 1), page_size) == total_aligned(
            data.take(k),
            page_size,
        ) + aligned(data[k].length as int, page_size as int),
        k < data.len() ==> 0 <= data[k].length <= aligned(data[k].length as int, page_size as int),
    decreases data.len() - k,
{
    if k == data.len() {
        assert(data.take(k) =~= data);
        lemma_total_aligned_nonnegative(data, page_size);
    } else {
        assert(data.take(k + 1).drop_last() =~= data.take(k));
        lemma_aligned_is_least_multiple(data[k].length as int, page_size as int);
        lemma_total_aligned_prefix(data, k + 1, page_size);
        lemma_total_aligned_nonnegative(data.take(k), page_size);
    }
}

proof fn lemma_total_aligned_nonnegative(data: Seq<Metadatum>, page_size: u64)
    requires
        page_size > 0,
    ensures
        0 <= total_aligned(data, page_size),
    decreases data.len(),
{
    if data.len() > 0 {
        lemma_total_aligned_nonnegative(data.drop_last(), page_size);
        lemma_aligned_is_least_multiple(data.last().length as int, page_size as int);
    }
}

/// The room of the first `k` rows never exceeds that of all.
pub proof fn lemma_rows_total_prefix(rows: Seq<(Seq<char>, Entry)>, k: int)
    requires
        0 <= k <= rows.len(),
    ensures
        0 <= rows_total(rows.take(k)) <= rows_total(rows),
        k < rows.len() ==> rows_total(rows.take(k + 1)) == rows_total(rows.take(k))
            + rows[k].1.aligned_length,
    decreases rows.len() - k,
{
    if k == rows.len() {
        assert(rows.take(k) =~= rows);
        lemma_rows_total_nonnegative(rows);
    } else {
        assert(rows.take(k + 1).drop_last() =~= rows.take(k));
        lemma_rows_total_prefix(rows, k + 1);
        lemma_rows_total_nonnegative(rows.take(k));
    }
}

proof fn lemma_rows_total_nonnegative(rows: Seq<(Seq<char>, Entry)>)
    ensures
        0 <= rows_total(rows),
    decreases rows.len(),
{
    if rows.len() > 0 {
        lemma_rows_total_nonnegative(rows.drop_last());
    }
}

/// Without its last file, the table is that of the files before it.
pub proof fn lemma_layout_drop_last(data: Seq<Metadatum>, page_size: u64)
    requires
        data.len() > 0,
    ensures
        layout(data, page_size).drop_last() == layout(data.drop_last(), page_size),
        layout(data, page_size).last() == row_of(data, data.len() - 1, page_size),
{
    let rest = data.drop_last();
    assert forall|k: int| 0 <= k < rest.len() implies row_of(data, k, page_size) == row_of(
        rest,
        k,
        page_size,
    ) by {
        assert(data.take(k) =~= rest.take(k));
    }
    assert(layout(data, page_size).drop_last() =~= layout(rest, page_size));
}

/// The first rows of the table are the table of the first files.
pub proof fn lemma_layout_take(data: Seq<Metadatum>, k: int, page_size: u64)
    requires
        0 <= k <= data.len(),
    ensures
        layout(data, page_size).take(k) == layout(data.take(k), page_size),
{
    assert forall|j: int| 0 <= j < k implies row_of(data, j, page_size) == row_of(
        data.take(k),
        j,
        page_size,
    ) by {
        assert(data.take(j) =~= data.take(k).take(j));
    }
    assert(layout(data, page_size).take(k) =~= layout(data.take(k), page_size));
}

/// The table of files that fit claims the room that the files take up.
pub proof fn lemma_layout_total(data: Seq<Metadatum>, page_size: u64)
    requires
        page_size > 0,
        total_aligned(data, page_size) <= u64::MAX,
    ensures
        rows_total(layout(data, page_size)) == total_aligned(data, page_size),
    decreases data.len(),
{
    if data.len() > 0 {
        let rest = data.drop_last();
        lemma_total_aligned_nonnegative(rest, page_size);
        lemma_aligned_is_least_multiple(data.last().length as int, page_size as int);
        lemma_layout_drop_last(data, page_size);
        lemma_layout_total(rest, page_size);
    }
}

/// The sum of two multiples of `p` is a multiple of `p`.
proof fn lemma_multiples_add(a: int, b: int, p: int)
    requires
        0 < p,
        a % p == 0,
        b % p == 0,
    ensures
        (a + b) % p == 0,
{
    vstd::arithmetic::div_mod::lemma_mod_adds(a, b, p);
}

/// The room that files take up is a multiple of the page size.
pub proof fn lemma_total_aligned_is_multiple(data: Seq<Metadatum>, page_size: u64)
    requires
        page_size > 0,
    ensures
        total_aligned(data, page_size) % (page_size as int) == 0,
    decreases data.len(),
{
    if data.len() > 0 {
        lemma_total_aligned_is_multiple(data.drop_last(), page_size);
        lemma_aligned_is_least_multiple(data.last().length as int, page_size as int);
        lemma_multiples_add(
            total_aligned(data.drop_last(), page_size),
            aligned(data.last().length as int, page_size as int),
            page_size as int,
        );
    } else {
        vstd::arithmetic::div_mod::lemma_small_mod(0, page_size as nat);
    }
}

/// The layout of files that fit: every file starts on a page boundary, the
/// first at 0 and each next one where the room of the one before it ends,
/// which is its length rounded up to the page size.
pub proof fn lemma_layout_is_aligned(data: Seq<Metadatum>, page_size: u64)
    requires
        page_size > 0,
        total_aligned(data, page_size) <= u64::MAX,
    ensures
        layout(data, page_size).len() == data.len(),
        rows_aligned(layout(data, page_size), page_size),
{
    let rows = layout(data, page_size);
    assert forall|k: int| 0 <= k < rows.len() implies (#[trigger] rows[k]).1.offset % page_size
        == 0 && rows[k].1.aligned_length == aligned(rows[k].1.length as int, page_size as int) by {
        lemma_total_aligned_prefix(data, k, page_size);
        lemma_total_aligned_prefix(data, k + 1, page_size);
        lemma_total_aligned_is_multiple(data.take(k), page_size);
    }
    assert forall|k: int| 0 <= k < rows.len() - 1 implies rows[k + 1].1.offset == (
    #[trigger] rows[k]).1.offset + rows[k].1.aligned_length by {
        lemma_total_aligned_prefix(data, k, page_size);
        lemma_total_aligned_prefix(data, k + 1, page_size);
        lemma_total_aligned_prefix(data, k + 2, page_size);
    }
    if data.len() > 0 {
        assert(data.take(0) =~= Seq::<Metadatum>::empty());
    }
}

/// The sum of what `f` gives for each file.
pub open spec fn sum_of(data: Seq<Metadatum>, f: spec_fn(Metadatum) -> int) -> int
    decreases data.len(),
{
    if data.len() == 0 {
        0
    } else {
        sum_of(data.drop_last(), f) + f(data.last())
    }
}

proof fn lemma_sum_remove(data: Seq<Metadatum>, j: int, f: spec_fn(Metadatum) -> int)
    requires
        0 <= j < data.len(),
    ensures
        sum_of(data, f) == sum_of(data.remove(j), f) + f(data[j]),
    decreases data.len(),
{
    if j == data.len() - 1 {
        assert(data.remove(j) =~= data.drop_last());
    } else {
        lemma_sum_remove(data.drop_last(), j, f);
        assert(data.remove(j).drop_last() =~= data.drop_last().remove(j));
        assert(data.remove(j).last() == data.last());
    }
}

/// A sum over files does not depend on the order in which they are listed.
pub proof fn lemma_sum_ignores_order(
    a: Seq<Metadatum>,
    b: Seq<Metadatum>,
    f: spec_fn(Metadatum) -> int,
)
    requires
        a.to_multiset() == b.to_multiset(),
    ensures
        sum_of(a, f) == sum_of(b, f),
    decreases a.len(),
{
    to_multiset_len(a);
    to_multiset_len(b);
    if a.len() > 0 {
        let x = a.last();
        assert(a[a.len() - 1] == x);
        assert(a.contains(x));
        to_multiset_contains(a, x);
        to_multiset_contains(b, x);
        let j = choose|j: int| 0 <= j < b.len() && b[j] == x;
        lemma_sum_remove(b, j, f);
        to_multiset_remove(a, a.len() - 1);
        to_multiset_remove(b, j);
        assert(a.remove(a.len() - 1) =~= a.drop_last());
        lemma_sum_ignores_order(a.drop_last(), b.remove(j), f);
    }
}

/// What a file adds to the room that the files take up.
pub open spec fn room_of(page_size: u64) -> spec_fn(Metadatum) -> int {
    |d: Metadatum| aligned(d.length as int, page_size as int)
}

proof fn lemma_total_aligned_is_sum(data: Seq<Metadatum>, page_size: u64)
    ensures
        total_aligned(data, page_size) == sum_of(data, room_of(page_size)),
    decreases data.len(),
{
    if data.len() > 0 {
        lemma_total_aligned_is_sum(data.drop_last(), page_size);
    }
}

/// The room that files take up does not depend on the order in which they
/// are listed.
pub proof fn lemma_total_aligned_ignores_order(
    a: Seq<Metadatum>,
    b: Seq<Metadatum>,
    page_size: u64,
)
    requires
        a.to_multiset() == b.to_multiset(),
    ensures
        total_aligned(a, page_size) == total_aligned(b, page_size),
{
    lemma_total_aligned_is_sum(a, page_size);
    lemma_total_aligned_is_sum(b, page_size);
    lemma_sum_ignores_order(a, b, room_of(page_size));
}

/// The build order lists the same files, sorted by path; where no two files
/// share a path, the paths grow strictly.
pub proof fn lemma_build_order(data: Seq<Metadatum>)
    ensures
        build_order(data).to_multiset() == data.to_multiset(),
        build_order(data).len() == data.len(),
        sorted_by(build_order(data), by_path()),
        names_distinct(data) ==> names_increase(build_order(data)),
{
    lemma_by_path_is_total_order();
    data.lemma_sort_by_ensures(by_path());
    to_multiset_len(data);
    to_multiset_len(build_order(data));
    if names_distinct(data) {
        let sorted = build_order(data);
        assert forall|i: int, j: int| 0 <= i < j < sorted.len() implies path_less(
            sorted[i].name,
            sorted[j].name,
        ) by {
            assert(by_path()(sorted[i], sorted[j]));
            if sorted[i].name == sorted[j].name {
                assert(sorted.contains(sorted[i]));
                assert(sorted.contains(sorted[j]));
                to_multiset_contains(sorted, sorted[i]);
                to_multiset_contains(sorted, sorted[j]);
                to_multiset_contains(data, sorted[i]);
                to_multiset_contains(data, sorted[j]);
                let a = choose|a: int| 0 <= a < data.len() && data[a] == sorted[i];
                let b = choose|b: int| 0 <= b < data.len() && data[b] == sorted[j];
                // One file of that path, so the sorted run holds it twice.
                assert(a == b);
                lemma_count_of_distinct(data, a);
                lemma_count_of_repeated(sorted, i, j);
            }
        }
    }
}

/// Among files of distinct paths each occurs once.
proof fn lemma_count_of_distinct(data: Seq<Metadatum>, a: int)
    requires
        names_distinct(data),
        0 <= a < data.len(),
    ensures
        data.to_multiset().count(data[a]) == 1,
{
    broadcast use vstd::multiset::group_multiset_axioms;

    let x = data[a];
    to_multiset_remove(data, a);
    let rest = data.remove(a);
    assert(!rest.contains(x)) by {
        if rest.contains(x) {
            let k = choose|k: int| 0 <= k < rest.len() && rest[k] == x;
            if k < a {
                assert(data[k].name == data[a].name);
            } else {
                assert(data[k + 1].name == data[a].name);
            }
        }
    }
    to_multiset_contains(rest, x);
    assert(data.contains(x));
    to_multiset_contains(data, x);
    assert(rest.to_multiset().count(x) == 0);
    assert(data.to_multiset().remove(x).count(x) == data.to_multiset().count(x) - 1);
}

/// A file that stands at two places occurs at least twice.
proof fn lemma_count_of_repeated(data: Seq<Metadatum>, i: int, j: int)
    requires
        0 <= i < j < data.len(),
        data[i] == data[j],
    ensures
        data.to_multiset().count(data[i]) >= 2,
{
    broadcast use vstd::multiset::group_multiset_axioms;

    let x = data[i];
    to_multiset_remove(data, j);
    let rest = data.remove(j);
    assert(rest[i] == x);
    assert(rest.contains(x));
    to_multiset_contains(rest, x);
    assert(data.contains(x));
    to_multiset_contains(data, x);
    assert(data.to_multiset().remove(x).count(x) == data.to_multiset().count(x) - 1);
}

} // verus!
