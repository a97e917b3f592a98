//! The ordered index: a `bplustree` tree from 128-bit keys to row documents.
//! This module names what a tree and a cursor hold and states, over those
//! names, what each tree operation used by the store does.

use crate::document::{doc_view, Entries};
use vstd::prelude::*;

verus! {

/// The number of entries that an inner node and a leaf of the index hold at
/// most.
pub const FAN_OUT: usize = 2000;

/// `bplustree::GenericBPlusTree`: an ordered map held as a B+-tree.
#[verifier::external_type_specification]
#[verifier::external_body]
#[verifier::reject_recursive_types(K)]
#[verifier::reject_recursive_types(V)]
pub struct ExGenericBPlusTree<K, V, const IC: usize, const LC: usize>(
    bplustree::GenericBPlusTree<K, V, IC, LC>,
);

/// `bplustree::iter::RawSharedIter`: a cursor over such a tree.
#[verifier::external_type_specification]
#[verifier::external_body]
#[verifier::reject_recursive_types(K)]
#[verifier::reject_recursive_types(V)]
pub struct ExRawSharedIter<'t, K, V, const IC: usize, const LC: usize>(
    bplustree::iter::RawSharedIter<'t, K, V, IC, LC>,
);

/// The index of the store.
pub type RowTree = bplustree::GenericBPlusTree<u128, bson::Document, FAN_OUT, FAN_OUT>;

/// A cursor over the index.
pub type RowCursor<'t> = bplustree::iter::RawSharedIter<'t, u128, bson::Document, FAN_OUT, FAN_OUT>;

/// The rows that a tree holds: for each key, the entries of its document.
pub uninterp spec fn tree_rows(t: RowTree) -> Map<u128, Entries>;

/// The rows of the tree that a cursor walks.
pub uninterp spec fn cursor_rows(c: RowCursor<'_>) -> Map<u128, Entries>;

/// The records that a cursor has yet to yield, in the order in which it
/// yields them.
pub uninterp spec fn cursor_rest(c: RowCursor<'_>) -> Seq<(u128, Entries)>;

/// The map without rows.
pub open spec fn no_rows() -> Map<u128, Entries> {
    Map::empty()
}

/// Whether `records` lists, in strictly ascending order of key, exactly the
/// rows whose key lies between `lo` and `hi`, both included.
pub open spec fn lists_between(
    records: Seq<(u128, Entries)>,
    rows: Map<u128, Entries>,
    lo: u128,
    hi: u128,
) -> bool {
    &&& forall|i: int|
        0 <= i < records.len() ==> {
            &&& lo <= (#[trigger] records[i]).0 <= hi
            &&& rows.contains_key(records[i].0)
            &&& rows[records[i].0] == records[i].1
        }
    &&& forall|i: int, j: int|
        0 <= i < j < records.len() ==> (#[trigger] records[i]).0 < (#[trigger] records[j]).0
    &&& forall|k: u128|
        #[trigger] rows.contains_key(k) && lo <= k <= hi ==> exists|i: int|
            0 <= i < records.len() && (#[trigger] records[i]).0 == k
}

/// The rows whose key lies between `lo` and `hi`, both included, in strictly
/// ascending order of key.
pub open spec fn records_between(rows: Map<u128, Entries>, lo: u128, hi: u128) -> Seq<(u128, Entries)> {
    choose|records: Seq<(u128, Entries)>| lists_between(records, rows, lo, hi)
}

/// All rows, in strictly ascending order of key.
pub open spec fn all_records(rows: Map<u128, Entries>) -> Seq<(u128, Entries)> {
    records_between(rows, 0, u128::MAX)
}

/// Two listings of the same rows agree on the keys of their first `n`
/// records.
proof fn lemma_listings_agree(
    a: Seq<(u128, Entries)>,
    b: Seq<(u128, Entries)>,
    rows: Map<u128, Entries>,
    lo: u128,
    hi: u128,
    n: int,
)
    requires
        lists_between(a, rows, lo, hi),
        lists_between(b, rows, lo, hi),
        0 <= n <= a.len(),
        n <= b.len(),
    ensures
        forall|i: int| 0 <= i < n ==> (#[trigger] a[i]).0 == b[i].0,
    decreases n,
{
    if n > 0 {
        lemma_listings_agree(a, b, rows, lo, hi, n - 1);
        let i = n - 1;
        let ka = a[i].0;
        let kb = b[i].0;
        assert(rows.contains_key(ka));
        let j = choose|j: int| 0 <= j < b.len() && (#[trigger] b[j]).0 == ka;
        assert(rows.contains_key(kb));
        let m = choose|m: int| 0 <= m < a.len() && (#[trigger] a[m]).0 == kb;
        if j < i {
            assert(a[j].0 == b[j].0);
            assert(a[j].0 < a[i].0);
        }
        if m < i {
            assert(a[m].0 == b[m].0);
            assert(b[m].0 < b[i].0);
        }
        if j > i {
            assert(b[i].0 < b[j].0);
            if m > i {
                assert(a[i].0 < a[m].0);
            }
        }
    }
}

/// The rows in a range have one listing only.
pub proof fn lemma_listing_unique(
    a: Seq<(u128, Entries)>,
    b: Seq<(u128, Entries)>,
    rows: Map<u128, Entries>,
    lo: u128,
    hi: u128,
)
    requires
        lists_between(a, rows, lo, hi),
        lists_between(b, rows, lo, hi),
    ensures
        a == b,
{
    if a.len() <= b.len() {
        lemma_listings_agree(a, b, rows, lo, hi, a.len() as int);
        if a.len() < b.len() {
            let k = b[a.len() as int].0;
            assert(rows.contains_key(k));
            let m = choose|m: int| 0 <= m < a.len() && (#[trigger] a[m]).0 == k;
            assert(a[m].0 == b[m].0);
            assert(b[m].0 < b[a.len() as int].0);
        }
    } else {
        lemma_listings_agree(a, b, rows, lo, hi, b.len() as int);
        let k = a[b.len() as int].0;
        assert(rows.contains_key(k));
        let j = choose|j: int| 0 <= j < b.len() && (#[trigger] b[j]).0 == k;
        assert(a[j].0 == b[j].0);
        assert(a[j].0 < a[b.len() as int].0);
    }
    assert(a.len() == b.len());
    assert forall|i: int| 0 <= i < a.len() implies a[i] == b[i] by {
        lemma_listings_agree(a, b, rows, lo, hi, a.len() as int);
        assert(a[i].0 == b[i].0);
        assert(rows[a[i].0] == a[i].1);
        assert(rows[b[i].0] == b[i].1);
    }
    assert(a =~= b);
}

/// A listing of the rows in a range is the listing of that range.
pub proof fn lemma_listing_is_records(
    records: Seq<(u128, Entries)>,
    rows: Map<u128, Entries>,
    lo: u128,
    hi: u128,
)
    requires
        lists_between(records, rows, lo, hi),
    ensures
        records == records_between(rows, lo, hi),
{
    lemma_listing_unique(records, records_between(rows, lo, hi), rows, lo, hi);
}

/// A finite, non-empty set of keys has a greatest one.
pub proof fn lemma_greatest_key(keys: Set<u128>)
    requires
        keys.finite(),
        keys.len() > 0,
    ensures
        exists|m: u128| keys.contains(m) && forall|k: u128| keys.contains(k) ==> k <= m,
    decreases keys.len(),
{
    let x = keys.choose();
    if keys.len() == 1 {
        assert forall|k: u128| keys.contains(k) implies k <= x by {
            if k != x {
                assert(keys.remove(x).contains(k));
                assert(keys.remove(x).len() == 0);
            }
        }
    } else {
        let rest = keys.remove(x);
        lemma_greatest_key(rest);
        let m0 = choose|m: u128| rest.contains(m) && forall|k: u128| rest.contains(k) ==> k <= m;
        let m = if x > m0 { x } else { m0 };
        assert forall|k: u128| keys.contains(k) implies k <= m by {
            if k != x {
                assert(rest.contains(k));
            }
        }
        assert(keys.contains(m));
    }
}

/// Finitely many rows have a listing in every range.
pub proof fn lemma_listing_exists(rows: Map<u128, Entries>, lo: u128, hi: u128)
    requires
        rows.dom().finite(),
    ensures
        lists_between(records_between(rows, lo, hi), rows, lo, hi),
    decreases rows.dom().len(),
{
    if rows.dom().len() == 0 {
        let none: Seq<(u128, Entries)> = Seq::empty();
        assert forall|k: u128| #[trigger] rows.contains_key(k) && lo <= k <= hi implies exists|i: int|
            0 <= i < none.len() && (#[trigger] none[i]).0 == k by {
            assert(rows.dom().contains(k));
        }
        assert(lists_between(none, rows, lo, hi));
    } else {
        lemma_greatest_key(rows.dom());
        let m = choose|m: u128|
            rows.dom().contains(m) && forall|k: u128| rows.dom().contains(k) ==> k <= m;
        let fewer = rows.remove(m);
        lemma_listing_exists(fewer, lo, hi);
        let before = records_between(fewer, lo, hi);
        let records = if lo <= m <= hi {
            before.push((m, rows[m]))
        } else {
            before
        };
        assert forall|i: int| 0 <= i < before.len() implies (#[trigger] before[i]).0 < m
            && rows.contains_key(before[i].0) && rows[before[i].0] == before[i].1 by {
            assert(fewer.contains_key(before[i].0));
            assert(rows.dom().contains(before[i].0));
        }
        assert forall|k: u128| #[trigger] rows.contains_key(k) && lo <= k <= hi implies exists|i: int|
            0 <= i < records.len() && (#[trigger] records[i]).0 == k by {
            if k == m {
                assert(records[before.len() as int].0 == k);
            } else {
                assert(fewer.contains_key(k));
                let i = choose|i: int| 0 <= i < before.len() && (#[trigger] before[i]).0 == k;
                assert(records[i].0 == k);
            }
        }
        assert(lists_between(records, rows, lo, hi));
    }
}

/// The records that a cursor placed at `lo` has yielded, up to the first one
/// beyond `hi` or to the end, are the rows between `lo` and `hi`.
pub proof fn lemma_taken_is_range(
    all: Seq<(u128, Entries)>,
    taken: Seq<(u128, Entries)>,
    rest: Seq<(u128, Entries)>,
    rows: Map<u128, Entries>,
    lo: u128,
    hi: u128,
)
    requires
        lists_between(all, rows, lo, u128::MAX),
        all == taken + rest,
        forall|i: int| 0 <= i < taken.len() ==> (#[trigger] taken[i]).0 <= hi,
        rest.len() > 0 ==> rest[0].0 > hi,
    ensures
        taken == records_between(rows, lo, hi),
        lists_between(taken, rows, lo, hi),
{
    assert forall|i: int| 0 <= i < taken.len() implies {
        &&& lo <= (#[trigger] taken[i]).0 <= hi
        &&& rows.contains_key(taken[i].0)
        &&& rows[taken[i].0] == taken[i].1
    } by {
        assert(all[i] == taken[i]);
    }
    assert forall|i: int, j: int| 0 <= i < j < taken.len() implies (#[trigger] taken[i]).0 < (
    #[trigger] taken[j]).0 by {
        assert(all[i] == taken[i]);
        assert(all[j] == taken[j]);
    }
    assert forall|k: u128| #[trigger] rows.contains_key(k) && lo <= k <= hi implies exists|i: int|
        0 <= i < taken.len() && (#[trigger] taken[i]).0 == k by {
        let i = choose|i: int| 0 <= i < all.len() && (#[trigger] all[i]).0 == k;
        if i >= taken.len() {
            assert(all[taken.len() as int] == rest[0]);
            if i > taken.len() {
                assert(all[taken.len() as int].0 < all[i].0);
            }
        } else {
            assert(all[i] == taken[i]);
        }
    }
    lemma_listing_is_records(taken, rows, lo, hi);
}

/// `GenericBPlusTree::new`: a tree without rows.
#[verifier::external_body]
pub(crate) fn tree_new() -> (t: RowTree)
    ensures
        tree_rows(t) == no_rows(),
{
    bplustree::GenericBPlusTree::new()
}

/// `GenericBPlusTree::insert`: sets the row at `key`, and returns the row that
/// was there.
#[verifier::external_body]
pub(crate) fn tree_insert(t: &mut RowTree, key: u128, row: bson::Document) -> (prev: Option<bson::Document>)
    ensures
        tree_rows(*final(t)) == tree_rows(*old(t)).insert(key, doc_view(row)),
        match prev {
            Some(d) => tree_rows(*old(t)).contains_key(key) && doc_view(d) == tree_rows(*old(t))[key],
            None => !tree_rows(*old(t)).contains_key(key),
        },
{
    t.insert(key, row)
}

/// `GenericBPlusTree::lookup` with a closure that clones: a copy of the row at
/// `key`.
#[verifier::external_body]
pub(crate) fn tree_lookup(t: &RowTree, key: u128) -> (r: Option<bson::Document>)
    ensures
        match r {
            Some(d) => tree_rows(*t).contains_key(key) && doc_view(d) == tree_rows(*t)[key],
            None => !tree_rows(*t).contains_key(key),
        },
{
    t.lookup(&key, |row| row.clone())
}

/// Whether the tree holds a row at `key`.
pub fn tree_contains(t: &RowTree, key: u128) -> (r: bool)
    ensures
        r == tree_rows(*t).contains_key(key),
{
    tree_lookup(t, key).is_some()
}

/// `GenericBPlusTree::remove`: takes the row at `key` out of the tree and
/// returns it; a tree without that key stays as it is.
#[verifier::external_body]
pub(crate) fn tree_remove(t: &mut RowTree, key: u128) -> (r: Option<bson::Document>)
    ensures
        tree_rows(*final(t)) == tree_rows(*old(t)).remove(key),
        match r {
            Some(d) => tree_rows(*old(t)).contains_key(key) && doc_view(d) == tree_rows(*old(t))[key],
            None => !tree_rows(*old(t)).contains_key(key),
        },
{
    t.remove(&key)
}

/// `GenericBPlusTree::len`: the number of rows.
#[verifier::external_body]
pub(crate) fn tree_len(t: &RowTree) -> (n: usize)
    ensures
        n == tree_rows(*t).len(),
{
    t.len()
}

/// `GenericBPlusTree::raw_iter`: a cursor over the tree that is not yet
/// placed, and so has nothing to yield.
#[verifier::external_body]
pub(crate) fn tree_cursor<'t>(t: &'t RowTree) -> (c: RowCursor<'t>)
    ensures
        cursor_rows(c) == tree_rows(*t),
        cursor_rest(c).len() == 0,
{
    t.raw_iter()
}

/// `RawSharedIter::seek`: places the cursor before the least key that is at
/// least `key`.
#[verifier::external_body]
pub(crate) fn cursor_seek(c: &mut RowCursor<'_>, key: u128)
    ensures
        cursor_rows(*final(c)) == cursor_rows(*old(c)),
        lists_between(cursor_rest(*final(c)), cursor_rows(*old(c)), key, u128::MAX),
{
    c.seek(&key);
}

/// `RawSharedIter::next`: yields the next record, as its key and a copy of its
/// row, and moves past it; `None` once nothing is left.
#[verifier::external_body]
pub(crate) fn cursor_next(c: &mut RowCursor<'_>) -> (r: Option<(u128, bson::Document)>)
    ensures
        cursor_rows(*final(c)) == cursor_rows(*old(c)),
        match r {
            Some(record) => {
                &&& cursor_rest(*old(c)).len() > 0
                &&& record.0 == cursor_rest(*old(c))[0].0
                &&& doc_view(record.1) == cursor_rest(*old(c))[0].1
                &&& cursor_rest(*final(c)) == cursor_rest(*old(c)).drop_first()
            },
            None => cursor_rest(*old(c)).len() == 0 && cursor_rest(*final(c)).len() == 0,
        },
{
    c.next().map(|(key, row)| (*key, row.clone()))
}

} // verus!
