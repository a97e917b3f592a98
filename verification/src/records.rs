//! Lists of records in ascending order of key: where a key stands, and what a
//! list is after a record is put in or taken out.

use crate::document::Entries;
use vstd::prelude::*;

verus! {

/// A list of records: each a key with the entries of its document.
pub type Records = Seq<(u128, Entries)>;

/// Whether the keys of the records ascend strictly.
pub open spec fn ascending(records: Records) -> bool {
    forall|i: int, j: int| 0 <= i < j < records.len() ==> records[i].0 < records[j].0
}

/// Whether every key lies between `lo`, included, and `hi`, not included.
pub open spec fn within(records: Records, lo: int, hi: int) -> bool {
    forall|i: int| 0 <= i < records.len() ==> lo <= (#[trigger] records[i]).0 < hi
}

/// The number of records before the first one whose key is not below `key`.
pub open spec fn rank(records: Records, key: u128) -> int
    decreases records.len(),
{
    if records.len() == 0 {
        0
    } else if records[0].0 >= key {
        0
    } else {
        1 + rank(records.drop_first(), key)
    }
}

/// What pins `rank` down.
pub proof fn lemma_rank(records: Records, key: u128)
    ensures
        0 <= rank(records, key) <= records.len(),
        forall|j: int| 0 <= j < rank(records, key) ==> (#[trigger] records[j]).0 < key,
        rank(records, key) < records.len() ==> records[rank(records, key)].0 >= key,
    decreases records.len(),
{
    if records.len() > 0 && records[0].0 < key {
        let rest = records.drop_first();
        lemma_rank(rest, key);
        assert forall|j: int| 0 <= j < rank(records, key) implies (#[trigger] records[j]).0 < key by {
            if j > 0 {
                assert(records[j] == rest[j - 1]);
            }
        }
    }
}

/// The only position with the properties of `lemma_rank`.
pub proof fn lemma_rank_is(records: Records, key: u128, p: int)
    requires
        0 <= p <= records.len(),
        forall|j: int| 0 <= j < p ==> (#[trigger] records[j]).0 < key,
        p < records.len() ==> records[p].0 >= key,
    ensures
        rank(records, key) == p,
{
    lemma_rank(records, key);
    let r = rank(records, key);
    if r < p {
        assert(records[r].0 < key);
    }
    if p < r {
        assert(records[p].0 < key);
    }
}

/// Whether a record has the key.
pub open spec fn holds(records: Records, key: u128) -> bool {
    rank(records, key) < records.len() && records[rank(records, key)].0 == key
}

/// The entries of the record with the key.
pub open spec fn found(records: Records, key: u128) -> Option<Entries> {
    if holds(records, key) {
        Some(records[rank(records, key)].1)
    } else {
        None
    }
}

/// The records after `row` is put at `key`: in the place of the record with
/// that key, or, where there is none, where the order puts it.
pub open spec fn put(records: Records, key: u128, row: Entries) -> Records {
    if holds(records, key) {
        records.update(rank(records, key), (key, row))
    } else {
        records.insert(rank(records, key), (key, row))
    }
}

/// The records without the one that has the key.
pub open spec fn without(records: Records, key: u128) -> Records {
    if holds(records, key) {
        records.remove(rank(records, key))
    } else {
        records
    }
}

/// Between records with smaller keys and records with greater keys, a key
/// stands where it stands in the middle part.
pub proof fn lemma_rank_middle(a: Records, x: Records, b: Records, key: u128)
    requires
        forall|i: int| 0 <= i < a.len() ==> (#[trigger] a[i]).0 < key,
        forall|i: int| 0 <= i < b.len() ==> (#[trigger] b[i]).0 > key,
    ensures
        rank(a + x + b, key) == a.len() + rank(x, key),
        holds(a + x + b, key) == holds(x, key),
        found(a + x + b, key) == found(x, key),
{
    lemma_rank(x, key);
    let whole = a + x + b;
    let p = a.len() + rank(x, key);
    assert forall|j: int| 0 <= j < p implies (#[trigger] whole[j]).0 < key by {
        if j >= a.len() {
            assert(whole[j] == x[j - a.len()]);
        } else {
            assert(whole[j] == a[j]);
        }
    }
    if p < whole.len() {
        if rank(x, key) < x.len() {
            assert(whole[p] == x[rank(x, key)]);
        } else {
            assert(whole[p] == b[0]);
        }
    }
    lemma_rank_is(whole, key, p);
    if rank(x, key) < x.len() {
        assert(whole[p] == x[rank(x, key)]);
    } else if p < whole.len() {
        assert(whole[p] == b[0]);
    }
}

/// Putting a record between records with smaller keys and records with
/// greater keys puts it into the middle part.
pub proof fn lemma_put_middle(a: Records, x: Records, b: Records, key: u128, row: Entries)
    requires
        forall|i: int| 0 <= i < a.len() ==> (#[trigger] a[i]).0 < key,
        forall|i: int| 0 <= i < b.len() ==> (#[trigger] b[i]).0 > key,
    ensures
        put(a + x + b, key, row) == a + put(x, key, row) + b,
{
    lemma_rank_middle(a, x, b, key);
    lemma_rank(x, key);
    assert(put(a + x + b, key, row) =~= a + put(x, key, row) + b);
}

/// Taking a record out from between records with smaller keys and records
/// with greater keys takes it out of the middle part.
pub proof fn lemma_without_middle(a: Records, x: Records, b: Records, key: u128)
    requires
        forall|i: int| 0 <= i < a.len() ==> (#[trigger] a[i]).0 < key,
        forall|i: int| 0 <= i < b.len() ==> (#[trigger] b[i]).0 > key,
    ensures
        without(a + x + b, key) == a + without(x, key) + b,
{
    lemma_rank_middle(a, x, b, key);
    lemma_rank(x, key);
    assert(without(a + x + b, key) =~= a + without(x, key) + b);
}

/// The records whose key lies between `lo` and `hi`, both included, in the
/// order of the list.
pub open spec fn between(records: Records, lo: u128, hi: u128) -> Records
    decreases records.len(),
{
    if records.len() == 0 {
        Seq::empty()
    } else {
        let before = between(records.drop_last(), lo, hi);
        if lo <= records.last().0 <= hi {
            before.push(records.last())
        } else {
            before
        }
    }
}

/// The records in a range of two lists, one after the other, are those of
/// the first followed by those of the second.
pub proof fn lemma_between_append(a: Records, b: Records, lo: u128, hi: u128)
    ensures
        between(a + b, lo, hi) == between(a, lo, hi) + between(b, lo, hi),
    decreases b.len(),
{
    if b.len() == 0 {
        assert(a + b =~= a);
        assert(between(a, lo, hi) + between(b, lo, hi) =~= between(a, lo, hi));
    } else {
        lemma_between_append(a, b.drop_last(), lo, hi);
        assert((a + b).drop_last() =~= a + b.drop_last());
        assert((a + b).last() == b.last());
        if lo <= b.last().0 <= hi {
            assert(between(a, lo, hi) + between(b.drop_last(), lo, hi).push(b.last()) =~= (between(
                a,
                lo,
                hi,
            ) + between(b.drop_last(), lo, hi)).push(b.last()));
        }
    }
}

/// In an ascending list, a record stands after every record before it.
proof fn lemma_rank_order(r: Records, k: u128, j: u128)
    requires
        ascending(r),
        k <= j,
    ensures
        rank(r, k) <= rank(r, j),
{
    lemma_rank(r, k);
    lemma_rank(r, j);
    let p = rank(r, k);
    let q = rank(r, j);
    if q < p {
        assert(r[q].0 < k);
    }
}

/// Putting a record into an ascending list leaves it ascending. Afterwards
/// the key leads to the new entries, and every other key to what it led to
/// before.
pub proof fn law_put(r: Records, k: u128, v: Entries, j: u128)
    requires
        ascending(r),
    ensures
        ascending(put(r, k, v)),
        found(put(r, k, v), j) == if j == k {
            Some(v)
        } else {
            found(r, j)
        },
        put(r, k, v).len() == if holds(r, k) {
            r.len()
        } else {
            r.len() + 1
        },
{
    lemma_rank(r, k);
    lemma_rank(r, j);
    let p = rank(r, k);
    let q = rank(r, j);
    let n = put(r, k, v);
    if holds(r, k) {
        assert forall|a: int, b: int| 0 <= a < b < n.len() implies n[a].0 < n[b].0 by {
            assert(r[a].0 < r[b].0);
        }
        assert forall|i: int| 0 <= i < q implies (#[trigger] n[i]).0 < j by {
            assert(r[i].0 < j);
        }
        lemma_rank_is(n, j, q);
        if j == k && q != p {
            if q < p {
                assert(r[q].0 < k);
            } else {
                assert(r[p].0 < j);
            }
        }
    } else {
        assert forall|a: int, b: int| 0 <= a < b < n.len() implies n[a].0 < n[b].0 by {
            let a0 = if a < p { a } else { a - 1 };
            let b0 = if b < p { b } else { b - 1 };
            if a != p && b != p {
                assert(r[a0].0 < r[b0].0);
            } else if a == p {
                assert(r[p].0 >= k);
                if b0 > p {
                    assert(r[p].0 < r[b0].0);
                }
            } else {
                assert(r[a].0 < k);
            }
        }
        if j <= k {
            lemma_rank_order(r, j, k);
            assert forall|i: int| 0 <= i < q implies (#[trigger] n[i]).0 < j by {
                assert(n[i] == r[i]);
            }
            if q < p {
                assert(n[q] == r[q]);
            }
            lemma_rank_is(n, j, q);
        } else {
            lemma_rank_order(r, k, j);
            assert forall|i: int| 0 <= i < q + 1 implies (#[trigger] n[i]).0 < j by {
                if i < p {
                    assert(n[i] == r[i]);
                    assert(r[i].0 < k);
                } else if i > p {
                    assert(n[i] == r[i - 1]);
                    assert(r[i - 1].0 < j);
                }
            }
            if q + 1 < n.len() {
                assert(n[q + 1] == r[q]);
            }
            lemma_rank_is(n, j, q + 1);
        }
    }
}

/// Taking a record out of an ascending list leaves it ascending. Afterwards
/// the key leads to nothing, and every other key to what it led to before.
pub proof fn law_without(r: Records, k: u128, j: u128)
    requires
        ascending(r),
    ensures
        ascending(without(r, k)),
        found(without(r, k), j) == if j == k {
            None
        } else {
            found(r, j)
        },
        holds(r, k) ==> without(r, k).len() + 1 == r.len(),
        !holds(r, k) ==> without(r, k) == r,
{
    lemma_rank(r, k);
    lemma_rank(r, j);
    let p = rank(r, k);
    let q = rank(r, j);
    let n = without(r, k);
    if holds(r, k) {
        assert forall|a: int, b: int| 0 <= a < b < n.len() implies n[a].0 < n[b].0 by {
            let a0 = if a < p { a } else { a + 1 };
            let b0 = if b < p { b } else { b + 1 };
            assert(r[a0].0 < r[b0].0);
        }
        if j <= k {
            lemma_rank_order(r, j, k);
            assert forall|i: int| 0 <= i < q implies (#[trigger] n[i]).0 < j by {
                assert(n[i] == r[i]);
            }
            if q < n.len() {
                if q < p {
                    assert(n[q] == r[q]);
                } else {
                    assert(n[q] == r[q + 1]);
                    assert(r[p].0 < r[q + 1].0);
                }
            }
            lemma_rank_is(n, j, q);
        } else {
            lemma_rank_order(r, k, j);
            if q == p {
                assert(r[p].0 >= j);
            }
            assert forall|i: int| 0 <= i < q - 1 implies (#[trigger] n[i]).0 < j by {
                if i < p {
                    assert(n[i] == r[i]);
                } else {
                    assert(n[i] == r[i + 1]);
                }
            }
            if q - 1 < n.len() {
                assert(n[q - 1] == r[q]);
            }
            lemma_rank_is(n, j, q - 1);
        }
    }
}

} // verus!
