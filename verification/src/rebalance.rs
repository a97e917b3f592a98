//! Repair of a node that has come to hold too few keys: it borrows a key
//! from the sibling to its right or to its left, or is merged with one of
//! them. The parent holds both nodes and the separator between them.

use crate::bptree::{
    all_records_of, lemma_records_of_append, lemma_records_of_one,
    lemma_replace_by_one, lemma_replace_pair, lower_bound, upper_bound, Node,
};
use crate::bptree::{lemma_node_cut, lemma_node_parts};
use crate::document::doc_view;
use crate::records::{found, lemma_rank_middle, lemma_without_middle, without};
use crate::tree::{key_limit, lemma_leaf_found, BPlusTree};
use vstd::prelude::*;

verus! {

/// The ways in which a node that holds one key too few is repaired.
pub enum Repair {
    /// It borrows from the sibling to its right.
    BorrowRight,
    /// It borrows from the sibling to its left.
    BorrowLeft,
    /// It is merged with the sibling to its right.
    MergeRight,
    /// It is merged into the sibling to its left.
    MergeLeft,
}

/// The repair that child `i` gets: it borrows from the right sibling where
/// that one has a key to spare, else from the left one where that one has;
/// else it is merged with the right sibling where there is one, else with the
/// left one.
pub open spec fn repair_for(parent: Node, i: int, min: int) -> Repair {
    if i + 1 < parent.children@.len() && parent.children@[i + 1].keys@.len() > min {
        Repair::BorrowRight
    } else if i > 0 && parent.children@[i - 1].keys@.len() > min {
        Repair::BorrowLeft
    } else if i + 1 < parent.children@.len() {
        Repair::MergeRight
    } else {
        Repair::MergeLeft
    }
}

/// Whether `after` has the children of `before` but for children `p` and
/// `p + 1`.
pub open spec fn others_kept(before: Node, after: Node, p: int) -> bool {
    &&& after.children@.len() == before.children@.len()
    &&& forall|j: int|
        0 <= j < before.children@.len() && j != p && j != p + 1 ==> after.children@[j]
            == before.children@[j]
}

/// Whether `after` is `before` once child `i` has borrowed from child
/// `i + 1`. A leaf takes the least record of the right leaf, and the
/// separator becomes the next key of the right leaf. An inner node takes the
/// separator and the first child of the right node, and the separator becomes
/// the least key of the right node.
pub open spec fn borrowed_right(before: Node, after: Node, i: int) -> bool {
    let a = before.children@[i];
    let b = before.children@[i + 1];
    let x = after.children@[i];
    let y = after.children@[i + 1];
    &&& others_kept(before, after, i)
    &&& y.keys@ == b.keys@.remove(0)
    &&& if a.is_leaf {
        &&& x.keys@ == a.keys@.push(b.keys@[0])
        &&& x.values@ == a.values@.push(b.values@[0])
        &&& y.values@ == b.values@.remove(0)
        &&& after.keys@ == before.keys@.update(i, b.keys@[1])
    } else {
        &&& x.keys@ == a.keys@.push(before.keys@[i])
        &&& x.children@ == a.children@.push(b.children@[0])
        &&& y.children@ == b.children@.remove(0)
        &&& after.keys@ == before.keys@.update(i, b.keys@[0])
    }
}

/// Whether `after` is `before` once child `i` has borrowed from child
/// `i - 1`. A leaf takes the greatest record of the left leaf, whose key
/// becomes the separator. An inner node takes the separator and the last
/// child of the left node, and the separator becomes the greatest key of the
/// left node.
pub open spec fn borrowed_left(before: Node, after: Node, i: int) -> bool {
    let a = before.children@[i - 1];
    let b = before.children@[i];
    let x = after.children@[i - 1];
    let y = after.children@[i];
    let last = a.keys@.len() - 1;
    &&& others_kept(before, after, i - 1)
    &&& x.keys@ == a.keys@.remove(last)
    &&& after.keys@ == before.keys@.update(i - 1, a.keys@[last])
    &&& if b.is_leaf {
        &&& y.keys@ == b.keys@.insert(0, a.keys@[last])
        &&& y.values@ == b.values@.insert(0, a.values@[last])
        &&& x.values@ == a.values@.remove(last)
    } else {
        &&& y.keys@ == b.keys@.insert(0, before.keys@[i - 1])
        &&& y.children@ == b.children@.insert(0, a.children@[last + 1])
        &&& x.children@ == a.children@.remove(last + 1)
    }
}

/// Whether `after` is `before` once children `p` and `p + 1` are one node:
/// the separator between them has left the parent, the merged node stands in
/// the place of the left one and holds the keys of both, with the separator
/// between them where the two are inner nodes.
pub open spec fn merged_pair(before: Node, after: Node, p: int) -> bool {
    let a = before.children@[p];
    let b = before.children@[p + 1];
    let m = after.children@[p];
    &&& after.keys@ == before.keys@.remove(p)
    &&& after.children@.len() == before.children@.len() - 1
    &&& forall|j: int| 0 <= j < p ==> after.children@[j] == before.children@[j]
    &&& forall|j: int|
        p < j < after.children@.len() ==> after.children@[j] == before.children@[j + 1]
    &&& if a.is_leaf {
        &&& m.keys@ == a.keys@ + b.keys@
        &&& m.values@ == a.values@ + b.values@
    } else {
        &&& m.keys@ == a.keys@.push(before.keys@[p]) + b.keys@
        &&& m.children@ == a.children@ + b.children@
    }
}

/// Whether `after` is `before` once child `i`, which held one key too few,
/// got the repair that is its due.
pub open spec fn repaired(before: Node, after: Node, i: int, min: int) -> bool {
    match repair_for(before, i, min) {
        Repair::BorrowRight => borrowed_right(before, after, i),
        Repair::BorrowLeft => borrowed_left(before, after, i),
        Repair::MergeRight => merged_pair(before, after, i),
        Repair::MergeLeft => merged_pair(before, after, i - 1),
    }
}

/// Whether `mid` is `before` once the record at `key` has left child `i`:
/// the child is of the same kind and holds one key fewer where it lost one;
/// nothing else differs.
pub open spec fn child_shrunk(before: Node, mid: Node, i: int, key: u128, min: int) -> bool {
    &&& mid.is_leaf == before.is_leaf
    &&& mid.keys@ == before.keys@
    &&& mid.children@.len() == before.children@.len()
    &&& forall|j: int|
        0 <= j < before.children@.len() && j != i ==> mid.children@[j] == before.children@[j]
    &&& mid.children@[i].is_leaf == before.children@[i].is_leaf
    &&& mid.children@[i].keys@.len() == before.children@[i].keys@.len() - if loses_key(
        before.children@[i],
        key,
        min,
    ) {
        1int
    } else {
        0int
    }
}

/// Whether `after` is `before` once the record at `key` has left the child
/// that the key belongs to and that child, where it came to hold too few
/// keys, was repaired.
pub open spec fn removed_below(before: Node, after: Node, key: u128, min: int) -> bool {
    exists|mid: Node| #[trigger]
        child_shrunk(before, mid, before.child_position(key), key, min) && if mid.children@[before.child_position(
            key,
        )].keys@.len() < min {
            repaired(mid, after, before.child_position(key), min)
        } else {
            after == mid
        }
}

/// Whether taking the record at `key` out from under a node takes a key from
/// the node itself: from a leaf, where it holds the key; from an inner node,
/// where the child that the key belongs to holds no more keys than it must
/// and loses one, and no sibling has a key to spare, so that the child is
/// merged.
pub open spec fn loses_key(node: Node, key: u128, min: int) -> bool
    decreases node,
{
    if node.is_leaf {
        node.keys@.contains(key)
    } else {
        let i = node.child_position(key);
        &&& 0 <= i < node.children@.len()
        &&& node.children@[i].keys@.len() == min
        &&& loses_key(node.children@[i], key, min)
        &&& (repair_for(node, i, min) is MergeRight || repair_for(node, i, min) is MergeLeft)
    }
}

impl BPlusTree {
    /// Whether taking the record at `key` out makes the tree one level
    /// shallower: whether the root is an inner node with one key and loses
    /// it, so that its two children become one.
    pub open spec fn shrinks_on(self, key: u128) -> bool {
        !self.root.is_leaf && self.root.keys@.len() == 1 && loses_key(
            self.root,
            key,
            self.min_capacity as int,
        )
    }

    /// Moves the least record of the leaf after leaf `i` to the end of leaf
    /// `i`. The separator between the two becomes the new least key of the
    /// right leaf.
    pub fn borrow_key_from_right_leaf(
        parent: &mut Node,
        i: usize,
        Ghost(lo): Ghost<int>,
        Ghost(hi): Ghost<int>,
        Ghost(height): Ghost<nat>,
        Ghost(min): Ghost<int>,
        Ghost(max): Ghost<int>,
    )
        requires
            old(parent).wf_but(lo, hi, height, min, max, i as int),
            i + 1 < old(parent).children@.len(),
            height == 1,
            min >= 1,
            old(parent).children@[i as int].keys@.len() + 1 == min,
            old(parent).children@[i + 1].keys@.len() > min,
        ensures
            final(parent).wf(lo, hi, height, min, max),
            final(parent).records() == old(parent).records(),
            final(parent).keys@.len() == old(parent).keys@.len(),
            borrowed_right(*old(parent), *final(parent), i as int),
    {
        let ghost before = *parent;
        let ghost node0 = parent.children@[i as int];
        let ghost right0 = parent.children@[i + 1];
        let ghost clo = lower_bound(parent.keys@, lo, i as int);
        let ghost chi = upper_bound(parent.keys@, hi, i + 1);
        proof {
            assert(node0.wf(clo, upper_bound(parent.keys@, hi, i as int), 0, min, max));
            assert(right0.wf(lower_bound(parent.keys@, lo, i + 1), chi, 0, min, max));
        }
        assert(i + 1 < parent.children.len());
        let mut right = parent.children.remove(i + 1);
        let mut node = parent.children.remove(i);
        let k = right.keys.remove(0);
        let v = right.values.remove(0);
        node.keys.push(k);
        node.values.push(v);
        let sep = right.keys[0];
        parent.keys[i] = sep;
        proof {
            let s = before.keys@[i as int];
            assert(right0.keys@[0] < right0.keys@[1]);
            assert(lower_bound(before.keys@, lo, i + 1) <= right0.keys@[0]);
            assert(right0.keys@[1] < chi);
            assert forall|a: int, b: int| 0 <= a < b < node.keys@.len() implies node.keys@[a] < node.keys@[b] by {
                if b == node0.keys@.len() {
                    assert(node0.keys@[a] < s);
                } else {
                    assert(node0.keys@[a] < node0.keys@[b]);
                }
            }
            assert forall|j: int| 0 <= j < node.keys@.len() implies clo <= #[trigger] node.keys@[j] < sep by {
                if j < node0.keys@.len() {
                    assert(clo <= node0.keys@[j] < s);
                }
            }
            if node0.keys@.len() > 0 {
                assert(clo <= node0.keys@[0]);
            }
            assert forall|a: int, b: int| 0 <= a < b < right.keys@.len() implies right.keys@[a] < right.keys@[b] by {
                assert(right0.keys@[a + 1] < right0.keys@[b + 1]);
            }
            assert forall|j: int| 0 <= j < right.keys@.len() implies sep <= #[trigger] right.keys@[j] < chi by {
                assert(right0.keys@[j + 1] < chi);
                if j > 0 {
                    assert(right0.keys@[1] < right0.keys@[j + 1]);
                }
            }
            assert(node.records() + right.records() =~= node0.records() + right0.records());
        }
        parent.children.insert(i, node);
        parent.children.insert(i + 1, right);
        proof {
            assert(parent.children@ =~= before.children@.update(i as int, node).update(i + 1, right));
            lemma_replace_pair(before, *parent, i as int, sep, node, right, lo, hi, height, min, max, i as int);
        }
    }

    /// Moves the greatest record of the leaf before leaf `i` to the start of
    /// leaf `i`. The separator between the two becomes the key of that
    /// record, the new least key of leaf `i`.
    pub fn borrow_key_from_left_leaf(
        parent: &mut Node,
        i: usize,
        Ghost(lo): Ghost<int>,
        Ghost(hi): Ghost<int>,
        Ghost(height): Ghost<nat>,
        Ghost(min): Ghost<int>,
        Ghost(max): Ghost<int>,
    )
        requires
            old(parent).wf_but(lo, hi, height, min, max, i as int),
            1 <= i < old(parent).children@.len(),
            height == 1,
            min >= 1,
            old(parent).children@[i as int].keys@.len() + 1 == min,
            old(parent).children@[i - 1].keys@.len() > min,
        ensures
            final(parent).wf(lo, hi, height, min, max),
            final(parent).records() == old(parent).records(),
            final(parent).keys@.len() == old(parent).keys@.len(),
            borrowed_left(*old(parent), *final(parent), i as int),
    {
        let ghost before = *parent;
        let ghost node0 = parent.children@[i as int];
        let ghost prev0 = parent.children@[i - 1];
        let ghost clo = lower_bound(parent.keys@, lo, i - 1);
        let ghost chi = upper_bound(parent.keys@, hi, i as int);
        proof {
            assert(node0.wf(lower_bound(parent.keys@, lo, i as int), chi, 0, min, max));
            assert(prev0.wf(clo, upper_bound(parent.keys@, hi, i - 1), 0, min, max));
            assert(lo <= before.keys@[i - 1] < hi);
            if i < before.keys@.len() {
                assert(before.keys@[i - 1] < before.keys@[i as int]);
            }
        }
        assert(i < parent.children.len());
        let mut node = parent.children.remove(i);
        let mut prev = parent.children.remove(i - 1);
        let last = prev.keys.len() - 1;
        let k = prev.keys.remove(last);
        let v = prev.values.remove(last);
        node.keys.insert(0, k);
        node.values.insert(0, v);
        parent.keys[i - 1] = k;
        proof {
            let s = before.keys@[i - 1];
            assert(prev0.keys@[0] < prev0.keys@[last as int]);
            assert(clo <= prev0.keys@[0]);
            assert(prev0.keys@[last as int] < s);
            assert forall|a: int, b: int| 0 <= a < b < node.keys@.len() implies node.keys@[a] < node.keys@[b] by {
                if a == 0 {
                    assert(s <= node0.keys@[b - 1]);
                } else {
                    assert(node0.keys@[a - 1] < node0.keys@[b - 1]);
                }
            }
            assert forall|j: int| 0 <= j < node.keys@.len() implies k <= #[trigger] node.keys@[j] < chi by {
                if j > 0 {
                    assert(s <= node0.keys@[j - 1] < chi);
                }
            }
            assert forall|a: int, b: int| 0 <= a < b < prev.keys@.len() implies prev.keys@[a] < prev.keys@[b] by {
                assert(prev0.keys@[a] < prev0.keys@[b]);
            }
            assert forall|j: int| 0 <= j < prev.keys@.len() implies clo <= #[trigger] prev.keys@[j] < k by {
                assert(clo <= prev0.keys@[j]);
                assert(prev0.keys@[j] < prev0.keys@[last as int]);
            }
            assert(prev.records() + node.records() =~= prev0.records() + node0.records());
        }
        parent.children.insert(i - 1, prev);
        parent.children.insert(i, node);
        proof {
            assert(parent.children@ =~= before.children@.update(i - 1, prev).update(i as int, node));
            lemma_replace_pair(before, *parent, i - 1, k, prev, node, lo, hi, height, min, max, i as int);
        }
    }

    /// Moves the records of leaf `p + 1` to the end of leaf `p`, and takes
    /// leaf `p + 1` and the separator between the two out of the parent.
    fn merge_leaf_pair(
        parent: &mut Node,
        p: usize,
        Ghost(spare): Ghost<int>,
        Ghost(lo): Ghost<int>,
        Ghost(hi): Ghost<int>,
        Ghost(height): Ghost<nat>,
        Ghost(min): Ghost<int>,
        Ghost(max): Ghost<int>,
    )
        requires
            old(parent).wf_but(lo, hi, height, min, max, spare),
            p + 1 < old(parent).children@.len(),
            spare == p || spare == p + 1,
            height == 1,
            min <= old(parent).children@[p as int].keys@.len() + old(parent).children@[p
                + 1].keys@.len() <= max,
        ensures
            final(parent).wf(lo, hi, height, min, max),
            final(parent).records() == old(parent).records(),
            final(parent).keys@.len() + 1 == old(parent).keys@.len(),
            merged_pair(*old(parent), *final(parent), p as int),
    {
        let ghost before = *parent;
        let ghost node0 = parent.children@[p as int];
        let ghost right0 = parent.children@[p + 1];
        let ghost clo = lower_bound(parent.keys@, lo, p as int);
        let ghost chi = upper_bound(parent.keys@, hi, p + 1);
        let ghost s = parent.keys@[p as int];
        proof {
            assert(node0.wf(clo, s as int, 0, min, max));
            assert(right0.wf(s as int, chi, 0, min, max));
            assert(lo <= s < hi);
            if p > 0 {
                assert(before.keys@[p - 1] < s);
            }
            if p + 1 < before.keys@.len() {
                assert(s < before.keys@[p + 1]);
            }
        }
        assert(p + 1 < parent.children.len());
        let mut right = parent.children.remove(p + 1);
        let mut node = parent.children.remove(p);
        parent.keys.remove(p);
        node.keys.append(&mut right.keys);
        node.values.append(&mut right.values);
        proof {
            let n = node0.keys@.len() as int;
            assert forall|a: int, b: int| 0 <= a < b < node.keys@.len() implies node.keys@[a] < node.keys@[b] by {
                if b < n {
                    assert(node0.keys@[a] < node0.keys@[b]);
                } else if a >= n {
                    assert(right0.keys@[a - n] < right0.keys@[b - n]);
                } else {
                    assert(node0.keys@[a] < s);
                    assert(s <= right0.keys@[b - n]);
                }
            }
            assert forall|j: int| 0 <= j < node.keys@.len() implies clo <= #[trigger] node.keys@[j] < chi by {
                if j < n {
                    assert(clo <= node0.keys@[j] < s);
                } else {
                    assert(s <= right0.keys@[j - n] < chi);
                }
            }
            assert(node.records() =~= node0.records() + right0.records());
        }
        parent.children.insert(p, node);
        proof {
            assert(parent.children@ =~= before.children@.take(p as int) + seq![node]
                + before.children@.skip(p + 2));
            lemma_replace_by_one(before, *parent, p as int, node, lo, hi, height, min, max, spare);
        }
    }

    /// Merges leaf `i`, which holds one record too few, with the leaf after
    /// it, which has none to spare.
    pub fn merge_node_with_right_leaf(
        parent: &mut Node,
        i: usize,
        Ghost(lo): Ghost<int>,
        Ghost(hi): Ghost<int>,
        Ghost(height): Ghost<nat>,
        Ghost(min): Ghost<int>,
        Ghost(max): Ghost<int>,
    )
        requires
            old(parent).wf_but(lo, hi, height, min, max, i as int),
            i + 1 < old(parent).children@.len(),
            height == 1,
            min >= 1,
            min == max / 2,
            old(parent).children@[i as int].keys@.len() + 1 == min,
            old(parent).children@[i + 1].keys@.len() <= min,
        ensures
            final(parent).wf(lo, hi, height, min, max),
            final(parent).records() == old(parent).records(),
            final(parent).keys@.len() + 1 == old(parent).keys@.len(),
            merged_pair(*old(parent), *final(parent), i as int),
    {
        Self::merge_leaf_pair(
            parent,
            i,
            Ghost(i as int),
            Ghost(lo),
            Ghost(hi),
            Ghost(height),
            Ghost(min),
            Ghost(max),
        );
    }

    /// Merges leaf `i`, which holds one record too few, into the leaf before
    /// it, which has none to spare.
    pub fn merge_node_with_left_leaf(
        parent: &mut Node,
        i: usize,
        Ghost(lo): Ghost<int>,
        Ghost(hi): Ghost<int>,
        Ghost(height): Ghost<nat>,
        Ghost(min): Ghost<int>,
        Ghost(max): Ghost<int>,
    )
        requires
            old(parent).wf_but(lo, hi, height, min, max, i as int),
            1 <= i < old(parent).children@.len(),
            height == 1,
            min >= 1,
            min == max / 2,
            old(parent).children@[i as int].keys@.len() + 1 == min,
            old(parent).children@[i - 1].keys@.len() <= min,
        ensures
            final(parent).wf(lo, hi, height, min, max),
            final(parent).records() == old(parent).records(),
            final(parent).keys@.len() + 1 == old(parent).keys@.len(),
            merged_pair(*old(parent), *final(parent), i - 1),
    {
        Self::merge_leaf_pair(
            parent,
            i - 1,
            Ghost(i as int),
            Ghost(lo),
            Ghost(hi),
            Ghost(height),
            Ghost(min),
            Ghost(max),
        );
    }

    /// Moves the separator between inner node `i` and the inner node after it
    /// to the end of the keys of node `i`, the least key of the right node
    /// into the separator's place, and the first child of the right node to
    /// the end of the children of node `i`.
    pub fn borrow_key_from_right_internal(
        parent: &mut Node,
        i: usize,
        Ghost(lo): Ghost<int>,
        Ghost(hi): Ghost<int>,
        Ghost(height): Ghost<nat>,
        Ghost(min): Ghost<int>,
        Ghost(max): Ghost<int>,
    )
        requires
            old(parent).wf_but(lo, hi, height, min, max, i as int),
            i + 1 < old(parent).children@.len(),
            height >= 2,
            min >= 1,
            old(parent).children@[i as int].keys@.len() + 1 == min,
            old(parent).children@[i + 1].keys@.len() > min,
        ensures
            final(parent).wf(lo, hi, height, min, max),
            final(parent).records() == old(parent).records(),
            final(parent).keys@.len() == old(parent).keys@.len(),
            borrowed_right(*old(parent), *final(parent), i as int),
    {
        let ghost before = *parent;
        let ghost node0 = parent.children@[i as int];
        let ghost next0 = parent.children@[i + 1];
        let ghost clo = lower_bound(parent.keys@, lo, i as int);
        let ghost chi = upper_bound(parent.keys@, hi, i + 1);
        let ghost s = parent.keys@[i as int];
        let ghost h = (height - 2) as nat;
        proof {
            assert(node0.wf(clo, s as int, (height - 1) as nat, min, max));
            assert(next0.wf(s as int, chi, (height - 1) as nat, min, max));
            assert(lo <= s < hi);
            if i > 0 {
                assert(before.keys@[i - 1] < s);
            }
            let c0 = next0.children@[0];
            assert(c0.wf(s as int, next0.keys@[0] as int, h, min, max));
            assert(s <= c0.keys@[0] < next0.keys@[0]);
            assert(s as int <= next0.keys@[0] < chi);
        }
        assert(i + 1 < parent.children.len());
        let mut next = parent.children.remove(i + 1);
        let mut node = parent.children.remove(i);
        let sep = next.keys.remove(0);
        let moved = next.children.remove(0);
        node.keys.push(parent.keys[i]);
        node.children.push(moved);
        parent.keys[i] = sep;
        proof {
            let n0 = node0.keys@.len() as int;
            assert forall|a: int, b: int| 0 <= a < b < node.keys@.len() implies node.keys@[a] < node.keys@[b] by {
                if b == n0 {
                    assert(node0.keys@[a] < s);
                } else {
                    assert(node0.keys@[a] < node0.keys@[b]);
                }
            }
            assert forall|j: int| 0 <= j < node.keys@.len() implies clo <= #[trigger] node.keys@[j] < sep by {
                if j < n0 {
                    assert(clo <= node0.keys@[j] < s);
                }
            }
            assert forall|j: int| 0 <= j < node.children@.len() implies {
                &&& (#[trigger] node.children@[j]).wf(
                    lower_bound(node.keys@, clo, j),
                    upper_bound(node.keys@, sep as int, j),
                    h,
                    min,
                    max,
                )
                &&& min <= node.children@[j].keys@.len() <= max
            } by {
                if j <= n0 {
                    assert(node.children@[j] == node0.children@[j]);
                    assert(node0.children@[j].wf(
                        lower_bound(node0.keys@, clo, j),
                        upper_bound(node0.keys@, s as int, j),
                        h,
                        min,
                        max,
                    ));
                    if j > 0 {
                        assert(node.keys@[j - 1] == node0.keys@[j - 1]);
                    }
                    if j < n0 {
                        assert(node.keys@[j] == node0.keys@[j]);
                    }
                } else {
                    assert(node.children@[j] == next0.children@[0]);
                    assert(node.keys@[n0] == s);
                }
            }
            assert forall|a: int, b: int| 0 <= a < b < next.keys@.len() implies next.keys@[a] < next.keys@[b] by {
                assert(next0.keys@[a + 1] < next0.keys@[b + 1]);
            }
            assert forall|j: int| 0 <= j < next.keys@.len() implies sep <= #[trigger] next.keys@[j] < chi by {
                assert(next0.keys@[0] < next0.keys@[j + 1]);
                assert(next0.keys@[j + 1] < chi);
            }
            assert forall|j: int| 0 <= j < next.children@.len() implies {
                &&& (#[trigger] next.children@[j]).wf(
                    lower_bound(next.keys@, sep as int, j),
                    upper_bound(next.keys@, chi, j),
                    h,
                    min,
                    max,
                )
                &&& min <= next.children@[j].keys@.len() <= max
            } by {
                assert(next.children@[j] == next0.children@[j + 1]);
                assert(next0.children@[j + 1].wf(
                    lower_bound(next0.keys@, s as int, j + 1),
                    upper_bound(next0.keys@, chi, j + 1),
                    h,
                    min,
                    max,
                ));
                if j > 0 {
                    assert(next.keys@[j - 1] == next0.keys@[j]);
                }
                if j < next.keys@.len() {
                    assert(next.keys@[j] == next0.keys@[j + 1]);
                }
            }
            assert(node.children@ =~= node0.children@ + seq![moved]);
            assert(next0.children@ =~= seq![moved] + next.children@);
            lemma_records_of_append(node0.children@, seq![moved]);
            lemma_records_of_append(seq![moved], next.children@);
            lemma_records_of_one(moved);
            assert(node.records() + next.records() =~= node0.records() + next0.records());
        }
        parent.children.insert(i, node);
        parent.children.insert(i + 1, next);
        proof {
            assert(parent.children@ =~= before.children@.update(i as int, node).update(i + 1, next));
            lemma_replace_pair(before, *parent, i as int, sep, node, next, lo, hi, height, min, max, i as int);
        }
    }

    /// Moves the separator between inner node `i` and the inner node before
    /// it to the start of the keys of node `i`, the greatest key of the left
    /// node into the separator's place, and the last child of the left node to
    /// the start of the children of node `i`.
    pub fn borrow_key_from_left_internal(
        parent: &mut Node,
        i: usize,
        Ghost(lo): Ghost<int>,
        Ghost(hi): Ghost<int>,
        Ghost(height): Ghost<nat>,
        Ghost(min): Ghost<int>,
        Ghost(max): Ghost<int>,
    )
        requires
            old(parent).wf_but(lo, hi, height, min, max, i as int),
            1 <= i < old(parent).children@.len(),
            height >= 2,
            min >= 1,
            old(parent).children@[i as int].keys@.len() + 1 == min,
            old(parent).children@[i - 1].keys@.len() > min,
        ensures
            final(parent).wf(lo, hi, height, min, max),
            final(parent).records() == old(parent).records(),
            final(parent).keys@.len() == old(parent).keys@.len(),
            borrowed_left(*old(parent), *final(parent), i as int),
    {
        let ghost before = *parent;
        let ghost node0 = parent.children@[i as int];
        let ghost prev0 = parent.children@[i - 1];
        let ghost clo = lower_bound(parent.keys@, lo, i - 1);
        let ghost chi = upper_bound(parent.keys@, hi, i as int);
        let ghost s = parent.keys@[i - 1];
        let ghost h = (height - 2) as nat;
        let ghost m = (prev0.keys@.len() - 1) as int;
        proof {
            assert(node0.wf(s as int, chi, (height - 1) as nat, min, max));
            assert(prev0.wf(clo, s as int, (height - 1) as nat, min, max));
            assert(lo <= s < hi);
            if i < before.keys@.len() {
                assert(s < before.keys@[i as int]);
            }
            let cl = prev0.children@[m + 1];
            assert(cl.wf(prev0.keys@[m] as int, s as int, h, min, max));
            assert(prev0.keys@[m] <= cl.keys@[0] < s);
            assert(prev0.keys@[0] < prev0.keys@[m]);
            assert(clo <= prev0.keys@[0]);
        }
        assert(i < parent.children.len());
        let mut node = parent.children.remove(i);
        let mut prev = parent.children.remove(i - 1);
        let last = prev.keys.len() - 1;
        let sep = prev.keys.remove(last);
        let moved = prev.children.remove(last + 1);
        node.keys.insert(0, parent.keys[i - 1]);
        node.children.insert(0, moved);
        parent.keys[i - 1] = sep;
        proof {
            assert forall|a: int, b: int| 0 <= a < b < node.keys@.len() implies node.keys@[a] < node.keys@[b] by {
                if a == 0 {
                    let c0 = node0.children@[0];
                    assert(c0.wf(s as int, node0.keys@[0] as int, h, min, max));
                    assert(s <= c0.keys@[0] < node0.keys@[0]);
                    if b - 1 > 0 {
                        assert(node0.keys@[0] < node0.keys@[b - 1]);
                    }
                } else {
                    assert(node0.keys@[a - 1] < node0.keys@[b - 1]);
                }
            }
            assert forall|j: int| 0 <= j < node.keys@.len() implies sep <= #[trigger] node.keys@[j] < chi by {
                if j > 0 {
                    assert(s <= node0.keys@[j - 1] < chi);
                }
            }
            assert forall|j: int| 0 <= j < node.children@.len() implies {
                &&& (#[trigger] node.children@[j]).wf(
                    lower_bound(node.keys@, sep as int, j),
                    upper_bound(node.keys@, chi, j),
                    h,
                    min,
                    max,
                )
                &&& min <= node.children@[j].keys@.len() <= max
            } by {
                if j == 0 {
                    assert(node.children@[j] == prev0.children@[m + 1]);
                    assert(node.keys@[0] == s);
                } else {
                    assert(node.children@[j] == node0.children@[j - 1]);
                    assert(node0.children@[j - 1].wf(
                        lower_bound(node0.keys@, s as int, j - 1),
                        upper_bound(node0.keys@, chi, j - 1),
                        h,
                        min,
                        max,
                    ));
                    if j > 1 {
                        assert(node.keys@[j - 1] == node0.keys@[j - 2]);
                    } else {
                        assert(node.keys@[0] == s);
                    }
                    if j < node.keys@.len() {
                        assert(node.keys@[j] == node0.keys@[j - 1]);
                    }
                }
            }
            assert forall|a: int, b: int| 0 <= a < b < prev.keys@.len() implies prev.keys@[a] < prev.keys@[b] by {
                assert(prev0.keys@[a] < prev0.keys@[b]);
            }
            assert forall|j: int| 0 <= j < prev.keys@.len() implies clo <= #[trigger] prev.keys@[j] < sep by {
                assert(clo <= prev0.keys@[j]);
                assert(prev0.keys@[j] < prev0.keys@[m]);
            }
            assert forall|j: int| 0 <= j < prev.children@.len() implies {
                &&& (#[trigger] prev.children@[j]).wf(
                    lower_bound(prev.keys@, clo, j),
                    upper_bound(prev.keys@, sep as int, j),
                    h,
                    min,
                    max,
                )
                &&& min <= prev.children@[j].keys@.len() <= max
            } by {
                assert(prev.children@[j] == prev0.children@[j]);
                assert(prev0.children@[j].wf(
                    lower_bound(prev0.keys@, clo, j),
                    upper_bound(prev0.keys@, s as int, j),
                    h,
                    min,
                    max,
                ));
                if j > 0 {
                    assert(prev.keys@[j - 1] == prev0.keys@[j - 1]);
                }
                if j < prev.keys@.len() {
                    assert(prev.keys@[j] == prev0.keys@[j]);
                }
            }
            assert(node.children@ =~= seq![moved] + node0.children@);
            assert(prev0.children@ =~= prev.children@ + seq![moved]);
            lemma_records_of_append(seq![moved], node0.children@);
            lemma_records_of_append(prev.children@, seq![moved]);
            lemma_records_of_one(moved);
            assert(prev.records() + node.records() =~= prev0.records() + node0.records());
        }
        parent.children.insert(i - 1, prev);
        parent.children.insert(i, node);
        proof {
            assert(parent.children@ =~= before.children@.update(i - 1, prev).update(i as int, node));
            lemma_replace_pair(before, *parent, i - 1, sep, prev, node, lo, hi, height, min, max, i as int);
        }
    }

    /// Moves the separator between inner nodes `p` and `p + 1`, then the keys
    /// and the children of node `p + 1`, to the end of node `p`, and takes
    /// node `p + 1` out of the parent.
    fn merge_inner_pair(
        parent: &mut Node,
        p: usize,
        Ghost(spare): Ghost<int>,
        Ghost(lo): Ghost<int>,
        Ghost(hi): Ghost<int>,
        Ghost(height): Ghost<nat>,
        Ghost(min): Ghost<int>,
        Ghost(max): Ghost<int>,
    )
        requires
            old(parent).wf_but(lo, hi, height, min, max, spare),
            p + 1 < old(parent).children@.len(),
            spare == p || spare == p + 1,
            height >= 2,
            min >= 1,
            min <= old(parent).children@[p as int].keys@.len() + old(parent).children@[p
                + 1].keys@.len() + 1 <= max,
        ensures
            final(parent).wf(lo, hi, height, min, max),
            final(parent).records() == old(parent).records(),
            final(parent).keys@.len() + 1 == old(parent).keys@.len(),
            merged_pair(*old(parent), *final(parent), p as int),
    {
        let ghost before = *parent;
        let ghost node0 = parent.children@[p as int];
        let ghost next0 = parent.children@[p + 1];
        let ghost clo = lower_bound(parent.keys@, lo, p as int);
        let ghost chi = upper_bound(parent.keys@, hi, p + 1);
        let ghost s = parent.keys@[p as int];
        let ghost h = (height - 2) as nat;
        proof {
            assert(node0.wf(clo, s as int, (height - 1) as nat, min, max));
            assert(next0.wf(s as int, chi, (height - 1) as nat, min, max));
            assert(lo <= s < hi);
            if p > 0 {
                assert(before.keys@[p - 1] < s);
            }
            if p + 1 < before.keys@.len() {
                assert(s < before.keys@[p + 1]);
            }
        }
        assert(p + 1 < parent.children.len());
        let mut next = parent.children.remove(p + 1);
        let mut node = parent.children.remove(p);
        let sep = parent.keys.remove(p);
        node.keys.push(sep);
        node.keys.append(&mut next.keys);
        node.children.append(&mut next.children);
        proof {
            let n0 = node0.keys@.len() as int;
            assert(node.keys@ =~= node0.keys@ + seq![s] + next0.keys@);
            assert(node.children@ =~= node0.children@ + next0.children@);
            assert forall|a: int, b: int| 0 <= a < b < node.keys@.len() implies node.keys@[a] < node.keys@[b] by {
                if b < n0 {
                    assert(node0.keys@[a] < node0.keys@[b]);
                } else if b == n0 {
                    assert(node0.keys@[a] < s);
                } else if a > n0 {
                    assert(next0.keys@[a - n0 - 1] < next0.keys@[b - n0 - 1]);
                } else if a == n0 {
                    assert(s <= next0.keys@[b - n0 - 1]);
                    let c0 = next0.children@[0];
                    assert(c0.wf(s as int, next0.keys@[0] as int, h, min, max));
                    assert(s <= c0.keys@[0] < next0.keys@[0]);
                    if b - n0 - 1 > 0 {
                        assert(next0.keys@[0] < next0.keys@[b - n0 - 1]);
                    }
                } else {
                    assert(node0.keys@[a] < s);
                    assert(s <= next0.keys@[b - n0 - 1]);
                }
            }
            assert forall|j: int| 0 <= j < node.keys@.len() implies clo <= #[trigger] node.keys@[j] < chi by {
                if j < n0 {
                    assert(clo <= node0.keys@[j] < s);
                } else if j > n0 {
                    assert(s <= next0.keys@[j - n0 - 1] < chi);
                }
            }
            assert forall|j: int| 0 <= j < node.children@.len() implies {
                &&& (#[trigger] node.children@[j]).wf(
                    lower_bound(node.keys@, clo, j),
                    upper_bound(node.keys@, chi, j),
                    h,
                    min,
                    max,
                )
                &&& min <= node.children@[j].keys@.len() <= max
            } by {
                if j <= n0 {
                    assert(node.children@[j] == node0.children@[j]);
                    assert(node0.children@[j].wf(
                        lower_bound(node0.keys@, clo, j),
                        upper_bound(node0.keys@, s as int, j),
                        h,
                        min,
                        max,
                    ));
                    if j > 0 {
                        assert(node.keys@[j - 1] == node0.keys@[j - 1]);
                    }
                    if j < n0 {
                        assert(node.keys@[j] == node0.keys@[j]);
                    } else {
                        assert(node.keys@[n0] == s);
                    }
                } else {
                    let k = j - n0 - 1;
                    assert(node.children@[j] == next0.children@[k]);
                    assert(next0.children@[k].wf(
                        lower_bound(next0.keys@, s as int, k),
                        upper_bound(next0.keys@, chi, k),
                        h,
                        min,
                        max,
                    ));
                    if k > 0 {
                        assert(node.keys@[j - 1] == next0.keys@[k - 1]);
                    } else {
                        assert(node.keys@[j - 1] == s);
                    }
                    if k < next0.keys@.len() {
                        assert(node.keys@[j] == next0.keys@[k]);
                    }
                }
            }
            lemma_records_of_append(node0.children@, next0.children@);
        }
        parent.children.insert(p, node);
        proof {
            assert(parent.children@ =~= before.children@.take(p as int) + seq![node]
                + before.children@.skip(p + 2));
            lemma_replace_by_one(before, *parent, p as int, node, lo, hi, height, min, max, spare);
        }
    }

    /// Merges inner node `i`, which holds one key too few, with the inner
    /// node after it, which has none to spare.
    pub fn merge_node_with_right_internal(
        parent: &mut Node,
        i: usize,
        Ghost(lo): Ghost<int>,
        Ghost(hi): Ghost<int>,
        Ghost(height): Ghost<nat>,
        Ghost(min): Ghost<int>,
        Ghost(max): Ghost<int>,
    )
        requires
            old(parent).wf_but(lo, hi, height, min, max, i as int),
            i + 1 < old(parent).children@.len(),
            height >= 2,
            min >= 1,
            min == max / 2,
            old(parent).children@[i as int].keys@.len() + 1 == min,
            old(parent).children@[i + 1].keys@.len() <= min,
        ensures
            final(parent).wf(lo, hi, height, min, max),
            final(parent).records() == old(parent).records(),
            final(parent).keys@.len() + 1 == old(parent).keys@.len(),
            merged_pair(*old(parent), *final(parent), i as int),
    {
        Self::merge_inner_pair(
            parent,
            i,
            Ghost(i as int),
            Ghost(lo),
            Ghost(hi),
            Ghost(height),
            Ghost(min),
            Ghost(max),
        );
    }

    /// Merges inner node `i`, which holds one key too few, into the inner
    /// node before it, which has none to spare.
    pub fn merge_node_with_left_internal(
        parent: &mut Node,
        i: usize,
        Ghost(lo): Ghost<int>,
        Ghost(hi): Ghost<int>,
        Ghost(height): Ghost<nat>,
        Ghost(min): Ghost<int>,
        Ghost(max): Ghost<int>,
    )
        requires
            old(parent).wf_but(lo, hi, height, min, max, i as int),
            1 <= i < old(parent).children@.len(),
            height >= 2,
            min >= 1,
            min == max / 2,
            old(parent).children@[i as int].keys@.len() + 1 == min,
            old(parent).children@[i - 1].keys@.len() <= min,
        ensures
            final(parent).wf(lo, hi, height, min, max),
            final(parent).records() == old(parent).records(),
            final(parent).keys@.len() + 1 == old(parent).keys@.len(),
            merged_pair(*old(parent), *final(parent), i - 1),
    {
        Self::merge_inner_pair(
            parent,
            i - 1,
            Ghost(i as int),
            Ghost(lo),
            Ghost(hi),
            Ghost(height),
            Ghost(min),
            Ghost(max),
        );
    }

    /// Repairs child `i`, which holds one key too few: it borrows from the
    /// sibling to its right, else from the one to its left, else is merged
    /// with the one to its right, else with the one to its left.
    pub fn rebalance(
        parent: &mut Node,
        i: usize,
        min_capacity: usize,
        Ghost(lo): Ghost<int>,
        Ghost(hi): Ghost<int>,
        Ghost(height): Ghost<nat>,
        Ghost(max): Ghost<int>,
    )
        requires
            old(parent).wf_but(lo, hi, height, min_capacity as int, max, i as int),
            i < old(parent).children@.len(),
            old(parent).keys@.len() >= 1,
            min_capacity >= 1,
            min_capacity == max / 2,
            old(parent).children@[i as int].keys@.len() + 1 == min_capacity,
        ensures
            final(parent).wf(lo, hi, height, min_capacity as int, max),
            final(parent).records() == old(parent).records(),
            old(parent).keys@.len() - 1 <= final(parent).keys@.len() <= old(parent).keys@.len(),
            repaired(*old(parent), *final(parent), i as int, min_capacity as int),
    {
        let ghost min = min_capacity as int;
        let leaf = parent.children[i].is_leaf;
        let has_right = i < parent.children.len() - 1;
        proof {
            assert(parent.children@[i as int].wf(
                lower_bound(parent.keys@, lo, i as int),
                upper_bound(parent.keys@, hi, i as int),
                (height - 1) as nat,
                min,
                max,
            ));
        }
        if has_right && parent.children[i + 1].keys.len() > min_capacity {
            if leaf {
                Self::borrow_key_from_right_leaf(
                    parent,
                    i,
                    Ghost(lo),
                    Ghost(hi),
                    Ghost(height),
                    Ghost(min),
                    Ghost(max),
                );
            } else {
                Self::borrow_key_from_right_internal(
                    parent,
                    i,
                    Ghost(lo),
                    Ghost(hi),
                    Ghost(height),
                    Ghost(min),
                    Ghost(max),
                );
            }
        } else if i > 0 && parent.children[i - 1].keys.len() > min_capacity {
            if leaf {
                Self::borrow_key_from_left_leaf(
                    parent,
                    i,
                    Ghost(lo),
                    Ghost(hi),
                    Ghost(height),
                    Ghost(min),
                    Ghost(max),
                );
            } else {
                Self::borrow_key_from_left_internal(
                    parent,
                    i,
                    Ghost(lo),
                    Ghost(hi),
                    Ghost(height),
                    Ghost(min),
                    Ghost(max),
                );
            }
        } else if has_right {
            if leaf {
                Self::merge_node_with_right_leaf(
                    parent,
                    i,
                    Ghost(lo),
                    Ghost(hi),
                    Ghost(height),
                    Ghost(min),
                    Ghost(max),
                );
            } else {
                Self::merge_node_with_right_internal(
                    parent,
                    i,
                    Ghost(lo),
                    Ghost(hi),
                    Ghost(height),
                    Ghost(min),
                    Ghost(max),
                );
            }
        } else {
            if leaf {
                Self::merge_node_with_left_leaf(
                    parent,
                    i,
                    Ghost(lo),
                    Ghost(hi),
                    Ghost(height),
                    Ghost(min),
                    Ghost(max),
                );
            } else {
                Self::merge_node_with_left_internal(
                    parent,
                    i,
                    Ghost(lo),
                    Ghost(hi),
                    Ghost(height),
                    Ghost(min),
                    Ghost(max),
                );
            }
        }
    }

    /// Takes the record at `key` out of a leaf and returns its document.
    pub fn remove_from_leaf(
        node: &mut Node,
        key: u128,
        Ghost(lo): Ghost<int>,
        Ghost(hi): Ghost<int>,
        Ghost(min): Ghost<int>,
        Ghost(max): Ghost<int>,
    ) -> (r: Option<bson::Document>)
        requires
            old(node).wf(lo, hi, 0, min, max),
        ensures
            final(node).wf(lo, hi, 0, min, max),
            final(node).keys@.len() == old(node).keys@.len() - if loses_key(*old(node), key, min) {
                1int
            } else {
                0int
            },
            final(node).records() == without(old(node).records(), key),
            match r {
                Some(d) => found(old(node).records(), key) == Some(doc_view(d)),
                None => found(old(node).records(), key) is None,
            },
    {
        let i = node.index_of_child(key);
        proof {
            lemma_leaf_found(node.keys@, node.values@, key);
        }
        if i > 0 && node.keys[i - 1] == key {
            node.keys.remove(i - 1);
            let d = node.values.remove(i - 1);
            proof {
                assert(node.records() =~= old(node).records().remove(i - 1));
                assert forall|a: int, b: int| 0 <= a < b < node.keys@.len() implies node.keys@[a]
                    < node.keys@[b] by {
                    let a0 = if a < i - 1 { a } else { a + 1 };
                    let b0 = if b < i - 1 { b } else { b + 1 };
                    assert(old(node).keys@[a0] < old(node).keys@[b0]);
                }
                assert forall|j: int| 0 <= j < node.keys@.len() implies lo <= #[trigger] node.keys@[j]
                    < hi by {
                    let j0 = if j < i - 1 { j } else { j + 1 };
                    assert(lo <= old(node).keys@[j0] < hi);
                }
            }
            Some(d)
        } else {
            None
        }
    }

    /// Takes the record at `key` out of the subtree under an inner node and
    /// returns its document. A child that comes to hold one key too few is
    /// repaired; the node itself may come to hold one key fewer.
    pub fn remove_from_internal(
        node: &mut Node,
        key: u128,
        min_capacity: usize,
        Ghost(lo): Ghost<int>,
        Ghost(hi): Ghost<int>,
        Ghost(height): Ghost<nat>,
        Ghost(max): Ghost<int>,
    ) -> (r: Option<bson::Document>)
        requires
            old(node).wf(lo, hi, height, min_capacity as int, max),
            !old(node).is_leaf,
            old(node).keys@.len() >= 1,
            lo <= key < hi,
            min_capacity >= 1,
            min_capacity == max / 2,
        ensures
            final(node).wf(lo, hi, height, min_capacity as int, max),
            !final(node).is_leaf,
            removed_below(*old(node), *final(node), key, min_capacity as int),
            final(node).keys@.len() == old(node).keys@.len() - if loses_key(
                *old(node),
                key,
                min_capacity as int,
            ) {
                1int
            } else {
                0int
            },
            final(node).records() == without(old(node).records(), key),
            match r {
                Some(d) => found(old(node).records(), key) == Some(doc_view(d)),
                None => found(old(node).records(), key) is None,
            },
        decreases height,
    {
        let ghost min = min_capacity as int;
        let i = node.index_of_child(key);
        let ghost clo = lower_bound(node.keys@, lo, i as int);
        let ghost chi = upper_bound(node.keys@, hi, i as int);
        let ghost child0 = node.children@[i as int];
        proof {
            lemma_node_parts(*old(node), lo, hi, height, min, max, i as int);
            if i > 0 {
                assert(lo <= node.keys@[i - 1] < hi);
            }
            if i < node.keys@.len() {
                assert(lo <= node.keys@[i as int] < hi);
            }
            assert(child0.wf(clo, chi, (height - 1) as nat, min, max));
        }
        let r = if node.children[i].is_leaf {
            Self::remove_from_leaf(
                &mut node.children[i],
                key,
                Ghost(clo),
                Ghost(chi),
                Ghost(min),
                Ghost(max),
            )
        } else {
            Self::remove_from_internal(
                &mut node.children[i],
                key,
                min_capacity,
                Ghost(clo),
                Ghost(chi),
                Ghost((height - 1) as nat),
                Ghost(max),
            )
        };
        let ghost a = all_records_of(old(node).children@.take(i as int));
        let ghost b = all_records_of(old(node).children@.skip(i + 1));
        proof {
            let shrunk = node.children@[i as int];
            assert(node.children@ =~= old(node).children@.update(i as int, shrunk));
            assert(node.children@.take(i as int) =~= old(node).children@.take(i as int));
            assert(node.children@.skip(i + 1) =~= old(node).children@.skip(i + 1));
            lemma_node_cut(*node, i as int);
            lemma_without_middle(a, child0.records(), b, key);
            lemma_rank_middle(a, child0.records(), b, key);
            assert forall|j: int| 0 <= j < node.children@.len() implies {
                &&& (#[trigger] node.children@[j]).wf(
                    lower_bound(node.keys@, lo, j),
                    upper_bound(node.keys@, hi, j),
                    (height - 1) as nat,
                    min,
                    max,
                )
                &&& node.children@[j].keys@.len() <= max
                &&& j != i ==> min <= node.children@[j].keys@.len()
            } by {
                if j != i {
                    assert(node.children@[j] == old(node).children@[j]);
                }
            }
        }
        let ghost mid = *node;
        proof {
            assert(child_shrunk(*old(node), mid, i as int, key, min));
        }
        if node.children[i].keys.len() < min_capacity {
            proof {
                assert(repair_for(*node, i as int, min) == repair_for(*old(node), i as int, min)) by {
                    if i > 0 {
                        assert(node.children@[i - 1] == old(node).children@[i - 1]);
                    }
                    if i + 1 < node.children@.len() {
                        assert(node.children@[i + 1] == old(node).children@[i + 1]);
                    }
                }
            }
            Self::rebalance(node, i, min_capacity, Ghost(lo), Ghost(hi), Ghost(height), Ghost(max));
        }
        r
    }

    /// Takes the record at `key` out of the tree and returns its document; a
    /// tree without that key stays as it is. An inner root that is left
    /// without a key gives way to its one child, the node that its two
    /// children were merged into, and the tree loses one level; it shrinks in
    /// no other way.
    pub fn remove(&mut self, key: u128) -> (r: Option<bson::Document>)
        requires
            old(self).wf(),
        ensures
            final(self).wf(),
            final(self).max_capacity == old(self).max_capacity,
            final(self).records() == without(old(self).records(), key),
            match r {
                Some(d) => found(old(self).records(), key) == Some(doc_view(d)),
                None => found(old(self).records(), key) is None,
            },
            final(self).depth == if old(self).shrinks_on(key) {
                old(self).depth - 1
            } else {
                old(self).depth as int
            },
            old(self).shrinks_on(key) ==> {
                &&& final(self).root.is_leaf == old(self).root.children@[0].is_leaf
                &&& final(self).root.keys@.len() == old(self).root.children@[0].keys@.len() + old(self).root.children@[1].keys@.len() - if final(self).root.is_leaf {
                    1int
                } else {
                    0int
                }
            },
            !old(self).shrinks_on(key) ==> final(self).root.is_leaf == old(self).root.is_leaf,
            old(self).shrinks_on(key) ==> exists|hollow: Node| #[trigger]
                removed_below(old(self).root, hollow, key, old(self).min_capacity as int)
                    && hollow.keys@.len() == 0 && hollow.children@ == seq![final(self).root],
            !old(self).root.is_leaf && !old(self).shrinks_on(key) ==> removed_below(
                old(self).root,
                final(self).root,
                key,
                old(self).min_capacity as int,
            ),
    {
        let ghost min = self.min_capacity as int;
        let ghost max = self.max_capacity as int;
        let ghost height = self.depth as nat;
        if self.root.is_leaf {
            return Self::remove_from_leaf(
                &mut self.root,
                key,
                Ghost(0),
                Ghost(key_limit()),
                Ghost(min),
                Ghost(max),
            );
        }
        let min_capacity = self.min_capacity;
        let r = Self::remove_from_internal(
            &mut self.root,
            key,
            min_capacity,
            Ghost(0),
            Ghost(key_limit()),
            Ghost(height),
            Ghost(max),
        );
        if self.root.keys.len() == 0 {
            let ghost hollow = self.root;
            let child = self.root.children.remove(0);
            proof {
                let before = old(self).root;
                let at = before.child_position(key);
                Node::lemma_position_in(before.keys@, key);
                let mid = choose|mid: Node| #[trigger]
                    child_shrunk(before, mid, at, key, min) && if mid.children@[at].keys@.len() < min {
                        repaired(mid, hollow, at, min)
                    } else {
                        hollow == mid
                    };
                assert(before.children@[0].wf(
                    lower_bound(before.keys@, 0, 0),
                    upper_bound(before.keys@, key_limit(), 0),
                    (height - 1) as nat,
                    min,
                    max,
                ));
                assert(before.children@[1].wf(
                    lower_bound(before.keys@, 0, 1),
                    upper_bound(before.keys@, key_limit(), 1),
                    (height - 1) as nat,
                    min,
                    max,
                ));
                assert(hollow.children@[0] == child);
                assert(child.wf(
                    lower_bound(hollow.keys@, 0, 0),
                    upper_bound(hollow.keys@, key_limit(), 0),
                    (height - 1) as nat,
                    min,
                    max,
                ));
                assert(hollow.children@ =~= seq![child]);
                lemma_records_of_one(child);
                assert(removed_below(before, hollow, key, min) && hollow.keys@.len() == 0
                    && hollow.children@ == seq![child]);
            }
            self.root = child;
            self.depth = self.depth - 1;
        }
        r
    }
}

} // verus!
