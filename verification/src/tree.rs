//! The B+-tree as a whole: a root node, the most and the fewest keys of a
//! node, and the depth of the leaves.

use crate::bptree::{
    all_records_of, leaf_records, lemma_has_record, lemma_node_cut, lemma_node_parts,
    lemma_node_records, lemma_records_of_append, lemma_records_of_one,
    lemma_splice, lemma_split_inner, lemma_split_leaf, lower_bound, strictly_increasing,
    upper_bound, Node,
};
use crate::document::{clone_document, doc_view};
use crate::render::row_views;
use crate::records::{between, lemma_between_append};
use crate::records::{
    ascending, found, holds, lemma_put_middle, lemma_rank_is, lemma_rank_middle, put,
    rank, Records,
};
use vstd::prelude::*;

verus! {

/// The bound above every key.
pub open spec fn key_limit() -> int {
    u128::MAX + 1
}

/// What a leaf with ascending keys holds at a key, by the position of the
/// child that the key belongs to.
pub proof fn lemma_leaf_found(keys: Seq<u128>, values: Seq<bson::Document>, key: u128)
    requires
        strictly_increasing(keys),
        keys.len() == values.len(),
    ensures
        ({
            let p = Node::position_in(keys, key);
            let r = leaf_records(keys, values);
            if p > 0 && keys[p - 1] == key {
                holds(r, key) && rank(r, key) == p - 1 && found(r, key) == Some(doc_view(values[p - 1]))
            } else {
                !holds(r, key) && rank(r, key) == p && !keys.contains(key)
            }
        }),
{
    Node::lemma_position_in(keys, key);
    let p = Node::position_in(keys, key);
    let r = leaf_records(keys, values);
    if p > 0 && keys[p - 1] == key {
        assert forall|j: int| 0 <= j < p - 1 implies (#[trigger] r[j]).0 < key by {
            assert(keys[j] < keys[p - 1]);
        }
        lemma_rank_is(r, key, p - 1);
    } else {
        assert forall|j: int| 0 <= j < p implies (#[trigger] r[j]).0 < key by {
            assert(keys[j] <= key);
            if keys[j] == key {
                if j < p - 1 {
                    assert(keys[j] < keys[p - 1]);
                }
            }
        }
        lemma_rank_is(r, key, p);
        if keys.contains(key) {
            let j = choose|j: int| 0 <= j < keys.len() && keys[j] == key;
            if j >= p {
                if j > p {
                    assert(keys[p] < keys[j]);
                }
            } else {
                assert(r[j].0 < key);
            }
        }
    }
}

impl Node {
    /// Puts `value` at `key` in this leaf and returns the document that was
    /// there.
    pub(crate) fn put_in_leaf(
        &mut self,
        key: u128,
        value: bson::Document,
        Ghost(lo): Ghost<int>,
        Ghost(hi): Ghost<int>,
        Ghost(min): Ghost<int>,
        Ghost(max): Ghost<int>,
    ) -> (prev: Option<bson::Document>)
        requires
            old(self).wf(lo, hi, 0, min, max),
            old(self).is_leaf,
            lo <= key < hi,
        ensures
            final(self).wf(lo, hi, 0, min, max),
            final(self).is_leaf,
            final(self).keys@.len() == old(self).keys@.len() + if old(self).gains_key(key, max) {
                1int
            } else {
                0int
            },
            final(self).records() == put(old(self).records(), key, doc_view(value)),
            match prev {
                Some(d) => found(old(self).records(), key) == Some(doc_view(d)),
                None => found(old(self).records(), key) is None,
            },
    {
        proof {
            lemma_leaf_found(self.keys@, self.values@, key);
        }
        let prev = self.set(key, value);
        proof {
            let p = Node::position_in(old(self).keys@, key);
            let r = old(self).records();
            Node::lemma_position_in(old(self).keys@, key);
            if prev is Some {
                assert(self.records() =~= r.update(p - 1, (key, doc_view(value))));
            } else {
                assert(self.records() =~= r.insert(p, (key, doc_view(value))));
                assert forall|j: int| 0 <= j < self.keys@.len() implies lo <= #[trigger] self.keys@[j]
                    < hi by {
                    if j < p {
                        assert(lo <= old(self).keys@[j] < hi);
                    } else if j > p {
                        assert(lo <= old(self).keys@[j - 1] < hi);
                    }
                }
            }
        }
        prev
    }

    /// Splits child `i`, which holds one key too many, in two, and puts the
    /// key between the two among the keys of this node.
    pub(crate) fn split_child(
        &mut self,
        i: usize,
        max: usize,
        Ghost(before): Ghost<Node>,
        Ghost(lo): Ghost<int>,
        Ghost(hi): Ghost<int>,
        Ghost(height): Ghost<nat>,
        Ghost(min): Ghost<int>,
    )
        requires
            before.wf(lo, hi, height, min, max as int),
            !before.is_leaf,
            !old(self).is_leaf,
            old(self).values@.len() == 0,
            i < before.children@.len(),
            old(self).keys@ == before.keys@,
            old(self).children@ == before.children@.update(i as int, old(self).children@[i as int]),
            old(self).children@[i as int].wf(
                lower_bound(before.keys@, lo, i as int),
                upper_bound(before.keys@, hi, i as int),
                (height - 1) as nat,
                min,
                max as int,
            ),
            old(self).children@[i as int].keys@.len() == max + 1,
            max >= 2,
            min == max / 2,
        ensures
            final(self).wf(lo, hi, height, min, max as int),
            !final(self).is_leaf,
            final(self).keys@.len() == before.keys@.len() + 1,
            final(self).records() == all_records_of(before.children@.take(i as int)) + old(self).children@[i as int].records() + all_records_of(before.children@.skip(i + 1)),
    {
        let ghost clo = lower_bound(before.keys@, lo, i as int);
        let ghost chi = upper_bound(before.keys@, hi, i as int);
        let mut child = Node::new(true);
        std::mem::swap(&mut child, &mut self.children[i]);
        let ghost hollow = *self;
        let (sep, left, right) = if child.is_leaf {
            let parts = child.split_leaf();
            proof {
                lemma_split_leaf(child, parts.1, parts.2, clo, chi, min, max as int);
            }
            parts
        } else {
            let parts = child.split_internal();
            proof {
                lemma_split_inner(
                    child,
                    parts.1,
                    parts.2,
                    clo,
                    chi,
                    (height - 1) as nat,
                    min,
                    max as int,
                );
            }
            parts
        };
        proof {
            if i > 0 {
                assert(before.keys@[i - 1] < sep);
                assert forall|j: int| 0 <= j < i implies self.keys@[j] <= sep by {
                    if j < i - 1 {
                        assert(before.keys@[j] < before.keys@[i - 1]);
                    }
                }
            }
            Node::lemma_position_in_unique(self.keys@, sep, i as int);
        }
        let mut pair: Vec<Node> = Vec::new();
        pair.push(left);
        pair.push(right);
        self.set_child(sep, pair);
        proof {
            assert(pair@ =~= seq![left, right]);
            assert(hollow.children@.take(i as int) =~= before.children@.take(i as int));
            assert(hollow.children@.skip(i + 1) =~= before.children@.skip(i + 1));
            lemma_splice(before, *self, i as int, sep, left, right, lo, hi, height, min, max as int);
        }
    }

    /// Puts `value` at `key` in the subtree under this node and returns the
    /// document that was there. A child that comes to hold one key too many
    /// is split in two; this node itself may come to hold one key too many.
    pub(crate) fn insert_below(
        &mut self,
        key: u128,
        value: bson::Document,
        max: usize,
        Ghost(lo): Ghost<int>,
        Ghost(hi): Ghost<int>,
        Ghost(height): Ghost<nat>,
        Ghost(min): Ghost<int>,
    ) -> (prev: Option<bson::Document>)
        requires
            old(self).wf(lo, hi, height, min, max as int),
            old(self).keys@.len() <= max,
            lo <= key < hi,
            max >= 2,
            min == max / 2,
        ensures
            final(self).wf(lo, hi, height, min, max as int),
            final(self).is_leaf == old(self).is_leaf,
            final(self).keys@.len() == old(self).keys@.len() + if old(self).gains_key(
                key,
                max as int,
            ) {
                1int
            } else {
                0int
            },
            final(self).records() == put(old(self).records(), key, doc_view(value)),
            match prev {
                Some(d) => found(old(self).records(), key) == Some(doc_view(d)),
                None => found(old(self).records(), key) is None,
            },
        decreases height,
    {
        if self.is_leaf {
            return self.put_in_leaf(key, value, Ghost(lo), Ghost(hi), Ghost(min), Ghost(max as int));
        }
        let i = self.index_of_child(key);
        let ghost clo = lower_bound(self.keys@, lo, i as int);
        let ghost chi = upper_bound(self.keys@, hi, i as int);
        proof {
            lemma_node_parts(*old(self), lo, hi, height, min, max as int, i as int);
            if i > 0 {
                assert(lo <= self.keys@[i - 1] < hi);
            }
            if i < self.keys@.len() {
                assert(lo <= self.keys@[i as int] < hi);
            }
        }
        let prev = self.children[i].insert_below(
            key,
            value,
            max,
            Ghost(clo),
            Ghost(chi),
            Ghost((height - 1) as nat),
            Ghost(min),
        );
        let ghost grown = self.children@[i as int];
        let ghost a = all_records_of(old(self).children@.take(i as int));
        let ghost b = all_records_of(old(self).children@.skip(i + 1));
        proof {
            assert(self.children@ =~= old(self).children@.update(i as int, grown));
            lemma_put_middle(a, old(self).children@[i as int].records(), b, key, doc_view(value));
            lemma_rank_middle(a, old(self).children@[i as int].records(), b, key);
        }
        if self.children[i].keys.len() > max {
            self.split_child(i, max, Ghost(*old(self)), Ghost(lo), Ghost(hi), Ghost(height), Ghost(min));
        } else {
            proof {
                assert(self.children@.take(i as int) =~= old(self).children@.take(i as int));
                assert(self.children@.skip(i + 1) =~= old(self).children@.skip(i + 1));
                lemma_node_cut(*self, i as int);
                assert forall|j: int| 0 <= j < self.children@.len() implies {
                    &&& (#[trigger] self.children@[j]).wf(
                        lower_bound(self.keys@, lo, j),
                        upper_bound(self.keys@, hi, j),
                        (height - 1) as nat,
                        min,
                        max as int,
                    )
                    &&& min <= self.children@[j].keys@.len() <= max
                } by {
                    if j != i {
                        assert(self.children@[j] == old(self).children@[j]);
                    }
                }
            }
        }
        prev
    }
}

impl Node {
    /// Appends to `out` the records under this node whose key lies between
    /// `lo` and `hi`, both included: each key with a copy of its document.
    pub(crate) fn collect(
        &self,
        lo: u128,
        hi: u128,
        out: &mut Vec<(u128, bson::Document)>,
        Ghost(from): Ghost<int>,
        Ghost(to): Ghost<int>,
        Ghost(height): Ghost<nat>,
        Ghost(min): Ghost<int>,
        Ghost(max): Ghost<int>,
    )
        requires
            self.wf(from, to, height, min, max),
        ensures
            row_views(final(out)@) == row_views(old(out)@) + between(self.records(), lo, hi),
        decreases height,
    {
        if self.is_leaf {
            let mut i: usize = 0;
            assert(row_views(out@) =~= row_views(old(out)@) + between(self.records().take(0), lo, hi));
            while i < self.keys.len()
                invariant
                    i <= self.keys@.len(),
                    self.is_leaf,
                    self.values@.len() == self.keys@.len(),
                    row_views(out@) == row_views(old(out)@) + between(
                        self.records().take(i as int),
                        lo,
                        hi,
                    ),
                decreases self.keys@.len() - i,
            {
                let ghost before = row_views(out@);
                let ghost r = self.records();
                assert(r.take(i + 1).drop_last() =~= r.take(i as int));
                assert(r.take(i + 1).last() == r[i as int]);
                let key = self.keys[i];
                if lo <= key && key <= hi {
                    out.push((key, clone_document(&self.values[i])));
                    assert(row_views(out@) =~= before.push(r[i as int]));
                }
                i += 1;
            }
            assert(self.records().take(self.keys@.len() as int) =~= self.records());
        } else {
            let mut i: usize = 0;
            assert(Node::records_of(self.children@, 0) =~= Seq::empty());
            assert(row_views(out@) =~= row_views(old(out)@) + between(
                Node::records_of(self.children@, 0),
                lo,
                hi,
            ));
            while i < self.children.len()
                invariant
                    i <= self.children@.len(),
                    !self.is_leaf,
                    self.wf(from, to, height, min, max),
                    row_views(out@) == row_views(old(out)@) + between(
                        Node::records_of(self.children@, i as nat),
                        lo,
                        hi,
                    ),
                decreases self.children@.len() - i,
            {
                let ghost before = row_views(out@);
                let ghost sofar = Node::records_of(self.children@, i as nat);
                proof {
                    lemma_between_append(sofar, self.children@[i as int].records(), lo, hi);
                    assert(self.children@[i as int].wf(
                        lower_bound(self.keys@, from, i as int),
                        upper_bound(self.keys@, to, i as int),
                        (height - 1) as nat,
                        min,
                        max,
                    ));
                }
                self.children[i].collect(
                    lo,
                    hi,
                    out,
                    Ghost(lower_bound(self.keys@, from, i as int)),
                    Ghost(upper_bound(self.keys@, to, i as int)),
                    Ghost((height - 1) as nat),
                    Ghost(min),
                    Ghost(max),
                );
                assert(row_views(out@) =~= row_views(old(out)@) + (between(sofar, lo, hi) + between(
                    self.children@[i as int].records(),
                    lo,
                    hi,
                )));
                i += 1;
            }
        }
    }
}

impl Node {
    /// The first record under this node whose key is at least `key`.
    pub(crate) fn first_from(
        &self,
        key: u128,
        Ghost(lo): Ghost<int>,
        Ghost(hi): Ghost<int>,
        Ghost(height): Ghost<nat>,
        Ghost(min): Ghost<int>,
        Ghost(max): Ghost<int>,
    ) -> (r: Option<(u128, &bson::Document)>)
        requires
            self.wf(lo, hi, height, min, max),
            lo <= key < hi,
            min >= 1,
        ensures
            match r {
                Some(e) => rank(self.records(), key) < self.records().len() && self.records()[rank(
                    self.records(),
                    key,
                )] == (e.0, doc_view(*e.1)),
                None => rank(self.records(), key) == self.records().len(),
            },
        decreases height,
    {
        if self.is_leaf {
            let mut i: usize = 0;
            while i < self.keys.len() && self.keys[i] < key
                invariant
                    i <= self.keys@.len(),
                    forall|j: int| 0 <= j < i ==> self.keys@[j] < key,
                decreases self.keys@.len() - i,
            {
                i += 1;
            }
            proof {
                let r = self.records();
                assert forall|j: int| 0 <= j < i implies (#[trigger] r[j]).0 < key by {
                    assert(self.keys@[j] < key);
                }
                lemma_rank_is(r, key, i as int);
            }
            if i < self.keys.len() {
                Some((self.keys[i], &self.values[i]))
            } else {
                None
            }
        } else {
            let i = self.index_of_child(key);
            let ghost clo = lower_bound(self.keys@, lo, i as int);
            let ghost chi = upper_bound(self.keys@, hi, i as int);
            let ghost a = all_records_of(self.children@.take(i as int));
            let ghost x = self.children@[i as int].records();
            let ghost b = all_records_of(self.children@.skip(i + 1));
            proof {
                lemma_node_parts(*self, lo, hi, height, min, max, i as int);
                lemma_rank_middle(a, x, b, key);
                if i > 0 {
                    assert(lo <= self.keys@[i - 1] < hi);
                }
                if i < self.keys@.len() {
                    assert(lo <= self.keys@[i as int] < hi);
                }
            }
            let here = self.children[i].first_from(
                key,
                Ghost(clo),
                Ghost(chi),
                Ghost((height - 1) as nat),
                Ghost(min),
                Ghost(max),
            );
            if here.is_some() {
                proof {
                    crate::records::lemma_rank(x, key);
                }
                assert((a + x + b)[a.len() + rank(x, key)] == x[rank(x, key)]);
                return here;
            }
            if i < self.children.len() - 1 {
                let next = &self.children[i + 1];
                let ghost nlo = lower_bound(self.keys@, lo, i + 1);
                let ghost nhi = upper_bound(self.keys@, hi, i + 1);
                proof {
                    if i + 1 < self.keys@.len() {
                        assert(lo <= self.keys@[i + 1] < hi);
                        assert(self.keys@[i as int] < self.keys@[i + 1]);
                    }
                    assert(next.wf(nlo, nhi, (height - 1) as nat, min, max));
                    lemma_has_record(*next, nlo, nhi, (height - 1) as nat, min, max);
                    lemma_node_records(*next, nlo, nhi, (height - 1) as nat, min, max);
                    let y = next.records();
                    lemma_rank_is(y, self.keys@[i as int], 0);
                    let rest = self.children@.skip(i + 2);
                    assert(self.children@.skip(i + 1) =~= seq![*next] + rest);
                    lemma_records_of_append(seq![*next], rest);
                    lemma_records_of_one(*next);
                    assert(b[0] == y[0]);
                    assert((a + x + b)[(a.len() + x.len()) as int] == b[0]);
                }
                let first = next.first_from(
                    self.keys[i],
                    Ghost(nlo),
                    Ghost(nhi),
                    Ghost((height - 1) as nat),
                    Ghost(min),
                    Ghost(max),
                );
                return first;
            }
            proof {
                assert(self.children@.skip(i + 1) =~= Seq::empty());
                assert(b.len() == 0);
            }
            None
        }
    }
}

/// A number of records as a machine number: the greatest one where the
/// number is greater.
pub open spec fn capped(n: int) -> usize {
    if n <= usize::MAX {
        n as usize
    } else {
        usize::MAX
    }
}

impl Node {
    /// The number of records under this node, or the greatest number that
    /// fits where there are more.
    pub(crate) fn count(
        &self,
        Ghost(from): Ghost<int>,
        Ghost(to): Ghost<int>,
        Ghost(height): Ghost<nat>,
        Ghost(min): Ghost<int>,
        Ghost(max): Ghost<int>,
    ) -> (n: usize)
        requires
            self.wf(from, to, height, min, max),
        ensures
            n == capped(self.records().len() as int),
        decreases height,
    {
        if self.is_leaf {
            return self.keys.len();
        }
        let mut total: usize = 0;
        let mut i: usize = 0;
        assert(Node::records_of(self.children@, 0) =~= Seq::empty());
        while i < self.children.len()
            invariant
                i <= self.children@.len(),
                !self.is_leaf,
                self.wf(from, to, height, min, max),
                total == capped(Node::records_of(self.children@, i as nat).len() as int),
            decreases self.children@.len() - i,
        {
            proof {
                assert(self.children@[i as int].wf(
                    lower_bound(self.keys@, from, i as int),
                    upper_bound(self.keys@, to, i as int),
                    (height - 1) as nat,
                    min,
                    max,
                ));
            }
            let below = self.children[i].count(
                Ghost(lower_bound(self.keys@, from, i as int)),
                Ghost(upper_bound(self.keys@, to, i as int)),
                Ghost((height - 1) as nat),
                Ghost(min),
                Ghost(max),
            );
            total = if below > usize::MAX - total {
                usize::MAX
            } else {
                total + below
            };
            i += 1;
        }
        total
    }
}

/// A B+-tree from 128-bit keys to documents.
pub struct BPlusTree {
    pub root: Node,
    pub max_capacity: usize,
    pub min_capacity: usize,
    pub depth: usize,
}

impl BPlusTree {
    /// The records of the tree, in ascending order of key.
    pub open spec fn records(self) -> Records {
        self.root.records()
    }

    /// What holds of every tree: a node holds at most `max_capacity` keys, a
    /// node other than the root at least half of that; an inner root has a
    /// key; the keys of every node ascend and lie in the bounds that the
    /// separators above it set; every leaf lies `depth` levels below the
    /// root.
    pub open spec fn wf(self) -> bool {
        &&& self.max_capacity >= 2
        &&& self.min_capacity == self.max_capacity / 2
        &&& self.root.wf(
            0,
            key_limit(),
            self.depth as nat,
            self.min_capacity as int,
            self.max_capacity as int,
        )
        &&& self.root.keys@.len() <= self.max_capacity
        &&& !self.root.is_leaf ==> self.root.keys@.len() >= 1
    }

    /// Whether putting a document at `key` makes the tree one level deeper:
    /// whether the root is full and gains a key, and so is split under a new
    /// root.
    pub open spec fn grows_on(self, key: u128) -> bool {
        self.root.keys@.len() == self.max_capacity && self.root.gains_key(
            key,
            self.max_capacity as int,
        )
    }

    /// The keys of the records of a tree ascend strictly: no key comes
    /// twice.
    pub proof fn law_records_ascend(self)
        requires
            self.wf(),
        ensures
            ascending(self.records()),
    {
        lemma_node_records(
            self.root,
            0,
            key_limit(),
            self.depth as nat,
            self.min_capacity as int,
            self.max_capacity as int,
        );
    }

    /// An empty tree whose nodes hold at most `max_capacity` keys, and at
    /// most two where `max_capacity` is less.
    pub fn new(max_capacity: usize) -> (tree: BPlusTree)
        ensures
            tree.wf(),
            tree.records().len() == 0,
            tree.max_capacity == if max_capacity > 2 {
                max_capacity
            } else {
                2
            },
            tree.depth == 0,
    {
        let max_capacity = if max_capacity > 2 {
            max_capacity
        } else {
            2
        };
        BPlusTree { root: Node::new(true), max_capacity, min_capacity: max_capacity / 2, depth: 0 }
    }

    /// Puts `value` at `key` and returns the document that was there. A root
    /// that comes to hold one key too many is split in two under a new root,
    /// and the tree grows by one level; it grows in no other way. The new
    /// root has one key and two children: the two halves of the old root.
    pub fn insert(&mut self, key: u128, value: bson::Document) -> (prev: Option<bson::Document>)
        requires
            old(self).wf(),
            old(self).depth < usize::MAX,
        ensures
            final(self).wf(),
            final(self).max_capacity == old(self).max_capacity,
            final(self).records() == put(old(self).records(), key, doc_view(value)),
            match prev {
                Some(d) => found(old(self).records(), key) == Some(doc_view(d)),
                None => found(old(self).records(), key) is None,
            },
            final(self).depth == if old(self).grows_on(key) {
                old(self).depth + 1
            } else {
                old(self).depth as int
            },
            old(self).grows_on(key) ==> {
                &&& !final(self).root.is_leaf
                &&& final(self).root.keys@.len() == 1
                &&& final(self).root.children@.len() == 2
                &&& old(self).root.is_leaf ==> final(self).root.keys@[0] == final(self).root.children@[1].keys@[0]
            },
            !old(self).grows_on(key) ==> final(self).root.is_leaf == old(self).root.is_leaf,
    {
        let max = self.max_capacity;
        let ghost min = self.min_capacity as int;
        let ghost height = self.depth as nat;
        let prev = self.root.insert_below(
            key,
            value,
            max,
            Ghost(0),
            Ghost(key_limit()),
            Ghost(height),
            Ghost(min),
        );
        if self.root.keys.len() > max {
            let mut old_root = Node::new(false);
            std::mem::swap(&mut old_root, &mut self.root);
            let (sep, left, right) = if old_root.is_leaf {
                let parts = old_root.split_leaf();
                proof {
                    lemma_split_leaf(old_root, parts.1, parts.2, 0, key_limit(), min, max as int);
                }
                parts
            } else {
                let parts = old_root.split_internal();
                proof {
                    lemma_split_inner(
                        old_root,
                        parts.1,
                        parts.2,
                        0,
                        key_limit(),
                        height,
                        min,
                        max as int,
                    );
                }
                parts
            };
            self.root.keys.push(sep);
            self.root.children.push(left);
            self.root.children.push(right);
            self.depth = self.depth + 1;
            proof {
                let root = self.root;
                assert(root.keys@ =~= seq![sep]);
                assert(root.children@ =~= seq![left, right]);
                assert forall|j: int| 0 <= j < root.children@.len() implies {
                    &&& (#[trigger] root.children@[j]).wf(
                        lower_bound(root.keys@, 0, j),
                        upper_bound(root.keys@, key_limit(), j),
                        height,
                        min,
                        max as int,
                    )
                    &&& min <= root.children@[j].keys@.len() <= max
                } by {
                    if j == 0 {
                        assert(root.children@[j] == left);
                    } else {
                        assert(root.children@[j] == right);
                    }
                }
                crate::bptree::lemma_records_of_append(seq![left], seq![right]);
                assert(seq![left] + seq![right] =~= seq![left, right]);
                crate::bptree::lemma_records_of_one(left);
                crate::bptree::lemma_records_of_one(right);
            }
        }
        prev
    }

    /// Puts `value` at `key` and returns the document that was there.
    pub fn set(&mut self, key: u128, value: bson::Document) -> (prev: Option<bson::Document>)
        requires
            old(self).wf(),
            old(self).depth < usize::MAX,
        ensures
            final(self).wf(),
            final(self).max_capacity == old(self).max_capacity,
            final(self).records() == put(old(self).records(), key, doc_view(value)),
            match prev {
                Some(d) => found(old(self).records(), key) == Some(doc_view(d)),
                None => found(old(self).records(), key) is None,
            },
            final(self).depth == if old(self).grows_on(key) {
                old(self).depth + 1
            } else {
                old(self).depth as int
            },
            old(self).grows_on(key) ==> {
                &&& !final(self).root.is_leaf
                &&& final(self).root.keys@.len() == 1
                &&& final(self).root.children@.len() == 2
                &&& old(self).root.is_leaf ==> final(self).root.keys@[0] == final(self).root.children@[1].keys@[0]
            },
            !old(self).grows_on(key) ==> final(self).root.is_leaf == old(self).root.is_leaf,
    {
        self.insert(key, value)
    }

    /// The records whose key lies between `lo` and `hi`, both included, in
    /// ascending order of key: each key with a copy of its document.
    pub fn range(&self, lo: u128, hi: u128) -> (r: Vec<(u128, bson::Document)>)
        requires
            self.wf(),
        ensures
            row_views(r@) == between(self.records(), lo, hi),
    {
        let mut out: Vec<(u128, bson::Document)> = Vec::new();
        self.root.collect(
            lo,
            hi,
            &mut out,
            Ghost(0),
            Ghost(key_limit()),
            Ghost(self.depth as nat),
            Ghost(self.min_capacity as int),
            Ghost(self.max_capacity as int),
        );
        assert(row_views(out@) =~= between(self.records(), lo, hi));
        out
    }

    /// The number of records, or the greatest number that fits where there
    /// are more.
    pub fn len(&self) -> (n: usize)
        requires
            self.wf(),
        ensures
            n == if self.records().len() <= usize::MAX {
                self.records().len() as usize
            } else {
                usize::MAX
            },
    {
        self.root.count(
            Ghost(0),
            Ghost(key_limit()),
            Ghost(self.depth as nat),
            Ghost(self.min_capacity as int),
            Ghost(self.max_capacity as int),
        )
    }

    /// The leaf that `key` belongs to.
    pub fn find_leaf(&self, key: u128) -> (leaf: &Node)
        requires
            self.wf(),
        ensures
            leaf.is_valid_leaf(),
            found(leaf.records(), key) == found(self.records(), key),
    {
        let mut node = &self.root;
        let ghost mut lo: int = 0;
        let ghost mut hi: int = key_limit();
        let ghost mut height: nat = self.depth as nat;
        while !node.is_leaf
            invariant
                node.wf(lo, hi, height, self.min_capacity as int, self.max_capacity as int),
                lo <= key < hi,
                found(node.records(), key) == found(self.records(), key),
            decreases height,
        {
            let ghost i = node.child_position(key);
            proof {
                Node::lemma_position_in(node.keys@, key);
                lemma_node_parts(
                    *node,
                    lo,
                    hi,
                    height,
                    self.min_capacity as int,
                    self.max_capacity as int,
                    i,
                );
                lemma_rank_middle(
                    crate::bptree::all_records_of(node.children@.take(i)),
                    node.children@[i].records(),
                    crate::bptree::all_records_of(node.children@.skip(i + 1)),
                    key,
                );
                let nlo = lower_bound(node.keys@, lo, i);
                let nhi = upper_bound(node.keys@, hi, i);
                if i > 0 {
                    assert(lo <= node.keys@[i - 1] < hi);
                }
                if i < node.keys@.len() {
                    assert(lo <= node.keys@[i] < hi);
                }
                lo = nlo;
                hi = nhi;
                height = (height - 1) as nat;
            }
            node = node.get_child(key);
        }
        node
    }

    /// A copy of the document at `key`.
    pub fn lookup(&self, key: u128) -> (r: Option<bson::Document>)
        requires
            self.wf(),
        ensures
            match r {
                Some(d) => found(self.records(), key) == Some(doc_view(d)),
                None => found(self.records(), key) is None,
            },
    {
        let leaf = self.find_leaf(key);
        let i = leaf.index_of_child(key);
        proof {
            lemma_leaf_found(leaf.keys@, leaf.values@, key);
        }
        if i > 0 && leaf.keys[i - 1] == key {
            Some(clone_document(&leaf.values[i - 1]))
        } else {
            None
        }
    }

    /// A copy of the document at `key`.
    pub fn get(&self, key: u128) -> (r: Option<bson::Document>)
        requires
            self.wf(),
        ensures
            match r {
                Some(d) => found(self.records(), key) == Some(doc_view(d)),
                None => found(self.records(), key) is None,
            },
    {
        self.lookup(key)
    }
}

/// A cursor over the records of a tree, in ascending order of key. It stands
/// before the least record whose key is at least `from`; without a `from` it
/// has nothing to yield.
pub struct Cursor<'a> {
    pub tree: &'a BPlusTree,
    pub from: Option<u128>,
}

impl<'a> Cursor<'a> {
    /// The records that the cursor has yet to yield.
    pub open spec fn rest(self) -> Records {
        match self.from {
            Some(key) => self.tree.records().skip(rank(self.tree.records(), key)),
            None => Seq::empty(),
        }
    }

    /// Places the cursor before the least record whose key is at least
    /// `key`; past the end where every key is smaller.
    pub fn seek(&mut self, key: u128)
        ensures
            final(self).tree == old(self).tree,
            final(self).rest() == old(self).tree.records().skip(
                rank(old(self).tree.records(), key),
            ),
    {
        self.from = Some(key);
    }

    /// Places the cursor before the first record.
    pub fn seek_to_first(&mut self)
        ensures
            final(self).tree == old(self).tree,
            final(self).rest() == old(self).tree.records(),
    {
        self.from = Some(0);
        proof {
            let r = self.tree.records();
            lemma_rank_is(r, 0, 0);
            assert(r.skip(0) =~= r);
        }
    }

    /// Yields the next record, as its key and a copy of its document, and
    /// moves past it; `None` once nothing is left.
    pub fn next(&mut self) -> (r: Option<(u128, bson::Document)>)
        requires
            old(self).tree.wf(),
        ensures
            final(self).tree == old(self).tree,
            match r {
                Some(e) => {
                    &&& old(self).rest().len() > 0
                    &&& old(self).rest()[0] == (e.0, doc_view(e.1))
                    &&& final(self).rest() == old(self).rest().drop_first()
                },
                None => old(self).rest().len() == 0 && final(self).rest().len() == 0,
            },
    {
        let from = match self.from {
            Some(k) => k,
            None => {
                return None;
            },
        };
        let tree = self.tree;
        let ghost records = tree.records();
        let ghost p = rank(records, from);
        proof {
            crate::records::lemma_rank(records, from);
            tree.law_records_ascend();
        }
        let found = tree.root.first_from(
            from,
            Ghost(0),
            Ghost(key_limit()),
            Ghost(tree.depth as nat),
            Ghost(tree.min_capacity as int),
            Ghost(tree.max_capacity as int),
        );
        match found {
            None => {
                self.from = None;
                None
            },
            Some((key, document)) => {
                let row = clone_document(document);
                if key == u128::MAX {
                    self.from = None;
                    proof {
                        if p + 1 < records.len() {
                            assert(records[p].0 < records[p + 1].0);
                        }
                        assert(records.skip(p).drop_first() =~= Seq::empty());
                    }
                } else {
                    self.from = Some(key + 1);
                    proof {
                        assert forall|j: int| 0 <= j < p + 1 implies (#[trigger] records[j]).0 < key
                            + 1 by {
                            if j < p {
                                assert(records[j].0 < records[p].0);
                            }
                        }
                        if p + 1 < records.len() {
                            assert(records[p].0 < records[p + 1].0);
                        }
                        lemma_rank_is(records, (key + 1) as u128, p + 1);
                        assert(records.skip(p + 1) =~= records.skip(p).drop_first());
                    }
                }
                Some((key, row))
            },
        }
    }
}

impl BPlusTree {
    /// A cursor over the records of the tree. It has nothing to yield until it
    /// is placed.
    pub fn iter(&self) -> (c: Cursor<'_>)
        ensures
            *c.tree == *self,
            c.rest().len() == 0,
    {
        Cursor { tree: self, from: None }
    }
}

} // verus!
