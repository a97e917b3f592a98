//! A B+-tree from 128-bit keys to row documents. Nodes own their children, the
//! descent carries the parent context, and every leaf lies at the same depth.

use crate::document::{doc_view, Entries};
use crate::records::{ascending, within};
use vstd::prelude::*;

verus! {

/// Whether each key is smaller than the next.
pub open spec fn strictly_increasing(keys: Seq<u128>) -> bool {
    forall|i: int, j: int| 0 <= i < j < keys.len() ==> keys[i] < keys[j]
}

/// Where a leaf of `n` records is split: the left node takes this many.
pub open spec fn leaf_split_point(n: int) -> int {
    (n + 1) / 2
}

/// Where an inner node of `n` keys is split: the position of the key that
/// moves up.
pub open spec fn inner_split_point(n: int) -> int {
    n / 2
}

/// The records of a leaf: each key with the entries of its document.
pub open spec fn leaf_records(keys: Seq<u128>, values: Seq<bson::Document>) -> Seq<(u128, Entries)> {
    Seq::new(keys.len(), |i: int| (keys[i], doc_view(values[i])))
}

/// A node of the tree. A leaf holds keys and, at the same positions, their
/// documents. An inner node holds separator keys and one child more than it
/// has keys: child `i` holds the keys below separator `i` and not below
/// separator `i - 1`.
pub struct Node {
    pub is_leaf: bool,
    pub keys: Vec<u128>,
    pub children: Vec<Node>,
    pub values: Vec<bson::Document>,
}

impl Node {
    /// A leaf whose keys ascend, each with a document.
    pub open spec fn is_valid_leaf(self) -> bool {
        &&& self.is_leaf
        &&& self.children@.len() == 0
        &&& self.values@.len() == self.keys@.len()
        &&& strictly_increasing(self.keys@)
    }

    /// An inner node whose keys ascend, with one child more than keys.
    pub open spec fn is_valid_inner(self) -> bool {
        &&& !self.is_leaf
        &&& self.values@.len() == 0
        &&& self.children@.len() == self.keys@.len() + 1
        &&& strictly_increasing(self.keys@)
    }

    /// The position of the child that `key` belongs to: the number of keys
    /// before the first one that is greater than `key`.
    pub open spec fn child_position(self, key: u128) -> int {
        Self::position_in(self.keys@, key)
    }

    /// The number of keys before the first one that is greater than `key`.
    pub open spec fn position_in(keys: Seq<u128>, key: u128) -> int
        decreases keys.len(),
    {
        if keys.len() == 0 {
            0
        } else if key < keys[0] {
            0
        } else {
            1 + Self::position_in(keys.drop_first(), key)
        }
    }

    /// What pins `position_in` down: every key before it is at most `key`, and
    /// the key at it, if there is one, is greater.
    pub proof fn lemma_position_in(keys: Seq<u128>, key: u128)
        ensures
            0 <= Self::position_in(keys, key) <= keys.len(),
            forall|j: int| 0 <= j < Self::position_in(keys, key) ==> keys[j] <= key,
            Self::position_in(keys, key) < keys.len() ==> key < keys[Self::position_in(keys, key)],
        decreases keys.len(),
    {
        if keys.len() > 0 && key >= keys[0] {
            let rest = keys.drop_first();
            Self::lemma_position_in(rest, key);
            assert forall|j: int| 0 <= j < Self::position_in(keys, key) implies keys[j] <= key by {
                if j > 0 {
                    assert(keys[j] == rest[j - 1]);
                }
            }
        }
    }

    /// The only position with the two properties of `lemma_position_in`.
    pub proof fn lemma_position_in_unique(keys: Seq<u128>, key: u128, p: int)
        requires
            0 <= p <= keys.len(),
            forall|j: int| 0 <= j < p ==> keys[j] <= key,
            p < keys.len() ==> key < keys[p],
        ensures
            Self::position_in(keys, key) == p,
    {
        Self::lemma_position_in(keys, key);
    }

    /// An empty node: a leaf or an inner node without keys.
    pub fn new(is_leaf: bool) -> (node: Node)
        ensures
            node.is_leaf == is_leaf,
            node.keys@.len() == 0,
            node.children@.len() == 0,
            node.values@.len() == 0,
    {
        Node { is_leaf, keys: Vec::new(), children: Vec::new(), values: Vec::new() }
    }

    /// The position of the child that `key` belongs to.
    pub fn index_of_child(&self, key: u128) -> (i: usize)
        ensures
            i == self.child_position(key),
            i <= self.keys@.len(),
            forall|j: int| 0 <= j < i ==> self.keys@[j] <= key,
            i < self.keys@.len() ==> key < self.keys@[i as int],
    {
        let mut i: usize = 0;
        while i < self.keys.len() && !(key < self.keys[i])
            invariant
                i <= self.keys@.len(),
                forall|j: int| 0 <= j < i ==> self.keys@[j] <= key,
            decreases self.keys@.len() - i,
        {
            i += 1;
        }
        proof {
            Self::lemma_position_in_unique(self.keys@, key, i as int);
        }
        i
    }

    /// The position of `key` among the keys of this node: the first one, if
    /// the key occurs, else `None`.
    pub fn index_of_key(&self, key: u128) -> (r: Option<usize>)
        ensures
            match r {
                Some(i) => i < self.keys@.len() && self.keys@[i as int] == key && forall|j: int|
                    0 <= j < i ==> self.keys@[j] != key,
                None => !self.keys@.contains(key),
            },
    {
        let mut i: usize = 0;
        while i < self.keys.len()
            invariant
                i <= self.keys@.len(),
                forall|j: int| 0 <= j < i ==> self.keys@[j] != key,
            decreases self.keys@.len() - i,
        {
            if self.keys[i] == key {
                return Some(i);
            }
            i += 1;
        }
        None
    }

    /// The child that `key` belongs to.
    pub fn get_child(&self, key: u128) -> (child: &Node)
        requires
            self.children@.len() == self.keys@.len() + 1,
        ensures
            *child == self.children@[self.child_position(key)],
    {
        let i = self.index_of_child(key);
        &self.children[i]
    }

    /// Puts the nodes of `value` in the place of the child that `key` belongs
    /// to, and `key` among the keys at that child's position.
    pub fn set_child(&mut self, key: u128, value: Vec<Node>)
        requires
            old(self).children@.len() == old(self).keys@.len() + 1,
        ensures
            final(self).is_leaf == old(self).is_leaf,
            final(self).values == old(self).values,
            final(self).keys@ == old(self).keys@.insert(old(self).child_position(key), key),
            final(self).children@ == old(self).children@.take(old(self).child_position(key)) + value@
                + old(self).children@.skip(old(self).child_position(key) + 1),
    {
        let i = self.index_of_child(key);
        self.keys.insert(i, key);
        let mut tail = self.children.split_off(i);
        tail.remove(0);
        let mut inserted = value;
        self.children.append(&mut inserted);
        self.children.append(&mut tail);
        assert(self.children@ =~= old(self).children@.take(i as int) + value@ + old(self).children@.skip(
            i + 1,
        ));
    }

    /// The document at `key` in this leaf.
    pub fn get(&self, key: u128) -> (r: Option<&bson::Document>)
        requires
            self.values@.len() == self.keys@.len(),
        ensures
            match r {
                Some(d) => exists|i: int|
                    0 <= i < self.keys@.len() && self.keys@[i] == key && *d == self.values@[i]
                        && forall|j: int| 0 <= j < i ==> self.keys@[j] != key,
                None => !self.keys@.contains(key),
            },
    {
        match self.index_of_key(key) {
            Some(i) => Some(&self.values[i]),
            None => None,
        }
    }

    /// Sets the document at `key` in this leaf and returns the one that was
    /// there. A new key goes where the order of the keys puts it.
    pub fn set(&mut self, key: u128, value: bson::Document) -> (prev: Option<bson::Document>)
        requires
            old(self).is_valid_leaf(),
        ensures
            final(self).is_valid_leaf(),
            match prev {
                Some(d) => {
                    let i = old(self).child_position(key) - 1;
                    &&& 0 <= i < old(self).keys@.len()
                    &&& old(self).keys@[i] == key
                    &&& d == old(self).values@[i]
                    &&& final(self).keys@ == old(self).keys@
                    &&& final(self).values@ == old(self).values@.update(i, value)
                },
                None => {
                    let i = old(self).child_position(key);
                    &&& !old(self).keys@.contains(key)
                    &&& final(self).keys@ == old(self).keys@.insert(i, key)
                    &&& final(self).values@ == old(self).values@.insert(i, value)
                },
            },
    {
        let i = self.index_of_child(key);
        if i > 0 && self.keys[i - 1] == key {
            self.values.push(value);
            let prev = self.values.swap_remove(i - 1);
            assert(self.values@ =~= old(self).values@.update(i - 1, value));
            Some(prev)
        } else {
            assert(!old(self).keys@.contains(key)) by {
                if old(self).keys@.contains(key) {
                    let j = choose|j: int| 0 <= j < old(self).keys@.len() && old(self).keys@[j] == key;
                    if j < i {
                        assert(old(self).keys@[j] <= old(self).keys@[i - 1]);
                    }
                }
            }
            self.keys.insert(i, key);
            self.values.insert(i, value);
            assert(strictly_increasing(self.keys@)) by {
                assert forall|a: int, b: int| 0 <= a < b < self.keys@.len() implies self.keys@[a]
                    < self.keys@[b] by {
                    let old_keys = old(self).keys@;
                    if a < i && b > i {
                        assert(old_keys[a] < old_keys[b - 1]);
                    }
                    if a < i && b == i {
                        assert(old_keys[a] <= key);
                    }
                }
            }
            None
        }
    }

    /// Splits a leaf in two at the middle: the left node takes the first half
    /// of the records, rounded up, the right node the rest. Returns the least
    /// key of the right node, then the two nodes.
    pub fn split_leaf(self) -> (r: (u128, Node, Node))
        requires
            self.is_valid_leaf(),
            self.keys@.len() >= 2,
        ensures
            r.1.is_valid_leaf(),
            r.2.is_valid_leaf(),
            r.1.keys@ == self.keys@.take(leaf_split_point(self.keys@.len() as int)),
            r.1.values@ == self.values@.take(leaf_split_point(self.keys@.len() as int)),
            r.2.keys@ == self.keys@.skip(leaf_split_point(self.keys@.len() as int)),
            r.2.values@ == self.values@.skip(leaf_split_point(self.keys@.len() as int)),
            r.0 == self.keys@[leaf_split_point(self.keys@.len() as int)],
    {
        let mut left = self;
        let mid: usize = left.keys.len() - left.keys.len() / 2;
        let right_keys = left.keys.split_off(mid);
        let right_values = left.values.split_off(mid);
        let right = Node { is_leaf: true, keys: right_keys, children: Vec::new(), values: right_values };
        let separator = right.keys[0];
        (separator, left, right)
    }

    /// Splits an inner node in two around its middle key: the left node takes
    /// the keys before it and their children, the right node the keys after it
    /// and theirs. Returns the middle key, then the two nodes.
    pub fn split_internal(self) -> (r: (u128, Node, Node))
        requires
            self.is_valid_inner(),
            self.keys@.len() >= 1,
        ensures
            r.1.is_valid_inner(),
            r.2.is_valid_inner(),
            r.0 == self.keys@[inner_split_point(self.keys@.len() as int)],
            r.1.keys@ == self.keys@.take(inner_split_point(self.keys@.len() as int)),
            r.1.children@ == self.children@.take(inner_split_point(self.keys@.len() as int) + 1),
            r.2.keys@ == self.keys@.skip(inner_split_point(self.keys@.len() as int) + 1),
            r.2.children@ == self.children@.skip(inner_split_point(self.keys@.len() as int) + 1),
    {
        let mut left = self;
        let mid: usize = left.keys.len() / 2;
        let right_keys = left.keys.split_off(mid + 1);
        let right_children = left.children.split_off(mid + 1);
        let separator = left.keys.remove(mid);
        let right = Node {
            is_leaf: false,
            keys: right_keys,
            children: right_children,
            values: Vec::new(),
        };
        assert(left.keys@ =~= self.keys@.take(mid as int));
        (separator, left, right)
    }
}

/// The lower bound of the keys under child `i` of a node whose own lower
/// bound is `lo`.
pub open spec fn lower_bound(keys: Seq<u128>, lo: int, i: int) -> int {
    if i == 0 {
        lo
    } else {
        keys[i - 1] as int
    }
}

/// The upper bound, not included, of the keys under child `i` of a node whose
/// own upper bound is `hi`.
pub open spec fn upper_bound(keys: Seq<u128>, hi: int, i: int) -> int {
    if i == keys.len() {
        hi
    } else {
        keys[i] as int
    }
}

impl Node {
    /// The records under this node, in the order of the tree: those of a
    /// leaf, or those of the children of an inner node one after another.
    pub open spec fn records(self) -> Seq<(u128, Entries)>
        decreases self, 0nat,
    {
        if self.is_leaf {
            leaf_records(self.keys@, self.values@)
        } else {
            Self::records_of(self.children@, self.children@.len())
        }
    }

    /// The records under the first `n` of a list of nodes.
    pub open spec fn records_of(nodes: Seq<Node>, n: nat) -> Seq<(u128, Entries)>
        decreases nodes, n,
    {
        if n == 0 || n > nodes.len() {
            Seq::empty()
        } else {
            Self::records_of(nodes, (n - 1) as nat) + nodes[n - 1].records()
        }
    }

    /// Whether putting a document at `key` under this node adds a key to the
    /// node itself: to a leaf, where it lacks the key; to an inner node,
    /// where the child that the key belongs to is full and gains a key, and
    /// so is split.
    pub open spec fn gains_key(self, key: u128, max: int) -> bool
        decreases self,
    {
        if self.is_leaf {
            !self.keys@.contains(key)
        } else {
            let i = self.child_position(key);
            0 <= i < self.children@.len() && self.children@[i].keys@.len() == max
                && self.children@[i].gains_key(key, max)
        }
    }

    /// Whether the subtree under this node is a B+-tree of the given height
    /// for keys from `lo` up to `hi`, not included: the keys of every node
    /// ascend and lie in the bounds that the separators above it set, no node
    /// below this one holds more than `max` keys or fewer than `min`, and every
    /// leaf lies `height` levels below this node.
    pub open spec fn wf(self, lo: int, hi: int, height: nat, min: int, max: int) -> bool
        decreases self,
    {
        &&& strictly_increasing(self.keys@)
        &&& forall|i: int| 0 <= i < self.keys@.len() ==> lo <= #[trigger] self.keys@[i] < hi
        &&& if self.is_leaf {
            &&& height == 0
            &&& self.children@.len() == 0
            &&& self.values@.len() == self.keys@.len()
        } else {
            &&& height > 0
            &&& self.values@.len() == 0
            &&& self.children@.len() == self.keys@.len() + 1
            &&& forall|i: int|
                0 <= i < self.children@.len() ==> {
                    &&& (#[trigger] self.children@[i]).wf(
                        lower_bound(self.keys@, lo, i),
                        upper_bound(self.keys@, hi, i),
                        (height - 1) as nat,
                        min,
                        max,
                    )
                    &&& min <= self.children@[i].keys@.len() <= max
                }
        }
    }
}

/// All records under a list of nodes.
pub open spec fn all_records_of(nodes: Seq<Node>) -> Seq<(u128, Entries)> {
    Node::records_of(nodes, nodes.len())
}

/// The records under the first `n` nodes depend on those nodes only.
pub proof fn lemma_records_of_prefix(a: Seq<Node>, b: Seq<Node>, n: nat)
    requires
        n <= a.len(),
        n <= b.len(),
        forall|i: int| 0 <= i < n ==> a[i] == b[i],
    ensures
        Node::records_of(a, n) == Node::records_of(b, n),
    decreases n,
{
    if n > 0 {
        lemma_records_of_prefix(a, b, (n - 1) as nat);
    }
}

/// The records under two lists of nodes, one after the other, are the records
/// under the first followed by those under the second.
pub proof fn lemma_records_of_append(a: Seq<Node>, b: Seq<Node>)
    ensures
        all_records_of(a + b) == all_records_of(a) + all_records_of(b),
    decreases b.len(),
{
    if b.len() == 0 {
        assert(a + b =~= a);
        assert(all_records_of(a) + all_records_of(b) =~= all_records_of(a));
    } else {
        let init = b.drop_last();
        lemma_records_of_append(a, init);
        let whole = a + b;
        let n = whole.len();
        lemma_records_of_prefix(whole, a + init, (n - 1) as nat);
        lemma_records_of_prefix(b, init, (b.len() - 1) as nat);
        assert(whole[n - 1] == b.last());
        assert(all_records_of(whole) =~= all_records_of(a) + (all_records_of(init) + b.last().records()));
    }
}

/// The records under one node, as a list of nodes.
pub proof fn lemma_records_of_one(node: Node)
    ensures
        all_records_of(seq![node]) == node.records(),
{
    let s = seq![node];
    assert(Node::records_of(s, 0) =~= Seq::empty());
    assert(Node::records_of(s, 1) =~= Node::records_of(s, 0) + s[0].records());
}

/// The records of a leaf cut in two are the records of the first part
/// followed by those of the second.
pub proof fn lemma_leaf_records_cut(keys: Seq<u128>, values: Seq<bson::Document>, at: int)
    requires
        0 <= at <= keys.len(),
        keys.len() == values.len(),
    ensures
        leaf_records(keys, values) == leaf_records(keys.take(at), values.take(at)) + leaf_records(
            keys.skip(at),
            values.skip(at),
        ),
{
    assert(leaf_records(keys, values) =~= leaf_records(keys.take(at), values.take(at))
        + leaf_records(keys.skip(at), values.skip(at)));
}

/// The records under the first `n` children of a well-formed inner node, and
/// the records of a well-formed leaf (for which `n` is 0), ascend and lie in
/// the bounds of the node.
pub proof fn lemma_records_in_order(node: Node, lo: int, hi: int, height: nat, min: int, max: int, n: nat)
    requires
        node.wf(lo, hi, height, min, max),
        n <= node.children@.len(),
    ensures
        node.is_leaf ==> within(node.records(), lo, hi) && ascending(node.records()),
        !node.is_leaf ==> ascending(Node::records_of(node.children@, n)) && within(
            Node::records_of(node.children@, n),
            lo,
            if n == 0 {
                lo
            } else {
                upper_bound(node.keys@, hi, n - 1)
            },
        ),
    decreases node, n,
{
    if node.is_leaf {
        let r = node.records();
        assert forall|i: int, j: int| 0 <= i < j < r.len() implies r[i].0 < r[j].0 by {
            assert(node.keys@[i] < node.keys@[j]);
        }
        assert forall|i: int| 0 <= i < r.len() implies lo <= (#[trigger] r[i]).0 < hi by {
            assert(lo <= node.keys@[i] < hi);
        }
    } else if n > 0 {
        let kids = node.children@;
        let m = (n - 1) as nat;
        lemma_records_in_order(node, lo, hi, height, min, max, m);
        let child = kids[n - 1];
        let clo = lower_bound(node.keys@, lo, n - 1);
        let chi = upper_bound(node.keys@, hi, n - 1);
        assert(child.wf(clo, chi, (height - 1) as nat, min, max));
        lemma_records_in_order(child, clo, chi, (height - 1) as nat, min, max, child.children@.len());
        let before = Node::records_of(kids, m);
        let mine = child.records();
        assert(within(mine, clo, chi)) by {
            if !child.is_leaf {
                assert(upper_bound(child.keys@, chi, child.children@.len() - 1) == chi);
            }
        }
        assert(ascending(mine));
        let all = Node::records_of(kids, n);
        assert(all =~= before + mine);
        if n - 1 > 0 {
            assert(lo <= node.keys@[n - 2] < hi);
            if n - 1 < node.keys@.len() {
                assert(node.keys@[n - 2] < node.keys@[n - 1]);
            }
        }
        if n - 1 < node.keys@.len() {
            assert(lo <= node.keys@[n - 1] < hi);
        }
        assert forall|i: int| 0 <= i < all.len() implies lo <= (#[trigger] all[i]).0 < chi by {
            if i < before.len() {
                assert(all[i] == before[i]);
            } else {
                assert(all[i] == mine[i - before.len()]);
            }
        }
        assert forall|i: int, j: int| 0 <= i < j < all.len() implies all[i].0 < all[j].0 by {
            if j < before.len() {
                assert(all[i] == before[i] && all[j] == before[j]);
            } else if i >= before.len() {
                assert(all[i] == mine[i - before.len()] && all[j] == mine[j - before.len()]);
            } else {
                assert(all[i] == before[i]);
                assert(all[j] == mine[j - before.len()]);
            }
        }
    } else {
        assert(Node::records_of(node.children@, 0) =~= Seq::empty());
    }
}

/// The records under a well-formed node ascend and lie in its bounds.
pub proof fn lemma_node_records(node: Node, lo: int, hi: int, height: nat, min: int, max: int)
    requires
        node.wf(lo, hi, height, min, max),
    ensures
        within(node.records(), lo, hi),
        ascending(node.records()),
{
    lemma_records_in_order(node, lo, hi, height, min, max, node.children@.len());
    if !node.is_leaf {
        assert(upper_bound(node.keys@, hi, node.children@.len() - 1) == hi);
    }
}

/// The records under the nodes after child `i` of a well-formed inner node
/// lie between the upper bound of that child and the upper bound of the node.
pub proof fn lemma_records_after(node: Node, lo: int, hi: int, height: nat, min: int, max: int, i: int, n: nat)
    requires
        node.wf(lo, hi, height, min, max),
        !node.is_leaf,
        0 <= i < node.children@.len(),
        n <= node.children@.len() - i - 1,
    ensures
        within(Node::records_of(node.children@.skip(i + 1), n), upper_bound(node.keys@, hi, i), hi),
    decreases n,
{
    let rest = node.children@.skip(i + 1);
    if n > 0 {
        lemma_records_after(node, lo, hi, height, min, max, i, (n - 1) as nat);
        let j = i + n;
        let child = node.children@[j];
        assert(rest[n - 1] == child);
        let clo = lower_bound(node.keys@, lo, j);
        let chi = upper_bound(node.keys@, hi, j);
        assert(child.wf(clo, chi, (height - 1) as nat, min, max));
        lemma_node_records(child, clo, chi, (height - 1) as nat, min, max);
        assert(node.keys@[i] <= node.keys@[j - 1]) by {
            if i < j - 1 {
                assert(node.keys@[i] < node.keys@[j - 1]);
            }
        }
        if j < node.keys@.len() {
            assert(lo <= node.keys@[j] < hi);
        }
        let before = Node::records_of(rest, (n - 1) as nat);
        let all = Node::records_of(rest, n);
        assert(all =~= before + child.records());
        assert forall|k: int| 0 <= k < all.len() implies upper_bound(node.keys@, hi, i) <= (
        #[trigger] all[k]).0 < hi by {
            if k < before.len() {
                assert(all[k] == before[k]);
            } else {
                assert(all[k] == child.records()[k - before.len()]);
            }
        }
    } else {
        assert(Node::records_of(rest, 0) =~= Seq::empty());
    }
}

/// The records under a well-formed inner node are those before child `i`,
/// below the lower bound of that child; then those under the child; then
/// those after it, not below its upper bound.
pub proof fn lemma_node_parts(node: Node, lo: int, hi: int, height: nat, min: int, max: int, i: int)
    requires
        node.wf(lo, hi, height, min, max),
        !node.is_leaf,
        0 <= i < node.children@.len(),
    ensures
        node.records() == all_records_of(node.children@.take(i)) + node.children@[i].records()
            + all_records_of(node.children@.skip(i + 1)),
        within(all_records_of(node.children@.take(i)), lo, lower_bound(node.keys@, lo, i)),
        within(all_records_of(node.children@.skip(i + 1)), upper_bound(node.keys@, hi, i), hi),
{
    let kids = node.children@;
    let a = kids.take(i);
    let b = kids.skip(i + 1);
    assert(kids =~= a + seq![kids[i]] + b);
    lemma_records_of_append(a + seq![kids[i]], b);
    lemma_records_of_append(a, seq![kids[i]]);
    lemma_records_of_one(kids[i]);
    lemma_records_of_prefix(kids, a, i as nat);
    lemma_records_in_order(node, lo, hi, height, min, max, i as nat);
    lemma_records_after(node, lo, hi, height, min, max, i, (kids.len() - i - 1) as nat);
    if i > 0 {
        assert(upper_bound(node.keys@, hi, i - 1) == lower_bound(node.keys@, lo, i));
    }
}

/// The records under an inner node are those under the children before child
/// `i`, those under that child, and those under the children after it.
pub proof fn lemma_node_cut(node: Node, i: int)
    requires
        !node.is_leaf,
        0 <= i < node.children@.len(),
    ensures
        node.records() == all_records_of(node.children@.take(i)) + node.children@[i].records()
            + all_records_of(node.children@.skip(i + 1)),
{
    let kids = node.children@;
    let a = kids.take(i);
    let b = kids.skip(i + 1);
    assert(kids =~= a + seq![kids[i]] + b);
    lemma_records_of_append(a + seq![kids[i]], b);
    lemma_records_of_append(a, seq![kids[i]]);
    lemma_records_of_one(kids[i]);
}

/// The two halves of a leaf that holds one key too many are well-formed
/// leaves on either side of the least key of the right half, neither too
/// small nor too large, and hold between them the records of the leaf.
pub proof fn lemma_split_leaf(c: Node, left: Node, right: Node, lo: int, hi: int, min: int, max: int)
    requires
        c.wf(lo, hi, 0, min, max),
        c.keys@.len() == max + 1,
        max >= 2,
        min == max / 2,
        left.is_valid_leaf(),
        right.is_valid_leaf(),
        left.keys@ == c.keys@.take(leaf_split_point(c.keys@.len() as int)),
        left.values@ == c.values@.take(leaf_split_point(c.keys@.len() as int)),
        right.keys@ == c.keys@.skip(leaf_split_point(c.keys@.len() as int)),
        right.values@ == c.values@.skip(leaf_split_point(c.keys@.len() as int)),
    ensures
        left.wf(lo, right.keys@[0] as int, 0, min, max),
        right.wf(right.keys@[0] as int, hi, 0, min, max),
        min <= left.keys@.len() <= max,
        min <= right.keys@.len() <= max,
        lo < right.keys@[0] < hi,
        left.records() + right.records() == c.records(),
{
    let mid = leaf_split_point(c.keys@.len() as int);
    let sep = c.keys@[mid];
    assert(right.keys@[0] == sep);
    assert(lo <= c.keys@[0]);
    assert(c.keys@[0] < c.keys@[mid]);
    assert(lo <= c.keys@[mid] < hi);
    assert forall|i: int| 0 <= i < left.keys@.len() implies lo <= #[trigger] left.keys@[i] < sep by {
        assert(left.keys@[i] == c.keys@[i]);
        assert(lo <= c.keys@[i] < hi);
        assert(c.keys@[i] < c.keys@[mid]);
    }
    assert forall|i: int| 0 <= i < right.keys@.len() implies sep <= #[trigger] right.keys@[i] < hi by {
        assert(right.keys@[i] == c.keys@[mid + i]);
        assert(lo <= c.keys@[mid + i] < hi);
        if i > 0 {
            assert(c.keys@[mid] < c.keys@[mid + i]);
        }
    }
    lemma_leaf_records_cut(c.keys@, c.values@, mid);
}

/// The two halves of an inner node that holds one key too many are
/// well-formed inner nodes on either side of its middle key, neither too
/// small nor too large, and hold between them the records of the node.
pub proof fn lemma_split_inner(
    c: Node,
    left: Node,
    right: Node,
    lo: int,
    hi: int,
    height: nat,
    min: int,
    max: int,
)
    requires
        c.wf(lo, hi, height, min, max),
        !c.is_leaf,
        c.keys@.len() == max + 1,
        max >= 2,
        min == max / 2,
        left.is_valid_inner(),
        right.is_valid_inner(),
        left.keys@ == c.keys@.take(inner_split_point(c.keys@.len() as int)),
        left.children@ == c.children@.take(inner_split_point(c.keys@.len() as int) + 1),
        right.keys@ == c.keys@.skip(inner_split_point(c.keys@.len() as int) + 1),
        right.children@ == c.children@.skip(inner_split_point(c.keys@.len() as int) + 1),
    ensures
        left.wf(lo, c.keys@[inner_split_point(c.keys@.len() as int)] as int, height, min, max),
        right.wf(c.keys@[inner_split_point(c.keys@.len() as int)] as int, hi, height, min, max),
        min <= left.keys@.len() <= max,
        min <= right.keys@.len() <= max,
        lo < c.keys@[inner_split_point(c.keys@.len() as int)] < hi,
        left.records() + right.records() == c.records(),
{
    let mid = inner_split_point(c.keys@.len() as int);
    let sep = c.keys@[mid];
    assert(lo <= c.keys@[0]);
    assert(c.keys@[0] < c.keys@[mid]);
    assert(lo <= c.keys@[mid] < hi);
    assert forall|i: int| 0 <= i < left.keys@.len() implies lo <= #[trigger] left.keys@[i] < sep by {
        assert(left.keys@[i] == c.keys@[i]);
        assert(lo <= c.keys@[i] < hi);
        assert(c.keys@[i] < c.keys@[mid]);
    }
    assert forall|i: int| 0 <= i < right.keys@.len() implies sep <= #[trigger] right.keys@[i] < hi by {
        assert(right.keys@[i] == c.keys@[mid + 1 + i]);
        assert(lo <= c.keys@[mid + 1 + i] < hi);
        assert(c.keys@[mid] < c.keys@[mid + 1 + i]);
    }
    assert forall|i: int| 0 <= i < left.children@.len() implies {
        &&& (#[trigger] left.children@[i]).wf(
            lower_bound(left.keys@, lo, i),
            upper_bound(left.keys@, sep as int, i),
            (height - 1) as nat,
            min,
            max,
        )
        &&& min <= left.children@[i].keys@.len() <= max
    } by {
        assert(left.children@[i] == c.children@[i]);
        assert(c.children@[i].wf(
            lower_bound(c.keys@, lo, i),
            upper_bound(c.keys@, hi, i),
            (height - 1) as nat,
            min,
            max,
        ));
        if i > 0 {
            assert(left.keys@[i - 1] == c.keys@[i - 1]);
        }
        if i < mid {
            assert(left.keys@[i] == c.keys@[i]);
        }
    }
    assert forall|i: int| 0 <= i < right.children@.len() implies {
        &&& (#[trigger] right.children@[i]).wf(
            lower_bound(right.keys@, sep as int, i),
            upper_bound(right.keys@, hi, i),
            (height - 1) as nat,
            min,
            max,
        )
        &&& min <= right.children@[i].keys@.len() <= max
    } by {
        let j = mid + 1 + i;
        assert(right.children@[i] == c.children@[j]);
        assert(c.children@[j].wf(
            lower_bound(c.keys@, lo, j),
            upper_bound(c.keys@, hi, j),
            (height - 1) as nat,
            min,
            max,
        ));
        if i > 0 {
            assert(right.keys@[i - 1] == c.keys@[j - 1]);
        }
        if i < right.keys@.len() {
            assert(right.keys@[i] == c.keys@[j]);
        }
    }
    assert(c.children@ =~= left.children@ + right.children@);
    lemma_records_of_append(left.children@, right.children@);
}

/// Where child `i` of a well-formed inner node gives way to two well-formed
/// nodes on either side of a new separator, the node stays well-formed and
/// holds the records before the child, those of the two nodes, and those
/// after the child.
pub proof fn lemma_splice(
    before: Node,
    after: Node,
    i: int,
    sep: u128,
    left: Node,
    right: Node,
    lo: int,
    hi: int,
    height: nat,
    min: int,
    max: int,
)
    requires
        before.wf(lo, hi, height, min, max),
        !before.is_leaf,
        !after.is_leaf,
        after.values@.len() == 0,
        0 <= i < before.children@.len(),
        lower_bound(before.keys@, lo, i) < sep < upper_bound(before.keys@, hi, i),
        left.wf(lower_bound(before.keys@, lo, i), sep as int, (height - 1) as nat, min, max),
        right.wf(sep as int, upper_bound(before.keys@, hi, i), (height - 1) as nat, min, max),
        min <= left.keys@.len() <= max,
        min <= right.keys@.len() <= max,
        after.keys@ == before.keys@.insert(i, sep),
        after.children@ == before.children@.take(i) + seq![left, right] + before.children@.skip(i + 1),
    ensures
        after.wf(lo, hi, height, min, max),
        after.records() == all_records_of(before.children@.take(i)) + (left.records()
            + right.records()) + all_records_of(before.children@.skip(i + 1)),
{
    let k0 = before.keys@;
    let k1 = after.keys@;
    if i > 0 {
        assert(lo <= k0[i - 1] < hi);
    }
    if i < k0.len() {
        assert(lo <= k0[i] < hi);
    }
    assert forall|a: int, b: int| 0 <= a < b < k1.len() implies k1[a] < k1[b] by {
        let a0 = if a < i { a } else { a - 1 };
        let b0 = if b < i { b } else { b - 1 };
        if a != i && b != i {
            assert(k0[a0] < k0[b0]);
        } else if a == i {
            if b0 > i {
                assert(k0[i] < k0[b0]);
            }
        } else {
            if a0 < i - 1 {
                assert(k0[a0] < k0[i - 1]);
            }
        }
    }
    assert forall|j: int| 0 <= j < k1.len() implies lo <= #[trigger] k1[j] < hi by {
        if j < i {
            assert(lo <= k0[j] < hi);
        } else if j > i {
            assert(lo <= k0[j - 1] < hi);
        }
    }
    assert forall|j: int| 0 <= j < after.children@.len() implies {
        &&& (#[trigger] after.children@[j]).wf(
            lower_bound(k1, lo, j),
            upper_bound(k1, hi, j),
            (height - 1) as nat,
            min,
            max,
        )
        &&& min <= after.children@[j].keys@.len() <= max
    } by {
        if j < i {
            assert(after.children@[j] == before.children@[j]);
            assert(before.children@[j].wf(
                lower_bound(k0, lo, j),
                upper_bound(k0, hi, j),
                (height - 1) as nat,
                min,
                max,
            ));
            if j > 0 {
                assert(k1[j - 1] == k0[j - 1]);
            }
            assert(k1[j] == k0[j]);
        } else if j == i {
            assert(after.children@[j] == left);
            assert(k1[i] == sep);
            if i > 0 {
                assert(k1[i - 1] == k0[i - 1]);
            }
        } else if j == i + 1 {
            assert(after.children@[j] == right);
            assert(k1[i] == sep);
            if j < k1.len() {
                assert(k1[j] == k0[i]);
            }
        } else {
            assert(after.children@[j] == before.children@[j - 1]);
            assert(before.children@[j - 1].wf(
                lower_bound(k0, lo, j - 1),
                upper_bound(k0, hi, j - 1),
                (height - 1) as nat,
                min,
                max,
            ));
            assert(k1[j - 1] == k0[j - 2]);
            if j < k1.len() {
                assert(k1[j] == k0[j - 1]);
            }
        }
    }
    let a = before.children@.take(i);
    let b = before.children@.skip(i + 1);
    lemma_records_of_append(a + seq![left, right], b);
    lemma_records_of_append(a, seq![left, right]);
    lemma_records_of_append(seq![left], seq![right]);
    assert(seq![left] + seq![right] =~= seq![left, right]);
    lemma_records_of_one(left);
    lemma_records_of_one(right);
}

impl Node {
    /// Whether this inner node is well-formed but for child `spare`, which may
    /// hold fewer than `min` keys.
    pub open spec fn wf_but(self, lo: int, hi: int, height: nat, min: int, max: int, spare: int) -> bool {
        &&& strictly_increasing(self.keys@)
        &&& forall|i: int| 0 <= i < self.keys@.len() ==> lo <= #[trigger] self.keys@[i] < hi
        &&& !self.is_leaf
        &&& height > 0
        &&& self.values@.len() == 0
        &&& self.children@.len() == self.keys@.len() + 1
        &&& forall|i: int|
            0 <= i < self.children@.len() ==> {
                &&& (#[trigger] self.children@[i]).wf(
                    lower_bound(self.keys@, lo, i),
                    upper_bound(self.keys@, hi, i),
                    (height - 1) as nat,
                    min,
                    max,
                )
                &&& self.children@[i].keys@.len() <= max
                &&& i != spare ==> min <= self.children@[i].keys@.len()
            }
    }
}

/// The records under an inner node are those under the children before child
/// `i`, those under that child and the next, and those under the children
/// after the two.
pub proof fn lemma_node_cut_pair(node: Node, i: int)
    requires
        !node.is_leaf,
        0 <= i,
        i + 1 < node.children@.len(),
    ensures
        node.records() == all_records_of(node.children@.take(i)) + (node.children@[i].records()
            + node.children@[i + 1].records()) + all_records_of(node.children@.skip(i + 2)),
{
    let kids = node.children@;
    let a = kids.take(i);
    let b = kids.skip(i + 2);
    let pair = seq![kids[i], kids[i + 1]];
    assert(kids =~= a + pair + b);
    lemma_records_of_append(a + pair, b);
    lemma_records_of_append(a, pair);
    lemma_records_of_append(seq![kids[i]], seq![kids[i + 1]]);
    assert(seq![kids[i]] + seq![kids[i + 1]] =~= pair);
    lemma_records_of_one(kids[i]);
    lemma_records_of_one(kids[i + 1]);
}

/// Where two children next to each other give way to two well-formed nodes
/// with the same records between them, on either side of a new separator, the
/// node is well-formed and holds the records that it held.
pub proof fn lemma_replace_pair(
    before: Node,
    after: Node,
    i: int,
    sep: u128,
    x: Node,
    y: Node,
    lo: int,
    hi: int,
    height: nat,
    min: int,
    max: int,
    spare: int,
)
    requires
        before.wf_but(lo, hi, height, min, max, spare),
        0 <= i,
        i + 1 < before.children@.len(),
        spare == i || spare == i + 1,
        !after.is_leaf,
        after.values@.len() == 0,
        after.keys@ == before.keys@.update(i, sep),
        after.children@ == before.children@.update(i, x).update(i + 1, y),
        lower_bound(before.keys@, lo, i) < sep < upper_bound(before.keys@, hi, i + 1),
        x.wf(lower_bound(before.keys@, lo, i), sep as int, (height - 1) as nat, min, max),
        y.wf(sep as int, upper_bound(before.keys@, hi, i + 1), (height - 1) as nat, min, max),
        min <= x.keys@.len() <= max,
        min <= y.keys@.len() <= max,
        x.records() + y.records() == before.children@[i].records() + before.children@[i + 1].records(),
    ensures
        after.wf(lo, hi, height, min, max),
        after.records() == before.records(),
{
    let k0 = before.keys@;
    let k1 = after.keys@;
    if i > 0 {
        assert(lo <= k0[i - 1] < hi);
    }
    if i + 1 < k0.len() {
        assert(lo <= k0[i + 1] < hi);
    }
    assert forall|a: int, b: int| 0 <= a < b < k1.len() implies k1[a] < k1[b] by {
        if a != i && b != i {
            assert(k0[a] < k0[b]);
        } else if a == i {
            if b > i + 1 {
                assert(k0[i + 1] < k0[b]);
            }
        } else {
            if a < i - 1 {
                assert(k0[a] < k0[i - 1]);
            }
        }
    }
    assert forall|j: int| 0 <= j < k1.len() implies lo <= #[trigger] k1[j] < hi by {
        if j != i {
            assert(lo <= k0[j] < hi);
        }
    }
    assert forall|j: int| 0 <= j < after.children@.len() implies {
        &&& (#[trigger] after.children@[j]).wf(
            lower_bound(k1, lo, j),
            upper_bound(k1, hi, j),
            (height - 1) as nat,
            min,
            max,
        )
        &&& min <= after.children@[j].keys@.len() <= max
    } by {
        if j != i && j != i + 1 {
            assert(after.children@[j] == before.children@[j]);
            assert(before.children@[j].wf(
                lower_bound(k0, lo, j),
                upper_bound(k0, hi, j),
                (height - 1) as nat,
                min,
                max,
            ));
        }
    }
    lemma_node_cut_pair(before, i);
    lemma_node_cut_pair(after, i);
    assert(after.children@.take(i) =~= before.children@.take(i));
    assert(after.children@.skip(i + 2) =~= before.children@.skip(i + 2));
}

/// Where two children next to each other give way to one well-formed node
/// with their records, and the separator between them leaves, the node is
/// well-formed and holds the records that it held.
pub proof fn lemma_replace_by_one(
    before: Node,
    after: Node,
    i: int,
    merged: Node,
    lo: int,
    hi: int,
    height: nat,
    min: int,
    max: int,
    spare: int,
)
    requires
        before.wf_but(lo, hi, height, min, max, spare),
        0 <= i,
        i + 1 < before.children@.len(),
        spare == i || spare == i + 1,
        !after.is_leaf,
        after.values@.len() == 0,
        after.keys@ == before.keys@.remove(i),
        after.children@ == before.children@.take(i) + seq![merged] + before.children@.skip(i + 2),
        merged.wf(
            lower_bound(before.keys@, lo, i),
            upper_bound(before.keys@, hi, i + 1),
            (height - 1) as nat,
            min,
            max,
        ),
        min <= merged.keys@.len() <= max,
        merged.records() == before.children@[i].records() + before.children@[i + 1].records(),
    ensures
        after.wf(lo, hi, height, min, max),
        after.records() == before.records(),
{
    let k0 = before.keys@;
    let k1 = after.keys@;
    assert forall|a: int, b: int| 0 <= a < b < k1.len() implies k1[a] < k1[b] by {
        let a0 = if a < i { a } else { a + 1 };
        let b0 = if b < i { b } else { b + 1 };
        assert(k0[a0] < k0[b0]);
    }
    assert forall|j: int| 0 <= j < k1.len() implies lo <= #[trigger] k1[j] < hi by {
        let j0 = if j < i { j } else { j + 1 };
        assert(lo <= k0[j0] < hi);
    }
    assert forall|j: int| 0 <= j < after.children@.len() implies {
        &&& (#[trigger] after.children@[j]).wf(
            lower_bound(k1, lo, j),
            upper_bound(k1, hi, j),
            (height - 1) as nat,
            min,
            max,
        )
        &&& min <= after.children@[j].keys@.len() <= max
    } by {
        if j < i {
            assert(after.children@[j] == before.children@[j]);
            assert(before.children@[j].wf(
                lower_bound(k0, lo, j),
                upper_bound(k0, hi, j),
                (height - 1) as nat,
                min,
                max,
            ));
        } else if j == i {
            assert(after.children@[j] == merged);
        } else {
            assert(after.children@[j] == before.children@[j + 1]);
            assert(before.children@[j + 1].wf(
                lower_bound(k0, lo, j + 1),
                upper_bound(k0, hi, j + 1),
                (height - 1) as nat,
                min,
                max,
            ));
        }
    }
    lemma_node_cut_pair(before, i);
    let a = before.children@.take(i);
    let b = before.children@.skip(i + 2);
    lemma_records_of_append(a + seq![merged], b);
    lemma_records_of_append(a, seq![merged]);
    lemma_records_of_one(merged);
}

/// A well-formed node with a key has a record under it, where no node below
/// it may be empty.
pub proof fn lemma_has_record(node: Node, lo: int, hi: int, height: nat, min: int, max: int)
    requires
        node.wf(lo, hi, height, min, max),
        node.keys@.len() >= 1,
        min >= 1,
    ensures
        node.records().len() >= 1,
    decreases height,
{
    if !node.is_leaf {
        let child = node.children@[0];
        assert(child.wf(
            lower_bound(node.keys@, lo, 0),
            upper_bound(node.keys@, hi, 0),
            (height - 1) as nat,
            min,
            max,
        ));
        lemma_has_record(
            child,
            lower_bound(node.keys@, lo, 0),
            upper_bound(node.keys@, hi, 0),
            (height - 1) as nat,
            min,
            max,
        );
        lemma_node_cut(node, 0);
    }
}

} // verus!
