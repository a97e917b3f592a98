//! Bounded sorted nodes: a leaf that maps keys to documents and an inner node
//! that maps keys to subtrees, each with the most and the fewest keys it may
//! hold. Their operations report by a status number whether they took place.

use crate::bptree::{strictly_increasing, Node};
use vstd::prelude::*;

verus! {

/// The status of an operation that took place.
pub const STATUS_OK: i32 = 0;

/// The status of an insert into a full node, and of a removal that would
/// leave a node with too few keys.
pub const STATUS_SIZE: i32 = 1;

/// The status of an insert of a key that the node holds, and of a removal of
/// a key that it does not hold.
pub const STATUS_KEY: i32 = 2;

/// What the subtrees under an inner node are.
#[derive(Clone, Copy, Debug, PartialEq, Eq, Structural)]
pub enum ChildKind {
    Internal,
    Leaf,
}

/// The position of `key` in `keys`: the first one, if it occurs.
fn position_of(keys: &Vec<u128>, key: u128) -> (r: Option<usize>)
    ensures
        match r {
            Some(i) => i < keys@.len() && keys@[i as int] == key && forall|j: int|
                0 <= j < i ==> keys@[j] != key,
            None => !keys@.contains(key),
        },
{
    let mut i: usize = 0;
    while i < keys.len()
        invariant
            i <= keys@.len(),
            forall|j: int| 0 <= j < i ==> keys@[j] != key,
        decreases keys@.len() - i,
    {
        if keys[i] == key {
            return Some(i);
        }
        i += 1;
    }
    None
}

/// The number of keys before the first one that is greater than `key`.
fn position_for(keys: &Vec<u128>, key: u128) -> (i: usize)
    ensures
        i == Node::position_in(keys@, key),
        i <= keys@.len(),
        forall|j: int| 0 <= j < i ==> keys@[j] <= key,
        i < keys@.len() ==> key < keys@[i as int],
{
    let mut i: usize = 0;
    while i < keys.len() && !(key < keys[i])
        invariant
            i <= keys@.len(),
            forall|j: int| 0 <= j < i ==> keys@[j] <= key,
        decreases keys@.len() - i,
    {
        i += 1;
    }
    proof {
        Node::lemma_position_in_unique(keys@, key, i as int);
    }
    i
}

/// Ascending keys stay ascending when a key that they lack enters at its
/// position.
pub proof fn lemma_insert_keeps_order(keys: Seq<u128>, key: u128)
    requires
        strictly_increasing(keys),
        !keys.contains(key),
    ensures
        strictly_increasing(keys.insert(Node::position_in(keys, key), key)),
{
    Node::lemma_position_in(keys, key);
    let p = Node::position_in(keys, key);
    let after = keys.insert(p, key);
    assert forall|a: int, b: int| 0 <= a < b < after.len() implies after[a] < after[b] by {
        if a < p && b > p {
            assert(keys[a] < keys[b - 1]);
        }
        if a < p && b == p {
            assert(keys[a] <= key);
            assert(keys.contains(keys[a]));
        }
    }
}

/// A leaf with bounds on the number of its keys.
pub struct LeafNode {
    pub min_size: usize,
    pub max_size: usize,
    pub keys: Vec<u128>,
    pub values: Vec<bson::Document>,
}

impl LeafNode {
    /// Ascending keys, a document for each, and no more keys than allowed.
    pub open spec fn wf(self) -> bool {
        &&& self.values@.len() == self.keys@.len()
        &&& self.keys@.len() <= self.max_size
        &&& strictly_increasing(self.keys@)
    }

    /// An empty leaf for at most `num_keys` keys and at least half of that,
    /// rounded up, less one.
    pub fn new(num_keys: usize) -> (node: LeafNode)
        requires
            num_keys >= 1,
        ensures
            node.wf(),
            node.max_size == num_keys,
            node.min_size == (num_keys + 1) / 2 - 1,
            node.keys@.len() == 0,
    {
        LeafNode {
            min_size: num_keys - num_keys / 2 - 1,
            max_size: num_keys,
            keys: Vec::new(),
            values: Vec::new(),
        }
    }

    /// The position of `key` in this node.
    pub fn find(&self, key: u128) -> (r: Option<usize>)
        ensures
            match r {
                Some(i) => i < self.keys@.len() && self.keys@[i as int] == key && forall|j: int|
                    0 <= j < i ==> self.keys@[j] != key,
                None => !self.keys@.contains(key),
            },
    {
        position_of(&self.keys, key)
    }

    /// Puts `key` with `value` at its place in the order. A full node and a
    /// node that holds the key stay as they are.
    pub fn insert(&mut self, key: u128, value: bson::Document) -> (status: i32)
        requires
            old(self).wf(),
        ensures
            final(self).wf(),
            final(self).min_size == old(self).min_size,
            final(self).max_size == old(self).max_size,
            status == if old(self).keys@.len() == old(self).max_size {
                STATUS_SIZE
            } else if old(self).keys@.contains(key) {
                STATUS_KEY
            } else {
                STATUS_OK
            },
            status != STATUS_OK ==> final(self).keys@ == old(self).keys@ && final(self).values@ == old(self).values@,
            status == STATUS_OK ==> final(self).keys@ == old(self).keys@.insert(
                Node::position_in(old(self).keys@, key),
                key,
            ) && final(self).values@ == old(self).values@.insert(
                Node::position_in(old(self).keys@, key),
                value,
            ),
    {
        if self.keys.len() == self.max_size {
            return STATUS_SIZE;
        }
        if position_of(&self.keys, key).is_some() {
            return STATUS_KEY;
        }
        let i = position_for(&self.keys, key);
        proof {
            lemma_insert_keeps_order(self.keys@, key);
        }
        self.keys.insert(i, key);
        self.values.insert(i, value);
        STATUS_OK
    }

    /// Takes `key` and its document out of the node. A node that lacks the
    /// key, and one that holds no more keys than it must, stay as they are.
    pub fn remove(&mut self, key: u128) -> (r: (i32, Option<(u128, bson::Document)>))
        requires
            old(self).wf(),
        ensures
            final(self).wf(),
            final(self).min_size == old(self).min_size,
            final(self).max_size == old(self).max_size,
            r.0 == if !old(self).keys@.contains(key) {
                STATUS_KEY
            } else if old(self).keys@.len() == old(self).min_size {
                STATUS_SIZE
            } else {
                STATUS_OK
            },
            r.0 != STATUS_OK ==> r.1 is None && final(self).keys@ == old(self).keys@ && final(self).values@ == old(self).values@,
            r.0 == STATUS_OK ==> {
                let i = old(self).keys@.index_of(key);
                &&& r.1 == Some((key, old(self).values@[i]))
                &&& final(self).keys@ == old(self).keys@.remove(i)
                &&& final(self).values@ == old(self).values@.remove(i)
            },
    {
        match position_of(&self.keys, key) {
            Some(i) => {
                if self.keys.len() == self.min_size {
                    (STATUS_SIZE, None)
                } else {
                    proof {
                        lemma_unique_position(self.keys@, key, i as int);
                    }
                    let k = self.keys.remove(i);
                    let v = self.values.remove(i);
                    (STATUS_OK, Some((k, v)))
                }
            },
            None => (STATUS_KEY, None),
        }
    }
}

/// In ascending keys a key has one position only.
pub proof fn lemma_unique_position(keys: Seq<u128>, key: u128, i: int)
    requires
        strictly_increasing(keys),
        0 <= i < keys.len(),
        keys[i] == key,
    ensures
        keys.index_of(key) == i,
        strictly_increasing(keys.remove(i)),
{
    let j = keys.index_of(key);
    assert(keys.contains(key));
    if j < i {
        assert(keys[j] < keys[i]);
    }
    if i < j {
        assert(keys[i] < keys[j]);
    }
    let after = keys.remove(i);
    assert forall|a: int, b: int| 0 <= a < b < after.len() implies after[a] < after[b] by {
        let a0 = if a < i { a } else { a + 1 };
        let b0 = if b < i { b } else { b + 1 };
        assert(keys[a0] < keys[b0]);
    }
}

/// An inner node with bounds on the number of its keys. Each key comes with
/// the subtree that it leads to.
pub struct InternalNode {
    pub min_size: usize,
    pub max_size: usize,
    pub child_type: ChildKind,
    pub keys: Vec<u128>,
    pub pointers: Vec<Node>,
}

impl InternalNode {
    /// Ascending keys, a subtree for each, and no more keys than allowed.
    pub open spec fn wf(self) -> bool {
        &&& self.pointers@.len() == self.keys@.len()
        &&& self.keys@.len() <= self.max_size
        &&& strictly_increasing(self.keys@)
    }

    /// An empty inner node for at most `max_size` keys and at least one.
    pub fn new(max_size: usize, child_type: ChildKind) -> (node: InternalNode)
        ensures
            node.wf(),
            node.min_size == 1,
            node.max_size == max_size,
            node.child_type == child_type,
            node.keys@.len() == 0,
    {
        InternalNode { min_size: 1, max_size, child_type, keys: Vec::new(), pointers: Vec::new() }
    }

    /// The position of `key` in this node.
    pub fn find(&self, key: u128) -> (r: Option<usize>)
        ensures
            match r {
                Some(i) => i < self.keys@.len() && self.keys@[i as int] == key && forall|j: int|
                    0 <= j < i ==> self.keys@[j] != key,
                None => !self.keys@.contains(key),
            },
    {
        position_of(&self.keys, key)
    }

    /// Puts `key` with its subtree at its place in the order. A full node and
    /// a node that holds the key stay as they are.
    pub fn insert(&mut self, key: u128, pointer: Node) -> (status: i32)
        requires
            old(self).wf(),
        ensures
            final(self).wf(),
            final(self).min_size == old(self).min_size,
            final(self).max_size == old(self).max_size,
            final(self).child_type == old(self).child_type,
            status == if old(self).keys@.len() == old(self).max_size {
                STATUS_SIZE
            } else if old(self).keys@.contains(key) {
                STATUS_KEY
            } else {
                STATUS_OK
            },
            status != STATUS_OK ==> final(self).keys@ == old(self).keys@ && final(self).pointers@
                == old(self).pointers@,
            status == STATUS_OK ==> final(self).keys@ == old(self).keys@.insert(
                Node::position_in(old(self).keys@, key),
                key,
            ) && final(self).pointers@ == old(self).pointers@.insert(
                Node::position_in(old(self).keys@, key),
                pointer,
            ),
    {
        if self.keys.len() == self.max_size {
            return STATUS_SIZE;
        }
        if position_of(&self.keys, key).is_some() {
            return STATUS_KEY;
        }
        let i = position_for(&self.keys, key);
        proof {
            lemma_insert_keeps_order(self.keys@, key);
        }
        self.keys.insert(i, key);
        self.pointers.insert(i, pointer);
        STATUS_OK
    }

    /// Takes `key` and its subtree out of the node. A node that lacks the key,
    /// and one that holds no more keys than it must, stay as they are.
    pub fn remove(&mut self, key: u128) -> (r: (i32, Option<(u128, Node)>))
        requires
            old(self).wf(),
        ensures
            final(self).wf(),
            final(self).min_size == old(self).min_size,
            final(self).max_size == old(self).max_size,
            final(self).child_type == old(self).child_type,
            r.0 == if !old(self).keys@.contains(key) {
                STATUS_KEY
            } else if old(self).keys@.len() == old(self).min_size {
                STATUS_SIZE
            } else {
                STATUS_OK
            },
            r.0 != STATUS_OK ==> r.1 is None && final(self).keys@ == old(self).keys@ && final(self).pointers@ == old(self).pointers@,
            r.0 == STATUS_OK ==> {
                let i = old(self).keys@.index_of(key);
                &&& r.1 == Some((key, old(self).pointers@[i]))
                &&& final(self).keys@ == old(self).keys@.remove(i)
                &&& final(self).pointers@ == old(self).pointers@.remove(i)
            },
    {
        match position_of(&self.keys, key) {
            Some(i) => {
                if self.keys.len() == self.min_size {
                    (STATUS_SIZE, None)
                } else {
                    proof {
                        lemma_unique_position(self.keys@, key, i as int);
                    }
                    let k = self.keys.remove(i);
                    let p = self.pointers.remove(i);
                    (STATUS_OK, Some((k, p)))
                }
            },
            None => (STATUS_KEY, None),
        }
    }
}

} // verus!
