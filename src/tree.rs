use crate::hashing::{hash, hash_two, key_hash, pair_hash};
use crate::index::{
    highest_power_of_2, hp2, lemma_hp2_bounds, lemma_level_le, lemma_pow2_monotonic,
    lemma_split_bounds, lemma_split_pow2, lemma_split_step, level, node_level, pow2, power_of_two,
    split,
};
use crate::walk::{answer, FetchError};
use vstd::prelude::*;

verus! {

/// A reference from an internal node to one of its children: another internal
/// node of the arena, a leaf, or nothing.
#[derive(PartialEq, Eq, Structural, Debug, Clone, Copy)]
pub enum Child {
    Node(usize),
    Value(usize),
    Empty,
}

impl Child {
    /// Whether this reference names a leaf.
    pub fn is_value(&self) -> (r: bool)
        ensures
            r == (*self is Value),
    {
        match self {
            Child::Value(_) => true,
            Child::Node(_) | Child::Empty => false,
        }
    }
}

/// An internal node of the arena.
#[derive(PartialEq, Eq, Structural, Debug, Clone, Copy)]
pub struct Node {
    pub hash: u64,
    pub left: Child,
    pub right: Child,
}

/// A leaf: a key, its digest and the value stored under it.
#[derive(PartialEq, Debug)]
pub struct Value<V> {
    pub hash: u64,
    pub key: u64,
    pub value: V,
}

impl<V> Value<V> {
    /// The leaf for `key` and `value`, with the key's digest.
    pub fn with(key: u64, value: V) -> (r: Value<V>)
        ensures
            r.hash == key_hash(key),
            r.key == key,
            r.value == value,
    {
        Value { hash: hash(&key), key, value }
    }
}

/// A hash tree kept in two arenas: the leaves sorted by key, and the internal
/// nodes in in-order layout, node `k` standing between leaves `k` and `k + 1`.
///
/// The shape depends on the number of leaves alone: the subtree over `len`
/// leaves puts its largest power of two below `len` on the left and the rest
/// on the right. A leaf's digest covers its key only, not its value, so two
/// replicas whose keys agree compare equal whatever values they hold.
pub struct MerkleTree<V> {
    pub hashes: Vec<Node>,
    pub data: Vec<Value<V>>,
    pub root: usize,
}

pub open spec fn keys_of<V>(data: Seq<Value<V>>) -> Seq<u64> {
    data.map_values(|l: Value<V>| l.key)
}

pub open spec fn hashes_of<V>(data: Seq<Value<V>>) -> Seq<u64> {
    data.map_values(|l: Value<V>| l.hash)
}

pub open spec fn strictly_sorted(s: Seq<u64>) -> bool {
    forall|i: int, j: int| 0 <= i < j < s.len() ==> s[i] < s[j]
}

/// How many elements of `s` are below `k`: where `k` goes in a sorted `s`.
pub open spec fn count_less(s: Seq<u64>, k: u64) -> nat
    decreases s.len(),
{
    if s.len() == 0 {
        0
    } else {
        count_less(s.drop_last(), k) + if s.last() < k {
            1nat
        } else {
            0nat
        }
    }
}

/// `s` with `k` put in its sorted place.
pub open spec fn sorted_insert(s: Seq<u64>, k: u64) -> Seq<u64> {
    s.insert(count_less(s, k) as int, k)
}

/// The reference to the subtree over the leaves `[lo, lo + len)`: the leaf
/// itself when there is one, else the node at the split point.
pub open spec fn subtree(lo: nat, len: nat) -> Child {
    if len == 1 {
        Child::Value(lo as usize)
    } else {
        Child::Node((lo + split(len) - 1) as usize)
    }
}

/// The digest that a child reference stands for.
pub open spec fn chash(nodes: Seq<Node>, hs: Seq<u64>, c: Child) -> u64 {
    match c {
        Child::Value(i) => hs[i as int],
        Child::Node(j) => nodes[j as int].hash,
        Child::Empty => 0,
    }
}

/// The nodes over the leaves `[lo, lo + len)` have their canonical shape: the
/// node at the split point joins the subtree over the first `split(len)`
/// leaves with the subtree over the rest, and holds the digest of the pair of
/// their digests.
pub open spec fn tree_ok(nodes: Seq<Node>, hs: Seq<u64>, lo: nat, len: nat) -> bool
    decreases len,
    via tree_ok_decreases
{
    if len <= 1 {
        true
    } else {
        let p = split(len);
        let r = lo + p - 1;
        &&& r < nodes.len()
        &&& nodes[r].left == subtree(lo, p)
        &&& nodes[r].right == subtree(lo + p, (len - p) as nat)
        &&& nodes[r].hash == pair_hash(
            chash(nodes, hs, subtree(lo, p)),
            chash(nodes, hs, subtree(lo + p, (len - p) as nat)),
        )
        &&& tree_ok(nodes, hs, lo, p)
        &&& tree_ok(nodes, hs, lo + p, (len - p) as nat)
    }
}

#[via_fn]
proof fn tree_ok_decreases(nodes: Seq<Node>, hs: Seq<u64>, lo: nat, len: nat) {
    if len > 1 {
        lemma_split_bounds(len);
    }
}

/// The root digest of the canonical tree over the leaf digests `[lo, lo + len)`.
pub open spec fn merkle(hs: Seq<u64>, lo: nat, len: nat) -> u64
    decreases len,
    via merkle_decreases
{
    if len <= 1 {
        hs[lo as int]
    } else {
        let p = split(len);
        pair_hash(merkle(hs, lo, p), merkle(hs, lo + p, (len - p) as nat))
    }
}

#[via_fn]
proof fn merkle_decreases(hs: Seq<u64>, lo: nat, len: nat) {
    if len > 1 {
        lemma_split_bounds(len);
    }
}

/// Internal nodes for `n` leaves: one for a lone leaf, else one per gap.
pub open spec fn node_count(n: nat) -> nat {
    if n <= 1 {
        n
    } else {
        (n - 1) as nat
    }
}

/// The node that stands over a lone leaf.
pub open spec fn lone_node(h: u64) -> Node {
    Node { hash: h, left: Child::Value(0), right: Child::Empty }
}

/// `nodes` is the node arena of the first `n` leaf digests of `hs`.
pub open spec fn nodes_ok(nodes: Seq<Node>, hs: Seq<u64>, n: nat) -> bool {
    &&& nodes.len() == node_count(n)
    &&& hs.len() >= n
    &&& (n == 1 ==> nodes[0] == lone_node(hs[0]))
    &&& tree_ok(nodes, hs, 0, n)
}

/// Arena index of the root node for `n` leaves.
pub open spec fn root_of(n: nat) -> nat {
    if n <= 2 {
        0
    } else {
        (split(n) - 1) as nat
    }
}

/// `tree_ok` reads nodes and leaf digests inside its range only.
pub proof fn lemma_tree_ok_frame(
    n1: Seq<Node>,
    h1: Seq<u64>,
    n2: Seq<Node>,
    h2: Seq<u64>,
    lo: nat,
    len: nat,
)
    requires
        len >= 1,
        lo + len <= usize::MAX,
        tree_ok(n1, h1, lo, len),
        n1.len() + 1 >= lo + len,
        n2.len() + 1 >= lo + len,
        h1.len() >= lo + len,
        h2.len() >= lo + len,
        forall|j: int| lo <= j < lo + len - 1 ==> n2[j] == n1[j],
        forall|i: int| lo <= i < lo + len ==> h2[i] == h1[i],
    ensures
        tree_ok(n2, h2, lo, len),
        chash(n2, h2, subtree(lo, len)) == chash(n1, h1, subtree(lo, len)),
    decreases len,
{
    if len > 1 {
        lemma_split_bounds(len);
        let p = split(len);
        lemma_tree_ok_frame(n1, h1, n2, h2, lo, p);
        lemma_tree_ok_frame(n1, h1, n2, h2, lo + p, (len - p) as nat);
    }
}

/// Every node of a canonical subtree carries the digest of its leaves.
pub proof fn lemma_tree_ok_merkle(nodes: Seq<Node>, hs: Seq<u64>, lo: nat, len: nat)
    requires
        len >= 1,
        lo + len <= usize::MAX,
        tree_ok(nodes, hs, lo, len),
    ensures
        chash(nodes, hs, subtree(lo, len)) == merkle(hs, lo, len),
    decreases len,
{
    if len > 1 {
        lemma_split_bounds(len);
        let p = split(len);
        lemma_tree_ok_merkle(nodes, hs, lo, p);
        lemma_tree_ok_merkle(nodes, hs, lo + p, (len - p) as nat);
    }
}

/// A binary search for `key` among the leaves: its index where it is present,
/// else the index where it belongs.
pub fn search_index<V>(data: &[Value<V>], key: &u64) -> (r: usize)
    requires
        strictly_sorted(keys_of(data@)),
    ensures
        r <= data@.len(),
        forall|i: int| 0 <= i < r ==> data@[i].key < *key,
        forall|i: int| r <= i < data@.len() ==> data@[i].key >= *key,
        r == count_less(keys_of(data@), *key),
{
    let mut l: usize = 0;
    let mut h: usize = data.len();
    while l < h
        invariant
            l <= h <= data@.len(),
            strictly_sorted(keys_of(data@)),
            forall|i: int| 0 <= i < l ==> data@[i].key < *key,
            forall|i: int| h <= i < data@.len() ==> data@[i].key > *key,
        decreases h - l,
    {
        let m = l + (h - l) / 2;
        assert(keys_of(data@)[m as int] == data@[m as int].key);
        if data[m].key == *key {
            proof {
                assert forall|i: int| 0 <= i < m implies data@[i].key < *key by {
                    assert(keys_of(data@)[i] == data@[i].key);
                }
                assert forall|i: int| m <= i < data@.len() implies data@[i].key >= *key by {
                    assert(keys_of(data@)[i] == data@[i].key);
                }
                lemma_count_less(keys_of(data@), *key, m as nat);
            }
            return m;
        } else if data[m].key < *key {
            proof {
                assert forall|i: int| 0 <= i <= m implies data@[i].key < *key by {
                    assert(keys_of(data@)[i] == data@[i].key);
                }
            }
            l = m + 1;
        } else {
            proof {
                assert forall|i: int| m <= i < data@.len() implies data@[i].key > *key by {
                    assert(keys_of(data@)[i] == data@[i].key);
                }
            }
            h = m;
        }
    }
    proof {
        lemma_count_less(keys_of(data@), *key, l as nat);
    }
    l
}

/// In a sorted sequence, the place that splits it at `k` is the count below `k`.
pub proof fn lemma_count_less(s: Seq<u64>, k: u64, p: nat)
    requires
        p <= s.len(),
        forall|i: int| 0 <= i < p ==> s[i] < k,
        forall|i: int| p <= i < s.len() ==> s[i] >= k,
    ensures
        count_less(s, k) == p,
    decreases s.len(),
{
    if s.len() > 0 {
        if p == s.len() {
            lemma_count_less(s.drop_last(), k, (p - 1) as nat);
        } else {
            lemma_count_less(s.drop_last(), k, p);
        }
    }
}

/// The leaves `(first, count)` under arena node `j` in the canonical tree over
/// the leaves `[lo, lo + len)`.
pub open spec fn node_span(lo: nat, len: nat, j: nat) -> (nat, nat)
    decreases len,
    via node_span_decreases
{
    if len <= 1 {
        (lo, len)
    } else {
        let p = split(len);
        let r = lo + p - 1;
        if j == r {
            (lo, len)
        } else if j < r {
            node_span(lo, p, j)
        } else {
            node_span(lo + p, (len - p) as nat, j)
        }
    }
}

#[via_fn]
proof fn node_span_decreases(lo: nat, len: nat, j: nat) {
    if len > 1 {
        lemma_split_bounds(len);
    }
}

/// Arena node `j` of a tree of `n` leaves stands over leaf `i`.
pub open spec fn span_contains(n: nat, j: nat, i: nat) -> bool {
    let (a, m) = node_span(0, n, j);
    a <= i < a + m
}

/// A node's span lies in the range it was found in and holds at least two
/// leaves, and the node sits at the span's split point.
pub proof fn lemma_span_bounds(lo: nat, len: nat, j: nat)
    requires
        len >= 2,
        lo <= j < lo + len - 1,
    ensures
        ({
            let (a, m) = node_span(lo, len, j);
            &&& m >= 2
            &&& lo <= a
            &&& a + m <= lo + len
            &&& j == a + split(m) - 1
        }),
    decreases len,
{
    lemma_split_bounds(len);
    let p = split(len);
    let r = lo + p - 1;
    if j < r {
        lemma_span_bounds(lo, p, j);
    } else if j > r {
        lemma_span_bounds(lo + p, (len - p) as nat, j);
    }
}

/// The nodes under a node's span are in canonical shape.
pub proof fn lemma_span_tree_ok(nodes: Seq<Node>, hs: Seq<u64>, lo: nat, len: nat, j: nat)
    requires
        len >= 2,
        lo <= j < lo + len - 1,
        tree_ok(nodes, hs, lo, len),
    ensures
        tree_ok(nodes, hs, node_span(lo, len, j).0, node_span(lo, len, j).1),
    decreases len,
{
    lemma_split_bounds(len);
    let p = split(len);
    let r = lo + p - 1;
    if j < r {
        lemma_span_tree_ok(nodes, hs, lo, p, j);
    } else if j > r {
        lemma_span_tree_ok(nodes, hs, lo + p, (len - p) as nat, j);
    }
}

/// The child nodes of a node span the two parts of its span.
pub proof fn lemma_span_children(lo: nat, len: nat, j: nat)
    requires
        len >= 2,
        lo <= j < lo + len - 1,
    ensures
        ({
            let (a, m) = node_span(lo, len, j);
            let p = split(m);
            &&& p >= 2 ==> node_span(lo, len, (a + split(p) - 1) as nat) == (a, p)
            &&& (m - p) >= 2 ==> node_span(lo, len, (a + p + split((m - p) as nat) - 1) as nat)
                == (a + p, (m - p) as nat)
        }),
    decreases len,
{
    lemma_split_bounds(len);
    lemma_span_bounds(lo, len, j);
    let p = split(len);
    let r = lo + p - 1;
    let (a, m) = node_span(lo, len, j);
    let q = split(m);
    lemma_split_bounds(m);
    if q >= 2 {
        lemma_split_bounds(q);
    }
    if m - q >= 2 {
        lemma_split_bounds((m - q) as nat);
    }
    if j == r {
        if p >= 2 {
            lemma_split_bounds(p);
            let c = (lo + split(p) - 1) as nat;
            assert(node_span(lo, len, c) == node_span(lo, p, c));
            assert(node_span(lo, p, c) == (lo, p));
        }
        if len - p >= 2 {
            let rest = (len - p) as nat;
            lemma_split_bounds(rest);
            let c = (lo + p + split(rest) - 1) as nat;
            assert(node_span(lo, len, c) == node_span(lo + p, rest, c));
            assert(node_span(lo + p, rest, c) == (lo + p, rest));
        }
    } else if j < r {
        lemma_span_children(lo, p, j);
        lemma_span_bounds(lo, p, j);
        if q >= 2 {
            let c = (a + split(q) - 1) as nat;
            assert(node_span(lo, len, c) == node_span(lo, p, c));
        }
        if m - q >= 2 {
            let c = (a + q + split((m - q) as nat) - 1) as nat;
            assert(node_span(lo, len, c) == node_span(lo, p, c));
        }
    } else {
        let rest = (len - p) as nat;
        lemma_span_children(lo + p, rest, j);
        lemma_span_bounds(lo + p, rest, j);
        if q >= 2 {
            let c = (a + split(q) - 1) as nat;
            assert(node_span(lo, len, c) == node_span(lo + p, rest, c));
        }
        if m - q >= 2 {
            let c = (a + q + split((m - q) as nat) - 1) as nat;
            assert(node_span(lo, len, c) == node_span(lo + p, rest, c));
        }
    }
}

impl<V> MerkleTree<V> {
    pub open spec fn keys(&self) -> Seq<u64> {
        keys_of(self.data@)
    }

    pub open spec fn leaf_hashes(&self) -> Seq<u64> {
        hashes_of(self.data@)
    }

    /// Leaves sorted by unique key, each with its key's digest; internal
    /// nodes in canonical shape with consistent digests; the root index in
    /// place.
    pub open spec fn wf(&self) -> bool {
        &&& self.data@.len() <= usize::MAX
        &&& strictly_sorted(self.keys())
        &&& forall|i: int| 0 <= i < self.data@.len() ==> #[trigger] self.data@[i].hash == key_hash(self.data@[i].key)
        &&& nodes_ok(self.hashes@, self.leaf_hashes(), self.data@.len())
        &&& self.root == root_of(self.data@.len())
    }

    /// The digest at the root, none for an empty tree.
    pub open spec fn root_hash_spec(&self) -> Option<u64> {
        if self.data@.len() == 0 {
            None
        } else {
            Some(merkle(self.leaf_hashes(), 0, self.data@.len()))
        }
    }

    pub fn new() -> (r: Self)
        ensures
            r.wf(),
            r.data@.len() == 0,
            r.hashes@.len() == 0,
            r.root == 0,
    {
        MerkleTree { hashes: Vec::new(), data: Vec::new(), root: 0 }
    }

    /// The digest a child reference stands for.
    fn child_hash(&self, c: Child) -> (r: u64)
        requires
            c is Value ==> c->Value_0 < self.data@.len(),
            c is Node ==> c->Node_0 < self.hashes@.len(),
        ensures
            r == chash(self.hashes@, self.leaf_hashes(), c),
    {
        match c {
            Child::Value(i) => self.data[i].hash,
            Child::Node(j) => self.hashes[j].hash,
            Child::Empty => 0,
        }
    }

    /// Adds to the canonical subtree over the leaves `[lo, lo + len)`, which
    /// ends at the last leaf that has nodes, the leaf `lo + len`. Descends the
    /// right spine to the subtree whose length is a power of two, puts a new
    /// node over it and the new leaf, and recomputes the digests on the way
    /// back up, re-linking the node whose right subtree was replaced.
    fn extend(&mut self, lo: usize, len: usize) -> (c: Child)
        requires
            len >= 1,
            lo + len < old(self).data@.len(),
            old(self).hashes@.len() == lo + len - 1,
            tree_ok(old(self).hashes@, old(self).leaf_hashes(), lo as nat, len as nat),
        ensures
            final(self).data@ == old(self).data@,
            final(self).root == old(self).root,
            final(self).hashes@.len() == lo + len,
            forall|j: int| 0 <= j < lo ==> final(self).hashes@[j] == old(self).hashes@[j],
            tree_ok(final(self).hashes@, final(self).leaf_hashes(), lo as nat, (len + 1) as nat),
            c == subtree(lo as nat, (len + 1) as nat),
        decreases len,
    {
        let ghost hs = self.leaf_hashes();
        let ghost old_nodes = self.hashes@;
        let n = self.data.len();
        let new_leaf = lo + len;
        assert(hs[new_leaf as int] == self.data@[new_leaf as int].hash);
        if len == 1 || highest_power_of_2(len) == len {
            proof {
                assert(hp2(1) == 1);
                lemma_split_pow2(len as nat);
                if len > 1 {
                    lemma_split_bounds(len as nat);
                }
            }
            let left = if len == 1 {
                Child::Value(lo)
            } else {
                Child::Node(lo + highest_power_of_2(len - 1) - 1)
            };
            let left_hash = self.child_hash(left);
            let h = hash_two(&left_hash, &self.data[new_leaf].hash);
            self.hashes.push(Node { hash: h, left, right: Child::Value(new_leaf) });
            proof {
                lemma_tree_ok_frame(old_nodes, hs, self.hashes@, hs, lo as nat, len as nat);
                assert(tree_ok(self.hashes@, hs, (lo + len) as nat, 1));
                assert(split((len + 1) as nat) == len);
                assert(left == subtree(lo as nat, len as nat));
                assert(self.hashes@[new_leaf - 1] == Node { hash: h, left, right: Child::Value(new_leaf) });
                assert(subtree((lo + len) as nat, 1) == Child::Value(new_leaf));
                assert(chash(self.hashes@, hs, Child::Value(new_leaf)) == hs[new_leaf as int]);
                assert(tree_ok(self.hashes@, hs, lo as nat, (len + 1) as nat));
            }
            Child::Node(new_leaf - 1)
        } else {
            proof {
                lemma_split_bounds(len as nat);
                lemma_split_step(len as nat);
            }
            let p = highest_power_of_2(len - 1);
            let r = lo + p - 1;
            proof {
                if p > 1 {
                    lemma_split_bounds(p as nat);
                }
            }
            let c = self.extend(lo + p, len - p);
            let ghost mid_nodes = self.hashes@;
            assert(mid_nodes[r as int] == old_nodes[r as int]);
            let left = self.hashes[r].left;
            let left_hash = self.child_hash(left);
            let right_hash = self.child_hash(c);
            let h = hash_two(&left_hash, &right_hash);
            self.hashes[r] = Node { hash: h, left, right: c };
            proof {
                lemma_tree_ok_frame(old_nodes, hs, self.hashes@, hs, lo as nat, p as nat);
                lemma_tree_ok_frame(
                    mid_nodes,
                    hs,
                    self.hashes@,
                    hs,
                    (lo + p) as nat,
                    (len - p + 1) as nat,
                );
                assert(split((len + 1) as nat) == p);
                assert(tree_ok(self.hashes@, hs, lo as nat, (len + 1) as nat));
            }
            Child::Node(r)
        }
    }

    /// Grows the node arena of the first `i` leaves to that of the first
    /// `i + 1`.
    fn add_leaf(&mut self, i: usize)
        requires
            i < old(self).data@.len(),
            nodes_ok(old(self).hashes@, old(self).leaf_hashes(), i as nat),
        ensures
            final(self).data@ == old(self).data@,
            final(self).root == old(self).root,
            nodes_ok(final(self).hashes@, final(self).leaf_hashes(), (i + 1) as nat),
    {
        let ghost hs = self.leaf_hashes();
        assert(hs[0] == self.data@[0].hash);
        if i == 0 {
            let h = self.data[0].hash;
            self.hashes.push(Node { hash: h, left: Child::Value(0), right: Child::Empty });
        } else if i == 1 {
            assert(hs[1] == self.data@[1].hash);
            let h = hash_two(&self.data[0].hash, &self.data[1].hash);
            self.hashes[0] = Node { hash: h, left: Child::Value(0), right: Child::Value(1) };
            proof {
                assert(hp2(1) == 1);
                assert(split(2) == 1);
                assert(tree_ok(self.hashes@, hs, 0, 1));
                assert(tree_ok(self.hashes@, hs, 1, 1));
                assert(tree_ok(self.hashes@, hs, 0, 2));
            }
        } else {
            self.extend(0, i);
        }
    }

    /// Inserts the leaf for `key` and `value` in its sorted place and brings
    /// the node arena up to date: the new node over the right spine and the
    /// digests above it when the key is the largest, else the whole arena
    /// rebuilt over the shifted leaves.
    pub fn insert(&mut self, key: u64, value: V)
        requires
            old(self).wf(),
            !old(self).keys().contains(key),
            old(self).data@.len() < usize::MAX,
        ensures
            final(self).wf(),
            final(self).data@ == old(self).data@.insert(
                count_less(old(self).keys(), key) as int,
                (Value { hash: key_hash(key), key, value }),
            ),
            final(self).keys() == sorted_insert(old(self).keys(), key),
    {
        let ghost old_data = self.data@;
        let ghost old_hs = self.leaf_hashes();
        let n = self.data.len();
        let position = search_index(self.data.as_slice(), &key);
        let leaf = Value { hash: hash(&key), key, value };
        let ghost leaf_spec = leaf;
        if position == n {
            self.data.push(leaf);
            proof {
                assert(self.data@ == old_data.insert(position as int, leaf_spec));
                let hs = self.leaf_hashes();
                if n >= 1 {
                    assert(hs[0] == self.data@[0].hash);
                    assert(old_hs[0] == old_data[0].hash);
                    lemma_tree_ok_frame(self.hashes@, old_hs, self.hashes@, hs, 0, n as nat);
                }
            }
            self.add_leaf(n);
        } else {
            self.data.insert(position, leaf);
            self.hashes.clear();
            let mut i: usize = 0;
            while i <= n
                invariant
                    i <= n + 1,
                    n < usize::MAX,
                    self.data@.len() == n + 1,
                    self.data@ == old_data.insert(position as int, leaf_spec),
                    nodes_ok(self.hashes@, self.leaf_hashes(), i as nat),
                decreases n + 1 - i,
            {
                self.add_leaf(i);
                i = i + 1;
            }
        }
        let ghost new_data = self.data@;
        proof {
            assert(new_data == old_data.insert(position as int, leaf_spec));
            assert(keys_of(new_data) =~= keys_of(old_data).insert(position as int, key));
            assert forall|a: int, b: int| 0 <= a < b < new_data.len() implies keys_of(new_data)[a] < keys_of(new_data)[b] by {
                let ks = keys_of(old_data);
                if a < position && b > position {
                    assert(ks[a] < key);
                    assert(ks[b - 1] >= key);
                    assert(ks[b - 1] != key);
                } else if a < position && b == position {
                    assert(ks[a] < key);
                } else if a == position {
                    assert(ks[b - 1] >= key);
                    assert(ks[b - 1] != key);
                } else if b < position {
                    assert(ks[a] < ks[b]);
                } else {
                    assert(ks[a - 1] < ks[b - 1]);
                }
            }
            assert forall|i: int| 0 <= i < new_data.len() implies #[trigger] new_data[i].hash == key_hash(new_data[i].key) by {
                if i < position {
                    assert(new_data[i] == old_data[i]);
                } else if i > position {
                    assert(new_data[i] == old_data[i - 1]);
                }
            }
        }
        proof {
            assert(self.hashes@.len() >= 1);
            lemma_hp2_bounds(self.hashes@.len() as nat);
        }
        self.root = highest_power_of_2(self.hashes.len()) - 1;
        proof {
            assert(hp2(1) == 1);
            if n + 1 >= 3 {
                assert(self.hashes@.len() == n);
            }
        }
    }

    /// The arena index of the left child of node `position` in the in-order
    /// layout; for a node of height zero, whose children are leaves, the index of
    /// its left leaf, which equals `position`.
    pub fn left_node_index(position: usize) -> (r: usize)
        ensures
            r == position - (if level(position as nat) == 0 {
                0
            } else {
                pow2((level(position as nat) - 1) as nat)
            }),
    {
        let min_pow = node_level(position);
        proof {
            lemma_level_le(position as nat);
            if min_pow > 0 {
                lemma_pow2_monotonic((min_pow - 1) as nat, min_pow as nat);
            }
        }
        let value = if min_pow == 0 {
            0
        } else {
            power_of_two(min_pow - 1)
        };
        position - value
    }

    /// The child reference on the left of node `position`; none where the
    /// index is out of range or the slot is empty.
    pub fn left_of(&self, position: usize) -> (r: Option<&Child>)
        ensures
            position < self.hashes@.len() && !(self.hashes@[position as int].left is Empty)
                ==> r == Some(&self.hashes@[position as int].left),
            position >= self.hashes@.len() || self.hashes@[position as int].left is Empty
                ==> r is None,
    {
        if position < self.hashes.len() {
            let value = &self.hashes[position].left;
            match value {
                Child::Node(_) | Child::Value(_) => Some(value),
                Child::Empty => None,
            }
        } else {
            None
        }
    }

    /// The child reference on the right of node `position`; none where the
    /// index is out of range or the slot is empty.
    pub fn right_of(&self, position: usize) -> (r: Option<&Child>)
        ensures
            position < self.hashes@.len() && !(self.hashes@[position as int].right is Empty)
                ==> r == Some(&self.hashes@[position as int].right),
            position >= self.hashes@.len() || self.hashes@[position as int].right is Empty
                ==> r is None,
    {
        if position < self.hashes.len() {
            let value = &self.hashes[position].right;
            match value {
                Child::Node(_) | Child::Value(_) => Some(value),
                Child::Empty => None,
            }
        } else {
            None
        }
    }

    /// The digest of node `index`, as served to a remote walk.
    pub fn hash_at(&self, index: usize) -> (r: Result<u64, FetchError>)
        ensures
            r == answer(self.hashes@, index),
    {
        if index < self.hashes.len() {
            Ok(self.hashes[index].hash)
        } else {
            Err(FetchError::OutOfRange)
        }
    }

    /// The value of leaf `index`, as served to a remote walk.
    pub fn value_at(&self, index: usize) -> (r: Result<&V, FetchError>)
        ensures
            index < self.data@.len() ==> r == Ok::<&V, FetchError>(&self.data@[index as int].value),
            index >= self.data@.len() ==> r == Err::<&V, FetchError>(FetchError::OutOfRange),
    {
        if index < self.data.len() {
            Ok(&self.data[index].value)
        } else {
            Err(FetchError::OutOfRange)
        }
    }

    /// The digest at the root: the canonical tree digest of the leaf digests.
    pub fn root_hash(&self) -> (r: Option<u64>)
        requires
            self.wf(),
        ensures
            r == self.root_hash_spec(),
    {
        if self.data.len() == 0 {
            None
        } else {
            proof {
                let n = self.data@.len();
                if n >= 2 {
                    lemma_split_bounds(n);
                    lemma_tree_ok_merkle(self.hashes@, self.leaf_hashes(), 0, n);
                }
            }
            Some(self.hashes[self.root].hash)
        }
    }
}

} // verus!
