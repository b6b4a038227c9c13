use crate::hashing::key_hash;
use crate::index::{hp2, lemma_pow2_monotonic, lemma_split_bounds, pow2, split};
use crate::tree::{
    count_less, lemma_span_bounds, lemma_span_children, lemma_span_tree_ok, lemma_tree_ok_merkle,
    lone_node, merkle, node_span, sorted_insert, span_contains, strictly_sorted, subtree, tree_ok, Child,
    MerkleTree, Node,
};
use crate::walk::{
    answer, divergence, FetchError, lemma_step_weight, push_leaf_refs, push_node_refs, run, stack_valid,
    stack_weight, start_view, step, WalkView,
};
use vstd::prelude::*;

verus! {

/// The keys of a tree after inserting `ks`, in that order, into an empty one.
pub open spec fn keys_after_inserts(ks: Seq<u64>) -> Seq<u64>
    decreases ks.len(),
{
    if ks.len() == 0 {
        Seq::empty()
    } else {
        sorted_insert(keys_after_inserts(ks.drop_last()), ks.last())
    }
}

/// In a sorted sequence, the elements before `count_less` are below `k` and
/// the rest are not.
pub proof fn lemma_count_less_splits(s: Seq<u64>, k: u64)
    requires
        strictly_sorted(s),
    ensures
        count_less(s, k) <= s.len(),
        forall|i: int| 0 <= i < count_less(s, k) ==> s[i] < k,
        forall|i: int| count_less(s, k) <= i < s.len() ==> s[i] >= k,
    decreases s.len(),
{
    if s.len() > 0 {
        let d = s.drop_last();
        assert(strictly_sorted(d));
        lemma_count_less_splits(d, k);
        let c = count_less(d, k);
        if s.last() < k {
            assert forall|i: int| 0 <= i < s.len() - 1 implies d[i] < k by {
                assert(s[i] < s[s.len() - 1]);
            }
            if c < d.len() {
                assert(d[c as int] >= k);
            }
            assert(count_less(s, k) == s.len());
            assert forall|i: int| 0 <= i < s.len() implies s[i] < k by {
                if i < s.len() - 1 {
                    assert(s[i] == d[i]);
                }
            }
        } else {
            assert(count_less(s, k) == c);
            assert forall|i: int| c <= i < s.len() implies s[i] >= k by {
                if i < s.len() - 1 {
                    assert(s[i] == d[i]);
                }
            }
            assert forall|i: int| 0 <= i < c implies s[i] < k by {
                assert(s[i] == d[i]);
            }
        }
    }
}

/// Putting a new key in its sorted place keeps the sequence strictly sorted.
pub proof fn lemma_sorted_insert(s: Seq<u64>, k: u64)
    requires
        strictly_sorted(s),
        !s.contains(k),
    ensures
        strictly_sorted(sorted_insert(s, k)),
        sorted_insert(s, k).len() == s.len() + 1,
        forall|x: u64| sorted_insert(s, k).contains(x) <==> (s.contains(x) || x == k),
{
    lemma_count_less_splits(s, k);
    let c = count_less(s, k) as int;
    let t = sorted_insert(s, k);
    assert forall|a: int, b: int| 0 <= a < b < t.len() implies t[a] < t[b] by {
        if b < c {
        } else if b == c {
            assert(t[a] == s[a]);
        } else if a < c {
            assert(s[b - 1] != k);
        } else if a == c {
            assert(s[b - 1] != k);
        } else {
            assert(s[a - 1] < s[b - 1]);
        }
    }
    assert forall|x: u64| t.contains(x) <==> (s.contains(x) || x == k) by {
        if t.contains(x) {
            let j = choose|j: int| 0 <= j < t.len() && t[j] == x;
            if j < c {
                assert(s[j] == x);
            } else if j > c {
                assert(s[j - 1] == x);
            }
        }
        if s.contains(x) {
            let j = choose|j: int| 0 <= j < s.len() && s[j] == x;
            if j < c {
                assert(t[j] == x);
            } else {
                assert(t[j + 1] == x);
            }
        }
        if x == k {
            assert(t[c] == k);
        }
    }
}

/// Inserting distinct keys in any order leaves the leaves sorted: the keys
/// come out strictly ascending, each inserted key exactly once.
pub proof fn lemma_inserts_sort_keys(ks: Seq<u64>)
    requires
        ks.no_duplicates(),
    ensures
        strictly_sorted(keys_after_inserts(ks)),
        keys_after_inserts(ks).len() == ks.len(),
        forall|x: u64| keys_after_inserts(ks).contains(x) <==> ks.contains(x),
    decreases ks.len(),
{
    if ks.len() > 0 {
        let d = ks.drop_last();
        let k = ks.last();
        assert(d.no_duplicates());
        lemma_inserts_sort_keys(d);
        assert(!d.contains(k)) by {
            if d.contains(k) {
                let j = choose|j: int| 0 <= j < d.len() && d[j] == k;
                assert(ks[j] == ks[ks.len() - 1]);
            }
        }
        lemma_sorted_insert(keys_after_inserts(d), k);
        assert forall|x: u64| keys_after_inserts(ks).contains(x) <==> ks.contains(x) by {
            if ks.contains(x) && x != k {
                let j = choose|j: int| 0 <= j < ks.len() && ks[j] == x;
                assert(d[j] == x);
            }
            if d.contains(x) {
                let j = choose|j: int| 0 <= j < d.len() && d[j] == x;
                assert(ks[j] == x);
            }
            if x == k {
                assert(ks[ks.len() - 1] == x);
            }
        }
    }
}

/// Two strictly sorted sequences with the same elements are equal.
pub proof fn lemma_sorted_same_elements(s: Seq<u64>, t: Seq<u64>)
    requires
        strictly_sorted(s),
        strictly_sorted(t),
        forall|x: u64| s.contains(x) <==> t.contains(x),
    ensures
        s == t,
    decreases s.len(),
{
    if s.len() == 0 {
        if t.len() > 0 {
            assert(t.contains(t[0]));
        }
        assert(t =~= s);
    } else {
        assert(t.len() > 0) by {
            assert(s.contains(s[0]));
        }
        assert(s[0] == t[0]) by {
            assert(s.contains(s[0]));
            assert(t.contains(t[0]));
            let j = choose|j: int| 0 <= j < t.len() && t[j] == s[0];
            let i = choose|i: int| 0 <= i < s.len() && s[i] == t[0];
            if i > 0 {
                assert(s[0] < s[i]);
            }
            if j > 0 {
                assert(t[0] < t[j]);
            }
        }
        let s1 = s.skip(1);
        let t1 = t.skip(1);
        assert forall|x: u64| s1.contains(x) <==> t1.contains(x) by {
            if s1.contains(x) {
                let i = choose|i: int| 0 <= i < s1.len() && s1[i] == x;
                assert(s[i + 1] == x);
                assert(s.contains(x));
                let j = choose|j: int| 0 <= j < t.len() && t[j] == x;
                assert(s[0] < s[i + 1]);
                assert(j != 0);
                assert(t1[j - 1] == x);
            }
            if t1.contains(x) {
                let j = choose|j: int| 0 <= j < t1.len() && t1[j] == x;
                assert(t[j + 1] == x);
                assert(t.contains(x));
                let i = choose|i: int| 0 <= i < s.len() && s[i] == x;
                assert(t[0] < t[j + 1]);
                assert(i != 0);
                assert(s1[i - 1] == x);
            }
        }
        lemma_sorted_same_elements(s1, t1);
        assert(s =~= seq![s[0]] + s1);
        assert(t =~= seq![t[0]] + t1);
    }
}

/// Two canonical node arenas over the same leaf digests agree node for node.
pub proof fn lemma_tree_determined(n1: Seq<Node>, n2: Seq<Node>, hs: Seq<u64>, lo: nat, len: nat)
    requires
        len >= 1,
        lo + len <= usize::MAX,
        tree_ok(n1, hs, lo, len),
        tree_ok(n2, hs, lo, len),
    ensures
        forall|j: int| lo <= j < lo + len - 1 ==> n1[j] == n2[j],
    decreases len,
{
    if len > 1 {
        lemma_split_bounds(len);
        let p = split(len);
        lemma_tree_determined(n1, n2, hs, lo, p);
        lemma_tree_determined(n1, n2, hs, lo + p, (len - p) as nat);
        lemma_tree_ok_merkle(n1, hs, lo, p);
        lemma_tree_ok_merkle(n2, hs, lo, p);
        lemma_tree_ok_merkle(n1, hs, lo + p, (len - p) as nat);
        lemma_tree_ok_merkle(n2, hs, lo + p, (len - p) as nat);
    }
}

/// The node arena, and with it the root digest, depends on the leaf digests
/// alone, taken in key order.
pub proof fn lemma_root_hash_from_leaf_hashes<V, W>(a: MerkleTree<V>, b: MerkleTree<W>)
    requires
        a.wf(),
        b.wf(),
        a.leaf_hashes() == b.leaf_hashes(),
    ensures
        a.hashes@ == b.hashes@,
        a.root == b.root,
        a.root_hash_spec() == b.root_hash_spec(),
{
    let n = a.data@.len();
    let hs = a.leaf_hashes();
    assert(b.data@.len() == hs.len());
    if n >= 1 {
        lemma_tree_determined(a.hashes@, b.hashes@, hs, 0, n);
        if n == 1 {
            assert(a.hashes@[0] == lone_node(hs[0]));
            assert(b.hashes@[0] == lone_node(hs[0]));
        }
    }
    assert(a.hashes@ =~= b.hashes@);
}

/// Replicas holding the same set of keys, whatever order the keys came in,
/// have the same leaves in the same order, the same node arena and the same
/// root digest.
pub proof fn lemma_same_keys_same_tree<V, W>(a: MerkleTree<V>, b: MerkleTree<W>)
    requires
        a.wf(),
        b.wf(),
        forall|k: u64| a.keys().contains(k) <==> b.keys().contains(k),
    ensures
        a.keys() == b.keys(),
        a.hashes@ == b.hashes@,
        a.root_hash_spec() == b.root_hash_spec(),
{
    lemma_sorted_same_elements(a.keys(), b.keys());
    assert(a.data@.len() == a.keys().len());
    assert forall|i: int| 0 <= i < a.data@.len() implies a.leaf_hashes()[i] == b.leaf_hashes()[i] by {
        assert(a.data@[i].hash == key_hash(a.data@[i].key));
        assert(b.data@[i].hash == key_hash(b.data@[i].key));
        assert(a.keys()[i] == b.keys()[i]);
    }
    assert(a.leaf_hashes() =~= b.leaf_hashes());
    lemma_root_hash_from_leaf_hashes(a, b);
}

/// A walk between replicas with the same node arena reads the root digest
/// once, finds it equal, and reports nothing.
pub proof fn lemma_identical_replicas_one_read<V, W>(a: MerkleTree<V>, b: MerkleTree<W>)
    requires
        a.wf(),
        a.data@.len() >= 1,
        a.hashes@ == b.hashes@,
    ensures
        divergence(a, b).fetches == 1,
        divergence(a, b).candidates.len() == 0,
        divergence(a, b).stack.len() == 0,
        !divergence(a, b).inconclusive,
{
    let n = a.data@.len();
    if n >= 2 {
        lemma_split_bounds(n);
    }
    let w0 = start_view(n, a.root);
    assert(w0.stack.last() == a.root);
    let w1 = step(w0, a.hashes@, answer(b.hashes@, a.root));
    assert(w1.stack =~= Seq::<usize>::empty());
    assert(run(w1, a.hashes@, b.hashes@, (a.hashes@.len() - 1) as nat) == w1);
}

/// A sequence that held `x` holds it after pushes.
proof fn lemma_push_keeps(s: Seq<usize>, y: usize, x: usize)
    requires
        s.contains(x),
    ensures
        s.push(y).contains(x),
{
    let j = choose|j: int| 0 <= j < s.len() && s[j] == x;
    assert(s.push(y)[j] == x);
}

/// One step of a walk over a node that stands over leaf `i` and differs
/// from the remote keeps leaf `i` in reach: it is recorded, or a node over it
/// is queued.
proof fn lemma_step_keeps_leaf<V>(a: MerkleTree<V>, w: WalkView, i: nat)
    requires
        a.wf(),
        w.stack.len() > 0,
        w.stack.last() < a.hashes@.len(),
        i < a.data@.len(),
        span_contains(a.data@.len(), w.stack.last() as nat, i),
    ensures
        ({
            let node = a.hashes@[w.stack.last() as int];
            let s = push_node_refs(w.stack.drop_last(), node);
            let c = push_leaf_refs(w.candidates, node);
            c.contains(i as usize) || exists|k: int|
                0 <= k < s.len() && span_contains(a.data@.len(), #[trigger] s[k] as nat, i)
        }),
{
    let n = a.data@.len();
    let t = w.stack.last();
    let node = a.hashes@[t as int];
    let rest = w.stack.drop_last();
    let hs = a.leaf_hashes();
    if n == 1 {
        assert(node == lone_node(hs[0]));
        assert(w.candidates.push(0usize)[w.candidates.len() as int] == 0usize);
        assert(push_leaf_refs(w.candidates, node) == w.candidates.push(0usize));
    } else {
        lemma_span_bounds(0, n, t as nat);
        lemma_span_tree_ok(a.hashes@, hs, 0, n, t as nat);
        lemma_span_children(0, n, t as nat);
        let (a0, m) = node_span(0, n, t as nat);
        let q = split(m);
        lemma_split_bounds(m);
        assert(node.left == subtree(a0, q));
        assert(node.right == subtree(a0 + q, (m - q) as nat));
        let s1 = match node.left {
            Child::Node(j) => rest.push(j),
            _ => rest,
        };
        let c1 = match node.left {
            Child::Value(j) => w.candidates.push(j),
            _ => w.candidates,
        };
        if i < a0 + q {
            if q == 1 {
                assert(c1[w.candidates.len() as int] == i as usize);
                assert(c1.contains(i as usize));
                if node.right is Value {
                    lemma_push_keeps(c1, node.right->Value_0, i as usize);
                }
            } else {
                lemma_split_bounds(q);
                let j = node.left->Node_0;
                assert(j as nat == a0 + split(q) - 1);
                assert(s1[rest.len() as int] == j);
                assert(span_contains(n, s1[rest.len() as int] as nat, i));
                let s = push_node_refs(rest, node);
                if node.right is Node {
                    assert(s[rest.len() as int] == j);
                } else {
                    assert(s == s1);
                }
                assert(span_contains(n, s[rest.len() as int] as nat, i));
            }
        } else {
            let s = push_node_refs(rest, node);
            let c = push_leaf_refs(w.candidates, node);
            if m - q == 1 {
                assert(c[c1.len() as int] == i as usize);
                assert(c.contains(i as usize));
            } else {
                lemma_split_bounds((m - q) as nat);
                let j = node.right->Node_0;
                assert(j as nat == a0 + q + split((m - q) as nat) - 1);
                assert(s[s1.len() as int] == j);
                assert(span_contains(n, s[s1.len() as int] as nat, i));
            }
        }
    }
}

/// The walk invariant: leaf `i` is recorded, or a node over it is queued;
/// then it is recorded by the end.
proof fn lemma_run_reports<V>(a: MerkleTree<V>, b_nodes: Seq<Node>, w: WalkView, i: nat, fuel: nat)
    requires
        a.wf(),
        b_nodes.len() == a.hashes@.len(),
        i < a.data@.len(),
        stack_valid(w.stack, a.hashes@.len()),
        stack_weight(a.data@.len(), w.stack) <= fuel,
        !w.inconclusive,
        forall|j: nat|
            j < a.hashes@.len() && span_contains(a.data@.len(), j, i) ==> a.hashes@[j as int].hash
                != b_nodes[j as int].hash,
        w.candidates.contains(i as usize) || exists|k: int|
            0 <= k < w.stack.len() && span_contains(a.data@.len(), #[trigger] w.stack[k] as nat, i),
    ensures
        run(w, a.hashes@, b_nodes, fuel).candidates.contains(i as usize),
        !run(w, a.hashes@, b_nodes, fuel).inconclusive,
    decreases fuel,
{
    let n = a.data@.len();
    if w.stack.len() == 0 {
    } else {
        lemma_step_weight(a, w.stack);
        let t = w.stack.last();
        let node = a.hashes@[t as int];
        let rest = w.stack.drop_last();
        let w2 = step(w, a.hashes@, answer(b_nodes, t));
        assert(fuel >= 1);
        // candidates only grow
        if w.candidates.contains(i as usize) {
            let c1 = match node.left {
                Child::Value(j) => w.candidates.push(j),
                _ => w.candidates,
            };
            if node.left is Value {
                lemma_push_keeps(w.candidates, node.left->Value_0, i as usize);
            }
            if node.right is Value {
                lemma_push_keeps(c1, node.right->Value_0, i as usize);
            }
            assert(w2.candidates.contains(i as usize));
        } else {
            let k = choose|k: int|
                0 <= k < w.stack.len() && span_contains(n, #[trigger] w.stack[k] as nat, i);
            if k == w.stack.len() - 1 {
                assert(a.hashes@[t as int].hash != b_nodes[t as int].hash);
                assert(answer(b_nodes, t) == Ok::<u64, FetchError>(b_nodes[t as int].hash));
                assert(w2.stack == push_node_refs(rest, node));
                assert(w2.candidates == push_leaf_refs(w.candidates, node));
                lemma_step_keeps_leaf(a, w, i);
            } else {
                assert(rest[k] == w.stack[k]);
                let s = push_node_refs(rest, node);
                assert(s[k] == rest[k]);
                assert(span_contains(n, w2.stack[k] as nat, i));
            }
        }
        lemma_run_reports(a, b_nodes, w2, i, (fuel - 1) as nat);
    }
}

/// How many internal nodes lie on the path from the subtree over the leaves
/// `[lo, lo + len)` down to leaf `i`.
pub open spec fn path_len(lo: nat, len: nat, i: nat) -> nat
    decreases len,
    via path_len_decreases
{
    if len <= 1 {
        0
    } else {
        let q = split(len);
        1 + if i < lo + q {
            path_len(lo, q, i)
        } else {
            path_len(lo + q, (len - q) as nat, i)
        }
    }
}

#[via_fn]
proof fn path_len_decreases(lo: nat, len: nat, i: nat) {
    if len > 1 {
        lemma_split_bounds(len);
    }
}

/// Below a power of two, the largest power of two is at most its half.
proof fn lemma_hp2_below_pow2(x: nat, e: nat)
    requires
        e >= 1,
        x < pow2(e),
    ensures
        hp2(x) <= pow2((e - 1) as nat),
    decreases e,
{
    lemma_pow2_monotonic(0, (e - 1) as nat);
    if x > 1 {
        if e >= 2 {
            lemma_hp2_below_pow2(x / 2, (e - 1) as nat);
        }
    }
}

/// A tree over at most `2^e` leaves is at most `e` internal nodes deep.
pub proof fn lemma_path_len_log(lo: nat, len: nat, i: nat, e: nat)
    requires
        len <= pow2(e),
    ensures
        path_len(lo, len, i) <= e,
    decreases len,
{
    if len > 1 {
        lemma_split_bounds(len);
        if e == 0 {
            assert(pow2(0) == 1);
        }
        let q = split(len);
        lemma_hp2_below_pow2((len - 1) as nat, e);
        lemma_path_len_log(lo, q, i, (e - 1) as nat);
        lemma_path_len_log(lo + q, (len - q) as nat, i, (e - 1) as nat);
    }
}

/// The digest of a canonical tree reads only the leaf digests in its range.
proof fn lemma_merkle_frame(h1: Seq<u64>, h2: Seq<u64>, lo: nat, len: nat)
    requires
        len >= 1,
        forall|k: int| lo <= k < lo + len ==> h1[k] == h2[k],
    ensures
        merkle(h1, lo, len) == merkle(h2, lo, len),
    decreases len,
{
    if len > 1 {
        lemma_split_bounds(len);
        let q = split(len);
        lemma_merkle_frame(h1, h2, lo, q);
        lemma_merkle_frame(h1, h2, lo + q, (len - q) as nat);
    }
}

/// Every node of a well-formed tree holds the digest of the leaves it spans.
proof fn lemma_node_hash_merkle<V>(t: MerkleTree<V>, j: nat)
    requires
        t.wf(),
        j < t.hashes@.len(),
    ensures
        t.hashes@[j as int].hash == merkle(
            t.leaf_hashes(),
            node_span(0, t.data@.len(), j).0,
            node_span(0, t.data@.len(), j).1,
        ),
{
    let n = t.data@.len();
    let hs = t.leaf_hashes();
    if n == 1 {
        assert(t.hashes@[0] == lone_node(hs[0]));
    } else {
        lemma_span_bounds(0, n, j);
        lemma_span_tree_ok(t.hashes@, hs, 0, n, j);
        let (a0, m) = node_span(0, n, j);
        lemma_tree_ok_merkle(t.hashes@, hs, a0, m);
    }
}

/// What a queued node may still cost in reads: one for itself, and two for
/// each level below it on the way to leaf `i` when it stands over that leaf.
pub open spec fn entry_cost(n: nat, i: nat, j: usize) -> nat {
    let (a0, m) = node_span(0, n, j as nat);
    if a0 <= i < a0 + m {
        1 + 2 * path_len(a0, m, i)
    } else {
        1
    }
}

pub open spec fn stack_cost(n: nat, i: nat, s: Seq<usize>) -> nat
    decreases s.len(),
{
    if s.len() == 0 {
        0
    } else {
        stack_cost(n, i, s.drop_last()) + entry_cost(n, i, s.last())
    }
}

/// One step of the walk does not raise the reads made plus the reads the
/// queue may still cost, when the replicas agree on every leaf but `i`.
proof fn lemma_step_cost<V, W>(a: MerkleTree<V>, b: MerkleTree<W>, w: WalkView, i: nat)
    requires
        a.wf(),
        b.wf(),
        a.data@.len() == b.data@.len(),
        i < a.data@.len(),
        forall|k: int| 0 <= k < a.data@.len() && k != i ==> a.keys()[k] == b.keys()[k],
        w.stack.len() > 0,
        stack_valid(w.stack, a.hashes@.len()),
    ensures
        ({
            let w2 = step(w, a.hashes@, answer(b.hashes@, w.stack.last()));
            w2.fetches + stack_cost(a.data@.len(), i, w2.stack) <= w.fetches + stack_cost(
                a.data@.len(),
                i,
                w.stack,
            )
        }),
{
    let n = a.data@.len();
    let t = w.stack.last();
    let node = a.hashes@[t as int];
    let rest = w.stack.drop_last();
    let w2 = step(w, a.hashes@, answer(b.hashes@, t));
    let hs = a.leaf_hashes();
    assert(stack_cost(n, i, w.stack) == stack_cost(n, i, rest) + entry_cost(n, i, t));
    assert(t < b.hashes@.len());
    let (a0, m) = node_span(0, n, t as nat);
    if !(a0 <= i < a0 + m) {
        lemma_node_hash_merkle(a, t as nat);
        lemma_node_hash_merkle(b, t as nat);
        if n >= 2 {
            lemma_span_bounds(0, n, t as nat);
        }
        assert forall|k: int| a0 <= k < a0 + m implies hs[k] == b.leaf_hashes()[k] by {
            assert(a.data@[k].hash == key_hash(a.data@[k].key));
            assert(b.data@[k].hash == key_hash(b.data@[k].key));
            assert(a.keys()[k] == b.keys()[k]);
        }
        lemma_merkle_frame(hs, b.leaf_hashes(), a0, m);
        assert(w2.stack == rest);
    } else if n == 1 {
        assert(node == lone_node(hs[0]));
        assert(push_node_refs(rest, node) == rest);
    } else {
        lemma_span_bounds(0, n, t as nat);
        lemma_span_tree_ok(a.hashes@, hs, 0, n, t as nat);
        lemma_span_children(0, n, t as nat);
        let q = split(m);
        lemma_split_bounds(m);
        assert(node.left == subtree(a0, q));
        assert(node.right == subtree(a0 + q, (m - q) as nat));
        let pl = path_len(a0, m, i);
        let s1 = match node.left {
            Child::Node(j) => rest.push(j),
            _ => rest,
        };
        let s2 = match node.right {
            Child::Node(j) => s1.push(j),
            _ => s1,
        };
        assert(push_node_refs(rest, node) == s2);
        if q >= 2 {
            lemma_split_bounds(q);
            let j = node.left->Node_0;
            assert(j as nat == a0 + split(q) - 1);
            assert(s1.drop_last() =~= rest);
            assert(stack_cost(n, i, s1) == stack_cost(n, i, rest) + entry_cost(n, i, j));
            if i < a0 + q {
                assert(entry_cost(n, i, j) == 1 + 2 * path_len(a0, q, i));
            } else {
                assert(entry_cost(n, i, j) == 1);
            }
        } else {
            assert(s1 == rest);
        }
        if m - q >= 2 {
            lemma_split_bounds((m - q) as nat);
            let j = node.right->Node_0;
            assert(j as nat == a0 + q + split((m - q) as nat) - 1);
            assert(s2.drop_last() =~= s1);
            assert(stack_cost(n, i, s2) == stack_cost(n, i, s1) + entry_cost(n, i, j));
            if i >= a0 + q {
                assert(entry_cost(n, i, j) == 1 + 2 * path_len(a0 + q, (m - q) as nat, i));
            } else {
                assert(entry_cost(n, i, j) == 1);
            }
        } else {
            assert(s2 == s1);
        }
        if i < a0 + q {
            assert(pl == 1 + path_len(a0, q, i));
        } else {
            assert(pl == 1 + path_len(a0 + q, (m - q) as nat, i));
        }
    }
}

/// The reads of a whole walk are bounded by its reads so far plus what its
/// queue may still cost.
proof fn lemma_run_cost<V, W>(a: MerkleTree<V>, b: MerkleTree<W>, w: WalkView, i: nat, fuel: nat)
    requires
        a.wf(),
        b.wf(),
        a.data@.len() == b.data@.len(),
        i < a.data@.len(),
        forall|k: int| 0 <= k < a.data@.len() && k != i ==> a.keys()[k] == b.keys()[k],
        stack_valid(w.stack, a.hashes@.len()),
    ensures
        run(w, a.hashes@, b.hashes@, fuel).fetches <= w.fetches + stack_cost(a.data@.len(), i, w.stack),
    decreases fuel,
{
    if fuel > 0 && w.stack.len() > 0 {
        lemma_step_weight(a, w.stack);
        lemma_step_cost(a, b, w, i);
        let w2 = step(w, a.hashes@, answer(b.hashes@, w.stack.last()));
        lemma_run_cost(a, b, w2, i, (fuel - 1) as nat);
    }
}

/// When two replicas of the same size differ in the key of one leaf only, and
/// the digests of the nodes over that leaf differ between them (no digest
/// collides), the walk records that leaf and no read fails; with at most
/// `2^e` leaves it makes at most `2e + 1` remote reads.
pub proof fn lemma_single_leaf_divergence_reported<V, W>(
    a: MerkleTree<V>,
    b: MerkleTree<W>,
    i: nat,
    e: nat,
)
    requires
        a.wf(),
        b.wf(),
        a.data@.len() == b.data@.len(),
        i < a.data@.len(),
        forall|k: int| 0 <= k < a.data@.len() && k != i ==> a.keys()[k] == b.keys()[k],
        a.keys()[i as int] != b.keys()[i as int],
        forall|j: nat|
            j < a.hashes@.len() && span_contains(a.data@.len(), j, i) ==> a.hashes@[j as int].hash
                != b.hashes@[j as int].hash,
        a.data@.len() <= pow2(e),
    ensures
        divergence(a, b).candidates.contains(i as usize),
        !divergence(a, b).inconclusive,
        divergence(a, b).fetches <= 2 * e + 1,
{
    let n = a.data@.len();
    let w0 = start_view(n, a.root);
    if n >= 2 {
        lemma_split_bounds(n);
        assert(node_span(0, n, a.root as nat) == (0nat, n));
    } else {
        assert(node_span(0, n, a.root as nat) == (0nat, n));
    }
    assert(w0.stack[0] == a.root);
    assert(span_contains(n, w0.stack[0] as nat, i));
    assert(w0.stack.drop_last() =~= Seq::<usize>::empty());
    assert(stack_weight(n, Seq::<usize>::empty()) == 0);
    lemma_run_reports(a, b.hashes@, w0, i, a.hashes@.len() as nat);
    lemma_run_cost(a, b, w0, i, a.hashes@.len() as nat);
    assert(stack_cost(n, i, Seq::<usize>::empty()) == 0);
    assert(stack_cost(n, i, w0.stack) == entry_cost(n, i, a.root));
    lemma_path_len_log(0, n, i, e);
}

} // verus!
