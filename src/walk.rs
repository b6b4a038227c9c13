use crate::tree::{
    lemma_span_bounds, lemma_span_children, lemma_span_tree_ok, node_span, subtree, tree_ok, Child,
    MerkleTree, Node,
};
use crate::index::{lemma_split_bounds, split};
use vstd::prelude::*;

verus! {

/// Why a remote read did not give a value.
#[derive(PartialEq, Eq, Structural, Debug, Clone, Copy)]
pub enum FetchError {
    /// The index is beyond the remote arena.
    OutOfRange,
    /// The request failed or timed out.
    NetworkFailure,
    /// The reply could not be read as the expected type.
    MalformedResponse,
}

/// What a remote replica answers when asked for the digest of node `i`.
pub open spec fn answer(nodes: Seq<Node>, i: usize) -> Result<u64, FetchError> {
    if i < nodes.len() {
        Ok(nodes[i as int].hash)
    } else {
        Err(FetchError::OutOfRange)
    }
}


/// What a walk asks for next.
#[derive(PartialEq, Eq, Structural, Debug, Clone, Copy)]
pub enum WalkStep {
    /// Read the remote digest of this node index.
    FetchHash(usize),
    /// Nothing is left to compare.
    Done,
}

/// A reconciliation walk in progress: the node indices still to compare, the
/// leaves found under mismatching nodes, the remote reads made so far, and
/// whether a read failed, so that a subtree could not be compared.
///
/// Every leaf child of a mismatching node is recorded, in the order found, so
/// that several divergences are all reported. Leaf digests are not read
/// remotely, so the sibling leaf of a divergent one under the same node is
/// recorded with it. A failed read is not taken for a match: it marks the
/// walk inconclusive.
pub struct Walk {
    pub stack: Vec<usize>,
    pub candidates: Vec<usize>,
    pub fetches: usize,
    pub inconclusive: bool,
}

/// The mathematical state of a walk.
pub struct WalkView {
    pub stack: Seq<usize>,
    pub candidates: Seq<usize>,
    pub fetches: nat,
    pub inconclusive: bool,
}

impl View for Walk {
    type V = WalkView;

    open spec fn view(&self) -> WalkView {
        WalkView {
            stack: self.stack@,
            candidates: self.candidates@,
            fetches: self.fetches as nat,
            inconclusive: self.inconclusive,
        }
    }
}

/// `s` with the node children of `n` pushed, left first.
pub open spec fn push_node_refs(s: Seq<usize>, n: Node) -> Seq<usize> {
    let s1 = match n.left {
        Child::Node(j) => s.push(j),
        _ => s,
    };
    match n.right {
        Child::Node(j) => s1.push(j),
        _ => s1,
    }
}

/// `s` with the leaf children of `n` pushed, left first.
pub open spec fn push_leaf_refs(s: Seq<usize>, n: Node) -> Seq<usize> {
    let s1 = match n.left {
        Child::Value(i) => s.push(i),
        _ => s,
    };
    match n.right {
        Child::Value(i) => s1.push(i),
        _ => s1,
    }
}

/// One step of a walk over the local arena `nodes`: the top index is taken
/// off; a failed read marks the walk inconclusive; a matching digest proves
/// the subtree equal; a differing one queues the node's child nodes and
/// records its child leaves.
pub open spec fn step(w: WalkView, nodes: Seq<Node>, remote: Result<u64, FetchError>) -> WalkView {
    let top = w.stack.last();
    let rest = w.stack.drop_last();
    match remote {
        Err(_) => WalkView {
            stack: rest,
            candidates: w.candidates,
            fetches: w.fetches + 1,
            inconclusive: true,
        },
        Ok(h) => if h == nodes[top as int].hash {
            WalkView {
                stack: rest,
                candidates: w.candidates,
                fetches: w.fetches + 1,
                inconclusive: w.inconclusive,
            }
        } else {
            WalkView {
                stack: push_node_refs(rest, nodes[top as int]),
                candidates: push_leaf_refs(w.candidates, nodes[top as int]),
                fetches: w.fetches + 1,
                inconclusive: w.inconclusive,
            }
        },
    }
}

/// At most `fuel` steps of a walk against a replica whose node arena is `remote`.
pub open spec fn run(w: WalkView, local: Seq<Node>, remote: Seq<Node>, fuel: nat) -> WalkView
    decreases fuel,
{
    if fuel == 0 || w.stack.len() == 0 {
        w
    } else {
        run(step(w, local, answer(remote, w.stack.last())), local, remote, (fuel - 1) as nat)
    }
}

/// A walk that has not begun: the root queued, where there is one.
pub open spec fn start_view(n: nat, root: usize) -> WalkView {
    WalkView {
        stack: if n == 0 {
            Seq::empty()
        } else {
            seq![root]
        },
        candidates: Seq::empty(),
        fetches: 0,
        inconclusive: false,
    }
}

/// The finished walk of `local` against the digests of `remote`.
pub open spec fn divergence<V, W>(local: MerkleTree<V>, remote: MerkleTree<W>) -> WalkView {
    run(
        start_view(local.data@.len(), local.root),
        local.hashes@,
        remote.hashes@,
        local.hashes@.len() as nat,
    )
}

/// How many internal nodes a span of `m` leaves holds (one for a lone leaf).
pub open spec fn span_weight(m: nat) -> nat {
    if m <= 1 {
        1
    } else {
        (m - 1) as nat
    }
}

/// The internal nodes under the queued indices: a bound on the reads left.
pub open spec fn stack_weight(n: nat, s: Seq<usize>) -> nat
    decreases s.len(),
{
    if s.len() == 0 {
        0
    } else {
        stack_weight(n, s.drop_last()) + span_weight(node_span(0, n, s.last() as nat).1)
    }
}

pub open spec fn stack_valid(s: Seq<usize>, count: nat) -> bool {
    forall|k: int| 0 <= k < s.len() ==> s[k] < count
}

/// Taking the top node off the queue and queueing its child nodes lowers the
/// weight of the queue.
pub proof fn lemma_step_weight<V>(tree: MerkleTree<V>, s: Seq<usize>)
    requires
        tree.wf(),
        s.len() > 0,
        stack_valid(s, tree.hashes@.len()),
    ensures
        stack_valid(s.drop_last(), tree.hashes@.len()),
        stack_valid(push_node_refs(s.drop_last(), tree.hashes@[s.last() as int]), tree.hashes@.len()),
        stack_weight(tree.data@.len(), s.drop_last()) < stack_weight(tree.data@.len(), s),
        stack_weight(tree.data@.len(), push_node_refs(s.drop_last(), tree.hashes@[s.last() as int]))
            < stack_weight(tree.data@.len(), s),
{
    let n = tree.data@.len();
    let nodes = tree.hashes@;
    let hs = tree.leaf_hashes();
    let t = s.last();
    let rest = s.drop_last();
    let node = nodes[t as int];
    if n >= 2 {
        lemma_span_bounds(0, n, t as nat);
        lemma_span_tree_ok(nodes, hs, 0, n, t as nat);
        lemma_span_children(0, n, t as nat);
        let (a, m) = node_span(0, n, t as nat);
        let q = split(m);
        lemma_split_bounds(m);
        assert(node.left == subtree(a, q));
        assert(node.right == subtree(a + q, (m - q) as nat));
        assert(stack_weight(n, s) == stack_weight(n, rest) + (m - 1));
        let s1 = match node.left {
            Child::Node(j) => rest.push(j),
            _ => rest,
        };
        if q >= 2 {
            lemma_split_bounds(q);
            let j = node.left->Node_0;
            assert(j as nat == a + split(q) - 1);
            assert(s1.drop_last() =~= rest);
            assert(stack_weight(n, s1) == stack_weight(n, rest) + (q - 1));
        } else {
            assert(s1 == rest);
        }
        let s2 = match node.right {
            Child::Node(j) => s1.push(j),
            _ => s1,
        };
        assert(push_node_refs(rest, node) == s2);
        if m - q >= 2 {
            lemma_split_bounds((m - q) as nat);
            let j = node.right->Node_0;
            assert(j as nat == a + q + split((m - q) as nat) - 1);
            assert(s2.drop_last() =~= s1);
            assert(stack_weight(n, s2) == stack_weight(n, s1) + (m - q - 1));
        } else {
            assert(s2 == s1);
        }
    } else {
        assert(nodes[0] == crate::tree::lone_node(hs[0]));
    }
}

impl Walk {
    /// A walk of `tree` that has not begun.
    pub fn start<V>(tree: &MerkleTree<V>) -> (r: Walk)
        ensures
            r@ == start_view(tree.data@.len(), tree.root),
    {
        let mut stack: Vec<usize> = Vec::new();
        if tree.data.len() > 0 {
            stack.push(tree.root);
        }
        proof {
            if tree.data@.len() > 0 {
                assert(stack@ =~= seq![tree.root]);
            } else {
                assert(stack@ =~= Seq::<usize>::empty());
            }
        }
        Walk { stack, candidates: Vec::new(), fetches: 0, inconclusive: false }
    }

    /// The read the walk needs next.
    pub fn next_step(&self) -> (r: WalkStep)
        ensures
            self.stack@.len() == 0 ==> r == WalkStep::Done,
            self.stack@.len() > 0 ==> r == WalkStep::FetchHash(self.stack@.last()),
    {
        if self.stack.len() == 0 {
            WalkStep::Done
        } else {
            WalkStep::FetchHash(self.stack[self.stack.len() - 1])
        }
    }

    /// Takes the remote reply for the node on top of the queue.
    pub fn on_hash<V>(&mut self, local: &MerkleTree<V>, remote: Result<u64, FetchError>)
        requires
            old(self).stack@.len() > 0,
            old(self).stack@.last() < local.hashes@.len(),
            old(self).fetches < usize::MAX,
        ensures
            final(self)@ == step(old(self)@, local.hashes@, remote),
    {
        let top = self.stack.pop().unwrap();
        self.fetches = self.fetches + 1;
        match remote {
            Err(_) => {
                self.inconclusive = true;
            },
            Ok(h) => {
                let node = local.hashes[top];
                if h != node.hash {
                    match node.left {
                        Child::Node(j) => self.stack.push(j),
                        Child::Value(i) => self.candidates.push(i),
                        Child::Empty => {},
                    }
                    match node.right {
                        Child::Node(j) => self.stack.push(j),
                        Child::Value(i) => self.candidates.push(i),
                        Child::Empty => {},
                    }
                }
            },
        }
    }
}

/// Walks `local` against a replica held in memory, descending only into
/// nodes whose digests differ, and returns the finished walk.
pub fn find_divergence<V, W>(local: &MerkleTree<V>, remote: &MerkleTree<W>) -> (r: Walk)
    requires
        local.wf(),
    ensures
        r@ == divergence(*local, *remote),
        r.stack@.len() == 0,
{
    let total_nodes = local.hashes.len();
    let ghost n = local.data@.len();
    let ghost total = total_nodes as nat;
    let mut walk = Walk::start(local);
    proof {
        if n >= 2 {
            lemma_split_bounds(n);
            assert(node_span(0, n, local.root as nat) == (0nat, n));
        }
        if n >= 1 {
            assert(walk.stack@.drop_last() =~= Seq::<usize>::empty());
            assert(stack_weight(n, Seq::<usize>::empty()) == 0);
            assert(stack_weight(n, walk.stack@) == span_weight(
                node_span(0, n, walk.stack@.last() as nat).1,
            ));
        }
    }
    while walk.stack.len() > 0
        invariant
            local.wf(),
            total == local.hashes@.len(),
            total <= usize::MAX,
            n == local.data@.len(),
            stack_valid(walk.stack@, total),
            walk.fetches + stack_weight(n, walk.stack@) <= total,
            run(walk@, local.hashes@, remote.hashes@, (total - walk.fetches) as nat) == divergence(
                *local,
                *remote,
            ),
        decreases stack_weight(n, walk.stack@),
    {
        let top = walk.stack[walk.stack.len() - 1];
        let reply = remote.hash_at(top);
        proof {
            lemma_step_weight(*local, walk.stack@);
        }
        walk.on_hash(local, reply);
    }
    walk
}

} // verus!
