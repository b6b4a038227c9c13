use std::cmp::Ordering;
use vstd::prelude::*;

verus! {

/// A vector clock: one event counter per node.
#[derive(Clone, Debug)]
pub struct VectorClock {
    pub nodes: Vec<u8>,
}

/// Every counter of `a` is at most the one of `b`.
pub open spec fn dominated(a: Seq<u8>, b: Seq<u8>) -> bool {
    forall|i: int| 0 <= i < a.len() ==> a[i] <= b[i]
}

/// The causal order of two clocks: equal, before, after, or concurrent (none).
pub open spec fn clock_cmp(a: Seq<u8>, b: Seq<u8>) -> Option<Ordering> {
    if a.len() != b.len() {
        None
    } else if a == b {
        Some(Ordering::Equal)
    } else if dominated(a, b) {
        Some(Ordering::Less)
    } else if dominated(b, a) {
        Some(Ordering::Greater)
    } else {
        None
    }
}

impl PartialEq for VectorClock {
    fn eq(&self, other: &Self) -> (r: bool)
        ensures
            r == (self.nodes@ == other.nodes@),
    {
        if self.nodes.len() != other.nodes.len() {
            return false;
        }
        let mut i: usize = 0;
        while i < self.nodes.len()
            invariant
                i <= self.nodes@.len() == other.nodes@.len(),
                forall|k: int| 0 <= k < i ==> self.nodes@[k] == other.nodes@[k],
            decreases self.nodes@.len() - i,
        {
            if self.nodes[i] != other.nodes[i] {
                return false;
            }
            i = i + 1;
        }
        assert(self.nodes@ =~= other.nodes@);
        true
    }
}

impl vstd::std_specs::cmp::PartialEqSpecImpl for VectorClock {
    open spec fn obeys_eq_spec() -> bool {
        true
    }

    open spec fn eq_spec(&self, other: &Self) -> bool {
        self.nodes@ == other.nodes@
    }
}

impl PartialOrd for VectorClock {
    /// Compares counter by counter; clocks of different lengths are not
    /// comparable.
    fn partial_cmp(&self, other: &Self) -> (r: Option<Ordering>)
        ensures
            r == clock_cmp(self.nodes@, other.nodes@),
    {
        if self.nodes.len() != other.nodes.len() {
            return None;
        }
        let mut ordering = Ordering::Equal;
        let ghost mut diff: int = 0;
        let mut i: usize = 0;
        while i < self.nodes.len()
            invariant
                i <= self.nodes@.len() == other.nodes@.len(),
                ordering == Ordering::Equal ==> forall|k: int| 0 <= k < i ==> self.nodes@[k] == other.nodes@[k],
                ordering == Ordering::Less ==> (forall|k: int| 0 <= k < i ==> self.nodes@[k] <= other.nodes@[k])
                    && 0 <= diff < i && self.nodes@[diff] < other.nodes@[diff],
                ordering == Ordering::Greater ==> (forall|k: int| 0 <= k < i ==> self.nodes@[k] >= other.nodes@[k])
                    && 0 <= diff < i && self.nodes@[diff] > other.nodes@[diff],
            decreases self.nodes@.len() - i,
        {
            let x = self.nodes[i];
            let y = other.nodes[i];
            match ordering {
                Ordering::Less => {
                    if x > y {
                        proof {
                            assert(self.nodes@[diff] != other.nodes@[diff]);
                            assert(self.nodes@[i as int] > other.nodes@[i as int]);
                            assert(!dominated(self.nodes@, other.nodes@));
                            assert(!dominated(other.nodes@, self.nodes@));
                            assert(self.nodes@ != other.nodes@);
                            assert(clock_cmp(self.nodes@, other.nodes@) is None);
                        }
                        return None;
                    }
                },
                Ordering::Equal => {
                    if x < y {
                        ordering = Ordering::Less;
                        proof {
                            diff = i as int;
                        }
                    } else if x > y {
                        ordering = Ordering::Greater;
                        proof {
                            diff = i as int;
                        }
                    }
                },
                Ordering::Greater => {
                    if x < y {
                        proof {
                            assert(self.nodes@[diff] != other.nodes@[diff]);
                            assert(self.nodes@[i as int] < other.nodes@[i as int]);
                            assert(!dominated(self.nodes@, other.nodes@));
                            assert(!dominated(other.nodes@, self.nodes@));
                            assert(self.nodes@ != other.nodes@);
                            assert(clock_cmp(self.nodes@, other.nodes@) is None);
                        }
                        return None;
                    }
                },
            }
            i = i + 1;
        }
        proof {
            if ordering == Ordering::Equal {
                assert(self.nodes@ =~= other.nodes@);
            } else {
                assert(self.nodes@[diff] != other.nodes@[diff]);
            }
        }
        Some(ordering)
    }
}

impl vstd::std_specs::cmp::PartialOrdSpecImpl for VectorClock {
    open spec fn obeys_partial_cmp_spec() -> bool {
        true
    }

    open spec fn partial_cmp_spec(&self, other: &Self) -> Option<Ordering> {
        clock_cmp(self.nodes@, other.nodes@)
    }
}

impl VectorClock {
    /// A clock of `node_amount` counters, all zero.
    pub fn new(node_amount: usize) -> (r: Self)
        ensures
            r.nodes@ == Seq::new(node_amount as nat, |i: int| 0u8),
    {
        let mut nodes: Vec<u8> = Vec::new();
        let mut i: usize = 0;
        while i < node_amount
            invariant
                i <= node_amount,
                nodes@ == Seq::new(i as nat, |k: int| 0u8),
            decreases node_amount - i,
        {
            nodes.push(0);
            i = i + 1;
            assert(nodes@ =~= Seq::new(i as nat, |k: int| 0u8));
        }
        VectorClock { nodes }
    }

    /// Counts one event on `node`.
    pub fn increment(&mut self, node: usize)
        requires
            node < old(self).nodes@.len(),
            old(self).nodes@[node as int] < u8::MAX,
        ensures
            final(self).nodes@ == old(self).nodes@.update(node as int, (old(self).nodes@[node as int] + 1) as u8),
    {
        self.nodes[node] = self.nodes[node] + 1;
    }

    /// Takes, counter by counter, the larger of the two clocks.
    pub fn merge(&mut self, other: &Self)
        requires
            old(self).nodes@.len() == other.nodes@.len(),
        ensures
            final(self).nodes@ == Seq::new(
                other.nodes@.len(),
                |i: int| vstd::math::max(old(self).nodes@[i] as int, other.nodes@[i] as int) as u8,
            ),
    {
        let ghost start = self.nodes@;
        let mut i: usize = 0;
        while i < self.nodes.len()
            invariant
                i <= self.nodes@.len() == other.nodes@.len() == start.len(),
                forall|k: int| 0 <= k < i ==> self.nodes@[k] == vstd::math::max(start[k] as int, other.nodes@[k] as int) as u8,
                forall|k: int| i <= k < start.len() ==> self.nodes@[k] == start[k],
            decreases self.nodes@.len() - i,
        {
            let mine = self.nodes[i];
            let theirs = other.nodes[i];
            self.nodes[i] = if mine >= theirs { mine } else { theirs };
            i = i + 1;
        }
        assert(self.nodes@ =~= Seq::new(
            other.nodes@.len(),
            |i: int| vstd::math::max(start[i] as int, other.nodes@[i] as int) as u8,
        ));
    }
}

} // verus!
