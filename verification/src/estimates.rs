//! The tree of dominator estimates that the iterative algorithm refines.
//!
//! Every node that the search has numbered and the algorithm has visited
//! points to its current estimate, a node with a smaller number, so the
//! estimates form a tree below the root.  This module says what it means for
//! one node to lie on the path from another to the root, and proves the facts
//! about such paths that the algorithm rests on.

use vstd::prelude::*;

verus! {

/// The numbers given by the search and the current estimates, by node id.
pub struct Estimates {
    /// The search number of each node, from 1; 0 for a node not reached.
    pub rpo: Seq<usize>,
    /// The current estimate for each node.
    pub idoms: Seq<Option<usize>>,
    /// The node the search started from.
    pub root: usize,
    /// Nodes with a number up to this one have an estimate.
    pub known: int,
}

impl Estimates {
    /// The search number of `v`, 0 for anything that has none.
    pub open spec fn num(self, v: usize) -> int {
        if v < self.rpo.len() {
            self.rpo[v as int] as int
        } else {
            0
        }
    }

    /// Whether `v` has been given an estimate.
    pub open spec fn processed(self, v: usize) -> bool {
        0 < self.num(v) <= self.known
    }

    /// Whether `v` points to an estimate with a smaller number.
    pub open spec fn points_up(self, v: usize) -> bool {
        &&& v < self.idoms.len()
        &&& self.idoms[v as int] is Some
        &&& 0 < self.num(self.idoms[v as int].unwrap()) < self.num(v)
    }

    /// The node that `v` points to.
    pub open spec fn parent(self, v: usize) -> usize {
        self.idoms[v as int].unwrap()
    }

    /// The estimates form a tree: the root has number 1 and no estimate, and
    /// every other processed node points to a node with a smaller number.
    pub open spec fn well_formed(self) -> bool {
        &&& self.rpo.len() == self.idoms.len()
        &&& self.num(self.root) == 1
        &&& self.idoms[self.root as int] is None
        &&& forall|a: usize, b: usize| self.num(a) == self.num(b) && self.num(a) != 0 ==> a == b
        &&& forall|v: usize| #[trigger] self.processed(v) && v != self.root ==> self.points_up(v)
    }

    /// Whether `x` lies on the path from `a` to the root, `a` itself included.
    pub open spec fn on_chain(self, a: usize, x: usize) -> bool
        decreases self.num(a),
    {
        if a == x {
            true
        } else if a != self.root && self.points_up(a) {
            self.on_chain(self.parent(a), x)
        } else {
            false
        }
    }

    /// The same estimates with the one for `v` replaced.
    pub open spec fn with_parent(self, v: usize, p: Option<usize>) -> Estimates {
        Estimates { idoms: self.idoms.update(v as int, p), ..self }
    }

    /// The same estimates with one more node counted as processed.
    pub open spec fn with_known(self, known: int) -> Estimates {
        Estimates { known, ..self }
    }

    /// A node on the path from `a` has a number no larger than that of `a`.
    pub proof fn lemma_chain_num(self, a: usize, x: usize)
        requires
            self.on_chain(a, x),
        ensures
            self.num(x) <= self.num(a),
            x != a ==> self.num(x) < self.num(a),
            x != a ==> a != self.root && self.points_up(a) && self.on_chain(self.parent(a), x),
        decreases self.num(a),
    {
        if a != x {
            self.lemma_chain_num(self.parent(a), x);
        }
    }

    /// A node on the path from a processed node is processed.
    pub proof fn lemma_chain_processed(self, a: usize, x: usize)
        requires
            self.on_chain(a, x),
            self.processed(a),
        ensures
            self.processed(x),
        decreases self.num(a),
    {
        if a != x {
            self.lemma_chain_processed(self.parent(a), x);
        }
    }

    /// Paths compose.
    pub proof fn lemma_chain_trans(self, a: usize, b: usize, c: usize)
        requires
            self.on_chain(a, b),
            self.on_chain(b, c),
        ensures
            self.on_chain(a, c),
        decreases self.num(a),
    {
        if a != b {
            self.lemma_chain_trans(self.parent(a), b, c);
            if a == c {
            }
        }
    }

    /// Two nodes on the path from `a` lie on one path: the one with the
    /// smaller number is on the path from the other.
    pub proof fn lemma_chain_linear(self, a: usize, x: usize, y: usize)
        requires
            self.on_chain(a, x),
            self.on_chain(a, y),
            self.num(x) <= self.num(y),
        ensures
            self.on_chain(y, x),
        decreases self.num(a),
    {
        if a == y {
        } else if a == x {
            self.lemma_chain_num(a, y);
        } else {
            self.lemma_chain_linear(self.parent(a), x, y);
        }
    }

    /// The root lies on the path from every processed node.
    pub proof fn lemma_chain_root(self, a: usize)
        requires
            self.well_formed(),
            self.processed(a),
        ensures
            self.on_chain(a, self.root),
        decreases self.num(a),
    {
        if a != self.root {
            assert(self.points_up(a));
            self.lemma_chain_root(self.parent(a));
        }
    }

    /// Only the root lies on the path from the root.
    pub proof fn lemma_chain_from_root(self, x: usize)
        requires
            self.on_chain(self.root, x),
        ensures
            x == self.root,
    {
    }

    /// Replacing the estimate of `v` leaves alone the path from any node
    /// whose number is smaller than that of `v`.
    pub proof fn lemma_chain_frame(self, v: usize, p: Option<usize>, a: usize, x: usize)
        requires
            v < self.idoms.len(),
            self.num(a) < self.num(v),
        ensures
            self.with_parent(v, p).on_chain(a, x) == self.on_chain(a, x),
        decreases self.num(a),
    {
        let other = self.with_parent(v, p);
        assert(other.num(a) == self.num(a));
        if a != x {
            assert(a != v);
            if a != self.root && self.points_up(a) {
                assert(other.points_up(a));
                self.lemma_chain_frame(v, p, self.parent(a), x);
            } else {
                if a != self.root && other.points_up(a) {
                    assert(self.points_up(a));
                }
            }
        }
    }

    /// Which nodes count as processed has no part in what lies on a path.
    pub proof fn lemma_chain_known(self, known: int, a: usize, x: usize)
        ensures
            self.with_known(known).on_chain(a, x) == self.on_chain(a, x),
        decreases self.num(a),
    {
        let other = self.with_known(known);
        assert(other.num(a) == self.num(a));
        if a != x {
            if a != self.root && self.points_up(a) {
                assert(other.points_up(a));
                self.lemma_chain_known(known, self.parent(a), x);
            } else {
                if a != self.root && other.points_up(a) {
                    assert(self.points_up(a));
                }
            }
        }
    }

    /// Moving the estimate of `v` to a node on the path from its old
    /// estimate adds nothing to any path.
    pub proof fn lemma_chain_shrinks(self, v: usize, new: usize, a: usize, x: usize)
        requires
            v != self.root,
            self.points_up(v),
            self.on_chain(self.parent(v), new),
            0 < self.num(new),
            self.with_parent(v, Some(new)).on_chain(a, x),
        ensures
            self.on_chain(a, x),
        decreases self.num(a),
    {
        let other = self.with_parent(v, Some(new));
        assert(other.num(a) == self.num(a));
        if a != x {
            assert(a != other.root && other.points_up(a));
            if a != v {
                assert(self.points_up(a));
                assert(other.parent(a) == self.parent(a));
                self.lemma_chain_shrinks(v, new, self.parent(a), x);
            } else {
                self.lemma_chain_num(self.parent(v), new);
                self.lemma_chain_frame(v, Some(new), new, x);
                self.lemma_chain_trans(self.parent(v), new, x);
            }
        }
    }

    /// Replacing the estimate of `v` by `new` keeps `x` on the path from
    /// `b` if that path does not pass `v`, or `x` comes no later than `v`,
    /// or `x` lies on the path from `new`.
    pub proof fn lemma_chain_through(self, v: usize, new: usize, b: usize, x: usize)
        requires
            v != self.root,
            self.points_up(v),
            0 < self.num(new) < self.num(v),
            self.on_chain(b, x),
            !self.on_chain(b, v) || self.num(x) >= self.num(v) || self.on_chain(new, x),
        ensures
            self.with_parent(v, Some(new)).on_chain(b, x),
        decreases self.num(b),
    {
        let other = self.with_parent(v, Some(new));
        assert(other.num(b) == self.num(b));
        if b != x {
            assert(b != self.root && self.points_up(b));
            self.lemma_chain_num(self.parent(b), x);
            if b == v {
                assert(self.on_chain(new, x));
                self.lemma_chain_frame(v, Some(new), new, x);
                assert(other.points_up(v));
            } else {
                assert(other.points_up(b));
                assert(other.parent(b) == self.parent(b));
                if self.on_chain(self.parent(b), v) {
                    assert(self.on_chain(b, v));
                }
                self.lemma_chain_through(v, new, self.parent(b), x);
            }
        }
    }

    /// Where two sets of estimates agree on every node whose number is at
    /// least that of `v`, a path that leads to `v` by the one leads to `v`
    /// by the other.
    pub proof fn lemma_chain_stale(self, other: Estimates, a: usize, v: usize)
        requires
            self.rpo == other.rpo,
            self.root == other.root,
            self.idoms.len() == other.idoms.len(),
            forall|b: usize|
                b < self.idoms.len() && self.num(b) >= self.num(v) ==> #[trigger] self.idoms[b as int]
                    == other.idoms[b as int],
            self.on_chain(a, v),
        ensures
            other.on_chain(a, v),
        decreases self.num(a),
    {
        assert(other.num(a) == self.num(a));
        if a != v {
            assert(a != self.root && self.points_up(a));
            self.lemma_chain_num(self.parent(a), v);
            assert(self.idoms[a as int] == other.idoms[a as int]);
            assert(other.num(self.parent(a)) == self.num(self.parent(a)));
            assert(other.points_up(a));
            self.lemma_chain_stale(other, self.parent(a), v);
        }
    }
}

} // verus!
