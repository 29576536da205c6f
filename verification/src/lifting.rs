//! Walks and dominance carry over between a graph over numbers and the graph
//! over nodes that it stands for.

use vstd::prelude::*;
use petgraph::Direction;
use crate::dominance::{dominates, is_walk, is_walk_between, linked, reachable};
use crate::ir::{NameView, NodeView};
use crate::node_table::{edges_within, lemma_lift_step, lemma_node_injective, lift, node_of};

verus! {

/// The nodes that a sequence of numbers stands for.
pub open spec fn lift_walk(names: Seq<NameView>, p: Seq<usize>) -> Seq<NodeView> {
    Seq::new(p.len(), |i: int| node_of(names, p[i]))
}

/// Every number on a walk that starts within the table is within the table.
pub proof fn lemma_walk_within(names: Seq<NameView>, edges: Set<(usize, usize)>, dir: Direction, p: Seq<usize>, k: int)
    requires
        edges_within(names, edges),
        is_walk(edges, dir, p),
        p[0] <= names.len(),
        0 <= k < p.len(),
    ensures
        p[k] <= names.len(),
{
    if k > 0 {
        assert(linked(edges, dir, p, k - 1));
        assert(edges.contains((p[k - 1], p[k])) || edges.contains((p[k], p[k - 1])));
    }
}

/// The nodes of a walk over numbers form a walk over nodes.
pub proof fn lemma_lift_walk(names: Seq<NameView>, edges: Set<(usize, usize)>, dir: Direction, p: Seq<usize>)
    requires
        names.no_duplicates(),
        edges_within(names, edges),
        is_walk(edges, dir, p),
        p[0] <= names.len(),
    ensures
        is_walk(lift(names, edges), dir, lift_walk(names, p)),
{
    let q = lift_walk(names, p);
    assert forall|i: int| 0 <= i < q.len() - 1 implies #[trigger] linked(lift(names, edges), dir, q, i) by {
        assert(linked(edges, dir, p, i));
        lemma_walk_within(names, edges, dir, p, i);
        lemma_walk_within(names, edges, dir, p, i + 1);
        lemma_lift_step(names, edges, dir, p[i], p[i + 1]);
    }
}

/// A walk over nodes that starts at the node of a number within the table is
/// the walk of the nodes of some walk over numbers.
pub proof fn lemma_unlift_walk(
    names: Seq<NameView>,
    edges: Set<(usize, usize)>,
    dir: Direction,
    root: usize,
    q: Seq<NodeView>,
) -> (p: Seq<usize>)
    requires
        names.no_duplicates(),
        edges_within(names, edges),
        root <= names.len(),
        is_walk(lift(names, edges), dir, q),
        q[0] == node_of(names, root),
    ensures
        is_walk(edges, dir, p),
        p[0] == root,
        lift_walk(names, p) == q,
        forall|i: int| 0 <= i < p.len() ==> p[i] <= names.len(),
    decreases q.len(),
{
    if q.len() == 1 {
        let p = seq![root];
        assert(lift_walk(names, p) =~= q);
        p
    } else {
        let shorter = q.drop_last();
        assert forall|i: int| 0 <= i < shorter.len() - 1 implies #[trigger] linked(
            lift(names, edges),
            dir,
            shorter,
            i,
        ) by {
            assert(linked(lift(names, edges), dir, q, i));
        }
        let head = lemma_unlift_walk(names, edges, dir, root, shorter);
        let u = head.last();
        assert(lift_walk(names, head)[head.len() - 1] == shorter[head.len() - 1]);
        assert(linked(lift(names, edges), dir, q, q.len() - 2));
        let e = match dir {
            Direction::Outgoing => (q[q.len() - 2], q.last()),
            Direction::Incoming => (q.last(), q[q.len() - 2]),
        };
        assert(lift(names, edges).contains(e));
        let (a, b) = choose|a: usize, b: usize|
            #[trigger] edges.contains((a, b)) && e.0 == node_of(names, a) && e.1 == node_of(names, b);
        let v = match dir {
            Direction::Outgoing => b,
            Direction::Incoming => a,
        };
        let o = match dir {
            Direction::Outgoing => a,
            Direction::Incoming => b,
        };
        lemma_node_injective(names, o, u);
        let p = head.push(v);
        assert forall|i: int| 0 <= i < p.len() - 1 implies #[trigger] linked(edges, dir, p, i) by {
            if i < head.len() - 1 {
                assert(linked(edges, dir, head, i));
            }
        }
        assert(lift_walk(names, p) =~= q) by {
            assert forall|i: int| 0 <= i < q.len() implies lift_walk(names, p)[i] == q[i] by {
                if i < head.len() {
                    assert(lift_walk(names, head)[i] == shorter[i]);
                }
            }
        }
        p
    }
}

/// A number within the table can be reached exactly if its node can.
pub proof fn lemma_lift_reachable(
    names: Seq<NameView>,
    edges: Set<(usize, usize)>,
    dir: Direction,
    root: usize,
    v: usize,
)
    requires
        names.no_duplicates(),
        edges_within(names, edges),
        root <= names.len(),
        v <= names.len(),
    ensures
        reachable(edges, dir, root, v) == reachable(lift(names, edges), dir, node_of(names, root), node_of(names, v)),
{
    if reachable(edges, dir, root, v) {
        let p = choose|p: Seq<usize>| is_walk_between(edges, dir, root, v, p);
        lemma_lift_walk(names, edges, dir, p);
        assert(is_walk_between(lift(names, edges), dir, node_of(names, root), node_of(names, v), lift_walk(names, p)));
    }
    if reachable(lift(names, edges), dir, node_of(names, root), node_of(names, v)) {
        let q = choose|q: Seq<NodeView>|
            is_walk_between(lift(names, edges), dir, node_of(names, root), node_of(names, v), q);
        let p = lemma_unlift_walk(names, edges, dir, root, q);
        assert(lift_walk(names, p)[p.len() - 1] == q[p.len() - 1]);
        lemma_node_injective(names, p.last(), v);
        assert(is_walk_between(edges, dir, root, v, p));
    }
}

/// A node that can be reached from the node of a number within the table is
/// the node of a number within the table.
pub proof fn lemma_reachable_numbered(
    names: Seq<NameView>,
    edges: Set<(usize, usize)>,
    dir: Direction,
    root: usize,
    n: NodeView,
) -> (v: usize)
    requires
        names.no_duplicates(),
        edges_within(names, edges),
        root <= names.len(),
        reachable(lift(names, edges), dir, node_of(names, root), n),
    ensures
        v <= names.len(),
        node_of(names, v) == n,
        reachable(edges, dir, root, v),
{
    let q = choose|q: Seq<NodeView>| is_walk_between(lift(names, edges), dir, node_of(names, root), n, q);
    let p = lemma_unlift_walk(names, edges, dir, root, q);
    assert(lift_walk(names, p)[p.len() - 1] == q[p.len() - 1]);
    assert(is_walk_between(edges, dir, root, p.last(), p));
    p.last()
}

/// Among numbers within the table, one dominates another exactly if its node
/// dominates the node of the other.
pub proof fn lemma_lift_dominates(
    names: Seq<NameView>,
    edges: Set<(usize, usize)>,
    dir: Direction,
    root: usize,
    d: usize,
    v: usize,
)
    requires
        names.no_duplicates(),
        edges_within(names, edges),
        root <= names.len(),
        d <= names.len(),
        v <= names.len(),
    ensures
        dominates(edges, dir, root, d, v) == dominates(
            lift(names, edges),
            dir,
            node_of(names, root),
            node_of(names, d),
            node_of(names, v),
        ),
{
    let lifted = lift(names, edges);
    if dominates(edges, dir, root, d, v) {
        assert forall|q: Seq<NodeView>|
            is_walk_between(lifted, dir, node_of(names, root), node_of(names, v), q) implies q.contains(
            node_of(names, d),
        ) by {
            let p = lemma_unlift_walk(names, edges, dir, root, q);
            assert(lift_walk(names, p)[p.len() - 1] == q[p.len() - 1]);
            lemma_node_injective(names, p.last(), v);
            assert(is_walk_between(edges, dir, root, v, p));
            assert(p.contains(d));
            let i = choose|i: int| 0 <= i < p.len() && p[i] == d;
            assert(lift_walk(names, p)[i] == node_of(names, d));
        }
    }
    if dominates(lifted, dir, node_of(names, root), node_of(names, d), node_of(names, v)) {
        assert forall|p: Seq<usize>| is_walk_between(edges, dir, root, v, p) implies p.contains(d) by {
            lemma_lift_walk(names, edges, dir, p);
            let q = lift_walk(names, p);
            assert(is_walk_between(lifted, dir, node_of(names, root), node_of(names, v), q));
            assert(q.contains(node_of(names, d)));
            let i = choose|i: int| 0 <= i < q.len() && q[i] == node_of(names, d);
            lemma_walk_within(names, edges, dir, p, i);
            lemma_node_injective(names, p[i], d);
        }
    }
}

} // verus!
