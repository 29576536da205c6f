//! Walks, reachability and dominance in a directed graph, as mathematics.
//!
//! A graph is a set of edges over any node type.  Every notion takes a
//! direction: `Outgoing` follows the edges from a root, which gives
//! dominance; `Incoming` follows them backwards from a sink, which gives
//! post-dominance.

use vstd::prelude::*;
use petgraph::Direction;
use crate::graph::step;

verus! {

/// Whether position `i + 1` of `p` is one step after position `i`.
pub open spec fn linked<N>(edges: Set<(N, N)>, dir: Direction, p: Seq<N>, i: int) -> bool {
    step(edges, dir, p[i], p[i + 1])
}

/// A walk: a non-empty sequence of nodes, each one step after the one before.
pub open spec fn is_walk<N>(edges: Set<(N, N)>, dir: Direction, p: Seq<N>) -> bool {
    &&& p.len() > 0
    &&& forall|i: int| 0 <= i < p.len() - 1 ==> #[trigger] linked(edges, dir, p, i)
}

/// A walk that starts at `from` and ends at `to`.
pub open spec fn is_walk_between<N>(edges: Set<(N, N)>, dir: Direction, from: N, to: N, p: Seq<N>) -> bool {
    &&& is_walk(edges, dir, p)
    &&& p[0] == from
    &&& p.last() == to
}

/// Whether some walk leads from `root` to `v`.
pub open spec fn reachable<N>(edges: Set<(N, N)>, dir: Direction, root: N, v: N) -> bool {
    exists|p: Seq<N>| is_walk_between(edges, dir, root, v, p)
}

/// `d` dominates `v`: every walk from `root` to `v` passes through `d`.
pub open spec fn dominates<N>(edges: Set<(N, N)>, dir: Direction, root: N, d: N, v: N) -> bool {
    forall|p: Seq<N>| is_walk_between(edges, dir, root, v, p) ==> p.contains(d)
}

/// `d` dominates `v` and is another node.
pub open spec fn strictly_dominates<N>(edges: Set<(N, N)>, dir: Direction, root: N, d: N, v: N) -> bool {
    dominates(edges, dir, root, d, v) && d != v
}

/// `x` is the immediate dominator of `v`: `v` can be reached, `x` strictly
/// dominates it, and `x` strictly dominates no other strict dominator of `v`.
pub open spec fn is_idom<N>(edges: Set<(N, N)>, dir: Direction, root: N, x: N, v: N) -> bool {
    &&& reachable(edges, dir, root, v)
    &&& strictly_dominates(edges, dir, root, x, v)
    &&& forall|d: N| d != x && strictly_dominates(edges, dir, root, d, v)
            ==> !strictly_dominates(edges, dir, root, x, d)
}

/// The root can be reached, by the walk that stays there.
pub proof fn lemma_root_reachable<N>(edges: Set<(N, N)>, dir: Direction, root: N)
    ensures
        reachable(edges, dir, root, root),
{
    assert(is_walk_between(edges, dir, root, root, seq![root]));
}

/// One more step from a node that can be reached ends at a node that can be
/// reached.
pub proof fn lemma_reachable_step<N>(edges: Set<(N, N)>, dir: Direction, root: N, u: N, v: N)
    requires
        reachable(edges, dir, root, u),
        step(edges, dir, u, v),
    ensures
        reachable(edges, dir, root, v),
{
    let p = choose|p: Seq<N>| is_walk_between(edges, dir, root, u, p);
    lemma_walk_push(edges, dir, root, u, v, p);
}

/// A walk to `u`, extended by a step to `v`, is a walk to `v`.
pub proof fn lemma_walk_push<N>(edges: Set<(N, N)>, dir: Direction, root: N, u: N, v: N, p: Seq<N>)
    requires
        is_walk_between(edges, dir, root, u, p),
        step(edges, dir, u, v),
    ensures
        is_walk_between(edges, dir, root, v, p.push(v)),
{
    let q = p.push(v);
    assert forall|i: int| 0 <= i < q.len() - 1 implies #[trigger] linked(edges, dir, q, i) by {
        if i < p.len() - 1 {
            assert(linked(edges, dir, p, i));
        }
    }
}

/// A walk without its last node is a walk to the node before it.
pub proof fn lemma_walk_drop_last<N>(edges: Set<(N, N)>, dir: Direction, root: N, p: Seq<N>)
    requires
        is_walk(edges, dir, p),
        p[0] == root,
        p.len() > 1,
    ensures
        is_walk_between(edges, dir, root, p[p.len() - 2], p.drop_last()),
        step(edges, dir, p[p.len() - 2], p.last()),
{
    let q = p.drop_last();
    assert forall|i: int| 0 <= i < q.len() - 1 implies #[trigger] linked(edges, dir, q, i) by {
        assert(linked(edges, dir, p, i));
    }
    assert(linked(edges, dir, p, p.len() - 2));
}

/// Every node dominates itself.
pub proof fn lemma_dominates_self<N>(edges: Set<(N, N)>, dir: Direction, root: N, v: N)
    ensures
        dominates(edges, dir, root, v, v),
{
    assert forall|p: Seq<N>| is_walk_between(edges, dir, root, v, p) implies p.contains(v) by {
        assert(p[p.len() - 1] == v);
    }
}

/// Only the root dominates the root.
pub proof fn lemma_dominator_of_root<N>(edges: Set<(N, N)>, dir: Direction, root: N, d: N)
    requires
        dominates(edges, dir, root, d, root),
    ensures
        d == root,
{
    let p = seq![root];
    assert(is_walk_between(edges, dir, root, root, p));
    assert(p.contains(d));
}

/// A strict dominator of `v` dominates every node that is one step before
/// `v`.
pub proof fn lemma_dominates_predecessor<N>(edges: Set<(N, N)>, dir: Direction, root: N, d: N, u: N, v: N)
    requires
        strictly_dominates(edges, dir, root, d, v),
        step(edges, dir, u, v),
    ensures
        dominates(edges, dir, root, d, u),
{
    assert forall|p: Seq<N>| is_walk_between(edges, dir, root, u, p) implies p.contains(d) by {
        lemma_walk_push(edges, dir, root, u, v, p);
        let q = p.push(v);
        assert(q.contains(d));
        let i = choose|i: int| 0 <= i < q.len() && q[i] == d;
        assert(i < p.len());
        assert(p[i] == d);
    }
}

/// A dominator of a node that can be reached can itself be reached.
pub proof fn lemma_dominator_reachable<N>(edges: Set<(N, N)>, dir: Direction, root: N, d: N, v: N)
    requires
        dominates(edges, dir, root, d, v),
        reachable(edges, dir, root, v),
    ensures
        reachable(edges, dir, root, d),
{
    let p = choose|p: Seq<N>| is_walk_between(edges, dir, root, v, p);
    assert(p.contains(d));
    let i = choose|i: int| 0 <= i < p.len() && p[i] == d;
    let q = p.subrange(0, i + 1);
    assert forall|k: int| 0 <= k < q.len() - 1 implies #[trigger] linked(edges, dir, q, k) by {
        assert(linked(edges, dir, p, k));
    }
    assert(is_walk_between(edges, dir, root, d, q));
}

/// `d` post-dominates `v`: every walk from `v` to `exit` passes through `d`.
pub open spec fn post_dominates<N>(edges: Set<(N, N)>, exit: N, d: N, v: N) -> bool {
    forall|p: Seq<N>| is_walk_between(edges, Direction::Outgoing, v, exit, p) ==> p.contains(d)
}

/// The graph with every edge turned round.
pub open spec fn reversed<N>(edges: Set<(N, N)>) -> Set<(N, N)> {
    Set::new(|e: (N, N)| edges.contains((e.1, e.0)))
}

/// A walk read backwards is a walk against the edges.
pub proof fn lemma_reverse_walk<N>(edges: Set<(N, N)>, dir: Direction, from: N, to: N, p: Seq<N>)
    requires
        is_walk_between(edges, dir, from, to, p),
    ensures
        is_walk_between(
            edges,
            match dir {
                Direction::Outgoing => Direction::Incoming,
                Direction::Incoming => Direction::Outgoing,
            },
            to,
            from,
            p.reverse(),
        ),
        forall|x: N| p.contains(x) <==> p.reverse().contains(x),
{
    let back = match dir {
        Direction::Outgoing => Direction::Incoming,
        Direction::Incoming => Direction::Outgoing,
    };
    let q = p.reverse();
    assert forall|i: int| 0 <= i < q.len() - 1 implies #[trigger] linked(edges, back, q, i) by {
        assert(linked(edges, dir, p, p.len() - 2 - i));
    }
    assert forall|x: N| p.contains(x) <==> q.contains(x) by {
        if p.contains(x) {
            let i = choose|i: int| 0 <= i < p.len() && p[i] == x;
            assert(q[p.len() - 1 - i] == x);
        }
        if q.contains(x) {
            let i = choose|i: int| 0 <= i < q.len() && q[i] == x;
            assert(p[p.len() - 1 - i] == x);
        }
    }
}

/// Post-dominance is dominance against the edges, from the exit.
pub proof fn lemma_post_dominance_is_dominance<N>(edges: Set<(N, N)>, exit: N, d: N, v: N)
    ensures
        post_dominates(edges, exit, d, v) <==> dominates(edges, Direction::Incoming, exit, d, v),
        reachable(edges, Direction::Outgoing, v, exit) <==> reachable(edges, Direction::Incoming, exit, v),
{
    if post_dominates(edges, exit, d, v) {
        assert forall|p: Seq<N>| is_walk_between(edges, Direction::Incoming, exit, v, p) implies p.contains(d) by {
            lemma_reverse_walk(edges, Direction::Incoming, exit, v, p);
            assert(p.reverse().contains(d));
        }
    }
    if dominates(edges, Direction::Incoming, exit, d, v) {
        assert forall|p: Seq<N>| is_walk_between(edges, Direction::Outgoing, v, exit, p) implies p.contains(d) by {
            lemma_reverse_walk(edges, Direction::Outgoing, v, exit, p);
            assert(p.reverse().contains(d));
        }
    }
    if reachable(edges, Direction::Outgoing, v, exit) {
        let p = choose|p: Seq<N>| is_walk_between(edges, Direction::Outgoing, v, exit, p);
        lemma_reverse_walk(edges, Direction::Outgoing, v, exit, p);
    }
    if reachable(edges, Direction::Incoming, exit, v) {
        let p = choose|p: Seq<N>| is_walk_between(edges, Direction::Incoming, exit, v, p);
        lemma_reverse_walk(edges, Direction::Incoming, exit, v, p);
    }
}

/// Duality: walking the reversed graph along its edges is walking the graph
/// against its edges, so the dominators of the reversed graph, taken from the
/// exit, are the post-dominators of the graph, and the immediate ones with
/// them.
pub proof fn lemma_duality<N>(edges: Set<(N, N)>, exit: N, d: N, v: N)
    ensures
        reachable(reversed(edges), Direction::Outgoing, exit, v) <==> reachable(edges, Direction::Outgoing, v, exit),
        dominates(reversed(edges), Direction::Outgoing, exit, d, v) <==> post_dominates(edges, exit, d, v),
        is_idom(reversed(edges), Direction::Outgoing, exit, d, v) <==> is_idom(
            edges,
            Direction::Incoming,
            exit,
            d,
            v,
        ),
{
    let rev = reversed(edges);
    assert forall|p: Seq<N>| is_walk(rev, Direction::Outgoing, p) <==> is_walk(edges, Direction::Incoming, p) by {
        if is_walk(rev, Direction::Outgoing, p) {
            assert forall|i: int| 0 <= i < p.len() - 1 implies #[trigger] linked(edges, Direction::Incoming, p, i) by {
                assert(linked(rev, Direction::Outgoing, p, i));
            }
        }
        if is_walk(edges, Direction::Incoming, p) {
            assert forall|i: int| 0 <= i < p.len() - 1 implies #[trigger] linked(rev, Direction::Outgoing, p, i) by {
                assert(linked(edges, Direction::Incoming, p, i));
            }
        }
    }
    assert forall|a: N, b: N|
        reachable(rev, Direction::Outgoing, a, b) <==> reachable(edges, Direction::Incoming, a, b) by {
        if reachable(rev, Direction::Outgoing, a, b) {
            let p = choose|p: Seq<N>| is_walk_between(rev, Direction::Outgoing, a, b, p);
            assert(is_walk_between(edges, Direction::Incoming, a, b, p));
        }
        if reachable(edges, Direction::Incoming, a, b) {
            let p = choose|p: Seq<N>| is_walk_between(edges, Direction::Incoming, a, b, p);
            assert(is_walk_between(rev, Direction::Outgoing, a, b, p));
        }
    }
    assert forall|a: N, b: N|
        dominates(rev, Direction::Outgoing, exit, a, b) <==> dominates(edges, Direction::Incoming, exit, a, b) by {
        if dominates(rev, Direction::Outgoing, exit, a, b) {
            assert forall|p: Seq<N>| is_walk_between(edges, Direction::Incoming, exit, b, p) implies p.contains(a) by {
                assert(is_walk_between(rev, Direction::Outgoing, exit, b, p));
            }
        }
        if dominates(edges, Direction::Incoming, exit, a, b) {
            assert forall|p: Seq<N>| is_walk_between(rev, Direction::Outgoing, exit, b, p) implies p.contains(a) by {
                assert(is_walk_between(edges, Direction::Incoming, exit, b, p));
            }
        }
    }
    lemma_post_dominance_is_dominance(edges, exit, d, v);
    assert(strictly_dominates(rev, Direction::Outgoing, exit, d, v) <==> strictly_dominates(
        edges,
        Direction::Incoming,
        exit,
        d,
        v,
    ));
    assert forall|a: N, b: N| strictly_dominates(rev, Direction::Outgoing, exit, a, b) <==> strictly_dominates(
        edges,
        Direction::Incoming,
        exit,
        a,
        b,
    ) by {}
}

/// `x` is control dependent on `a`: `a` has a successor from which the exit
/// can be reached only through `x`, and `x` does not strictly post-dominate
/// `a`.  Post-dominance is stated as dominance against the edges.
pub open spec fn control_dependent<N>(edges: Set<(N, N)>, exit: N, x: N, a: N) -> bool {
    exists|b: N|
        #[trigger] edges.contains((a, b)) && reachable(edges, Direction::Incoming, exit, b) && dominates(
            edges,
            Direction::Incoming,
            exit,
            x,
            b,
        ) && !strictly_dominates(edges, Direction::Incoming, exit, x, a)
}

/// Locality of control dependence: for an edge from `u` to `v`, where the
/// exit can be reached from `v`, every node that post-dominates `v` and does
/// not strictly post-dominate `u` is control dependent on `u`.  These are `v`
/// and the nodes above it in the post-dominator tree, as far as the
/// immediate post-dominator of `u`.
pub proof fn lemma_control_dependence_is_local<N>(edges: Set<(N, N)>, exit: N, u: N, v: N, x: N)
    requires
        edges.contains((u, v)),
        reachable(edges, Direction::Outgoing, v, exit),
        post_dominates(edges, exit, x, v),
        !(post_dominates(edges, exit, x, u) && x != u),
    ensures
        control_dependent(edges, exit, x, u),
{
    lemma_post_dominance_is_dominance(edges, exit, x, v);
    lemma_post_dominance_is_dominance(edges, exit, x, u);
}

/// A node has at most one immediate dominator.
pub proof fn lemma_idom_is_unique<N>(edges: Set<(N, N)>, dir: Direction, root: N, x: N, y: N, v: N)
    requires
        is_idom(edges, dir, root, x, v),
        is_idom(edges, dir, root, y, v),
    ensures
        x == y,
{
    if x != y {
        // each of the two strictly dominates `v`, so neither strictly
        // dominates the other; but both lie on every walk to `v`, and on a
        // shortest one the first of them dominates the second
        lemma_idoms_ordered(edges, dir, root, x, y, v);
    }
}

/// Of two strict dominators of a node that can be reached, one dominates the
/// other.
pub proof fn lemma_idoms_ordered<N>(edges: Set<(N, N)>, dir: Direction, root: N, x: N, y: N, v: N)
    requires
        reachable(edges, dir, root, v),
        strictly_dominates(edges, dir, root, x, v),
        strictly_dominates(edges, dir, root, y, v),
        x != y,
    ensures
        strictly_dominates(edges, dir, root, x, y) || strictly_dominates(edges, dir, root, y, x),
{
    if !dominates(edges, dir, root, x, y) && !dominates(edges, dir, root, y, x) {
        // a walk to `y` without `x`, and a walk to `x` without `y`
        let p = choose|p: Seq<N>| is_walk_between(edges, dir, root, y, p) && !p.contains(x);
        let q = choose|q: Seq<N>| is_walk_between(edges, dir, root, x, q) && !q.contains(y);
        let w = choose|w: Seq<N>| is_walk_between(edges, dir, root, v, w);
        lemma_walks_cross(edges, dir, root, x, y, v, w, p, q);
    }
}

/// The position of the last node of `w` that is `x` or `y`.
pub open spec fn last_of_two<N>(w: Seq<N>, x: N, y: N, k: int) -> bool {
    &&& 0 <= k < w.len()
    &&& (w[k] == x || w[k] == y)
    &&& forall|j: int| k < j < w.len() ==> w[j] != x && w[j] != y
}

/// Where `x` and `y` strictly dominate `v`, which can be reached, a walk to
/// `y` passes through `x` or a walk to `x` passes through `y`: else the walk
/// to whichever comes last on a walk to `v`, followed by the rest of that
/// walk, would reach `v` without the other.
pub proof fn lemma_walks_cross<N>(
    edges: Set<(N, N)>,
    dir: Direction,
    root: N,
    x: N,
    y: N,
    v: N,
    w: Seq<N>,
    p: Seq<N>,
    q: Seq<N>,
)
    requires
        strictly_dominates(edges, dir, root, x, v),
        strictly_dominates(edges, dir, root, y, v),
        x != y,
        is_walk_between(edges, dir, root, v, w),
        is_walk_between(edges, dir, root, y, p),
        is_walk_between(edges, dir, root, x, q),
    ensures
        p.contains(x) || q.contains(y),
{
    assert(w.contains(x));
    let k = lemma_find_last(w, x, y, w.len() - 1);
    let head = if w[k] == x { q } else { p };
    let other = if w[k] == x { y } else { x };
    let tail = w.subrange(k + 1, w.len() as int);
    let joined = head + tail;
    assert(head.last() == w[k]);
    assert forall|i: int| 0 <= i < joined.len() - 1 implies #[trigger] linked(edges, dir, joined, i) by {
        if i < head.len() - 1 {
            assert(linked(edges, dir, head, i));
        } else if i == head.len() - 1 {
            assert(linked(edges, dir, w, k));
            assert(joined[i] == w[k]);
            assert(joined[i + 1] == w[k + 1]);
        } else {
            assert(linked(edges, dir, w, k + 1 + (i - head.len())));
        }
    }
    assert(w[k] != v);
    assert(joined.last() == v);
    assert(is_walk_between(edges, dir, root, v, joined));
    assert(joined.contains(other));
    let m = choose|m: int| 0 <= m < joined.len() && joined[m] == other;
    if m < head.len() {
        assert(head[m] == other);
        assert(head.contains(other));
    } else {
        assert(w[k + 1 + (m - head.len())] == other);
    }
}

/// Finds the last node of `w`, up to position `upto`, that is `x` or `y`.
pub proof fn lemma_find_last<N>(w: Seq<N>, x: N, y: N, upto: int) -> (k: int)
    requires
        0 <= upto < w.len(),
        exists|i: int| 0 <= i <= upto && (w[i] == x || w[i] == y),
        forall|j: int| upto < j < w.len() ==> w[j] != x && w[j] != y,
    ensures
        last_of_two(w, x, y, k),
    decreases upto,
{
    if w[upto] == x || w[upto] == y {
        upto
    } else {
        lemma_find_last(w, x, y, upto - 1)
    }
}

/// Asking twice gives one answer: two answers to the question for the
/// immediate dominator of `v`, each of them the one immediate dominator or
/// nothing where there is none, are equal.
pub proof fn lemma_idom_answers_agree<N>(edges: Set<(N, N)>, dir: Direction, root: N, v: N, first: Option<N>, second: Option<N>)
    requires
        forall|y: N| is_idom(edges, dir, root, y, v) <==> (first is Some && y == first.unwrap()),
        forall|y: N| is_idom(edges, dir, root, y, v) <==> (second is Some && y == second.unwrap()),
    ensures
        first == second,
{
    if first is Some {
        assert(is_idom(edges, dir, root, first.unwrap(), v));
    }
    if second is Some {
        assert(is_idom(edges, dir, root, second.unwrap(), v));
    }
}

} // verus!
