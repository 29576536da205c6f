//! What the iterative computation of immediate dominators keeps true from
//! step to step, and why its fixed point is the answer.
//!
//! The computation numbers the nodes by a depth-first search and gives each
//! node an estimate: first the common dominator of those nodes one step
//! before it that have an estimate already, then, pass after pass, the common
//! dominator of all of them, until a pass changes nothing.  Three things
//! carry the proof.  The estimates are sound: every strict dominator of a
//! node dominates the node's estimate, so no estimate is ever too low.  An
//! estimate only moves up the tree of the estimates, so the passes end.  And
//! where a pass changes nothing, every node on the path from a node to the
//! root lies on every walk to that node, so no estimate is too high.

use vstd::prelude::*;
use petgraph::Direction;
use crate::dominance::{
    dominates, is_idom, is_walk, is_walk_between, lemma_dominator_of_root, lemma_dominates_predecessor,
    lemma_dominates_self, lemma_reachable_step, lemma_root_reachable, lemma_walk_drop_last, linked, reachable,
    strictly_dominates,
};
use crate::estimates::Estimates;
use crate::graph::{entered_from_earlier, is_search_order, step};

verus! {

/// Whether both ends of every edge are below `bound`.
pub open spec fn edges_below(edges: Set<(usize, usize)>, bound: int) -> bool {
    forall|a: usize, b: usize| #[trigger] edges.contains((a, b)) ==> a < bound && b < bound
}

/// The search numbers are the positions in the search order, counted from 1.
pub open spec fn numbered_by(est: Estimates, order: Seq<usize>) -> bool {
    &&& forall|i: int|
        0 <= i < order.len() ==> (#[trigger] order[i]) < est.rpo.len() && est.rpo[order[i] as int] == i + 1
    &&& forall|v: usize|
        v < est.rpo.len() && #[trigger] est.rpo[v as int] != 0 ==> est.rpo[v as int] <= order.len()
            && order[est.rpo[v as int] - 1] == v
}

/// No estimate is too low: whatever strictly dominates a processed node
/// dominates that node's estimate too.
pub open spec fn sound(edges: Set<(usize, usize)>, dir: Direction, est: Estimates) -> bool {
    forall|v: usize, d: usize|
        est.processed(v) && v != est.root && #[trigger] strictly_dominates(edges, dir, est.root, d, v)
            ==> dominates(edges, dir, est.root, d, est.parent(v))
}

/// The estimate of `v` lies on the path from every processed node one step
/// before `v`.
pub open spec fn settled(edges: Set<(usize, usize)>, dir: Direction, est: Estimates, v: usize) -> bool {
    v != est.root ==> forall|u: usize|
        est.processed(u) && #[trigger] step(edges, dir, u, v) ==> est.on_chain(u, est.parent(v))
}

/// Every node in a search order can be reached.
pub proof fn lemma_order_reachable(order: Seq<usize>, edges: Set<(usize, usize)>, dir: Direction, root: usize, i: int)
    requires
        is_search_order(order, edges, dir, root),
        0 <= i < order.len(),
    ensures
        reachable(edges, dir, root, order[i]),
    decreases i,
{
    if i == 0 {
        lemma_root_reachable(edges, dir, root);
    } else {
        assert(entered_from_earlier(order, edges, dir, i));
        let j = choose|j: int| 0 <= j < i && #[trigger] step(edges, dir, order[j], order[i]);
        lemma_order_reachable(order, edges, dir, root, j);
        lemma_reachable_step(edges, dir, root, order[j], order[i]);
    }
}

/// Every node of a walk from the root is in the search order.
pub proof fn lemma_walk_in_order(
    order: Seq<usize>,
    edges: Set<(usize, usize)>,
    dir: Direction,
    root: usize,
    p: Seq<usize>,
    k: int,
)
    requires
        is_search_order(order, edges, dir, root),
        is_walk(edges, dir, p),
        p[0] == root,
        0 <= k < p.len(),
    ensures
        order.contains(p[k]),
    decreases k,
{
    if k == 0 {
        assert(order[0] == root);
    } else {
        lemma_walk_in_order(order, edges, dir, root, p, k - 1);
        let i = choose|i: int| 0 <= i < order.len() && order[i] == p[k - 1];
        assert(linked(edges, dir, p, k - 1));
        assert(step(edges, dir, order[i], p[k]));
    }
}

/// A node has a search number exactly if it can be reached.
pub proof fn lemma_numbered_iff_reachable(
    est: Estimates,
    order: Seq<usize>,
    edges: Set<(usize, usize)>,
    dir: Direction,
    v: usize,
)
    requires
        is_search_order(order, edges, dir, est.root),
        numbered_by(est, order),
    ensures
        est.num(v) != 0 <==> reachable(edges, dir, est.root, v),
{
    if est.num(v) != 0 {
        assert(est.rpo[v as int] != 0);
        lemma_order_reachable(order, edges, dir, est.root, est.rpo[v as int] - 1);
    }
    if reachable(edges, dir, est.root, v) {
        let p = choose|p: Seq<usize>| is_walk_between(edges, dir, est.root, v, p);
        lemma_walk_in_order(order, edges, dir, est.root, p, p.len() - 1);
        let i = choose|i: int| 0 <= i < order.len() && order[i] == v;
        assert(est.rpo[order[i] as int] == i + 1);
    }
}

/// With sound estimates, every dominator of a processed node lies on the
/// path from that node to the root.
pub proof fn lemma_dominator_on_chain(edges: Set<(usize, usize)>, dir: Direction, est: Estimates, v: usize, d: usize)
    requires
        est.well_formed(),
        sound(edges, dir, est),
        est.processed(v),
        dominates(edges, dir, est.root, d, v),
    ensures
        est.on_chain(v, d),
    decreases est.num(v),
{
    if d == v {
    } else if v == est.root {
        lemma_dominator_of_root(edges, dir, est.root, d);
    } else {
        assert(strictly_dominates(edges, dir, est.root, d, v));
        assert(est.points_up(v));
        lemma_dominator_on_chain(edges, dir, est, est.parent(v), d);
    }
}

/// With sound estimates, a dominator of `u` dominates every node on the path
/// from `u` that has a larger number than it.
pub proof fn lemma_dominates_along_chain(
    edges: Set<(usize, usize)>,
    dir: Direction,
    est: Estimates,
    u: usize,
    y: usize,
    d: usize,
)
    requires
        est.well_formed(),
        sound(edges, dir, est),
        est.processed(u),
        est.on_chain(u, y),
        dominates(edges, dir, est.root, d, u),
        est.num(d) < est.num(y),
    ensures
        dominates(edges, dir, est.root, d, y),
    decreases est.num(u),
{
    if u != y {
        est.lemma_chain_num(u, y);
        assert(strictly_dominates(edges, dir, est.root, d, u));
        lemma_dominates_along_chain(edges, dir, est, est.parent(u), y, d);
    }
}

/// Where every estimate is settled, every node on the path from a node that
/// a walk from the root ends in is on that walk.
pub proof fn lemma_chain_on_walk(
    edges: Set<(usize, usize)>,
    dir: Direction,
    est: Estimates,
    order: Seq<usize>,
    p: Seq<usize>,
    x: usize,
)
    requires
        est.well_formed(),
        is_search_order(order, edges, dir, est.root),
        numbered_by(est, order),
        est.known == order.len(),
        forall|v: usize| est.processed(v) ==> #[trigger] settled(edges, dir, est, v),
        is_walk(edges, dir, p),
        p[0] == est.root,
        est.on_chain(p.last(), x),
    ensures
        p.contains(x),
    decreases p.len(),
{
    let v = p.last();
    if x == v {
        assert(p[p.len() - 1] == x);
    } else if p.len() == 1 {
        est.lemma_chain_from_root(x);
    } else {
        lemma_walk_drop_last(edges, dir, est.root, p);
        let q = p.drop_last();
        let u = q.last();
        est.lemma_chain_num(v, x);
        lemma_walk_in_order(order, edges, dir, est.root, p, p.len() - 2);
        lemma_walk_in_order(order, edges, dir, est.root, p, p.len() - 1);
        let i = choose|i: int| 0 <= i < order.len() && order[i] == u;
        assert(est.rpo[order[i] as int] == i + 1);
        assert(est.processed(u));
        let k = choose|k: int| 0 <= k < order.len() && order[k] == v;
        assert(est.rpo[order[k] as int] == k + 1);
        assert(est.processed(v));
        assert(settled(edges, dir, est, v));
        assert(step(edges, dir, u, v));
        assert(est.on_chain(u, est.parent(v)));
        est.lemma_chain_trans(u, est.parent(v), x);
        lemma_chain_on_walk(edges, dir, est, order, q, x);
        let m = choose|m: int| 0 <= m < q.len() && q[m] == x;
        assert(p[m] == x);
    }
}

/// Whether `x` lies on the path from every processed node one step before
/// `block`.
pub open spec fn common_ancestor(
    edges: Set<(usize, usize)>,
    dir: Direction,
    est: Estimates,
    block: usize,
    x: usize,
) -> bool {
    forall|u: usize| est.processed(u) && #[trigger] step(edges, dir, u, block) ==> est.on_chain(u, x)
}

/// Whether `x` lies on the path from every processed node among the first
/// `k` of `preds`.
pub open spec fn common_so_far(est: Estimates, preds: Seq<usize>, k: int, x: usize) -> bool {
    forall|j: int| 0 <= j < k && est.processed(#[trigger] preds[j]) ==> est.on_chain(preds[j], x)
}

/// The estimates are the answer: the processed nodes are the nodes that can
/// be reached, and the path from such a node to the root holds exactly its
/// dominators.
pub open spec fn exact(edges: Set<(usize, usize)>, dir: Direction, est: Estimates) -> bool {
    &&& est.well_formed()
    &&& forall|v: usize| #[trigger] est.processed(v) <==> reachable(edges, dir, est.root, v)
    &&& forall|v: usize, x: usize|
        #![trigger est.on_chain(v, x)]
        #![trigger dominates(edges, dir, est.root, x, v)]
        est.processed(v) ==> (est.on_chain(v, x) <==> dominates(edges, dir, est.root, x, v))
}

/// The edges of a tree lead from each processed node's estimate to the node.
pub open spec fn tree_of(est: Estimates, tree: Set<(usize, usize)>) -> bool {
    forall|p: usize, v: usize|
        #[trigger] tree.contains((p, v)) <==> est.processed(v) && v != est.root && est.parent(v) == p
}

/// The sum of the numbers of the estimates of the first `k` nodes of `order`.
pub open spec fn estimate_total(est: Estimates, order: Seq<usize>, k: int) -> int
    decreases k,
{
    if k <= 0 {
        0
    } else {
        estimate_total(est, order, k - 1) + match est.idoms[order[k - 1] as int] {
            Some(p) => est.num(p),
            None => 0,
        }
    }
}

/// The sum is never negative.
pub proof fn lemma_total_nonnegative(est: Estimates, order: Seq<usize>, k: int)
    ensures
        estimate_total(est, order, k) >= 0,
    decreases k,
{
    if k > 0 {
        lemma_total_nonnegative(est, order, k - 1);
    }
}

/// Replacing the estimate of the node at position `i` by one with a smaller
/// number makes the sum smaller.
pub proof fn lemma_total_update(est: Estimates, order: Seq<usize>, i: int, new: usize, k: int)
    requires
        numbered_by(est, order),
        est.rpo.len() == est.idoms.len(),
        order.no_duplicates(),
        0 <= i < order.len(),
        0 <= k <= order.len(),
        est.idoms[order[i] as int] is Some,
        est.num(new) < est.num(est.parent(order[i])),
    ensures
        k <= i ==> estimate_total(est.with_parent(order[i], Some(new)), order, k) == estimate_total(est, order, k),
        k > i ==> estimate_total(est.with_parent(order[i], Some(new)), order, k) < estimate_total(est, order, k),
    decreases k,
{
    if k > 0 {
        lemma_total_update(est, order, i, new, k - 1);
        let next = est.with_parent(order[i], Some(new));
        assert(next.num(new) == est.num(new));
        if k - 1 != i {
            assert(order[k - 1] != order[i]);
        }
    }
}

/// The node at a later position of the search order is one step after a
/// processed node, once every earlier position is processed.
pub proof fn lemma_has_processed_source(
    est: Estimates,
    order: Seq<usize>,
    edges: Set<(usize, usize)>,
    dir: Direction,
    i: int,
)
    requires
        is_search_order(order, edges, dir, est.root),
        numbered_by(est, order),
        0 < i < order.len(),
        i <= est.known,
    ensures
        exists|u: usize| est.processed(u) && #[trigger] step(edges, dir, u, order[i]),
{
    assert(entered_from_earlier(order, edges, dir, i));
    let j = choose|j: int| 0 <= j < i && #[trigger] step(edges, dir, order[j], order[i]);
    assert(est.rpo[order[j] as int] == j + 1);
    assert(est.processed(order[j]));
}

/// The first pass keeps the estimates a sound tree: giving the node at
/// position `i` the common dominator of its processed sources.
pub proof fn lemma_first_estimate(
    edges: Set<(usize, usize)>,
    dir: Direction,
    est: Estimates,
    order: Seq<usize>,
    i: int,
    idom: Option<usize>,
)
    requires
        is_search_order(order, edges, dir, est.root),
        numbered_by(est, order),
        est.well_formed(),
        sound(edges, dir, est),
        0 <= i < order.len(),
        est.known == i,
        i == 0 ==> idom is None,
        i > 0 ==> idom is Some && est.processed(idom.unwrap()) && common_ancestor(
            edges,
            dir,
            est,
            order[i],
            idom.unwrap(),
        ),
        i > 0 ==> forall|x: usize|
            #[trigger] common_ancestor(edges, dir, est, order[i], x) ==> est.on_chain(idom.unwrap(), x),
    ensures
        est.with_parent(order[i], idom).with_known(i + 1).well_formed(),
        sound(edges, dir, est.with_parent(order[i], idom).with_known(i + 1)),
        numbered_by(est.with_parent(order[i], idom).with_known(i + 1), order),
{
    let v = order[i];
    let next = est.with_parent(v, idom).with_known(i + 1);
    assert(est.rpo[order[i] as int] == i + 1);
    assert(est.rpo[order[0] as int] == 1);
    assert forall|w: usize| w != v && w < est.idoms.len() implies next.num(w) == est.num(w) && next.idoms[w as int]
        == est.idoms[w as int] by {}
    assert forall|w: usize| #[trigger] next.processed(w) && w != v implies est.processed(w) by {
        assert(next.num(w) != next.num(v));
    }
    if i == 0 {
        assert(v == est.root);
        assert(next.idoms =~= est.idoms);
        assert forall|w: usize| #[trigger] next.processed(w) implies w == next.root by {
            assert(next.num(w) == next.num(next.root));
        }
        assert(next.well_formed());
        assert(sound(edges, dir, next));
    } else {
        assert(v != est.root) by {
            assert(est.num(v) != est.num(est.root));
        }
        let r = idom.unwrap();
        assert forall|w: usize| #[trigger] next.processed(w) && w != next.root implies next.points_up(w) by {
            if w != v {
                assert(est.processed(w));
                assert(est.points_up(w));
            }
        }
        assert(next.well_formed());
        lemma_has_processed_source(est, order, edges, dir, i);
        let u0 = choose|u: usize| est.processed(u) && #[trigger] step(edges, dir, u, v);
        assert forall|w: usize, d: usize|
            next.processed(w) && w != next.root && #[trigger] strictly_dominates(
                edges,
                dir,
                next.root,
                d,
                w,
            ) implies dominates(edges, dir, next.root, d, next.parent(w)) by {
            if w != v {
                assert(est.processed(w));
            } else {
                assert forall|u: usize| est.processed(u) && #[trigger] step(edges, dir, u, v) implies est.on_chain(
                    u,
                    d,
                ) by {
                    lemma_dominates_predecessor(edges, dir, est.root, d, u, v);
                    lemma_dominator_on_chain(edges, dir, est, u, d);
                }
                assert(common_ancestor(edges, dir, est, v, d));
                assert(est.on_chain(r, d));
                if d == r {
                    lemma_dominates_self(edges, dir, est.root, r);
                } else {
                    est.lemma_chain_num(r, d);
                    lemma_dominates_predecessor(edges, dir, est.root, d, u0, v);
                    assert(est.on_chain(u0, r));
                    lemma_dominates_along_chain(edges, dir, est, u0, r, d);
                }
            }
        }
    }
}

/// No estimate is too high: whatever lies on the path from every processed
/// node one step before a processed node has a number no larger than that of
/// the node's estimate.
pub open spec fn bounded(edges: Set<(usize, usize)>, dir: Direction, est: Estimates) -> bool {
    forall|v: usize, x: usize|
        est.processed(v) && v != est.root && #[trigger] common_ancestor(edges, dir, est, v, x) ==> est.num(x)
            <= est.num(est.parent(v))
}

/// The estimate of every processed node with a number up to `upto` lies on
/// the path from every node that is one step before it and has a smaller
/// number.
pub open spec fn anchored(edges: Set<(usize, usize)>, dir: Direction, est: Estimates, upto: int) -> bool {
    forall|u: usize, v: usize|
        est.processed(v) && v != est.root && est.num(v) <= upto && 0 < est.num(u) < est.num(v) && #[trigger] step(
            edges,
            dir,
            u,
            v,
        ) ==> est.on_chain(u, est.parent(v))
}

/// How the estimates in the middle of a pass stand to the estimates `start`
/// that the pass began with: the nodes with a number from `from` on have
/// their estimates of then, no path has gained a node, and a node of a path
/// is on the path from every node that was on the path then and has no
/// smaller number.
pub open spec fn follows(start: Estimates, est: Estimates, from: int) -> bool {
    &&& est.rpo == start.rpo
    &&& est.root == start.root
    &&& est.known == start.known
    &&& est.idoms.len() == start.idoms.len()
    &&& forall|a: usize|
        a < est.idoms.len() && est.num(a) >= from ==> #[trigger] est.idoms[a as int] == start.idoms[a as int]
    &&& forall|a: usize, x: usize| #[trigger] est.on_chain(a, x) ==> start.on_chain(a, x)
    &&& forall|a: usize, b: usize, x: usize|
        #[trigger] start.on_chain(a, b) && #[trigger] est.on_chain(a, x) && est.num(x) <= est.num(b)
            ==> est.on_chain(b, x)
}

/// The first pass keeps the estimates bounded and anchored.
pub proof fn lemma_first_estimate_bounds(
    edges: Set<(usize, usize)>,
    dir: Direction,
    est: Estimates,
    order: Seq<usize>,
    i: int,
    idom: Option<usize>,
)
    requires
        is_search_order(order, edges, dir, est.root),
        numbered_by(est, order),
        est.well_formed(),
        bounded(edges, dir, est),
        anchored(edges, dir, est, i),
        0 <= i < order.len(),
        est.known == i,
        i == 0 ==> idom is None,
        i > 0 ==> idom is Some && est.processed(idom.unwrap()) && common_ancestor(
            edges,
            dir,
            est,
            order[i],
            idom.unwrap(),
        ),
        i > 0 ==> forall|x: usize|
            #[trigger] common_ancestor(edges, dir, est, order[i], x) ==> est.on_chain(idom.unwrap(), x),
    ensures
        bounded(edges, dir, est.with_parent(order[i], idom).with_known(i + 1)),
        anchored(edges, dir, est.with_parent(order[i], idom).with_known(i + 1), i + 1),
{
    let v = order[i];
    let next = est.with_parent(v, idom).with_known(i + 1);
    assert(est.rpo[order[i] as int] == i + 1);
    assert(est.rpo[order[0] as int] == 1);
    assert forall|w: usize| #[trigger] next.processed(w) && w != v implies est.processed(w) by {
        assert(next.num(w) != next.num(v));
    }
    assert forall|a: usize, x: usize| est.num(a) < est.num(v) implies next.on_chain(a, x) == est.on_chain(a, x) by {
        est.with_parent(v, idom).lemma_chain_known(i + 1, a, x);
        est.lemma_chain_frame(v, idom, a, x);
    }
    assert forall|w: usize, x: usize|
        next.processed(w) && w != next.root && #[trigger] common_ancestor(edges, dir, next, w, x) implies next.num(x)
            <= next.num(next.parent(w)) by {
        assert forall|u: usize| est.processed(u) && #[trigger] step(edges, dir, u, w) implies est.on_chain(u, x) by {
            assert(next.processed(u));
            assert(next.on_chain(u, x));
        }
        assert(common_ancestor(edges, dir, est, w, x));
        if w == v {
            assert(i > 0) by {
                if i == 0 {
                    assert(est.num(v) == est.num(est.root));
                }
            }
            est.lemma_chain_num(idom.unwrap(), x);
        } else {
            assert(est.processed(w));
        }
    }
    assert forall|u: usize, w: usize|
        next.processed(w) && w != next.root && next.num(w) <= i + 1 && 0 < next.num(u) < next.num(w) && #[trigger] step(
            edges,
            dir,
            u,
            w,
        ) implies next.on_chain(u, next.parent(w)) by {
        assert(est.processed(u));
        if w == v {
            assert(i > 0) by {
                if i == 0 {
                    assert(est.num(v) == est.num(est.root));
                }
            }
            assert(est.on_chain(u, idom.unwrap()));
        } else {
            assert(est.processed(w));
            assert(est.on_chain(u, est.parent(w)));
        }
    }
}

/// In a later pass the common dominator of the nodes one step before a node
/// lies on the path from the node's estimate: an estimate only moves up.
pub proof fn lemma_estimate_moves_up(
    edges: Set<(usize, usize)>,
    dir: Direction,
    start: Estimates,
    est: Estimates,
    order: Seq<usize>,
    i: int,
    new: usize,
)
    requires
        is_search_order(order, edges, dir, est.root),
        numbered_by(est, order),
        est.well_formed(),
        bounded(edges, dir, est),
        est.known == order.len(),
        0 < i < order.len(),
        anchored(edges, dir, start, order.len() as int),
        follows(start, est, i + 1),
        est.processed(new),
        common_ancestor(edges, dir, est, order[i], new),
    ensures
        order[i] != est.root,
        est.points_up(order[i]),
        est.on_chain(est.parent(order[i]), new),
        est.num(new) < est.num(order[i]),
        new != est.parent(order[i]) ==> est.num(new) < est.num(est.parent(order[i])),
{
    let v = order[i];
    assert(est.rpo[order[i] as int] == i + 1);
    assert(est.rpo[order[0] as int] == 1);
    assert(est.processed(v));
    assert(v != est.root) by {
        assert(est.num(v) != est.num(est.root));
    }
    assert(est.points_up(v));
    let prev = est.parent(v);
    assert(entered_from_earlier(order, edges, dir, i));
    let j = choose|j: int| 0 <= j < i && #[trigger] step(edges, dir, order[j], order[i]);
    let u = order[j];
    assert(est.rpo[order[j] as int] == j + 1);
    assert(est.processed(u));
    assert(est.idoms[v as int] == start.idoms[v as int]);
    assert(start.num(v) == est.num(v) && start.num(u) == est.num(u));
    assert(start.processed(v));
    assert(start.on_chain(u, start.parent(v)));
    assert(est.on_chain(u, new));
    assert(est.num(new) <= est.num(prev));
    assert(est.on_chain(prev, new));
    est.lemma_chain_num(prev, new);
    est.lemma_chain_num(u, new);
}

/// A later pass keeps the estimates a sound tree: giving the node at
/// position `i` the common dominator of the nodes one step before it.
pub proof fn lemma_next_estimate(
    edges: Set<(usize, usize)>,
    dir: Direction,
    est: Estimates,
    order: Seq<usize>,
    i: int,
    new: usize,
)
    requires
        is_search_order(order, edges, dir, est.root),
        numbered_by(est, order),
        est.well_formed(),
        sound(edges, dir, est),
        0 < i < order.len(),
        est.known == order.len(),
        order[i] != est.root,
        est.processed(new),
        est.num(new) < est.num(order[i]),
        common_ancestor(edges, dir, est, order[i], new),
        forall|x: usize| #[trigger] common_ancestor(edges, dir, est, order[i], x) ==> est.on_chain(new, x),
    ensures
        est.with_parent(order[i], Some(new)).well_formed(),
        sound(edges, dir, est.with_parent(order[i], Some(new))),
        numbered_by(est.with_parent(order[i], Some(new)), order),
{
    let v = order[i];
    let next = est.with_parent(v, Some(new));
    assert(est.rpo[order[i] as int] == i + 1);
    assert(est.processed(v));
    assert(est.points_up(v));
    assert forall|w: usize| w != v && w < est.idoms.len() implies next.num(w) == est.num(w) && next.idoms[w as int]
        == est.idoms[w as int] by {}
    assert forall|w: usize| #[trigger] next.processed(w) && w != next.root implies next.points_up(w) by {
        assert(est.processed(w));
        assert(est.points_up(w));
    }
    assert(next.well_formed());
    lemma_has_processed_source(est, order, edges, dir, i);
    let u0 = choose|u: usize| est.processed(u) && #[trigger] step(edges, dir, u, v);
    assert forall|w: usize, d: usize|
        next.processed(w) && w != next.root && #[trigger] strictly_dominates(edges, dir, next.root, d, w) implies dominates(
        edges,
        dir,
        next.root,
        d,
        next.parent(w),
    ) by {
        assert(est.processed(w));
        if w == v {
            assert forall|u: usize| est.processed(u) && #[trigger] step(edges, dir, u, v) implies est.on_chain(u, d) by {
                lemma_dominates_predecessor(edges, dir, est.root, d, u, v);
                lemma_dominator_on_chain(edges, dir, est, u, d);
            }
            assert(common_ancestor(edges, dir, est, v, d));
            assert(est.on_chain(new, d));
            if d == new {
                lemma_dominates_self(edges, dir, est.root, new);
            } else {
                est.lemma_chain_num(new, d);
                lemma_dominates_predecessor(edges, dir, est.root, d, u0, v);
                assert(est.on_chain(u0, new));
                lemma_dominates_along_chain(edges, dir, est, u0, new, d);
            }
        }
    }
}

/// A later pass keeps the estimates bounded and anchored.
pub proof fn lemma_next_estimate_bounds(
    edges: Set<(usize, usize)>,
    dir: Direction,
    est: Estimates,
    order: Seq<usize>,
    i: int,
    new: usize,
)
    requires
        numbered_by(est, order),
        est.well_formed(),
        bounded(edges, dir, est),
        anchored(edges, dir, est, i),
        0 < i < order.len(),
        est.known == order.len(),
        order[i] != est.root,
        est.points_up(order[i]),
        est.processed(new),
        est.on_chain(est.parent(order[i]), new),
        common_ancestor(edges, dir, est, order[i], new),
        forall|x: usize| #[trigger] common_ancestor(edges, dir, est, order[i], x) ==> est.on_chain(new, x),
    ensures
        bounded(edges, dir, est.with_parent(order[i], Some(new))),
        anchored(edges, dir, est.with_parent(order[i], Some(new)), i + 1),
{
    let v = order[i];
    let next = est.with_parent(v, Some(new));
    assert(est.rpo[order[i] as int] == i + 1);
    assert forall|w: usize, x: usize|
        next.processed(w) && w != next.root && #[trigger] common_ancestor(edges, dir, next, w, x) implies next.num(x)
            <= next.num(next.parent(w)) by {
        assert forall|u: usize| est.processed(u) && #[trigger] step(edges, dir, u, w) implies est.on_chain(u, x) by {
            assert(next.processed(u));
            assert(next.on_chain(u, x));
            est.lemma_chain_shrinks(v, new, u, x);
        }
        assert(common_ancestor(edges, dir, est, w, x));
        assert(est.processed(w));
        if w == v {
            est.lemma_chain_num(new, x);
        }
    }
    assert forall|u: usize, w: usize|
        next.processed(w) && w != next.root && next.num(w) <= i + 1 && 0 < next.num(u) < next.num(w) && #[trigger] step(
            edges,
            dir,
            u,
            w,
        ) implies next.on_chain(u, next.parent(w)) by {
        assert(est.processed(u));
        assert(est.processed(w));
        if w == v {
            assert(est.on_chain(u, new));
            est.lemma_chain_frame(v, Some(new), u, new);
        } else {
            assert(est.num(w) != est.num(v));
            assert(est.on_chain(u, est.parent(w)));
            est.lemma_chain_frame(v, Some(new), u, est.parent(w));
        }
    }
}

/// A pass begins with estimates that follow themselves.
pub proof fn lemma_follows_itself(start: Estimates)
    ensures
        follows(start, start, 1),
{
    assert forall|a: usize, b: usize, x: usize|
        #[trigger] start.on_chain(a, b) && #[trigger] start.on_chain(a, x) && start.num(x) <= start.num(b) implies start.on_chain(
        b,
        x,
    ) by {
        start.lemma_chain_linear(a, x, b);
    }
}

/// Moving the estimate of the node at position `i` up its path keeps the
/// estimates following those that the pass began with.
pub proof fn lemma_next_estimate_follows(start: Estimates, est: Estimates, v: usize, new: usize, i: int)
    requires
        follows(start, est, i + 1),
        est.num(v) == i + 1,
        v != est.root,
        est.points_up(v),
        est.on_chain(est.parent(v), new),
        0 < est.num(new) < est.num(v),
    ensures
        follows(start, est.with_parent(v, Some(new)), i + 2),
{
    let next = est.with_parent(v, Some(new));
    assert forall|a: usize| a < next.idoms.len() && next.num(a) >= i + 2 implies #[trigger] next.idoms[a as int]
        == start.idoms[a as int] by {
        assert(est.idoms[a as int] == start.idoms[a as int]);
    }
    assert forall|a: usize, x: usize| #[trigger] next.on_chain(a, x) implies start.on_chain(a, x) by {
        est.lemma_chain_shrinks(v, new, a, x);
    }
    assert forall|a: usize, b: usize, x: usize|
        #[trigger] start.on_chain(a, b) && #[trigger] next.on_chain(a, x) && next.num(x) <= next.num(b) implies next.on_chain(
        b,
        x,
    ) by {
        est.lemma_chain_shrinks(v, new, a, x);
        assert(est.on_chain(b, x));
        if est.on_chain(b, v) && est.num(x) < est.num(v) && !est.on_chain(new, x) {
            assert(start.on_chain(b, v));
            start.lemma_chain_trans(a, b, v);
            start.lemma_chain_stale(est, a, v);
            est.lemma_chain_through(v, new, a, v);
            next.lemma_chain_linear(a, x, v);
            assert(next.on_chain(v, x));
            assert(next.on_chain(new, x));
            est.lemma_chain_frame(v, Some(new), new, x);
        }
        est.lemma_chain_through(v, new, b, x);
    }
}

/// At the fixed point the estimates are exact.
pub proof fn lemma_fixed_point_exact(edges: Set<(usize, usize)>, dir: Direction, est: Estimates, order: Seq<usize>)
    requires
        is_search_order(order, edges, dir, est.root),
        numbered_by(est, order),
        est.well_formed(),
        sound(edges, dir, est),
        est.known == order.len(),
        forall|j: int| 0 <= j < order.len() ==> settled(edges, dir, est, #[trigger] order[j]),
    ensures
        exact(edges, dir, est),
{
    assert forall|v: usize| est.processed(v) implies #[trigger] settled(edges, dir, est, v) by {
        assert(est.rpo[v as int] != 0);
        assert(order[est.rpo[v as int] - 1] == v);
    }
    assert forall|v: usize| #[trigger] est.processed(v) <==> reachable(edges, dir, est.root, v) by {
        lemma_numbered_iff_reachable(est, order, edges, dir, v);
        if est.num(v) != 0 {
            assert(est.rpo[v as int] != 0);
        }
    }
    assert forall|v: usize, x: usize| est.processed(v) implies (est.on_chain(v, x) <==> dominates(
        edges,
        dir,
        est.root,
        x,
        v,
    )) by {
        if dominates(edges, dir, est.root, x, v) {
            lemma_dominator_on_chain(edges, dir, est, v, x);
        }
        if est.on_chain(v, x) {
            assert forall|p: Seq<usize>| is_walk_between(edges, dir, est.root, v, p) implies p.contains(x) by {
                lemma_chain_on_walk(edges, dir, est, order, p, x);
            }
        }
    }
}

/// With exact estimates, the immediate dominator of a node is its estimate,
/// and only a processed node other than the root has one.
pub proof fn lemma_exact_idom(edges: Set<(usize, usize)>, dir: Direction, est: Estimates, x: usize, v: usize)
    requires
        exact(edges, dir, est),
    ensures
        is_idom(edges, dir, est.root, x, v) <==> (est.processed(v) && v != est.root && est.parent(v) == x),
{
    let root = est.root;
    if est.processed(v) && v != root && est.parent(v) == x {
        assert(est.points_up(v));
        assert(est.on_chain(x, x));
        assert(est.on_chain(v, x));
        assert forall|d: usize| d != x && strictly_dominates(edges, dir, root, d, v) implies !strictly_dominates(
            edges,
            dir,
            root,
            x,
            d,
        ) by {
            assert(est.on_chain(v, d));
            est.lemma_chain_num(v, d);
            est.lemma_chain_num(x, d);
            est.lemma_chain_processed(v, d);
            if dominates(edges, dir, root, x, d) {
                assert(est.on_chain(d, x));
                est.lemma_chain_num(d, x);
            }
        }
    }
    if is_idom(edges, dir, root, x, v) {
        assert(est.processed(v));
        if v == root {
            lemma_dominator_of_root(edges, dir, root, x);
        }
        assert(est.points_up(v));
        let p = est.parent(v);
        assert(est.on_chain(v, x));
        est.lemma_chain_num(v, x);
        assert(est.on_chain(p, p));
        assert(est.on_chain(v, p));
        if x != p {
            assert(strictly_dominates(edges, dir, root, p, v));
            assert(est.processed(p));
            assert(dominates(edges, dir, root, x, p));
        }
    }
}

} // verus!
