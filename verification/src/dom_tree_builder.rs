//! The iterative computation of immediate dominators, after Cooper, Harvey
//! and Kennedy.

use vstd::prelude::*;
use petgraph::graphmap::DiGraphMap;
use petgraph::Direction;
use crate::estimates::Estimates;
use crate::fixed_point::{
    anchored, bounded, common_ancestor, common_so_far, edges_below, estimate_total, exact, follows,
    lemma_estimate_moves_up, lemma_first_estimate, lemma_first_estimate_bounds, lemma_fixed_point_exact,
    lemma_follows_itself, lemma_has_processed_source, lemma_next_estimate, lemma_next_estimate_bounds,
    lemma_next_estimate_follows, lemma_total_nonnegative, lemma_total_update, numbered_by, settled, sound, tree_of,
};
use crate::graph::{
    add_edge, dfs_order, dfs_order_reversed, entered_from_earlier, graph_edges, is_search_order, neighbors_directed,
    new_graph, step,
};

verus! {

/// The direction against `dir`.
fn against(dir: Direction) -> (r: Direction)
    ensures
        forall|edges: Set<(usize, usize)>, a: usize, b: usize|
            #[trigger] step(edges, r, a, b) == step(edges, dir, b, a),
{
    match dir {
        Direction::Outgoing => Direction::Incoming,
        Direction::Incoming => Direction::Outgoing,
    }
}

/// The state of the iterative computation over one graph, in one direction,
/// from one root.
pub(crate) struct DomTreeBuilder<'a> {
    /// The graph that is analysed.
    pub(crate) graph: &'a DiGraphMap<usize, ()>,
    /// `Outgoing` for dominators, `Incoming` for post-dominators.
    pub(crate) dir: Direction,
    /// The node that the search starts from.
    pub(crate) root: usize,
    /// The nodes in the order of the depth-first search.
    pub(crate) order: Vec<usize>,
    /// By node id, the position in `order` counted from 1; 0 for a node that
    /// the search did not reach.
    pub(crate) rpo_numbers: Vec<usize>,
    /// By node id, the current estimate of the immediate dominator.
    pub(crate) idoms: Vec<Option<usize>>,
    /// How many nodes of `order` have an estimate.
    pub(crate) known: usize,
}

impl<'a> DomTreeBuilder<'a> {
    /// The numbers and estimates as a mathematical value.
    pub(crate) open spec fn est(&self) -> Estimates {
        Estimates { rpo: self.rpo_numbers@, idoms: self.idoms@, root: self.root, known: self.known as int }
    }

    /// The edges of the graph that is analysed.
    pub(crate) open spec fn edges(&self) -> Set<(usize, usize)> {
        graph_edges(*self.graph)
    }

    /// What holds between any two steps of the computation.
    pub(crate) open spec fn inv(&self) -> bool {
        &&& is_search_order(self.order@, self.edges(), self.dir, self.root)
        &&& numbered_by(self.est(), self.order@)
        &&& edges_below(self.edges(), self.rpo_numbers.len() as int)
        &&& self.root < self.rpo_numbers.len()
        &&& self.known <= self.order.len()
        &&& self.est().well_formed()
        &&& sound(self.edges(), self.dir, self.est())
        &&& forall|v: usize| v < self.idoms.len() && !self.est().processed(v) ==> #[trigger] self.idoms@[v as int] is None
    }

    /// Numbers the nodes that can be reached from `root`; no node has an
    /// estimate yet.
    pub(crate) fn new(graph: &'a DiGraphMap<usize, ()>, dir: Direction, root: usize, bound: usize) -> (b: Self)
        requires
            root < bound,
            edges_below(graph_edges(*graph), bound as int),
        ensures
            b.inv(),
            b.graph == graph,
            b.dir == dir,
            b.root == root,
            b.rpo_numbers.len() == bound,
            b.known == 0,
    {
        let order = match dir {
            Direction::Outgoing => dfs_order(graph, root),
            Direction::Incoming => dfs_order_reversed(graph, root),
        };
        let ghost edges = graph_edges(*graph);
        proof {
            assert forall|i: int| 0 <= i < order.len() implies (#[trigger] order@[i]) < bound by {
                if i > 0 {
                    assert(entered_from_earlier(order@, edges, dir, i));
                }
            }
        }
        let mut rpo_numbers: Vec<usize> = Vec::new();
        let mut idoms: Vec<Option<usize>> = Vec::new();
        let mut k: usize = 0;
        while k < bound
            invariant
                k <= bound,
                rpo_numbers.len() == k,
                idoms.len() == k,
                forall|v: int| 0 <= v < k ==> rpo_numbers@[v] == 0,
                forall|v: int| 0 <= v < k ==> idoms@[v] is None,
            decreases bound - k,
        {
            rpo_numbers.push(0);
            idoms.push(None);
            k += 1;
        }
        let mut i: usize = 0;
        while i < order.len()
            invariant
                i <= order.len(),
                rpo_numbers.len() == bound,
                order@.no_duplicates(),
                forall|j: int| 0 <= j < order.len() ==> (#[trigger] order@[j]) < bound,
                forall|j: int| 0 <= j < i ==> rpo_numbers@[(#[trigger] order@[j]) as int] == j + 1,
                forall|v: usize|
                    v < bound && #[trigger] rpo_numbers@[v as int] != 0 ==> rpo_numbers@[v as int] <= i
                        && order@[rpo_numbers@[v as int] - 1] == v,
            decreases order.len() - i,
        {
            let v = order[i];
            rpo_numbers.set(v, i + 1);
            i += 1;
        }
        let b = DomTreeBuilder { graph, dir, root, order, rpo_numbers, idoms, known: 0 };
        proof {
            let est = b.est();
            assert(numbered_by(est, b.order@));
            assert(est.num(root) == 1) by {
                assert(b.order@[0] == root);
            }
            assert forall|x: usize, y: usize| est.num(x) == est.num(y) && est.num(x) != 0 implies x == y by {
                assert(est.rpo[x as int] != 0);
                assert(est.rpo[y as int] != 0);
            }
            assert(est.well_formed());
            assert(sound(b.edges(), b.dir, est));
        }
        b
    }

    /// The common dominator of two processed nodes under the current
    /// estimates: the node with the largest number that lies on the paths
    /// from both.
    fn common_dominator(&self, block_a: usize, block_b: usize) -> (r: usize)
        requires
            self.inv(),
            self.est().processed(block_a),
            self.est().processed(block_b),
        ensures
            self.est().processed(r),
            self.est().on_chain(block_a, r),
            self.est().on_chain(block_b, r),
            forall|x: usize|
                self.est().on_chain(block_a, x) && #[trigger] self.est().on_chain(block_b, x)
                    ==> self.est().on_chain(r, x),
    {
        let mut a = block_a;
        let mut b = block_b;
        let ghost est = self.est();
        while self.rpo_numbers[a] != self.rpo_numbers[b]
            invariant
                self.inv(),
                est == self.est(),
                est.processed(a),
                est.processed(b),
                est.on_chain(block_a, a),
                est.on_chain(block_b, b),
                forall|x: usize|
                    est.on_chain(block_a, x) && #[trigger] est.on_chain(block_b, x) ==> est.on_chain(a, x)
                        && est.on_chain(b, x),
            decreases est.num(a) + est.num(b),
        {
            if self.rpo_numbers[a] < self.rpo_numbers[b] {
                assert(est.points_up(b));
                let next = match self.idoms[b] {
                    Some(p) => p,
                    None => self.root,
                };
                proof {
                    assert(b != est.root);
                    assert(next == est.parent(b));
                    assert(est.on_chain(next, next));
                    assert(est.on_chain(b, next));
                    est.lemma_chain_trans(block_b, b, next);
                    assert forall|x: usize|
                        est.on_chain(block_a, x) && #[trigger] est.on_chain(block_b, x) implies est.on_chain(
                        next,
                        x,
                    ) by {
                        est.lemma_chain_num(a, x);
                    }
                }
                b = next;
            } else {
                assert(est.points_up(a));
                let next = match self.idoms[a] {
                    Some(p) => p,
                    None => self.root,
                };
                proof {
                    assert(a != est.root);
                    assert(next == est.parent(a));
                    assert(est.on_chain(next, next));
                    assert(est.on_chain(a, next));
                    est.lemma_chain_trans(block_a, a, next);
                    assert forall|x: usize|
                        est.on_chain(block_a, x) && #[trigger] est.on_chain(block_b, x) implies est.on_chain(
                        next,
                        x,
                    ) by {
                        est.lemma_chain_num(b, x);
                    }
                }
                a = next;
            }
        }
        a
    }

    /// The estimate for `block` from the current estimates of the processed
    /// nodes one step before it: their common dominator.  `None` for the root.
    fn compute_idom(&self, block: usize) -> (r: Option<usize>)
        requires
            self.inv(),
            block < self.rpo_numbers.len(),
            block != self.root ==> exists|u: usize|
                self.est().processed(u) && #[trigger] step(self.edges(), self.dir, u, block),
        ensures
            block == self.root ==> r is None,
            block != self.root ==> r is Some && self.est().processed(r.unwrap()) && common_ancestor(
                self.edges(),
                self.dir,
                self.est(),
                block,
                r.unwrap(),
            ),
            block != self.root ==> forall|x: usize|
                #[trigger] common_ancestor(self.edges(), self.dir, self.est(), block, x)
                    ==> self.est().on_chain(r.unwrap(), x),
    {
        if block == self.root {
            return None;
        }
        let ghost est = self.est();
        let ghost edges = self.edges();
        let back = against(self.dir);
        let preds = neighbors_directed(self.graph, block, back);
        proof {
            assert forall|u: usize| preds@.contains(u) <==> step(edges, self.dir, u, block) by {
                assert(step(edges, back, block, u) == step(edges, self.dir, u, block));
            }
            assert forall|j: int| 0 <= j < preds.len() implies (#[trigger] preds@[j]) < self.rpo_numbers.len() by {
                assert(preds@.contains(preds@[j]));
                assert(step(edges, self.dir, preds@[j], block));
                assert(edges.contains((preds@[j], block)) || edges.contains((block, preds@[j])));
            }
        }
        let mut idom: Option<usize> = None;
        let mut k: usize = 0;
        while k < preds.len()
            invariant
                self.inv(),
                est == self.est(),
                k <= preds.len(),
                forall|j: int| 0 <= j < preds.len() ==> (#[trigger] preds@[j]) < self.rpo_numbers.len(),
                idom is None ==> forall|j: int| 0 <= j < k ==> !est.processed(#[trigger] preds@[j]),
                idom is Some ==> est.processed(idom.unwrap()) && common_so_far(est, preds@, k as int, idom.unwrap()),
                idom is Some ==> forall|x: usize|
                    #[trigger] common_so_far(est, preds@, k as int, x) ==> est.on_chain(idom.unwrap(), x),
            decreases preds.len() - k,
        {
            let pred = preds[k];
            let number = self.rpo_numbers[pred];
            if number != 0 && number <= self.known {
                let next = match idom {
                    None => pred,
                    Some(current) => self.common_dominator(current, pred),
                };
                proof {
                    assert(est.on_chain(pred, next));
                    assert forall|j: int| 0 <= j < k + 1 && est.processed(#[trigger] preds@[j]) implies est.on_chain(
                        preds@[j],
                        next,
                    ) by {
                        if j < k {
                            assert(idom is Some);
                            est.lemma_chain_trans(preds@[j], idom.unwrap(), next);
                        }
                    }
                    assert forall|x: usize| #[trigger] common_so_far(est, preds@, k + 1, x) implies est.on_chain(
                        next,
                        x,
                    ) by {
                        assert(est.on_chain(preds@[k as int], x));
                        if idom is Some {
                            assert(common_so_far(est, preds@, k as int, x));
                        }
                    }
                }
                idom = Some(next);
            } else {
                proof {
                    assert forall|x: usize| #[trigger] common_so_far(est, preds@, k + 1, x) implies common_so_far(
                        est,
                        preds@,
                        k as int,
                        x,
                    ) by {}
                }
            }
            k += 1;
        }
        proof {
            let u = choose|u: usize| est.processed(u) && #[trigger] step(edges, self.dir, u, block);
            assert(preds@.contains(u));
            assert(idom is Some);
            let r = idom.unwrap();
            assert forall|w: usize| est.processed(w) && #[trigger] step(edges, self.dir, w, block) implies est.on_chain(
                w,
                r,
            ) by {
                assert(preds@.contains(w));
            }
            assert forall|x: usize| #[trigger] common_ancestor(edges, self.dir, est, block, x) implies est.on_chain(
                r,
                x,
            ) by {
                assert forall|j: int| 0 <= j < preds.len() && est.processed(#[trigger] preds@[j]) implies est.on_chain(
                    preds@[j],
                    x,
                ) by {
                    assert(preds@.contains(preds@[j]));
                    assert(step(edges, self.dir, preds@[j], block));
                }
                assert(common_so_far(est, preds@, preds.len() as int, x));
            }
        }
        idom
    }

    /// Runs the computation to its fixed point and returns the tree: an edge
    /// leads from the immediate dominator of each node to that node.
    pub(crate) fn build(self) -> (r: (DiGraphMap<usize, ()>, Vec<Option<usize>>, Ghost<Estimates>))
        requires
            self.inv(),
            self.known == 0,
        ensures
            r.2@.root == self.root,
            r.2@.rpo.len() == self.rpo_numbers.len(),
            r.2@.idoms == r.1@,
            exact(self.edges(), self.dir, r.2@),
            tree_of(r.2@, graph_edges(r.0)),
            forall|v: usize| v < r.1.len() && !r.2@.processed(v) ==> #[trigger] r.1@[v as int] is None,
    {
        let mut this = self;
        let n = this.order.len();
        let ghost edges = this.edges();
        let ghost dir = this.dir;
        let ghost root = this.root;
        let ghost order = this.order@;
        let ghost rpo = this.rpo_numbers@;
        let ghost graph = this.graph;

        let mut i: usize = 0;
        while i < n
            invariant
                this.inv(),
                this.known == i,
                i <= n,
                this.graph == graph,
                this.dir == dir,
                this.root == root,
                this.order@ == order,
                this.rpo_numbers@ == rpo,
                edges == graph_edges(*graph),
                n == order.len(),
                bounded(edges, dir, this.est()),
                anchored(edges, dir, this.est(), i as int),
            decreases n - i,
        {
            let block = this.order[i];
            let ghost est = this.est();
            proof {
                if i > 0 {
                    lemma_has_processed_source(est, order, edges, dir, i as int);
                }
            }
            let idom = this.compute_idom(block);
            this.idoms.set(block, idom);
            this.known = i + 1;
            proof {
                let next = this.est();
                assert(next == est.with_parent(block, idom).with_known(i + 1));
                lemma_first_estimate(edges, dir, est, order, i as int, idom);
                lemma_first_estimate_bounds(edges, dir, est, order, i as int, idom);
            }
            i += 1;
        }

        let mut changed = true;
        while changed
            invariant
                this.inv(),
                this.known == n,
                this.graph == graph,
                this.dir == dir,
                this.root == root,
                this.order@ == order,
                this.rpo_numbers@ == rpo,
                edges == graph_edges(*graph),
                n == order.len(),
                bounded(edges, dir, this.est()),
                anchored(edges, dir, this.est(), n as int),
                !changed ==> forall|j: int| 0 <= j < n ==> settled(edges, dir, this.est(), #[trigger] order[j]),
            decreases estimate_total(this.est(), order, n as int) + (if changed { 1int } else { 0int }),
        {
            changed = false;
            let ghost total = estimate_total(this.est(), order, n as int);
            let ghost start = this.est();
            proof {
                lemma_follows_itself(start);
            }
            let mut i: usize = 0;
            while i < n
                invariant
                    this.inv(),
                    this.known == n,
                    i <= n,
                    this.graph == graph,
                    this.dir == dir,
                    this.root == root,
                    this.order@ == order,
                    this.rpo_numbers@ == rpo,
                    edges == graph_edges(*graph),
                    n == order.len(),
                    bounded(edges, dir, this.est()),
                    anchored(edges, dir, this.est(), i as int),
                    anchored(edges, dir, start, n as int),
                    follows(start, this.est(), i + 1),
                    estimate_total(this.est(), order, n as int) <= total,
                    changed ==> estimate_total(this.est(), order, n as int) < total,
                    !changed ==> this.est() == start,
                    !changed ==> forall|j: int| 0 <= j < i ==> settled(edges, dir, start, #[trigger] order[j]),
                decreases n - i,
            {
                let block = this.order[i];
                let ghost est = this.est();
                proof {
                    if i > 0 {
                        lemma_has_processed_source(est, order, edges, dir, i as int);
                    }
                }
                let idom = this.compute_idom(block);
                let previous = this.idoms[block];
                proof {
                    assert(est.rpo[order[i as int] as int] == i + 1);
                    assert(est.rpo[order[0] as int] == 1);
                    assert(est.processed(block));
                    if block != root {
                        assert(est.points_up(block));
                        assert(i > 0);
                    }
                }
                match (previous, idom) {
                    (Some(prev), Some(new)) => {
                        proof {
                            lemma_estimate_moves_up(edges, dir, start, est, order, i as int, new);
                        }
                        if new != prev {
                            this.idoms.set(block, Some(new));
                            changed = true;
                            proof {
                                assert(this.est() == est.with_parent(block, Some(new)));
                                lemma_next_estimate(edges, dir, est, order, i as int, new);
                                lemma_next_estimate_bounds(edges, dir, est, order, i as int, new);
                                lemma_next_estimate_follows(start, est, block, new, i as int);
                                lemma_total_update(est, order, i as int, new, n as int);
                            }
                        } else {
                            proof {
                                assert(settled(edges, dir, est, block));
                                assert(anchored(edges, dir, est, i + 1));
                            }
                        }
                    },
                    _ => {
                        proof {
                            assert(block == root);
                            assert(anchored(edges, dir, est, i + 1)) by {
                                assert forall|u: usize, v: usize|
                                    est.processed(v) && v != est.root && est.num(v) <= i + 1 && 0 < est.num(u)
                                        < est.num(v) && #[trigger] step(edges, dir, u, v) implies est.on_chain(
                                    u,
                                    est.parent(v),
                                ) by {
                                    assert(est.num(v) != est.num(block));
                                }
                            }
                        }
                    },
                }
                i += 1;
            }
            proof {
                lemma_total_nonnegative(this.est(), order, n as int);
            }
        }

        let ghost est = this.est();
        proof {
            lemma_fixed_point_exact(edges, dir, est, order);
        }
        let mut tree = new_graph();
        let mut i: usize = 0;
        while i < n
            invariant
                this.inv(),
                this.est() == est,
                this.order@ == order,
                est.known == n,
                i <= n,
                n == order.len(),
                forall|p: usize, v: usize|
                    #[trigger] graph_edges(tree).contains((p, v)) <==> 0 < est.num(v) <= i && v != est.root
                        && est.parent(v) == p,
            decreases n - i,
        {
            let block = this.order[i];
            proof {
                assert(est.rpo[order[i as int] as int] == i + 1);
                assert(est.processed(block));
            }
            match this.idoms[block] {
                Some(idom) => {
                    assert(block != est.root);
                    add_edge(&mut tree, idom, block);
                },
                None => {
                    assert(block == est.root) by {
                        if block != est.root {
                            assert(est.processed(block));
                            assert(est.points_up(block));
                        }
                    }
                },
            }
            proof {
                assert(est.num(block) == i + 1);
            }
            i += 1;
        }
        (tree, this.idoms, Ghost(est))
    }
}

} // verus!
