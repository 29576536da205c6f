//! The control dependence graph of one function, after Ferrante, Ottenstein
//! and Warren: for each edge of the control flow graph, the blocks on the way
//! up the post-dominator tree from its target, as far as the immediate
//! post-dominator of its source, depend on its source.

use vstd::prelude::*;
use petgraph::graphmap::DiGraphMap;
use petgraph::Direction;
use crate::control_flow_graph::{CfgView, ControlFlowGraph};
use crate::dominance::{
    control_dependent, dominates, lemma_dominates_predecessor, lemma_dominator_reachable, lemma_reachable_step,
    lemma_root_reachable, reachable, strictly_dominates,
};
use crate::dominator_tree::{PostDominatorTree, Tree};
use crate::fixed_point::exact;
use crate::estimates::Estimates;
use crate::graph::{add_edge, graph_edges, new_graph, step};
use crate::ir::{CFGNode, Name, NameView, NodeView};
use crate::lifting::{lemma_lift_dominates, lemma_lift_reachable, lemma_reachable_numbered};
use crate::node_table::{
    adjacent_blocks, edges_within, lemma_lift_contains, lemma_lift_reflects, lemma_lift_unknown, lemma_node_injective,
    lift, name_views, node_of, node_views, NodeTable,
};

verus! {

/// By the tree: `x` depends on `a` by way of the edge from `a` to `b`.  It
/// lies on the path from `b` to the root, and not on the path from the
/// immediate post-dominator of `a`.
pub open spec fn dep_via(source: Set<(usize, usize)>, est: Estimates, a: usize, b: usize, x: usize) -> bool {
    &&& source.contains((a, b))
    &&& est.processed(a)
    &&& est.processed(b)
    &&& a != est.root
    &&& est.on_chain(b, x)
    &&& !est.on_chain(est.parent(a), x)
}

/// By the tree: `x` depends on `a`.
pub open spec fn dep(source: Set<(usize, usize)>, est: Estimates, a: usize, x: usize) -> bool {
    exists|b: usize| dep_via(source, est, a, b, x)
}

/// Whether `name` stands among the first `i` of `names`.
pub open spec fn listed(names: Seq<NameView>, i: int, name: NameView) -> bool {
    exists|j: int| 0 <= j < i && j < names.len() && names[j] == name
}

/// Whether `node` stands among the first `k` of `nodes`.
pub open spec fn seen(nodes: Seq<NodeView>, k: int, node: NodeView) -> bool {
    exists|j: int| 0 <= j < k && j < nodes.len() && nodes[j] == node
}

/// Dependence by the tree is control dependence.
pub proof fn lemma_dep_is_control_dependence(
    names: Seq<NameView>,
    source: Set<(usize, usize)>,
    est: Estimates,
    big_a: NodeView,
    big_x: NodeView,
)
    requires
        names.no_duplicates(),
        edges_within(names, source),
        forall|a: usize, b: usize| #[trigger] source.contains((a, b)) ==> a != 0,
        exact(source, Direction::Incoming, est),
        est.root == 0,
        est.rpo.len() == names.len() + 1,
    ensures
        control_dependent(lift(names, source), NodeView::Return, big_x, big_a) <==> exists|a: usize, x: usize|
            a <= names.len() && x <= names.len() && node_of(names, a) == big_a && node_of(names, x) == big_x
                && #[trigger] dep(source, est, a, x),
{
    let lifted = lift(names, source);
    let dir = Direction::Incoming;
    let exit = NodeView::Return;
    assert(node_of(names, 0) == exit);
    if control_dependent(lifted, exit, big_x, big_a) {
        let big_b = choose|big_b: NodeView|
            #[trigger] lifted.contains((big_a, big_b)) && reachable(lifted, dir, exit, big_b) && dominates(
                lifted,
                dir,
                exit,
                big_x,
                big_b,
            ) && !strictly_dominates(lifted, dir, exit, big_x, big_a);
        let (a, b) = choose|a: usize, b: usize|
            #[trigger] source.contains((a, b)) && big_a == node_of(names, a) && big_b == node_of(names, b);
        lemma_lift_reachable(names, source, dir, 0, b);
        assert(est.processed(b));
        assert(step(source, dir, b, a));
        lemma_reachable_step(source, dir, 0usize, b, a);
        assert(est.processed(a));
        lemma_dominator_reachable(lifted, dir, exit, big_x, big_b);
        let x = lemma_reachable_numbered(names, source, dir, 0, big_x);
        lemma_lift_dominates(names, source, dir, 0, x, b);
        assert(est.on_chain(b, x));
        assert(est.points_up(a));
        if est.on_chain(est.parent(a), x) {
            est.lemma_chain_num(est.parent(a), x);
            assert(est.on_chain(a, x));
            lemma_lift_dominates(names, source, dir, 0, x, a);
            assert(big_x != big_a) by {
                if big_x == big_a {
                    lemma_node_injective(names, x, a);
                }
            }
        }
        assert(dep_via(source, est, a, b, x));
        assert(dep(source, est, a, x));
    }
    if exists|a: usize, x: usize|
        a <= names.len() && x <= names.len() && node_of(names, a) == big_a && node_of(names, x) == big_x
            && #[trigger] dep(source, est, a, x) {
        let (a, x) = choose|a: usize, x: usize|
            a <= names.len() && x <= names.len() && node_of(names, a) == big_a && node_of(names, x) == big_x
                && #[trigger] dep(source, est, a, x);
        let b = choose|b: usize| dep_via(source, est, a, b, x);
        let big_b = node_of(names, b);
        lemma_lift_contains(names, source, a, b);
        lemma_lift_reachable(names, source, dir, 0, b);
        lemma_lift_dominates(names, source, dir, 0, x, b);
        assert(est.points_up(a));
        if strictly_dominates(lifted, dir, exit, big_x, big_a) {
            lemma_lift_dominates(names, source, dir, 0, x, a);
            assert(est.on_chain(a, x));
            est.lemma_chain_num(a, x);
        }
        assert(lifted.contains((big_a, big_b)));
    }
}

/// The control dependence graph of one function.
pub struct ControlDependenceGraph<'m> {
    /// An edge leads from a block to each block that depends on it.
    graph: DiGraphMap<usize, ()>,
    /// The names of the blocks.
    table: NodeTable<'m>,
    /// The control flow graph that the dependences are those of.
    source: Ghost<CfgView>,
}

impl<'m> ControlDependenceGraph<'m> {
    /// The control flow graph that the graph belongs to.
    pub closed spec fn cfg(&self) -> CfgView {
        self.source@
    }

    /// Whether the block `x` is control dependent on the block `a`: `a` has
    /// a successor that `x` post-dominates, and `x` does not strictly
    /// post-dominate `a`.
    pub open spec fn depends_on(&self, x: NodeView, a: NodeView) -> bool {
        control_dependent(self.cfg().edges, NodeView::Return, x, a)
    }

    /// What holds of every control dependence graph: its edges are the
    /// control dependences of the control flow graph.
    pub closed spec fn well_formed(&self) -> bool {
        &&& self.table.well_formed()
        &&& edges_within(self.table.views(), graph_edges(self.graph))
        &&& forall|a: usize, x: usize| #[trigger] graph_edges(self.graph).contains((a, x)) ==> a != 0 && x != 0
        &&& forall|a: NodeView, x: NodeView|
            #![trigger lift(self.table.views(), graph_edges(self.graph)).contains((a, x))]
            #![trigger control_dependent(self.source@.edges, NodeView::Return, x, a)]
            lift(self.table.views(), graph_edges(self.graph)).contains((a, x)) <==> control_dependent(
                self.source@.edges,
                NodeView::Return,
                x,
                a,
            )
    }

    /// For the edge from `a` to `b`: every node on the path from `b` up the
    /// tree, as far as the immediate post-dominator of `a`, depends on `a`.
    fn mark_dependents(graph: &mut DiGraphMap<usize, ()>, tree: &Tree<'m>, a: usize, b: usize)
        requires
            tree.well_formed(),
            tree.dir@ == Direction::Incoming,
            tree.source@.contains((a, b)),
            tree.est@.processed(b),
        ensures
            tree.est@.processed(a),
            a != 0,
            forall|p: usize, x: usize|
                #[trigger] graph_edges(*final(graph)).contains((p, x)) <==> graph_edges(*old(graph)).contains((p, x))
                    || (p == a && tree.est@.on_chain(b, x) && !tree.est@.on_chain(tree.est@.parent(a), x)),
    {
        let ghost est = tree.est@;
        let ghost source = tree.source@;
        let ghost before = graph_edges(*graph);
        proof {
            assert(step(source, Direction::Incoming, b, a));
            lemma_reachable_step(source, Direction::Incoming, 0usize, b, a);
            assert(est.processed(a));
            assert(est.points_up(a));
            let s = est.parent(a);
            assert(est.on_chain(s, s));
            assert(est.on_chain(a, s));
            lemma_dominates_predecessor(source, Direction::Incoming, 0usize, s, b, a);
            assert(est.on_chain(b, s));
        }
        let stop = match tree.idoms[a] {
            Some(s) => s,
            None => 0,
        };
        let mut x = b;
        while x != stop
            invariant
                tree.well_formed(),
                tree.dir@ == Direction::Incoming,
                est == tree.est@,
                stop == est.parent(a),
                est.processed(a),
                a != 0,
                est.processed(x),
                est.on_chain(b, x),
                est.on_chain(x, stop),
                forall|p: usize, y: usize|
                    #[trigger] graph_edges(*graph).contains((p, y)) <==> before.contains((p, y)) || (p == a
                        && est.on_chain(b, y) && !est.on_chain(x, y)),
            decreases est.num(x),
        {
            proof {
                est.lemma_chain_num(x, stop);
            }
            add_edge(graph, a, x);
            let next = match tree.idoms[x] {
                Some(n) => n,
                None => 0,
            };
            proof {
                assert(next == est.parent(x));
                assert(est.on_chain(next, next));
                assert(est.on_chain(x, next));
                est.lemma_chain_trans(b, x, next);
                assert forall|p: usize, y: usize| #[trigger]
                    graph_edges(*graph).contains((p, y)) <==> before.contains((p, y)) || (p == a && est.on_chain(b, y)
                        && !est.on_chain(next, y)) by {
                    if y == x {
                        if est.on_chain(next, x) {
                            est.lemma_chain_num(next, x);
                        }
                    } else {
                        assert(est.on_chain(x, y) == est.on_chain(next, y));
                    }
                }
            }
            x = next;
        }
    }

    /// The control dependence graph of the function whose control flow
    /// graph is `cfg` and whose post-dominator tree is `postdomtree`.
    pub fn new(cfg: &ControlFlowGraph<'m>, postdomtree: &PostDominatorTree<'m>) -> (r: Self)
        requires
            cfg.well_formed(),
            postdomtree.well_formed(),
            postdomtree.cfg() == cfg@,
        ensures
            r.well_formed(),
            r.cfg() == cfg@,
    {
        let tree = &postdomtree.tree;
        let ghost est = tree.est@;
        let ghost source = tree.source@;
        let ghost names = tree.table.views();
        proof {
            postdomtree.lemma_structure();
            tree.table.lemma_distinct();
        }
        let blocks = cfg.blocks();
        let ghost listing = name_views(blocks@);
        let mut graph = new_graph();
        let mut i: usize = 0;
        while i < blocks.len()
            invariant
                i <= blocks.len(),
                cfg.well_formed(),
                tree.well_formed(),
                tree.dir@ == Direction::Incoming,
                est == tree.est@,
                source == tree.source@,
                names == tree.table.views(),
                names.no_duplicates(),
                cfg@.edges == lift(names, source),
                listing == name_views(blocks@),
                forall|p: usize, x: usize| #[trigger] graph_edges(graph).contains((p, x)) ==> dep(source, est, p, x),
                forall|a: usize, b: usize, x: usize|
                    #[trigger] dep_via(source, est, a, b, x) && listed(listing, i as int, names[a - 1])
                        ==> graph_edges(graph).contains((a, x)),
            decreases blocks.len() - i,
        {
            let name = blocks[i];
            assert(listing[i as int] == name@);
            match tree.table.find(name) {
                Some(a) => {
                    let succs = cfg.succs(name);
                    let ghost targets = node_views(succs@);
                    let mut k: usize = 0;
                    while k < succs.len()
                        invariant
                            k <= succs.len(),
                            i < blocks.len(),
                            cfg.well_formed(),
                            tree.well_formed(),
                            tree.dir@ == Direction::Incoming,
                            est == tree.est@,
                            source == tree.source@,
                            names == tree.table.views(),
                            names.no_duplicates(),
                            cfg@.edges == lift(names, source),
                            listing == name_views(blocks@),
                            targets == node_views(succs@),
                            1 <= a <= names.len(),
                            names[a - 1] == name@,
                            forall|n: NodeView| targets.contains(n) <==> cfg@.edges.contains((NodeView::Block(name@), n)),
                            forall|p: usize, x: usize|
                                #[trigger] graph_edges(graph).contains((p, x)) ==> dep(source, est, p, x),
                            forall|a: usize, b: usize, x: usize|
                                #[trigger] dep_via(source, est, a, b, x) && listed(listing, i as int, names[a - 1])
                                    ==> graph_edges(graph).contains((a, x)),
                            forall|b: usize, x: usize|
                                #[trigger] dep_via(source, est, a, b, x) && seen(targets, k as int, node_of(names, b))
                                    ==> graph_edges(graph).contains((a, x)),
                        decreases succs.len() - k,
                    {
                        let target = succs[k];
                        assert(targets[k as int] == target@);
                        assert(targets.contains(target@));
                        let found = match target {
                            CFGNode::Return => Some(0usize),
                            CFGNode::Block(n) => tree.table.find(n),
                        };
                        let ghost earlier = graph_edges(graph);
                        match found {
                            Some(b) => {
                                assert(node_of(names, b) == target@);
                                let reaches = b == 0 || tree.idoms[b].is_some();
                                if reaches {
                                    proof {
                                        lemma_lift_reflects(names, source, a, b);
                                        if b == 0 {
                                            lemma_root_reachable(source, Direction::Incoming, 0usize);
                                        } else {
                                            assert(tree.idoms@[b as int] is Some);
                                        }
                                        assert(est.processed(b));
                                    }
                                    Self::mark_dependents(&mut graph, tree, a, b);
                                    proof {
                                        assert forall|p: usize, x: usize| #[trigger]
                                            graph_edges(graph).contains((p, x)) implies dep(source, est, p, x) by {
                                            if !earlier.contains((p, x)) {
                                                assert(dep_via(source, est, a, b, x));
                                            }
                                        }
                                    }
                                }
                            },
                            None => {},
                        }
                        proof {
                            assert forall|b: usize, x: usize| #[trigger]
                                dep_via(source, est, a, b, x) && seen(targets, k + 1, node_of(names, b)) implies graph_edges(
                                graph,
                            ).contains((a, x)) by {
                                let j = choose|j: int| 0 <= j < k + 1 && j < targets.len() && targets[j] == node_of(names, b);
                                if j < k {
                                    assert(seen(targets, k as int, node_of(names, b)));
                                    assert(earlier.contains((a, x)));
                                } else {
                                    assert(node_of(names, b) == target@);
                                    assert(b <= names.len());
                                    match found {
                                        Some(c) => {
                                            lemma_node_injective(names, b, c);
                                        },
                                        None => {},
                                    }
                                }
                            }
                        }
                        k += 1;
                    }
                    proof {
                        assert forall|p: usize, b: usize, x: usize| #[trigger]
                            dep_via(source, est, p, b, x) && listed(listing, i + 1, names[p - 1]) implies graph_edges(
                            graph,
                        ).contains((p, x)) by {
                            let j = choose|j: int| 0 <= j < i + 1 && j < listing.len() && listing[j] == names[p - 1];
                            if j < i {
                                assert(listed(listing, i as int, names[p - 1]));
                            } else {
                                assert(p == a);
                                lemma_lift_contains(names, source, a, b);
                                assert(targets.contains(node_of(names, b)));
                                let m = choose|m: int| 0 <= m < targets.len() && targets[m] == node_of(names, b);
                                assert(seen(targets, succs.len() as int, node_of(names, b)));
                            }
                        }
                    }
                },
                None => {
                    proof {
                        assert forall|p: usize, b: usize, x: usize| #[trigger]
                            dep_via(source, est, p, b, x) && listed(listing, i + 1, names[p - 1]) implies graph_edges(
                            graph,
                        ).contains((p, x)) by {
                            let j = choose|j: int| 0 <= j < i + 1 && j < listing.len() && listing[j] == names[p - 1];
                            if j < i {
                                assert(listed(listing, i as int, names[p - 1]));
                            } else {
                                assert(names.contains(names[p - 1]));
                            }
                        }
                    }
                },
            }
            i += 1;
        }
        let r = ControlDependenceGraph { graph, table: tree.table.duplicate(), source: Ghost(cfg@) };
        proof {
            let marks = graph_edges(r.graph);
            assert forall|a: usize, x: usize| #[trigger] marks.contains((a, x)) implies a <= names.len() && x
                <= names.len() && a != 0 && x != 0 by {
                let b = choose|b: usize| dep_via(source, est, a, b, x);
                est.lemma_chain_processed(b, x);
                assert(est.points_up(a));
                if x == 0 {
                    est.lemma_chain_root(est.parent(a));
                }
            }
            assert forall|big_a: NodeView, big_x: NodeView|
                #![trigger lift(names, marks).contains((big_a, big_x))]
                #![trigger control_dependent(cfg@.edges, NodeView::Return, big_x, big_a)]
                lift(names, marks).contains((big_a, big_x)) <==> control_dependent(
                    cfg@.edges,
                    NodeView::Return,
                    big_x,
                    big_a,
                ) by {
                lemma_dep_is_control_dependence(names, source, est, big_a, big_x);
                if lift(names, marks).contains((big_a, big_x)) {
                    let (a, x) = choose|a: usize, x: usize|
                        #[trigger] marks.contains((a, x)) && big_a == node_of(names, a) && big_x == node_of(names, x);
                    assert(dep(source, est, a, x));
                }
                if control_dependent(cfg@.edges, NodeView::Return, big_x, big_a) {
                    let (a, x) = choose|a: usize, x: usize|
                        a <= names.len() && x <= names.len() && node_of(names, a) == big_a && node_of(names, x)
                            == big_x && #[trigger] dep(source, est, a, x);
                    let b = choose|b: usize| dep_via(source, est, a, b, x);
                    lemma_lift_contains(names, source, a, b);
                    assert(cfg@.edges.contains((NodeView::Block(names[a - 1]), node_of(names, b))));
                    assert(listing.contains(names[a - 1]));
                    let j = choose|j: int| 0 <= j < listing.len() && listing[j] == names[a - 1];
                    assert(listed(listing, blocks.len() as int, names[a - 1]));
                    assert(marks.contains((a, x)));
                    lemma_lift_contains(names, marks, a, x);
                }
            }
        }
        r
    }

    /// The blocks that the block called `block` is control dependent on, each
    /// of them once.
    pub fn get_imm_control_dependencies(&self, block: &Name) -> (r: Vec<&'m Name>)
        requires
            self.well_formed(),
        ensures
            name_views(r@).no_duplicates(),
            forall|n: NameView|
                name_views(r@).contains(n) <==> self.depends_on(NodeView::Block(block@), NodeView::Block(n)),
    {
        match self.table.find(block) {
            Some(id) => adjacent_blocks(&self.graph, &self.table, id, Direction::Incoming),
            None => {
                proof {
                    assert forall|n: NameView| !self.depends_on(NodeView::Block(block@), NodeView::Block(n)) by {
                        lemma_lift_unknown(self.table.views(), graph_edges(self.graph), block@, NodeView::Block(n));
                    }
                }
                Vec::new()
            },
        }
    }

    /// The blocks that are control dependent on the block called `block`,
    /// each of them once.
    pub fn get_imm_control_dependents(&self, block: &Name) -> (r: Vec<&'m Name>)
        requires
            self.well_formed(),
        ensures
            name_views(r@).no_duplicates(),
            forall|n: NameView|
                name_views(r@).contains(n) <==> self.depends_on(NodeView::Block(n), NodeView::Block(block@)),
    {
        match self.table.find(block) {
            Some(id) => adjacent_blocks(&self.graph, &self.table, id, Direction::Outgoing),
            None => {
                proof {
                    assert forall|n: NameView| !self.depends_on(NodeView::Block(n), NodeView::Block(block@)) by {
                        lemma_lift_unknown(self.table.views(), graph_edges(self.graph), block@, NodeView::Block(n));
                    }
                }
                Vec::new()
            },
        }
    }
}

} // verus!
