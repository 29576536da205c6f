//! The dominator tree and the post-dominator tree of one function.
//!
//! Both are the tree of immediate dominators of the control flow graph: the
//! dominator tree walks the graph along its edges from the entry block, the
//! post-dominator tree against its edges from the exit node.

use vstd::prelude::*;
use petgraph::graphmap::DiGraphMap;
use petgraph::Direction;
use crate::control_flow_graph::{CfgView, ControlFlowGraph};
use crate::dom_tree_builder::DomTreeBuilder;
use crate::dominance::{
    dominates, is_idom, is_walk_between, lemma_dominator_reachable, linked, reachable, strictly_dominates,
};
use crate::estimates::Estimates;
use crate::fixed_point::{exact, lemma_exact_idom, tree_of};
use crate::graph::graph_edges;
use crate::ir::{CFGNode, Name, NameView, NodeView};
use crate::lifting::{lemma_lift_dominates, lemma_lift_reachable, lemma_reachable_numbered};
use crate::node_table::{
    adjacent_blocks, adjacent_nodes, edges_within, lemma_lift_contains, lemma_lift_unknown, lemma_node_injective,
    lift, name_views, node_of, node_views, NodeTable,
};

verus! {

/// The immediate dominators among the nodes are the nodes of the estimates.
pub proof fn lemma_lift_idom(
    names: Seq<NameView>,
    edges: Set<(usize, usize)>,
    dir: Direction,
    est: Estimates,
    y: NodeView,
    v: usize,
)
    requires
        names.no_duplicates(),
        edges_within(names, edges),
        exact(edges, dir, est),
        est.rpo.len() == names.len() + 1,
        v <= names.len(),
    ensures
        is_idom(lift(names, edges), dir, node_of(names, est.root), y, node_of(names, v)) <==> (est.processed(v) && v
            != est.root && y == node_of(names, est.parent(v))),
{
    let root = est.root;
    let lifted = lift(names, edges);
    let big_root = node_of(names, root);
    let big_v = node_of(names, v);
    assert(est.num(root) == 1);
    assert(root <= names.len());
    if est.processed(v) && v != root && y == node_of(names, est.parent(v)) {
        let x = est.parent(v);
        assert(est.points_up(v));
        assert(x <= names.len());
        lemma_exact_idom(edges, dir, est, x, v);
        lemma_lift_reachable(names, edges, dir, root, v);
        lemma_lift_dominates(names, edges, dir, root, x, v);
        if y == big_v {
            lemma_node_injective(names, x, v);
        }
        assert forall|d: NodeView| d != y && strictly_dominates(lifted, dir, big_root, d, big_v) implies !strictly_dominates(
            lifted,
            dir,
            big_root,
            y,
            d,
        ) by {
            lemma_dominator_reachable(lifted, dir, big_root, d, big_v);
            let small = lemma_reachable_numbered(names, edges, dir, root, d);
            lemma_lift_dominates(names, edges, dir, root, small, v);
            lemma_lift_dominates(names, edges, dir, root, x, small);
            assert(strictly_dominates(edges, dir, root, small, v));
        }
    }
    if is_idom(lifted, dir, big_root, y, big_v) {
        lemma_lift_reachable(names, edges, dir, root, v);
        lemma_dominator_reachable(lifted, dir, big_root, y, big_v);
        let x = lemma_reachable_numbered(names, edges, dir, root, y);
        lemma_lift_dominates(names, edges, dir, root, x, v);
        assert forall|d: usize| d != x && strictly_dominates(edges, dir, root, d, v) implies !strictly_dominates(
            edges,
            dir,
            root,
            x,
            d,
        ) by {
            lemma_dominator_reachable(edges, dir, root, d, v);
            assert(est.processed(d));
            assert(d <= names.len());
            lemma_lift_dominates(names, edges, dir, root, d, v);
            lemma_lift_dominates(names, edges, dir, root, x, d);
            if node_of(names, d) == y {
                lemma_node_injective(names, d, x);
            }
            assert(strictly_dominates(lifted, dir, big_root, node_of(names, d), big_v));
        }
        assert(is_idom(edges, dir, root, x, v));
        lemma_exact_idom(edges, dir, est, x, v);
    }
}

/// The tree of immediate dominators of a control flow graph, in one
/// direction from one root.
pub(crate) struct Tree<'m> {
    /// An edge leads from the immediate dominator of each node to the node.
    pub(crate) graph: DiGraphMap<usize, ()>,
    /// The names of the blocks.
    pub(crate) table: NodeTable<'m>,
    /// By number, the immediate dominator of each node that has one.
    pub(crate) idoms: Vec<Option<usize>>,
    /// The estimates that the tree was made from.
    pub(crate) est: Ghost<Estimates>,
    /// The edges of the control flow graph, over numbers.
    pub(crate) source: Ghost<Set<(usize, usize)>>,
    /// The direction the control flow graph was walked in.
    pub(crate) dir: Ghost<Direction>,
}

impl<'m> Tree<'m> {
    /// The control flow graph that the tree belongs to.
    pub(crate) open spec fn cfg_edges(&self) -> Set<(NodeView, NodeView)> {
        lift(self.table.views(), self.source@)
    }

    /// The name of the entry block of the control flow graph.
    pub(crate) open spec fn cfg_entry(&self) -> NameView {
        self.table.views()[0]
    }

    /// The root of the tree.
    pub(crate) open spec fn root(&self) -> NodeView {
        node_of(self.table.views(), self.est@.root)
    }

    /// The direction the control flow graph is walked in.
    pub(crate) open spec fn direction(&self) -> Direction {
        self.dir@
    }

    /// The edges of the tree, over nodes.
    pub(crate) open spec fn edges(&self) -> Set<(NodeView, NodeView)> {
        lift(self.table.views(), graph_edges(self.graph))
    }

    /// What holds of every tree.
    pub(crate) open spec fn well_formed(&self) -> bool {
        &&& self.table.well_formed()
        &&& self.table.views().len() > 0
        &&& edges_within(self.table.views(), self.source@)
        &&& forall|a: usize, b: usize| #[trigger] self.source@.contains((a, b)) ==> a != 0
        &&& self.est@.rpo.len() == self.table.views().len() + 1
        &&& exact(self.source@, self.dir@, self.est@)
        &&& tree_of(self.est@, graph_edges(self.graph))
        &&& self.idoms@ == self.est@.idoms
        &&& forall|v: usize| v < self.idoms.len() && !self.est@.processed(v) ==> #[trigger] self.idoms@[v as int] is None
        &&& self.est@.root == match self.dir@ {
            Direction::Outgoing => 1usize,
            Direction::Incoming => 0usize,
        }
    }

    /// The edges of the tree are the pairs of a node and its immediate
    /// dominator.
    pub(crate) proof fn lemma_edges(&self)
        requires
            self.well_formed(),
        ensures
            forall|y: NodeView, n: NodeView|
                #![trigger self.edges().contains((y, n))]
                #![trigger is_idom(self.cfg_edges(), self.direction(), self.root(), y, n)]
                self.edges().contains((y, n)) <==> is_idom(self.cfg_edges(), self.direction(), self.root(), y, n),
            edges_within(self.table.views(), graph_edges(self.graph)),
    {
        let names = self.table.views();
        let est = self.est@;
        let tree = graph_edges(self.graph);
        self.table.lemma_distinct();
        assert forall|a: usize, b: usize| #[trigger] tree.contains((a, b)) implies a <= names.len() && b
            <= names.len() by {
            assert(est.points_up(b));
        }
        assert forall|y: NodeView, n: NodeView|
            #![trigger self.edges().contains((y, n))]
            #![trigger is_idom(self.cfg_edges(), self.direction(), self.root(), y, n)]
            self.edges().contains((y, n)) <==> is_idom(self.cfg_edges(), self.direction(), self.root(), y, n) by {
            if self.edges().contains((y, n)) {
                let (a, b) = choose|a: usize, b: usize|
                    #[trigger] tree.contains((a, b)) && y == node_of(names, a) && n == node_of(names, b);
                lemma_lift_idom(names, self.source@, self.dir@, est, y, b);
            }
            if is_idom(self.cfg_edges(), self.direction(), self.root(), y, n) {
                let v = lemma_reachable_numbered(names, self.source@, self.dir@, est.root, n);
                lemma_lift_idom(names, self.source@, self.dir@, est, y, v);
                assert(tree.contains((est.parent(v), v)));
                lemma_lift_contains(names, tree, est.parent(v), v);
            }
        }
    }

    /// A node has an immediate dominator exactly if it can be reached and is
    /// not the root.
    pub(crate) proof fn lemma_has_idom(&self, n: NodeView)
        requires
            self.well_formed(),
        ensures
            (exists|y: NodeView| is_idom(self.cfg_edges(), self.direction(), self.root(), y, n)) <==> (n
                != self.root() && reachable(self.cfg_edges(), self.direction(), self.root(), n)),
    {
        let names = self.table.views();
        let est = self.est@;
        self.table.lemma_distinct();
        if n != self.root() && reachable(self.cfg_edges(), self.direction(), self.root(), n) {
            let v = lemma_reachable_numbered(names, self.source@, self.dir@, est.root, n);
            assert(est.processed(v));
            lemma_lift_idom(names, self.source@, self.dir@, est, node_of(names, est.parent(v)), v);
        }
        if exists|y: NodeView| is_idom(self.cfg_edges(), self.direction(), self.root(), y, n) {
            let y = choose|y: NodeView| is_idom(self.cfg_edges(), self.direction(), self.root(), y, n);
            let v = lemma_reachable_numbered(names, self.source@, self.dir@, est.root, n);
            lemma_lift_idom(names, self.source@, self.dir@, est, y, v);
        }
    }

    /// No node has two immediate dominators.
    pub(crate) proof fn lemma_idom_unique(&self, y: NodeView, z: NodeView, n: NodeView)
        requires
            self.well_formed(),
            is_idom(self.cfg_edges(), self.direction(), self.root(), y, n),
            is_idom(self.cfg_edges(), self.direction(), self.root(), z, n),
        ensures
            y == z,
    {
        let names = self.table.views();
        let est = self.est@;
        self.table.lemma_distinct();
        let v = lemma_reachable_numbered(names, self.source@, self.dir@, est.root, n);
        lemma_lift_idom(names, self.source@, self.dir@, est, y, v);
        lemma_lift_idom(names, self.source@, self.dir@, est, z, v);
    }

    /// The tree of the control flow graph `cfg`, walked in the direction
    /// `dir` from the entry block or from the exit node.
    pub(crate) fn new(cfg: &ControlFlowGraph<'m>, dir: Direction) -> (t: Self)
        requires
            cfg.well_formed(),
        ensures
            t.well_formed(),
            t.direction() == dir,
            t.cfg_edges() == cfg@.edges,
            t.cfg_entry() == cfg@.entry,
            t.table.views() == cfg.table.views(),
    {
        proof {
            cfg.lemma_numbering();
        }
        let root: usize = match dir {
            Direction::Outgoing => 1,
            Direction::Incoming => 0,
        };
        let bound = cfg.table.bound();
        let builder = DomTreeBuilder::new(&cfg.graph, dir, root, bound);
        let (graph, idoms, est) = builder.build();
        Tree { graph, table: cfg.table.duplicate(), idoms, est, source: Ghost(graph_edges(cfg.graph)), dir: Ghost(dir) }
    }
}

/// A node that no edge leaves dominates no other node that can be reached.
pub proof fn lemma_sink_dominates_nothing<N>(edges: Set<(N, N)>, root: N, sink: N, v: N)
    requires
        forall|a: N, b: N| #[trigger] edges.contains((a, b)) ==> a != sink,
        reachable(edges, Direction::Outgoing, root, v),
        dominates(edges, Direction::Outgoing, root, sink, v),
    ensures
        v == sink,
{
    let p = choose|p: Seq<N>| is_walk_between(edges, Direction::Outgoing, root, v, p);
    assert(p.contains(sink));
    let i = choose|i: int| 0 <= i < p.len() && p[i] == sink;
    if i < p.len() - 1 {
        assert(linked(edges, Direction::Outgoing, p, i));
    }
}

/// The dominator tree of one function.
pub struct DominatorTree<'m> {
    /// The tree, walked forwards from the entry block.
    tree: Tree<'m>,
    /// The name of the entry block.
    entry_node: &'m Name,
}

impl<'m> DominatorTree<'m> {
    /// The control flow graph that the tree belongs to.
    pub closed spec fn cfg(&self) -> CfgView {
        CfgView { entry: self.tree.cfg_entry(), edges: self.tree.cfg_edges() }
    }

    /// What holds of every dominator tree.
    pub closed spec fn well_formed(&self) -> bool {
        &&& self.tree.well_formed()
        &&& self.tree.direction() == Direction::Outgoing
        &&& self.entry_node@ == self.tree.cfg_entry()
    }

    /// The entry block, from which every walk starts.
    pub open spec fn root(&self) -> NodeView {
        NodeView::Block(self.cfg().entry)
    }

    /// Whether `x` is the immediate dominator of `v`.
    pub open spec fn immediately_dominates(&self, x: NodeView, v: NodeView) -> bool {
        is_idom(self.cfg().edges, Direction::Outgoing, self.root(), x, v)
    }

    /// Whether some walk leads from the entry block to `v`.
    pub open spec fn reaches(&self, v: NodeView) -> bool {
        reachable(self.cfg().edges, Direction::Outgoing, self.root(), v)
    }

    /// The dominator tree of the function whose control flow graph is `cfg`.
    pub fn new(cfg: &ControlFlowGraph<'m>) -> (t: Self)
        requires
            cfg.well_formed(),
        ensures
            t.well_formed(),
            t.cfg() == cfg@,
    {
        proof {
            cfg.lemma_numbering();
        }
        let tree = Tree::new(cfg, Direction::Outgoing);
        DominatorTree { tree, entry_node: cfg.entry_node }
    }

    /// The exit node is the immediate dominator of nothing.
    proof fn lemma_parent_is_block(&self)
        requires
            self.well_formed(),
        ensures
            forall|a: usize, b: usize| #[trigger] graph_edges(self.tree.graph).contains((a, b)) ==> a != 0,
    {
        let est = self.tree.est@;
        assert forall|a: usize, b: usize| #[trigger] graph_edges(self.tree.graph).contains((a, b)) implies a
            != 0 by {
            if a == 0 {
                assert(est.points_up(b));
                assert(est.on_chain(a, a));
                assert(est.on_chain(b, a));
                lemma_sink_dominates_nothing(self.tree.source@, est.root, 0usize, b);
            }
        }
    }

    /// The immediate dominator of the node with the number `id`.
    fn idom_of(&self, id: usize) -> (r: Option<&'m Name>)
        requires
            self.well_formed(),
            id <= self.tree.table.views().len(),
        ensures
            forall|y: NodeView|
                self.immediately_dominates(y, node_of(self.tree.table.views(), id)) <==> (r is Some && y
                    == NodeView::Block(r.unwrap()@)),
            r is Some <==> (node_of(self.tree.table.views(), id) != self.root() && self.reaches(
                node_of(self.tree.table.views(), id),
            )),
    {
        let ghost names = self.tree.table.views();
        let ghost v = node_of(names, id);
        proof {
            self.tree.lemma_edges();
            self.lemma_parent_is_block();
            self.tree.lemma_has_idom(v);
            assert(self.root() == self.tree.root());
        }
        let parents = adjacent_blocks(&self.tree.graph, &self.tree.table, id, Direction::Incoming);
        if parents.len() == 0 {
            proof {
                assert forall|y: NodeView| !self.immediately_dominates(y, v) by {
                    if self.immediately_dominates(y, v) {
                        assert(self.tree.edges().contains((y, v)));
                        match y {
                            NodeView::Block(n) => {
                                assert(name_views(parents@).contains(n));
                            },
                            NodeView::Return => {},
                        }
                    }
                }
                if exists|y: NodeView| is_idom(self.tree.cfg_edges(), self.tree.direction(), self.tree.root(), y, v) {
                    let y = choose|y: NodeView|
                        is_idom(self.tree.cfg_edges(), self.tree.direction(), self.tree.root(), y, v);
                    assert(self.immediately_dominates(y, v));
                }
            }
            None
        } else {
            let r = parents[0];
            proof {
                assert(name_views(parents@)[0] == r@);
                assert(name_views(parents@).contains(r@));
                assert(self.immediately_dominates(NodeView::Block(r@), v));
                assert forall|y: NodeView| self.immediately_dominates(y, v) implies y == NodeView::Block(r@) by {
                    self.tree.lemma_idom_unique(y, NodeView::Block(r@), v);
                }
                assert(is_idom(
                    self.tree.cfg_edges(),
                    self.tree.direction(),
                    self.tree.root(),
                    NodeView::Block(r@),
                    v,
                ));
            }
            Some(r)
        }
    }

    /// The immediate dominator of the block called `block`: the one node
    /// that strictly dominates it and strictly dominates no other strict
    /// dominator of it.  Nothing for the entry block and for a block that
    /// cannot be reached from it.
    pub fn idom(&self, block: &Name) -> (r: Option<&'m Name>)
        requires
            self.well_formed(),
        ensures
            forall|y: NodeView|
                self.immediately_dominates(y, NodeView::Block(block@)) <==> (r is Some && y == NodeView::Block(
                    r.unwrap()@,
                )),
            r is Some <==> (block@ != self.cfg().entry && self.reaches(NodeView::Block(block@))),
    {
        match self.tree.table.find(block) {
            Some(id) => self.idom_of(id),
            None => {
                proof {
                    let v = NodeView::Block(block@);
                    self.tree.lemma_edges();
                    self.tree.lemma_has_idom(v);
                    assert(self.root() == self.tree.root());
                    assert forall|y: NodeView| !self.immediately_dominates(y, v) by {
                        lemma_lift_unknown(self.tree.table.views(), graph_edges(self.tree.graph), block@, y);
                    }
                    assert(self.tree.table.views()[0] == self.cfg().entry);
                }
                None
            },
        }
    }

    /// The immediate dominator of the exit node: the last block that every
    /// walk from the entry block out of the function passes through.
    /// Nothing if no such walk exists.
    pub fn idom_of_return(&self) -> (r: Option<&'m Name>)
        requires
            self.well_formed(),
        ensures
            forall|y: NodeView|
                self.immediately_dominates(y, NodeView::Return) <==> (r is Some && y == NodeView::Block(r.unwrap()@)),
            r is Some <==> self.reaches(NodeView::Return),
    {
        self.idom_of(0)
    }

    /// The children of the block called `block` in the tree, each of them
    /// once: the nodes whose immediate dominator it is.
    pub fn children(&self, block: &Name) -> (r: Vec<CFGNode<'m>>)
        requires
            self.well_formed(),
        ensures
            node_views(r@).no_duplicates(),
            forall|n: NodeView| node_views(r@).contains(n) <==> self.immediately_dominates(NodeView::Block(block@), n),
    {
        proof {
            self.tree.lemma_edges();
            assert(self.root() == self.tree.root());
        }
        match self.tree.table.find(block) {
            Some(id) => adjacent_nodes(&self.tree.graph, &self.tree.table, id, Direction::Outgoing),
            None => {
                proof {
                    assert forall|n: NodeView| !self.immediately_dominates(NodeView::Block(block@), n) by {
                        lemma_lift_unknown(self.tree.table.views(), graph_edges(self.tree.graph), block@, n);
                    }
                }
                Vec::new()
            },
        }
    }

    /// The name of the entry block.
    pub fn entry(&self) -> (r: &'m Name)
        requires
            self.well_formed(),
        ensures
            r@ == self.cfg().entry,
    {
        self.entry_node
    }
}

/// The post-dominator tree of one function.
pub struct PostDominatorTree<'m> {
    /// The tree, walked backwards from the exit node.
    pub(crate) tree: Tree<'m>,
}

impl<'m> PostDominatorTree<'m> {
    /// The control flow graph that the tree belongs to.
    pub closed spec fn cfg(&self) -> CfgView {
        CfgView { entry: self.tree.cfg_entry(), edges: self.tree.cfg_edges() }
    }

    /// What holds of every post-dominator tree.
    pub closed spec fn well_formed(&self) -> bool {
        &&& self.tree.well_formed()
        &&& self.tree.direction() == Direction::Incoming
    }

    /// Whether `x` is the immediate post-dominator of `v`.
    pub open spec fn immediately_post_dominates(&self, x: NodeView, v: NodeView) -> bool {
        is_idom(self.cfg().edges, Direction::Incoming, NodeView::Return, x, v)
    }

    /// Whether some walk leads from `v` to the exit node.
    pub open spec fn reaches_return(&self, v: NodeView) -> bool {
        reachable(self.cfg().edges, Direction::Incoming, NodeView::Return, v)
    }

    /// How the tree over numbers stands for the tree over nodes.
    pub(crate) proof fn lemma_structure(&self)
        requires
            self.well_formed(),
        ensures
            self.tree.well_formed(),
            self.tree.dir@ == Direction::Incoming,
            self.cfg().edges == lift(self.tree.table.views(), self.tree.source@),
            self.cfg().entry == self.tree.table.views()[0],
    {
    }

    /// The post-dominator tree of the function whose control flow graph is
    /// `cfg`.
    pub fn new(cfg: &ControlFlowGraph<'m>) -> (t: Self)
        requires
            cfg.well_formed(),
        ensures
            t.well_formed(),
            t.cfg() == cfg@,
    {
        let tree = Tree::new(cfg, Direction::Incoming);
        PostDominatorTree { tree }
    }

    /// The immediate post-dominator of the block called `block`: a block, or
    /// the exit node.  Nothing for a block from which the function cannot be
    /// left.
    pub fn ipostdom(&self, block: &Name) -> (r: Option<CFGNode<'m>>)
        requires
            self.well_formed(),
        ensures
            forall|y: NodeView|
                self.immediately_post_dominates(y, NodeView::Block(block@)) <==> (r is Some && y == r.unwrap()@),
            r is Some <==> self.reaches_return(NodeView::Block(block@)),
    {
        let ghost v = NodeView::Block(block@);
        proof {
            self.tree.lemma_edges();
            self.tree.lemma_has_idom(v);
        }
        match self.tree.table.find(block) {
            Some(id) => {
                let parents = adjacent_nodes(&self.tree.graph, &self.tree.table, id, Direction::Incoming);
                if parents.len() == 0 {
                    proof {
                        assert forall|y: NodeView| !self.immediately_post_dominates(y, v) by {
                            if self.immediately_post_dominates(y, v) {
                                assert(node_views(parents@).contains(y));
                            }
                        }
                        if exists|y: NodeView|
                            is_idom(self.tree.cfg_edges(), self.tree.direction(), self.tree.root(), y, v) {
                            let y = choose|y: NodeView|
                                is_idom(self.tree.cfg_edges(), self.tree.direction(), self.tree.root(), y, v);
                            assert(self.immediately_post_dominates(y, v));
                        }
                    }
                    None
                } else {
                    let r = parents[0];
                    proof {
                        assert(node_views(parents@)[0] == r@);
                        assert(node_views(parents@).contains(r@));
                        assert forall|y: NodeView| self.immediately_post_dominates(y, v) implies y == r@ by {
                            self.tree.lemma_idom_unique(y, r@, v);
                        }
                        assert(is_idom(self.tree.cfg_edges(), self.tree.direction(), self.tree.root(), r@, v));
                    }
                    Some(r)
                }
            },
            None => {
                proof {
                    assert forall|y: NodeView| !self.immediately_post_dominates(y, v) by {
                        lemma_lift_unknown(self.tree.table.views(), graph_edges(self.tree.graph), block@, y);
                    }
                    if exists|y: NodeView|
                        is_idom(self.tree.cfg_edges(), self.tree.direction(), self.tree.root(), y, v) {
                        let y = choose|y: NodeView|
                            is_idom(self.tree.cfg_edges(), self.tree.direction(), self.tree.root(), y, v);
                        assert(self.immediately_post_dominates(y, v));
                    }
                }
                None
            },
        }
    }

    /// The children of the block called `block` in the tree, each of them
    /// once: the blocks whose immediate post-dominator it is.
    pub fn children(&self, block: &Name) -> (r: Vec<&'m Name>)
        requires
            self.well_formed(),
        ensures
            name_views(r@).no_duplicates(),
            forall|n: NameView|
                name_views(r@).contains(n) <==> self.immediately_post_dominates(
                    NodeView::Block(block@),
                    NodeView::Block(n),
                ),
    {
        proof {
            self.tree.lemma_edges();
        }
        match self.tree.table.find(block) {
            Some(id) => adjacent_blocks(&self.tree.graph, &self.tree.table, id, Direction::Outgoing),
            None => {
                proof {
                    assert forall|n: NameView|
                        !self.immediately_post_dominates(NodeView::Block(block@), NodeView::Block(n)) by {
                        lemma_lift_unknown(
                            self.tree.table.views(),
                            graph_edges(self.tree.graph),
                            block@,
                            NodeView::Block(n),
                        );
                    }
                }
                Vec::new()
            },
        }
    }

    /// The children of the exit node in the tree, each of them once: the
    /// blocks whose immediate post-dominator it is.
    pub fn children_of_return(&self) -> (r: Vec<&'m Name>)
        requires
            self.well_formed(),
        ensures
            name_views(r@).no_duplicates(),
            forall|n: NameView|
                name_views(r@).contains(n) <==> self.immediately_post_dominates(NodeView::Return, NodeView::Block(n)),
    {
        proof {
            self.tree.lemma_edges();
        }
        adjacent_blocks(&self.tree.graph, &self.tree.table, 0, Direction::Outgoing)
    }
}

} // verus!
