//! The control flow graph of one function: which block may pass control to
//! which, and which blocks leave the function.

use vstd::prelude::*;
use petgraph::graphmap::DiGraphMap;
use petgraph::Direction;
use crate::graph::{add_edge, graph_edges, new_graph};
use crate::ir::{AnalysisError, CFGNode, Function, Name, NameView, NodeView, Terminator};
use crate::node_table::{
    adjacent_blocks, adjacent_nodes, edges_within, lemma_lift_unknown, lift, name_views, node_of, node_views,
    NodeTable,
};

verus! {

/// The blocks of these names, as nodes.
pub open spec fn blocks(names: Seq<Name>) -> Seq<NodeView> {
    Seq::new(names.len(), |i: int| NodeView::Block(names[i]@))
}

/// The block of this name, if there is one.
pub open spec fn optional_block(name: Option<Name>) -> Seq<NodeView> {
    match name {
        Some(n) => seq![NodeView::Block(n@)],
        None => Seq::empty(),
    }
}

/// The nodes that a terminator may pass control to.  A terminator that leaves
/// the function, or ends its normal flow, passes control to the exit node.
pub open spec fn successors(term: Terminator) -> Seq<NodeView> {
    match term {
        Terminator::Ret => seq![NodeView::Return],
        Terminator::Resume => seq![NodeView::Return],
        Terminator::Unreachable => seq![NodeView::Return],
        Terminator::Br { dest } => seq![NodeView::Block(dest@)],
        Terminator::CondBr { true_dest, false_dest } => seq![
            NodeView::Block(true_dest@),
            NodeView::Block(false_dest@),
        ],
        Terminator::Switch { default_dest, dests } => seq![NodeView::Block(default_dest@)] + blocks(dests@),
        Terminator::IndirectBr { possible_dests } => blocks(possible_dests@),
        Terminator::Invoke { function, return_label, exception_label } => seq![
            NodeView::Block(return_label@),
            NodeView::Block(exception_label@),
        ],
        Terminator::CleanupRet { unwind_dest } => optional_block(unwind_dest),
        Terminator::CatchRet { successor } => seq![NodeView::Block(successor@)],
        Terminator::CatchSwitch { default_unwind_dest, catch_handlers } => optional_block(default_unwind_dest)
            + blocks(catch_handlers@),
        Terminator::CallBr => Seq::empty(),
    }
}

/// The edge from block `bi` of the function to successor `ti` of its
/// terminator.
pub open spec fn edge_at(f: Function, bi: int, ti: int) -> (NodeView, NodeView) {
    (NodeView::Block(f.basic_blocks[bi].name@), successors(f.basic_blocks[bi].term)[ti])
}

/// Whether successor `ti` of block `bi` comes before successor `k` of block
/// `i`.
pub open spec fn counted(f: Function, i: int, k: int, bi: int, ti: int) -> bool {
    &&& 0 <= bi < f.basic_blocks.len()
    &&& 0 <= ti < successors(f.basic_blocks[bi].term).len()
    &&& (bi < i || (bi == i && ti < k))
}

/// The edges of the blocks before block `i`, and of the first `k` successors
/// of block `i`.
pub open spec fn edges_upto(f: Function, i: int, k: int) -> Set<(NodeView, NodeView)> {
    Set::new(
        |e: (NodeView, NodeView)| exists|bi: int, ti: int| #[trigger] counted(f, i, k, bi, ti) && e == edge_at(f, bi, ti),
    )
}

/// The edges of the control flow graph of a function: from each block to
/// each successor of its terminator.
pub open spec fn function_edges(f: Function) -> Set<(NodeView, NodeView)> {
    edges_upto(f, f.basic_blocks.len() as int, 0)
}

/// Whether the control flow graph of a function can be built: the function
/// has a block, and no block ends in `callbr`.
pub open spec fn supported(f: Function) -> bool {
    &&& f.basic_blocks.len() > 0
    &&& forall|i: int| 0 <= i < f.basic_blocks.len() ==> !(#[trigger] f.basic_blocks[i].term is CallBr)
}

/// One more successor of block `i` adds its edge.
pub proof fn lemma_upto_insert(f: Function, i: int, k: int)
    requires
        0 <= i < f.basic_blocks.len(),
        0 <= k < successors(f.basic_blocks[i].term).len(),
    ensures
        edges_upto(f, i, k).insert(edge_at(f, i, k)) == edges_upto(f, i, k + 1),
{
    let a = edges_upto(f, i, k).insert(edge_at(f, i, k));
    let b = edges_upto(f, i, k + 1);
    assert forall|e: (NodeView, NodeView)| a.contains(e) <==> b.contains(e) by {
        if a.contains(e) {
            if e == edge_at(f, i, k) {
                assert(counted(f, i, k + 1, i, k));
            } else {
                let (bi, ti) = choose|bi: int, ti: int| #[trigger] counted(f, i, k, bi, ti) && e == edge_at(f, bi, ti);
                assert(counted(f, i, k + 1, bi, ti));
            }
        }
        if b.contains(e) {
            let (bi, ti) = choose|bi: int, ti: int| #[trigger] counted(f, i, k + 1, bi, ti) && e == edge_at(f, bi, ti);
            if bi == i && ti == k {
            } else {
                assert(counted(f, i, k, bi, ti));
            }
        }
    }
    assert(a =~= b);
}

/// All successors of block `i` counted is no successor of block `i + 1`
/// counted.
pub proof fn lemma_upto_next(f: Function, i: int)
    requires
        0 <= i < f.basic_blocks.len(),
    ensures
        edges_upto(f, i, successors(f.basic_blocks[i].term).len() as int) == edges_upto(f, i + 1, 0),
{
    let n = successors(f.basic_blocks[i].term).len() as int;
    let a = edges_upto(f, i, n);
    let b = edges_upto(f, i + 1, 0);
    assert forall|e: (NodeView, NodeView)| a.contains(e) <==> b.contains(e) by {
        if a.contains(e) {
            let (bi, ti) = choose|bi: int, ti: int| #[trigger] counted(f, i, n, bi, ti) && e == edge_at(f, bi, ti);
            assert(counted(f, i + 1, 0, bi, ti));
        }
        if b.contains(e) {
            let (bi, ti) = choose|bi: int, ti: int| #[trigger] counted(f, i + 1, 0, bi, ti) && e == edge_at(f, bi, ti);
            assert(counted(f, i, n, bi, ti));
        }
    }
    assert(a =~= b);
}

/// Whether `old` is the beginning of `new`.
pub open spec fn extends(new: Seq<NameView>, old: Seq<NameView>) -> bool {
    &&& old.len() <= new.len()
    &&& forall|i: int| 0 <= i < old.len() ==> new[i] == old[i]
}

/// A longer table and one more edge between numbers stand for one more edge
/// between nodes.
pub proof fn lemma_lift_insert(
    names: Seq<NameView>,
    longer: Seq<NameView>,
    edges: Set<(usize, usize)>,
    a: usize,
    b: usize,
)
    requires
        extends(longer, names),
        edges_within(names, edges),
    ensures
        lift(longer, edges.insert((a, b))) == lift(names, edges).insert((node_of(longer, a), node_of(longer, b))),
{
    let x = lift(longer, edges.insert((a, b)));
    let y = lift(names, edges).insert((node_of(longer, a), node_of(longer, b)));
    assert forall|e: (NodeView, NodeView)| x.contains(e) <==> y.contains(e) by {
        if x.contains(e) {
            let (c, d) = choose|c: usize, d: usize|
                #[trigger] edges.insert((a, b)).contains((c, d)) && e.0 == node_of(longer, c) && e.1 == node_of(
                    longer,
                    d,
                );
            if (c, d) != (a, b) {
                assert(edges.contains((c, d)));
                assert(node_of(longer, c) == node_of(names, c));
                assert(node_of(longer, d) == node_of(names, d));
            }
        }
        if y.contains(e) {
            if e == (node_of(longer, a), node_of(longer, b)) {
                assert(edges.insert((a, b)).contains((a, b)));
            } else {
                let (c, d) = choose|c: usize, d: usize|
                    #[trigger] edges.contains((c, d)) && e.0 == node_of(names, c) && e.1 == node_of(names, d);
                assert(edges.insert((a, b)).contains((c, d)));
                assert(node_of(longer, c) == node_of(names, c));
                assert(node_of(longer, d) == node_of(names, d));
            }
        }
    }
    assert(x =~= y);
}

/// A longer table stands for the same edges between nodes.
pub proof fn lemma_lift_extend(names: Seq<NameView>, longer: Seq<NameView>, edges: Set<(usize, usize)>)
    requires
        extends(longer, names),
        edges_within(names, edges),
    ensures
        lift(longer, edges) == lift(names, edges),
        edges_within(longer, edges),
{
    let x = lift(longer, edges);
    let y = lift(names, edges);
    assert forall|e: (NodeView, NodeView)| x.contains(e) <==> y.contains(e) by {
        if x.contains(e) {
            let (c, d) = choose|c: usize, d: usize|
                #[trigger] edges.contains((c, d)) && e.0 == node_of(longer, c) && e.1 == node_of(longer, d);
            assert(node_of(longer, c) == node_of(names, c));
            assert(node_of(longer, d) == node_of(names, d));
        }
        if y.contains(e) {
            let (c, d) = choose|c: usize, d: usize|
                #[trigger] edges.contains((c, d)) && e.0 == node_of(names, c) && e.1 == node_of(names, d);
            assert(node_of(longer, c) == node_of(names, c));
            assert(node_of(longer, d) == node_of(names, d));
        }
    }
    assert(x =~= y);
}

/// A control flow graph as a mathematical value.
pub struct CfgView {
    /// The name of the entry block.
    pub entry: NameView,
    /// The edges, between blocks and to the exit node.
    pub edges: Set<(NodeView, NodeView)>,
}

/// The control flow graph of one function.
pub struct ControlFlowGraph<'m> {
    /// The graph over the numbers of the nodes.
    pub(crate) graph: DiGraphMap<usize, ()>,
    /// The names of the blocks; the entry block has number 1.
    pub(crate) table: NodeTable<'m>,
    /// The name of the entry block.
    pub(crate) entry_node: &'m Name,
}

impl<'m> View for ControlFlowGraph<'m> {
    type V = CfgView;

    closed spec fn view(&self) -> CfgView {
        CfgView { entry: self.table.views()[0], edges: lift(self.table.views(), graph_edges(self.graph)) }
    }
}

impl<'m> ControlFlowGraph<'m> {
    /// What holds while the graph is built.
    pub closed spec fn partly_formed(&self) -> bool {
        &&& self.table.well_formed()
        &&& edges_within(self.table.views(), graph_edges(self.graph))
        &&& forall|a: usize, b: usize| #[trigger] graph_edges(self.graph).contains((a, b)) ==> a != 0
    }

    /// What holds of every control flow graph: it has an entry block, and
    /// no edge leaves the exit node.
    pub closed spec fn well_formed(&self) -> bool {
        &&& self.partly_formed()
        &&& self.table.views().len() > 0
        &&& self.table.views()[0] == self.entry_node@
    }

    /// How the graph over numbers stands for the graph over nodes.
    pub(crate) proof fn lemma_numbering(&self)
        requires
            self.well_formed(),
        ensures
            self.table.well_formed(),
            self.table.views().len() > 0,
            self.table.views()[0] == self.entry_node@,
            self@.entry == self.entry_node@,
            self@.edges == lift(self.table.views(), graph_edges(self.graph)),
            edges_within(self.table.views(), graph_edges(self.graph)),
            forall|a: usize, b: usize| #[trigger] graph_edges(self.graph).contains((a, b)) ==> a != 0,
    {
    }

    /// No edge leaves the exit node.
    pub proof fn lemma_return_is_sink(&self, n: NodeView)
        requires
            self.well_formed(),
        ensures
            !self@.edges.contains((NodeView::Return, n)),
    {
        let names = self.table.views();
        let edges = graph_edges(self.graph);
        if lift(names, edges).contains((NodeView::Return, n)) {
            let (a, b) = choose|a: usize, b: usize|
                #[trigger] edges.contains((a, b)) && NodeView::Return == node_of(names, a) && n == node_of(names, b);
            assert(a != 0);
        }
    }

    /// Adds the edge from the block with the number `src` to `target`.
    fn link(&mut self, src: usize, target: CFGNode<'m>)
        requires
            old(self).partly_formed(),
            1 <= src <= old(self).table.views().len(),
        ensures
            final(self).partly_formed(),
            final(self).entry_node == old(self).entry_node,
            extends(final(self).table.views(), old(self).table.views()),
            final(self)@.edges == old(self)@.edges.insert((node_of(old(self).table.views(), src), target@)),
    {
        let ghost names = self.table.views();
        let ghost edges = graph_edges(self.graph);
        let dst = match target {
            CFGNode::Block(name) => self.table.intern(name),
            CFGNode::Return => 0,
        };
        add_edge(&mut self.graph, src, dst);
        proof {
            let longer = self.table.views();
            assert(extends(longer, names));
            assert(node_of(longer, dst) == target@);
            assert(node_of(longer, src) == node_of(names, src));
            lemma_lift_insert(names, longer, edges, src, dst);
            assert forall|a: usize, b: usize| #[trigger] graph_edges(self.graph).contains((a, b)) implies a
                <= longer.len() && b <= longer.len() && a != 0 by {
                if (a, b) != (src, dst) {
                    assert(edges.contains((a, b)));
                }
            }
        }
    }

    /// Adds the edges from the block with the number `src` to the blocks
    /// called `dests`, which are the successors from position `base` on of
    /// block `i` of `function`.
    fn link_all(&mut self, src: usize, dests: &'m Vec<Name>, Ghost(f): Ghost<Function>, Ghost(i): Ghost<int>, Ghost(base): Ghost<int>)
        requires
            old(self).partly_formed(),
            1 <= src <= old(self).table.views().len(),
            0 <= i < f.basic_blocks.len(),
            0 <= base,
            node_of(old(self).table.views(), src) == NodeView::Block(f.basic_blocks[i].name@),
            successors(f.basic_blocks[i].term).len() == base + dests.len(),
            forall|j: int| 0 <= j < dests.len() ==> successors(f.basic_blocks[i].term)[base + j] == NodeView::Block(
                #[trigger] dests@[j]@,
            ),
            old(self)@.edges == edges_upto(f, i, base),
        ensures
            final(self).partly_formed(),
            final(self).entry_node == old(self).entry_node,
            extends(final(self).table.views(), old(self).table.views()),
            final(self)@.edges == edges_upto(f, i + 1, 0),
    {
        let mut j: usize = 0;
        while j < dests.len()
            invariant
                j <= dests.len(),
                self.partly_formed(),
                self.entry_node == old(self).entry_node,
                extends(self.table.views(), old(self).table.views()),
                1 <= src <= old(self).table.views().len(),
                0 <= i < f.basic_blocks.len(),
                0 <= base,
                node_of(old(self).table.views(), src) == NodeView::Block(f.basic_blocks[i].name@),
                successors(f.basic_blocks[i].term).len() == base + dests.len(),
                forall|j: int| 0 <= j < dests.len() ==> successors(f.basic_blocks[i].term)[base + j] == NodeView::Block(
                    #[trigger] dests@[j]@,
                ),
                self@.edges == edges_upto(f, i, base + j),
            decreases dests.len() - j,
        {
            let ghost before = self.table.views();
            self.link(src, CFGNode::Block(&dests[j]));
            proof {
                assert(node_of(before, src) == node_of(old(self).table.views(), src));
                assert(successors(f.basic_blocks[i].term)[base + j] == NodeView::Block(dests@[j as int]@));
                lemma_upto_insert(f, i, base + j);
            }
            j += 1;
        }
        proof {
            lemma_upto_next(f, i);
        }
    }

    /// The control flow graph of `function`, or `UnsupportedIRFeature` for a
    /// function without a block or with a `callbr` terminator.
    pub fn new(function: &'m Function) -> (r: Result<Self, AnalysisError>)
        ensures
            match r {
                Ok(cfg) => supported(*function) && cfg.well_formed() && cfg@.entry == function.basic_blocks[0].name@
                    && cfg@.edges == function_edges(*function),
                Err(e) => !supported(*function) && e == AnalysisError::UnsupportedIRFeature,
            },
    {
        if function.basic_blocks.len() == 0 {
            return Err(AnalysisError::UnsupportedIRFeature);
        }
        let ghost f = *function;
        let mut cfg = ControlFlowGraph {
            graph: new_graph(),
            table: NodeTable::new(),
            entry_node: &function.basic_blocks[0].name,
        };
        cfg.table.intern(&function.basic_blocks[0].name);
        proof {
            assert(cfg@.edges =~= edges_upto(f, 0, 0)) by {
                assert forall|e: (NodeView, NodeView)| !edges_upto(f, 0, 0).contains(e) by {
                    assert forall|bi: int, ti: int| !#[trigger] counted(f, 0, 0, bi, ti) by {}
                }
            }
        }
        let mut i: usize = 0;
        while i < function.basic_blocks.len()
            invariant
                i <= function.basic_blocks.len(),
                f == *function,
                cfg.partly_formed(),
                cfg.table.views().len() > 0,
                cfg.table.views()[0] == f.basic_blocks[0].name@,
                cfg.entry_node@ == f.basic_blocks[0].name@,
                cfg@.edges == edges_upto(f, i as int, 0),
                forall|j: int| 0 <= j < i ==> !(#[trigger] f.basic_blocks[j].term is CallBr),
            decreases function.basic_blocks.len() - i,
        {
            let bb = &function.basic_blocks[i];
            let ghost shorter = cfg.table.views();
            let src = cfg.table.intern(&bb.name);
            let ghost names = cfg.table.views();
            let ghost ii = i as int;
            proof {
                lemma_lift_extend(shorter, names, graph_edges(cfg.graph));
            }
            match &bb.term {
                Terminator::Ret | Terminator::Resume | Terminator::Unreachable => {
                    cfg.link(src, CFGNode::Return);
                    proof {
                        lemma_upto_insert(f, ii, 0);
                        lemma_upto_next(f, ii);
                    }
                },
                Terminator::Br { dest } => {
                    cfg.link(src, CFGNode::Block(dest));
                    proof {
                        lemma_upto_insert(f, ii, 0);
                        lemma_upto_next(f, ii);
                    }
                },
                Terminator::CondBr { true_dest, false_dest } => {
                    cfg.link(src, CFGNode::Block(true_dest));
                    cfg.link(src, CFGNode::Block(false_dest));
                    proof {
                        lemma_upto_insert(f, ii, 0);
                        lemma_upto_insert(f, ii, 1);
                        lemma_upto_next(f, ii);
                    }
                },
                Terminator::Switch { default_dest, dests } => {
                    cfg.link(src, CFGNode::Block(default_dest));
                    proof {
                        lemma_upto_insert(f, ii, 0);
                    }
                    cfg.link_all(src, dests, Ghost(f), Ghost(ii), Ghost(1));
                },
                Terminator::IndirectBr { possible_dests } => {
                    cfg.link_all(src, possible_dests, Ghost(f), Ghost(ii), Ghost(0));
                },
                Terminator::Invoke { function: _, return_label, exception_label } => {
                    cfg.link(src, CFGNode::Block(return_label));
                    cfg.link(src, CFGNode::Block(exception_label));
                    proof {
                        lemma_upto_insert(f, ii, 0);
                        lemma_upto_insert(f, ii, 1);
                        lemma_upto_next(f, ii);
                    }
                },
                Terminator::CleanupRet { unwind_dest } => {
                    match unwind_dest {
                        Some(dest) => {
                            cfg.link(src, CFGNode::Block(dest));
                            proof {
                                lemma_upto_insert(f, ii, 0);
                            }
                        },
                        None => {},
                    }
                    proof {
                        lemma_upto_next(f, ii);
                    }
                },
                Terminator::CatchRet { successor } => {
                    cfg.link(src, CFGNode::Block(successor));
                    proof {
                        lemma_upto_insert(f, ii, 0);
                        lemma_upto_next(f, ii);
                    }
                },
                Terminator::CatchSwitch { default_unwind_dest, catch_handlers } => {
                    match default_unwind_dest {
                        Some(dest) => {
                            cfg.link(src, CFGNode::Block(dest));
                            proof {
                                lemma_upto_insert(f, ii, 0);
                            }
                            cfg.link_all(src, catch_handlers, Ghost(f), Ghost(ii), Ghost(1));
                        },
                        None => {
                            cfg.link_all(src, catch_handlers, Ghost(f), Ghost(ii), Ghost(0));
                        },
                    }
                },
                Terminator::CallBr => {
                    return Err(AnalysisError::UnsupportedIRFeature);
                },
            }
            i += 1;
        }
        Ok(cfg)
    }
}

impl<'m> ControlFlowGraph<'m> {
    /// The name of the entry block.
    pub fn entry(&self) -> (r: &'m Name)
        requires
            self.well_formed(),
        ensures
            r@ == self@.entry,
    {
        self.entry_node
    }

    /// The successors of the block called `block`, each of them once: the
    /// blocks it may pass control to, and the exit node if it may leave the
    /// function.
    pub fn succs(&self, block: &Name) -> (r: Vec<CFGNode<'m>>)
        requires
            self.well_formed(),
        ensures
            node_views(r@).no_duplicates(),
            forall|n: NodeView| node_views(r@).contains(n) <==> self@.edges.contains((NodeView::Block(block@), n)),
    {
        match self.table.find(block) {
            Some(id) => adjacent_nodes(&self.graph, &self.table, id, Direction::Outgoing),
            None => {
                let r: Vec<CFGNode<'m>> = Vec::new();
                proof {
                    assert forall|n: NodeView| !self@.edges.contains((NodeView::Block(block@), n)) by {
                        lemma_lift_unknown(self.table.views(), graph_edges(self.graph), block@, n);
                    }
                }
                r
            },
        }
    }

    /// The predecessors of the block called `block`, each of them once: the
    /// blocks that may pass control to it.
    pub fn preds(&self, block: &Name) -> (r: Vec<&'m Name>)
        requires
            self.well_formed(),
        ensures
            name_views(r@).no_duplicates(),
            forall|n: NameView|
                name_views(r@).contains(n) <==> self@.edges.contains((NodeView::Block(n), NodeView::Block(block@))),
    {
        match self.table.find(block) {
            Some(id) => adjacent_blocks(&self.graph, &self.table, id, Direction::Incoming),
            None => {
                let r: Vec<&'m Name> = Vec::new();
                proof {
                    assert forall|n: NameView|
                        !self@.edges.contains((NodeView::Block(n), NodeView::Block(block@))) by {
                        lemma_lift_unknown(self.table.views(), graph_edges(self.graph), block@, NodeView::Block(n));
                    }
                }
                r
            },
        }
    }

    /// The names of the blocks of the graph, each of them once: every block
    /// that an edge leaves or enters is among them.
    pub(crate) fn blocks(&self) -> (r: Vec<&'m Name>)
        requires
            self.well_formed(),
        ensures
            name_views(r@).no_duplicates(),
            name_views(r@).contains(self@.entry),
            forall|n: NameView, y: NodeView|
                #[trigger] self@.edges.contains((NodeView::Block(n), y)) ==> name_views(r@).contains(n),
            forall|n: NameView, y: NodeView|
                #[trigger] self@.edges.contains((y, NodeView::Block(n))) ==> name_views(r@).contains(n),
    {
        let r = self.table.all_blocks();
        proof {
            self.table.lemma_distinct();
            assert(name_views(r@)[0] == self@.entry);
            assert forall|n: NameView, y: NodeView| #[trigger]
                self@.edges.contains((NodeView::Block(n), y)) implies name_views(r@).contains(n) by {
                if !self.table.views().contains(n) {
                    lemma_lift_unknown(self.table.views(), graph_edges(self.graph), n, y);
                }
            }
            assert forall|n: NameView, y: NodeView| #[trigger]
                self@.edges.contains((y, NodeView::Block(n))) implies name_views(r@).contains(n) by {
                if !self.table.views().contains(n) {
                    lemma_lift_unknown(self.table.views(), graph_edges(self.graph), n, y);
                }
            }
        }
        r
    }

    /// The blocks that may leave the function, each of them once.
    pub fn preds_of_return(&self) -> (r: Vec<&'m Name>)
        requires
            self.well_formed(),
        ensures
            name_views(r@).no_duplicates(),
            forall|n: NameView| name_views(r@).contains(n) <==> self@.edges.contains((NodeView::Block(n), NodeView::Return)),
    {
        adjacent_blocks(&self.graph, &self.table, 0, Direction::Incoming)
    }

    /// The successors of the exit node: none.
    pub fn succs_of_return(&self) -> (r: Vec<CFGNode<'m>>)
        requires
            self.well_formed(),
        ensures
            r@.len() == 0,
            forall|n: NodeView| !self@.edges.contains((NodeView::Return, n)),
    {
        proof {
            assert forall|n: NodeView| !self@.edges.contains((NodeView::Return, n)) by {
                self.lemma_return_is_sink(n);
            }
        }
        Vec::new()
    }
}

} // verus!
