//! The nodes of one function's graphs, numbered.
//!
//! The graphs hold numbers: 0 for the exit of the function, and `i + 1` for
//! the block whose name stands at position `i` of the table.  No name stands
//! in a table twice, so a node has one number.

use vstd::prelude::*;
use petgraph::graphmap::DiGraphMap;
use petgraph::Direction;
use crate::graph::{graph_edges, neighbors_directed, step};
use crate::ir::{CFGNode, Name, NameView, NodeView};

verus! {

/// The node that a number stands for, given the names of the blocks.
pub open spec fn node_of(names: Seq<NameView>, id: usize) -> NodeView {
    if id == 0 {
        NodeView::Return
    } else {
        NodeView::Block(names[id - 1])
    }
}

/// The edges over nodes that a set of edges over numbers stands for.
pub open spec fn lift(names: Seq<NameView>, edges: Set<(usize, usize)>) -> Set<(NodeView, NodeView)> {
    Set::new(
        |e: (NodeView, NodeView)|
            exists|a: usize, b: usize|
                #[trigger] edges.contains((a, b)) && e.0 == node_of(names, a) && e.1 == node_of(names, b),
    )
}

/// Whether every number in the edges stands for a node of the table.
pub open spec fn edges_within(names: Seq<NameView>, edges: Set<(usize, usize)>) -> bool {
    forall|a: usize, b: usize| #[trigger] edges.contains((a, b)) ==> a <= names.len() && b <= names.len()
}

/// Two numbers within the table that stand for one node are one number.
pub proof fn lemma_node_injective(names: Seq<NameView>, a: usize, b: usize)
    requires
        names.no_duplicates(),
        a <= names.len(),
        b <= names.len(),
        node_of(names, a) == node_of(names, b),
    ensures
        a == b,
{
}

/// An edge over numbers stands for the edge between the nodes of its ends.
pub proof fn lemma_lift_contains(names: Seq<NameView>, edges: Set<(usize, usize)>, a: usize, b: usize)
    requires
        edges.contains((a, b)),
    ensures
        lift(names, edges).contains((node_of(names, a), node_of(names, b))),
{
}

/// An edge between the nodes of two numbers within the table is there only
/// if the edge between the numbers is.
pub proof fn lemma_lift_reflects(names: Seq<NameView>, edges: Set<(usize, usize)>, a: usize, b: usize)
    requires
        names.no_duplicates(),
        edges_within(names, edges),
        a <= names.len(),
        b <= names.len(),
        lift(names, edges).contains((node_of(names, a), node_of(names, b))),
    ensures
        edges.contains((a, b)),
{
    let (x, y) = choose|x: usize, y: usize|
        #[trigger] edges.contains((x, y)) && node_of(names, a) == node_of(names, x) && node_of(names, b) == node_of(
            names,
            y,
        );
    lemma_node_injective(names, a, x);
    lemma_node_injective(names, b, y);
}

/// The name of a block node.
pub open spec fn name_of(n: NodeView) -> NameView {
    match n {
        NodeView::Block(name) => name,
        NodeView::Return => NameView::Number(0),
    }
}

/// The nodes of one function, each at the position of its number: the exit
/// node first, then the blocks.
pub struct NodeTable<'m> {
    nodes: Vec<CFGNode<'m>>,
}

impl<'m> NodeTable<'m> {
    /// The names of the blocks in the table, in order.
    pub closed spec fn views(&self) -> Seq<NameView> {
        Seq::new((self.nodes@.len() - 1) as nat, |i: int| name_of(self.nodes@[i + 1]@))
    }

    /// The exit node stands first, blocks follow, and no name stands in the
    /// table twice.
    pub closed spec fn well_formed(&self) -> bool {
        &&& self.nodes@.len() >= 1
        &&& self.nodes@[0]@ == NodeView::Return
        &&& forall|i: int| 1 <= i < self.nodes@.len() ==> #[trigger] self.nodes@[i]@ is Block
        &&& self.views().no_duplicates()
    }

    /// No name stands in a well-formed table twice.
    pub proof fn lemma_distinct(&self)
        requires
            self.well_formed(),
        ensures
            self.views().no_duplicates(),
    {
    }

    /// A table without blocks.
    pub fn new() -> (t: Self)
        ensures
            t.well_formed(),
            t.views() == Seq::<NameView>::empty(),
    {
        let mut nodes: Vec<CFGNode<'m>> = Vec::new();
        nodes.push(CFGNode::Return);
        let t = NodeTable { nodes };
        assert(t.views() =~= Seq::<NameView>::empty());
        t
    }

    /// How many numbers are in use: one more than there are blocks.
    pub fn bound(&self) -> (n: usize)
        requires
            self.well_formed(),
        ensures
            n == self.views().len() + 1,
    {
        self.nodes.len()
    }

    /// The number of the block called `name`, if the table holds it.
    pub fn find(&self, name: &Name) -> (r: Option<usize>)
        requires
            self.well_formed(),
        ensures
            match r {
                Some(id) => 1 <= id <= self.views().len() && self.views()[id - 1] == name@,
                None => !self.views().contains(name@),
            },
    {
        let mut i: usize = 1;
        while i < self.nodes.len()
            invariant
                self.well_formed(),
                1 <= i <= self.nodes.len(),
                forall|j: int| 0 <= j < i - 1 ==> self.views()[j] != name@,
            decreases self.nodes.len() - i,
        {
            match self.nodes[i] {
                CFGNode::Block(n) => {
                    if n.same(name) {
                        assert(self.views()[i - 1] == name@);
                        return Some(i);
                    }
                },
                CFGNode::Return => {},
            }
            assert(self.nodes@[i as int]@ is Block);
            assert(self.views()[i - 1] != name@);
            i += 1;
        }
        None
    }

    /// The number of the block called `name`, which joins the table if it
    /// is not in it yet.
    pub fn intern(&mut self, name: &'m Name) -> (id: usize)
        requires
            old(self).well_formed(),
        ensures
            final(self).well_formed(),
            1 <= id <= final(self).views().len(),
            final(self).views()[id - 1] == name@,
            final(self).views() == old(self).views() || final(self).views() == old(self).views().push(name@),
            old(self).views().contains(name@) ==> final(self).views() == old(self).views(),
    {
        match self.find(name) {
            Some(id) => id,
            None => {
                let id = self.nodes.len();
                self.nodes.push(CFGNode::Block(name));
                proof {
                    assert(self.views() =~= old(self).views().push(name@));
                    assert forall|i: int| 1 <= i < self.nodes@.len() implies #[trigger] self.nodes@[i]@ is Block by {
                        if i < id {
                            assert(old(self).nodes@[i]@ is Block);
                        }
                    }
                }
                id
            },
        }
    }

    /// The node with the number `id`.
    pub fn node(&self, id: usize) -> (r: CFGNode<'m>)
        requires
            self.well_formed(),
            id <= self.views().len(),
        ensures
            r@ == node_of(self.views(), id),
    {
        let r = self.nodes[id];
        proof {
            if id > 0 {
                assert(self.nodes@[id as int]@ is Block);
            }
        }
        r
    }

    /// The name of the block with the number `id`; nothing for the exit node.
    pub fn block(&self, id: usize) -> (r: Option<&'m Name>)
        requires
            self.well_formed(),
            id <= self.views().len(),
        ensures
            id == 0 ==> r is None,
            id != 0 ==> r is Some && r.unwrap()@ == self.views()[id - 1],
    {
        match self.node(id) {
            CFGNode::Block(name) => Some(name),
            CFGNode::Return => None,
        }
    }

    /// The names of all blocks in the table, in the order of their numbers.
    pub fn all_blocks(&self) -> (r: Vec<&'m Name>)
        requires
            self.well_formed(),
        ensures
            name_views(r@) == self.views(),
    {
        let mut r: Vec<&'m Name> = Vec::new();
        let mut i: usize = 1;
        while i < self.nodes.len()
            invariant
                self.well_formed(),
                1 <= i <= self.nodes.len(),
                r.len() == i - 1,
                forall|j: int| 0 <= j < i - 1 ==> (#[trigger] r@[j])@ == self.views()[j],
            decreases self.nodes.len() - i,
        {
            match self.block(i) {
                Some(name) => {
                    r.push(name);
                },
                None => {},
            }
            i += 1;
        }
        proof {
            assert(name_views(r@) =~= self.views());
        }
        r
    }

    /// A copy of the table.
    pub fn duplicate(&self) -> (t: Self)
        ensures
            t.views() == self.views(),
            t.well_formed() == self.well_formed(),
    {
        let mut nodes: Vec<CFGNode<'m>> = Vec::new();
        let mut i: usize = 0;
        while i < self.nodes.len()
            invariant
                i <= self.nodes.len(),
                nodes@ == self.nodes@.subrange(0, i as int),
            decreases self.nodes.len() - i,
        {
            nodes.push(self.nodes[i]);
            proof {
                assert(nodes@ =~= self.nodes@.subrange(0, i + 1));
            }
            i += 1;
        }
        proof {
            assert(nodes@ =~= self.nodes@);
        }
        NodeTable { nodes }
    }
}

/// The nodes that a sequence of nodes of a graph stands for.
pub open spec fn node_views(nodes: Seq<CFGNode>) -> Seq<NodeView> {
    Seq::new(nodes.len(), |i: int| nodes[i]@)
}

/// The names that a sequence of names stands for.
pub open spec fn name_views(names: Seq<&Name>) -> Seq<NameView> {
    Seq::new(names.len(), |i: int| names[i]@)
}

impl<'m> NodeTable<'m> {
    /// The nodes with the numbers `ids`, in the same order.
    pub fn nodes(&self, ids: &Vec<usize>) -> (r: Vec<CFGNode<'m>>)
        requires
            self.well_formed(),
            ids@.no_duplicates(),
            forall|i: int| 0 <= i < ids.len() ==> (#[trigger] ids@[i]) <= self.views().len(),
        ensures
            r.len() == ids.len(),
            forall|i: int| 0 <= i < ids.len() ==> (#[trigger] r@[i])@ == node_of(self.views(), ids@[i]),
            node_views(r@).no_duplicates(),
    {
        let mut r: Vec<CFGNode<'m>> = Vec::new();
        let mut i: usize = 0;
        while i < ids.len()
            invariant
                self.well_formed(),
                i <= ids.len(),
                r.len() == i,
                forall|i: int| 0 <= i < ids.len() ==> (#[trigger] ids@[i]) <= self.views().len(),
                forall|j: int| 0 <= j < i ==> (#[trigger] r@[j])@ == node_of(self.views(), ids@[j]),
            decreases ids.len() - i,
        {
            r.push(self.node(ids[i]));
            i += 1;
        }
        proof {
            let views = node_views(r@);
            assert forall|i: int, j: int| 0 <= i < views.len() && 0 <= j < views.len() && i != j implies views[i]
                != views[j] by {
                assert(r@[i]@ == node_of(self.views(), ids@[i]));
                assert(r@[j]@ == node_of(self.views(), ids@[j]));
                if views[i] == views[j] {
                    lemma_node_injective(self.views(), ids@[i], ids@[j]);
                }
            }
        }
        r
    }

    /// The names of the blocks with the numbers `ids`, in the same order.
    pub fn block_names(&self, ids: &Vec<usize>) -> (r: Vec<&'m Name>)
        requires
            self.well_formed(),
            ids@.no_duplicates(),
            forall|i: int| 0 <= i < ids.len() ==> 1 <= (#[trigger] ids@[i]) <= self.views().len(),
        ensures
            r.len() == ids.len(),
            forall|i: int| 0 <= i < ids.len() ==> (#[trigger] r@[i])@ == self.views()[ids@[i] - 1],
            name_views(r@).no_duplicates(),
    {
        let mut r: Vec<&'m Name> = Vec::new();
        let mut i: usize = 0;
        while i < ids.len()
            invariant
                self.well_formed(),
                i <= ids.len(),
                r.len() == i,
                forall|i: int| 0 <= i < ids.len() ==> 1 <= (#[trigger] ids@[i]) <= self.views().len(),
                forall|j: int| 0 <= j < i ==> (#[trigger] r@[j])@ == self.views()[ids@[j] - 1],
            decreases ids.len() - i,
        {
            match self.block(ids[i]) {
                Some(name) => {
                    r.push(name);
                },
                None => {},
            }
            i += 1;
        }
        proof {
            let views = name_views(r@);
            assert forall|i: int, j: int| 0 <= i < views.len() && 0 <= j < views.len() && i != j implies views[i]
                != views[j] by {
                assert(r@[i]@ == self.views()[ids@[i] - 1]);
                assert(r@[j]@ == self.views()[ids@[j] - 1]);
            }
        }
        r
    }
}

/// No edge between nodes touches a block whose name is not in the table.
pub proof fn lemma_lift_unknown(names: Seq<NameView>, edges: Set<(usize, usize)>, name: NameView, n: NodeView)
    requires
        edges_within(names, edges),
        !names.contains(name),
    ensures
        !lift(names, edges).contains((NodeView::Block(name), n)),
        !lift(names, edges).contains((n, NodeView::Block(name))),
{
    if lift(names, edges).contains((NodeView::Block(name), n)) {
        let (a, b) = choose|a: usize, b: usize|
            #[trigger] edges.contains((a, b)) && NodeView::Block(name) == node_of(names, a) && n == node_of(names, b);
        assert(names[a - 1] == name);
    }
    if lift(names, edges).contains((n, NodeView::Block(name))) {
        let (a, b) = choose|a: usize, b: usize|
            #[trigger] edges.contains((a, b)) && n == node_of(names, a) && NodeView::Block(name) == node_of(names, b);
        assert(names[b - 1] == name);
    }
}

/// A step between numbers within the table is a step between their nodes,
/// and the other way round.
pub proof fn lemma_lift_step(names: Seq<NameView>, edges: Set<(usize, usize)>, dir: Direction, a: usize, b: usize)
    requires
        names.no_duplicates(),
        edges_within(names, edges),
        a <= names.len(),
        b <= names.len(),
    ensures
        step(edges, dir, a, b) == step(lift(names, edges), dir, node_of(names, a), node_of(names, b)),
{
    match dir {
        Direction::Outgoing => {
            if edges.contains((a, b)) {
                lemma_lift_contains(names, edges, a, b);
            }
            if lift(names, edges).contains((node_of(names, a), node_of(names, b))) {
                lemma_lift_reflects(names, edges, a, b);
            }
        },
        Direction::Incoming => {
            if edges.contains((b, a)) {
                lemma_lift_contains(names, edges, b, a);
            }
            if lift(names, edges).contains((node_of(names, b), node_of(names, a))) {
                lemma_lift_reflects(names, edges, b, a);
            }
        },
    }
}

/// The nodes one step from the node with the number `id` in the direction
/// `dir`, each of them once.
pub fn adjacent_nodes<'m>(graph: &DiGraphMap<usize, ()>, table: &NodeTable<'m>, id: usize, dir: Direction) -> (r: Vec<
    CFGNode<'m>,
>)
    requires
        table.well_formed(),
        edges_within(table.views(), graph_edges(*graph)),
        id <= table.views().len(),
    ensures
        node_views(r@).no_duplicates(),
        forall|n: NodeView|
            node_views(r@).contains(n) <==> step(
                lift(table.views(), graph_edges(*graph)),
                dir,
                node_of(table.views(), id),
                n,
            ),
{
    let ghost names = table.views();
    let ghost edges = graph_edges(*graph);
    let ids = neighbors_directed(graph, id, dir);
    proof {
        assert forall|i: int| 0 <= i < ids.len() implies (#[trigger] ids@[i]) <= names.len() by {
            assert(ids@.contains(ids@[i]));
            assert(step(edges, dir, id, ids@[i]));
            assert(edges.contains((id, ids@[i])) || edges.contains((ids@[i], id)));
        }
    }
    let r = table.nodes(&ids);
    proof {
        let views = node_views(r@);
        assert forall|n: NodeView| views.contains(n) <==> step(lift(names, edges), dir, node_of(names, id), n) by {
            if views.contains(n) {
                let i = choose|i: int| 0 <= i < views.len() && views[i] == n;
                assert(r@[i]@ == node_of(names, ids@[i]));
                assert(ids@.contains(ids@[i]));
                lemma_lift_step(names, edges, dir, id, ids@[i]);
            }
            if step(lift(names, edges), dir, node_of(names, id), n) {
                let e = match dir {
                    Direction::Outgoing => (node_of(names, id), n),
                    Direction::Incoming => (n, node_of(names, id)),
                };
                assert(lift(names, edges).contains(e));
                let (a, b) = choose|a: usize, b: usize|
                    #[trigger] edges.contains((a, b)) && e.0 == node_of(names, a) && e.1 == node_of(names, b);
                let m = match dir {
                    Direction::Outgoing => b,
                    Direction::Incoming => a,
                };
                let o = match dir {
                    Direction::Outgoing => a,
                    Direction::Incoming => b,
                };
                lemma_node_injective(names, o, id);
                assert(step(edges, dir, id, m));
                assert(ids@.contains(m));
                let i = choose|i: int| 0 <= i < ids@.len() && ids@[i] == m;
                assert(r@[i]@ == node_of(names, ids@[i]));
                assert(views[i] == n);
            }
        }
    }
    r
}

/// The names of the blocks one step from the node with the number `id` in
/// the direction `dir`, each of them once, where the exit node is not among
/// those nodes.
pub fn adjacent_blocks<'m>(graph: &DiGraphMap<usize, ()>, table: &NodeTable<'m>, id: usize, dir: Direction) -> (r: Vec<
    &'m Name,
>)
    requires
        table.well_formed(),
        edges_within(table.views(), graph_edges(*graph)),
        id <= table.views().len(),
        forall|m: usize| #[trigger] step(graph_edges(*graph), dir, id, m) ==> m != 0,
    ensures
        name_views(r@).no_duplicates(),
        forall|n: NameView|
            name_views(r@).contains(n) <==> step(
                lift(table.views(), graph_edges(*graph)),
                dir,
                node_of(table.views(), id),
                NodeView::Block(n),
            ),
        !step(lift(table.views(), graph_edges(*graph)), dir, node_of(table.views(), id), NodeView::Return),
{
    let ghost names = table.views();
    let ghost edges = graph_edges(*graph);
    let ids = neighbors_directed(graph, id, dir);
    proof {
        assert forall|i: int| 0 <= i < ids.len() implies 1 <= (#[trigger] ids@[i]) <= names.len() by {
            assert(ids@.contains(ids@[i]));
            assert(step(edges, dir, id, ids@[i]));
            assert(edges.contains((id, ids@[i])) || edges.contains((ids@[i], id)));
        }
    }
    let r = table.block_names(&ids);
    proof {
        let views = name_views(r@);
        assert forall|n: NameView|
            views.contains(n) <==> step(lift(names, edges), dir, node_of(names, id), NodeView::Block(n)) by {
            if views.contains(n) {
                let i = choose|i: int| 0 <= i < views.len() && views[i] == n;
                assert(r@[i]@ == names[ids@[i] - 1]);
                assert(ids@.contains(ids@[i]));
                assert(node_of(names, ids@[i]) == NodeView::Block(n));
                lemma_lift_step(names, edges, dir, id, ids@[i]);
            }
            if step(lift(names, edges), dir, node_of(names, id), NodeView::Block(n)) {
                let e = match dir {
                    Direction::Outgoing => (node_of(names, id), NodeView::Block(n)),
                    Direction::Incoming => (NodeView::Block(n), node_of(names, id)),
                };
                assert(lift(names, edges).contains(e));
                let (a, b) = choose|a: usize, b: usize|
                    #[trigger] edges.contains((a, b)) && e.0 == node_of(names, a) && e.1 == node_of(names, b);
                let m = match dir {
                    Direction::Outgoing => b,
                    Direction::Incoming => a,
                };
                let o = match dir {
                    Direction::Outgoing => a,
                    Direction::Incoming => b,
                };
                lemma_node_injective(names, o, id);
                assert(step(edges, dir, id, m));
                assert(ids@.contains(m));
                let i = choose|i: int| 0 <= i < ids@.len() && ids@[i] == m;
                assert(r@[i]@ == names[ids@[i] - 1]);
                assert(views[i] == n);
            }
        }
        if step(lift(names, edges), dir, node_of(names, id), NodeView::Return) {
            lemma_lift_step(names, edges, dir, id, 0);
        }
    }
    r
}

} // verus!
