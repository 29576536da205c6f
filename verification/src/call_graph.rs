//! The call graph of a program: which function may call which.
//!
//! A call of a function by name gives one edge.  A call through a pointer may
//! reach any function of the type that the pointer points to, so it gives an
//! edge to every function of that type: the graph holds every call that can
//! happen, and calls that cannot.

use vstd::prelude::*;
use petgraph::graphmap::DiGraphMap;
use petgraph::Direction;
use crate::functions_by_type::{names_with_type, owned_views, program, FunctionsByType};
use crate::graph::{add_edge, add_node, graph_edges, graph_nodes, neighbors_directed, new_graph, step};
use crate::ir::{AnalysisError, BasicBlock, Callee, Function, OperandType, Terminator};
use crate::name_index::{string_views, NameIndex};

verus! {

/// What the calls and the terminator of a block call, in order.
pub open spec fn block_callees(bb: BasicBlock) -> Seq<Callee> {
    match bb.term {
        Terminator::Invoke { function, return_label, exception_label } => bb.calls@.push(function),
        _ => bb.calls@,
    }
}

/// What the first `b` blocks of a function call, in order.
pub open spec fn sites_upto(f: Function, b: int) -> Seq<Callee>
    decreases b,
{
    if b <= 0 {
        Seq::empty()
    } else {
        sites_upto(f, b - 1) + block_callees(f.basic_blocks[b - 1])
    }
}

/// What a function calls, in order.
pub open spec fn call_sites(f: Function) -> Seq<Callee> {
    sites_upto(f, f.basic_blocks.len() as int)
}

/// The functions that a call may reach.
pub open spec fn call_targets(functions: Seq<Function>, callee: Callee) -> Set<Seq<char>> {
    match callee {
        Callee::Function { name } => set![name@],
        Callee::Pointer { ty: OperandType::Pointer { pointee } } => names_with_type(functions, pointee),
        _ => Set::empty(),
    }
}

/// Whether the call graph handles a call: it is no call of a global that
/// has only a number, and no call through a value that is no pointer.
pub open spec fn call_supported(callee: Callee) -> bool {
    match callee {
        Callee::NumberedGlobal { number } => false,
        Callee::Pointer { ty: OperandType::Other } => false,
        _ => true,
    }
}

/// Call site `c` of function `i`.
pub open spec fn site(functions: Seq<Function>, i: int, c: int) -> Callee {
    call_sites(functions[i])[c]
}

/// Whether call site `c` of function `i` exists.
pub open spec fn is_site(functions: Seq<Function>, i: int, c: int) -> bool {
    0 <= i < functions.len() && 0 <= c < call_sites(functions[i]).len()
}

/// Whether call site `c` of function `i` may reach the function `callee`.
pub open spec fn calls_at(functions: Seq<Function>, i: int, c: int, callee: Seq<char>) -> bool {
    is_site(functions, i, c) && call_targets(functions, site(functions, i, c)).contains(callee)
}

/// Whether the function `caller` may call the function `callee`.
pub open spec fn may_call(functions: Seq<Function>, caller: Seq<char>, callee: Seq<char>) -> bool {
    exists|i: int, c: int| #[trigger] calls_at(functions, i, c, callee) && functions[i].name@ == caller
}

/// Whether `name` is the name of one of the functions.
pub open spec fn is_defined(functions: Seq<Function>, name: Seq<char>) -> bool {
    exists|i: int| 0 <= i < functions.len() && (#[trigger] functions[i]).name@ == name
}

/// Whether `name` is called by one of the functions.
pub open spec fn is_called(functions: Seq<Function>, name: Seq<char>) -> bool {
    exists|caller: Seq<char>| may_call(functions, caller, name)
}

/// Whether `name` is a node of the call graph: a function of the program,
/// or a function that one of them may call.
pub open spec fn is_node(functions: Seq<Function>, name: Seq<char>) -> bool {
    is_defined(functions, name) || is_called(functions, name)
}

/// Whether the call graph of a program can be built: it handles every call.
pub open spec fn program_supported(functions: Seq<Function>) -> bool {
    forall|i: int, c: int| #[trigger] is_site(functions, i, c) ==> call_supported(site(functions, i, c))
}

/// Whether call site `c1` of function `i1` comes before call site `c` of
/// function `i`.
pub open spec fn before(i: int, c: int, i1: int, c1: int) -> bool {
    i1 < i || (i1 == i && c1 < c)
}

/// Whether the graph over numbers holds an edge between the numbers of the
/// names `x` and `y`.
pub open spec fn has_edge(names: Seq<Seq<char>>, edges: Set<(usize, usize)>, x: Seq<char>, y: Seq<char>) -> bool {
    exists|a: usize, b: usize|
        #[trigger] edges.contains((a, b)) && a < names.len() && b < names.len() && names[a as int] == x && names[b as int]
            == y
}

/// Every function of the program is a node of the call graph, so asking for
/// its callers or callees does not fail.
pub proof fn lemma_function_is_node(functions: Seq<Function>, i: int)
    requires
        0 <= i < functions.len(),
    ensures
        is_node(functions, functions[i].name@),
{
    assert(is_defined(functions, functions[i].name@));
}

/// A call of a function by its name is an edge of the call graph.
pub proof fn lemma_direct_call_is_edge(functions: Seq<Function>, i: int, c: int, name: String)
    requires
        is_site(functions, i, c),
        site(functions, i, c) == (Callee::Function { name }),
    ensures
        may_call(functions, functions[i].name@, name@),
{
    assert(calls_at(functions, i, c, name@));
}

/// A call through a pointer to a function type is an edge of the call graph
/// to every function of that type.
pub proof fn lemma_pointer_call_is_edge(functions: Seq<Function>, i: int, c: int, j: int)
    requires
        is_site(functions, i, c),
        0 <= j < functions.len(),
        site(functions, i, c) == (Callee::Pointer { ty: OperandType::Pointer { pointee: functions[j].ty } }),
    ensures
        may_call(functions, functions[i].name@, functions[j].name@),
{
    assert(crate::functions_by_type::typed(functions, j, functions[j].ty, functions[j].name@));
    assert(names_with_type(functions, functions[j].ty).contains(functions[j].name@));
    assert(calls_at(functions, i, c, functions[j].name@));
}

/// The callees of a sequence of references.
pub open spec fn callee_views(sites: Seq<&Callee>) -> Seq<Callee> {
    Seq::new(sites.len(), |i: int| *sites[i])
}

/// What `function` calls, in order: the callee of each call instruction and
/// of each invoke terminator.
pub fn collect_call_sites<'m>(function: &'m Function) -> (r: Vec<&'m Callee>)
    ensures
        callee_views(r@) == call_sites(*function),
{
    let mut r: Vec<&'m Callee> = Vec::new();
    let mut b: usize = 0;
    proof {
        assert(callee_views(r@) =~= sites_upto(*function, 0));
    }
    while b < function.basic_blocks.len()
        invariant
            b <= function.basic_blocks.len(),
            callee_views(r@) == sites_upto(*function, b as int),
        decreases function.basic_blocks.len() - b,
    {
        let bb = &function.basic_blocks[b];
        let ghost start = callee_views(r@);
        let mut k: usize = 0;
        while k < bb.calls.len()
            invariant
                k <= bb.calls.len(),
                callee_views(r@) == start + bb.calls@.subrange(0, k as int),
            decreases bb.calls.len() - k,
        {
            let ghost prev = callee_views(r@);
            r.push(&bb.calls[k]);
            proof {
                assert(callee_views(r@) =~= prev.push(bb.calls@[k as int]));
                assert(prev.push(bb.calls@[k as int]) =~= start + bb.calls@.subrange(0, k + 1));
            }
            k += 1;
        }
        proof {
            assert(bb.calls@.subrange(0, bb.calls.len() as int) =~= bb.calls@);
        }
        match &bb.term {
            Terminator::Invoke { function: callee, return_label: _, exception_label: _ } => {
                let ghost prev = callee_views(r@);
                r.push(callee);
                proof {
                    assert(callee_views(r@) =~= prev.push(*callee));
                    assert(prev.push(*callee) =~= start + bb.calls@.push(*callee));
                }
            },
            _ => {},
        }
        proof {
            assert(callee_views(r@) == start + block_callees(*bb));
        }
        b += 1;
    }
    r
}

/// The call graph of a program.
pub struct CallGraph<'m> {
    /// The graph over the numbers of the functions: an edge leads from a
    /// function to each function that it may call.
    graph: DiGraphMap<usize, ()>,
    /// The names of the functions.
    index: NameIndex<'m>,
    /// The functions of the program.
    source: Ghost<Seq<Function>>,
}

impl<'m> CallGraph<'m> {
    /// The functions of the program.
    pub closed spec fn functions(&self) -> Seq<Function> {
        self.source@
    }

    /// What holds while the graph is built.
    spec fn partly_formed(&self) -> bool {
        &&& self.index.well_formed()
        &&& forall|a: usize| #[trigger] graph_nodes(self.graph).contains(a) <==> a < self.index.views().len()
        &&& forall|a: usize, b: usize|
            #[trigger] graph_edges(self.graph).contains((a, b)) ==> a < self.index.views().len() && b
                < self.index.views().len()
    }

    /// What holds of every call graph: its nodes are the functions of the
    /// program and the functions they may call, and its edges are the calls
    /// that may happen.
    pub closed spec fn well_formed(&self) -> bool {
        &&& self.partly_formed()
        &&& forall|name: Seq<char>| #[trigger] self.index.views().contains(name) <==> is_node(self.source@, name)
        &&& forall|x: Seq<char>, y: Seq<char>|
            #![trigger has_edge(self.index.views(), graph_edges(self.graph), x, y)]
            #![trigger may_call(self.source@, x, y)]
            has_edge(self.index.views(), graph_edges(self.graph), x, y) <==> may_call(self.source@, x, y)
    }

    /// Adds the edge from the function with the number `src` to the function
    /// called `callee`.
    fn connect(&mut self, src: usize, callee: &'m String)
        requires
            old(self).partly_formed(),
            src < old(self).index.views().len(),
        ensures
            final(self).partly_formed(),
            final(self).source == old(self).source,
            old(self).index.views().len() <= final(self).index.views().len(),
            forall|i: int|
                0 <= i < old(self).index.views().len() ==> final(self).index.views()[i] == old(self).index.views()[i],
            forall|name: Seq<char>|
                final(self).index.views().contains(name) <==> old(self).index.views().contains(name) || name
                    == callee@,
            forall|x: Seq<char>, y: Seq<char>|
                has_edge(final(self).index.views(), graph_edges(final(self).graph), x, y) <==> has_edge(
                    old(self).index.views(),
                    graph_edges(old(self).graph),
                    x,
                    y,
                ) || (x == old(self).index.views()[src as int] && y == callee@),
    {
        let ghost names = self.index.views();
        let ghost edges = graph_edges(self.graph);
        let dst = self.index.intern(callee);
        add_edge(&mut self.graph, src, dst);
        proof {
            let longer = self.index.views();
            let more = graph_edges(self.graph);
            assert forall|name: Seq<char>| longer.contains(name) <==> names.contains(name) || name == callee@ by {
                if longer.contains(name) {
                    let i = choose|i: int| 0 <= i < longer.len() && longer[i] == name;
                    if i < names.len() {
                        assert(names[i] == name);
                    }
                }
                if names.contains(name) {
                    let i = choose|i: int| 0 <= i < names.len() && names[i] == name;
                    assert(longer[i] == name);
                }
            }
            assert forall|x: Seq<char>, y: Seq<char>|
                has_edge(longer, more, x, y) <==> has_edge(names, edges, x, y) || (x == names[src as int] && y
                    == callee@) by {
                if has_edge(longer, more, x, y) {
                    let (a, b) = choose|a: usize, b: usize|
                        #[trigger] more.contains((a, b)) && a < longer.len() && b < longer.len() && longer[a as int]
                            == x && longer[b as int] == y;
                    if (a, b) != (src, dst) {
                        assert(edges.contains((a, b)));
                    }
                }
                if has_edge(names, edges, x, y) {
                    let (a, b) = choose|a: usize, b: usize|
                        #[trigger] edges.contains((a, b)) && a < names.len() && b < names.len() && names[a as int]
                            == x && names[b as int] == y;
                    assert(more.contains((a, b)));
                }
                if x == names[src as int] && y == callee@ {
                    assert(more.contains((src, dst)));
                }
            }
            assert forall|a: usize, b: usize| #[trigger] more.contains((a, b)) implies a < longer.len() && b
                < longer.len() by {
                if (a, b) != (src, dst) {
                    assert(edges.contains((a, b)));
                }
            }
        }
    }

    /// The call graph of the program made of `functions`, whose index by
    /// type is `functions_by_type`; or `UnsupportedIRFeature` if the program
    /// holds a call that the graph does not handle.
    pub fn new(functions: &Vec<&'m Function>, functions_by_type: &FunctionsByType<'m>) -> (r: Result<
        Self,
        AnalysisError,
    >)
        requires
            functions_by_type.well_formed(),
            functions_by_type.functions() == program(functions@),
        ensures
            match r {
                Ok(g) => program_supported(program(functions@)) && g.well_formed() && g.functions() == program(
                    functions@,
                ),
                Err(e) => e == AnalysisError::UnsupportedIRFeature && !program_supported(program(functions@)),
            },
    {
        let ghost all = program(functions@);
        let mut g = CallGraph { graph: new_graph(), index: NameIndex::new(), source: Ghost(all) };
        let mut i: usize = 0;
        while i < functions.len()
            invariant
                i <= functions.len(),
                all == program(functions@),
                functions_by_type.well_formed(),
                functions_by_type.functions() == all,
                g.partly_formed(),
                g.source@ == all,
                forall|m: int| 0 <= m < i ==> g.index.views().contains((#[trigger] all[m]).name@),
                forall|name: Seq<char>| #[trigger] g.index.views().contains(name) ==> is_node(all, name),
                forall|x: Seq<char>, y: Seq<char>|
                    #[trigger] has_edge(g.index.views(), graph_edges(g.graph), x, y) ==> may_call(all, x, y),
                forall|m: int, c: int, callee: Seq<char>|
                    #[trigger] calls_at(all, m, c, callee) && before(i as int, 0, m, c) ==> has_edge(
                        g.index.views(),
                        graph_edges(g.graph),
                        all[m].name@,
                        callee,
                    ),
                forall|m: int, c: int|
                    #[trigger] is_site(all, m, c) && before(i as int, 0, m, c) ==> call_supported(site(all, m, c)),
            decreases functions.len() - i,
        {
            let f: &'m Function = functions[i];
            assert(all[i as int] == *f);
            let ghost shorter = g.index.views();
            let src = g.index.intern(&f.name);
            add_node(&mut g.graph, src);
            let ghost caller = f.name@;
            proof {
                let names = g.index.views();
                assert forall|name: Seq<char>| shorter.contains(name) implies names.contains(name) by {
                    let m = choose|m: int| 0 <= m < shorter.len() && shorter[m] == name;
                    assert(names[m] == name);
                }
                assert forall|name: Seq<char>| #[trigger] names.contains(name) implies is_node(all, name) by {
                    if !shorter.contains(name) {
                        let m = choose|m: int| 0 <= m < names.len() && names[m] == name;
                        if m < shorter.len() {
                            assert(shorter[m] == name);
                        }
                        assert(name == caller);
                        assert(all[i as int].name@ == name);
                        assert(is_defined(all, name));
                    }
                }
                assert forall|m: int| 0 <= m < i + 1 implies names.contains((#[trigger] all[m]).name@) by {
                    if m < i {
                        assert(shorter.contains(all[m].name@));
                    } else {
                        assert(names[src as int] == all[m].name@);
                    }
                }
                assert forall|x: Seq<char>, y: Seq<char>|
                    has_edge(names, graph_edges(g.graph), x, y) implies has_edge(
                    shorter,
                    graph_edges(g.graph),
                    x,
                    y,
                ) by {
                    let (a, b) = choose|a: usize, b: usize|
                        #[trigger] graph_edges(g.graph).contains((a, b)) && a < names.len() && b < names.len()
                            && names[a as int] == x && names[b as int] == y;
                    assert(a < shorter.len() && b < shorter.len());
                }
                assert forall|x: Seq<char>, y: Seq<char>|
                    has_edge(shorter, graph_edges(g.graph), x, y) implies has_edge(
                    names,
                    graph_edges(g.graph),
                    x,
                    y,
                ) by {
                    let (a, b) = choose|a: usize, b: usize|
                        #[trigger] graph_edges(g.graph).contains((a, b)) && a < shorter.len() && b < shorter.len()
                            && shorter[a as int] == x && shorter[b as int] == y;
                    assert(names[a as int] == x && names[b as int] == y);
                }
            }
            let sites = collect_call_sites(f);
            let mut c: usize = 0;
            while c < sites.len()
                invariant
                    c <= sites.len(),
                    i < functions.len(),
                    all == program(functions@),
                    all[i as int] == *f,
                    caller == f.name@,
                    callee_views(sites@) == call_sites(*f),
                    functions_by_type.well_formed(),
                    functions_by_type.functions() == all,
                    g.partly_formed(),
                    g.source@ == all,
                    src < g.index.views().len(),
                    g.index.views()[src as int] == caller,
                    forall|m: int| 0 <= m < i + 1 ==> g.index.views().contains((#[trigger] all[m]).name@),
                    forall|name: Seq<char>| #[trigger] g.index.views().contains(name) ==> is_node(all, name),
                    forall|x: Seq<char>, y: Seq<char>|
                        #[trigger] has_edge(g.index.views(), graph_edges(g.graph), x, y) ==> may_call(all, x, y),
                    forall|m: int, k: int, callee: Seq<char>|
                        #[trigger] calls_at(all, m, k, callee) && before(i as int, c as int, m, k) ==> has_edge(
                            g.index.views(),
                            graph_edges(g.graph),
                            all[m].name@,
                            callee,
                        ),
                    forall|m: int, k: int|
                        #[trigger] is_site(all, m, k) && before(i as int, c as int, m, k) ==> call_supported(
                            site(all, m, k),
                        ),
                decreases sites.len() - c,
            {
                let callee: &'m Callee = sites[c];
                proof {
                    assert(callee_views(sites@)[c as int] == *callee);
                    assert(is_site(all, i as int, c as int));
                    assert(site(all, i as int, c as int) == *callee);
                }
                match callee {
                    Callee::InlineAssembly => {},
                    Callee::Function { name } => {
                        proof {
                            assert(calls_at(all, i as int, c as int, name@));
                            assert(may_call(all, caller, name@));
                            assert(is_called(all, name@));
                        }
                        g.connect(src, name);
                    },
                    Callee::NumberedGlobal { number: _ } => {
                        return Err(AnalysisError::UnsupportedIRFeature);
                    },
                    Callee::Pointer { ty } => {
                        match ty {
                            OperandType::Pointer { pointee } => {
                                let targets = functions_by_type.lookup(pointee);
                                let ghost reached = owned_views(targets@);
                                let mut t: usize = 0;
                                while t < targets.len()
                                    invariant
                                        t <= targets.len(),
                                        i < functions.len(),
                                        c < sites.len(),
                                        all == program(functions@),
                                        all[i as int] == *f,
                                        caller == f.name@,
                                        is_site(all, i as int, c as int),
                                        site(all, i as int, c as int) == *callee,
                                        *callee == (Callee::Pointer { ty: OperandType::Pointer { pointee: *pointee } }),
                                        reached == owned_views(targets@),
                                        forall|name: Seq<char>|
                                            reached.contains(name) <==> names_with_type(all, *pointee).contains(name),
                                        g.partly_formed(),
                                        g.source@ == all,
                                        src < g.index.views().len(),
                                        g.index.views()[src as int] == caller,
                                        forall|m: int|
                                            0 <= m < i + 1 ==> g.index.views().contains((#[trigger] all[m]).name@),
                                        forall|name: Seq<char>|
                                            #[trigger] g.index.views().contains(name) ==> is_node(all, name),
                                        forall|x: Seq<char>, y: Seq<char>|
                                            #[trigger] has_edge(g.index.views(), graph_edges(g.graph), x, y)
                                                ==> may_call(all, x, y),
                                        forall|m: int, k: int, callee: Seq<char>|
                                            #[trigger] calls_at(all, m, k, callee) && before(i as int, c as int, m, k)
                                                ==> has_edge(
                                                g.index.views(),
                                                graph_edges(g.graph),
                                                all[m].name@,
                                                callee,
                                            ),
                                        forall|j: int|
                                            0 <= j < t ==> has_edge(
                                                g.index.views(),
                                                graph_edges(g.graph),
                                                caller,
                                                #[trigger] reached[j],
                                            ),
                                    decreases targets.len() - t,
                                {
                                    let target: &'m String = targets[t];
                                    proof {
                                        assert(reached[t as int] == target@);
                                        assert(reached.contains(target@));
                                        assert(calls_at(all, i as int, c as int, target@));
                                        assert(may_call(all, caller, target@));
                                        assert(is_called(all, target@));
                                    }
                                    g.connect(src, target);
                                    t += 1;
                                }
                                proof {
                                    assert forall|name: Seq<char>|
                                        calls_at(all, i as int, c as int, name) implies has_edge(
                                        g.index.views(),
                                        graph_edges(g.graph),
                                        caller,
                                        name,
                                    ) by {
                                        assert(reached.contains(name));
                                        let j = choose|j: int| 0 <= j < reached.len() && reached[j] == name;
                                        assert(has_edge(g.index.views(), graph_edges(g.graph), caller, reached[j]));
                                    }
                                }
                            },
                            OperandType::Other => {
                                return Err(AnalysisError::UnsupportedIRFeature);
                            },
                        }
                    },
                }
                proof {
                    assert forall|m: int, k: int, name: Seq<char>|
                        #[trigger] calls_at(all, m, k, name) && before(i as int, c + 1, m, k) implies has_edge(
                        g.index.views(),
                        graph_edges(g.graph),
                        all[m].name@,
                        name,
                    ) by {
                        if !before(i as int, c as int, m, k) {
                            assert(m == i && k == c);
                        }
                    }
                    assert forall|m: int, k: int| #[trigger]
                        is_site(all, m, k) && before(i as int, c + 1, m, k) implies call_supported(site(all, m, k)) by {
                        if !before(i as int, c as int, m, k) {
                            assert(m == i && k == c);
                        }
                    }
                }
                c += 1;
            }
            proof {
                assert forall|m: int, k: int, name: Seq<char>|
                    #[trigger] calls_at(all, m, k, name) && before(i + 1, 0, m, k) implies has_edge(
                    g.index.views(),
                    graph_edges(g.graph),
                    all[m].name@,
                    name,
                ) by {
                    assert(before(i as int, sites.len() as int, m, k));
                }
                assert forall|m: int, k: int| #[trigger] is_site(all, m, k) && before(i + 1, 0, m, k) implies call_supported(
                    site(all, m, k),
                ) by {
                    assert(before(i as int, sites.len() as int, m, k));
                }
            }
            i += 1;
        }
        proof {
            let names = g.index.views();
            let edges = graph_edges(g.graph);
            assert forall|m: int, k: int| #[trigger] is_site(all, m, k) implies call_supported(site(all, m, k)) by {
                assert(before(functions.len() as int, 0, m, k));
            }
            assert forall|x: Seq<char>, y: Seq<char>| may_call(all, x, y) implies has_edge(names, edges, x, y) by {
                let (m, k) = choose|m: int, k: int| #[trigger] calls_at(all, m, k, y) && all[m].name@ == x;
                assert(before(functions.len() as int, 0, m, k));
            }
            assert forall|name: Seq<char>| is_node(all, name) implies names.contains(name) by {
                if is_defined(all, name) {
                    let m = choose|m: int| 0 <= m < all.len() && (#[trigger] all[m]).name@ == name;
                    assert(names.contains(all[m].name@));
                } else {
                    let caller = choose|caller: Seq<char>| may_call(all, caller, name);
                    assert(has_edge(names, edges, caller, name));
                    let (a, b) = choose|a: usize, b: usize|
                        #[trigger] edges.contains((a, b)) && a < names.len() && b < names.len() && names[a as int]
                            == caller && names[b as int] == name;
                    assert(names[b as int] == name);
                }
            }
        }
        Ok(g)
    }
}

impl<'m> CallGraph<'m> {
    /// The names of the functions one step from the function called
    /// `func_name` in the direction `dir`, each of them once.
    fn neighbors(&self, func_name: &str, dir: Direction) -> (r: Result<Vec<&'m str>, AnalysisError>)
        requires
            self.well_formed(),
        ensures
            match r {
                Ok(v) => is_node(self.functions(), func_name@) && string_views(v@).no_duplicates() && forall|
                    n: Seq<char>,
                |
                    string_views(v@).contains(n) <==> match dir {
                        Direction::Outgoing => may_call(self.functions(), func_name@, n),
                        Direction::Incoming => may_call(self.functions(), n, func_name@),
                    },
                Err(e) => e == AnalysisError::UnknownFunction && !is_node(self.functions(), func_name@),
            },
    {
        let key = func_name.to_owned();
        let ghost names = self.index.views();
        let ghost edges = graph_edges(self.graph);
        proof {
            self.index.lemma_distinct();
        }
        match self.index.find(&key) {
            Some(id) => {
                let ids = neighbors_directed(&self.graph, id, dir);
                proof {
                    assert(names.contains(func_name@));
                    assert forall|i: int| 0 <= i < ids.len() implies (#[trigger] ids@[i]) < names.len() by {
                        assert(ids@.contains(ids@[i]));
                        assert(step(edges, dir, id, ids@[i]));
                        assert(edges.contains((id, ids@[i])) || edges.contains((ids@[i], id)));
                    }
                }
                let v = self.index.names(&ids);
                proof {
                    let views = string_views(v@);
                    assert forall|n: Seq<char>|
                        views.contains(n) <==> match dir {
                            Direction::Outgoing => may_call(self.functions(), func_name@, n),
                            Direction::Incoming => may_call(self.functions(), n, func_name@),
                        } by {
                        let (x, y) = match dir {
                            Direction::Outgoing => (func_name@, n),
                            Direction::Incoming => (n, func_name@),
                        };
                        if views.contains(n) {
                            let i = choose|i: int| 0 <= i < views.len() && views[i] == n;
                            assert(v@[i]@ == names[ids@[i] as int]);
                            assert(ids@.contains(ids@[i]));
                            assert(step(edges, dir, id, ids@[i]));
                            assert(has_edge(names, edges, x, y));
                        }
                        if has_edge(names, edges, x, y) {
                            let (a, b) = choose|a: usize, b: usize|
                                #[trigger] edges.contains((a, b)) && a < names.len() && b < names.len() && names[a as int]
                                    == x && names[b as int] == y;
                            let m = match dir {
                                Direction::Outgoing => b,
                                Direction::Incoming => a,
                            };
                            assert(step(edges, dir, id, m));
                            assert(ids@.contains(m));
                            let i = choose|i: int| 0 <= i < ids@.len() && ids@[i] == m;
                            assert(v@[i]@ == names[ids@[i] as int]);
                            assert(views[i] == n);
                        }
                    }
                }
                Ok(v)
            },
            None => {
                proof {
                    assert(!names.contains(func_name@));
                }
                Err(AnalysisError::UnknownFunction)
            },
        }
    }

    /// The functions that may call the function called `func_name`, each of
    /// them once; `UnknownFunction` if the graph has no node of that name.
    /// A call through a pointer counts as a call of every function of the
    /// type pointed to.
    pub fn callers(&self, func_name: &str) -> (r: Result<Vec<&'m str>, AnalysisError>)
        requires
            self.well_formed(),
        ensures
            match r {
                Ok(v) => is_node(self.functions(), func_name@) && string_views(v@).no_duplicates() && forall|
                    n: Seq<char>,
                | string_views(v@).contains(n) <==> may_call(self.functions(), n, func_name@),
                Err(e) => e == AnalysisError::UnknownFunction && !is_node(self.functions(), func_name@),
            },
    {
        self.neighbors(func_name, Direction::Incoming)
    }

    /// The functions that the function called `func_name` may call, each of
    /// them once; `UnknownFunction` if the graph has no node of that name.
    /// A call through a pointer counts as a call of every function of the
    /// type pointed to.
    pub fn callees(&self, func_name: &str) -> (r: Result<Vec<&'m str>, AnalysisError>)
        requires
            self.well_formed(),
        ensures
            match r {
                Ok(v) => is_node(self.functions(), func_name@) && string_views(v@).no_duplicates() && forall|
                    n: Seq<char>,
                | string_views(v@).contains(n) <==> may_call(self.functions(), func_name@, n),
                Err(e) => e == AnalysisError::UnknownFunction && !is_node(self.functions(), func_name@),
            },
    {
        self.neighbors(func_name, Direction::Outgoing)
    }
}

} // verus!
