//! The analyses of a fixed set of modules, each made when it is first asked
//! for and kept from then on.
//!
//! A query hands out a shared handle to the analysis that is kept.  A handle
//! stays good while further queries are made: nothing that is kept is ever
//! replaced or dropped before the `Analysis` is.

use vstd::prelude::*;
use std::rc::Rc;
use crate::cache::{share, MappingCache, SimpleCache};
use crate::call_graph::{program_supported, CallGraph};
use crate::control_dep_graph::ControlDependenceGraph;
use crate::control_flow_graph::{function_edges, supported, CfgView, ControlFlowGraph};
use crate::dominator_tree::{DominatorTree, PostDominatorTree};
use crate::functions_by_type::{program, FunctionsByType};
use crate::ir::{AnalysisError, Function, Module};

verus! {

broadcast use vstd::std_specs::hash::group_hash_axioms;

/// The control flow graph of a function, as a mathematical value.
pub open spec fn cfg_of(f: Function) -> CfgView {
    CfgView { entry: f.basic_blocks[0].name@, edges: function_edges(f) }
}

/// Whether function `i` is the first function called `name`.
pub open spec fn first_named(functions: Seq<Function>, i: int, name: Seq<char>) -> bool {
    &&& 0 <= i < functions.len()
    &&& functions[i].name@ == name
    &&& forall|j: int| 0 <= j < i ==> (#[trigger] functions[j]).name@ != name
}

/// Whether no function is called `name`.
pub open spec fn unnamed(functions: Seq<Function>, name: Seq<char>) -> bool {
    forall|j: int| 0 <= j < functions.len() ==> (#[trigger] functions[j]).name@ != name
}

/// The functions of a sequence of modules, in order.
pub open spec fn all_functions(modules: Seq<Module>) -> Seq<Function>
    decreases modules.len(),
{
    if modules.len() == 0 {
        Seq::empty()
    } else {
        all_functions(modules.drop_last()) + modules.last().functions@
    }
}

/// Computes, and keeps, the analyses of the functions of one module or of
/// several.
pub struct Analysis<'m> {
    /// The functions of the analysed modules.
    functions: Vec<&'m Function>,
    /// The call graph.
    call_graph: SimpleCache<Rc<CallGraph<'m>>>,
    /// The functions by their type.
    functions_by_type: SimpleCache<Rc<FunctionsByType<'m>>>,
    /// By the number of a function, its control flow graph.
    control_flow_graphs: MappingCache<usize, Rc<ControlFlowGraph<'m>>>,
    /// By the number of a function, its dominator tree.
    dominator_trees: MappingCache<usize, Rc<DominatorTree<'m>>>,
    /// By the number of a function, its post-dominator tree.
    postdominator_trees: MappingCache<usize, Rc<PostDominatorTree<'m>>>,
    /// By the number of a function, its control dependence graph.
    control_dep_graphs: MappingCache<usize, Rc<ControlDependenceGraph<'m>>>,
}

impl<'m> Analysis<'m> {
    /// The functions of the analysed modules, in order.
    pub closed spec fn functions(&self) -> Seq<Function> {
        program(self.functions@)
    }

    /// What holds of every set of analyses: whatever is kept is the analysis
    /// of the function, or of the program, that it is kept for.
    pub closed spec fn well_formed(&self) -> bool {
        &&& match self.functions_by_type@ {
            Some(index) => index.well_formed() && index.functions() == self.functions(),
            None => true,
        }
        &&& match self.call_graph@ {
            Some(graph) => program_supported(self.functions()) && graph.well_formed() && graph.functions()
                == self.functions(),
            None => true,
        }
        &&& forall|k: usize| #[trigger]
            self.control_flow_graphs@.contains_key(k) ==> k < self.functions@.len() && supported(self.functions()[k as int])
                && self.control_flow_graphs@[k].well_formed() && self.control_flow_graphs@[k]@ == cfg_of(
                self.functions()[k as int],
            )
        &&& forall|k: usize| #[trigger]
            self.dominator_trees@.contains_key(k) ==> k < self.functions@.len() && supported(self.functions()[k as int])
                && self.dominator_trees@[k].well_formed() && self.dominator_trees@[k].cfg() == cfg_of(
                self.functions()[k as int],
            )
        &&& forall|k: usize| #[trigger]
            self.postdominator_trees@.contains_key(k) ==> k < self.functions@.len() && supported(
                self.functions()[k as int],
            ) && self.postdominator_trees@[k].well_formed() && self.postdominator_trees@[k].cfg() == cfg_of(
                self.functions()[k as int],
            )
        &&& forall|k: usize| #[trigger]
            self.control_dep_graphs@.contains_key(k) ==> k < self.functions@.len() && supported(
                self.functions()[k as int],
            ) && self.control_dep_graphs@[k].well_formed() && self.control_dep_graphs@[k].cfg() == cfg_of(
                self.functions()[k as int],
            )
    }

    /// The analyses of `functions`, none of them made yet.
    fn over(functions: Vec<&'m Function>) -> (r: Self)
        ensures
            r.well_formed(),
            r.functions() == program(functions@),
    {
        Analysis {
            functions,
            call_graph: SimpleCache::new(),
            functions_by_type: SimpleCache::new(),
            control_flow_graphs: MappingCache::new(),
            dominator_trees: MappingCache::new(),
            postdominator_trees: MappingCache::new(),
            control_dep_graphs: MappingCache::new(),
        }
    }

    /// The analyses of one module.  This is cheap: each analysis is made
    /// when it is first asked for.
    pub fn new(module: &'m Module) -> (r: Self)
        ensures
            r.well_formed(),
            r.functions() == module.functions@,
    {
        let mut functions: Vec<&'m Function> = Vec::new();
        let mut i: usize = 0;
        while i < module.functions.len()
            invariant
                i <= module.functions.len(),
                program(functions@) == module.functions@.subrange(0, i as int),
            decreases module.functions.len() - i,
        {
            let ghost before = program(functions@);
            functions.push(&module.functions[i]);
            proof {
                assert(program(functions@) =~= before.push(module.functions@[i as int]));
                assert(before.push(module.functions@[i as int]) =~= module.functions@.subrange(0, i + 1));
            }
            i += 1;
        }
        proof {
            assert(module.functions@.subrange(0, module.functions.len() as int) =~= module.functions@);
        }
        Self::over(functions)
    }

    /// The analyses of several modules together: the call graph and the
    /// functions by type span all of them.  No two functions of the modules
    /// may have one name.
    pub fn new_cross_module(modules: &'m Vec<Module>) -> (r: Self)
        ensures
            r.well_formed(),
            r.functions() == all_functions(modules@),
    {
        let mut functions: Vec<&'m Function> = Vec::new();
        let mut m: usize = 0;
        proof {
            assert(program(functions@) =~= all_functions(modules@.subrange(0, 0)));
        }
        while m < modules.len()
            invariant
                m <= modules.len(),
                program(functions@) == all_functions(modules@.subrange(0, m as int)),
            decreases modules.len() - m,
        {
            let module = &modules[m];
            let ghost start = program(functions@);
            let mut i: usize = 0;
            while i < module.functions.len()
                invariant
                    i <= module.functions.len(),
                    program(functions@) == start + module.functions@.subrange(0, i as int),
                decreases module.functions.len() - i,
            {
                let ghost before = program(functions@);
                functions.push(&module.functions[i]);
                proof {
                    assert(program(functions@) =~= before.push(module.functions@[i as int]));
                    assert(before.push(module.functions@[i as int]) =~= start + module.functions@.subrange(0, i + 1));
                }
                i += 1;
            }
            proof {
                assert(module.functions@.subrange(0, module.functions.len() as int) =~= module.functions@);
                let longer = modules@.subrange(0, m + 1);
                assert(longer.drop_last() =~= modules@.subrange(0, m as int));
                assert(longer.last() == modules@[m as int]);
            }
            m += 1;
        }
        proof {
            assert(modules@.subrange(0, modules.len() as int) =~= modules@);
        }
        Self::over(functions)
    }

    /// The number of the first function called `func_name`.
    fn find_function(&self, func_name: &str) -> (r: Option<usize>)
        ensures
            match r {
                Some(k) => first_named(self.functions(), k as int, func_name@),
                None => unnamed(self.functions(), func_name@),
            },
    {
        let key = func_name.to_owned();
        let mut i: usize = 0;
        while i < self.functions.len()
            invariant
                i <= self.functions.len(),
                key@ == func_name@,
                forall|j: int| 0 <= j < i ==> (#[trigger] self.functions()[j]).name@ != func_name@,
            decreases self.functions.len() - i,
        {
            if self.functions[i].name == key {
                assert(self.functions()[i as int].name@ == func_name@);
                return Some(i);
            }
            assert(self.functions()[i as int].name@ != func_name@);
            i += 1;
        }
        None
    }

    /// Makes the index of the functions by their type, unless it is kept
    /// already.
    fn fill_functions_by_type(&mut self)
        requires
            old(self).well_formed(),
        ensures
            final(self).well_formed(),
            final(self).functions@ == old(self).functions@,
            final(self).functions_by_type@ is Some,
            final(self).call_graph@ == old(self).call_graph@,
    {
        let functions = &self.functions;
        let make = || -> (index: Rc<FunctionsByType<'m>>)
            ensures
                index.well_formed(),
                index.functions() == program(functions@),
            {
                Rc::new(FunctionsByType::new(functions))
            };
        self.functions_by_type.get_or_insert_with(make);
    }

    /// The functions of the analysed modules by their type.
    pub fn functions_by_type(&mut self) -> (r: Rc<FunctionsByType<'m>>)
        requires
            old(self).well_formed(),
        ensures
            final(self).well_formed(),
            final(self).functions() == old(self).functions(),
            r.well_formed(),
            r.functions() == old(self).functions(),
    {
        self.fill_functions_by_type();
        share(self.functions_by_type.get().unwrap())
    }

    /// The call graph of the analysed modules, or `UnsupportedIRFeature` if
    /// they hold a call that the call graph does not handle.
    pub fn call_graph(&mut self) -> (r: Result<Rc<CallGraph<'m>>, AnalysisError>)
        requires
            old(self).well_formed(),
        ensures
            final(self).well_formed(),
            final(self).functions() == old(self).functions(),
            match r {
                Ok(graph) => program_supported(old(self).functions()) && graph.well_formed() && graph.functions()
                    == old(self).functions(),
                Err(e) => e == AnalysisError::UnsupportedIRFeature && !program_supported(old(self).functions()),
            },
    {
        if self.call_graph.get().is_none() {
            self.fill_functions_by_type();
            let index = self.functions_by_type.get().unwrap();
            match CallGraph::new(&self.functions, index) {
                Ok(graph) => {
                    let keep = move || -> (r: Rc<CallGraph<'m>>)
                        ensures
                            *r == graph,
                        {
                            Rc::new(graph)
                        };
                    Ok(share(self.call_graph.get_or_insert_with(keep)))
                },
                Err(e) => Err(e),
            }
        } else {
            Ok(share(self.call_graph.get().unwrap()))
        }
    }
}

impl<'m> Analysis<'m> {
    /// Makes the control flow graph of function `k`, unless it is kept
    /// already.
    fn fill_control_flow_graph(&mut self, k: usize) -> (r: Result<(), AnalysisError>)
        requires
            old(self).well_formed(),
            k < old(self).functions@.len(),
        ensures
            final(self).well_formed(),
            final(self).functions@ == old(self).functions@,
            final(self).dominator_trees@ == old(self).dominator_trees@,
            final(self).postdominator_trees@ == old(self).postdominator_trees@,
            final(self).control_dep_graphs@ == old(self).control_dep_graphs@,
            match r {
                Ok(_) => final(self).control_flow_graphs@.contains_key(k),
                Err(e) => e == AnalysisError::UnsupportedIRFeature && !supported(old(self).functions()[k as int]),
            },
    {
        if self.control_flow_graphs.contains_key(&k) {
            return Ok(());
        }
        let function: &'m Function = self.functions[k];
        assert(self.functions()[k as int] == *function);
        match ControlFlowGraph::new(function) {
            Ok(cfg) => {
                let keep = move || -> (r: Rc<ControlFlowGraph<'m>>)
                    ensures
                        *r == cfg,
                    {
                        Rc::new(cfg)
                    };
                self.control_flow_graphs.get_or_insert_with(&k, keep);
                Ok(())
            },
            Err(e) => Err(e),
        }
    }

    /// Makes the dominator tree of function `k`, unless it is kept already.
    fn fill_dominator_tree(&mut self, k: usize) -> (r: Result<(), AnalysisError>)
        requires
            old(self).well_formed(),
            k < old(self).functions@.len(),
        ensures
            final(self).well_formed(),
            final(self).functions@ == old(self).functions@,
            match r {
                Ok(_) => final(self).dominator_trees@.contains_key(k),
                Err(e) => e == AnalysisError::UnsupportedIRFeature && !supported(old(self).functions()[k as int]),
            },
    {
        if self.dominator_trees.contains_key(&k) {
            return Ok(());
        }
        match self.fill_control_flow_graph(k) {
            Ok(_) => {},
            Err(e) => {
                return Err(e);
            },
        }
        let cfg = self.control_flow_graphs.get(&k).unwrap();
        let tree = DominatorTree::new(cfg);
        let keep = move || -> (r: Rc<DominatorTree<'m>>)
            ensures
                *r == tree,
            {
                Rc::new(tree)
            };
        self.dominator_trees.get_or_insert_with(&k, keep);
        Ok(())
    }

    /// Makes the post-dominator tree of function `k`, unless it is kept
    /// already.
    fn fill_postdominator_tree(&mut self, k: usize) -> (r: Result<(), AnalysisError>)
        requires
            old(self).well_formed(),
            k < old(self).functions@.len(),
        ensures
            final(self).well_formed(),
            final(self).functions@ == old(self).functions@,
            final(self).control_dep_graphs@ == old(self).control_dep_graphs@,
            match r {
                Ok(_) => final(self).postdominator_trees@.contains_key(k)
                    && final(self).control_flow_graphs@.contains_key(k),
                Err(e) => e == AnalysisError::UnsupportedIRFeature && !supported(old(self).functions()[k as int]),
            },
    {
        match self.fill_control_flow_graph(k) {
            Ok(_) => {},
            Err(e) => {
                return Err(e);
            },
        }
        if self.postdominator_trees.contains_key(&k) {
            return Ok(());
        }
        let cfg = self.control_flow_graphs.get(&k).unwrap();
        let tree = PostDominatorTree::new(cfg);
        let keep = move || -> (r: Rc<PostDominatorTree<'m>>)
            ensures
                *r == tree,
            {
                Rc::new(tree)
            };
        self.postdominator_trees.get_or_insert_with(&k, keep);
        Ok(())
    }

    /// Makes the control dependence graph of function `k`, unless it is
    /// kept already.
    fn fill_control_dependence_graph(&mut self, k: usize) -> (r: Result<(), AnalysisError>)
        requires
            old(self).well_formed(),
            k < old(self).functions@.len(),
        ensures
            final(self).well_formed(),
            final(self).functions@ == old(self).functions@,
            match r {
                Ok(_) => final(self).control_dep_graphs@.contains_key(k),
                Err(e) => e == AnalysisError::UnsupportedIRFeature && !supported(old(self).functions()[k as int]),
            },
    {
        if self.control_dep_graphs.contains_key(&k) {
            return Ok(());
        }
        match self.fill_postdominator_tree(k) {
            Ok(_) => {},
            Err(e) => {
                return Err(e);
            },
        }
        let cfg = self.control_flow_graphs.get(&k).unwrap();
        let tree = self.postdominator_trees.get(&k).unwrap();
        let graph = ControlDependenceGraph::new(cfg, tree);
        let keep = move || -> (r: Rc<ControlDependenceGraph<'m>>)
            ensures
                *r == graph,
            {
                Rc::new(graph)
            };
        self.control_dep_graphs.get_or_insert_with(&k, keep);
        Ok(())
    }

    /// The control flow graph of the function called `func_name`;
    /// `UnknownFunction` if no function has that name, and
    /// `UnsupportedIRFeature` if the function has no block or a `callbr`
    /// terminator.
    pub fn control_flow_graph(&mut self, func_name: &str) -> (r: Result<Rc<ControlFlowGraph<'m>>, AnalysisError>)
        requires
            old(self).well_formed(),
        ensures
            final(self).well_formed(),
            final(self).functions() == old(self).functions(),
            match r {
                Ok(cfg) => exists|k: int|
                    first_named(old(self).functions(), k, func_name@) && supported(old(self).functions()[k])
                        && cfg.well_formed() && cfg@ == cfg_of(old(self).functions()[k]),
                Err(AnalysisError::UnknownFunction) => unnamed(old(self).functions(), func_name@),
                Err(AnalysisError::UnsupportedIRFeature) => exists|k: int|
                    first_named(old(self).functions(), k, func_name@) && !supported(old(self).functions()[k]),
            },
    {
        match self.find_function(func_name) {
            Some(k) => match self.fill_control_flow_graph(k) {
                Ok(_) => Ok(share(self.control_flow_graphs.get(&k).unwrap())),
                Err(e) => Err(e),
            },
            None => Err(AnalysisError::UnknownFunction),
        }
    }

    /// The dominator tree of the function called `func_name`;
    /// `UnknownFunction` if no function has that name, and
    /// `UnsupportedIRFeature` if the function has no block or a `callbr`
    /// terminator.
    pub fn dominator_tree(&mut self, func_name: &str) -> (r: Result<Rc<DominatorTree<'m>>, AnalysisError>)
        requires
            old(self).well_formed(),
        ensures
            final(self).well_formed(),
            final(self).functions() == old(self).functions(),
            match r {
                Ok(tree) => exists|k: int|
                    first_named(old(self).functions(), k, func_name@) && supported(old(self).functions()[k])
                        && tree.well_formed() && tree.cfg() == cfg_of(old(self).functions()[k]),
                Err(AnalysisError::UnknownFunction) => unnamed(old(self).functions(), func_name@),
                Err(AnalysisError::UnsupportedIRFeature) => exists|k: int|
                    first_named(old(self).functions(), k, func_name@) && !supported(old(self).functions()[k]),
            },
    {
        match self.find_function(func_name) {
            Some(k) => match self.fill_dominator_tree(k) {
                Ok(_) => Ok(share(self.dominator_trees.get(&k).unwrap())),
                Err(e) => Err(e),
            },
            None => Err(AnalysisError::UnknownFunction),
        }
    }

    /// The post-dominator tree of the function called `func_name`;
    /// `UnknownFunction` if no function has that name, and
    /// `UnsupportedIRFeature` if the function has no block or a `callbr`
    /// terminator.
    pub fn postdominator_tree(&mut self, func_name: &str) -> (r: Result<Rc<PostDominatorTree<'m>>, AnalysisError>)
        requires
            old(self).well_formed(),
        ensures
            final(self).well_formed(),
            final(self).functions() == old(self).functions(),
            match r {
                Ok(tree) => exists|k: int|
                    first_named(old(self).functions(), k, func_name@) && supported(old(self).functions()[k])
                        && tree.well_formed() && tree.cfg() == cfg_of(old(self).functions()[k]),
                Err(AnalysisError::UnknownFunction) => unnamed(old(self).functions(), func_name@),
                Err(AnalysisError::UnsupportedIRFeature) => exists|k: int|
                    first_named(old(self).functions(), k, func_name@) && !supported(old(self).functions()[k]),
            },
    {
        match self.find_function(func_name) {
            Some(k) => match self.fill_postdominator_tree(k) {
                Ok(_) => Ok(share(self.postdominator_trees.get(&k).unwrap())),
                Err(e) => Err(e),
            },
            None => Err(AnalysisError::UnknownFunction),
        }
    }

    /// The control dependence graph of the function called `func_name`;
    /// `UnknownFunction` if no function has that name, and
    /// `UnsupportedIRFeature` if the function has no block or a `callbr`
    /// terminator.
    pub fn control_dependence_graph(&mut self, func_name: &str) -> (r: Result<
        Rc<ControlDependenceGraph<'m>>,
        AnalysisError,
    >)
        requires
            old(self).well_formed(),
        ensures
            final(self).well_formed(),
            final(self).functions() == old(self).functions(),
            match r {
                Ok(graph) => exists|k: int|
                    first_named(old(self).functions(), k, func_name@) && supported(old(self).functions()[k])
                        && graph.well_formed() && graph.cfg() == cfg_of(old(self).functions()[k]),
                Err(AnalysisError::UnknownFunction) => unnamed(old(self).functions(), func_name@),
                Err(AnalysisError::UnsupportedIRFeature) => exists|k: int|
                    first_named(old(self).functions(), k, func_name@) && !supported(old(self).functions()[k]),
            },
    {
        match self.find_function(func_name) {
            Some(k) => match self.fill_control_dependence_graph(k) {
                Ok(_) => Ok(share(self.control_dep_graphs.get(&k).unwrap())),
                Err(e) => Err(e),
            },
            None => Err(AnalysisError::UnknownFunction),
        }
    }
}

} // verus!
