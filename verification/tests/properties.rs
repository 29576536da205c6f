use llvm_ir_analysis::{
    Analysis, AnalysisError, BasicBlock, CFGNode, Callee, ControlDependenceGraph, ControlFlowGraph,
    DominatorTree, Function, MappingCache, Module, Name, OperandType, PostDominatorTree, SimpleCache,
    Terminator, TypeRef,
};

fn name(n: usize) -> Name {
    Name::Number(n)
}

fn block(n: usize, term: Terminator) -> BasicBlock {
    BasicBlock { name: name(n), calls: vec![], term }
}

fn calling(n: usize, calls: Vec<Callee>, term: Terminator) -> BasicBlock {
    BasicBlock { name: name(n), calls, term }
}

fn br(dest: usize) -> Terminator {
    Terminator::Br { dest: name(dest) }
}

fn condbr(true_dest: usize, false_dest: usize) -> Terminator {
    Terminator::CondBr { true_dest: name(true_dest), false_dest: name(false_dest) }
}

fn function(name: &str, basic_blocks: Vec<BasicBlock>) -> Function {
    Function { name: name.to_string(), ty: TypeRef { id: 0 }, basic_blocks }
}

fn typed(name: &str, ty: u64, basic_blocks: Vec<BasicBlock>) -> Function {
    Function { name: name.to_string(), ty: TypeRef { id: ty }, basic_blocks }
}

fn direct(name: &str) -> Callee {
    Callee::Function { name: name.to_string() }
}

fn sorted<T: Ord>(mut v: Vec<T>) -> Vec<T> {
    v.sort();
    v
}

/// All walks without a repeated block from `from` to blocks of `f`, as the
/// set of blocks that every walk to each block passes through.
fn dominators_by_walks(f: &Function, entry: usize) -> Vec<(usize, Vec<usize>)> {
    fn succs(f: &Function, b: usize) -> Vec<usize> {
        let bb = f.basic_blocks.iter().find(|bb| bb.name == Name::Number(b)).unwrap();
        let names: Vec<&Name> = match &bb.term {
            Terminator::Br { dest } => vec![dest],
            Terminator::CondBr { true_dest, false_dest } => vec![true_dest, false_dest],
            Terminator::Switch { default_dest, dests } => {
                let mut v = vec![default_dest];
                v.extend(dests.iter());
                v
            },
            _ => vec![],
        };
        names
            .into_iter()
            .map(|n| match n {
                Name::Number(n) => *n,
                Name::Name(_) => unreachable!(),
            })
            .collect()
    }
    fn walk(f: &Function, path: &mut Vec<usize>, found: &mut Vec<(usize, Vec<usize>)>) {
        let last = *path.last().unwrap();
        match found.iter_mut().find(|(b, _)| *b == last) {
            Some((_, common)) => common.retain(|d| path.contains(d)),
            None => found.push((last, path.clone())),
        }
        for s in succs(f, last) {
            if !path.contains(&s) {
                path.push(s);
                walk(f, path, found);
                path.pop();
            }
        }
    }
    let mut found = Vec::new();
    walk(f, &mut vec![entry], &mut found);
    found
}

fn irreducible() -> Function {
    // 1 -> {2, 3}; 2 -> {3, 4}; 3 -> {2, 5}; 4 -> 6; 5 -> {6, 2}; 6 -> return
    function(
        "irreducible",
        vec![
            block(1, condbr(2, 3)),
            block(2, condbr(3, 4)),
            block(3, condbr(2, 5)),
            block(4, br(6)),
            block(5, condbr(6, 2)),
            block(6, Terminator::Ret),
        ],
    )
}

#[test]
fn every_function_has_callers_and_callees() {
    let module = Module {
        functions: vec![
            function("a", vec![calling(0, vec![direct("b")], Terminator::Ret)]),
            function("b", vec![block(0, Terminator::Ret)]),
            function("lonely", vec![block(0, Terminator::Ret)]),
        ],
    };
    let mut analysis = Analysis::new(&module);
    let callgraph = analysis.call_graph().unwrap();
    for f in &module.functions {
        assert!(callgraph.callers(&f.name).is_ok());
        assert!(callgraph.callees(&f.name).is_ok());
    }
    assert_eq!(callgraph.callers("lonely").unwrap().len(), 0);
    assert_eq!(callgraph.callees("lonely").unwrap().len(), 0);
    assert_eq!(callgraph.callees("a").unwrap(), vec!["b"]);
    assert_eq!(callgraph.callers("b").unwrap(), vec!["a"]);
}

#[test]
fn unknown_function_in_call_graph() {
    let module = Module { functions: vec![function("a", vec![block(0, Terminator::Ret)])] };
    let mut analysis = Analysis::new(&module);
    let callgraph = analysis.call_graph().unwrap();
    assert_eq!(callgraph.callers("nobody"), Err(AnalysisError::UnknownFunction));
    assert_eq!(callgraph.callees("nobody"), Err(AnalysisError::UnknownFunction));
}

#[test]
fn called_but_undefined_function_is_a_node() {
    let module = Module { functions: vec![function("a", vec![calling(0, vec![direct("puts")], Terminator::Ret)])] };
    let mut analysis = Analysis::new(&module);
    let callgraph = analysis.call_graph().unwrap();
    assert_eq!(callgraph.callers("puts").unwrap(), vec!["a"]);
    assert_eq!(callgraph.callees("puts").unwrap().len(), 0);
}

#[test]
fn idom_strictly_dominates_on_every_walk() {
    let f = irreducible();
    let module = Module { functions: vec![f.clone()] };
    let mut analysis = Analysis::new(&module);
    let domtree = analysis.dominator_tree("irreducible").unwrap();
    let by_walks = dominators_by_walks(&f, 1);
    assert_eq!(by_walks.len(), 6);
    for (b, dominators) in by_walks {
        let idom = domtree.idom(&name(b));
        if b == 1 {
            assert_eq!(idom, None);
            continue;
        }
        let d = match idom.unwrap() {
            Name::Number(d) => *d,
            Name::Name(_) => unreachable!(),
        };
        assert_ne!(d, b);
        assert!(dominators.contains(&d));
        // every other strict dominator of b dominates d
        let of_d = dominators_by_walks(&f, 1).into_iter().find(|(x, _)| *x == d).unwrap().1;
        for other in dominators {
            if other != b {
                assert!(of_d.contains(&other));
            }
        }
    }
    assert_eq!(domtree.idom(&name(2)), Some(&name(1)));
    assert_eq!(domtree.idom(&name(3)), Some(&name(1)));
    assert_eq!(domtree.idom(&name(4)), Some(&name(2)));
    assert_eq!(domtree.idom(&name(5)), Some(&name(3)));
    assert_eq!(domtree.idom(&name(6)), Some(&name(1)));
    assert_eq!(domtree.idom_of_return(), Some(&name(6)));
}

#[test]
fn ipostdom_is_defined_where_return_is_reached() {
    let module = Module { functions: vec![irreducible()] };
    let mut analysis = Analysis::new(&module);
    let postdomtree = analysis.postdominator_tree("irreducible").unwrap();
    for b in 1..=6 {
        assert!(postdomtree.ipostdom(&name(b)).is_some());
    }
    assert_eq!(postdomtree.ipostdom(&name(6)), Some(CFGNode::Return));
    assert_eq!(postdomtree.ipostdom(&name(4)), Some(CFGNode::Block(&name(6))));
    assert_eq!(postdomtree.ipostdom(&name(1)), Some(CFGNode::Block(&name(6))));
    assert_eq!(postdomtree.ipostdom(&name(2)), Some(CFGNode::Block(&name(6))));
    assert_eq!(sorted(postdomtree.children_of_return()), vec![&name(6)]);
}

#[test]
fn dominators_of_the_reverse_graph_are_the_post_dominators() {
    // forward: 2 -> {4, 8}; 4 -> 12; 8 -> {12, 8}; 12 -> return
    let forward = function(
        "forward",
        vec![block(2, condbr(4, 8)), block(4, br(12)), block(8, condbr(12, 8)), block(12, Terminator::Ret)],
    );
    // the same graph with every edge turned round; block 0 stands for the exit
    let backward = function(
        "backward",
        vec![block(0, br(12)), block(12, condbr(4, 8)), block(4, br(2)), block(8, condbr(2, 8)), block(2, Terminator::Ret)],
    );
    let module = Module { functions: vec![forward, backward] };
    let mut analysis = Analysis::new(&module);
    let mut post = Vec::new();
    {
        let postdomtree = analysis.postdominator_tree("forward").unwrap();
        for b in [2, 4, 8, 12] {
            post.push(match postdomtree.ipostdom(&name(b)) {
                Some(CFGNode::Block(Name::Number(n))) => Some(*n),
                Some(CFGNode::Return) => Some(0),
                _ => None,
            });
        }
    }
    let domtree = analysis.dominator_tree("backward").unwrap();
    let mut dom = Vec::new();
    for b in [2, 4, 8, 12] {
        dom.push(match domtree.idom(&name(b)) {
            Some(Name::Number(n)) => Some(*n),
            _ => None,
        });
    }
    assert_eq!(post, dom);
    assert_eq!(post, vec![Some(12), Some(12), Some(12), Some(0)]);
}

#[test]
fn control_dependence_follows_every_edge() {
    let f = irreducible();
    let module = Module { functions: vec![f] };
    let mut analysis = Analysis::new(&module);
    let mut ipostdom = Vec::new();
    {
        let postdomtree = analysis.postdominator_tree("irreducible").unwrap();
        for b in 0..=6 {
            ipostdom.push(match postdomtree.ipostdom(&name(b)) {
                Some(CFGNode::Block(Name::Number(n))) => *n,
                _ => 0,
            });
        }
    }
    let edges = [(1, 2), (1, 3), (2, 3), (2, 4), (3, 2), (3, 5), (4, 6), (5, 6), (5, 2)];
    let cdg = analysis.control_dependence_graph("irreducible").unwrap();
    let mut expected: Vec<(usize, usize)> = Vec::new();
    for (u, v) in edges {
        // from v up the tree, as far as the immediate post-dominator of u
        let mut x = v;
        while x != ipostdom[u] {
            assert!(cdg.get_imm_control_dependencies(&name(x)).contains(&&name(u)));
            assert!(cdg.get_imm_control_dependents(&name(u)).contains(&&name(x)));
            if !expected.contains(&(u, x)) {
                expected.push((u, x));
            }
            x = ipostdom[x];
        }
    }
    let mut total = 0;
    for b in 1..=6 {
        total += cdg.get_imm_control_dependencies(&name(b)).len();
    }
    assert_eq!(total, expected.len());
    assert_eq!(sorted(cdg.get_imm_control_dependencies(&name(2))), vec![&name(1), &name(3), &name(5)]);
    assert_eq!(sorted(cdg.get_imm_control_dependencies(&name(3))), vec![&name(1), &name(2)]);
    assert_eq!(sorted(cdg.get_imm_control_dependencies(&name(4))), vec![&name(2)]);
    assert_eq!(sorted(cdg.get_imm_control_dependencies(&name(5))), vec![&name(3)]);
    assert_eq!(cdg.get_imm_control_dependencies(&name(6)).len(), 0);
    assert_eq!(cdg.get_imm_control_dependencies(&name(1)).len(), 0);
}

#[test]
fn asking_twice_gives_the_same() {
    let module = Module { functions: vec![irreducible()] };
    let mut analysis = Analysis::new(&module);
    let first: Vec<Option<Name>> = {
        let domtree = analysis.dominator_tree("irreducible").unwrap();
        (1..=6).map(|b| domtree.idom(&name(b)).cloned()).collect()
    };
    let second: Vec<Option<Name>> = {
        let domtree = analysis.dominator_tree("irreducible").unwrap();
        (1..=6).map(|b| domtree.idom(&name(b)).cloned()).collect()
    };
    assert_eq!(first, second);
    let mut fresh = Analysis::new(&module);
    let third: Vec<Option<Name>> = {
        let domtree = fresh.dominator_tree("irreducible").unwrap();
        (1..=6).map(|b| domtree.idom(&name(b)).cloned()).collect()
    };
    assert_eq!(first, third);
    let succs_once = sorted(analysis.control_flow_graph("irreducible").unwrap().succs(&name(2)));
    let succs_twice = sorted(analysis.control_flow_graph("irreducible").unwrap().succs(&name(2)));
    assert_eq!(succs_once, succs_twice);
    assert_eq!(succs_once, vec![CFGNode::Block(&name(3)), CFGNode::Block(&name(4))]);
}

#[test]
fn direct_and_indirect_calls_give_edges() {
    let footype = TypeRef { id: 7 };
    let module = Module {
        functions: vec![
            typed("foo", 7, vec![block(0, Terminator::Ret)]),
            typed("bar", 7, vec![block(0, Terminator::Ret)]),
            typed("other", 8, vec![block(0, Terminator::Ret)]),
            typed(
                "caller",
                9,
                vec![calling(
                    0,
                    vec![
                        Callee::Pointer { ty: OperandType::Pointer { pointee: footype } },
                        direct("other"),
                        Callee::InlineAssembly,
                    ],
                    Terminator::Ret,
                )],
            ),
        ],
    };
    let mut analysis = Analysis::new(&module);
    let callgraph = analysis.call_graph().unwrap();
    assert_eq!(sorted(callgraph.callees("caller").unwrap()), vec!["bar", "foo", "other"]);
    assert_eq!(callgraph.callers("foo").unwrap(), vec!["caller"]);
    assert_eq!(callgraph.callers("bar").unwrap(), vec!["caller"]);
    assert_eq!(callgraph.callers("other").unwrap(), vec!["caller"]);
    assert_eq!(callgraph.callers("caller").unwrap().len(), 0);
}

#[test]
fn invoke_is_a_call() {
    let module = Module {
        functions: vec![
            function(
                "thrower",
                vec![
                    block(
                        0,
                        Terminator::Invoke {
                            function: direct("may_throw"),
                            return_label: name(1),
                            exception_label: name(2),
                        },
                    ),
                    block(1, Terminator::Ret),
                    block(2, Terminator::Resume),
                ],
            ),
            function("may_throw", vec![block(0, Terminator::Unreachable)]),
        ],
    };
    let mut analysis = Analysis::new(&module);
    assert_eq!(analysis.call_graph().unwrap().callees("thrower").unwrap(), vec!["may_throw"]);
    let cfg = analysis.control_flow_graph("thrower").unwrap();
    // an invoke passes control to its two labels, not to the exit
    assert_eq!(sorted(cfg.succs(&name(0))), vec![CFGNode::Block(&name(1)), CFGNode::Block(&name(2))]);
    assert_eq!(cfg.succs(&name(1)), vec![CFGNode::Return]);
    assert_eq!(cfg.succs(&name(2)), vec![CFGNode::Return]);
    assert_eq!(sorted(cfg.preds_of_return()), vec![&name(1), &name(2)]);
    assert_eq!(cfg.succs_of_return().len(), 0);
}

#[test]
fn entry_block_boundaries() {
    let module = Module { functions: vec![irreducible(), function("leaf", vec![block(3, Terminator::Ret)])] };
    let mut analysis = Analysis::new(&module);
    {
        let cfg = analysis.control_flow_graph("irreducible").unwrap();
        assert_eq!(cfg.entry(), &name(1));
        assert_eq!(cfg.preds(cfg.entry()).len(), 0);
    }
    assert_eq!(analysis.dominator_tree("irreducible").unwrap().idom(&name(1)), None);
    assert_eq!(analysis.dominator_tree("irreducible").unwrap().entry(), &name(1));
    assert_eq!(analysis.postdominator_tree("leaf").unwrap().ipostdom(&name(3)), Some(CFGNode::Return));
}

#[test]
fn single_return_block() {
    let module = Module { functions: vec![function("leaf", vec![block(3, Terminator::Ret)])] };
    let mut analysis = Analysis::new(&module);
    {
        let cfg = analysis.control_flow_graph("leaf").unwrap();
        assert_eq!(cfg.succs(&name(3)), vec![CFGNode::Return]);
        assert_eq!(cfg.preds_of_return(), vec![&name(3)]);
        assert_eq!(cfg.preds(&name(3)).len(), 0);
    }
    {
        let domtree = analysis.dominator_tree("leaf").unwrap();
        assert_eq!(domtree.children(&name(3)), vec![CFGNode::Return]);
        assert_eq!(domtree.idom_of_return(), Some(&name(3)));
    }
    {
        let postdomtree = analysis.postdominator_tree("leaf").unwrap();
        assert_eq!(postdomtree.ipostdom(&name(3)), Some(CFGNode::Return));
        assert_eq!(postdomtree.children_of_return(), vec![&name(3)]);
        assert_eq!(postdomtree.children(&name(3)).len(), 0);
    }
    let cdg = analysis.control_dependence_graph("leaf").unwrap();
    assert_eq!(cdg.get_imm_control_dependencies(&name(3)).len(), 0);
    assert_eq!(cdg.get_imm_control_dependents(&name(3)).len(), 0);
}

#[test]
fn unreachable_terminator_leads_to_return() {
    let module = Module {
        functions: vec![function(
            "aborts",
            vec![block(0, condbr(1, 2)), block(1, Terminator::Unreachable), block(2, Terminator::Ret)],
        )],
    };
    let mut analysis = Analysis::new(&module);
    {
        let cfg = analysis.control_flow_graph("aborts").unwrap();
        assert_eq!(cfg.succs(&name(1)), vec![CFGNode::Return]);
        assert_eq!(sorted(cfg.preds_of_return()), vec![&name(1), &name(2)]);
    }
    let postdomtree = analysis.postdominator_tree("aborts").unwrap();
    assert_eq!(postdomtree.ipostdom(&name(1)), Some(CFGNode::Return));
    assert_eq!(postdomtree.ipostdom(&name(0)), Some(CFGNode::Return));
}

#[test]
fn self_recursion() {
    let module = Module { functions: vec![function("f", vec![calling(0, vec![direct("f")], Terminator::Ret)])] };
    let mut analysis = Analysis::new(&module);
    let callgraph = analysis.call_graph().unwrap();
    assert_eq!(callgraph.callers("f").unwrap(), vec!["f"]);
    assert_eq!(callgraph.callees("f").unwrap(), vec!["f"]);
}

#[test]
fn mutual_recursion() {
    let module = Module {
        functions: vec![
            function("f", vec![calling(0, vec![direct("g")], Terminator::Ret)]),
            function("g", vec![calling(0, vec![direct("f")], Terminator::Ret)]),
        ],
    };
    let mut analysis = Analysis::new(&module);
    let callgraph = analysis.call_graph().unwrap();
    assert_eq!(callgraph.callees("f").unwrap(), vec!["g"]);
    assert_eq!(callgraph.callees("g").unwrap(), vec!["f"]);
    assert_eq!(callgraph.callers("f").unwrap(), vec!["g"]);
    assert_eq!(callgraph.callers("g").unwrap(), vec!["f"]);
}

#[test]
fn linear_function_with_self_loop() {
    let module = Module {
        functions: vec![function("linear", vec![block(1, br(6)), block(6, condbr(6, 12)), block(12, Terminator::Ret)])],
    };
    let mut analysis = Analysis::new(&module);
    {
        let cfg = analysis.control_flow_graph("linear").unwrap();
        assert_eq!(cfg.succs(&name(1)), vec![CFGNode::Block(&name(6))]);
        assert_eq!(sorted(cfg.preds(&name(6))), vec![&name(1), &name(6)]);
        assert_eq!(sorted(cfg.succs(&name(6))), vec![CFGNode::Block(&name(6)), CFGNode::Block(&name(12))]);
    }
    {
        let domtree = analysis.dominator_tree("linear").unwrap();
        assert_eq!(domtree.idom(&name(6)), Some(&name(1)));
        assert_eq!(domtree.idom(&name(12)), Some(&name(6)));
    }
    {
        let postdomtree = analysis.postdominator_tree("linear").unwrap();
        assert_eq!(postdomtree.ipostdom(&name(1)), Some(CFGNode::Block(&name(6))));
        assert_eq!(postdomtree.ipostdom(&name(6)), Some(CFGNode::Block(&name(12))));
        assert_eq!(postdomtree.ipostdom(&name(12)), Some(CFGNode::Return));
    }
    let cdg = analysis.control_dependence_graph("linear").unwrap();
    assert_eq!(cdg.get_imm_control_dependencies(&name(6)), vec![&name(6)]);
    assert_eq!(cdg.get_imm_control_dependencies(&name(1)).len(), 0);
}

#[test]
fn diamond() {
    let module = Module {
        functions: vec![function(
            "diamond",
            vec![block(2, condbr(4, 8)), block(4, br(12)), block(8, br(12)), block(12, Terminator::Ret)],
        )],
    };
    let mut analysis = Analysis::new(&module);
    {
        let domtree = analysis.dominator_tree("diamond").unwrap();
        assert_eq!(domtree.idom(&name(4)), Some(&name(2)));
        assert_eq!(domtree.idom(&name(8)), Some(&name(2)));
        assert_eq!(domtree.idom(&name(12)), Some(&name(2)));
    }
    {
        let postdomtree = analysis.postdominator_tree("diamond").unwrap();
        assert_eq!(postdomtree.ipostdom(&name(2)), Some(CFGNode::Block(&name(12))));
        assert_eq!(postdomtree.ipostdom(&name(4)), Some(CFGNode::Block(&name(12))));
        assert_eq!(postdomtree.ipostdom(&name(8)), Some(CFGNode::Block(&name(12))));
        assert_eq!(postdomtree.ipostdom(&name(12)), Some(CFGNode::Return));
        assert_eq!(sorted(postdomtree.children(&name(12))), vec![&name(2), &name(4), &name(8)]);
    }
    let cdg = analysis.control_dependence_graph("diamond").unwrap();
    assert_eq!(cdg.get_imm_control_dependencies(&name(4)), vec![&name(2)]);
    assert_eq!(cdg.get_imm_control_dependencies(&name(8)), vec![&name(2)]);
    assert_eq!(cdg.get_imm_control_dependencies(&name(12)).len(), 0);
    assert_eq!(sorted(cdg.get_imm_control_dependents(&name(2))), vec![&name(4), &name(8)]);
}

#[test]
fn switch_with_six_cases() {
    let cases = [4, 5, 7, 10, 11, 12];
    let mut blocks = vec![block(
        2,
        Terminator::Switch { default_dest: name(13), dests: cases.iter().map(|c| name(*c)).collect() },
    )];
    for c in cases {
        blocks.push(block(c, br(14)));
    }
    blocks.push(block(13, br(14)));
    blocks.push(block(14, Terminator::Ret));
    let module = Module { functions: vec![function("switch", blocks)] };
    let mut analysis = Analysis::new(&module);
    {
        let domtree = analysis.dominator_tree("switch").unwrap();
        for c in cases {
            assert_eq!(domtree.idom(&name(c)), Some(&name(2)));
        }
        assert_eq!(domtree.idom(&name(13)), Some(&name(2)));
        assert_eq!(domtree.idom(&name(14)), Some(&name(2)));
    }
    assert_eq!(
        analysis.postdominator_tree("switch").unwrap().ipostdom(&name(2)),
        Some(CFGNode::Block(&name(14)))
    );
    let cdg = analysis.control_dependence_graph("switch").unwrap();
    for c in cases {
        assert_eq!(cdg.get_imm_control_dependencies(&name(c)), vec![&name(2)]);
    }
    assert_eq!(cdg.get_imm_control_dependencies(&name(13)), vec![&name(2)]);
}

#[test]
fn nested_loops_with_headers() {
    // 0 -> 1; 1 -> {2, 9}; 2 -> 3; 3 -> {4, 5}; 4 -> 3; 5 -> 1; 9 -> return
    let module = Module {
        functions: vec![function(
            "nested",
            vec![
                block(0, br(1)),
                block(1, condbr(2, 9)),
                block(2, br(3)),
                block(3, condbr(4, 5)),
                block(4, br(3)),
                block(5, br(1)),
                block(9, Terminator::Ret),
            ],
        )],
    };
    let mut analysis = Analysis::new(&module);
    assert_eq!(analysis.dominator_tree("nested").unwrap().idom(&name(3)), Some(&name(2)));
    assert_eq!(analysis.dominator_tree("nested").unwrap().idom(&name(2)), Some(&name(1)));
    assert_eq!(analysis.postdominator_tree("nested").unwrap().ipostdom(&name(9)), Some(CFGNode::Return));
    let cdg = analysis.control_dependence_graph("nested").unwrap();
    assert!(cdg.get_imm_control_dependencies(&name(1)).contains(&&name(1)));
    assert!(cdg.get_imm_control_dependencies(&name(3)).contains(&&name(3)));
    assert_eq!(sorted(cdg.get_imm_control_dependencies(&name(3))), vec![&name(1), &name(3)]);
    assert_eq!(sorted(cdg.get_imm_control_dependencies(&name(4))), vec![&name(3)]);
    assert_eq!(sorted(cdg.get_imm_control_dependencies(&name(1))), vec![&name(1)]);
}

#[test]
fn cross_module_call() {
    let a = Module { functions: vec![function("caller", vec![calling(0, vec![direct("simple_callee")], Terminator::Ret)])] };
    let b = Module { functions: vec![function("simple_callee", vec![block(0, Terminator::Ret)])] };
    {
        let mut only_b = Analysis::new(&b);
        assert_eq!(only_b.call_graph().unwrap().callers("simple_callee").unwrap().len(), 0);
    }
    let modules = vec![a, b];
    let mut analysis = Analysis::new_cross_module(&modules);
    assert_eq!(analysis.call_graph().unwrap().callers("simple_callee").unwrap(), vec!["caller"]);
    // the analyses of one function look in whichever module holds it
    assert_eq!(analysis.control_flow_graph("simple_callee").unwrap().entry(), &name(0));
    assert_eq!(analysis.control_flow_graph("caller").unwrap().entry(), &name(0));
}

#[test]
fn unknown_function_in_every_analysis() {
    let module = Module { functions: vec![function("f", vec![block(0, Terminator::Ret)])] };
    let mut analysis = Analysis::new(&module);
    assert!(matches!(analysis.control_flow_graph("g"), Err(AnalysisError::UnknownFunction)));
    assert!(matches!(analysis.dominator_tree("g"), Err(AnalysisError::UnknownFunction)));
    assert!(matches!(analysis.postdominator_tree("g"), Err(AnalysisError::UnknownFunction)));
    assert!(matches!(analysis.control_dependence_graph("g"), Err(AnalysisError::UnknownFunction)));
    assert!(analysis.control_flow_graph("f").is_ok());
}

#[test]
fn callbr_is_not_supported() {
    let module = Module {
        functions: vec![
            function("asm_goto", vec![block(0, br(1)), block(1, Terminator::CallBr)]),
            function("fine", vec![block(0, Terminator::Ret)]),
        ],
    };
    let mut analysis = Analysis::new(&module);
    assert!(matches!(analysis.control_flow_graph("asm_goto"), Err(AnalysisError::UnsupportedIRFeature)));
    assert!(matches!(analysis.dominator_tree("asm_goto"), Err(AnalysisError::UnsupportedIRFeature)));
    assert!(matches!(analysis.postdominator_tree("asm_goto"), Err(AnalysisError::UnsupportedIRFeature)));
    assert!(matches!(analysis.control_dependence_graph("asm_goto"), Err(AnalysisError::UnsupportedIRFeature)));
    // the failure leaves the other analyses as they were
    assert!(analysis.control_flow_graph("fine").is_ok());
    assert!(analysis.call_graph().is_ok());
}

#[test]
fn function_without_blocks_is_not_supported() {
    let module = Module { functions: vec![function("declared", vec![])] };
    let mut analysis = Analysis::new(&module);
    assert!(matches!(analysis.control_flow_graph("declared"), Err(AnalysisError::UnsupportedIRFeature)));
    assert!(matches!(ControlFlowGraph::new(&module.functions[0]), Err(AnalysisError::UnsupportedIRFeature)));
}

#[test]
fn numbered_global_call_is_not_supported() {
    let module = Module {
        functions: vec![function("f", vec![calling(0, vec![Callee::NumberedGlobal { number: 3 }], Terminator::Ret)])],
    };
    let mut analysis = Analysis::new(&module);
    assert!(matches!(analysis.call_graph(), Err(AnalysisError::UnsupportedIRFeature)));
    assert!(matches!(analysis.call_graph(), Err(AnalysisError::UnsupportedIRFeature)));
    assert!(analysis.control_flow_graph("f").is_ok());
}

#[test]
fn call_through_a_value_that_is_no_pointer_is_not_supported() {
    let module = Module {
        functions: vec![function(
            "f",
            vec![calling(0, vec![Callee::Pointer { ty: OperandType::Other }], Terminator::Ret)],
        )],
    };
    let mut analysis = Analysis::new(&module);
    assert!(matches!(analysis.call_graph(), Err(AnalysisError::UnsupportedIRFeature)));
}

#[test]
fn unreachable_blocks_have_no_idom() {
    // block 5 is never branched to
    let module = Module {
        functions: vec![function(
            "dead",
            vec![block(1, br(2)), block(2, Terminator::Ret), block(5, br(2)), block(6, br(5))],
        )],
    };
    let mut analysis = Analysis::new(&module);
    {
        let cfg = analysis.control_flow_graph("dead").unwrap();
        assert_eq!(sorted(cfg.preds(&name(2))), vec![&name(1), &name(5)]);
        assert_eq!(cfg.succs(&name(5)), vec![CFGNode::Block(&name(2))]);
    }
    {
        let domtree = analysis.dominator_tree("dead").unwrap();
        assert_eq!(domtree.idom(&name(5)), None);
        assert_eq!(domtree.idom(&name(6)), None);
        assert_eq!(domtree.children(&name(5)).len(), 0);
        assert_eq!(domtree.idom(&name(2)), Some(&name(1)));
        assert_eq!(sorted(domtree.children(&name(1))), vec![CFGNode::Block(&name(2))]);
        assert_eq!(domtree.children(&name(2)), vec![CFGNode::Return]);
        assert_eq!(domtree.idom(&name(77)), None);
        assert_eq!(domtree.children(&name(77)).len(), 0);
    }
    // block 5 cannot be reached, but the exit can be reached from it
    let postdomtree = analysis.postdominator_tree("dead").unwrap();
    assert_eq!(postdomtree.ipostdom(&name(5)), Some(CFGNode::Block(&name(2))));
    assert_eq!(postdomtree.ipostdom(&name(6)), Some(CFGNode::Block(&name(5))));
    assert_eq!(postdomtree.ipostdom(&name(77)), None);
}

#[test]
fn endless_loop_has_no_ipostdom() {
    // 1 -> {2, 3}; 2 -> 2; 3 -> return
    let module = Module {
        functions: vec![
            function("spins", vec![block(1, condbr(2, 3)), block(2, br(2)), block(3, Terminator::Ret)]),
            function("forever", vec![block(1, br(1))]),
        ],
    };
    let mut analysis = Analysis::new(&module);
    {
        let postdomtree = analysis.postdominator_tree("spins").unwrap();
        assert_eq!(postdomtree.ipostdom(&name(2)), None);
        assert_eq!(postdomtree.children(&name(2)).len(), 0);
        assert_eq!(postdomtree.ipostdom(&name(1)), Some(CFGNode::Block(&name(3))));
        assert_eq!(postdomtree.ipostdom(&name(3)), Some(CFGNode::Return));
    }
    {
        let cdg = analysis.control_dependence_graph("spins").unwrap();
        assert_eq!(cdg.get_imm_control_dependencies(&name(2)).len(), 0);
        assert_eq!(cdg.get_imm_control_dependencies(&name(3)).len(), 0);
    }
    {
        let domtree = analysis.dominator_tree("forever").unwrap();
        assert_eq!(domtree.idom_of_return(), None);
        assert_eq!(domtree.idom(&name(1)), None);
        assert_eq!(domtree.children(&name(1)).len(), 0);
    }
    let postdomtree = analysis.postdominator_tree("forever").unwrap();
    assert_eq!(postdomtree.ipostdom(&name(1)), None);
    assert_eq!(postdomtree.children_of_return().len(), 0);
}

#[test]
fn edges_of_every_terminator() {
    let s = |text: &str| Name::Name(text.to_string());
    let module = Module {
        functions: vec![function(
            "all",
            vec![
                BasicBlock {
                    name: s("entry"),
                    calls: vec![],
                    term: Terminator::IndirectBr { possible_dests: vec![s("a"), s("b"), s("a")] },
                },
                BasicBlock {
                    name: s("a"),
                    calls: vec![],
                    term: Terminator::CatchSwitch { default_unwind_dest: Some(s("c")), catch_handlers: vec![s("d"), s("e")] },
                },
                BasicBlock {
                    name: s("b"),
                    calls: vec![],
                    term: Terminator::CatchSwitch { default_unwind_dest: None, catch_handlers: vec![s("d")] },
                },
                BasicBlock { name: s("c"), calls: vec![], term: Terminator::CleanupRet { unwind_dest: Some(s("e")) } },
                BasicBlock { name: s("d"), calls: vec![], term: Terminator::CatchRet { successor: s("e") } },
                BasicBlock { name: s("e"), calls: vec![], term: Terminator::CleanupRet { unwind_dest: None } },
            ],
        )],
    };
    let mut analysis = Analysis::new(&module);
    let cfg = analysis.control_flow_graph("all").unwrap();
    let (a, b, c, d, e) = (s("a"), s("b"), s("c"), s("d"), s("e"));
    // an edge that is named twice is there once
    assert_eq!(sorted(cfg.succs(&s("entry"))), vec![CFGNode::Block(&a), CFGNode::Block(&b)]);
    assert_eq!(sorted(cfg.succs(&a)), vec![CFGNode::Block(&c), CFGNode::Block(&d), CFGNode::Block(&e)]);
    assert_eq!(sorted(cfg.succs(&b)), vec![CFGNode::Block(&d)]);
    assert_eq!(sorted(cfg.succs(&c)), vec![CFGNode::Block(&e)]);
    assert_eq!(sorted(cfg.succs(&d)), vec![CFGNode::Block(&e)]);
    assert_eq!(cfg.succs(&e).len(), 0);
    assert_eq!(sorted(cfg.preds(&e)), vec![&a, &c, &d]);
    assert_eq!(cfg.preds_of_return().len(), 0);
    assert_eq!(cfg.succs(&s("nowhere")).len(), 0);
    assert_eq!(cfg.preds(&s("nowhere")).len(), 0);
    assert_eq!(cfg.entry(), &s("entry"));
}

#[test]
fn names_and_numbers_are_different_blocks() {
    assert!(Name::Number(1).same(&Name::Number(1)));
    assert!(!Name::Number(1).same(&Name::Number(2)));
    assert!(Name::Name("x".to_string()).same(&Name::Name("x".to_string())));
    assert!(!Name::Name("x".to_string()).same(&Name::Name("y".to_string())));
    assert!(!Name::Name("1".to_string()).same(&Name::Number(1)));
    assert!(!Name::Number(1).same(&Name::Name("1".to_string())));
}

#[test]
fn functions_of_one_type_are_listed_once() {
    let a = Module { functions: vec![typed("f", 1, vec![block(0, Terminator::Ret)]), typed("g", 2, vec![])] };
    let b = Module { functions: vec![typed("f", 1, vec![block(0, Terminator::Ret)]), typed("h", 1, vec![])] };
    let modules = vec![a, b];
    let mut analysis = Analysis::new_cross_module(&modules);
    let fbt = analysis.functions_by_type();
    assert_eq!(sorted(fbt.functions_with_type(&TypeRef { id: 1 })), vec!["f", "h"]);
    assert_eq!(fbt.functions_with_type(&TypeRef { id: 2 }), vec!["g"]);
    assert_eq!(fbt.functions_with_type(&TypeRef { id: 3 }).len(), 0);
}

#[test]
fn simple_cache_computes_once() {
    let mut cache: SimpleCache<u32> = SimpleCache::new();
    assert_eq!(cache.get(), None);
    let mut calls = 0;
    assert_eq!(
        *cache.get_or_insert_with(|| {
            calls += 1;
            5
        }),
        5
    );
    assert_eq!(
        *cache.get_or_insert_with(|| {
            calls += 1;
            6
        }),
        5
    );
    assert_eq!(calls, 1);
    assert_eq!(cache.get(), Some(&5));
}

#[test]
fn mapping_cache_computes_once_for_each_key() {
    let mut cache: MappingCache<usize, String> = MappingCache::new();
    assert!(!cache.contains_key(&1));
    assert_eq!(cache.get_or_insert_with(&1, || "one".to_string()), "one");
    assert_eq!(cache.get_or_insert_with(&2, || "two".to_string()), "two");
    assert_eq!(cache.get_or_insert_with(&1, || "uno".to_string()), "one");
    assert!(cache.contains_key(&1));
    assert_eq!(cache.get(&2), Some(&"two".to_string()));
    assert_eq!(cache.get(&3), None);
}

#[test]
fn handles_stay_good_across_queries() {
    let module = Module { functions: vec![irreducible(), function("leaf", vec![block(3, Terminator::Ret)])] };
    let mut analysis = Analysis::new(&module);
    let cfg = analysis.control_flow_graph("irreducible").unwrap();
    let domtree = analysis.dominator_tree("irreducible").unwrap();
    let leaf = analysis.control_flow_graph("leaf").unwrap();
    let postdomtree = analysis.postdominator_tree("irreducible").unwrap();
    let cdg = analysis.control_dependence_graph("irreducible").unwrap();
    let callgraph = analysis.call_graph().unwrap();
    let fbt = analysis.functions_by_type();
    assert_eq!(cfg.entry(), &name(1));
    assert_eq!(leaf.entry(), &name(3));
    assert_eq!(domtree.idom(&name(4)), Some(&name(2)));
    assert_eq!(postdomtree.ipostdom(&name(4)), Some(CFGNode::Block(&name(6))));
    assert_eq!(cdg.get_imm_control_dependencies(&name(4)), vec![&name(2)]);
    assert_eq!(callgraph.callees("leaf").unwrap().len(), 0);
    assert_eq!(sorted(fbt.functions_with_type(&TypeRef { id: 0 })), vec!["irreducible", "leaf"]);
    // the same analysis is handed out again
    assert!(std::rc::Rc::ptr_eq(&cfg, &analysis.control_flow_graph("irreducible").unwrap()));
    assert!(std::rc::Rc::ptr_eq(&domtree, &analysis.dominator_tree("irreducible").unwrap()));
    assert!(std::rc::Rc::ptr_eq(&callgraph, &analysis.call_graph().unwrap()));
}

#[test]
fn analyses_built_by_hand() {
    let f = irreducible();
    let cfg = ControlFlowGraph::new(&f).unwrap();
    let domtree = DominatorTree::new(&cfg);
    let postdomtree = PostDominatorTree::new(&cfg);
    let cdg = ControlDependenceGraph::new(&cfg, &postdomtree);
    assert_eq!(domtree.idom(&name(6)), Some(&name(1)));
    assert_eq!(postdomtree.ipostdom(&name(3)), Some(CFGNode::Block(&name(6))));
    assert_eq!(sorted(cdg.get_imm_control_dependents(&name(1))), vec![&name(2), &name(3)]);
}
