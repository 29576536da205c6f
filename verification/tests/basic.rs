use llvm_ir_analysis::{Analysis, BasicBlock, CFGNode, Function, Module, Name, Terminator, TypeRef};

/// The names of the functions of the module that these tests analyse.
const FUNC_NAMES: &[&str] = &[
    "no_args_zero",
    "no_args_nozero",
    "one_arg",
    "two_args",
    "three_args",
    "four_args",
    "five_args",
    "binops",
    "conditional_true",
    "conditional_false",
    "conditional_nozero",
    "conditional_with_and",
    "has_switch",
    "int8t",
    "int16t",
    "int32t",
    "int64t",
    "mixed_bitwidths",
];

/// Gives every type that is written the same way the same number.
struct Types {
    seen: Vec<String>,
}

impl Types {
    fn new() -> Self {
        Types { seen: Vec::new() }
    }

    fn func_type(&mut self, result: &str, params: Vec<&str>, is_var_arg: bool) -> TypeRef {
        let text = format!("{} ({}){}", result, params.join(", "), if is_var_arg { " ..." } else { "" });
        let id = match self.seen.iter().position(|t| *t == text) {
            Some(i) => i,
            None => {
                self.seen.push(text);
                self.seen.len() - 1
            },
        };
        TypeRef { id: id as u64 }
    }
}

fn name(n: usize) -> Name {
    Name::from(n)
}

fn block(n: usize, term: Terminator) -> BasicBlock {
    BasicBlock { name: name(n), calls: vec![], term }
}

fn br(dest: usize) -> Terminator {
    Terminator::Br { dest: name(dest) }
}

fn condbr(true_dest: usize, false_dest: usize) -> Terminator {
    Terminator::CondBr { true_dest: name(true_dest), false_dest: name(false_dest) }
}

fn trivial() -> Vec<BasicBlock> {
    vec![block(2, Terminator::Ret)]
}

fn diamond() -> Vec<BasicBlock> {
    vec![block(2, condbr(4, 8)), block(4, br(12)), block(8, br(12)), block(12, Terminator::Ret)]
}

fn nozero() -> Vec<BasicBlock> {
    vec![
        block(2, condbr(14, 4)),
        block(4, condbr(6, 8)),
        block(6, br(14)),
        block(8, condbr(10, 12)),
        block(10, br(14)),
        block(12, br(14)),
        block(14, Terminator::Ret),
    ]
}

fn switch() -> Vec<BasicBlock> {
    vec![
        block(
            2,
            Terminator::Switch {
                default_dest: name(14),
                dests: vec![name(4), name(5), name(7), name(10), name(11), name(12)],
            },
        ),
        block(4, br(14)),
        block(5, br(14)),
        block(7, br(14)),
        block(10, br(14)),
        block(11, br(14)),
        block(12, br(14)),
        block(14, Terminator::Ret),
    ]
}

/// The module that these tests analyse, with the types of its functions.
fn basic_module(types: &mut Types) -> Module {
    let i32_0 = types.func_type("i32", vec![], false);
    let i32_1 = types.func_type("i32", vec!["i32"], false);
    let i32_2 = types.func_type("i32", vec!["i32", "i32"], false);
    let i32_3 = types.func_type("i32", vec!["i32", "i32", "i32"], false);
    let i32_4 = types.func_type("i32", vec!["i32", "i32", "i32", "i32"], false);
    let i32_5 = types.func_type("i32", vec!["i32", "i32", "i32", "i32", "i32"], false);
    let i8_2 = types.func_type("i8", vec!["i8", "i8"], false);
    let i16_2 = types.func_type("i16", vec!["i16", "i16"], false);
    let i64_2 = types.func_type("i64", vec!["i64", "i64"], false);
    let mixed = types.func_type("i64", vec!["i8", "i16", "i32", "i64"], false);
    let f = |name: &str, ty: TypeRef, basic_blocks: Vec<BasicBlock>| Function { name: name.to_string(), ty, basic_blocks };
    Module {
        functions: vec![
            f("no_args_zero", i32_0, trivial()),
            f("no_args_nozero", i32_0, trivial()),
            f("one_arg", i32_1, trivial()),
            f("two_args", i32_2, trivial()),
            f("three_args", i32_3, trivial()),
            f("four_args", i32_4, trivial()),
            f("five_args", i32_5, trivial()),
            f("binops", i32_2, trivial()),
            f("conditional_true", i32_2, diamond()),
            f("conditional_false", i32_2, diamond()),
            f("conditional_nozero", i32_2, nozero()),
            f("conditional_with_and", i32_2, trivial()),
            f("has_switch", i32_2, switch()),
            f("int8t", i8_2, trivial()),
            f("int16t", i16_2, trivial()),
            f("int32t", i32_2, trivial()),
            f("int64t", i64_2, trivial()),
            f("mixed_bitwidths", mixed, trivial()),
        ],
    }
}

fn sorted<T: Ord>(mut v: Vec<T>) -> Vec<T> {
    v.sort();
    v
}

#[test]
fn basic_call_graph() {
    let module = basic_module(&mut Types::new());
    let mut analysis = Analysis::new(&module);
    let callgraph = analysis.call_graph().unwrap();

    // none of these functions have calls or are called
    for func_name in FUNC_NAMES {
        assert_eq!(callgraph.callers(func_name).unwrap().len(), 0);
        assert_eq!(callgraph.callees(func_name).unwrap().len(), 0);
    }
}

#[test]
fn functions_by_type() {
    let mut types = Types::new();
    let module = basic_module(&mut types);
    let mut analysis = Analysis::new(&module);
    let fbt = analysis.functions_by_type();

    let functy = types.func_type("void", vec![], false);
    assert_eq!(fbt.functions_with_type(&functy).len(), 0);

    let functy = types.func_type("i32", vec![], false);
    let func_names: Vec<&str> = sorted(fbt.functions_with_type(&functy));
    assert_eq!(func_names, vec!["no_args_nozero", "no_args_zero"]);

    let functy = types.func_type("i32", vec!["i32"], false);
    let func_names: Vec<&str> = sorted(fbt.functions_with_type(&functy));
    assert_eq!(func_names, vec!["one_arg"]);

    let functy = types.func_type("i32", vec!["i32", "i32"], false);
    let func_names: Vec<&str> = sorted(fbt.functions_with_type(&functy));
    assert_eq!(
        func_names,
        vec![
            "binops",
            "conditional_false",
            "conditional_nozero",
            "conditional_true",
            "conditional_with_and",
            "has_switch",
            "int32t",
            "two_args",
        ]
    );

    let functy = types.func_type("i32", vec!["i32", "i32", "i32"], false);
    let func_names: Vec<&str> = sorted(fbt.functions_with_type(&functy));
    assert_eq!(func_names, vec!["three_args"]);

    let functy = types.func_type("i32", vec!["i32", "i32", "i32", "i32"], false);
    let func_names: Vec<&str> = sorted(fbt.functions_with_type(&functy));
    assert_eq!(func_names, vec!["four_args"]);

    let functy = types.func_type("i32", vec!["i32", "i32", "i32", "i32", "i32"], false);
    let func_names: Vec<&str> = sorted(fbt.functions_with_type(&functy));
    assert_eq!(func_names, vec!["five_args"]);

    let functy = types.func_type("i8", vec!["i8", "i8"], false);
    let func_names: Vec<&str> = sorted(fbt.functions_with_type(&functy));
    assert_eq!(func_names, vec!["int8t"]);

    let functy = types.func_type("i16", vec!["i16", "i16"], false);
    let func_names: Vec<&str> = sorted(fbt.functions_with_type(&functy));
    assert_eq!(func_names, vec!["int16t"]);

    let functy = types.func_type("i64", vec!["i64", "i64"], false);
    let func_names: Vec<&str> = sorted(fbt.functions_with_type(&functy));
    assert_eq!(func_names, vec!["int64t"]);

    let functy = types.func_type("i64", vec!["i8", "i16", "i32", "i64"], false);
    let func_names: Vec<&str> = sorted(fbt.functions_with_type(&functy));
    assert_eq!(func_names, vec!["mixed_bitwidths"]);
}

#[test]
fn trivial_cfgs() {
    let module = basic_module(&mut Types::new());
    let mut analysis = Analysis::new(&module);

    for func_name in &[
        "no_args_zero",
        "no_args_nozero",
        "one_arg",
        "two_args",
        "three_args",
        "four_args",
        "five_args",
        "binops",
        "conditional_with_and",
        "int8t",
        "int16t",
        "int32t",
        "int64t",
        "mixed_bitwidths",
    ] {
        let cfg = analysis.control_flow_graph(func_name).unwrap();
        let entry = cfg.entry();
        assert_eq!(cfg.preds(entry).len(), 0);
        let succs = cfg.succs(entry);
        assert_eq!(succs, vec![CFGNode::Return]);
    }
}

#[test]
fn conditional_true_cfg() {
    let module = basic_module(&mut Types::new());
    let mut analysis = Analysis::new(&module);
    let cfg = analysis.control_flow_graph("conditional_true").unwrap();

    // CFG:
    //     2
    //   /   \
    //  4     8
    //   \   /
    //    12

    let bb2_name = Name::from(2);
    let _bb2_node = CFGNode::Block(&bb2_name);
    let bb4_name = Name::from(4);
    let bb4_node = CFGNode::Block(&bb4_name);
    let bb8_name = Name::from(8);
    let bb8_node = CFGNode::Block(&bb8_name);
    let bb12_name = Name::from(12);
    let bb12_node = CFGNode::Block(&bb12_name);

    let bb2_preds: Vec<&Name> = sorted(cfg.preds(&bb2_name));
    assert!(bb2_preds.is_empty());
    let bb2_succs: Vec<CFGNode> = sorted(cfg.succs(&bb2_name));
    assert_eq!(bb2_succs, vec![bb4_node, bb8_node]);

    let bb4_preds: Vec<&Name> = sorted(cfg.preds(&bb4_name));
    assert_eq!(bb4_preds, vec![&bb2_name]);
    let bb4_succs: Vec<CFGNode> = sorted(cfg.succs(&bb4_name));
    assert_eq!(bb4_succs, vec![bb12_node]);

    let bb8_preds: Vec<&Name> = sorted(cfg.preds(&bb8_name));
    assert_eq!(bb8_preds, vec![&bb2_name]);
    let bb8_succs: Vec<CFGNode> = sorted(cfg.succs(&bb8_name));
    assert_eq!(bb8_succs, vec![bb12_node]);

    let bb12_preds: Vec<&Name> = sorted(cfg.preds(&bb12_name));
    assert_eq!(bb12_preds, vec![&bb4_name, &bb8_name]);
    let bb12_succs: Vec<CFGNode> = sorted(cfg.succs(&bb12_name));
    assert_eq!(bb12_succs, vec![CFGNode::Return]);
}

#[test]
fn conditional_false_cfg() {
    let module = basic_module(&mut Types::new());
    let mut analysis = Analysis::new(&module);
    let cfg = analysis.control_flow_graph("conditional_false").unwrap();

    // CFG:
    //     2
    //   /   \
    //  4     8
    //   \   /
    //    12

    let bb2_name = Name::from(2);
    let _bb2_node = CFGNode::Block(&bb2_name);
    let bb4_name = Name::from(4);
    let bb4_node = CFGNode::Block(&bb4_name);
    let bb8_name = Name::from(8);
    let bb8_node = CFGNode::Block(&bb8_name);
    let bb12_name = Name::from(12);
    let bb12_node = CFGNode::Block(&bb12_name);

    let bb2_preds: Vec<&Name> = sorted(cfg.preds(&bb2_name));
    assert!(bb2_preds.is_empty());
    let bb2_succs: Vec<CFGNode> = sorted(cfg.succs(&bb2_name));
    assert_eq!(bb2_succs, vec![bb4_node, bb8_node]);

    let bb4_preds: Vec<&Name> = sorted(cfg.preds(&bb4_name));
    assert_eq!(bb4_preds, vec![&bb2_name]);
    let bb4_succs: Vec<CFGNode> = sorted(cfg.succs(&bb4_name));
    assert_eq!(bb4_succs, vec![bb12_node]);

    let bb8_preds: Vec<&Name> = sorted(cfg.preds(&bb8_name));
    assert_eq!(bb8_preds, vec![&bb2_name]);
    let bb8_succs: Vec<CFGNode> = sorted(cfg.succs(&bb8_name));
    assert_eq!(bb8_succs, vec![bb12_node]);

    let bb12_preds: Vec<&Name> = sorted(cfg.preds(&bb12_name));
    assert_eq!(bb12_preds, vec![&bb4_name, &bb8_name]);
    let bb12_succs: Vec<CFGNode> = sorted(cfg.succs(&bb12_name));
    assert_eq!(bb12_succs, vec![CFGNode::Return]);
}

#[test]
fn conditional_nozero_cfg() {
    let module = basic_module(&mut Types::new());
    let mut analysis = Analysis::new(&module);
    let cfg = analysis.control_flow_graph("conditional_nozero").unwrap();

    // CFG:
    //  2
    //  | \
    //  |  4
    //  |  | \
    //  |  |  8
    //  |  6  | \
    //  |  |  10 12
    //  |  |  |  |
    //  |  |  | /
    //   \ | / /
    //     14

    let bb2_name = Name::from(2);
    let _bb2_node = CFGNode::Block(&bb2_name);
    let bb4_name = Name::from(4);
    let bb4_node = CFGNode::Block(&bb4_name);
    let bb6_name = Name::from(6);
    let bb6_node = CFGNode::Block(&bb6_name);
    let bb8_name = Name::from(8);
    let bb8_node = CFGNode::Block(&bb8_name);
    let bb10_name = Name::from(10);
    let bb10_node = CFGNode::Block(&bb10_name);
    let bb12_name = Name::from(12);
    let bb12_node = CFGNode::Block(&bb12_name);
    let bb14_name = Name::from(14);
    let bb14_node = CFGNode::Block(&bb14_name);

    let bb2_preds: Vec<&Name> = sorted(cfg.preds(&bb2_name));
    assert!(bb2_preds.is_empty());
    let bb2_succs: Vec<CFGNode> = sorted(cfg.succs(&bb2_name));
    assert_eq!(bb2_succs, vec![bb4_node, bb14_node]);

    let bb4_preds: Vec<&Name> = sorted(cfg.preds(&bb4_name));
    assert_eq!(bb4_preds, vec![&bb2_name]);
    let bb4_succs: Vec<CFGNode> = sorted(cfg.succs(&bb4_name));
    assert_eq!(bb4_succs, vec![bb6_node, bb8_node]);

    let bb6_preds: Vec<&Name> = sorted(cfg.preds(&bb6_name));
    assert_eq!(bb6_preds, vec![&bb4_name]);
    let bb6_succs: Vec<CFGNode> = sorted(cfg.succs(&bb6_name));
    assert_eq!(bb6_succs, vec![bb14_node]);

    let bb8_preds: Vec<&Name> = sorted(cfg.preds(&bb8_name));
    assert_eq!(bb8_preds, vec![&bb4_name]);
    let bb8_succs: Vec<CFGNode> = sorted(cfg.succs(&bb8_name));
    assert_eq!(bb8_succs, vec![bb10_node, bb12_node]);

    let bb10_preds: Vec<&Name> = sorted(cfg.preds(&bb10_name));
    assert_eq!(bb10_preds, vec![&bb8_name]);
    let bb10_succs: Vec<CFGNode> = sorted(cfg.succs(&bb10_name));
    assert_eq!(bb10_succs, vec![bb14_node]);

    let bb12_preds: Vec<&Name> = sorted(cfg.preds(&bb12_name));
    assert_eq!(bb12_preds, vec![&bb8_name]);
    let bb12_succs: Vec<CFGNode> = sorted(cfg.succs(&bb12_name));
    assert_eq!(bb12_succs, vec![bb14_node]);

    let bb14_preds: Vec<&Name> = sorted(cfg.preds(&bb14_name));
    assert_eq!(bb14_preds, vec![&bb2_name, &bb6_name, &bb10_name, &bb12_name]);
    let bb14_succs: Vec<CFGNode> = sorted(cfg.succs(&bb14_name));
    assert_eq!(bb14_succs, vec![CFGNode::Return]);
}

#[test]
fn has_switch_cfg() {
    let module = basic_module(&mut Types::new());
    let mut analysis = Analysis::new(&module);
    let cfg = analysis.control_flow_graph("has_switch").unwrap();

    // CFG:
    //           2
    //     ___ / | \ ___
    //   /  / |  |  | \  \
    //  |  |  |  |  |  \  \
    //  |  |  |  |  |   |  \
    //  4  5  7  |  10  11  12
    //   \  \  \ | /   /   /
    //    \  \ _ | __ /   /
    //     \ ___ | _____ /
    //           |
    //           14

    let bb2_name = Name::from(2);
    let _bb2_node = CFGNode::Block(&bb2_name);
    let bb4_name = Name::from(4);
    let bb4_node = CFGNode::Block(&bb4_name);
    let bb5_name = Name::from(5);
    let bb5_node = CFGNode::Block(&bb5_name);
    let bb7_name = Name::from(7);
    let bb7_node = CFGNode::Block(&bb7_name);
    let bb10_name = Name::from(10);
    let bb10_node = CFGNode::Block(&bb10_name);
    let bb11_name = Name::from(11);
    let bb11_node = CFGNode::Block(&bb11_name);
    let bb12_name = Name::from(12);
    let bb12_node = CFGNode::Block(&bb12_name);
    let bb14_name = Name::from(14);
    let bb14_node = CFGNode::Block(&bb14_name);

    let bb2_preds: Vec<&Name> = sorted(cfg.preds(&bb2_name));
    assert!(bb2_preds.is_empty());
    let bb2_succs: Vec<CFGNode> = sorted(cfg.succs(&bb2_name));
    assert_eq!(bb2_succs, vec![bb4_node, bb5_node, bb7_node, bb10_node, bb11_node, bb12_node, bb14_node,]);

    let bb4_preds: Vec<&Name> = sorted(cfg.preds(&bb4_name));
    assert_eq!(bb4_preds, vec![&bb2_name]);
    let bb4_succs: Vec<CFGNode> = sorted(cfg.succs(&bb4_name));
    assert_eq!(bb4_succs, vec![bb14_node]);

    let bb5_preds: Vec<&Name> = sorted(cfg.preds(&bb5_name));
    assert_eq!(bb5_preds, vec![&bb2_name]);
    let bb5_succs: Vec<CFGNode> = sorted(cfg.succs(&bb5_name));
    assert_eq!(bb5_succs, vec![bb14_node]);

    let bb7_preds: Vec<&Name> = sorted(cfg.preds(&bb7_name));
    assert_eq!(bb7_preds, vec![&bb2_name]);
    let bb7_succs: Vec<CFGNode> = sorted(cfg.succs(&bb7_name));
    assert_eq!(bb7_succs, vec![bb14_node]);

    let bb10_preds: Vec<&Name> = sorted(cfg.preds(&bb10_name));
    assert_eq!(bb10_preds, vec![&bb2_name]);
    let bb10_succs: Vec<CFGNode> = sorted(cfg.succs(&bb10_name));
    assert_eq!(bb10_succs, vec![bb14_node]);

    let bb11_preds: Vec<&Name> = sorted(cfg.preds(&bb11_name));
    assert_eq!(bb11_preds, vec![&bb2_name]);
    let bb11_succs: Vec<CFGNode> = sorted(cfg.succs(&bb11_name));
    assert_eq!(bb11_succs, vec![bb14_node]);

    let bb12_preds: Vec<&Name> = sorted(cfg.preds(&bb12_name));
    assert_eq!(bb12_preds, vec![&bb2_name]);
    let bb12_succs: Vec<CFGNode> = sorted(cfg.succs(&bb12_name));
    assert_eq!(bb12_succs, vec![bb14_node]);

    let bb14_preds: Vec<&Name> = sorted(cfg.preds(&bb14_name));
    assert_eq!(
        bb14_preds,
        vec![&bb2_name, &bb4_name, &bb5_name, &bb7_name, &bb10_name, &bb11_name, &bb12_name,]
    );
    let bb14_succs: Vec<CFGNode> = sorted(cfg.succs(&bb14_name));
    assert_eq!(bb14_succs, vec![CFGNode::Return]);
}

#[test]
fn trivial_domtrees() {
    let module = basic_module(&mut Types::new());
    let mut analysis = Analysis::new(&module);

    for func_name in &[
        "no_args_zero",
        "no_args_nozero",
        "one_arg",
        "two_args",
        "three_args",
        "four_args",
        "five_args",
        "binops",
        "conditional_with_and",
        "int8t",
        "int16t",
        "int32t",
        "int64t",
        "mixed_bitwidths",
    ] {
        let domtree = analysis.dominator_tree(func_name).unwrap();
        let entry = domtree.entry();
        assert_eq!(domtree.idom(entry), None);
        assert_eq!(domtree.children(entry), vec![CFGNode::Return]);

        let postdomtree = analysis.postdominator_tree(func_name).unwrap();
        assert_eq!(postdomtree.ipostdom(entry), Some(CFGNode::Return));
        assert_eq!(postdomtree.children(entry).len(), 0);
    }
}

#[test]
fn conditional_true_domtree() {
    let module = basic_module(&mut Types::new());
    let mut analysis = Analysis::new(&module);

    // CFG:
    //     2
    //   /   \
    //  4     8
    //   \   /
    //    12

    let bb2_name = Name::from(2);
    let _bb2_node = CFGNode::Block(&bb2_name);
    let bb4_name = Name::from(4);
    let bb4_node = CFGNode::Block(&bb4_name);
    let bb8_name = Name::from(8);
    let bb8_node = CFGNode::Block(&bb8_name);
    let bb12_name = Name::from(12);
    let bb12_node = CFGNode::Block(&bb12_name);

    let domtree = analysis.dominator_tree("conditional_true").unwrap();

    assert_eq!(domtree.idom(&bb2_name), None);
    let children: Vec<CFGNode> = sorted(domtree.children(&bb2_name));
    assert_eq!(children, vec![bb4_node, bb8_node, bb12_node]);

    assert_eq!(domtree.idom(&bb4_name), Some(&bb2_name));
    let children: Vec<CFGNode> = sorted(domtree.children(&bb4_name));
    assert!(children.is_empty());

    assert_eq!(domtree.idom(&bb8_name), Some(&bb2_name));
    let children: Vec<CFGNode> = sorted(domtree.children(&bb8_name));
    assert!(children.is_empty());

    assert_eq!(domtree.idom(&bb8_name), Some(&bb2_name));
    let children: Vec<CFGNode> = sorted(domtree.children(&bb12_name));
    assert_eq!(children, vec![CFGNode::Return]);

    let postdomtree = analysis.postdominator_tree("conditional_true").unwrap();
    assert_eq!(postdomtree.ipostdom(&bb2_name), Some(bb12_node));
    assert_eq!(postdomtree.ipostdom(&bb4_name), Some(bb12_node));
    assert_eq!(postdomtree.ipostdom(&bb8_name), Some(bb12_node));
    assert_eq!(postdomtree.ipostdom(&bb12_name), Some(CFGNode::Return));
}

#[test]
fn conditional_false_domtree() {
    let module = basic_module(&mut Types::new());
    let mut analysis = Analysis::new(&module);

    // CFG:
    //     2
    //   /   \
    //  4     8
    //   \   /
    //    12

    let bb2_name = Name::from(2);
    let _bb2_node = CFGNode::Block(&bb2_name);
    let bb4_name = Name::from(4);
    let bb4_node = CFGNode::Block(&bb4_name);
    let bb8_name = Name::from(8);
    let bb8_node = CFGNode::Block(&bb8_name);
    let bb12_name = Name::from(12);
    let bb12_node = CFGNode::Block(&bb12_name);

    let domtree = analysis.dominator_tree("conditional_false").unwrap();

    assert_eq!(domtree.idom(&bb2_name), None);
    let children: Vec<CFGNode> = sorted(domtree.children(&bb2_name));
    assert_eq!(children, vec![bb4_node, bb8_node, bb12_node]);

    assert_eq!(domtree.idom(&bb4_name), Some(&bb2_name));
    let children: Vec<CFGNode> = sorted(domtree.children(&bb4_name));
    assert!(children.is_empty());

    assert_eq!(domtree.idom(&bb8_name), Some(&bb2_name));
    let children: Vec<CFGNode> = sorted(domtree.children(&bb8_name));
    assert!(children.is_empty());

    assert_eq!(domtree.idom(&bb8_name), Some(&bb2_name));
    let children: Vec<CFGNode> = sorted(domtree.children(&bb12_name));
    assert_eq!(children, vec![CFGNode::Return]);

    let postdomtree = analysis.postdominator_tree("conditional_false").unwrap();
    assert_eq!(postdomtree.ipostdom(&bb2_name), Some(bb12_node));
    assert_eq!(postdomtree.ipostdom(&bb4_name), Some(bb12_node));
    assert_eq!(postdomtree.ipostdom(&bb8_name), Some(bb12_node));
    assert_eq!(postdomtree.ipostdom(&bb12_name), Some(CFGNode::Return));
}

#[test]
fn conditional_nozero_domtree() {
    let module = basic_module(&mut Types::new());
    let mut analysis = Analysis::new(&module);

    // CFG:
    //  2
    //  | \
    //  |  4
    //  |  | \
    //  |  |  8
    //  |  6  | \
    //  |  |  10 12
    //  |  |  |  |
    //  |  |  | /
    //   \ | / /
    //     14

    let domtree = analysis.dominator_tree("conditional_nozero").unwrap();
    assert_eq!(domtree.idom(&Name::from(2)), None);
    assert_eq!(domtree.idom(&Name::from(4)), Some(&Name::from(2)));
    assert_eq!(domtree.idom(&Name::from(6)), Some(&Name::from(4)));
    assert_eq!(domtree.idom(&Name::from(8)), Some(&Name::from(4)));
    assert_eq!(domtree.idom(&Name::from(10)), Some(&Name::from(8)));
    assert_eq!(domtree.idom(&Name::from(12)), Some(&Name::from(8)));
    assert_eq!(domtree.idom(&Name::from(14)), Some(&Name::from(2)));

    let postdomtree = analysis.postdominator_tree("conditional_nozero").unwrap();
    assert_eq!(postdomtree.ipostdom(&Name::from(2)), Some(CFGNode::Block(&Name::from(14))));
    assert_eq!(postdomtree.ipostdom(&Name::from(4)), Some(CFGNode::Block(&Name::from(14))));
    assert_eq!(postdomtree.ipostdom(&Name::from(6)), Some(CFGNode::Block(&Name::from(14))));
    assert_eq!(postdomtree.ipostdom(&Name::from(8)), Some(CFGNode::Block(&Name::from(14))));
    assert_eq!(postdomtree.ipostdom(&Name::from(10)), Some(CFGNode::Block(&Name::from(14))));
    assert_eq!(postdomtree.ipostdom(&Name::from(12)), Some(CFGNode::Block(&Name::from(14))));
    assert_eq!(postdomtree.ipostdom(&Name::from(14)), Some(CFGNode::Return));
}

#[test]
fn has_switch_domtree() {
    let module = basic_module(&mut Types::new());
    let mut analysis = Analysis::new(&module);

    // CFG:
    //           2
    //     ___ / | \ ___
    //   /  / |  |  | \  \
    //  |  |  |  |  |  \  \
    //  |  |  |  |  |   |  \
    //  4  5  7  |  10  11  12
    //   \  \  \ | /   /   /
    //    \  \ _ | __ /   /
    //     \ ___ | _____ /
    //           |
    //           14

    let domtree = analysis.dominator_tree("has_switch").unwrap();
    assert_eq!(domtree.idom(&Name::from(2)), None);
    assert_eq!(domtree.idom(&Name::from(4)), Some(&Name::from(2)));
    assert_eq!(domtree.idom(&Name::from(5)), Some(&Name::from(2)));
    assert_eq!(domtree.idom(&Name::from(7)), Some(&Name::from(2)));
    assert_eq!(domtree.idom(&Name::from(10)), Some(&Name::from(2)));
    assert_eq!(domtree.idom(&Name::from(11)), Some(&Name::from(2)));
    assert_eq!(domtree.idom(&Name::from(12)), Some(&Name::from(2)));
    assert_eq!(domtree.idom(&Name::from(14)), Some(&Name::from(2)));

    let postdomtree = analysis.postdominator_tree("has_switch").unwrap();
    assert_eq!(postdomtree.ipostdom(&Name::from(2)), Some(CFGNode::Block(&Name::from(14))));
    assert_eq!(postdomtree.ipostdom(&Name::from(4)), Some(CFGNode::Block(&Name::from(14))));
    assert_eq!(postdomtree.ipostdom(&Name::from(5)), Some(CFGNode::Block(&Name::from(14))));
    assert_eq!(postdomtree.ipostdom(&Name::from(7)), Some(CFGNode::Block(&Name::from(14))));
    assert_eq!(postdomtree.ipostdom(&Name::from(10)), Some(CFGNode::Block(&Name::from(14))));
    assert_eq!(postdomtree.ipostdom(&Name::from(11)), Some(CFGNode::Block(&Name::from(14))));
    assert_eq!(postdomtree.ipostdom(&Name::from(12)), Some(CFGNode::Block(&Name::from(14))));
    assert_eq!(postdomtree.ipostdom(&Name::from(14)), Some(CFGNode::Return));
}
