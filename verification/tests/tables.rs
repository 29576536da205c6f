use llvm_ir_analysis::call_graph::collect_call_sites;
use llvm_ir_analysis::name_index::NameIndex;
use llvm_ir_analysis::node_table::NodeTable;
use llvm_ir_analysis::{BasicBlock, CFGNode, Callee, Function, FunctionsByType, Name, Terminator, TypeRef};

#[test]
fn node_table_numbers_blocks_from_one() {
    let (a, b) = (Name::from("a".to_string()), Name::from(7));
    let mut table = NodeTable::new();
    assert_eq!(table.bound(), 1);
    assert_eq!(table.node(0), CFGNode::Return);
    assert_eq!(table.block(0), None);
    assert_eq!(table.find(&a), None);
    assert_eq!(table.intern(&a), 1);
    assert_eq!(table.intern(&b), 2);
    assert_eq!(table.intern(&a), 1);
    assert_eq!(table.bound(), 3);
    assert_eq!(table.find(&Name::from(7)), Some(2));
    assert_eq!(table.find(&Name::from(8)), None);
    assert_eq!(table.node(2), CFGNode::Block(&b));
    assert_eq!(table.block(1), Some(&a));
    assert_eq!(table.nodes(&vec![2, 0, 1]), vec![CFGNode::Block(&b), CFGNode::Return, CFGNode::Block(&a)]);
    assert_eq!(table.block_names(&vec![2, 1]), vec![&b, &a]);
    assert_eq!(table.all_blocks(), vec![&a, &b]);
    let copy = table.duplicate();
    assert_eq!(copy.bound(), 3);
    assert_eq!(copy.find(&a), Some(1));
}

#[test]
fn name_index_numbers_names_from_zero() {
    let (f, g) = ("f".to_string(), "g".to_string());
    let mut index = NameIndex::new();
    assert_eq!(index.find(&f), None);
    assert_eq!(index.intern(&f), 0);
    assert_eq!(index.intern(&g), 1);
    assert_eq!(index.intern(&f), 0);
    assert_eq!(index.find(&"g".to_string()), Some(1));
    assert_eq!(index.find(&"h".to_string()), None);
    assert_eq!(index.names(&vec![1, 0]), vec!["g", "f"]);
}

#[test]
fn call_sites_in_order() {
    let direct = |name: &str| Callee::Function { name: name.to_string() };
    let f = Function {
        name: "f".to_string(),
        ty: TypeRef { id: 0 },
        basic_blocks: vec![
            BasicBlock {
                name: Name::from(0),
                calls: vec![direct("a"), Callee::InlineAssembly],
                term: Terminator::Invoke {
                    function: direct("b"),
                    return_label: Name::from(1),
                    exception_label: Name::from(1),
                },
            },
            BasicBlock { name: Name::from(1), calls: vec![direct("c")], term: Terminator::Ret },
        ],
    };
    let (a, b, c) = (direct("a"), direct("b"), direct("c"));
    assert_eq!(collect_call_sites(&f), vec![&a, &Callee::InlineAssembly, &b, &c]);
}

#[test]
fn index_built_by_hand() {
    let f = Function { name: "f".to_string(), ty: TypeRef { id: 4 }, basic_blocks: vec![] };
    let g = Function { name: "g".to_string(), ty: TypeRef { id: 4 }, basic_blocks: vec![] };
    let fbt = FunctionsByType::new(&vec![&f, &g, &f]);
    let mut names = fbt.functions_with_type(&TypeRef { id: 4 });
    names.sort();
    assert_eq!(names, vec!["f", "g"]);
    assert_eq!(fbt.functions_with_type(&TypeRef { id: 5 }).len(), 0);
}
