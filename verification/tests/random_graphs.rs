use llvm_ir_analysis::{Analysis, BasicBlock, CFGNode, Function, Module, Name, Terminator, TypeRef};

/// A small generator of numbers that gives the same numbers on every run.
struct Numbers {
    state: u64,
}

impl Numbers {
    fn next(&mut self, below: usize) -> usize {
        self.state = self.state.wrapping_mul(6364136223846793005).wrapping_add(1442695040888963407);
        ((self.state >> 33) as usize) % below
    }
}

/// The exit node in the graphs below.
const EXIT: usize = usize::MAX;

/// A function of `n` blocks, numbered from 0, with terminators drawn from
/// `numbers`, and its edges.
fn draw(numbers: &mut Numbers, n: usize) -> (Function, Vec<(usize, usize)>) {
    let mut blocks = Vec::new();
    let mut edges = Vec::new();
    for b in 0..n {
        let term = match numbers.next(6) {
            0 => {
                edges.push((b, EXIT));
                Terminator::Ret
            },
            1 | 2 => {
                let d = numbers.next(n);
                edges.push((b, d));
                Terminator::Br { dest: Name::from(d) }
            },
            3 | 4 => {
                let t = numbers.next(n);
                let f = numbers.next(n);
                edges.push((b, t));
                edges.push((b, f));
                Terminator::CondBr { true_dest: Name::from(t), false_dest: Name::from(f) }
            },
            _ => {
                let d = numbers.next(n);
                let cases: Vec<usize> = (0..numbers.next(4)).map(|_| numbers.next(n)).collect();
                edges.push((b, d));
                for c in &cases {
                    edges.push((b, *c));
                }
                Terminator::Switch { default_dest: Name::from(d), dests: cases.into_iter().map(Name::from).collect() }
            },
        };
        blocks.push(BasicBlock { name: Name::from(b), calls: vec![], term });
    }
    edges.sort();
    edges.dedup();
    (Function { name: "f".to_string(), ty: TypeRef { id: 0 }, basic_blocks: blocks }, edges)
}

/// The nodes that can be reached from `from` along `edges` without passing
/// `without`.
fn reach(edges: &[(usize, usize)], from: usize, without: Option<usize>) -> Vec<usize> {
    let mut seen = Vec::new();
    if Some(from) == without {
        return seen;
    }
    let mut stack = vec![from];
    seen.push(from);
    while let Some(x) = stack.pop() {
        for (a, b) in edges {
            if *a == x && Some(*b) != without && !seen.contains(b) {
                seen.push(*b);
                stack.push(*b);
            }
        }
    }
    seen
}

/// For every node that can be reached from `root`, its dominators.
fn dominators(edges: &[(usize, usize)], root: usize) -> Vec<(usize, Vec<usize>)> {
    let nodes = reach(edges, root, None);
    nodes
        .iter()
        .map(|v| {
            let dominators = nodes.iter().filter(|d| !reach(edges, root, Some(**d)).contains(v)).cloned().collect();
            (*v, dominators)
        })
        .collect()
}

/// The immediate dominator of `v`, by its definition.
fn idom_of(all: &[(usize, Vec<usize>)], v: usize) -> Option<usize> {
    let of_v = &all.iter().find(|(x, _)| *x == v)?.1;
    let strict: Vec<usize> = of_v.iter().filter(|d| **d != v).cloned().collect();
    let found: Vec<usize> = strict
        .iter()
        .filter(|x| {
            strict.iter().all(|d| d == *x || !all.iter().find(|(y, _)| y == d).unwrap().1.contains(*x))
        })
        .cloned()
        .collect();
    assert!(found.len() <= 1);
    found.first().cloned()
}

fn number(name: &Name) -> usize {
    match name {
        Name::Number(n) => *n,
        Name::Name(_) => unreachable!(),
    }
}

fn node_number(node: CFGNode) -> usize {
    match node {
        CFGNode::Block(name) => number(name),
        CFGNode::Return => EXIT,
    }
}

fn sorted(mut v: Vec<usize>) -> Vec<usize> {
    v.sort();
    v
}

#[test]
fn random_control_flow_graphs() {
    let mut numbers = Numbers { state: 1 };
    for round in 0..400 {
        let n = 1 + round % 9;
        let (f, edges) = draw(&mut numbers, n);
        let module = Module { functions: vec![f] };
        let mut analysis = Analysis::new(&module);
        let cfg = analysis.control_flow_graph("f").unwrap();
        assert_eq!(cfg.entry(), &Name::from(0));
        for b in 0..n {
            let succs = sorted(cfg.succs(&Name::from(b)).into_iter().map(node_number).collect());
            let expected: Vec<usize> = edges.iter().filter(|(a, _)| *a == b).map(|(_, t)| *t).collect();
            assert_eq!(succs, expected);
            let preds = sorted(cfg.preds(&Name::from(b)).into_iter().map(number).collect());
            let expected: Vec<usize> = edges.iter().filter(|(_, t)| *t == b).map(|(a, _)| *a).collect();
            assert_eq!(preds, expected);
        }
        let leaving = sorted(cfg.preds_of_return().into_iter().map(number).collect());
        let expected: Vec<usize> = edges.iter().filter(|(_, t)| *t == EXIT).map(|(a, _)| *a).collect();
        assert_eq!(leaving, expected);
    }
}

#[test]
fn random_dominator_trees() {
    let mut numbers = Numbers { state: 2 };
    for round in 0..400 {
        let n = 1 + round % 9;
        let (f, edges) = draw(&mut numbers, n);
        let module = Module { functions: vec![f] };
        let mut analysis = Analysis::new(&module);
        let domtree = analysis.dominator_tree("f").unwrap();
        let all = dominators(&edges, 0);
        for b in 0..n {
            assert_eq!(domtree.idom(&Name::from(b)).map(number), idom_of(&all, b));
            let children = sorted(domtree.children(&Name::from(b)).into_iter().map(node_number).collect());
            let mut expected: Vec<usize> =
                (0..n).chain(std::iter::once(EXIT)).filter(|c| idom_of(&all, *c) == Some(b)).collect();
            expected.sort();
            assert_eq!(children, expected);
        }
        assert_eq!(domtree.idom_of_return().map(number), idom_of(&all, EXIT));
    }
}

#[test]
fn random_post_dominator_trees_and_control_dependence() {
    let mut numbers = Numbers { state: 3 };
    for round in 0..400 {
        let n = 1 + round % 9;
        let (f, edges) = draw(&mut numbers, n);
        let module = Module { functions: vec![f] };
        let mut analysis = Analysis::new(&module);
        let turned: Vec<(usize, usize)> = edges.iter().map(|(a, b)| (*b, *a)).collect();
        let all = dominators(&turned, EXIT);
        {
            let postdomtree = analysis.postdominator_tree("f").unwrap();
            for b in 0..n {
                assert_eq!(postdomtree.ipostdom(&Name::from(b)).map(node_number), idom_of(&all, b));
                let children = sorted(postdomtree.children(&Name::from(b)).into_iter().map(number).collect());
                let expected: Vec<usize> = (0..n).filter(|c| idom_of(&all, *c) == Some(b)).collect();
                assert_eq!(children, expected);
            }
            let children = sorted(postdomtree.children_of_return().into_iter().map(number).collect());
            let expected: Vec<usize> = (0..n).filter(|c| idom_of(&all, *c) == Some(EXIT)).collect();
            assert_eq!(children, expected);
        }
        let cdg = analysis.control_dependence_graph("f").unwrap();
        let post = |x: usize, v: usize| all.iter().any(|(y, d)| *y == v && d.contains(&x));
        for x in 0..n {
            // `x` depends on `a` if `a` has a successor that `x` post-dominates
            // and `x` does not strictly post-dominate `a`
            let expected: Vec<usize> = (0..n)
                .filter(|a| {
                    edges.iter().any(|(s, b)| s == a && post(x, *b)) && !(x != *a && post(x, *a))
                })
                .collect();
            let found = sorted(cdg.get_imm_control_dependencies(&Name::from(x)).into_iter().map(number).collect());
            assert_eq!(found, expected);
            let expected: Vec<usize> = (0..n)
                .filter(|y| {
                    edges.iter().any(|(s, b)| *s == x && post(*y, *b)) && !(*y != x && post(*y, x))
                })
                .collect();
            let found = sorted(cdg.get_imm_control_dependents(&Name::from(x)).into_iter().map(number).collect());
            assert_eq!(found, expected);
        }
    }
}
