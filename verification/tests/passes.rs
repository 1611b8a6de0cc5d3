use mybril::basic_block::{partition, BasicBlock};
use mybril::dataflow::{defined, live};
use mybril::dce::{drop_kill, my_trivial_dce_graph, trivial_dce};
use mybril::dot::dot;
use mybril::ir::{Argument, Bril, Function, Instruction};
use mybril::licm::{loop_invariant_code_motion, Hoist, Loop};
use mybril::lvn::{local_value_numbering, InstValue, ValueTable};
use mybril::names::NameSet;
use mybril::ssa::{Cfg, Defect};

fn names(list: &[&str]) -> Option<Vec<String>> {
    if list.is_empty() {
        None
    } else {
        Some(list.iter().map(|a| a.to_string()).collect())
    }
}

fn op(op: &str, dest: Option<&str>, args: &[&str]) -> Instruction {
    Instruction {
        op: Some(op.to_string()),
        dest: dest.map(|d| d.to_string()),
        ty: dest.map(|_| "int".to_string()),
        args: names(args),
        ..Default::default()
    }
}

fn constant(dest: &str, value: i64) -> Instruction {
    Instruction {
        op: Some("const".to_string()),
        dest: Some(dest.to_string()),
        ty: Some("int".to_string()),
        value: Some(serde_json::Value::from(value)),
        ..Default::default()
    }
}

fn label(name: &str) -> Instruction {
    Instruction { label: Some(name.to_string()), ..Default::default() }
}

fn jump(op: &str, labels: &[&str], args: &[&str]) -> Instruction {
    Instruction {
        op: Some(op.to_string()),
        labels: names(labels),
        args: names(args),
        ..Default::default()
    }
}

fn function(instrs: Vec<Instruction>) -> Function {
    Function { name: "main".to_string(), args: None, instrs }
}

fn set(list: &[&str]) -> Vec<String> {
    let mut v: Vec<String> = list.iter().map(|a| a.to_string()).collect();
    v.sort();
    v
}

fn sorted(s: &NameSet) -> Vec<String> {
    let mut v = s.names.clone();
    v.sort();
    v
}

fn diamond() -> Function {
    function(vec![
        label("A"),
        constant("x", 1),
        jump("br", &["B", "C"], &["x"]),
        label("B"),
        constant("y", 2),
        jump("jmp", &["D"], &[]),
        label("C"),
        constant("z", 3),
        jump("jmp", &["D"], &[]),
        label("D"),
        op("print", None, &["x"]),
        jump("ret", &[], &[]),
    ])
}

#[test]
fn partition_cuts_at_labels_and_after_terminators() {
    let instrs = vec![
        constant("a", 1),
        jump("jmp", &["next"], &[]),
        constant("b", 2),
        label("next"),
        op("print", None, &["a"]),
        op("ret", None, &[]),
        op("print", None, &["a"]),
    ];
    let blocks = partition(&instrs);
    let sizes: Vec<usize> = blocks.iter().map(|b| b.len()).collect();
    assert_eq!(sizes, vec![2, 1, 3, 1]);
    let flat: Vec<Instruction> = blocks.into_iter().flatten().collect();
    assert_eq!(flat, instrs);
}

#[test]
fn new_blocks_adds_labels_and_terminators() {
    let instrs = vec![constant("a", 1), label("b0"), op("print", None, &["a"]), label("end")];
    let blocks = BasicBlock::new_blocks(&instrs);
    assert_eq!(blocks.len(), 3);
    assert_eq!(blocks[0].0[0], label("b1"));
    assert_eq!(blocks[0].0[2], jump("jmp", &["b0"], &[]));
    assert_eq!(blocks[1].0[2], jump("jmp", &["end"], &[]));
    assert_eq!(blocks[2].0[1], op("ret", None, &[]).clone_without_type());
}

trait WithoutType {
    fn clone_without_type(&self) -> Instruction;
}

impl WithoutType for Instruction {
    fn clone_without_type(&self) -> Instruction {
        let mut i = self.clone();
        i.ty = None;
        i
    }
}

#[test]
fn partition_is_stable() {
    let instrs = vec![
        constant("a", 1),
        jump("br", &["l", "m"], &["a"]),
        label("l"),
        op("print", None, &["a"]),
        label("m"),
        op("print", None, &["a"]),
    ];
    let once: Vec<Instruction> =
        BasicBlock::new_blocks(&instrs).into_iter().flat_map(|b| b.0).collect();
    let twice: Vec<Instruction> =
        BasicBlock::new_blocks(&once).into_iter().flat_map(|b| b.0).collect();
    assert_eq!(once, twice);
    assert_eq!(once.len(), 9);
}

#[test]
fn labels_are_unique_after_partitioning() {
    let instrs = vec![
        constant("a", 1),
        label("b0"),
        jump("jmp", &["b2"], &[]),
        constant("b", 1),
        label("b2"),
        jump("jmp", &["b0"], &[]),
        constant("c", 1),
    ];
    let blocks = BasicBlock::new_blocks(&instrs);
    let mut labels: Vec<String> = blocks.iter().map(|b| b.0[0].label.clone().unwrap()).collect();
    assert_eq!(labels, vec!["b1", "b0", "b3", "b2", "b4"]);
    labels.sort();
    labels.dedup();
    assert_eq!(labels.len(), 5);
}

#[test]
fn test_trivial_dce() {
    let mut f = function(vec![
        constant("a", 4),
        constant("b", 2),
        op("add", Some("c"), &["a", "b"]),
        op("print", None, &["a"]),
    ]);
    trivial_dce(&mut f);
    assert_eq!(
        f.instrs,
        vec![constant("a", 4), constant("b", 2), op("print", None, &["a"])]
    );
    trivial_dce(&mut f);
    assert_eq!(f.instrs, vec![constant("a", 4), op("print", None, &["a"])]);
    trivial_dce(&mut f);
    assert_eq!(f.instrs, vec![constant("a", 4), op("print", None, &["a"])]);
}

#[test]
fn test_my_trivial_dce_graph() {
    let mut f = function(vec![
        constant("a", 4),
        constant("b", 2),
        op("add", Some("c"), &["a", "b"]),
        op("print", None, &["a"]),
    ]);
    my_trivial_dce_graph(&mut f);
    assert_eq!(f.instrs, vec![constant("a", 4), op("print", None, &["a"])]);
}

#[test]
fn reachability_dce_keeps_what_effects_depend_on() {
    let mut f = function(vec![
        constant("a", 4),
        constant("b", 2),
        op("add", Some("c"), &["a", "b"]),
        op("mul", Some("d"), &["c", "c"]),
        op("add", Some("e"), &["a", "a"]),
        op("ret", None, &["d"]),
    ]);
    my_trivial_dce_graph(&mut f);
    assert_eq!(f.instrs.len(), 5);
    assert!(f.instrs.iter().all(|i| i.dest.as_deref() != Some("e")));
}

#[test]
fn drop_kill_drops_overwritten_definitions() {
    let mut block = vec![
        constant("a", 1),
        constant("a", 2),
        op("add", Some("a"), &["a", "a"]),
        constant("b", 1),
        op("print", None, &["b"]),
        constant("b", 2),
    ];
    drop_kill(&mut block);
    assert_eq!(
        block,
        vec![
            constant("a", 2),
            op("add", Some("a"), &["a", "a"]),
            constant("b", 1),
            op("print", None, &["b"]),
            constant("b", 2),
        ]
    );
}

#[test]
fn test_lvn() {
    let mut block = vec![
        constant("a", 1),
        constant("b", 2),
        op("add", Some("x"), &["a", "b"]),
        op("add", Some("y"), &["b", "a"]),
        op("print", None, &["x"]),
        op("print", None, &["y"]),
    ];
    let before = block.len();
    local_value_numbering(&mut block);
    assert_eq!(
        block[3],
        Instruction {
            op: Some("id".to_string()),
            dest: Some("y".to_string()),
            args: names(&["x"]),
            ..Default::default()
        }
    );
    assert_eq!(block[5], op("print", None, &["x"]));
    let mut f = function(block);
    my_trivial_dce_graph(&mut f);
    assert!(f.instrs.len() < before);
    assert_eq!(
        f.instrs,
        vec![
            constant("a", 1),
            constant("b", 2),
            op("add", Some("x"), &["a", "b"]),
            op("print", None, &["x"]),
            op("print", None, &["x"]),
        ]
    );
}

#[test]
fn lvn_renames_a_definition_that_is_overwritten() {
    let mut block = vec![
        op("add", Some("x"), &["a", "b"]),
        op("print", None, &["x"]),
        op("mul", Some("x"), &["a", "b"]),
        op("add", Some("y"), &["a", "b"]),
    ];
    local_value_numbering(&mut block);
    assert_eq!(block[0].dest.as_deref(), Some("x_prime"));
    assert_eq!(block[1], op("print", None, &["x_prime"]));
    assert_eq!(block[2], op("mul", Some("x"), &["a", "b"]));
    assert_eq!(
        block[3],
        Instruction {
            op: Some("id".to_string()),
            dest: Some("y".to_string()),
            args: names(&["x_prime"]),
            ..Default::default()
        }
    );
}

#[test]
fn lvn_sees_a_constant_that_writes_a_variable_again() {
    let mut block = vec![
        constant("a", 1),
        op("add", Some("x"), &["a", "a"]),
        constant("a", 2),
        op("add", Some("y"), &["a", "a"]),
        op("print", None, &["x"]),
        op("print", None, &["y"]),
    ];
    let before = block.clone();
    local_value_numbering(&mut block);
    assert_eq!(block, before);
}

#[test]
fn lvn_forgets_copies_of_a_variable_that_is_written_again() {
    let mut block = vec![
        op("id", Some("y"), &["a"]),
        constant("a", 5),
        op("print", None, &["y"]),
        op("print", None, &["a"]),
    ];
    local_value_numbering(&mut block);
    assert_eq!(block[0].args, names(&["a"]));
    assert_eq!(block[2], op("print", None, &["y"]));
    assert_eq!(block[3], op("print", None, &["a"]));
}

#[test]
fn lvn_reads_the_old_value_where_a_variable_is_computed_from_itself() {
    let mut block = vec![
        op("add", Some("i"), &["i", "one"]),
        op("add", Some("i"), &["i", "one"]),
        op("print", None, &["i"]),
    ];
    local_value_numbering(&mut block);
    assert_eq!(block[0], op("add", Some("i_prime"), &["i", "one"]));
    assert_eq!(block[1], op("add", Some("i"), &["i_prime", "one"]));
    assert_eq!(block[2], op("print", None, &["i"]));
}

#[test]
fn lvn_renames_to_a_name_that_the_block_does_not_use() {
    let mut block = vec![
        op("add", Some("x"), &["a", "b"]),
        op("print", None, &["x_prime"]),
        op("print", None, &["x"]),
        op("mul", Some("x"), &["a", "b"]),
    ];
    local_value_numbering(&mut block);
    assert_eq!(block[0], op("add", Some("x_prime_prime"), &["a", "b"]));
    assert_eq!(block[1], op("print", None, &["x_prime"]));
    assert_eq!(block[2], op("print", None, &["x_prime_prime"]));
    assert_eq!(block[3], op("mul", Some("x"), &["a", "b"]));
}

#[test]
fn value_table_gives_a_rename_that_is_not_taken() {
    let mut table = ValueTable::default();
    let a = table.num("a");
    let taken = table.num("x_prime");
    table.reserve("x_prime_prime");
    let (alias, rename) =
        table.value(InstValue { op: "mul".to_string(), args: vec![a, a] }, "x", true);
    assert_eq!(alias, None);
    assert_eq!(rename.as_deref(), Some("x_prime_prime_prime"));
    let x = table.num("x");
    assert_eq!(x, table.num("x_prime_prime_prime"));
    assert_ne!(x, taken);
    assert_eq!(table.root("x"), "x_prime_prime_prime");
    let (alias, rename) =
        table.value(InstValue { op: "mul".to_string(), args: vec![a, a] }, "y", false);
    assert_eq!(alias.as_deref(), Some("x_prime_prime_prime"));
    assert_eq!(rename, None);
    assert_eq!(table.num("y"), x);
    table.redefine("x");
    assert_ne!(table.num("x"), x);
    assert_eq!(table.num("y"), x);
}

#[test]
fn lvn_copies_keep_the_number_of_their_operand() {
    let mut block = vec![
        op("add", Some("x"), &["a", "b"]),
        op("id", Some("y"), &["x"]),
        op("mul", Some("z"), &["y", "y"]),
        op("mul", Some("w"), &["x", "x"]),
    ];
    local_value_numbering(&mut block);
    assert_eq!(block[1].op.as_deref(), Some("id"));
    assert_eq!(block[1].args, names(&["x"]));
    assert_eq!(block[1].ty, None);
    assert_eq!(block[2], op("mul", Some("z"), &["x", "x"]));
    assert_eq!(block[3].op.as_deref(), Some("id"));
    assert_eq!(block[3].args, names(&["z"]));
}

#[test]
fn lvn_does_not_reorder_operands_of_other_opcodes() {
    let mut block = vec![
        op("sub", Some("x"), &["a", "b"]),
        op("sub", Some("y"), &["b", "a"]),
        op("sub", Some("z"), &["a", "b"]),
    ];
    local_value_numbering(&mut block);
    assert_eq!(block[1].op.as_deref(), Some("sub"));
    assert_eq!(block[2].op.as_deref(), Some("id"));
    assert_eq!(block[2].args, names(&["x"]));
}

#[test]
fn test_defined_generic() {
    let f = diamond();
    let blocks = BasicBlock::new_blocks(&f.instrs);
    let facts = defined(&blocks, "A", NameSet::new());
    let labels: Vec<&str> = facts.iter().map(|f| f.0.as_str()).collect();
    assert_eq!(labels, vec!["A", "B", "C", "D"]);
    assert_eq!(sorted(&facts[0].1 .0), set(&[]));
    assert_eq!(sorted(&facts[0].1 .1), set(&["x"]));
    assert_eq!(sorted(&facts[1].1 .0), set(&["x"]));
    assert_eq!(sorted(&facts[2].1 .0), set(&["x"]));
    assert_eq!(sorted(&facts[1].1 .1), set(&["x", "y"]));
    assert_eq!(sorted(&facts[2].1 .1), set(&["x", "z"]));
    assert_eq!(sorted(&facts[3].1 .0), set(&["x", "y", "z"]));
    assert_eq!(sorted(&facts[3].1 .1), set(&["x", "y", "z"]));
}

#[test]
fn defined_variables_start_with_the_arguments() {
    let f = Function {
        name: "f".to_string(),
        args: Some(vec![Argument { name: "n".to_string(), ty: "int".to_string() }]),
        instrs: vec![label("entry"), op("print", None, &["n"]), op("ret", None, &[])],
    };
    let blocks = BasicBlock::new_blocks(&f.instrs);
    let mut args = NameSet::new();
    for a in f.args.as_ref().unwrap() {
        args.insert(a.name.clone());
    }
    let facts = defined(&blocks, "entry", args);
    assert_eq!(sorted(&facts[0].1 .0), set(&["n"]));
    assert_eq!(sorted(&facts[0].1 .1), set(&["n"]));
}

#[test]
fn test_live_generic() {
    let f = function(vec![
        label("entry"),
        constant("i", 0),
        constant("n", 5),
        label("head"),
        op("lt", Some("c"), &["i", "n"]),
        jump("br", &["body", "exit"], &["c"]),
        label("body"),
        op("add", Some("i"), &["i", "n"]),
        jump("jmp", &["head"], &[]),
        label("exit"),
        op("print", None, &["i"]),
        op("ret", None, &[]),
    ]);
    let blocks = BasicBlock::new_blocks(&f.instrs);
    let facts = live(&blocks);
    let labels: Vec<&str> = facts.iter().map(|f| f.0.as_str()).collect();
    assert_eq!(labels, vec!["entry", "head", "body", "exit"]);
    assert_eq!(sorted(&facts[0].1 .0), set(&[]));
    assert_eq!(sorted(&facts[0].1 .1), set(&["i", "n"]));
    assert_eq!(sorted(&facts[1].1 .0), set(&["i", "n"]));
    assert_eq!(sorted(&facts[1].1 .1), set(&["i", "n"]));
    assert_eq!(sorted(&facts[2].1 .0), set(&["n"]));
    assert_eq!(sorted(&facts[2].1 .1), set(&["i", "n"]));
    assert_eq!(sorted(&facts[3].1 .0), set(&["i"]));
    assert_eq!(sorted(&facts[3].1 .1), set(&[]));
}

#[test]
fn cfg_edges_follow_the_terminators() {
    let f = diamond();
    let blocks = BasicBlock::new_blocks(&f.instrs);
    assert!(Cfg::check(&blocks));
    let cfg = Cfg::new(&f);
    assert_eq!(cfg.entry, "A");
    assert_eq!(cfg.graph.keys, vec!["A", "B", "C", "D"]);
    let a = cfg.graph.get(&"A".to_string()).unwrap();
    let d = cfg.graph.get(&"D".to_string()).unwrap();
    assert_eq!(sorted(&a.successors), set(&["B", "C"]));
    assert_eq!(sorted(&a.predesessors), set(&[]));
    assert_eq!(sorted(&d.predesessors), set(&["B", "C"]));
    assert_eq!(sorted(&d.successors), set(&[]));
    for (label, entry) in cfg.graph.keys.iter().zip(cfg.graph.vals.iter()) {
        let last = entry.basic_block.0.last().unwrap();
        for s in &entry.successors.names {
            assert!(last.labels.as_ref().unwrap().contains(s));
            let target = cfg.graph.get(s).unwrap();
            assert!(target.predesessors.names.contains(label));
        }
    }
}

#[test]
fn check_refuses_a_jump_to_nowhere() {
    let f = function(vec![label("A"), jump("jmp", &["nowhere"], &[])]);
    let blocks = BasicBlock::new_blocks(&f.instrs);
    assert!(!Cfg::check(&blocks));
    let g = function(vec![label("A"), constant("x", 1), label("A"), op("ret", None, &[])]);
    assert!(!Cfg::check(&BasicBlock::new_blocks(&g.instrs)));
    assert!(!Cfg::check(&BasicBlock::new_blocks(&[])));
}

#[test]
fn try_new_names_the_function_and_the_defect() {
    let reason = |instrs: Vec<Instruction>| {
        let e = Cfg::try_new(&function(instrs)).unwrap_err();
        assert_eq!(e.function, "main");
        e.reason
    };
    assert_eq!(reason(vec![]), Defect::Empty);
    assert_eq!(
        reason(vec![Instruction {
            label: Some("a".to_string()),
            op: Some("ret".to_string()),
            ..Default::default()
        }]),
        Defect::Bare
    );
    assert_eq!(
        reason(vec![label("a"), jump("jmp", &["b"], &[]), label("a"), op("ret", None, &[])]),
        Defect::Repeated
    );
    assert_eq!(reason(vec![label("a"), jump("jmp", &["b"], &[])]), Defect::Dangling);
    let cfg = Cfg::try_new(&diamond()).unwrap();
    assert_eq!(cfg.entry, "A");
    assert_eq!(cfg.graph.keys.len(), 4);
}

#[test]
fn blocks_give_their_instructions() {
    let blocks = BasicBlock::new_blocks(&[op("ret", None, &[])]);
    assert_eq!(blocks[0].len(), 2);
    assert_eq!(blocks[0][0], label("b0"));
    let instrs: Vec<Instruction> = blocks.into_iter().next().unwrap().into();
    assert_eq!(instrs.len(), 2);
}

#[test]
fn test_dominators_dot() {
    let cfg = Cfg::new(&diamond());
    assert_eq!(cfg.reverse_post_order(), vec!["A", "C", "B", "D"]);
    let dom = cfg.dominators();
    assert_eq!(dom.keys, vec!["A", "B", "C", "D"]);
    assert_eq!(sorted(dom.get(&"A".to_string()).unwrap()), set(&["A"]));
    assert_eq!(sorted(dom.get(&"B".to_string()).unwrap()), set(&["A", "B"]));
    assert_eq!(sorted(dom.get(&"C".to_string()).unwrap()), set(&["A", "C"]));
    assert_eq!(sorted(dom.get(&"D".to_string()).unwrap()), set(&["A", "D"]));
}

#[test]
fn dominators_leave_out_blocks_that_cannot_be_reached() {
    let f = function(vec![
        label("A"),
        jump("jmp", &["C"], &[]),
        label("B"),
        jump("jmp", &["C"], &[]),
        label("C"),
        jump("jmp", &["A"], &[]),
    ]);
    let cfg = Cfg::new(&f);
    assert_eq!(cfg.reverse_post_order(), vec!["A", "C"]);
    let dom = cfg.dominators();
    assert_eq!(dom.keys, vec!["A", "C"]);
    assert_eq!(sorted(dom.get(&"A".to_string()).unwrap()), set(&["A"]));
    assert_eq!(sorted(dom.get(&"C".to_string()).unwrap()), set(&["A", "C"]));
}

#[test]
fn dominance_frontier_of_a_diamond() {
    let cfg = Cfg::new(&diamond());
    let df = cfg.dominant_fronteers();
    assert_eq!(sorted(df.get(&"B".to_string()).unwrap()), set(&["D"]));
    assert_eq!(sorted(df.get(&"C".to_string()).unwrap()), set(&["D"]));
    assert!(df.get(&"D".to_string()).is_none());
    assert!(df.get(&"A".to_string()).is_none());
}

#[test]
fn test_insert_phi() {
    let f = function(vec![
        label("entry"),
        constant("i", 0),
        constant("n", 5),
        label("head"),
        op("lt", Some("c"), &["i", "n"]),
        jump("br", &["body", "exit"], &["c"]),
        label("body"),
        op("add", Some("i"), &["i", "n"]),
        jump("jmp", &["head"], &[]),
        label("exit"),
        op("print", None, &["i"]),
        op("ret", None, &[]),
    ]);
    let mut cfg = Cfg::new(&f);
    cfg.insert_phi();
    let head = cfg.graph.get(&"head".to_string()).unwrap();
    let phi = Instruction {
        op: Some("phi".to_string()),
        dest: Some("i".to_string()),
        args: names(&["i", "i"]),
        labels: names(&["entry", "body"]),
        ..Default::default()
    };
    let other = Instruction {
        op: Some("phi".to_string()),
        dest: Some("c".to_string()),
        args: names(&["c", "c"]),
        labels: names(&["entry", "body"]),
        ..Default::default()
    };
    assert_eq!(head.basic_block.0[0], label("head"));
    assert_eq!(head.basic_block.0[1], phi);
    assert_eq!(head.basic_block.0[2], other);
    assert_eq!(head.basic_block.0.len(), 5);
    for (label, entry) in cfg.graph.keys.iter().zip(cfg.graph.vals.iter()) {
        let block = &entry.basic_block.0;
        let mut seen_other = false;
        for i in &block[1..] {
            if i.op.as_deref() == Some("phi") {
                assert!(!seen_other, "merge after another instruction in {}", label);
                assert_eq!(i.args.as_ref().unwrap().len(), entry.predesessors.names.len());
                assert_eq!(i.labels.as_ref().unwrap().len(), entry.predesessors.names.len());
            } else {
                seen_other = true;
            }
        }
    }
    let body = cfg.graph.get(&"body".to_string()).unwrap();
    assert_eq!(body.basic_block.0.len(), 3);
}

fn sum_loop() -> Function {
    Function {
        name: "sum".to_string(),
        args: Some(vec![Argument { name: "n".to_string(), ty: "int".to_string() }]),
        instrs: vec![
            label("entry"),
            constant("i", 0),
            constant("acc", 0),
            label("head"),
            op("lt", Some("c"), &["i", "n"]),
            jump("br", &["body", "exit"], &["c"]),
            label("body"),
            op("add", Some("acc"), &["acc", "i"]),
            constant("one", 1),
            op("add", Some("i"), &["i", "one"]),
            jump("jmp", &["head"], &[]),
            label("exit"),
            op("print", None, &["acc"]),
            op("ret", None, &[]),
        ],
    }
}

fn phi(dest: &str, args: &[&str], labels: &[&str]) -> Instruction {
    Instruction {
        op: Some("phi".to_string()),
        dest: Some(dest.to_string()),
        args: names(args),
        labels: names(labels),
        ..Default::default()
    }
}

fn renamed(mut i: Instruction, dest: Option<&str>, args: &[&str]) -> Instruction {
    i.dest = dest.map(|d| d.to_string());
    i.args = names(args);
    i
}

#[test]
fn test_rename() {
    let mut cfg = Cfg::new(&sum_loop());
    cfg.insert_phi();
    assert!(cfg.rename().is_ok());
    let block = |l: &str| cfg.graph.get(&l.to_string()).unwrap().basic_block.0.clone();
    assert_eq!(
        block("entry"),
        vec![
            label("entry"),
            renamed(constant("i", 0), Some("i.1"), &[]),
            renamed(constant("acc", 0), Some("acc.1"), &[]),
            jump("jmp", &["head"], &[]),
        ]
    );
    assert_eq!(
        block("head"),
        vec![
            label("head"),
            phi("i.2", &["i.1", "i.3"], &["entry", "body"]),
            phi("acc.2", &["acc.1", "acc.3"], &["entry", "body"]),
            phi("c.1", &["c", "c.2"], &["entry", "body"]),
            phi("one.1", &["one", "one.2"], &["entry", "body"]),
            op("lt", Some("c.2"), &["i.2", "n"]),
            jump("br", &["body", "exit"], &["c.2"]),
        ]
    );
    assert_eq!(
        block("body"),
        vec![
            label("body"),
            op("add", Some("acc.3"), &["acc.2", "i.2"]),
            renamed(constant("one", 1), Some("one.2"), &[]),
            op("add", Some("i.3"), &["i.2", "one.2"]),
            jump("jmp", &["head"], &[]),
        ]
    );
    assert_eq!(
        block("exit"),
        vec![label("exit"), op("print", None, &["acc.2"]), op("ret", None, &[])]
    );
    let mut dests: Vec<String> = cfg
        .graph
        .vals
        .iter()
        .flat_map(|e| e.basic_block.0.iter())
        .filter_map(|i| i.dest.clone())
        .collect();
    let all = dests.len();
    dests.sort();
    dests.dedup();
    assert_eq!(dests.len(), all);
}

#[test]
fn rename_walks_the_dominator_tree() {
    let mut cfg = Cfg::new(&diamond());
    cfg.insert_phi();
    assert!(cfg.rename().is_ok());
    let d = cfg.graph.get(&"D".to_string()).unwrap().basic_block.0.clone();
    assert_eq!(d.last().unwrap(), &jump("ret", &[], &[]));
    assert_eq!(d[d.len() - 2], op("print", None, &["x.1"]).clone_without_type());
    assert_eq!(d[1], phi("y.2", &["y.1", "y"], &["B", "C"]));
    assert_eq!(d[2], phi("z.2", &["z", "z.1"], &["B", "C"]));
    assert_eq!(d.len(), 5);
}

#[test]
fn rename_reports_a_read_without_a_definition() {
    let f = function(vec![label("entry"), op("print", None, &["x"]), op("ret", None, &[])]);
    let mut cfg = Cfg::new(&f);
    let before = cfg.graph.vals[0].basic_block.0.clone();
    let err = cfg.rename().unwrap_err();
    assert_eq!(err.variable, "x");
    assert_eq!(err.block, "entry");
    assert_eq!(cfg.graph.vals[0].basic_block.0, before);
}

fn invariant_loop() -> Vec<Instruction> {
    vec![
        label("entry"),
        constant("k1", 2),
        constant("k2", 3),
        constant("one", 1),
        constant("acc", 0),
        constant("i", 0),
        jump("jmp", &["head"], &[]),
        label("head"),
        op("lt", Some("c"), &["i", "k2"]),
        jump("br", &["body", "exit"], &["c"]),
        label("body"),
        op("mul", Some("t"), &["k1", "k2"]),
        op("add", Some("acc"), &["acc", "t"]),
        op("add", Some("i"), &["i", "one"]),
        jump("jmp", &["head"], &[]),
        label("exit"),
        op("print", None, &["acc"]),
        op("ret", None, &[]),
    ]
}

#[test]
fn test_loop_invariant_code_motion() {
    let mut blocks = BasicBlock::new_blocks(&invariant_loop());
    let lp = Loop {
        headers: vec!["head".to_string()],
        members: vec!["head".to_string(), "body".to_string()],
    };
    assert_eq!(loop_invariant_code_motion(&mut blocks, &lp), Hoist::Done);
    let labels: Vec<&str> = blocks.iter().map(|b| b.0[0].label.as_deref().unwrap()).collect();
    assert_eq!(labels, vec!["entry", "preheader0", "head", "body", "exit"]);
    assert_eq!(blocks[0].0.last().unwrap(), &jump("jmp", &["preheader0"], &[]));
    assert_eq!(
        blocks[1].0,
        vec![
            label("preheader0"),
            op("mul", Some("t"), &["k1", "k2"]),
            jump("jmp", &["head"], &[]),
        ]
    );
    assert_eq!(
        blocks[3].0,
        vec![
            label("body"),
            op("add", Some("acc"), &["acc", "t"]),
            op("add", Some("i"), &["i", "one"]),
            jump("jmp", &["head"], &[]),
        ]
    );
    assert_eq!(blocks[2].0.len(), 3);
    assert_eq!(blocks[3].0.last().unwrap(), &jump("jmp", &["head"], &[]));
}

#[test]
fn licm_moves_what_depends_on_moved_instructions() {
    let mut blocks = BasicBlock::new_blocks(&[
        label("entry"),
        constant("k", 2),
        label("loop"),
        op("add", Some("a"), &["k", "k"]),
        op("mul", Some("b"), &["a", "a"]),
        op("add", Some("i"), &["i", "b"]),
        op("print", None, &["k"]),
        jump("br", &["loop", "exit"], &["i"]),
        label("exit"),
        op("ret", None, &[]),
    ]);
    let lp = Loop { headers: vec!["loop".to_string()], members: vec!["loop".to_string()] };
    assert_eq!(loop_invariant_code_motion(&mut blocks, &lp), Hoist::Done);
    assert_eq!(
        blocks[1].0,
        vec![
            label("preheader0"),
            op("add", Some("a"), &["k", "k"]),
            op("mul", Some("b"), &["a", "a"]),
            jump("jmp", &["loop"], &[]),
        ]
    );
    assert_eq!(blocks[2].0.len(), 4);
    assert_eq!(blocks[2].0.last().unwrap(), &jump("br", &["loop", "exit"], &["i"]));
}

#[test]
fn licm_leaves_a_read_that_comes_before_the_definition() {
    let mut blocks = BasicBlock::new_blocks(&[
        label("entry"),
        constant("k", 2),
        label("loop"),
        op("mul", Some("b"), &["a", "a"]),
        op("add", Some("a"), &["k", "k"]),
        op("add", Some("i"), &["i", "b"]),
        jump("br", &["loop", "exit"], &["i"]),
        label("exit"),
        op("ret", None, &[]),
    ]);
    let lp = Loop { headers: vec!["loop".to_string()], members: vec!["loop".to_string()] };
    assert_eq!(loop_invariant_code_motion(&mut blocks, &lp), Hoist::Done);
    assert_eq!(
        blocks[1].0,
        vec![
            label("preheader0"),
            op("add", Some("a"), &["k", "k"]),
            jump("jmp", &["loop"], &[]),
        ]
    );
    assert_eq!(
        blocks[2].0,
        vec![
            label("loop"),
            op("mul", Some("b"), &["a", "a"]),
            op("add", Some("i"), &["i", "b"]),
            jump("br", &["loop", "exit"], &["i"]),
        ]
    );
}

#[test]
fn licm_skips_a_loop_without_a_single_header() {
    let mut blocks = BasicBlock::new_blocks(&invariant_loop());
    let before: Vec<Vec<Instruction>> = blocks.iter().map(|b| b.0.clone()).collect();
    let two = Loop {
        headers: vec!["head".to_string(), "body".to_string()],
        members: vec!["head".to_string(), "body".to_string()],
    };
    assert_eq!(loop_invariant_code_motion(&mut blocks, &two), Hoist::Skipped);
    let unknown = Loop { headers: vec!["nowhere".to_string()], members: vec![] };
    assert_eq!(loop_invariant_code_motion(&mut blocks, &unknown), Hoist::Skipped);
    let after: Vec<Vec<Instruction>> = blocks.iter().map(|b| b.0.clone()).collect();
    assert_eq!(before, after);
}

#[test]
fn licm_picks_a_label_that_is_free() {
    let mut blocks = BasicBlock::new_blocks(&[
        label("preheader0"),
        jump("jmp", &["preheader1"], &[]),
        label("preheader1"),
        jump("jmp", &["preheader1"], &[]),
    ]);
    let lp = Loop { headers: vec!["preheader1".to_string()], members: vec!["preheader1".to_string()] };
    assert_eq!(loop_invariant_code_motion(&mut blocks, &lp), Hoist::Done);
    let labels: Vec<&str> = blocks.iter().map(|b| b.0[0].label.as_deref().unwrap()).collect();
    assert_eq!(labels, vec!["preheader0", "preheader2", "preheader1"]);
    assert_eq!(blocks[0].0[1], jump("jmp", &["preheader2"], &[]));
    assert_eq!(blocks[2].0[1], jump("jmp", &["preheader1"], &[]));
}

#[test]
fn test_dot() {
    let bril = Bril { functions: vec![diamond()] };
    assert_eq!(
        dot(&bril),
        "digraph main {\n  A;\n  B;\n  C;\n  D;\n  A -> B;\n  A -> C;\n  B -> D;\n  C -> D;\n}\n"
    );
}

#[test]
fn labels_count_past_nine() {
    let mut instrs = Vec::new();
    for _ in 0..12 {
        instrs.push(op("ret", None, &[]));
    }
    let blocks = BasicBlock::new_blocks(&instrs);
    let labels: Vec<String> = blocks.iter().map(|b| b.0[0].label.clone().unwrap()).collect();
    assert_eq!(labels[0], "b0");
    assert_eq!(labels[9], "b9");
    assert_eq!(labels[10], "b10");
    assert_eq!(labels[11], "b11");
}

#[test]
fn name_sets_behave_as_sets() {
    let mut s = NameSet::new();
    assert!(s.insert("a".to_string()));
    assert!(s.insert("b".to_string()));
    assert!(!s.insert("a".to_string()));
    assert_eq!(s.len(), 2);
    assert!(s.contains(&"a".to_string()));
    assert!(s.remove(&"a".to_string()));
    assert!(!s.remove(&"a".to_string()));
    assert!(!s.contains(&"a".to_string()));
    let mut t = NameSet::new();
    t.insert("b".to_string());
    assert!(s.same(&t));
    t.insert("c".to_string());
    assert!(!s.same(&t));
    assert!(s.subset_of(&t));
    s.union_with(&t);
    assert!(s.same(&t));
}

fn nested() -> Function {
    Function {
        name: "nested".to_string(),
        args: Some(vec![Argument { name: "n".to_string(), ty: "int".to_string() }]),
        instrs: vec![
            label("entry"),
            constant("i", 0),
            constant("s", 0),
            label("head"),
            op("lt", Some("c"), &["i", "n"]),
            jump("br", &["body", "exit"], &["c"]),
            label("body"),
            op("lt", Some("d"), &["s", "i"]),
            jump("br", &["then", "else"], &["d"]),
            label("then"),
            op("add", Some("s"), &["s", "i"]),
            jump("jmp", &["join"], &[]),
            label("else"),
            op("sub", Some("s"), &["s", "i"]),
            op("add", Some("t"), &["s", "s"]),
            jump("jmp", &["join"], &[]),
            label("join"),
            op("add", Some("i"), &["i", "s"]),
            jump("jmp", &["head"], &[]),
            label("exit"),
            op("print", None, &["s"]),
            op("ret", None, &[]),
        ],
    }
}

#[test]
fn ssa_gives_every_definition_its_own_name() {
    for f in [diamond(), sum_loop(), nested()] {
        let mut cfg = Cfg::new(&f);
        let before: Vec<usize> = cfg.graph.vals.iter().map(|e| e.basic_block.0.len()).collect();
        cfg.insert_phi();
        assert!(cfg.rename().is_ok());
        let instrs: Vec<&Instruction> =
            cfg.graph.vals.iter().flat_map(|e| e.basic_block.0.iter()).collect();
        let mut dests: Vec<&String> = instrs.iter().filter_map(|i| i.dest.as_ref()).collect();
        let all = dests.len();
        dests.sort();
        dests.dedup();
        assert_eq!(dests.len(), all);
        let formals: Vec<String> =
            f.args.iter().flatten().map(|a| a.name.clone()).collect();
        for i in &instrs {
            if i.op.as_deref() == Some("phi") {
                continue;
            }
            for a in i.args.iter().flatten() {
                assert!(dests.contains(&a) || formals.contains(a), "{} has no definition", a);
            }
        }
        for (e, len) in cfg.graph.vals.iter().zip(before) {
            let merges =
                e.basic_block.0.iter().filter(|i| i.op.as_deref() == Some("phi")).count();
            assert_eq!(e.basic_block.0.len(), len + merges);
            for (k, i) in e.basic_block.0.iter().enumerate() {
                if i.op.as_deref() == Some("phi") {
                    assert!(1 <= k && k <= merges);
                    assert_eq!(i.args.as_ref().unwrap().len(), e.predesessors.names.len());
                }
            }
        }
    }
}

#[test]
fn dominators_of_a_nested_program() {
    let cfg = Cfg::new(&nested());
    let dom = cfg.dominators();
    let of = |l: &str| sorted(dom.get(&l.to_string()).unwrap());
    assert_eq!(of("entry"), set(&["entry"]));
    assert_eq!(of("head"), set(&["entry", "head"]));
    assert_eq!(of("body"), set(&["entry", "head", "body"]));
    assert_eq!(of("then"), set(&["entry", "head", "body", "then"]));
    assert_eq!(of("else"), set(&["entry", "head", "body", "else"]));
    assert_eq!(of("join"), set(&["entry", "head", "body", "join"]));
    assert_eq!(of("exit"), set(&["entry", "head", "exit"]));
    for label in &cfg.graph.keys {
        let d = dom.get(label).unwrap();
        assert!(d.contains(&cfg.entry));
        assert!(d.contains(label));
    }
    let order = cfg.reverse_post_order();
    assert_eq!(order[0], "entry");
    assert_eq!(order.len(), 7);
    let at = |l: &str| order.iter().position(|x| x == l).unwrap();
    assert!(at("head") < at("body"));
    assert!(at("body") < at("then"));
    assert!(at("body") < at("else"));
    assert!(at("then") < at("join"));
    assert!(at("else") < at("join"));
    assert!(at("head") < at("exit"));
}

#[test]
fn lvn_copies_a_computation_that_is_repeated_further_down() {
    let mut block = vec![
        op("add", Some("x"), &["a", "b"]),
        op("mul", Some("z"), &["a", "b"]),
        constant("c", 1),
        op("add", Some("y"), &["b", "a"]),
        op("mul", Some("w"), &["a", "b"]),
    ];
    local_value_numbering(&mut block);
    assert_eq!(block[3].op.as_deref(), Some("id"));
    assert_eq!(block[3].dest.as_deref(), Some("y"));
    assert_eq!(block[3].args, names(&["x"]));
    assert_eq!(block[4].op.as_deref(), Some("id"));
    assert_eq!(block[4].args, names(&["z"]));
}

#[test]
fn lvn_keeps_a_computation_whose_argument_was_written_in_between() {
    let mut block = vec![
        op("add", Some("x"), &["a", "b"]),
        op("mul", Some("a"), &["b", "b"]),
        op("add", Some("y"), &["a", "b"]),
        op("id", Some("b"), &["x"]),
        op("add", Some("v"), &["a", "b"]),
    ];
    let before = block.clone();
    local_value_numbering(&mut block);
    assert_eq!(block[0], before[0]);
    assert_eq!(block[1], before[1]);
    assert_eq!(block[2], before[2]);
    assert_eq!(block[3].args, names(&["x"]));
    assert_eq!(block[4], op("add", Some("v"), &["a", "x"]));
}

#[test]
fn ssa_reads_only_what_was_defined_on_the_way() {
    for f in [diamond(), sum_loop(), nested()] {
        let mut cfg = Cfg::new(&f);
        cfg.insert_phi();
        assert!(cfg.rename().is_ok());
        let dom = cfg.dominators();
        let formals: Vec<String> =
            f.args.iter().flatten().map(|a| a.name.clone()).collect();
        for (label, e) in cfg.graph.keys.iter().zip(cfg.graph.vals.iter()) {
            let above = dom.get(label).unwrap();
            for (k, i) in e.basic_block.0.iter().enumerate() {
                if i.op.as_deref() == Some("phi") {
                    continue;
                }
                for a in i.args.iter().flatten() {
                    let earlier =
                        e.basic_block.0[..k].iter().any(|d| d.dest.as_ref() == Some(a));
                    let higher = cfg.graph.keys.iter().zip(cfg.graph.vals.iter()).any(
                        |(l2, e2)| {
                            l2 != label
                                && above.contains(l2)
                                && e2.basic_block.0.iter().any(|d| d.dest.as_ref() == Some(a))
                        },
                    );
                    assert!(
                        formals.contains(a) || earlier || higher,
                        "{} is read in {} before it is defined",
                        a,
                        label
                    );
                }
            }
        }
    }
}

#[test]
fn ssa_merges_name_what_was_defined_on_the_way_in() {
    for f in [diamond(), sum_loop(), nested()] {
        let mut before = Cfg::new(&f);
        before.insert_phi();
        let mut cfg = Cfg::new(&f);
        cfg.insert_phi();
        assert!(cfg.rename().is_ok());
        let dom = cfg.dominators();
        let formals: Vec<String> =
            f.args.iter().flatten().map(|a| a.name.clone()).collect();
        let mut filled = 0;
        for (e, e0) in cfg.graph.vals.iter().zip(before.graph.vals.iter()) {
            for (i, i0) in e.basic_block.0.iter().zip(e0.basic_block.0.iter()) {
                if i.op.as_deref() != Some("phi") {
                    continue;
                }
                let slots = i.args.as_ref().unwrap().iter().zip(i0.args.as_ref().unwrap());
                for ((a, a0), from) in slots.zip(i.labels.as_ref().unwrap()) {
                    if a == a0 {
                        continue;
                    }
                    filled += 1;
                    let above = dom.get(from).unwrap();
                    let defined = cfg.graph.keys.iter().zip(cfg.graph.vals.iter()).any(
                        |(l2, e2)| {
                            above.contains(l2)
                                && e2.basic_block.0.iter().any(|d| d.dest.as_ref() == Some(a))
                        },
                    );
                    assert!(
                        formals.contains(a) || defined,
                        "{} comes from {} without a definition",
                        a,
                        from
                    );
                }
            }
        }
        assert!(filled > 0);
    }
}

#[test]
fn lvn_reads_a_renamed_copy_after_its_source_is_written_again() {
    let mut block = vec![
        op("id", Some("b"), &["a"]),
        constant("a", 5),
        op("print", None, &["b"]),
        constant("b", 0),
        op("print", None, &["b"]),
    ];
    local_value_numbering(&mut block);
    assert_eq!(block[0].dest.as_deref(), Some("b_prime"));
    assert_eq!(block[0].args, names(&["a"]));
    assert_eq!(block[1], constant("a", 5));
    assert_eq!(block[2].args, names(&["b_prime"]));
    assert_eq!(block[3], constant("b", 0));
    assert_eq!(block[4].args, names(&["b"]));
}

#[test]
fn the_head_of_a_loop_lies_in_its_own_frontier() {
    let f = function(vec![
        label("entry"),
        constant("c", 1),
        jump("jmp", &["head"], &[]),
        label("head"),
        op("add", Some("c"), &["c", "c"]),
        op("print", None, &["c"]),
        jump("br", &["head", "exit"], &["c"]),
        label("exit"),
        jump("ret", &[], &[]),
    ]);
    let mut cfg = Cfg::new(&f);
    let df = cfg.dominant_fronteers();
    assert_eq!(sorted(df.get(&"head".to_string()).unwrap()), set(&["head"]));
    assert!(df.get(&"entry".to_string()).is_none());
    cfg.insert_phi();
    assert!(cfg.rename().is_ok());
    let head = cfg.graph.get(&"head".to_string()).unwrap().basic_block.0.clone();
    assert_eq!(head[1], phi("c.2", &["c.1", "c.3"], &["entry", "head"]));
    assert_eq!(head[2], op("add", Some("c.3"), &["c.2", "c.2"]));
    assert_eq!(head[3].args, names(&["c.3"]));
}

#[test]
fn lvn_copies_a_computation_after_the_source_of_a_copy_is_written_again() {
    let mut block = vec![
        op("id", Some("x"), &["y"]),
        op("add", Some("t1"), &["x", "b"]),
        constant("y", 7),
        op("add", Some("t2"), &["x", "b"]),
        op("print", None, &["x"]),
        op("print", None, &["y"]),
    ];
    local_value_numbering(&mut block);
    assert_eq!(block[0].dest.as_deref(), Some("x"));
    assert_eq!(block[0].args, names(&["y"]));
    assert_eq!(block[1], op("add", Some("t1"), &["y", "b"]));
    assert_eq!(block[2], constant("y", 7));
    assert_eq!(block[3].op.as_deref(), Some("id"));
    assert_eq!(block[3].dest.as_deref(), Some("t2"));
    assert_eq!(block[3].args, names(&["t1"]));
    assert_eq!(block[4].args, names(&["x"]));
    assert_eq!(block[5].args, names(&["y"]));
}

#[test]
fn value_table_hands_a_number_to_the_first_heir() {
    let mut table = ValueTable::default();
    let y = table.num("y");
    let (alias, rename) = table.value(InstValue { op: "id".to_string(), args: vec![y] }, "x", false);
    assert_eq!(alias.as_deref(), Some("y"));
    assert_eq!(rename, None);
    let (alias, _) = table.value(InstValue { op: "id".to_string(), args: vec![y] }, "z", false);
    assert_eq!(alias.as_deref(), Some("y"));
    assert_eq!(table.root("z"), "y");
    table.redefine("y");
    assert_ne!(table.num("y"), y);
    assert_eq!(table.num("x"), y);
    assert_eq!(table.num("z"), y);
    assert_eq!(table.root("x"), "x");
    assert_eq!(table.root("z"), "x");
    table.redefine("x");
    assert_eq!(table.num("z"), y);
    assert_eq!(table.root("z"), "z");
    table.redefine("z");
    assert_ne!(table.num("z"), y);
    assert_eq!(table.root("z"), "z");
}

#[test]
fn ssa_names_are_names_of_their_variables() {
    let version_of = |a: &String, v: &String| match a.strip_prefix(&format!("{}.", v)) {
        Some(k) => !k.is_empty() && k.chars().all(|c| c.is_ascii_digit()),
        None => false,
    };
    for f in [diamond(), sum_loop(), nested()] {
        let mut before = Cfg::new(&f);
        before.insert_phi();
        let mut cfg = Cfg::new(&f);
        cfg.insert_phi();
        assert!(cfg.rename().is_ok());
        for (e, e0) in cfg.graph.vals.iter().zip(before.graph.vals.iter()) {
            for (i, i0) in e.basic_block.0.iter().zip(e0.basic_block.0.iter()) {
                match (&i.dest, &i0.dest) {
                    (Some(a), Some(v)) => assert!(version_of(a, v), "{} for {}", a, v),
                    (None, None) => {}
                    _ => panic!("a destination came or went"),
                }
                if i.op.as_deref() == Some("phi") {
                    let v = i0.dest.as_ref().unwrap();
                    for (a, a0) in i.args.as_ref().unwrap().iter().zip(i0.args.as_ref().unwrap()) {
                        assert_eq!(a0, v);
                        assert!(a == v || version_of(a, v), "{} for {}", a, v);
                    }
                }
            }
        }
    }
    let mut cfg = Cfg::new(&sum_loop());
    cfg.insert_phi();
    assert!(cfg.rename().is_ok());
    let head = cfg.graph.get(&"head".to_string()).unwrap();
    for v in ["acc", "i"] {
        let merges: Vec<&Instruction> = head
            .basic_block
            .0
            .iter()
            .filter(|m| {
                m.op.as_deref() == Some("phi")
                    && m.dest.as_ref().map(|d| version_of(d, &v.to_string())).unwrap_or(false)
            })
            .collect();
        assert_eq!(merges.len(), 1);
        let args = merges[0].args.as_ref().unwrap();
        assert_eq!(merges[0].labels, names(&["entry", "body"]));
        assert_eq!(args.len(), 2);
        assert_ne!(args[0], args[1]);
        assert!(version_of(&args[0], &v.to_string()) && version_of(&args[1], &v.to_string()));
    }
}
