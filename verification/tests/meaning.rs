use std::collections::BTreeMap;

use mybril::dce::{drop_kill, my_trivial_dce_graph, trivial_dce};
use mybril::ir::{Function, Instruction};
use mybril::lvn::local_value_numbering;

const POOL: [&str; 6] = ["a", "b", "c", "d", "a_prime", "b_prime_prime"];

struct Dice(u64);

impl Dice {
    fn roll(&mut self, sides: u64) -> usize {
        self.0 = self.0.wrapping_mul(6364136223846793005).wrapping_add(1442695040888963407);
        ((self.0 >> 33) % sides) as usize
    }
}

fn line(op: &str, dest: Option<&str>, args: &[&str]) -> Instruction {
    Instruction {
        op: Some(op.to_string()),
        dest: dest.map(|d| d.to_string()),
        ty: dest.map(|_| "int".to_string()),
        args: if args.is_empty() { None } else { Some(args.iter().map(|a| a.to_string()).collect()) },
        ..Default::default()
    }
}

fn block(dice: &mut Dice) -> Vec<Instruction> {
    let len = 2 + dice.roll(14);
    let mut out = Vec::new();
    for _ in 0..len {
        let dest = POOL[dice.roll(6)];
        let x = POOL[dice.roll(6)];
        let y = POOL[dice.roll(6)];
        out.push(match dice.roll(8) {
            0 => Instruction {
                value: Some(serde_json::Value::from(dice.roll(4) as i64)),
                ..line("const", Some(dest), &[])
            },
            1 | 2 => line("add", Some(dest), &[x, y]),
            3 => line("mul", Some(dest), &[x, y]),
            4 => line("sub", Some(dest), &[x, y]),
            5 => line("id", Some(dest), &[x]),
            _ => line("print", None, &[x]),
        });
    }
    out
}

/// Runs a block without jumps: the numbers it prints, and the variables at its end.
fn run(code: &[Instruction]) -> (Vec<i64>, BTreeMap<String, i64>) {
    let mut env: BTreeMap<String, i64> = BTreeMap::new();
    for (k, v) in POOL.iter().enumerate() {
        env.insert(v.to_string(), 10 + 7 * k as i64);
    }
    let mut printed = Vec::new();
    for i in code {
        let args: Vec<i64> = i.args.iter().flatten().map(|a| env[a]).collect();
        let value = match i.op.as_deref() {
            Some("const") => i.value.as_ref().unwrap().as_i64().unwrap(),
            Some("add") => args[0].wrapping_add(args[1]),
            Some("mul") => args[0].wrapping_mul(args[1]),
            Some("sub") => args[0].wrapping_sub(args[1]),
            Some("id") => args[0],
            Some("print") => {
                printed.push(args[0]);
                continue;
            }
            other => panic!("no meaning for {:?}", other),
        };
        env.insert(i.dest.clone().unwrap(), value);
    }
    (printed, env)
}

/// The values at the end of the variables that the block names.
fn of_block(code: &[Instruction], env: &BTreeMap<String, i64>) -> Vec<i64> {
    POOL.iter()
        .filter(|v| {
            code.iter().any(|i| {
                i.dest.as_deref() == Some(**v) || i.args.iter().flatten().any(|a| a == *v)
            })
        })
        .map(|v| env[*v])
        .collect()
}

#[test]
fn lvn_leaves_what_a_block_computes() {
    let mut dice = Dice(1);
    for round in 0..60000 {
        let before = block(&mut dice);
        let mut after = before.clone();
        local_value_numbering(&mut after);
        assert_eq!(after.len(), before.len());
        let (out0, env0) = run(&before);
        let (out1, env1) = run(&after);
        assert_eq!(out0, out1, "round {}: {:?} became {:?}", round, before, after);
        assert_eq!(of_block(&before, &env0), of_block(&before, &env1), "round {}: {:?} became {:?}", round, before, after);
    }
}

#[test]
fn lvn_turns_every_repeated_computation_into_a_copy() {
    let mut dice = Dice(7);
    let mut pairs = 0;
    for round in 0..60000 {
        let before = block(&mut dice);
        let mut after = before.clone();
        local_value_numbering(&mut after);
        for i in 0..before.len() {
            let first = &before[i];
            if first.dest.is_none() || first.args.is_none() || first.op.as_deref() == Some("id") {
                continue;
            }
            if after[i].op.as_deref() == Some("id") {
                continue;
            }
            let args = first.args.as_ref().unwrap();
            for j in i + 1..before.len() {
                if before[j - 1].dest.as_ref().map(|d| args.contains(d)).unwrap_or(false) {
                    break;
                }
                if before[j].op == first.op && before[j].args == first.args && before[j].dest.is_some() {
                    pairs += 1;
                    assert_eq!(after[j].op.as_deref(), Some("id"), "round {}: {:?}", round, before);
                    assert_eq!(
                        after[j].args.as_ref().unwrap(),
                        &vec![after[i].dest.clone().unwrap()],
                        "round {}: {:?}",
                        round,
                        before
                    );
                    let written_later = before[j + 1..].iter().any(|x| x.dest == before[j].dest);
                    assert_eq!(after[j].dest != before[j].dest, written_later);
                }
            }
        }
    }
    assert!(pairs > 1000);
}

#[test]
fn lvn_twice_leaves_what_a_block_computes() {
    let mut dice = Dice(2);
    for round in 0..20000 {
        let before = block(&mut dice);
        let mut after = before.clone();
        local_value_numbering(&mut after);
        local_value_numbering(&mut after);
        let (out0, env0) = run(&before);
        let (out1, env1) = run(&after);
        assert_eq!(out0, out1, "round {}: {:?} became {:?}", round, before, after);
        assert_eq!(of_block(&before, &env0), of_block(&before, &env1), "round {}: {:?} became {:?}", round, before, after);
    }
}

#[test]
fn dead_code_elimination_leaves_what_a_block_prints() {
    let mut dice = Dice(3);
    for round in 0..20000 {
        let before = block(&mut dice);
        let (out0, env0) = run(&before);

        let mut f = Function { name: "main".to_string(), args: None, instrs: before.clone() };
        trivial_dce(&mut f);
        assert!(f.instrs.len() <= before.len());
        assert_eq!(run(&f.instrs).0, out0, "round {}: {:?}", round, before);

        let mut g = Function { name: "main".to_string(), args: None, instrs: before.clone() };
        my_trivial_dce_graph(&mut g);
        assert!(g.instrs.len() <= before.len());
        assert_eq!(run(&g.instrs).0, out0, "round {}: {:?}", round, before);

        let mut killed = before.clone();
        drop_kill(&mut killed);
        assert!(killed.len() <= before.len());
        let (out1, env1) = run(&killed);
        assert_eq!(out1, out0, "round {}: {:?}", round, before);
        assert_eq!(of_block(&before, &env1), of_block(&before, &env0), "round {}: {:?}", round, before);
    }
}

#[test]
fn lvn_then_dead_code_elimination_leaves_what_a_block_prints() {
    let mut dice = Dice(4);
    for round in 0..20000 {
        let before = block(&mut dice);
        let (out0, _) = run(&before);
        let mut f = Function { name: "main".to_string(), args: None, instrs: before.clone() };
        local_value_numbering(&mut f.instrs);
        my_trivial_dce_graph(&mut f);
        assert_eq!(run(&f.instrs).0, out0, "round {}: {:?}", round, before);
    }
}

const VARS: [&str; 3] = ["a", "b", "c"];

fn jump_to(op: &str, labels: &[String], args: &[&str]) -> Instruction {
    Instruction {
        op: Some(op.to_string()),
        labels: Some(labels.to_vec()),
        args: if args.is_empty() { None } else { Some(args.iter().map(|a| a.to_string()).collect()) },
        ..Default::default()
    }
}

/// A program of a few blocks that jump to each other, never back to the first.
fn program(dice: &mut Dice) -> Function {
    let blocks = 2 + dice.roll(4);
    let target = |dice: &mut Dice| format!("l{}", 1 + dice.roll(blocks as u64 - 1));
    let mut instrs = Vec::new();
    for b in 0..blocks {
        instrs.push(Instruction { label: Some(format!("l{}", b)), ..Default::default() });
        for _ in 0..dice.roll(4) {
            let dest = VARS[dice.roll(3)];
            let x = VARS[dice.roll(3)];
            let y = VARS[dice.roll(3)];
            instrs.push(match dice.roll(6) {
                0 => Instruction {
                    value: Some(serde_json::Value::from(dice.roll(3) as i64)),
                    ..line("const", Some(dest), &[])
                },
                1 => line("add", Some(dest), &[x, y]),
                2 => line("sub", Some(dest), &[x, y]),
                3 => line("id", Some(dest), &[x]),
                _ => line("print", None, &[x]),
            });
        }
        let end = dice.roll(6);
        if end == 5 {
            // control falls through to the next block
            continue;
        }
        instrs.push(match end {
            0 => jump_to("ret", &[], &[]),
            1 | 2 => jump_to("jmp", &[target(dice)], &[]),
            _ => jump_to("br", &[target(dice), target(dice)], &[VARS[dice.roll(3)]]),
        });
    }
    Function {
        name: "main".to_string(),
        args: Some(
            VARS.iter()
                .map(|v| mybril::ir::Argument { name: v.to_string(), ty: "int".to_string() })
                .collect(),
        ),
        instrs,
    }
}

/// Runs a program for at most sixty blocks: the numbers it prints.
fn play(code: &[Instruction]) -> Vec<i64> {
    let mut env: BTreeMap<String, i64> = BTreeMap::new();
    for (k, v) in VARS.iter().enumerate() {
        env.insert(v.to_string(), k as i64);
    }
    let at = |l: &str| code.iter().position(|i| i.label.as_deref() == Some(l)).unwrap();
    let mut printed = Vec::new();
    let mut from = String::new();
    let mut here = code[0].label.clone().unwrap();
    let mut pc = 1;
    let mut blocks = 0;
    while pc < code.len() && blocks < 60 {
        let i = &code[pc];
        pc += 1;
        if i.label.is_some() {
            from = here;
            here = i.label.clone().unwrap();
            blocks += 1;
            continue;
        }
        let args: Vec<Option<i64>> =
            i.args.iter().flatten().map(|a| env.get(a).copied()).collect();
        let value = match i.op.as_deref() {
            Some("const") => i.value.as_ref().unwrap().as_i64(),
            Some("add") => Some(args[0].unwrap().wrapping_add(args[1].unwrap())),
            Some("sub") => Some(args[0].unwrap().wrapping_sub(args[1].unwrap())),
            Some("id") => args[0],
            Some("phi") => {
                // every merge at the head of a block reads what held at the end of
                // the block that control came from
                let mut merges = vec![i];
                while code[pc].op.as_deref() == Some("phi") {
                    merges.push(&code[pc]);
                    pc += 1;
                }
                let read: Vec<Option<i64>> = merges
                    .iter()
                    .map(|m| {
                        let slot =
                            m.labels.as_ref().unwrap().iter().position(|l| *l == from).unwrap();
                        env.get(&m.args.as_ref().unwrap()[slot]).copied()
                    })
                    .collect();
                for (m, v) in merges.iter().zip(read) {
                    match v {
                        Some(v) => env.insert(m.dest.clone().unwrap(), v),
                        None => env.remove(m.dest.as_ref().unwrap()),
                    };
                }
                continue;
            }
            Some("print") => {
                printed.push(args[0].unwrap());
                continue;
            }
            Some("ret") => break,
            Some("jmp") => {
                from = here;
                here = i.labels.as_ref().unwrap()[0].clone();
                pc = at(&here) + 1;
                blocks += 1;
                continue;
            }
            Some("br") => {
                let l = i.labels.as_ref().unwrap();
                from = here;
                here = if args[0].unwrap() != 0 { l[0].clone() } else { l[1].clone() };
                pc = at(&here) + 1;
                blocks += 1;
                continue;
            }
            other => panic!("no meaning for {:?}", other),
        };
        match value {
            Some(v) => env.insert(i.dest.clone().unwrap(), v),
            None => env.remove(i.dest.as_ref().unwrap()),
        };
    }
    printed
}

fn lines_of(cfg: &mybril::ssa::Cfg) -> Vec<Instruction> {
    cfg.graph.vals.iter().flat_map(|e| e.basic_block.0.iter().cloned()).collect()
}

#[test]
fn static_single_assignment_leaves_what_a_program_prints() {
    let mut dice = Dice(5);
    let mut merged = 0;
    for round in 0..20000 {
        let f = program(&mut dice);
        let before = play(&f.instrs);
        let mut cfg = mybril::ssa::Cfg::new(&f);
        assert_eq!(play(&lines_of(&cfg)), before, "round {}: {:?}", round, f.instrs);
        cfg.insert_phi();
        let with_merges = lines_of(&cfg);
        merged += with_merges.iter().filter(|i| i.op.as_deref() == Some("phi")).count();
        assert!(cfg.rename().is_ok());
        let after = lines_of(&cfg);
        assert_eq!(play(&after), before, "round {}: {:?} became {:?}", round, f.instrs, after);
        let mut dests: Vec<&String> = Vec::new();
        for (label, e) in cfg.graph.keys.iter().zip(cfg.graph.vals.iter()) {
            if cfg.dominators().get(label).map(|d| d.contains(&cfg.entry)).unwrap_or(false) {
                dests.extend(e.basic_block.0.iter().filter_map(|i| i.dest.as_ref()));
            }
        }
        let all = dests.len();
        dests.sort();
        dests.dedup();
        assert_eq!(dests.len(), all, "round {}: {:?}", round, after);
    }
    assert!(merged > 1000);
}

#[test]
fn passes_leave_what_a_program_prints() {
    let mut dice = Dice(6);
    for round in 0..20000 {
        let f = program(&mut dice);
        let before = play(&f.instrs);

        let mut g = Function { name: f.name.clone(), args: f.args.clone(), instrs: f.instrs.clone() };
        trivial_dce(&mut g);
        assert_eq!(play(&g.instrs), before, "round {}: {:?} became {:?}", round, f.instrs, g.instrs);

        let mut g = Function { name: f.name.clone(), args: f.args.clone(), instrs: f.instrs.clone() };
        my_trivial_dce_graph(&mut g);
        assert_eq!(play(&g.instrs), before, "round {}: {:?} became {:?}", round, f.instrs, g.instrs);

        let mut cut = Vec::new();
        let mut numbered = Vec::new();
        let mut cleared = Vec::new();
        for mut b in mybril::basic_block::BasicBlock::new_blocks(&f.instrs) {
            cut.extend(b.0.iter().cloned());
            local_value_numbering(&mut b.0);
            numbered.extend(b.0.iter().cloned());
            drop_kill(&mut b.0);
            cleared.extend(b.0);
        }
        assert_eq!(play(&cut), before, "round {}: {:?} became {:?}", round, f.instrs, cut);
        assert_eq!(play(&numbered), before, "round {}: {:?} became {:?}", round, f.instrs, numbered);
        assert_eq!(play(&cleared), before, "round {}: {:?} became {:?}", round, f.instrs, cleared);
    }
}
