use vstd::prelude::*;
use crate::basic_block::{blocks_view, ends_block, is_block, is_jump, is_label, BasicBlock};
use crate::dominance::{
    dominates, dominator_table, is_path, lemma_dominates_antisymmetric, lemma_dominates_basics,
    lemma_dominates_transitive, lemma_dominator_reachable, lemma_dominators_chain, ones,
    reachable, rows,
};
use crate::graph::{
    all_wf, has_edge, ints, label_at, lemma_picked, lemma_picked_same, picked, preds_at, succs_at,
    successor_table, targets_at,
};
use crate::ir::{Argument, Instruction, InstructionView};
use crate::names::NameMap;
use crate::ssa::{
    lemma_phis_among, lemma_with_phis, names_label, phi_for, phis_among, pred_labels,
    pred_names, sound, variables, with_phis, Cfg,
};
use crate::text::{
    clone_names, decimal, holds_text, lemma_decimal_injective, lemma_decimal_shape, names_of,
    push_decimal, Name,
};

verus! {

/// The names in use while a program is renamed: for every variable the names it
/// currently goes by, the latest last, and the number of names it has been given.
pub ghost struct Naming {
    pub stacks: Map<Name, Seq<Name>>,
    pub counters: Map<Name, nat>,
}

/// A program while it is renamed.
pub ghost struct Renaming {
    pub blocks: Seq<Seq<InstructionView>>,
    pub naming: Naming,
}

/// A read of a variable that has no name at that point: the variable, and the position
/// of the block that reads it.
pub ghost struct Missing {
    pub variable: Name,
    pub block: int,
}

/// The tree that the renaming walks: for every block its children, and its rank, which
/// is higher for a child than for its parent.
pub ghost struct Tree {
    pub children: Seq<Seq<int>>,
    pub rank: Seq<nat>,
}

/// The name that `v` currently goes by, if it has one.
pub open spec fn top(n: Naming, v: Name) -> Option<Name> {
    if n.stacks.contains_key(v) && n.stacks[v].len() > 0 {
        Some(n.stacks[v].last())
    } else {
        None
    }
}

/// The first position from `i` on at which `args` names a variable without a current
/// name; the length of `args` if there is none.
pub open spec fn missing_from(n: Naming, args: Seq<Name>, i: int) -> int
    decreases args.len() - i,
{
    if i < 0 || i >= args.len() {
        args.len() as int
    } else if top(n, args[i]) is None {
        i
    } else {
        missing_from(n, args, i + 1)
    }
}

/// The current names of the variables of `args`.
pub open spec fn tops(n: Naming, args: Seq<Name>) -> Seq<Name> {
    Seq::new(args.len(), |i: int| top(n, args[i])->0)
}

/// The `k`-th name of the variable `v`.
pub open spec fn version(v: Name, k: nat) -> Name {
    v + "."@ + decimal(k)
}

/// The number of names that `v` has been given.
pub open spec fn count(n: Naming, v: Name) -> nat {
    if n.counters.contains_key(v) {
        n.counters[v]
    } else {
        0
    }
}

/// The names that `v` goes by, none if it has none.
pub open spec fn stack_of(n: Naming, v: Name) -> Seq<Name> {
    if n.stacks.contains_key(v) {
        n.stacks[v]
    } else {
        seq![]
    }
}

/// The naming after `v` has been given its next name.
pub open spec fn defined(n: Naming, v: Name) -> Naming {
    Naming {
        stacks: n.stacks.insert(v, stack_of(n, v).push(version(v, count(n, v) + 1))),
        counters: n.counters.insert(v, count(n, v) + 1),
    }
}

/// Whether the instruction is a merge.
pub open spec fn is_phi(x: InstructionView) -> bool {
    x.op == Some("phi"@)
}

/// Whether the arguments of the instruction are rewritten: it has some and is no merge.
pub open spec fn reads_names(x: InstructionView) -> bool {
    x.args is Some && !is_phi(x)
}

/// An instruction renamed, with the naming after it; or the variable that it reads and
/// that has no name. Unless it is a merge, its arguments become the current names of
/// the variables they name. Then its destination, if it has one, gets its next name.
pub open spec fn renamed_line(n: Naming, x: InstructionView) -> Result<(Naming, InstructionView), Name> {
    if reads_names(x) && missing_from(n, x.args->0, 0) < x.args->0.len() {
        Err(x.args->0[missing_from(n, x.args->0, 0)])
    } else {
        let args = if reads_names(x) {
            Some(tops(n, x.args->0))
        } else {
            x.args
        };
        match x.dest {
            Some(v) => Ok(
                (
                    defined(n, v),
                    InstructionView { args: args, dest: Some(version(v, count(n, v) + 1)), ..x },
                ),
            ),
            None => Ok((n, InstructionView { args: args, ..x })),
        }
    }
}

/// The first `k` instructions of a block renamed in order, with the naming after them;
/// or the first variable that is read without a name.
pub open spec fn renamed_code(n: Naming, code: Seq<InstructionView>, k: int) -> Result<
    (Naming, Seq<InstructionView>),
    Name,
>
    decreases k,
{
    if k <= 0 {
        Ok((n, seq![]))
    } else {
        match renamed_code(n, code, k - 1) {
            Err(v) => Err(v),
            Ok((n1, done)) => match renamed_line(n1, code[k - 1]) {
                Err(v) => Err(v),
                Ok((n2, x)) => Ok((n2, done.push(x))),
            },
        }
    }
}

/// A merge with its slots for the predecessor `label` filled: a slot under that label
/// takes the current name of the variable it holds, where that variable has one. Any
/// other instruction stays.
pub open spec fn filled_line(n: Naming, label: Name, x: InstructionView) -> InstructionView {
    if is_phi(x) && x.args is Some && x.labels is Some {
        InstructionView {
            args: Some(
                Seq::new(
                    x.args->0.len(),
                    |i: int|
                        if i < x.labels->0.len() && x.labels->0[i] == label && top(n, x.args->0[i]) is Some {
                            top(n, x.args->0[i])->0
                        } else {
                            x.args->0[i]
                        },
                ),
            ),
            ..x
        }
    } else {
        x
    }
}

/// A block with the slots of its merges for the predecessor `label` filled.
pub open spec fn filled_code(n: Naming, label: Name, code: Seq<InstructionView>) -> Seq<
    InstructionView,
> {
    Seq::new(code.len(), |k: int| filled_line(n, label, code[k]))
}

/// The blocks after the successors of block `b`, in `flow`, have the slots of their
/// merges for `b` filled.
pub open spec fn filled_blocks(
    blocks: Seq<Seq<InstructionView>>,
    flow: Seq<Seq<InstructionView>>,
    n: Naming,
    b: int,
) -> Seq<Seq<InstructionView>> {
    Seq::new(
        blocks.len(),
        |j: int|
            if has_edge(flow, b, j) {
                filled_code(n, label_at(flow, b), blocks[j])
            } else {
                blocks[j]
            },
    )
}

/// The program after the walk has gone through block `b` and the part of the tree below
/// it; or the first read of a variable without a name. The instructions of `b` are
/// renamed, the merges of its successors get their slots for `b` filled, the children of
/// `b` are walked in order, and then the variables go by the names they had before.
/// `flow` is the program as it was before the renaming: it gives the edges.
pub open spec fn walked(t: Tree, flow: Seq<Seq<InstructionView>>, st: Renaming, b: int) -> Result<
    Renaming,
    Missing,
>
    decreases t.rank.len() - t.rank[b], 1nat, 0nat,
{
    match renamed_code(st.naming, st.blocks[b], st.blocks[b].len() as int) {
        Err(v) => Err(Missing { variable: v, block: b }),
        Ok((n1, code)) => {
            let blocks1 = st.blocks.update(b, code);
            let blocks2 = filled_blocks(blocks1, flow, n1, b);
            match walked_children(t, flow, Renaming { blocks: blocks2, naming: n1 }, b, 0) {
                Err(m) => Err(m),
                Ok(st3) => Ok(
                    Renaming {
                        blocks: st3.blocks,
                        naming: Naming { stacks: st.naming.stacks, counters: st3.naming.counters },
                    },
                ),
            }
        },
    }
}

/// The program after the walk has gone through the children of block `b` from the
/// `i`-th on.
pub open spec fn walked_children(
    t: Tree,
    flow: Seq<Seq<InstructionView>>,
    st: Renaming,
    b: int,
    i: int,
) -> Result<Renaming, Missing>
    decreases t.rank.len() - t.rank[b], 0nat, t.children[b].len() - i,
{
    if i < 0 || i >= t.children[b].len() {
        Ok(st)
    } else {
        let c = t.children[b][i];
        if 0 <= c < st.blocks.len() && c < t.rank.len() && t.rank[b] < t.rank[c] <= t.rank.len() {
            match walked(t, flow, st, c) {
                Err(m) => Err(m),
                Ok(st1) => walked_children(t, flow, st1, b, i + 1),
            }
        } else {
            walked_children(t, flow, st, b, i + 1)
        }
    }
}

/// The row of block `b` in the table of dominators: which blocks dominate it, none if it
/// cannot be reached.
pub open spec fn dominator_row(blocks: Seq<Seq<InstructionView>>, b: int) -> Seq<bool> {
    Seq::new(blocks.len(), |a: int| reachable(blocks, b) && dominates(blocks, a, b))
}

/// Whether `c` is a child of `b` in the dominator tree: `b` is another block that
/// dominates `c`, with fewer dominators than `c`, and every other block that dominates
/// `c` dominates `b` too.
pub open spec fn is_child(blocks: Seq<Seq<InstructionView>>, b: int, c: int) -> bool {
    &&& c != b
    &&& 0 <= b < blocks.len()
    &&& dominator_row(blocks, c)[b]
    &&& forall|d: int|
        0 <= d < blocks.len() && d != c && #[trigger] dominator_row(blocks, c)[d] ==> dominator_row(
            blocks,
            b,
        )[d]
    &&& ones(dominator_row(blocks, b)) < ones(dominator_row(blocks, c))
}

/// The dominator tree of a program.
pub open spec fn dominator_tree(blocks: Seq<Seq<InstructionView>>) -> Tree {
    Tree {
        children: Seq::new(
            blocks.len(),
            |b: int| picked(blocks.len() as int, |c: int| is_child(blocks, b, c)),
        ),
        rank: Seq::new(blocks.len(), |b: int| ones(dominator_row(blocks, b))),
    }
}

/// The naming at the start: every formal argument goes by its own name, and no variable
/// has been given a name.
pub open spec fn initial_naming(args: Seq<Name>) -> Naming
    decreases args.len(),
{
    if args.len() == 0 {
        Naming { stacks: Map::empty(), counters: Map::empty() }
    } else {
        let n = initial_naming(args.drop_last());
        Naming { stacks: n.stacks.insert(args.last(), seq![args.last()]), counters: n.counters }
    }
}

/// A program in static single assignment form; or the first read of a variable without
/// a name. The dominator tree is walked from the entry.
pub open spec fn renamed(blocks: Seq<Seq<InstructionView>>, args: Seq<Name>) -> Result<
    Seq<Seq<InstructionView>>,
    Missing,
> {
    match walked(
        dominator_tree(blocks),
        blocks,
        Renaming { blocks: blocks, naming: initial_naming(args) },
        0,
    ) {
        Ok(st) => Ok(st.blocks),
        Err(m) => Err(m),
    }
}

/// The stacks of names as contracts see them.
pub open spec fn stacks_of(m: NameMap<Vec<String>>) -> Map<Name, Seq<Name>> {
    Map::new(|k: Name| m.has(k), |k: Name| names_of(m.at(k)@))
}

/// The counters as contracts see them.
pub open spec fn counters_of(m: NameMap<usize>) -> Map<Name, nat> {
    Map::new(|k: Name| m.has(k), |k: Name| m.at(k) as nat)
}

/// The naming that the two maps stand for.
pub open spec fn naming_of(stack: NameMap<Vec<String>>, counter: NameMap<usize>) -> Naming {
    Naming { stacks: stacks_of(stack), counters: counters_of(counter) }
}

/// Whether no counter is above the number of names given so far.
pub open spec fn counted(counter: NameMap<usize>, log: Seq<String>) -> bool {
    forall|k: Name| #[trigger] counter.has(k) ==> counter.at(k) <= log.len()
}

fn current(stack: &NameMap<Vec<String>>, counter: Ghost<NameMap<usize>>, v: &String) -> (r: Option<
    String,
>)
    requires
        stack.wf(),
    ensures
        crate::text::name_of(r) == top(naming_of(*stack, counter@), v@),
{
    match stack.get(v) {
        Some(names) => {
            if names.len() > 0 {
                let r = names[names.len() - 1].clone();
                assert(names_of(names@).last() == r@);
                Some(r)
            } else {
                None
            }
        },
        None => None,
    }
}

fn rename_args(stack: &NameMap<Vec<String>>, counter: Ghost<NameMap<usize>>, args: &Vec<String>) -> (r:
    Result<Vec<String>, String>)
    requires
        stack.wf(),
    ensures
        match r {
            Ok(out) => missing_from(naming_of(*stack, counter@), names_of(args@), 0) == args.len()
                && names_of(out@) == tops(naming_of(*stack, counter@), names_of(args@)),
            Err(v) => {
                let i = missing_from(naming_of(*stack, counter@), names_of(args@), 0);
                0 <= i < args.len() && v@ == names_of(args@)[i]
            },
        },
{
    let ghost n = naming_of(*stack, counter@);
    let ghost a = names_of(args@);
    let mut out: Vec<String> = Vec::new();
    let mut i: usize = 0;
    while i < args.len()
        invariant
            i <= args.len(),
            stack.wf(),
            n == naming_of(*stack, counter@),
            a == names_of(args@),
            missing_from(n, a, 0) == missing_from(n, a, i as int),
            out.len() == i,
            forall|k: int| 0 <= k < i ==> (#[trigger] out@[k])@ == top(n, a[k])->0,
        decreases args.len() - i,
    {
        assert(a[i as int] == args@[i as int]@);
        match current(stack, counter, &args[i]) {
            Some(name) => {
                out.push(name);
            },
            None => {
                return Err(args[i].clone());
            },
        }
        i += 1;
    }
    assert(names_of(out@) =~= tops(n, a));
    Ok(out)
}

fn version_name(v: &String, k: usize) -> (r: String)
    ensures
        r@ == version(v@, k as nat),
{
    let mut r = v.clone();
    r.append(".");
    push_decimal(&mut r, k);
    r
}

fn define(
    stack: &mut NameMap<Vec<String>>,
    counter: &mut NameMap<usize>,
    log: &mut Vec<String>,
    v: &String,
) -> (r: String)
    requires
        old(stack).wf(),
        old(counter).wf(),
        counted(*old(counter), old(log)@),
    ensures
        final(stack).wf(),
        final(counter).wf(),
        counted(*final(counter), final(log)@),
        naming_of(*final(stack), *final(counter)) == defined(
            naming_of(*old(stack), *old(counter)),
            v@,
        ),
        r@ == version(v@, count(naming_of(*old(stack), *old(counter)), v@) + 1),
{
    let ghost n0 = naming_of(*stack, *counter);
    log.push(v.clone());
    let issued = log.len();
    let k1 = match counter.get(v) {
        Some(k) => *k,
        None => 0,
    };
    assert(k1 == count(n0, v@));
    assert(k1 < issued);
    let k = k1 + 1;
    counter.insert(v.clone(), k);
    let name = version_name(v, k);
    let mut names = match stack.get(v) {
        Some(s) => clone_names(s),
        None => Vec::new(),
    };
    assert(names_of(names@) =~= stack_of(n0, v@));
    names.push(name.clone());
    assert(names_of(names@) =~= stack_of(n0, v@).push(name@));
    stack.insert(v.clone(), names);
    proof {
        let n1 = naming_of(*stack, *counter);
        let want = defined(n0, v@);
        assert(n1.stacks =~= want.stacks);
        assert(n1.counters =~= want.counters);
    }
    name
}

fn rename_line(
    x: &mut Instruction,
    stack: &mut NameMap<Vec<String>>,
    counter: &mut NameMap<usize>,
    log: &mut Vec<String>,
) -> (r: Result<(), String>)
    requires
        old(stack).wf(),
        old(counter).wf(),
        counted(*old(counter), old(log)@),
    ensures
        final(stack).wf(),
        final(counter).wf(),
        counted(*final(counter), final(log)@),
        match renamed_line(naming_of(*old(stack), *old(counter)), old(x)@) {
            Ok((n, y)) => r is Ok && naming_of(*final(stack), *final(counter)) == n && final(x)@ == y,
            Err(v) => r is Err && r->Err_0@ == v,
        },
{
    let ghost n0 = naming_of(*stack, *counter);
    let ghost x0 = x@;
    let rewrite = x.args.is_some() && !holds_text(&x.op, "phi");
    assert(rewrite == reads_names(x0));
    if rewrite {
        let renamed = match &x.args {
            Some(args) => rename_args(stack, Ghost(*counter), args),
            None => Ok(Vec::new()),
        };
        match renamed {
            Ok(args) => {
                x.args = Some(args);
            },
            Err(v) => {
                return Err(v);
            },
        }
    }
    let dest = match &x.dest {
        Some(d) => Some(d.clone()),
        None => None,
    };
    match dest {
        Some(v) => {
            let name = define(stack, counter, log, &v);
            x.dest = Some(name);
        },
        None => {},
    }
    Ok(())
}

fn rename_code(
    block: &mut BasicBlock,
    stack: &mut NameMap<Vec<String>>,
    counter: &mut NameMap<usize>,
    log: &mut Vec<String>,
) -> (r: Result<(), String>)
    requires
        old(stack).wf(),
        old(counter).wf(),
        counted(*old(counter), old(log)@),
    ensures
        final(stack).wf(),
        final(counter).wf(),
        counted(*final(counter), final(log)@),
        match renamed_code(
            naming_of(*old(stack), *old(counter)),
            old(block)@,
            old(block)@.len() as int,
        ) {
            Ok((n, code)) => r is Ok && naming_of(*final(stack), *final(counter)) == n
                && final(block)@ == code,
            Err(v) => r is Err && r->Err_0@ == v,
        },
{
    let ghost n0 = naming_of(*stack, *counter);
    let ghost code = block@;
    let len = block.0.len();
    let mut k: usize = 0;
    while k < len
        invariant
            k <= len,
            len == block.0.len(),
            code.len() == len,
            code == old(block)@,
            n0 == naming_of(*old(stack), *old(counter)),
            stack.wf(),
            counter.wf(),
            counted(*counter, log@),
            renamed_code(n0, code, k as int) is Ok,
            renamed_code(n0, code, k as int)->Ok_0.0 == naming_of(*stack, *counter),
            renamed_code(n0, code, k as int)->Ok_0.1 == block@.take(k as int),
            forall|j: int| k <= j < len ==> #[trigger] block@[j] == code[j],
        decreases len - k,
    {
        let ghost before = block@;
        assert(block@[k as int] == code[k as int]);
        assert(block.0@[k as int]@ == code[k as int]);
        let r = rename_line(&mut block.0[k], stack, counter, log);
        match r {
            Err(v) => {
                proof {
                    assert(renamed_code(n0, code, k as int + 1) is Err);
                    assert(renamed_code(n0, code, k as int + 1)->Err_0 == v@);
                    lemma_renamed_code_fails(n0, code, k as int + 1, len as int);
                }
                return Err(v);
            },
            Ok(()) => {
                proof {
                    assert(block@.take(k + 1) =~= before.take(k as int).push(block@[k as int]));
                    assert forall|j: int| k + 1 <= j < len implies #[trigger] block@[j] == code[j] by {
                        assert(block@[j] == before[j]);
                    }
                }
            },
        }
        k += 1;
    }
    assert(block@.take(len as int) =~= block@);
    Ok(())
}

/// Once a read has no name, going on does not help.
pub proof fn lemma_renamed_code_fails(n: Naming, code: Seq<InstructionView>, k: int, m: int)
    requires
        renamed_code(n, code, k) is Err,
        k <= m,
    ensures
        renamed_code(n, code, m) == renamed_code(n, code, k),
    decreases m - k,
{
    if k < m {
        lemma_renamed_code_fails(n, code, k, m - 1);
    }
}

fn fill_line(x: &mut Instruction, label: &String, stack: &NameMap<Vec<String>>, counter: Ghost<
    NameMap<usize>,
>)
    requires
        stack.wf(),
    ensures
        final(x)@ == filled_line(naming_of(*stack, counter@), label@, old(x)@),
{
    let ghost n = naming_of(*stack, counter@);
    let ghost x0 = x@;
    if !holds_text(&x.op, "phi") {
        return ;
    }
    let filled: Option<Vec<String>> = match (&x.args, &x.labels) {
        (Some(args), Some(labels)) => {
            let mut out: Vec<String> = Vec::new();
            let mut i: usize = 0;
            let ghost a = names_of(args@);
            let ghost l = names_of(labels@);
            let ghost want = filled_line(n, label@, x0).args->0;
            while i < args.len()
                invariant
                    i <= args.len(),
                    stack.wf(),
                    n == naming_of(*stack, counter@),
                    a == names_of(args@),
                    l == names_of(labels@),
                    want.len() == args.len(),
                    forall|k: int|
                        0 <= k < args.len() ==> #[trigger] want[k] == (if k < l.len() && l[k] == label@
                            && top(n, a[k]) is Some {
                            top(n, a[k])->0
                        } else {
                            a[k]
                        }),
                    out.len() == i,
                    forall|k: int| 0 <= k < i ==> (#[trigger] out@[k])@ == want[k],
                decreases args.len() - i,
            {
                assert(a[i as int] == args@[i as int]@);
                let mut name = args[i].clone();
                if i < labels.len() {
                    assert(l[i as int] == labels@[i as int]@);
                    if labels[i] == *label {
                        match current(stack, counter, &args[i]) {
                            Some(t) => {
                                name = t;
                            },
                            None => {},
                        }
                    }
                }
                assert(name@ == want[i as int]);
                out.push(name);
                i += 1;
            }
            assert(names_of(out@) =~= want);
            Some(out)
        },
        _ => None,
    };
    match filled {
        Some(args) => {
            x.args = Some(args);
        },
        None => {},
    }
}

fn fill_code(block: &mut BasicBlock, label: &String, stack: &NameMap<Vec<String>>, counter: Ghost<
    NameMap<usize>,
>)
    requires
        stack.wf(),
    ensures
        final(block)@ == filled_code(naming_of(*stack, counter@), label@, old(block)@),
{
    let ghost n = naming_of(*stack, counter@);
    let ghost code = block@;
    let len = block.0.len();
    let mut k: usize = 0;
    while k < len
        invariant
            k <= len,
            len == block.0.len(),
            code.len() == len,
            stack.wf(),
            n == naming_of(*stack, counter@),
            forall|j: int| 0 <= j < k ==> #[trigger] block@[j] == filled_line(n, label@, code[j]),
            forall|j: int| k <= j < len ==> #[trigger] block@[j] == code[j],
        decreases len - k,
    {
        let ghost before = block@;
        assert(block@[k as int] == code[k as int]);
        assert(block.0@[k as int]@ == code[k as int]);
        fill_line(&mut block.0[k], label, stack, counter);
        proof {
            assert forall|j: int| 0 <= j < k + 1 implies #[trigger] block@[j] == filled_line(
                n,
                label@,
                code[j],
            ) by {
                if j < k {
                    assert(block@[j] == before[j]);
                }
            }
            assert forall|j: int| k + 1 <= j < len implies #[trigger] block@[j] == code[j] by {
                assert(block@[j] == before[j]);
            }
        }
        k += 1;
    }
    assert(block@ =~= filled_code(n, label@, code));
}

/// A read of a variable that has no dominating definition.
#[derive(Debug)]
pub struct UninitialisedUse {
    pub variable: String,
    pub block: String,
}

/// What the walk needs of a program: the labels of its blocks, and for every block its
/// successors, its children in the dominator tree, and its rank.
pub struct Walk {
    pub labels: Vec<String>,
    pub succ: Vec<Vec<usize>>,
    pub children: Vec<Vec<usize>>,
    pub rank: Vec<usize>,
}

impl Walk {
    /// Whether the tables are those of the tree `t` over the program `flow`.
    pub open spec fn fits(&self, t: Tree, flow: Seq<Seq<InstructionView>>) -> bool {
        &&& self.labels.len() == flow.len()
        &&& self.succ.len() == flow.len()
        &&& self.children.len() == flow.len()
        &&& self.rank.len() == flow.len()
        &&& t.rank.len() == flow.len()
        &&& t.children.len() == flow.len()
        &&& forall|j: int| 0 <= j < flow.len() ==> (#[trigger] self.labels@[j])@ == label_at(flow, j)
        &&& forall|j: int| 0 <= j < flow.len() ==> ints(#[trigger] self.succ@[j]@) == succs_at(flow, j)
        &&& forall|j: int| 0 <= j < flow.len() ==> ints(#[trigger] self.children@[j]@) == t.children[j]
        &&& forall|j: int| 0 <= j < flow.len() ==> #[trigger] self.rank@[j] == t.rank[j]
    }
}

fn clone_stacks(stack: &NameMap<Vec<String>>) -> (r: NameMap<Vec<String>>)
    requires
        stack.wf(),
    ensures
        r.wf(),
        stacks_of(r) == stacks_of(*stack),
{
    let mut vals: Vec<Vec<String>> = Vec::new();
    let mut i: usize = 0;
    while i < stack.vals.len()
        invariant
            i <= stack.vals.len(),
            vals.len() == i,
            forall|k: int| 0 <= k < i ==> (#[trigger] vals@[k])@ == stack.vals@[k]@,
        decreases stack.vals.len() - i,
    {
        vals.push(clone_names(&stack.vals[i]));
        i += 1;
    }
    let r = NameMap { keys: clone_names(&stack.keys), vals };
    proof {
        assert(names_of(r.keys@) =~= names_of(stack.keys@));
        assert forall|k: Name| r.has(k) <==> stack.has(k) by {}
        assert forall|k: Name| r.has(k) implies names_of(r.at(k)@) == names_of(stack.at(k)@) by {
            r.lemma_has(k);
            stack.lemma_has(k);
            assert(r.slot(k) == stack.slot(k)) by {
                stack.lemma_slot(r.slot(k));
            }
        }
        assert(stacks_of(r) =~= stacks_of(*stack));
    }
    r
}

fn _rename(
    blocks: &mut Vec<BasicBlock>,
    walk: &Walk,
    b: usize,
    stack: &mut NameMap<Vec<String>>,
    counter: &mut NameMap<usize>,
    log: &mut Vec<String>,
    Ghost(t): Ghost<Tree>,
    Ghost(flow): Ghost<Seq<Seq<InstructionView>>>,
) -> (r: Result<(), UninitialisedUse>)
    requires
        walk.fits(t, flow),
        old(blocks).len() == flow.len(),
        b < flow.len(),
        old(stack).wf(),
        old(counter).wf(),
        counted(*old(counter), old(log)@),
    ensures
        final(blocks).len() == old(blocks).len(),
        final(stack).wf(),
        final(counter).wf(),
        counted(*final(counter), final(log)@),
        match walked(
            t,
            flow,
            Renaming {
                blocks: blocks_view(old(blocks)@),
                naming: naming_of(*old(stack), *old(counter)),
            },
            b as int,
        ) {
            Ok(st) => r is Ok && blocks_view(final(blocks)@) == st.blocks && naming_of(
                *final(stack),
                *final(counter),
            ) == st.naming,
            Err(m) => r is Err && r->Err_0.variable@ == m.variable && 0 <= m.block < flow.len()
                && r->Err_0.block@ == label_at(flow, m.block),
        },
    decreases t.rank.len() - t.rank[b as int], 1nat, 0nat,
{
    let ghost st0 = Renaming {
        blocks: blocks_view(blocks@),
        naming: naming_of(*stack, *counter),
    };
    let n = blocks.len();
    let old_stack = clone_stacks(stack);
    assert(blocks@[b as int]@ == st0.blocks[b as int]);
    match rename_code(&mut blocks[b], stack, counter, log) {
        Err(v) => {
            return Err(UninitialisedUse { variable: v, block: walk.labels[b].clone() });
        },
        Ok(()) => {},
    }
    let ghost n1 = naming_of(*stack, *counter);
    let ghost blocks1 = blocks_view(blocks@);
    proof {
        assert(blocks1 =~= st0.blocks.update(b as int, blocks@[b as int]@));
        lemma_picked(flow.len() as int, |j: int| has_edge(flow, b as int, j));
    }
    let row = &walk.succ[b];
    let ghost targets = succs_at(flow, b as int);
    assert(ints(row@) == targets);
    let mut k: usize = 0;
    while k < row.len()
        invariant
            k <= row.len(),
            n == blocks.len(),
            n == flow.len(),
            b < n,
            walk.fits(t, flow),
            row == &walk.succ@[b as int],
            ints(row@) == targets,
            targets == succs_at(flow, b as int),
            targets.no_duplicates(),
            forall|j: int| #[trigger] targets.contains(j) <==> 0 <= j < n && has_edge(flow, b as int, j),
            stack.wf(),
            n1 == naming_of(*stack, *counter),
            blocks1.len() == n,
            forall|j: int|
                0 <= j < n ==> #[trigger] blocks@[j]@ == (if exists|i: int|
                    0 <= i < k && targets[i] == j {
                    filled_code(n1, label_at(flow, b as int), blocks1[j])
                } else {
                    blocks1[j]
                }),
        decreases row.len() - k,
    {
        let s = row[k];
        let ghost before = blocks_view(blocks@);
        proof {
            assert(targets[k as int] == s);
            assert(targets.contains(s as int));
            assert(!exists|i: int| 0 <= i < k && targets[i] == s as int) by {
                if exists|i: int| 0 <= i < k && targets[i] == s as int {
                    let i = choose|i: int| 0 <= i < k && targets[i] == s as int;
                    assert(targets[i] != targets[k as int]);
                }
            }
            assert(blocks@[s as int]@ == blocks1[s as int]);
        }
        fill_code(&mut blocks[s], &walk.labels[b], stack, Ghost(*counter));
        proof {
            assert forall|j: int| 0 <= j < n implies #[trigger] blocks@[j]@ == (if exists|i: int|
                0 <= i < k + 1 && targets[i] == j {
                filled_code(n1, label_at(flow, b as int), blocks1[j])
            } else {
                blocks1[j]
            }) by {
                if j == s {
                    assert(targets[k as int] == j);
                } else {
                    assert(blocks@[j]@ == before[j]);
                    if exists|i: int| 0 <= i < k + 1 && targets[i] == j {
                        let i = choose|i: int| 0 <= i < k + 1 && targets[i] == j;
                        assert(i < k);
                    }
                }
            }
        }
        k += 1;
    }
    let ghost blocks2 = blocks_view(blocks@);
    let ghost st2 = Renaming { blocks: blocks2, naming: n1 };
    proof {
        assert forall|j: int| 0 <= j < n implies #[trigger] blocks2[j] == filled_blocks(
            blocks1,
            flow,
            n1,
            b as int,
        )[j] by {
            assert(blocks2[j] == blocks@[j]@);
            if has_edge(flow, b as int, j) {
                assert(targets.contains(j));
                let i = choose|i: int| 0 <= i < targets.len() && targets[i] == j;
                assert(targets[i] == j);
            } else {
                if exists|i: int| 0 <= i < row.len() && targets[i] == j {
                    let i = choose|i: int| 0 <= i < row.len() && targets[i] == j;
                    assert(targets.contains(j));
                }
            }
        }
        assert(blocks2 =~= filled_blocks(blocks1, flow, n1, b as int));
    }
    let ghost target = walked_children(t, flow, st2, b as int, 0);
    let kids = &walk.children[b];
    assert(ints(kids@) == t.children[b as int]);
    let mut i: usize = 0;
    while i < kids.len()
        invariant
            i <= kids.len(),
            n == blocks.len(),
            n == flow.len(),
            b < n,
            walk.fits(t, flow),
            kids == &walk.children@[b as int],
            ints(kids@) == t.children[b as int],
            stack.wf(),
            counter.wf(),
            counted(*counter, log@),
            n == old(blocks).len(),
            target is Err ==> walked(
                t,
                flow,
                Renaming {
                    blocks: blocks_view(old(blocks)@),
                    naming: naming_of(*old(stack), *old(counter)),
                },
                b as int,
            ) == Err::<Renaming, Missing>(target->Err_0),
            target == walked_children(
                t,
                flow,
                Renaming { blocks: blocks_view(blocks@), naming: naming_of(*stack, *counter) },
                b as int,
                i as int,
            ),
        decreases kids.len() - i,
    {
        let c = kids[i];
        assert(t.children[b as int][i as int] == c);
        if c < n && walk.rank[b] < walk.rank[c] && walk.rank[c] <= n {
            match _rename(blocks, walk, c, stack, counter, log, Ghost(t), Ghost(flow)) {
                Err(e) => {
                    return Err(e);
                },
                Ok(()) => {},
            }
        }
        i += 1;
    }
    let ghost st3 = Renaming {
        blocks: blocks_view(blocks@),
        naming: naming_of(*stack, *counter),
    };
    assert(target == Ok::<Renaming, Missing>(st3));
    *stack = old_stack;
    Ok(())
}

/// Whether the second instruction is the first with, at most, other names for its
/// destination and its arguments.
pub open spec fn same_frame_line(x: InstructionView, y: InstructionView) -> bool {
    &&& x.label == y.label
    &&& x.labels == y.labels
    &&& x.op == y.op
    &&& x.ty == y.ty
    &&& x.value == y.value
    &&& x.dest is Some <==> y.dest is Some
    &&& x.args is Some <==> y.args is Some
    &&& x.args is Some ==> x.args->0.len() == y.args->0.len()
}

/// Whether the second program is the first with, at most, other names for destinations
/// and arguments.
pub open spec fn same_frame(a: Seq<Seq<InstructionView>>, b: Seq<Seq<InstructionView>>) -> bool {
    &&& a.len() == b.len()
    &&& forall|j: int| 0 <= j < a.len() ==> (#[trigger] a[j]).len() == b[j].len()
    &&& forall|j: int, k: int|
        0 <= j < a.len() && 0 <= k < a[j].len() ==> same_frame_line(#[trigger] a[j][k], b[j][k])
}

/// Renaming the instructions of a block changes only names.
pub proof fn lemma_renamed_code_frame(n: Naming, code: Seq<InstructionView>, k: int)
    requires
        0 <= k <= code.len(),
    ensures
        renamed_code(n, code, k) matches Ok((m, out)) ==> out.len() == k && forall|i: int|
            0 <= i < k ==> same_frame_line(code[i], #[trigger] out[i]),
    decreases k,
{
    if k > 0 {
        lemma_renamed_code_frame(n, code, k - 1);
        match renamed_code(n, code, k - 1) {
            Ok((n1, done)) => {
                match renamed_line(n1, code[k - 1]) {
                    Ok((n2, x)) => {
                        let out = done.push(x);
                        assert forall|i: int| 0 <= i < k implies same_frame_line(
                            code[i],
                            #[trigger] out[i],
                        ) by {
                            if i < k - 1 {
                                assert(out[i] == done[i]);
                            }
                        }
                    },
                    Err(_) => {},
                }
            },
            Err(_) => {},
        }
    }
}

/// The walk changes only names.
pub proof fn lemma_walked_frame(t: Tree, flow: Seq<Seq<InstructionView>>, st: Renaming, b: int)
    requires
        0 <= b < st.blocks.len(),
    ensures
        walked(t, flow, st, b) matches Ok(out) ==> same_frame(st.blocks, out.blocks),
    decreases t.rank.len() - t.rank[b], 1nat, 0nat,
{
    match renamed_code(st.naming, st.blocks[b], st.blocks[b].len() as int) {
        Err(_) => {},
        Ok((n1, code)) => {
            lemma_renamed_code_frame(st.naming, st.blocks[b], st.blocks[b].len() as int);
            let blocks1 = st.blocks.update(b, code);
            let blocks2 = filled_blocks(blocks1, flow, n1, b);
            let st2 = Renaming { blocks: blocks2, naming: n1 };
            assert(same_frame(st.blocks, blocks2)) by {
                assert forall|j: int, k: int|
                    0 <= j < st.blocks.len() && 0 <= k < st.blocks[j].len() implies same_frame_line(
                    #[trigger] st.blocks[j][k],
                    blocks2[j][k],
                ) by {
                    if j == b {
                        assert(same_frame_line(st.blocks[b][k], code[k]));
                    }
                }
            }
            lemma_walked_children_frame(t, flow, st2, b, 0);
            match walked_children(t, flow, st2, b, 0) {
                Ok(st3) => {
                    lemma_frame_transitive(st.blocks, blocks2, st3.blocks);
                },
                Err(_) => {},
            }
        },
    }
}

/// The walk through the children of a block changes only names.
pub proof fn lemma_walked_children_frame(
    t: Tree,
    flow: Seq<Seq<InstructionView>>,
    st: Renaming,
    b: int,
    i: int,
)
    ensures
        walked_children(t, flow, st, b, i) matches Ok(out) ==> same_frame(st.blocks, out.blocks),
    decreases t.rank.len() - t.rank[b], 0nat, t.children[b].len() - i,
{
    if 0 <= i < t.children[b].len() {
        let c = t.children[b][i];
        if 0 <= c < st.blocks.len() && c < t.rank.len() && t.rank[b] < t.rank[c] <= t.rank.len() {
            lemma_walked_frame(t, flow, st, c);
            match walked(t, flow, st, c) {
                Ok(st1) => {
                    lemma_walked_children_frame(t, flow, st1, b, i + 1);
                    match walked_children(t, flow, st1, b, i + 1) {
                        Ok(out) => {
                            lemma_frame_transitive(st.blocks, st1.blocks, out.blocks);
                        },
                        Err(_) => {},
                    }
                },
                Err(_) => {},
            }
        } else {
            lemma_walked_children_frame(t, flow, st, b, i + 1);
        }
    }
}

/// Changing only names twice changes only names.
pub proof fn lemma_frame_transitive(
    a: Seq<Seq<InstructionView>>,
    b: Seq<Seq<InstructionView>>,
    c: Seq<Seq<InstructionView>>,
)
    requires
        same_frame(a, b),
        same_frame(b, c),
    ensures
        same_frame(a, c),
{
    assert forall|j: int| 0 <= j < a.len() implies (#[trigger] a[j]).len() == c[j].len() by {
        assert(a[j].len() == b[j].len());
        assert(b[j].len() == c[j].len());
    }
    assert forall|j: int, k: int| 0 <= j < a.len() && 0 <= k < a[j].len() implies same_frame_line(
        #[trigger] a[j][k],
        c[j][k],
    ) by {
        assert(a[j].len() == b[j].len());
        assert(same_frame_line(a[j][k], b[j][k]));
        assert(same_frame_line(b[j][k], c[j][k]));
    }
}

/// A sound program with other names is sound, with the same labels and the same edges.
pub proof fn lemma_frame_sound(a: Seq<Seq<InstructionView>>, b: Seq<Seq<InstructionView>>)
    requires
        sound(a),
        same_frame(a, b),
    ensures
        sound(b),
        forall|j: int| 0 <= j < a.len() ==> #[trigger] label_at(b, j) == label_at(a, j),
        forall|j: int| 0 <= j < a.len() ==> #[trigger] targets_at(b, j) == targets_at(a, j),
        forall|j: int| 0 <= j < a.len() ==> #[trigger] pred_labels(b, j) == pred_labels(a, j),
{
    assert forall|j: int| 0 <= j < a.len() implies is_block(#[trigger] b[j]) && b[j].len() >= 2
        && label_at(b, j) == label_at(a, j) && targets_at(b, j) == targets_at(a, j) by {
        assert(is_block(a[j]) && a[j].len() >= 2);
        assert(a[j].len() == b[j].len());
        assert forall|k: int| 0 <= k < a[j].len() implies is_label(#[trigger] b[j][k]) == is_label(
            a[j][k],
        ) && is_jump(b[j][k]) == is_jump(a[j][k]) by {
            assert(same_frame_line(a[j][k], b[j][k]));
        }
        assert(same_frame_line(a[j][0], b[j][0]));
        assert(same_frame_line(a[j][a[j].len() - 1], b[j][a[j].len() - 1]));
        assert forall|k: int| 0 < k < b[j].len() implies !is_label(#[trigger] b[j][k]) by {
            assert(!is_label(a[j][k]));
        }
        assert forall|k: int| 0 <= k < b[j].len() - 1 implies !ends_block(#[trigger] b[j][k]) by {
            assert(!ends_block(a[j][k]));
        }
    }
    assert forall|i: int, j: int| 0 <= i < a.len() && 0 <= j < a.len() implies (has_edge(b, i, j)
        <==> has_edge(a, i, j)) by {
        assert(label_at(b, j) == label_at(a, j));
        assert(targets_at(b, i) == targets_at(a, i));
    }
    assert forall|j: int| 0 <= j < a.len() implies #[trigger] pred_labels(b, j) == pred_labels(a, j) by {
        assert forall|n: Name| pred_labels(b, j).contains(n) <==> pred_labels(a, j).contains(n) by {
            if pred_labels(b, j).contains(n) {
                let i = choose|i: int|
                    0 <= i < b.len() && #[trigger] label_at(b, i) == n && has_edge(b, i, j);
                assert(has_edge(a, i, j));
                assert(label_at(a, i) == n);
            }
            if pred_labels(a, j).contains(n) {
                let i = choose|i: int|
                    0 <= i < a.len() && #[trigger] label_at(a, i) == n && has_edge(a, i, j);
                assert(has_edge(b, i, j));
                assert(label_at(b, i) == n);
            }
        }
        assert(pred_labels(b, j) =~= pred_labels(a, j));
    }
    assert forall|i: int, j: int| 0 <= i < j < b.len() implies #[trigger] label_at(b, i)
        != #[trigger] label_at(b, j) by {
        assert(label_at(a, i) != label_at(a, j));
    }
    assert forall|j: int, k: int| 0 <= j < b.len() && 0 <= k < targets_at(b, j).len() implies names_label(
        b,
        #[trigger] targets_at(b, j)[k],
    ) by {
        assert(targets_at(b, j) == targets_at(a, j));
        assert(names_label(a, targets_at(a, j)[k]));
        let t = choose|t: int| 0 <= t < a.len() && #[trigger] label_at(a, t) == targets_at(a, j)[k];
        assert(label_at(b, t) == targets_at(b, j)[k]);
    }
}

fn count_ones(row: &Vec<bool>) -> (r: usize)
    ensures
        r == ones(row@),
        r <= row.len(),
{
    let mut r: usize = 0;
    let mut i: usize = 0;
    assert(row@.take(0) =~= seq![]);
    while i < row.len()
        invariant
            i <= row.len(),
            r == ones(row@.take(i as int)),
            r <= i,
        decreases row.len() - i,
    {
        assert(row@.take(i + 1).drop_last() =~= row@.take(i as int));
        assert(row@.take(i + 1).last() == row@[i as int]);
        if row[i] {
            r += 1;
        }
        i += 1;
    }
    assert(row@.take(row.len() as int) =~= row@);
    r
}

/// The tables that the walk needs: labels, successors, and the dominator tree.
pub fn build_walk(blocks: &[BasicBlock]) -> (w: Walk)
    requires
        all_wf(blocks@),
    ensures
        w.fits(dominator_tree(blocks_view(blocks@)), blocks_view(blocks@)),
{
    let ghost bv = blocks_view(blocks@);
    let ghost t = dominator_tree(bv);
    let n = blocks.len();
    let succ = successor_table(blocks);
    let dom = dominator_table(blocks);
    let mut labels: Vec<String> = Vec::new();
    let mut rank: Vec<usize> = Vec::new();
    let mut b: usize = 0;
    proof {
        assert forall|x: int| 0 <= x < n implies #[trigger] dom@[x]@ == dominator_row(bv, x) by {
            assert(rows(dom@)[x] == dom@[x]@);
            assert(dom@[x]@ =~= dominator_row(bv, x));
        }
    }
    while b < n
        invariant
            b <= n,
            n == blocks.len(),
            all_wf(blocks@),
            bv == blocks_view(blocks@),
            dom.len() == n,
            forall|x: int| 0 <= x < n ==> #[trigger] dom@[x]@ == dominator_row(bv, x),
            labels.len() == b,
            rank.len() == b,
            forall|x: int| 0 <= x < b ==> (#[trigger] labels@[x])@ == label_at(bv, x),
            forall|x: int| 0 <= x < b ==> #[trigger] rank@[x] == ones(dominator_row(bv, x)),
        decreases n - b,
    {
        assert(blocks@[b as int].wf());
        assert(blocks@[b as int].0@[0]@ == bv[b as int][0]);
        let label = match &blocks[b].0[0].label {
            Some(l) => l.clone(),
            None => String::new(),
        };
        labels.push(label);
        rank.push(count_ones(&dom[b]));
        b += 1;
    }
    let mut children: Vec<Vec<usize>> = Vec::new();
    let mut b: usize = 0;
    while b < n
        invariant
            b <= n,
            n == blocks.len(),
            bv == blocks_view(blocks@),
            t == dominator_tree(bv),
            dom.len() == n,
            forall|x: int| 0 <= x < n ==> #[trigger] dom@[x]@ == dominator_row(bv, x),
            rank.len() == n,
            forall|x: int| 0 <= x < n ==> #[trigger] rank@[x] == ones(dominator_row(bv, x)),
            children.len() == b,
            forall|x: int| 0 <= x < b ==> ints(#[trigger] children@[x]@) == t.children[x],
        decreases n - b,
    {
        let mut kids: Vec<usize> = Vec::new();
        let mut c: usize = 0;
        let ghost f = |c: int| is_child(bv, b as int, c);
        assert(ints(kids@) =~= picked(0, f));
        while c < n
            invariant
                c <= n,
                b < n,
                n == blocks.len(),
                bv == blocks_view(blocks@),
                dom.len() == n,
                forall|x: int| 0 <= x < n ==> #[trigger] dom@[x]@ == dominator_row(bv, x),
                rank.len() == n,
                forall|x: int| 0 <= x < n ==> #[trigger] rank@[x] == ones(dominator_row(bv, x)),
                f == |c: int| is_child(bv, b as int, c),
                ints(kids@) == picked(c as int, f),
            decreases n - c,
        {
            let ghost before = ints(kids@);
            let mut child = c != b && dom[c][b] && rank[b] < rank[c];
            if child {
                let mut d: usize = 0;
                while d < n
                    invariant
                        d <= n,
                        b < n,
                        c < n,
                        n == blocks.len(),
                        bv.len() == n,
                        dom.len() == n,
                        forall|x: int| 0 <= x < n ==> #[trigger] dom@[x]@ == dominator_row(bv, x),
                        child <==> forall|x: int|
                            0 <= x < d && x != c && #[trigger] dominator_row(bv, c as int)[x]
                                ==> dominator_row(bv, b as int)[x],
                    decreases n - d,
                {
                    assert(dom@[c as int]@ == dominator_row(bv, c as int));
                    assert(dom@[b as int]@ == dominator_row(bv, b as int));
                    if d != c && dom[c][d] && !dom[b][d] {
                        child = false;
                    }
                    d += 1;
                }
            }
            proof {
                assert(dom@[c as int]@ == dominator_row(bv, c as int));
                assert(child == is_child(bv, b as int, c as int));
                assert(f(c as int) == child);
            }
            if child {
                kids.push(c);
                assert(ints(kids@) =~= before.push(c as int));
            }
            c += 1;
        }
        children.push(kids);
        b += 1;
    }
    Walk { labels, succ, children, rank }
}

/// The names of the formal arguments, in order.
pub open spec fn argument_names(args: Seq<Argument>) -> Seq<Name> {
    Seq::new(args.len(), |i: int| args[i].name@)
}

impl Cfg {
    /// Brings the program into static single assignment form by walking the dominator
    /// tree from the entry. Every definition gets a fresh name, the variable followed by
    /// a dot and a number; every read gets the name that its variable goes by at that
    /// point, and a formal argument goes by its own name. A read, other than in a merge,
    /// of a variable that has no name is an error, and the graph then stays as it was.
    pub fn rename(&mut self) -> (r: Result<(), UninitialisedUse>)
        requires
            old(self).wf(),
        ensures
            match renamed(old(self).blocks(), argument_names(old(self).arguments@)) {
                Ok(blocks) => r is Ok && final(self).wf() && final(self).blocks() == blocks
                    && final(self).entry == old(self).entry && final(self).arguments == old(
                    self,
                ).arguments && final(self).graph.keys == old(self).graph.keys,
                Err(m) => r is Err && *final(self) == *old(self) && r->Err_0.variable@
                    == m.variable && 0 <= m.block < old(self).blocks().len() && r->Err_0.block@
                    == label_at(old(self).blocks(), m.block),
            },
    {
        let mut blocks = self.block_list();
        let ghost bv = self.blocks();
        let ghost names = argument_names(self.arguments@);
        let walk = build_walk(blocks.as_slice());
        let mut stack: NameMap<Vec<String>> = NameMap::new();
        let mut counter: NameMap<usize> = NameMap::new();
        let mut log: Vec<String> = Vec::new();
        let mut i: usize = 0;
        proof {
            assert(names.take(0) =~= seq![]);
            assert(stacks_of(stack) =~= initial_naming(names.take(0)).stacks);
            assert(counters_of(counter) =~= initial_naming(names.take(0)).counters);
        }
        while i < self.arguments.len()
            invariant
                i <= self.arguments.len(),
                *self == *old(self),
                names == argument_names(self.arguments@),
                stack.wf(),
                counter.wf(),
                counter.keys.len() == 0,
                naming_of(stack, counter) == initial_naming(names.take(i as int)),
            decreases self.arguments.len() - i,
        {
            let name = self.arguments[i].name.clone();
            let mut one: Vec<String> = Vec::new();
            one.push(name.clone());
            let ghost before = stacks_of(stack);
            stack.insert(name, one);
            proof {
                assert(names.take(i + 1).drop_last() =~= names.take(i as int));
                assert(names.take(i + 1).last() == name@);
                assert(names_of(one@) =~= seq![name@]);
                assert(stacks_of(stack) =~= before.insert(name@, seq![name@]));
            }
            i += 1;
        }
        proof {
            assert(names.take(self.arguments.len() as int) =~= names);
            assert(counted(counter, log@));
        }
        let ghost t = dominator_tree(bv);
        let ghost st0 = Renaming { blocks: bv, naming: initial_naming(names) };
        match _rename(&mut blocks, &walk, 0, &mut stack, &mut counter, &mut log, Ghost(t), Ghost(bv)) {
            Err(e) => {
                return Err(e);
            },
            Ok(()) => {},
        }
        let ghost out = blocks_view(blocks@);
        proof {
            lemma_walked_frame(t, bv, st0, 0);
            lemma_frame_sound(bv, out);
        }
        let n = blocks.len();
        let mut j: usize = 0;
        let ghost old_graph = self.graph;
        while j < n
            invariant
                j <= n,
                n == blocks.len(),
                n == self.graph.vals.len(),
                n == old_graph.vals.len(),
                out == blocks_view(blocks@),
                self.entry == old(self).entry,
                self.arguments == old(self).arguments,
                self.graph.keys == old_graph.keys,
                old_graph == old(self).graph,
                forall|x: int|
                    0 <= x < n ==> (#[trigger] self.graph.vals@[x]).successors == old_graph.vals@[x].successors
                        && self.graph.vals@[x].predesessors == old_graph.vals@[x].predesessors,
                forall|x: int| 0 <= x < j ==> (#[trigger] self.graph.vals@[x]).basic_block@ == out[x],
            decreases n - j,
        {
            self.graph.vals[j].basic_block = blocks[j].clone();
            j += 1;
        }
        proof {
            assert(self.blocks() =~= out);
            assert forall|x: int| 0 <= x < self.graph.keys.len() implies (
            #[trigger] self.graph.keys@[x])@ == label_at(self.blocks(), x) by {
                assert(old_graph.keys@[x]@ == label_at(bv, x));
                assert(label_at(out, x) == label_at(bv, x));
            }
            assert forall|x: int| 0 <= x < self.graph.keys.len() implies {
                let e = #[trigger] self.graph.vals@[x];
                &&& e.successors@ == targets_at(self.blocks(), x).to_set()
                &&& e.predesessors@ == pred_labels(self.blocks(), x)
                &&& e.successors.wf()
                &&& e.predesessors.wf()
            } by {
                let e0 = old_graph.vals@[x];
                assert(e0.successors@ == targets_at(bv, x).to_set());
                assert(targets_at(out, x) == targets_at(bv, x));
                assert(pred_labels(out, x) == pred_labels(bv, x));
            }
            assert(self.entry@ == label_at(self.blocks(), 0)) by {
                assert(label_at(out, 0) == label_at(bv, 0));
            }
        }
        Ok(())
    }
}

/// Whether the program holds no merge.
pub open spec fn without_phis(blocks: Seq<Seq<InstructionView>>) -> bool {
    forall|j: int, k: int|
        0 <= j < blocks.len() && 0 <= k < blocks[j].len() ==> !is_phi(#[trigger] blocks[j][k])
}

/// In a program brought into static single assignment form, the merges of a block stand
/// at its head, right after its label line, and each has as many slots, with as many
/// labels, as the block has predecessors.
pub proof fn lemma_merges_at_heads(
    blocks: Seq<Seq<InstructionView>>,
    args: Seq<Name>,
    out: Seq<Seq<InstructionView>>,
    f: int,
    k: int,
)
    requires
        sound(blocks),
        without_phis(blocks),
        renamed(with_phis(blocks), args) == Ok::<Seq<Seq<InstructionView>>, Missing>(out),
        0 <= f < out.len(),
        0 <= k < out[f].len(),
        is_phi(out[f][k]),
    ensures
        out.len() == blocks.len(),
        k >= 1,
        forall|i: int| 1 <= i <= k ==> is_phi(#[trigger] out[f][i]),
        out[f][k].args is Some && out[f][k].args->0.len() == preds_at(out, f).len(),
        out[f][k].labels is Some && out[f][k].labels->0.len() == preds_at(out, f).len(),
{
    let w = with_phis(blocks);
    let t = dominator_tree(w);
    let st0 = Renaming { blocks: w, naming: initial_naming(args) };
    lemma_with_phis(blocks);
    lemma_walked_frame(t, w, st0, 0);
    lemma_frame_sound(w, out);
    let vars = variables(blocks);
    let ps = phis_among(blocks, f, vars);
    let b = blocks[f];
    assert(w[f] == seq![b[0]] + ps + b.skip(1));
    assert(out[f].len() == w[f].len());
    assert forall|i: int| 0 <= i < w[f].len() implies (is_phi(#[trigger] w[f][i]) <==> 1 <= i
        <= ps.len()) by {
        if i == 0 {
            assert(w[f][i] == b[0]);
        } else if i <= ps.len() {
            assert(w[f][i] == ps[i - 1]);
            lemma_phis_among(blocks, f, vars, i - 1);
        } else {
            assert(w[f][i] == b[i - ps.len()]);
        }
    }
    assert forall|i: int| 0 <= i < w[f].len() implies is_phi(#[trigger] out[f][i]) == is_phi(
        w[f][i],
    ) by {
        assert(same_frame_line(w[f][i], out[f][i]));
    }
    assert(same_frame_line(w[f][k], out[f][k]));
    assert(is_phi(w[f][k]));
    assert forall|i: int| 1 <= i <= k implies is_phi(#[trigger] out[f][i]) by {
        assert(is_phi(w[f][i]));
    }
    lemma_phis_among(blocks, f, vars, k - 1);
    let v = choose|v: Name| ps[k - 1] == #[trigger] phi_for(blocks, f, v);
    assert(w[f][k] == phi_for(blocks, f, v));
    assert(pred_names(blocks, f).len() == preds_at(blocks, f).len());
    assert(preds_at(out, f) == preds_at(blocks, f)) by {
        let n = blocks.len() as int;
        let fo = |i: int| has_edge(out, i, f);
        let fb = |i: int| has_edge(blocks, i, f);
        assert forall|i: int| 0 <= i < n implies #[trigger] fo(i) == fb(i) by {
            assert(label_at(out, f) == label_at(w, f));
            assert(targets_at(out, i) == targets_at(w, i));
            assert(label_at(w, f) == label_at(blocks, f));
            assert(targets_at(w, i) == targets_at(blocks, i));
        }
        lemma_picked_same(n, fo, fb);
    }
}

/// A block that another block dominates has more dominators than that block, and all of
/// that block's dominators among them.
pub proof fn lemma_rank_strict(blocks: Seq<Seq<InstructionView>>, b: int, c: int)
    requires
        0 <= b < blocks.len(),
        0 <= c < blocks.len(),
        b != c,
        reachable(blocks, c),
        dominates(blocks, b, c),
    ensures
        ones(dominator_row(blocks, b)) < ones(dominator_row(blocks, c)),
        forall|d: int|
            0 <= d < blocks.len() && dominator_row(blocks, b)[d] ==> #[trigger] dominator_row(
                blocks,
                c,
            )[d],
{
    let rb = dominator_row(blocks, b);
    let rc = dominator_row(blocks, c);
    lemma_dominator_reachable(blocks, b, c);
    assert forall|d: int| 0 <= d < blocks.len() && rb[d] implies #[trigger] rc[d] by {
        lemma_dominates_transitive(blocks, d, b, c);
    }
    lemma_dominates_basics(blocks, c);
    assert(rc[c]);
    assert(!rb[c]) by {
        if dominates(blocks, c, b) {
            let p = choose|p: Seq<int>| is_path(blocks, p) && p[0] == 0 && #[trigger] p.last() == c;
            lemma_dominates_antisymmetric(blocks, c, b, p);
        }
    }
    lemma_ones_below(rb, rc, c);
}

/// A row that holds no more than another, and lacks one of its marks, has fewer marks.
pub proof fn lemma_ones_below(a: Seq<bool>, b: Seq<bool>, at: int)
    requires
        a.len() == b.len(),
        forall|i: int| 0 <= i < a.len() && a[i] ==> b[i],
        0 <= at < a.len(),
        b[at],
        !a[at],
    ensures
        ones(a) < ones(b),
        ones(b) <= b.len(),
    decreases a.len(),
{
    let a1 = a.drop_last();
    let b1 = b.drop_last();
    assert forall|i: int| 0 <= i < a1.len() && a1[i] implies b1[i] by {
        assert(a[i] ==> b[i]);
    }
    lemma_ones_le(a1, b1);
    if at < a.len() - 1 {
        lemma_ones_below(a1, b1, at);
        assert(a.last() ==> b.last());
    }
}

/// A row that holds no more than another has no more marks.
pub proof fn lemma_ones_le(a: Seq<bool>, b: Seq<bool>)
    requires
        a.len() == b.len(),
        forall|i: int| 0 <= i < a.len() && a[i] ==> b[i],
    ensures
        ones(a) <= ones(b),
        ones(b) <= b.len(),
    decreases a.len(),
{
    if a.len() > 0 {
        let a1 = a.drop_last();
        let b1 = b.drop_last();
        assert forall|i: int| 0 <= i < a1.len() && a1[i] implies b1[i] by {
            assert(a[i] ==> b[i]);
        }
        lemma_ones_le(a1, b1);
        assert(a.last() ==> b.last());
    }
}

/// Among the blocks below `n` that dominate `c` and are not `c`, one has the most
/// dominators.
pub proof fn lemma_closest(blocks: Seq<Seq<InstructionView>>, c: int, n: int) -> (b: int)
    requires
        1 <= n <= blocks.len(),
        c != 0,
    ensures
        0 <= b < n,
        b != c,
        dominates(blocks, b, c),
        forall|d: int|
            0 <= d < n && d != c && dominates(blocks, d, c) ==> ones(
                #[trigger] dominator_row(blocks, d),
            ) <= ones(dominator_row(blocks, b)),
    decreases n,
{
    lemma_dominates_basics(blocks, c);
    if n == 1 {
        0
    } else {
        let b = lemma_closest(blocks, c, n - 1);
        let d = n - 1;
        if d != c && dominates(blocks, d, c) && ones(dominator_row(blocks, d)) > ones(
            dominator_row(blocks, b),
        ) {
            d
        } else {
            b
        }
    }
}

/// Every block that can be reached, but the entry, is the child of a block that can be
/// reached.
pub proof fn lemma_parent(blocks: Seq<Seq<InstructionView>>, c: int) -> (b: int)
    requires
        0 < c < blocks.len(),
        reachable(blocks, c),
    ensures
        is_child(blocks, b, c),
        reachable(blocks, b),
{
    let b = lemma_closest(blocks, c, blocks.len() as int);
    lemma_dominator_reachable(blocks, b, c);
    lemma_rank_strict(blocks, b, c);
    assert forall|d: int|
        0 <= d < blocks.len() && d != c && #[trigger] dominator_row(blocks, c)[d] implies dominator_row(
        blocks,
        b,
    )[d] by {
        lemma_dominators_chain(blocks, d, b, c);
        lemma_dominator_reachable(blocks, d, c);
        lemma_dominates_basics(blocks, b);
        if !dominates(blocks, d, b) {
            assert(dominates(blocks, b, d));
            assert(b != d);
            lemma_rank_strict(blocks, b, d);
        }
    }
    b
}

/// Whether `p` runs down the tree: each block on it is a child of the one before, and of
/// higher rank.
pub open spec fn is_descent(t: Tree, p: Seq<int>) -> bool {
    &&& p.len() > 0
    &&& forall|k: int| 0 <= k < p.len() ==> 0 <= #[trigger] p[k] < t.rank.len()
    &&& forall|k: int|
        0 <= k < p.len() - 1 ==> t.children[#[trigger] p[k]].contains(p[k + 1]) && t.rank[p[k]]
            < t.rank[p[k + 1]] <= t.rank.len()
}

/// Whether block `c` lies below block `b` in the tree, or is `b`.
pub open spec fn below(t: Tree, b: int, c: int) -> bool {
    exists|p: Seq<int>| is_descent(t, p) && p[0] == b && #[trigger] p.last() == c
}

/// Every block that can be reached lies below the entry in the dominator tree.
pub proof fn lemma_tree_complete(blocks: Seq<Seq<InstructionView>>, c: int)
    requires
        0 <= c < blocks.len(),
        reachable(blocks, c),
    ensures
        below(dominator_tree(blocks), 0, c),
    decreases ones(dominator_row(blocks, c)),
{
    let t = dominator_tree(blocks);
    if c == 0 {
        let p = seq![0int];
        assert(is_descent(t, p) && p[0] == 0 && p.last() == c);
    } else {
        let b = lemma_parent(blocks, c);
        lemma_tree_complete(blocks, b);
        let p = choose|p: Seq<int>| is_descent(t, p) && p[0] == 0 && #[trigger] p.last() == b;
        let q = p.push(c);
        lemma_picked(blocks.len() as int, |x: int| is_child(blocks, b, x));
        lemma_ones_le(dominator_row(blocks, c), dominator_row(blocks, c));
        assert(t.children[b].contains(c));
        assert forall|k: int| 0 <= k < q.len() - 1 implies t.children[#[trigger] q[k]].contains(
            q[k + 1],
        ) && t.rank[q[k]] < t.rank[q[k + 1]] <= t.rank.len() by {
            if k < p.len() - 1 {
                assert(q[k] == p[k]);
                assert(q[k + 1] == p[k + 1]);
                assert(t.children[p[k]].contains(p[k + 1]));
            } else {
                assert(q[k] == b);
            }
        }
        assert forall|k: int| 0 <= k < q.len() implies 0 <= #[trigger] q[k] < t.rank.len() by {
            if k < p.len() {
                assert(q[k] == p[k]);
            }
        }
        assert(is_descent(t, q) && q[0] == 0 && q.last() == c);
    }
}

/// Different variables, and different numbers, give different names.
pub proof fn lemma_version_injective(v1: Name, k1: nat, v2: Name, k2: nat)
    requires
        version(v1, k1) == version(v2, k2),
    ensures
        v1 == v2,
        k1 == k2,
{
    reveal_strlit(".");
    let d1 = decimal(k1);
    let d2 = decimal(k2);
    let s = version(v1, k1);
    let s2 = version(v2, k2);
    lemma_decimal_shape(k1);
    lemma_decimal_shape(k2);
    assert("."@.len() == 1);
    assert("."@[0] == '.');
    assert(s.len() == v1.len() + 1 + d1.len());
    assert(s2.len() == v2.len() + 1 + d2.len());
    assert(s[v1.len() as int] == '.');
    assert(s2[v2.len() as int] == '.');
    if d1.len() < d2.len() {
        let at = v1.len() as int;
        assert(s2[at] == d2[at - v2.len() - 1]);
    } else if d2.len() < d1.len() {
        let at = v2.len() as int;
        assert(s[at] == d1[at - v1.len() - 1]);
    } else {
        assert(v1 =~= s.take(v1.len() as int));
        assert(v2 =~= s2.take(v2.len() as int));
        assert(d1 =~= s.skip(v1.len() as int + 1));
        assert(d2 =~= s2.skip(v2.len() as int + 1));
        lemma_decimal_injective(k1, k2);
    }
}

/// Whether `d` is a name that has been given to a variable.
pub open spec fn issued(n: Naming, d: Name) -> bool {
    exists|v: Name, m: nat| 1 <= m <= count(n, v) && d == #[trigger] version(v, m)
}

/// Whether the definitions in the blocks of `done` all have names that were given to
/// variables, and no two of them the same name.
pub open spec fn single(blocks: Seq<Seq<InstructionView>>, n: Naming, done: Set<int>) -> bool {
    &&& forall|j: int, k: int|
        done.contains(j) && 0 <= j < blocks.len() && 0 <= k < blocks[j].len() && (
        #[trigger] blocks[j][k]).dest is Some ==> issued(n, blocks[j][k].dest->0)
    &&& forall|j: int, k: int, j2: int, k2: int|
        done.contains(j) && done.contains(j2) && 0 <= j < blocks.len() && 0 <= j2 < blocks.len()
            && 0 <= k < blocks[j].len() && 0 <= k2 < blocks[j2].len() && (j != j2 || k != k2) && (
        #[trigger] blocks[j][k]).dest is Some && (#[trigger] blocks[j2][k2]).dest is Some
            ==> blocks[j][k].dest != blocks[j2][k2].dest
}

/// The next name of a variable has not been given, and what has been given stays given.
pub proof fn lemma_defined_fresh(n: Naming, v: Name)
    ensures
        !issued(n, version(v, count(n, v) + 1)),
        issued(defined(n, v), version(v, count(n, v) + 1)),
        forall|d: Name| issued(n, d) ==> issued(defined(n, v), d),
{
    let name = version(v, count(n, v) + 1);
    if issued(n, name) {
        let (v2, m) = choose|v2: Name, m: nat| 1 <= m <= count(n, v2) && name == #[trigger] version(v2, m);
        lemma_version_injective(v, count(n, v) + 1, v2, m);
    }
    let n2 = defined(n, v);
    assert(count(n2, v) == count(n, v) + 1);
    assert(1 <= count(n, v) + 1 <= count(n2, v) && name == version(v, count(n, v) + 1));
    assert forall|d: Name| issued(n, d) implies issued(n2, d) by {
        let (v2, m) = choose|v2: Name, m: nat| 1 <= m <= count(n, v2) && d == #[trigger] version(v2, m);
        assert(count(n2, v2) >= count(n, v2));
        assert(1 <= m <= count(n2, v2) && d == version(v2, m));
    }
}

/// The definitions of a renamed block have names that were given while it was renamed,
/// each another name.
pub proof fn lemma_renamed_code_single(n: Naming, code: Seq<InstructionView>, k: int)
    requires
        0 <= k <= code.len(),
    ensures
        renamed_code(n, code, k) matches Ok((m, out)) ==> {
            &&& out.len() == k
            &&& forall|i: int|
                0 <= i < k && (#[trigger] out[i]).dest is Some ==> issued(m, out[i].dest->0)
                    && !issued(n, out[i].dest->0)
            &&& forall|i: int, i2: int|
                0 <= i < i2 < k && (#[trigger] out[i]).dest is Some && (#[trigger] out[i2]).dest is Some
                    ==> out[i].dest != out[i2].dest
            &&& forall|d: Name| issued(n, d) ==> issued(m, d)
        },
    decreases k,
{
    if k > 0 {
        lemma_renamed_code_single(n, code, k - 1);
        match renamed_code(n, code, k - 1) {
            Ok((n1, done)) => {
                match renamed_line(n1, code[k - 1]) {
                    Ok((n2, x)) => {
                        let out = done.push(x);
                        match code[k - 1].dest {
                            Some(v) => {
                                lemma_defined_fresh(n1, v);
                            },
                            None => {},
                        }
                        assert forall|d: Name| issued(n, d) implies issued(n2, d) by {
                            assert(issued(n1, d));
                        }
                        assert forall|i: int| 0 <= i < k && (#[trigger] out[i]).dest is Some implies issued(
                            n2,
                            out[i].dest->0,
                        ) && !issued(n, out[i].dest->0) by {
                            if i < k - 1 {
                                assert(out[i] == done[i]);
                                assert(issued(n1, done[i].dest->0));
                            } else {
                                if issued(n, out[i].dest->0) {
                                    assert(issued(n1, out[i].dest->0));
                                }
                            }
                        }
                        assert forall|i: int, i2: int|
                            0 <= i < i2 < k && (#[trigger] out[i]).dest is Some && (
                            #[trigger] out[i2]).dest is Some implies out[i].dest != out[i2].dest by {
                            assert(out[i] == done[i]);
                            if i2 < k - 1 {
                                assert(out[i2] == done[i2]);
                            } else {
                                assert(issued(n1, done[i].dest->0));
                            }
                        }
                    },
                    Err(_) => {},
                }
            },
            Err(_) => {},
        }
    }
}

/// The blocks that lie below block `b` in the tree, with `b` itself.
pub open spec fn below_set(t: Tree, b: int) -> Set<int> {
    Set::new(|c: int| below(t, b, c))
}

/// Whether the walk goes from block `b` into block `c`, one of its children.
pub open spec fn goes_into(t: Tree, n: int, b: int, c: int) -> bool {
    0 <= c < n && c < t.rank.len() && t.rank[b] < t.rank[c] <= t.rank.len()
}

/// The blocks that lie below the children of `b` from the `i`-th on.
pub open spec fn rest_set(t: Tree, n: int, b: int, i: int) -> Set<int> {
    Set::new(
        |c: int|
            exists|i2: int|
                i <= i2 < t.children[b].len() && goes_into(t, n, b, #[trigger] t.children[b][i2]) && below(
                    t,
                    t.children[b][i2],
                    c,
                ),
    )
}

/// What holds of the blocks of a set holds of the blocks of a part of it.
pub proof fn lemma_single_subset(
    blocks: Seq<Seq<InstructionView>>,
    n: Naming,
    big: Set<int>,
    small: Set<int>,
)
    requires
        single(blocks, n, big),
        small.subset_of(big),
    ensures
        single(blocks, n, small),
{
}

/// A block below `b` is `b` or lies below one of its children.
pub proof fn lemma_below_unfold(t: Tree, n: int, b: int, c: int)
    requires
        below(t, b, c),
        t.rank.len() == n,
    ensures
        c == b || rest_set(t, n, b, 0).contains(c),
{
    let p = choose|p: Seq<int>| is_descent(t, p) && p[0] == b && #[trigger] p.last() == c;
    if p.len() > 1 {
        let q = p.skip(1);
        assert(t.children[p[0int]].contains(p[0int + 1]));
        let i = choose|i: int| 0 <= i < t.children[b].len() && t.children[b][i] == p[1];
        assert forall|k: int| 0 <= k < q.len() - 1 implies t.children[#[trigger] q[k]].contains(
            q[k + 1],
        ) && t.rank[q[k]] < t.rank[q[k + 1]] <= t.rank.len() by {
            assert(q[k] == p[k + 1]);
            assert(q[k + 1] == p[k + 1 + 1]);
            assert(t.children[p[k + 1]].contains(p[k + 1 + 1]));
        }
        assert forall|k: int| 0 <= k < q.len() implies 0 <= #[trigger] q[k] < t.rank.len() by {
            assert(q[k] == p[k + 1]);
        }
        assert(is_descent(t, q) && q[0] == p[1] && q.last() == c);
        assert(0 <= p[1] < t.rank.len());
        assert(goes_into(t, n, b, t.children[b][i]));
        assert(below(t, t.children[b][i], c));
    }
}

/// The walk from a block leaves the definitions of the blocks below it with names of
/// their own.
pub proof fn lemma_walked_single(
    t: Tree,
    flow: Seq<Seq<InstructionView>>,
    st: Renaming,
    b: int,
    done: Set<int>,
)
    requires
        0 <= b < st.blocks.len(),
        t.rank.len() == st.blocks.len(),
        single(st.blocks, st.naming, done),
    ensures
        walked(t, flow, st, b) matches Ok(out) ==> {
            &&& out.blocks.len() == st.blocks.len()
            &&& single(out.blocks, out.naming, done.union(below_set(t, b)))
            &&& forall|d: Name| issued(st.naming, d) ==> issued(out.naming, d)
        },
    decreases t.rank.len() - t.rank[b], 1nat, 0nat,
{
    let len = st.blocks[b].len() as int;
    match renamed_code(st.naming, st.blocks[b], len) {
        Err(_) => {},
        Ok((n1, code)) => {
            lemma_renamed_code_single(st.naming, st.blocks[b], len);
            let blocks1 = st.blocks.update(b, code);
            let blocks2 = filled_blocks(blocks1, flow, n1, b);
            let st2 = Renaming { blocks: blocks2, naming: n1 };
            let done1 = done.insert(b);
            assert forall|j: int, k: int|
                0 <= j < blocks2.len() && 0 <= k < blocks2[j].len() implies (
            #[trigger] blocks2[j][k]).dest == blocks1[j][k].dest && blocks2[j].len()
                == blocks1[j].len() by {}
            assert(single(blocks2, n1, done1)) by {
                assert forall|j: int, k: int|
                    done1.contains(j) && 0 <= j < blocks2.len() && 0 <= k < blocks2[j].len() && (
                    #[trigger] blocks2[j][k]).dest is Some implies issued(
                    n1,
                    blocks2[j][k].dest->0,
                ) by {
                    assert(blocks2[j][k].dest == blocks1[j][k].dest);
                    if j == b {
                        assert(blocks1[j][k] == code[k]);
                    } else {
                        assert(blocks1[j][k] == st.blocks[j][k]);
                        assert(issued(st.naming, st.blocks[j][k].dest->0));
                    }
                }
                assert forall|j: int, k: int, j2: int, k2: int|
                    done1.contains(j) && done1.contains(j2) && 0 <= j < blocks2.len() && 0 <= j2
                        < blocks2.len() && 0 <= k < blocks2[j].len() && 0 <= k2 < blocks2[j2].len() && (
                    j != j2 || k != k2) && (#[trigger] blocks2[j][k]).dest is Some && (
                    #[trigger] blocks2[j2][k2]).dest is Some implies blocks2[j][k].dest
                    != blocks2[j2][k2].dest by {
                    assert(blocks2[j][k].dest == blocks1[j][k].dest);
                    assert(blocks2[j2][k2].dest == blocks1[j2][k2].dest);
                    if j == b && j2 == b {
                        assert(blocks1[j][k] == code[k]);
                        assert(blocks1[j2][k2] == code[k2]);
                        if k < k2 {
                            assert(code[k].dest != code[k2].dest);
                        } else {
                            assert(code[k2].dest != code[k].dest);
                        }
                    } else if j == b {
                        assert(blocks1[j][k] == code[k]);
                        assert(blocks1[j2][k2] == st.blocks[j2][k2]);
                        assert(issued(st.naming, st.blocks[j2][k2].dest->0));
                        assert(!issued(st.naming, code[k].dest->0));
                    } else if j2 == b {
                        assert(blocks1[j2][k2] == code[k2]);
                        assert(blocks1[j][k] == st.blocks[j][k]);
                        assert(issued(st.naming, st.blocks[j][k].dest->0));
                        assert(!issued(st.naming, code[k2].dest->0));
                    } else {
                        assert(blocks1[j][k] == st.blocks[j][k]);
                        assert(blocks1[j2][k2] == st.blocks[j2][k2]);
                    }
                }
            }
            lemma_walked_children_single(t, flow, st2, b, 0, done1);
            match walked_children(t, flow, st2, b, 0) {
                Ok(st3) => {
                    let out = Renaming {
                        blocks: st3.blocks,
                        naming: Naming { stacks: st.naming.stacks, counters: st3.naming.counters },
                    };
                    let big = done1.union(rest_set(t, st.blocks.len() as int, b, 0));
                    assert forall|d: Name| issued(st3.naming, d) <==> issued(out.naming, d) by {
                        if issued(st3.naming, d) {
                            let (v, m) = choose|v: Name, m: nat|
                                1 <= m <= count(st3.naming, v) && d == #[trigger] version(v, m);
                            assert(1 <= m <= count(out.naming, v) && d == version(v, m));
                        }
                        if issued(out.naming, d) {
                            let (v, m) = choose|v: Name, m: nat|
                                1 <= m <= count(out.naming, v) && d == #[trigger] version(v, m);
                            assert(1 <= m <= count(st3.naming, v) && d == version(v, m));
                        }
                    }
                    assert(single(out.blocks, out.naming, big)) by {
                        assert forall|j: int, k: int|
                            big.contains(j) && 0 <= j < out.blocks.len() && 0 <= k
                                < out.blocks[j].len() && (#[trigger] out.blocks[j][k]).dest is Some implies issued(
                            out.naming,
                            out.blocks[j][k].dest->0,
                        ) by {
                            assert(issued(st3.naming, st3.blocks[j][k].dest->0));
                        }
                    }
                    assert(done.union(below_set(t, b)).subset_of(big)) by {
                        assert forall|c: int| done.union(below_set(t, b)).contains(c) implies big.contains(
                            c,
                        ) by {
                            if below(t, b, c) {
                                lemma_below_unfold(t, st.blocks.len() as int, b, c);
                            }
                        }
                    }
                    lemma_single_subset(out.blocks, out.naming, big, done.union(below_set(t, b)));
                    assert forall|d: Name| issued(st.naming, d) implies issued(out.naming, d) by {
                        assert(issued(n1, d));
                        assert(issued(st3.naming, d));
                    }
                },
                Err(_) => {},
            }
        },
    }
}

/// The walk through the children of a block leaves the definitions of the blocks below
/// them with names of their own.
pub proof fn lemma_walked_children_single(
    t: Tree,
    flow: Seq<Seq<InstructionView>>,
    st: Renaming,
    b: int,
    i: int,
    done: Set<int>,
)
    requires
        t.rank.len() == st.blocks.len(),
        0 <= i,
        single(st.blocks, st.naming, done),
    ensures
        walked_children(t, flow, st, b, i) matches Ok(out) ==> {
            &&& out.blocks.len() == st.blocks.len()
            &&& single(
                out.blocks,
                out.naming,
                done.union(rest_set(t, st.blocks.len() as int, b, i)),
            )
            &&& forall|d: Name| issued(st.naming, d) ==> issued(out.naming, d)
        },
    decreases t.rank.len() - t.rank[b], 0nat, t.children[b].len() - i,
{
    let n = st.blocks.len() as int;
    if i < t.children[b].len() {
        let c = t.children[b][i];
        if 0 <= c < st.blocks.len() && c < t.rank.len() && t.rank[b] < t.rank[c] <= t.rank.len() {
            lemma_walked_single(t, flow, st, c, done);
            match walked(t, flow, st, c) {
                Ok(st1) => {
                    let done1 = done.union(below_set(t, c));
                    lemma_walked_children_single(t, flow, st1, b, i + 1, done1);
                    match walked_children(t, flow, st1, b, i + 1) {
                        Ok(out) => {
                            let big = done1.union(rest_set(t, n, b, i + 1));
                            let want = done.union(rest_set(t, n, b, i));
                            assert(want.subset_of(big)) by {
                                assert forall|x: int| want.contains(x) implies big.contains(x) by {
                                    if rest_set(t, n, b, i).contains(x) {
                                        let i2 = choose|i2: int|
                                            i <= i2 < t.children[b].len() && goes_into(
                                                t,
                                                n,
                                                b,
                                                #[trigger] t.children[b][i2],
                                            ) && below(t, t.children[b][i2], x);
                                        if i2 > i {
                                            assert(rest_set(t, n, b, i + 1).contains(x));
                                        }
                                    }
                                }
                            }
                            lemma_single_subset(out.blocks, out.naming, big, want);
                            assert forall|d: Name| issued(st.naming, d) implies issued(
                                out.naming,
                                d,
                            ) by {
                                assert(issued(st1.naming, d));
                            }
                        },
                        Err(_) => {},
                    }
                },
                Err(_) => {},
            }
        } else {
            lemma_walked_children_single(t, flow, st, b, i + 1, done);
            match walked_children(t, flow, st, b, i + 1) {
                Ok(out) => {
                    let big = done.union(rest_set(t, n, b, i + 1));
                    let want = done.union(rest_set(t, n, b, i));
                    assert(want.subset_of(big)) by {
                        assert forall|x: int| want.contains(x) implies big.contains(x) by {
                            if rest_set(t, n, b, i).contains(x) {
                                let i2 = choose|i2: int|
                                    i <= i2 < t.children[b].len() && goes_into(
                                        t,
                                        n,
                                        b,
                                        #[trigger] t.children[b][i2],
                                    ) && below(t, t.children[b][i2], x);
                                if i2 > i {
                                    assert(rest_set(t, n, b, i + 1).contains(x));
                                }
                            }
                        }
                    }
                    lemma_single_subset(out.blocks, out.naming, big, want);
                },
                Err(_) => {},
            }
        }
    } else {
        assert(done.union(rest_set(t, n, b, i)) =~= done) by {
            assert forall|x: int| !rest_set(t, n, b, i).contains(x) by {}
        }
    }
}

/// In a program brought into static single assignment form, no two definitions in
/// blocks that can be reached from the entry write the same variable.
pub proof fn lemma_single_definitions(
    blocks: Seq<Seq<InstructionView>>,
    args: Seq<Name>,
    out: Seq<Seq<InstructionView>>,
    j: int,
    k: int,
    j2: int,
    k2: int,
)
    requires
        blocks.len() > 0,
        renamed(blocks, args) == Ok::<Seq<Seq<InstructionView>>, Missing>(out),
        0 <= j < blocks.len(),
        0 <= j2 < blocks.len(),
        reachable(blocks, j),
        reachable(blocks, j2),
        0 <= k < out[j].len(),
        0 <= k2 < out[j2].len(),
        j != j2 || k != k2,
        out[j][k].dest is Some,
        out[j2][k2].dest is Some,
    ensures
        out[j][k].dest != out[j2][k2].dest,
{
    let t = dominator_tree(blocks);
    let st0 = Renaming { blocks: blocks, naming: initial_naming(args) };
    let none = Set::<int>::empty();
    lemma_initial_counts(args);
    assert(single(blocks, st0.naming, none));
    lemma_walked_single(t, blocks, st0, 0, none);
    lemma_tree_complete(blocks, j);
    lemma_tree_complete(blocks, j2);
    assert(none.union(below_set(t, 0)).contains(j));
    assert(none.union(below_set(t, 0)).contains(j2));
}

/// At the start no variable has been given a name.
pub proof fn lemma_initial_counts(args: Seq<Name>)
    ensures
        initial_naming(args).counters == Map::<Name, nat>::empty(),
    decreases args.len(),
{
    if args.len() > 0 {
        lemma_initial_counts(args.drop_last());
    }
}

/// Whether instruction `k2` of block `b2` defines `a` for position `p` of block `b`: it
/// writes `a`, and it stands before that position in the same block, or in another block
/// that dominates `b`.
pub open spec fn defined_at(
    flow: Seq<Seq<InstructionView>>,
    bs: Seq<Seq<InstructionView>>,
    a: Name,
    b: int,
    p: int,
    b2: int,
    k2: int,
) -> bool {
    &&& 0 <= b2 < bs.len()
    &&& 0 <= k2 < bs[b2].len()
    &&& bs[b2][k2].dest == Some(a)
    &&& (b2 == b && k2 < p) || (b2 != b && dominates(flow, b2, b))
}

/// Whether the name `a` can be read at position `p` of block `b`: it is a formal
/// argument, or a definition of it stands before the position or in a block that
/// dominates `b`.
pub open spec fn available(
    flow: Seq<Seq<InstructionView>>,
    formals: Set<Name>,
    bs: Seq<Seq<InstructionView>>,
    a: Name,
    b: int,
    p: int,
) -> bool {
    formals.contains(a) || exists|b2: int, k2: int| defined_at(flow, bs, a, b, p, b2, k2)
}

/// Whether every name that a variable goes by can be read at position `p` of block `b`.
pub open spec fn stacks_ok(
    flow: Seq<Seq<InstructionView>>,
    formals: Set<Name>,
    stacks: Map<Name, Seq<Name>>,
    bs: Seq<Seq<InstructionView>>,
    b: int,
    p: int,
) -> bool {
    forall|v: Name, i: int|
        stacks.contains_key(v) && 0 <= i < stacks[v].len() ==> available(
            flow,
            formals,
            bs,
            #[trigger] stacks[v][i],
            b,
            p,
        )
}

/// Whether every instruction of block `j`, merges apart, reads only names that can be
/// read where it stands.
pub open spec fn reads_ok(
    flow: Seq<Seq<InstructionView>>,
    formals: Set<Name>,
    bs: Seq<Seq<InstructionView>>,
    j: int,
) -> bool {
    forall|k: int, q: int|
        0 <= k < bs[j].len() && reads_names(bs[j][k]) && 0 <= q < bs[j][k].args->0.len()
            ==> available(flow, formals, bs, #[trigger] bs[j][k].args->0[q], j, k)
}

/// Whether the second program has the destinations of the first at every place but, at
/// most, those of block `b` from position `p` on.
pub open spec fn same_dests(
    bs: Seq<Seq<InstructionView>>,
    cs: Seq<Seq<InstructionView>>,
    b: int,
    p: int,
) -> bool {
    &&& bs.len() == cs.len()
    &&& forall|j: int| 0 <= j < bs.len() ==> (#[trigger] bs[j]).len() == cs[j].len()
    &&& forall|j: int, k: int|
        0 <= j < bs.len() && 0 <= k < bs[j].len() && (j != b || k < p) ==> (
        #[trigger] cs[j][k]).dest == bs[j][k].dest
}

/// A name that can be read at a position can be read further down, where the
/// destinations above the position stay.
proof fn lemma_available_keeps(
    flow: Seq<Seq<InstructionView>>,
    formals: Set<Name>,
    bs: Seq<Seq<InstructionView>>,
    cs: Seq<Seq<InstructionView>>,
    a: Name,
    b: int,
    p: int,
    p2: int,
)
    requires
        available(flow, formals, bs, a, b, p),
        same_dests(bs, cs, b, p),
        p <= p2,
    ensures
        available(flow, formals, cs, a, b, p2),
{
    if !formals.contains(a) {
        let (b2, k2) = choose|b2: int, k2: int| defined_at(flow, bs, a, b, p, b2, k2);
        assert(bs[b2].len() == cs[b2].len());
        assert(cs[b2][k2].dest == bs[b2][k2].dest);
        assert(defined_at(flow, cs, a, b, p2, b2, k2));
    }
}

/// The block `b` with its first `k` instructions replaced by `out`.
pub open spec fn partly(bs: Seq<Seq<InstructionView>>, b: int, out: Seq<InstructionView>) -> Seq<
    Seq<InstructionView>,
> {
    bs.update(b, out + bs[b].skip(out.len() as int))
}

/// Renaming a block leaves every read of it with a name that can be read there, and
/// every variable with names that can be read after it.
proof fn lemma_renamed_code_reads(
    flow: Seq<Seq<InstructionView>>,
    formals: Set<Name>,
    n: Naming,
    bs: Seq<Seq<InstructionView>>,
    b: int,
    k: int,
)
    requires
        0 <= b < bs.len(),
        0 <= k <= bs[b].len(),
        stacks_ok(flow, formals, n.stacks, bs, b, 0),
    ensures
        renamed_code(n, bs[b], k) matches Ok((m, out)) ==> {
            &&& out.len() == k
            &&& same_dests(bs, partly(bs, b, out), b, 0)
            &&& stacks_ok(flow, formals, m.stacks, partly(bs, b, out), b, k)
            &&& forall|k1: int, q: int|
                0 <= k1 < k && reads_names(out[k1]) && 0 <= q < out[k1].args->0.len() ==> available(
                    flow,
                    formals,
                    partly(bs, b, out),
                    #[trigger] out[k1].args->0[q],
                    b,
                    k1,
                )
        },
    decreases k,
{
    let code = bs[b];
    if k == 0 {
        assert(partly(bs, b, seq![]) =~= bs) by {
            assert(seq![] + code.skip(0) =~= code);
        }
    } else {
        lemma_renamed_code_reads(flow, formals, n, bs, b, k - 1);
        lemma_renamed_code_frame(n, code, k - 1);
        match renamed_code(n, code, k - 1) {
            Ok((n1, done)) => {
                match renamed_line(n1, code[k - 1]) {
                    Ok((n2, x)) => {
                        let out = done.push(x);
                        let was = partly(bs, b, done);
                        let now = partly(bs, b, out);
                        assert(was[b] == done + code.skip(k - 1));
                        assert(now[b] == out + code.skip(k));
                        assert(now[b].len() == code.len());
                        assert(was[b].len() == code.len());
                        assert(same_dests(was, now, b, k - 1)) by {
                            assert forall|j: int, i: int|
                                0 <= j < was.len() && 0 <= i < was[j].len() && (j != b || i < k
                                    - 1) implies (#[trigger] now[j][i]).dest == was[j][i].dest by {
                                if j == b {
                                    assert(now[b][i] == done[i]);
                                    assert(was[b][i] == done[i]);
                                }
                            }
                        }
                        assert(same_dests(bs, now, b, 0));
                        let y = code[k - 1];
                        assert(now[b][k - 1] == x);
                        // the reads of the line
                        assert forall|k1: int, q: int|
                            0 <= k1 < k && reads_names(out[k1]) && 0 <= q < out[k1].args->0.len() implies available(
                            flow,
                            formals,
                            now,
                            #[trigger] out[k1].args->0[q],
                            b,
                            k1,
                        ) by {
                            if k1 < k - 1 {
                                assert(out[k1] == done[k1]);
                                lemma_available_keeps(
                                    flow,
                                    formals,
                                    was,
                                    now,
                                    done[k1].args->0[q],
                                    b,
                                    k1,
                                    k1,
                                );
                                lemma_same_dests_earlier(was, now, b, k - 1, k1);
                            } else {
                                assert(reads_names(y));
                                let a = y.args->0[q];
                                lemma_missing_none(n1, y.args->0, 0, q);
                                assert(x.args->0[q] == top(n1, a)->0);
                                assert(n1.stacks.contains_key(a));
                                let i = n1.stacks[a].len() - 1;
                                assert(available(flow, formals, was, n1.stacks[a][i], b, k - 1));
                                lemma_available_keeps(
                                    flow,
                                    formals,
                                    was,
                                    now,
                                    n1.stacks[a][i],
                                    b,
                                    k - 1,
                                    k - 1,
                                );
                            }
                        }
                        // the names of the variables
                        assert forall|v: Name, i: int|
                            n2.stacks.contains_key(v) && 0 <= i < n2.stacks[v].len() implies available(
                            flow,
                            formals,
                            now,
                            #[trigger] n2.stacks[v][i],
                            b,
                            k,
                        ) by {
                            let name = n2.stacks[v][i];
                            if y.dest == Some(v) && i == n2.stacks[v].len() - 1 {
                                assert(name == version(v, count(n1, v) + 1));
                                assert(x.dest == Some(name));
                                assert(defined_at(flow, now, name, b, k, b, k - 1));
                            } else {
                                assert(n1.stacks.contains_key(v));
                                assert(n1.stacks[v][i] == name);
                                lemma_available_keeps(flow, formals, was, now, name, b, k - 1, k);
                            }
                        }
                    },
                    Err(_) => {},
                }
            },
            Err(_) => {},
        }
    }
}

/// Destinations that stay up to a position stay up to every earlier one.
proof fn lemma_same_dests_earlier(
    bs: Seq<Seq<InstructionView>>,
    cs: Seq<Seq<InstructionView>>,
    b: int,
    p: int,
    p0: int,
)
    requires
        same_dests(bs, cs, b, p),
        p0 <= p,
    ensures
        same_dests(bs, cs, b, p0),
{
}

/// Where no argument is missing, every argument has a name.
proof fn lemma_missing_none(n: Naming, args: Seq<Name>, i: int, q: int)
    requires
        0 <= i <= q < args.len(),
        missing_from(n, args, i) >= args.len(),
    ensures
        top(n, args[q]) is Some,
    decreases args.len() - i,
{
    if i < q {
        lemma_missing_none(n, args, i + 1, q);
    }
}

/// Whether the second program is the first but for the blocks of `inside` and for the
/// arguments of merges: elsewhere every destination and every other instruction is the
/// same.
pub open spec fn kept_outside(
    bs: Seq<Seq<InstructionView>>,
    cs: Seq<Seq<InstructionView>>,
    inside: Set<int>,
) -> bool {
    &&& bs.len() == cs.len()
    &&& forall|j: int| 0 <= j < bs.len() ==> (#[trigger] bs[j]).len() == cs[j].len()
    &&& forall|j: int, k: int|
        0 <= j < bs.len() && 0 <= k < bs[j].len() && !inside.contains(j) ==> (
        #[trigger] cs[j][k]).dest == bs[j][k].dest && is_phi(cs[j][k]) == is_phi(bs[j][k]) && (
        !is_phi(bs[j][k]) ==> cs[j][k] == bs[j][k])
}

/// Two changes, each inside a part of a set, make one change inside the set.
proof fn lemma_kept_outside_join(
    a: Seq<Seq<InstructionView>>,
    b: Seq<Seq<InstructionView>>,
    c: Seq<Seq<InstructionView>>,
    s1: Set<int>,
    s2: Set<int>,
    all: Set<int>,
)
    requires
        kept_outside(a, b, s1),
        kept_outside(b, c, s2),
        s1.subset_of(all),
        s2.subset_of(all),
    ensures
        kept_outside(a, c, all),
{
    assert forall|j: int| 0 <= j < a.len() implies (#[trigger] a[j]).len() == c[j].len() by {
        assert(a[j].len() == b[j].len());
        assert(b[j].len() == c[j].len());
    }
    assert forall|j: int, k: int|
        0 <= j < a.len() && 0 <= k < a[j].len() && !all.contains(j) implies (#[trigger] c[j][k]).dest
        == a[j][k].dest && is_phi(c[j][k]) == is_phi(a[j][k]) && (!is_phi(a[j][k]) ==> c[j][k]
        == a[j][k]) by {
        assert(a[j].len() == b[j].len());
        assert(b[j][k].dest == a[j][k].dest);
        assert(c[j][k].dest == b[j][k].dest);
    }
}

/// What lies below a child of a block lies below the block.
proof fn lemma_below_fold(t: Tree, n: int, b: int, i: int, x: int)
    requires
        t.rank.len() == n,
        0 <= b < n,
        0 <= i < t.children[b].len(),
        goes_into(t, n, b, t.children[b][i]),
        below(t, t.children[b][i], x),
    ensures
        below(t, b, x),
{
    let c = t.children[b][i];
    let p = choose|p: Seq<int>| is_descent(t, p) && p[0] == c && #[trigger] p.last() == x;
    let q = seq![b] + p;
    assert forall|k: int| 0 <= k < q.len() implies 0 <= #[trigger] q[k] < t.rank.len() by {
        if k > 0 {
            assert(q[k] == p[k - 1]);
        }
    }
    assert forall|k: int| 0 <= k < q.len() - 1 implies t.children[#[trigger] q[k]].contains(
        q[k + 1],
    ) && t.rank[q[k]] < t.rank[q[k + 1]] <= t.rank.len() by {
        if k == 0 {
            assert(q[1] == p[0]);
        } else {
            assert(q[k] == p[k - 1]);
            assert(q[k + 1] == p[k - 1 + 1]);
            assert(t.children[p[k - 1]].contains(p[k - 1 + 1]));
        }
    }
    assert(is_descent(t, q) && q[0] == b && q.last() == x);
}

/// The walk from a block changes, merges' arguments apart, only the blocks below it, and
/// leaves the variables with the names they had.
proof fn lemma_walked_outside(
    t: Tree,
    flow: Seq<Seq<InstructionView>>,
    st: Renaming,
    b: int,
)
    requires
        0 <= b < st.blocks.len(),
        t.rank.len() == st.blocks.len(),
    ensures
        walked(t, flow, st, b) matches Ok(out) ==> kept_outside(
            st.blocks,
            out.blocks,
            below_set(t, b),
        ) && out.naming.stacks == st.naming.stacks,
    decreases t.rank.len() - t.rank[b], 1nat, 0nat,
{
    let n = st.blocks.len() as int;
    let len = st.blocks[b].len() as int;
    match renamed_code(st.naming, st.blocks[b], len) {
        Err(_) => {},
        Ok((n1, code)) => {
            lemma_renamed_code_frame(st.naming, st.blocks[b], len);
            let blocks1 = st.blocks.update(b, code);
            let blocks2 = filled_blocks(blocks1, flow, n1, b);
            let st2 = Renaming { blocks: blocks2, naming: n1 };
            let own = Set::<int>::empty().insert(b);
            assert(kept_outside(st.blocks, blocks1, own));
            assert(kept_outside(blocks1, blocks2, Set::<int>::empty()));
            lemma_walked_children_outside(t, flow, st2, b, 0);
            match walked_children(t, flow, st2, b, 0) {
                Ok(st3) => {
                    let all = below_set(t, b);
                    let p = seq![b];
                    assert(is_descent(t, p) && p[0] == b && p.last() == b);
                    assert(own.subset_of(all));
                    lemma_kept_outside_join(
                        st.blocks,
                        blocks1,
                        blocks2,
                        own,
                        Set::<int>::empty(),
                        own,
                    );
                    assert(rest_set(t, n, b, 0).subset_of(all)) by {
                        assert forall|x: int| rest_set(t, n, b, 0).contains(x) implies all.contains(
                            x,
                        ) by {
                            let i2 = choose|i2: int|
                                0 <= i2 < t.children[b].len() && goes_into(
                                    t,
                                    n,
                                    b,
                                    #[trigger] t.children[b][i2],
                                ) && below(t, t.children[b][i2], x);
                            lemma_below_fold(t, n, b, i2, x);
                        }
                    }
                    lemma_kept_outside_join(
                        st.blocks,
                        blocks2,
                        st3.blocks,
                        own,
                        rest_set(t, n, b, 0),
                        all,
                    );
                },
                Err(_) => {},
            }
        },
    }
}

/// The walk through the children of a block changes, merges' arguments apart, only the
/// blocks below them.
proof fn lemma_walked_children_outside(
    t: Tree,
    flow: Seq<Seq<InstructionView>>,
    st: Renaming,
    b: int,
    i: int,
)
    requires
        t.rank.len() == st.blocks.len(),
        0 <= i,
    ensures
        walked_children(t, flow, st, b, i) matches Ok(out) ==> kept_outside(
            st.blocks,
            out.blocks,
            rest_set(t, st.blocks.len() as int, b, i),
        ) && out.naming.stacks == st.naming.stacks,
    decreases t.rank.len() - t.rank[b], 0nat, t.children[b].len() - i,
{
    let n = st.blocks.len() as int;
    if i < t.children[b].len() {
        let c = t.children[b][i];
        let all = rest_set(t, n, b, i);
        if 0 <= c < st.blocks.len() && c < t.rank.len() && t.rank[b] < t.rank[c] <= t.rank.len() {
            lemma_walked_outside(t, flow, st, c);
            match walked(t, flow, st, c) {
                Ok(st1) => {
                    lemma_walked_children_outside(t, flow, st1, b, i + 1);
                    match walked_children(t, flow, st1, b, i + 1) {
                        Ok(out) => {
                            assert(below_set(t, c).subset_of(all)) by {
                                assert forall|x: int| below_set(t, c).contains(x) implies all.contains(
                                    x,
                                ) by {
                                    assert(goes_into(t, n, b, t.children[b][i]));
                                }
                            }
                            assert(rest_set(t, n, b, i + 1).subset_of(all)) by {
                                assert forall|x: int|
                                    rest_set(t, n, b, i + 1).contains(x) implies all.contains(x) by {
                                    let i2 = choose|i2: int|
                                        i + 1 <= i2 < t.children[b].len() && goes_into(
                                            t,
                                            n,
                                            b,
                                            #[trigger] t.children[b][i2],
                                        ) && below(t, t.children[b][i2], x);
                                    assert(goes_into(t, n, b, t.children[b][i2]));
                                }
                            }
                            lemma_kept_outside_join(
                                st.blocks,
                                st1.blocks,
                                out.blocks,
                                below_set(t, c),
                                rest_set(t, n, b, i + 1),
                                all,
                            );
                        },
                        Err(_) => {},
                    }
                },
                Err(_) => {},
            }
        } else {
            lemma_walked_children_outside(t, flow, st, b, i + 1);
            match walked_children(t, flow, st, b, i + 1) {
                Ok(out) => {
                    assert(rest_set(t, n, b, i + 1).subset_of(all)) by {
                        assert forall|x: int| rest_set(t, n, b, i + 1).contains(x) implies all.contains(
                            x,
                        ) by {
                            let i2 = choose|i2: int|
                                i + 1 <= i2 < t.children[b].len() && goes_into(
                                    t,
                                    n,
                                    b,
                                    #[trigger] t.children[b][i2],
                                ) && below(t, t.children[b][i2], x);
                            assert(goes_into(t, n, b, t.children[b][i2]));
                        }
                    }
                    lemma_kept_outside_join(
                        st.blocks,
                        st.blocks,
                        out.blocks,
                        Set::<int>::empty(),
                        rest_set(t, n, b, i + 1),
                        all,
                    );
                },
                Err(_) => {},
            }
        }
    }
}

/// Two blocks that dominate each other, one of which can be reached, are one block.
proof fn lemma_not_both(flow: Seq<Seq<InstructionView>>, a: int, b: int)
    requires
        reachable(flow, a),
        dominates(flow, a, b),
        dominates(flow, b, a),
    ensures
        a == b,
{
    let p = choose|p: Seq<int>| is_path(flow, p) && p[0] == 0 && #[trigger] p.last() == a;
    lemma_dominates_antisymmetric(flow, a, b, p);
}

/// What the tree lists as a child of a block is its child.
proof fn lemma_child(flow: Seq<Seq<InstructionView>>, b: int, i: int)
    requires
        0 <= b < flow.len(),
        0 <= i < dominator_tree(flow).children[b].len(),
    ensures
        is_child(flow, b, dominator_tree(flow).children[b][i]),
        0 <= dominator_tree(flow).children[b][i] < flow.len(),
        reachable(flow, dominator_tree(flow).children[b][i]),
        dominates(flow, b, dominator_tree(flow).children[b][i]),
        goes_into(dominator_tree(flow), flow.len() as int, b, dominator_tree(flow).children[b][i]),
        forall|i2: int|
            0 <= i2 < dominator_tree(flow).children[b].len() && i2 != i ==> dominator_tree(
                flow,
            ).children[b][i2] != dominator_tree(flow).children[b][i],
{
    let t = dominator_tree(flow);
    let f = |c: int| is_child(flow, b, c);
    lemma_picked(flow.len() as int, f);
    let c = t.children[b][i];
    assert(t.children[b].contains(c));
    assert(f(c));
    lemma_ones_le(dominator_row(flow, c), dominator_row(flow, c));
}

/// What lies below a block in the dominator tree is the block or is dominated by it.
proof fn lemma_below_dominated(flow: Seq<Seq<InstructionView>>, p: Seq<int>)
    requires
        is_descent(dominator_tree(flow), p),
        0 <= p[0] < flow.len(),
    ensures
        0 <= p.last() < flow.len(),
        p.last() == p[0] || (dominates(flow, p[0], p.last()) && reachable(flow, p.last())),
    decreases p.len(),
{
    let t = dominator_tree(flow);
    if p.len() > 1 {
        let front = p.drop_last();
        assert forall|k: int| 0 <= k < front.len() implies 0 <= #[trigger] front[k] < t.rank.len() by {
            assert(front[k] == p[k]);
        }
        assert forall|k: int| 0 <= k < front.len() - 1 implies t.children[#[trigger] front[k]].contains(
            front[k + 1],
        ) && t.rank[front[k]] < t.rank[front[k + 1]] <= t.rank.len() by {
            assert(front[k] == p[k]);
            assert(front[k + 1] == p[k + 1]);
            assert(t.children[p[k]].contains(p[k + 1]));
        }
        lemma_below_dominated(flow, front);
        let y = p[p.len() - 2];
        let x = p.last();
        assert(front.last() == y);
        assert(t.children[p[p.len() - 2]].contains(p[p.len() - 2 + 1]));
        let i = choose|i: int| 0 <= i < t.children[y].len() && t.children[y][i] == x;
        lemma_child(flow, y, i);
        if y != p[0] {
            lemma_dominates_transitive(flow, p[0], y, x);
        }
    }
}

/// What lies below a child of a block neither is the block nor dominates it.
proof fn lemma_no_way_up(flow: Seq<Seq<InstructionView>>, b: int, i: int, x: int)
    requires
        0 <= b < flow.len(),
        reachable(flow, b),
        0 <= i < dominator_tree(flow).children[b].len(),
        below(dominator_tree(flow), dominator_tree(flow).children[b][i], x),
    ensures
        x != b,
        !dominates(flow, x, b),
        0 <= x < flow.len(),
        reachable(flow, x),
{
    let t = dominator_tree(flow);
    let c = t.children[b][i];
    lemma_child(flow, b, i);
    let p = choose|p: Seq<int>| is_descent(t, p) && p[0] == c && #[trigger] p.last() == x;
    lemma_below_dominated(flow, p);
    if x == c {
        if dominates(flow, c, b) {
            lemma_not_both(flow, b, c);
        }
    } else {
        if x == b {
            lemma_not_both(flow, b, c);
        }
        if dominates(flow, x, b) {
            lemma_dominates_transitive(flow, c, x, b);
            lemma_not_both(flow, b, c);
        }
    }
}

/// What lies below one child of a block neither is another child nor is dominated by
/// it.
proof fn lemma_siblings_apart(flow: Seq<Seq<InstructionView>>, b: int, i: int, i2: int, j: int)
    requires
        0 <= b < flow.len(),
        reachable(flow, b),
        0 <= i < dominator_tree(flow).children[b].len(),
        0 <= i2 < dominator_tree(flow).children[b].len(),
        i != i2,
        below(dominator_tree(flow), dominator_tree(flow).children[b][i], j),
    ensures
        dominator_tree(flow).children[b][i2] != j,
        !dominates(flow, dominator_tree(flow).children[b][i2], j),
{
    let t = dominator_tree(flow);
    let c = t.children[b][i];
    let c2 = t.children[b][i2];
    lemma_child(flow, b, i);
    lemma_child(flow, b, i2);
    assert(c != c2);
    let p = choose|p: Seq<int>| is_descent(t, p) && p[0] == c && #[trigger] p.last() == j;
    lemma_below_dominated(flow, p);
    lemma_dominates_basics(flow, c);
    lemma_dominates_basics(flow, c2);
    // neither child dominates the other
    if dominates(flow, c2, c) {
        assert(dominator_row(flow, c)[c2]);
        assert(dominator_row(flow, b)[c2]);
        lemma_not_both(flow, b, c2);
    }
    if dominates(flow, c, c2) {
        assert(dominator_row(flow, c2)[c]);
        assert(dominator_row(flow, b)[c]);
        lemma_not_both(flow, b, c);
    }
    if j != c {
        if c2 != j && dominates(flow, c2, j) {
            lemma_dominators_chain(flow, c, c2, j);
        }
    }
}

/// What can be read at the end of a block can be read at the start of its children.
proof fn lemma_available_down(
    flow: Seq<Seq<InstructionView>>,
    formals: Set<Name>,
    bs: Seq<Seq<InstructionView>>,
    a: Name,
    b: int,
    i: int,
)
    requires
        0 <= b < flow.len(),
        reachable(flow, b),
        0 <= i < dominator_tree(flow).children[b].len(),
        available(flow, formals, bs, a, b, bs[b].len() as int),
    ensures
        available(flow, formals, bs, a, dominator_tree(flow).children[b][i], 0),
{
    let c = dominator_tree(flow).children[b][i];
    lemma_child(flow, b, i);
    if !formals.contains(a) {
        let (b2, k2) = choose|b2: int, k2: int|
            defined_at(flow, bs, a, b, bs[b].len() as int, b2, k2);
        if b2 != b {
            lemma_dominates_transitive(flow, b2, b, c);
            if b2 == c {
                lemma_not_both(flow, b, c);
            }
        }
        assert(defined_at(flow, bs, a, c, 0, b2, k2));
    }
}

/// Names that can be read stay so where only blocks change that neither are the block
/// nor dominate it.
proof fn lemma_available_outside(
    flow: Seq<Seq<InstructionView>>,
    formals: Set<Name>,
    bs: Seq<Seq<InstructionView>>,
    cs: Seq<Seq<InstructionView>>,
    changed: Set<int>,
    a: Name,
    b: int,
    p: int,
)
    requires
        available(flow, formals, bs, a, b, p),
        kept_outside(bs, cs, changed),
        forall|x: int| #[trigger] changed.contains(x) ==> x != b && !dominates(flow, x, b),
    ensures
        available(flow, formals, cs, a, b, p),
{
    if !formals.contains(a) {
        let (b2, k2) = choose|b2: int, k2: int| defined_at(flow, bs, a, b, p, b2, k2);
        assert(!changed.contains(b2));
        assert(bs[b2].len() == cs[b2].len());
        assert(cs[b2][k2].dest == bs[b2][k2].dest);
        assert(defined_at(flow, cs, a, b, p, b2, k2));
    }
}

/// A block goes on reading only names that can be read where only blocks change that
/// neither are the block nor dominate it.
proof fn lemma_reads_outside(
    flow: Seq<Seq<InstructionView>>,
    formals: Set<Name>,
    bs: Seq<Seq<InstructionView>>,
    cs: Seq<Seq<InstructionView>>,
    changed: Set<int>,
    j: int,
)
    requires
        0 <= j < bs.len(),
        reads_ok(flow, formals, bs, j),
        kept_outside(bs, cs, changed),
        forall|x: int| #[trigger] changed.contains(x) ==> x != j && !dominates(flow, x, j),
    ensures
        reads_ok(flow, formals, cs, j),
{
    assert(!changed.contains(j));
    assert(bs[j].len() == cs[j].len());
    assert forall|k: int, q: int|
        0 <= k < cs[j].len() && reads_names(cs[j][k]) && 0 <= q < cs[j][k].args->0.len() implies available(
        flow,
        formals,
        cs,
        #[trigger] cs[j][k].args->0[q],
        j,
        k,
    ) by {
        assert(is_phi(cs[j][k]) == is_phi(bs[j][k]));
        assert(cs[j][k] == bs[j][k]);
        assert(available(flow, formals, bs, bs[j][k].args->0[q], j, k));
        lemma_available_outside(flow, formals, bs, cs, changed, bs[j][k].args->0[q], j, k);
    }
}

/// The names of the variables can still be read where only blocks change that neither
/// are the block nor dominate it.
proof fn lemma_stacks_outside(
    flow: Seq<Seq<InstructionView>>,
    formals: Set<Name>,
    stacks: Map<Name, Seq<Name>>,
    bs: Seq<Seq<InstructionView>>,
    cs: Seq<Seq<InstructionView>>,
    changed: Set<int>,
    b: int,
    p: int,
)
    requires
        stacks_ok(flow, formals, stacks, bs, b, p),
        kept_outside(bs, cs, changed),
        forall|x: int| #[trigger] changed.contains(x) ==> x != b && !dominates(flow, x, b),
    ensures
        stacks_ok(flow, formals, stacks, cs, b, p),
{
    assert forall|v: Name, i: int| stacks.contains_key(v) && 0 <= i < stacks[v].len() implies available(
        flow,
        formals,
        cs,
        #[trigger] stacks[v][i],
        b,
        p,
    ) by {
        lemma_available_outside(flow, formals, bs, cs, changed, stacks[v][i], b, p);
    }
}

/// Whether no block of `done` is `b` or is dominated by it.
pub open spec fn apart(flow: Seq<Seq<InstructionView>>, b: int, done: Set<int>) -> bool {
    forall|j: int| #[trigger]
        done.contains(j) ==> 0 <= j < flow.len() && j != b && !dominates(flow, b, j)
}

/// Whether no block of `done` is a child of `b` from the `i`-th on, or is dominated by
/// one.
pub open spec fn clear_of(flow: Seq<Seq<InstructionView>>, b: int, i: int, done: Set<int>) -> bool {
    forall|j: int, i2: int|
        #![trigger done.contains(j), dominator_tree(flow).children[b][i2]]
        done.contains(j) && i <= i2 < dominator_tree(flow).children[b].len() ==> 0 <= j < flow.len()
            && dominator_tree(flow).children[b][i2] != j && !dominates(
            flow,
            dominator_tree(flow).children[b][i2],
            j,
        )
}

/// Whether the blocks of `done` read, merges apart, only names that can be read where
/// they are read.
pub open spec fn all_read(
    flow: Seq<Seq<InstructionView>>,
    formals: Set<Name>,
    bs: Seq<Seq<InstructionView>>,
    done: Set<int>,
) -> bool {
    forall|j: int| #[trigger] done.contains(j) ==> reads_ok(flow, formals, bs, j)
}

/// The walk from a block leaves the blocks below it, and those that were done before,
/// reading only names that can be read.
proof fn lemma_walked_reads(
    flow: Seq<Seq<InstructionView>>,
    formals: Set<Name>,
    st: Renaming,
    b: int,
    done: Set<int>,
)
    requires
        flow.len() == st.blocks.len(),
        0 <= b < flow.len(),
        reachable(flow, b),
        stacks_ok(flow, formals, st.naming.stacks, st.blocks, b, 0),
        all_read(flow, formals, st.blocks, done),
        apart(flow, b, done),
    ensures
        walked(dominator_tree(flow), flow, st, b) matches Ok(out) ==> all_read(
            flow,
            formals,
            out.blocks,
            done.union(below_set(dominator_tree(flow), b)),
        ),
    decreases dominator_tree(flow).rank.len() - dominator_tree(flow).rank[b], 1nat, 0nat,
{
    let t = dominator_tree(flow);
    let n = flow.len() as int;
    let len = st.blocks[b].len() as int;
    match renamed_code(st.naming, st.blocks[b], len) {
        Err(_) => {},
        Ok((n1, code)) => {
            lemma_renamed_code_reads(flow, formals, st.naming, st.blocks, b, len);
            lemma_renamed_code_frame(st.naming, st.blocks[b], len);
            let blocks1 = st.blocks.update(b, code);
            assert(partly(st.blocks, b, code) =~= blocks1) by {
                assert(st.blocks[b].skip(len) =~= Seq::<InstructionView>::empty());
                assert(code + Seq::<InstructionView>::empty() =~= code);
            }
            let blocks2 = filled_blocks(blocks1, flow, n1, b);
            let st2 = Renaming { blocks: blocks2, naming: n1 };
            let own = Set::<int>::empty().insert(b);
            let none = Set::<int>::empty();
            assert(kept_outside(st.blocks, blocks1, own));
            assert(kept_outside(blocks1, blocks2, none));
            assert(reads_ok(flow, formals, blocks1, b)) by {
                assert(blocks1[b] == code);
            }
            let done2 = done.insert(b);
            assert forall|j: int| #[trigger] done2.contains(j) implies reads_ok(
                flow,
                formals,
                blocks2,
                j,
            ) by {
                if j != b {
                    assert(done.contains(j));
                    lemma_reads_outside(flow, formals, st.blocks, blocks1, own, j);
                }
                lemma_reads_outside(flow, formals, blocks1, blocks2, none, j);
            }
            lemma_stacks_outside(flow, formals, n1.stacks, blocks1, blocks2, none, b, len);
            assert(blocks1[b].len() == blocks2[b].len());
            assert(blocks2[b].len() == len);
            assert forall|j: int, i2: int|
                #![trigger done2.contains(j), t.children[b][i2]]
                done2.contains(j) && 0 <= i2 < t.children[b].len() implies 0 <= j < flow.len()
                && t.children[b][i2] != j && !dominates(flow, t.children[b][i2], j) by {
                lemma_child(flow, b, i2);
                let c = t.children[b][i2];
                if j == b {
                    if dominates(flow, c, b) {
                        lemma_not_both(flow, b, c);
                    }
                } else {
                    assert(done.contains(j));
                    if c != j && dominates(flow, c, j) {
                        lemma_dominates_transitive(flow, b, c, j);
                    }
                }
            }
            assert(clear_of(flow, b, 0, done2));
            lemma_walked_children_reads(flow, formals, st2, b, 0, done2);
            match walked_children(t, flow, st2, b, 0) {
                Ok(st3) => {
                    let all = done.union(below_set(t, b));
                    assert forall|j: int| #[trigger] all.contains(j) implies reads_ok(
                        flow,
                        formals,
                        st3.blocks,
                        j,
                    ) by {
                        if done.contains(j) || j == b {
                            assert(done2.contains(j));
                        } else {
                            lemma_below_unfold(t, n, b, j);
                        }
                        assert(done2.union(rest_set(t, n, b, 0)).contains(j));
                    }
                },
                Err(_) => {},
            }
        },
    }
}

/// The walk through the children of a block leaves the blocks below them, and those
/// that were done before, reading only names that can be read.
proof fn lemma_walked_children_reads(
    flow: Seq<Seq<InstructionView>>,
    formals: Set<Name>,
    st: Renaming,
    b: int,
    i: int,
    done: Set<int>,
)
    requires
        flow.len() == st.blocks.len(),
        0 <= b < flow.len(),
        reachable(flow, b),
        0 <= i,
        stacks_ok(flow, formals, st.naming.stacks, st.blocks, b, st.blocks[b].len() as int),
        all_read(flow, formals, st.blocks, done),
        clear_of(flow, b, i, done),
    ensures
        walked_children(dominator_tree(flow), flow, st, b, i) matches Ok(out) ==> all_read(
            flow,
            formals,
            out.blocks,
            done.union(rest_set(dominator_tree(flow), flow.len() as int, b, i)),
        ),
    decreases dominator_tree(flow).rank.len() - dominator_tree(flow).rank[b],
        0nat,
        dominator_tree(flow).children[b].len() - i,
{
    let t = dominator_tree(flow);
    let n = flow.len() as int;
    if i < t.children[b].len() {
        let c = t.children[b][i];
        lemma_child(flow, b, i);
        assert(goes_into(t, n, b, c));
        let stacks = st.naming.stacks;
        assert forall|v: Name, k: int| stacks.contains_key(v) && 0 <= k < stacks[v].len() implies available(
            flow,
            formals,
            st.blocks,
            #[trigger] stacks[v][k],
            c,
            0,
        ) by {
            lemma_available_down(flow, formals, st.blocks, stacks[v][k], b, i);
        }
        assert(stacks_ok(flow, formals, stacks, st.blocks, c, 0));
        assert forall|j: int| #[trigger] done.contains(j) implies 0 <= j < flow.len() && j != c
            && !dominates(flow, c, j) by {
            assert(t.children[b][i] == c);
        }
        lemma_walked_reads(flow, formals, st, c, done);
        lemma_walked_outside(t, flow, st, c);
        match walked(t, flow, st, c) {
            Ok(st1) => {
                let under = below_set(t, c);
                let more = done.union(under);
                assert forall|x: int| #[trigger] under.contains(x) implies x != b && !dominates(
                    flow,
                    x,
                    b,
                ) by {
                    lemma_no_way_up(flow, b, i, x);
                }
                lemma_stacks_outside(
                    flow,
                    formals,
                    stacks,
                    st.blocks,
                    st1.blocks,
                    under,
                    b,
                    st.blocks[b].len() as int,
                );
                assert(st.blocks[b].len() == st1.blocks[b].len());
                assert forall|j: int, i2: int|
                    #![trigger more.contains(j), t.children[b][i2]]
                    more.contains(j) && i + 1 <= i2 < t.children[b].len() implies 0 <= j < flow.len()
                    && t.children[b][i2] != j && !dominates(flow, t.children[b][i2], j) by {
                    if !done.contains(j) {
                        assert(under.contains(j));
                        lemma_no_way_up(flow, b, i, j);
                        lemma_siblings_apart(flow, b, i, i2, j);
                    }
                }
                assert(clear_of(flow, b, i + 1, more));
                lemma_walked_children_reads(flow, formals, st1, b, i + 1, more);
                match walked_children(t, flow, st1, b, i + 1) {
                    Ok(out) => {
                        let all = done.union(rest_set(t, n, b, i));
                        let later = more.union(rest_set(t, n, b, i + 1));
                        assert forall|j: int| #[trigger] all.contains(j) implies reads_ok(
                            flow,
                            formals,
                            out.blocks,
                            j,
                        ) by {
                            if !done.contains(j) {
                                let i2 = choose|i2: int|
                                    i <= i2 < t.children[b].len() && goes_into(
                                        t,
                                        n,
                                        b,
                                        #[trigger] t.children[b][i2],
                                    ) && below(t, t.children[b][i2], j);
                                if i2 == i {
                                    assert(under.contains(j));
                                } else {
                                    assert(rest_set(t, n, b, i + 1).contains(j));
                                }
                            }
                            assert(later.contains(j));
                        }
                    },
                    Err(_) => {},
                }
            },
            Err(_) => {},
        }
    }
}

/// At the start every variable goes by the name of a formal argument.
proof fn lemma_initial_stacks(args: Seq<Name>)
    ensures
        forall|v: Name, i: int|
            initial_naming(args).stacks.contains_key(v) && 0 <= i < initial_naming(
                args,
            ).stacks[v].len() ==> args.contains(#[trigger] initial_naming(args).stacks[v][i]),
    decreases args.len(),
{
    if args.len() > 0 {
        let front = args.drop_last();
        lemma_initial_stacks(front);
        let n = initial_naming(front);
        assert forall|v: Name, i: int|
            initial_naming(args).stacks.contains_key(v) && 0 <= i < initial_naming(
                args,
            ).stacks[v].len() implies args.contains(#[trigger] initial_naming(args).stacks[v][i]) by {
            if v == args.last() {
                assert(args[args.len() - 1] == args.last());
            } else {
                assert(n.stacks.contains_key(v));
                let a = n.stacks[v][i];
                assert(front.contains(a));
                let k = choose|k: int| 0 <= k < front.len() && front[k] == a;
                assert(args[k] == a);
            }
        }
    }
}

/// In a program in static single assignment form every instruction of a block that can
/// be reached, merges apart, reads only formal arguments and names with a definition
/// that comes before it: earlier in its block, or in another block that dominates its
/// own.
pub proof fn lemma_reads_defined(
    blocks: Seq<Seq<InstructionView>>,
    args: Seq<Name>,
    out: Seq<Seq<InstructionView>>,
    j: int,
    k: int,
    q: int,
)
    requires
        blocks.len() > 0,
        renamed(blocks, args) == Ok::<Seq<Seq<InstructionView>>, Missing>(out),
        0 <= j < blocks.len(),
        reachable(blocks, j),
        0 <= k < out[j].len(),
        reads_names(out[j][k]),
        0 <= q < out[j][k].args->0.len(),
    ensures
        available(blocks, args.to_set(), out, out[j][k].args->0[q], j, k),
{
    let t = dominator_tree(blocks);
    let formals = args.to_set();
    let st0 = Renaming { blocks: blocks, naming: initial_naming(args) };
    let none = Set::<int>::empty();
    lemma_initial_stacks(args);
    let p = seq![0int];
    assert(is_path(blocks, p) && p[0] == 0 && p.last() == 0);
    assert(reachable(blocks, 0));
    assert(stacks_ok(blocks, formals, st0.naming.stacks, blocks, 0, 0));
    lemma_walked_reads(blocks, formals, st0, 0, none);
    lemma_tree_complete(blocks, j);
    assert(none.union(below_set(t, 0)).contains(j));
    assert(reads_ok(blocks, formals, out, j));
}

/// Whether slot `q` of instruction `k` of block `s` is a slot of a merge for the
/// predecessor with the label `l`.
pub open spec fn slot_for(flow: Seq<Seq<InstructionView>>, l: Name, s: int, k: int, q: int) -> bool {
    &&& 0 <= s < flow.len()
    &&& 0 <= k < flow[s].len()
    &&& is_phi(flow[s][k])
    &&& flow[s][k].args is Some
    &&& flow[s][k].labels is Some
    &&& 0 <= q < flow[s][k].args->0.len()
    &&& q < flow[s][k].labels->0.len()
    &&& flow[s][k].labels->0[q] == l
}

/// Whether the slots for the label `l` hold in the second program what they hold in the
/// first.
pub open spec fn slots_kept(
    flow: Seq<Seq<InstructionView>>,
    bs: Seq<Seq<InstructionView>>,
    cs: Seq<Seq<InstructionView>>,
    l: Name,
) -> bool {
    forall|s: int, k: int, q: int| #[trigger]
        slot_for(flow, l, s, k, q) ==> cs[s][k].args->0[q] == bs[s][k].args->0[q]
}

/// Whether no two blocks share their label.
pub open spec fn labels_differ(flow: Seq<Seq<InstructionView>>) -> bool {
    forall|a: int, b: int|
        0 <= a < flow.len() && 0 <= b < flow.len() && a != b ==> #[trigger] label_at(flow, a)
            != #[trigger] label_at(flow, b)
}

/// Renaming the instructions of a block leaves the arguments of its merges.
proof fn lemma_renamed_code_merges(n: Naming, code: Seq<InstructionView>, k: int)
    requires
        0 <= k <= code.len(),
    ensures
        renamed_code(n, code, k) matches Ok((m, out)) ==> out.len() == k && forall|i: int|
            0 <= i < k && is_phi(code[i]) ==> (#[trigger] out[i]).args == code[i].args,
    decreases k,
{
    if k > 0 {
        lemma_renamed_code_merges(n, code, k - 1);
        match renamed_code(n, code, k - 1) {
            Ok((n1, done)) => {
                match renamed_line(n1, code[k - 1]) {
                    Ok((n2, x)) => {
                        let out = done.push(x);
                        assert forall|i: int| 0 <= i < k && is_phi(code[i]) implies (
                        #[trigger] out[i]).args == code[i].args by {
                            if i < k - 1 {
                                assert(out[i] == done[i]);
                            }
                        }
                    },
                    Err(_) => {},
                }
            },
            Err(_) => {},
        }
    }
}

/// What renaming a block and filling the slots for it does to the slots of merges: a
/// slot for another label stays, and a slot for the block's own label stays or takes
/// the name that its variable goes by at the end of the block.
proof fn lemma_own_slots(
    flow: Seq<Seq<InstructionView>>,
    n: Naming,
    bs: Seq<Seq<InstructionView>>,
    b: int,
    l: Name,
)
    requires
        0 <= b < bs.len(),
        same_frame(flow, bs),
    ensures
        renamed_code(n, bs[b], bs[b].len() as int) matches Ok((n1, code)) ==> {
            let after = filled_blocks(bs.update(b, code), flow, n1, b);
            &&& same_frame(flow, after)
            &&& l != label_at(flow, b) ==> slots_kept(flow, bs, after, l)
            &&& forall|s: int, k: int, q: int| #[trigger]
                slot_for(flow, label_at(flow, b), s, k, q) ==> after[s][k].args->0[q]
                    == bs[s][k].args->0[q] || (top(n1, bs[s][k].args->0[q]) is Some
                    && after[s][k].args->0[q] == top(n1, bs[s][k].args->0[q])->0)
        },
{
    let len = bs[b].len() as int;
    match renamed_code(n, bs[b], len) {
        Err(_) => {},
        Ok((n1, code)) => {
            lemma_renamed_code_frame(n, bs[b], len);
            lemma_renamed_code_merges(n, bs[b], len);
            let blocks1 = bs.update(b, code);
            let after = filled_blocks(blocks1, flow, n1, b);
            assert forall|s: int, k: int| 0 <= s < flow.len() && 0 <= k < flow[s].len() implies {
                &&& same_frame_line(#[trigger] flow[s][k], blocks1[s][k])
                &&& same_frame_line(flow[s][k], after[s][k])
                &&& is_phi(flow[s][k]) ==> blocks1[s][k].args == bs[s][k].args
            } by {
                assert(same_frame_line(flow[s][k], bs[s][k]));
                assert(bs[s].len() == flow[s].len());
                if s == b {
                    assert(same_frame_line(bs[b][k], code[k]));
                }
            }
            assert forall|s: int| 0 <= s < flow.len() implies (#[trigger] flow[s]).len()
                == after[s].len() by {
                assert(bs[s].len() == flow[s].len());
            }
            assert(same_frame(flow, after));
            assert forall|s: int, k: int, q: int| #[trigger]
                slot_for(flow, label_at(flow, b), s, k, q) implies after[s][k].args->0[q]
                == bs[s][k].args->0[q] || (top(n1, bs[s][k].args->0[q]) is Some
                && after[s][k].args->0[q] == top(n1, bs[s][k].args->0[q])->0) by {
                assert(same_frame_line(flow[s][k], blocks1[s][k]));
                assert(blocks1[s][k].args == bs[s][k].args);
            }
            if l != label_at(flow, b) {
                assert forall|s: int, k: int, q: int| #[trigger]
                    slot_for(flow, l, s, k, q) implies after[s][k].args->0[q]
                    == bs[s][k].args->0[q] by {
                    assert(same_frame_line(flow[s][k], blocks1[s][k]));
                    assert(blocks1[s][k].args == bs[s][k].args);
                }
            }
        },
    }
}

/// The walk from a block leaves the slots of merges for the labels of the blocks that
/// do not lie below it.
proof fn lemma_walked_slots(
    t: Tree,
    flow: Seq<Seq<InstructionView>>,
    st: Renaming,
    b: int,
    l: Name,
)
    requires
        0 <= b < st.blocks.len(),
        t.rank.len() == st.blocks.len(),
        same_frame(flow, st.blocks),
        forall|x: int| #[trigger] below(t, b, x) ==> label_at(flow, x) != l,
    ensures
        walked(t, flow, st, b) matches Ok(out) ==> slots_kept(flow, st.blocks, out.blocks, l),
    decreases t.rank.len() - t.rank[b], 1nat, 0nat,
{
    let n = st.blocks.len() as int;
    let len = st.blocks[b].len() as int;
    match renamed_code(st.naming, st.blocks[b], len) {
        Err(_) => {},
        Ok((n1, code)) => {
            lemma_own_slots(flow, st.naming, st.blocks, b, l);
            let blocks2 = filled_blocks(st.blocks.update(b, code), flow, n1, b);
            let st2 = Renaming { blocks: blocks2, naming: n1 };
            let p = seq![b];
            assert(is_descent(t, p) && p[0] == b && p.last() == b);
            assert(below(t, b, b));
            assert forall|x: int| #[trigger] rest_set(t, n, b, 0).contains(x) implies label_at(
                flow,
                x,
            ) != l by {
                let i2 = choose|i2: int|
                    0 <= i2 < t.children[b].len() && goes_into(t, n, b, #[trigger] t.children[b][i2])
                        && below(t, t.children[b][i2], x);
                lemma_below_fold(t, n, b, i2, x);
            }
            lemma_walked_children_slots(t, flow, st2, b, 0, l);
        },
    }
}

/// The walk through the children of a block leaves the slots of merges for the labels
/// of the blocks that do not lie below them.
proof fn lemma_walked_children_slots(
    t: Tree,
    flow: Seq<Seq<InstructionView>>,
    st: Renaming,
    b: int,
    i: int,
    l: Name,
)
    requires
        t.rank.len() == st.blocks.len(),
        0 <= i,
        same_frame(flow, st.blocks),
        forall|x: int| #[trigger]
            rest_set(t, st.blocks.len() as int, b, i).contains(x) ==> label_at(flow, x) != l,
    ensures
        walked_children(t, flow, st, b, i) matches Ok(out) ==> slots_kept(
            flow,
            st.blocks,
            out.blocks,
            l,
        ),
    decreases t.rank.len() - t.rank[b], 0nat, t.children[b].len() - i,
{
    let n = st.blocks.len() as int;
    if i < t.children[b].len() {
        let c = t.children[b][i];
        assert forall|x: int| #[trigger] rest_set(t, n, b, i + 1).contains(x) implies label_at(
            flow,
            x,
        ) != l by {
            let i2 = choose|i2: int|
                i + 1 <= i2 < t.children[b].len() && goes_into(t, n, b, #[trigger] t.children[b][i2])
                    && below(t, t.children[b][i2], x);
            assert(goes_into(t, n, b, t.children[b][i2]));
            assert(rest_set(t, n, b, i).contains(x));
        }
        if 0 <= c < st.blocks.len() && c < t.rank.len() && t.rank[b] < t.rank[c] <= t.rank.len() {
            assert forall|x: int| #[trigger] below(t, c, x) implies label_at(flow, x) != l by {
                assert(goes_into(t, n, b, t.children[b][i]));
                assert(rest_set(t, n, b, i).contains(x));
            }
            lemma_walked_slots(t, flow, st, c, l);
            lemma_walked_frame(t, flow, st, c);
            match walked(t, flow, st, c) {
                Ok(st1) => {
                    lemma_frame_transitive(flow, st.blocks, st1.blocks);
                    lemma_walked_children_slots(t, flow, st1, b, i + 1, l);
                },
                Err(_) => {},
            }
        } else {
            lemma_walked_children_slots(t, flow, st, b, i + 1, l);
        }
    }
}

/// Whether every slot of a merge for block `p` holds what it held before the renaming,
/// or a name that can be read at the end of `p`.
pub open spec fn slots_ok(
    flow: Seq<Seq<InstructionView>>,
    formals: Set<Name>,
    bs: Seq<Seq<InstructionView>>,
    p: int,
) -> bool {
    forall|s: int, k: int, q: int| #[trigger]
        slot_for(flow, label_at(flow, p), s, k, q) ==> bs[s][k].args->0[q] == flow[s][k].args->0[q]
            || available(flow, formals, bs, bs[s][k].args->0[q], p, bs[p].len() as int)
}

/// Whether the slots of merges for the blocks of `done` hold what they held before the
/// renaming, or names that can be read at the end of these blocks.
pub open spec fn all_slots(
    flow: Seq<Seq<InstructionView>>,
    formals: Set<Name>,
    bs: Seq<Seq<InstructionView>>,
    done: Set<int>,
) -> bool {
    forall|p: int| #[trigger] done.contains(p) ==> slots_ok(flow, formals, bs, p)
}

/// What lies below one child of a block does not lie below another.
proof fn lemma_subtrees_apart(flow: Seq<Seq<InstructionView>>, b: int, i: int, i2: int, y: int)
    requires
        0 <= b < flow.len(),
        reachable(flow, b),
        0 <= i < dominator_tree(flow).children[b].len(),
        0 <= i2 < dominator_tree(flow).children[b].len(),
        i != i2,
        below(dominator_tree(flow), dominator_tree(flow).children[b][i], y),
    ensures
        !below(dominator_tree(flow), dominator_tree(flow).children[b][i2], y),
{
    let t = dominator_tree(flow);
    let c2 = t.children[b][i2];
    lemma_siblings_apart(flow, b, i, i2, y);
    lemma_child(flow, b, i2);
    if below(t, c2, y) {
        let p = choose|p: Seq<int>| is_descent(t, p) && p[0] == c2 && #[trigger] p.last() == y;
        lemma_below_dominated(flow, p);
    }
}

/// Slots that are in order for a block stay so where they stay and only blocks change
/// that neither are the block nor dominate it.
proof fn lemma_slots_outside(
    flow: Seq<Seq<InstructionView>>,
    formals: Set<Name>,
    bs: Seq<Seq<InstructionView>>,
    cs: Seq<Seq<InstructionView>>,
    changed: Set<int>,
    p: int,
)
    requires
        0 <= p < bs.len(),
        slots_ok(flow, formals, bs, p),
        slots_kept(flow, bs, cs, label_at(flow, p)),
        kept_outside(bs, cs, changed),
        forall|x: int| #[trigger] changed.contains(x) ==> x != p && !dominates(flow, x, p),
    ensures
        slots_ok(flow, formals, cs, p),
{
    assert(bs[p].len() == cs[p].len());
    assert forall|s: int, k: int, q: int| #[trigger]
        slot_for(flow, label_at(flow, p), s, k, q) implies cs[s][k].args->0[q]
        == flow[s][k].args->0[q] || available(
        flow,
        formals,
        cs,
        cs[s][k].args->0[q],
        p,
        cs[p].len() as int,
    ) by {
        let a = bs[s][k].args->0[q];
        assert(cs[s][k].args->0[q] == a);
        if a != flow[s][k].args->0[q] {
            lemma_available_outside(flow, formals, bs, cs, changed, a, p, bs[p].len() as int);
        }
    }
}

/// The walk from a block leaves the slots of merges for the blocks below it, and for
/// those that were done before, with what they held or with names that can be read at
/// the end of these blocks.
proof fn lemma_walked_merges(
    flow: Seq<Seq<InstructionView>>,
    formals: Set<Name>,
    st: Renaming,
    b: int,
    done: Set<int>,
)
    requires
        flow.len() == st.blocks.len(),
        0 <= b < flow.len(),
        reachable(flow, b),
        labels_differ(flow),
        same_frame(flow, st.blocks),
        stacks_ok(flow, formals, st.naming.stacks, st.blocks, b, 0),
        all_slots(flow, formals, st.blocks, done),
        apart(flow, b, done),
        forall|x: int| #[trigger]
            below(dominator_tree(flow), b, x) ==> slots_kept(flow, flow, st.blocks, label_at(flow, x)),
    ensures
        walked(dominator_tree(flow), flow, st, b) matches Ok(out) ==> all_slots(
            flow,
            formals,
            out.blocks,
            done.union(below_set(dominator_tree(flow), b)),
        ),
    decreases dominator_tree(flow).rank.len() - dominator_tree(flow).rank[b], 1nat, 0nat,
{
    let t = dominator_tree(flow);
    let n = flow.len() as int;
    let len = st.blocks[b].len() as int;
    match renamed_code(st.naming, st.blocks[b], len) {
        Err(_) => {},
        Ok((n1, code)) => {
            lemma_renamed_code_reads(flow, formals, st.naming, st.blocks, b, len);
            lemma_renamed_code_frame(st.naming, st.blocks[b], len);
            let blocks1 = st.blocks.update(b, code);
            assert(partly(st.blocks, b, code) =~= blocks1) by {
                assert(st.blocks[b].skip(len) =~= Seq::<InstructionView>::empty());
                assert(code + Seq::<InstructionView>::empty() =~= code);
            }
            let blocks2 = filled_blocks(blocks1, flow, n1, b);
            let st2 = Renaming { blocks: blocks2, naming: n1 };
            let own = Set::<int>::empty().insert(b);
            let none = Set::<int>::empty();
            assert(kept_outside(st.blocks, blocks1, own));
            assert(kept_outside(blocks1, blocks2, none));
            lemma_kept_outside_join(st.blocks, blocks1, blocks2, own, none, own);
            lemma_stacks_outside(flow, formals, n1.stacks, blocks1, blocks2, none, b, len);
            assert(blocks1[b].len() == blocks2[b].len());
            assert(blocks2[b].len() == len);
            let path = seq![b];
            assert(is_descent(t, path) && path[0] == b && path.last() == b);
            assert(below(t, b, b));
            let done2 = done.insert(b);
            assert forall|p: int| #[trigger] done2.contains(p) implies slots_ok(
                flow,
                formals,
                blocks2,
                p,
            ) by {
                lemma_own_slots(flow, st.naming, st.blocks, b, label_at(flow, p));
                if p != b {
                    assert(done.contains(p));
                    lemma_slots_outside(flow, formals, st.blocks, blocks2, own, p);
                } else {
                    assert forall|s: int, k: int, q: int| #[trigger]
                        slot_for(flow, label_at(flow, b), s, k, q) implies blocks2[s][k].args->0[q]
                        == flow[s][k].args->0[q] || available(
                        flow,
                        formals,
                        blocks2,
                        blocks2[s][k].args->0[q],
                        b,
                        blocks2[b].len() as int,
                    ) by {
                        let v = st.blocks[s][k].args->0[q];
                        assert(v == flow[s][k].args->0[q]);
                        if blocks2[s][k].args->0[q] != v {
                            let a = top(n1, v)->0;
                            assert(a == n1.stacks[v][n1.stacks[v].len() - 1]);
                            assert(available(flow, formals, blocks2, a, b, len));
                        }
                    }
                }
            }
            lemma_own_slots(flow, st.naming, st.blocks, b, label_at(flow, b));
            assert forall|x: int| #[trigger] rest_set(t, n, b, 0).contains(x) implies slots_kept(
                flow,
                flow,
                blocks2,
                label_at(flow, x),
            ) by {
                let i2 = choose|i2: int|
                    0 <= i2 < t.children[b].len() && goes_into(t, n, b, #[trigger] t.children[b][i2])
                        && below(t, t.children[b][i2], x);
                lemma_below_fold(t, n, b, i2, x);
                lemma_no_way_up(flow, b, i2, x);
                lemma_own_slots(flow, st.naming, st.blocks, b, label_at(flow, x));
                assert(slots_kept(flow, flow, st.blocks, label_at(flow, x)));
                assert(slots_kept(flow, st.blocks, blocks2, label_at(flow, x)));
            }
            assert forall|j: int, i2: int|
                #![trigger done2.contains(j), t.children[b][i2]]
                done2.contains(j) && 0 <= i2 < t.children[b].len() implies 0 <= j < flow.len()
                && t.children[b][i2] != j && !dominates(flow, t.children[b][i2], j) by {
                lemma_child(flow, b, i2);
                let c = t.children[b][i2];
                if j == b {
                    if dominates(flow, c, b) {
                        lemma_not_both(flow, b, c);
                    }
                } else {
                    assert(done.contains(j));
                    if c != j && dominates(flow, c, j) {
                        lemma_dominates_transitive(flow, b, c, j);
                    }
                }
            }
            assert(clear_of(flow, b, 0, done2));
            lemma_walked_children_merges(flow, formals, st2, b, 0, done2);
            match walked_children(t, flow, st2, b, 0) {
                Ok(st3) => {
                    let all = done.union(below_set(t, b));
                    assert forall|p: int| #[trigger] all.contains(p) implies slots_ok(
                        flow,
                        formals,
                        st3.blocks,
                        p,
                    ) by {
                        if done.contains(p) || p == b {
                            assert(done2.contains(p));
                        } else {
                            lemma_below_unfold(t, n, b, p);
                        }
                        assert(done2.union(rest_set(t, n, b, 0)).contains(p));
                    }
                },
                Err(_) => {},
            }
        },
    }
}

/// The walk through the children of a block leaves the slots of merges for the blocks
/// below them, and for those that were done before, with what they held or with names
/// that can be read at the end of these blocks.
proof fn lemma_walked_children_merges(
    flow: Seq<Seq<InstructionView>>,
    formals: Set<Name>,
    st: Renaming,
    b: int,
    i: int,
    done: Set<int>,
)
    requires
        flow.len() == st.blocks.len(),
        0 <= b < flow.len(),
        reachable(flow, b),
        0 <= i,
        labels_differ(flow),
        same_frame(flow, st.blocks),
        stacks_ok(flow, formals, st.naming.stacks, st.blocks, b, st.blocks[b].len() as int),
        all_slots(flow, formals, st.blocks, done),
        clear_of(flow, b, i, done),
        forall|x: int| #[trigger]
            rest_set(dominator_tree(flow), flow.len() as int, b, i).contains(x) ==> slots_kept(
                flow,
                flow,
                st.blocks,
                label_at(flow, x),
            ),
    ensures
        walked_children(dominator_tree(flow), flow, st, b, i) matches Ok(out) ==> all_slots(
            flow,
            formals,
            out.blocks,
            done.union(rest_set(dominator_tree(flow), flow.len() as int, b, i)),
        ),
    decreases dominator_tree(flow).rank.len() - dominator_tree(flow).rank[b],
        0nat,
        dominator_tree(flow).children[b].len() - i,
{
    let t = dominator_tree(flow);
    let n = flow.len() as int;
    if i < t.children[b].len() {
        let c = t.children[b][i];
        lemma_child(flow, b, i);
        assert(goes_into(t, n, b, c));
        let stacks = st.naming.stacks;
        assert forall|v: Name, k: int| stacks.contains_key(v) && 0 <= k < stacks[v].len() implies available(
            flow,
            formals,
            st.blocks,
            #[trigger] stacks[v][k],
            c,
            0,
        ) by {
            lemma_available_down(flow, formals, st.blocks, stacks[v][k], b, i);
        }
        assert(stacks_ok(flow, formals, stacks, st.blocks, c, 0));
        assert forall|j: int| #[trigger] done.contains(j) implies 0 <= j < flow.len() && j != c
            && !dominates(flow, c, j) by {
            assert(t.children[b][i] == c);
        }
        assert forall|x: int| #[trigger] below(t, c, x) implies slots_kept(
            flow,
            flow,
            st.blocks,
            label_at(flow, x),
        ) by {
            assert(goes_into(t, n, b, t.children[b][i]));
            assert(rest_set(t, n, b, i).contains(x));
        }
        lemma_walked_merges(flow, formals, st, c, done);
        lemma_walked_outside(t, flow, st, c);
        lemma_walked_frame(t, flow, st, c);
        match walked(t, flow, st, c) {
            Ok(st1) => {
                let under = below_set(t, c);
                let more = done.union(under);
                lemma_frame_transitive(flow, st.blocks, st1.blocks);
                assert forall|x: int| #[trigger] under.contains(x) implies x != b && !dominates(
                    flow,
                    x,
                    b,
                ) by {
                    lemma_no_way_up(flow, b, i, x);
                }
                lemma_stacks_outside(
                    flow,
                    formals,
                    stacks,
                    st.blocks,
                    st1.blocks,
                    under,
                    b,
                    st.blocks[b].len() as int,
                );
                assert(st.blocks[b].len() == st1.blocks[b].len());
                assert forall|j: int, i2: int|
                    #![trigger more.contains(j), t.children[b][i2]]
                    more.contains(j) && i + 1 <= i2 < t.children[b].len() implies 0 <= j < flow.len()
                    && t.children[b][i2] != j && !dominates(flow, t.children[b][i2], j) by {
                    if !done.contains(j) {
                        assert(under.contains(j));
                        lemma_no_way_up(flow, b, i, j);
                        lemma_siblings_apart(flow, b, i, i2, j);
                    }
                }
                assert(clear_of(flow, b, i + 1, more));
                assert forall|x: int| #[trigger] rest_set(t, n, b, i + 1).contains(x) implies slots_kept(
                    flow,
                    flow,
                    st1.blocks,
                    label_at(flow, x),
                ) by {
                    let i2 = choose|i2: int|
                        i + 1 <= i2 < t.children[b].len() && goes_into(
                            t,
                            n,
                            b,
                            #[trigger] t.children[b][i2],
                        ) && below(t, t.children[b][i2], x);
                    assert(goes_into(t, n, b, t.children[b][i2]));
                    assert(rest_set(t, n, b, i).contains(x));
                    lemma_no_way_up(flow, b, i2, x);
                    assert forall|y: int| #[trigger] below(t, c, y) implies label_at(flow, y)
                        != label_at(flow, x) by {
                        lemma_no_way_up(flow, b, i, y);
                        lemma_subtrees_apart(flow, b, i, i2, y);
                    }
                    lemma_walked_slots(t, flow, st, c, label_at(flow, x));
                    assert(slots_kept(flow, flow, st.blocks, label_at(flow, x)));
                    assert(slots_kept(flow, st.blocks, st1.blocks, label_at(flow, x)));
                }
                lemma_walked_children_merges(flow, formals, st1, b, i + 1, more);
                match walked_children(t, flow, st1, b, i + 1) {
                    Ok(out) => {
                        let all = done.union(rest_set(t, n, b, i));
                        let later = more.union(rest_set(t, n, b, i + 1));
                        assert forall|p: int| #[trigger] all.contains(p) implies slots_ok(
                            flow,
                            formals,
                            out.blocks,
                            p,
                        ) by {
                            if !done.contains(p) {
                                let i2 = choose|i2: int|
                                    i <= i2 < t.children[b].len() && goes_into(
                                        t,
                                        n,
                                        b,
                                        #[trigger] t.children[b][i2],
                                    ) && below(t, t.children[b][i2], p);
                                if i2 == i {
                                    assert(under.contains(p));
                                } else {
                                    assert(rest_set(t, n, b, i + 1).contains(p));
                                }
                            }
                            assert(later.contains(p));
                        }
                    },
                    Err(_) => {},
                }
            },
            Err(_) => {},
        }
    }
}

/// In a program in static single assignment form whose blocks have labels of their
/// own, every slot of a merge for a block that can be reached holds the variable that
/// it held before the renaming, or a formal argument or a name with a definition that
/// comes before the end of that block: in the block, or in another block that
/// dominates it.
pub proof fn lemma_merges_defined(
    blocks: Seq<Seq<InstructionView>>,
    args: Seq<Name>,
    out: Seq<Seq<InstructionView>>,
    p: int,
    s: int,
    k: int,
    q: int,
)
    requires
        blocks.len() > 0,
        labels_differ(blocks),
        renamed(blocks, args) == Ok::<Seq<Seq<InstructionView>>, Missing>(out),
        0 <= p < blocks.len(),
        reachable(blocks, p),
        slot_for(blocks, label_at(blocks, p), s, k, q),
    ensures
        out[s][k].args->0[q] == blocks[s][k].args->0[q] || available(
            blocks,
            args.to_set(),
            out,
            out[s][k].args->0[q],
            p,
            out[p].len() as int,
        ),
{
    let t = dominator_tree(blocks);
    let formals = args.to_set();
    let st0 = Renaming { blocks: blocks, naming: initial_naming(args) };
    let none = Set::<int>::empty();
    lemma_initial_stacks(args);
    let path = seq![0int];
    assert(is_path(blocks, path) && path[0] == 0 && path.last() == 0);
    assert(reachable(blocks, 0));
    assert(stacks_ok(blocks, formals, st0.naming.stacks, blocks, 0, 0));
    assert(same_frame(blocks, blocks));
    lemma_walked_merges(blocks, formals, st0, 0, none);
    lemma_tree_complete(blocks, p);
    assert(none.union(below_set(t, 0)).contains(p));
    assert(slots_ok(blocks, formals, out, p));
}

/// Whether every variable that can be read at position `p` of block `b` of the program
/// has a name.
pub open spec fn named(
    n: Naming,
    flow: Seq<Seq<InstructionView>>,
    formals: Set<Name>,
    b: int,
    p: int,
) -> bool {
    forall|v: Name| #[trigger] available(flow, formals, flow, v, b, p) ==> top(n, v) is Some
}

/// Whether block `x` of the second program has the destinations of the first, and its
/// instructions but for the arguments of merges.
pub open spec fn same_code(flow: Seq<Seq<InstructionView>>, bs: Seq<Seq<InstructionView>>, x: int) -> bool {
    &&& bs[x].len() == flow[x].len()
    &&& forall|k: int|
        0 <= k < flow[x].len() ==> (#[trigger] bs[x][k]).dest == flow[x][k].dest && is_phi(bs[x][k])
            == is_phi(flow[x][k]) && (!is_phi(flow[x][k]) ==> bs[x][k] == flow[x][k])
}

/// Whether every instruction of a block that can be reached, merges apart, reads only
/// formal arguments and variables with a definition that comes before it: earlier in
/// its block, or in another block that dominates its own.
pub open spec fn reads_defined(flow: Seq<Seq<InstructionView>>, formals: Set<Name>) -> bool {
    forall|j: int|
        0 <= j < flow.len() && #[trigger] reachable(flow, j) ==> reads_ok(flow, formals, flow, j)
}

/// Where every argument has a name, none is missing.
proof fn lemma_none_missing(n: Naming, args: Seq<Name>, i: int)
    requires
        0 <= i <= args.len(),
        forall|q: int| 0 <= q < args.len() ==> top(n, #[trigger] args[q]) is Some,
    ensures
        missing_from(n, args, i) >= args.len(),
    decreases args.len() - i,
{
    if i < args.len() {
        lemma_none_missing(n, args, i + 1);
    }
}

/// A block whose reads are of variables that can be read there is renamed without
/// failure, and afterwards every variable that can be read at its end has a name.
proof fn lemma_renamed_code_succeeds(
    flow: Seq<Seq<InstructionView>>,
    formals: Set<Name>,
    n: Naming,
    code: Seq<InstructionView>,
    b: int,
    k: int,
)
    requires
        0 <= b < flow.len(),
        0 <= k <= code.len(),
        code.len() == flow[b].len(),
        forall|i: int|
            0 <= i < flow[b].len() ==> (#[trigger] code[i]).dest == flow[b][i].dest && is_phi(code[i])
                == is_phi(flow[b][i]) && (!is_phi(flow[b][i]) ==> code[i] == flow[b][i]),
        reads_ok(flow, formals, flow, b),
        named(n, flow, formals, b, 0),
    ensures
        renamed_code(n, code, k) is Ok,
        named(renamed_code(n, code, k)->Ok_0.0, flow, formals, b, k),
    decreases k,
{
    if k > 0 {
        lemma_renamed_code_succeeds(flow, formals, n, code, b, k - 1);
        let (n1, done) = renamed_code(n, code, k - 1)->Ok_0;
        let x = code[k - 1];
        assert(x.dest == flow[b][k - 1].dest);
        if reads_names(x) {
            assert(x == flow[b][k - 1]);
            assert forall|q: int| 0 <= q < x.args->0.len() implies top(n1, #[trigger] x.args->0[q]) is Some by {
                assert(available(flow, formals, flow, flow[b][k - 1].args->0[q], b, k - 1));
            }
            lemma_none_missing(n1, x.args->0, 0);
        }
        let n2 = renamed_line(n1, x)->Ok_0.0;
        assert forall|v: Name| #[trigger] available(flow, formals, flow, v, b, k) implies top(n2, v) is Some by {
            if !available(flow, formals, flow, v, b, k - 1) {
                let (b2, k2) = choose|b2: int, k2: int| defined_at(flow, flow, v, b, k, b2, k2);
                if b2 != b || k2 < k - 1 {
                    assert(defined_at(flow, flow, v, b, k - 1, b2, k2));
                }
                assert(x.dest == Some(v));
            }
        }
    }
}

/// The walk from a block does not fail where the program reads only what is defined
/// before, every variable that can be read at the start of the block has a name, and
/// the blocks below it have not been renamed.
proof fn lemma_walked_succeeds(
    flow: Seq<Seq<InstructionView>>,
    formals: Set<Name>,
    st: Renaming,
    b: int,
)
    requires
        flow.len() == st.blocks.len(),
        0 <= b < flow.len(),
        reachable(flow, b),
        reads_defined(flow, formals),
        named(st.naming, flow, formals, b, 0),
        forall|x: int| #[trigger] below(dominator_tree(flow), b, x) ==> same_code(flow, st.blocks, x),
    ensures
        walked(dominator_tree(flow), flow, st, b) is Ok,
    decreases dominator_tree(flow).rank.len() - dominator_tree(flow).rank[b], 1nat, 0nat,
{
    let t = dominator_tree(flow);
    let n = flow.len() as int;
    let len = st.blocks[b].len() as int;
    let path = seq![b];
    assert(is_descent(t, path) && path[0] == b && path.last() == b);
    assert(below(t, b, b));
    assert(same_code(flow, st.blocks, b));
    lemma_renamed_code_succeeds(flow, formals, st.naming, st.blocks[b], b, len);
    lemma_renamed_code_frame(st.naming, st.blocks[b], len);
    let (n1, code) = renamed_code(st.naming, st.blocks[b], len)->Ok_0;
    let blocks1 = st.blocks.update(b, code);
    let blocks2 = filled_blocks(blocks1, flow, n1, b);
    let st2 = Renaming { blocks: blocks2, naming: n1 };
    let own = Set::<int>::empty().insert(b);
    let none = Set::<int>::empty();
    assert(kept_outside(st.blocks, blocks1, own));
    assert(kept_outside(blocks1, blocks2, none));
    lemma_kept_outside_join(st.blocks, blocks1, blocks2, own, none, own);
    assert forall|x: int| #[trigger] rest_set(t, n, b, 0).contains(x) implies same_code(
        flow,
        blocks2,
        x,
    ) by {
        let i2 = choose|i2: int|
            0 <= i2 < t.children[b].len() && goes_into(t, n, b, #[trigger] t.children[b][i2]) && below(
                t,
                t.children[b][i2],
                x,
            );
        lemma_below_fold(t, n, b, i2, x);
        lemma_no_way_up(flow, b, i2, x);
        assert(same_code(flow, st.blocks, x));
        assert(!own.contains(x));
        assert(st.blocks[x].len() == blocks2[x].len());
        assert forall|k: int| 0 <= k < flow[x].len() implies (#[trigger] blocks2[x][k]).dest
            == flow[x][k].dest && is_phi(blocks2[x][k]) == is_phi(flow[x][k]) && (!is_phi(
            flow[x][k],
        ) ==> blocks2[x][k] == flow[x][k]) by {
            assert(st.blocks[x][k].dest == flow[x][k].dest);
        }
    }
    lemma_walked_children_succeeds(flow, formals, st2, b, 0);
}

/// The walk through the children of a block does not fail where the program reads only
/// what is defined before, every variable that can be read at the end of the block has
/// a name, and the blocks below the children have not been renamed.
proof fn lemma_walked_children_succeeds(
    flow: Seq<Seq<InstructionView>>,
    formals: Set<Name>,
    st: Renaming,
    b: int,
    i: int,
)
    requires
        flow.len() == st.blocks.len(),
        0 <= b < flow.len(),
        reachable(flow, b),
        0 <= i,
        reads_defined(flow, formals),
        named(st.naming, flow, formals, b, flow[b].len() as int),
        forall|x: int| #[trigger]
            rest_set(dominator_tree(flow), flow.len() as int, b, i).contains(x) ==> same_code(
                flow,
                st.blocks,
                x,
            ),
    ensures
        walked_children(dominator_tree(flow), flow, st, b, i) is Ok,
    decreases dominator_tree(flow).rank.len() - dominator_tree(flow).rank[b],
        0nat,
        dominator_tree(flow).children[b].len() - i,
{
    let t = dominator_tree(flow);
    let n = flow.len() as int;
    if i < t.children[b].len() {
        let c = t.children[b][i];
        lemma_child(flow, b, i);
        assert(goes_into(t, n, b, c));
        assert forall|v: Name| #[trigger] available(flow, formals, flow, v, c, 0) implies top(
            st.naming,
            v,
        ) is Some by {
            if !formals.contains(v) {
                let (b2, k2) = choose|b2: int, k2: int| defined_at(flow, flow, v, c, 0, b2, k2);
                assert(dominator_row(flow, c)[b2]);
                if b2 != b {
                    assert(dominator_row(flow, b)[b2]);
                }
                assert(defined_at(flow, flow, v, b, flow[b].len() as int, b2, k2));
                assert(available(flow, formals, flow, v, b, flow[b].len() as int));
            } else {
                assert(available(flow, formals, flow, v, b, flow[b].len() as int));
            }
        }
        assert forall|x: int| #[trigger] below(t, c, x) implies same_code(flow, st.blocks, x) by {
            assert(goes_into(t, n, b, t.children[b][i]));
            assert(rest_set(t, n, b, i).contains(x));
        }
        lemma_walked_succeeds(flow, formals, st, c);
        lemma_walked_outside(t, flow, st, c);
        let st1 = walked(t, flow, st, c)->Ok_0;
        assert forall|v: Name| #[trigger]
            available(flow, formals, flow, v, b, flow[b].len() as int) implies top(st1.naming, v) is Some by {
            assert(top(st.naming, v) is Some);
        }
        assert forall|x: int| #[trigger] rest_set(t, n, b, i + 1).contains(x) implies same_code(
            flow,
            st1.blocks,
            x,
        ) by {
            let i2 = choose|i2: int|
                i + 1 <= i2 < t.children[b].len() && goes_into(t, n, b, #[trigger] t.children[b][i2])
                    && below(t, t.children[b][i2], x);
            assert(goes_into(t, n, b, t.children[b][i2]));
            assert(rest_set(t, n, b, i).contains(x));
            if below(t, c, x) {
                lemma_subtrees_apart(flow, b, i, i2, x);
            }
            assert(!below_set(t, c).contains(x));
            lemma_no_way_up(flow, b, i2, x);
            assert(same_code(flow, st.blocks, x));
            assert(st.blocks[x].len() == st1.blocks[x].len());
            assert forall|k: int| 0 <= k < flow[x].len() implies (#[trigger] st1.blocks[x][k]).dest
                == flow[x][k].dest && is_phi(st1.blocks[x][k]) == is_phi(flow[x][k]) && (!is_phi(
                flow[x][k],
            ) ==> st1.blocks[x][k] == flow[x][k]) by {
                assert(st.blocks[x][k].dest == flow[x][k].dest);
            }
        }
        lemma_walked_children_succeeds(flow, formals, st1, b, i + 1);
    }
}

/// At the start every formal argument has a name.
proof fn lemma_initial_tops(args: Seq<Name>, v: Name)
    requires
        args.contains(v),
    ensures
        top(initial_naming(args), v) is Some,
    decreases args.len(),
{
    if args.len() > 0 {
        if args.last() != v {
            let i = choose|i: int| 0 <= i < args.len() && args[i] == v;
            assert(args.drop_last()[i] == v);
            lemma_initial_tops(args.drop_last(), v);
        }
    }
}

/// Renaming succeeds where every instruction of a block that can be reached, merges
/// apart, reads only formal arguments and variables with a definition that comes before
/// it: earlier in its block, or in another block that dominates its own.
pub proof fn lemma_rename_succeeds(blocks: Seq<Seq<InstructionView>>, args: Seq<Name>)
    requires
        blocks.len() > 0,
        reads_defined(blocks, args.to_set()),
    ensures
        renamed(blocks, args) is Ok,
{
    let formals = args.to_set();
    let st0 = Renaming { blocks: blocks, naming: initial_naming(args) };
    let path = seq![0int];
    assert(is_path(blocks, path) && path[0] == 0 && path.last() == 0);
    assert(reachable(blocks, 0));
    assert forall|v: Name| #[trigger] available(blocks, formals, blocks, v, 0, 0) implies top(
        st0.naming,
        v,
    ) is Some by {
        if formals.contains(v) {
            lemma_initial_tops(args, v);
        } else {
            let (b2, k2) = choose|b2: int, k2: int| defined_at(blocks, blocks, v, 0, 0, b2, k2);
            crate::dominance::lemma_dominates_entry(blocks, b2);
        }
    }
    lemma_walked_succeeds(blocks, formals, st0, 0);
}

/// Whether `a` is one of the names that renaming gives to the variable `v`.
pub open spec fn is_version_of(a: Name, v: Name) -> bool {
    exists|c: nat| a == #[trigger] version(v, c)
}

/// Whether `a` is a name of the variable `v`: `v` itself, or one of the names that
/// renaming gives to it.
pub open spec fn is_name_of(a: Name, v: Name) -> bool {
    a == v || is_version_of(a, v)
}

/// Whether every variable goes only by names of its own.
pub open spec fn stack_names(n: Naming) -> bool {
    forall|v: Name, i: int|
        n.stacks.contains_key(v) && 0 <= i < n.stacks[v].len() ==> is_name_of(
            #[trigger] n.stacks[v][i],
            v,
        )
}

/// Whether, in the second program, every destination of block `x` is a name that
/// renaming gave to the variable that the first program writes there, and every slot
/// of a merge for block `x` holds a name of the variable that it holds in the first.
pub open spec fn versions_ok(
    flow: Seq<Seq<InstructionView>>,
    bs: Seq<Seq<InstructionView>>,
    x: int,
) -> bool {
    &&& forall|k: int|
        0 <= k < flow[x].len() && (#[trigger] flow[x][k]).dest is Some ==> bs[x][k].dest is Some
            && is_version_of(bs[x][k].dest->0, flow[x][k].dest->0)
    &&& forall|s: int, k: int, q: int| #[trigger]
        slot_for(flow, label_at(flow, x), s, k, q) ==> is_name_of(
            bs[s][k].args->0[q],
            flow[s][k].args->0[q],
        )
}

/// Renaming the instructions of a block gives every destination a name of its
/// variable, and leaves every variable with names of its own.
proof fn lemma_renamed_code_versions(n: Naming, code: Seq<InstructionView>, k: int)
    requires
        0 <= k <= code.len(),
        stack_names(n),
    ensures
        renamed_code(n, code, k) matches Ok((m, out)) ==> stack_names(m) && out.len() == k
            && forall|i: int|
            0 <= i < k && (#[trigger] code[i]).dest is Some ==> out[i].dest is Some && is_version_of(
                out[i].dest->0,
                code[i].dest->0,
            ),
    decreases k,
{
    if k > 0 {
        lemma_renamed_code_versions(n, code, k - 1);
        match renamed_code(n, code, k - 1) {
            Ok((n1, done)) => {
                let x = code[k - 1];
                match renamed_line(n1, x) {
                    Ok((n2, y)) => {
                        let out = done.push(y);
                        match x.dest {
                            Some(v) => {
                                let a = version(v, count(n1, v) + 1);
                                assert(is_version_of(a, v));
                                assert forall|w: Name, i: int|
                                    n2.stacks.contains_key(w) && 0 <= i < n2.stacks[w].len() implies is_name_of(
                                    #[trigger] n2.stacks[w][i],
                                    w,
                                ) by {
                                    if w == v {
                                        if i < stack_of(n1, v).len() {
                                            assert(n2.stacks[w][i] == n1.stacks[v][i]);
                                        }
                                    } else {
                                        assert(n2.stacks[w][i] == n1.stacks[w][i]);
                                    }
                                }
                            },
                            None => {},
                        }
                        assert forall|i: int|
                            0 <= i < k && (#[trigger] code[i]).dest is Some implies out[i].dest is Some
                            && is_version_of(out[i].dest->0, code[i].dest->0) by {
                            if i < k - 1 {
                                assert(out[i] == done[i]);
                            }
                        }
                    },
                    Err(_) => {},
                }
            },
            Err(_) => {},
        }
    }
}

/// A block keeps names of its variables where it stays and the slots for it stay.
proof fn lemma_versions_outside(
    flow: Seq<Seq<InstructionView>>,
    bs: Seq<Seq<InstructionView>>,
    cs: Seq<Seq<InstructionView>>,
    inside: Set<int>,
    x: int,
)
    requires
        0 <= x < flow.len(),
        flow.len() == bs.len(),
        bs[x].len() == flow[x].len(),
        versions_ok(flow, bs, x),
        kept_outside(bs, cs, inside),
        !inside.contains(x),
        slots_kept(flow, bs, cs, label_at(flow, x)),
    ensures
        versions_ok(flow, cs, x),
{
    assert forall|k: int| 0 <= k < flow[x].len() && (#[trigger] flow[x][k]).dest is Some implies cs[x][k].dest is Some
        && is_version_of(cs[x][k].dest->0, flow[x][k].dest->0) by {
        assert(cs[x][k].dest == bs[x][k].dest);
    }
}

/// Whether block `x` has not been renamed, and no slot for it has been filled.
pub open spec fn waiting(flow: Seq<Seq<InstructionView>>, bs: Seq<Seq<InstructionView>>, x: int) -> bool {
    same_code(flow, bs, x) && slots_kept(flow, flow, bs, label_at(flow, x))
}

/// A block that is waiting stays so where it stays and the slots for it stay.
proof fn lemma_waiting_outside(
    flow: Seq<Seq<InstructionView>>,
    bs: Seq<Seq<InstructionView>>,
    cs: Seq<Seq<InstructionView>>,
    inside: Set<int>,
    x: int,
)
    requires
        0 <= x < flow.len(),
        flow.len() == bs.len(),
        waiting(flow, bs, x),
        kept_outside(bs, cs, inside),
        !inside.contains(x),
        slots_kept(flow, bs, cs, label_at(flow, x)),
    ensures
        waiting(flow, cs, x),
{
    assert(bs[x].len() == cs[x].len());
    assert forall|k: int| 0 <= k < flow[x].len() implies (#[trigger] cs[x][k]).dest == flow[x][k].dest
        && is_phi(cs[x][k]) == is_phi(flow[x][k]) && (!is_phi(flow[x][k]) ==> cs[x][k]
        == flow[x][k]) by {
        assert(bs[x][k].dest == flow[x][k].dest);
    }
}

/// The labels of the blocks below a child of `b` from the `i`-th on differ from that of
/// any block that is none of them.
proof fn lemma_rest_labels(flow: Seq<Seq<InstructionView>>, b: int, i: int, x: int)
    requires
        0 <= b < flow.len(),
        reachable(flow, b),
        0 <= i,
        0 <= x < flow.len(),
        labels_differ(flow),
        !rest_set(dominator_tree(flow), flow.len() as int, b, i).contains(x),
    ensures
        forall|y: int| #[trigger]
            rest_set(dominator_tree(flow), flow.len() as int, b, i).contains(y) ==> label_at(flow, y)
                != label_at(flow, x),
{
    let t = dominator_tree(flow);
    assert forall|y: int| #[trigger] rest_set(t, flow.len() as int, b, i).contains(y) implies label_at(
        flow,
        y,
    ) != label_at(flow, x) by {
        let i2 = choose|i2: int|
            i <= i2 < t.children[b].len() && goes_into(t, flow.len() as int, b, #[trigger] t.children[b][i2])
                && below(t, t.children[b][i2], y);
        lemma_no_way_up(flow, b, i2, y);
    }
}

/// The walk from a block gives the blocks below it names of their variables.
proof fn lemma_walked_versions(flow: Seq<Seq<InstructionView>>, st: Renaming, b: int)
    requires
        flow.len() == st.blocks.len(),
        0 <= b < flow.len(),
        reachable(flow, b),
        labels_differ(flow),
        same_frame(flow, st.blocks),
        stack_names(st.naming),
        forall|x: int| #[trigger] below(dominator_tree(flow), b, x) ==> waiting(flow, st.blocks, x),
    ensures
        walked(dominator_tree(flow), flow, st, b) matches Ok(out) ==> forall|x: int| #[trigger]
            below(dominator_tree(flow), b, x) ==> versions_ok(flow, out.blocks, x),
    decreases dominator_tree(flow).rank.len() - dominator_tree(flow).rank[b], 1nat, 0nat,
{
    let t = dominator_tree(flow);
    let n = flow.len() as int;
    let len = st.blocks[b].len() as int;
    let path = seq![b];
    assert(is_descent(t, path) && path[0] == b && path.last() == b);
    assert(below(t, b, b));
    assert(waiting(flow, st.blocks, b));
    match renamed_code(st.naming, st.blocks[b], len) {
        Err(_) => {},
        Ok((n1, code)) => {
            lemma_renamed_code_versions(st.naming, st.blocks[b], len);
            lemma_renamed_code_frame(st.naming, st.blocks[b], len);
            lemma_own_slots(flow, st.naming, st.blocks, b, label_at(flow, b));
            let blocks1 = st.blocks.update(b, code);
            let blocks2 = filled_blocks(blocks1, flow, n1, b);
            let st2 = Renaming { blocks: blocks2, naming: n1 };
            let own = Set::<int>::empty().insert(b);
            let none = Set::<int>::empty();
            assert(kept_outside(st.blocks, blocks1, own));
            assert(kept_outside(blocks1, blocks2, none));
            lemma_kept_outside_join(st.blocks, blocks1, blocks2, own, none, own);
            assert(blocks2[b].len() == flow[b].len()) by {
                assert(blocks1[b].len() == blocks2[b].len());
            }
            assert(versions_ok(flow, blocks2, b)) by {
                assert forall|k: int| 0 <= k < flow[b].len() && (#[trigger] flow[b][k]).dest is Some implies blocks2[b][k].dest is Some
                    && is_version_of(blocks2[b][k].dest->0, flow[b][k].dest->0) by {
                    assert(blocks1[b][k] == code[k]);
                    assert(blocks2[b][k].dest == blocks1[b][k].dest);
                    assert(st.blocks[b][k].dest == flow[b][k].dest);
                }
                assert forall|s: int, k: int, q: int| #[trigger]
                    slot_for(flow, label_at(flow, b), s, k, q) implies is_name_of(
                    blocks2[s][k].args->0[q],
                    flow[s][k].args->0[q],
                ) by {
                    let v = flow[s][k].args->0[q];
                    assert(st.blocks[s][k].args->0[q] == v);
                    if blocks2[s][k].args->0[q] != v {
                        assert(top(n1, v)->0 == n1.stacks[v][n1.stacks[v].len() - 1]);
                    }
                }
            }
            assert forall|x: int| #[trigger] rest_set(t, n, b, 0).contains(x) implies waiting(
                flow,
                blocks2,
                x,
            ) by {
                let i2 = choose|i2: int|
                    0 <= i2 < t.children[b].len() && goes_into(t, n, b, #[trigger] t.children[b][i2])
                        && below(t, t.children[b][i2], x);
                lemma_below_fold(t, n, b, i2, x);
                lemma_no_way_up(flow, b, i2, x);
                lemma_own_slots(flow, st.naming, st.blocks, b, label_at(flow, x));
                lemma_waiting_outside(flow, st.blocks, blocks2, own, x);
            }
            lemma_walked_children_versions(flow, st2, b, 0);
            lemma_walked_children_outside(t, flow, st2, b, 0);
            match walked_children(t, flow, st2, b, 0) {
                Ok(st3) => {
                    assert(!rest_set(t, n, b, 0).contains(b)) by {
                        if rest_set(t, n, b, 0).contains(b) {
                            let i2 = choose|i2: int|
                                0 <= i2 < t.children[b].len() && goes_into(
                                    t,
                                    n,
                                    b,
                                    #[trigger] t.children[b][i2],
                                ) && below(t, t.children[b][i2], b);
                            lemma_no_way_up(flow, b, i2, b);
                        }
                    }
                    lemma_rest_labels(flow, b, 0, b);
                    lemma_walked_children_slots(t, flow, st2, b, 0, label_at(flow, b));
                    lemma_versions_outside(flow, blocks2, st3.blocks, rest_set(t, n, b, 0), b);
                    assert forall|x: int| #[trigger] below(t, b, x) implies versions_ok(
                        flow,
                        st3.blocks,
                        x,
                    ) by {
                        lemma_below_unfold(t, n, b, x);
                    }
                },
                Err(_) => {},
            }
        },
    }
}

/// A block below a later child of `b` lies below no earlier one, and is not `b`.
proof fn lemma_later_apart(flow: Seq<Seq<InstructionView>>, b: int, i: int, x: int)
    requires
        0 <= b < flow.len(),
        reachable(flow, b),
        0 <= i < dominator_tree(flow).children[b].len(),
        rest_set(dominator_tree(flow), flow.len() as int, b, i + 1).contains(x),
    ensures
        !below(dominator_tree(flow), dominator_tree(flow).children[b][i], x),
        0 <= x < flow.len(),
        x != b,
        rest_set(dominator_tree(flow), flow.len() as int, b, i).contains(x),
{
    let t = dominator_tree(flow);
    let n = flow.len() as int;
    let i2 = choose|i2: int|
        i + 1 <= i2 < t.children[b].len() && goes_into(t, n, b, #[trigger] t.children[b][i2]) && below(
            t,
            t.children[b][i2],
            x,
        );
    assert(goes_into(t, n, b, t.children[b][i2]));
    if below(t, t.children[b][i], x) {
        lemma_subtrees_apart(flow, b, i, i2, x);
    }
    lemma_no_way_up(flow, b, i2, x);
}

/// A block below a later child of `b` is still waiting after the walk from an earlier
/// one.
proof fn lemma_later_waiting(flow: Seq<Seq<InstructionView>>, st: Renaming, b: int, i: int, x: int)
    requires
        flow.len() == st.blocks.len(),
        0 <= b < flow.len(),
        reachable(flow, b),
        0 <= i < dominator_tree(flow).children[b].len(),
        labels_differ(flow),
        same_frame(flow, st.blocks),
        rest_set(dominator_tree(flow), flow.len() as int, b, i + 1).contains(x),
        waiting(flow, st.blocks, x),
    ensures
        walked(dominator_tree(flow), flow, st, dominator_tree(flow).children[b][i]) matches Ok(st1)
            ==> waiting(flow, st1.blocks, x),
{
    let t = dominator_tree(flow);
    let c = t.children[b][i];
    lemma_child(flow, b, i);
    lemma_later_apart(flow, b, i, x);
    assert forall|y: int| #[trigger] below(t, c, y) implies label_at(flow, y) != label_at(flow, x) by {
        lemma_no_way_up(flow, b, i, y);
    }
    lemma_walked_slots(t, flow, st, c, label_at(flow, x));
    lemma_walked_outside(t, flow, st, c);
    match walked(t, flow, st, c) {
        Ok(st1) => {
            lemma_waiting_outside(flow, st.blocks, st1.blocks, below_set(t, c), x);
        },
        Err(_) => {},
    }
}

/// A block below a child of `b` keeps the names of its variables over the walk through
/// the later children.
proof fn lemma_earlier_kept(flow: Seq<Seq<InstructionView>>, st1: Renaming, b: int, i: int, x: int)
    requires
        flow.len() == st1.blocks.len(),
        0 <= b < flow.len(),
        reachable(flow, b),
        0 <= i < dominator_tree(flow).children[b].len(),
        labels_differ(flow),
        same_frame(flow, st1.blocks),
        below(dominator_tree(flow), dominator_tree(flow).children[b][i], x),
        versions_ok(flow, st1.blocks, x),
    ensures
        walked_children(dominator_tree(flow), flow, st1, b, i + 1) matches Ok(out) ==> versions_ok(
            flow,
            out.blocks,
            x,
        ),
{
    let t = dominator_tree(flow);
    let n = flow.len() as int;
    let later = rest_set(t, n, b, i + 1);
    lemma_no_way_up(flow, b, i, x);
    if later.contains(x) {
        lemma_later_apart(flow, b, i, x);
    }
    lemma_rest_labels(flow, b, i + 1, x);
    lemma_walked_children_slots(t, flow, st1, b, i + 1, label_at(flow, x));
    lemma_walked_children_outside(t, flow, st1, b, i + 1);
    match walked_children(t, flow, st1, b, i + 1) {
        Ok(out) => {
            assert(st1.blocks[x].len() == flow[x].len());
            lemma_versions_outside(flow, st1.blocks, out.blocks, later, x);
        },
        Err(_) => {},
    }
}

/// The walk through the children of a block gives the blocks below them names of their
/// variables.
proof fn lemma_walked_children_versions(
    flow: Seq<Seq<InstructionView>>,
    st: Renaming,
    b: int,
    i: int,
)
    requires
        flow.len() == st.blocks.len(),
        0 <= b < flow.len(),
        reachable(flow, b),
        0 <= i,
        labels_differ(flow),
        same_frame(flow, st.blocks),
        stack_names(st.naming),
        forall|x: int| #[trigger]
            rest_set(dominator_tree(flow), flow.len() as int, b, i).contains(x) ==> waiting(
                flow,
                st.blocks,
                x,
            ),
    ensures
        walked_children(dominator_tree(flow), flow, st, b, i) matches Ok(out) ==> forall|x: int| #[trigger]
            rest_set(dominator_tree(flow), flow.len() as int, b, i).contains(x) ==> versions_ok(
                flow,
                out.blocks,
                x,
            ),
    decreases dominator_tree(flow).rank.len() - dominator_tree(flow).rank[b],
        0nat,
        dominator_tree(flow).children[b].len() - i,
{
    let t = dominator_tree(flow);
    let n = flow.len() as int;
    if i < t.children[b].len() {
        let c = t.children[b][i];
        lemma_child(flow, b, i);
        assert(goes_into(t, n, b, c));
        assert forall|x: int| #[trigger] below(t, c, x) implies waiting(flow, st.blocks, x) by {
            assert(goes_into(t, n, b, t.children[b][i]));
            assert(rest_set(t, n, b, i).contains(x));
        }
        lemma_walked_versions(flow, st, c);
        lemma_walked_outside(t, flow, st, c);
        lemma_walked_frame(t, flow, st, c);
        match walked(t, flow, st, c) {
            Ok(st1) => {
                let later = rest_set(t, n, b, i + 1);
                lemma_frame_transitive(flow, st.blocks, st1.blocks);
                assert forall|x: int| #[trigger] later.contains(x) implies waiting(
                    flow,
                    st1.blocks,
                    x,
                ) by {
                    lemma_later_apart(flow, b, i, x);
                    lemma_later_waiting(flow, st, b, i, x);
                }
                lemma_walked_children_versions(flow, st1, b, i + 1);
                match walked_children(t, flow, st1, b, i + 1) {
                    Ok(out) => {
                        assert forall|x: int| #[trigger] rest_set(t, n, b, i).contains(x) implies versions_ok(
                            flow,
                            out.blocks,
                            x,
                        ) by {
                            let i2 = choose|i2: int|
                                i <= i2 < t.children[b].len() && goes_into(
                                    t,
                                    n,
                                    b,
                                    #[trigger] t.children[b][i2],
                                ) && below(t, t.children[b][i2], x);
                            if i2 == i {
                                lemma_earlier_kept(flow, st1, b, i, x);
                            } else {
                                assert(later.contains(x));
                            }
                        }
                    },
                    Err(_) => {},
                }
            },
            Err(_) => {},
        }
    }
}

/// At the start every variable goes by its own name.
proof fn lemma_initial_names(args: Seq<Name>)
    ensures
        stack_names(initial_naming(args)),
    decreases args.len(),
{
    if args.len() > 0 {
        lemma_initial_names(args.drop_last());
        let n = initial_naming(args);
        let n0 = initial_naming(args.drop_last());
        assert forall|v: Name, i: int| n.stacks.contains_key(v) && 0 <= i < n.stacks[v].len() implies is_name_of(
            #[trigger] n.stacks[v][i],
            v,
        ) by {
            if v != args.last() {
                assert(n.stacks[v][i] == n0.stacks[v][i]);
            }
        }
    }
}

/// In a program in static single assignment form whose blocks have labels of their
/// own, every destination in a block that can be reached is one of the names that
/// renaming gives to the variable that was written there, and every slot of a merge for
/// such a block holds the variable that it held before, or one of the names that
/// renaming gives to that variable.
pub proof fn lemma_names_of_variables(
    blocks: Seq<Seq<InstructionView>>,
    args: Seq<Name>,
    out: Seq<Seq<InstructionView>>,
    j: int,
)
    requires
        blocks.len() > 0,
        labels_differ(blocks),
        renamed(blocks, args) == Ok::<Seq<Seq<InstructionView>>, Missing>(out),
        0 <= j < blocks.len(),
        reachable(blocks, j),
    ensures
        versions_ok(blocks, out, j),
{
    let t = dominator_tree(blocks);
    let st0 = Renaming { blocks: blocks, naming: initial_naming(args) };
    lemma_initial_names(args);
    let path = seq![0int];
    assert(is_path(blocks, path) && path[0] == 0 && path.last() == 0);
    assert(reachable(blocks, 0));
    assert(same_frame(blocks, blocks));
    lemma_walked_versions(blocks, st0, 0);
    lemma_tree_complete(blocks, j);
}

} // verus!
