use vstd::prelude::*;
use crate::dataflow::{lemma_touched_in, touched, touched_in};
use crate::graph::listed;
use crate::ir::{code_of, Function, Instruction, InstructionView};
use crate::names::NameSet;
use crate::text::{holds_text, names_of, Name};

verus! {

/// Whether the instruction reads the variable `n`.
pub open spec fn reads(x: InstructionView, n: Name) -> bool {
    x.args is Some && x.args->0.contains(n)
}

/// The variables that some instruction reads.
pub open spec fn read_somewhere(code: Seq<InstructionView>) -> Set<Name> {
    Set::new(|n: Name| exists|i: int| 0 <= i < code.len() && reads(#[trigger] code[i], n))
}

/// Whether an instruction stays when only the variables of `used` are wanted: it writes
/// nothing, or it writes a wanted variable.
pub open spec fn stays(x: InstructionView, used: Set<Name>) -> bool {
    x.dest is None || used.contains(x.dest->0)
}

/// The instructions that stay, in order.
pub open spec fn kept(code: Seq<InstructionView>, used: Set<Name>) -> Seq<InstructionView> {
    code.filter(|x: InstructionView| stays(x, used))
}

/// Deleting what is not wanted deletes and does nothing else: no instruction is added,
/// every instruction that is left was there and stays under the rule, and every
/// instruction that writes nothing is left.
pub proof fn lemma_kept(code: Seq<InstructionView>, used: Set<Name>)
    ensures
        kept(code, used).len() <= code.len(),
        forall|i: int|
            0 <= i < kept(code, used).len() ==> stays(#[trigger] kept(code, used)[i], used)
                && code.contains(kept(code, used)[i]),
        forall|i: int|
            0 <= i < code.len() && (#[trigger] code[i]).dest is None ==> kept(code, used).contains(
                code[i],
            ),
    decreases code.len(),
{
    reveal(Seq::filter);
    if code.len() > 0 {
        let front = code.drop_last();
        let x = code.last();
        lemma_kept(front, used);
        let before = kept(front, used);
        let now = kept(code, used);
        assert forall|i: int| 0 <= i < now.len() implies stays(#[trigger] now[i], used)
            && code.contains(now[i]) by {
            if i < before.len() {
                assert(now[i] == before[i]);
                let k = choose|k: int| 0 <= k < front.len() && front[k] == before[i];
                assert(code[k] == now[i]);
            } else {
                assert(code[code.len() - 1] == now[i]);
            }
        }
        assert forall|i: int| 0 <= i < code.len() && (#[trigger] code[i]).dest is None implies now.contains(
            code[i],
        ) by {
            if i < front.len() {
                assert(front[i] == code[i]);
                let k = choose|k: int| 0 <= k < before.len() && before[k] == front[i];
                assert(now[k] == code[i]);
            } else {
                assert(now[now.len() - 1] == code[i]);
            }
        }
    }
}

fn retain_used(instrs: &Vec<Instruction>, used: &NameSet) -> (out: Vec<Instruction>)
    ensures
        code_of(out@) == kept(code_of(instrs@), used@),
{
    let mut out: Vec<Instruction> = Vec::new();
    let mut i: usize = 0;
    let ghost code = code_of(instrs@);
    let ghost keep = |x: InstructionView| stays(x, used@);
    proof {
        reveal(Seq::filter);
        assert(code.take(0) =~= seq![]);
        assert(code_of(out@) =~= code.take(0).filter(keep));
    }
    while i < instrs.len()
        invariant
            i <= instrs.len(),
            code == code_of(instrs@),
            keep == |x: InstructionView| stays(x, used@),
            code_of(out@) == code.take(i as int).filter(keep),
        decreases instrs.len() - i,
    {
        let ghost before = code_of(out@);
        proof {
            reveal(Seq::filter);
            assert(code.take(i + 1).drop_last() =~= code.take(i as int));
            assert(code.take(i + 1).last() == instrs@[i as int]@);
        }
        let stay = match &instrs[i].dest {
            Some(dest) => used.contains(dest),
            None => true,
        };
        if stay {
            out.push(instrs[i].clone());
            assert(code_of(out@) =~= before.push(instrs@[i as int]@));
        }
        i += 1;
    }
    assert(code.take(instrs.len() as int) =~= code);
    out
}

/// Deletes every instruction that writes a variable which no instruction reads. An
/// instruction that writes nothing stays.
pub fn trivial_dce(function: &mut Function)
    ensures
        code_of(final(function).instrs@) == kept(
            code_of(old(function).instrs@),
            read_somewhere(code_of(old(function).instrs@)),
        ),
        final(function).name == old(function).name,
        final(function).args == old(function).args,
{
    let mut used = NameSet::new();
    let mut i: usize = 0;
    let ghost code = code_of(function.instrs@);
    assert(used@ =~= read_somewhere(code.take(0)));
    while i < function.instrs.len()
        invariant
            i <= function.instrs.len(),
            *function == *old(function),
            code == code_of(function.instrs@),
            used@ == read_somewhere(code.take(i as int)),
        decreases function.instrs.len() - i,
    {
        let ghost before = used@;
        match &function.instrs[i].args {
            Some(args) => {
                used.extend(args);
            },
            None => {},
        }
        proof {
            let a = code.take(i as int);
            let b = code.take(i + 1);
            let x = code[i as int];
            assert(b[i as int] == x);
            assert forall|n: Name| used@.contains(n) implies read_somewhere(b).contains(n) by {
                if before.contains(n) {
                    let k = choose|k: int| 0 <= k < a.len() && reads(#[trigger] a[k], n);
                    assert(reads(b[k], n));
                } else {
                    assert(x.args->0.to_set().contains(n));
                    assert(reads(b[i as int], n));
                }
            }
            assert forall|n: Name| read_somewhere(b).contains(n) implies used@.contains(n) by {
                let k = choose|k: int| 0 <= k < b.len() && reads(#[trigger] b[k], n);
                if k < i {
                    assert(reads(a[k], n));
                } else {
                    assert(x.args->0.to_set().contains(n));
                }
            }
            assert(used@ =~= read_somewhere(b));
        }
        i += 1;
    }
    assert(code.take(function.instrs.len() as int) =~= code);
    let out = retain_used(&function.instrs, &used);
    function.instrs = out;
}

/// Whether the instruction has an effect that can be observed: it prints, branches or
/// returns.
pub open spec fn observable(x: InstructionView) -> bool {
    x.op == Some("print"@) || x.op == Some("br"@) || x.op == Some("ret"@)
}

/// Whether `n` is read by an instruction with an observable effect.
pub open spec fn is_root(code: Seq<InstructionView>, n: Name) -> bool {
    exists|i: int| 0 <= i < code.len() && observable(#[trigger] code[i]) && reads(code[i], n)
}

/// Whether some instruction computes `d` from `a`.
pub open spec fn feeds(code: Seq<InstructionView>, d: Name, a: Name) -> bool {
    exists|i: int| 0 <= i < code.len() && (#[trigger] code[i]).dest == Some(d) && reads(code[i], a)
}

/// Whether `path` leads from a root along the uses: each name on it is read to compute
/// the one before.
pub open spec fn is_chain(code: Seq<InstructionView>, path: Seq<Name>) -> bool {
    &&& path.len() > 0
    &&& is_root(code, path[0])
    &&& forall|k: int| 0 <= k < path.len() - 1 ==> feeds(code, #[trigger] path[k], path[k + 1])
}

/// The variables that an observable effect depends on, directly or through the values
/// they are computed from.
pub open spec fn needed(code: Seq<InstructionView>) -> Set<Name> {
    Set::new(|n: Name| exists|path: Seq<Name>| is_chain(code, path) && #[trigger] path.last() == n)
}

/// A set that holds the roots and, with a variable, what it is computed from, holds
/// every needed variable.
pub proof fn lemma_needed_least(code: Seq<InstructionView>, s: Set<Name>, path: Seq<Name>)
    requires
        forall|n: Name| is_root(code, n) ==> s.contains(n),
        forall|d: Name, a: Name| s.contains(d) && #[trigger] feeds(code, d, a) ==> s.contains(a),
        is_chain(code, path),
    ensures
        s.contains(path.last()),
    decreases path.len(),
{
    if path.len() > 1 {
        let front = path.drop_last();
        assert forall|k: int| 0 <= k < front.len() - 1 implies feeds(
            code,
            #[trigger] front[k],
            front[k + 1],
        ) by {
            assert(front[k] == path[k]);
            assert(front[k + 1] == path[k + 1]);
        }
        assert(front[0] == path[0]);
        lemma_needed_least(code, s, front);
        assert(front.last() == path[path.len() - 2]);
        assert(feeds(code, path[path.len() - 2], path[path.len() - 2 + 1]));
    }
}

/// A root is needed, and so is what a needed variable is computed from.
pub proof fn lemma_needed_closed(code: Seq<InstructionView>)
    ensures
        forall|n: Name| is_root(code, n) ==> needed(code).contains(n),
        forall|d: Name, a: Name|
            needed(code).contains(d) && #[trigger] feeds(code, d, a) ==> needed(code).contains(a),
{
    assert forall|n: Name| is_root(code, n) implies needed(code).contains(n) by {
        let path = seq![n];
        assert(is_chain(code, path) && path.last() == n);
    }
    assert forall|d: Name, a: Name| needed(code).contains(d) && #[trigger] feeds(
        code,
        d,
        a,
    ) implies needed(code).contains(a) by {
        let path = choose|path: Seq<Name>| is_chain(code, path) && #[trigger] path.last() == d;
        let more = path.push(a);
        assert forall|k: int| 0 <= k < more.len() - 1 implies feeds(
            code,
            #[trigger] more[k],
            more[k + 1],
        ) by {
            if k < path.len() - 1 {
                assert(more[k] == path[k]);
                assert(more[k + 1] == path[k + 1]);
                assert(feeds(code, path[k], path[k + 1]));
            } else {
                assert(more[k] == d);
            }
        }
        assert(more[0] == path[0]);
        assert(is_chain(code, more) && more.last() == a);
    }
}

fn is_observable(x: &Instruction) -> (r: bool)
    ensures
        r == observable(x@),
{
    holds_text(&x.op, "print") || holds_text(&x.op, "br") || holds_text(&x.op, "ret")
}

proof fn lemma_reads_touched(code: Seq<InstructionView>, i: int, n: Name)
    requires
        0 <= i < code.len(),
        reads(code[i], n),
    ensures
        touched_in(code).contains(n),
{
    let x = code[i];
    let a = x.args->0;
    let k = choose|k: int| 0 <= k < a.len() && a[k] == n;
    let t = touched(x);
    assert(t[t.len() - a.len() + k] == n);
    lemma_touched_in(code, i, n);
}

/// Deletes every instruction that writes a variable on which no observable effect
/// depends. The variables that an instruction with an observable effect reads are
/// needed, and so are the variables from which a needed variable is computed. An
/// instruction that writes nothing stays.
pub fn my_trivial_dce_graph(function: &mut Function)
    ensures
        code_of(final(function).instrs@) == kept(
            code_of(old(function).instrs@),
            needed(code_of(old(function).instrs@)),
        ),
        final(function).name == old(function).name,
        final(function).args == old(function).args,
{
    let ghost code = code_of(function.instrs@);
    let ghost universe = touched_in(code).to_set();
    let mut stack: Vec<String> = Vec::new();
    let mut i: usize = 0;
    proof {
        lemma_needed_closed(code);
        vstd::seq_lib::seq_to_set_is_finite(touched_in(code));
    }
    while i < function.instrs.len()
        invariant
            i <= function.instrs.len(),
            *function == *old(function),
            code == code_of(function.instrs@),
            forall|k: int| 0 <= k < stack.len() ==> is_root(code, #[trigger] stack@[k]@),
            forall|k: int, n: Name|
                0 <= k < i && observable(code[k]) && #[trigger] reads(code[k], n) ==> names_of(
                    stack@,
                ).contains(n),
        decreases function.instrs.len() - i,
    {
        let inst = &function.instrs[i];
        assert(inst@ == code[i as int]);
        if is_observable(inst) {
            match &inst.args {
                Some(args) => {
                    let mut k: usize = 0;
                    let ghost before = stack@;
                    while k < args.len()
                        invariant
                            k <= args.len(),
                            i < function.instrs.len(),
                            code == code_of(function.instrs@),
                            inst@ == code[i as int],
                            inst.args == Some(*args),
                            observable(code[i as int]),
                            stack.len() >= before.len(),
                            forall|j: int| 0 <= j < before.len() ==> stack@[j] == before[j],
                            forall|j: int| 0 <= j < stack.len() ==> is_root(code, #[trigger] stack@[j]@),
                            forall|j: int|
                                0 <= j < k ==> names_of(stack@).contains(#[trigger] names_of(args@)[j]),
                        decreases args.len() - k,
                    {
                        let ghost prior = stack@;
                        proof {
                            assert(names_of(args@)[k as int] == args@[k as int]@);
                            assert(code[i as int].args->0 == names_of(args@));
                            assert(reads(code[i as int], args@[k as int]@));
                        }
                        stack.push(args[k].clone());
                        proof {
                            assert forall|j: int| 0 <= j < k + 1 implies names_of(stack@).contains(
                                #[trigger] names_of(args@)[j],
                            ) by {
                                if j < k {
                                    let p = choose|p: int|
                                        0 <= p < names_of(prior).len() && names_of(prior)[p]
                                            == names_of(args@)[j];
                                    assert(names_of(stack@)[p] == names_of(args@)[j]);
                                } else {
                                    assert(names_of(stack@)[prior.len() as int] == names_of(
                                        args@,
                                    )[j]);
                                }
                            }
                        }
                        k += 1;
                    }
                    proof {
                        assert forall|j: int, n: Name|
                            0 <= j < i + 1 && observable(code[j]) && #[trigger] reads(
                                code[j],
                                n,
                            ) implies names_of(stack@).contains(n) by {
                            if j < i {
                                let p = choose|p: int|
                                    0 <= p < names_of(before).len() && names_of(before)[p] == n;
                                assert(names_of(stack@)[p] == n);
                            } else {
                                let a = names_of(args@);
                                let q = choose|q: int| 0 <= q < a.len() && a[q] == n;
                                assert(names_of(stack@).contains(a[q]));
                            }
                        }
                    }
                },
                None => {},
            }
        }
        i += 1;
    }
    let mut used = NameSet::new();
    proof {
        assert forall|k: int| 0 <= k < stack.len() implies universe.contains(
            #[trigger] stack@[k]@,
        ) by {
            let n = stack@[k]@;
            let j = choose|j: int|
                0 <= j < code.len() && observable(#[trigger] code[j]) && reads(code[j], n);
            lemma_reads_touched(code, j, n);
        }
        used.lemma_len();
    }
    while stack.len() > 0
        invariant
            *function == *old(function),
            code == code_of(function.instrs@),
            universe == touched_in(code).to_set(),
            universe.finite(),
            used.wf(),
            used@.subset_of(universe),
            used@.subset_of(needed(code)),
            forall|k: int| 0 <= k < stack.len() ==> needed(code).contains(#[trigger] stack@[k]@),
            forall|n: Name|
                is_root(code, n) ==> used@.contains(n) || names_of(stack@).contains(n),
            forall|d: Name, a: Name|
                used@.contains(d) && #[trigger] feeds(code, d, a) ==> used@.contains(a) || names_of(
                    stack@,
                ).contains(a),
            forall|d: Name, a: Name|
                needed(code).contains(d) && #[trigger] feeds(code, d, a) ==> needed(code).contains(a),
        decreases universe.len() - used@.len(), stack.len(),
    {
        let ghost stack0 = stack@;
        let ghost used0 = used@;
        let dest = stack.pop().unwrap();
        proof {
            assert(dest == stack0[stack0.len() - 1]);
            assert(names_of(stack0)[stack0.len() - 1] == dest@);
            used.lemma_len();
            assert forall|n: Name| names_of(stack0).contains(n) && n != dest@ implies names_of(
                stack@,
            ).contains(n) by {
                let p = choose|p: int| 0 <= p < names_of(stack0).len() && names_of(stack0)[p] == n;
                assert(names_of(stack@)[p] == n);
            }
        }
        if !used.contains(&dest) {
            let mut j: usize = 0;
            let ghost stack1 = stack@;
            while j < function.instrs.len()
                invariant
                    j <= function.instrs.len(),
                    *function == *old(function),
                    code == code_of(function.instrs@),
                    needed(code).contains(dest@),
                    stack.len() >= stack1.len(),
                    forall|k: int| 0 <= k < stack1.len() ==> stack@[k] == stack1[k],
                    forall|k: int| 0 <= k < stack.len() ==> needed(code).contains(#[trigger] stack@[k]@),
                    forall|k: int, a: Name|
                        0 <= k < j && code[k].dest == Some(dest@) && #[trigger] reads(code[k], a)
                            ==> names_of(stack@).contains(a),
                    forall|d: Name, a: Name|
                        needed(code).contains(d) && #[trigger] feeds(code, d, a) ==> needed(
                            code,
                        ).contains(a),
                decreases function.instrs.len() - j,
            {
                let inst = &function.instrs[j];
                assert(inst@ == code[j as int]);
                let ghost stack2 = stack@;
                let defines = match &inst.dest {
                    Some(d) => *d == dest,
                    None => false,
                };
                if defines {
                    match &inst.args {
                        Some(args) => {
                            let mut k: usize = 0;
                            while k < args.len()
                                invariant
                                    k <= args.len(),
                                    j < function.instrs.len(),
                                    code == code_of(function.instrs@),
                                    code[j as int].dest == Some(dest@),
                                    code[j as int].args == Some(names_of(args@)),
                                    needed(code).contains(dest@),
                                    stack.len() >= stack2.len(),
                                    forall|p: int| 0 <= p < stack2.len() ==> stack@[p] == stack2[p],
                                    forall|p: int|
                                        0 <= p < stack.len() ==> needed(code).contains(
                                            #[trigger] stack@[p]@,
                                        ),
                                    forall|p: int|
                                        0 <= p < k ==> names_of(stack@).contains(
                                            #[trigger] names_of(args@)[p],
                                        ),
                                    forall|d: Name, a: Name|
                                        needed(code).contains(d) && #[trigger] feeds(code, d, a)
                                            ==> needed(code).contains(a),
                                decreases args.len() - k,
                            {
                                let ghost prior = stack@;
                                proof {
                                    assert(names_of(args@)[k as int] == args@[k as int]@);
                                    assert(reads(code[j as int], args@[k as int]@));
                                    assert(feeds(code, dest@, args@[k as int]@));
                                }
                                stack.push(args[k].clone());
                                proof {
                                    assert forall|p: int| 0 <= p < k + 1 implies names_of(
                                        stack@,
                                    ).contains(#[trigger] names_of(args@)[p]) by {
                                        if p < k {
                                            let q = choose|q: int|
                                                0 <= q < names_of(prior).len() && names_of(prior)[q]
                                                    == names_of(args@)[p];
                                            assert(names_of(stack@)[q] == names_of(args@)[p]);
                                        } else {
                                            assert(names_of(stack@)[prior.len() as int]
                                                == names_of(args@)[p]);
                                        }
                                    }
                                }
                                k += 1;
                            }
                        },
                        None => {},
                    }
                }
                proof {
                    assert forall|k: int, a: Name|
                        0 <= k < j + 1 && code[k].dest == Some(dest@) && #[trigger] reads(
                            code[k],
                            a,
                        ) implies names_of(stack@).contains(a) by {
                        if k < j {
                            let q = choose|q: int|
                                0 <= q < names_of(stack2).len() && names_of(stack2)[q] == a;
                            assert(names_of(stack@)[q] == a);
                        } else {
                            let args = code[j as int].args->0;
                            let q = choose|q: int| 0 <= q < args.len() && args[q] == a;
                            assert(names_of(stack@).contains(args[q]));
                        }
                    }
                }
                j += 1;
            }
            proof {
                if !universe.contains(dest@) {
                    // a needed name is read somewhere
                    let path = choose|path: Seq<Name>|
                        is_chain(code, path) && #[trigger] path.last() == dest@;
                    if path.len() == 1 {
                        let r = choose|r: int|
                            0 <= r < code.len() && observable(#[trigger] code[r]) && reads(
                                code[r],
                                path[0],
                            );
                        lemma_reads_touched(code, r, dest@);
                    } else {
                        assert(feeds(code, path[path.len() - 2], path[path.len() - 2 + 1]));
                        let r = choose|r: int|
                            0 <= r < code.len() && (#[trigger] code[r]).dest == Some(
                                path[path.len() - 2],
                            ) && reads(code[r], dest@);
                        lemma_reads_touched(code, r, dest@);
                    }
                }
                vstd::set_lib::lemma_len_subset(used0.insert(dest@), universe);
            }
            used.insert(dest);
            proof {
                used.lemma_len();
                assert forall|n: Name| names_of(stack1).contains(n) implies names_of(
                    stack@,
                ).contains(n) by {
                    let p = choose|p: int|
                        0 <= p < names_of(stack1).len() && names_of(stack1)[p] == n;
                    assert(names_of(stack@)[p] == n);
                }
                assert forall|d: Name, a: Name| used@.contains(d) && #[trigger] feeds(
                    code,
                    d,
                    a,
                ) implies used@.contains(a) || names_of(stack@).contains(a) by {
                    if d == dest@ {
                        let k = choose|k: int|
                            0 <= k < code.len() && (#[trigger] code[k]).dest == Some(d) && reads(
                                code[k],
                                a,
                            );
                        assert(names_of(stack@).contains(a));
                    } else {
                        assert(used0.contains(d));
                    }
                }
            }
        }
    }
    proof {
        assert forall|n: Name| needed(code).contains(n) implies used@.contains(n) by {
            let path = choose|path: Seq<Name>| is_chain(code, path) && #[trigger] path.last() == n;
            assert forall|r: Name| is_root(code, r) implies used@.contains(r) by {
                if names_of(stack@).contains(r) {
                    let p = choose|p: int| 0 <= p < names_of(stack@).len() && names_of(stack@)[p] == r;
                }
            }
            assert forall|d: Name, a: Name| used@.contains(d) && #[trigger] feeds(
                code,
                d,
                a,
            ) implies used@.contains(a) by {
                if names_of(stack@).contains(a) {
                    let p = choose|p: int| 0 <= p < names_of(stack@).len() && names_of(stack@)[p] == a;
                }
            }
            lemma_needed_least(code, used@, path);
        }
        assert(used@ =~= needed(code));
    }
    let out = retain_used(&function.instrs, &used);
    function.instrs = out;
}

/// Whether instruction `i` writes a variable that is written again, at `j`, before any
/// instruction reads it.
pub open spec fn killed_by(code: Seq<InstructionView>, i: int, j: int) -> bool {
    &&& 0 <= i < j < code.len()
    &&& code[i].dest is Some
    &&& code[j].dest == code[i].dest
    &&& forall|k: int| i < k <= j ==> !reads(#[trigger] code[k], code[i].dest->0)
}

/// Whether instruction `i` writes a value that nothing in the block can read.
pub open spec fn killed(code: Seq<InstructionView>, i: int) -> bool {
    exists|j: int| killed_by(code, i, j)
}

/// The first `n` instructions without those that are killed, in order.
pub open spec fn survivors(code: Seq<InstructionView>, n: int) -> Seq<InstructionView>
    decreases n,
{
    if n <= 0 {
        seq![]
    } else if killed(code, n - 1) {
        survivors(code, n - 1)
    } else {
        survivors(code, n - 1).push(code[n - 1])
    }
}

fn is_killed(instrs: &Vec<Instruction>, i: usize) -> (r: bool)
    requires
        i < instrs.len(),
    ensures
        r == killed(code_of(instrs@), i as int),
{
    let ghost code = code_of(instrs@);
    assert(code[i as int] == instrs@[i as int]@);
    match &instrs[i].dest {
        None => {
            assert(!killed(code, i as int)) by {
                if killed(code, i as int) {
                    let j = choose|j: int| killed_by(code, i as int, j);
                }
            }
            false
        },
        Some(dest) => {
            let mut k: usize = i + 1;
            while k < instrs.len()
                invariant
                    i < k <= instrs.len(),
                    code == code_of(instrs@),
                    code[i as int].dest == Some(dest@),
                    forall|j: int| i < j < k ==> !reads(#[trigger] code[j], dest@),
                    forall|j: int| i < j < k ==> (#[trigger] code[j]).dest != Some(dest@),
                decreases instrs.len() - k,
            {
                let x = &instrs[k];
                assert(x@ == code[k as int]);
                let read = match &x.args {
                    Some(args) => listed(args, dest),
                    None => false,
                };
                if read {
                    assert(!killed(code, i as int)) by {
                        if killed(code, i as int) {
                            let j = choose|j: int| killed_by(code, i as int, j);
                            if j >= k {
                                assert(!reads(code[k as int], dest@));
                            } else {
                                assert(code[j].dest != Some(dest@));
                            }
                        }
                    }
                    return false;
                }
                let written = match &x.dest {
                    Some(d) => *d == *dest,
                    None => false,
                };
                if written {
                    assert(killed_by(code, i as int, k as int));
                    return true;
                }
                k += 1;
            }
            assert(!killed(code, i as int)) by {
                if killed(code, i as int) {
                    let j = choose|j: int| killed_by(code, i as int, j);
                    assert(code[j].dest != Some(dest@));
                }
            }
            false
        },
    }
}

/// Drops every instruction of a block whose value is overwritten before it can be read:
/// the variable it writes is written again later in the block, and no instruction up to
/// and including that later one reads it.
pub fn drop_kill(instrs: &mut Vec<Instruction>)
    ensures
        code_of(final(instrs)@) == survivors(code_of(old(instrs)@), old(instrs).len() as int),
{
    let mut out: Vec<Instruction> = Vec::new();
    let mut i: usize = 0;
    let ghost code = code_of(instrs@);
    assert(code_of(out@) =~= survivors(code, 0));
    while i < instrs.len()
        invariant
            i <= instrs.len(),
            *instrs == *old(instrs),
            code == code_of(instrs@),
            code_of(out@) == survivors(code, i as int),
        decreases instrs.len() - i,
    {
        let ghost before = code_of(out@);
        if !is_killed(instrs, i) {
            out.push(instrs[i].clone());
            assert(code_of(out@) =~= before.push(code[i as int]));
        }
        i += 1;
    }
    *instrs = out;
}

} // verus!
