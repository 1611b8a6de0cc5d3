use vstd::prelude::*;
use crate::basic_block::{blocks_view, BasicBlock};
use crate::ir::InstructionView;
use crate::text::{names_of, Name};

verus! {

/// The label of block `j`.
pub open spec fn label_at(blocks: Seq<Seq<InstructionView>>, j: int) -> Name {
    blocks[j][0].label->0
}

/// The labels that the terminator of block `j` names.
pub open spec fn targets_at(blocks: Seq<Seq<InstructionView>>, j: int) -> Seq<Name> {
    match blocks[j].last().labels {
        Some(l) => l,
        None => seq![],
    }
}

/// Whether control can pass from block `i` to block `j`: the terminator of `i` names the
/// label of `j`.
pub open spec fn has_edge(blocks: Seq<Seq<InstructionView>>, i: int, j: int) -> bool {
    targets_at(blocks, i).contains(label_at(blocks, j))
}

/// The numbers below `n` that `f` accepts, in rising order.
pub open spec fn picked(n: int, f: spec_fn(int) -> bool) -> Seq<int>
    decreases n,
{
    if n <= 0 {
        seq![]
    } else if f(n - 1) {
        picked(n - 1, f).push(n - 1)
    } else {
        picked(n - 1, f)
    }
}

/// `picked` holds exactly the accepted numbers below `n`, each once.
pub proof fn lemma_picked(n: int, f: spec_fn(int) -> bool)
    ensures
        forall|i: int| #[trigger] picked(n, f).contains(i) <==> 0 <= i < n && f(i),
        forall|k: int| 0 <= k < picked(n, f).len() ==> 0 <= #[trigger] picked(n, f)[k] < n,
        picked(n, f).no_duplicates(),
        picked(n, f).len() <= if n < 0 { 0 } else { n },
    decreases n,
{
    if n > 0 {
        lemma_picked(n - 1, f);
        let p = picked(n - 1, f);
        let q = picked(n, f);
        assert forall|i: int| #[trigger] q.contains(i) <==> 0 <= i < n && f(i) by {
            if f(n - 1) {
                if q.contains(i) {
                    let k = choose|k: int| 0 <= k < q.len() && q[k] == i;
                    if k < p.len() {
                        assert(p[k] == i);
                        assert(p.contains(i));
                    }
                }
                if 0 <= i < n && f(i) {
                    if i == n - 1 {
                        assert(q[p.len() as int] == i);
                    } else {
                        assert(p.contains(i));
                        let k = choose|k: int| 0 <= k < p.len() && p[k] == i;
                        assert(q[k] == i);
                    }
                }
            } else {
                assert(q == p);
            }
        }
        if f(n - 1) {
            assert(!p.contains(n - 1));
            assert forall|a: int, b: int| 0 <= a < q.len() && 0 <= b < q.len() && a != b implies q[a]
                != q[b] by {
                if a < p.len() {
                    assert(p.contains(p[a]));
                }
                if b < p.len() {
                    assert(p.contains(p[b]));
                }
            }
        }
    }
}

/// `picked` depends only on what `f` accepts below `n`.
pub proof fn lemma_picked_same(n: int, f: spec_fn(int) -> bool, g: spec_fn(int) -> bool)
    requires
        forall|i: int| 0 <= i < n ==> #[trigger] f(i) == g(i),
    ensures
        picked(n, f) == picked(n, g),
    decreases n,
{
    if n > 0 {
        lemma_picked_same(n - 1, f, g);
    }
}

/// The blocks that block `i` can pass control to, in program order.
pub open spec fn succs_at(blocks: Seq<Seq<InstructionView>>, i: int) -> Seq<int> {
    picked(blocks.len() as int, |j: int| has_edge(blocks, i, j))
}

/// The blocks that can pass control to block `j`, in program order.
pub open spec fn preds_at(blocks: Seq<Seq<InstructionView>>, j: int) -> Seq<int> {
    picked(blocks.len() as int, |i: int| has_edge(blocks, i, j))
}

/// A list of positions as numbers.
pub open spec fn ints(s: Seq<usize>) -> Seq<int> {
    Seq::new(s.len(), |k: int| s[k] as int)
}

/// A table of positions as numbers.
pub open spec fn int_rows(t: Seq<Vec<usize>>) -> Seq<Seq<int>> {
    Seq::new(t.len(), |k: int| ints(t[k]@))
}

/// Every block of the list is well formed.
pub open spec fn all_wf(blocks: Seq<BasicBlock>) -> bool {
    forall|j: int| 0 <= j < blocks.len() ==> (#[trigger] blocks[j]).wf()
}

/// Whether `name` is among `names`.
pub fn listed(names: &Vec<String>, name: &String) -> (r: bool)
    ensures
        r == names_of(names@).contains(name@),
{
    let mut k: usize = 0;
    while k < names.len()
        invariant
            k <= names.len(),
            forall|i: int| 0 <= i < k ==> names@[i]@ != name@,
        decreases names.len() - k,
    {
        if names[k] == *name {
            assert(names_of(names@)[k as int] == name@);
            return true;
        }
        k += 1;
    }
    proof {
        let s = names_of(names@);
        if s.contains(name@) {
            let i = choose|i: int| 0 <= i < s.len() && s[i] == name@;
            assert(names@[i]@ == name@);
        }
    }
    false
}

/// Whether control can pass from block `i` to block `j`.
pub fn edge(blocks: &[BasicBlock], i: usize, j: usize) -> (r: bool)
    requires
        all_wf(blocks@),
        i < blocks.len(),
        j < blocks.len(),
    ensures
        r == has_edge(blocks_view(blocks@), i as int, j as int),
{
    let from = &blocks[i];
    let to = &blocks[j];
    assert(from.wf() && to.wf());
    let last = &from.0[from.0.len() - 1];
    assert(last@ == from@.last());
    assert(to.0@[0]@ == to@[0]);
    match (&last.labels, &to.0[0].label) {
        (Some(targets), Some(label)) => listed(targets, label),
        _ => false,
    }
}

/// For each block, the blocks it can pass control to, in program order.
pub fn successor_table(blocks: &[BasicBlock]) -> (r: Vec<Vec<usize>>)
    requires
        all_wf(blocks@),
    ensures
        r.len() == blocks.len(),
        forall|i: int|
            0 <= i < blocks.len() ==> ints(#[trigger] r@[i]@) == succs_at(blocks_view(blocks@), i),
{
    let mut r: Vec<Vec<usize>> = Vec::new();
    let mut i: usize = 0;
    let ghost b = blocks_view(blocks@);
    while i < blocks.len()
        invariant
            i <= blocks.len(),
            all_wf(blocks@),
            b == blocks_view(blocks@),
            r.len() == i,
            forall|k: int| 0 <= k < i ==> ints(#[trigger] r@[k]@) == succs_at(b, k),
        decreases blocks.len() - i,
    {
        let mut row: Vec<usize> = Vec::new();
        let mut j: usize = 0;
        let ghost f = |j: int| has_edge(b, i as int, j);
        assert(ints(row@) =~= picked(0, f));
        while j < blocks.len()
            invariant
                j <= blocks.len(),
                i < blocks.len(),
                all_wf(blocks@),
                b == blocks_view(blocks@),
                f == |j: int| has_edge(b, i as int, j),
                ints(row@) == picked(j as int, f),
            decreases blocks.len() - j,
        {
            let ghost before = ints(row@);
            if edge(blocks, i, j) {
                row.push(j);
                assert(ints(row@) =~= before.push(j as int));
            }
            assert(f(j as int) == has_edge(b, i as int, j as int));
            j += 1;
        }
        r.push(row);
        i += 1;
    }
    r
}

/// For each block, the blocks that can pass control to it, in program order.
pub fn predecessor_table(blocks: &[BasicBlock]) -> (r: Vec<Vec<usize>>)
    requires
        all_wf(blocks@),
    ensures
        r.len() == blocks.len(),
        forall|j: int|
            0 <= j < blocks.len() ==> ints(#[trigger] r@[j]@) == preds_at(blocks_view(blocks@), j),
{
    let mut r: Vec<Vec<usize>> = Vec::new();
    let mut j: usize = 0;
    let ghost b = blocks_view(blocks@);
    while j < blocks.len()
        invariant
            j <= blocks.len(),
            all_wf(blocks@),
            b == blocks_view(blocks@),
            r.len() == j,
            forall|k: int| 0 <= k < j ==> ints(#[trigger] r@[k]@) == preds_at(b, k),
        decreases blocks.len() - j,
    {
        let mut row: Vec<usize> = Vec::new();
        let mut i: usize = 0;
        let ghost f = |i: int| has_edge(b, i, j as int);
        assert(ints(row@) =~= picked(0, f));
        while i < blocks.len()
            invariant
                i <= blocks.len(),
                j < blocks.len(),
                all_wf(blocks@),
                b == blocks_view(blocks@),
                f == |i: int| has_edge(b, i, j as int),
                ints(row@) == picked(i as int, f),
            decreases blocks.len() - i,
        {
            let ghost before = ints(row@);
            if edge(blocks, i, j) {
                row.push(i);
                assert(ints(row@) =~= before.push(i as int));
            }
            assert(f(i as int) == has_edge(b, i as int, j as int));
            i += 1;
        }
        r.push(row);
        j += 1;
    }
    r
}

} // verus!
