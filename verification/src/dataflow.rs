use vstd::prelude::*;
use crate::basic_block::{blocks_view, BasicBlock};
use crate::graph::{
    all_wf, int_rows, ints, label_at, lemma_picked, predecessor_table, preds_at, succs_at,
    successor_table,
};
use crate::ir::{code_of, Instruction, InstructionView};
use crate::names::NameSet;
use crate::text::{is_text, names_of, Name};

verus! {

/// The states of an analysis: their order, and a measure of how far a state lies below a
/// top. A chain of states that rises below a tame top is finite.
pub trait Lattice: View + Sized {
    /// Whether `a` is at most `b`.
    spec fn below(a: Self::V, b: Self::V) -> bool;

    /// Whether only finite chains rise below `top`.
    spec fn tame(top: Self::V) -> bool;

    /// How far `a` lies below `top`.
    spec fn room(top: Self::V, a: Self::V) -> nat;

    /// Whether the two states are the same.
    fn same(&self, other: &Self) -> (r: bool)
        ensures
            r == (self@ == other@),
    ;

    /// Every state is at most itself.
    proof fn law_reflexive(a: Self::V)
        ensures
            Self::below(a, a),
    ;

    /// The order is transitive.
    proof fn law_transitive(a: Self::V, b: Self::V, c: Self::V)
        requires
            Self::below(a, b),
            Self::below(b, c),
        ensures
            Self::below(a, c),
    ;

    /// A state that rises below a tame top comes closer to it.
    proof fn law_room(top: Self::V, a: Self::V, b: Self::V)
        requires
            Self::tame(top),
            Self::below(a, b),
            Self::below(b, top),
            a != b,
        ensures
            Self::room(top, b) < Self::room(top, a),
    ;

    /// Every state that a program holds is tame.
    proof fn law_tame(&self)
        ensures
            Self::tame(self@),
    ;
}

/// The states of a list as contracts see them.
pub open spec fn views<S: View>(s: Seq<&S>) -> Seq<S::V> {
    Seq::new(s.len(), |i: int| s[i]@)
}

/// The join of an analysis: the least state that is at least every state of a list, and
/// the bottom for the empty list.
pub trait Merger<S: Lattice> {
    /// The join of `states`.
    spec fn joined(&self, states: Seq<S::V>) -> S::V;

    /// Joins the states.
    fn merge(&self, states: &Vec<&S>) -> (r: S)
        ensures
            r@ == self.joined(views(states@)),
    ;

    /// The join is at least each state.
    proof fn law_upper(&self, states: Seq<S::V>, i: int)
        requires
            0 <= i < states.len(),
        ensures
            S::below(states[i], self.joined(states)),
    ;

    /// The join is at most every state that is at least each state.
    proof fn law_least(&self, states: Seq<S::V>, bound: S::V)
        requires
            forall|i: int| 0 <= i < states.len() ==> S::below(#[trigger] states[i], bound),
        ensures
            S::below(self.joined(states), bound),
    ;
}

/// What a block does to a state. It is monotone, and below the top of a program it stays
/// below that top.
pub trait Tranfer<S: Lattice> {
    /// The state after `block`, for the state `s` before it (after it, for an analysis
    /// that runs backward).
    spec fn moved(&self, block: Seq<InstructionView>, s: S::V) -> S::V;

    /// A state that no state of the analysis of `blocks`, started with `seed`, exceeds.
    spec fn top(&self, blocks: Seq<Seq<InstructionView>>, seed: S::V) -> S::V;

    /// Applies the block to the state.
    fn transfer(&self, instrs: &[Instruction], in_vars: &S) -> (r: S)
        ensures
            r@ == self.moved(code_of(instrs@), in_vars@),
    ;

    /// A larger state gives a larger state.
    proof fn law_monotone(&self, block: Seq<InstructionView>, a: S::V, b: S::V)
        requires
            S::below(a, b),
        ensures
            S::below(self.moved(block, a), self.moved(block, b)),
    ;

    /// The top is tame, at least the seed, and closed under every block of the program.
    proof fn law_top(&self, blocks: Seq<Seq<InstructionView>>, seed: S::V, j: int, s: S::V)
        requires
            S::tame(seed),
            0 <= j < blocks.len(),
            S::below(s, self.top(blocks, seed)),
        ensures
            S::tame(self.top(blocks, seed)),
            S::below(seed, self.top(blocks, seed)),
            S::below(self.moved(blocks[j], s), self.top(blocks, seed)),
    ;
}

/// The second components of the states that `srcs` points at, in order, where there is a
/// state.
pub open spec fn fed<V>(srcs: Seq<int>, st: Seq<Option<(V, V)>>) -> Seq<V>
    decreases srcs.len(),
{
    if srcs.len() == 0 {
        seq![]
    } else {
        let r = fed(srcs.drop_last(), st);
        match st[srcs.last()] {
            Some(p) => r.push(p.1),
            None => r,
        }
    }
}

/// What is joined for a block: the states that flow in from `srcs`, and the seed where
/// the block is seeded.
pub open spec fn feed<V>(srcs: Seq<int>, st: Seq<Option<(V, V)>>, seeded: bool, seed: V) -> Seq<V> {
    if seeded {
        fed(srcs, st).push(seed)
    } else {
        fed(srcs, st)
    }
}

/// A state for every block.
pub open spec fn every<V>(x: Seq<(V, V)>) -> Seq<Option<(V, V)>> {
    Seq::new(x.len(), |i: int| Some(x[i]))
}

/// Whether `x` solves the equations of the analysis: for every block, the first component
/// is the join of what flows in, and the second is what the block makes of the first.
pub open spec fn solves<S: Lattice, M: Merger<S>, T: Tranfer<S>>(
    m: M,
    t: T,
    blocks: Seq<Seq<InstructionView>>,
    sources: Seq<Seq<int>>,
    seeded: Seq<bool>,
    seed: S::V,
    x: Seq<(S::V, S::V)>,
) -> bool {
    &&& x.len() == blocks.len()
    &&& forall|l: int|
        0 <= l < blocks.len() ==> (#[trigger] x[l]).0 == m.joined(
            feed(sources[l], every(x), seeded[l], seed),
        ) && x[l].1 == t.moved(blocks[l], x[l].0)
}

/// Whether `r` is at most `x` in every component.
pub open spec fn under<S: Lattice>(r: Seq<(S::V, S::V)>, x: Seq<(S::V, S::V)>) -> bool {
    forall|l: int|
        0 <= l < r.len() ==> S::below((#[trigger] r[l]).0, x[l].0) && S::below(r[l].1, x[l].1)
}

/// Whether `r` is the least solution of the equations.
pub open spec fn least_solution<S: Lattice, M: Merger<S>, T: Tranfer<S>>(
    m: M,
    t: T,
    blocks: Seq<Seq<InstructionView>>,
    sources: Seq<Seq<int>>,
    seeded: Seq<bool>,
    seed: S::V,
    r: Seq<(S::V, S::V)>,
) -> bool {
    &&& solves(m, t, blocks, sources, seeded, seed, r)
    &&& forall|x: Seq<(S::V, S::V)>| #[trigger]
        solves(m, t, blocks, sources, seeded, seed, x) ==> under::<S>(r, x)
}

proof fn lemma_fed_all<V>(srcs: Seq<int>, st: Seq<Option<(V, V)>>, pred: spec_fn(V) -> bool)
    requires
        forall|k: int|
            0 <= k < srcs.len() && st[#[trigger] srcs[k]] is Some ==> pred(st[srcs[k]].unwrap().1),
    ensures
        forall|i: int| 0 <= i < fed(srcs, st).len() ==> pred(#[trigger] fed(srcs, st)[i]),
    decreases srcs.len(),
{
    if srcs.len() > 0 {
        let front = srcs.drop_last();
        assert forall|k: int| 0 <= k < front.len() && st[#[trigger] front[k]] is Some implies pred(
            st[front[k]].unwrap().1,
        ) by {
            assert(front[k] == srcs[k]);
        }
        lemma_fed_all(front, st, pred);
        let r = fed(front, st);
        let out = fed(srcs, st);
        let k = srcs.len() - 1;
        assert(srcs.last() == srcs[k]);
        assert forall|i: int| 0 <= i < out.len() implies pred(#[trigger] out[i]) by {
            if i < r.len() {
                assert(out[i] == r[i]);
            } else {
                assert(st[srcs[k]] is Some);
                assert(out[i] == st[srcs[k]].unwrap().1);
            }
        }
    }
}

proof fn lemma_fed_has<V>(srcs: Seq<int>, st: Seq<Option<(V, V)>>, k: int)
    requires
        0 <= k < srcs.len(),
        st[srcs[k]] is Some,
    ensures
        fed(srcs, st).contains(st[srcs[k]].unwrap().1),
    decreases srcs.len(),
{
    let front = srcs.drop_last();
    let r = fed(front, st);
    let out = fed(srcs, st);
    if k == srcs.len() - 1 {
        assert(out[r.len() as int] == st[srcs[k]].unwrap().1);
    } else {
        assert(front[k] == srcs[k]);
        lemma_fed_has(front, st, k);
        let i = choose|i: int| 0 <= i < r.len() && r[i] == st[srcs[k]].unwrap().1;
        assert(out[i] == r[i]);
    }
}

proof fn lemma_fed_same<V>(srcs: Seq<int>, a: Seq<Option<(V, V)>>, b: Seq<Option<(V, V)>>)
    requires
        forall|k: int|
            0 <= k < srcs.len() ==> (a[#[trigger] srcs[k]] is Some <==> b[srcs[k]] is Some) && (a[srcs[k]] is Some
                ==> a[srcs[k]].unwrap().1 == b[srcs[k]].unwrap().1),
    ensures
        fed(srcs, a) == fed(srcs, b),
    decreases srcs.len(),
{
    if srcs.len() > 0 {
        let front = srcs.drop_last();
        assert forall|k: int| 0 <= k < front.len() implies (a[#[trigger] front[k]] is Some
            <==> b[front[k]] is Some) && (a[front[k]] is Some ==> a[front[k]].unwrap().1
            == b[front[k]].unwrap().1) by {
            assert(front[k] == srcs[k]);
        }
        lemma_fed_same(front, a, b);
        assert(srcs.last() == srcs[srcs.len() - 1]);
    }
}

proof fn lemma_joined_grows<S: Lattice, M: Merger<S>>(
    m: M,
    srcs: Seq<int>,
    a: Seq<Option<(S::V, S::V)>>,
    b: Seq<Option<(S::V, S::V)>>,
    seeded: bool,
    seed: S::V,
)
    requires
        forall|k: int|
            0 <= k < srcs.len() && a[#[trigger] srcs[k]] is Some ==> b[srcs[k]] is Some && S::below(
                a[srcs[k]].unwrap().1,
                b[srcs[k]].unwrap().1,
            ),
    ensures
        S::below(m.joined(feed(srcs, a, seeded, seed)), m.joined(feed(srcs, b, seeded, seed))),
{
    let fa = feed(srcs, a, seeded, seed);
    let fb = feed(srcs, b, seeded, seed);
    let bound = m.joined(fb);
    let pred = |v: S::V| S::below(v, bound);
    assert forall|k: int| 0 <= k < srcs.len() && a[#[trigger] srcs[k]] is Some implies pred(
        a[srcs[k]].unwrap().1,
    ) by {
        let q = b[srcs[k]].unwrap().1;
        lemma_fed_has(srcs, b, k);
        let j = choose|j: int| 0 <= j < fed(srcs, b).len() && fed(srcs, b)[j] == q;
        assert(fb[j] == q);
        m.law_upper(fb, j);
        S::law_transitive(a[srcs[k]].unwrap().1, q, bound);
    }
    lemma_fed_all(srcs, a, pred);
    assert forall|i: int| 0 <= i < fa.len() implies S::below(#[trigger] fa[i], bound) by {
        if i < fed(srcs, a).len() {
            assert(fa[i] == fed(srcs, a)[i]);
            assert(pred(fed(srcs, a)[i]));
        } else {
            assert(fb[fb.len() - 1] == seed);
            m.law_upper(fb, fb.len() - 1);
        }
    }
    m.law_least(fa, bound);
}

/// How many blocks have no state yet.
pub open spec fn blank<V>(st: Seq<Option<(V, V)>>) -> nat
    decreases st.len(),
{
    if st.len() == 0 {
        0
    } else {
        blank(st.drop_last()) + if st.last() is None {
            1nat
        } else {
            0nat
        }
    }
}

/// How far the states that are there lie below the top, taken together.
pub open spec fn slack<S: Lattice>(st: Seq<Option<(S::V, S::V)>>, top: S::V) -> nat
    decreases st.len(),
{
    if st.len() == 0 {
        0
    } else {
        slack::<S>(st.drop_last(), top) + match st.last() {
            Some(p) => S::room(top, p.1),
            None => 0nat,
        }
    }
}

proof fn lemma_measure_update<S: Lattice>(
    st: Seq<Option<(S::V, S::V)>>,
    l: int,
    new: (S::V, S::V),
    top: S::V,
)
    requires
        0 <= l < st.len(),
    ensures
        st[l] is None ==> blank(st.update(l, Some(new))) + 1 == blank(st),
        st[l] is Some ==> blank(st.update(l, Some(new))) == blank(st) && slack::<S>(
            st.update(l, Some(new)),
            top,
        ) + S::room(top, st[l].unwrap().1) == slack::<S>(st, top) + S::room(top, new.1),
    decreases st.len(),
{
    let st2 = st.update(l, Some(new));
    if l == st.len() - 1 {
        assert(st2.drop_last() =~= st.drop_last());
    } else {
        assert(st2.drop_last() =~= st.drop_last().update(l, Some(new)));
        assert(st2.last() == st.last());
        lemma_measure_update::<S>(st.drop_last(), l, new, top);
    }
}

/// The states of a table as contracts see them.
pub open spec fn shown<S: View>(s: Seq<Option<(S, S)>>) -> Seq<Option<(S::V, S::V)>> {
    Seq::new(
        s.len(),
        |i: int|
            match s[i] {
                Some(p) => Some((p.0@, p.1@)),
                None => None,
            },
    )
}

/// The pairs of a list as contracts see them.
pub open spec fn pairs<S: View>(s: Seq<(S, S)>) -> Seq<(S::V, S::V)> {
    Seq::new(s.len(), |i: int| (s[i].0@, s[i].1@))
}


/// Whether the two tables describe one graph: every entry is a block, and a block that
/// feeds another is fed back in the other table.
pub open spec fn linked(sources: Seq<Seq<int>>, sinks: Seq<Seq<int>>) -> bool {
    &&& sources.len() == sinks.len()
    &&& forall|l: int, k: int|
        0 <= l < sources.len() && 0 <= k < sources[l].len() ==> 0 <= #[trigger] sources[l][k]
            < sources.len()
    &&& forall|l: int, k: int|
        0 <= l < sinks.len() && 0 <= k < sinks[l].len() ==> 0 <= #[trigger] sinks[l][k]
            < sinks.len()
    &&& forall|l: int, k: int|
        0 <= l < sources.len() && 0 <= k < sources[l].len() ==> sinks[#[trigger] sources[l][k]].contains(
            l,
        )
}

/// Whether block `l` waits on the work list.
pub open spec fn queued(work: Seq<usize>, l: int) -> bool {
    exists|k: int| 0 <= k < work.len() && work[k] == l
}

fn gather<'a, S: Lattice>(
    result: &'a Vec<Option<(S, S)>>,
    srcs: &Vec<usize>,
    seeded: bool,
    seed: &'a S,
) -> (inputs: Vec<&'a S>)
    requires
        forall|k: int| 0 <= k < srcs.len() ==> #[trigger] srcs@[k] < result.len(),
    ensures
        views(inputs@) == feed(ints(srcs@), shown(result@), seeded, seed@),
{
    let mut inputs: Vec<&S> = Vec::new();
    let mut k: usize = 0;
    let ghost st = shown(result@);
    let ghost all = ints(srcs@);
    assert(all.take(0) =~= seq![]);
    assert(views(inputs@) =~= fed(all.take(0), st));
    while k < srcs.len()
        invariant
            k <= srcs.len(),
            st == shown(result@),
            all == ints(srcs@),
            forall|i: int| 0 <= i < srcs.len() ==> #[trigger] srcs@[i] < result.len(),
            views(inputs@) == fed(all.take(k as int), st),
        decreases srcs.len() - k,
    {
        let p = srcs[k];
        let ghost before = views(inputs@);
        proof {
            assert(all.take(k + 1).drop_last() =~= all.take(k as int));
            assert(all.take(k + 1).last() == p as int);
            assert(srcs@[k as int] < result.len());
        }
        match &result[p] {
            Some(pair) => {
                inputs.push(&pair.1);
                assert(views(inputs@) =~= before.push(pair.1@));
            },
            None => {},
        }
        k += 1;
    }
    assert(all.take(srcs.len() as int) =~= all);
    if seeded {
        let ghost before = views(inputs@);
        inputs.push(seed);
        assert(views(inputs@) =~= before.push(seed@));
    }
    inputs
}

fn solve<S: Lattice, M: Merger<S>, T: Tranfer<S>>(
    m: &M,
    t: &T,
    blocks: &[BasicBlock],
    sources: &Vec<Vec<usize>>,
    sinks: &Vec<Vec<usize>>,
    seeded: &Vec<bool>,
    seed: &S,
) -> (r: Vec<(S, S)>)
    requires
        sources.len() == blocks.len(),
        seeded.len() == blocks.len(),
        linked(int_rows(sources@), int_rows(sinks@)),
    ensures
        least_solution(
            *m,
            *t,
            blocks_view(blocks@),
            int_rows(sources@),
            seeded@,
            seed@,
            pairs(r@),
        ),
{
    let n = blocks.len();
    let ghost bv = blocks_view(blocks@);
    let ghost src = int_rows(sources@);
    let ghost snk = int_rows(sinks@);
    let ghost top = t.top(bv, seed@);
    let mut result: Vec<Option<(S, S)>> = Vec::new();
    let mut work: Vec<usize> = Vec::new();
    let mut i: usize = 0;
    while i < n
        invariant
            i <= n,
            result.len() == i,
            work.len() == i,
            forall|k: int| 0 <= k < i ==> (#[trigger] result@[k]) is None,
            forall|k: int| 0 <= k < i ==> #[trigger] work@[k] == k,
        decreases n - i,
    {
        result.push(None);
        work.push(i);
        i += 1;
    }
    proof {
        seed.law_tame();
        assert forall|l: int| 0 <= l < n implies queued(work@, l) by {
            assert(work@[l] == l);
        }
    }
    while work.len() > 0
        invariant
            n == blocks.len(),
            result.len() == n,
            sources.len() == n,
            sinks.len() == n,
            seeded.len() == n,
            bv == blocks_view(blocks@),
            src == int_rows(sources@),
            snk == int_rows(sinks@),
            top == t.top(bv, seed@),
            S::tame(seed@),
            linked(src, snk),
            forall|k: int| 0 <= k < work.len() ==> #[trigger] work@[k] < n,
            forall|l: int| 0 <= l < n && (#[trigger] result@[l]) is None ==> queued(work@, l),
            forall|l: int|
                0 <= l < n && (#[trigger] shown(result@)[l]) is Some ==> {
                    let p = shown(result@)[l].unwrap();
                    &&& p.1 == t.moved(bv[l], p.0)
                    &&& S::below(p.0, top)
                    &&& S::below(p.1, top)
                    &&& S::below(p.0, m.joined(feed(src[l], shown(result@), seeded@[l], seed@)))
                    &&& !queued(work@, l) ==> p.0 == m.joined(
                        feed(src[l], shown(result@), seeded@[l], seed@),
                    )
                },
            forall|x: Seq<(S::V, S::V)>, l: int| #[trigger]
                solves(*m, *t, bv, src, seeded@, seed@, x) && 0 <= l < n && (#[trigger] shown(
                    result@,
                )[l]) is Some ==> S::below(shown(result@)[l].unwrap().0, x[l].0) && S::below(
                    shown(result@)[l].unwrap().1,
                    x[l].1,
                ),
        decreases blank(shown(result@)), slack::<S>(shown(result@), top), work.len(),
    {
        let ghost st = shown(result@);
        let ghost work0 = work@;
        let l = work.pop().unwrap();
        let ghost work1 = work@;
        assert(l < n) by {
            assert(work0[work0.len() - 1] < n);
        }
        proof {
            assert forall|k: int| 0 <= k < sources@[l as int].len() implies #[trigger] sources@[l as int]@[k]
                < result.len() by {
                assert(src[l as int][k] == sources@[l as int]@[k]);
            }
        }
        let inputs = gather(&result, &sources[l], seeded[l], seed);
        let merged = m.merge(&inputs);
        let moved = t.transfer(blocks[l].0.as_slice(), &merged);
        let updated = match &result[l] {
            Some(pair) => !pair.1.same(&moved),
            None => true,
        };
        let ghost new = (merged@, moved@);
        let ghost st2 = st.update(l as int, Some(new));
        proof {
            assert(src[l as int] == ints(sources@[l as int]@));
            assert(merged@ == m.joined(feed(src[l as int], st, seeded@[l as int], seed@)));
            assert(bv[l as int] == code_of(blocks@[l as int].0@));
            assert(moved@ == t.moved(bv[l as int], merged@));
            // the new state stays below the top
            let fl = feed(src[l as int], st, seeded@[l as int], seed@);
            let pred = |v: S::V| S::below(v, top);
            assert forall|k: int|
                0 <= k < src[l as int].len() && st[#[trigger] src[l as int][k]] is Some implies pred(
                st[src[l as int][k]].unwrap().1,
            ) by {
                let q = src[l as int][k];
                assert(0 <= q < n);
                assert(shown(result@)[q] is Some);
            }
            lemma_fed_all(src[l as int], st, pred);
            if n > 0 {
                S::law_reflexive(top);
                t.law_top(bv, seed@, l as int, top);
            }
            assert forall|i: int| 0 <= i < fl.len() implies S::below(#[trigger] fl[i], top) by {
                if i < fed(src[l as int], st).len() {
                    assert(fl[i] == fed(src[l as int], st)[i]);
                    assert(pred(fed(src[l as int], st)[i]));
                }
            }
            m.law_least(fl, top);
            t.law_top(bv, seed@, l as int, merged@);
            // the state of the block rises
            if st[l as int] is Some {
                let old = st[l as int].unwrap();
                assert(shown(result@)[l as int] is Some);
                t.law_monotone(bv[l as int], old.0, merged@);
                if updated {
                    S::law_room(top, old.1, moved@);
                }
            }
            lemma_measure_update::<S>(st, l as int, new, top);
        }
        result[l] = Some((merged, moved));
        assert(shown(result@) =~= st2);
        if updated {
            let row = &sinks[l];
            let mut k: usize = 0;
            while k < row.len()
                invariant
                    k <= row.len(),
                    l < n,
                    sinks.len() == n,
                    row == &sinks@[l as int],
                    snk == int_rows(sinks@),
                    linked(src, snk),
                    forall|i: int| 0 <= i < work.len() ==> #[trigger] work@[i] < n,
                    forall|q: int| queued(work1, q) ==> queued(work@, q),
                    forall|i: int| 0 <= i < k ==> queued(work@, #[trigger] row@[i] as int),
                    work.len() >= work1.len(),
                decreases row.len() - k,
            {
                let ghost before = work@;
                assert(snk[l as int][k as int] == row@[k as int]);
                work.push(row[k]);
                proof {
                    assert forall|q: int| queued(before, q) implies queued(work@, q) by {
                        let j = choose|j: int| 0 <= j < before.len() && before[j] == q;
                        assert(work@[j] == q);
                    }
                    assert(work@[before.len() as int] == row@[k as int]);
                }
                k += 1;
            }
        }
        proof {
            // blocks that waited still wait, but for the one taken
            assert forall|q: int| queued(work0, q) && q != l implies queued(work@, q) by {
                let j = choose|j: int| 0 <= j < work0.len() && work0[j] == q;
                assert(work1[j] == q);
                assert(queued(work1, q));
            }
            assert forall|q: int| 0 <= q < n && (#[trigger] result@[q]) is None implies queued(
                work@,
                q,
            ) by {
                assert(q != l);
                assert(st2[q] == st[q]);
                assert(shown(result@)[q] is None);
            }
            // what flows into a block has not shrunk
            assert forall|q: int, k: int|
                0 <= q < n && 0 <= k < src[q].len() && st[#[trigger] src[q][k]] is Some implies st2[src[q][k]] is Some
                && S::below(st[src[q][k]].unwrap().1, st2[src[q][k]].unwrap().1) by {
                let p = src[q][k];
                if p == l {
                    assert(shown(result@)[l as int] == st2[l as int]);
                } else {
                    assert(st2[p] == st[p]);
                    S::law_reflexive(st[p].unwrap().1);
                }
            }
            assert forall|q: int| 0 <= q < n && (#[trigger] shown(result@)[q]) is Some implies {
                let p = shown(result@)[q].unwrap();
                &&& p.1 == t.moved(bv[q], p.0)
                &&& S::below(p.0, top)
                &&& S::below(p.1, top)
                &&& S::below(p.0, m.joined(feed(src[q], shown(result@), seeded@[q], seed@)))
                &&& !queued(work@, q) ==> p.0 == m.joined(
                    feed(src[q], shown(result@), seeded@[q], seed@),
                )
            } by {
                let p = st2[q].unwrap();
                let was = m.joined(feed(src[q], st, seeded@[q], seed@));
                let now = m.joined(feed(src[q], st2, seeded@[q], seed@));
                assert forall|k: int|
                    0 <= k < src[q].len() && st[#[trigger] src[q][k]] is Some implies st2[src[q][k]] is Some
                    && S::below(st[src[q][k]].unwrap().1, st2[src[q][k]].unwrap().1) by {}
                lemma_joined_grows::<S, M>(*m, src[q], st, st2, seeded@[q], seed@);
                if q == l {
                    assert(p == new);
                } else {
                    assert(st2[q] == st[q]);
                    assert(shown(result@)[q] == st[q]);
                    assert(st[q] is Some);
                    S::law_transitive(p.0, was, now);
                }
                if !queued(work@, q) {
                    // nothing that flows into the block has changed
                    assert forall|k: int| 0 <= k < src[q].len() implies (st[#[trigger] src[q][k]] is Some
                        <==> st2[src[q][k]] is Some) && (st[src[q][k]] is Some ==> st[src[q][k]].unwrap().1
                        == st2[src[q][k]].unwrap().1) by {
                        let f = src[q][k];
                        if f == l {
                            assert(snk[l as int].contains(q));
                            if updated {
                                let j = choose|j: int|
                                    0 <= j < snk[l as int].len() && snk[l as int][j] == q;
                                assert(sinks@[l as int]@[j] == q);
                                assert(queued(work@, sinks@[l as int]@[j] as int));
                            }
                        } else {
                            assert(st2[f] == st[f]);
                        }
                    }
                    lemma_fed_same(src[q], st, st2);
                    if q != l {
                        assert(!queued(work0, q));
                    }
                }
            }
            // the states stay below every solution
            assert forall|x: Seq<(S::V, S::V)>, q: int| #[trigger]
                solves(*m, *t, bv, src, seeded@, seed@, x) && 0 <= q < n && (#[trigger] shown(
                    result@,
                )[q]) is Some implies S::below(shown(result@)[q].unwrap().0, x[q].0) && S::below(
                shown(result@)[q].unwrap().1,
                x[q].1,
            ) by {
                if q == l {
                    let ex = every(x);
                    assert forall|k: int|
                        0 <= k < src[q].len() && st[#[trigger] src[q][k]] is Some implies ex[src[q][k]] is Some
                        && S::below(st[src[q][k]].unwrap().1, ex[src[q][k]].unwrap().1) by {
                        let f = src[q][k];
                        assert(0 <= f < n);
                        assert(shown(result@)[f] is Some || f == l);
                        assert(st[f] is Some);
                    }
                    lemma_joined_grows::<S, M>(*m, src[q], st, ex, seeded@[q], seed@);
                    assert(x[q].0 == m.joined(feed(src[q], ex, seeded@[q], seed@)));
                    t.law_monotone(bv[q], merged@, x[q].0);
                } else {
                    assert(st2[q] == st[q]);
                }
            }
        }
    }
    let mut r: Vec<(S, S)> = Vec::new();
    let ghost done = shown(result@);
    proof {
        assert forall|l: int| 0 <= l < n implies (#[trigger] result@[l]) is Some by {
            if result@[l] is None {
                assert(queued(work@, l));
            }
        }
    }
    let mut j: usize = 0;
    while result.len() > 0
        invariant
            j + result.len() == n,
            r.len() == j,
            done.len() == n,
            forall|k: int| 0 <= k < result.len() ==> (#[trigger] result@[k]) is Some,
            forall|k: int| 0 <= k < j ==> Some(#[trigger] pairs(r@)[k]) == done[k],
            forall|k: int| 0 <= k < result.len() ==> #[trigger] shown(result@)[k] == done[j + k],
        decreases result.len(),
    {
        let ghost before = result@;
        assert(before[0] is Some);
        assert(shown(before)[0] == done[j as int]);
        let head = result.remove(0);
        proof {
            assert forall|k: int| 0 <= k < result.len() implies (#[trigger] result@[k]) is Some by {
                assert(before[k + 1] is Some);
            }
            assert forall|k: int| 0 <= k < result.len() implies #[trigger] shown(result@)[k] == done[j
                + 1 + k] by {
                assert(shown(before)[k + 1] == done[j + k + 1]);
            }
        }
        let ghost got = pairs(r@);
        let pair = head.unwrap();
        r.push(pair);
        proof {
            assert(head == before[0]);
            assert(pairs(r@) =~= got.push((pair.0@, pair.1@)));
            assert forall|k: int| 0 <= k < j + 1 implies Some(#[trigger] pairs(r@)[k]) == done[k] by {
                if k < j {
                    assert(pairs(r@)[k] == got[k]);
                }
            }
        }
        j += 1;
    }
    proof {
        let x = pairs(r@);
        assert(every(x) =~= done);
        assert forall|l: int| 0 <= l < n implies (#[trigger] x[l]).0 == m.joined(
            feed(src[l], every(x), seeded@[l], seed@),
        ) && x[l].1 == t.moved(bv[l], x[l].0) by {
            assert(done[l] is Some);
            assert(!queued(work@, l));
        }
        assert forall|y: Seq<(S::V, S::V)>| #[trigger]
            solves(*m, *t, bv, src, seeded@, seed@, y) implies under::<S>(x, y) by {
            assert forall|l: int| 0 <= l < x.len() implies S::below((#[trigger] x[l]).0, y[l].0)
                && S::below(x[l].1, y[l].1) by {
                assert(done[l] is Some);
            }
        }
    }
    r
}


impl Lattice for NameSet {
    open spec fn below(a: Set<Name>, b: Set<Name>) -> bool {
        a.subset_of(b)
    }

    open spec fn tame(top: Set<Name>) -> bool {
        top.finite()
    }

    open spec fn room(top: Set<Name>, a: Set<Name>) -> nat {
        top.difference(a).len()
    }

    fn same(&self, other: &Self) -> (r: bool) {
        NameSet::same(self, other)
    }

    proof fn law_reflexive(a: Set<Name>) {
    }

    proof fn law_transitive(a: Set<Name>, b: Set<Name>, c: Set<Name>) {
    }

    proof fn law_room(top: Set<Name>, a: Set<Name>, b: Set<Name>) {
        if forall|n: Name| b.contains(n) ==> a.contains(n) {
            assert(a =~= b);
        }
        let e = choose|e: Name| b.contains(e) && !a.contains(e);
        let big = top.difference(a);
        let small = top.difference(b);
        vstd::set_lib::lemma_set_subset_finite(top, big);
        assert(big.contains(e));
        assert(small.subset_of(big.remove(e)));
        vstd::set_lib::lemma_len_subset(small, big.remove(e));
    }

    proof fn law_tame(&self) {
        vstd::seq_lib::seq_to_set_is_finite(names_of(self.names@));
    }
}

/// Joins sets of names by taking their union.
pub struct UnionMerger;

/// The names that belong to at least one of the sets.
pub open spec fn union_of(states: Seq<Set<Name>>) -> Set<Name> {
    Set::new(|n: Name| exists|i: int| 0 <= i < states.len() && (#[trigger] states[i]).contains(n))
}

impl Merger<NameSet> for UnionMerger {
    open spec fn joined(&self, states: Seq<Set<Name>>) -> Set<Name> {
        union_of(states)
    }

    fn merge(&self, states: &Vec<&NameSet>) -> (r: NameSet) {
        let mut acc = NameSet::new();
        let mut i: usize = 0;
        let ghost all = views(states@);
        assert(acc@ =~= union_of(all.take(0)));
        while i < states.len()
            invariant
                i <= states.len(),
                all == views(states@),
                acc@ == union_of(all.take(i as int)),
            decreases states.len() - i,
        {
            let ghost before = acc@;
            acc.union_with(states[i]);
            proof {
                let a = all.take(i as int);
                let b = all.take(i + 1);
                assert forall|n: Name| acc@.contains(n) implies union_of(b).contains(n) by {
                    if before.contains(n) {
                        let k = choose|k: int| 0 <= k < a.len() && (#[trigger] a[k]).contains(n);
                        assert(b[k].contains(n));
                    } else {
                        assert(b[i as int].contains(n));
                    }
                }
                assert forall|n: Name| union_of(b).contains(n) implies acc@.contains(n) by {
                    let k = choose|k: int| 0 <= k < b.len() && (#[trigger] b[k]).contains(n);
                    if k < i {
                        assert(a[k].contains(n));
                    }
                }
                assert(acc@ =~= union_of(b));
            }
            i += 1;
        }
        assert(all.take(states.len() as int) =~= all);
        acc
    }

    proof fn law_upper(&self, states: Seq<Set<Name>>, i: int) {
    }

    proof fn law_least(&self, states: Seq<Set<Name>>, bound: Set<Name>) {
        assert forall|n: Name| union_of(states).contains(n) implies bound.contains(n) by {
            let k = choose|k: int| 0 <= k < states.len() && (#[trigger] states[k]).contains(n);
            assert(states[k].subset_of(bound));
        }
    }
}

/// The names that an instruction writes or reads: its destination, then its arguments.
pub open spec fn touched(i: InstructionView) -> Seq<Name> {
    (match i.dest {
        Some(d) => seq![d],
        None => seq![],
    }) + (match i.args {
        Some(a) => a,
        None => seq![],
    })
}

/// The names that the instructions of a block write or read.
pub open spec fn touched_in(c: Seq<InstructionView>) -> Seq<Name>
    decreases c.len(),
{
    if c.len() == 0 {
        seq![]
    } else {
        touched_in(c.drop_last()) + touched(c.last())
    }
}

/// The names that the blocks write or read.
pub open spec fn mentioned(blocks: Seq<Seq<InstructionView>>) -> Seq<Name>
    decreases blocks.len(),
{
    if blocks.len() == 0 {
        seq![]
    } else {
        mentioned(blocks.drop_last()) + touched_in(blocks.last())
    }
}

/// The seed together with every name that the blocks write or read.
pub open spec fn universe(blocks: Seq<Seq<InstructionView>>, seed: Set<Name>) -> Set<Name> {
    seed.union(mentioned(blocks).to_set())
}

/// What an instruction touches is touched in its block.
pub proof fn lemma_touched_in(c: Seq<InstructionView>, k: int, n: Name)
    requires
        0 <= k < c.len(),
        touched(c[k]).contains(n),
    ensures
        touched_in(c).contains(n),
    decreases c.len(),
{
    let front = touched_in(c.drop_last());
    let all = touched_in(c);
    if k == c.len() - 1 {
        let i = choose|i: int| 0 <= i < touched(c[k]).len() && touched(c[k])[i] == n;
        assert(all[front.len() + i] == n);
    } else {
        assert(c.drop_last()[k] == c[k]);
        lemma_touched_in(c.drop_last(), k, n);
        let i = choose|i: int| 0 <= i < front.len() && front[i] == n;
        assert(all[i] == n);
    }
}

/// What an instruction of a block touches is mentioned in the program.
pub proof fn lemma_mentioned(blocks: Seq<Seq<InstructionView>>, j: int, k: int, n: Name)
    requires
        0 <= j < blocks.len(),
        0 <= k < blocks[j].len(),
        touched(blocks[j][k]).contains(n),
    ensures
        mentioned(blocks).contains(n),
    decreases blocks.len(),
{
    let front = mentioned(blocks.drop_last());
    let all = mentioned(blocks);
    if j == blocks.len() - 1 {
        lemma_touched_in(blocks[j], k, n);
        let t = touched_in(blocks[j]);
        let i = choose|i: int| 0 <= i < t.len() && t[i] == n;
        assert(all[front.len() + i] == n);
    } else {
        assert(blocks.drop_last()[j] == blocks[j]);
        lemma_mentioned(blocks.drop_last(), j, k, n);
        let i = choose|i: int| 0 <= i < front.len() && front[i] == n;
        assert(all[i] == n);
    }
}

/// The names that the instructions of a block write.
pub open spec fn dests(block: Seq<InstructionView>) -> Set<Name> {
    Set::new(|n: Name| exists|k: int| 0 <= k < block.len() && (#[trigger] block[k]).dest == Some(n))
}

/// The variables defined after a block: those defined before it, and those it writes.
pub struct DefinedTransfer;

impl Tranfer<NameSet> for DefinedTransfer {
    open spec fn moved(&self, block: Seq<InstructionView>, s: Set<Name>) -> Set<Name> {
        s.union(dests(block))
    }

    open spec fn top(&self, blocks: Seq<Seq<InstructionView>>, seed: Set<Name>) -> Set<Name> {
        universe(blocks, seed)
    }

    fn transfer(&self, instrs: &[Instruction], vars: &NameSet) -> (r: NameSet) {
        let mut result = vars.clone();
        let mut i: usize = 0;
        let ghost c = code_of(instrs@);
        assert(result@ =~= vars@.union(dests(c.take(0))));
        while i < instrs.len()
            invariant
                i <= instrs.len(),
                c == code_of(instrs@),
                result@ == vars@.union(dests(c.take(i as int))),
            decreases instrs.len() - i,
        {
            let ghost before = result@;
            match &instrs[i].dest {
                Some(dest) => {
                    result.insert(dest.clone());
                },
                None => {},
            }
            proof {
                let a = c.take(i as int);
                let b = c.take(i + 1);
                assert(b[i as int] == instrs@[i as int]@);
                assert forall|n: Name| result@.contains(n) implies vars@.union(dests(b)).contains(
                    n,
                ) by {
                    if before.contains(n) {
                        if !vars@.contains(n) {
                            let k = choose|k: int|
                                0 <= k < a.len() && (#[trigger] a[k]).dest == Some(n);
                            assert(b[k].dest == Some(n));
                        }
                    } else {
                        assert(b[i as int].dest == Some(n));
                    }
                }
                assert forall|n: Name| vars@.union(dests(b)).contains(n) implies result@.contains(
                    n,
                ) by {
                    if !vars@.contains(n) {
                        let k = choose|k: int| 0 <= k < b.len() && (#[trigger] b[k]).dest == Some(n);
                        if k < i {
                            assert(a[k].dest == Some(n));
                        }
                    }
                }
                assert(result@ =~= vars@.union(dests(b)));
            }
            i += 1;
        }
        assert(c.take(instrs.len() as int) =~= c);
        result
    }

    proof fn law_monotone(&self, block: Seq<InstructionView>, a: Set<Name>, b: Set<Name>) {
    }

    proof fn law_top(&self, blocks: Seq<Seq<InstructionView>>, seed: Set<Name>, j: int, s: Set<Name>) {
        let top = universe(blocks, seed);
        vstd::seq_lib::seq_to_set_is_finite(mentioned(blocks));
        vstd::set_lib::lemma_set_union_finite_iff(seed, mentioned(blocks).to_set());
        assert forall|n: Name| dests(blocks[j]).contains(n) implies top.contains(n) by {
            let k = choose|k: int|
                0 <= k < blocks[j].len() && (#[trigger] blocks[j][k]).dest == Some(n);
            assert(touched(blocks[j][k])[0] == n);
            lemma_mentioned(blocks, j, k, n);
        }
    }
}

/// The live names and the names written so far, after the instructions of `block` have
/// been gone through in order, starting from the names `s`. An argument that has not
/// been written so far becomes live; a destination is written and stops being live.
pub open spec fn swept(block: Seq<InstructionView>, s: Set<Name>) -> (Set<Name>, Set<Name>)
    decreases block.len(),
{
    if block.len() == 0 {
        (s, Set::<Name>::empty())
    } else {
        let (live, written) = swept(block.drop_last(), s);
        let x = block.last();
        let read = match x.args {
            Some(a) => live.union(Set::new(|n: Name| a.contains(n) && !written.contains(n))),
            None => live,
        };
        match x.dest {
            Some(v) => (read.remove(v), written.insert(v)),
            None => (read, written),
        }
    }
}

/// A larger start gives a larger result, and the same names written.
pub proof fn lemma_swept_monotone(block: Seq<InstructionView>, a: Set<Name>, b: Set<Name>)
    requires
        a.subset_of(b),
    ensures
        swept(block, a).0.subset_of(swept(block, b).0),
        swept(block, a).1 == swept(block, b).1,
    decreases block.len(),
{
    if block.len() > 0 {
        lemma_swept_monotone(block.drop_last(), a, b);
    }
}

/// What is live after a sweep was live at the start or is read in the block.
pub proof fn lemma_swept_within(block: Seq<InstructionView>, s: Set<Name>, top: Set<Name>)
    requires
        s.subset_of(top),
        forall|k: int, n: Name|
            0 <= k < block.len() && #[trigger] touched(block[k]).contains(n) ==> top.contains(n),
    ensures
        swept(block, s).0.subset_of(top),
    decreases block.len(),
{
    if block.len() > 0 {
        let front = block.drop_last();
        assert forall|k: int, n: Name|
            0 <= k < front.len() && #[trigger] touched(front[k]).contains(n) implies top.contains(
            n,
        ) by {
            assert(front[k] == block[k]);
        }
        lemma_swept_within(front, s, top);
        let (live, written) = swept(front, s);
        let x = block.last();
        assert(x == block[block.len() - 1]);
        match x.args {
            Some(a) => {
                assert forall|n: Name| a.contains(n) implies top.contains(n) by {
                    let i = choose|i: int| 0 <= i < a.len() && a[i] == n;
                    let t = touched(x);
                    let off = t.len() - a.len();
                    assert(t[off + i] == n);
                    assert(touched(block[block.len() - 1]).contains(n));
                }
            },
            None => {},
        }
    }
}

/// The variables live before a block, for those live after it.
pub struct UsedTransfer;

impl Tranfer<NameSet> for UsedTransfer {
    open spec fn moved(&self, block: Seq<InstructionView>, s: Set<Name>) -> Set<Name> {
        swept(block, s).0
    }

    open spec fn top(&self, blocks: Seq<Seq<InstructionView>>, seed: Set<Name>) -> Set<Name> {
        universe(blocks, seed)
    }

    fn transfer(&self, instrs: &[Instruction], vars: &NameSet) -> (r: NameSet) {
        let mut result = vars.clone();
        let mut defined = NameSet::new();
        let mut i: usize = 0;
        let ghost c = code_of(instrs@);
        assert(c.take(0) =~= seq![]);
        while i < instrs.len()
            invariant
                i <= instrs.len(),
                c == code_of(instrs@),
                (result@, defined@) == swept(c.take(i as int), vars@),
            decreases instrs.len() - i,
        {
            let ghost live = result@;
            let ghost written = defined@;
            proof {
                assert(c.take(i + 1).drop_last() =~= c.take(i as int));
                assert(c.take(i + 1).last() == instrs@[i as int]@);
            }
            match &instrs[i].args {
                Some(args) => {
                    let mut k: usize = 0;
                    let ghost a = names_of(args@);
                    while k < args.len()
                        invariant
                            k <= args.len(),
                            a == names_of(args@),
                            written == defined@,
                            result@ == live.union(
                                Set::new(|n: Name| a.take(k as int).contains(n) && !written.contains(n)),
                            ),
                        decreases args.len() - k,
                    {
                        let ghost before = result@;
                        if !defined.contains(&args[k]) {
                            result.insert(args[k].clone());
                        }
                        proof {
                            let x = a.take(k as int);
                            let y = a.take(k + 1);
                            assert(y =~= x.push(a[k as int]));
                            crate::names::lemma_push_to_set(x, a[k as int]);
                            assert forall|n: Name| y.contains(n) <==> x.contains(n) || n == a[k as int] by {
                                assert(y.to_set().contains(n) <==> y.contains(n));
                                assert(x.to_set().contains(n) <==> x.contains(n));
                            }
                            assert(result@ =~= live.union(
                                Set::new(|n: Name| y.contains(n) && !written.contains(n)),
                            ));
                        }
                        k += 1;
                    }
                    assert(a.take(args.len() as int) =~= a);
                },
                None => {},
            }
            match &instrs[i].dest {
                Some(dest) => {
                    defined.insert(dest.clone());
                    result.remove(dest);
                },
                None => {},
            }
            i += 1;
        }
        assert(c.take(instrs.len() as int) =~= c);
        result
    }

    proof fn law_monotone(&self, block: Seq<InstructionView>, a: Set<Name>, b: Set<Name>) {
        lemma_swept_monotone(block, a, b);
    }

    proof fn law_top(&self, blocks: Seq<Seq<InstructionView>>, seed: Set<Name>, j: int, s: Set<Name>) {
        let top = universe(blocks, seed);
        vstd::seq_lib::seq_to_set_is_finite(mentioned(blocks));
        vstd::set_lib::lemma_set_union_finite_iff(seed, mentioned(blocks).to_set());
        assert forall|k: int, n: Name|
            0 <= k < blocks[j].len() && #[trigger] touched(blocks[j][k]).contains(n) implies top.contains(
            n,
        ) by {
            lemma_mentioned(blocks, j, k, n);
        }
        lemma_swept_within(blocks[j], s, top);
    }
}


/// For every block, the blocks that can pass control to it.
pub open spec fn pred_rows(blocks: Seq<Seq<InstructionView>>) -> Seq<Seq<int>> {
    Seq::new(blocks.len(), |j: int| preds_at(blocks, j))
}

/// For every block, the blocks that it can pass control to.
pub open spec fn succ_rows(blocks: Seq<Seq<InstructionView>>) -> Seq<Seq<int>> {
    Seq::new(blocks.len(), |j: int| succs_at(blocks, j))
}

/// For every block, whether its label is `entry`.
pub open spec fn entry_flags(blocks: Seq<Seq<InstructionView>>, entry: Name) -> Seq<bool> {
    Seq::new(blocks.len(), |j: int| label_at(blocks, j) == entry)
}

/// For every block, that it is not seeded.
pub open spec fn no_flags(blocks: Seq<Seq<InstructionView>>) -> Seq<bool> {
    Seq::new(blocks.len(), |j: int| false)
}

/// The states before and after each block, as contracts see them.
pub open spec fn facts<S: View>(r: Seq<(String, (S, S))>) -> Seq<(S::V, S::V)> {
    Seq::new(r.len(), |j: int| (r[j].1.0@, r[j].1.1@))
}

/// The states after and before each block, as contracts see them.
pub open spec fn facts_reversed<S: View>(r: Seq<(String, (S, S))>) -> Seq<(S::V, S::V)> {
    Seq::new(r.len(), |j: int| (r[j].1.1@, r[j].1.0@))
}

proof fn lemma_tables_linked(blocks: Seq<Seq<InstructionView>>)
    ensures
        linked(pred_rows(blocks), succ_rows(blocks)),
        linked(succ_rows(blocks), pred_rows(blocks)),
{
    let n = blocks.len() as int;
    assert forall|l: int, k: int| 0 <= l < n && 0 <= k < pred_rows(blocks)[l].len() implies 0
        <= #[trigger] pred_rows(blocks)[l][k] < n && succ_rows(blocks)[pred_rows(
        blocks,
    )[l][k]].contains(l) by {
        lemma_picked(n, |i: int| crate::graph::has_edge(blocks, i, l));
        let p = preds_at(blocks, l)[k];
        assert(preds_at(blocks, l).contains(p));
        lemma_picked(n, |j: int| crate::graph::has_edge(blocks, p, j));
    }
    assert forall|l: int, k: int| 0 <= l < n && 0 <= k < succ_rows(blocks)[l].len() implies 0
        <= #[trigger] succ_rows(blocks)[l][k] < n && pred_rows(blocks)[succ_rows(
        blocks,
    )[l][k]].contains(l) by {
        lemma_picked(n, |j: int| crate::graph::has_edge(blocks, l, j));
        let q = succs_at(blocks, l)[k];
        assert(succs_at(blocks, l).contains(q));
        lemma_picked(n, |i: int| crate::graph::has_edge(blocks, i, q));
    }
}

fn labels_of(blocks: &[BasicBlock]) -> (r: Vec<String>)
    requires
        all_wf(blocks@),
    ensures
        r.len() == blocks.len(),
        forall|j: int| 0 <= j < r.len() ==> (#[trigger] r@[j])@ == label_at(blocks_view(blocks@), j),
{
    let mut r: Vec<String> = Vec::new();
    let mut j: usize = 0;
    while j < blocks.len()
        invariant
            j <= blocks.len(),
            all_wf(blocks@),
            r.len() == j,
            forall|k: int| 0 <= k < j ==> (#[trigger] r@[k])@ == label_at(blocks_view(blocks@), k),
        decreases blocks.len() - j,
    {
        assert(blocks@[j as int].wf());
        assert(blocks@[j as int].0@[0]@ == blocks@[j as int]@[0]);
        let name = match &blocks[j].0[0].label {
            Some(l) => l.clone(),
            None => String::new(),
        };
        r.push(name);
        j += 1;
    }
    r
}

/// An analysis that runs forward: what flows into a block comes from its predecessors.
pub struct Forward<S, M, T> {
    pub m: M,
    pub t: T,
    pub _s: std::marker::PhantomData<S>,
}

/// An analysis that runs backward: what flows into a block comes from its successors.
pub struct BackWard<S, M, T> {
    pub m: M,
    pub t: T,
    pub _s: std::marker::PhantomData<S>,
}

impl<S: Lattice, M: Merger<S>, T: Tranfer<S>> Forward<S, M, T> {
    /// Solves the analysis over `blocks`. The result lists, for every block in program
    /// order, its label with the state before it and the state after it. The state before
    /// a block is the join of the states after its predecessors, and of `args` where the
    /// block's label is `entry`; the state after it is what the block makes of the state
    /// before it. Among all such assignments the result is the least.
    pub fn analyze(&self, blocks: &[BasicBlock], entry: &str, args: S) -> (r: Vec<(String, (S, S))>)
        requires
            all_wf(blocks@),
        ensures
            r.len() == blocks.len(),
            forall|j: int|
                0 <= j < r.len() ==> (#[trigger] r@[j]).0@ == label_at(blocks_view(blocks@), j),
            least_solution(
                self.m,
                self.t,
                blocks_view(blocks@),
                pred_rows(blocks_view(blocks@)),
                entry_flags(blocks_view(blocks@), entry@),
                args@,
                facts(r@),
            ),
    {
        let ghost bv = blocks_view(blocks@);
        let sources = predecessor_table(blocks);
        let sinks = successor_table(blocks);
        let labels = labels_of(blocks);
        let mut seeded: Vec<bool> = Vec::new();
        let mut j: usize = 0;
        while j < blocks.len()
            invariant
                j <= blocks.len(),
                labels.len() == blocks.len(),
                bv == blocks_view(blocks@),
                forall|k: int| 0 <= k < labels.len() ==> (#[trigger] labels@[k])@ == label_at(bv, k),
                seeded.len() == j,
                forall|k: int| 0 <= k < j ==> #[trigger] seeded@[k] == (label_at(bv, k) == entry@),
            decreases blocks.len() - j,
        {
            seeded.push(is_text(&labels[j], entry));
            j += 1;
        }
        proof {
            lemma_tables_linked(bv);
            assert(int_rows(sources@) =~= pred_rows(bv));
            assert(int_rows(sinks@) =~= succ_rows(bv));
            assert(seeded@ =~= entry_flags(bv, entry@));
        }
        let states = solve(&self.m, &self.t, blocks, &sources, &sinks, &seeded, &args);
        zip(labels, states)
    }
}

fn zip<S: View>(labels: Vec<String>, states: Vec<(S, S)>) -> (r: Vec<(String, (S, S))>)
    requires
        labels.len() == states.len(),
    ensures
        r.len() == states.len(),
        forall|j: int| 0 <= j < r.len() ==> (#[trigger] r@[j]).0@ == labels@[j]@,
        facts(r@) == pairs(states@),
{
    let mut labels = labels;
    let mut states = states;
    let ghost l0 = labels@;
    let ghost s0 = states@;
    let mut r: Vec<(String, (S, S))> = Vec::new();
    let mut j: usize = 0;
    let n = states.len();
    while states.len() > 0
        invariant
            j + states.len() == n,
            labels.len() == states.len(),
            l0.len() == n,
            s0.len() == n,
            r.len() == j,
            forall|k: int| 0 <= k < states.len() ==> #[trigger] states@[k] == s0[j + k],
            forall|k: int| 0 <= k < labels.len() ==> #[trigger] labels@[k] == l0[j + k],
            forall|k: int| 0 <= k < j ==> (#[trigger] r@[k]).0 == l0[k] && r@[k].1 == s0[k],
        decreases states.len(),
    {
        let ghost sb = states@;
        let ghost lb = labels@;
        let state = states.remove(0);
        let label = labels.remove(0);
        proof {
            assert(state == sb[0]);
            assert(label == lb[0]);
            assert forall|k: int| 0 <= k < states.len() implies #[trigger] states@[k] == s0[j + 1
                + k] by {
                assert(states@[k] == sb[k + 1]);
            }
            assert forall|k: int| 0 <= k < labels.len() implies #[trigger] labels@[k] == l0[j + 1
                + k] by {
                assert(labels@[k] == lb[k + 1]);
            }
        }
        r.push((label, state));
        j += 1;
    }
    assert(facts(r@) =~= pairs(s0));
    r
}

impl<S: Lattice, M: Merger<S>, T: Tranfer<S>> BackWard<S, M, T> {
    /// Solves the analysis over `blocks`. The result lists, for every block in program
    /// order, its label with the state before it and the state after it. The state after
    /// a block is the join of the states before its successors, the bottom where it has
    /// none; the state before it is what the block makes of the state after it. Among all
    /// such assignments the result is the least.
    pub fn analyze(&self, blocks: &[BasicBlock]) -> (r: Vec<(String, (S, S))>)
        requires
            all_wf(blocks@),
        ensures
            r.len() == blocks.len(),
            forall|j: int|
                0 <= j < r.len() ==> (#[trigger] r@[j]).0@ == label_at(blocks_view(blocks@), j),
            least_solution(
                self.m,
                self.t,
                blocks_view(blocks@),
                succ_rows(blocks_view(blocks@)),
                no_flags(blocks_view(blocks@)),
                self.m.joined(Seq::<S::V>::empty()),
                facts_reversed(r@),
            ),
    {
        let ghost bv = blocks_view(blocks@);
        let sources = successor_table(blocks);
        let sinks = predecessor_table(blocks);
        let labels = labels_of(blocks);
        let mut seeded: Vec<bool> = Vec::new();
        let mut j: usize = 0;
        while j < blocks.len()
            invariant
                j <= blocks.len(),
                seeded.len() == j,
                forall|k: int| 0 <= k < j ==> !(#[trigger] seeded@[k]),
            decreases blocks.len() - j,
        {
            seeded.push(false);
            j += 1;
        }
        let nothing: Vec<&S> = Vec::new();
        let bottom = self.m.merge(&nothing);
        proof {
            lemma_tables_linked(bv);
            assert(int_rows(sources@) =~= succ_rows(bv));
            assert(int_rows(sinks@) =~= pred_rows(bv));
            assert(seeded@ =~= no_flags(bv));
            assert(views(nothing@) =~= Seq::<S::V>::empty());
        }
        let states = solve(&self.m, &self.t, blocks, &sources, &sinks, &seeded, &bottom);
        let mut swapped: Vec<(S, S)> = Vec::new();
        let mut states = states;
        let ghost s0 = states@;
        let n = states.len();
        let mut k: usize = 0;
        while states.len() > 0
            invariant
                k + states.len() == n,
                s0.len() == n,
                swapped.len() == k,
                forall|i: int| 0 <= i < states.len() ==> #[trigger] states@[i] == s0[k + i],
                forall|i: int|
                    0 <= i < k ==> (#[trigger] swapped@[i]).0 == s0[i].1 && swapped@[i].1 == s0[i].0,
            decreases states.len(),
        {
            let ghost sb = states@;
            let state = states.remove(0);
            proof {
                assert(state == sb[0]);
                assert forall|i: int| 0 <= i < states.len() implies #[trigger] states@[i] == s0[k
                    + 1 + i] by {
                    assert(states@[i] == sb[i + 1]);
                }
            }
            swapped.push((state.1, state.0));
            k += 1;
        }
        let r = zip(labels, swapped);
        proof {
            assert forall|j: int| 0 <= j < n implies #[trigger] facts_reversed(r@)[j] == pairs(s0)[j] by {
                assert(facts(r@)[j] == pairs(swapped@)[j]);
                assert(swapped@[j].0 == s0[j].1);
            }
            assert(facts_reversed(r@) =~= pairs(s0));
        }
        r
    }
}

/// The variables defined before and after every block: an analysis that runs forward,
/// joins by union, and starts at the block labelled `entry` with the names `args`.
pub fn defined(blocks: &[BasicBlock], entry: &str, args: NameSet) -> (r: Vec<(String, (NameSet, NameSet))>)
    requires
        all_wf(blocks@),
    ensures
        r.len() == blocks.len(),
        forall|j: int| 0 <= j < r.len() ==> (#[trigger] r@[j]).0@ == label_at(blocks_view(blocks@), j),
        least_solution(
            UnionMerger,
            DefinedTransfer,
            blocks_view(blocks@),
            pred_rows(blocks_view(blocks@)),
            entry_flags(blocks_view(blocks@), entry@),
            args@,
            facts(r@),
        ),
{
    let analysis = Forward { m: UnionMerger, t: DefinedTransfer, _s: std::marker::PhantomData };
    analysis.analyze(blocks, entry, args)
}

/// The variables live before and after every block: an analysis that runs backward and
/// joins by union.
pub fn live(blocks: &[BasicBlock]) -> (r: Vec<(String, (NameSet, NameSet))>)
    requires
        all_wf(blocks@),
    ensures
        r.len() == blocks.len(),
        forall|j: int| 0 <= j < r.len() ==> (#[trigger] r@[j]).0@ == label_at(blocks_view(blocks@), j),
        least_solution(
            UnionMerger,
            UsedTransfer,
            blocks_view(blocks@),
            succ_rows(blocks_view(blocks@)),
            no_flags(blocks_view(blocks@)),
            Set::<Name>::empty(),
            facts_reversed(r@),
        ),
{
    let analysis = BackWard { m: UnionMerger, t: UsedTransfer, _s: std::marker::PhantomData };
    let r = analysis.analyze(blocks);
    assert(union_of(Seq::<Set<Name>>::empty()) =~= Set::<Name>::empty());
    r
}

} // verus!
