use vstd::prelude::*;
use crate::basic_block::{blocks_view, BasicBlock};
use crate::graph::{
    all_wf, edge, has_edge, ints, lemma_picked, predecessor_table, preds_at, succs_at,
    successor_table,
};
use crate::ir::InstructionView;

verus! {

/// Whether `p` is a path of the graph: a run of blocks, not empty, each passing control to
/// the next.
pub open spec fn is_path(blocks: Seq<Seq<InstructionView>>, p: Seq<int>) -> bool {
    &&& p.len() > 0
    &&& forall|k: int| 0 <= k < p.len() ==> 0 <= #[trigger] p[k] < blocks.len()
    &&& forall|k: int| 0 <= k < p.len() - 1 ==> has_edge(blocks, #[trigger] p[k], p[k + 1])
}

/// Whether a path leads from block `a` to block `b`.
pub open spec fn reaches(blocks: Seq<Seq<InstructionView>>, a: int, b: int) -> bool {
    exists|p: Seq<int>| is_path(blocks, p) && p[0] == a && #[trigger] p.last() == b
}

/// Whether control can come to block `b` from the entry, the first block.
pub open spec fn reachable(blocks: Seq<Seq<InstructionView>>, b: int) -> bool {
    reaches(blocks, 0, b)
}

/// Whether block `a` dominates block `b`: every path from the entry to `b` passes
/// through `a`.
pub open spec fn dominates(blocks: Seq<Seq<InstructionView>>, a: int, b: int) -> bool {
    forall|p: Seq<int>|
        is_path(blocks, p) && p[0] == 0 && #[trigger] p.last() == b ==> p.contains(a)
}

/// A block reaches itself.
pub proof fn lemma_reaches_self(blocks: Seq<Seq<InstructionView>>, a: int)
    requires
        0 <= a < blocks.len(),
    ensures
        reaches(blocks, a, a),
{
    let p = seq![a];
    assert(is_path(blocks, p) && p[0] == a && p.last() == a);
}

/// A path can be taken one edge further.
pub proof fn lemma_path_push(blocks: Seq<Seq<InstructionView>>, p: Seq<int>, c: int)
    requires
        is_path(blocks, p),
        0 <= c < blocks.len(),
        has_edge(blocks, p.last(), c),
    ensures
        is_path(blocks, p.push(c)),
        p.push(c)[0] == p[0],
        p.push(c).last() == c,
{
    let q = p.push(c);
    assert forall|k: int| 0 <= k < q.len() - 1 implies has_edge(blocks, #[trigger] q[k], q[k + 1]) by {
        if k < p.len() - 1 {
            assert(q[k] == p[k]);
            assert(q[k + 1] == p[k + 1]);
            assert(has_edge(blocks, p[k], p[k + 1]));
        } else {
            assert(q[k] == p.last());
        }
    }
    assert forall|k: int| 0 <= k < q.len() implies 0 <= #[trigger] q[k] < blocks.len() by {
        if k < p.len() {
            assert(q[k] == p[k]);
        }
    }
}

/// What reaches a block reaches the blocks it passes control to.
pub proof fn lemma_reaches_step(blocks: Seq<Seq<InstructionView>>, a: int, b: int, c: int)
    requires
        reaches(blocks, a, b),
        0 <= c < blocks.len(),
        has_edge(blocks, b, c),
    ensures
        reaches(blocks, a, c),
{
    let p = choose|p: Seq<int>| is_path(blocks, p) && p[0] == a && #[trigger] p.last() == b;
    lemma_path_push(blocks, p, c);
    let q = p.push(c);
    assert(is_path(blocks, q) && q[0] == a && q.last() == c);
}

/// The front of a path is a path.
pub proof fn lemma_path_front(blocks: Seq<Seq<InstructionView>>, p: Seq<int>)
    requires
        is_path(blocks, p),
        p.len() > 1,
    ensures
        is_path(blocks, p.drop_last()),
        p.drop_last()[0] == p[0],
        p.drop_last().last() == p[p.len() - 2],
        has_edge(blocks, p[p.len() - 2], p.last()),
{
    let q = p.drop_last();
    assert forall|k: int| 0 <= k < q.len() - 1 implies has_edge(blocks, #[trigger] q[k], q[k + 1]) by {
        assert(q[k] == p[k]);
        assert(q[k + 1] == p[k + 1]);
        assert(has_edge(blocks, p[k], p[k + 1]));
    }
    assert forall|k: int| 0 <= k < q.len() implies 0 <= #[trigger] q[k] < blocks.len() by {
        assert(q[k] == p[k]);
    }
    assert(has_edge(blocks, p[p.len() - 2], p[p.len() - 2 + 1]));
}

/// A set of blocks that holds `a` and, with a block, the blocks it passes control to,
/// holds every block that `a` reaches.
pub proof fn lemma_reaches_closed(
    blocks: Seq<Seq<InstructionView>>,
    inside: spec_fn(int) -> bool,
    p: Seq<int>,
)
    requires
        is_path(blocks, p),
        inside(p[0]),
        forall|u: int, v: int|
            0 <= u < blocks.len() && 0 <= v < blocks.len() && inside(u) && #[trigger] has_edge(
                blocks,
                u,
                v,
            ) ==> inside(v),
    ensures
        inside(p.last()),
    decreases p.len(),
{
    if p.len() > 1 {
        lemma_path_front(blocks, p);
        lemma_reaches_closed(blocks, inside, p.drop_last());
        assert(0 <= p[p.len() - 2] < blocks.len());
        assert(0 <= p[p.len() - 1] < blocks.len());
    }
}

/// How many of the flags are not set.
pub open spec fn unset(flags: Seq<bool>) -> nat
    decreases flags.len(),
{
    if flags.len() == 0 {
        0
    } else {
        unset(flags.drop_last()) + if flags.last() {
            0nat
        } else {
            1nat
        }
    }
}

pub proof fn lemma_unset_update(flags: Seq<bool>, i: int)
    requires
        0 <= i < flags.len(),
        !flags[i],
    ensures
        unset(flags.update(i, true)) + 1 == unset(flags),
    decreases flags.len(),
{
    let f2 = flags.update(i, true);
    if i == flags.len() - 1 {
        assert(f2.drop_last() =~= flags.drop_last());
    } else {
        assert(f2.drop_last() =~= flags.drop_last().update(i, true));
        lemma_unset_update(flags.drop_last(), i);
    }
}

/// Whether `s` stands in `order` before position `i`.
pub open spec fn earlier(order: Seq<usize>, s: int, i: int) -> bool {
    exists|j: int| 0 <= j < i && #[trigger] order[j] == s
}

/// What holds while the graph is searched depth first. `seen` flags the blocks that the
/// search has come to, `order` lists those it has left, in the order in which it left
/// them, and `active` holds those it is still in.
pub open spec fn searching(
    blocks: Seq<Seq<InstructionView>>,
    seen: Seq<bool>,
    order: Seq<usize>,
    active: Set<int>,
) -> bool {
    &&& seen.len() == blocks.len()
    &&& order.no_duplicates()
    &&& forall|k: int| 0 <= k < order.len() ==> #[trigger] order[k] < blocks.len()
    &&& forall|k: int| 0 <= k < order.len() ==> seen[#[trigger] order[k] as int] && !active.contains(
        order[k] as int,
    )
    &&& forall|v: int|
        0 <= v < blocks.len() && #[trigger] seen[v] ==> active.contains(v) || earlier(
            order,
            v,
            order.len() as int,
        )
    &&& forall|v: int| #[trigger] active.contains(v) ==> 0 <= v < blocks.len() && seen[v]
    &&& forall|k: int| 0 <= k < order.len() ==> reachable(blocks, #[trigger] order[k] as int)
    &&& forall|k: int, s: int|
        0 <= k < order.len() && 0 <= s < blocks.len() && #[trigger] has_edge(
            blocks,
            order[k] as int,
            s,
        ) ==> seen[s] && (earlier(order, s, k) || reaches(blocks, s, order[k] as int))
}

fn visit(
    blocks: &[BasicBlock],
    succ: &Vec<Vec<usize>>,
    u: usize,
    seen: &mut Vec<bool>,
    order: &mut Vec<usize>,
    active: Ghost<Set<int>>,
)
    requires
        all_wf(blocks@),
        succ.len() == blocks.len(),
        forall|i: int|
            0 <= i < blocks.len() ==> ints(#[trigger] succ@[i]@) == succs_at(blocks_view(blocks@), i),
        u < blocks.len(),
        reachable(blocks_view(blocks@), u as int),
        searching(blocks_view(blocks@), old(seen)@, old(order)@, active@),
        forall|a: int| #[trigger] active@.contains(a) ==> reaches(blocks_view(blocks@), a, u as int),
    ensures
        searching(blocks_view(blocks@), final(seen)@, final(order)@, active@),
        final(seen)@[u as int],
        forall|v: int| 0 <= v < blocks.len() && old(seen)@[v] ==> #[trigger] final(seen)@[v],
        final(order)@.len() >= old(order)@.len(),
        forall|k: int| 0 <= k < old(order)@.len() ==> #[trigger] final(order)@[k] == old(order)@[k],
        !old(seen)@[u as int] ==> final(order)@.len() > old(order)@.len() && final(order)@.last()
            == u,
        unset(final(seen)@) <= unset(old(seen)@),
    decreases unset(old(seen)@),
{
    if seen[u] {
        return ;
    }
    let ghost bv = blocks_view(blocks@);
    let ghost seen0 = seen@;
    let ghost order0 = order@;
    let ghost inner = active@.insert(u as int);
    proof {
        lemma_unset_update(seen0, u as int);
        lemma_reaches_self(bv, u as int);
    }
    seen[u] = true;
    proof {
        assert(seen@ == seen0.update(u as int, true));
        assert(searching(bv, seen@, order@, inner)) by {
            assert forall|k: int| 0 <= k < order@.len() implies seen@[#[trigger] order@[k] as int]
                && !inner.contains(order@[k] as int) by {
                assert(seen0[order0[k] as int]);
            }
        }
    }
    let row = &succ[u];
    let mut k: usize = 0;
    proof {
        lemma_picked(bv.len() as int, |j: int| has_edge(bv, u as int, j));
        assert forall|i: int| 0 <= i < row@.len() implies #[trigger] row@[i] < blocks.len() by {
            assert(ints(row@)[i] == row@[i]);
        }
    }
    while k < row.len()
        invariant
            k <= row.len(),
            seen0 == old(seen)@,
            seen@.len() == blocks.len(),
            forall|i: int| 0 <= i < row@.len() ==> #[trigger] row@[i] < blocks.len(),
            all_wf(blocks@),
            bv == blocks_view(blocks@),
            succ.len() == blocks.len(),
            forall|i: int| 0 <= i < blocks.len() ==> ints(#[trigger] succ@[i]@) == succs_at(bv, i),
            u < blocks.len(),
            row == &succ@[u as int],
            reachable(bv, u as int),
            inner == active@.insert(u as int),
            forall|a: int| #[trigger] active@.contains(a) ==> reaches(bv, a, u as int),
            searching(bv, seen@, order@, inner),
            seen@[u as int],
            unset(seen@) < unset(seen0),
            forall|v: int| 0 <= v < blocks.len() && seen0[v] ==> #[trigger] seen@[v],
            order@.len() >= order0.len(),
            forall|i: int| 0 <= i < order0.len() ==> #[trigger] order@[i] == order0[i],
            forall|i: int| 0 <= i < k ==> seen@[#[trigger] row@[i] as int],
        decreases row.len() - k,
    {
        let s = row[k];
        let ghost seen1 = seen@;
        proof {
            lemma_picked(bv.len() as int, |j: int| has_edge(bv, u as int, j));
            assert(ints(row@)[k as int] == s);
            assert(succs_at(bv, u as int).contains(s as int));
            lemma_reaches_step(bv, 0, u as int, s as int);
            assert forall|a: int| #[trigger] inner.contains(a) implies reaches(bv, a, s as int) by {
                if a == u {
                    lemma_reaches_self(bv, u as int);
                }
                lemma_reaches_step(bv, a, u as int, s as int);
            }
        }
        visit(blocks, succ, s, seen, order, Ghost(inner));
        proof {
            assert forall|i: int| 0 <= i < k + 1 implies seen@[#[trigger] row@[i] as int] by {
                if i < k {
                    assert(seen1[row@[i] as int]);
                }
            }
        }
        k += 1;
    }
    let ghost seen2 = seen@;
    let ghost order2 = order@;
    order.push(u);
    proof {
        let n = order2.len() as int;
        assert(!earlier(order2, u as int, n)) by {
            if earlier(order2, u as int, n) {
                let j = choose|j: int| 0 <= j < n && #[trigger] order2[j] == u;
                assert(!inner.contains(order2[j] as int));
            }
        }
        assert(order@.no_duplicates()) by {
            assert forall|a: int, b: int| 0 <= a < order@.len() && 0 <= b < order@.len() && a
                != b implies order@[a] != order@[b] by {
                if a == n {
                    if order@[b] == u {
                        assert(order2[b] == u);
                        assert(earlier(order2, u as int, n));
                    }
                } else if b == n {
                    if order@[a] == u {
                        assert(order2[a] == u);
                        assert(earlier(order2, u as int, n));
                    }
                } else {
                    assert(order2[a] != order2[b]);
                }
            }
        }
        assert forall|v: int| 0 <= v < blocks.len() && #[trigger] seen@[v] implies active@.contains(
            v,
        ) || earlier(order@, v, order@.len() as int) by {
            if v == u {
                assert(order@[n] == u);
            } else if !active@.contains(v) {
                assert(!inner.contains(v));
                assert(earlier(order2, v, n));
                let j = choose|j: int| 0 <= j < n && #[trigger] order2[j] == v;
                assert(order@[j] == v);
            }
        }
        assert forall|k: int, s: int|
            0 <= k < order@.len() && 0 <= s < blocks.len() && #[trigger] has_edge(
                bv,
                order@[k] as int,
                s,
            ) implies seen@[s] && (earlier(order@, s, k) || reaches(bv, s, order@[k] as int)) by {
            if k < n {
                assert(order@[k] == order2[k]);
                assert(has_edge(bv, order2[k] as int, s));
                if earlier(order2, s, k) {
                    let j = choose|j: int| 0 <= j < k && #[trigger] order2[j] == s;
                    assert(order@[j] == s);
                }
            } else {
                lemma_picked(bv.len() as int, |j: int| has_edge(bv, u as int, j));
                assert(succs_at(bv, u as int).contains(s));
                let i = choose|i: int| 0 <= i < ints(row@).len() && ints(row@)[i] == s;
                assert(row@[i] == s);
                assert(seen2[row@[i] as int]);
                if inner.contains(s) {
                    if s == u {
                        lemma_reaches_self(bv, u as int);
                    }
                } else {
                    assert(earlier(order2, s, n));
                    let j = choose|j: int| 0 <= j < n && #[trigger] order2[j] == s;
                    assert(order@[j] == s);
                }
            }
        }
        assert forall|k: int| 0 <= k < order@.len() implies seen@[#[trigger] order@[k] as int]
            && !active@.contains(order@[k] as int) by {
            if k < n {
                assert(order@[k] == order2[k]);
                assert(!inner.contains(order2[k] as int));
            } else {
                if active@.contains(u as int) {
                    assert(seen0[u as int]);
                }
            }
        }
        assert forall|k: int| 0 <= k < order@.len() implies reachable(
            bv,
            #[trigger] order@[k] as int,
        ) by {
            if k < n {
                assert(order@[k] == order2[k]);
            }
        }
    }
}

/// Whether `order` is a reverse post-order of the blocks that can be reached from the
/// entry: it lists each of them once and starts with the entry, and a block that another
/// passes control to comes after it, unless the block reaches back to the other.
pub open spec fn is_reverse_post_order(blocks: Seq<Seq<InstructionView>>, order: Seq<int>) -> bool {
    &&& order.no_duplicates()
    &&& forall|v: int| #[trigger] order.contains(v) <==> reachable(blocks, v)
    &&& blocks.len() > 0 ==> order.len() > 0 && order[0] == 0
    &&& forall|i: int, s: int|
        0 <= i < order.len() && 0 <= s < blocks.len() && #[trigger] has_edge(blocks, order[i], s) ==> (
        exists|j: int| i < j < order.len() && #[trigger] order[j] == s) || reaches(
            blocks,
            s,
            order[i],
        )
}

/// The blocks that can be reached from the entry, in reverse post-order of a search that
/// goes depth first and takes the successors of a block in program order.
pub fn reverse_post_order_of(blocks: &[BasicBlock]) -> (r: Vec<usize>)
    requires
        all_wf(blocks@),
    ensures
        is_reverse_post_order(blocks_view(blocks@), ints(r@)),
        forall|k: int| 0 <= k < r.len() ==> #[trigger] r@[k] < blocks.len(),
{
    let ghost bv = blocks_view(blocks@);
    let mut r: Vec<usize> = Vec::new();
    if blocks.len() == 0 {
        proof {
            assert forall|v: int| #[trigger] ints(r@).contains(v) <==> reachable(bv, v) by {
                if reachable(bv, v) {
                    let p = choose|p: Seq<int>| is_path(bv, p) && p[0] == 0 && #[trigger] p.last() == v;
                    assert(0 <= p[0] < bv.len());
                }
            }
        }
        return r;
    }
    let succ = successor_table(blocks);
    let mut seen: Vec<bool> = Vec::new();
    let mut i: usize = 0;
    while i < blocks.len()
        invariant
            i <= blocks.len(),
            seen.len() == i,
            forall|k: int| 0 <= k < i ==> !(#[trigger] seen@[k]),
        decreases blocks.len() - i,
    {
        seen.push(false);
        i += 1;
    }
    let mut post: Vec<usize> = Vec::new();
    proof {
        lemma_reaches_self(bv, 0);
    }
    visit(blocks, &succ, 0, &mut seen, &mut post, Ghost(Set::<int>::empty()));
    let n = post.len();
    let ghost p = post@;
    let mut k: usize = n;
    while k > 0
        invariant
            k <= n,
            n == post.len(),
            p == post@,
            r.len() == n - k,
            forall|j: int| 0 <= j < r.len() ==> #[trigger] r@[j] == p[n - 1 - j],
        decreases k,
    {
        k -= 1;
        r.push(post[k]);
    }
    proof {
        let o = ints(r@);
        assert forall|a: int, b: int| 0 <= a < o.len() && 0 <= b < o.len() && a != b implies o[a]
            != o[b] by {
            assert(p[n - 1 - a] != p[n - 1 - b]);
        }
        assert forall|v: int| #[trigger] o.contains(v) <==> reachable(bv, v) by {
            if o.contains(v) {
                let j = choose|j: int| 0 <= j < o.len() && o[j] == v;
                assert(reachable(bv, p[n - 1 - j] as int));
            }
            if reachable(bv, v) {
                let path = choose|path: Seq<int>|
                    is_path(bv, path) && path[0] == 0 && #[trigger] path.last() == v;
                let inside = |x: int| 0 <= x < bv.len() && seen@[x];
                assert forall|a: int, b: int|
                    0 <= a < bv.len() && 0 <= b < bv.len() && inside(a) && #[trigger] has_edge(
                        bv,
                        a,
                        b,
                    ) implies inside(b) by {
                    assert(earlier(p, a, n as int));
                    let j = choose|j: int| 0 <= j < n && #[trigger] p[j] == a;
                    assert(has_edge(bv, p[j] as int, b));
                }
                lemma_reaches_closed(bv, inside, path);
                assert(earlier(p, v, n as int));
                let j = choose|j: int| 0 <= j < n && #[trigger] p[j] == v;
                assert(o[n - 1 - j] == v);
            }
        }
        assert(seen@[0]);
        assert(post@.last() == 0);
        assert(o[0] == 0);
        assert forall|i: int, s: int|
            0 <= i < o.len() && 0 <= s < bv.len() && #[trigger] has_edge(bv, o[i], s) implies (exists|
            j: int,
        | i < j < o.len() && #[trigger] o[j] == s) || reaches(bv, s, o[i]) by {
            let k = n - 1 - i;
            assert(o[i] == p[k]);
            assert(has_edge(bv, p[k] as int, s));
            if earlier(p, s, k) {
                let t = choose|t: int| 0 <= t < k && #[trigger] p[t] == s;
                assert(o[n - 1 - t] == s);
            }
        }
    }
    r
}

/// The start of a path, up to and including position `k`, is a path.
pub proof fn lemma_path_take(blocks: Seq<Seq<InstructionView>>, p: Seq<int>, k: int)
    requires
        is_path(blocks, p),
        0 <= k < p.len(),
    ensures
        is_path(blocks, p.take(k + 1)),
        p.take(k + 1)[0] == p[0],
        p.take(k + 1).last() == p[k],
{
    let q = p.take(k + 1);
    assert forall|i: int| 0 <= i < q.len() - 1 implies has_edge(blocks, #[trigger] q[i], q[i + 1]) by {
        assert(q[i] == p[i]);
        assert(q[i + 1] == p[i + 1]);
        assert(has_edge(blocks, p[i], p[i + 1]));
    }
    assert forall|i: int| 0 <= i < q.len() implies 0 <= #[trigger] q[i] < blocks.len() by {
        assert(q[i] == p[i]);
    }
}

/// Only the entry dominates the entry.
pub proof fn lemma_dominates_entry(blocks: Seq<Seq<InstructionView>>, a: int)
    requires
        blocks.len() > 0,
    ensures
        dominates(blocks, a, 0) <==> a == 0,
{
    let p = seq![0int];
    assert(is_path(blocks, p) && p[0] == 0 && p.last() == 0);
    if dominates(blocks, a, 0) {
        assert(p.contains(a));
    }
    if a == 0 {
        assert forall|q: Seq<int>|
            is_path(blocks, q) && q[0] == 0 && #[trigger] q.last() == 0 implies q.contains(a) by {
            assert(q[0] == a);
        }
    }
}

/// The entry dominates every block, and every block dominates itself.
pub proof fn lemma_dominates_basics(blocks: Seq<Seq<InstructionView>>, b: int)
    ensures
        dominates(blocks, 0, b),
        dominates(blocks, b, b),
{
    assert forall|q: Seq<int>|
        is_path(blocks, q) && q[0] == 0 && #[trigger] q.last() == b implies q.contains(0) && q.contains(
        b,
    ) by {
        assert(q[0] == 0);
        assert(q[q.len() - 1] == b);
    }
}

/// What dominates a block that can be reached can itself be reached.
pub proof fn lemma_dominator_reachable(blocks: Seq<Seq<InstructionView>>, a: int, b: int)
    requires
        dominates(blocks, a, b),
        reachable(blocks, b),
    ensures
        reachable(blocks, a),
        0 <= a < blocks.len(),
{
    let p = choose|p: Seq<int>| is_path(blocks, p) && p[0] == 0 && #[trigger] p.last() == b;
    assert(p.contains(a));
    let k = choose|k: int| 0 <= k < p.len() && p[k] == a;
    lemma_path_take(blocks, p, k);
    let q = p.take(k + 1);
    assert(is_path(blocks, q) && q[0] == 0 && q.last() == a);
}

/// What dominates a block, and is not that block, dominates each of its predecessors
/// that can be reached.
pub proof fn lemma_dominates_pred(blocks: Seq<Seq<InstructionView>>, a: int, b: int, p: int)
    requires
        dominates(blocks, a, b),
        a != b,
        0 <= b < blocks.len(),
        has_edge(blocks, p, b),
    ensures
        dominates(blocks, a, p),
{
    assert forall|q: Seq<int>|
        is_path(blocks, q) && q[0] == 0 && #[trigger] q.last() == p implies q.contains(a) by {
        lemma_path_push(blocks, q, b);
        let r = q.push(b);
        assert(r.contains(a));
        let k = choose|k: int| 0 <= k < r.len() && r[k] == a;
        assert(q[k] == a);
    }
}

/// Whether `a` is in the meet of the rows of the predecessors of `b` that can be
/// reached: `a` can be reached and is in each of those rows.
pub open spec fn meets(blocks: Seq<Seq<InstructionView>>, dom: Seq<Seq<bool>>, b: int, a: int) -> bool {
    &&& reachable(blocks, a)
    &&& forall|p: int|
        0 <= p < blocks.len() && #[trigger] has_edge(blocks, p, b) && reachable(blocks, p)
            ==> dom[p][a]
}

/// Whether `a` is in the row of `b` after one more step: it is `b`, or it is in the meet.
pub open spec fn stepped(blocks: Seq<Seq<InstructionView>>, dom: Seq<Seq<bool>>, b: int, a: int) -> bool {
    a == b || meets(blocks, dom, b, a)
}

/// Whether the rows solve the equations of dominance: the row of the entry holds the
/// entry alone, and the row of every other block that can be reached holds the block
/// and the meet of its predecessors' rows.
pub open spec fn dominance_fixed(blocks: Seq<Seq<InstructionView>>, dom: Seq<Seq<bool>>) -> bool {
    &&& forall|a: int| 0 <= a < blocks.len() ==> (#[trigger] dom[0][a] <==> a == 0)
    &&& forall|b: int, a: int|
        0 < b < blocks.len() && 0 <= a < blocks.len() && reachable(blocks, b) ==> (
        #[trigger] dom[b][a] <==> stepped(blocks, dom, b, a))
}

/// Rows that solve the equations hold only dominators.
pub proof fn lemma_fixed_sound(
    blocks: Seq<Seq<InstructionView>>,
    dom: Seq<Seq<bool>>,
    p: Seq<int>,
    a: int,
)
    requires
        dominance_fixed(blocks, dom),
        is_path(blocks, p),
        p[0] == 0,
        0 <= a < blocks.len(),
        dom[p.last()][a],
    ensures
        p.contains(a),
    decreases p.len(),
{
    let b = p.last();
    assert(0 <= p[p.len() - 1] < blocks.len());
    if b == 0 {
        assert(p[0] == a);
    } else {
        assert(p.len() > 1);
        assert(reachable(blocks, b));
        assert(stepped(blocks, dom, b, a));
        if a == b {
            assert(p[p.len() - 1] == a);
        } else {
            lemma_path_front(blocks, p);
            let front = p.drop_last();
            let q = p[p.len() - 2];
            assert(0 <= p[p.len() - 2] < blocks.len());
            assert(reachable(blocks, q));
            assert(has_edge(blocks, q, b));
            assert(dom[q][a]);
            lemma_fixed_sound(blocks, dom, front, a);
            let k = choose|k: int| 0 <= k < front.len() && front[k] == a;
            assert(p[k] == a);
        }
    }
}

/// How many of the flags are set.
pub open spec fn ones(row: Seq<bool>) -> nat
    decreases row.len(),
{
    if row.len() == 0 {
        0
    } else {
        ones(row.drop_last()) + if row.last() {
            1nat
        } else {
            0nat
        }
    }
}

/// How many flags are set in all rows together.
pub open spec fn total(dom: Seq<Seq<bool>>) -> nat
    decreases dom.len(),
{
    if dom.len() == 0 {
        0
    } else {
        total(dom.drop_last()) + ones(dom.last())
    }
}

proof fn lemma_ones_subset(a: Seq<bool>, b: Seq<bool>)
    requires
        a.len() == b.len(),
        forall|i: int| 0 <= i < a.len() && a[i] ==> b[i],
    ensures
        ones(a) <= ones(b),
        (exists|i: int| 0 <= i < a.len() && b[i] && !a[i]) ==> ones(a) < ones(b),
    decreases a.len(),
{
    if a.len() > 0 {
        let a1 = a.drop_last();
        let b1 = b.drop_last();
        assert forall|i: int| 0 <= i < a1.len() && a1[i] implies b1[i] by {
            assert(a[i] ==> b[i]);
        }
        lemma_ones_subset(a1, b1);
        assert(a.last() ==> b.last());
        if exists|i: int| 0 <= i < a.len() && b[i] && !a[i] {
            let i = choose|i: int| 0 <= i < a.len() && b[i] && !a[i];
            if i < a.len() - 1 {
                assert(b1[i] && !a1[i]);
            }
        }
    }
}

proof fn lemma_total_update(dom: Seq<Seq<bool>>, b: int, row: Seq<bool>)
    requires
        0 <= b < dom.len(),
    ensures
        total(dom.update(b, row)) + ones(dom[b]) == total(dom) + ones(row),
    decreases dom.len(),
{
    let d2 = dom.update(b, row);
    if b == dom.len() - 1 {
        assert(d2.drop_last() =~= dom.drop_last());
    } else {
        assert(d2.drop_last() =~= dom.drop_last().update(b, row));
        lemma_total_update(dom.drop_last(), b, row);
    }
}

/// The rows of a table.
pub open spec fn rows(t: Seq<Vec<bool>>) -> Seq<Seq<bool>> {
    Seq::new(t.len(), |i: int| t[i]@)
}

/// Whether the table is square: `n` rows of `n` flags.
pub open spec fn square(dom: Seq<Seq<bool>>, n: int) -> bool {
    dom.len() == n && forall|b: int| 0 <= b < n ==> (#[trigger] dom[b]).len() == n
}

/// What holds of the rows while they are narrowed: every dominator is still in its row,
/// only blocks that can be reached are in a row, the entry's row is final, and no row
/// would grow by a step.
spec fn narrowing(blocks: Seq<Seq<InstructionView>>, dom: Seq<Seq<bool>>) -> bool {
    &&& square(dom, blocks.len() as int)
    &&& forall|b: int, a: int|
        0 <= b < blocks.len() && 0 <= a < blocks.len() && reachable(blocks, b) && #[trigger] dominates(
            blocks,
            a,
            b,
        ) ==> dom[b][a]
    &&& forall|b: int, a: int|
        0 <= b < blocks.len() && 0 <= a < blocks.len() && #[trigger] dom[b][a] ==> reachable(
            blocks,
            a,
        ) && reachable(blocks, b)
    &&& forall|a: int| 0 <= a < blocks.len() ==> (#[trigger] dom[0][a] <==> a == 0)
    &&& forall|b: int, a: int|
        0 < b < blocks.len() && 0 <= a < blocks.len() && reachable(blocks, b) && stepped(
            blocks,
            dom,
            b,
            a,
        ) ==> #[trigger] dom[b][a]
}

/// Whether the row of `b` would stay as it is under a step.
spec fn settled(blocks: Seq<Seq<InstructionView>>, dom: Seq<Seq<bool>>, b: int) -> bool {
    forall|a: int| 0 <= a < blocks.len() ==> (#[trigger] dom[b][a] <==> stepped(blocks, dom, b, a))
}

fn narrow(
    blocks: &[BasicBlock],
    pred: &Vec<usize>,
    reach: &Vec<bool>,
    dom: &Vec<Vec<bool>>,
    b: usize,
) -> (row: Vec<bool>)
    requires
        all_wf(blocks@),
        b < blocks.len(),
        ints(pred@) == preds_at(blocks_view(blocks@), b as int),
        reach.len() == blocks.len(),
        forall|v: int| 0 <= v < blocks.len() ==> (#[trigger] reach@[v] <==> reachable(blocks_view(blocks@), v)),
        square(rows(dom@), blocks.len() as int),
    ensures
        row.len() == blocks.len(),
        forall|a: int|
            0 <= a < blocks.len() ==> (#[trigger] row@[a] <==> stepped(
                blocks_view(blocks@),
                rows(dom@),
                b as int,
                a,
            )),
{
    let ghost bv = blocks_view(blocks@);
    let ghost d = rows(dom@);
    let n = blocks.len();
    let mut row: Vec<bool> = Vec::new();
    let mut a: usize = 0;
    proof {
        lemma_picked(n as int, |i: int| has_edge(bv, i, b as int));
    }
    while a < n
        invariant
            a <= n,
            n == blocks.len(),
            b < n,
            bv == blocks_view(blocks@),
            d == rows(dom@),
            ints(pred@) == preds_at(bv, b as int),
            forall|i: int| #[trigger] preds_at(bv, b as int).contains(i) <==> 0 <= i < n && has_edge(bv, i, b as int),
            reach.len() == n,
            forall|v: int| 0 <= v < n ==> (#[trigger] reach@[v] <==> reachable(bv, v)),
            square(d, n as int),
            row.len() == a,
            forall|x: int| 0 <= x < a ==> (#[trigger] row@[x] <==> stepped(bv, d, b as int, x)),
        decreases n - a,
    {
        let mut v = reach[a];
        let mut k: usize = 0;
        while k < pred.len()
            invariant
                k <= pred.len(),
                a < n,
                n == blocks.len(),
                bv == blocks_view(blocks@),
                d == rows(dom@),
                ints(pred@) == preds_at(bv, b as int),
                forall|i: int| #[trigger] preds_at(bv, b as int).contains(i) <==> 0 <= i < n && has_edge(bv, i, b as int),
                reach.len() == n,
                forall|x: int| 0 <= x < n ==> (#[trigger] reach@[x] <==> reachable(bv, x)),
                square(d, n as int),
                v <==> reachable(bv, a as int) && forall|i: int|
                    0 <= i < k && reachable(bv, #[trigger] pred@[i] as int) ==> d[pred@[i] as int][a as int],
            decreases pred.len() - k,
        {
            let p = pred[k];
            proof {
                assert(ints(pred@)[k as int] == p);
                assert(preds_at(bv, b as int).contains(p as int));
                assert(d[p as int] == dom@[p as int]@);
                assert(d[p as int].len() == n);
            }
            if reach[p] && !dom[p][a] {
                v = false;
            }
            k += 1;
        }
        proof {
            if v {
                assert forall|p: int|
                    0 <= p < n && #[trigger] has_edge(bv, p, b as int) && reachable(
                        bv,
                        p,
                    ) implies d[p][a as int] by {
                    assert(preds_at(bv, b as int).contains(p));
                    let i = choose|i: int| 0 <= i < ints(pred@).len() && ints(pred@)[i] == p;
                    assert(pred@[i] == p);
                }
            } else if reachable(bv, a as int) {
                let i = choose|i: int|
                    0 <= i < pred.len() && reachable(bv, #[trigger] pred@[i] as int) && !d[pred@[i] as int][a as int];
                assert(ints(pred@)[i] == pred@[i]);
                assert(preds_at(bv, b as int).contains(pred@[i] as int));
                assert(has_edge(bv, pred@[i] as int, b as int));
            }
        }
        row.push(v || a == b);
        a += 1;
    }
    row
}

fn same_row(x: &Vec<bool>, y: &Vec<bool>) -> (r: bool)
    requires
        x.len() == y.len(),
    ensures
        r == (x@ == y@),
{
    let mut i: usize = 0;
    while i < x.len()
        invariant
            i <= x.len(),
            x.len() == y.len(),
            forall|k: int| 0 <= k < i ==> x@[k] == y@[k],
        decreases x.len() - i,
    {
        if x[i] != y[i] {
            return false;
        }
        i += 1;
    }
    assert(x@ =~= y@);
    true
}

/// For every block that can be reached, the blocks that dominate it: the flag at row `b`
/// and column `a` says whether every path from the entry to `b` passes through `a`. The
/// row of a block that cannot be reached is empty.
pub fn dominator_table(blocks: &[BasicBlock]) -> (dom: Vec<Vec<bool>>)
    requires
        all_wf(blocks@),
    ensures
        square(rows(dom@), blocks.len() as int),
        forall|b: int, a: int|
            0 <= b < blocks.len() && 0 <= a < blocks.len() ==> (#[trigger] dom@[b]@[a] <==> reachable(
                blocks_view(blocks@),
                b,
            ) && dominates(blocks_view(blocks@), a, b)),
        is_dominator_table(blocks_view(blocks@), rows(dom@)),
        dominance_fixed(blocks_view(blocks@), rows(dom@)),
{
    let ghost bv = blocks_view(blocks@);
    let n = blocks.len();
    let order = reverse_post_order_of(blocks);
    let pred = predecessor_table(blocks);
    let mut reach: Vec<bool> = Vec::new();
    let mut i: usize = 0;
    while i < n
        invariant
            i <= n,
            reach.len() == i,
            forall|k: int| 0 <= k < i ==> !(#[trigger] reach@[k]),
        decreases n - i,
    {
        reach.push(false);
        i += 1;
    }
    let mut k: usize = 0;
    while k < order.len()
        invariant
            k <= order.len(),
            reach.len() == n,
            forall|j: int| 0 <= j < order.len() ==> #[trigger] order@[j] < n,
            forall|v: int|
                0 <= v < n ==> (#[trigger] reach@[v] <==> exists|j: int|
                    0 <= j < k && #[trigger] order@[j] == v),
        decreases order.len() - k,
    {
        let ghost before = reach@;
        reach[order[k]] = true;
        proof {
            assert forall|v: int| 0 <= v < n implies (#[trigger] reach@[v] <==> exists|j: int|
                0 <= j < k + 1 && #[trigger] order@[j] == v) by {
                if v == order@[k as int] {
                    assert(order@[k as int] == v);
                } else {
                    assert(reach@[v] == before[v]);
                    if before[v] {
                        let j = choose|j: int| 0 <= j < k && #[trigger] order@[j] == v;
                        assert(order@[j] == v);
                    }
                }
            }
        }
        k += 1;
    }
    proof {
        assert forall|v: int| 0 <= v < n implies (#[trigger] reach@[v] <==> reachable(bv, v)) by {
            if reach@[v] {
                let j = choose|j: int| 0 <= j < order.len() && #[trigger] order@[j] == v;
                assert(ints(order@)[j] == v);
                assert(ints(order@).contains(v));
            }
            if reachable(bv, v) {
                assert(ints(order@).contains(v));
                let j = choose|j: int| 0 <= j < ints(order@).len() && ints(order@)[j] == v;
                assert(order@[j] == v);
            }
        }
    }
    let mut dom: Vec<Vec<bool>> = Vec::new();
    let mut b: usize = 0;
    while b < n
        invariant
            b <= n,
            n == blocks.len(),
            reach.len() == n,
            dom.len() == b,
            forall|x: int| 0 <= x < b ==> (#[trigger] dom@[x]).len() == n,
            forall|x: int, a: int|
                0 <= x < b && 0 <= a < n ==> (#[trigger] dom@[x]@[a] <==> if x == 0 {
                    a == 0
                } else {
                    reach@[x] && reach@[a]
                }),
        decreases n - b,
    {
        let mut row: Vec<bool> = Vec::new();
        let mut a: usize = 0;
        while a < n
            invariant
                a <= n,
                b < n,
                reach.len() == n,
                row.len() == a,
                forall|x: int|
                    0 <= x < a ==> (#[trigger] row@[x] <==> if b == 0 {
                        x == 0
                    } else {
                        reach@[b as int] && reach@[x]
                    }),
            decreases n - a,
        {
            let flag = if b == 0 {
                a == 0
            } else {
                reach[b] && reach[a]
            };
            row.push(flag);
            a += 1;
        }
        dom.push(row);
        b += 1;
    }
    proof {
        let d = rows(dom@);
        assert(square(d, n as int)) by {
            assert forall|x: int| 0 <= x < n implies (#[trigger] d[x]).len() == n by {
                assert(dom@[x].len() == n);
            }
        }
        assert forall|x: int, a: int|
            0 <= x < n && 0 <= a < n && reachable(bv, x) && #[trigger] dominates(
                bv,
                a,
                x,
            ) implies d[x][a] by {
            assert(d[x][a] == dom@[x]@[a]);
            if x == 0 {
                lemma_dominates_entry(bv, a);
            } else {
                lemma_dominator_reachable(bv, a, x);
            }
        }
        assert forall|x: int, a: int| 0 <= x < n && 0 <= a < n && #[trigger] d[x][a] implies reachable(
            bv,
            a,
        ) && reachable(bv, x) by {
            assert(d[x][a] == dom@[x]@[a]);
            if x == 0 {
                lemma_reaches_self(bv, 0);
            }
        }
        assert forall|a: int| 0 <= a < n implies (#[trigger] d[0][a] <==> a == 0) by {
            assert(d[0][a] == dom@[0]@[a]);
        }
        assert forall|x: int, a: int|
            0 < x < n && 0 <= a < n && reachable(bv, x) && stepped(bv, d, x, a) implies #[trigger] d[x][a] by {
            assert(d[x][a] == dom@[x]@[a]);
        }
        assert(narrowing(bv, d));
    }
    let mut changed = true;
    while changed
        invariant
            n == blocks.len(),
            all_wf(blocks@),
            bv == blocks_view(blocks@),
            pred.len() == n,
            forall|j: int| 0 <= j < n ==> ints(#[trigger] pred@[j]@) == preds_at(bv, j),
            reach.len() == n,
            forall|v: int| 0 <= v < n ==> (#[trigger] reach@[v] <==> reachable(bv, v)),
            is_reverse_post_order(bv, ints(order@)),
            forall|j: int| 0 <= j < order.len() ==> #[trigger] order@[j] < n,
            narrowing(bv, rows(dom@)),
            !changed ==> forall|j: int|
                0 <= j < order.len() && order@[j] != 0 ==> settled(bv, rows(dom@), #[trigger] order@[j] as int),
        decreases total(rows(dom@)), if changed { 1nat } else { 0nat },
    {
        changed = false;
        let ghost start = rows(dom@);
        let mut k: usize = 0;
        while k < order.len()
            invariant
                k <= order.len(),
                n == blocks.len(),
                all_wf(blocks@),
                bv == blocks_view(blocks@),
                pred.len() == n,
                forall|j: int| 0 <= j < n ==> ints(#[trigger] pred@[j]@) == preds_at(bv, j),
                reach.len() == n,
                forall|v: int| 0 <= v < n ==> (#[trigger] reach@[v] <==> reachable(bv, v)),
                is_reverse_post_order(bv, ints(order@)),
                forall|j: int| 0 <= j < order.len() ==> #[trigger] order@[j] < n,
                narrowing(bv, rows(dom@)),
                total(rows(dom@)) <= total(start),
                changed ==> total(rows(dom@)) < total(start),
                !changed ==> rows(dom@) == start,
                !changed ==> forall|j: int|
                    0 <= j < k && order@[j] != 0 ==> settled(bv, rows(dom@), #[trigger] order@[j] as int),
            decreases order.len() - k,
        {
            let b = order[k];
            if b != 0 {
                let ghost d = rows(dom@);
                let row = narrow(blocks, &pred[b], &reach, &dom, b);
                proof {
                    assert(ints(order@)[k as int] == b);
                    assert(ints(order@).contains(b as int));
                    assert(reachable(bv, b as int));
                    assert(d[b as int] == dom@[b as int]@);
                    assert(d[b as int].len() == n);
                }
                if !same_row(&row, &dom[b]) {
                    proof {
                        let d2 = d.update(b as int, row@);
                        assert forall|a: int| 0 <= a < n && row@[a] implies d[b as int][a] by {
                            assert(stepped(bv, d, b as int, a));
                        }
                        lemma_ones_subset(row@, d[b as int]);
                        if !exists|i: int| 0 <= i < n && d[b as int][i] && !row@[i] {
                            assert(row@ =~= d[b as int]);
                        }
                        lemma_total_update(d, b as int, row@);
                        // a step on the new rows gives no more than a step on the old
                        assert forall|x: int, a: int|
                            0 < x < n && 0 <= a < n && reachable(bv, x) && stepped(
                                bv,
                                d2,
                                x,
                                a,
                            ) implies stepped(bv, d, x, a) by {
                            if a != x {
                                assert forall|p: int|
                                    0 <= p < n && #[trigger] has_edge(bv, p, x) && reachable(
                                        bv,
                                        p,
                                    ) implies d[p][a] by {
                                    assert(d2[p][a]);
                                    if p == b {
                                        assert(row@[a]);
                                    }
                                }
                            }
                        }
                        assert forall|x: int, a: int|
                            0 <= x < n && 0 <= a < n && reachable(bv, x) && #[trigger] dominates(
                                bv,
                                a,
                                x,
                            ) implies d2[x][a] by {
                            if x == b {
                                if a != x {
                                    lemma_dominator_reachable(bv, a, x);
                                    assert forall|p: int|
                                        0 <= p < n && #[trigger] has_edge(bv, p, x) && reachable(
                                            bv,
                                            p,
                                        ) implies d[p][a] by {
                                        lemma_dominates_pred(bv, a, x, p);
                                    }
                                }
                                assert(stepped(bv, d, b as int, a));
                            } else {
                                assert(d[x][a]);
                            }
                        }
                        assert forall|x: int, a: int|
                            0 <= x < n && 0 <= a < n && #[trigger] d2[x][a] implies reachable(
                            bv,
                            a,
                        ) && reachable(bv, x) by {
                            if x == b {
                                assert(stepped(bv, d, b as int, a));
                            } else {
                                assert(d[x][a]);
                            }
                        }
                        assert forall|x: int, a: int|
                            0 < x < n && 0 <= a < n && reachable(bv, x) && stepped(
                                bv,
                                d2,
                                x,
                                a,
                            ) implies #[trigger] d2[x][a] by {
                            assert(stepped(bv, d, x, a));
                            if x != b {
                                assert(d[x][a]);
                            }
                        }
                        assert(square(d2, n as int));
                        assert forall|a: int| 0 <= a < n implies (#[trigger] d2[0][a] <==> a == 0) by {
                            assert(d2[0] == d[0]);
                        }
                    }
                    dom[b] = row;
                    assert(rows(dom@) =~= d.update(b as int, row@));
                    changed = true;
                } else {
                    proof {
                        assert(settled(bv, d, b as int));
                    }
                }
            }
            k += 1;
        }
    }
    proof {
        let d = rows(dom@);
        assert forall|b: int, a: int|
            0 < b < n && 0 <= a < n && reachable(bv, b) implies (#[trigger] d[b][a] <==> stepped(
            bv,
            d,
            b,
            a,
        )) by {
            assert(ints(order@).contains(b));
            let j = choose|j: int| 0 <= j < ints(order@).len() && ints(order@)[j] == b;
            assert(order@[j] == b);
            assert(settled(bv, d, order@[j] as int));
        }
        assert(dominance_fixed(bv, d));
        assert forall|b: int, a: int| 0 <= b < n && 0 <= a < n implies (#[trigger] dom@[b]@[a]
            <==> reachable(bv, b) && dominates(bv, a, b)) by {
            assert(d[b][a] == dom@[b]@[a]);
            if d[b][a] {
                assert(reachable(bv, b));
                assert forall|p: Seq<int>|
                    is_path(bv, p) && p[0] == 0 && #[trigger] p.last() == b implies p.contains(a) by {
                    lemma_fixed_sound(bv, d, p, a);
                }
            }
        }
    }
    dom
}

/// Whether block `c` lies in the frontier of block `a`: some block that can be reached
/// and that `a` dominates passes control to `c`, and `a` is not another block that
/// dominates `c`. So the head of a loop lies in its own frontier, and a value that it
/// writes meets there the value that comes into the loop.
pub open spec fn in_frontier(blocks: Seq<Seq<InstructionView>>, a: int, c: int) -> bool {
    &&& 0 <= c < blocks.len()
    &&& !(c != a && dominates(blocks, a, c))
    &&& exists|b: int|
        0 <= b < blocks.len() && reachable(blocks, b) && dominates(blocks, a, b) && #[trigger] has_edge(
            blocks,
            b,
            c,
        )
}

/// Whether the table says, for the blocks that can be reached, which blocks dominate
/// them.
pub open spec fn is_dominator_table(blocks: Seq<Seq<InstructionView>>, dom: Seq<Seq<bool>>) -> bool {
    &&& square(dom, blocks.len() as int)
    &&& forall|b: int, a: int|
        0 <= b < blocks.len() && 0 <= a < blocks.len() ==> (#[trigger] dom[b][a] <==> reachable(
            blocks,
            b,
        ) && dominates(blocks, a, b))
}

/// For every block, the blocks in its frontier: the flag at row `a` and column `c` says
/// whether `c` lies in the frontier of `a`.
pub fn frontier_table(blocks: &[BasicBlock], dom: &Vec<Vec<bool>>) -> (df: Vec<Vec<bool>>)
    requires
        all_wf(blocks@),
        is_dominator_table(blocks_view(blocks@), rows(dom@)),
    ensures
        square(rows(df@), blocks.len() as int),
        forall|a: int, c: int|
            0 <= a < blocks.len() && 0 <= c < blocks.len() ==> (#[trigger] df@[a]@[c] <==> in_frontier(
                blocks_view(blocks@),
                a,
                c,
            )),
{
    let ghost bv = blocks_view(blocks@);
    let ghost d = rows(dom@);
    let n = blocks.len();
    let mut df: Vec<Vec<bool>> = Vec::new();
    let mut a: usize = 0;
    while a < n
        invariant
            a <= n,
            n == blocks.len(),
            all_wf(blocks@),
            bv == blocks_view(blocks@),
            d == rows(dom@),
            is_dominator_table(bv, d),
            df.len() == a,
            forall|x: int| 0 <= x < a ==> (#[trigger] df@[x]).len() == n,
            forall|x: int, c: int|
                0 <= x < a && 0 <= c < n ==> (#[trigger] df@[x]@[c] <==> in_frontier(bv, x, c)),
        decreases n - a,
    {
        let mut row: Vec<bool> = Vec::new();
        let mut c: usize = 0;
        while c < n
            invariant
                c <= n,
                a < n,
                n == blocks.len(),
                all_wf(blocks@),
                bv == blocks_view(blocks@),
                d == rows(dom@),
                is_dominator_table(bv, d),
                row.len() == c,
                forall|x: int| 0 <= x < c ==> (#[trigger] row@[x] <==> in_frontier(bv, a as int, x)),
            decreases n - c,
        {
            let mut found = false;
            let mut b: usize = 0;
            while b < n
                invariant
                    b <= n,
                    a < n,
                    c < n,
                    n == blocks.len(),
                    all_wf(blocks@),
                    bv == blocks_view(blocks@),
                    d == rows(dom@),
                    is_dominator_table(bv, d),
                    found <==> exists|x: int|
                        0 <= x < b && reachable(bv, x) && dominates(bv, a as int, x) && #[trigger] has_edge(
                            bv,
                            x,
                            c as int,
                        ),
                    found ==> reachable(bv, c as int),
                decreases n - b,
            {
                proof {
                    assert(d[b as int] == dom@[b as int]@);
                    assert(d[c as int] == dom@[c as int]@);
                    assert(d[b as int].len() == n);
                    assert(d[c as int].len() == n);
                    assert(d[b as int][a as int] <==> reachable(bv, b as int) && dominates(
                        bv,
                        a as int,
                        b as int,
                    ));
                    assert(d[c as int][b as int] <==> reachable(bv, c as int) && dominates(
                        bv,
                        b as int,
                        c as int,
                    ));
                    if reachable(bv, b as int) && has_edge(bv, b as int, c as int) {
                        lemma_reaches_step(bv, 0, b as int, c as int);
                    }
                }
                if dom[b][a] && edge(blocks, b, c) {
                    found = true;
                }
                b += 1;
            }
            proof {
                assert(d[c as int] == dom@[c as int]@);
                assert(d[c as int].len() == n);
                assert(d[c as int][a as int] <==> reachable(bv, c as int) && dominates(
                    bv,
                    a as int,
                    c as int,
                ));
            }
            row.push(found && !(c != a && dom[c][a]));
            c += 1;
        }
        df.push(row);
        a += 1;
    }
    proof {
        assert forall|x: int| 0 <= x < n implies (#[trigger] rows(df@)[x]).len() == n by {
            assert(df@[x].len() == n);
        }
    }
    df
}

/// Of the dominators of a block that can be reached: the entry is one, the block itself
/// is one, and the entry has no other. For any other block they are the block itself and
/// what dominates each of its predecessors that can be reached, so that meeting the
/// dominators of the predecessors once more changes nothing.
pub proof fn lemma_dominators(blocks: Seq<Seq<InstructionView>>, b: int)
    requires
        0 <= b < blocks.len(),
        reachable(blocks, b),
    ensures
        dominates(blocks, 0, b),
        dominates(blocks, b, b),
        forall|a: int| #[trigger] dominates(blocks, a, 0) <==> a == 0,
        b != 0 ==> forall|a: int|
            0 <= a < blocks.len() ==> (#[trigger] dominates(blocks, a, b) <==> stepped(
                blocks,
                Seq::new(
                    blocks.len(),
                    |x: int| Seq::new(blocks.len(), |y: int| dominates(blocks, y, x)),
                ),
                b,
                a,
            )),
{
    lemma_dominates_basics(blocks, b);
    assert forall|a: int| #[trigger] dominates(blocks, a, 0) <==> a == 0 by {
        lemma_dominates_entry(blocks, a);
    }
    if b != 0 {
        let dom = Seq::new(
            blocks.len(),
            |x: int| Seq::new(blocks.len(), |y: int| dominates(blocks, y, x)),
        );
        assert forall|a: int| 0 <= a < blocks.len() implies (#[trigger] dominates(blocks, a, b)
            <==> stepped(blocks, dom, b, a)) by {
            if dominates(blocks, a, b) && a != b {
                lemma_dominator_reachable(blocks, a, b);
                assert forall|p: int|
                    0 <= p < blocks.len() && #[trigger] has_edge(blocks, p, b) && reachable(
                        blocks,
                        p,
                    ) implies dom[p][a] by {
                    lemma_dominates_pred(blocks, a, b, p);
                }
            }
            if stepped(blocks, dom, b, a) && a != b {
                assert forall|q: Seq<int>|
                    is_path(blocks, q) && q[0] == 0 && #[trigger] q.last() == b implies q.contains(
                    a,
                ) by {
                    assert(q.len() > 1);
                    lemma_path_front(blocks, q);
                    let front = q.drop_last();
                    let p = q[q.len() - 2];
                    assert(0 <= q[q.len() - 2] < blocks.len());
                    assert(reachable(blocks, p));
                    assert(has_edge(blocks, p, b));
                    assert(dom[p][a]);
                    assert(front.contains(a));
                    let k = choose|k: int| 0 <= k < front.len() && front[k] == a;
                    assert(q[k] == a);
                }
            }
        }
    }
}

/// What dominates a dominator of a block dominates the block.
pub proof fn lemma_dominates_transitive(blocks: Seq<Seq<InstructionView>>, a: int, b: int, c: int)
    requires
        dominates(blocks, a, b),
        dominates(blocks, b, c),
    ensures
        dominates(blocks, a, c),
{
    assert forall|p: Seq<int>|
        is_path(blocks, p) && p[0] == 0 && #[trigger] p.last() == c implies p.contains(a) by {
        assert(p.contains(b));
        let k = choose|k: int| 0 <= k < p.len() && p[k] == b;
        lemma_path_take(blocks, p, k);
        let q = p.take(k + 1);
        assert(q.contains(a));
        let i = choose|i: int| 0 <= i < q.len() && q[i] == a;
        assert(p[i] == a);
    }
}

/// Two blocks that dominate each other, and that can be reached, are one block.
pub proof fn lemma_dominates_antisymmetric(
    blocks: Seq<Seq<InstructionView>>,
    a: int,
    b: int,
    p: Seq<int>,
)
    requires
        dominates(blocks, a, b),
        dominates(blocks, b, a),
        is_path(blocks, p),
        p[0] == 0,
        p.last() == a,
    ensures
        a == b,
    decreases p.len(),
{
    if a != b {
        assert(p.contains(b));
        let j = choose|j: int| 0 <= j < p.len() && p[j] == b;
        assert(j != p.len() - 1);
        lemma_path_take(blocks, p, j);
        let q = p.take(j + 1);
        assert(q.contains(a));
        let i = choose|i: int| 0 <= i < q.len() && q[i] == a;
        assert(p[i] == a);
        lemma_path_take(blocks, p, i);
        lemma_dominates_antisymmetric(blocks, a, b, p.take(i + 1));
    }
}

/// A sequence that holds a value holds it at a last position.
pub proof fn lemma_last_index(s: Seq<int>, a: int) -> (i: int)
    requires
        s.contains(a),
    ensures
        0 <= i < s.len(),
        s[i] == a,
        forall|k: int| i < k < s.len() ==> s[k] != a,
    decreases s.len(),
{
    if s.last() == a {
        s.len() - 1
    } else {
        let front = s.drop_last();
        let j = choose|j: int| 0 <= j < s.len() && s[j] == a;
        assert(front[j] == a);
        let i = lemma_last_index(front, a);
        assert forall|k: int| i < k < s.len() implies s[k] != a by {
            if k < front.len() {
                assert(front[k] == s[k]);
            }
        }
        i
    }
}

/// A path to a block and a path on from that block make a path.
pub proof fn lemma_path_join(blocks: Seq<Seq<InstructionView>>, p: Seq<int>, q: Seq<int>, j: int)
    requires
        is_path(blocks, p),
        is_path(blocks, q),
        0 <= j < q.len(),
        q[j] == p.last(),
    ensures
        is_path(blocks, p + q.skip(j + 1)),
        (p + q.skip(j + 1))[0] == p[0],
        (p + q.skip(j + 1)).last() == q.last(),
{
    let r = p + q.skip(j + 1);
    assert forall|k: int| 0 <= k < r.len() implies 0 <= #[trigger] r[k] < blocks.len() by {
        if k < p.len() {
            assert(r[k] == p[k]);
        } else {
            assert(r[k] == q[j + 1 + (k - p.len())]);
        }
    }
    assert forall|k: int| 0 <= k < r.len() - 1 implies has_edge(blocks, #[trigger] r[k], r[k + 1]) by {
        if k < p.len() - 1 {
            assert(r[k] == p[k]);
            assert(r[k + 1] == p[k + 1]);
            assert(has_edge(blocks, p[k], p[k + 1]));
        } else if k == p.len() - 1 {
            assert(r[k] == q[j]);
            assert(r[k + 1] == q[j + 1]);
            assert(has_edge(blocks, q[j], q[j + 1]));
        } else {
            let x = j + 1 + (k - p.len());
            assert(r[k] == q[x]);
            assert(r[k + 1] == q[x + 1]);
            assert(has_edge(blocks, q[x], q[x + 1]));
        }
    }
    if j == q.len() - 1 {
        assert(r =~= p);
    }
}

/// Of two blocks that dominate a block which can be reached, one dominates the other.
pub proof fn lemma_dominators_chain(blocks: Seq<Seq<InstructionView>>, a: int, b: int, c: int)
    requires
        dominates(blocks, a, c),
        dominates(blocks, b, c),
        reachable(blocks, c),
    ensures
        dominates(blocks, a, b) || dominates(blocks, b, a),
{
    if !dominates(blocks, a, b) && !dominates(blocks, b, a) {
        let to_b = choose|p: Seq<int>|
            is_path(blocks, p) && p[0] == 0 && #[trigger] p.last() == b && !p.contains(a);
        let to_a = choose|p: Seq<int>|
            is_path(blocks, p) && p[0] == 0 && #[trigger] p.last() == a && !p.contains(b);
        let q = choose|q: Seq<int>| is_path(blocks, q) && q[0] == 0 && #[trigger] q.last() == c;
        assert(q.contains(a));
        assert(q.contains(b));
        let i = lemma_last_index(q, a);
        let j = lemma_last_index(q, b);
        if i < j {
            lemma_path_join(blocks, to_b, q, j);
            let r = to_b + q.skip(j + 1);
            assert(r.contains(a));
            let k = choose|k: int| 0 <= k < r.len() && r[k] == a;
            if k < to_b.len() {
                assert(to_b[k] == a);
            } else {
                assert(q[j + 1 + (k - to_b.len())] == a);
            }
        } else {
            assert(i != j) by {
                if i == j {
                    assert(to_b.last() == b);
                    assert(to_b[to_b.len() - 1] == a);
                }
            }
            lemma_path_join(blocks, to_a, q, i);
            let r = to_a + q.skip(i + 1);
            assert(r.contains(b));
            let k = choose|k: int| 0 <= k < r.len() && r[k] == b;
            if k < to_a.len() {
                assert(to_a[k] == b);
            } else {
                assert(q[i + 1 + (k - to_a.len())] == b);
            }
        }
    }
}

} // verus!
