use vstd::prelude::*;
use crate::basic_block::{
    blocks_view, ends_block, head_labels, is_block, is_jump, is_label, lemma_ahead_step,
    lemma_head_labels_push, lemma_next_free, next_free, BasicBlock, Labeler,
};
use crate::graph::{all_wf, label_at, listed};
use crate::ir::{clone_code, code_of, jump_line, label_line, Instruction, InstructionView};
use crate::names::{NameMap, NameSet};
use crate::rename::is_phi;
use crate::text::{holds_text, names_of, numbered, Name};

verus! {

/// A natural loop as a loop analysis reports it: the labels of its headers and of the
/// blocks that belong to it.
#[derive(Debug)]
pub struct Loop {
    pub headers: Vec<String>,
    pub members: Vec<String>,
}

/// What became of a loop.
#[derive(Debug, PartialEq, Eq)]
pub enum Hoist {
    /// The loop has a pre-header, which holds its invariant instructions.
    Done,
    /// The loop does not have exactly one header that is a block: nothing was changed.
    Skipped,
}

/// Whether block `j` belongs to the loop.
pub open spec fn member(members: Seq<Name>, blocks: Seq<Seq<InstructionView>>, j: int) -> bool {
    members.contains(label_at(blocks, j))
}

/// Whether an instruction can be moved: it computes a value, and is neither a label
/// line, nor a jump, nor a merge.
pub open spec fn eligible(x: InstructionView) -> bool {
    x.dest is Some && !is_label(x) && !is_jump(x) && !is_phi(x)
}

/// The variables that an instruction reads.
pub open spec fn operands(x: InstructionView) -> Seq<Name> {
    match x.args {
        Some(a) => a,
        None => seq![],
    }
}

/// Whether instruction `k2` of block `j2` is a definition, inside the loop, of an
/// operand of instruction `k` of block `j`.
pub open spec fn feeds_in_loop(
    blocks: Seq<Seq<InstructionView>>,
    members: Seq<Name>,
    j: int,
    k: int,
    j2: int,
    k2: int,
) -> bool {
    &&& 0 <= j2 < blocks.len()
    &&& 0 <= k2 < blocks[j2].len()
    &&& member(members, blocks, j2)
    &&& blocks[j2][k2].dest is Some
    &&& operands(blocks[j][k]).contains(blocks[j2][k2].dest->0)
}

/// Whether instruction `k2` of block `j2` stands before instruction `k` of block `j` in
/// the program.
pub open spec fn earlier(j2: int, k2: int, j: int, k: int) -> bool {
    j2 < j || (j2 == j && k2 < k)
}

/// Whether instruction `k` of block `j` is found invariant within `n` rounds: it is in
/// the loop and can be moved, and every definition of one of its operands inside the
/// loop stands before it and was found invariant a round earlier.
pub open spec fn staged(
    blocks: Seq<Seq<InstructionView>>,
    members: Seq<Name>,
    n: nat,
    j: int,
    k: int,
) -> bool
    decreases n,
{
    &&& n > 0
    &&& 0 <= j < blocks.len()
    &&& 0 <= k < blocks[j].len()
    &&& member(members, blocks, j)
    &&& eligible(blocks[j][k])
    &&& forall|j2: int, k2: int| #[trigger]
        feeds_in_loop(blocks, members, j, k, j2, k2) ==> earlier(j2, k2, j, k) && staged(
            blocks,
            members,
            (n - 1) as nat,
            j2,
            k2,
        )
}

/// Whether instruction `k` of block `j` is invariant in the loop: its operands are
/// defined outside the loop, or inside it by invariant instructions that stand before
/// it.
pub open spec fn is_invariant(
    blocks: Seq<Seq<InstructionView>>,
    members: Seq<Name>,
    j: int,
    k: int,
) -> bool {
    exists|n: nat| staged(blocks, members, n, j, k)
}

/// What is found within some rounds is found within more.
pub proof fn lemma_staged_monotone(
    blocks: Seq<Seq<InstructionView>>,
    members: Seq<Name>,
    n: nat,
    j: int,
    k: int,
)
    requires
        staged(blocks, members, n, j, k),
    ensures
        staged(blocks, members, n + 1, j, k),
    decreases n,
{
    assert forall|j2: int, k2: int| #[trigger]
        feeds_in_loop(blocks, members, j, k, j2, k2) implies earlier(j2, k2, j, k) && staged(
        blocks,
        members,
        n,
        j2,
        k2,
    ) by {
        assert(staged(blocks, members, (n - 1) as nat, j2, k2));
        lemma_staged_monotone(blocks, members, (n - 1) as nat, j2, k2);
    }
}

/// The marks of a table.
pub open spec fn mark_rows(t: Seq<Vec<bool>>) -> Seq<Seq<bool>> {
    Seq::new(t.len(), |i: int| t[i]@)
}

/// Whether the table has a mark for every instruction.
pub open spec fn shaped(marks: Seq<Seq<bool>>, blocks: Seq<Seq<InstructionView>>) -> bool {
    marks.len() == blocks.len() && forall|j: int|
        0 <= j < blocks.len() ==> (#[trigger] marks[j]).len() == blocks[j].len()
}

/// How many instructions are not marked.
pub open spec fn unmarked(marks: Seq<Seq<bool>>) -> nat
    decreases marks.len(),
{
    if marks.len() == 0 {
        0
    } else {
        unmarked(marks.drop_last()) + crate::dominance::unset(marks.last())
    }
}

proof fn lemma_unmarked_update(marks: Seq<Seq<bool>>, j: int, row: Seq<bool>)
    requires
        0 <= j < marks.len(),
    ensures
        unmarked(marks.update(j, row)) + crate::dominance::unset(marks[j]) == unmarked(marks)
            + crate::dominance::unset(row),
    decreases marks.len(),
{
    let m2 = marks.update(j, row);
    if j == marks.len() - 1 {
        assert(m2.drop_last() =~= marks.drop_last());
    } else {
        assert(m2.drop_last() =~= marks.drop_last().update(j, row));
        lemma_unmarked_update(marks.drop_last(), j, row);
    }
}

fn can_move(x: &Instruction) -> (r: bool)
    ensures
        r == eligible(x@),
{
    x.dest.is_some() && x.label.is_none() && !crate::basic_block::jumps(x) && !holds_text(
        &x.op,
        "phi",
    )
}

/// Whether every definition inside the loop of an operand of instruction `k` of block
/// `j` is marked.
fn ready(
    blocks: &Vec<BasicBlock>,
    inside: &Vec<bool>,
    marks: &Vec<Vec<bool>>,
    j: usize,
    k: usize,
    Ghost(members): Ghost<Seq<Name>>,
) -> (r: bool)
    requires
        shaped(mark_rows(marks@), blocks_view(blocks@)),
        inside.len() == blocks.len(),
        forall|x: int|
            0 <= x < blocks.len() ==> #[trigger] inside@[x] == member(
                members,
                blocks_view(blocks@),
                x,
            ),
        j < blocks.len(),
        k < blocks@[j as int]@.len(),
    ensures
        r == forall|j2: int, k2: int| #[trigger]
            feeds_in_loop(blocks_view(blocks@), members, j as int, k as int, j2, k2) ==> earlier(
                j2,
                k2,
                j as int,
                k as int,
            ) && marks@[j2]@[k2],
{
    let ghost bv = blocks_view(blocks@);
    let x = &blocks[j].0[k];
    assert(x@ == bv[j as int][k as int]);
    let args = match &x.args {
        Some(a) => a,
        None => {
            assert(operands(bv[j as int][k as int]).len() == 0);
            return true;
        },
    };
    assert(names_of(args@) == operands(bv[j as int][k as int]));
    let mut j2: usize = 0;
    while j2 < blocks.len()
        invariant
            j2 <= blocks.len(),
            bv == blocks_view(blocks@),
            shaped(mark_rows(marks@), bv),
            inside.len() == blocks.len(),
            forall|x: int| 0 <= x < blocks.len() ==> #[trigger] inside@[x] == member(members, bv, x),
            j < blocks.len(),
            k < bv[j as int].len(),
            names_of(args@) == operands(bv[j as int][k as int]),
            forall|a: int, b: int|
                0 <= a < j2 && #[trigger] feeds_in_loop(bv, members, j as int, k as int, a, b)
                    ==> earlier(a, b, j as int, k as int) && marks@[a]@[b],
        decreases blocks.len() - j2,
    {
        if inside[j2] {
            let block = &blocks[j2];
            assert(bv[j2 as int] == block@);
            assert(mark_rows(marks@)[j2 as int] == marks@[j2 as int]@);
            assert(inside@[j2 as int] == member(members, bv, j2 as int));
            let mut k2: usize = 0;
            while k2 < block.0.len()
                invariant
                    k2 <= block.0.len(),
                    j2 < blocks.len(),
                    bv == blocks_view(blocks@),
                    bv[j2 as int] == block@,
                    marks.len() == blocks.len(),
                    member(members, bv, j2 as int),
                    marks@[j2 as int]@.len() == block@.len(),
                    j < blocks.len(),
                    k < bv[j as int].len(),
                    names_of(args@) == operands(bv[j as int][k as int]),
                    forall|a: int, b: int|
                        0 <= a < j2 && #[trigger] feeds_in_loop(bv, members, j as int, k as int, a, b)
                            ==> earlier(a, b, j as int, k as int) && marks@[a]@[b],
                    forall|b: int|
                        0 <= b < k2 && #[trigger] feeds_in_loop(
                            bv,
                            members,
                            j as int,
                            k as int,
                            j2 as int,
                            b,
                        ) ==> earlier(j2 as int, b, j as int, k as int) && marks@[j2 as int]@[b],
                decreases block.0.len() - k2,
            {
                assert(block@[k2 as int] == block.0@[k2 as int]@);
                let feeds = match &block.0[k2].dest {
                    Some(d) => listed(args, d),
                    None => false,
                };
                if feeds && !(marks[j2][k2] && (j2 < j || (j2 == j && k2 < k))) {
                    assert(feeds_in_loop(bv, members, j as int, k as int, j2 as int, k2 as int));
                    return false;
                }
                k2 += 1;
            }
        }
        j2 += 1;
    }
    true
}

/// Marks the invariant instructions of the loop.
fn find_invariants(blocks: &Vec<BasicBlock>, inside: &Vec<bool>, Ghost(members): Ghost<Seq<Name>>) -> (marks:
    Vec<Vec<bool>>)
    requires
        inside.len() == blocks.len(),
        forall|x: int|
            0 <= x < blocks.len() ==> #[trigger] inside@[x] == member(
                members,
                blocks_view(blocks@),
                x,
            ),
    ensures
        shaped(mark_rows(marks@), blocks_view(blocks@)),
        forall|j: int, k: int|
            0 <= j < blocks.len() && 0 <= k < blocks@[j]@.len() ==> (#[trigger] marks@[j]@[k]
                <==> is_invariant(blocks_view(blocks@), members, j, k)),
{
    let ghost bv = blocks_view(blocks@);
    let n = blocks.len();
    let mut marks: Vec<Vec<bool>> = Vec::new();
    let mut j: usize = 0;
    while j < n
        invariant
            j <= n,
            n == blocks.len(),
            bv == blocks_view(blocks@),
            marks.len() == j,
            forall|x: int| 0 <= x < j ==> (#[trigger] marks@[x]).len() == bv[x].len(),
            forall|x: int, y: int| 0 <= x < j && 0 <= y < bv[x].len() ==> !(#[trigger] marks@[x]@[y]),
        decreases n - j,
    {
        let mut row: Vec<bool> = Vec::new();
        let mut k: usize = 0;
        let len = blocks[j].0.len();
        assert(bv[j as int].len() == len);
        while k < len
            invariant
                k <= len,
                row.len() == k,
                forall|y: int| 0 <= y < k ==> !(#[trigger] row@[y]),
            decreases len - k,
        {
            row.push(false);
            k += 1;
        }
        marks.push(row);
        j += 1;
    }
    let ghost mut depth: nat = 0;
    let mut changed = true;
    proof {
        assert forall|x: int| 0 <= x < n implies (#[trigger] mark_rows(marks@)[x]).len()
            == bv[x].len() by {
            assert(marks@[x].len() == bv[x].len());
        }
    }
    while changed
        invariant
            n == blocks.len(),
            bv == blocks_view(blocks@),
            inside.len() == n,
            forall|x: int| 0 <= x < n ==> #[trigger] inside@[x] == member(members, bv, x),
            shaped(mark_rows(marks@), bv),
            forall|x: int, y: int|
                0 <= x < n && 0 <= y < bv[x].len() && #[trigger] marks@[x]@[y] ==> staged(
                    bv,
                    members,
                    depth,
                    x,
                    y,
                ),
            !changed ==> forall|x: int, y: int|
                0 <= x < n && 0 <= y < bv[x].len() && member(members, bv, x) && eligible(bv[x][y]) && (
                forall|j2: int, k2: int| #[trigger]
                    feeds_in_loop(bv, members, x, y, j2, k2) ==> earlier(j2, k2, x, y) && marks@[j2]@[k2])
                    ==> #[trigger] marks@[x]@[y],
        decreases unmarked(mark_rows(marks@)), if changed { 1nat } else { 0nat },
    {
        changed = false;
        let ghost start = mark_rows(marks@);
        let mut j: usize = 0;
        while j < n
            invariant
                j <= n,
                n == blocks.len(),
                bv == blocks_view(blocks@),
                inside.len() == n,
                forall|x: int| 0 <= x < n ==> #[trigger] inside@[x] == member(members, bv, x),
                shaped(mark_rows(marks@), bv),
                forall|x: int, y: int|
                    0 <= x < n && 0 <= y < bv[x].len() && #[trigger] marks@[x]@[y] ==> staged(
                        bv,
                        members,
                        depth,
                        x,
                        y,
                    ),
                unmarked(mark_rows(marks@)) <= unmarked(start),
                changed ==> unmarked(mark_rows(marks@)) < unmarked(start),
                !changed ==> mark_rows(marks@) == start,
                !changed ==> forall|x: int, y: int|
                    0 <= x < j && 0 <= y < bv[x].len() && member(members, bv, x) && eligible(
                        bv[x][y],
                    ) && (forall|j2: int, k2: int| #[trigger]
                        feeds_in_loop(bv, members, x, y, j2, k2) ==> earlier(j2, k2, x, y) && marks@[j2]@[k2])
                        ==> #[trigger] marks@[x]@[y],
            decreases n - j,
        {
            if inside[j] {
                let len = blocks[j].0.len();
                assert(bv[j as int].len() == len);
                let mut k: usize = 0;
                while k < len
                    invariant
                        k <= len,
                        j < n,
                        len == bv[j as int].len(),
                        n == blocks.len(),
                        bv == blocks_view(blocks@),
                        inside.len() == n,
                        inside@[j as int],
                        forall|x: int| 0 <= x < n ==> #[trigger] inside@[x] == member(members, bv, x),
                        shaped(mark_rows(marks@), bv),
                        forall|x: int, y: int|
                            0 <= x < n && 0 <= y < bv[x].len() && #[trigger] marks@[x]@[y]
                                ==> staged(bv, members, depth, x, y),
                        unmarked(mark_rows(marks@)) <= unmarked(start),
                        changed ==> unmarked(mark_rows(marks@)) < unmarked(start),
                        !changed ==> mark_rows(marks@) == start,
                        !changed ==> forall|x: int, y: int|
                            0 <= x < j && 0 <= y < bv[x].len() && member(members, bv, x) && eligible(
                                bv[x][y],
                            ) && (forall|j2: int, k2: int| #[trigger]
                                feeds_in_loop(bv, members, x, y, j2, k2) ==> earlier(j2, k2, x, y) && marks@[j2]@[k2])
                                ==> #[trigger] marks@[x]@[y],
                        !changed ==> forall|y: int|
                            0 <= y < k && eligible(bv[j as int][y]) && (forall|j2: int, k2: int| #[trigger]
                                feeds_in_loop(bv, members, j as int, y, j2, k2) ==> earlier(j2, k2, j as int, y)
                                    && marks@[j2]@[k2])
                                ==> #[trigger] marks@[j as int]@[y],
                    decreases len - k,
                {
                    assert(mark_rows(marks@)[j as int] == marks@[j as int]@);
                    assert(blocks@[j as int]@[k as int] == blocks@[j as int].0@[k as int]@);
                    if !marks[j][k] && can_move(&blocks[j].0[k]) && ready(
                        blocks,
                        inside,
                        &marks,
                        j,
                        k,
                        Ghost(members),
                    ) {
                        let ghost before = mark_rows(marks@);
                        proof {
                            assert forall|x: int, y: int|
                                0 <= x < n && 0 <= y < bv[x].len() && #[trigger] marks@[x]@[y] implies staged(
                                bv,
                                members,
                                depth + 1,
                                x,
                                y,
                            ) by {
                                lemma_staged_monotone(bv, members, depth, x, y);
                            }
                            assert(staged(bv, members, depth + 1, j as int, k as int)) by {
                                assert forall|j2: int, k2: int| #[trigger]
                                    feeds_in_loop(
                                        bv,
                                        members,
                                        j as int,
                                        k as int,
                                        j2,
                                        k2,
                                    ) implies earlier(j2, k2, j as int, k as int) && staged(
                                    bv,
                                    members,
                                    depth,
                                    j2,
                                    k2,
                                ) by {
                                    assert(marks@[j2]@[k2]);
                                }
                            }
                            depth = depth + 1;
                            crate::dominance::lemma_unset_update(marks@[j as int]@, k as int);
                            lemma_unmarked_update(
                                before,
                                j as int,
                                marks@[j as int]@.update(k as int, true),
                            );
                        }
                        marks[j][k] = true;
                        proof {
                            assert(mark_rows(marks@) =~= before.update(
                                j as int,
                                before[j as int].update(k as int, true),
                            ));
                            assert forall|x: int| 0 <= x < n implies (#[trigger] mark_rows(
                                marks@,
                            )[x]).len() == bv[x].len() by {
                                assert(before[x].len() == bv[x].len());
                            }
                            assert forall|x: int, y: int|
                                0 <= x < n && 0 <= y < bv[x].len() && #[trigger] marks@[x]@[y] implies staged(
                                bv,
                                members,
                                depth,
                                x,
                                y,
                            ) by {
                                if x == j && y == k {
                                } else {
                                    assert(mark_rows(marks@)[x] == marks@[x]@);
                                    assert(before[x][y]);
                                }
                            }
                        }
                        changed = true;
                    }
                    k += 1;
                }
            }
            j += 1;
        }
    }
    proof {
        assert forall|j: int, k: int| 0 <= j < n && 0 <= k < blocks@[j]@.len() implies (
        #[trigger] marks@[j]@[k] <==> is_invariant(bv, members, j, k)) by {
            assert(bv[j] == blocks@[j]@);
            if is_invariant(bv, members, j, k) {
                let m = choose|m: nat| staged(bv, members, m, j, k);
                lemma_staged_marked(bv, members, mark_rows(marks@), m, j, k);
                assert(mark_rows(marks@)[j] == marks@[j]@);
            }
        }
    }
    marks
}

/// Marks that hold every instruction whose operands' definitions they hold, hold every
/// invariant instruction.
proof fn lemma_staged_marked(
    blocks: Seq<Seq<InstructionView>>,
    members: Seq<Name>,
    marks: Seq<Seq<bool>>,
    n: nat,
    j: int,
    k: int,
)
    requires
        staged(blocks, members, n, j, k),
        forall|x: int, y: int|
            0 <= x < blocks.len() && 0 <= y < blocks[x].len() && member(members, blocks, x) && eligible(
                blocks[x][y],
            ) && (forall|j2: int, k2: int| #[trigger]
                feeds_in_loop(blocks, members, x, y, j2, k2) ==> earlier(j2, k2, x, y)
                    && marks[j2][k2])
                ==> #[trigger] marks[x][y],
    ensures
        marks[j][k],
    decreases n,
{
    assert forall|j2: int, k2: int| #[trigger]
        feeds_in_loop(blocks, members, j, k, j2, k2) implies earlier(j2, k2, j, k)
        && marks[j2][k2] by {
        lemma_staged_marked(blocks, members, marks, (n - 1) as nat, j2, k2);
    }
}


/// The first `n` instructions of block `j` without those that are invariant, in order.
pub open spec fn kept_code(
    blocks: Seq<Seq<InstructionView>>,
    members: Seq<Name>,
    j: int,
    n: int,
) -> Seq<InstructionView>
    decreases n,
{
    if n <= 0 {
        seq![]
    } else if is_invariant(blocks, members, j, n - 1) {
        kept_code(blocks, members, j, n - 1)
    } else {
        kept_code(blocks, members, j, n - 1).push(blocks[j][n - 1])
    }
}

/// Those of the first `n` instructions of block `j` that are invariant, in order.
pub open spec fn moved_code(
    blocks: Seq<Seq<InstructionView>>,
    members: Seq<Name>,
    j: int,
    n: int,
) -> Seq<InstructionView>
    decreases n,
{
    if n <= 0 {
        seq![]
    } else if is_invariant(blocks, members, j, n - 1) {
        moved_code(blocks, members, j, n - 1).push(blocks[j][n - 1])
    } else {
        moved_code(blocks, members, j, n - 1)
    }
}

/// The invariant instructions of the first `n` blocks, in program order.
pub open spec fn moved(blocks: Seq<Seq<InstructionView>>, members: Seq<Name>, n: int) -> Seq<
    InstructionView,
>
    decreases n,
{
    if n <= 0 {
        seq![]
    } else {
        moved(blocks, members, n - 1) + moved_code(
            blocks,
            members,
            n - 1,
            blocks[n - 1].len() as int,
        )
    }
}

/// The instruction with every label `header` that it names replaced by `pre`.
pub open spec fn redirected(x: InstructionView, header: Name, pre: Name) -> InstructionView {
    InstructionView {
        labels: match x.labels {
            Some(l) => Some(
                Seq::new(
                    l.len(),
                    |i: int|
                        if l[i] == header {
                            pre
                        } else {
                            l[i]
                        },
                ),
            ),
            None => None,
        },
        ..x
    }
}

/// Block `j` after the motion: a block of the loop without its invariant instructions,
/// any other block with its terminator turned from the header to the pre-header.
pub open spec fn moved_block(
    blocks: Seq<Seq<InstructionView>>,
    members: Seq<Name>,
    header: Name,
    pre: Name,
    j: int,
) -> Seq<InstructionView> {
    if member(members, blocks, j) {
        kept_code(blocks, members, j, blocks[j].len() as int)
    } else {
        blocks[j].drop_last().push(redirected(blocks[j].last(), header, pre))
    }
}

/// The label of the pre-header: `preheader` followed by the first number that gives a
/// label which no block has.
pub open spec fn pre_label(blocks: Seq<Seq<InstructionView>>) -> Name {
    numbered("preheader"@, next_free(head_labels(blocks), "preheader"@, 0))
}

/// The pre-header: its label line, the invariant instructions of the loop in program
/// order, and a jump to the header.
pub open spec fn pre_header(
    blocks: Seq<Seq<InstructionView>>,
    members: Seq<Name>,
    header: Name,
) -> Seq<InstructionView> {
    seq![label_line(pre_label(blocks))] + moved(blocks, members, blocks.len() as int) + seq![
        jump_line(header),
    ]
}

/// Whether `h` is the first block with the label `header`.
pub open spec fn is_header(blocks: Seq<Seq<InstructionView>>, header: Name, h: int) -> bool {
    &&& 0 <= h < blocks.len()
    &&& label_at(blocks, h) == header
    &&& forall|i: int| 0 <= i < h ==> #[trigger] label_at(blocks, i) != header
}

/// The program after the motion, for the loop with the header at position `h`: the
/// pre-header stands right before the header.
pub open spec fn hoisted(
    blocks: Seq<Seq<InstructionView>>,
    members: Seq<Name>,
    header: Name,
    h: int,
) -> Seq<Seq<InstructionView>> {
    Seq::new(
        blocks.len() + 1,
        |j: int|
            if j < h {
                moved_block(blocks, members, header, pre_label(blocks), j)
            } else if j == h {
                pre_header(blocks, members, header)
            } else {
                moved_block(blocks, members, header, pre_label(blocks), j - 1)
            },
    )
}

/// What is kept of a finished block is a finished block.
pub proof fn lemma_kept_block(blocks: Seq<Seq<InstructionView>>, members: Seq<Name>, j: int, n: int)
    requires
        0 <= j < blocks.len(),
        is_block(blocks[j]),
        0 <= n <= blocks[j].len(),
    ensures
        n >= 1 ==> kept_code(blocks, members, j, n).len() >= 1 && kept_code(blocks, members, j, n)[0]
            == blocks[j][0],
        forall|i: int|
            1 <= i < kept_code(blocks, members, j, n).len() ==> !is_label(
                #[trigger] kept_code(blocks, members, j, n)[i],
            ),
        n < blocks[j].len() ==> forall|i: int|
            0 <= i < kept_code(blocks, members, j, n).len() ==> !ends_block(
                #[trigger] kept_code(blocks, members, j, n)[i],
            ),
        n == blocks[j].len() ==> is_block(kept_code(blocks, members, j, n)),
    decreases n,
{
    let code = blocks[j];
    if n > 0 {
        lemma_kept_block(blocks, members, j, n - 1);
        let before = kept_code(blocks, members, j, n - 1);
        let now = kept_code(blocks, members, j, n);
        let x = code[n - 1];
        if is_invariant(blocks, members, j, n - 1) {
            let at = n - 1;
            let m = choose|m: nat| staged(blocks, members, m, j, at);
            assert(eligible(x));
            assert(n - 1 != 0);
            assert(!is_jump(x));
            assert(n - 1 != code.len() - 1) by {
                assert(is_jump(code.last()));
            }
        } else {
            assert(now == before.push(x));
            assert forall|i: int| 1 <= i < now.len() implies !is_label(#[trigger] now[i]) by {
                if i < before.len() {
                    assert(now[i] == before[i]);
                } else {
                    assert(n - 1 >= 1);
                }
            }
            if n < code.len() {
                assert forall|i: int| 0 <= i < now.len() implies !ends_block(#[trigger] now[i]) by {
                    if i < before.len() {
                        assert(now[i] == before[i]);
                    }
                }
            } else {
                assert forall|i: int| 0 <= i < now.len() - 1 implies !ends_block(
                    #[trigger] now[i],
                ) by {
                    assert(now[i] == before[i]);
                }
                assert(now.last() == code.last());
                if n == 1 {
                    assert(now[0] == code[0]);
                } else {
                    assert(now[0] == before[0]);
                }
            }
        }
    }
}

/// What is moved is neither a label line nor a jump.
pub proof fn lemma_moved_plain(blocks: Seq<Seq<InstructionView>>, members: Seq<Name>, n: int, i: int)
    requires
        0 <= n <= blocks.len(),
        0 <= i < moved(blocks, members, n).len(),
    ensures
        eligible(moved(blocks, members, n)[i]),
    decreases n,
{
    let front = moved(blocks, members, n - 1);
    if i < front.len() {
        lemma_moved_plain(blocks, members, n - 1, i);
    } else {
        lemma_moved_code_plain(blocks, members, n - 1, blocks[n - 1].len() as int, i - front.len());
    }
}

/// What is moved out of a block is neither a label line nor a jump.
pub proof fn lemma_moved_code_plain(
    blocks: Seq<Seq<InstructionView>>,
    members: Seq<Name>,
    j: int,
    n: int,
    i: int,
)
    requires
        0 <= i < moved_code(blocks, members, j, n).len(),
    ensures
        eligible(moved_code(blocks, members, j, n)[i]),
    decreases n,
{
    if n > 0 {
        let front = moved_code(blocks, members, j, n - 1);
        if i < front.len() {
            lemma_moved_code_plain(blocks, members, j, n - 1, i);
        } else {
            let at = n - 1;
            let m = choose|m: nat| staged(blocks, members, m, j, at);
        }
    }
}

fn redirect(x: &Instruction, header: &String, pre: &String) -> (r: Instruction)
    ensures
        r@ == redirected(x@, header@, pre@),
{
    let mut r = x.clone();
    let turned: Option<Vec<String>> = match &x.labels {
        Some(labels) => {
            let mut out: Vec<String> = Vec::new();
            let mut i: usize = 0;
            while i < labels.len()
                invariant
                    i <= labels.len(),
                    out.len() == i,
                    forall|k: int|
                        0 <= k < i ==> (#[trigger] out@[k])@ == (if labels@[k]@ == header@ {
                            pre@
                        } else {
                            labels@[k]@
                        }),
                decreases labels.len() - i,
            {
                if labels[i] == *header {
                    out.push(pre.clone());
                } else {
                    out.push(labels[i].clone());
                }
                i += 1;
            }
            assert(names_of(out@) =~= redirected(x@, header@, pre@).labels->0);
            Some(out)
        },
        None => None,
    };
    r.labels = turned;
    r
}

/// Moves the invariant instructions of a loop out of it. A new block, the pre-header,
/// is put right before the loop's header and jumps to it; every block outside the loop
/// that named the header now names the pre-header; and the instructions of the loop
/// whose operands are defined outside the loop or by other such instructions are moved
/// to the pre-header, in program order; a definition inside the loop counts only where
/// it stands before the instruction that reads it. A loop that does not have exactly one
/// header that is a block is skipped.
pub fn loop_invariant_code_motion(blocks: &mut Vec<BasicBlock>, lp: &Loop) -> (r: Hoist)
    requires
        all_wf(old(blocks)@),
        old(blocks).len() < usize::MAX,
    ensures
        all_wf(final(blocks)@),
        match r {
            Hoist::Skipped => *final(blocks) == *old(blocks) && !(lp.headers.len() == 1 && exists|
                h: int,
            | is_header(blocks_view(old(blocks)@), lp.headers@[0]@, h)),
            Hoist::Done => lp.headers.len() == 1 && exists|h: int|
                is_header(blocks_view(old(blocks)@), lp.headers@[0]@, h) && blocks_view(
                    final(blocks)@,
                ) == hoisted(blocks_view(old(blocks)@), names_of(lp.members@), lp.headers@[0]@, h),
        },
{
    let ghost bv = blocks_view(blocks@);
    let ghost members = names_of(lp.members@);
    let n = blocks.len();
    if lp.headers.len() != 1 {
        return Hoist::Skipped;
    }
    let header = &lp.headers[0];
    let mut inside: Vec<bool> = Vec::new();
    let mut banned = NameSet::new();
    let mut found: Option<usize> = None;
    let mut j: usize = 0;
    proof {
        assert(bv.take(0) =~= seq![]);
        assert(head_labels(bv.take(0)) =~= Set::<Name>::empty());
    }
    while j < n
        invariant
            j <= n,
            n == blocks.len(),
            *blocks == *old(blocks),
            all_wf(blocks@),
            bv == blocks_view(blocks@),
            members == names_of(lp.members@),
            inside.len() == j,
            forall|x: int| 0 <= x < j ==> #[trigger] inside@[x] == member(members, bv, x),
            banned.wf(),
            banned@ == head_labels(bv.take(j as int)),
            banned.names.len() <= j,
            match found {
                Some(h) => is_header(bv, header@, h as int) && h < j,
                None => forall|i: int| 0 <= i < j ==> #[trigger] label_at(bv, i) != header@,
            },
        decreases n - j,
    {
        assert(blocks@[j as int].wf());
        assert(blocks@[j as int].0@[0]@ == bv[j as int][0]);
        proof {
            assert(bv.take(j + 1) =~= bv.take(j as int).push(bv[j as int]));
            lemma_head_labels_push(bv.take(j as int), bv[j as int]);
        }
        match &blocks[j].0[0].label {
            Some(label) => {
                inside.push(listed(&lp.members, label));
                banned.insert(label.clone());
                if found.is_none() && *label == *header {
                    found = Some(j);
                }
            },
            None => {
                inside.push(false);
            },
        }
        j += 1;
    }
    assert(bv.take(n as int) =~= bv);
    let h = match found {
        Some(h) => h,
        None => {
            proof {
                if exists|h: int| is_header(bv, header@, h) {
                    let h = choose|h: int| is_header(bv, header@, h);
                    assert(label_at(bv, h) != header@);
                }
            }
            return Hoist::Skipped;
        },
    };
    let marks = find_invariants(blocks, &inside, Ghost(members));
    let ghost names = names_of(banned.names@);
    let mut labeler = Labeler { banned, counters: NameMap::new() };
    proof {
        lemma_ahead_step(names, "preheader"@, 0);
    }
    let pre = labeler.label("preheader");
    proof {
        lemma_next_free(names, "preheader"@, 0);
        assert(pre@ == pre_label(bv));
    }
    let mut out: Vec<BasicBlock> = Vec::new();
    let mut hoist: Vec<Instruction> = Vec::new();
    let mut j: usize = 0;
    assert(code_of(hoist@) =~= moved(bv, members, 0));
    while j < n
        invariant
            j <= n,
            n == blocks.len(),
            *blocks == *old(blocks),
            all_wf(blocks@),
            bv == blocks_view(blocks@),
            members == names_of(lp.members@),
            inside.len() == n,
            forall|x: int| 0 <= x < n ==> #[trigger] inside@[x] == member(members, bv, x),
            shaped(mark_rows(marks@), bv),
            forall|x: int, y: int|
                0 <= x < n && 0 <= y < bv[x].len() ==> (#[trigger] marks@[x]@[y] <==> is_invariant(
                    bv,
                    members,
                    x,
                    y,
                )),
            out.len() == j,
            forall|x: int|
                0 <= x < j ==> (#[trigger] out@[x])@ == moved_block(bv, members, header@, pre@, x)
                    && out@[x].wf(),
            code_of(hoist@) == moved(bv, members, j as int),
        decreases n - j,
    {
        assert(blocks@[j as int].wf());
        let block = &blocks[j];
        let ghost code = bv[j as int];
        assert(code == block@);
        assert(mark_rows(marks@)[j as int] == marks@[j as int]@);
        let len = block.0.len();
        if inside[j] {
            let mut kept: Vec<Instruction> = Vec::new();
            let ghost base = code_of(hoist@);
            let mut k: usize = 0;
            assert(code_of(kept@) =~= kept_code(bv, members, j as int, 0));
            assert(code_of(hoist@) =~= base + moved_code(bv, members, j as int, 0));
            while k < len
                invariant
                    k <= len,
                    j < n,
                    len == block.0.len(),
                    code == block@,
                    code == bv[j as int],
                    marks.len() == blocks.len(),
                    n == blocks.len(),
                    marks@[j as int]@.len() == len,
                    forall|y: int|
                        0 <= y < len ==> (#[trigger] marks@[j as int]@[y] <==> is_invariant(
                            bv,
                            members,
                            j as int,
                            y,
                        )),
                    code_of(kept@) == kept_code(bv, members, j as int, k as int),
                    code_of(hoist@) == base + moved_code(bv, members, j as int, k as int),
                decreases len - k,
            {
                let ghost kept0 = code_of(kept@);
                let ghost hoist0 = code_of(hoist@);
                assert(code[k as int] == block.0@[k as int]@);
                if marks[j][k] {
                    hoist.push(block.0[k].clone());
                    assert(code_of(hoist@) =~= hoist0.push(code[k as int]));
                    assert(code_of(hoist@) =~= base + moved_code(bv, members, j as int, k + 1));
                } else {
                    kept.push(block.0[k].clone());
                    assert(code_of(kept@) =~= kept0.push(code[k as int]));
                }
                k += 1;
            }
            proof {
                lemma_kept_block(bv, members, j as int, len as int);
            }
            out.push(BasicBlock(kept));
        } else {
            let mut turned = clone_code(block.0.as_slice());
            let last = redirect(&block.0[len - 1], header, &pre);
            let ghost before = code_of(turned@);
            turned[len - 1] = last;
            proof {
                let now = code_of(turned@);
                assert(now =~= code.drop_last().push(redirected(code.last(), header@, pre@)));
                assert(is_block(now)) by {
                    assert(is_block(code));
                    assert forall|i: int| 0 < i < now.len() implies !is_label(#[trigger] now[i]) by {
                        if i < len - 1 {
                            assert(now[i] == code[i]);
                        }
                        assert(!is_label(code[i]));
                    }
                    assert forall|i: int| 0 <= i < now.len() - 1 implies !ends_block(
                        #[trigger] now[i],
                    ) by {
                        assert(now[i] == code[i]);
                    }
                    if len > 1 {
                        assert(now[0] == code[0]);
                    }
                }
                assert(moved_code(bv, members, j as int, len as int) =~= seq![]) by {
                    lemma_nothing_moved(bv, members, j as int, len as int);
                }
                assert(code_of(hoist@) =~= moved(bv, members, j + 1));
            }
            out.push(BasicBlock(turned));
        }
        j += 1;
    }
    let mut first: Vec<Instruction> = Vec::new();
    first.push(Instruction::label_line(pre));
    let ghost top = code_of(first@);
    assert(top =~= seq![label_line(pre_label(bv))]);
    let mut k: usize = 0;
    while k < hoist.len()
        invariant
            k <= hoist.len(),
            code_of(first@) == top + code_of(hoist@).take(k as int),
        decreases hoist.len() - k,
    {
        let ghost before = code_of(first@);
        first.push(hoist[k].clone());
        assert(code_of(first@) =~= before.push(hoist@[k as int]@));
        assert(code_of(hoist@).take(k + 1) =~= code_of(hoist@).take(k as int).push(hoist@[k as int]@));
        assert(code_of(first@) =~= top + code_of(hoist@).take(k + 1));
        k += 1;
    }
    assert(code_of(hoist@).take(hoist.len() as int) =~= code_of(hoist@));
    first.push(Instruction::jump_line(header.clone()));
    let ghost p = code_of(first@);
    proof {
        assert(p =~= pre_header(bv, members, header@));
        let mv = moved(bv, members, n as int);
        assert(p.len() == mv.len() + 2);
        assert(is_block(p)) by {
            assert forall|i: int| 0 < i < p.len() implies !is_label(#[trigger] p[i]) by {
                if i <= mv.len() {
                    assert(p[i] == mv[i - 1]);
                    lemma_moved_plain(bv, members, n as int, i - 1);
                }
            }
            assert forall|i: int| 0 <= i < p.len() - 1 implies !ends_block(#[trigger] p[i]) by {
                if i >= 1 {
                    assert(p[i] == mv[i - 1]);
                    lemma_moved_plain(bv, members, n as int, i - 1);
                }
            }
            assert(p[0] == label_line(pre_label(bv)));
            assert(p.last() == jump_line(header@));
        }
    }
    out.insert(h, BasicBlock(first));
    proof {
        let want = hoisted(bv, members, header@, h as int);
        assert forall|x: int| 0 <= x < out.len() implies #[trigger] blocks_view(out@)[x] == want[x]
            && out@[x].wf() by {
            if x < h {
            } else if x == h {
            } else {
                assert((out@[x])@ == moved_block(bv, members, header@, pre@, x - 1));
            }
        }
        assert(blocks_view(out@) =~= want);
        assert(is_header(bv, header@, h as int));
    }
    *blocks = out;
    Hoist::Done
}

/// Outside the loop nothing is invariant.
pub proof fn lemma_nothing_moved(blocks: Seq<Seq<InstructionView>>, members: Seq<Name>, j: int, n: int)
    requires
        !member(members, blocks, j),
    ensures
        moved_code(blocks, members, j, n) == Seq::<InstructionView>::empty(),
    decreases n,
{
    if n > 0 {
        lemma_nothing_moved(blocks, members, j, n - 1);
        if is_invariant(blocks, members, j, n - 1) {
            let at = n - 1;
            let m = choose|m: nat| staged(blocks, members, m, j, at);
        }
    }
}

} // verus!
