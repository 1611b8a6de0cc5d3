use vstd::prelude::*;
use crate::basic_block::{
    blocks_of, blocks_view, ends_block, is_block, is_jump, is_label, phi_lines, BasicBlock,
};
use crate::dominance::{
    dominates, dominator_table, frontier_table, in_frontier, is_reverse_post_order, reachable,
    reverse_post_order_of, rows, square, unset,
};
use crate::graph::{
    all_wf, edge, has_edge, ints, label_at, lemma_picked, predecessor_table, preds_at, targets_at,
};
use crate::ir::{code_of, phi_line, Argument, Function, InstructionView};
use crate::names::{NameMap, NameSet};
use crate::text::{clone_names, names_of, Name};

verus! {

/// A block of a control-flow graph with the labels of the blocks that pass control to it
/// and of those it passes control to.
#[derive(Debug)]
pub struct CfgEntry {
    pub basic_block: BasicBlock,
    pub predesessors: NameSet,
    pub successors: NameSet,
}

/// The control-flow graph of a function: its blocks by label, in program order, the
/// label of the entry block, and the function's formal arguments.
#[derive(Debug)]
pub struct Cfg {
    pub arguments: Vec<Argument>,
    pub entry: String,
    pub graph: NameMap<CfgEntry>,
}

/// Whether the blocks make a program that a graph can be built from: there is a block,
/// every block is finished, no two blocks share a label, and every label that a
/// terminator names is the label of a block.
pub open spec fn sound(blocks: Seq<Seq<InstructionView>>) -> bool {
    &&& blocks.len() > 0
    &&& forall|j: int| 0 <= j < blocks.len() ==> is_block(#[trigger] blocks[j]) && blocks[j].len() >= 2
    &&& forall|i: int, j: int|
        0 <= i < j < blocks.len() ==> #[trigger] label_at(blocks, i) != #[trigger] label_at(blocks, j)
    &&& forall|j: int, k: int|
        0 <= j < blocks.len() && 0 <= k < targets_at(blocks, j).len() ==> names_label(
            blocks,
            #[trigger] targets_at(blocks, j)[k],
        )
}

/// Whether some block has fewer than two instructions: its label line is its
/// terminator.
pub open spec fn has_bare(blocks: Seq<Seq<InstructionView>>) -> bool {
    exists|j: int| 0 <= j < blocks.len() && (#[trigger] blocks[j]).len() < 2
}

/// Whether two blocks share a label.
pub open spec fn has_repeated(blocks: Seq<Seq<InstructionView>>) -> bool {
    exists|i: int, j: int|
        0 <= i < j < blocks.len() && #[trigger] label_at(blocks, i) == #[trigger] label_at(blocks, j)
}

/// Whether a terminator names a label that no block has.
pub open spec fn has_dangling(blocks: Seq<Seq<InstructionView>>) -> bool {
    exists|j: int, k: int|
        0 <= j < blocks.len() && 0 <= k < targets_at(blocks, j).len() && !names_label(
            blocks,
            #[trigger] targets_at(blocks, j)[k],
        )
}

/// What keeps a program from being fit for a graph.
#[derive(Debug, Clone, Copy, PartialEq, Eq, Structural)]
pub enum Defect {
    /// It has no block.
    Empty,
    /// A block has fewer than two instructions.
    Bare,
    /// Two blocks share a label.
    Repeated,
    /// A terminator names a label that no block has.
    Dangling,
}

/// A function that has no control-flow graph, and why.
#[derive(Debug)]
pub struct MalformedIr {
    pub function: String,
    pub reason: Defect,
}

/// Whether `name` is the label of a block.
pub open spec fn names_label(blocks: Seq<Seq<InstructionView>>, name: Name) -> bool {
    exists|t: int| 0 <= t < blocks.len() && #[trigger] label_at(blocks, t) == name
}

/// The labels of the blocks that can pass control to block `j`.
pub open spec fn pred_labels(blocks: Seq<Seq<InstructionView>>, j: int) -> Set<Name> {
    Set::new(
        |n: Name|
            exists|i: int| 0 <= i < blocks.len() && #[trigger] label_at(blocks, i) == n && has_edge(blocks, i, j),
    )
}

impl Cfg {
    /// The blocks of the graph, in program order.
    pub open spec fn blocks(&self) -> Seq<Seq<InstructionView>> {
        Seq::new(self.graph.vals.len() as nat, |j: int| self.graph.vals@[j].basic_block@)
    }

    /// The graph is consistent: every block stands under its own label, the first block
    /// is the entry, and the tables of successors and predecessors hold exactly the edges
    /// that the terminators give, all of them between blocks of the graph.
    pub open spec fn wf(&self) -> bool {
        &&& self.graph.wf()
        &&& sound(self.blocks())
        &&& self.entry@ == label_at(self.blocks(), 0)
        &&& forall|j: int|
            0 <= j < self.graph.keys.len() ==> (#[trigger] self.graph.keys@[j])@ == label_at(
                self.blocks(),
                j,
            )
        &&& forall|j: int|
            0 <= j < self.graph.keys.len() ==> {
                let e = #[trigger] self.graph.vals@[j];
                &&& e.successors@ == targets_at(self.blocks(), j).to_set()
                &&& e.predesessors@ == pred_labels(self.blocks(), j)
                &&& e.successors.wf()
                &&& e.predesessors.wf()
            }
    }

    /// What keeps the program from being fit for a graph, if anything does: the first of
    /// the defects that it has.
    pub fn diagnose(blocks: &[BasicBlock]) -> (r: Option<Defect>)
        requires
            all_wf(blocks@),
        ensures
            r is None <==> sound(blocks_view(blocks@)),
            r == Some(Defect::Empty) <==> blocks.len() == 0,
            r == Some(Defect::Bare) <==> blocks.len() > 0 && has_bare(blocks_view(blocks@)),
            r == Some(Defect::Repeated) <==> blocks.len() > 0 && !has_bare(blocks_view(blocks@))
                && has_repeated(blocks_view(blocks@)),
            r == Some(Defect::Dangling) <==> blocks.len() > 0 && !has_bare(blocks_view(blocks@))
                && !has_repeated(blocks_view(blocks@)) && has_dangling(blocks_view(blocks@)),
    {
        let ghost bv = blocks_view(blocks@);
        if blocks.len() == 0 {
            return Some(Defect::Empty);
        }
        let mut j: usize = 0;
        while j < blocks.len()
            invariant
                j <= blocks.len(),
                bv == blocks_view(blocks@),
                forall|a: int| 0 <= a < j ==> (#[trigger] bv[a]).len() >= 2,
            decreases blocks.len() - j,
        {
            if blocks[j].0.len() < 2 {
                assert(bv[j as int].len() < 2);
                return Some(Defect::Bare);
            }
            j += 1;
        }
        assert(!has_bare(bv));
        let mut j: usize = 0;
        while j < blocks.len()
            invariant
                j <= blocks.len(),
                all_wf(blocks@),
                bv == blocks_view(blocks@),
                !has_bare(bv),
                forall|a: int, b: int|
                    0 <= a < b < j ==> #[trigger] label_at(bv, a) != #[trigger] label_at(bv, b),
            decreases blocks.len() - j,
        {
            assert(blocks@[j as int].wf());
            let block = &blocks[j];
            assert(block.0@[0]@ == bv[j as int][0]);
            let mut i: usize = 0;
            while i < j
                invariant
                    i <= j,
                    j < blocks.len(),
                    all_wf(blocks@),
                    bv == blocks_view(blocks@),
                    !has_bare(bv),
                    block == &blocks@[j as int],
                    forall|a: int| 0 <= a < i ==> #[trigger] label_at(bv, a) != label_at(bv, j as int),
                decreases j - i,
            {
                assert(blocks@[i as int].wf());
                assert(blocks@[i as int].0@[0]@ == bv[i as int][0]);
                match (&blocks[i].0[0].label, &block.0[0].label) {
                    (Some(a), Some(b)) => {
                        if *a == *b {
                            assert(label_at(bv, i as int) == label_at(bv, j as int));
                            return Some(Defect::Repeated);
                        }
                    },
                    _ => {},
                }
                i += 1;
            }
            j += 1;
        }
        assert(!has_repeated(bv));
        let mut j: usize = 0;
        while j < blocks.len()
            invariant
                j <= blocks.len(),
                all_wf(blocks@),
                bv == blocks_view(blocks@),
                !has_bare(bv),
                !has_repeated(bv),
                forall|a: int, k: int|
                    0 <= a < j && 0 <= k < targets_at(bv, a).len() ==> names_label(
                        bv,
                        #[trigger] targets_at(bv, a)[k],
                    ),
            decreases blocks.len() - j,
        {
            assert(blocks@[j as int].wf());
            let block = &blocks[j];
            let last = &block.0[block.0.len() - 1];
            assert(last@ == bv[j as int].last());
            match &last.labels {
                Some(targets) => {
                    let mut k: usize = 0;
                    while k < targets.len()
                        invariant
                            k <= targets.len(),
                            j < blocks.len(),
                            all_wf(blocks@),
                            bv == blocks_view(blocks@),
                            !has_bare(bv),
                            !has_repeated(bv),
                            names_of(targets@) == targets_at(bv, j as int),
                            forall|c: int|
                                0 <= c < k ==> names_label(bv, #[trigger] targets_at(bv, j as int)[c]),
                        decreases targets.len() - k,
                    {
                        if !Self::is_label(blocks, &targets[k]) {
                            assert(!names_label(bv, targets_at(bv, j as int)[k as int]));
                            return Some(Defect::Dangling);
                        }
                        k += 1;
                    }
                },
                None => {},
            }
            j += 1;
        }
        assert(!has_dangling(bv));
        assert forall|j: int| 0 <= j < bv.len() implies is_block(#[trigger] bv[j]) && bv[j].len() >= 2 by {
            assert(blocks@[j].wf());
        }
        None
    }

    /// Whether the program is fit for a graph.
    pub fn check(blocks: &[BasicBlock]) -> (r: bool)
        requires
            all_wf(blocks@),
        ensures
            r == sound(blocks_view(blocks@)),
    {
        Self::diagnose(blocks).is_none()
    }

    /// The control-flow graph of a function, or what keeps the function from having one.
    pub fn try_new(function: &Function) -> (r: Result<Self, MalformedIr>)
        ensures
            r is Ok <==> sound(blocks_of(code_of(function.instrs@))),
            r matches Ok(cfg) ==> cfg.wf() && cfg.blocks() == blocks_of(code_of(function.instrs@))
                && cfg.arguments@ == match function.args {
                Some(a) => a@,
                None => Seq::<Argument>::empty(),
            },
            r matches Err(e) ==> e.function@ == function.name@ && {
                let blocks = blocks_of(code_of(function.instrs@));
                &&& e.reason == Defect::Empty <==> blocks.len() == 0
                &&& e.reason == Defect::Bare <==> blocks.len() > 0 && has_bare(blocks)
                &&& e.reason == Defect::Repeated <==> blocks.len() > 0 && !has_bare(blocks)
                    && has_repeated(blocks)
                &&& e.reason == Defect::Dangling <==> blocks.len() > 0 && !has_bare(blocks)
                    && !has_repeated(blocks) && has_dangling(blocks)
            },
    {
        let blocks = BasicBlock::new_blocks(function.instrs.as_slice());
        match Self::diagnose(blocks.as_slice()) {
            Some(reason) => Err(MalformedIr { function: function.name.clone(), reason }),
            None => Ok(Self::new(function)),
        }
    }

    /// Whether `name` is the label of one of the blocks.
    pub fn is_label(blocks: &[BasicBlock], name: &String) -> (r: bool)
        requires
            all_wf(blocks@),
        ensures
            r == names_label(blocks_view(blocks@), name@),
    {
        let ghost bv = blocks_view(blocks@);
        let mut t: usize = 0;
        while t < blocks.len()
            invariant
                t <= blocks.len(),
                all_wf(blocks@),
                bv == blocks_view(blocks@),
                forall|a: int| 0 <= a < t ==> #[trigger] label_at(bv, a) != name@,
            decreases blocks.len() - t,
        {
            assert(blocks@[t as int].wf());
            assert(blocks@[t as int].0@[0]@ == bv[t as int][0]);
            match &blocks[t].0[0].label {
                Some(l) => {
                    if *l == *name {
                        assert(label_at(bv, t as int) == name@);
                        return true;
                    }
                },
                None => {},
            }
            t += 1;
        }
        false
    }
}


/// The labels of the blocks before `upto` that can pass control to block `j`.
pub open spec fn pred_labels_upto(blocks: Seq<Seq<InstructionView>>, j: int, upto: int) -> Set<Name> {
    Set::new(
        |n: Name|
            exists|i: int| 0 <= i < upto && #[trigger] label_at(blocks, i) == n && has_edge(blocks, i, j),
    )
}

fn label_of(blocks: &[BasicBlock], j: usize) -> (r: String)
    requires
        all_wf(blocks@),
        j < blocks.len(),
    ensures
        r@ == label_at(blocks_view(blocks@), j as int),
{
    assert(blocks@[j as int].wf());
    assert(blocks@[j as int].0@[0]@ == blocks@[j as int]@[0]);
    match &blocks[j].0[0].label {
        Some(l) => l.clone(),
        None => String::new(),
    }
}

fn entry_for(blocks: &[BasicBlock], j: usize) -> (r: CfgEntry)
    requires
        all_wf(blocks@),
        j < blocks.len(),
    ensures
        r.basic_block@ == blocks_view(blocks@)[j as int],
        r.successors@ == targets_at(blocks_view(blocks@), j as int).to_set(),
        r.predesessors@ == pred_labels(blocks_view(blocks@), j as int),
        r.successors.wf(),
        r.predesessors.wf(),
{
    let ghost bv = blocks_view(blocks@);
    assert(blocks@[j as int].wf());
    let block = &blocks[j];
    let mut successors = NameSet::new();
    let last = &block.0[block.0.len() - 1];
    assert(last@ == bv[j as int].last());
    match &last.labels {
        Some(targets) => {
            successors.extend(targets);
            assert(successors@ =~= targets_at(bv, j as int).to_set());
        },
        None => {
            assert(successors@ =~= targets_at(bv, j as int).to_set());
        },
    }
    let mut predesessors = NameSet::new();
    let mut i: usize = 0;
    assert(predesessors@ =~= pred_labels_upto(bv, j as int, 0));
    while i < blocks.len()
        invariant
            i <= blocks.len(),
            j < blocks.len(),
            all_wf(blocks@),
            bv == blocks_view(blocks@),
            predesessors.wf(),
            predesessors@ == pred_labels_upto(bv, j as int, i as int),
        decreases blocks.len() - i,
    {
        let ghost before = predesessors@;
        if edge(blocks, i, j) {
            predesessors.insert(label_of(blocks, i));
        }
        proof {
            let after = pred_labels_upto(bv, j as int, i + 1);
            assert forall|n: Name| predesessors@.contains(n) implies after.contains(n) by {
                if before.contains(n) {
                    let a = choose|a: int|
                        0 <= a < i && #[trigger] label_at(bv, a) == n && has_edge(bv, a, j as int);
                    assert(label_at(bv, a) == n);
                } else {
                    assert(label_at(bv, i as int) == n);
                }
            }
            assert forall|n: Name| after.contains(n) implies predesessors@.contains(n) by {
                let a = choose|a: int|
                    0 <= a < i + 1 && #[trigger] label_at(bv, a) == n && has_edge(bv, a, j as int);
                if a < i {
                    assert(before.contains(n));
                }
            }
            assert(predesessors@ =~= after);
        }
        i += 1;
    }
    assert(pred_labels_upto(bv, j as int, blocks.len() as int) =~= pred_labels(bv, j as int));
    CfgEntry { basic_block: block.clone(), predesessors, successors }
}

impl Cfg {
    /// The control-flow graph of a function. Its blocks are the basic blocks of the
    /// function's body; a block's successors are the labels that its terminator names,
    /// and its predecessors are the blocks that name it. The first block is the entry.
    pub fn new(function: &Function) -> (r: Self)
        requires
            sound(blocks_of(code_of(function.instrs@))),
        ensures
            r.wf(),
            r.blocks() == blocks_of(code_of(function.instrs@)),
            r.arguments@ == match function.args {
                Some(a) => a@,
                None => Seq::<Argument>::empty(),
            },
    {
        let basic_blocks = BasicBlock::new_blocks(function.instrs.as_slice());
        let ghost bv = blocks_view(basic_blocks@);
        let mut arguments: Vec<Argument> = Vec::new();
        match &function.args {
            Some(args) => {
                let mut k: usize = 0;
                while k < args.len()
                    invariant
                        k <= args.len(),
                        arguments@ == args@.take(k as int),
                    decreases args.len() - k,
                {
                    arguments.push(args[k].clone());
                    assert(args@.take(k + 1) =~= args@.take(k as int).push(args@[k as int]));
                    k += 1;
                }
                assert(args@.take(args.len() as int) =~= args@);
            },
            None => {},
        }
        let entry = label_of(basic_blocks.as_slice(), 0);
        let mut graph: NameMap<CfgEntry> = NameMap::new();
        let mut j: usize = 0;
        while j < basic_blocks.len()
            invariant
                j <= basic_blocks.len(),
                all_wf(basic_blocks@),
                bv == blocks_view(basic_blocks@),
                sound(bv),
                graph.wf(),
                graph.keys.len() == j,
                forall|k: int| 0 <= k < j ==> (#[trigger] graph.keys@[k])@ == label_at(bv, k),
                forall|k: int|
                    0 <= k < j ==> {
                        let e = #[trigger] graph.vals@[k];
                        &&& e.basic_block@ == bv[k]
                        &&& e.successors@ == targets_at(bv, k).to_set()
                        &&& e.predesessors@ == pred_labels(bv, k)
                        &&& e.successors.wf()
                        &&& e.predesessors.wf()
                    },
            decreases basic_blocks.len() - j,
        {
            let label = label_of(basic_blocks.as_slice(), j);
            let e = entry_for(basic_blocks.as_slice(), j);
            proof {
                if graph.has(label@) {
                    graph.lemma_has(label@);
                    let k = graph.slot(label@);
                    assert(graph.keys@[k]@ == label_at(bv, k));
                    assert(label_at(bv, k) != label_at(bv, j as int));
                }
            }
            graph.insert(label, e);
            j += 1;
        }
        let r = Cfg { arguments, entry, graph };
        assert(r.blocks() =~= bv);
        r
    }
}


/// The labels of the blocks that dominate block `b`.
pub open spec fn dominator_labels(blocks: Seq<Seq<InstructionView>>, b: int) -> Set<Name> {
    Set::new(
        |m: Name|
            exists|a: int|
                0 <= a < blocks.len() && #[trigger] label_at(blocks, a) == m && dominates(blocks, a, b),
    )
}

/// The labels of the blocks in the frontier of block `a`.
pub open spec fn frontier_labels(blocks: Seq<Seq<InstructionView>>, a: int) -> Set<Name> {
    Set::new(
        |m: Name|
            exists|c: int|
                0 <= c < blocks.len() && #[trigger] label_at(blocks, c) == m && in_frontier(blocks, a, c),
    )
}

/// The labels of the columns that are set in a row.
pub open spec fn row_labels(labels: Seq<Name>, row: Seq<bool>) -> Set<Name> {
    Set::new(|m: Name| exists|a: int| 0 <= a < labels.len() && #[trigger] labels[a] == m && row[a])
}

/// Turns the rows that are wanted into a map: the label of a row's block leads to the
/// labels of the columns that are set in the row.
fn label_rows(labels: &Vec<String>, table: &Vec<Vec<bool>>, wanted: &Vec<bool>) -> (r: NameMap<NameSet>)
    requires
        names_of(labels@).no_duplicates(),
        square(rows(table@), labels.len() as int),
        wanted.len() == labels.len(),
    ensures
        r.wf(),
        forall|b: int| 0 <= b < labels.len() ==> (r.has(#[trigger] labels@[b]@) <==> wanted@[b]),
        forall|m: Name| #[trigger] r.has(m) ==> names_of(labels@).contains(m),
        forall|b: int|
            0 <= b < labels.len() && wanted@[b] ==> r.at(#[trigger] labels@[b]@)@ == row_labels(
                names_of(labels@),
                table@[b]@,
            ) && r.at(labels@[b]@).wf(),
{
    let n = labels.len();
    let ghost ls = names_of(labels@);
    let mut r: NameMap<NameSet> = NameMap::new();
    let mut b: usize = 0;
    while b < n
        invariant
            b <= n,
            n == labels.len(),
            ls == names_of(labels@),
            ls.no_duplicates(),
            square(rows(table@), n as int),
            wanted.len() == n,
            r.wf(),
            forall|x: int| 0 <= x < n ==> (r.has(#[trigger] labels@[x]@) <==> x < b && wanted@[x]),
            forall|m: Name| #[trigger] r.has(m) ==> ls.contains(m),
            forall|x: int|
                0 <= x < b && wanted@[x] ==> r.at(#[trigger] labels@[x]@)@ == row_labels(
                    ls,
                    table@[x]@,
                ) && r.at(labels@[x]@).wf(),
        decreases n - b,
    {
        if wanted[b] {
            let mut set = NameSet::new();
            let mut a: usize = 0;
            let row = &table[b];
            assert(rows(table@)[b as int] == row@);
            assert(set@ =~= row_labels(ls.take(0), row@));
            while a < n
                invariant
                    a <= n,
                    n == labels.len(),
                    ls == names_of(labels@),
                    row.len() == n,
                    set.wf(),
                    set@ == row_labels(ls.take(a as int), row@),
                decreases n - a,
            {
                let ghost before = set@;
                if row[a] {
                    set.insert(labels[a].clone());
                }
                proof {
                    let x = ls.take(a as int);
                    let y = ls.take(a + 1);
                    assert(y[a as int] == labels@[a as int]@);
                    assert forall|m: Name| set@.contains(m) implies row_labels(y, row@).contains(m) by {
                        if before.contains(m) {
                            let i = choose|i: int| 0 <= i < x.len() && #[trigger] x[i] == m && row@[i];
                            assert(y[i] == m);
                        } else {
                            assert(y[a as int] == m);
                        }
                    }
                    assert forall|m: Name| row_labels(y, row@).contains(m) implies set@.contains(m) by {
                        let i = choose|i: int| 0 <= i < y.len() && #[trigger] y[i] == m && row@[i];
                        if i < a {
                            assert(x[i] == m);
                        }
                    }
                    assert(set@ =~= row_labels(y, row@));
                }
                a += 1;
            }
            assert(ls.take(n as int) =~= ls);
            let ghost old_r = r;
            proof {
                assert(ls[b as int] == labels@[b as int]@);
                assert(!r.has(labels@[b as int]@));
            }
            r.insert(labels[b].clone(), set);
            proof {
                assert forall|x: int| 0 <= x < n implies (r.has(#[trigger] labels@[x]@) <==> x < b + 1
                    && wanted@[x]) by {
                    if x != b {
                        assert(ls[x] != ls[b as int]);
                        assert(ls[x] == labels@[x]@);
                    }
                }
                assert forall|x: int| 0 <= x < b + 1 && wanted@[x] implies r.at(
                    #[trigger] labels@[x]@,
                )@ == row_labels(ls, table@[x]@) && r.at(labels@[x]@).wf() by {
                    if x != b {
                        assert(ls[x] != ls[b as int]);
                        assert(ls[x] == labels@[x]@);
                        assert(old_r.has(labels@[x]@));
                    }
                }
                assert forall|m: Name| #[trigger] r.has(m) implies ls.contains(m) by {
                    if m == labels@[b as int]@ {
                        assert(ls[b as int] == m);
                    }
                }
            }
        }
        b += 1;
    }
    r
}

impl Cfg {
    /// The blocks of the graph, in program order.
    pub fn block_list(&self) -> (r: Vec<BasicBlock>)
        requires
            self.wf(),
        ensures
            blocks_view(r@) == self.blocks(),
            all_wf(r@),
    {
        let mut r: Vec<BasicBlock> = Vec::new();
        let mut j: usize = 0;
        while j < self.graph.vals.len()
            invariant
                j <= self.graph.vals.len(),
                self.wf(),
                r.len() == j,
                forall|k: int| 0 <= k < j ==> (#[trigger] r@[k])@ == self.blocks()[k],
            decreases self.graph.vals.len() - j,
        {
            r.push(self.graph.vals[j].basic_block.clone());
            j += 1;
        }
        assert(blocks_view(r@) =~= self.blocks());
        assert forall|k: int| 0 <= k < r.len() implies (#[trigger] r@[k]).wf() by {
            assert(is_block(self.blocks()[k]));
        }
        r
    }

    /// The labels of the blocks, in program order.
    pub fn labels(&self) -> (r: Vec<String>)
        requires
            self.wf(),
        ensures
            r.len() == self.graph.keys.len(),
            forall|j: int| 0 <= j < r.len() ==> (#[trigger] r@[j])@ == label_at(self.blocks(), j),
            names_of(r@).no_duplicates(),
    {
        let r = clone_names(&self.graph.keys);
        proof {
            assert forall|j: int| 0 <= j < r.len() implies (#[trigger] r@[j])@ == label_at(
                self.blocks(),
                j,
            ) by {
                assert(self.graph.keys@[j]@ == label_at(self.blocks(), j));
            }
            assert(names_of(r@) =~= names_of(self.graph.keys@));
        }
        r
    }

    /// The position of each label of `names` among the blocks.
    pub open spec fn positions(&self, names: Seq<String>) -> Seq<int> {
        Seq::new(names.len(), |k: int| self.graph.slot(names[k]@))
    }

    /// The labels of the blocks that can be reached from the entry, in reverse post-order
    /// of a search that goes depth first.
    pub fn reverse_post_order(&self) -> (r: Vec<String>)
        requires
            self.wf(),
        ensures
            forall|k: int| 0 <= k < r.len() ==> self.graph.has(#[trigger] r@[k]@),
            is_reverse_post_order(self.blocks(), self.positions(r@)),
            r.len() > 0,
            r@[0]@ == self.entry@,
    {
        let blocks = self.block_list();
        let order = reverse_post_order_of(blocks.as_slice());
        let mut r: Vec<String> = Vec::new();
        let mut k: usize = 0;
        while k < order.len()
            invariant
                k <= order.len(),
                self.wf(),
                forall|j: int| 0 <= j < order.len() ==> #[trigger] order@[j] < self.graph.keys.len(),
                r.len() == k,
                forall|j: int| 0 <= j < k ==> #[trigger] r@[j] == self.graph.keys@[order@[j] as int],
            decreases order.len() - k,
        {
            r.push(self.graph.keys[order[k]].clone());
            k += 1;
        }
        proof {
            assert forall|j: int| 0 <= j < r.len() implies self.graph.has(#[trigger] r@[j]@)
                && self.graph.slot(r@[j]@) == order@[j] by {
                self.graph.lemma_slot(order@[j] as int);
            }
            assert(self.positions(r@) =~= ints(order@));
            assert(self.graph.keys@[0]@ == label_at(self.blocks(), 0));
        }
        r
    }

    /// For every block that can be reached from the entry, the labels of the blocks that
    /// dominate it: those that every path from the entry to the block passes through.
    pub fn dominators(&self) -> (r: NameMap<NameSet>)
        requires
            self.wf(),
        ensures
            r.wf(),
            forall|b: int|
                0 <= b < self.blocks().len() ==> (r.has(#[trigger] label_at(self.blocks(), b))
                    <==> reachable(self.blocks(), b)),
            forall|m: Name| #[trigger] r.has(m) ==> self.graph.has(m),
            forall|b: int|
                0 <= b < self.blocks().len() && reachable(self.blocks(), b) ==> r.at(
                    #[trigger] label_at(self.blocks(), b),
                )@ == dominator_labels(self.blocks(), b) && r.at(label_at(self.blocks(), b)).wf(),
    {
        let blocks = self.block_list();
        let labels = self.labels();
        let table = dominator_table(blocks.as_slice());
        let ghost bv = self.blocks();
        let n = labels.len();
        let mut wanted: Vec<bool> = Vec::new();
        let mut b: usize = 0;
        while b < n
            invariant
                b <= n,
                n == table.len(),
                square(rows(table@), n as int),
                wanted.len() == b,
                forall|x: int| 0 <= x < b ==> #[trigger] wanted@[x] == table@[x]@[x],
            decreases n - b,
        {
            assert(rows(table@)[b as int] == table@[b as int]@);
            wanted.push(table[b][b]);
            b += 1;
        }
        let r = label_rows(&labels, &table, &wanted);
        proof {
            let ls = names_of(labels@);
            assert forall|x: int| 0 <= x < n implies #[trigger] ls[x] == label_at(bv, x) by {
                assert(labels@[x]@ == label_at(bv, x));
            }
            assert forall|x: int| 0 <= x < n implies (r.has(#[trigger] label_at(bv, x)) <==> reachable(
                bv,
                x,
            )) by {
                assert(r.has(labels@[x]@) <==> wanted@[x]);
                crate::dominance::lemma_dominates_basics(bv, x);
            }
            assert forall|m: Name| #[trigger] r.has(m) implies self.graph.has(m) by {
                let x = choose|x: int| 0 <= x < ls.len() && ls[x] == m;
                assert(names_of(self.graph.keys@)[x] == self.graph.keys@[x]@);
                assert(self.graph.keys@[x]@ == label_at(bv, x));
            }
            assert forall|x: int| 0 <= x < n && reachable(bv, x) implies r.at(
                #[trigger] label_at(bv, x),
            )@ == dominator_labels(bv, x) by {
                crate::dominance::lemma_dominates_basics(bv, x);
                assert(wanted@[x]);
                assert(r.at(labels@[x]@)@ == row_labels(ls, table@[x]@));
                assert forall|m: Name| row_labels(ls, table@[x]@).contains(m) implies dominator_labels(
                    bv,
                    x,
                ).contains(m) by {
                    let a = choose|a: int| 0 <= a < ls.len() && #[trigger] ls[a] == m && table@[x]@[a];
                    assert(label_at(bv, a) == m);
                }
                assert forall|m: Name| dominator_labels(bv, x).contains(m) implies row_labels(
                    ls,
                    table@[x]@,
                ).contains(m) by {
                    let a = choose|a: int|
                        0 <= a < bv.len() && #[trigger] label_at(bv, a) == m && dominates(bv, a, x);
                    assert(ls[a] == m);
                    assert(table@[x]@[a]);
                }
                assert(row_labels(ls, table@[x]@) =~= dominator_labels(bv, x));
            }
        }
        r
    }
}


impl Cfg {
    /// For every block with a frontier that is not empty, the labels of the blocks in its
    /// frontier. A block `c` lies in the frontier of `a` where a block that `a`
    /// dominates, and that can be reached, passes control to `c`, and `a` is not another
    /// block that dominates `c`.
    pub fn dominant_fronteers(&self) -> (r: NameMap<NameSet>)
        requires
            self.wf(),
        ensures
            r.wf(),
            forall|a: int|
                0 <= a < self.blocks().len() ==> (r.has(#[trigger] label_at(self.blocks(), a))
                    <==> exists|c: int| in_frontier(self.blocks(), a, c)),
            forall|m: Name| #[trigger] r.has(m) ==> self.graph.has(m),
            forall|a: int|
                0 <= a < self.blocks().len() && r.has(label_at(self.blocks(), a)) ==> r.at(
                    #[trigger] label_at(self.blocks(), a),
                )@ == frontier_labels(self.blocks(), a) && r.at(label_at(self.blocks(), a)).wf(),
    {
        let blocks = self.block_list();
        let labels = self.labels();
        let dom = dominator_table(blocks.as_slice());
        let table = frontier_table(blocks.as_slice(), &dom);
        let ghost bv = self.blocks();
        let n = labels.len();
        let mut wanted: Vec<bool> = Vec::new();
        let mut a: usize = 0;
        while a < n
            invariant
                a <= n,
                n == table.len(),
                square(rows(table@), n as int),
                wanted.len() == a,
                forall|x: int|
                    0 <= x < a ==> (#[trigger] wanted@[x] <==> exists|c: int|
                        0 <= c < n && table@[x]@[c]),
            decreases n - a,
        {
            let row = &table[a];
            assert(rows(table@)[a as int] == row@);
            let mut any = false;
            let mut c: usize = 0;
            while c < n
                invariant
                    c <= n,
                    row.len() == n,
                    any <==> exists|x: int| 0 <= x < c && row@[x],
                decreases n - c,
            {
                if row[c] {
                    any = true;
                }
                c += 1;
            }
            wanted.push(any);
            a += 1;
        }
        let r = label_rows(&labels, &table, &wanted);
        proof {
            let ls = names_of(labels@);
            assert forall|x: int| 0 <= x < n implies #[trigger] ls[x] == label_at(bv, x) by {
                assert(labels@[x]@ == label_at(bv, x));
            }
            assert forall|x: int| 0 <= x < n implies (r.has(#[trigger] label_at(bv, x)) <==> exists|
                c: int,
            | in_frontier(bv, x, c)) by {
                assert(r.has(labels@[x]@) <==> wanted@[x]);
                if wanted@[x] {
                    let c = choose|c: int| 0 <= c < n && table@[x]@[c];
                    assert(in_frontier(bv, x, c));
                }
                if exists|c: int| in_frontier(bv, x, c) {
                    let c = choose|c: int| in_frontier(bv, x, c);
                    assert(table@[x]@[c]);
                }
            }
            assert forall|m: Name| #[trigger] r.has(m) implies self.graph.has(m) by {
                let x = choose|x: int| 0 <= x < ls.len() && ls[x] == m;
                assert(names_of(self.graph.keys@)[x] == self.graph.keys@[x]@);
                assert(self.graph.keys@[x]@ == label_at(bv, x));
            }
            assert forall|x: int| 0 <= x < n && r.has(label_at(bv, x)) implies r.at(
                #[trigger] label_at(bv, x),
            )@ == frontier_labels(bv, x) by {
                assert(r.has(labels@[x]@));
                assert(wanted@[x]);
                assert(r.at(labels@[x]@)@ == row_labels(ls, table@[x]@));
                assert forall|m: Name| row_labels(ls, table@[x]@).contains(m) implies frontier_labels(
                    bv,
                    x,
                ).contains(m) by {
                    let c = choose|c: int| 0 <= c < ls.len() && #[trigger] ls[c] == m && table@[x]@[c];
                    assert(label_at(bv, c) == m);
                }
                assert forall|m: Name| frontier_labels(bv, x).contains(m) implies row_labels(
                    ls,
                    table@[x]@,
                ).contains(m) by {
                    let c = choose|c: int|
                        0 <= c < bv.len() && #[trigger] label_at(bv, c) == m && in_frontier(bv, x, c);
                    assert(ls[c] == m);
                    assert(table@[x]@[c]);
                }
                assert(row_labels(ls, table@[x]@) =~= frontier_labels(bv, x));
            }
        }
        r
    }
}


/// The variables that the instructions of a block write, in order, each as often as it
/// is written.
pub open spec fn written_in(c: Seq<InstructionView>) -> Seq<Name>
    decreases c.len(),
{
    if c.len() == 0 {
        seq![]
    } else {
        match c.last().dest {
            Some(d) => written_in(c.drop_last()).push(d),
            None => written_in(c.drop_last()),
        }
    }
}

/// The variables that the blocks write, in program order.
pub open spec fn written(blocks: Seq<Seq<InstructionView>>) -> Seq<Name>
    decreases blocks.len(),
{
    if blocks.len() == 0 {
        seq![]
    } else {
        written(blocks.drop_last()) + written_in(blocks.last())
    }
}

/// The names of a sequence, each once, in the order in which they first occur.
pub open spec fn firsts(s: Seq<Name>) -> Seq<Name>
    decreases s.len(),
{
    if s.len() == 0 {
        seq![]
    } else {
        let f = firsts(s.drop_last());
        if f.contains(s.last()) {
            f
        } else {
            f.push(s.last())
        }
    }
}

/// The variables of a program: those that some instruction writes, in the order in which
/// they are first written.
pub open spec fn variables(blocks: Seq<Seq<InstructionView>>) -> Seq<Name> {
    firsts(written(blocks))
}

/// Whether block `b` writes the variable `v`.
pub open spec fn defines(blocks: Seq<Seq<InstructionView>>, b: int, v: Name) -> bool {
    exists|k: int| 0 <= k < blocks[b].len() && (#[trigger] blocks[b][k]).dest == Some(v)
}

/// Whether `chain` leads from a block that writes `v` along the frontiers: each block on
/// it lies in the frontier of the one before.
pub open spec fn is_frontier_chain(blocks: Seq<Seq<InstructionView>>, v: Name, chain: Seq<int>) -> bool {
    &&& chain.len() >= 2
    &&& 0 <= chain[0] < blocks.len()
    &&& defines(blocks, chain[0], v)
    &&& forall|k: int|
        0 <= k < chain.len() - 1 ==> in_frontier(blocks, #[trigger] chain[k], chain[k + 1])
}

/// Whether block `f` needs a merge for `v`: it lies in the frontier of a block that
/// writes `v`, or of a block that itself needs a merge for `v`.
pub open spec fn needs_phi(blocks: Seq<Seq<InstructionView>>, v: Name, f: int) -> bool {
    exists|chain: Seq<int>| is_frontier_chain(blocks, v, chain) && #[trigger] chain.last() == f
}

/// The labels of the predecessors of block `f`, in program order.
pub open spec fn pred_names(blocks: Seq<Seq<InstructionView>>, f: int) -> Seq<Name> {
    Seq::new(preds_at(blocks, f).len(), |k: int| label_at(blocks, preds_at(blocks, f)[k]))
}

/// The merge for `v` at block `f`: one slot for each predecessor, which holds `v`.
pub open spec fn phi_for(blocks: Seq<Seq<InstructionView>>, f: int, v: Name) -> InstructionView {
    phi_line(v, Seq::new(pred_names(blocks, f).len(), |k: int| v), pred_names(blocks, f))
}

/// The merges at block `f` for those of `vars` that need one there, in order.
pub open spec fn phis_among(blocks: Seq<Seq<InstructionView>>, f: int, vars: Seq<Name>) -> Seq<
    InstructionView,
>
    decreases vars.len(),
{
    if vars.len() == 0 {
        seq![]
    } else {
        let r = phis_among(blocks, f, vars.drop_last());
        if needs_phi(blocks, vars.last(), f) {
            r.push(phi_for(blocks, f, vars.last()))
        } else {
            r
        }
    }
}

/// Block `f` with its merges put right after its label line.
pub open spec fn with_phis_at(blocks: Seq<Seq<InstructionView>>, f: int) -> Seq<InstructionView> {
    seq![blocks[f][0]] + phis_among(blocks, f, variables(blocks)) + blocks[f].skip(1)
}

/// Every block with its merges.
pub open spec fn with_phis(blocks: Seq<Seq<InstructionView>>) -> Seq<Seq<InstructionView>> {
    Seq::new(blocks.len(), |f: int| with_phis_at(blocks, f))
}

/// The frontier leads from a block that writes `v`, or needs a merge for it, to blocks
/// that need a merge for it.
pub proof fn lemma_needs_phi_step(blocks: Seq<Seq<InstructionView>>, v: Name, d: int, f: int)
    requires
        0 <= d < blocks.len(),
        defines(blocks, d, v) || needs_phi(blocks, v, d),
        in_frontier(blocks, d, f),
    ensures
        needs_phi(blocks, v, f),
{
    if defines(blocks, d, v) {
        let chain = seq![d, f];
        assert(is_frontier_chain(blocks, v, chain) && chain.last() == f);
    } else {
        let c = choose|c: Seq<int>| is_frontier_chain(blocks, v, c) && #[trigger] c.last() == d;
        let chain = c.push(f);
        assert forall|k: int| 0 <= k < chain.len() - 1 implies in_frontier(
            blocks,
            #[trigger] chain[k],
            chain[k + 1],
        ) by {
            if k < c.len() - 1 {
                assert(chain[k] == c[k]);
                assert(chain[k + 1] == c[k + 1]);
                assert(in_frontier(blocks, c[k], c[k + 1]));
            } else {
                assert(chain[k] == d);
            }
        }
        assert(chain[0] == c[0]);
        assert(is_frontier_chain(blocks, v, chain) && chain.last() == f);
    }
}

/// A set of blocks that holds the frontier of every block that writes `v`, and of each
/// of its own blocks, holds every block that needs a merge for `v`.
pub proof fn lemma_needs_phi_least(
    blocks: Seq<Seq<InstructionView>>,
    v: Name,
    placed: spec_fn(int) -> bool,
    chain: Seq<int>,
)
    requires
        is_frontier_chain(blocks, v, chain),
        forall|d: int, f: int|
            0 <= d < blocks.len() && (defines(blocks, d, v) || placed(d)) && #[trigger] in_frontier(
                blocks,
                d,
                f,
            ) ==> placed(f),
    ensures
        placed(chain.last()),
    decreases chain.len(),
{
    if chain.len() == 2 {
        assert(in_frontier(blocks, chain[0int], chain[0int + 1]));
    } else {
        let front = chain.drop_last();
        assert forall|k: int| 0 <= k < front.len() - 1 implies in_frontier(
            blocks,
            #[trigger] front[k],
            front[k + 1],
        ) by {
            assert(front[k] == chain[k]);
            assert(front[k + 1] == chain[k + 1]);
            assert(in_frontier(blocks, chain[k], chain[k + 1]));
        }
        assert(front[0] == chain[0]);
        lemma_needs_phi_least(blocks, v, placed, front);
        let k = chain.len() - 2;
        assert(in_frontier(blocks, chain[k], chain[k + 1]));
        assert(front.last() == chain[k]);
        assert(0 <= chain[k + 1] < blocks.len());
        assert(in_frontier(blocks, chain[k - 1], chain[k - 1 + 1]));
    }
}

/// Whether block `l` waits on the stack.
spec fn stacked(stack: Seq<usize>, l: int) -> bool {
    exists|k: int| 0 <= k < stack.len() && stack[k] == l
}

fn writes(block: &BasicBlock, v: &String) -> (r: bool)
    ensures
        r == (exists|k: int| 0 <= k < block@.len() && (#[trigger] block@[k]).dest == Some(v@)),
{
    let mut k: usize = 0;
    while k < block.0.len()
        invariant
            k <= block.0.len(),
            forall|i: int| 0 <= i < k ==> (#[trigger] block@[i]).dest != Some(v@),
        decreases block.0.len() - k,
    {
        assert(block@[k as int] == block.0@[k as int]@);
        match &block.0[k].dest {
            Some(d) => {
                if *d == *v {
                    return true;
                }
            },
            None => {},
        }
        k += 1;
    }
    false
}

/// The blocks that need a merge for `v`.
#[verifier::rlimit(50)]
fn phi_sites(blocks: &[BasicBlock], df: &Vec<Vec<bool>>, v: &String) -> (placed: Vec<bool>)
    requires
        square(rows(df@), blocks.len() as int),
        forall|a: int, c: int|
            0 <= a < blocks.len() && 0 <= c < blocks.len() ==> (#[trigger] df@[a]@[c] <==> in_frontier(
                blocks_view(blocks@),
                a,
                c,
            )),
    ensures
        placed.len() == blocks.len(),
        forall|f: int|
            0 <= f < blocks.len() ==> (#[trigger] placed@[f] <==> needs_phi(
                blocks_view(blocks@),
                v@,
                f,
            )),
{
    let ghost bv = blocks_view(blocks@);
    let n = blocks.len();
    let mut placed: Vec<bool> = Vec::new();
    let mut visited: Vec<bool> = Vec::new();
    let mut stack: Vec<usize> = Vec::new();
    let mut d: usize = 0;
    while d < n
        invariant
            d <= n,
            n == blocks.len(),
            bv == blocks_view(blocks@),
            placed.len() == d,
            visited.len() == d,
            forall|x: int| 0 <= x < d ==> !(#[trigger] placed@[x]),
            forall|x: int| 0 <= x < d ==> !(#[trigger] visited@[x]),
            forall|k: int| 0 <= k < stack.len() ==> #[trigger] stack@[k] < n && defines(bv, stack@[k] as int, v@),
            forall|x: int| 0 <= x < d && #[trigger] defines(bv, x, v@) ==> stacked(stack@, x),
        decreases n - d,
    {
        placed.push(false);
        visited.push(false);
        let ghost before = stack@;
        assert(bv[d as int] == blocks@[d as int]@);
        if writes(&blocks[d], v) {
            stack.push(d);
            assert(stack@[before.len() as int] == d);
        }
        proof {
            assert forall|x: int| 0 <= x < d + 1 && #[trigger] defines(bv, x, v@) implies stacked(
                stack@,
                x,
            ) by {
                if x < d {
                    assert(stacked(before, x));
                    let k = choose|k: int| 0 <= k < before.len() && before[k] == x;
                    assert(stack@[k] == x);
                } else {
                    assert(stack@[before.len() as int] == d);
                }
            }
        }
        d += 1;
    }
    while stack.len() > 0
        invariant
            n == blocks.len(),
            bv == blocks_view(blocks@),
            placed.len() == n,
            visited.len() == n,
            square(rows(df@), n as int),
            forall|a: int, c: int|
                0 <= a < n && 0 <= c < n ==> (#[trigger] df@[a]@[c] <==> in_frontier(bv, a, c)),
            forall|k: int|
                0 <= k < stack.len() ==> #[trigger] stack@[k] < n && (defines(bv, stack@[k] as int, v@)
                    || needs_phi(bv, v@, stack@[k] as int)),
            forall|f: int| 0 <= f < n && #[trigger] placed@[f] ==> needs_phi(bv, v@, f),
            forall|x: int|
                0 <= x < n && #[trigger] visited@[x] ==> defines(bv, x, v@) || needs_phi(bv, v@, x),
            forall|x: int|
                0 <= x < n && #[trigger] defines(bv, x, v@) ==> visited@[x] || stacked(stack@, x),
            forall|f: int| 0 <= f < n && #[trigger] placed@[f] ==> visited@[f] || stacked(stack@, f),
            forall|x: int, f: int|
                0 <= x < n && 0 <= f < n && visited@[x] && #[trigger] in_frontier(bv, x, f)
                    ==> placed@[f],
        decreases unset(visited@), stack.len(),
    {
        let ghost stack0 = stack@;
        let d = stack.pop().unwrap();
        proof {
            assert(stack0[stack0.len() - 1] == d);
            assert forall|x: int| stacked(stack0, x) && x != d implies stacked(stack@, x) by {
                let k = choose|k: int| 0 <= k < stack0.len() && stack0[k] == x;
                assert(stack@[k] == x);
            }
        }
        if !visited[d] {
            proof {
                crate::dominance::lemma_unset_update(visited@, d as int);
            }
            visited[d] = true;
            let row = &df[d];
            assert(rows(df@)[d as int] == row@);
            let ghost stack1 = stack@;
            let mut f: usize = 0;
            while f < n
                invariant
                    f <= n,
                    d < n,
                    n == blocks.len(),
                    bv == blocks_view(blocks@),
                    placed.len() == n,
                    row.len() == n,
                    forall|c: int| 0 <= c < n ==> (#[trigger] row@[c] <==> in_frontier(bv, d as int, c)),
                    defines(bv, d as int, v@) || needs_phi(bv, v@, d as int),
                    forall|k: int|
                        0 <= k < stack.len() ==> #[trigger] stack@[k] < n && (defines(
                            bv,
                            stack@[k] as int,
                            v@,
                        ) || needs_phi(bv, v@, stack@[k] as int)),
                    forall|x: int| 0 <= x < n && #[trigger] placed@[x] ==> needs_phi(bv, v@, x),
                    forall|x: int| stacked(stack1, x) ==> stacked(stack@, x),
                    forall|x: int|
                        0 <= x < n && #[trigger] placed@[x] ==> visited@[x] || stacked(stack@, x),
                    forall|x: int, c: int|
                        0 <= x < n && 0 <= c < n && x != d && visited@[x] && #[trigger] in_frontier(
                            bv,
                            x,
                            c,
                        ) ==> placed@[c],
                    forall|c: int| 0 <= c < f && in_frontier(bv, d as int, c) ==> #[trigger] placed@[c],
                decreases n - f,
            {
                if row[f] {
                    let ghost before = stack@;
                    let ghost placed0 = placed@;
                    proof {
                        lemma_needs_phi_step(bv, v@, d as int, f as int);
                    }
                    placed[f] = true;
                    stack.push(f);
                    proof {
                        assert(stack@[before.len() as int] == f);
                        assert forall|x: int| stacked(before, x) implies stacked(stack@, x) by {
                            let k = choose|k: int| 0 <= k < before.len() && before[k] == x;
                            assert(stack@[k] == x);
                        }
                        assert forall|x: int| 0 <= x < n && #[trigger] placed@[x] implies visited@[x]
                            || stacked(stack@, x) by {
                            if x != f {
                                assert(placed0[x]);
                            }
                        }
                    }
                }
                f += 1;
            }
        }
    }
    proof {
        let inside = |x: int| 0 <= x < n && placed@[x];
        assert forall|f: int| 0 <= f < n && needs_phi(bv, v@, f) implies #[trigger] placed@[f] by {
            let chain = choose|chain: Seq<int>|
                is_frontier_chain(bv, v@, chain) && #[trigger] chain.last() == f;
            assert forall|d: int, c: int|
                0 <= d < n && (defines(bv, d, v@) || inside(d)) && #[trigger] in_frontier(
                    bv,
                    d,
                    c,
                ) implies inside(c) by {
                if defines(bv, d, v@) {
                    assert(visited@[d] || stacked(stack@, d));
                } else {
                    assert(placed@[d]);
                    assert(visited@[d] || stacked(stack@, d));
                }
            }
            lemma_needs_phi_least(bv, v@, inside, chain);
        }
    }
    placed
}


/// A merge is neither a label line nor a jump.
pub proof fn lemma_phi_plain(dest: Name, args: Seq<Name>, labels: Seq<Name>)
    ensures
        !is_label(phi_line(dest, args, labels)),
        !is_jump(phi_line(dest, args, labels)),
{
    reveal_strlit("phi");
    reveal_strlit("jmp");
    reveal_strlit("br");
    reveal_strlit("ret");
    assert("phi"@[0] != "jmp"@[0]);
    assert("phi"@.len() != "br"@.len());
    assert("phi"@[0] != "ret"@[0]);
}

/// Every merge among those of a block is the merge for some variable.
pub proof fn lemma_phis_among(blocks: Seq<Seq<InstructionView>>, f: int, vars: Seq<Name>, i: int)
    requires
        0 <= i < phis_among(blocks, f, vars).len(),
    ensures
        exists|v: Name| phis_among(blocks, f, vars)[i] == #[trigger] phi_for(blocks, f, v),
    decreases vars.len(),
{
    if vars.len() > 0 {
        let r = phis_among(blocks, f, vars.drop_last());
        if i < r.len() {
            lemma_phis_among(blocks, f, vars.drop_last(), i);
            let v = choose|v: Name| r[i] == #[trigger] phi_for(blocks, f, v);
            assert(phis_among(blocks, f, vars)[i] == phi_for(blocks, f, v));
        } else {
            assert(phis_among(blocks, f, vars)[i] == phi_for(blocks, f, vars.last()));
        }
    }
}

/// Putting the merges in leaves a sound program sound, with the same labels and the
/// same edges.
pub proof fn lemma_with_phis(blocks: Seq<Seq<InstructionView>>)
    requires
        sound(blocks),
    ensures
        sound(with_phis(blocks)),
        forall|j: int|
            0 <= j < blocks.len() ==> #[trigger] label_at(with_phis(blocks), j) == label_at(blocks, j),
        forall|j: int|
            0 <= j < blocks.len() ==> #[trigger] targets_at(with_phis(blocks), j) == targets_at(
                blocks,
                j,
            ),
        forall|i: int, j: int|
            0 <= i < blocks.len() && 0 <= j < blocks.len() ==> (#[trigger] has_edge(
                with_phis(blocks),
                i,
                j,
            ) <==> has_edge(blocks, i, j)),
        forall|j: int|
            0 <= j < blocks.len() ==> #[trigger] pred_labels(with_phis(blocks), j) == pred_labels(
                blocks,
                j,
            ),
{
    let w = with_phis(blocks);
    let vars = variables(blocks);
    assert forall|j: int| 0 <= j < blocks.len() implies is_block(#[trigger] w[j]) && w[j].len() >= 2
        && w[j][0] == blocks[j][0] && w[j].last() == blocks[j].last() by {
        let b = blocks[j];
        let ps = phis_among(blocks, j, vars);
        let nb = w[j];
        assert(is_block(b) && b.len() >= 2);
        assert(nb == seq![b[0]] + ps + b.skip(1));
        assert(nb.len() == b.len() + ps.len());
        assert(nb.last() == b.last());
        assert forall|k: int| 0 <= k < nb.len() implies (#[trigger] nb[k]) == (if k == 0 {
            b[0]
        } else if k <= ps.len() {
            ps[k - 1]
        } else {
            b[k - ps.len()]
        }) by {}
        assert forall|k: int| 0 < k < nb.len() implies !is_label(#[trigger] nb[k]) by {
            if k <= ps.len() {
                lemma_phis_among(blocks, j, vars, k - 1);
                let v = choose|v: Name| ps[k - 1] == #[trigger] phi_for(blocks, j, v);
                lemma_phi_plain(
                    v,
                    Seq::new(pred_names(blocks, j).len(), |k: int| v),
                    pred_names(blocks, j),
                );
            } else {
                assert(!is_label(b[k - ps.len()]));
            }
        }
        assert forall|k: int| 0 <= k < nb.len() - 1 implies !ends_block(#[trigger] nb[k]) by {
            if k == 0 {
            } else if k <= ps.len() {
                lemma_phis_among(blocks, j, vars, k - 1);
                let v = choose|v: Name| ps[k - 1] == #[trigger] phi_for(blocks, j, v);
                lemma_phi_plain(
                    v,
                    Seq::new(pred_names(blocks, j).len(), |k: int| v),
                    pred_names(blocks, j),
                );
            } else {
                assert(!ends_block(b[k - ps.len()]));
            }
        }
    }
    assert forall|j: int| 0 <= j < blocks.len() implies #[trigger] label_at(w, j) == label_at(
        blocks,
        j,
    ) && #[trigger] targets_at(w, j) == targets_at(blocks, j) by {
        assert(is_block(w[j]));
    }
    assert forall|i: int, j: int| 0 <= i < blocks.len() && 0 <= j < blocks.len() implies (
    #[trigger] has_edge(w, i, j) <==> has_edge(blocks, i, j)) by {
        assert(label_at(w, j) == label_at(blocks, j));
        assert(targets_at(w, i) == targets_at(blocks, i));
    }
    assert forall|j: int| 0 <= j < blocks.len() implies #[trigger] pred_labels(w, j) == pred_labels(
        blocks,
        j,
    ) by {
        assert forall|n: Name| pred_labels(w, j).contains(n) <==> pred_labels(blocks, j).contains(
            n,
        ) by {
            if pred_labels(w, j).contains(n) {
                let i = choose|i: int|
                    0 <= i < w.len() && #[trigger] label_at(w, i) == n && has_edge(w, i, j);
                assert(has_edge(blocks, i, j));
                assert(label_at(blocks, i) == n);
            }
            if pred_labels(blocks, j).contains(n) {
                let i = choose|i: int|
                    0 <= i < blocks.len() && #[trigger] label_at(blocks, i) == n && has_edge(
                        blocks,
                        i,
                        j,
                    );
                assert(has_edge(w, i, j));
                assert(label_at(w, i) == n);
            }
        }
        assert(pred_labels(w, j) =~= pred_labels(blocks, j));
    }
    assert forall|i: int, j: int| 0 <= i < j < w.len() implies #[trigger] label_at(w, i)
        != #[trigger] label_at(w, j) by {
        assert(label_at(blocks, i) != label_at(blocks, j));
    }
    assert forall|j: int, k: int| 0 <= j < w.len() && 0 <= k < targets_at(w, j).len() implies names_label(
        w,
        #[trigger] targets_at(w, j)[k],
    ) by {
        assert(targets_at(w, j) == targets_at(blocks, j));
        assert(names_label(blocks, targets_at(blocks, j)[k]));
        let t = choose|t: int|
            0 <= t < blocks.len() && #[trigger] label_at(blocks, t) == targets_at(blocks, j)[k];
        assert(label_at(w, t) == targets_at(w, j)[k]);
    }
}

/// The variables of a program, in the order in which they are first written.
fn variables_of(blocks: &[BasicBlock]) -> (r: NameSet)
    ensures
        r.wf(),
        names_of(r.names@) == variables(blocks_view(blocks@)),
{
    let ghost bv = blocks_view(blocks@);
    let mut r = NameSet::new();
    let mut j: usize = 0;
    assert(bv.take(0) =~= seq![]);
    assert(names_of(r.names@) =~= firsts(written(bv.take(0))));
    while j < blocks.len()
        invariant
            j <= blocks.len(),
            bv == blocks_view(blocks@),
            r.wf(),
            names_of(r.names@) == firsts(written(bv.take(j as int))),
        decreases blocks.len() - j,
    {
        let block = &blocks[j];
        let ghost base = written(bv.take(j as int));
        let ghost c = bv[j as int];
        assert(c == block@);
        let mut k: usize = 0;
        assert(c.take(0) =~= seq![]);
        assert(base + written_in(c.take(0)) =~= base);
        while k < block.0.len()
            invariant
                k <= block.0.len(),
                c == block@,
                r.wf(),
                names_of(r.names@) == firsts(base + written_in(c.take(k as int))),
            decreases block.0.len() - k,
        {
            let ghost sofar = base + written_in(c.take(k as int));
            let ghost names0 = names_of(r.names@);
            proof {
                assert(c.take(k + 1).drop_last() =~= c.take(k as int));
                assert(c.take(k + 1).last() == block.0@[k as int]@);
            }
            match &block.0[k].dest {
                Some(d) => {
                    proof {
                        assert(base + written_in(c.take(k + 1)) =~= sofar.push(d@));
                        assert(sofar.push(d@).drop_last() =~= sofar);
                        assert(names0.to_set().contains(d@) <==> names0.contains(d@));
                    }
                    r.insert(d.clone());
                    assert(names_of(r.names@) =~= if names0.contains(d@) {
                        names0
                    } else {
                        names0.push(d@)
                    });
                },
                None => {},
            }
            k += 1;
        }
        proof {
            assert(c.take(block.0.len() as int) =~= c);
            assert(bv.take(j + 1).drop_last() =~= bv.take(j as int));
            assert(bv.take(j + 1).last() == c);
        }
        j += 1;
    }
    assert(bv.take(blocks.len() as int) =~= bv);
    r
}

/// The slots of a merge for `v`: under the label of each predecessor, `v` itself.
fn slots_for(labels: &Vec<String>, pred: &Vec<usize>, v: &String, Ghost(blocks): Ghost<
    Seq<Seq<InstructionView>>,
>, Ghost(f): Ghost<int>) -> (r: NameMap<String>)
    requires
        labels.len() == blocks.len(),
        forall|j: int| 0 <= j < labels.len() ==> (#[trigger] labels@[j])@ == label_at(blocks, j),
        names_of(labels@).no_duplicates(),
        ints(pred@) == preds_at(blocks, f),
    ensures
        r.wf(),
        names_of(r.keys@) == pred_names(blocks, f),
        names_of(r.vals@) == Seq::new(pred_names(blocks, f).len(), |k: int| v@),
{
    let mut r: NameMap<String> = NameMap::new();
    let mut k: usize = 0;
    proof {
        lemma_picked(blocks.len() as int, |i: int| has_edge(blocks, i, f));
    }
    let ghost ps = preds_at(blocks, f);
    while k < pred.len()
        invariant
            k <= pred.len(),
            labels.len() == blocks.len(),
            forall|j: int| 0 <= j < labels.len() ==> (#[trigger] labels@[j])@ == label_at(blocks, j),
            names_of(labels@).no_duplicates(),
            ps == preds_at(blocks, f),
            ints(pred@) == ps,
            ps.no_duplicates(),
            forall|i: int| 0 <= i < ps.len() ==> 0 <= #[trigger] ps[i] < blocks.len(),
            r.wf(),
            r.keys.len() == k,
            forall|i: int| 0 <= i < k ==> (#[trigger] r.keys@[i])@ == label_at(blocks, ps[i]),
            forall|i: int| 0 <= i < k ==> (#[trigger] r.vals@[i])@ == v@,
        decreases pred.len() - k,
    {
        let p = pred[k];
        proof {
            assert(ints(pred@)[k as int] == p);
            assert(0 <= ps[k as int] < blocks.len());
            if r.has(labels@[p as int]@) {
                r.lemma_has(labels@[p as int]@);
                let i = r.slot(labels@[p as int]@);
                assert(r.keys@[i]@ == label_at(blocks, ps[i]));
                assert(0 <= ps[i] < blocks.len());
                assert(names_of(labels@)[ps[i]] == labels@[ps[i]]@);
                assert(names_of(labels@)[p as int] == labels@[p as int]@);
                assert(ps[i] != ps[k as int]);
            }
        }
        r.insert(labels[p].clone(), v.clone());
        k += 1;
    }
    assert(names_of(r.keys@) =~= pred_names(blocks, f));
    assert(names_of(r.vals@) =~= Seq::new(pred_names(blocks, f).len(), |k: int| v@));
    r
}

impl Cfg {
    /// Puts a merge for a variable at the head of every block that needs one: a block in
    /// the frontier of a block that writes the variable, or of a block that itself needs
    /// a merge for it. The merges of a block stand right after its label line, in the
    /// order in which the variables are first written in the program; each has one slot
    /// for every predecessor of the block, which holds the variable itself.
    pub fn insert_phi(&mut self)
        requires
            old(self).wf(),
        ensures
            final(self).wf(),
            final(self).blocks() == with_phis(old(self).blocks()),
            final(self).entry == old(self).entry,
            final(self).arguments == old(self).arguments,
            final(self).graph.keys == old(self).graph.keys,
    {
        let blocks = self.block_list();
        let ghost bv = self.blocks();
        let labels = self.labels();
        let dom = dominator_table(blocks.as_slice());
        let df = frontier_table(blocks.as_slice(), &dom);
        let pred = predecessor_table(blocks.as_slice());
        let vars = variables_of(blocks.as_slice());
        let ghost vs = names_of(vars.names@);
        let n = blocks.len();
        let mut phis: Vec<NameMap<NameMap<String>>> = Vec::new();
        let mut f: usize = 0;
        while f < n
            invariant
                f <= n,
                phis.len() == f,
                forall|x: int|
                    0 <= x < f ==> (#[trigger] phis@[x]).wf() && phis@[x].keys.len() == 0 && phis@[x].vals.len()
                        == 0,
            decreases n - f,
        {
            phis.push(NameMap::new());
            f += 1;
        }
        let mut i: usize = 0;
        proof {
            assert(vs.take(0) =~= seq![]);
            assert forall|x: int| 0 <= x < n implies phi_lines(#[trigger] phis@[x]) == phis_among(
                bv,
                x,
                vs.take(0),
            ) by {
                assert(phi_lines(phis@[x]) =~= seq![]);
            }
        }
        while i < vars.names.len()
            invariant
                i <= vars.names.len(),
                n == blocks.len(),
                bv == blocks_view(blocks@),
                all_wf(blocks@),
                vs == names_of(vars.names@),
                vs.no_duplicates(),
                labels.len() == n,
                forall|j: int| 0 <= j < labels.len() ==> (#[trigger] labels@[j])@ == label_at(bv, j),
                names_of(labels@).no_duplicates(),
                pred.len() == n,
                forall|j: int| 0 <= j < n ==> ints(#[trigger] pred@[j]@) == preds_at(bv, j),
                square(rows(df@), n as int),
                forall|a: int, c: int|
                    0 <= a < n && 0 <= c < n ==> (#[trigger] df@[a]@[c] <==> in_frontier(bv, a, c)),
                phis.len() == n,
                forall|x: int| 0 <= x < n ==> (#[trigger] phis@[x]).wf(),
                forall|x: int|
                    0 <= x < n ==> phi_lines(#[trigger] phis@[x]) == phis_among(bv, x, vs.take(i as int)),
                forall|x: int, m: Name|
                    0 <= x < n && (#[trigger] phis@[x]).has(m) ==> #[trigger] vs.take(i as int).contains(m),
            decreases vars.names.len() - i,
        {
            let v = &vars.names[i];
            assert(vs[i as int] == v@);
            let sites = phi_sites(blocks.as_slice(), &df, v);
            let ghost phis0 = phis@;
            let mut f: usize = 0;
            proof {
                assert(vs.take(i + 1).drop_last() =~= vs.take(i as int));
                assert(vs.take(i + 1).last() == v@);
                assert forall|m: Name| vs.take(i as int).contains(m) implies m != v@ && vs.take(
                    i + 1,
                ).contains(m) by {
                    let k = choose|k: int| 0 <= k < i && vs.take(i as int)[k] == m;
                    assert(vs[k] == m);
                    assert(vs.take(i + 1)[k] == m);
                }
            }
            while f < n
                invariant
                    f <= n,
                    i < vars.names.len(),
                    n == blocks.len(),
                    bv == blocks_view(blocks@),
                    vs == names_of(vars.names@),
                    v == &vars.names@[i as int],
                    labels.len() == n,
                    forall|j: int| 0 <= j < labels.len() ==> (#[trigger] labels@[j])@ == label_at(bv, j),
                    names_of(labels@).no_duplicates(),
                    pred.len() == n,
                    forall|j: int| 0 <= j < n ==> ints(#[trigger] pred@[j]@) == preds_at(bv, j),
                    sites.len() == n,
                    forall|x: int| 0 <= x < n ==> (#[trigger] sites@[x] <==> needs_phi(bv, v@, x)),
                    phis.len() == n,
                    phis0.len() == n,
                    forall|x: int| f <= x < n ==> #[trigger] phis@[x] == phis0[x],
                    forall|x: int| 0 <= x < n ==> (#[trigger] phis0[x]).wf(),
                    forall|x: int|
                        0 <= x < n ==> phi_lines(#[trigger] phis0[x]) == phis_among(
                            bv,
                            x,
                            vs.take(i as int),
                        ),
                    forall|x: int, m: Name|
                        0 <= x < n && (#[trigger] phis0[x]).has(m) ==> #[trigger] vs.take(
                            i as int,
                        ).contains(m),
                    forall|m: Name| vs.take(i as int).contains(m) ==> m != v@ && vs.take(i + 1).contains(m),
                    vs.take(i + 1).drop_last() == vs.take(i as int),
                    vs.take(i + 1).last() == v@,
                    forall|x: int| 0 <= x < n ==> (#[trigger] phis@[x]).wf(),
                    forall|x: int|
                        0 <= x < f ==> phi_lines(#[trigger] phis@[x]) == phis_among(bv, x, vs.take(i + 1)),
                    forall|x: int, m: Name|
                        0 <= x < f && (#[trigger] phis@[x]).has(m) ==> #[trigger] vs.take(i + 1).contains(m),
                decreases n - f,
            {
                let ghost here = phis@[f as int];
                assert(here == phis0[f as int]);
                if sites[f] {
                    let aliases = slots_for(&labels, &pred[f], v, Ghost(bv), Ghost(f as int));
                    proof {
                        if here.has(v@) {
                            assert(vs.take(i as int).contains(v@));
                        }
                    }
                    phis[f].insert(v.clone(), aliases);
                    proof {
                        let now = phis@[f as int];
                        assert(phi_lines(now) =~= phi_lines(here).push(phi_for(bv, f as int, v@))) by {
                            assert(now.keys@ == here.keys@.push(*v));
                            assert(now.vals@ == here.vals@.push(aliases));
                        }
                        assert forall|m: Name| now.has(m) implies #[trigger] vs.take(i + 1).contains(m) by {
                            if m == v@ {
                                assert(vs.take(i + 1)[i as int] == v@);
                            } else {
                                assert(here.has(m));
                                assert(vs.take(i as int).contains(m));
                            }
                        }
                    }
                } else {
                    proof {
                        assert forall|m: Name| here.has(m) implies #[trigger] vs.take(i + 1).contains(m) by {
                            assert(vs.take(i as int).contains(m));
                        }
                    }
                }
                f += 1;
            }
            i += 1;
        }
        assert(vs.take(vars.names.len() as int) =~= vs);
        let mut f: usize = 0;
        let ghost old_graph = self.graph;
        while f < n
            invariant
                f <= n,
                n == self.graph.vals.len(),
                n == old_graph.vals.len(),
                bv == old(self).blocks(),
                self.entry == old(self).entry,
                self.arguments == old(self).arguments,
                self.graph.keys == old_graph.keys,
                old_graph == old(self).graph,
                old(self).wf(),
                phis.len() == n,
                forall|x: int| 0 <= x < n ==> (#[trigger] phis@[x]).wf(),
                forall|x: int| 0 <= x < n ==> phi_lines(#[trigger] phis@[x]) == phis_among(bv, x, vs),
                vs == variables(bv),
                forall|x: int|
                    0 <= x < n ==> (#[trigger] self.graph.vals@[x]).successors == old_graph.vals@[x].successors
                        && self.graph.vals@[x].predesessors == old_graph.vals@[x].predesessors,
                forall|x: int| f <= x < n ==> (#[trigger] self.graph.vals@[x]) == old_graph.vals@[x],
                forall|x: int|
                    0 <= x < f ==> (#[trigger] self.graph.vals@[x]).basic_block@ == with_phis_at(bv, x),
            decreases n - f,
        {
            proof {
                assert(self.graph.vals@[f as int] == old_graph.vals@[f as int]);
                assert(bv[f as int] == old_graph.vals@[f as int].basic_block@);
                assert(is_block(bv[f as int]));
            }
            self.graph.vals[f].basic_block.insert_phi(&phis[f]);
            f += 1;
        }
        proof {
            assert(self.blocks() =~= with_phis(bv));
            lemma_with_phis(bv);
            assert forall|j: int| 0 <= j < self.graph.keys.len() implies (
            #[trigger] self.graph.keys@[j])@ == label_at(self.blocks(), j) by {
                assert(old_graph.keys@[j]@ == label_at(bv, j));
                assert(label_at(with_phis(bv), j) == label_at(bv, j));
            }
            assert forall|j: int| 0 <= j < self.graph.keys.len() implies {
                let e = #[trigger] self.graph.vals@[j];
                &&& e.successors@ == targets_at(self.blocks(), j).to_set()
                &&& e.predesessors@ == pred_labels(self.blocks(), j)
                &&& e.successors.wf()
                &&& e.predesessors.wf()
            } by {
                let e0 = old_graph.vals@[j];
                assert(e0.successors@ == targets_at(bv, j).to_set());
                assert(targets_at(with_phis(bv), j) == targets_at(bv, j));
                assert(pred_labels(with_phis(bv), j) == pred_labels(bv, j));
            }
            assert(self.entry@ == label_at(self.blocks(), 0)) by {
                assert(label_at(with_phis(bv), 0) == label_at(bv, 0));
            }
        }
    }
}


/// The tables of a graph hold exactly the edges that the terminators give. A label among
/// the successors of a block is named by the block's terminator and is the label of a
/// block of the graph, which lists the first block among its predecessors; and a label
/// among the predecessors of a block is the label of a block whose terminator names it.
pub proof fn lemma_edges_consistent(cfg: Cfg, a: int, b: Name)
    requires
        cfg.wf(),
        0 <= a < cfg.graph.keys.len(),
    ensures
        cfg.graph.vals@[a].successors@.contains(b) ==> targets_at(cfg.blocks(), a).contains(b)
            && cfg.graph.has(b) && cfg.graph.at(b).predesessors@.contains(cfg.graph.keys@[a]@),
        cfg.graph.vals@[a].predesessors@.contains(b) ==> cfg.graph.has(b) && cfg.graph.at(
            b,
        ).successors@.contains(cfg.graph.keys@[a]@) && targets_at(
            cfg.blocks(),
            cfg.graph.slot(b),
        ).contains(cfg.graph.keys@[a]@),
{
    let blocks = cfg.blocks();
    let e = cfg.graph.vals@[a];
    assert(cfg.graph.keys@[a]@ == label_at(blocks, a));
    if e.successors@.contains(b) {
        let ts = targets_at(blocks, a);
        assert(ts.contains(b));
        let k = choose|k: int| 0 <= k < ts.len() && ts[k] == b;
        assert(names_label(blocks, ts[k]));
        let t = choose|t: int| 0 <= t < blocks.len() && #[trigger] label_at(blocks, t) == b;
        assert(cfg.graph.keys@[t]@ == b);
        cfg.graph.lemma_slot(t);
        assert(has_edge(blocks, a, t));
        assert(cfg.graph.vals@[t].predesessors@ == pred_labels(blocks, t));
        assert(pred_labels(blocks, t).contains(label_at(blocks, a)));
    }
    if e.predesessors@.contains(b) {
        assert(pred_labels(blocks, a).contains(b));
        let i = choose|i: int|
            0 <= i < blocks.len() && #[trigger] label_at(blocks, i) == b && has_edge(blocks, i, a);
        assert(cfg.graph.keys@[i]@ == b);
        cfg.graph.lemma_slot(i);
        assert(cfg.graph.vals@[i].successors@ == targets_at(blocks, i).to_set());
        assert(targets_at(blocks, i).contains(label_at(blocks, a)));
    }
}

} // verus!
