use vstd::prelude::*;
use crate::basic_block::{blocks_of, blocks_view, BasicBlock};
use crate::graph::{label_at, targets_at};
use crate::ir::{code_of, Bril, Function, InstructionView};
use crate::text::{names_of, Name};

verus! {

/// The line that declares the node `label`.
pub open spec fn node_line(label: Name) -> Seq<char> {
    "  "@ + label + ";\n"@
}

/// The line that declares the edge from `from` to `to`.
pub open spec fn edge_line(from: Name, to: Name) -> Seq<char> {
    "  "@ + from + " -> "@ + to + ";\n"@
}

/// The node lines of the first `n` blocks.
pub open spec fn node_lines(blocks: Seq<Seq<InstructionView>>, n: int) -> Seq<char>
    decreases n,
{
    if n <= 0 {
        seq![]
    } else {
        node_lines(blocks, n - 1) + node_line(label_at(blocks, n - 1))
    }
}

/// The edge lines from `from` to the first `n` of `targets`.
pub open spec fn edges_from(from: Name, targets: Seq<Name>, n: int) -> Seq<char>
    decreases n,
{
    if n <= 0 {
        seq![]
    } else {
        edges_from(from, targets, n - 1) + edge_line(from, targets[n - 1])
    }
}

/// The edge lines of the first `n` blocks.
pub open spec fn edge_lines(blocks: Seq<Seq<InstructionView>>, n: int) -> Seq<char>
    decreases n,
{
    if n <= 0 {
        seq![]
    } else {
        edge_lines(blocks, n - 1) + edges_from(
            label_at(blocks, n - 1),
            targets_at(blocks, n - 1),
            targets_at(blocks, n - 1).len() as int,
        )
    }
}

/// The graph of a function in the dot language: a node for every block, then an edge
/// for every label that a terminator names.
pub open spec fn dot_function(name: Name, blocks: Seq<Seq<InstructionView>>) -> Seq<char> {
    "digraph "@ + name + " {\n"@ + node_lines(blocks, blocks.len() as int) + edge_lines(
        blocks,
        blocks.len() as int,
    ) + "}\n"@
}

/// The graphs of the first `n` functions, one after the other.
pub open spec fn dot_text(functions: Seq<Function>, n: int) -> Seq<char>
    decreases n,
{
    if n <= 0 {
        seq![]
    } else {
        dot_text(functions, n - 1) + dot_function(
            functions[n - 1].name@,
            blocks_of(code_of(functions[n - 1].instrs@)),
        )
    }
}

fn dot_of(dot: &mut String, name: &String, blocks: &Vec<BasicBlock>)
    requires
        forall|j: int| 0 <= j < blocks.len() ==> (#[trigger] blocks@[j]).wf(),
    ensures
        final(dot)@ == old(dot)@ + dot_function(name@, blocks_view(blocks@)),
{
    let ghost bv = blocks_view(blocks@);
    let ghost start = dot@;
    dot.append("digraph ");
    dot.append(name.as_str());
    dot.append(" {\n");
    let ghost head = dot@;
    let mut j: usize = 0;
    assert(dot@ =~= head + node_lines(bv, 0));
    while j < blocks.len()
        invariant
            j <= blocks.len(),
            bv == blocks_view(blocks@),
            forall|k: int| 0 <= k < blocks.len() ==> (#[trigger] blocks@[k]).wf(),
            dot@ == head + node_lines(bv, j as int),
        decreases blocks.len() - j,
    {
        let ghost before = dot@;
        assert(blocks@[j as int].wf());
        assert(blocks@[j as int].0@[0]@ == bv[j as int][0]);
        match &blocks[j].0[0].label {
            Some(label) => {
                dot.append("  ");
                dot.append(label.as_str());
                dot.append(";\n");
                assert(dot@ =~= before + node_line(label_at(bv, j as int)));
            },
            None => {},
        }
        assert(dot@ =~= head + node_lines(bv, j + 1));
        j += 1;
    }
    let ghost nodes = dot@;
    let mut j: usize = 0;
    assert(dot@ =~= nodes + edge_lines(bv, 0));
    while j < blocks.len()
        invariant
            j <= blocks.len(),
            bv == blocks_view(blocks@),
            forall|k: int| 0 <= k < blocks.len() ==> (#[trigger] blocks@[k]).wf(),
            dot@ == nodes + edge_lines(bv, j as int),
        decreases blocks.len() - j,
    {
        let ghost before = dot@;
        assert(blocks@[j as int].wf());
        let block = &blocks[j];
        assert(block.0@[0]@ == bv[j as int][0]);
        let last = &block.0[block.0.len() - 1];
        assert(last@ == bv[j as int].last());
        match (&block.0[0].label, &last.labels) {
            (Some(from), Some(labels)) => {
                let ghost targets = names_of(labels@);
                assert(targets == targets_at(bv, j as int));
                let mut k: usize = 0;
                assert(dot@ =~= before + edges_from(from@, targets, 0));
                while k < labels.len()
                    invariant
                        k <= labels.len(),
                        targets == names_of(labels@),
                        dot@ == before + edges_from(from@, targets, k as int),
                    decreases labels.len() - k,
                {
                    let ghost prior = dot@;
                    assert(targets[k as int] == labels@[k as int]@);
                    dot.append("  ");
                    dot.append(from.as_str());
                    dot.append(" -> ");
                    dot.append(labels[k].as_str());
                    dot.append(";\n");
                    assert(dot@ =~= prior + edge_line(from@, targets[k as int]));
                    assert(dot@ =~= before + edges_from(from@, targets, k + 1));
                    k += 1;
                }
            },
            _ => {
                assert(targets_at(bv, j as int).len() == 0);
                assert(dot@ =~= before + edges_from(label_at(bv, j as int), targets_at(bv, j as int), 0));
            },
        }
        assert(dot@ =~= nodes + edge_lines(bv, j + 1));
        j += 1;
    }
    dot.append("}\n");
    assert(dot@ =~= start + dot_function(name@, bv));
}

/// The control-flow graphs of the functions of a program, in the dot language.
pub fn dot(bril: &Bril) -> (r: String)
    ensures
        r@ == dot_text(bril.functions@, bril.functions.len() as int),
{
    let mut dot = String::new();
    let mut i: usize = 0;
    assert(dot@ =~= dot_text(bril.functions@, 0));
    while i < bril.functions.len()
        invariant
            i <= bril.functions.len(),
            dot@ == dot_text(bril.functions@, i as int),
        decreases bril.functions.len() - i,
    {
        let function = &bril.functions[i];
        let basic_blocks = BasicBlock::new_blocks(function.instrs.as_slice());
        dot_of(&mut dot, &function.name, &basic_blocks);
        i += 1;
    }
    dot
}

} // verus!
