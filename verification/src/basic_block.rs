use vstd::prelude::*;
use crate::ir::{
    chunks_of, clone_code, code_of, jump_line, label_line, phi_line, return_line, Instruction,
    InstructionView,
};
use crate::names::{NameMap, NameSet};
use crate::text::{
    clone_names, holds_text, lemma_numbered_injective, names_of, numbered, numbered_name, Name,
};

verus! {

/// A line that opens a block.
pub open spec fn is_label(i: InstructionView) -> bool {
    i.label is Some
}

/// An operation that transfers control: `jmp`, `br` or `ret`.
pub open spec fn is_jump(i: InstructionView) -> bool {
    i.op == Some("jmp"@) || i.op == Some("br"@) || i.op == Some("ret"@)
}

/// A terminator: a jump that is not itself a label line.
pub open spec fn ends_block(i: InstructionView) -> bool {
    !is_label(i) && is_jump(i)
}

/// Whether a new block starts at position `i` of `s`: at a label line, and after a
/// terminator.
pub open spec fn starts_block(s: Seq<InstructionView>, i: int) -> bool {
    is_label(s[i]) || (i > 0 && ends_block(s[i - 1]))
}

/// The instructions of `s` cut into blocks: a cut stands before every position at which a
/// block starts, and nowhere else.
pub open spec fn partitioned(s: Seq<InstructionView>) -> Seq<Seq<InstructionView>>
    decreases s.len(),
{
    if s.len() == 0 {
        seq![]
    } else {
        let p = partitioned(s.drop_last());
        if p.len() == 0 || starts_block(s, s.len() - 1) {
            p.push(seq![s.last()])
        } else {
            p.drop_last().push(p.last().push(s.last()))
        }
    }
}

/// The blocks of `b` one after the other.
pub open spec fn flat(b: Seq<Seq<InstructionView>>) -> Seq<InstructionView>
    decreases b.len(),
{
    if b.len() == 0 {
        seq![]
    } else {
        flat(b.drop_last()) + b.last()
    }
}

/// Where block `j` of `b` begins in `flat(b)`.
pub open spec fn offset(b: Seq<Seq<InstructionView>>, j: int) -> int
    decreases j,
{
    if j <= 0 {
        0
    } else {
        offset(b, j - 1) + b[j - 1].len()
    }
}

/// A block as the partitioner leaves it: not empty, with no label line after its first
/// position and no terminator before its last.
pub open spec fn is_chunk(c: Seq<InstructionView>) -> bool {
    &&& c.len() > 0
    &&& forall|k: int| 0 < k < c.len() ==> !is_label(#[trigger] c[k])
    &&& forall|k: int| 0 <= k < c.len() - 1 ==> !ends_block(#[trigger] c[k])
}

/// What partitioning gives: the blocks in order make up the input, each is a chunk, and
/// each but the first starts where a block must start.
pub proof fn lemma_partitioned(s: Seq<InstructionView>)
    ensures
        flat(partitioned(s)) == s,
        s.len() > 0 ==> partitioned(s).len() > 0,
        forall|j: int| 0 <= j < partitioned(s).len() ==> is_chunk(#[trigger] partitioned(s)[j]),
        forall|j: int|
            0 < j < partitioned(s).len() ==> is_label(#[trigger] partitioned(s)[j][0])
                || ends_block(partitioned(s)[j - 1].last()),
        s.len() > 0 ==> partitioned(s).last().last() == s.last(),
    decreases s.len(),
{
    if s.len() > 0 {
        let t = s.drop_last();
        let p = partitioned(t);
        let q = partitioned(s);
        lemma_partitioned(t);
        if p.len() == 0 || starts_block(s, s.len() - 1) {
            assert(q.drop_last() =~= p);
            assert(flat(q) =~= s);
            if p.len() > 0 {
                assert(t.len() > 0);
                assert(p.last().last() == t.last());
                assert(t.last() == s[s.len() - 2]);
            }
            assert forall|j: int| 0 <= j < q.len() implies is_chunk(#[trigger] q[j]) by {
                if j < p.len() {
                    assert(q[j] == p[j]);
                }
            }
            assert forall|j: int| 0 < j < q.len() implies is_label(#[trigger] q[j][0])
                || ends_block(q[j - 1].last()) by {
                if j < p.len() {
                    assert(q[j] == p[j]);
                    assert(q[j - 1] == p[j - 1]);
                }
            }
        } else {
            assert(t.len() > 0);
            let last = p.last().push(s.last());
            assert(q.drop_last() =~= p.drop_last());
            assert(flat(p) == flat(p.drop_last()) + p.last());
            assert(q.last() == last);
            assert(s =~= t.push(s.last()));
            assert(flat(q) =~= s);
            assert(p.last().last() == t.last());
            assert(t.last() == s[s.len() - 2]);
            assert(is_chunk(p.last()));
            assert(is_chunk(last)) by {
                assert forall|k: int| 0 < k < last.len() implies !is_label(#[trigger] last[k]) by {
                    if k < p.last().len() {
                        assert(last[k] == p.last()[k]);
                    }
                }
                assert forall|k: int| 0 <= k < last.len() - 1 implies !ends_block(
                    #[trigger] last[k],
                ) by {
                    assert(last[k] == p.last()[k]);
                    if k < p.last().len() - 1 {
                    } else {
                        assert(p.last()[k] == p.last().last());
                    }
                }
            }
            assert forall|j: int| 0 <= j < q.len() implies is_chunk(#[trigger] q[j]) by {
                if j < p.len() - 1 {
                    assert(q[j] == p[j]);
                }
            }
            assert forall|j: int| 0 < j < q.len() implies is_label(#[trigger] q[j][0])
                || ends_block(q[j - 1].last()) by {
                assert(q[j - 1] == p[j - 1]);
                if j < p.len() - 1 {
                    assert(q[j] == p[j]);
                } else {
                    assert(q[j][0] == p[j][0]);
                }
            }
        }
    }
}

/// The blocks done so far, and the one still open where it holds anything.
pub open spec fn with_open(
    done: Seq<Seq<InstructionView>>,
    open: Seq<InstructionView>,
) -> Seq<Seq<InstructionView>> {
    if open.len() == 0 {
        done
    } else {
        done.push(open)
    }
}

/// Whether the instruction is a jump, by its opcode.
pub fn jumps(i: &Instruction) -> (r: bool)
    ensures
        r == is_jump(i@),
{
    holds_text(&i.op, "jmp") || holds_text(&i.op, "br") || holds_text(&i.op, "ret")
}

/// Cuts a function's instructions into blocks. A block starts at every label line and
/// after every terminator; nothing is added or left out.
pub fn partition(instrs: &[Instruction]) -> (blocks: Vec<Vec<Instruction>>)
    ensures
        chunks_of(blocks@) == partitioned(code_of(instrs@)),
{
    let mut blocks: Vec<Vec<Instruction>> = Vec::new();
    let mut block: Vec<Instruction> = Vec::new();
    let mut i: usize = 0;
    let ghost s = code_of(instrs@);
    assert(s.take(0) =~= seq![]);
    assert(chunks_of(blocks@) =~= seq![]);
    while i < instrs.len()
        invariant
            i <= instrs.len(),
            s == code_of(instrs@),
            with_open(chunks_of(blocks@), code_of(block@)) == partitioned(s.take(i as int)),
            block.len() == 0 ==> i == 0 || ends_block(s[i - 1]),
            block.len() > 0 ==> i > 0 && !ends_block(s[i - 1]),
        decreases instrs.len() - i,
    {
        let ghost done = chunks_of(blocks@);
        let ghost open = code_of(block@);
        let ghost t = s.take(i + 1);
        let ghost p = partitioned(s.take(i as int));
        let instr = instrs[i].clone();
        proof {
            assert(t.drop_last() =~= s.take(i as int));
            assert(t.last() == s[i as int]);
            assert(instr@ == s[i as int]);
            if i > 0 {
                assert(t[i - 1] == s[i - 1]);
            }
            if p.len() == 0 {
                assert(open.len() == 0);
                if i > 0 {
                    lemma_partitioned(s.take(i as int));
                }
            }
        }
        if instr.label.is_some() {
            if block.len() > 0 {
                blocks.push(block);
                assert(chunks_of(blocks@) =~= done.push(open));
            }
            block = Vec::new();
            block.push(instr);
            assert(code_of(block@) =~= seq![s[i as int]]);
            assert(is_label(t[i as int]));
            assert(partitioned(t) == p.push(seq![s[i as int]]));
            assert(with_open(chunks_of(blocks@), code_of(block@)) == partitioned(t));
        } else if jumps(&instr) {
            block.push(instr);
            assert(code_of(block@) =~= open.push(s[i as int]));
            blocks.push(block);
            assert(chunks_of(blocks@) =~= done.push(open.push(s[i as int])));
            block = Vec::new();
            assert(code_of(block@) =~= seq![]);
            proof {
                if open.len() > 0 {
                    assert(p.drop_last() =~= done);
                    assert(p.last() == open);
                    assert(!starts_block(t, i as int));
                } else {
                    assert(open.push(s[i as int]) =~= seq![s[i as int]]);
                    assert(p.len() == 0 || starts_block(t, i as int));
                }
                assert(with_open(chunks_of(blocks@), code_of(block@)) == partitioned(t));
            }
        } else {
            block.push(instr);
            assert(code_of(block@) =~= open.push(s[i as int]));
            proof {
                if open.len() > 0 {
                    assert(p.drop_last() =~= done);
                    assert(p.last() == open);
                    assert(!starts_block(t, i as int));
                } else {
                    assert(open.push(s[i as int]) =~= seq![s[i as int]]);
                    assert(p.len() == 0 || starts_block(t, i as int));
                }
                assert(with_open(chunks_of(blocks@), code_of(block@)) == partitioned(t));
            }
        }
        i += 1;
    }
    assert(s.take(instrs.len() as int) =~= s);
    if block.len() > 0 {
        let ghost done = chunks_of(blocks@);
        let ghost open = code_of(block@);
        blocks.push(block);
        assert(chunks_of(blocks@) =~= done.push(open));
    }
    blocks
}


/// Whether `n` is `prefix` followed by a number that is at least `from`.
pub open spec fn hits(n: Name, prefix: Name, from: nat) -> bool {
    exists|k: nat| from <= k && n == #[trigger] numbered(prefix, k)
}

/// How many entries of `names` are `prefix` followed by a number that is at least `from`.
pub open spec fn ahead(names: Seq<Name>, prefix: Name, from: nat) -> nat
    decreases names.len(),
{
    if names.len() == 0 {
        0
    } else {
        ahead(names.drop_last(), prefix, from) + if hits(names.last(), prefix, from) {
            1nat
        } else {
            0nat
        }
    }
}

/// Raising the bound never raises the count, and lowers it where the bound's own name is
/// listed.
pub proof fn lemma_ahead_step(names: Seq<Name>, prefix: Name, from: nat)
    ensures
        ahead(names, prefix, from + 1) <= ahead(names, prefix, from),
        ahead(names, prefix, from) <= names.len(),
        names.contains(numbered(prefix, from)) ==> ahead(names, prefix, from + 1) < ahead(
            names,
            prefix,
            from,
        ),
    decreases names.len(),
{
    if names.len() > 0 {
        let rest = names.drop_last();
        lemma_ahead_step(rest, prefix, from);
        if hits(names.last(), prefix, from + 1) {
            let k = choose|k: nat| from + 1 <= k && names.last() == #[trigger] numbered(prefix, k);
            assert(from <= k && names.last() == numbered(prefix, k));
        }
        if names.contains(numbered(prefix, from)) {
            let i = choose|i: int| 0 <= i < names.len() && names[i] == numbered(prefix, from);
            if i == names.len() - 1 {
                assert(hits(names.last(), prefix, from));
                if hits(names.last(), prefix, from + 1) {
                    let k = choose|k: nat|
                        from + 1 <= k && names.last() == #[trigger] numbered(prefix, k);
                    lemma_numbered_injective(prefix, k, from);
                }
            } else {
                assert(rest[i] == numbered(prefix, from));
            }
        }
    }
}

/// Whether `k` is the first number from `from` on whose name under `prefix` is not banned.
pub open spec fn is_next_free(banned: Set<Name>, prefix: Name, from: nat, k: nat) -> bool {
    &&& from <= k
    &&& !banned.contains(numbered(prefix, k))
    &&& forall|j: nat| from <= j < k ==> banned.contains(#[trigger] numbered(prefix, j))
}

/// The first number from `from` on whose name under `prefix` is not banned.
pub open spec fn next_free(banned: Set<Name>, prefix: Name, from: nat) -> nat {
    choose|k: nat| is_next_free(banned, prefix, from, k)
}

/// Among finitely many banned names there is a first free number, and only one.
pub proof fn lemma_next_free(names: Seq<Name>, prefix: Name, from: nat)
    ensures
        is_next_free(names.to_set(), prefix, from, next_free(names.to_set(), prefix, from)),
        forall|k: nat|
            is_next_free(names.to_set(), prefix, from, k) ==> k == next_free(
                names.to_set(),
                prefix,
                from,
            ),
    decreases ahead(names, prefix, from),
{
    let banned = names.to_set();
    if !banned.contains(numbered(prefix, from)) {
        assert(is_next_free(banned, prefix, from, from));
    } else {
        lemma_ahead_step(names, prefix, from);
        lemma_next_free(names, prefix, from + 1);
        let k = next_free(banned, prefix, from + 1);
        assert forall|j: nat| from <= j < k implies banned.contains(
            #[trigger] numbered(prefix, j),
        ) by {
            if j > from {
                assert(from + 1 <= j);
            }
        }
        assert(is_next_free(banned, prefix, from, k));
    }
    let n = next_free(banned, prefix, from);
    assert forall|k: nat| is_next_free(banned, prefix, from, k) implies k == n by {
        if k < n {
            assert(banned.contains(numbered(prefix, k)));
        } else if n < k {
            assert(banned.contains(numbered(prefix, n)));
        }
    }
}

/// Hands out fresh block labels: a prefix followed by a number, never a banned name and
/// never the same name twice.
pub struct Labeler {
    pub banned: NameSet,
    pub counters: NameMap<usize>,
}

impl Labeler {
    /// Both collections are well formed.
    pub open spec fn wf(&self) -> bool {
        self.banned.wf() && self.counters.wf()
    }

    /// The next number to try under `prefix`.
    pub open spec fn counter(&self, prefix: Name) -> nat {
        if self.counters.has(prefix) {
            self.counters.at(prefix) as nat
        } else {
            0
        }
    }

    /// How many banned names still lie at or beyond the counter of `prefix`.
    pub open spec fn pending(&self, prefix: Name) -> nat {
        ahead(names_of(self.banned.names@), prefix, self.counter(prefix))
    }

    /// A labeler that bans the labels at the heads of the given blocks.
    pub fn new(partitioned: &Vec<Vec<Instruction>>) -> (r: Self)
        requires
            forall|j: int| 0 <= j < partitioned.len() ==> #[trigger] partitioned@[j].len() > 0,
        ensures
            r.wf(),
            r.banned@ == head_labels(chunks_of(partitioned@)),
            forall|p: Name| r.counter(p) == 0,
            r.banned.names.len() <= labelled_count(chunks_of(partitioned@)),
    {
        let mut banned = NameSet::new();
        let mut j: usize = 0;
        let ghost c = chunks_of(partitioned@);
        assert(c.take(0) =~= seq![]);
        assert(head_labels(c.take(0)) =~= Set::<Name>::empty());
        while j < partitioned.len()
            invariant
                j <= partitioned.len(),
                c == chunks_of(partitioned@),
                forall|k: int| 0 <= k < partitioned.len() ==> #[trigger] partitioned@[k].len() > 0,
                banned.wf(),
                banned@ == head_labels(c.take(j as int)),
                banned.names.len() <= labelled_count(c.take(j as int)),
            decreases partitioned.len() - j,
        {
            let ghost before = c.take(j as int);
            let ghost after = c.take(j + 1);
            assert(partitioned@[j as int].len() > 0);
            proof {
                assert(after.drop_last() =~= before);
                assert(after.last() == c[j as int]);
                assert(c[j as int][0] == partitioned@[j as int]@[0]@);
                lemma_head_labels_push(before, c[j as int]);
                assert(after =~= before.push(c[j as int]));
            }
            match &partitioned[j][0].label {
                Some(l) => {
                    banned.insert(l.clone());
                },
                None => {},
            }
            j += 1;
        }
        assert(c.take(partitioned.len() as int) =~= c);
        Labeler { banned, counters: NameMap::new() }
    }

    /// The next free name under `prefix`: the prefix followed by the first number, from
    /// the prefix's counter on, that gives no banned name. The counter moves past it.
    pub fn label(&mut self, prefix: &str) -> (r: String)
        requires
            old(self).wf(),
            old(self).counter(prefix@) + old(self).pending(prefix@) < usize::MAX,
        ensures
            final(self).wf(),
            final(self).banned == old(self).banned,
            final(self).counter(prefix@) >= 1,
            is_next_free(
                old(self).banned@,
                prefix@,
                old(self).counter(prefix@),
                (final(self).counter(prefix@) - 1) as nat,
            ),
            r@ == numbered(prefix@, (final(self).counter(prefix@) - 1) as nat),
            forall|p: Name| p != prefix@ ==> final(self).counter(p) == old(self).counter(p),
            final(self).counter(prefix@) + final(self).pending(prefix@) <= old(self).counter(
                prefix@,
            ) + old(self).pending(prefix@) + 1,
    {
        let key = prefix.to_owned();
        let mut counter: usize = match self.counters.get(&key) {
            Some(c) => *c,
            None => 0,
        };
        let ghost start = counter as nat;
        let ghost names = names_of(self.banned.names@);
        loop
            invariant
                self.wf(),
                *self == *old(self),
                key@ == prefix@,
                names == names_of(self.banned.names@),
                start == old(self).counter(prefix@),
                start <= counter,
                counter + ahead(names, prefix@, counter as nat) <= start + ahead(
                    names,
                    prefix@,
                    start,
                ),
                start + ahead(names, prefix@, start) < usize::MAX,
                forall|j: nat|
                    start <= j < counter ==> self.banned@.contains(#[trigger] numbered(prefix@, j)),
            decreases ahead(names, prefix@, counter as nat),
        {
            let label = numbered_name(prefix, counter);
            proof {
                lemma_ahead_step(names, prefix@, counter as nat);
            }
            let ghost tried = counter as nat;
            counter += 1;
            if !self.banned.contains(&label) {
                self.counters.insert(key, counter);
                proof {
                    assert(self.counter(prefix@) == counter);
                    assert forall|p: Name| p != prefix@ implies self.counter(p) == old(
                        self,
                    ).counter(p) by {}
                }
                return label;
            }
            assert(names.contains(numbered(prefix@, tried))) by {
                let k = choose|k: int| 0 <= k < names.len() && names[k] == numbered(prefix@, tried);
                assert(names[k] == numbered(prefix@, tried));
            }
        }
    }
}

/// The labels that stand at the heads of the blocks.
pub open spec fn head_labels(blocks: Seq<Seq<InstructionView>>) -> Set<Name> {
    Set::new(
        |n: Name|
            exists|j: int|
                0 <= j < blocks.len() && blocks[j].len() > 0 && (#[trigger] blocks[j])[0].label
                    == Some(n),
    )
}

/// How many blocks open with a label line.
pub open spec fn labelled_count(blocks: Seq<Seq<InstructionView>>) -> nat
    decreases blocks.len(),
{
    if blocks.len() == 0 {
        0
    } else {
        labelled_count(blocks.drop_last()) + if is_label(blocks.last()[0]) {
            1nat
        } else {
            0nat
        }
    }
}

/// How many blocks open with anything but a label line.
pub open spec fn unlabelled_count(blocks: Seq<Seq<InstructionView>>) -> nat
    decreases blocks.len(),
{
    if blocks.len() == 0 {
        0
    } else {
        unlabelled_count(blocks.drop_last()) + if is_label(blocks.last()[0]) {
            0nat
        } else {
            1nat
        }
    }
}

/// Every block is counted once.
pub proof fn lemma_counts(blocks: Seq<Seq<InstructionView>>)
    ensures
        labelled_count(blocks) + unlabelled_count(blocks) == blocks.len(),
    decreases blocks.len(),
{
    if blocks.len() > 0 {
        lemma_counts(blocks.drop_last());
    }
}

/// One more block adds its label, if it has one, to the labels at the heads.
pub proof fn lemma_head_labels_push(blocks: Seq<Seq<InstructionView>>, b: Seq<InstructionView>)
    requires
        b.len() > 0,
    ensures
        b[0].label is Some ==> head_labels(blocks.push(b)) == head_labels(blocks).insert(
            b[0].label->0,
        ),
        b[0].label is None ==> head_labels(blocks.push(b)) == head_labels(blocks),
{
    let more = blocks.push(b);
    let target = if b[0].label is Some {
        head_labels(blocks).insert(b[0].label->0)
    } else {
        head_labels(blocks)
    };
    assert forall|n: Name| head_labels(more).contains(n) implies target.contains(n) by {
        let j = choose|j: int|
            0 <= j < more.len() && more[j].len() > 0 && (#[trigger] more[j])[0].label == Some(n);
        if j < blocks.len() {
            assert(blocks[j] == more[j]);
        }
    }
    assert forall|n: Name| target.contains(n) implies head_labels(more).contains(n) by {
        if b[0].label == Some(n) {
            assert(more[blocks.len() as int] == b);
        } else {
            let j = choose|j: int|
                0 <= j < blocks.len() && blocks[j].len() > 0 && (#[trigger] blocks[j])[0].label
                    == Some(n);
            assert(more[j] == blocks[j]);
        }
    }
    assert(head_labels(more) =~= target);
}


/// The blocks with a label line put before each block that lacks one. The new labels are
/// `b` followed by a number: the numbers rise from `from`, and a number whose name is
/// banned is passed over.
pub open spec fn labelled(
    blocks: Seq<Seq<InstructionView>>,
    banned: Set<Name>,
    from: nat,
) -> Seq<Seq<InstructionView>>
    decreases blocks.len(),
{
    if blocks.len() == 0 {
        seq![]
    } else if is_label(blocks[0][0]) {
        seq![blocks[0]] + labelled(blocks.skip(1), banned, from)
    } else {
        let k = next_free(banned, "b"@, from);
        seq![seq![label_line(numbered("b"@, k))] + blocks[0]] + labelled(
            blocks.skip(1),
            banned,
            k + 1,
        )
    }
}

/// Block `j` with its terminator: as it is where it already ends in a jump, else with a
/// jump to the next block's label, or with a return where it is the last block.
pub open spec fn closed_block(blocks: Seq<Seq<InstructionView>>, j: int) -> Seq<InstructionView> {
    if is_jump(blocks[j].last()) {
        blocks[j]
    } else if j + 1 < blocks.len() {
        blocks[j].push(jump_line(blocks[j + 1][0].label->0))
    } else {
        blocks[j].push(return_line())
    }
}

/// Every block with its terminator.
pub open spec fn terminated(blocks: Seq<Seq<InstructionView>>) -> Seq<Seq<InstructionView>> {
    Seq::new(blocks.len(), |j: int| closed_block(blocks, j))
}

/// The basic blocks of a function body: cut, then labelled, then terminated.
pub open spec fn blocks_of(s: Seq<InstructionView>) -> Seq<Seq<InstructionView>> {
    terminated(labelled(partitioned(s), head_labels(partitioned(s)), 0))
}

/// Fewer blocks do not lack more labels.
pub proof fn lemma_unlabelled_prefix(blocks: Seq<Seq<InstructionView>>, j: int)
    requires
        0 <= j <= blocks.len(),
    ensures
        unlabelled_count(blocks.take(j)) <= unlabelled_count(blocks),
    decreases blocks.len(),
{
    if j == blocks.len() {
        assert(blocks.take(j) =~= blocks);
    } else {
        assert(blocks.take(j) =~= blocks.drop_last().take(j));
        lemma_unlabelled_prefix(blocks.drop_last(), j);
    }
}

/// Gives every block that lacks a label line a fresh one at its head.
pub fn add_label(partitioned: &mut Vec<Vec<Instruction>>)
    requires
        forall|j: int| 0 <= j < old(partitioned).len() ==> #[trigger] old(partitioned)@[j].len() > 0,
    ensures
        chunks_of(final(partitioned)@) == labelled(
            chunks_of(old(partitioned)@),
            head_labels(chunks_of(old(partitioned)@)),
            0,
        ),
{
    let mut labeler = Labeler::new(partitioned);
    let ghost c0 = chunks_of(partitioned@);
    let ghost banned = head_labels(c0);
    let ghost names = names_of(labeler.banned.names@);
    let mut j: usize = 0;
    proof {
        assert forall|k: int| 0 <= k < c0.len() implies (#[trigger] c0[k]).len() > 0 by {
            assert(partitioned@[k].len() > 0);
        }
        lemma_counts(c0);
        lemma_ahead_step(names, "b"@, 0);
        assert(c0.take(0) =~= seq![]);
        assert(c0.skip(0) =~= c0);
        assert(chunks_of(partitioned@).take(0) + labelled(c0.skip(0), banned, 0) =~= labelled(
            c0,
            banned,
            0,
        ));
    }
    while j < partitioned.len()
        invariant
            j <= partitioned.len(),
            partitioned.len() == c0.len(),
            labeler.wf(),
            labeler.banned@ == banned,
            names == names_of(labeler.banned.names@),
            forall|k: int| j <= k < partitioned.len() ==> code_of(#[trigger] partitioned@[k]@) == c0[k],
            forall|k: int| 0 <= k < c0.len() ==> (#[trigger] c0[k]).len() > 0,
            chunks_of(partitioned@).take(j as int) + labelled(
                c0.skip(j as int),
                banned,
                labeler.counter("b"@),
            ) == labelled(c0, banned, 0),
            labeler.counter("b"@) + labeler.pending("b"@) <= labelled_count(c0) + unlabelled_count(
                c0.take(j as int),
            ),
            labelled_count(c0) + unlabelled_count(c0) == c0.len(),
        decreases partitioned.len() - j,
    {
        let ghost now = chunks_of(partitioned@);
        let ghost rest = c0.skip(j as int);
        let ghost from = labeler.counter("b"@);
        proof {
            assert(rest[0] == c0[j as int]);
            assert(rest.skip(1) =~= c0.skip(j + 1));
            assert(c0.take(j + 1).drop_last() =~= c0.take(j as int));
            assert(c0.take(j + 1).last() == c0[j as int]);
            lemma_unlabelled_prefix(c0, j + 1);
            assert(now[j as int] == c0[j as int]);
            assert(c0[j as int].len() > 0);
            assert(partitioned@[j as int]@.len() == c0[j as int].len());
            assert(c0[j as int][0] == partitioned@[j as int]@[0]@);
        }
        if partitioned[j][0].label.is_none() {
            let name = labeler.label("b");
            let line = Instruction::label_line(name);
            let ghost front = code_of(partitioned@[j as int]@);
            partitioned[j].insert(0, line);
            proof {
                lemma_next_free(names, "b"@, from);
                let k = next_free(banned, "b"@, from);
                assert(labeler.counter("b"@) == k + 1);
                let after = chunks_of(partitioned@);
                assert(code_of(partitioned@[j as int]@) =~= seq![label_line(numbered("b"@, k))]
                    + front);
                assert(after.take(j + 1) =~= now.take(j as int).push(
                    seq![label_line(numbered("b"@, k))] + c0[j as int],
                ));
                assert(after.take(j + 1) + labelled(c0.skip(j + 1), banned, k + 1) =~= now.take(
                    j as int,
                ) + labelled(rest, banned, from));
            }
        } else {
            proof {
                assert(now.take(j + 1) =~= now.take(j as int).push(c0[j as int]));
                assert(now.take(j + 1) + labelled(c0.skip(j + 1), banned, from) =~= now.take(
                    j as int,
                ) + labelled(rest, banned, from));
            }
        }
        j += 1;
    }
    proof {
        let now = chunks_of(partitioned@);
        assert(now.take(j as int) =~= now);
        assert(c0.skip(j as int) =~= seq![]);
        assert(now + labelled(c0.skip(j as int), banned, labeler.counter("b"@)) =~= now);
    }
}

/// Gives every block that does not end in a jump a terminator: a jump to the block that
/// follows, or a return at the end of the function.
pub fn add_terminatior(labeled: &mut Vec<Vec<Instruction>>)
    requires
        forall|j: int|
            0 <= j < old(labeled).len() ==> (#[trigger] old(labeled)@[j]).len() > 0 && old(
                labeled,
            )@[j]@[0].label is Some,
    ensures
        chunks_of(final(labeled)@) == terminated(chunks_of(old(labeled)@)),
{
    let ghost c0 = chunks_of(labeled@);
    let mut i: usize = 0;
    while i < labeled.len()
        invariant
            i <= labeled.len(),
            labeled.len() == c0.len(),
            forall|k: int| i <= k < labeled.len() ==> code_of(#[trigger] labeled@[k]@) == c0[k],
            forall|k: int| 0 <= k < i ==> code_of(#[trigger] labeled@[k]@) == closed_block(c0, k),
            forall|k: int|
                0 <= k < c0.len() ==> (#[trigger] c0[k]).len() > 0 && c0[k][0].label is Some,
        decreases labeled.len() - i,
    {
        proof {
            assert(c0[i as int].len() > 0);
            assert(code_of(labeled@[i as int]@) == c0[i as int]);
            assert(labeled@[i as int]@.len() == c0[i as int].len());
        }
        let last = labeled[i].len() - 1;
        assert(labeled@[i as int]@[last as int]@ == c0[i as int].last());
        if !jumps(&labeled[i][last]) {
            let ghost front = code_of(labeled@[i as int]@);
            if i + 1 < labeled.len() {
                proof {
                    assert(c0[i + 1].len() > 0 && c0[i + 1][0].label is Some);
                    assert(code_of(labeled@[i + 1]@) == c0[i + 1]);
                    assert(labeled@[i + 1]@.len() == c0[i + 1].len());
                    assert(labeled@[i + 1]@[0]@ == c0[i + 1][0]);
                }
                let next = match &labeled[i + 1][0].label {
                    Some(l) => l.clone(),
                    None => String::new(),
                };
                labeled[i].push(Instruction::jump_line(next));
                assert(code_of(labeled@[i as int]@) =~= front.push(
                    jump_line(c0[i + 1][0].label->0),
                ));
            } else {
                labeled[i].push(Instruction::return_line());
                assert(code_of(labeled@[i as int]@) =~= front.push(return_line()));
            }
        }
        i += 1;
    }
    assert(chunks_of(labeled@) =~= terminated(c0));
}


/// A finished block: a chunk that opens with a label line and ends in a jump.
pub open spec fn is_block(b: Seq<InstructionView>) -> bool {
    &&& is_chunk(b)
    &&& is_label(b[0])
    &&& is_jump(b.last())
}

/// Whether no two of the blocks that open with a label line share their label.
pub open spec fn distinct_labels(blocks: Seq<Seq<InstructionView>>) -> bool {
    forall|i: int, j: int|
        0 <= i < j < blocks.len() && is_label((#[trigger] blocks[i])[0]) && is_label(
            (#[trigger] blocks[j])[0],
        ) ==> blocks[i][0].label != blocks[j][0].label
}

/// What labelling gives: as many blocks, each a chunk that opens with a label line and
/// ends as before. A block that had a label keeps it; a new label is `b` with a number
/// from `from` on and is not banned. Where the labels that were there are banned and
/// differ from each other, all labels differ from each other.
pub proof fn lemma_labelled(blocks: Seq<Seq<InstructionView>>, names: Seq<Name>, from: nat)
    requires
        forall|j: int| 0 <= j < blocks.len() ==> is_chunk(#[trigger] blocks[j]),
    ensures
        labelled(blocks, names.to_set(), from).len() == blocks.len(),
        forall|j: int|
            0 <= j < blocks.len() ==> {
                let b = #[trigger] labelled(blocks, names.to_set(), from)[j];
                &&& is_chunk(b)
                &&& is_label(b[0])
                &&& b.last() == blocks[j].last()
                &&& is_label(blocks[j][0]) ==> b == blocks[j]
                &&& !is_label(blocks[j][0]) ==> b.skip(1) == blocks[j] && !names.to_set().contains(
                    b[0].label->0,
                ) && hits(b[0].label->0, "b"@, from)
            },
        head_labels(blocks).subset_of(names.to_set()) && distinct_labels(blocks)
            ==> distinct_labels(labelled(blocks, names.to_set(), from)),
    decreases blocks.len(),
{
    let banned = names.to_set();
    let out = labelled(blocks, banned, from);
    if blocks.len() > 0 {
        let rest = blocks.skip(1);
        assert forall|j: int| 0 <= j < rest.len() implies is_chunk(#[trigger] rest[j]) by {
            assert(rest[j] == blocks[j + 1]);
        }
        let head = blocks[0];
        assert(is_chunk(head));
        let next = if is_label(head[0]) {
            from
        } else {
            next_free(banned, "b"@, from) + 1
        };
        lemma_labelled(rest, names, next);
        lemma_next_free(names, "b"@, from);
        let tail = labelled(rest, banned, next);
        let first = if is_label(head[0]) {
            head
        } else {
            seq![label_line(numbered("b"@, next_free(banned, "b"@, from)))] + head
        };
        assert(out =~= seq![first] + tail);
        assert(out[0] == first);
        if !is_label(head[0]) {
            assert(first.skip(1) =~= head);
            assert(is_chunk(first)) by {
                assert forall|k: int| 0 < k < first.len() implies !is_label(#[trigger] first[k]) by {
                    assert(first[k] == head[k - 1]);
                }
                assert forall|k: int| 0 <= k < first.len() - 1 implies !ends_block(
                    #[trigger] first[k],
                ) by {
                    if k > 0 {
                        assert(first[k] == head[k - 1]);
                    }
                }
            }
            assert(first.last() == head.last());
        }
        assert forall|j: int| 0 <= j < blocks.len() implies {
            let b = #[trigger] out[j];
            &&& is_chunk(b)
            &&& is_label(b[0])
            &&& b.last() == blocks[j].last()
            &&& is_label(blocks[j][0]) ==> b == blocks[j]
            &&& !is_label(blocks[j][0]) ==> b.skip(1) == blocks[j] && !banned.contains(b[0].label->0)
                && hits(b[0].label->0, "b"@, from)
        } by {
            if j > 0 {
                assert(out[j] == tail[j - 1]);
                assert(rest[j - 1] == blocks[j]);
                if !is_label(blocks[j][0]) {
                    let l = tail[j - 1][0].label->0;
                    let k = choose|k: nat| next <= k && l == #[trigger] numbered("b"@, k);
                    assert(from <= k && l == numbered("b"@, k));
                }
            }
        }
        if head_labels(blocks).subset_of(banned) && distinct_labels(blocks) {
            assert(head_labels(rest).subset_of(banned)) by {
                assert forall|n: Name| head_labels(rest).contains(n) implies banned.contains(n) by {
                    let j = choose|j: int|
                        0 <= j < rest.len() && rest[j].len() > 0 && (#[trigger] rest[j])[0].label
                            == Some(n);
                    assert(blocks[j + 1] == rest[j]);
                    assert(head_labels(blocks).contains(n));
                }
            }
            assert(distinct_labels(rest)) by {
                assert forall|i: int, j: int|
                    0 <= i < j < rest.len() && is_label((#[trigger] rest[i])[0]) && is_label(
                        (#[trigger] rest[j])[0],
                    ) implies rest[i][0].label != rest[j][0].label by {
                    assert(rest[i] == blocks[i + 1]);
                    assert(rest[j] == blocks[j + 1]);
                }
            }
            assert forall|i: int, j: int|
                0 <= i < j < out.len() && is_label((#[trigger] out[i])[0]) && is_label(
                    (#[trigger] out[j])[0],
                ) implies out[i][0].label != out[j][0].label by {
                assert(out[j] == tail[j - 1]);
                assert(rest[j - 1] == blocks[j]);
                if i > 0 {
                    assert(out[i] == tail[i - 1]);
                } else {
                    let lj = tail[j - 1][0].label->0;
                    if is_label(head[0]) {
                        assert(head_labels(blocks).contains(head[0].label->0));
                        if is_label(blocks[j][0]) {
                        } else {
                            assert(!banned.contains(lj));
                        }
                    } else {
                        let k0 = next_free(banned, "b"@, from);
                        if is_label(blocks[j][0]) {
                            assert(head_labels(blocks).contains(lj));
                        } else {
                            let k = choose|k: nat| next <= k && lj == #[trigger] numbered("b"@, k);
                            if numbered("b"@, k) == numbered("b"@, k0) {
                                lemma_numbered_injective("b"@, k, k0);
                            }
                        }
                    }
                }
            }
        }
    }
}

/// Blocks that all open with a label line are left as they are by labelling.
pub proof fn lemma_labelled_fixed(blocks: Seq<Seq<InstructionView>>, banned: Set<Name>, from: nat)
    requires
        forall|j: int| 0 <= j < blocks.len() ==> is_label((#[trigger] blocks[j])[0]),
    ensures
        labelled(blocks, banned, from) == blocks,
    decreases blocks.len(),
{
    if blocks.len() > 0 {
        let rest = blocks.skip(1);
        assert forall|j: int| 0 <= j < rest.len() implies is_label((#[trigger] rest[j])[0]) by {
            assert(rest[j] == blocks[j + 1]);
        }
        lemma_labelled_fixed(rest, banned, from);
        assert(seq![blocks[0]] + rest =~= blocks);
    } else {
        assert(blocks =~= seq![]);
    }
}

/// Cutting a run of chunks that each open with a label line gives those chunks back.
pub proof fn lemma_partitioned_fixed(blocks: Seq<Seq<InstructionView>>)
    requires
        forall|j: int|
            0 <= j < blocks.len() ==> is_chunk(#[trigger] blocks[j]) && is_label(blocks[j][0]),
    ensures
        partitioned(flat(blocks)) == blocks,
    decreases flat(blocks).len(),
{
    if blocks.len() == 0 {
        assert(blocks =~= seq![]);
    } else {
        let front = blocks.drop_last();
        let c = blocks.last();
        let x = c.last();
        let s = flat(blocks);
        assert(is_chunk(c) && is_label(c[0]));
        assert forall|j: int| 0 <= j < front.len() implies is_chunk(#[trigger] front[j]) && is_label(
            front[j][0],
        ) by {
            assert(front[j] == blocks[j]);
        }
        assert(s == flat(front) + c);
        assert(s.last() == x);
        if c.len() == 1 {
            assert(c =~= seq![x]);
            assert(s.drop_last() =~= flat(front));
            lemma_partitioned_fixed(front);
            assert(starts_block(s, s.len() - 1));
            assert(front.push(seq![x]) =~= blocks);
        } else {
            let d = c.drop_last();
            let shorter = front.push(d);
            assert(shorter.drop_last() =~= front);
            assert(flat(shorter) == flat(front) + d);
            assert(s.drop_last() =~= flat(shorter));
            assert(is_chunk(d)) by {
                assert forall|k: int| 0 < k < d.len() implies !is_label(#[trigger] d[k]) by {
                    assert(d[k] == c[k]);
                }
                assert forall|k: int| 0 <= k < d.len() - 1 implies !ends_block(#[trigger] d[k]) by {
                    assert(d[k] == c[k]);
                }
            }
            assert forall|j: int| 0 <= j < shorter.len() implies is_chunk(#[trigger] shorter[j])
                && is_label(shorter[j][0]) by {
                if j < front.len() {
                    assert(shorter[j] == front[j]);
                } else {
                    assert(d[0] == c[0]);
                }
            }
            lemma_partitioned_fixed(shorter);
            assert(s[s.len() - 2] == d.last());
            assert(d.last() == c[c.len() - 2]);
            assert(!ends_block(c[c.len() - 2]));
            assert(!is_label(c[c.len() - 1]));
            assert(!starts_block(s, s.len() - 1));
            assert(shorter.drop_last().push(shorter.last().push(x)) =~= blocks) by {
                assert(d.push(x) =~= c);
            }
        }
    }
}

/// What the basic blocks of a function body are: finished blocks, as many as the cuts
/// give, and at least one where the body is not empty.
pub proof fn lemma_blocks_of(s: Seq<InstructionView>)
    ensures
        forall|j: int| 0 <= j < blocks_of(s).len() ==> is_block(#[trigger] blocks_of(s)[j]),
        blocks_of(s).len() == partitioned(s).len(),
        s.len() > 0 ==> blocks_of(s).len() > 0,
{
    let p = partitioned(s);
    lemma_partitioned(s);
    let names = choose|names: Seq<Name>| names.to_set() == head_labels(p);
    lemma_head_labels_listed(p);
    lemma_labelled(p, names, 0);
    let l = labelled(p, head_labels(p), 0);
    let t = terminated(l);
    assert forall|j: int| 0 <= j < t.len() implies is_block(#[trigger] t[j]) by {
        let b = l[j];
        let c = t[j];
        assert(is_chunk(b) && is_label(b[0]));
        assert(c == closed_block(l, j));
        if !is_jump(b.last()) {
            assert(c.drop_last() =~= b);
            assert(c[0] == b[0]);
            assert forall|k: int| 0 < k < c.len() implies !is_label(#[trigger] c[k]) by {
                if k < b.len() {
                    assert(c[k] == b[k]);
                }
            }
            assert forall|k: int| 0 <= k < c.len() - 1 implies !ends_block(#[trigger] c[k]) by {
                assert(c[k] == b[k]);
                if k == b.len() - 1 {
                    assert(b[k] == b.last());
                }
            }
        }
    }
}

/// The labels at the heads of finitely many blocks can be listed.
pub proof fn lemma_head_labels_listed(blocks: Seq<Seq<InstructionView>>)
    requires
        forall|j: int| 0 <= j < blocks.len() ==> (#[trigger] blocks[j]).len() > 0,
    ensures
        exists|names: Seq<Name>| names.to_set() == head_labels(blocks),
    decreases blocks.len(),
{
    if blocks.len() == 0 {
        let names = Seq::<Name>::empty();
        assert(names.to_set() =~= head_labels(blocks));
    } else {
        let front = blocks.drop_last();
        assert forall|j: int| 0 <= j < front.len() implies (#[trigger] front[j]).len() > 0 by {
            assert(front[j] == blocks[j]);
        }
        lemma_head_labels_listed(front);
        let names = choose|names: Seq<Name>| names.to_set() == head_labels(front);
        lemma_head_labels_push(front, blocks.last());
        assert(front.push(blocks.last()) =~= blocks);
        if blocks.last()[0].label is Some {
            let n = blocks.last()[0].label->0;
            let more = names.push(n);
            assert(more.to_set() =~= names.to_set().insert(n)) by {
                assert forall|m: Name| more.to_set().contains(m) implies names.to_set().insert(
                    n,
                ).contains(m) by {
                    let k = choose|k: int| 0 <= k < more.len() && more[k] == m;
                    if k < names.len() {
                        assert(names[k] == m);
                    }
                }
                assert forall|m: Name| names.to_set().insert(n).contains(
                    m,
                ) implies more.to_set().contains(m) by {
                    if m == n {
                        assert(more[names.len() as int] == m);
                    } else {
                        let k = choose|k: int| 0 <= k < names.len() && names[k] == m;
                        assert(more[k] == m);
                    }
                }
            }
        }
    }
}

/// Building the blocks of an already finished body changes nothing: the blocks put one
/// after the other, cut, labelled and terminated again, are the same blocks.
pub proof fn lemma_partition_stable(s: Seq<InstructionView>)
    ensures
        blocks_of(flat(blocks_of(s))) == blocks_of(s),
        flat(blocks_of(flat(blocks_of(s)))) == flat(blocks_of(s)),
{
    let b = blocks_of(s);
    lemma_blocks_of(s);
    lemma_partitioned_fixed(b);
    lemma_labelled_fixed(b, head_labels(b), 0);
    assert(terminated(b) =~= b);
}

/// Where the label lines of a function body carry different labels, so do its blocks.
#[verifier::rlimit(50)]
pub proof fn lemma_labels_unique(s: Seq<InstructionView>)
    requires
        forall|i: int, j: int|
            0 <= i < j < s.len() && is_label(#[trigger] s[i]) && is_label(#[trigger] s[j])
                ==> s[i].label != s[j].label,
    ensures
        forall|i: int, j: int|
            0 <= i < j < blocks_of(s).len() ==> (#[trigger] blocks_of(s)[i])[0].label != (
            #[trigger] blocks_of(s)[j])[0].label,
{
    let p = partitioned(s);
    lemma_partitioned(s);
    lemma_blocks_of(s);
    lemma_head_labels_listed(p);
    let names = choose|names: Seq<Name>| names.to_set() == head_labels(p);
    assert(distinct_labels(p)) by {
        assert forall|i: int, j: int|
            0 <= i < j < p.len() && is_label((#[trigger] p[i])[0]) && is_label(
                (#[trigger] p[j])[0],
            ) implies p[i][0].label != p[j][0].label by {
            assert(is_chunk(p[i]) && is_chunk(p[j]));
            lemma_offset_mono(p, i, j);
            lemma_offset_at(p, i, 0);
            lemma_offset_at(p, j, 0);
        }
    }
    lemma_labelled(p, names, 0);
    let l = labelled(p, head_labels(p), 0);
    let t = blocks_of(s);
    assert forall|i: int, j: int| 0 <= i < j < t.len() implies (#[trigger] t[i])[0].label != (
    #[trigger] t[j])[0].label by {
        assert(t[i] == closed_block(l, i));
        assert(t[j] == closed_block(l, j));
        assert(is_chunk(l[i]) && is_chunk(l[j]));
        assert(t[i][0] == l[i][0]);
        assert(t[j][0] == l[j][0]);
        assert(is_label(l[i][0]) && is_label(l[j][0]));
    }
}

/// Instruction `k` of block `j` sits in the flat sequence at the block's offset plus `k`.
pub proof fn lemma_offset_at(b: Seq<Seq<InstructionView>>, j: int, k: int)
    requires
        0 <= j < b.len(),
        0 <= k < b[j].len(),
    ensures
        0 <= offset(b, j) + k < flat(b).len(),
        flat(b)[offset(b, j) + k] == b[j][k],
        offset(b, b.len() as int) == flat(b).len(),
    decreases b.len(),
{
    let front = b.drop_last();
    lemma_offset_same(b, front, front.len() as int);
    lemma_offset_same(b, front, j);
    lemma_offset_nonneg(b, j);
    assert(flat(b) == flat(front) + b.last());
    lemma_flat_len(front);
    if j < front.len() {
        assert(front[j] == b[j]);
        lemma_offset_at(front, j, k);
    } else {
        assert(b[j] == b.last());
    }
}

/// The blocks before the end fill the flat sequence up to the end's offset.
pub proof fn lemma_flat_len(b: Seq<Seq<InstructionView>>)
    ensures
        offset(b, b.len() as int) == flat(b).len(),
    decreases b.len(),
{
    if b.len() > 0 {
        let front = b.drop_last();
        lemma_flat_len(front);
        lemma_offset_same(b, front, front.len() as int);
    }
}

/// The offset of a block depends only on the blocks before it.
pub proof fn lemma_offset_same(a: Seq<Seq<InstructionView>>, b: Seq<Seq<InstructionView>>, j: int)
    requires
        0 <= j <= a.len(),
        j <= b.len(),
        forall|i: int| 0 <= i < j ==> a[i] == b[i],
    ensures
        offset(a, j) == offset(b, j),
    decreases j,
{
    if j > 0 {
        lemma_offset_same(a, b, j - 1);
    }
}

/// Of two blocks that are not empty, the later one starts later.
pub proof fn lemma_offset_mono(b: Seq<Seq<InstructionView>>, i: int, j: int)
    requires
        0 <= i < j < b.len(),
        forall|k: int| 0 <= k < b.len() ==> (#[trigger] b[k]).len() > 0,
    ensures
        0 <= offset(b, i) < offset(b, j),
    decreases j,
{
    lemma_offset_nonneg(b, i);
    if j - 1 > i {
        lemma_offset_mono(b, i, j - 1);
    }
    assert(b[j - 1].len() > 0);
}

/// Offsets are not negative.
pub proof fn lemma_offset_nonneg(b: Seq<Seq<InstructionView>>, i: int)
    requires
        0 <= i <= b.len(),
    ensures
        0 <= offset(b, i),
    decreases i,
{
    if i > 0 {
        lemma_offset_nonneg(b, i - 1);
    }
}


/// A run of instructions with a label line at its head and a terminator at its end, and
/// neither in between.
#[derive(Debug)]
pub struct BasicBlock(pub Vec<Instruction>);

impl View for BasicBlock {
    type V = Seq<InstructionView>;

    open spec fn view(&self) -> Seq<InstructionView> {
        code_of(self.0@)
    }
}

/// The blocks of a list as contracts see them.
pub open spec fn blocks_view(s: Seq<BasicBlock>) -> Seq<Seq<InstructionView>> {
    Seq::new(s.len(), |j: int| s[j]@)
}

/// The merges that a table of incoming names asks for: one for each variable, in the
/// table's order, with one slot for each of its entries.
pub open spec fn phi_lines(phis: NameMap<NameMap<String>>) -> Seq<InstructionView> {
    Seq::new(
        phis.keys.len() as nat,
        |i: int|
            phi_line(phis.keys@[i]@, names_of(phis.vals@[i].vals@), names_of(phis.vals@[i].keys@)),
    )
}

impl From<BasicBlock> for Vec<Instruction> {
    fn from(block: BasicBlock) -> (r: Vec<Instruction>) {
        block.0
    }
}

impl vstd::std_specs::convert::FromSpecImpl<BasicBlock> for Vec<Instruction> {
    open spec fn obeys_from_spec() -> bool {
        true
    }

    open spec fn from_spec(block: BasicBlock) -> Vec<Instruction> {
        block.0
    }
}

impl std::ops::Deref for BasicBlock {
    type Target = [Instruction];

    fn deref(&self) -> (r: &[Instruction])
        ensures
            r@ == self.0@,
    {
        self.0.as_slice()
    }
}

impl Clone for BasicBlock {
    fn clone(&self) -> (r: Self)
        ensures
            r@ == self@,
    {
        BasicBlock(clone_code(self.0.as_slice()))
    }
}

impl BasicBlock {
    /// The block opens with a label line, ends in a jump, and holds neither in between.
    pub open spec fn wf(&self) -> bool {
        is_block(self@)
    }

    /// The label that names the block.
    pub open spec fn label(&self) -> Name {
        self@[0].label->0
    }

    /// The labels that the block's terminator names, in order; none where it names none.
    pub open spec fn targets(&self) -> Seq<Name> {
        match self@.last().labels {
            Some(l) => l,
            None => seq![],
        }
    }

    /// The basic blocks of a function body. The body is cut at every label line and after
    /// every terminator; a block without a label line gets a fresh one, and a block
    /// without a terminator gets a jump to the next block, or a return at the end.
    pub fn new_blocks(instrs: &[Instruction]) -> (r: Vec<Self>)
        ensures
            blocks_view(r@) == blocks_of(code_of(instrs@)),
            forall|j: int| 0 <= j < r.len() ==> (#[trigger] r@[j]).wf(),
            instrs.len() > 0 ==> r.len() > 0,
    {
        let mut blocks = partition(instrs);
        proof {
            let s = code_of(instrs@);
            let p = partitioned(s);
            lemma_partitioned(s);
            lemma_blocks_of(s);
            lemma_head_labels_listed(p);
            let names = choose|names: Seq<Name>| names.to_set() == head_labels(p);
            lemma_labelled(p, names, 0);
            assert forall|j: int| 0 <= j < blocks.len() implies (
            #[trigger] blocks@[j]).len() > 0 by {
                assert(is_chunk(p[j]));
                assert(code_of(blocks@[j]@) == p[j]);
            }
        }
        add_label(&mut blocks);
        proof {
            let l = chunks_of(blocks@);
            assert forall|j: int| 0 <= j < blocks.len() implies (
            #[trigger] blocks@[j]).len() > 0 && blocks@[j]@[0].label is Some by {
                assert(is_chunk(l[j]) && is_label(l[j][0]));
                assert(code_of(blocks@[j]@) == l[j]);
                assert(l[j][0] == blocks@[j]@[0]@);
            }
        }
        add_terminatior(&mut blocks);
        let ghost t = chunks_of(blocks@);
        let mut r: Vec<BasicBlock> = Vec::new();
        let mut j: usize = 0;
        while j < blocks.len()
            invariant
                j <= blocks.len(),
                r.len() == j,
                t == chunks_of(blocks@),
                forall|k: int| 0 <= k < j ==> (#[trigger] r@[k])@ == t[k],
            decreases blocks.len() - j,
        {
            let block = clone_code(blocks[j].as_slice());
            assert(code_of(block@) == t[j as int]);
            r.push(BasicBlock(block));
            j += 1;
        }
        assert(blocks_view(r@) =~= t);
        assert forall|j: int| 0 <= j < r.len() implies (#[trigger] r@[j]).wf() by {
            assert(r@[j]@ == blocks_of(code_of(instrs@))[j]);
        }
        r
    }

    /// Puts the merges that `phis` asks for right after the block's label line. `phis`
    /// gives, for each variable, the incoming name under each predecessor's label.
    pub fn insert_phi(&mut self, phis: &NameMap<NameMap<String>>)
        requires
            old(self)@.len() > 0,
            phis.wf(),
        ensures
            final(self)@ == seq![old(self)@[0]] + phi_lines(*phis) + old(self)@.skip(1),
    {
        let mut out: Vec<Instruction> = Vec::new();
        out.push(self.0[0].clone());
        let mut i: usize = 0;
        assert(code_of(out@) =~= seq![self@[0]] + phi_lines(*phis).take(0));
        while i < phis.keys.len()
            invariant
                i <= phis.keys.len(),
                phis.wf(),
                self@.len() > 0,
                code_of(out@) == seq![self@[0]] + phi_lines(*phis).take(i as int),
            decreases phis.keys.len() - i,
        {
            let aliases = &phis.vals[i];
            let line = Instruction {
                label: None,
                labels: Some(clone_names(&aliases.keys)),
                op: Some("phi".to_owned()),
                ty: None,
                dest: Some(phis.keys[i].clone()),
                value: None,
                args: Some(clone_names(&aliases.vals)),
            };
            assert(line@ == phi_lines(*phis)[i as int]);
            let ghost before = code_of(out@);
            out.push(line);
            assert(code_of(out@) =~= before.push(line@));
            assert(phi_lines(*phis).take(i + 1) =~= phi_lines(*phis).take(i as int).push(line@));
            assert(code_of(out@) =~= seq![self@[0]] + phi_lines(*phis).take(i + 1));
            i += 1;
        }
        assert(phi_lines(*phis).take(i as int) =~= phi_lines(*phis));
        let mut k: usize = 1;
        assert(self@.skip(1).take(0) =~= seq![]);
        while k < self.0.len()
            invariant
                1 <= k <= self.0.len(),
                code_of(out@) == seq![self@[0]] + phi_lines(*phis) + self@.skip(1).take(k - 1),
            decreases self.0.len() - k,
        {
            let ghost before = code_of(out@);
            out.push(self.0[k].clone());
            assert(code_of(out@) =~= before.push(self@[k as int]));
            assert(self@.skip(1).take(k as int) =~= self@.skip(1).take(k - 1).push(self@[k as int]));
            assert(code_of(out@) =~= seq![self@[0]] + phi_lines(*phis) + self@.skip(1).take(
                k as int,
            ));
            k += 1;
        }
        assert(self@.skip(1).take(k - 1) =~= self@.skip(1));
        self.0 = out;
    }
}


/// The instructions of the blocks, one block after the other.
pub fn flatten(blocks: &[BasicBlock]) -> (r: Vec<Instruction>)
    ensures
        code_of(r@) == flat(blocks_view(blocks@)),
{
    let ghost bv = blocks_view(blocks@);
    let mut r: Vec<Instruction> = Vec::new();
    let mut j: usize = 0;
    assert(bv.take(0) =~= seq![]);
    assert(code_of(r@) =~= flat(bv.take(0)));
    while j < blocks.len()
        invariant
            j <= blocks.len(),
            bv == blocks_view(blocks@),
            code_of(r@) == flat(bv.take(j as int)),
        decreases blocks.len() - j,
    {
        let block = &blocks[j];
        let ghost base = code_of(r@);
        let mut k: usize = 0;
        assert(code_of(r@) =~= base + block@.take(0));
        while k < block.0.len()
            invariant
                k <= block.0.len(),
                code_of(r@) == base + block@.take(k as int),
            decreases block.0.len() - k,
        {
            let ghost before = code_of(r@);
            r.push(block.0[k].clone());
            assert(code_of(r@) =~= before.push(block@[k as int]));
            assert(block@.take(k + 1) =~= block@.take(k as int).push(block@[k as int]));
            assert(code_of(r@) =~= base + block@.take(k + 1));
            k += 1;
        }
        proof {
            assert(block@.take(block.0.len() as int) =~= block@);
            assert(bv.take(j + 1).drop_last() =~= bv.take(j as int));
            assert(bv.take(j + 1).last() == block@);
        }
        j += 1;
    }
    assert(bv.take(blocks.len() as int) =~= bv);
    r
}

} // verus!
