use vstd::prelude::*;
use crate::ir::{code_of, copy_line, Instruction, InstructionView};
use crate::names::{NameMap, NameSet};
use crate::text::{clone_names, is_text, name_of, names_of, Name};

verus! {

/// A computed value: an opcode and the numbers of its operands.
#[derive(Debug)]
pub struct InstValue {
    pub op: String,
    pub args: Vec<usize>,
}

/// A computed value as contracts see it.
pub ghost struct ValueKey {
    pub op: Name,
    pub args: Seq<usize>,
}

impl View for InstValue {
    type V = ValueKey;

    open spec fn view(&self) -> ValueKey {
        ValueKey { op: self.op@, args: self.args@ }
    }
}

impl Clone for InstValue {
    fn clone(&self) -> (r: Self)
        ensures
            r@ == self@,
    {
        let mut args: Vec<usize> = Vec::new();
        let mut i: usize = 0;
        while i < self.args.len()
            invariant
                i <= self.args.len(),
                args@ == self.args@.take(i as int),
            decreases self.args.len() - i,
        {
            args.push(self.args[i]);
            assert(self.args@.take(i + 1) =~= self.args@.take(i as int).push(self.args@[i as int]));
            i += 1;
        }
        assert(self.args@.take(self.args.len() as int) =~= self.args@);
        InstValue { op: self.op.clone(), args }
    }
}

/// The state of value numbering as contracts see it: the number of each variable, the
/// variable that first produced each value, the variable that stands for each number,
/// for each number the variables that took it later, in the order in which they took
/// it, and the names that a renamed definition must not take. The numbers in use are
/// those below the length of `num2var`.
pub ghost struct Numbering {
    pub var2num: Map<Name, usize>,
    pub table: Map<ValueKey, Name>,
    pub num2var: Seq<Name>,
    pub heirs: Seq<Seq<Name>>,
    pub reserved: Set<Name>,
}

/// The state of local value numbering.
#[derive(Debug)]
pub struct ValueTable {
    pub var2num: NameMap<usize>,
    pub table: Vec<(InstValue, String)>,
    pub num2var: Vec<String>,
    pub heirs: Vec<Vec<String>>,
    pub counter: usize,
    pub reserved: NameSet,
}

/// The lists of names as contracts see them.
pub open spec fn lists_of(v: Seq<Vec<String>>) -> Seq<Seq<Name>> {
    Seq::new(v.len(), |i: int| names_of(v[i]@))
}

/// The lists with one more list are the lists of names with its names behind them.
proof fn lemma_lists_push(v: Seq<Vec<String>>, x: Vec<String>)
    ensures
        lists_of(v.push(x)) == lists_of(v).push(names_of(x@)),
{
    assert(lists_of(v.push(x)) =~= lists_of(v).push(names_of(x@)));
}

/// The lists with one list replaced are the lists of names with its names in that place.
proof fn lemma_lists_update(v: Seq<Vec<String>>, i: int, x: Vec<String>)
    requires
        0 <= i < v.len(),
    ensures
        lists_of(v.update(i, x)) == lists_of(v).update(i, names_of(x@)),
{
    assert(lists_of(v.update(i, x)) =~= lists_of(v).update(i, names_of(x@)));
}

/// The map that a list of entries stands for: a later entry replaces an earlier one with
/// the same value.
pub open spec fn table_map(t: Seq<(InstValue, String)>) -> Map<ValueKey, Name>
    decreases t.len(),
{
    if t.len() == 0 {
        Map::empty()
    } else {
        table_map(t.drop_last()).insert(t.last().0@, t.last().1@)
    }
}

/// Whether the numbers rise or stay along the sequence.
pub open spec fn ascending(s: Seq<usize>) -> bool {
    forall|i: int, j: int| 0 <= i < j < s.len() ==> s[i] <= s[j]
}

/// The order of numbers.
pub open spec fn at_most() -> spec_fn(usize, usize) -> bool {
    |a: usize, b: usize| a <= b
}

/// The value with its operands in the order in which it is looked up: rising for `add`,
/// which gives the same result for either order of its operands, and as written for
/// every other opcode.
pub open spec fn canonical(key: ValueKey) -> ValueKey {
    if key.op == "add"@ {
        ValueKey { op: key.op, args: key.args.sort_by(at_most()) }
    } else {
        key
    }
}

/// The map without the variables that have the number `num`.
pub open spec fn strip(m: Map<Name, usize>, num: usize) -> Map<Name, usize> {
    Map::new(|k: Name| m.contains_key(k) && m[k] != num, |k: Name| m[k])
}

/// The state after `var` has been given a number, and that number: the one it has, or
/// the next free one, for which `var` then stands.
pub open spec fn num_step(m: Numbering, var: Name) -> (Numbering, usize) {
    if m.var2num.contains_key(var) {
        (m, m.var2num[var])
    } else {
        (
            Numbering {
                var2num: m.var2num.insert(var, m.num2var.len() as usize),
                num2var: m.num2var.push(var),
                heirs: m.heirs.push(seq![]),
                ..m
            },
            m.num2var.len() as usize,
        )
    }
}

/// `dest` with `_prime` put behind it, `k + 1` times.
pub open spec fn primes(dest: Name, k: nat) -> Name
    decreases k,
{
    if k == 0 {
        dest + "_prime"@
    } else {
        primes(dest, (k - 1) as nat) + "_prime"@
    }
}

/// Whether the name is taken: it is reserved, or a variable of that name has a number.
pub open spec fn occupied(m: Numbering, n: Name) -> bool {
    m.reserved.contains(n) || m.var2num.contains_key(n)
}

/// Whether `k` gives the first of the names `dest_prime`, `dest_prime_prime`, ... that is
/// not taken.
pub open spec fn is_rename(m: Numbering, dest: Name, k: nat) -> bool {
    &&& !occupied(m, primes(dest, k))
    &&& forall|j: nat| j < k ==> occupied(m, #[trigger] primes(dest, j))
}

/// The name under which a definition of `dest` is kept when `dest` is written again
/// later: the first of `dest_prime`, `dest_prime_prime`, ... that is not taken.
pub open spec fn rename_of(m: Numbering, dest: Name) -> Name {
    primes(dest, choose|k: nat| is_rename(m, dest, k))
}

/// The first variable of `list`, from position `i` on, that is not `dest` and has the
/// number `n`.
pub open spec fn heir_from(
    list: Seq<Name>,
    var2num: Map<Name, usize>,
    n: usize,
    dest: Name,
    i: int,
) -> Option<Name>
    decreases list.len() - i,
{
    if i < 0 || i >= list.len() {
        None
    } else if list[i] != dest && var2num.contains_key(list[i]) && var2num[list[i]] == n {
        Some(list[i])
    } else {
        heir_from(list, var2num, n, dest, i + 1)
    }
}

/// Whether `dest` stands for the number that it has.
pub open spec fn stands(m: Numbering, dest: Name) -> bool {
    &&& m.var2num.contains_key(dest)
    &&& m.var2num[dest] < m.num2var.len()
    &&& m.var2num[dest] < m.heirs.len()
    &&& m.num2var[m.var2num[dest] as int] == dest
}

/// The variable that takes over the number of `dest`, for which `dest` stands: the
/// first of those that took the number later and still have it.
pub open spec fn heir(m: Numbering, dest: Name) -> Option<Name> {
    heir_from(m.heirs[m.var2num[dest] as int], m.var2num, m.var2num[dest], dest, 0)
}

/// The numbers of the variables once `dest` is about to be written: `dest` loses its
/// number, and the others keep theirs. Only where `dest` stands for its number and no
/// other variable took that number after it, nothing can stand for the number any more,
/// and every variable that has it loses it.
pub open spec fn forgotten(m: Numbering, dest: Name) -> Map<Name, usize> {
    if !m.var2num.contains_key(dest) {
        m.var2num
    } else if stands(m, dest) && heir(m, dest) is None {
        strip(m.var2num, m.var2num[dest])
    } else {
        m.var2num.remove(dest)
    }
}

/// The variables that stand for the numbers once `dest` is about to be written: where
/// `dest` stands for its number, the first variable that took the number after it and
/// still has it stands for the number from then on.
pub open spec fn stand_after(m: Numbering, dest: Name) -> Seq<Name> {
    if stands(m, dest) && heir(m, dest) is Some {
        m.num2var.update(m.var2num[dest] as int, heir(m, dest)->0)
    } else {
        m.num2var
    }
}

/// The lists of heirs after `name` and `dest` have taken the number `n`.
pub open spec fn joined(heirs: Seq<Seq<Name>>, n: usize, name: Name, dest: Name) -> Seq<Seq<Name>> {
    if n < heirs.len() {
        heirs.update(n as int, heirs[n as int].push(name).push(dest))
    } else {
        heirs
    }
}

/// The state after `dest` has been written with a value of which nothing is known:
/// `dest` is forgotten and gets the next free number, for which it then stands.
pub open spec fn redefined(m: Numbering, dest: Name) -> Numbering {
    Numbering {
        var2num: forgotten(m, dest).insert(dest, m.num2var.len() as usize),
        num2var: stand_after(m, dest).push(dest),
        heirs: m.heirs.push(seq![]),
        ..m
    }
}

/// The state after the definition `dest = value`, the variable that already holds the
/// value, if there is one, and the new name of the destination, if it is renamed.
///
/// `dest` is forgotten. Where `dest` is written again later, the definition goes to a
/// new name that is not taken, which is then reserved. A copy (`id`) has the number of
/// its operand. A value that the table holds under a variable that still has a number
/// has that number. Any other value is new: it gets the next free number, for which the
/// definition's name then stands, and the table holds it under that name. The
/// definition's name gets the number of the value, and so does `dest`; both are heirs
/// of that number, the definition's name first.
pub open spec fn value_step(m: Numbering, value: ValueKey, dest: Name, overwritten_after: bool) -> (
    Numbering,
    Option<Name>,
    Option<Name>,
) {
    let key = canonical(value);
    let kept = forgotten(m, dest);
    let stand = stand_after(m, dest);
    let name = if overwritten_after {
        rename_of(m, dest)
    } else {
        dest
    };
    let rename = if overwritten_after {
        Some(name)
    } else {
        None
    };
    let reserved = if overwritten_after {
        m.reserved.insert(name)
    } else {
        m.reserved
    };
    if value.op == "id"@ {
        let n = key.args[0];
        (
            Numbering {
                var2num: kept.insert(dest, n).insert(name, n),
                table: m.table,
                num2var: stand,
                heirs: joined(m.heirs, n, name, dest),
                reserved: reserved,
            },
            Some(m.num2var[n as int]),
            rename,
        )
    } else if m.table.contains_key(key) && kept.contains_key(m.table[key]) {
        let var = m.table[key];
        let n = kept[var];
        (
            Numbering {
                var2num: kept.insert(dest, n).insert(name, n),
                table: m.table,
                num2var: stand,
                heirs: joined(m.heirs, n, name, dest),
                reserved: reserved,
            },
            Some(var),
            rename,
        )
    } else {
        let n = m.num2var.len() as usize;
        (
            Numbering {
                var2num: kept.insert(dest, n).insert(name, n),
                table: m.table.insert(key, name),
                num2var: stand.push(name),
                heirs: m.heirs.push(seq![dest]),
                reserved: reserved,
            },
            None,
            rename,
        )
    }
}

/// The names `dest_prime`, `dest_prime_prime`, ... grow by six characters each.
pub proof fn lemma_primes_len(dest: Name, k: nat)
    ensures
        primes(dest, k).len() == dest.len() + 6 * (k + 1),
    decreases k,
{
    reveal_strlit("_prime");
    if k > 0 {
        lemma_primes_len(dest, (k - 1) as nat);
    }
}

/// There is one first free name, where renaming found one.
pub proof fn lemma_rename_of(m: Numbering, dest: Name, k: nat)
    requires
        is_rename(m, dest, k),
    ensures
        rename_of(m, dest) == primes(dest, k),
        !occupied(m, rename_of(m, dest)),
        rename_of(m, dest) != dest,
{
    let c = choose|c: nat| is_rename(m, dest, c);
    if c < k {
        assert(occupied(m, primes(dest, c)));
    } else if k < c {
        assert(occupied(m, primes(dest, k)));
    }
    lemma_primes_len(dest, k);
}

/// How many of the names have at least `len` characters.
pub open spec fn longer(names: Seq<Name>, len: nat) -> nat
    decreases names.len(),
{
    if names.len() == 0 {
        0
    } else {
        longer(names.drop_last(), len) + if names.last().len() >= len {
            1nat
        } else {
            0nat
        }
    }
}

proof fn lemma_longer(names: Seq<Name>, a: nat, b: nat)
    requires
        a <= b,
    ensures
        longer(names, b) <= longer(names, a),
    decreases names.len(),
{
    if names.len() > 0 {
        lemma_longer(names.drop_last(), a, b);
    }
}

proof fn lemma_longer_drop(names: Seq<Name>, c: Name, b: nat)
    requires
        names.contains(c),
        c.len() < b,
    ensures
        longer(names, b) < longer(names, c.len()),
    decreases names.len(),
{
    let front = names.drop_last();
    lemma_longer(front, c.len(), b);
    if names.last() == c {
    } else {
        let i = choose|i: int| 0 <= i < names.len() && names[i] == c;
        assert(front[i] == c);
        lemma_longer_drop(front, c, b);
    }
}

/// Sorts the numbers with `sort_unstable` of slices: afterwards they stand in rising
/// order, and they are the numbers that were there, each as often as before.
#[verifier::external_body]
fn sort_numbers(v: &mut Vec<usize>)
    ensures
        ascending(final(v)@),
        final(v)@.to_multiset() == old(v)@.to_multiset(),
{
    v.sort_unstable();
}

impl View for ValueTable {
    type V = Numbering;

    open spec fn view(&self) -> Numbering {
        Numbering {
            var2num: self.var2num.map(),
            table: table_map(self.table@),
            num2var: names_of(self.num2var@),
            heirs: lists_of(self.heirs@),
            reserved: self.reserved@,
        }
    }
}

impl Default for ValueTable {
    fn default() -> (r: Self)
        ensures
            r.wf(),
            r@.var2num == Map::<Name, usize>::empty(),
            r@.table == Map::<ValueKey, Name>::empty(),
            r@.num2var == Seq::<Name>::empty(),
            r@.heirs == Seq::<Seq<Name>>::empty(),
            r@.reserved == Set::<Name>::empty(),
    {
        let r = ValueTable {
            var2num: NameMap::new(),
            table: Vec::new(),
            num2var: Vec::new(),
            heirs: Vec::new(),
            counter: 0,
            reserved: NameSet::new(),
        };
        assert(r@.var2num =~= Map::<Name, usize>::empty());
        assert(r@.num2var =~= Seq::<Name>::empty());
        assert(r@.heirs =~= Seq::<Seq<Name>>::empty());
        r
    }
}

fn same_value(a: &InstValue, b: &InstValue) -> (r: bool)
    ensures
        r == (a@ == b@),
{
    if a.op != b.op {
        return false;
    }
    if a.args.len() != b.args.len() {
        return false;
    }
    let mut i: usize = 0;
    while i < a.args.len()
        invariant
            i <= a.args.len(),
            a.args.len() == b.args.len(),
            forall|k: int| 0 <= k < i ==> a.args@[k] == b.args@[k],
        decreases a.args.len() - i,
    {
        if a.args[i] != b.args[i] {
            return false;
        }
        i += 1;
    }
    assert(a.args@ =~= b.args@);
    true
}

impl ValueTable {
    /// The counter is the number of numbers in use, each of them has its list of heirs,
    /// and the map of variables is well formed.
    pub open spec fn wf(&self) -> bool {
        &&& self.var2num.wf()
        &&& self.counter == self.num2var.len()
        &&& self.heirs.len() == self.num2var.len()
    }

    /// The number of `var`: the one it has, or else the next free one, which `var` then
    /// stands for.
    pub fn num(&mut self, var: &str) -> (r: usize)
        requires
            old(self).wf(),
        ensures
            final(self).wf(),
            (final(self)@, r) == num_step(old(self)@, var@),
    {
        let key = var.to_owned();
        match self.var2num.get(&key) {
            Some(n) => *n,
            None => {
                let num = self.counter;
                self.num2var.push(var.to_owned());
                let none: Vec<String> = Vec::new();
                proof {
                    lemma_lists_push(self.heirs@, none);
                    assert(names_of(none@) =~= Seq::<Name>::empty());
                }
                self.heirs.push(none);
                self.counter = self.num2var.len();
                self.var2num.insert(key, num);
                proof {
                    assert(self@.num2var =~= old(self)@.num2var.push(var@));
                    assert(self@.heirs == old(self)@.heirs.push(seq![]));
                    assert(self@.var2num == old(self)@.var2num.insert(var@, num));
                }
                num
            },
        }
    }

    /// The variable that stands for the number of `var`, which gets a number if it has
    /// none.
    pub fn root(&mut self, var: &str) -> (r: String)
        requires
            old(self).wf(),
            old(self)@.var2num.contains_key(var@) ==> old(self)@.var2num[var@] < old(
                self,
            )@.num2var.len(),
        ensures
            final(self).wf(),
            final(self)@ == num_step(old(self)@, var@).0,
            r@ == final(self)@.num2var[num_step(old(self)@, var@).1 as int],
    {
        let num = self.num(var);
        proof {
            assert(old(self)@.num2var.len() == old(self).num2var.len());
            assert(self@.num2var.len() == self.num2var.len());
            assert(old(self)@.var2num.contains_key(var@) <==> old(self).var2num.has(var@));
        }
        let r = self.num2var[num].clone();
        assert(self@.num2var[num as int] == self.num2var@[num as int]@);
        r
    }

    fn lookup(&self, key: &InstValue) -> (r: Option<&String>)
        ensures
            r is Some <==> self@.table.contains_key(key@),
            r matches Some(v) ==> v@ == self@.table[key@],
    {
        let mut i: usize = self.table.len();
        assert(self.table@.take(i as int) =~= self.table@);
        while i > 0
            invariant
                i <= self.table.len(),
                table_map(self.table@).contains_key(key@) <==> table_map(
                    self.table@.take(i as int),
                ).contains_key(key@),
                table_map(self.table@).contains_key(key@) ==> table_map(self.table@)[key@]
                    == table_map(self.table@.take(i as int))[key@],
            decreases i,
        {
            let ghost t = self.table@.take(i as int);
            proof {
                assert(t.drop_last() =~= self.table@.take(i - 1));
                assert(t.last() == self.table@[i - 1]);
            }
            i -= 1;
            if same_value(&self.table[i].0, key) {
                return Some(&self.table[i].1);
            }
        }
        None
    }

    fn forget(&mut self, num: usize)
        requires
            old(self).wf(),
        ensures
            final(self).wf(),
            final(self)@ == (Numbering { var2num: strip(old(self)@.var2num, num), ..old(self)@ }),
    {
        loop
            invariant
                self.wf(),
                self.table == old(self).table,
                self.num2var == old(self).num2var,
                self.heirs == old(self).heirs,
                self.counter == old(self).counter,
                self.reserved == old(self).reserved,
                forall|k: Name| #[trigger]
                    self.var2num.has(k) ==> old(self).var2num.has(k) && self.var2num.at(k) == old(
                        self,
                    ).var2num.at(k),
                forall|k: Name|
                    old(self).var2num.has(k) && old(self).var2num.at(k) != num
                        ==> #[trigger] self.var2num.has(k),
            decreases self.var2num.keys.len(),
        {
            let mut i: usize = 0;
            let mut found: Option<usize> = None;
            while i < self.var2num.vals.len()
                invariant_except_break
                    found is None,
                    forall|k: int| 0 <= k < i ==> self.var2num.vals@[k] != num,
                invariant
                    i <= self.var2num.vals.len(),
                ensures
                    found matches Some(k) ==> k < self.var2num.vals.len() && self.var2num.vals@[k as int]
                        == num,
                    found is None ==> forall|k: int|
                        0 <= k < self.var2num.vals.len() ==> self.var2num.vals@[k] != num,
                decreases self.var2num.vals.len() - i,
            {
                if self.var2num.vals[i] == num {
                    found = Some(i);
                    break ;
                }
                i += 1;
            }
            match found {
                Some(k) => {
                    let key = self.var2num.keys[k].clone();
                    proof {
                        self.var2num.lemma_slot(k as int);
                    }
                    let ghost before = self.var2num;
                    self.var2num.remove(&key);
                    proof {
                        assert forall|n: Name|
                            old(self).var2num.has(n) && old(self).var2num.at(n) != num implies #[trigger] self.var2num.has(
                            n,
                        ) by {
                            assert(before.has(n));
                        }
                    }
                },
                None => {
                    proof {
                        let target = strip(old(self)@.var2num, num);
                        assert forall|n: Name| self.var2num.map().contains_key(n) implies target.contains_key(
                            n,
                        ) && target[n] == self.var2num.map()[n] by {
                            self.var2num.lemma_has(n);
                        }
                        assert(self.var2num.map() =~= target);
                    }
                    return ;
                },
            }
        }
    }

    /// The first variable that took the number `num` later, still has it and is not
    /// `dest`.
    fn first_heir(&self, num: usize, dest: &String) -> (r: Option<String>)
        requires
            self.wf(),
            num < self.heirs.len(),
        ensures
            name_of(r) == heir_from(self@.heirs[num as int], self@.var2num, num, dest@, 0),
    {
        let ghost list = self@.heirs[num as int];
        let ghost nums = self@.var2num;
        let mut i: usize = 0;
        while i < self.heirs[num].len()
            invariant
                self.wf(),
                num < self.heirs.len(),
                i <= self.heirs@[num as int].len(),
                list == names_of(self.heirs@[num as int]@),
                nums == self.var2num.map(),
                heir_from(list, nums, num, dest@, 0) == heir_from(list, nums, num, dest@, i as int),
            decreases self.heirs@[num as int].len() - i,
        {
            assert(list[i as int] == self.heirs@[num as int]@[i as int]@);
            if self.heirs[num][i] != *dest {
                let shares = match self.var2num.get(&self.heirs[num][i]) {
                    Some(n) => *n == num,
                    None => false,
                };
                if shares {
                    return Some(self.heirs[num][i].clone());
                }
            }
            i += 1;
        }
        None
    }

    /// Takes the number of `dest` away. Where `dest` stood for it, its first heir stands
    /// for it from now on; where it has no heir, every variable that has the number
    /// loses it.
    fn drop_number(&mut self, dest: &String)
        requires
            old(self).wf(),
        ensures
            final(self).wf(),
            final(self)@ == (Numbering {
                var2num: forgotten(old(self)@, dest@),
                num2var: stand_after(old(self)@, dest@),
                ..old(self)@
            }),
    {
        let previous = match self.var2num.get(dest) {
            Some(n) => Some(*n),
            None => None,
        };
        match previous {
            Some(num) => {
                let standing = num < self.num2var.len() && self.num2var[num] == *dest;
                proof {
                    if num < self.num2var.len() {
                        assert(self@.num2var[num as int] == self.num2var@[num as int]@);
                    }
                    assert(standing == stands(self@, dest@));
                }
                if standing {
                    match self.first_heir(num, dest) {
                        Some(next) => {
                            self.var2num.remove(dest);
                            self.num2var[num] = next;
                            assert(self@.num2var =~= stand_after(old(self)@, dest@));
                        },
                        None => {
                            self.forget(num);
                        },
                    }
                } else {
                    self.var2num.remove(dest);
                }
            },
            None => {},
        }
    }

    /// Keeps renamed definitions from taking `name`.
    pub fn reserve(&mut self, name: &str)
        requires
            old(self).wf(),
        ensures
            final(self).wf(),
            final(self)@ == (Numbering {
                reserved: old(self)@.reserved.insert(name@),
                ..old(self)@
            }),
    {
        self.reserved.insert(name.to_owned());
    }

    /// The first of the names `dest_prime`, `dest_prime_prime`, ... that is not taken.
    fn pick_rename(&self, dest: &str) -> (r: String)
        requires
            self.wf(),
        ensures
            r@ == rename_of(self@, dest@),
            !occupied(self@, r@),
            r@ != dest@,
    {
        let mut cand = dest.to_owned();
        cand.append("_prime");
        let ghost mut k: nat = 0;
        let ghost listed = names_of(self.reserved.names@);
        let ghost keys = names_of(self.var2num.keys@);
        loop
            invariant
                self.wf(),
                listed == names_of(self.reserved.names@),
                keys == names_of(self.var2num.keys@),
                cand@ == primes(dest@, k),
                forall|j: nat| j < k ==> occupied(self@, #[trigger] primes(dest@, j)),
            decreases longer(listed, cand@.len()) + longer(keys, cand@.len()),
        {
            let taken = self.reserved.contains(&cand) || self.var2num.find(&cand).is_some();
            assert(taken == occupied(self@, cand@));
            if !taken {
                proof {
                    assert(is_rename(self@, dest@, k));
                    lemma_rename_of(self@, dest@, k);
                }
                return cand;
            }
            proof {
                reveal_strlit("_prime");
                let more = (cand@.len() + 6) as nat;
                lemma_longer(listed, cand@.len(), more);
                lemma_longer(keys, cand@.len(), more);
                if self.reserved@.contains(cand@) {
                    assert(listed.contains(cand@));
                    lemma_longer_drop(listed, cand@, more);
                } else {
                    assert(keys.contains(cand@));
                    lemma_longer_drop(keys, cand@, more);
                }
                assert forall|j: nat| j < k + 1 implies occupied(
                    self@,
                    #[trigger] primes(dest@, j),
                ) by {
                    if j == k {
                    }
                }
                k = k + 1;
            }
            cand.append("_prime");
        }
    }

    /// Notes that `dest` is written with a value of which nothing is known: `dest` is
    /// forgotten and gets a number of its own.
    pub fn redefine(&mut self, dest: &str)
        requires
            old(self).wf(),
        ensures
            final(self).wf(),
            final(self)@ == redefined(old(self)@, dest@),
    {
        let name = dest.to_owned();
        self.drop_number(&name);
        let num = self.counter;
        self.num2var.push(dest.to_owned());
        let none: Vec<String> = Vec::new();
        proof {
            lemma_lists_push(self.heirs@, none);
            assert(names_of(none@) =~= Seq::<Name>::empty());
        }
        self.heirs.push(none);
        self.counter = self.num2var.len();
        self.var2num.insert(name, num);
        proof {
            assert(self@.num2var =~= stand_after(old(self)@, dest@).push(dest@));
            assert(self@.heirs == old(self)@.heirs.push(seq![]));
        }
    }

    /// Numbers the definition `dest = inst_value`. Gives back the variable that already
    /// holds the value, if there is one, and the new name of the destination, if the
    /// definition is renamed because `dest` is written again later. The new name is one
    /// that was not taken, and afterwards it has the same number as `dest`.
    pub fn value(&mut self, inst_value: InstValue, dest: &str, overwritten_after: bool) -> (r: (
        Option<String>,
        Option<String>,
    ))
        requires
            old(self).wf(),
            inst_value.op@ == "id"@ ==> inst_value.args.len() > 0 && inst_value.args@[0] < old(
                self,
            ).num2var.len(),
        ensures
            final(self).wf(),
            (final(self)@, name_of(r.0), name_of(r.1)) == value_step(
                old(self)@,
                inst_value@,
                dest@,
                overwritten_after,
            ),
            r.1 is Some <==> overwritten_after,
            r.1 matches Some(d) ==> d@ != dest@ && !occupied(old(self)@, d@),
            r.1 matches Some(d) ==> final(self)@.reserved.contains(d@),
            r.1 matches Some(d) ==> final(self)@.var2num.contains_key(d@),
            r.1 matches Some(d) ==> final(self)@.var2num.contains_key(dest@),
            r.1 matches Some(d) ==> final(self)@.var2num[d@] == final(self)@.var2num[dest@],
    {
        let mut inst_value = inst_value;
        let ghost given = inst_value@;
        if is_text(&inst_value.op, "add") {
            sort_numbers(&mut inst_value.args);
            proof {
                let leq = at_most();
                assert(vstd::relations::total_ordering(leq));
                given.args.lemma_sort_by_ensures(leq);
                assert(vstd::relations::sorted_by(inst_value.args@, leq));
                vstd::seq_lib::lemma_sorted_unique(inst_value.args@, given.args.sort_by(leq), leq);
            }
        }
        let ghost key = canonical(given);
        assert(inst_value@ == key);
        proof {
            if given.op == "id"@ {
                reveal_strlit("id");
                reveal_strlit("add");
                assert("id"@.len() != "add"@.len());
                assert(key == given);
            }
        }
        let old_name = dest.to_owned();
        let name = if overwritten_after {
            self.pick_rename(dest)
        } else {
            dest.to_owned()
        };
        let rename = if overwritten_after {
            self.reserved.insert(name.clone());
            Some(name.clone())
        } else {
            None
        };
        let copied: Option<String> = if is_text(&inst_value.op, "id") {
            Some(self.num2var[inst_value.args[0]].clone())
        } else {
            None
        };
        self.drop_number(&old_name);
        let ghost kept = self@.var2num;
        assert(kept == forgotten(old(self)@, dest@));
        if is_text(&inst_value.op, "id") {
            let arg = inst_value.args[0];
            let alias = copied.unwrap();
            assert(alias@ == old(self)@.num2var[arg as int]);
            self.join(arg, &name, &old_name);
            self.var2num.insert(old_name, arg);
            self.var2num.insert(name, arg);
            return (Some(alias), rename);
        }
        let hit: Option<(String, usize)> = match self.lookup(&inst_value) {
            Some(var) => match self.var2num.get(var) {
                Some(n) => Some((var.clone(), *n)),
                None => None,
            },
            None => None,
        };
        match hit {
            Some((var, n)) => {
                self.join(n, &name, &old_name);
                self.var2num.insert(old_name, n);
                self.var2num.insert(name, n);
                (Some(var), rename)
            },
            None => {
                let num = self.counter;
                self.num2var.push(name.clone());
                let mut first: Vec<String> = Vec::new();
                first.push(old_name.clone());
                proof {
                    assert(names_of(first@) =~= seq![dest@]);
                    lemma_lists_push(self.heirs@, first);
                }
                self.heirs.push(first);
                self.counter = self.num2var.len();
                self.var2num.insert(old_name, num);
                self.var2num.insert(name.clone(), num);
                assert(self@.num2var =~= stand_after(old(self)@, dest@).push(name@));
                assert(self@.heirs == old(self)@.heirs.push(seq![dest@]));
                let ghost before = self.table@;
                self.table.push((inst_value, name));
                assert(self.table@.drop_last() =~= before);
                (None, rename)
            },
        }
    }

    /// Notes that `name` and `dest` have taken the number `n`.
    fn join(&mut self, n: usize, name: &String, dest: &String)
        requires
            old(self).wf(),
        ensures
            final(self).wf(),
            final(self)@ == (Numbering {
                heirs: joined(old(self)@.heirs, n, name@, dest@),
                ..old(self)@
            }),
    {
        if n < self.heirs.len() {
            let mut list = clone_names(&self.heirs[n]);
            list.push(name.clone());
            list.push(dest.clone());
            proof {
                lemma_lists_update(self.heirs@, n as int, list);
                assert(names_of(list@) =~= old(self)@.heirs[n as int].push(name@).push(dest@));
            }
            self.heirs[n] = list;
        } else {
            assert(self@.heirs =~= old(self)@.heirs);
        }
    }
}

/// The state in which nothing has a number.
pub open spec fn fresh() -> Numbering {
    Numbering {
        var2num: Map::empty(),
        table: Map::empty(),
        num2var: Seq::empty(),
        heirs: Seq::empty(),
        reserved: Set::empty(),
    }
}

/// Whether every variable's number is in use.
pub open spec fn tight(m: Numbering) -> bool {
    forall|k: Name| #[trigger] m.var2num.contains_key(k) ==> m.var2num[k] < m.num2var.len()
}

/// Whether the numbers fit the machine's numbers, every number has its list of heirs,
/// and every variable has a number in use and stands for it or is one of its heirs.
pub open spec fn linked(m: Numbering) -> bool {
    &&& m.num2var.len() <= usize::MAX
    &&& m.heirs.len() == m.num2var.len()
    &&& forall|k: Name| #[trigger]
        m.var2num.contains_key(k) ==> m.var2num[k] < m.num2var.len() && (m.num2var[m.var2num[k] as int]
            == k || m.heirs[m.var2num[k] as int].contains(k))
}

/// Whether the variable `dest` is written after position `i` of the block.
pub open spec fn written_later(code: Seq<InstructionView>, i: int, dest: Name) -> bool {
    exists|j: int| i < j < code.len() && (#[trigger] code[j]).dest == Some(dest)
}

/// The state after the names of `args` have been given numbers in order, and the numbers.
pub open spec fn number_all(m: Numbering, args: Seq<Name>) -> (Numbering, Seq<usize>)
    decreases args.len(),
{
    if args.len() == 0 {
        (m, seq![])
    } else {
        let (m1, nums) = number_all(m, args.drop_last());
        let (m2, n) = num_step(m1, args.last());
        (m2, nums.push(n))
    }
}

/// The state after the names of `args` have been looked up in order, and the variables
/// that stand for their numbers.
pub open spec fn root_all(m: Numbering, args: Seq<Name>) -> (Numbering, Seq<Name>)
    decreases args.len(),
{
    if args.len() == 0 {
        (m, seq![])
    } else {
        let (m1, roots) = root_all(m, args.drop_last());
        let (m2, n) = num_step(m1, args.last());
        (m2, roots.push(m2.num2var[n as int]))
    }
}

/// Whether the instruction is a definition that takes part in value numbering: it has
/// arguments, a destination and an opcode, and is not a copy of nothing.
pub open spec fn numbered_line(x: InstructionView) -> bool {
    &&& x.args is Some
    &&& x.dest is Some
    &&& x.op is Some
    &&& !(x.op == Some("id"@) && x.args->0.len() == 0)
}

/// The variables that stand for the numbers, in order.
pub open spec fn stand_ins(m: Numbering, nums: Seq<usize>) -> Seq<Name> {
    Seq::new(nums.len(), |k: int| m.num2var[nums[k] as int])
}

/// Whether the instruction names `d`, as its destination or as an argument.
pub open spec fn names_it(x: InstructionView, d: Name) -> bool {
    x.dest == Some(d) || (x.args is Some && x.args->0.contains(d))
}

/// The names that the instructions of the block write or read.
pub open spec fn block_names(code: Seq<InstructionView>) -> Set<Name> {
    Set::new(|d: Name| exists|i: int| 0 <= i < code.len() && names_it(#[trigger] code[i], d))
}

/// The state after instruction `i` of the block, and what the instruction becomes.
///
/// A definition with an opcode and arguments is numbered. Its arguments get their
/// numbers first. Where a variable already holds its value it becomes a copy of that
/// variable; else its arguments are replaced by the variables that stood for their
/// numbers before the definition. Its destination is renamed where the variable is
/// written again later. Any other instruction has its arguments replaced by the
/// variables that stand for their numbers, and then its destination, if it has one, is
/// forgotten and gets a number of its own.
pub open spec fn lvn_step(m: Numbering, code: Seq<InstructionView>, i: int) -> (
    Numbering,
    InstructionView,
) {
    let x = code[i];
    if numbered_line(x) {
        let (m1, nums) = number_all(m, x.args->0);
        let (m2, alias, rename) = value_step(
            m1,
            ValueKey { op: x.op->0, args: nums },
            x.dest->0,
            written_later(code, i, x.dest->0),
        );
        let d = match rename {
            Some(r) => Some(r),
            None => x.dest,
        };
        match alias {
            Some(a) => (m2, copy_line(d, a)),
            None => (m2, InstructionView { dest: d, args: Some(stand_ins(m1, nums)), ..x }),
        }
    } else {
        let (m1, args) = match x.args {
            Some(a) => (root_all(m, a).0, Some(root_all(m, a).1)),
            None => (m, None),
        };
        let m2 = match x.dest {
            Some(d) => redefined(m1, d),
            None => m1,
        };
        (m2, InstructionView { args: args, ..x })
    }
}

/// The state before the first instruction of the block: nothing has a number, and every
/// name of the block is reserved.
pub open spec fn start(code: Seq<InstructionView>) -> Numbering {
    Numbering { reserved: block_names(code), ..fresh() }
}

/// The state before instruction `k` of the block.
pub open spec fn lvn_state(code: Seq<InstructionView>, k: int) -> Numbering
    decreases k,
{
    if k <= 0 {
        start(code)
    } else {
        lvn_step(lvn_state(code, k - 1), code, k - 1).0
    }
}

/// The block after local value numbering.
pub open spec fn lvn(code: Seq<InstructionView>) -> Seq<InstructionView> {
    Seq::new(code.len(), |k: int| lvn_step(lvn_state(code, k), code, k).1)
}

proof fn lemma_redefined_tight(m: Numbering, dest: Name)
    requires
        tight(m),
    ensures
        tight(redefined(m, dest)),
{
}

proof fn lemma_number_all_tight(m: Numbering, args: Seq<Name>)
    requires
        tight(m),
    ensures
        tight(number_all(m, args).0),
        number_all(m, args).1.len() == args.len(),
        number_all(m, args).0.num2var.len() >= m.num2var.len(),
        forall|i: int|
            0 <= i < args.len() ==> #[trigger] number_all(m, args).1[i] < number_all(
                m,
                args,
            ).0.num2var.len(),
    decreases args.len(),
{
    if args.len() > 0 {
        lemma_number_all_tight(m, args.drop_last());
    }
}

proof fn lemma_root_all_tight(m: Numbering, args: Seq<Name>)
    requires
        tight(m),
    ensures
        tight(root_all(m, args).0),
        root_all(m, args).1.len() == args.len(),
    decreases args.len(),
{
    if args.len() > 0 {
        lemma_root_all_tight(m, args.drop_last());
    }
}

proof fn lemma_value_step_tight(m: Numbering, value: ValueKey, dest: Name, later: bool)
    requires
        tight(m),
        value.op == "id"@ ==> value.args.len() > 0 && value.args[0] < m.num2var.len(),
    ensures
        tight(value_step(m, value, dest, later).0),
{
    reveal_strlit("id");
    reveal_strlit("add");
    assert("id"@.len() != "add"@.len());
}

/// Writing a variable takes the number from that variable alone: every other variable
/// keeps its number, and stands for it or is one of its heirs.
pub proof fn lemma_forgotten_keeps(m: Numbering, dest: Name, u: Name)
    requires
        linked(m),
        m.var2num.contains_key(u),
        u != dest,
    ensures
        forgotten(m, dest).contains_key(u),
        forgotten(m, dest)[u] == m.var2num[u],
        stand_after(m, dest).len() == m.num2var.len(),
        stand_after(m, dest)[m.var2num[u] as int] == u || m.heirs[m.var2num[u] as int].contains(u),
{
    if stands(m, dest) {
        let n = m.var2num[dest];
        if m.var2num[u] == n {
            let i = choose|i: int| 0 <= i < m.heirs[n as int].len() && m.heirs[n as int][i] == u;
            lemma_heir_found(m.heirs[n as int], m.var2num, n, dest, 0, i);
        }
    }
}

/// Where a variable of the list has the number and is not `dest`, there is an heir.
proof fn lemma_heir_found(
    list: Seq<Name>,
    var2num: Map<Name, usize>,
    n: usize,
    dest: Name,
    from: int,
    i: int,
)
    requires
        0 <= from <= i < list.len(),
        list[i] != dest,
        var2num.contains_key(list[i]),
        var2num[list[i]] == n,
    ensures
        heir_from(list, var2num, n, dest, from) is Some,
    decreases i - from,
{
    if from < i {
        lemma_heir_found(list, var2num, n, dest, from + 1, i);
    }
}

/// Writing a variable leaves the others linked to their numbers.
proof fn lemma_forgotten_linked(m: Numbering, dest: Name)
    requires
        linked(m),
    ensures
        stand_after(m, dest).len() == m.num2var.len(),
        !forgotten(m, dest).contains_key(dest),
        forall|k: Name| #[trigger]
            forgotten(m, dest).contains_key(k) ==> m.var2num.contains_key(k) && forgotten(m, dest)[k]
                == m.var2num[k] && (stand_after(m, dest)[m.var2num[k] as int] == k
                || m.heirs[m.var2num[k] as int].contains(k)),
{
    assert forall|k: Name| #[trigger] forgotten(m, dest).contains_key(k) implies m.var2num.contains_key(
        k,
    ) && forgotten(m, dest)[k] == m.var2num[k] && (stand_after(m, dest)[m.var2num[k] as int] == k
        || m.heirs[m.var2num[k] as int].contains(k)) by {
        lemma_forgotten_keeps(m, dest, k);
    }
}

proof fn lemma_redefined_linked(m: Numbering, dest: Name)
    requires
        linked(m),
        m.num2var.len() < usize::MAX,
    ensures
        linked(redefined(m, dest)),
{
    lemma_forgotten_linked(m, dest);
    let out = redefined(m, dest);
    assert forall|k: Name| #[trigger] out.var2num.contains_key(k) implies out.var2num[k]
        < out.num2var.len() && (out.num2var[out.var2num[k] as int] == k
        || out.heirs[out.var2num[k] as int].contains(k)) by {
        if k != dest {
            assert(forgotten(m, dest).contains_key(k));
        }
    }
}

proof fn lemma_num_step_linked(m: Numbering, var: Name)
    requires
        linked(m),
        num_step(m, var).0.num2var.len() <= usize::MAX,
    ensures
        linked(num_step(m, var).0),
{
    let out = num_step(m, var).0;
    assert forall|k: Name| #[trigger] out.var2num.contains_key(k) implies out.var2num[k]
        < out.num2var.len() && (out.num2var[out.var2num[k] as int] == k
        || out.heirs[out.var2num[k] as int].contains(k)) by {
        if k != var {
            assert(m.var2num.contains_key(k));
        }
    }
}

proof fn lemma_number_all_linked(m: Numbering, args: Seq<Name>)
    requires
        linked(m),
        number_all(m, args).0.num2var.len() <= usize::MAX,
    ensures
        linked(number_all(m, args).0),
        linked(root_all(m, args).0),
    decreases args.len(),
{
    lemma_number_all_keeps(m, args);
    if args.len() > 0 {
        let (m1, nums) = number_all(m, args.drop_last());
        lemma_number_all_keeps(m, args.drop_last());
        assert(num_step(m1, args.last()).0.num2var.len() >= m1.num2var.len());
        lemma_number_all_linked(m, args.drop_last());
        lemma_num_step_linked(m1, args.last());
    }
}

proof fn lemma_value_step_linked(m: Numbering, value: ValueKey, dest: Name, later: bool)
    requires
        linked(m),
        value.op == "id"@ ==> value.args.len() > 0 && value.args[0] < m.num2var.len(),
        value_step(m, value, dest, later).0.num2var.len() <= usize::MAX,
    ensures
        linked(value_step(m, value, dest, later).0),
{
    lemma_forgotten_linked(m, dest);
    let out = value_step(m, value, dest, later).0;
    let key = canonical(value);
    reveal_strlit("id");
    reveal_strlit("add");
    assert("id"@.len() != "add"@.len());
    let name = if later {
        rename_of(m, dest)
    } else {
        dest
    };
    let kept = forgotten(m, dest);
    assert forall|k: Name| #[trigger] out.var2num.contains_key(k) implies out.var2num[k]
        < out.num2var.len() && (out.num2var[out.var2num[k] as int] == k
        || out.heirs[out.var2num[k] as int].contains(k)) by {
        if k != dest && k != name {
            assert(kept.contains_key(k));
        }
        if value.op == "id"@ {
            let n = key.args[0];
            let list = m.heirs[n as int].push(name).push(dest);
            assert(list[list.len() - 1] == dest);
            assert(list[list.len() - 2] == name);
            if k != dest && k != name && m.heirs[kept[k] as int].contains(k) && kept[k] == n {
                let i = choose|i: int| 0 <= i < m.heirs[n as int].len() && m.heirs[n as int][i] == k;
                assert(list[i] == k);
            }
        } else if m.table.contains_key(key) && kept.contains_key(m.table[key]) {
            let n = kept[m.table[key]];
            let list = m.heirs[n as int].push(name).push(dest);
            assert(list[list.len() - 1] == dest);
            assert(list[list.len() - 2] == name);
            if k != dest && k != name && m.heirs[kept[k] as int].contains(k) && kept[k] == n {
                let i = choose|i: int| 0 <= i < m.heirs[n as int].len() && m.heirs[n as int][i] == k;
                assert(list[i] == k);
            }
        } else {
            assert(seq![dest][0] == dest);
        }
    }
}

fn is_written_later(instrs: &Vec<Instruction>, i: usize, dest: &String) -> (r: bool)
    requires
        i < instrs.len(),
    ensures
        r == written_later(code_of(instrs@), i as int, dest@),
{
    let mut j: usize = i + 1;
    while j < instrs.len()
        invariant
            i < j <= instrs.len(),
            forall|k: int| i < k < j ==> (#[trigger] code_of(instrs@)[k]).dest != Some(dest@),
        decreases instrs.len() - j,
    {
        match &instrs[j].dest {
            Some(d) => {
                if *d == *dest {
                    assert(code_of(instrs@)[j as int].dest == Some(dest@));
                    return true;
                }
            },
            None => {},
        }
        j += 1;
    }
    false
}

fn numbers_of(table: &mut ValueTable, args: &Vec<String>) -> (r: Vec<usize>)
    requires
        old(table).wf(),
    ensures
        final(table).wf(),
        (final(table)@, r@) == number_all(old(table)@, names_of(args@)),
{
    let mut r: Vec<usize> = Vec::new();
    let mut k: usize = 0;
    let ghost a = names_of(args@);
    assert(a.take(0) =~= seq![]);
    while k < args.len()
        invariant
            k <= args.len(),
            a == names_of(args@),
            table.wf(),
            (table@, r@) == number_all(old(table)@, a.take(k as int)),
        decreases args.len() - k,
    {
        proof {
            assert(a.take(k + 1).drop_last() =~= a.take(k as int));
            assert(a.take(k + 1).last() == args@[k as int]@);
        }
        let n = table.num(args[k].as_str());
        r.push(n);
        k += 1;
    }
    assert(a.take(args.len() as int) =~= a);
    r
}

fn roots_of(table: &mut ValueTable, args: &Vec<String>) -> (r: Vec<String>)
    requires
        old(table).wf(),
        tight(old(table)@),
    ensures
        final(table).wf(),
        (final(table)@, names_of(r@)) == root_all(old(table)@, names_of(args@)),
{
    let mut r: Vec<String> = Vec::new();
    let mut k: usize = 0;
    let ghost a = names_of(args@);
    assert(a.take(0) =~= seq![]);
    assert(names_of(r@) =~= seq![]);
    while k < args.len()
        invariant
            k <= args.len(),
            a == names_of(args@),
            table.wf(),
            tight(old(table)@),
            (table@, names_of(r@)) == root_all(old(table)@, a.take(k as int)),
        decreases args.len() - k,
    {
        let ghost before = names_of(r@);
        proof {
            assert(a.take(k + 1).drop_last() =~= a.take(k as int));
            assert(a.take(k + 1).last() == args@[k as int]@);
            lemma_root_all_tight(old(table)@, a.take(k as int));
            assert(table@.var2num.contains_key(args@[k as int]@) ==> table@.var2num[args@[k as int]@]
                < table@.num2var.len());
        }
        let v = table.root(args[k].as_str());
        r.push(v);
        assert(names_of(r@) =~= before.push(v@));
        k += 1;
    }
    assert(a.take(args.len() as int) =~= a);
    r
}

fn stand_ins_of(table: &ValueTable, nums: &Vec<usize>) -> (r: Vec<String>)
    requires
        forall|k: int| 0 <= k < nums.len() ==> #[trigger] nums@[k] < table.num2var.len(),
    ensures
        names_of(r@) == stand_ins(table@, nums@),
{
    let mut r: Vec<String> = Vec::new();
    let mut k: usize = 0;
    while k < nums.len()
        invariant
            k <= nums.len(),
            forall|j: int| 0 <= j < nums.len() ==> #[trigger] nums@[j] < table.num2var.len(),
            r.len() == k,
            forall|j: int| 0 <= j < k ==> (#[trigger] r@[j])@ == table.num2var@[nums@[j] as int]@,
        decreases nums.len() - k,
    {
        r.push(table.num2var[nums[k]].clone());
        k += 1;
    }
    assert(names_of(r@) =~= stand_ins(table@, nums@));
    r
}

/// The names of the first `n` instructions.
spec fn names_upto(code: Seq<InstructionView>, n: int) -> Set<Name> {
    Set::new(|d: Name| exists|i: int| 0 <= i < n && names_it(#[trigger] code[i], d))
}

/// Numbers the values of a block. A definition whose value a variable already holds
/// becomes a copy of that variable; every other instruction reads the variables that
/// stand for the values of its arguments. A definition of a variable that is written
/// again later in the block goes to a new name, which no instruction of the block uses.
pub fn local_value_numbering(instrs: &mut Vec<Instruction>)
    ensures
        code_of(final(instrs)@) == lvn(code_of(old(instrs)@)),
{
    let mut table = ValueTable::default();
    let ghost code = code_of(instrs@);
    let n = instrs.len();
    let mut i: usize = 0;
    assert(table@.reserved =~= names_upto(code, 0));
    while i < n
        invariant
            i <= n,
            n == instrs.len(),
            *instrs == *old(instrs),
            code == code_of(instrs@),
            table.wf(),
            table@ == (Numbering { reserved: names_upto(code, i as int), ..fresh() }),
        decreases n - i,
    {
        let ghost before = table@.reserved;
        let ghost x = code[i as int];
        assert(instrs@[i as int]@ == x);
        match &instrs[i].dest {
            Some(d) => {
                table.reserve(d.as_str());
            },
            None => {},
        }
        let ghost mid = table@.reserved;
        match &instrs[i].args {
            Some(args) => {
                let mut k: usize = 0;
                let ghost a = names_of(args@);
                proof {
                    assert(a.take(0).to_set() =~= Set::<Name>::empty());
                    assert(mid.union(a.take(0).to_set()) =~= mid);
                }
                while k < args.len()
                    invariant
                        k <= args.len(),
                        a == names_of(args@),
                        table.wf(),
                        table@ == (Numbering {
                            reserved: mid.union(a.take(k as int).to_set()),
                            ..fresh()
                        }),
                    decreases args.len() - k,
                {
                    table.reserve(args[k].as_str());
                    proof {
                        assert(a.take(k + 1) =~= a.take(k as int).push(a[k as int]));
                        crate::names::lemma_push_to_set(a.take(k as int), a[k as int]);
                        assert(table@.reserved =~= mid.union(a.take(k + 1).to_set()));
                    }
                    k += 1;
                }
                assert(a.take(args.len() as int) =~= a);
            },
            None => {
                assert(table@.reserved =~= mid);
            },
        }
        proof {
            let after = names_upto(code, i + 1);
            assert forall|d: Name| table@.reserved.contains(d) <==> after.contains(d) by {
                if table@.reserved.contains(d) {
                    if before.contains(d) {
                        let j = choose|j: int| 0 <= j < i && names_it(#[trigger] code[j], d);
                        assert(names_it(code[j], d));
                    } else {
                        assert(names_it(code[i as int], d));
                    }
                }
                if after.contains(d) {
                    let j = choose|j: int| 0 <= j < i + 1 && names_it(#[trigger] code[j], d);
                    if j < i {
                        assert(before.contains(d));
                    }
                }
            }
            assert(table@.reserved =~= after);
        }
        i += 1;
    }
    assert(names_upto(code, n as int) =~= block_names(code));
    let mut i: usize = 0;
    assert(table@ == start(code));
    while i < n
        invariant
            i <= n,
            n == instrs.len(),
            code.len() == n,
            table.wf(),
            tight(table@),
            table@ == lvn_state(code, i as int),
            forall|k: int| 0 <= k < i ==> (#[trigger] instrs@[k])@ == lvn(code)[k],
            forall|k: int| i <= k < n ==> (#[trigger] instrs@[k])@ == code[k],
        decreases n - i,
    {
        let ghost x = code[i as int];
        let ghost m = table@;
        assert(instrs@[i as int]@ == x);
        proof {
            assert forall|j: int| i < j < n implies (#[trigger] code_of(instrs@)[j]).dest == code[j].dest by {
                assert(instrs@[j]@ == code[j]);
            }
            if x.dest is Some {
                let d = x.dest->0;
                if written_later(code, i as int, d) {
                    let j = choose|j: int| i < j < code.len() && (#[trigger] code[j]).dest == Some(d);
                    assert(code_of(instrs@)[j].dest == Some(d));
                }
                if written_later(code_of(instrs@), i as int, d) {
                    let j = choose|j: int|
                        i < j < instrs.len() && (#[trigger] code_of(instrs@)[j]).dest == Some(d);
                    assert(code[j].dest == Some(d));
                }
            }
        }
        let args = match &instrs[i].args {
            Some(a) => Some(clone_names(a)),
            None => None,
        };
        let dest = match &instrs[i].dest {
            Some(d) => Some(d.clone()),
            None => None,
        };
        let op = match &instrs[i].op {
            Some(o) => Some(o.clone()),
            None => None,
        };
        let mut done = false;
        match (&args, &dest, op) {
            (Some(args), Some(dest), Some(op)) => {
                if !(is_text(&op, "id") && args.len() == 0) {
                    assert(numbered_line(x));
                    let nums = numbers_of(&mut table, args);
                    let later = is_written_later(instrs, i, dest);
                    proof {
                        lemma_number_all_tight(m, x.args->0);
                        lemma_value_step_tight(
                            table@,
                            ValueKey { op: op@, args: nums@ },
                            dest@,
                            later,
                        );
                    }
                    let roots = stand_ins_of(&table, &nums);
                    let (alias, rename) = table.value(
                        InstValue { op, args: nums },
                        dest.as_str(),
                        later,
                    );
                    let d = match rename {
                        Some(r) => Some(r),
                        None => Some(dest.clone()),
                    };
                    match alias {
                        Some(a) => {
                            let mut one: Vec<String> = Vec::new();
                            one.push(a);
                            assert(names_of(one@) =~= seq![a@]);
                            instrs[i] = Instruction {
                                label: None,
                                labels: None,
                                op: Some("id".to_owned()),
                                ty: None,
                                dest: d,
                                value: None,
                                args: Some(one),
                            };
                        },
                        None => {
                            instrs[i].dest = d;
                            instrs[i].args = Some(roots);
                        },
                    }
                    done = true;
                }
            },
            _ => {},
        }
        if !done {
            assert(!numbered_line(x));
            match &args {
                Some(args) => {
                    proof {
                        lemma_root_all_tight(table@, x.args->0);
                    }
                    let roots = roots_of(&mut table, args);
                    instrs[i].args = Some(roots);
                },
                None => {},
            }
            match &dest {
                Some(dest) => {
                    proof {
                        lemma_redefined_tight(table@, dest@);
                    }
                    table.redefine(dest.as_str());
                },
                None => {},
            }
        }
        assert(table@ == lvn_step(m, code, i as int).0);
        assert(instrs@[i as int]@ == lvn_step(m, code, i as int).1);
        i += 1;
    }
    assert(code_of(instrs@) =~= lvn(code));
}

proof fn lemma_number_all_keeps(m: Numbering, args: Seq<Name>)
    ensures
        forall|i: int|
            0 <= i < args.len() ==> number_all(m, args).0.var2num.contains_key(#[trigger] args[i]),
        forall|k: Name| #[trigger]
            m.var2num.contains_key(k) ==> number_all(m, args).0.var2num.contains_key(k) && number_all(
                m,
                args,
            ).0.var2num[k] == m.var2num[k],
        number_all(m, args).0.table == m.table,
        number_all(m, args).0.reserved == m.reserved,
        number_all(m, args).0.num2var.len() >= m.num2var.len(),
        forall|n: int|
            0 <= n < m.num2var.len() ==> #[trigger] number_all(m, args).0.num2var[n] == m.num2var[n],
        number_all(m, args).1.len() == args.len(),
        forall|i: int|
            0 <= i < args.len() ==> #[trigger] number_all(m, args).1[i] == number_all(
                m,
                args,
            ).0.var2num[args[i]],
        root_all(m, args).0 == number_all(m, args).0,
        tight(m) ==> tight(number_all(m, args).0) && root_all(m, args).1 == stand_ins(
            number_all(m, args).0,
            number_all(m, args).1,
        ),
    decreases args.len(),
{
    if args.len() > 0 {
        let front = args.drop_last();
        lemma_number_all_keeps(m, front);
        let (m1, nums) = number_all(m, front);
        let (m2, n) = num_step(m1, args.last());
        assert forall|i: int| 0 <= i < args.len() implies m2.var2num.contains_key(
            #[trigger] args[i],
        ) && number_all(m, args).1[i] == m2.var2num[args[i]] by {
            if i < front.len() {
                assert(front[i] == args[i]);
                assert(m1.var2num.contains_key(front[i]));
                assert(nums[i] == m1.var2num[front[i]]);
            }
        }
        let (r1, roots) = root_all(m, front);
        assert(r1 == m1);
        let want = stand_ins(m2, nums.push(n));
        let got = roots.push(m2.num2var[n as int]);
        if tight(m) {
            assert forall|i: int| 0 <= i < got.len() implies got[i] == want[i] by {
                if i < front.len() {
                    assert(roots[i] == m1.num2var[nums[i] as int]);
                    assert(nums[i] == m1.var2num[front[i]]);
                    assert(m1.var2num.contains_key(front[i]));
                }
            }
            assert(got =~= want);
        }
    } else {
        assert(root_all(m, args).1 =~= stand_ins(m, number_all(m, args).1));
    }
}

/// Every state of the numbering of a block is tight.
pub proof fn lemma_lvn_state_tight(code: Seq<InstructionView>, k: int)
    requires
        0 <= k <= code.len(),
    ensures
        tight(lvn_state(code, k)),
    decreases k,
{
    if k > 0 {
        lemma_lvn_state_tight(code, k - 1);
        lemma_lvn_step_tight(lvn_state(code, k - 1), code, k - 1);
    }
}

proof fn lemma_lvn_step_tight(m: Numbering, code: Seq<InstructionView>, i: int)
    requires
        tight(m),
        0 <= i < code.len(),
    ensures
        tight(lvn_step(m, code, i).0),
{
    let x = code[i];
    if numbered_line(x) {
        let a = x.args->0;
        lemma_number_all_tight(m, a);
        let (m1, nums) = number_all(m, a);
        lemma_value_step_tight(
            m1,
            ValueKey { op: x.op->0, args: nums },
            x.dest->0,
            written_later(code, i, x.dest->0),
        );
    } else {
        match x.args {
            Some(a) => {
                lemma_root_all_tight(m, a);
            },
            None => {},
        }
    }
}

/// Whether the reserved names and the variables with a number can be listed.
pub open spec fn finite_state(m: Numbering) -> bool {
    m.reserved.finite() && m.var2num.dom().finite()
}

proof fn lemma_number_all_finite(m: Numbering, args: Seq<Name>)
    requires
        finite_state(m),
    ensures
        finite_state(number_all(m, args).0),
        finite_state(root_all(m, args).0),
    decreases args.len(),
{
    lemma_number_all_keeps(m, args);
    if args.len() > 0 {
        lemma_number_all_finite(m, args.drop_last());
    }
}

proof fn lemma_forgotten_finite(m: Numbering, dest: Name)
    requires
        finite_state(m),
    ensures
        forgotten(m, dest).dom().finite(),
{
    vstd::set_lib::lemma_set_subset_finite(m.var2num.dom(), forgotten(m, dest).dom());
}

proof fn lemma_lvn_step_finite(m: Numbering, code: Seq<InstructionView>, i: int)
    requires
        finite_state(m),
        0 <= i < code.len(),
    ensures
        finite_state(lvn_step(m, code, i).0),
{
    let x = code[i];
    match x.args {
        Some(a) => {
            lemma_number_all_finite(m, a);
        },
        None => {},
    }
    if numbered_line(x) {
        let (m1, nums) = number_all(m, x.args->0);
        lemma_forgotten_finite(m1, x.dest->0);
    } else {
        let m1 = match x.args {
            Some(a) => root_all(m, a).0,
            None => m,
        };
        match x.dest {
            Some(d) => {
                lemma_forgotten_finite(m1, d);
            },
            None => {},
        }
    }
}

/// In every state of the numbering of a block the taken names can be listed.
pub proof fn lemma_lvn_state_finite(code: Seq<InstructionView>, k: int)
    requires
        0 <= k <= code.len(),
    ensures
        finite_state(lvn_state(code, k)),
    decreases k,
{
    if k > 0 {
        lemma_lvn_state_finite(code, k - 1);
        lemma_lvn_step_finite(lvn_state(code, k - 1), code, k - 1);
    } else {
        let listed = crate::dataflow::touched_in(code).to_set();
        vstd::seq_lib::seq_to_set_is_finite(crate::dataflow::touched_in(code));
        assert forall|d: Name| block_names(code).contains(d) implies listed.contains(d) by {
            let i = choose|i: int| 0 <= i < code.len() && names_it(#[trigger] code[i], d);
            let x = code[i];
            let t = crate::dataflow::touched(x);
            if x.dest == Some(d) {
                assert(t[0] == d);
            } else {
                let a = x.args->0;
                let q = choose|q: int| 0 <= q < a.len() && a[q] == d;
                assert(t[t.len() - a.len() + q] == d);
            }
            crate::dataflow::lemma_touched_in(code, i, d);
        }
        vstd::set_lib::lemma_set_subset_finite(listed, block_names(code));
    }
}

/// No instruction takes numbers away.
proof fn lemma_lvn_step_grows(m: Numbering, code: Seq<InstructionView>, i: int)
    requires
        0 <= i < code.len(),
    ensures
        lvn_step(m, code, i).0.num2var.len() >= m.num2var.len(),
        code[i].args is Some ==> lvn_step(m, code, i).0.num2var.len() >= number_all(
            m,
            code[i].args->0,
        ).0.num2var.len(),
{
    match code[i].args {
        Some(a) => {
            lemma_number_all_keeps(m, a);
        },
        None => {},
    }
}

proof fn lemma_lvn_state_grows(code: Seq<InstructionView>, i: int, k: int)
    requires
        0 <= i <= k <= code.len(),
    ensures
        lvn_state(code, i).num2var.len() <= lvn_state(code, k).num2var.len(),
    decreases k,
{
    if i < k {
        lemma_lvn_state_grows(code, i, k - 1);
        lemma_lvn_step_grows(lvn_state(code, k - 1), code, k - 1);
    }
}

proof fn lemma_lvn_step_linked(m: Numbering, code: Seq<InstructionView>, i: int)
    requires
        linked(m),
        0 <= i < code.len(),
        lvn_step(m, code, i).0.num2var.len() <= usize::MAX,
    ensures
        linked(lvn_step(m, code, i).0),
{
    let x = code[i];
    lemma_lvn_step_grows(m, code, i);
    match x.args {
        Some(a) => {
            lemma_number_all_keeps(m, a);
            lemma_number_all_linked(m, a);
            lemma_number_all_tight(m, a);
        },
        None => {},
    }
    if numbered_line(x) {
        let (m1, nums) = number_all(m, x.args->0);
        lemma_value_step_linked(
            m1,
            ValueKey { op: x.op->0, args: nums },
            x.dest->0,
            written_later(code, i, x.dest->0),
        );
    } else {
        let m1 = match x.args {
            Some(a) => root_all(m, a).0,
            None => m,
        };
        match x.dest {
            Some(d) => {
                lemma_redefined_linked(m1, d);
            },
            None => {},
        }
    }
}

/// In every state of the numbering of a block whose numbers fit the machine's numbers,
/// every variable with a number stands for it or is one of its heirs.
pub proof fn lemma_lvn_state_linked(code: Seq<InstructionView>, k: int)
    requires
        0 <= k <= code.len(),
        lvn_state(code, k).num2var.len() <= usize::MAX,
    ensures
        linked(lvn_state(code, k)),
    decreases k,
{
    if k > 0 {
        lemma_lvn_state_grows(code, k - 1, k);
        lemma_lvn_state_linked(code, k - 1);
        lemma_lvn_step_linked(lvn_state(code, k - 1), code, k - 1);
    }
}

/// Whether the table holds the value `key` under the variable `h`, which has a number,
/// and the variables of `args` have the numbers `nums`.
pub open spec fn holds(m: Numbering, key: ValueKey, h: Name, args: Seq<Name>, nums: Seq<usize>) -> bool {
    &&& linked(m)
    &&& m.table.contains_key(key) && m.table[key] == h
    &&& m.var2num.contains_key(h)
    &&& nums.len() == args.len()
    &&& forall|t: int|
        0 <= t < args.len() ==> m.var2num.contains_key(#[trigger] args[t]) && m.var2num[args[t]]
            == nums[t]
}

/// A value that is held stays held over an instruction that writes neither the variable
/// that holds it nor an argument.
proof fn lemma_holds_step(
    m: Numbering,
    code: Seq<InstructionView>,
    k: int,
    key: ValueKey,
    h: Name,
    args: Seq<Name>,
    nums: Seq<usize>,
)
    requires
        holds(m, key, h, args, nums),
        finite_state(m),
        0 <= k < code.len(),
        key.op != "id"@,
        key == canonical(key),
        lvn_step(m, code, k).0.num2var.len() <= usize::MAX,
        code[k].dest is Some ==> code[k].dest->0 != h && !args.contains(code[k].dest->0),
    ensures
        holds(lvn_step(m, code, k).0, key, h, args, nums),
{
    let x = code[k];
    let out = lvn_step(m, code, k).0;
    lemma_lvn_step_linked(m, code, k);
    lemma_lvn_step_grows(m, code, k);
    match x.args {
        Some(a) => {
            lemma_number_all_finite(m, a);
            lemma_number_all_keeps(m, a);
            lemma_number_all_linked(m, a);
        },
        None => {},
    }
    let m1 = match x.args {
        Some(a) => number_all(m, a).0,
        None => m,
    };
    assert forall|t: int| 0 <= t < args.len() implies m1.var2num.contains_key(#[trigger] args[t])
        && m1.var2num[args[t]] == nums[t] by {
        assert(m.var2num.contains_key(args[t]));
    }
    assert(holds(m1, key, h, args, nums));
    match x.dest {
        Some(dest) => {
            lemma_forgotten_keeps(m1, dest, h);
            assert forall|t: int| 0 <= t < args.len() implies forgotten(m1, dest).contains_key(
                #[trigger] args[t],
            ) && forgotten(m1, dest)[args[t]] == nums[t] && dest != args[t] by {
                assert(args.contains(args[t]));
                lemma_forgotten_keeps(m1, dest, args[t]);
            }
        },
        None => {},
    }
    if numbered_line(x) {
        let dest = x.dest->0;
        let later = written_later(code, k, dest);
        let nums_k = number_all(m, x.args->0).1;
        let v = ValueKey { op: x.op->0, args: nums_k };
        let name = if later {
            rename_of(m1, dest)
        } else {
            dest
        };
        if later {
            lemma_rename_exists(m1, dest);
        }
        assert(name != h);
        assert forall|t: int| 0 <= t < args.len() implies name != #[trigger] args[t] by {
            assert(args.contains(args[t]));
            assert(m1.var2num.contains_key(args[t]));
        }
        reveal_strlit("id");
        reveal_strlit("add");
        assert("id"@.len() != "add"@.len());
        if v.op != "id"@ && !(m1.table.contains_key(canonical(v)) && forgotten(m1, dest).contains_key(
            m1.table[canonical(v)],
        )) {
            assert(canonical(v) != key);
        }
        assert(holds(out, key, h, args, nums));
    } else {
        match x.args {
            Some(a) => {
                assert(root_all(m, a).0 == m1);
            },
            None => {},
        }
        assert(holds(out, key, h, args, nums));
    }
}

/// Where the taken names can be listed, renaming finds a name that is not taken.
proof fn lemma_rename_exists(m: Numbering, dest: Name)
    requires
        m.reserved.finite(),
        m.var2num.dom().finite(),
    ensures
        !occupied(m, rename_of(m, dest)),
        rename_of(m, dest) != dest,
{
    let taken = m.reserved.union(m.var2num.dom());
    vstd::set_lib::lemma_set_union_finite_iff(m.reserved, m.var2num.dom());
    let part = taken.filter(|n: Name| n.len() >= primes(dest, 0).len());
    vstd::set_lib::lemma_len_subset(part, taken);
    lemma_free_prime(taken, dest, 0, taken.len());
    let k = choose|k: nat| !taken.contains(primes(dest, k));
    let first = lemma_first_free(m, dest, k);
    lemma_rename_of(m, dest, first);
}

proof fn lemma_first_free(m: Numbering, dest: Name, k: nat) -> (first: nat)
    requires
        !occupied(m, primes(dest, k)),
    ensures
        is_rename(m, dest, first),
    decreases k,
{
    if forall|j: nat| j < k ==> occupied(m, #[trigger] primes(dest, j)) {
        k
    } else {
        let j = choose|j: nat| j < k && !occupied(m, #[trigger] primes(dest, j));
        lemma_first_free(m, dest, j)
    }
}

proof fn lemma_free_prime(taken: Set<Name>, dest: Name, from: nat, room: nat)
    requires
        taken.finite(),
        taken.filter(|n: Name| n.len() >= primes(dest, from).len()).len() <= room,
    ensures
        exists|k: nat| !taken.contains(#[trigger] primes(dest, k)),
    decreases room,
{
    let c = primes(dest, from);
    if taken.contains(c) {
        let f1 = |n: Name| n.len() >= c.len();
        let f2 = |n: Name| n.len() >= primes(dest, from + 1).len();
        lemma_primes_len(dest, from);
        lemma_primes_len(dest, from + 1);
        let a = taken.filter(f1);
        let b = taken.filter(f2);
        vstd::set_lib::lemma_set_subset_finite(taken, a);
        assert(a.contains(c));
        assert(b.subset_of(a.remove(c)));
        vstd::set_lib::lemma_len_subset(b, a.remove(c));
        lemma_free_prime(taken, dest, from + 1, (room - 1) as nat);
    }
}

/// Putting a value in the order in which it is looked up a second time changes nothing.
pub proof fn lemma_canonical_twice(v: ValueKey)
    ensures
        canonical(canonical(v)) == canonical(v),
{
    if v.op == "add"@ {
        let leq = at_most();
        let once = v.args.sort_by(leq);
        assert(vstd::relations::total_ordering(leq));
        v.args.lemma_sort_by_ensures(leq);
        once.lemma_sort_by_ensures(leq);
        vstd::seq_lib::lemma_sorted_unique(once.sort_by(leq), once, leq);
    }
}

/// Every name of the block stays reserved.
pub proof fn lemma_lvn_state_reserves(code: Seq<InstructionView>, k: int)
    requires
        0 <= k <= code.len(),
    ensures
        block_names(code).subset_of(lvn_state(code, k).reserved),
    decreases k,
{
    if k > 0 {
        lemma_lvn_state_reserves(code, k - 1);
        let m = lvn_state(code, k - 1);
        match code[k - 1].args {
            Some(a) => {
                lemma_number_all_keeps(m, a);
            },
            None => {},
        }
    }
}

/// A definition of a variable that is written again later in the block goes to a name
/// that no instruction of the block writes or reads.
pub proof fn lemma_rename_is_new(code: Seq<InstructionView>, i: int)
    requires
        0 <= i < code.len(),
        numbered_line(code[i]),
        written_later(code, i, code[i].dest->0),
    ensures
        lvn(code)[i].dest is Some,
        lvn(code)[i].dest != code[i].dest,
        !block_names(code).contains(lvn(code)[i].dest->0),
{
    let m = lvn_state(code, i);
    let x = code[i];
    lemma_lvn_state_finite(code, i);
    lemma_lvn_state_reserves(code, i);
    lemma_number_all_finite(m, x.args->0);
    lemma_number_all_keeps(m, x.args->0);
    lemma_rename_exists(number_all(m, x.args->0).0, x.dest->0);
}

proof fn lemma_holds_run(
    code: Seq<InstructionView>,
    i: int,
    k: int,
    key: ValueKey,
    h: Name,
    args: Seq<Name>,
    nums: Seq<usize>,
)
    requires
        0 <= i < k <= code.len(),
        holds(lvn_state(code, i + 1), key, h, args, nums),
        lvn_state(code, k).num2var.len() <= usize::MAX,
        key.op != "id"@,
        key == canonical(key),
        forall|q: int|
            i < q < k && (#[trigger] code[q]).dest is Some ==> code[q].dest->0 != h && !args.contains(
                code[q].dest->0,
            ),
    ensures
        holds(lvn_state(code, k), key, h, args, nums),
    decreases k,
{
    if k > i + 1 {
        lemma_lvn_state_grows(code, k - 1, k);
        lemma_holds_run(code, i, k - 1, key, h, args, nums);
        lemma_lvn_state_finite(code, k - 1);
        lemma_holds_step(lvn_state(code, k - 1), code, k - 1, key, h, args, nums);
    }
}

/// A computation that is repeated becomes a copy. Where two instructions of a block
/// have the same opcode, which is not `id`, and the same arguments, the first is not
/// itself turned into a copy, and no instruction from the first up to the second writes
/// one of the arguments, the second becomes an `id` of the variable that the first
/// writes after the numbering. Its destination is its own, or the new name of its own
/// where it is written again later. The numbers in use after the second instruction
/// are to fit the machine's numbers, as they do whenever the block is in memory.
pub proof fn lemma_repeated_value(code: Seq<InstructionView>, i: int, j: int)
    requires
        0 <= i < j < code.len(),
        numbered_line(code[i]),
        numbered_line(code[j]),
        code[i].op == code[j].op,
        code[i].op != Some("id"@),
        code[i].args == code[j].args,
        lvn(code)[i].op != Some("id"@),
        lvn_state(code, j + 1).num2var.len() <= usize::MAX,
        forall|q: int|
            i <= q < j && (#[trigger] code[q]).dest is Some ==> !code[i].args->0.contains(
                code[q].dest->0,
            ),
    ensures
        lvn(code)[i].dest is Some,
        lvn(code)[j] == copy_line(lvn(code)[j].dest, lvn(code)[i].dest->0),
        lvn(code)[j].dest is Some,
        !written_later(code, j, code[j].dest->0) ==> lvn(code)[j].dest == code[j].dest,
        written_later(code, j, code[j].dest->0) ==> lvn(code)[j].dest != code[j].dest,
{
    let x = code[i];
    let y = code[j];
    let a = x.args->0;
    let d1 = x.dest->0;
    let d2 = y.dest->0;
    let m = lvn_state(code, i);
    lemma_lvn_state_grows(code, i, j);
    lemma_lvn_state_grows(code, i + 1, j);
    lemma_lvn_state_grows(code, j, j + 1);
    lemma_lvn_step_grows(m, code, i);
    lemma_lvn_step_grows(lvn_state(code, j), code, j);
    lemma_lvn_state_linked(code, i);
    lemma_lvn_state_linked(code, i + 1);
    lemma_lvn_state_finite(code, i);
    lemma_lvn_state_reserves(code, i);
    lemma_number_all_keeps(m, a);
    lemma_number_all_finite(m, a);
    lemma_number_all_linked(m, a);
    let (m1, nums) = number_all(m, a);
    let v = ValueKey { op: x.op->0, args: nums };
    let key = canonical(v);
    lemma_canonical_twice(v);
    reveal_strlit("id");
    reveal_strlit("add");
    assert("id"@.len() != "add"@.len());
    let later = written_later(code, i, d1);
    let name = if later {
        rename_of(m1, d1)
    } else {
        d1
    };
    if later {
        lemma_rename_exists(m1, d1);
    }
    let next = lvn_state(code, i + 1);
    assert(next == lvn_step(m, code, i).0);
    assert(lvn(code)[i] == lvn_step(m, code, i).1);
    let n = m1.num2var.len() as usize;
    assert(lvn(code)[i].dest == Some(name));
    assert(code[i].dest is Some);
    assert forall|t: int| 0 <= t < a.len() implies forgotten(m1, d1).contains_key(#[trigger] a[t])
        && forgotten(m1, d1)[a[t]] == nums[t] && name != a[t] && d1 != a[t] by {
        assert(a.contains(a[t]));
        assert(m1.var2num.contains_key(a[t]));
        lemma_forgotten_keeps(m1, d1, a[t]);
    }
    let (m2, alias, rename) = value_step(m1, v, d1, later);
    assert(next == m2);
    assert(alias is None) by {
        if alias is Some {
            assert(lvn(code)[i] == copy_line(lvn(code)[i].dest, alias->0));
        }
    }
    let kept = forgotten(m1, d1);
    assert(v.op != "id"@);
    assert(next.var2num == kept.insert(d1, n).insert(name, n));
    assert(next.table == m1.table.insert(key, name));
    assert(next.table.contains_key(key) && next.table[key] == name);
    assert(next.var2num.contains_key(name));
    assert forall|t: int| 0 <= t < a.len() implies next.var2num.contains_key(#[trigger] a[t])
        && next.var2num[a[t]] == nums[t] by {
        assert(kept.contains_key(a[t]) && kept[a[t]] == nums[t] && name != a[t] && d1 != a[t]);
    }
    assert(holds(next, key, name, a, nums));
    assert forall|q: int| i < q < j && (#[trigger] code[q]).dest is Some implies code[q].dest->0
        != name && !a.contains(code[q].dest->0) by {
        let d = code[q].dest->0;
        assert(names_it(code[q], d));
        assert(block_names(code).contains(d));
        if later {
            assert(m1.reserved.contains(d));
        } else {
            if d == d1 {
                assert(written_later(code, i, d1));
            }
        }
    }
    lemma_holds_run(code, i, j, key, name, a, nums);
    // the second of the two
    let mj = lvn_state(code, j);
    lemma_lvn_state_finite(code, j);
    lemma_number_all_keeps(mj, a);
    lemma_number_all_finite(mj, a);
    lemma_number_all_linked(mj, a);
    let (mj1, nums2) = number_all(mj, a);
    assert(nums2 =~= nums) by {
        assert forall|t: int| 0 <= t < a.len() implies nums2[t] == nums[t] by {
            assert(mj.var2num.contains_key(a[t]));
        }
    }
    let later2 = written_later(code, j, d2);
    if later2 {
        lemma_rename_exists(mj1, d2);
    }
    assert(d2 != name) by {
        assert(names_it(code[j], d2));
        assert(block_names(code).contains(d2));
        if later {
            assert(m1.reserved.contains(d2));
        } else {
            if d2 == d1 {
                assert(written_later(code, i, d1));
            }
        }
    }
    lemma_forgotten_keeps(mj1, d2, name);
    assert(lvn(code)[j] == lvn_step(mj, code, j).1);
}

} // verus!
