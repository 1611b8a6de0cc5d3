use vstd::prelude::*;
use crate::text::{names_of, Name};

verus! {

/// A finite set of names, kept as a list without repetition, in the order in which the
/// names were first added.
#[derive(Debug)]
pub struct NameSet {
    pub names: Vec<String>,
}

impl View for NameSet {
    type V = Set<Name>;

    open spec fn view(&self) -> Set<Name> {
        names_of(self.names@).to_set()
    }
}

/// Position of `n` in `s`, if it occurs.
pub open spec fn occurs(s: Seq<Name>, n: Name) -> bool {
    exists|i: int| 0 <= i < s.len() && s[i] == n
}

/// A list with one more entry holds one more name.
pub proof fn lemma_push_to_set(s: Seq<Name>, n: Name)
    ensures
        s.push(n).to_set() == s.to_set().insert(n),
        s.no_duplicates() && !s.contains(n) ==> s.push(n).no_duplicates(),
{
    let more = s.push(n);
    assert forall|m: Name| more.to_set().contains(m) implies s.to_set().insert(n).contains(m) by {
        let k = choose|k: int| 0 <= k < more.len() && more[k] == m;
        if k < s.len() {
            assert(s[k] == m);
        }
    }
    assert forall|m: Name| s.to_set().insert(n).contains(m) implies more.to_set().contains(m) by {
        if m == n {
            assert(more[s.len() as int] == m);
        } else {
            let k = choose|k: int| 0 <= k < s.len() && s[k] == m;
            assert(more[k] == m);
        }
    }
    assert(more.to_set() =~= s.to_set().insert(n));
}

impl NameSet {
    /// No name is listed twice.
    pub open spec fn wf(&self) -> bool {
        names_of(self.names@).no_duplicates()
    }

    /// A well-formed set is finite and has as many members as the list has entries.
    pub proof fn lemma_len(&self)
        requires
            self.wf(),
        ensures
            self@.finite(),
            self@.len() == self.names.len(),
    {
        let s = names_of(self.names@);
        vstd::seq_lib::seq_to_set_is_finite(s);
        s.unique_seq_to_set();
    }

    /// The empty set.
    pub fn new() -> (r: Self)
        ensures
            r.wf(),
            r@ == Set::<Name>::empty(),
            r.names@.len() == 0,
    {
        let r = NameSet { names: Vec::new() };
        assert(r@ =~= Set::<Name>::empty());
        r
    }

    /// The number of members.
    pub fn len(&self) -> (r: usize)
        requires
            self.wf(),
        ensures
            r == self@.len(),
            r == self.names.len(),
    {
        proof {
            self.lemma_len();
        }
        self.names.len()
    }

    /// Whether `name` is a member.
    pub fn contains(&self, name: &String) -> (r: bool)
        ensures
            r == self@.contains(name@),
    {
        let mut i: usize = 0;
        while i < self.names.len()
            invariant
                i <= self.names.len(),
                forall|k: int| 0 <= k < i ==> self.names@[k]@ != name@,
            decreases self.names.len() - i,
        {
            if self.names[i] == *name {
                assert(names_of(self.names@)[i as int] == name@);
                return true;
            }
            i += 1;
        }
        proof {
            let s = names_of(self.names@);
            if self@.contains(name@) {
                let k = choose|k: int| 0 <= k < s.len() && s[k] == name@;
                assert(self.names@[k]@ == name@);
            }
        }
        false
    }

    /// Adds `name`; says whether it was new.
    pub fn insert(&mut self, name: String) -> (added: bool)
        ensures
            old(self).wf() ==> final(self).wf(),
            final(self)@ == old(self)@.insert(name@),
            added == !old(self)@.contains(name@),
            added ==> final(self).names@ == old(self).names@.push(name),
            !added ==> final(self).names@ == old(self).names@,
    {
        if self.contains(&name) {
            assert(self@ =~= old(self)@.insert(name@));
            false
        } else {
            let ghost before = names_of(self.names@);
            self.names.push(name);
            proof {
                let after = names_of(self.names@);
                assert(after =~= before.push(name@));
                assert(!before.contains(name@)) by {
                    if before.contains(name@) {
                        let k = choose|k: int| 0 <= k < before.len() && before[k] == name@;
                        assert(before.to_set().contains(name@));
                    }
                }
                lemma_push_to_set(before, name@);
            }
            true
        }
    }

    /// Takes `name` out; says whether it was a member.
    pub fn remove(&mut self, name: &String) -> (removed: bool)
        ensures
            old(self).wf() ==> final(self).wf(),
            final(self)@ == old(self)@.remove(name@),
            removed == old(self)@.contains(name@),
    {
        let mut removed = false;
        let mut i: usize = 0;
        while i < self.names.len()
            invariant
                i <= self.names.len(),
                old(self).wf() ==> self.wf(),
                self@.remove(name@) == old(self)@.remove(name@),
                removed ==> old(self)@.contains(name@),
                !removed ==> self@ == old(self)@,
                forall|k: int| 0 <= k < i ==> self.names@[k]@ != name@,
            decreases self.names.len() - i,
        {
            if self.names[i] == *name {
                let ghost before = names_of(self.names@);
                let ghost set_before = self@;
                self.names.remove(i);
                proof {
                    let after = names_of(self.names@);
                    assert(after =~= before.remove(i as int));
                    assert(before[i as int] == name@);
                    assert(set_before.contains(name@));
                    if old(self).wf() {
                        assert(after.no_duplicates());
                    }
                    assert forall|n: Name| after.to_set().remove(name@).contains(
                        n,
                    ) implies before.to_set().remove(name@).contains(n) by {
                        let k = choose|k: int| 0 <= k < after.len() && after[k] == n;
                        if k < i {
                            assert(before[k] == n);
                        } else {
                            assert(before[k + 1] == n);
                        }
                        assert(before.to_set().contains(n));
                    }
                    assert forall|n: Name| before.to_set().remove(name@).contains(
                        n,
                    ) implies after.to_set().remove(name@).contains(n) by {
                        let k = choose|k: int| 0 <= k < before.len() && before[k] == n;
                        if k < i {
                            assert(after[k] == n);
                        } else {
                            assert(k != i);
                            assert(after[k - 1] == n);
                        }
                    }
                    assert(after.to_set().remove(name@) =~= before.to_set().remove(name@));
                }
                removed = true;
            } else {
                i += 1;
            }
        }
        proof {
            let s = names_of(self.names@);
            if self@.contains(name@) {
                let k = choose|k: int| 0 <= k < s.len() && s[k] == name@;
                assert(self.names@[k]@ == name@);
            }
            assert(self@ =~= self@.remove(name@));
            if !removed {
                assert(!old(self)@.contains(name@));
            }
        }
        removed
    }

    /// Adds every name of `names`.
    pub fn extend(&mut self, names: &Vec<String>)
        ensures
            old(self).wf() ==> final(self).wf(),
            final(self)@ == old(self)@.union(names_of(names@).to_set()),
    {
        let mut i: usize = 0;
        while i < names.len()
            invariant
                i <= names.len(),
                old(self).wf() ==> self.wf(),
                self@ == old(self)@.union(names_of(names@.take(i as int)).to_set()),
            decreases names.len() - i,
        {
            self.insert(names[i].clone());
            proof {
                let a = names_of(names@.take(i as int));
                let b = names_of(names@.take(i + 1));
                assert(b =~= a.push(names@[i as int]@));
                lemma_push_to_set(a, names@[i as int]@);
                assert(self@ =~= old(self)@.union(b.to_set()));
            }
            i += 1;
        }
        assert(names@.take(names.len() as int) =~= names@);
    }

    /// Adds every member of `other`.
    pub fn union_with(&mut self, other: &NameSet)
        ensures
            old(self).wf() ==> final(self).wf(),
            final(self)@ == old(self)@.union(other@),
    {
        self.extend(&other.names);
    }

    /// Whether every member of `self` is a member of `other`.
    pub fn subset_of(&self, other: &NameSet) -> (r: bool)
        ensures
            r == self@.subset_of(other@),
    {
        let mut i: usize = 0;
        while i < self.names.len()
            invariant
                i <= self.names.len(),
                forall|k: int| 0 <= k < i ==> other@.contains(#[trigger] self.names@[k]@),
            decreases self.names.len() - i,
        {
            if !other.contains(&self.names[i]) {
                assert(names_of(self.names@)[i as int] == self.names@[i as int]@);
                assert(self@.contains(self.names@[i as int]@));
                return false;
            }
            i += 1;
        }
        proof {
            let s = names_of(self.names@);
            assert forall|n: Name| self@.contains(n) implies other@.contains(n) by {
                let k = choose|k: int| 0 <= k < s.len() && s[k] == n;
                assert(self.names@[k]@ == n);
            }
        }
        true
    }

    /// Whether the two sets have the same members.
    pub fn same(&self, other: &NameSet) -> (r: bool)
        ensures
            r == (self@ == other@),
    {
        let r = self.subset_of(other) && other.subset_of(self);
        proof {
            if r {
                assert(self@ =~= other@);
            }
        }
        r
    }
}

impl Clone for NameSet {
    fn clone(&self) -> (r: Self)
        ensures
            r.names@ == self.names@,
            r@ == self@,
            r.wf() == self.wf(),
    {
        NameSet { names: crate::text::clone_names(&self.names) }
    }
}

} // verus!

verus! {

/// A finite map from names to values, kept as two lists of equal length: the keys, without
/// repetition and in the order in which they were first added, and their values.
#[derive(Debug)]
pub struct NameMap<V> {
    pub keys: Vec<String>,
    pub vals: Vec<V>,
}

impl<V> NameMap<V> {
    /// As many values as keys, and no key twice.
    pub open spec fn wf(&self) -> bool {
        &&& self.keys.len() == self.vals.len()
        &&& names_of(self.keys@).no_duplicates()
    }

    /// Whether `k` is a key.
    pub open spec fn has(&self, k: Name) -> bool {
        occurs(names_of(self.keys@), k)
    }

    /// The position of the key `k`.
    pub open spec fn slot(&self, k: Name) -> int {
        choose|i: int| 0 <= i < self.keys.len() && self.keys@[i]@ == k
    }

    /// The value under the key `k`.
    pub open spec fn at(&self, k: Name) -> V {
        self.vals@[self.slot(k)]
    }

    /// The map that the two lists stand for.
    pub open spec fn map(&self) -> Map<Name, V> {
        Map::new(|k: Name| self.has(k), |k: Name| self.at(k))
    }

    /// In a well-formed map a key has one position.
    pub proof fn lemma_slot(&self, i: int)
        requires
            self.wf(),
            0 <= i < self.keys.len(),
        ensures
            self.has(self.keys@[i]@),
            self.slot(self.keys@[i]@) == i,
            self.at(self.keys@[i]@) == self.vals@[i],
    {
        let s = names_of(self.keys@);
        assert(s[i] == self.keys@[i]@);
        let j = self.slot(self.keys@[i]@);
        assert(s[j] == s[i]);
    }

    /// A key has a position in range.
    pub proof fn lemma_has(&self, k: Name)
        requires
            self.has(k),
        ensures
            0 <= self.slot(k) < self.keys.len(),
            self.keys@[self.slot(k)]@ == k,
    {
        let s = names_of(self.keys@);
        let i = choose|i: int| 0 <= i < s.len() && s[i] == k;
        assert(self.keys@[i]@ == k);
    }

    /// The empty map.
    pub fn new() -> (r: Self)
        ensures
            r.wf(),
            r.keys@.len() == 0,
            forall|k: Name| !r.has(k),
    {
        NameMap { keys: Vec::new(), vals: Vec::new() }
    }

    /// The position of `key`, if it is a key.
    pub fn find(&self, key: &String) -> (r: Option<usize>)
        requires
            self.wf(),
        ensures
            r is Some <==> self.has(key@),
            r matches Some(i) ==> i < self.keys.len() && self.keys@[i as int]@ == key@ && self.slot(
                key@,
            ) == i,
    {
        let mut i: usize = 0;
        while i < self.keys.len()
            invariant
                self.wf(),
                i <= self.keys.len(),
                forall|k: int| 0 <= k < i ==> self.keys@[k]@ != key@,
            decreases self.keys.len() - i,
        {
            if self.keys[i] == *key {
                proof {
                    self.lemma_slot(i as int);
                }
                return Some(i);
            }
            i += 1;
        }
        proof {
            if self.has(key@) {
                self.lemma_has(key@);
            }
        }
        None
    }

    /// The value under `key`, if it is a key.
    pub fn get(&self, key: &String) -> (r: Option<&V>)
        requires
            self.wf(),
        ensures
            r is Some <==> self.has(key@),
            r matches Some(v) ==> *v == self.at(key@),
    {
        match self.find(key) {
            Some(i) => Some(&self.vals[i]),
            None => None,
        }
    }

    /// Puts `value` under `key`, in place of what was there.
    pub fn insert(&mut self, key: String, value: V)
        requires
            old(self).wf(),
        ensures
            final(self).wf(),
            final(self).map() == old(self).map().insert(key@, value),
            forall|k: Name| final(self).has(k) <==> old(self).has(k) || k == key@,
            final(self).at(key@) == value,
            forall|k: Name| k != key@ && old(self).has(k) ==> final(self).at(k) == old(self).at(k),
            old(self).has(key@) ==> final(self).keys@ == old(self).keys@ && final(self).vals@
                == old(self).vals@.update(old(self).slot(key@), value),
            !old(self).has(key@) ==> final(self).keys@ == old(self).keys@.push(key),
            !old(self).has(key@) ==> final(self).vals@ == old(self).vals@.push(value),
    {
        match self.find(&key) {
            Some(i) => {
                self.vals[i] = value;
                proof {
                    assert forall|k: Name| k != key@ && old(self).has(k) implies self.at(k) == old(
                        self,
                    ).at(k) by {
                        old(self).lemma_has(k);
                    }
                    self.lemma_slot(i as int);
                    assert(self.map() =~= old(self).map().insert(key@, value));
                }
            },
            None => {
                self.keys.push(key);
                self.vals.push(value);
                proof {
                    let before = names_of(old(self).keys@);
                    let after = names_of(self.keys@);
                    assert(after =~= before.push(key@));
                    assert(!before.contains(key@));
                    assert(after.no_duplicates());
                    self.lemma_slot(old(self).keys.len() as int);
                    assert forall|k: Name| self.has(k) <==> old(self).has(k) || k == key@ by {
                        if self.has(k) {
                            self.lemma_has(k);
                            if self.slot(k) < before.len() {
                                assert(before[self.slot(k)] == k);
                            }
                        }
                        if old(self).has(k) {
                            old(self).lemma_has(k);
                            assert(after[old(self).slot(k)] == k);
                        }
                    }
                    assert forall|k: Name| k != key@ && old(self).has(k) implies self.at(k) == old(
                        self,
                    ).at(k) by {
                        old(self).lemma_has(k);
                        self.lemma_slot(old(self).slot(k));
                    }
                    assert(self.map() =~= old(self).map().insert(key@, value));
                }
            },
        }
    }

    /// Takes the entry under `key` out, if there is one.
    pub fn remove(&mut self, key: &String)
        requires
            old(self).wf(),
        ensures
            final(self).wf(),
            final(self).map() == old(self).map().remove(key@),
            forall|k: Name| final(self).has(k) <==> old(self).has(k) && k != key@,
            forall|k: Name| k != key@ && old(self).has(k) ==> final(self).at(k) == old(self).at(k),
            old(self).has(key@) ==> final(self).keys.len() + 1 == old(self).keys.len(),
            !old(self).has(key@) ==> final(self).keys@ == old(self).keys@ && final(self).vals@ == old(
                self,
            ).vals@,
    {
        match self.find(key) {
            Some(i) => {
                self.keys.remove(i);
                self.vals.remove(i);
                proof {
                    let before = names_of(old(self).keys@);
                    let after = names_of(self.keys@);
                    assert(after =~= before.remove(i as int));
                    assert(after.no_duplicates());
                    assert forall|k: Name| self.has(k) <==> old(self).has(k) && k != key@ by {
                        if self.has(k) {
                            self.lemma_has(k);
                            let j = self.slot(k);
                            if j < i {
                                assert(before[j] == k);
                            } else {
                                assert(before[j + 1] == k);
                            }
                            assert(before[i as int] == key@);
                        }
                        if old(self).has(k) && k != key@ {
                            old(self).lemma_has(k);
                            let j = old(self).slot(k);
                            if j < i {
                                assert(after[j] == k);
                            } else {
                                assert(after[j - 1] == k);
                            }
                        }
                    }
                    assert forall|k: Name| k != key@ && old(self).has(k) implies self.at(k) == old(
                        self,
                    ).at(k) by {
                        old(self).lemma_has(k);
                        let j = old(self).slot(k);
                        if j < i {
                            self.lemma_slot(j);
                        } else {
                            self.lemma_slot(j - 1);
                        }
                    }
                    assert(self.map() =~= old(self).map().remove(key@));
                }
            },
            None => {
                assert(self.map() =~= old(self).map().remove(key@));
            },
        }
    }
}

} // verus!
