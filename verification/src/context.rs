//! Maps from names to values: the context that an expression is evaluated
//! in, and the set of named expressions that a batch resolves.
//!
//! Entries keep the order in which their names first came, and no name
//! occurs twice.

use vstd::prelude::*;
use crate::number::Number;

verus! {

/// A map from names to values that remembers the order of its entries.
/// A name is found by going through the entries.
#[derive(Debug)]
pub struct NameMap<V> {
    entries: Vec<(String, V)>,
}

/// The values that expressions may refer to by name.
pub type Context = NameMap<Number>;

/// The named expressions of a batch: each name with the text of its
/// expression.
pub type Expressions = NameMap<String>;

/// No two entries have the same name.
pub open spec fn names_differ<V>(entries: Seq<(String, V)>) -> bool {
    forall|i: int, j: int| 0 <= i < j < entries.len() ==> entries[i].0@ != entries[j].0@
}

/// The map that a list of entries stands for. Where a name occurs twice,
/// the later entry counts.
pub open spec fn bindings<V>(entries: Seq<(String, V)>) -> Map<Seq<char>, V>
    decreases entries.len(),
{
    if entries.len() == 0 {
        Map::empty()
    } else {
        bindings(entries.drop_last()).insert(entries.last().0@, entries.last().1)
    }
}

/// The entries with `value` in the place of the value of each entry
/// named `name`.
pub open spec fn replaced<V>(entries: Seq<(String, V)>, name: String, value: V) -> Seq<(String, V)> {
    Seq::new(
        entries.len(),
        |i: int|
            if entries[i].0@ == name@ {
                (name, value)
            } else {
                entries[i]
            },
    )
}

/// The entries after `name` is bound to `value`: in the place it had, or
/// at the end if it had none.
pub open spec fn inserted<V>(entries: Seq<(String, V)>, name: String, value: V) -> Seq<(String, V)> {
    if bindings(entries).contains_key(name@) {
        replaced(entries, name, value)
    } else {
        entries.push((name, value))
    }
}

/// The entries after each entry of `more` is bound, in the order of `more`.
pub open spec fn extended<V>(entries: Seq<(String, V)>, more: Seq<(String, V)>) -> Seq<(String, V)>
    decreases more.len(),
{
    if more.len() == 0 {
        entries
    } else {
        inserted(extended(entries, more.drop_last()), more.last().0, more.last().1)
    }
}

/// A name is bound exactly when some entry has it.
pub proof fn lemma_bindings_names<V>(entries: Seq<(String, V)>, name: Seq<char>)
    ensures
        bindings(entries).contains_key(name) <==> exists|k: int|
            0 <= k < entries.len() && (#[trigger] entries[k]).0@ == name,
    decreases entries.len(),
{
    if entries.len() > 0 {
        let rest = entries.drop_last();
        lemma_bindings_names(rest, name);
        if bindings(entries).contains_key(name) {
            if entries.last().0@ == name {
                assert(entries[entries.len() - 1].0@ == name);
            } else {
                let k = choose|k: int| 0 <= k < rest.len() && (#[trigger] rest[k]).0@ == name;
                assert(entries[k].0@ == name);
            }
        } else {
            if exists|k: int| 0 <= k < entries.len() && (#[trigger] entries[k]).0@ == name {
                let k = choose|k: int| 0 <= k < entries.len() && (#[trigger] entries[k]).0@ == name;
                assert(k < rest.len());
                assert(rest[k].0@ == name);
            }
        }
    }
}

/// Where names differ, each entry's name is bound to that entry's value.
pub proof fn lemma_bindings_value<V>(entries: Seq<(String, V)>, k: int)
    requires
        names_differ(entries),
        0 <= k < entries.len(),
    ensures
        bindings(entries).contains_key(entries[k].0@),
        bindings(entries)[entries[k].0@] == entries[k].1,
    decreases entries.len(),
{
    let rest = entries.drop_last();
    if k < entries.len() - 1 {
        assert(names_differ(rest)) by {
            assert forall|i: int, j: int| 0 <= i < j < rest.len() implies rest[i].0@ != rest[j].0@ by {
                assert(entries[i].0@ != entries[j].0@);
            }
        }
        lemma_bindings_value(rest, k);
        assert(rest[k] == entries[k]);
        assert(entries[k].0@ != entries[entries.len() - 1].0@);
    }
}

/// Where names differ, there are as many bound names as entries.
pub proof fn lemma_bindings_len<V>(entries: Seq<(String, V)>)
    requires
        names_differ(entries),
    ensures
        bindings(entries).dom().finite(),
        bindings(entries).dom().len() == entries.len(),
    decreases entries.len(),
{
    if entries.len() > 0 {
        let rest = entries.drop_last();
        assert(names_differ(rest)) by {
            assert forall|i: int, j: int| 0 <= i < j < rest.len() implies rest[i].0@ != rest[j].0@ by {
                assert(entries[i].0@ != entries[j].0@);
            }
        }
        lemma_bindings_len(rest);
        lemma_bindings_names(rest, entries.last().0@);
        if bindings(rest).contains_key(entries.last().0@) {
            let k = choose|k: int| 0 <= k < rest.len() && (#[trigger] rest[k]).0@ == entries.last().0@;
            assert(entries[k].0@ == entries[entries.len() - 1].0@);
        }
    }
}

/// Adding an entry with a new name binds that name and keeps the names
/// different.
pub proof fn lemma_bindings_push<V>(entries: Seq<(String, V)>, name: String, value: V)
    requires
        names_differ(entries),
        !bindings(entries).contains_key(name@),
    ensures
        names_differ(entries.push((name, value))),
        bindings(entries.push((name, value))) == bindings(entries).insert(name@, value),
{
    let longer = entries.push((name, value));
    assert(longer.drop_last() =~= entries);
    assert forall|i: int, j: int| 0 <= i < j < longer.len() implies longer[i].0@ != longer[j].0@ by {
        if j == entries.len() {
            lemma_bindings_names(entries, name@);
            assert(entries[i].0@ != name@);
        } else {
            assert(entries[i].0@ != entries[j].0@);
        }
    }
}

/// Replacing the value of an entry binds its name to the new value and
/// changes nothing else.
pub proof fn lemma_bindings_update<V>(entries: Seq<(String, V)>, k: int, name: String, value: V)
    requires
        names_differ(entries),
        0 <= k < entries.len(),
        entries[k].0@ == name@,
    ensures
        names_differ(entries.update(k, (name, value))),
        bindings(entries.update(k, (name, value))) == bindings(entries).insert(name@, value),
{
    let updated = entries.update(k, (name, value));
    assert forall|i: int, j: int| 0 <= i < j < updated.len() implies updated[i].0@ != updated[j].0@ by {
        assert(entries[i].0@ != entries[j].0@);
    }
    let before = bindings(entries);
    let after = bindings(updated);
    assert forall|n: Seq<char>| after.contains_key(n) <==> before.insert(name@, value).contains_key(
        n,
    ) by {
        lemma_bindings_names(entries, n);
        lemma_bindings_names(updated, n);
        if after.contains_key(n) {
            let j = choose|j: int| 0 <= j < updated.len() && (#[trigger] updated[j]).0@ == n;
            assert(entries[j].0@ == n);
        }
        if before.insert(name@, value).contains_key(n) {
            if n == name@ {
                assert(updated[k].0@ == n);
            } else {
                let j = choose|j: int| 0 <= j < entries.len() && (#[trigger] entries[j]).0@ == n;
                assert(updated[j].0@ == n);
            }
        }
    }
    assert forall|n: Seq<char>| after.contains_key(n) implies after[n] == before.insert(
        name@,
        value,
    )[n] by {
        lemma_bindings_names(updated, n);
        let j = choose|j: int| 0 <= j < updated.len() && (#[trigger] updated[j]).0@ == n;
        lemma_bindings_value(updated, j);
        if j != k {
            lemma_bindings_value(entries, j);
        }
    }
    assert(after =~= before.insert(name@, value));
}

impl<V> View for NameMap<V> {
    type V = Map<Seq<char>, V>;

    closed spec fn view(&self) -> Map<Seq<char>, V> {
        bindings(self.entries@)
    }
}

impl<V> NameMap<V> {
    #[verifier::type_invariant]
    closed spec fn names_are_unique(&self) -> bool {
        names_differ(self.entries@)
    }

    /// The entries in their order: each name with its value.
    pub closed spec fn entries(&self) -> Seq<(String, V)> {
        self.entries@
    }

    /// What holds of every map: no name occurs twice among the entries, and
    /// the map binds each entry's name to its value and no other name.
    pub open spec fn is_consistent(&self) -> bool {
        &&& names_differ(self.entries())
        &&& self@ == bindings(self.entries())
    }

    /// The map without any entry.
    pub fn new() -> (map: Self)
        ensures
            map@ == Map::<Seq<char>, V>::empty(),
            map.entries() == Seq::<(String, V)>::empty(),
    {
        NameMap { entries: Vec::new() }
    }

    /// The number of entries, which is the number of names bound.
    pub fn len(&self) -> (n: usize)
        ensures
            n == self.entries().len(),
            n == self@.dom().len(),
            self@.dom().finite(),
            self.is_consistent(),
    {
        proof {
            use_type_invariant(self);
            lemma_bindings_len(self.entries@);
        }
        self.entries.len()
    }

    /// The name of the entry at position `i`.
    pub fn name_at(&self, i: usize) -> (name: &String)
        requires
            i < self.entries().len(),
        ensures
            *name == self.entries()[i as int].0,
            self.is_consistent(),
    {
        proof {
            use_type_invariant(self);
        }
        &self.entries[i].0
    }

    /// The value of the entry at position `i`.
    pub fn value_at(&self, i: usize) -> (value: &V)
        requires
            i < self.entries().len(),
        ensures
            *value == self.entries()[i as int].1,
            self.is_consistent(),
    {
        proof {
            use_type_invariant(self);
        }
        &self.entries[i].1
    }

    /// The position of the entry named `name`, if there is one.
    fn position(&self, name: &String) -> (found: Option<usize>)
        ensures
            match found {
                Some(k) => k < self.entries@.len() && self.entries@[k as int].0@ == name@,
                None => !self@.contains_key(name@),
            },
    {
        let mut i: usize = 0;
        while i < self.entries.len()
            invariant
                i <= self.entries@.len(),
                forall|k: int| 0 <= k < i ==> (#[trigger] self.entries@[k]).0@ != name@,
            decreases self.entries@.len() - i,
        {
            if self.entries[i].0 == *name {
                return Some(i);
            }
            i = i + 1;
        }
        proof {
            lemma_bindings_names(self.entries@, name@);
        }
        None
    }

    /// The value bound to `name`, if there is one.
    pub fn find(&self, name: &String) -> (value: Option<&V>)
        ensures
            match value {
                Some(v) => self@.contains_key(name@) && *v == self@[name@],
                None => !self@.contains_key(name@),
            },
    {
        match self.position(name) {
            Some(k) => {
                proof {
                    use_type_invariant(self);
                    lemma_bindings_value(self.entries@, k as int);
                }
                Some(&self.entries[k].1)
            },
            None => None,
        }
    }

    /// The value bound to `name`, if there is one.
    pub fn get(&self, name: &str) -> (value: Option<&V>)
        ensures
            match value {
                Some(v) => self@.contains_key(name@) && *v == self@[name@],
                None => !self@.contains_key(name@),
            },
    {
        let owned = name.to_owned();
        self.find(&owned)
    }

    /// Whether `name` is bound.
    pub fn contains_key(&self, name: &str) -> (b: bool)
        ensures
            b == self@.contains_key(name@),
    {
        let owned = name.to_owned();
        match self.position(&owned) {
            Some(k) => {
                proof {
                    lemma_bindings_names(self.entries@, name@);
                }
                true
            },
            None => false,
        }
    }

    /// Binds `name` to `value`. A name bound before keeps its place among
    /// the entries and loses its old value; a new name comes last.
    pub fn insert(&mut self, name: String, value: V)
        ensures
            final(self)@ == old(self)@.insert(name@, value),
            final(self).entries() == inserted(old(self).entries(), name, value),
    {
        proof {
            use_type_invariant(&*self);
        }
        let found = self.position(&name);
        let mut entries: Vec<(String, V)> = Vec::new();
        std::mem::swap(&mut self.entries, &mut entries);
        match found {
            Some(k) => {
                proof {
                    lemma_bindings_update(entries@, k as int, name, value);
                    lemma_bindings_value(entries@, k as int);
                    assert(entries@.update(k as int, (name, value)) =~= replaced(
                        entries@,
                        name,
                        value,
                    )) by {
                        assert forall|i: int| 0 <= i < entries@.len() && i != k implies (
                        #[trigger] entries@[i]).0@ != name@ by {
                            if i < k {
                                assert(entries@[i].0@ != entries@[k as int].0@);
                            } else {
                                assert(entries@[k as int].0@ != entries@[i].0@);
                            }
                        }
                    }
                }
                entries.set(k, (name, value));
            },
            None => {
                proof {
                    lemma_bindings_push(entries@, name, value);
                }
                entries.push((name, value));
            },
        }
        self.entries = entries;
    }
}

impl<V> NameMap<V> {
    /// Adds an entry whose name is not bound yet, at the end.
    pub(crate) fn push_new(&mut self, name: String, value: V)
        requires
            !old(self)@.contains_key(name@),
        ensures
            final(self)@ == old(self)@.insert(name@, value),
            final(self).entries() == old(self).entries().push((name, value)),
    {
        proof {
            use_type_invariant(&*self);
            lemma_bindings_push(self.entries@, name, value);
        }
        let mut entries: Vec<(String, V)> = Vec::new();
        std::mem::swap(&mut self.entries, &mut entries);
        entries.push((name, value));
        self.entries = entries;
    }

    /// The entries in their order, as a list of pairs.
    pub fn into_entries(self) -> (pairs: Vec<(String, V)>)
        ensures
            pairs@ == self.entries(),
            self.is_consistent(),
    {
        proof {
            use_type_invariant(&self);
        }
        self.entries
    }
}

impl<V: Copy> NameMap<V> {
    /// Binds every name of `other` to the value it has there. Names bound
    /// here and not there keep their values.
    pub fn extend(&mut self, other: &NameMap<V>)
        ensures
            final(self)@ == old(self)@.union_prefer_right(other@),
            final(self).entries() == extended(old(self).entries(), other.entries()),
    {
        let n = other.len();
        let mut i: usize = 0;
        assert(other.entries().take(0) =~= Seq::<(String, V)>::empty());
        assert(self@ =~= old(self)@.union_prefer_right(bindings(other.entries().take(0))));
        while i < n
            invariant
                i <= n,
                n == other.entries().len(),
                self@ == old(self)@.union_prefer_right(bindings(other.entries().take(i as int))),
                self.entries() == extended(old(self).entries(), other.entries().take(i as int)),
            decreases n - i,
        {
            let ghost prefix = other.entries().take(i as int);
            let name = other.name_at(i).clone();
            let value: V = *other.value_at(i);
            self.insert(name, value);
            proof {
                let longer = other.entries().take(i + 1);
                assert(longer.drop_last() =~= prefix);
                assert(longer.last() == other.entries()[i as int]);
                assert(self@ =~= old(self)@.union_prefer_right(bindings(longer)));
            }
            i = i + 1;
        }
        assert(other.entries().take(n as int) =~= other.entries());
    }
}

impl<V: Copy> Clone for NameMap<V> {
    fn clone(&self) -> (copy: Self)
        ensures
            copy@ == self@,
            copy.entries() == self.entries(),
    {
        proof {
            use_type_invariant(self);
        }
        let mut entries: Vec<(String, V)> = Vec::new();
        let mut i: usize = 0;
        while i < self.entries.len()
            invariant
                i <= self.entries@.len(),
                entries@.len() == i,
                forall|k: int| 0 <= k < i ==> #[trigger] entries@[k] == self.entries@[k],
            decreases self.entries@.len() - i,
        {
            let value: V = self.entries[i].1;
            entries.push((self.entries[i].0.clone(), value));
            i = i + 1;
        }
        assert(entries@ =~= self.entries@);
        NameMap { entries }
    }
}

} // verus!
