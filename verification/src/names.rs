//! Collections keyed by client names.
//!
//! Both collections keep their names in the order in which they arrived, so
//! that everything the game does to "every client" has a definite order.
use vstd::prelude::*;

verus! {

/// What a client name is in contracts: its characters.
pub type Name = Seq<char>;

/// The names of `names` other than `name`, in their order.
pub open spec fn without(names: Seq<Name>, name: Name) -> Seq<Name> {
    names.filter(|other: Name| other != name)
}

/// A set of names.
#[derive(Debug)]
pub struct NameSet {
    names: Vec<String>,
}

impl View for NameSet {
    type V = Seq<Name>;

    closed spec fn view(&self) -> Seq<Name> {
        self.names@.map_values(|name: String| name@)
    }
}

impl NameSet {
    /// No name occurs twice.
    #[verifier::type_invariant]
    pub(crate) closed spec fn distinct(self) -> bool {
        self@.no_duplicates()
    }

    /// The names are all different.
    pub(crate) proof fn lemma_names(&self)
        requires
            self.distinct(),
        ensures
            self@.no_duplicates(),
    {
    }

    /// The set without any name.
    pub fn new() -> (set: NameSet)
        ensures
            set@ == Seq::<Name>::empty(),
    {
        let set = NameSet { names: Vec::new() };
        assert(set@ =~= Seq::<Name>::empty());
        set
    }

    /// How many names there are.
    pub fn len(&self) -> (len: usize)
        ensures
            len == self@.len(),
            len == self@.to_set().len(),
            self@.no_duplicates(),
    {
        proof {
            use_type_invariant(self);
            self@.unique_seq_to_set();
        }
        self.names.len()
    }

    /// The name at a place of the arrival order.
    pub fn at(&self, index: usize) -> (name: &String)
        requires
            index < self@.len(),
        ensures
            name@ == self@[index as int],
    {
        &self.names[index]
    }

    /// Where a name stands in the arrival order, if it is there at all.
    fn position(&self, name: &String) -> (position: Option<usize>)
        ensures
            match position {
                Some(index) => index < self@.len() && self@[index as int] == name@,
                None => !self@.contains(name@),
            },
    {
        let mut index: usize = 0;
        while index < self.names.len()
            invariant
                index <= self.names@.len(),
                forall|i: int| 0 <= i < index ==> self@[i] != name@,
            decreases self.names@.len() - index,
        {
            assert(self@[index as int] == self.names@[index as int]@);
            if self.names[index] == *name {
                return Some(index);
            }
            index = index + 1;
        }
        None
    }

    /// Whether a name is in the set.
    pub fn contains(&self, name: &String) -> (found: bool)
        ensures
            found == self@.contains(name@),
            found == self@.to_set().contains(name@),
    {
        match self.position(name) {
            Some(index) => {
                assert(self@[index as int] == name@);
                true
            },
            None => false,
        }
    }

    /// Adds a name, and says whether it was missing.
    pub fn insert(&mut self, name: String) -> (added: bool)
        ensures
            added == !old(self)@.contains(name@),
            final(self)@ == if added {
                old(self)@.push(name@)
            } else {
                old(self)@
            },
            final(self)@.to_set() == old(self)@.to_set().insert(name@),
    {
        proof {
            use_type_invariant(&*self);
        }
        if self.contains(&name) {
            assert(self@.to_set() =~= self@.to_set().insert(name@));
            return false;
        }
        let ghost before = self@;
        let mut names: Vec<String> = Vec::new();
        std::mem::swap(&mut names, &mut self.names);
        let ghost text = name@;
        names.push(name);
        assert(names@.map_values(|name: String| name@) =~= before.push(text));
        self.names = names;
        assert(self@ =~= before.push(text));
        proof {
            before.lemma_push_to_set_commute(text);
        }
        true
    }

    /// Takes a name out, and says whether it was there.
    pub fn remove(&mut self, name: &String) -> (removed: bool)
        ensures
            removed == old(self)@.contains(name@),
            final(self)@ == without(old(self)@, name@),
            final(self)@.to_set() == old(self)@.to_set().remove(name@),
    {
        proof {
            use_type_invariant(&*self);
        }
        match self.position(name) {
            Some(index) => {
                let ghost before = self@;
                let mut names: Vec<String> = Vec::new();
                std::mem::swap(&mut names, &mut self.names);
                let _gone = names.remove(index);
                assert(names@.map_values(|name: String| name@) =~= before.remove(index as int));
                proof {
                    lemma_without(before, index as int);
                }
                self.names = names;
                assert(self@ =~= without(before, name@));
                true
            },
            None => {
                proof {
                    lemma_without_absent(self@, name@);
                }
                false
            },
        }
    }
}

/// A value that can be copied without changing what it stands for.
pub trait Replicate: View + Sized {
    /// A second value with the same meaning.
    fn replicate(&self) -> (copy: Self)
        ensures
            copy@ == self@,
    ;
}

impl Replicate for String {
    fn replicate(&self) -> (copy: String) {
        self.clone()
    }
}

/// A map from names to values.
#[derive(Debug)]
pub struct NameMap<V> {
    entries: Vec<(String, V)>,
}

impl<V> NameMap<V> {
    /// The names of the map, in the order in which they arrived.
    pub closed spec fn keys(&self) -> Seq<Name> {
        self.entries@.map_values(|entry: (String, V)| entry.0@)
    }

    /// No name occurs twice.
    #[verifier::type_invariant]
    pub(crate) closed spec fn distinct(self) -> bool {
        self.keys().no_duplicates()
    }
}

impl<V: View> View for NameMap<V> {
    type V = Map<Name, V::V>;

    closed spec fn view(&self) -> Map<Name, V::V> {
        Map::new(
            |name: Name| self.keys().contains(name),
            |name: Name| self.entries@[self.keys().index_of(name)].1@,
        )
    }
}

impl<V: View> NameMap<V> {
    /// What the entries say about the map.
    proof fn lemma_entries(&self)
        requires
            self.distinct(),
        ensures
            self.keys().no_duplicates(),
            self.keys().len() == self.entries@.len(),
            self.keys().to_set() == self@.dom(),
            self.keys().len() == self@.len(),
            forall|i: int|
                0 <= i < self.entries@.len() ==> {
                    &&& #[trigger] self.keys()[i] == self.entries@[i].0@
                    &&& self@.contains_key(self.keys()[i])
                    &&& self@[self.keys()[i]] == self.entries@[i].1@
                },
    {
        self.keys().unique_seq_to_set();
        assert(self.keys().to_set() =~= self@.dom());
        assert forall|i: int| 0 <= i < self.entries@.len() implies {
            &&& #[trigger] self.keys()[i] == self.entries@[i].0@
            &&& self@.contains_key(self.keys()[i])
            &&& self@[self.keys()[i]] == self.entries@[i].1@
        } by {
            let name = self.keys()[i];
            assert(self.keys().contains(name));
            assert(self.keys()[self.keys().index_of(name)] == name);
        }
    }

    /// The names in their order are the names of the map, each of them once.
    pub(crate) proof fn lemma_keys(&self)
        requires
            self.distinct(),
        ensures
            self.keys().no_duplicates(),
            self.keys().to_set() == self@.dom(),
    {
        self.lemma_entries();
    }

    /// The map without any name.
    pub fn new() -> (map: NameMap<V>)
        ensures
            map@ == Map::<Name, V::V>::empty(),
            map.keys() == Seq::<Name>::empty(),
    {
        let map: NameMap<V> = NameMap { entries: Vec::new() };
        assert(map.keys() =~= Seq::<Name>::empty());
        assert(map@ =~= Map::<Name, V::V>::empty());
        map
    }

    /// How many names there are.
    pub fn len(&self) -> (len: usize)
        ensures
            len == self.keys().len(),
            len == self@.len(),
            self.keys().no_duplicates(),
            self.keys().to_set() == self@.dom(),
    {
        proof {
            use_type_invariant(self);
            self.lemma_entries();
        }
        self.entries.len()
    }

    /// The name at a place of the arrival order.
    pub fn key_at(&self, index: usize) -> (name: &String)
        requires
            index < self.keys().len(),
        ensures
            name@ == self.keys()[index as int],
            self@.contains_key(name@),
    {
        proof {
            use_type_invariant(self);
            self.lemma_entries();
        }
        &self.entries[index].0
    }

    /// The value at a place of the arrival order.
    pub fn value_at(&self, index: usize) -> (value: &V)
        requires
            index < self.keys().len(),
        ensures
            value@ == self@[self.keys()[index as int]],
            self@.contains_key(self.keys()[index as int]),
    {
        proof {
            use_type_invariant(self);
            self.lemma_entries();
        }
        &self.entries[index].1
    }

    /// Where a name stands in the arrival order, if it is there at all.
    fn position(&self, name: &String) -> (position: Option<usize>)
        ensures
            match position {
                Some(index) => index < self.keys().len() && self.keys()[index as int] == name@,
                None => !self.keys().contains(name@),
            },
    {
        let mut index: usize = 0;
        while index < self.entries.len()
            invariant
                index <= self.entries@.len(),
                forall|i: int| 0 <= i < index ==> self.keys()[i] != name@,
            decreases self.entries@.len() - index,
        {
            assert(self.keys()[index as int] == self.entries@[index as int].0@);
            if self.entries[index].0 == *name {
                return Some(index);
            }
            index = index + 1;
        }
        None
    }

    /// Whether a name has a value.
    pub fn contains_key(&self, name: &String) -> (found: bool)
        ensures
            found == self@.contains_key(name@),
    {
        match self.position(name) {
            Some(index) => {
                assert(self.keys()[index as int] == name@);
                true
            },
            None => false,
        }
    }

    /// The value of a name.
    pub fn get(&self, name: &String) -> (value: Option<&V>)
        ensures
            match value {
                Some(value) => self@.contains_key(name@) && value@ == self@[name@],
                None => !self@.contains_key(name@),
            },
    {
        proof {
            use_type_invariant(self);
            self.lemma_entries();
        }
        match self.position(name) {
            Some(index) => Some(&self.entries[index].1),
            None => None,
        }
    }

    /// Gives a name a value, in place of the one it had.
    pub fn insert(&mut self, name: String, value: V)
        ensures
            final(self)@ == old(self)@.insert(name@, value@),
            final(self).keys() == if old(self)@.contains_key(name@) {
                old(self).keys()
            } else {
                old(self).keys().push(name@)
            },
    {
        proof {
            use_type_invariant(&*self);
            self.lemma_entries();
        }
        let ghost before = *self;
        let ghost key = name@;
        let ghost new_value = value@;
        let position = self.position(&name);
        let mut entries: Vec<(String, V)> = Vec::new();
        std::mem::swap(&mut entries, &mut self.entries);
        match position {
            Some(index) => {
                assert(before.keys().contains(key));
                entries.set(index, (name, value));
                assert(entries@.map_values(|entry: (String, V)| entry.0@) =~= before.keys());
            },
            None => {
                entries.push((name, value));
                assert(entries@.map_values(|entry: (String, V)| entry.0@) =~= before.keys().push(
                    key,
                ));
            },
        }
        self.entries = entries;
        proof {
            self.lemma_entries();
            let place = match position {
                Some(index) => index as int,
                None => before.keys().len() as int,
            };
            assert(self.keys()[place] == key);
            assert forall|other: Name| self@.contains_key(other) <==> before@.insert(
                key,
                new_value,
            ).contains_key(other) by {
                if before.keys().contains(other) {
                    let i = choose|i: int| 0 <= i < before.keys().len() && before.keys()[i] == other;
                    assert(self.keys()[i] == other);
                }
            }
            assert forall|other: Name| self@.contains_key(other) implies self@[other]
                == before@.insert(key, new_value)[other] by {
                let i = choose|i: int| 0 <= i < self.keys().len() && self.keys()[i] == other;
                assert(self.keys()[i] == other);
                if other != key {
                    assert(before.keys()[i] == other);
                }
            }
            assert(self@ =~= before@.insert(key, new_value));
        }
    }

    /// Takes a name and its value out.
    pub fn remove(&mut self, name: &String) -> (value: Option<V>)
        ensures
            match value {
                Some(value) => old(self)@.contains_key(name@) && value@ == old(self)@[name@],
                None => !old(self)@.contains_key(name@),
            },
            final(self)@ == old(self)@.remove(name@),
            final(self).keys() == without(old(self).keys(), name@),
    {
        proof {
            use_type_invariant(&*self);
            self.lemma_entries();
        }
        let ghost before = *self;
        match self.position(name) {
            Some(index) => {
                let mut entries: Vec<(String, V)> = Vec::new();
                std::mem::swap(&mut entries, &mut self.entries);
                let (_name, value) = entries.remove(index);
                assert(entries@.map_values(|entry: (String, V)| entry.0@) =~= before.keys().remove(
                    index as int,
                ));
                proof {
                    lemma_without(before.keys(), index as int);
                }
                self.entries = entries;
                proof {
                    self.lemma_entries();
                    assert forall|other: Name| self@.contains_key(other) implies self@[other]
                        == before@.remove(name@)[other] by {
                        let i = choose|i: int| 0 <= i < self.keys().len() && self.keys()[i] == other;
                        assert(self.keys()[i] == other);
                        let j = if i < index { i } else { i + 1 };
                        assert(before.keys()[j] == other);
                    }
                    assert(self@.dom() =~= before@.remove(name@).dom());
                    assert(self@ =~= before@.remove(name@));
                }
                Some(value)
            },
            None => {
                proof {
                    lemma_without_absent(self.keys(), name@);
                    assert(self@ =~= before@.remove(name@));
                }
                None
            },
        }
    }
}

impl<V: Replicate> NameMap<V> {
    /// A second map with the same names and values.
    pub fn replicate(&self) -> (map: NameMap<V>)
        ensures
            map@ == self@,
            map.keys() == self.keys(),
    {
        proof {
            use_type_invariant(self);
            self.lemma_entries();
        }
        let mut map: NameMap<V> = NameMap::new();
        let mut index: usize = 0;
        while index < self.entries.len()
            invariant
                index <= self.entries@.len(),
                self.keys().no_duplicates(),
                self.keys().len() == self.entries@.len(),
                map.keys() == self.keys().take(index as int),
                map@.dom() == map.keys().to_set(),
                forall|name: Name| map@.contains_key(name) ==> map@[name] == self@[name],
            decreases self.entries@.len() - index,
        {
            let name = self.key_at(index);
            let value = self.value_at(index);
            assert(!map.keys().contains(name@)) by {
                if map.keys().contains(name@) {
                    let i = choose|i: int| 0 <= i < map.keys().len() && map.keys()[i] == name@;
                    assert(self.keys()[i] == self.keys()[index as int]);
                }
            }
            let ghost before = map;
            map.insert(name.clone(), value.replicate());
            index = index + 1;
            proof {
                assert(map.keys() =~= self.keys().take(index as int));
                before.keys().lemma_push_to_set_commute(name@);
            }
        }
        assert(map.keys() =~= self.keys());
        assert(map@ =~= self@);
        map
    }
}

/// Taking out the only occurrence of a name leaves the others.
proof fn lemma_without(names: Seq<Name>, index: int)
    requires
        names.no_duplicates(),
        0 <= index < names.len(),
    ensures
        without(names, names[index]) == names.remove(index),
        names.remove(index).no_duplicates(),
        names.remove(index).to_set() == names.to_set().remove(names[index]),
    decreases names.len(),
{
    let name = names[index];
    let rest = names.drop_last();
    reveal(Seq::filter);
    if index == names.len() - 1 {
        lemma_without_absent(rest, name);
        assert(names.remove(index) =~= rest);
    } else {
        lemma_without(rest, index);
        assert(names.remove(index) =~= rest.remove(index).push(names.last()));
    }
    let left = names.remove(index);
    assert forall|other: Name| left.to_set().contains(other) <==> names.to_set().remove(
        name,
    ).contains(other) by {
        if left.contains(other) {
            let i = choose|i: int| 0 <= i < left.len() && left[i] == other;
            if i < index {
                assert(names[i] == other);
            } else {
                assert(names[i + 1] == other);
            }
        }
        if names.contains(other) && other != name {
            let i = choose|i: int| 0 <= i < names.len() && names[i] == other;
            if i < index {
                assert(left[i] == other);
            } else {
                assert(left[i - 1] == other);
            }
        }
    }
    assert(left.to_set() =~= names.to_set().remove(name));
}

/// Taking out a name that is not there changes nothing.
pub proof fn lemma_without_absent(names: Seq<Name>, name: Name)
    requires
        !names.contains(name),
    ensures
        without(names, name) == names,
        names.to_set() == names.to_set().remove(name),
    decreases names.len(),
{
    reveal(Seq::filter);
    if names.len() > 0 {
        let rest = names.drop_last();
        assert(names.last() != name);
        assert(!rest.contains(name)) by {
            if rest.contains(name) {
                let i = choose|i: int| 0 <= i < rest.len() && rest[i] == name;
                assert(names[i] == name);
            }
        }
        lemma_without_absent(rest, name);
        assert(rest.push(names.last()) =~= names);
    }
    assert(names.to_set() =~= names.to_set().remove(name));
}

} // verus!
