//! Sets of names and maps keyed by names.
//!
//! Both keep their names in the order in which they first came in, and hold
//! each name once. The order is an implementation matter: contracts speak of a
//! [`NameSet`] as the set of its names and of a [`NameMap`] as the map from its
//! names to their values.

use vstd::prelude::*;

verus! {

/// A name as contracts see it.
pub type Name = Seq<char>;

/// The names that a sequence of strings spells.
pub open spec fn names_of(strings: Seq<String>) -> Seq<Name> {
    strings.map_values(|s: String| s@)
}

/// Whether `strings` lists the names of `set`, each of them once.
pub open spec fn lists(strings: Seq<String>, set: Set<Name>) -> bool {
    &&& names_of(strings).no_duplicates()
    &&& names_of(strings).to_set() == set
}

/// A set of names.
#[derive(Debug)]
pub struct NameSet {
    names: Vec<String>,
}

impl View for NameSet {
    type V = Set<Name>;

    open spec fn view(&self) -> Set<Name> {
        self.order().to_set()
    }
}

impl NameSet {
    /// The names in the order in which they are held.
    pub closed spec fn order(&self) -> Seq<Name> {
        names_of(self.names@)
    }

    /// Each name is held once.
    pub open spec fn wf(&self) -> bool {
        self.order().no_duplicates()
    }

    /// The empty set.
    pub fn new() -> (set: Self)
        ensures
            set.wf(),
            set@ == Set::<Name>::empty(),
            set.order() == Seq::<Name>::empty(),
    {
        let set = NameSet { names: Vec::new() };
        assert(set.order() =~= Seq::<Name>::empty());
        set
    }

    /// The set of the given names. A name that is given twice is held once.
    pub fn from_vec(names: Vec<String>) -> (set: Self)
        ensures
            set.wf(),
            set@ == names_of(names@).to_set(),
    {
        let mut set = NameSet::new();
        set.extend_from_list(&names);
        assert(set@ =~= names_of(names@).to_set());
        set
    }

    /// The number of names.
    pub fn len(&self) -> (len: usize)
        ensures
            len == self.order().len(),
            self.wf() ==> len == self@.len(),
    {
        proof {
            if self.wf() {
                self.order().unique_seq_to_set();
            }
        }
        self.names.len()
    }

    /// Whether the set holds no name.
    pub fn is_empty(&self) -> (empty: bool)
        ensures
            empty == (self@ == Set::<Name>::empty()),
            empty == (self.order().len() == 0),
    {
        let empty = self.names.len() == 0;
        proof {
            if empty {
                assert(self@ =~= Set::<Name>::empty());
            } else {
                assert(self.order().contains(self.order()[0]));
                assert(self@.contains(self.order()[0]));
            }
        }
        empty
    }

    /// The name at a position.
    pub fn at(&self, i: usize) -> (name: &String)
        requires
            i < self.order().len(),
        ensures
            name@ == self.order()[i as int],
            self@.contains(name@),
    {
        assert(self.order().contains(self.order()[i as int]));
        &self.names[i]
    }

    /// The position of a name.
    fn position(&self, name: &String) -> (found: Option<usize>)
        ensures
            match found {
                Some(i) => i < self.order().len() && self.order()[i as int] == name@,
                None => !self@.contains(name@),
            },
    {
        let mut i: usize = 0;
        while i < self.names.len()
            invariant
                i <= self.names@.len(),
                forall|j: int| 0 <= j < i ==> self.order()[j] != name@,
            decreases self.names@.len() - i,
        {
            if self.names[i] == *name {
                return Some(i);
            }
            i += 1;
        }
        None
    }

    /// Whether the set holds a name.
    pub fn contains(&self, name: &String) -> (held: bool)
        ensures
            held == self@.contains(name@),
    {
        match self.position(name) {
            Some(i) => {
                assert(self.order().contains(self.order()[i as int]));
                true
            },
            None => false,
        }
    }

    /// Adds a name. Returns whether it is new.
    pub fn insert(&mut self, name: String) -> (new: bool)
        requires
            old(self).wf(),
        ensures
            final(self).wf(),
            final(self)@ == old(self)@.insert(name@),
            new == !old(self)@.contains(name@),
            new ==> final(self).order() == old(self).order().push(name@),
            !new ==> final(self).order() == old(self).order(),
    {
        if self.contains(&name) {
            assert(self@ =~= self@.insert(name@));
            return false;
        }
        let ghost before = self.order();
        let ghost added = name@;
        self.names.push(name);
        proof {
            assert(self.order() =~= before.push(added));
            lemma_push_to_set(before, added);
            assert(!before.contains(added)) by {
                if before.contains(added) {
                    assert(before.to_set().contains(added));
                }
            }
        }
        true
    }

    /// Takes a name out. Returns whether it was there.
    pub fn remove(&mut self, name: &String) -> (held: bool)
        requires
            old(self).wf(),
        ensures
            final(self).wf(),
            final(self)@ == old(self)@.remove(name@),
            held == old(self)@.contains(name@),
    {
        match self.position(name) {
            Some(i) => {
                let ghost before = self.order();
                self.names.remove(i);
                proof {
                    assert(self.order() =~= before.remove(i as int));
                    lemma_remove_to_set(before, i as int);
                    assert(before.contains(before[i as int]));
                }
                true
            },
            None => {
                assert(self@ =~= self@.remove(name@));
                false
            },
        }
    }

    /// Adds the names of another set.
    pub fn extend_from_set(&mut self, names: &NameSet)
        requires
            old(self).wf(),
        ensures
            final(self).wf(),
            final(self)@ == old(self)@.union(names@),
    {
        self.extend_from_list(&names.names);
    }

    /// Adds the names of a list.
    pub fn extend_from_list(&mut self, names: &Vec<String>)
        requires
            old(self).wf(),
        ensures
            final(self).wf(),
            final(self)@ == old(self)@.union(names_of(names@).to_set()),
    {
        let mut i: usize = 0;
        let ghost before = self@;
        let ghost all = names_of(names@);
        assert(before.union(all.take(0).to_set()) =~= before);
        while i < names.len()
            invariant
                self.wf(),
                i <= names@.len(),
                all == names_of(names@),
                self@ == before.union(all.take(i as int).to_set()),
            decreases names@.len() - i,
        {
            self.insert(names[i].clone());
            proof {
                let seen = all.take(i as int);
                assert(all.take(i + 1) =~= seen.push(all[i as int]));
                lemma_push_to_set(seen, all[i as int]);
                assert(self@ =~= before.union(seen.to_set().insert(all[i as int])));
            }
            i += 1;
        }
        assert(all.take(i as int) =~= all);
    }

    /// A set that holds the same names.
    pub fn copy(&self) -> (set: Self)
        ensures
            set.order() == self.order(),
            set@ == self@,
            self.wf() ==> set.wf(),
    {
        let mut names: Vec<String> = Vec::new();
        let mut i: usize = 0;
        while i < self.names.len()
            invariant
                i <= self.names@.len(),
                names_of(names@) == self.order().take(i as int),
            decreases self.names@.len() - i,
        {
            let ghost before = names@;
            names.push(self.names[i].clone());
            proof {
                assert(names_of(names@) =~= names_of(before).push(self.order()[i as int]));
                assert(self.order().take(i + 1) =~= self.order().take(i as int).push(
                    self.order()[i as int],
                ));
            }
            i += 1;
        }
        assert(self.order().take(i as int) =~= self.order());
        NameSet { names }
    }

    /// The names as a list.
    pub fn to_vec(&self) -> (list: Vec<String>)
        requires
            self.wf(),
        ensures
            lists(list@, self@),
    {
        self.copy().names
    }
}

/// A map from names to values.
#[derive(Debug)]
pub struct NameMap<V> {
    entries: Vec<(String, V)>,
}

impl<V> View for NameMap<V> {
    type V = Map<Name, V>;

    closed spec fn view(&self) -> Map<Name, V> {
        Map::new(
            |name: Name| self.order().contains(name),
            |name: Name| self.entries@[self.order().index_of(name)].1,
        )
    }
}

impl<V> NameMap<V> {
    /// The names in the order in which they are held.
    pub closed spec fn order(&self) -> Seq<Name> {
        self.entries@.map_values(|entry: (String, V)| entry.0@)
    }

    /// Each name is held once.
    pub open spec fn wf(&self) -> bool {
        self.order().no_duplicates()
    }

    /// What is held at a position is what the map gives for the name there.
    proof fn lemma_entry(&self, i: int)
        requires
            self.wf(),
            0 <= i < self.order().len(),
        ensures
            self@.dom().contains(self.order()[i]),
            self@[self.order()[i]] == self.entries@[i].1,
    {
        let name = self.order()[i];
        assert(self.order().contains(name));
        let j = self.order().index_of(name);
        assert(self.order()[j] == name);
    }

    /// The names of the map are those that it lists.
    pub proof fn lemma_order(&self)
        ensures
            forall|name: Name| #[trigger]
                self@.dom().contains(name) <==> self.order().contains(name),
            self@.dom() == self.order().to_set(),
    {
        assert(self@.dom() =~= self.order().to_set());
    }

    /// The empty map.
    pub fn new() -> (map: Self)
        ensures
            map.wf(),
            map@ == Map::<Name, V>::empty(),
    {
        let map = NameMap { entries: Vec::new() };
        assert(map@ =~= Map::<Name, V>::empty());
        map
    }

    /// The number of names.
    pub fn len(&self) -> (len: usize)
        ensures
            len == self.order().len(),
    {
        self.entries.len()
    }

    /// Whether the map holds no name.
    pub fn is_empty(&self) -> (empty: bool)
        ensures
            empty == (self@.dom() == Set::<Name>::empty()),
    {
        let empty = self.entries.len() == 0;
        proof {
            if empty {
                assert(self@.dom() =~= Set::<Name>::empty());
            } else {
                assert(self.order().contains(self.order()[0]));
                assert(self@.dom().contains(self.order()[0]));
            }
        }
        empty
    }

    /// The name at a position.
    pub fn name_at(&self, i: usize) -> (name: &String)
        requires
            i < self.order().len(),
        ensures
            name@ == self.order()[i as int],
            self@.dom().contains(name@),
    {
        assert(self.order().contains(self.order()[i as int]));
        &self.entries[i].0
    }

    /// The value at a position.
    pub fn value_at(&self, i: usize) -> (value: &V)
        requires
            self.wf(),
            i < self.order().len(),
        ensures
            self@.dom().contains(self.order()[i as int]),
            *value == self@[self.order()[i as int]],
    {
        proof {
            self.lemma_entry(i as int);
        }
        &self.entries[i].1
    }

    /// The position of a name.
    fn position(&self, name: &String) -> (found: Option<usize>)
        ensures
            match found {
                Some(i) => i < self.order().len() && self.order()[i as int] == name@,
                None => !self@.dom().contains(name@),
            },
    {
        let mut i: usize = 0;
        while i < self.entries.len()
            invariant
                i <= self.entries@.len(),
                forall|j: int| 0 <= j < i ==> self.order()[j] != name@,
            decreases self.entries@.len() - i,
        {
            if self.entries[i].0 == *name {
                return Some(i);
            }
            i += 1;
        }
        None
    }

    /// Whether the map holds a name.
    pub fn contains_key(&self, name: &String) -> (held: bool)
        ensures
            held == self@.dom().contains(name@),
    {
        match self.position(name) {
            Some(i) => {
                assert(self.order().contains(self.order()[i as int]));
                true
            },
            None => false,
        }
    }

    /// The value of a name.
    pub fn get(&self, name: &String) -> (value: Option<&V>)
        requires
            self.wf(),
        ensures
            match value {
                Some(v) => self@.dom().contains(name@) && *v == self@[name@],
                None => !self@.dom().contains(name@),
            },
    {
        match self.position(name) {
            Some(i) => {
                proof {
                    self.lemma_entry(i as int);
                }
                Some(&self.entries[i].1)
            },
            None => None,
        }
    }

    /// Gives a name a value, in place of the one that it had.
    pub fn insert(&mut self, name: String, value: V)
        requires
            old(self).wf(),
        ensures
            final(self).wf(),
            final(self)@ == old(self)@.insert(name@, value),
    {
        let ghost before = *self;
        let ghost added = name@;
        match self.position(&name) {
            Some(i) => {
                self.entries.set(i, (name, value));
                proof {
                    assert(self.order() =~= before.order());
                    assert forall|other: Name| #[trigger]
                        before.order().contains(other) implies self@[other] == before@.insert(
                        added,
                        value,
                    )[other] by {
                        let j = before.order().index_of(other);
                        assert(before.order()[j] == other);
                        self.lemma_entry(j);
                        before.lemma_entry(j);
                    }
                    self.lemma_entry(i as int);
                    assert(self@ =~= before@.insert(added, value));
                }
            },
            None => {
                self.entries.push((name, value));
                proof {
                    assert(self.order() =~= before.order().push(added));
                    assert(!before.order().contains(added));
                    assert(self.order()[before.order().len() as int] == added);
                    self.lemma_entry(before.order().len() as int);
                    assert forall|other: Name|
                        self.order().contains(other) implies before.order().contains(other)
                        || other == added by {
                        let j = self.order().index_of(other);
                        assert(self.order()[j] == other);
                        if j < before.order().len() {
                            assert(before.order()[j] == other);
                        }
                    }
                    assert forall|other: Name| #[trigger]
                        before.order().contains(other) implies self.order().contains(other)
                        && self@[other] == before@[other] by {
                        let j = before.order().index_of(other);
                        assert(before.order()[j] == other);
                        assert(self.order()[j] == other);
                        self.lemma_entry(j);
                        before.lemma_entry(j);
                    }
                    assert(self@ =~= before@.insert(added, value));
                }
            },
        }
    }
}

/// What a list holds after a name was pushed onto it.
pub proof fn lemma_push_contains(list: Seq<Name>, name: Name)
    ensures
        forall|other: Name| #[trigger]
            list.push(name).contains(other) <==> list.contains(other) || other == name,
{
    assert forall|other: Name| #[trigger] list.push(name).contains(other) implies list.contains(
        other,
    ) || other == name by {
        let i = list.push(name).index_of(other);
        if i < list.len() {
            assert(list[i] == other);
        }
    }
    assert forall|other: Name| list.contains(other) || other == name implies #[trigger] list.push(
        name,
    ).contains(other) by {
        if other == name {
            assert(list.push(name)[list.len() as int] == name);
        } else {
            let i = list.index_of(other);
            assert(list.push(name)[i] == other);
        }
    }
}

/// Pushing a name onto a list adds it to the set that is listed.
pub proof fn lemma_push_to_set(list: Seq<Name>, name: Name)
    ensures
        list.push(name).to_set() == list.to_set().insert(name),
{
    lemma_push_contains(list, name);
    assert(list.push(name).to_set() =~= list.to_set().insert(name));
}

/// Taking a position out of a list without duplicates takes the name there out
/// of the set that is listed, and leaves a list without duplicates.
proof fn lemma_remove_to_set(list: Seq<Name>, i: int)
    requires
        list.no_duplicates(),
        0 <= i < list.len(),
    ensures
        list.remove(i).no_duplicates(),
        list.remove(i).to_set() == list.to_set().remove(list[i]),
{
    let rest = list.remove(i);
    let less = list.to_set().remove(list[i]);
    assert forall|other: Name| less.contains(other) implies #[trigger] rest.to_set().contains(
        other,
    ) by {
        let j = list.index_of(other);
        assert(list[j] == other);
        if j < i {
            assert(rest[j] == other);
        } else {
            assert(rest[j - 1] == other);
        }
    }
    assert forall|other: Name| #[trigger] rest.to_set().contains(other) implies less.contains(
        other,
    ) by {
        let j = rest.index_of(other);
        assert(rest[j] == other);
        if j < i {
            assert(list[j] == other);
        } else {
            assert(list[j + 1] == other);
        }
    }
    assert(rest.to_set() =~= less);
}

/// A list of strings lists a set if and only if it holds exactly the names of the
/// set, and none of them twice.
pub proof fn lists_hold_each_name_once(strings: Seq<String>, set: Set<Name>)
    ensures
        lists(strings, set) <==> {
            &&& forall|i: int|
                0 <= i < strings.len() ==> set.contains((#[trigger] strings[i])@)
            &&& forall|name: Name| #[trigger]
                set.contains(name) ==> exists|i: int|
                    0 <= i < strings.len() && (#[trigger] strings[i])@ == name
            &&& forall|i: int, j: int|
                0 <= i < j < strings.len() ==> (#[trigger] strings[i])@ != (#[trigger] strings[j])@
        },
{
    let names = names_of(strings);
    assert(forall|i: int|
        0 <= i < strings.len() ==> #[trigger] names[i] == strings[i]@);
    if lists(strings, set) {
        assert forall|i: int| 0 <= i < strings.len() implies set.contains(
            (#[trigger] strings[i])@,
        ) by {
            assert(names.contains(names[i]));
            assert(names.to_set().contains(names[i]));
        }
        assert forall|name: Name| #[trigger] set.contains(name) implies exists|i: int|
            0 <= i < strings.len() && (#[trigger] strings[i])@ == name by {
            assert(names.to_set().contains(name));
            let i = names.index_of(name);
            assert(strings[i]@ == name);
        }
        assert forall|i: int, j: int| 0 <= i < j < strings.len() implies (
        #[trigger] strings[i])@ != (#[trigger] strings[j])@ by {
            assert(names[i] != names[j]);
        }
    }
    if {
        &&& forall|i: int| 0 <= i < strings.len() ==> set.contains((#[trigger] strings[i])@)
        &&& forall|name: Name| #[trigger]
            set.contains(name) ==> exists|i: int|
                0 <= i < strings.len() && (#[trigger] strings[i])@ == name
        &&& forall|i: int, j: int|
            0 <= i < j < strings.len() ==> (#[trigger] strings[i])@ != (#[trigger] strings[j])@
    } {
        assert forall|name: Name| names.to_set().contains(name) <==> set.contains(name) by {
            if names.to_set().contains(name) {
                let i = names.index_of(name);
                assert(strings[i]@ == name);
            }
            if set.contains(name) {
                let i = choose|i: int| 0 <= i < strings.len() && (#[trigger] strings[i])@ == name;
                assert(names[i] == name);
            }
        }
        assert(names.to_set() =~= set);
        assert forall|i: int, j: int| 0 <= i < j < names.len() implies names[i] != names[j] by {
            assert(strings[i]@ != strings[j]@);
        }
    }
}

} // verus!
