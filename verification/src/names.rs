//! Values by name, in ascending order of the names.

use vstd::prelude::*;

use crate::text::{
    ascending, lemma_text_before_irreflexive, lemma_text_before_total, lemma_text_before_transitive,
    precedes, same_text, text_before,
};

verus! {

/// Names of a list of entries.
pub open spec fn names_of<V>(entries: Seq<(String, V)>) -> Seq<Seq<char>> {
    entries.map_values(|entry: (String, V)| entry.0@)
}

/// The value of a name in a list of entries.
pub open spec fn value_in<V>(entries: Seq<(String, V)>, name: Seq<char>) -> Option<V>
    decreases entries.len(),
{
    if entries.len() == 0 {
        None
    } else if entries.last().0@ == name {
        Some(entries.last().1)
    } else {
        value_in(entries.drop_last(), name)
    }
}

proof fn lemma_value_at<V>(entries: Seq<(String, V)>, at: int)
    requires
        ascending(names_of(entries)),
        0 <= at < entries.len(),
    ensures
        value_in(entries, entries[at].0@) == Some(entries[at].1),
    decreases entries.len(),
{
    let last = entries.len() - 1;
    if at < last {
        let names = names_of(entries);
        assert(text_before(names[at], names[last]));
        lemma_text_before_irreflexive(names[at]);
        let head = entries.drop_last();
        assert(names_of(head) =~= names.drop_last());
        lemma_value_at(head, at);
    }
}

proof fn lemma_value_none<V>(entries: Seq<(String, V)>, name: Seq<char>)
    requires
        forall|i: int| 0 <= i < entries.len() ==> (#[trigger] entries[i]).0@ != name,
    ensures
        value_in(entries, name) is None,
    decreases entries.len(),
{
    if entries.len() > 0 {
        lemma_value_none(entries.drop_last(), name);
    }
}

proof fn lemma_value_some<V>(entries: Seq<(String, V)>, name: Seq<char>) -> (at: int)
    requires
        value_in(entries, name) is Some,
    ensures
        0 <= at < entries.len(),
        entries[at].0@ == name,
        value_in(entries, name) == Some(entries[at].1),
    decreases entries.len(),
{
    if entries.last().0@ == name {
        entries.len() - 1
    } else {
        lemma_value_some(entries.drop_last(), name)
    }
}

/// Values by name. The names stand in ascending order, each once.
#[derive(Debug)]
pub struct NameMap<V> {
    entries: Vec<(String, V)>,
}

impl<V> NameMap<V> {
    pub closed spec fn listed(&self) -> Seq<(String, V)> {
        self.entries@
    }

    /// The names with their values.
    pub open spec fn values(&self) -> Map<Seq<char>, V> {
        Map::new(
            |name: Seq<char>| value_in(self.listed(), name) is Some,
            |name: Seq<char>| value_in(self.listed(), name)->0,
        )
    }

    pub open spec fn wf(&self) -> bool {
        ascending(names_of(self.listed()))
    }

    /// Each listed name has its listed value.
    pub proof fn lemma_value_listed(&self, i: int)
        requires
            self.wf(),
            0 <= i < self.listed().len(),
        ensures
            self.values().contains_key(self.listed()[i].0@),
            self.values()[self.listed()[i].0@] == self.listed()[i].1,
    {
        lemma_value_at(self.entries@, i);
    }

    pub fn new() -> (map: NameMap<V>)
        ensures
            map.wf(),
            map.listed().len() == 0,
            map.values() == Map::<Seq<char>, V>::empty(),
    {
        let map = NameMap { entries: Vec::new() };
        assert(map.values() =~= Map::<Seq<char>, V>::empty());
        map
    }

    pub fn len(&self) -> (len: usize)
        ensures
            len == self.listed().len(),
    {
        self.entries.len()
    }

    /// The name at a place.
    pub fn name_at(&self, i: usize) -> (name: &str)
        requires
            i < self.listed().len(),
        ensures
            name@ == self.listed()[i as int].0@,
    {
        self.entries[i].0.as_str()
    }

    /// The value at a place.
    pub fn value_at(&self, i: usize) -> (value: &V)
        requires
            i < self.listed().len(),
        ensures
            *value == self.listed()[i as int].1,
    {
        &self.entries[i].1
    }

    pub fn get(&self, name: &str) -> (value: Option<&V>)
        requires
            self.wf(),
        ensures
            match value {
                Some(value) => self.values().contains_key(name@) && *value == self.values()[name@],
                None => !self.values().contains_key(name@),
            },
    {
        let mut i: usize = 0;
        while i < self.entries.len()
            invariant
                i <= self.entries.len(),
                self.wf(),
                forall|j: int| 0 <= j < i ==> (#[trigger] self.entries@[j]).0@ != name@,
            decreases self.entries.len() - i,
        {
            if same_text(self.entries[i].0.as_str(), name) {
                proof {
                    lemma_value_at(self.entries@, i as int);
                }
                return Some(&self.entries[i].1);
            }
            i = i + 1;
        }
        proof {
            lemma_value_none(self.entries@, name@);
        }
        None
    }

    /// Sets the value of a name, in place of any earlier one.
    pub fn insert(&mut self, name: String, value: V)
        requires
            old(self).wf(),
        ensures
            final(self).wf(),
            final(self).values() == old(self).values().insert(name@, value),
    {
        let ghost before = self.entries@;
        let ghost names = names_of(before);
        let mut place: usize = 0;
        while place < self.entries.len() && precedes(self.entries[place].0.as_str(), name.as_str())
            invariant
                place <= self.entries.len(),
                self.entries@ == before,
                names == names_of(before),
                forall|i: int| 0 <= i < place ==> text_before(#[trigger] names[i], name@),
            decreases self.entries.len() - place,
        {
            assert(names[place as int] == before[place as int].0@);
            place = place + 1;
        }
        let ghost at = place as int;
        let ghost mut rest = before;
        if place < self.entries.len() && same_text(
            self.entries[place].0.as_str(),
            name.as_str(),
        ) {
            let _ = self.entries.remove(place);
            proof {
                rest = before.remove(at);
            }
        }
        let ghost label = name@;
        self.entries.insert(place, (name, value));
        proof {
            let after = self.entries@;
            let left = names_of(rest);
            let longer = names_of(after);
            assert(after =~= rest.insert(at, (name, value)));
            assert forall|i: int| 0 <= i < at implies #[trigger] left[i] == names[i] by {}
            assert forall|i: int| at <= i < left.len() implies text_before(
                label,
                #[trigger] left[i],
            ) by {
                let from = if rest == before {
                    i
                } else {
                    i + 1
                };
                assert(left[i] == names[from]);
                assert(names[at] == before[at].0@);
                lemma_text_before_total(label, names[at]);
                if from > at {
                    if names[at] == label {
                        assert(text_before(names[at], names[from]));
                    } else {
                        lemma_text_before_transitive(label, names[at], names[from]);
                    }
                }
            }
            assert forall|i: int, j: int| 0 <= i < j < longer.len() implies text_before(
                #[trigger] longer[i],
                #[trigger] longer[j],
            ) by {
                if i < at {
                    assert(longer[i] == names[i]);
                    if j == at {
                        assert(longer[j] == label);
                    } else if j < at {
                        assert(longer[j] == names[j]);
                    } else {
                        assert(longer[j] == left[j - 1]);
                        lemma_text_before_transitive(names[i], label, left[j - 1]);
                    }
                } else if i == at {
                    assert(longer[i] == label);
                    assert(longer[j] == left[j - 1]);
                } else {
                    assert(longer[i] == left[i - 1]);
                    assert(longer[j] == left[j - 1]);
                    let shift = if rest == before {
                        0int
                    } else {
                        1
                    };
                    assert(left[i - 1] == names[i - 1 + shift]);
                    assert(left[j - 1] == names[j - 1 + shift]);
                }
            }
            assert forall|key: Seq<char>| #[trigger] value_in(after, key) == (if key == label {
                Some(value)
            } else {
                value_in(before, key)
            }) by {
                if key == label {
                    lemma_value_at(after, at);
                } else if value_in(before, key) is Some {
                    let k = lemma_value_some(before, key);
                    let moved = if k < at {
                        k
                    } else if rest == before {
                        k + 1
                    } else {
                        k
                    };
                    assert(after[moved] == before[k]);
                    lemma_value_at(after, moved);
                } else {
                    assert forall|i: int| 0 <= i < after.len() implies (#[trigger] after[i]).0@
                        != key by {
                        if i != at {
                            let k = if i < at {
                                i
                            } else if rest == before {
                                i - 1
                            } else {
                                i
                            };
                            assert(after[i] == before[k]);
                            if before[k].0@ == key {
                                lemma_value_at(before, k);
                            }
                        }
                    }
                    lemma_value_none(after, key);
                }
            }
            assert(self.values() =~= old(self).values().insert(label, value));
        }
    }
}

/// A set of names, in ascending order.
#[derive(Debug)]
pub struct NameSet {
    names: NameMap<bool>,
}

impl NameSet {
    pub closed spec fn listed(&self) -> Seq<Seq<char>> {
        names_of(self.names.listed())
    }

    pub closed spec fn members(&self) -> Set<Seq<char>> {
        self.names.values().dom()
    }

    pub closed spec fn wf(&self) -> bool {
        self.names.wf()
    }

    /// The names stand in ascending order, and are the members.
    pub proof fn lemma_listed(&self)
        requires
            self.wf(),
        ensures
            ascending(self.listed()),
            forall|name: Seq<char>| self.members().contains(name) <==> self.listed().contains(name),
    {
        let entries = self.names.listed();
        assert forall|name: Seq<char>|
            self.members().contains(name) <==> self.listed().contains(name) by {
            if self.members().contains(name) {
                let at = lemma_value_some(entries, name);
                assert(self.listed()[at] == name);
            }
            if self.listed().contains(name) {
                let at = self.listed().index_of(name);
                assert(entries[at].0@ == name);
                lemma_value_at(entries, at);
            }
        }
    }

    pub fn new() -> (set: NameSet)
        ensures
            set.wf(),
            set.members() == Set::<Seq<char>>::empty(),
    {
        let set = NameSet { names: NameMap::new() };
        assert(set.members() =~= Set::<Seq<char>>::empty());
        set
    }

    pub fn insert(&mut self, name: String)
        requires
            old(self).wf(),
        ensures
            final(self).wf(),
            final(self).members() == old(self).members().insert(name@),
    {
        let ghost before = self.members();
        let ghost label = name@;
        self.names.insert(name, true);
        assert(self.members() =~= before.insert(label));
    }

    pub fn contains(&self, name: &str) -> (held: bool)
        requires
            self.wf(),
        ensures
            held == self.members().contains(name@),
    {
        match self.names.get(name) {
            Some(_) => true,
            None => false,
        }
    }

    pub fn len(&self) -> (len: usize)
        ensures
            len == self.listed().len(),
    {
        self.names.len()
    }

    /// The name at a place.
    pub fn at(&self, i: usize) -> (name: &str)
        requires
            i < self.listed().len(),
        ensures
            name@ == self.listed()[i as int],
    {
        self.names.name_at(i)
    }

    /// The names of a list.
    pub fn from_list(list: &Vec<String>) -> (set: NameSet)
        ensures
            set.wf(),
            forall|name: Seq<char>| #[trigger]
                set.members().contains(name) <==> crate::text::texts(list@).contains(name),
    {
        let mut set = NameSet::new();
        let mut i: usize = 0;
        while i < list.len()
            invariant
                i <= list.len(),
                set.wf(),
                forall|name: Seq<char>| #[trigger]
                    set.members().contains(name) <==> crate::text::texts(
                        list@.take(i as int),
                    ).contains(name),
            decreases list.len() - i,
        {
            let ghost before = crate::text::texts(list@.take(i as int));
            set.insert(list[i].clone());
            proof {
                let now = crate::text::texts(list@.take(i + 1));
                assert(now =~= before.push(list@[i as int]@));
                assert forall|name: Seq<char>| #[trigger]
                    set.members().contains(name) <==> now.contains(name) by {
                    if now.contains(name) {
                        let k = now.index_of(name);
                        if k < before.len() {
                            assert(before[k] == name);
                        }
                    }
                    if before.contains(name) {
                        let k = before.index_of(name);
                        assert(now[k] == name);
                    }
                    assert(now[before.len() as int] == list@[i as int]@);
                }
            }
            i = i + 1;
        }
        assert(list@.take(i as int) =~= list@);
        set
    }
}

/// The value under a name is that of the entry with the name.
pub proof fn law_values_are_those_of_their_names<V>(entries: Seq<(String, V)>, i: int, name: Seq<char>)
    requires
        ascending(names_of(entries)),
    ensures
        0 <= i < entries.len() ==> value_in(entries, entries[i].0@) == Some(entries[i].1),
        value_in(entries, name) is None <==> forall|k: int|
            0 <= k < entries.len() ==> (#[trigger] entries[k]).0@ != name,
{
    if 0 <= i < entries.len() {
        lemma_only_entry(entries, i);
    }
    if value_in(entries, name) is Some {
        let at = lemma_value_some(entries, name);
        assert(entries[at].0@ == name);
    } else if exists|k: int| 0 <= k < entries.len() && (#[trigger] entries[k]).0@ == name {
        let k = choose|k: int| 0 <= k < entries.len() && (#[trigger] entries[k]).0@ == name;
        lemma_only_entry(entries, k);
    }
}

proof fn lemma_only_entry<V>(entries: Seq<(String, V)>, i: int)
    requires
        ascending(names_of(entries)),
        0 <= i < entries.len(),
    ensures
        value_in(entries, entries[i].0@) == Some(entries[i].1),
    decreases entries.len(),
{
    let head = entries.drop_last();
    let names = names_of(entries);
    if i < head.len() {
        assert(text_before(names[i], names[entries.len() - 1]));
        crate::text::lemma_text_before_irreflexive(names[i]);
        assert(names_of(head) =~= names.drop_last());
        assert forall|a: int, b: int| 0 <= a < b < names_of(head).len() implies text_before(
            #[trigger] names_of(head)[a],
            #[trigger] names_of(head)[b],
        ) by {
            assert(text_before(names[a], names[b]));
        }
        lemma_only_entry(head, i);
    }
}

} // verus!
