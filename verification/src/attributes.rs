use vstd::prelude::*;
use vstd::std_specs::cmp::PartialEqSpecImpl;

verus! {

/// The attributes of an element: a map from names to values.
///
/// Names are kept apart by their text, so a name occurs at most once.
#[derive(Debug)]
pub struct Attributes {
    entries: Vec<(String, String)>,
}

/// Whether some entry of `entries` carries the name `name`.
pub open spec fn names(entries: Seq<(String, String)>, name: Seq<char>) -> bool {
    exists|i: int| 0 <= i < entries.len() && (#[trigger] entries[i]).0@ == name
}

/// The index of an entry that carries the name `name`.
pub open spec fn index_of(entries: Seq<(String, String)>, name: Seq<char>) -> int {
    choose|i: int| 0 <= i < entries.len() && (#[trigger] entries[i]).0@ == name
}

/// Whether no two entries carry the same name.
pub open spec fn distinct(entries: Seq<(String, String)>) -> bool {
    forall|i: int, j: int|
        0 <= i < entries.len() && 0 <= j < entries.len() && i != j ==> (#[trigger] entries[i]).0@
            != (#[trigger] entries[j]).0@
}

/// The map that a run of entries with distinct names stands for.
pub open spec fn map_of(entries: Seq<(String, String)>) -> Map<Seq<char>, Seq<char>> {
    Map::new(|name: Seq<char>| names(entries, name), |name: Seq<char>| entries[index_of(entries, name)].1@)
}

/// In a run with distinct names, the entry at `i` is what the map holds for its name.
pub proof fn lemma_map_of_entry(entries: Seq<(String, String)>, i: int)
    requires
        distinct(entries),
        0 <= i < entries.len(),
    ensures
        map_of(entries).contains_key(entries[i].0@),
        map_of(entries)[entries[i].0@] == entries[i].1@,
{
    let name = entries[i].0@;
    assert(names(entries, name));
    let j = index_of(entries, name);
    assert(j == i);
}

impl View for Attributes {
    type V = Map<Seq<char>, Seq<char>>;

    closed spec fn view(&self) -> Map<Seq<char>, Seq<char>> {
        map_of(self.entries@)
    }
}

impl Attributes {
    #[verifier::type_invariant]
    spec fn well_formed(self) -> bool {
        distinct(self.entries@)
    }

    /// The entries in the order in which they are kept.
    pub closed spec fn listing(self) -> Seq<(String, String)> {
        self.entries@
    }

    /// The map is the one that the listing stands for.
    pub proof fn lemma_listing(self)
        ensures
            self@ == map_of(self.listing()),
    {
    }

    pub fn new() -> (attributes: Attributes)
        ensures
            attributes@ == Map::<Seq<char>, Seq<char>>::empty(),
            attributes.listing().len() == 0,
    {
        let attributes = Attributes { entries: Vec::new() };
        assert(attributes@ =~= Map::<Seq<char>, Seq<char>>::empty());
        attributes
    }

    /// The number of attributes. The listing holds each of them once.
    pub fn len(&self) -> (n: usize)
        ensures
            n == self@.len(),
            self@.dom().finite(),
            n == self.listing().len(),
            distinct(self.listing()),
    {
        proof {
            use_type_invariant(self);
            lemma_map_size(self.entries@);
        }
        self.entries.len()
    }

    /// The attribute at place `i` of the listing.
    pub fn entry(&self, i: usize) -> (pair: (&String, &String))
        requires
            i < self.listing().len(),
        ensures
            pair.0@ == self.listing()[i as int].0@,
            pair.1@ == self.listing()[i as int].1@,
            self@.contains_key(pair.0@),
            self@[pair.0@] == pair.1@,
    {
        proof {
            use_type_invariant(self);
            lemma_map_of_entry(self.entries@, i as int);
        }
        (&self.entries[i].0, &self.entries[i].1)
    }

    fn position(&self, key: &String) -> (at: Option<usize>)
        ensures
            match at {
                Some(i) => i < self.entries@.len() && self.entries@[i as int].0@ == key@,
                None => !names(self.entries@, key@),
            },
    {
        let mut i: usize = 0;
        while i < self.entries.len()
            invariant
                i <= self.entries@.len(),
                forall|j: int| 0 <= j < i ==> (#[trigger] self.entries@[j]).0@ != key@,
            decreases self.entries@.len() - i,
        {
            if self.entries[i].0 == *key {
                return Some(i);
            }
            i += 1;
        }
        None
    }

    /// The value of the attribute `key`, if there is one.
    pub fn get(&self, key: &str) -> (value: Option<&String>)
        ensures
            match value {
                Some(v) => self@.contains_key(key@) && self@[key@] == v@,
                None => !self@.contains_key(key@),
            },
    {
        proof {
            use_type_invariant(self);
        }
        let owned = key.to_owned();
        match self.position(&owned) {
            Some(i) => {
                proof {
                    lemma_map_of_entry(self.entries@, i as int);
                }
                Some(&self.entries[i].1)
            },
            None => None,
        }
    }

    /// Sets the attribute `key` to `value` and returns the value it had.
    pub fn insert(&mut self, key: String, value: String) -> (previous: Option<String>)
        ensures
            final(self)@ == old(self)@.insert(key@, value@),
            match previous {
                Some(v) => old(self)@.contains_key(key@) && old(self)@[key@] == v@,
                None => !old(self)@.contains_key(key@),
            },
    {
        proof {
            use_type_invariant(&*self);
        }
        let ghost before = self.entries@;
        let found = self.position(&key);
        let mut entries: Vec<(String, String)> = Vec::new();
        core::mem::swap(&mut self.entries, &mut entries);
        let previous = match found {
            Some(i) => {
                proof {
                    lemma_map_of_entry(before, i as int);
                    lemma_replace(before, i as int, (key, value));
                }
                let replaced = entries.remove(i);
                entries.insert(i, (key, value));
                assert(entries@ =~= before.update(i as int, (key, value)));
                Some(replaced.1)
            },
            None => {
                proof {
                    lemma_append(before, (key, value));
                }
                entries.push((key, value));
                None
            },
        };
        core::mem::swap(&mut self.entries, &mut entries);
        previous
    }
}

impl Attributes {
    /// Whether every attribute of `self` is one of `other`, with the same value.
    pub open spec fn within(self, other: Attributes) -> bool {
        forall|name: Seq<char>| #[trigger]
            self@.contains_key(name) ==> other@.contains_key(name) && other@[name] == self@[name]
    }

    fn is_within(&self, other: &Attributes) -> (all: bool)
        ensures
            all == self.within(*other),
    {
        proof {
            use_type_invariant(self);
        }
        let mut i: usize = 0;
        while i < self.entries.len()
            invariant
                i <= self.entries@.len(),
                distinct(self.entries@),
                forall|j: int|
                    0 <= j < i ==> other@.contains_key((#[trigger] self.entries@[j]).0@) && other@[self.entries@[j].0@]
                        == self.entries@[j].1@,
            decreases self.entries@.len() - i,
        {
            proof {
                lemma_map_of_entry(self.entries@, i as int);
                assert(self@.contains_key(self.entries@[i as int].0@));
                assert(self@[self.entries@[i as int].0@] == self.entries@[i as int].1@);
            }
            match other.get(self.entries[i].0.as_str()) {
                Some(value) => {
                    if !(*value == self.entries[i].1) {
                        return false;
                    }
                },
                None => {
                    return false;
                },
            }
            i += 1;
        }
        proof {
            assert forall|name: Seq<char>| #[trigger] self@.contains_key(name) implies other@.contains_key(
                name,
            ) && other@[name] == self@[name] by {
                let j = index_of(self.entries@, name);
                lemma_map_of_entry(self.entries@, j);
            }
        }
        true
    }
}

impl Clone for Attributes {
    fn clone(&self) -> (copy: Attributes)
        ensures
            copy@ == self@,
            copy.listing() == self.listing(),
    {
        proof {
            use_type_invariant(self);
        }
        let mut entries: Vec<(String, String)> = Vec::new();
        let mut i: usize = 0;
        while i < self.entries.len()
            invariant
                i <= self.entries@.len(),
                entries@ == self.entries@.take(i as int),
            decreases self.entries@.len() - i,
        {
            entries.push((self.entries[i].0.clone(), self.entries[i].1.clone()));
            assert(entries@ =~= self.entries@.take(i + 1));
            i += 1;
        }
        assert(entries@ =~= self.entries@);
        Attributes { entries }
    }
}

impl PartialEq for Attributes {
    fn eq(&self, other: &Attributes) -> (same: bool) {
        let same = self.is_within(other) && other.is_within(self);
        proof {
            if same {
                assert(self@ =~= other@);
            }
        }
        same
    }
}

impl PartialEqSpecImpl for Attributes {
    open spec fn obeys_eq_spec() -> bool {
        true
    }

    open spec fn eq_spec(&self, other: &Attributes) -> bool {
        self@ == other@
    }
}

impl Eq for Attributes {

}

/// A run of entries with distinct names stands for a map with as many names as the run has entries.
pub proof fn lemma_map_size(entries: Seq<(String, String)>)
    requires
        distinct(entries),
    ensures
        map_of(entries).dom().finite(),
        map_of(entries).len() == entries.len(),
    decreases entries.len(),
{
    if entries.len() == 0 {
        assert(map_of(entries) =~= Map::<Seq<char>, Seq<char>>::empty());
    } else {
        let front = entries.drop_last();
        let last = entries.last();
        assert(distinct(front)) by {
            assert forall|i: int, j: int|
                0 <= i < front.len() && 0 <= j < front.len() && i != j implies (#[trigger] front[i]).0@
                != (#[trigger] front[j]).0@ by {
                assert(front[i] == entries[i]);
                assert(front[j] == entries[j]);
            }
        }
        assert(!names(front, last.0@)) by {
            if names(front, last.0@) {
                let i = index_of(front, last.0@);
                assert(front[i] == entries[i]);
                assert(entries[entries.len() - 1] == last);
            }
        }
        lemma_map_size(front);
        lemma_append(front, last);
        assert(front.push(last) =~= entries);
    }
}

/// Putting an entry in the place of one with the same name sets that name in the map.
pub proof fn lemma_replace(before: Seq<(String, String)>, i: int, entry: (String, String))
    requires
        distinct(before),
        0 <= i < before.len(),
        before[i].0@ == entry.0@,
    ensures
        distinct(before.update(i, entry)),
        map_of(before.update(i, entry)) == map_of(before).insert(entry.0@, entry.1@),
{
    let after = before.update(i, entry);
    assert(distinct(after)) by {
        assert forall|a: int, b: int|
            0 <= a < after.len() && 0 <= b < after.len() && a != b implies (#[trigger] after[a]).0@
            != (#[trigger] after[b]).0@ by {
            assert(after[a].0@ == before[a].0@);
            assert(after[b].0@ == before[b].0@);
        }
    }
    let wanted = map_of(before).insert(entry.0@, entry.1@);
    assert forall|name: Seq<char>| #[trigger]
        map_of(after).contains_key(name) == wanted.contains_key(name) by {
        if names(after, name) {
            let j = index_of(after, name);
            assert(before[j].0@ == name);
        }
        if names(before, name) {
            let j = index_of(before, name);
            assert(after[j].0@ == name);
        }
        if name == entry.0@ {
            assert(after[i].0@ == name);
        }
    }
    assert forall|name: Seq<char>| #[trigger] map_of(after).contains_key(name) implies map_of(
        after,
    )[name] == wanted[name] by {
        let j = index_of(after, name);
        lemma_map_of_entry(after, j);
        if j != i {
            assert(after[j] == before[j]);
            lemma_map_of_entry(before, j);
        }
    }
    assert(map_of(after) =~= wanted);
}

/// Adding an entry with a new name sets that name in the map.
pub proof fn lemma_append(before: Seq<(String, String)>, entry: (String, String))
    requires
        distinct(before),
        !names(before, entry.0@),
    ensures
        distinct(before.push(entry)),
        map_of(before.push(entry)) == map_of(before).insert(entry.0@, entry.1@),
{
    let after = before.push(entry);
    let last = before.len() as int;
    assert(distinct(after)) by {
        assert forall|a: int, b: int|
            0 <= a < after.len() && 0 <= b < after.len() && a != b implies (#[trigger] after[a]).0@
            != (#[trigger] after[b]).0@ by {
            if a < last {
                assert(after[a] == before[a]);
            }
            if b < last {
                assert(after[b] == before[b]);
            }
        }
    }
    let wanted = map_of(before).insert(entry.0@, entry.1@);
    assert forall|name: Seq<char>| #[trigger]
        map_of(after).contains_key(name) == wanted.contains_key(name) by {
        if names(after, name) {
            let j = index_of(after, name);
            if j < last {
                assert(before[j].0@ == name);
            }
        }
        if names(before, name) {
            let j = index_of(before, name);
            assert(after[j].0@ == name);
        }
        if name == entry.0@ {
            assert(after[last].0@ == name);
        }
    }
    assert forall|name: Seq<char>| #[trigger] map_of(after).contains_key(name) implies map_of(
        after,
    )[name] == wanted[name] by {
        let j = index_of(after, name);
        lemma_map_of_entry(after, j);
        if j < last {
            assert(after[j] == before[j]);
            lemma_map_of_entry(before, j);
        }
    }
    assert(map_of(after) =~= wanted);
}

} // verus!
