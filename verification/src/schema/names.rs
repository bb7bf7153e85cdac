//! Maps from names to values that keep the order of their names.
use crate::text;
use vstd::prelude::*;

verus! {

/// The first place from `i` on that holds `name`, or the end of `names`.
pub open spec fn place(names: Seq<Seq<char>>, name: Seq<char>, i: nat) -> nat
    decreases names.len() - i,
{
    if i < names.len() && names[i as int] != name {
        place(names, name, i + 1)
    } else {
        i
    }
}

/// What [`place`] finds.
pub proof fn lemma_place(names: Seq<Seq<char>>, name: Seq<char>, i: nat)
    requires
        i <= names.len(),
    ensures
        i <= place(names, name, i) <= names.len(),
        place(names, name, i) < names.len() ==> names[place(names, name, i) as int] == name,
        forall|k: int| i <= k < place(names, name, i) ==> #[trigger] names[k] != name,
    decreases names.len() - i,
{
    if i < names.len() && names[i as int] != name {
        lemma_place(names, name, i + 1);
    }
}

/// The first place of a name is the one that holds it with none before that does.
pub proof fn lemma_place_is(names: Seq<Seq<char>>, name: Seq<char>, p: nat)
    requires
        p <= names.len(),
        p < names.len() ==> names[p as int] == name,
        forall|k: int| 0 <= k < p ==> #[trigger] names[k] != name,
    ensures
        place(names, name, 0) == p,
{
    lemma_place(names, name, 0);
    let q = place(names, name, 0);
    if q < p {
        assert(names[q as int] != name);
    } else if p < q {
        assert(names[p as int] != name);
    }
}

/// A map from names to values. No name occurs twice in it.
#[derive(Debug)]
pub struct NameMap<V> {
    entries: Vec<(String, V)>,
}

impl<V> NameMap<V> {
    /// The names in order.
    pub closed spec fn names(&self) -> Seq<Seq<char>> {
        self.entries@.map_values(|e: (String, V)| e.0@)
    }

    /// The values in the order of their names.
    pub closed spec fn values(&self) -> Seq<V> {
        self.entries@.map_values(|e: (String, V)| e.1)
    }

    /// The value of `name`, if it has one.
    pub open spec fn find(&self, name: Seq<char>) -> Option<V> {
        let i = place(self.names(), name, 0);
        if i < self.names().len() {
            Some(self.values()[i as int])
        } else {
            None
        }
    }

    /// No name occurs twice.
    #[verifier::type_invariant]
    pub open spec fn distinct(&self) -> bool {
        self.names().no_duplicates()
    }

    /// There are as many values as names.
    pub proof fn lemma_values(&self)
        ensures
            self.names().len() == self.values().len(),
    {
    }

    /// A map is made of its values.
    pub proof fn lemma_values_below(&self)
        ensures
            forall|i: int|
                0 <= i < self.values().len() ==> decreases_to!(
                    *self => #[trigger] self.values()[i]
                ),
    {
        assert forall|i: int| 0 <= i < self.values().len() implies decreases_to!(
            *self => #[trigger] self.values()[i]
        ) by {
            assert(decreases_to!(*self => self.entries));
            assert(decreases_to!(self.entries => self.entries@));
            assert(decreases_to!(self.entries@ => self.entries@[i]));
            assert(decreases_to!(self.entries@[i] => self.entries@[i].1));
        }
    }

    /// A map without names.
    pub fn new() -> (map: Self)
        ensures
            map.names() == Seq::<Seq<char>>::empty(),
            map.values() == Seq::<V>::empty(),
            map.distinct(),
    {
        let map = NameMap { entries: Vec::new() };
        assert(map.names() =~= Seq::<Seq<char>>::empty());
        assert(map.values() =~= Seq::<V>::empty());
        map
    }

    /// How many names there are.
    pub fn len(&self) -> (n: usize)
        ensures
            n == self.names().len(),
            n == self.values().len(),
    {
        self.entries.len()
    }

    /// The name at place `i`.
    pub fn name_at(&self, i: usize) -> (name: &str)
        requires
            i < self.names().len(),
        ensures
            name@ == self.names()[i as int],
    {
        self.entries[i].0.as_str()
    }

    /// The value at place `i`.
    pub fn value_at(&self, i: usize) -> (value: &V)
        requires
            i < self.values().len(),
        ensures
            *value == self.values()[i as int],
            self.find(self.names()[i as int]) == Some(*value),
    {
        proof {
            use_type_invariant(self);
            lemma_place_is(self.names(), self.names()[i as int], i as nat);
        }
        &self.entries[i].1
    }

    /// The first place of `name`, or the number of names.
    pub(crate) fn find_place(&self, name: &str) -> (i: usize)
        ensures
            i == place(self.names(), name@, 0),
            i <= self.names().len(),
    {
        let mut i: usize = 0;
        while i < self.entries.len() && !text::equal(self.entries[i].0.as_str(), name)
            invariant
                i <= self.names().len() == self.entries@.len(),
                place(self.names(), name@, 0) == place(self.names(), name@, i as nat),
            decreases self.entries@.len() - i,
        {
            i += 1;
        }
        i
    }

    /// The value of `name`, if it has one.
    pub fn get(&self, name: &str) -> (value: Option<&V>)
        ensures
            match value {
                Some(v) => self.find(name@) == Some(*v),
                None => self.find(name@) is None,
            },
    {
        let i = self.find_place(name);
        if i < self.entries.len() {
            Some(&self.entries[i].1)
        } else {
            None
        }
    }

    /// Whether `name` has a value.
    pub fn contains_key(&self, name: &str) -> (r: bool)
        ensures
            r == (self.find(name@) is Some),
    {
        self.get(name).is_some()
    }

    /// Gives `name` the value `value`. A name that is new comes last.
    pub fn insert(&mut self, name: &str, value: V)
        ensures
            ({
                let i = place(old(self).names(), name@, 0);
                if i < old(self).names().len() {
                    &&& final(self).names() == old(self).names()
                    &&& final(self).values() == old(self).values().update(i as int, value)
                } else {
                    &&& final(self).names() == old(self).names().push(name@)
                    &&& final(self).values() == old(self).values().push(value)
                }
            }),
            final(self).distinct(),
            final(self).find(name@) == Some(value),
            forall|other: Seq<char>|
                other != name@ ==> #[trigger] final(self).find(other) == old(self).find(other),
    {
        let i = self.find_place(name);
        let ghost before = *self;
        proof {
            use_type_invariant(&*self);
            lemma_place(before.names(), name@, 0);
        }
        let mut entries: Vec<(String, V)> = Vec::new();
        std::mem::swap(&mut entries, &mut self.entries);
        if i < entries.len() {
            entries.set(i, (name.to_owned(), value));
        } else {
            entries.push((name.to_owned(), value));
        }
        proof {
            let names = entries@.map_values(|e: (String, V)| e.0@);
            if i < before.names().len() {
                assert(names =~= before.names());
            } else {
                assert(names =~= before.names().push(name@));
            }
        }
        self.entries = entries;
        proof {
            if i < before.names().len() {
                assert(self.names() =~= before.names());
                assert(self.values() =~= before.values().update(i as int, value));
            } else {
                assert(self.names() =~= before.names().push(name@));
                assert(self.values() =~= before.values().push(value));
            }
            assert forall|k: int| 0 <= k < i implies #[trigger] self.names()[k] != name@ by {
                assert(self.names()[k] == before.names()[k]);
            }
            lemma_place_is(self.names(), name@, i as nat);
            assert forall|other: Seq<char>| other != name@ implies #[trigger] self.find(other)
                == before.find(other) by {
                lemma_place(before.names(), other, 0);
                let p = place(before.names(), other, 0);
                let q = if p < before.names().len() {
                    p
                } else {
                    self.names().len()
                };
                assert forall|k: int| 0 <= k < q implies #[trigger] self.names()[k] != other by {
                    if k < before.names().len() {
                        assert(self.names()[k] == before.names()[k]);
                    }
                }
                lemma_place_is(self.names(), other, q);
            }
        }
    }
}

impl<V: Clone> Clone for NameMap<V> {
    /// The same names with clones of their values.
    fn clone(&self) -> (map: Self)
        ensures
            map.names() == self.names(),
            map.values().len() == self.values().len(),
            forall|i: int|
                0 <= i < self.values().len() ==> cloned(
                    self.values()[i],
                    #[trigger] map.values()[i],
                ),
    {
        let mut entries: Vec<(String, V)> = Vec::new();
        let mut i: usize = 0;
        while i < self.entries.len()
            invariant
                i == entries@.len() <= self.entries@.len(),
                forall|k: int| 0 <= k < i ==> (#[trigger] entries@[k]).0@ == self.entries@[k].0@,
                forall|k: int|
                    0 <= k < i ==> cloned(self.entries@[k].1, (#[trigger] entries@[k]).1),
            decreases self.entries@.len() - i,
        {
            let (name, value) = &self.entries[i];
            entries.push((name.as_str().to_owned(), value.clone()));
            i += 1;
        }
        proof {
            use_type_invariant(self);
            assert(entries@.map_values(|e: (String, V)| e.0@) =~= self.names());
        }
        NameMap { entries }
    }
}

} // verus!
