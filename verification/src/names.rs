//! Sets of names, and the values bound to names.
use vstd::hash_map::StringHashMap;
use vstd::prelude::*;
use vstd::string::*;

verus! {

/// A set of names that keeps the order in which the names came.
pub struct Names {
    list: Vec<String>,
    seen: StringHashMap<()>,
}

impl View for Names {
    type V = Seq<Seq<char>>;

    /// The names, in the order in which they came.
    closed spec fn view(&self) -> Seq<Seq<char>> {
        Seq::new(self.list@.len(), |i: int| self.list@[i]@)
    }
}

impl Names {
    /// The invariant: no name is in the list twice, and the index holds the
    /// names of the list.
    pub closed spec fn wf(&self) -> bool {
        &&& self@.no_duplicates()
        &&& forall|k: Seq<char>| self.seen@.contains_key(k) <==> self@.contains(k)
    }

    /// No name occurs twice.
    pub proof fn lemma_distinct(&self)
        requires
            self.wf(),
        ensures
            self@.no_duplicates(),
    {
    }

    /// The empty set.
    pub fn new() -> (r: Names)
        ensures
            r.wf(),
            r@ == Seq::<Seq<char>>::empty(),
    {
        let r = Names { list: Vec::new(), seen: StringHashMap::new() };
        assert(r@ =~= Seq::<Seq<char>>::empty());
        r
    }

    /// How many names there are.
    pub fn len(&self) -> (r: usize)
        ensures
            r == self@.len(),
    {
        self.list.len()
    }

    /// The name that came as number `i`, counting from 0.
    pub fn get(&self, i: usize) -> (r: &str)
        requires
            i < self@.len(),
        ensures
            r@ == self@[i as int],
    {
        self.list[i].as_str()
    }

    /// Whether `name` is in the set.
    pub fn contains(&self, name: &str) -> (r: bool)
        requires
            self.wf(),
        ensures
            r == self@.contains(name@),
    {
        self.seen.contains_key(name)
    }

    /// Adds `name` unless it is there already; says whether it was added.
    pub fn insert(&mut self, name: &str) -> (r: bool)
        requires
            old(self).wf(),
        ensures
            final(self).wf(),
            r == !old(self)@.contains(name@),
            final(self)@ == if r {
                old(self)@.push(name@)
            } else {
                old(self)@
            },
    {
        if self.seen.contains_key(name) {
            return false;
        }
        let ghost before = self@;
        self.list.push(String::from_str(name));
        self.seen.insert(String::from_str(name), ());
        proof {
            assert(self@ =~= before.push(name@));
            assert(!before.contains(name@));
            assert forall|i: int, j: int|
                0 <= i < self@.len() && 0 <= j < self@.len() && i != j implies self@[i]
                != self@[j] by {
                if i < before.len() && j < before.len() {
                    assert(before[i] != before[j]);
                } else if i < before.len() {
                    assert(before.contains(before[i]));
                } else {
                    assert(before.contains(before[j]));
                }
            }
            assert forall|k: Seq<char>| self.seen@.contains_key(k) <==> self@.contains(k) by {
                if before.contains(k) {
                    let i = choose|i: int| 0 <= i < before.len() && before[i] == k;
                    assert(self@[i] == k);
                }
                if k == name@ {
                    assert(self@[before.len() as int] == k);
                }
            }
        }
        true
    }
}

/// The values bound to names.
pub struct Bindings {
    names: Names,
    values: StringHashMap<String>,
}

impl View for Bindings {
    type V = Map<Seq<char>, Seq<char>>;

    /// The map from each bound name to its value.
    closed spec fn view(&self) -> Map<Seq<char>, Seq<char>> {
        Map::new(|k: Seq<char>| self.values@.contains_key(k), |k: Seq<char>| self.values@[k]@)
    }
}

impl Bindings {
    /// The invariant: the list of names holds the names that are bound.
    pub closed spec fn wf(&self) -> bool {
        &&& self.names.wf()
        &&& forall|k: Seq<char>| self.values@.contains_key(k) <==> self.names@.contains(k)
    }

    /// The bound names, in the order in which they were bound.
    pub closed spec fn spec_names(&self) -> Seq<Seq<char>> {
        self.names@
    }

    /// No bindings.
    pub fn new() -> (r: Bindings)
        ensures
            r.wf(),
            r@ == Map::<Seq<char>, Seq<char>>::empty(),
            r.spec_names() == Seq::<Seq<char>>::empty(),
    {
        let r = Bindings { names: Names::new(), values: StringHashMap::new() };
        assert(r@ =~= Map::<Seq<char>, Seq<char>>::empty());
        r
    }

    /// The bound names, each once, in the order in which they were bound.
    pub fn names(&self) -> (r: &Names)
        requires
            self.wf(),
        ensures
            r.wf(),
            r@ == self.spec_names(),
            r@.no_duplicates(),
            forall|k: Seq<char>| self@.contains_key(k) <==> r@.contains(k),
    {
        proof {
            self.names.lemma_distinct();
        }
        &self.names
    }

    /// Whether `name` is bound.
    pub fn contains(&self, name: &str) -> (r: bool)
        ensures
            r == self@.contains_key(name@),
    {
        self.values.contains_key(name)
    }

    /// The value bound to `name`, if there is one.
    pub fn get<'a>(&'a self, name: &str) -> (r: Option<&'a str>)
        ensures
            match r {
                Some(value) => self@.contains_key(name@) && value@ == self@[name@],
                None => !self@.contains_key(name@),
            },
    {
        match self.values.get(name) {
            Some(value) => Some(value.as_str()),
            None => None,
        }
    }

    /// Binds `name` to `value` unless `name` is bound already; says whether it
    /// did.
    pub fn define(&mut self, name: &str, value: &str) -> (r: bool)
        requires
            old(self).wf(),
        ensures
            final(self).wf(),
            r == !old(self)@.contains_key(name@),
            final(self)@ == if r {
                old(self)@.insert(name@, value@)
            } else {
                old(self)@
            },
            final(self).spec_names() == if r {
                old(self).spec_names().push(name@)
            } else {
                old(self).spec_names()
            },
    {
        if self.values.contains_key(name) {
            return false;
        }
        let ghost before = self@;
        let ghost names_before = self.names@;
        let added = self.names.insert(name);
        self.values.insert(String::from_str(name), String::from_str(value));
        proof {
            assert(added);
            assert(self@ =~= before.insert(name@, value@));
            assert forall|k: Seq<char>| self.values@.contains_key(k) <==> self.names@.contains(
                k,
            ) by {
                if names_before.contains(k) {
                    let i = choose|i: int| 0 <= i < names_before.len() && names_before[i] == k;
                    assert(self.names@[i] == k);
                }
                if k == name@ {
                    assert(self.names@[names_before.len() as int] == k);
                }
            }
        }
        true
    }
}

} // verus!
