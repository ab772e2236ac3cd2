//! Sets of command names, kept in lexicographic order.

use vstd::prelude::*;
use crate::bytes::bytes_lt;
use crate::env::{entries_map, lemma_entries_count, lemma_entries_map, lemma_push_entry, sorted, Entry, Env};

verus! {

/// A set of command names.
#[derive(Debug, Clone, PartialEq, Eq)]
pub struct NameSet {
    names: Env,
}

impl View for NameSet {
    type V = Set<Seq<u8>>;

    closed spec fn view(&self) -> Set<Seq<u8>> {
        self.names@.dom()
    }
}

impl NameSet {
    /// The invariant of the type.
    pub closed spec fn wf(&self) -> bool {
        self.names.wf()
    }

    /// The names in lexicographic order.
    pub closed spec fn listing(&self) -> Seq<Seq<u8>> {
        Seq::new(self.names.entries().len(), |i: int| self.names.entries()[i].0)
    }

    /// The listing holds the names of the set, each once, in order.
    pub proof fn lemma_listing(&self)
        requires
            self.wf(),
        ensures
            self@.finite(),
            self@.len() == self.listing().len(),
            forall|i: int| 0 <= i < self.listing().len() ==> self@.contains(#[trigger] self.listing()[i]),
            forall|name: Seq<u8>| self@.contains(name) ==> self.listing().contains(name),
            forall|i: int, j: int|
                0 <= i < j < self.listing().len() ==> bytes_lt(
                    #[trigger] self.listing()[i],
                    #[trigger] self.listing()[j],
                ),
    {
        let es = self.names.entries();
        lemma_entries_count(es);
        lemma_entries_map(es);
        assert forall|i: int| 0 <= i < self.listing().len() implies self@.contains(
            #[trigger] self.listing()[i],
        ) by {
            assert(entries_map(es).contains_key(es[i].0));
        }
        assert forall|name: Seq<u8>| self@.contains(name) implies self.listing().contains(name) by {
            let i = crate::env::index_of(es, name);
            assert(entries_map(es).contains_key(name));
            assert(self.listing()[i] == name);
        }
        assert forall|i: int, j: int| 0 <= i < j < self.listing().len() implies bytes_lt(
            #[trigger] self.listing()[i],
            #[trigger] self.listing()[j],
        ) by {
            assert(bytes_lt(es[i].0, es[j].0));
        }
    }

    /// The empty set.
    pub fn new() -> (set: NameSet)
        ensures
            set.wf(),
            set@ == Set::<Seq<u8>>::empty(),
    {
        let set = NameSet { names: Env::new() };
        assert(set@ =~= Set::<Seq<u8>>::empty());
        set
    }

    /// The number of names.
    pub fn len(&self) -> (n: usize)
        requires
            self.wf(),
        ensures
            n == self@.len(),
            n == self.listing().len(),
    {
        proof {
            self.lemma_listing();
        }
        self.names.len()
    }

    /// The name at place `i` of the listing.
    pub fn name_at(&self, i: usize) -> (name: &Vec<u8>)
        requires
            i < self.listing().len(),
        ensures
            name@ == self.listing()[i as int],
    {
        self.names.name_at(i)
    }

    /// Whether `name` is in the set.
    pub fn contains(&self, name: &[u8]) -> (found: bool)
        requires
            self.wf(),
        ensures
            found == self@.contains(name@),
    {
        self.names.contains_key(name)
    }

    /// Adds `name` to the set.
    pub fn insert(&mut self, name: Vec<u8>)
        requires
            old(self).wf(),
        ensures
            final(self).wf(),
            final(self)@ == old(self)@.insert(name@),
    {
        self.names.insert(name, Vec::new());
        assert(self@ =~= old(self)@.insert(name@));
    }

    /// The names of this set that `other` lacks.
    pub fn difference(&self, other: &NameSet) -> (rest: NameSet)
        requires
            self.wf(),
            other.wf(),
        ensures
            rest.wf(),
            rest@ == self@.difference(other@),
    {
        let mut rest = NameSet::new();
        let n = self.names.len();
        let mut i: usize = 0;
        let ghost es = self.names.entries();
        proof {
            assert(es.take(0) =~= Seq::<Entry>::empty());
            assert(entries_map(es.take(0)).dom() =~= Set::<Seq<u8>>::empty());
            assert(rest@ =~= entries_map(es.take(0)).dom().difference(other@));
        }
        while i < n
            invariant
                i <= n,
                n == es.len(),
                es == self.names.entries(),
                self.wf(),
                other.wf(),
                rest.wf(),
                sorted(es.take(i as int)),
                rest@ == entries_map(es.take(i as int)).dom().difference(other@),
            decreases n - i,
        {
            let name = self.names.name_at(i);
            proof {
                let seen = es.take(i as int);
                assert forall|j: int| #![trigger seen[j]] 0 <= j < seen.len() implies bytes_lt(
                    seen[j].0,
                    es[i as int].0,
                ) by {
                    assert(seen[j] == es[j]);
                }
                lemma_push_entry(seen, es[i as int]);
                assert(seen.push(es[i as int]) =~= es.take(i + 1));
            }
            if !other.contains(name.as_slice()) {
                rest.insert(vstd::slice::slice_to_vec(name.as_slice()));
            }
            assert(rest@ =~= entries_map(es.take(i + 1)).dom().difference(other@));
            i += 1;
        }
        assert(es.take(i as int) =~= es);
        rest
    }
}

} // verus!
