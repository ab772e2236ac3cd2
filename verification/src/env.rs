//! Environment snapshots: ordered maps from variable names to values.
//!
//! A snapshot keeps its variables in the lexicographic order of their names,
//! each name once. Its view is the map from names to values; the order in
//! which the variables are listed and written is given by `entries`.

use vstd::prelude::*;
use crate::bytes::{append_bytes, bytes_equal, bytes_less, bytes_lt, lemma_lt_asymmetric, lemma_lt_irreflexive, lemma_lt_total, lemma_lt_transitive};

verus! {

/// A variable as a specification sees it: its name and its value.
pub type Entry = (Seq<u8>, Seq<u8>);

/// Whether the names of `es` are in strictly increasing order.
pub open spec fn sorted(es: Seq<Entry>) -> bool {
    forall|i: int, j: int|
        #![trigger es[i], es[j]]
        0 <= i < j < es.len() ==> bytes_lt(es[i].0, es[j].0)
}

/// Whether `es` holds a variable called `name`.
pub open spec fn has_name(es: Seq<Entry>, name: Seq<u8>) -> bool {
    exists|i: int| #![trigger es[i]] 0 <= i < es.len() && es[i].0 == name
}

/// The place of the variable called `name` in `es`.
pub open spec fn index_of(es: Seq<Entry>, name: Seq<u8>) -> int {
    choose|i: int| #![trigger es[i]] 0 <= i < es.len() && es[i].0 == name
}

/// The map that a list of variables stands for.
pub open spec fn entries_map(es: Seq<Entry>) -> Map<Seq<u8>, Seq<u8>> {
    Map::new(|name: Seq<u8>| has_name(es, name), |name: Seq<u8>| es[index_of(es, name)].1)
}

/// Two variables of a sorted list that share a name are the same variable.
pub proof fn lemma_sorted_names_differ(es: Seq<Entry>, i: int, j: int)
    requires
        sorted(es),
        0 <= i < es.len(),
        0 <= j < es.len(),
        es[i].0 == es[j].0,
    ensures
        i == j,
{
    lemma_lt_irreflexive(es[i].0);
    if i < j {
        assert(bytes_lt(es[i].0, es[j].0));
    } else if j < i {
        assert(bytes_lt(es[j].0, es[i].0));
    }
}

/// In the map of a sorted list each variable is found under its name.
pub proof fn lemma_entries_map(es: Seq<Entry>)
    requires
        sorted(es),
    ensures
        forall|i: int|
            #![trigger es[i]]
            0 <= i < es.len() ==> entries_map(es).contains_key(es[i].0) && entries_map(es)[es[i].0]
                == es[i].1,
        forall|name: Seq<u8>| #[trigger]
            entries_map(es).contains_key(name) ==> 0 <= index_of(es, name) < es.len()
                && es[index_of(es, name)].0 == name,
{
    assert forall|i: int| #![trigger es[i]] 0 <= i < es.len() implies entries_map(es).contains_key(
        es[i].0,
    ) && entries_map(es)[es[i].0] == es[i].1 by {
        let j = index_of(es, es[i].0);
        lemma_sorted_names_differ(es, i, j);
    }
}

/// Putting a variable into a sorted list at the place that its name asks
/// for gives the map with that name set.
proof fn lemma_insert_at(es: Seq<Entry>, at: int, e: Entry)
    requires
        sorted(es),
        0 <= at <= es.len(),
        forall|i: int| #![trigger es[i]] 0 <= i < at ==> bytes_lt(es[i].0, e.0),
        forall|i: int| #![trigger es[i]] at <= i < es.len() ==> bytes_lt(e.0, es[i].0),
    ensures
        sorted(es.insert(at, e)),
        entries_map(es.insert(at, e)) == entries_map(es).insert(e.0, e.1),
{
    let fs = es.insert(at, e);
    assert forall|i: int, j: int| #![trigger fs[i], fs[j]] 0 <= i < j < fs.len() implies bytes_lt(
        fs[i].0,
        fs[j].0,
    ) by {
        let oi = if i < at { i } else { i - 1 };
        let oj = if j < at { j } else { j - 1 };
        if i != at && j != at {
            assert(fs[i] == es[oi]);
            assert(fs[j] == es[oj]);
            assert(bytes_lt(es[oi].0, es[oj].0));
        } else if i == at {
            assert(fs[j] == es[oj]);
        } else {
            assert(fs[i] == es[oi]);
        }
    }
    lemma_entries_map(es);
    lemma_entries_map(fs);
    let m = entries_map(es).insert(e.0, e.1);
    assert forall|name: Seq<u8>| entries_map(fs).contains_key(name) <==> m.contains_key(name) by {
        if entries_map(fs).contains_key(name) {
            let i = index_of(fs, name);
            if i < at {
                assert(fs[i] == es[i]);
            } else if i > at {
                assert(fs[i] == es[i - 1]);
            }
        }
        if m.contains_key(name) {
            if name == e.0 {
                assert(fs[at] == e);
            } else {
                let i = index_of(es, name);
                if i < at {
                    assert(fs[i] == es[i]);
                } else {
                    assert(fs[i + 1] == es[i]);
                }
            }
        }
    }
    assert forall|name: Seq<u8>| entries_map(fs).contains_key(name) implies entries_map(fs)[name]
        == m[name] by {
        let i = index_of(fs, name);
        if i < at {
            assert(fs[i] == es[i]);
            lemma_lt_asymmetric(es[i].0, e.0);
        } else if i > at {
            assert(fs[i] == es[i - 1]);
            lemma_lt_asymmetric(e.0, es[i - 1].0);
        } else {
            assert(fs[at] == e);
        }
    }
    assert(entries_map(fs) =~= m);
}

/// Giving a variable of a sorted list a new value gives the map with that
/// name set.
proof fn lemma_update_at(es: Seq<Entry>, at: int, value: Seq<u8>)
    requires
        sorted(es),
        0 <= at < es.len(),
    ensures
        sorted(es.update(at, (es[at].0, value))),
        entries_map(es.update(at, (es[at].0, value))) == entries_map(es).insert(es[at].0, value),
{
    let name = es[at].0;
    let fs = es.update(at, (name, value));
    assert forall|i: int, j: int| #![trigger fs[i], fs[j]] 0 <= i < j < fs.len() implies bytes_lt(
        fs[i].0,
        fs[j].0,
    ) by {
        assert(fs[i].0 == es[i].0);
        assert(fs[j].0 == es[j].0);
        assert(bytes_lt(es[i].0, es[j].0));
    }
    lemma_entries_map(es);
    lemma_entries_map(fs);
    let m = entries_map(es).insert(name, value);
    assert forall|k: Seq<u8>| entries_map(fs).contains_key(k) <==> m.contains_key(k) by {
        if entries_map(fs).contains_key(k) {
            let i = index_of(fs, k);
            assert(fs[i].0 == es[i].0);
        }
        if m.contains_key(k) {
            if k == name {
                assert(fs[at].0 == name);
            } else {
                let i = index_of(es, k);
                assert(fs[i].0 == es[i].0);
            }
        }
    }
    assert forall|k: Seq<u8>| entries_map(fs).contains_key(k) implies entries_map(fs)[k]
        == m[k] by {
        let i = index_of(fs, k);
        assert(fs[i].0 == es[i].0);
        if i != at {
            assert(fs[i] == es[i]);
            if es[i].0 == es[at].0 {
                lemma_sorted_names_differ(es, i, at);
            }
        }
    }
    assert(entries_map(fs) =~= m);
}

/// A name that a sorted list lacks at the place where it would stand is not
/// in its map.
proof fn lemma_absent(es: Seq<Entry>, at: int, name: Seq<u8>)
    requires
        sorted(es),
        0 <= at <= es.len(),
        forall|i: int| #![trigger es[i]] 0 <= i < at ==> bytes_lt(es[i].0, name),
        forall|i: int| #![trigger es[i]] at <= i < es.len() ==> bytes_lt(name, es[i].0),
    ensures
        !entries_map(es).contains_key(name),
{
    if entries_map(es).contains_key(name) {
        let i = index_of(es, name);
        lemma_lt_irreflexive(name);
    }
}

/// A name that is not at the first place whose name does not come before
/// it comes before every name from that place on.
proof fn lemma_name_goes_before(es: Seq<Entry>, at: int, name: Seq<u8>)
    requires
        sorted(es),
        0 <= at <= es.len(),
        forall|i: int| #![trigger es[i]] at <= i < es.len() ==> !bytes_lt(es[i].0, name),
        at < es.len() ==> es[at].0 != name,
    ensures
        forall|i: int| #![trigger es[i]] at <= i < es.len() ==> bytes_lt(name, es[i].0),
{
    assert forall|i: int| #![trigger es[i]] at <= i < es.len() implies bytes_lt(name, es[i].0) by {
        lemma_lt_total(es[at].0, name);
        if i > at {
            assert(bytes_lt(es[at].0, es[i].0));
            lemma_lt_transitive(name, es[at].0, es[i].0);
        }
    }
}

/// Adding a variable whose name comes after all others extends the map.
pub proof fn lemma_push_entry(es: Seq<Entry>, e: Entry)
    requires
        sorted(es),
        forall|i: int| #![trigger es[i]] 0 <= i < es.len() ==> bytes_lt(es[i].0, e.0),
    ensures
        sorted(es.push(e)),
        entries_map(es.push(e)) == entries_map(es).insert(e.0, e.1),
        !entries_map(es).contains_key(e.0),
{
    lemma_insert_at(es, es.len() as int, e);
    assert(es.insert(es.len() as int, e) =~= es.push(e));
    lemma_absent(es, es.len() as int, e.0);
}

/// A sorted list without its last variable is sorted, and its map is the
/// map of the whole without that variable's name.
pub proof fn lemma_drop_last_entry(es: Seq<Entry>)
    requires
        sorted(es),
        es.len() > 0,
    ensures
        sorted(es.drop_last()),
        forall|i: int|
            #![trigger es.drop_last()[i]]
            0 <= i < es.len() - 1 ==> bytes_lt(es.drop_last()[i].0, es.last().0),
        entries_map(es) == entries_map(es.drop_last()).insert(es.last().0, es.last().1),
        !entries_map(es.drop_last()).contains_key(es.last().0),
{
    let ds = es.drop_last();
    assert forall|i: int, j: int| #![trigger ds[i], ds[j]] 0 <= i < j < ds.len() implies bytes_lt(
        ds[i].0,
        ds[j].0,
    ) by {
        assert(ds[i] == es[i] && ds[j] == es[j]);
        assert(bytes_lt(es[i].0, es[j].0));
    }
    assert forall|i: int| #![trigger ds[i]] 0 <= i < es.len() - 1 implies bytes_lt(
        ds[i].0,
        es.last().0,
    ) by {
        assert(ds[i] == es[i]);
        assert(bytes_lt(es[i].0, es[es.len() - 1].0));
    }
    lemma_push_entry(ds, es.last());
    assert(ds.push(es.last()) =~= es);
}

/// A sorted list is determined by its map: two snapshots with the same
/// variables list them in the same order.
pub proof fn lemma_entries_determined(es: Seq<Entry>, fs: Seq<Entry>)
    requires
        sorted(es),
        sorted(fs),
        entries_map(es) == entries_map(fs),
    ensures
        es == fs,
    decreases es.len(),
{
    lemma_entries_map(es);
    lemma_entries_map(fs);
    if es.len() == 0 {
        if fs.len() > 0 {
            assert(entries_map(fs).contains_key(fs[0].0));
            let i = index_of(es, fs[0].0);
        }
        assert(es =~= fs);
    } else {
        let e = es.last();
        assert(entries_map(es).contains_key(es[es.len() - 1].0));
        let at = index_of(fs, e.0);
        assert(fs.len() > 0);
        let f = fs.last();
        assert(entries_map(fs).contains_key(fs[fs.len() - 1].0));
        let back = index_of(es, f.0);
        // Each list ends in the greatest name of the common map.
        if at < fs.len() - 1 {
            assert(bytes_lt(fs[at].0, fs[fs.len() - 1].0));
            if back < es.len() - 1 {
                assert(bytes_lt(es[back].0, es[es.len() - 1].0));
                lemma_lt_asymmetric(e.0, f.0);
            } else {
                lemma_lt_irreflexive(e.0);
            }
        }
        assert(f.0 == e.0);
        assert(entries_map(fs)[fs[fs.len() - 1].0] == f.1);
        assert(entries_map(es)[es[es.len() - 1].0] == e.1);
        assert(f == e);
        lemma_drop_last_entry(es);
        lemma_drop_last_entry(fs);
        let m = entries_map(es);
        assert(entries_map(es.drop_last()) =~= m.remove(e.0));
        assert(entries_map(fs.drop_last()) =~= m.remove(e.0));
        lemma_entries_determined(es.drop_last(), fs.drop_last());
        assert(es =~= es.drop_last().push(e));
        assert(fs =~= fs.drop_last().push(f));
    }
}

/// A sorted list has as many variables as its map has names.
pub proof fn lemma_entries_count(es: Seq<Entry>)
    requires
        sorted(es),
    ensures
        entries_map(es).dom().finite(),
        entries_map(es).dom().len() == es.len(),
    decreases es.len(),
{
    if es.len() == 0 {
        assert(entries_map(es).dom() =~= Set::<Seq<u8>>::empty());
    } else {
        lemma_drop_last_entry(es);
        lemma_entries_count(es.drop_last());
        assert(entries_map(es).dom() =~= entries_map(es.drop_last()).dom().insert(es.last().0));
    }
}

/// The variables of a map in the order in which a snapshot keeps them.
pub open spec fn canonical_entries(m: Map<Seq<u8>, Seq<u8>>) -> Seq<Entry> {
    choose|es: Seq<Entry>| sorted(es) && entries_map(es) == m
}

/// The sorted list of a map is the canonical one.
pub proof fn lemma_canonical_entries(es: Seq<Entry>)
    requires
        sorted(es),
    ensures
        canonical_entries(entries_map(es)) == es,
{
    let fs = canonical_entries(entries_map(es));
    lemma_entries_determined(fs, es);
}

/// One variable of a snapshot.
#[derive(Debug, Clone, PartialEq, Eq)]
struct EnvVar {
    name: Vec<u8>,
    value: Vec<u8>,
}

/// An environment snapshot, or a diff between two of them.
#[derive(Debug, Clone, PartialEq, Eq)]
pub struct Env {
    vars: Vec<EnvVar>,
}

impl View for Env {
    type V = Map<Seq<u8>, Seq<u8>>;

    /// The map from names to values.
    open spec fn view(&self) -> Map<Seq<u8>, Seq<u8>> {
        entries_map(self.entries())
    }
}

impl Env {
    /// The variables in the order in which they are kept.
    pub closed spec fn entries(&self) -> Seq<Entry> {
        Seq::new(self.vars@.len(), |i: int| (self.vars@[i].name@, self.vars@[i].value@))
    }

    /// The invariant of the type: names are in strictly increasing order.
    pub open spec fn wf(&self) -> bool {
        sorted(self.entries())
    }

    /// The snapshot without variables.
    pub fn new() -> (env: Env)
        ensures
            env.wf(),
            env.entries() == Seq::<Entry>::empty(),
            env@ == Map::<Seq<u8>, Seq<u8>>::empty(),
    {
        let env = Env { vars: Vec::new() };
        assert(env.entries() =~= Seq::<Entry>::empty());
        assert(env@ =~= Map::<Seq<u8>, Seq<u8>>::empty());
        env
    }

    /// The number of variables.
    pub fn len(&self) -> (n: usize)
        ensures
            n == self.entries().len(),
    {
        self.vars.len()
    }

    /// The name of the variable at place `i`.
    pub fn name_at(&self, i: usize) -> (name: &Vec<u8>)
        requires
            i < self.entries().len(),
        ensures
            name@ == self.entries()[i as int].0,
    {
        &self.vars[i].name
    }

    /// The value of the variable at place `i`.
    pub fn value_at(&self, i: usize) -> (value: &Vec<u8>)
        requires
            i < self.entries().len(),
        ensures
            value@ == self.entries()[i as int].1,
    {
        &self.vars[i].value
    }

    /// The first place whose name does not come before `name`.
    fn lower_bound(&self, name: &[u8]) -> (at: usize)
        requires
            self.wf(),
        ensures
            at <= self.entries().len(),
            forall|i: int|
                #![trigger self.entries()[i]]
                0 <= i < at ==> bytes_lt(self.entries()[i].0, name@),
            forall|i: int|
                #![trigger self.entries()[i]]
                at <= i < self.entries().len() ==> !bytes_lt(self.entries()[i].0, name@),
    {
        let mut at: usize = 0;
        while at < self.vars.len() && bytes_less(self.vars[at].name.as_slice(), name)
            invariant
                at <= self.entries().len(),
                self.entries().len() == self.vars@.len(),
                forall|i: int|
                    #![trigger self.entries()[i]]
                    0 <= i < at ==> bytes_lt(self.entries()[i].0, name@),
            decreases self.vars@.len() - at,
        {
            at += 1;
        }
        proof {
            let es = self.entries();
            assert forall|i: int| #![trigger es[i]] at <= i < es.len() implies !bytes_lt(
                es[i].0,
                name@,
            ) by {
                assert(!bytes_lt(es[at as int].0, name@));
                if i > at && bytes_lt(es[i].0, name@) {
                    assert(bytes_lt(es[at as int].0, es[i].0));
                    lemma_lt_transitive(es[at as int].0, es[i].0, name@);
                }
            }
        }
        at
    }

    /// The place of the variable called `name`, if there is one.
    pub fn position(&self, name: &[u8]) -> (found: Option<usize>)
        requires
            self.wf(),
        ensures
            found is Some <==> self@.contains_key(name@),
            found matches Some(i) ==> i < self.entries().len() && self.entries()[i as int].0
                == name@ && self.entries()[i as int].1 == self@[name@],
    {
        let at = self.lower_bound(name);
        proof {
            lemma_entries_map(self.entries());
        }
        if at < self.vars.len() && bytes_equal(self.vars[at].name.as_slice(), name) {
            assert(self.entries()[at as int].0 == name@);
            Some(at)
        } else {
            proof {
                lemma_name_goes_before(self.entries(), at as int, name@);
                lemma_absent(self.entries(), at as int, name@);
            }
            None
        }
    }

    /// Whether the snapshot holds a variable called `name`.
    pub fn contains_key(&self, name: &[u8]) -> (found: bool)
        requires
            self.wf(),
        ensures
            found == self@.contains_key(name@),
    {
        self.position(name).is_some()
    }

    /// The value of the variable called `name`.
    pub fn get(&self, name: &[u8]) -> (value: Option<&Vec<u8>>)
        requires
            self.wf(),
        ensures
            value is Some <==> self@.contains_key(name@),
            value matches Some(v) ==> v@ == self@[name@],
    {
        match self.position(name) {
            Some(i) => Some(&self.vars[i].value),
            None => None,
        }
    }

    /// Sets the variable called `name` to `value`, adding it where the
    /// snapshot does not hold it yet.
    pub fn insert(&mut self, name: Vec<u8>, value: Vec<u8>)
        requires
            old(self).wf(),
        ensures
            final(self).wf(),
            final(self)@ == old(self)@.insert(name@, value@),
    {
        let at = self.lower_bound(name.as_slice());
        let ghost es = self.entries();
        if at < self.vars.len() && bytes_equal(self.vars[at].name.as_slice(), name.as_slice()) {
            self.vars[at].value = value;
            proof {
                assert(self.entries() =~= es.update(at as int, (es[at as int].0, value@)));
                lemma_update_at(es, at as int, value@);
            }
        } else {
            proof {
                lemma_name_goes_before(es, at as int, name@);
                lemma_insert_at(es, at as int, (name@, value@));
            }
            self.vars.insert(at, EnvVar { name, value });
            assert(self.entries() =~= es.insert(at as int, (name@, value@)));
        }
    }

    /// Appends `tail` to the value of the variable called `name`.
    pub fn extend_value(&mut self, name: &[u8], tail: &[u8])
        requires
            old(self).wf(),
            old(self)@.contains_key(name@),
        ensures
            final(self).wf(),
            final(self)@ == old(self)@.insert(name@, old(self)@[name@] + tail@),
    {
        let ghost es = self.entries();
        match self.position(name) {
            Some(at) => {
                append_bytes(&mut self.vars[at].value, tail);
                proof {
                    assert(self.entries() =~= es.update(
                        at as int,
                        (es[at as int].0, es[at as int].1 + tail@),
                    ));
                    lemma_update_at(es, at as int, es[at as int].1 + tail@);
                }
            },
            None => {},
        }
    }
}

} // verus!
