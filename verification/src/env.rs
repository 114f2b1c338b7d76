//! Environment variables by name, kept in an `IndexMap`, and the filters that
//! pick out those worth exporting next to the shortpaths.

use vstd::prelude::*;
use indexmap::IndexMap;
use crate::shortpaths::{
    SP, sp_entries, has_key, keys_unique, entries_insert, lemma_insert_fresh, sp_contains_key,
};

verus! {

/// Environment variables: name and value, in order.
pub type EP = IndexMap<String, String>;

/// The variables as values, in order.
pub type EnvEntries = Seq<(Seq<char>, Seq<char>)>;

/// What a variable map holds, in order.
pub uninterp spec fn ep_entries(m: EP) -> EnvEntries;

/// A variable map never holds a name twice.
pub open spec fn ep_wf(m: EP) -> bool {
    keys_unique(ep_entries(m))
}

/// A set of environment variables.
#[derive(Debug)]
pub struct EnvVars {
    pub vars: EP,
}

/// An empty map (`IndexMap::new`).
#[verifier::external_body]
pub(crate) fn ep_new() -> (m: EP)
    ensures
        ep_entries(m) == Seq::<(Seq<char>, Seq<char>)>::empty(),
{
    IndexMap::new()
}

/// The number of variables (`IndexMap::len`).
#[verifier::external_body]
pub(crate) fn ep_len(m: &EP) -> (n: usize)
    ensures
        n == ep_entries(*m).len(),
{
    m.len()
}

/// The variable at position `i` (`IndexMap::get_index`).
#[verifier::external_body]
pub(crate) fn ep_get_index<'a>(m: &'a EP, i: usize) -> (r: (&'a String, &'a String))
    requires
        i < ep_entries(*m).len(),
    ensures
        r.0@ == ep_entries(*m)[i as int].0,
        r.1@ == ep_entries(*m)[i as int].1,
{
    m.get_index(i).unwrap()
}

/// Stores `v` under `k` (`IndexMap::insert`): an existing name keeps its
/// place and takes the new value; a new name goes last.
#[verifier::external_body]
pub(crate) fn ep_insert(m: &mut EP, k: String, v: String)
    requires
        ep_wf(*old(m)),
    ensures
        ep_wf(*final(m)),
        ep_entries(*final(m)) == entries_insert(ep_entries(*old(m)), k@, v@),
{
    m.insert(k, v);
}

/// The variables whose names are not names of `names`, in order.
pub open spec fn unique_entries(e: EnvEntries, names: crate::shortpaths::Entries) -> EnvEntries
    decreases e.len(),
{
    if e.len() == 0 {
        Seq::empty()
    } else {
        let before = unique_entries(e.drop_last(), names);
        if has_key(names, e.last().0) {
            before
        } else {
            before.push(e.last())
        }
    }
}

/// The variables whose value is not empty, in order.
pub open spec fn non_null_entries(e: EnvEntries) -> EnvEntries
    decreases e.len(),
{
    if e.len() == 0 {
        Seq::empty()
    } else {
        let before = non_null_entries(e.drop_last());
        if e.last().1.len() == 0 {
            before
        } else {
            before.push(e.last())
        }
    }
}

proof fn lemma_unique_sub(e: EnvEntries, names: crate::shortpaths::Entries, a: int)
    requires
        0 <= a < unique_entries(e, names).len(),
    ensures
        exists|j: int| 0 <= j < e.len() && e[j] == unique_entries(e, names)[a],
    decreases e.len(),
{
    let before = unique_entries(e.drop_last(), names);
    if a < before.len() {
        lemma_unique_sub(e.drop_last(), names, a);
        let j = choose|j: int| 0 <= j < e.drop_last().len() && e.drop_last()[j] == before[a];
        assert(e[j] == e.drop_last()[j]);
    } else {
        assert(e[e.len() - 1] == unique_entries(e, names)[a]);
    }
}

proof fn lemma_non_null_sub(e: EnvEntries, a: int)
    requires
        0 <= a < non_null_entries(e).len(),
    ensures
        exists|j: int| 0 <= j < e.len() && e[j] == non_null_entries(e)[a],
    decreases e.len(),
{
    let before = non_null_entries(e.drop_last());
    if a < before.len() {
        lemma_non_null_sub(e.drop_last(), a);
        let j = choose|j: int| 0 <= j < e.drop_last().len() && e.drop_last()[j] == before[a];
        assert(e[j] == e.drop_last()[j]);
    } else {
        assert(e[e.len() - 1] == non_null_entries(e)[a]);
    }
}

/// Return the set of environment variables not in the set of shortpaths
pub fn unique_vars(shortpaths: &SP, envpaths: &EP) -> (r: EP)
    requires
        ep_wf(*envpaths),
    ensures
        ep_wf(r),
        ep_entries(r) == unique_entries(ep_entries(*envpaths), sp_entries(*shortpaths)),
{
    let ghost e = ep_entries(*envpaths);
    let ghost names = sp_entries(*shortpaths);
    let n = ep_len(envpaths);
    let mut out = ep_new();
    let mut i: usize = 0;
    while i < n
        invariant
            n == e.len(),
            e == ep_entries(*envpaths),
            names == sp_entries(*shortpaths),
            keys_unique(e),
            i <= n,
            ep_wf(out),
            ep_entries(out) == unique_entries(e.take(i as int), names),
        decreases n - i,
    {
        let (name, value) = ep_get_index(envpaths, i);
        let ghost prev = ep_entries(out);
        assert(e.take(i + 1).drop_last() =~= e.take(i as int));
        assert(e.take(i + 1).last() == e[i as int]);
        if !sp_contains_key(shortpaths, name.as_str()) {
            proof {
                assert(!has_key(prev, name@)) by {
                    if has_key(prev, name@) {
                        let a = choose|a: int| 0 <= a < prev.len() && prev[a].0 == name@;
                        lemma_unique_sub(e.take(i as int), names, a);
                        let j = choose|j: int|
                            0 <= j < e.take(i as int).len() && e.take(i as int)[j] == prev[a];
                        assert(e[j] == e.take(i as int)[j]);
                    }
                }
                lemma_insert_fresh_env(prev, name@, value@);
            }
            ep_insert(&mut out, name.clone(), value.clone());
        }
        i = i + 1;
    }
    assert(e.take(n as int) =~= e);
    out
}

proof fn lemma_insert_fresh_env(e: EnvEntries, k: Seq<char>, v: Seq<char>)
    requires
        keys_unique(e),
        !has_key(e, k),
    ensures
        entries_insert(e, k, v) == e.push((k, v)),
        keys_unique(e.push((k, v))),
{
    assert forall|i: int, j: int|
        0 <= i < e.len() + 1 && 0 <= j < e.len() + 1 && i != j implies #[trigger] e.push(
        (k, v),
    )[i].0 != #[trigger] e.push((k, v))[j].0 by {
        if i < e.len() && j < e.len() {
            assert(e.push((k, v))[i] == e[i]);
            assert(e.push((k, v))[j] == e[j]);
        } else if i < e.len() {
            assert(e.push((k, v))[i] == e[i]);
        } else {
            assert(e.push((k, v))[j] == e[j]);
        }
    }
}

/// Filters on a set of environment variables.
pub trait EnvPathOperationsExt: Sized {
    /// No variable name repeats.
    spec fn vars_wf(&self) -> bool;

    /// The variables whose names are not shortpath names.
    fn unique(&self, shortpaths: &SP) -> EP
        requires
            self.vars_wf(),
    ;

    /// The variables whose value is not empty.
    fn non_null(self) -> EP
        requires
            self.vars_wf(),
    ;
}

impl EnvPathOperationsExt for EP {
    open spec fn vars_wf(&self) -> bool {
        ep_wf(*self)
    }

    fn unique(&self, shortpaths: &SP) -> (r: EP)
        ensures
            ep_wf(r),
            ep_entries(r) == unique_entries(ep_entries(*self), sp_entries(*shortpaths)),
    {
        unique_vars(shortpaths, self)
    }

    fn non_null(self) -> (r: EP)
        ensures
            ep_wf(r),
            ep_entries(r) == non_null_entries(ep_entries(self)),
    {
        non_null_vars(&self)
    }
}

/// The variables whose value is not empty, in order.
pub fn non_null_vars(envpaths: &EP) -> (r: EP)
    requires
        ep_wf(*envpaths),
    ensures
        ep_wf(r),
        ep_entries(r) == non_null_entries(ep_entries(*envpaths)),
{
    let ghost e = ep_entries(*envpaths);
    let n = ep_len(envpaths);
    let mut out = ep_new();
    let mut i: usize = 0;
    while i < n
        invariant
            n == e.len(),
            e == ep_entries(*envpaths),
            keys_unique(e),
            i <= n,
            ep_wf(out),
            ep_entries(out) == non_null_entries(e.take(i as int)),
        decreases n - i,
    {
        let (name, value) = ep_get_index(envpaths, i);
        let ghost prev = ep_entries(out);
        assert(e.take(i + 1).drop_last() =~= e.take(i as int));
        assert(e.take(i + 1).last() == e[i as int]);
        let v = crate::strings::to_str_slice(value.as_str());
        if v.len() > 0 {
            proof {
                assert(!has_key(prev, name@)) by {
                    if has_key(prev, name@) {
                        let a = choose|a: int| 0 <= a < prev.len() && prev[a].0 == name@;
                        lemma_non_null_sub(e.take(i as int), a);
                        let j = choose|j: int|
                            0 <= j < e.take(i as int).len() && e.take(i as int)[j] == prev[a];
                        assert(e[j] == e.take(i as int)[j]);
                    }
                }
                lemma_insert_fresh_env(prev, name@, value@);
            }
            ep_insert(&mut out, name.clone(), value.clone());
        }
        i = i + 1;
    }
    assert(e.take(n as int) =~= e);
    out
}

/// No variable that `unique` keeps has the name of a shortpath, and each one
/// kept is one of the variables given.
pub proof fn lemma_unique_entries_disjoint(e: EnvEntries, names: crate::shortpaths::Entries)
    ensures
        forall|a: int|
            0 <= a < unique_entries(e, names).len() ==> !has_key(
                names,
                #[trigger] unique_entries(e, names)[a].0,
            ),
        forall|a: int|
            0 <= a < unique_entries(e, names).len() ==> exists|j: int|
                0 <= j < e.len() && e[j] == #[trigger] unique_entries(e, names)[a],
    decreases e.len(),
{
    if e.len() > 0 {
        lemma_unique_entries_disjoint(e.drop_last(), names);
        let u = unique_entries(e, names);
        let before = unique_entries(e.drop_last(), names);
        assert forall|a: int| 0 <= a < u.len() implies !has_key(names, #[trigger] u[a].0) by {
            if a < before.len() {
                assert(u[a] == before[a]);
            }
        }
        assert forall|a: int| 0 <= a < u.len() implies exists|j: int|
            0 <= j < e.len() && e[j] == #[trigger] u[a] by {
            lemma_unique_sub(e, names, a);
        }
    }
}

/// Every variable that `non_null` keeps has a value, and each one kept is one
/// of the variables given.
pub proof fn lemma_non_null_entries_nonempty(e: EnvEntries)
    ensures
        forall|a: int|
            0 <= a < non_null_entries(e).len() ==> (#[trigger] non_null_entries(e)[a]).1.len() > 0,
        forall|a: int|
            0 <= a < non_null_entries(e).len() ==> exists|j: int|
                0 <= j < e.len() && e[j] == #[trigger] non_null_entries(e)[a],
    decreases e.len(),
{
    if e.len() > 0 {
        lemma_non_null_entries_nonempty(e.drop_last());
        let u = non_null_entries(e);
        let before = non_null_entries(e.drop_last());
        assert forall|a: int| 0 <= a < u.len() implies (#[trigger] u[a]).1.len() > 0 by {
            if a < before.len() {
                assert(u[a] == before[a]);
            }
        }
        assert forall|a: int| 0 <= a < u.len() implies exists|j: int|
            0 <= j < e.len() && e[j] == #[trigger] u[a] by {
            lemma_non_null_sub(e, a);
        }
    }
}

} // verus!
