//! Shortpaths: named paths that may refer to one another with `$name`, kept
//! in insertion order in an `IndexMap`, and the operations on them: parsing
//! aliases, expanding and folding paths, sorting, and the edits behind the
//! command line (add, remove, update, resolve).

use vstd::prelude::*;
use indexmap::IndexMap;
use std::cmp::Ordering;
use crate::helpers::trim_end_of;
use crate::paths::{
    first_comp_text, first_component, path_comps, path_order, path_parent, path_parent_of,
    comp_text, components, ordering_value, compare_paths, Comp, PathComponent, body_comps,
    comp_sep_free, lemma_path_comps_sep_free, lemma_path_comps_join, lemma_path_comps_nonempty,
};
use crate::strings::{
    replace_all, has_prefix, contains_seq, occurs_at, replace_str, to_str_slice, chars_to_string,
    push_all, concat_str, str_eq, copy_str,
};

verus! {

#[verifier::external_type_specification]
#[verifier::external_body]
#[verifier::reject_recursive_types(K)]
#[verifier::reject_recursive_types(V)]
#[verifier::reject_recursive_types(S)]
pub struct ExIndexMap<K, V, S>(IndexMap<K, V, S>);

/// How a path component refers to other paths.
#[derive(Debug, Clone, Copy, PartialEq, Eq, Structural)]
pub enum ShortpathVariant {
    Independent,
    Alias,
    Environment,
}

/// A shortpath: the path as written (possibly holding `$name` aliases and
/// `${env:NAME}` variables) and, once computed, its full path.
#[derive(Debug)]
pub struct Shortpath {
    pub path: String,
    pub full_path: Option<String>,
}

/// A shortpath as a value.
pub ghost struct ShortpathView {
    pub path: Seq<char>,
    pub full_path: Option<Seq<char>>,
}

pub open spec fn opt_view(o: Option<String>) -> Option<Seq<char>> {
    match o {
        Some(s) => Some(s@),
        None => None,
    }
}

impl View for Shortpath {
    type V = ShortpathView;

    open spec fn view(&self) -> ShortpathView {
        ShortpathView { path: self.path@, full_path: opt_view(self.full_path) }
    }
}

impl Clone for Shortpath {
    fn clone(&self) -> (r: Self)
        ensures
            r@ == self@,
    {
        Shortpath { path: self.path.clone(), full_path: copy_opt(&self.full_path) }
    }
}

pub fn copy_opt(o: &Option<String>) -> (r: Option<String>)
    ensures
        opt_view(r) == opt_view(*o),
{
    match o {
        Some(s) => Some(s.clone()),
        None => None,
    }
}

impl Shortpath {
    pub fn new(path: String, full_path: Option<String>) -> (r: Shortpath)
        ensures
            r@ == (ShortpathView { path: path@, full_path: opt_view(full_path) }),
    {
        Shortpath { path, full_path }
    }
}

/// Shortpaths by name, in insertion order.
pub type SP = IndexMap<String, Shortpath>;

/// The entries of a shortpath map: each name with its shortpath, in the
/// map's order.
pub type Entries = Seq<(Seq<char>, ShortpathView)>;

/// What a shortpath map holds, in order.
pub uninterp spec fn sp_entries(m: SP) -> Entries;

/// No name occurs twice.
pub open spec fn keys_unique<V>(e: Seq<(Seq<char>, V)>) -> bool {
    forall|i: int, j: int| 0 <= i < e.len() && 0 <= j < e.len() && i != j ==> e[i].0 != e[j].0
}

/// A shortpath map is well formed: an `IndexMap` never holds a key twice.
pub open spec fn sp_wf(m: SP) -> bool {
    keys_unique(sp_entries(m))
}

/// `k` is one of the names.
pub open spec fn has_key<V>(e: Seq<(Seq<char>, V)>, k: Seq<char>) -> bool {
    exists|i: int| 0 <= i < e.len() && e[i].0 == k
}

/// The position of the name `k`.
pub open spec fn key_index<V>(e: Seq<(Seq<char>, V)>, k: Seq<char>) -> int {
    choose|i: int| 0 <= i < e.len() && e[i].0 == k
}

/// The value stored under `k`, if any.
pub open spec fn lookup<V>(e: Seq<(Seq<char>, V)>, k: Seq<char>) -> Option<V> {
    if has_key(e, k) {
        Some(e[key_index(e, k)].1)
    } else {
        None
    }
}

/// The entries after `insert(k, v)`: an existing name keeps its place and
/// takes the new value; a new name goes last.
pub open spec fn entries_insert<V>(e: Seq<(Seq<char>, V)>, k: Seq<char>, v: V) -> Seq<(Seq<char>, V)> {
    if has_key(e, k) {
        e.update(key_index(e, k), (k, v))
    } else {
        e.push((k, v))
    }
}

/// The entries after `shift_remove(k)`: the entry under `k` is taken out and
/// the others keep their order.
pub open spec fn entries_shift_remove<V>(e: Seq<(Seq<char>, V)>, k: Seq<char>) -> Seq<(Seq<char>, V)> {
    if has_key(e, k) {
        e.remove(key_index(e, k))
    } else {
        e
    }
}

/// The entries after renaming `cur` (which is present) to `new`: in its own
/// place when `new` is not taken by another entry; otherwise `cur` is taken
/// out and its shortpath stored under `new`, in `new`'s place.
pub open spec fn entries_rename<V>(e: Seq<(Seq<char>, V)>, cur: Seq<char>, new: Seq<char>) -> Seq<
    (Seq<char>, V),
> {
    let i = key_index(e, cur);
    if new == cur || !has_key(e, new) {
        e.update(i, (new, e[i].1))
    } else {
        entries_insert(entries_shift_remove(e, cur), new, e[i].1)
    }
}

/// An empty map (`IndexMap::new`).
#[verifier::external_body]
pub(crate) fn sp_new() -> (m: SP)
    ensures
        sp_entries(m) == Seq::<(Seq<char>, ShortpathView)>::empty(),
{
    IndexMap::new()
}

/// The number of entries (`IndexMap::len`).
#[verifier::external_body]
pub(crate) fn sp_len(m: &SP) -> (n: usize)
    ensures
        n == sp_entries(*m).len(),
{
    m.len()
}

/// The entry at position `i` (`IndexMap::get_index`).
#[verifier::external_body]
pub(crate) fn sp_get_index<'a>(m: &'a SP, i: usize) -> (r: (&'a String, &'a Shortpath))
    requires
        i < sp_entries(*m).len(),
    ensures
        r.0@ == sp_entries(*m)[i as int].0,
        r.1@ == sp_entries(*m)[i as int].1,
{
    m.get_index(i).unwrap()
}

/// The shortpath stored under `k` (`IndexMap::get`).
#[verifier::external_body]
pub(crate) fn sp_get<'a>(m: &'a SP, k: &str) -> (r: Option<&'a Shortpath>)
    requires
        sp_wf(*m),
    ensures
        match r {
            Some(v) => lookup(sp_entries(*m), k@) == Some(v@),
            None => lookup(sp_entries(*m), k@) is None,
        },
{
    m.get(k)
}

/// Whether a name is present (`IndexMap::contains_key`).
#[verifier::external_body]
pub(crate) fn sp_contains_key(m: &SP, k: &str) -> (r: bool)
    ensures
        r == has_key(sp_entries(*m), k@),
{
    m.contains_key(k)
}

/// Stores `v` under `k` (`IndexMap::insert`): an existing name keeps its
/// place and takes the new value, and the old value is handed back; a new
/// name goes last.
#[verifier::external_body]
pub(crate) fn sp_insert(m: &mut SP, k: String, v: Shortpath) -> (r: Option<Shortpath>)
    requires
        sp_wf(*old(m)),
    ensures
        sp_wf(*final(m)),
        sp_entries(*final(m)) == entries_insert(sp_entries(*old(m)), k@, v@),
        match r {
            Some(o) => lookup(sp_entries(*old(m)), k@) == Some(o@),
            None => lookup(sp_entries(*old(m)), k@) is None,
        },
{
    m.insert(k, v)
}

/// Removes the entry under `k` (`IndexMap::shift_remove`): the entries after
/// it keep their order.  The removed shortpath is handed back.
#[verifier::external_body]
pub(crate) fn sp_remove(m: &mut SP, k: &str) -> (r: Option<Shortpath>)
    requires
        sp_wf(*old(m)),
    ensures
        sp_wf(*final(m)),
        sp_entries(*final(m)) == entries_shift_remove(sp_entries(*old(m)), k@),
        match r {
            Some(o) => lookup(sp_entries(*old(m)), k@) == Some(o@),
            None => lookup(sp_entries(*old(m)), k@) is None,
        },
{
    m.shift_remove(k)
}

/// The position of the entry under `k` (`IndexMap::get_index_of`).
#[verifier::external_body]
pub(crate) fn sp_get_index_of(m: &SP, k: &str) -> (r: Option<usize>)
    requires
        sp_wf(*m),
    ensures
        match r {
            Some(i) => has_key(sp_entries(*m), k@) && i == key_index(sp_entries(*m), k@),
            None => !has_key(sp_entries(*m), k@),
        },
{
    m.get_index_of(k)
}

/// Gives the entry at position `i` the name `k` (`IndexMap::replace_index`):
/// done when `k` is that entry's name already or no other entry has it;
/// otherwise the map is left as it was.  Returns whether it was done.
#[verifier::external_body]
pub(crate) fn sp_replace_key(m: &mut SP, i: usize, k: String) -> (r: bool)
    requires
        sp_wf(*old(m)),
        i < sp_entries(*old(m)).len(),
    ensures
        sp_wf(*final(m)),
        r == (sp_entries(*old(m))[i as int].0 == k@ || !has_key(sp_entries(*old(m)), k@)),
        r ==> sp_entries(*final(m)) == sp_entries(*old(m)).update(i as int, (k@, sp_entries(*old(m))[i as int].1)),
        !r ==> sp_entries(*final(m)) == sp_entries(*old(m)),
{
    m.replace_index(i, k).is_ok()
}

/// A copy of the map (`IndexMap::clone`, which clones each shortpath with
/// [`Shortpath`]'s `clone`, whose contract keeps the value).
#[verifier::external_body]
pub(crate) fn sp_clone(m: &SP) -> (r: SP)
    ensures
        sp_entries(r) == sp_entries(*m),
{
    m.clone()
}

/// In a well-formed map the position of a present name is the one that
/// `key_index` picks.
pub proof fn lemma_key_index_unique<V>(e: Seq<(Seq<char>, V)>, k: Seq<char>, i: int)
    requires
        keys_unique(e),
        0 <= i < e.len(),
        e[i].0 == k,
    ensures
        has_key(e, k),
        key_index(e, k) == i,
        lookup(e, k) == Some(e[i].1),
{
    assert(has_key(e, k));
}

/// `$` followed by `name`: how a path refers to the shortpath `name`.
pub open spec fn alias_ref(name: Seq<char>) -> Seq<char> {
    seq!['$'] + name
}

/// `${env:` `name` `}`: how a path refers to the environment variable `name`.
pub open spec fn env_ref(name: Seq<char>) -> Seq<char> {
    seq!['$', '{', 'e', 'n', 'v', ':'] + name + seq!['}']
}

/// The text `${env:`.
pub open spec fn env_prefix() -> Seq<char> {
    seq!['$', '{', 'e', 'n', 'v', ':']
}

fn alias_ref_string(name: &str) -> (r: String)
    ensures
        r@ == alias_ref(name@),
{
    let mut v: Vec<char> = Vec::new();
    v.push('$');
    let n = to_str_slice(name);
    push_all(&mut v, &n);
    assert(v@ =~= alias_ref(name@));
    chars_to_string(&v)
}

fn env_prefix_chars() -> (r: Vec<char>)
    ensures
        r@ == env_prefix(),
{
    let mut v: Vec<char> = Vec::new();
    v.push('$');
    v.push('{');
    v.push('e');
    v.push('n');
    v.push('v');
    v.push(':');
    assert(v@ =~= env_prefix());
    v
}

fn env_ref_string(name: &str) -> (r: String)
    ensures
        r@ == env_ref(name@),
{
    let mut v = env_prefix_chars();
    let n = to_str_slice(name);
    push_all(&mut v, &n);
    v.push('}');
    assert(v@ =~= env_ref(name@));
    chars_to_string(&v)
}

/// Expands the alias `$key_name` in `src` to `key_path`.
pub fn expand_path(src: &str, key_name: &str, key_path: &str) -> (r: String)
    ensures
        r@ == replace_all(src@, alias_ref(key_name@), key_path@),
{
    let this = alias_ref_string(key_name);
    replace_str(src, this.as_str(), key_path)
}

/// Folds every occurrence of `key_path` in `src` into the alias `$key_name`.
pub fn fold_path(src: &str, key_name: &str, key_path: &str) -> (r: String)
    ensures
        r@ == replace_all(src@, key_path@, alias_ref(key_name@)),
{
    let with = alias_ref_string(key_name);
    replace_str(src, key_path, with.as_str())
}

/// Replaces the variable `${env:env_name}` in `src` by its value `env_path`.
pub fn substitute_env_path(src: &str, env_name: &str, env_path: &str) -> (r: String)
    ensures
        r@ == replace_all(src@, env_ref(env_name@), env_path@),
{
    let this = env_ref_string(env_name);
    replace_str(src, this.as_str(), env_path)
}

/// Rewrites the variable `${env:env_name}` in `src` as the alias `$env_name`.
pub fn substitute_env_alias_name(src: &str, env_name: &str) -> (r: String)
    ensures
        r@ == replace_all(src@, env_ref(env_name@), alias_ref(env_name@)),
{
    let this = env_ref_string(env_name);
    let with = alias_ref_string(env_name);
    replace_str(src, this.as_str(), with.as_str())
}

/// A component written `${env:NAME}`: the prefix `${env:`, then a closing
/// `}` as its last character.
pub open spec fn is_env_comp(comp: Seq<char>) -> bool {
    comp.len() >= 7 && has_prefix(comp, env_prefix()) && comp.last() == '}'
}

/// The kind of a path component: empty is none; `${env:NAME}` is an
/// environment variable; another component with a leading `$` is an alias;
/// anything else stands on its own.
pub open spec fn shortpath_type_of(comp: Seq<char>) -> Option<ShortpathVariant> {
    if comp.len() == 0 {
        None
    } else if is_env_comp(comp) {
        Some(ShortpathVariant::Environment)
    } else if comp[0] == '$' {
        Some(ShortpathVariant::Alias)
    } else {
        Some(ShortpathVariant::Independent)
    }
}

/// Return the type of a shortpath entry.
pub fn get_shortpath_type(comp: &[char]) -> (r: Option<ShortpathVariant>)
    ensures
        r == shortpath_type_of(comp@),
{
    let n = comp.len();
    if n == 0 {
        return None;
    }
    let env = n >= 7 && comp[0] == '$' && comp[1] == '{' && comp[2] == 'e' && comp[3] == 'n'
        && comp[4] == 'v' && comp[5] == ':' && comp[n - 1] == '}';
    assert(env == is_env_comp(comp@)) by {
        if n >= 7 {
            if env {
                assert(comp@.take(6) =~= env_prefix());
            }
            if has_prefix(comp@, env_prefix()) {
                assert(comp@.take(6)[0] == '$');
                assert(comp@.take(6)[1] == '{');
                assert(comp@.take(6)[2] == 'e');
                assert(comp@.take(6)[3] == 'n');
                assert(comp@.take(6)[4] == 'v');
                assert(comp@.take(6)[5] == ':');
            }
        }
    }
    if env {
        Some(ShortpathVariant::Environment)
    } else if comp[0] == '$' {
        Some(ShortpathVariant::Alias)
    } else {
        Some(ShortpathVariant::Independent)
    }
}

/// The name that an alias component `$name` refers to.
pub open spec fn alias_name_of(comp: Seq<char>) -> Option<Seq<char>> {
    if comp.len() > 0 && comp[0] == '$' {
        Some(comp.drop_first())
    } else {
        None
    }
}

/// The variable name in a component written `${env:NAME}`: `NAME`; nothing
/// for any other component.
pub open spec fn env_alias_name_of(comp: Seq<char>) -> Option<Seq<char>> {
    if is_env_comp(comp) {
        Some(comp.subrange(6, comp.len() - 1))
    } else {
        None
    }
}

/// Parse a component of a path, and determine any shortpath variants.
pub fn parse_alias(comp: String) -> (r: Option<String>)
    ensures
        opt_view(r) == alias_name_of(comp@),
{
    let v = to_str_slice(comp.as_str());
    if v.len() > 0 && v[0] == '$' {
        let mut rest: Vec<char> = Vec::new();
        let mut i: usize = 1;
        while i < v.len()
            invariant
                1 <= i <= v@.len(),
                rest@ == v@.subrange(1, i as int),
            decreases v@.len() - i,
        {
            rest.push(v[i]);
            i = i + 1;
            assert(rest@ =~= v@.subrange(1, i as int));
        }
        assert(rest@ =~= v@.drop_first());
        Some(chars_to_string(&rest))
    } else {
        None
    }
}

/// Parse a component of an environment path, and returns it.
pub fn parse_env_alias(comp: String) -> (r: Option<String>)
    ensures
        opt_view(r) == env_alias_name_of(comp@),
        r matches Some(n) ==> comp@ == env_ref(n@),
{
    let v = to_str_slice(comp.as_str());
    match get_shortpath_type(v.as_slice()) {
        Some(ShortpathVariant::Environment) => {
            let n = v.len();
            let mut rest: Vec<char> = Vec::new();
            let mut i: usize = 6;
            while i < n - 1
                invariant
                    n == v@.len(),
                    n >= 7,
                    6 <= i <= n - 1,
                    rest@ == v@.subrange(6, i as int),
                decreases n - 1 - i,
            {
                rest.push(v[i]);
                i = i + 1;
                assert(rest@ =~= v@.subrange(6, i as int));
            }
            assert(v@.take(6) == env_prefix());
            assert(v@ =~= env_ref(rest@)) by {
                assert forall|j: int| 0 <= j < 6 implies v@[j] == env_ref(rest@)[j] by {
                    assert(v@.take(6)[j] == v@[j]);
                }
            }
            Some(chars_to_string(&rest))
        },
        _ => None,
    }
}

/// The name of the first shortpath whose path is `v`.
pub open spec fn key_for_path(e: Entries, v: Seq<char>) -> Option<Seq<char>>
    decreases e.len(),
{
    if e.len() == 0 {
        None
    } else if e[0].1.path == v {
        Some(e[0].0)
    } else {
        key_for_path(e.drop_first(), v)
    }
}

/// The name of the first shortpath whose full path is `v`.
pub open spec fn key_for_full_path(e: Entries, v: Seq<char>) -> Option<Seq<char>>
    decreases e.len(),
{
    if e.len() == 0 {
        None
    } else if e[0].1.full_path == Some(v) {
        Some(e[0].0)
    } else {
        key_for_full_path(e.drop_first(), v)
    }
}

/// The names of all shortpaths whose path is `v`, in order.
pub open spec fn keys_for_path(e: Entries, v: Seq<char>) -> Seq<Seq<char>>
    decreases e.len(),
{
    if e.len() == 0 {
        Seq::empty()
    } else {
        (if e[0].1.path == v {
            seq![e[0].0]
        } else {
            Seq::empty()
        }) + keys_for_path(e.drop_first(), v)
    }
}

pub open spec fn opt_ref_view(o: Option<&String>) -> Option<Seq<char>> {
    match o {
        Some(s) => Some(s@),
        None => None,
    }
}

pub open spec fn refs_view(v: Seq<&String>) -> Seq<Seq<char>> {
    v.map_values(|s: &String| s@)
}

/// The name of the first shortpath whose path (or, with `full`, whose full
/// path) is `v`.
fn find_key<'a>(m: &'a SP, v: &str, full: bool) -> (r: Option<&'a String>)
    ensures
        opt_ref_view(r) == (if full {
            key_for_full_path(sp_entries(*m), v@)
        } else {
            key_for_path(sp_entries(*m), v@)
        }),
{
    let ghost e = sp_entries(*m);
    let n = sp_len(m);
    let mut i: usize = 0;
    assert(e.skip(0) =~= e);
    while i < n
        invariant
            n == e.len(),
            e == sp_entries(*m),
            i <= n,
            (if full {
                key_for_full_path(e, v@)
            } else {
                key_for_path(e, v@)
            }) == (if full {
                key_for_full_path(e.skip(i as int), v@)
            } else {
                key_for_path(e.skip(i as int), v@)
            }),
        decreases n - i,
    {
        let (key, val) = sp_get_index(m, i);
        assert(e.skip(i as int)[0] == e[i as int]);
        assert(e.skip(i as int).drop_first() =~= e.skip(i + 1));
        let hit = if full {
            match &val.full_path {
                Some(f) => str_eq(f.as_str(), v),
                None => false,
            }
        } else {
            str_eq(val.path.as_str(), v)
        };
        if hit {
            return Some(key);
        }
        i = i + 1;
    }
    None
}

/// The names of all shortpaths whose path is `v`, in order.
fn find_keys<'a>(m: &'a SP, v: &str) -> (r: Vec<&'a String>)
    ensures
        refs_view(r@) == keys_for_path(sp_entries(*m), v@),
{
    let ghost e = sp_entries(*m);
    let n = sp_len(m);
    let mut out: Vec<&'a String> = Vec::new();
    let mut i: usize = 0;
    assert(e.skip(0) =~= e);
    while i < n
        invariant
            n == e.len(),
            e == sp_entries(*m),
            i <= n,
            refs_view(out@) + keys_for_path(e.skip(i as int), v@) == keys_for_path(e, v@),
        decreases n - i,
    {
        let (key, val) = sp_get_index(m, i);
        assert(e.skip(i as int)[0] == e[i as int]);
        assert(e.skip(i as int).drop_first() =~= e.skip(i + 1));
        let ghost prev = refs_view(out@);
        if str_eq(val.path.as_str(), v) {
            out.push(key);
            assert(refs_view(out@) =~= prev + seq![key@]);
        }
        assert(refs_view(out@) + keys_for_path(e.skip(i + 1), v@) =~= prev + keys_for_path(
            e.skip(i as int),
            v@,
        ));
        i = i + 1;
    }
    assert(e.skip(n as int) =~= Seq::<(Seq<char>, ShortpathView)>::empty());
    assert(refs_view(out@) + Seq::<Seq<char>>::empty() =~= refs_view(out@));
    out
}

/// Looking up the names of shortpaths by their paths.
pub trait FindKeyIndexMapExt<'a, K, V> {
    /// Get keys from value of IndexMap
    fn find_keys_for_value(&'a self, value: V) -> Vec<&'a K>;

    /// Get key from value of IndexMap
    fn find_key_for_value(&'a self, value: V) -> Option<&'a K>;

    /// Get key from value of IndexMap
    fn find_key_for_full_path(&'a self, value: V) -> Option<&'a K>;
}

impl<'a, 'b> FindKeyIndexMapExt<'a, String, &'b str> for IndexMap<String, Shortpath> {
    fn find_keys_for_value(&'a self, value: &'b str) -> (r: Vec<&'a String>)
        ensures
            refs_view(r@) == keys_for_path(sp_entries(*self), value@),
    {
        find_keys(self, value)
    }

    fn find_key_for_value(&'a self, value: &'b str) -> (r: Option<&'a String>)
        ensures
            opt_ref_view(r) == key_for_path(sp_entries(*self), value@),
    {
        find_key(self, value, false)
    }

    fn find_key_for_full_path(&'a self, value: &'b str) -> (r: Option<&'a String>)
        ensures
            opt_ref_view(r) == key_for_full_path(sp_entries(*self), value@),
    {
        find_key(self, value, true)
    }
}

impl<'a> FindKeyIndexMapExt<'a, String, String> for IndexMap<String, Shortpath> {
    fn find_keys_for_value(&'a self, value: String) -> (r: Vec<&'a String>)
        ensures
            refs_view(r@) == keys_for_path(sp_entries(*self), value@),
    {
        find_keys(self, value.as_str())
    }

    fn find_key_for_value(&'a self, value: String) -> (r: Option<&'a String>)
        ensures
            opt_ref_view(r) == key_for_path(sp_entries(*self), value@),
    {
        find_key(self, value.as_str(), false)
    }

    fn find_key_for_full_path(&'a self, value: String) -> (r: Option<&'a String>)
        ensures
            opt_ref_view(r) == key_for_full_path(sp_entries(*self), value@),
    {
        find_key(self, value.as_str(), true)
    }
}

/// Looks up the shortpath that the alias `alias_name` (`$name`) refers to,
/// and returns its name and path.
pub fn get_sp_deps(alias_name: String, shortpaths: &SP) -> (r: (String, String))
    requires
        sp_wf(*shortpaths),
        alias_name_of(alias_name@) is Some,
        lookup(sp_entries(*shortpaths), alias_name_of(alias_name@).unwrap()) is Some,
    ensures
        r.0@ == alias_name_of(alias_name@).unwrap(),
        r.1@ == lookup(sp_entries(*shortpaths), r.0@).unwrap().path,
{
    let sp_depend_name = match parse_alias(alias_name) {
        Some(n) => n,
        None => {
            assert(false);
            String::new()
        },
    };
    let sp_depend_path = match sp_get(shortpaths, sp_depend_name.as_str()) {
        Some(v) => v,
        None => {
            assert(false);
            return (String::new(), String::new());
        },
    };
    let depend_path = sp_depend_path.path.clone();
    (sp_depend_name, depend_path)
}

/// The first component of `s` is an alias (`$name`).
pub open spec fn first_is_alias(s: Seq<char>) -> bool {
    match first_comp_text(s) {
        Some(c) => shortpath_type_of(c) == Some(ShortpathVariant::Alias),
        None => false,
    }
}

/// The name that the first component of `s` refers to.
pub open spec fn first_dep_name(s: Seq<char>) -> Seq<char> {
    first_comp_text(s).unwrap().drop_first()
}

/// One expansion: the alias in the first component of `s` replaced, wherever
/// it occurs in `s`, by the path of the shortpath it names; nothing when no
/// shortpath has that name.
pub open spec fn expand_step(s: Seq<char>, e: Entries) -> Option<Seq<char>> {
    let dep = first_dep_name(s);
    match lookup(e, dep) {
        Some(v) => Some(replace_all(s, alias_ref(dep), v.path)),
        None => None,
    }
}

/// Expansion once it has begun: while the first component of `s` is an
/// alias, that alias is expanded throughout `s`, layer after layer, until no
/// alias leads the path.  Nothing when a name is missing or more than `fuel`
/// further layers would be needed (as with aliases that refer to each other
/// in a cycle).
pub open spec fn expand_layers(s: Seq<char>, e: Entries, fuel: nat) -> Option<Seq<char>>
    decreases fuel,
{
    if path_comps(s).len() == 0 || !first_is_alias(s) {
        Some(s)
    } else {
        match expand_step(s, e) {
            None => None,
            Some(next) => if fuel == 0 {
                None
            } else {
                expand_layers(next, e, (fuel - 1) as nat)
            },
        }
    }
}

/// Expansion of the path `entry`: nothing for a path without components;
/// otherwise its aliases expanded layer after layer (see [`expand_layers`]).
pub open spec fn expand_from(entry: Seq<char>, e: Entries, fuel: nat) -> Option<Seq<char>> {
    if path_comps(entry).len() == 0 {
        None
    } else {
        expand_layers(entry, e, fuel)
    }
}

/// `entry` expands without a missing name and in finitely many layers.
pub open spec fn expandable(entry: Seq<char>, e: Entries) -> bool {
    exists|fuel: nat| expand_from(entry, e, fuel) is Some
}

/// The full path that `entry` expands to.
pub open spec fn expanded_path(entry: Seq<char>, e: Entries) -> Seq<char> {
    expand_from(entry, e, choose|fuel: nat| expand_from(entry, e, fuel) is Some).unwrap()
}

/// The alias in the first component of `s` expanded throughout `s`.
fn expand_first_alias(s: &String, shortpaths: &SP) -> (r: (String, String))
    requires
        sp_wf(*shortpaths),
        first_is_alias(s@),
        expand_step(s@, sp_entries(*shortpaths)) is Some,
    ensures
        r.0@ == first_dep_name(s@),
        r.1@ == expand_step(s@, sp_entries(*shortpaths)).unwrap(),
{
    let comp = match first_component(s.as_str()) {
        Some(c) => c,
        None => {
            assert(false);
            String::new()
        },
    };
    let (sp_depend_name, depend_path) = get_sp_deps(comp, shortpaths);
    let expanded = expand_path(s.as_str(), sp_depend_name.as_str(), depend_path.as_str());
    (sp_depend_name, expanded)
}

fn is_first_alias(s: &String) -> (r: bool)
    ensures
        r == (path_comps(s@).len() != 0 && first_is_alias(s@)),
{
    match first_component(s.as_str()) {
        Some(c) => {
            let v = to_str_slice(c.as_str());
            match get_shortpath_type(v.as_slice()) {
                Some(ShortpathVariant::Alias) => true,
                _ => false,
            }
        },
        None => false,
    }
}

/// Expand shortpath variants at runtime: the aliases leading `sp`'s path are
/// replaced, layer by layer, by the paths they name in `shortpaths`, until no
/// alias leads it.
pub fn expand_shortpath(sp: &Shortpath, shortpaths: &SP) -> (r: String)
    requires
        sp_wf(*shortpaths),
        expandable(sp.path@, sp_entries(*shortpaths)),
    ensures
        r@ == expanded_path(sp.path@, sp_entries(*shortpaths)),
{
    let ghost e = sp_entries(*shortpaths);
    let ghost fuel0 = choose|fuel: nat| expand_from(sp.path@, e, fuel) is Some;
    let ghost target = expanded_path(sp.path@, e);
    let mut cur = sp.path.clone();
    let ghost mut fuel: nat = fuel0;
    while is_first_alias(&cur)
        invariant
            sp_wf(*shortpaths),
            e == sp_entries(*shortpaths),
            expand_layers(cur@, e, fuel) == Some(target),
        decreases fuel,
    {
        assert(expand_step(cur@, e) is Some);
        assert(fuel > 0);
        let (_, expanded) = expand_first_alias(&cur, shortpaths);
        cur = expanded;
        proof {
            fuel = (fuel - 1) as nat;
        }
    }
    cur
}

/// Expansion of `sp`'s path with at most `max_layers` layers: the expanded
/// path, or nothing when the path has no components, names a shortpath that
/// is missing, or needs more layers (as aliases that refer to each other in a
/// cycle do).  A shortpath for which this gives a path is [`expandable`].
pub fn try_expand_shortpath(sp: &Shortpath, shortpaths: &SP, max_layers: usize) -> (r: Option<String>)
    requires
        sp_wf(*shortpaths),
    ensures
        match r {
            Some(x) => expand_from(sp.path@, sp_entries(*shortpaths), max_layers as nat) == Some(x@),
            None => expand_from(sp.path@, sp_entries(*shortpaths), max_layers as nat) is None,
        },
{
    let ghost e = sp_entries(*shortpaths);
    let ghost goal = expand_from(sp.path@, e, max_layers as nat);
    if first_component(sp.path.as_str()).is_none() {
        return None;
    }
    let mut cur = sp.path.clone();
    let mut fuel: usize = max_layers;
    while is_first_alias(&cur)
        invariant
            sp_wf(*shortpaths),
            e == sp_entries(*shortpaths),
            goal == expand_from(sp.path@, e, max_layers as nat),
            expand_layers(cur@, e, fuel as nat) == goal,
        decreases fuel,
    {
        let comp = match first_component(cur.as_str()) {
            Some(c) => c,
            None => {
                return None;
            },
        };
        let dep = match parse_alias(comp) {
            Some(d) => d,
            None => {
                return None;
            },
        };
        assert(dep@ == first_dep_name(cur@));
        if !sp_contains_key(shortpaths, dep.as_str()) {
            assert(expand_step(cur@, e) is None);
            assert(expand_layers(cur@, e, fuel as nat) is None);
            return None;
        }
        assert(expand_step(cur@, e) is Some);
        if fuel == 0 {
            assert(expand_layers(cur@, e, 0) is None);
            return None;
        }
        let (_, expanded) = expand_first_alias(&cur, shortpaths);
        cur = expanded;
        fuel = fuel - 1;
    }
    Some(cur)
}

/// Folding along the parents of `path`, nearest first, for at most `n` of
/// them: wherever a parent is the full path of a shortpath, its occurrences
/// in `output` become that shortpath's alias.
pub open spec fn fold_chain(path: Seq<char>, output: Seq<char>, e: Entries, n: nat) -> Seq<char>
    decreases n,
{
    if n == 0 {
        output
    } else {
        match path_parent_of(path) {
            None => output,
            Some(p) => fold_chain(
                p,
                match key_for_full_path(e, p) {
                    Some(k) => replace_all(output, p, alias_ref(k)),
                    None => output,
                },
                e,
                (n - 1) as nat,
            ),
        }
    }
}

/// The path `path` with each of its parents that is the full path of a
/// shortpath folded into that shortpath's alias.
pub fn fold_shortpath(path: String, shortpaths: &SP) -> (r: String)
    ensures
        r@ == fold_chain(path@, path@, sp_entries(*shortpaths), path@.len()),
{
    let ghost e = sp_entries(*shortpaths);
    let ghost total = path@.len();
    let ghost orig = path@;
    let mut output = path.clone();
    let mut cur = path;
    let ghost mut n: nat = total;
    loop
        invariant
            e == sp_entries(*shortpaths),
            cur@.len() <= n,
            orig == path@,
            total == orig.len(),
            fold_chain(cur@, output@, e, n) == fold_chain(orig, orig, e, total),
        decreases cur@.len(),
    {
        match path_parent(cur.as_str()) {
            Some(parent) => {
                assert(n > 0);
                match shortpaths.find_key_for_full_path(parent.as_str()) {
                    Some(key) => {
                        let with = alias_ref_string(key.as_str());
                        output = replace_str(output.as_str(), parent.as_str(), with.as_str());
                    },
                    None => {},
                }
                cur = parent;
                proof {
                    n = (n - 1) as nat;
                }
            },
            None => {
                assert(fold_chain(cur@, output@, e, n) == output@);
                return output;
            },
        }
    }
}

/// Each `${env:NAME}` component of the path (taken in order from the
/// components of the path as first given) rewritten throughout as the alias `$NAME`.
pub open spec fn subst_env_comps(path: Seq<char>, comps: Seq<Comp>) -> Seq<char>
    decreases comps.len(),
{
    if comps.len() == 0 {
        path
    } else {
        let next = match env_alias_name_of(comp_text(comps[0])) {
            Some(n) => replace_all(path, env_ref(n), alias_ref(n)),
            None => path,
        };
        subst_env_comps(next, comps.drop_first())
    }
}

/// The path with its `${env:NAME}` components rewritten as `$NAME`.
pub open spec fn subst_env_in_path(path: Seq<char>) -> Seq<char> {
    subst_env_comps(path, path_comps(path))
}

/// A shortpath whose path has its variables rewritten as aliases.
pub open spec fn subst_env_entry(x: (Seq<char>, ShortpathView)) -> (Seq<char>, ShortpathView) {
    (x.0, ShortpathView { path: subst_env_in_path(x.1.path), full_path: x.1.full_path })
}

fn substitute_env_in(path: &String) -> (r: String)
    ensures
        r@ == subst_env_in_path(path@),
{
    let comps = components(path.as_str());
    let ghost cv = crate::paths::comps_view(comps@);
    let mut out = path.clone();
    let mut i: usize = 0;
    assert(cv.skip(0) =~= cv);
    while i < comps.len()
        invariant
            cv == crate::paths::comps_view(comps@),
            cv == path_comps(path@),
            i <= comps@.len(),
            subst_env_comps(out@, cv.skip(i as int)) == subst_env_in_path(path@),
        decreases comps@.len() - i,
    {
        let compstr = crate::paths::to_string(&comps[i]);
        assert(cv.skip(i as int)[0] == comps@[i as int]@);
        assert(cv.skip(i as int).drop_first() =~= cv.skip(i + 1));
        match parse_env_alias(compstr) {
            Some(env_name) => {
                out = substitute_env_alias_name(out.as_str(), env_name.as_str());
            },
            None => {},
        }
        i = i + 1;
    }
    assert(cv.skip(i as int) =~= Seq::<Comp>::empty());
    out
}

/// Entries inserted one after another into an empty map, when no name
/// repeats, come out as they went in.
pub proof fn lemma_insert_fresh<V>(e: Seq<(Seq<char>, V)>, k: Seq<char>, v: V)
    requires
        keys_unique(e.push((k, v))),
    ensures
        entries_insert(e, k, v) == e.push((k, v)),
        keys_unique(e),
{
    if has_key(e, k) {
        let i = choose|i: int| 0 <= i < e.len() && e[i].0 == k;
        assert(e.push((k, v))[i].0 == e.push((k, v))[e.len() as int].0);
    }
    assert forall|i: int, j: int| 0 <= i < e.len() && 0 <= j < e.len() && i != j implies e[i].0
        != e[j].0 by {
        assert(e.push((k, v))[i] == e[i]);
        assert(e.push((k, v))[j] == e[j]);
    }
}

/// Replaces ${env:PATH} -> $PATHs
pub fn substitute_env_paths(shorpaths: SP) -> (r: SP)
    requires
        sp_wf(shorpaths),
    ensures
        sp_wf(r),
        sp_entries(r) == sp_entries(shorpaths).map_values(|x| subst_env_entry(x)),
{
    let ghost e = sp_entries(shorpaths);
    let ghost target = e.map_values(|x| subst_env_entry(x));
    let n = sp_len(&shorpaths);
    let mut out = sp_new();
    let mut i: usize = 0;
    assert(keys_unique(target)) by {
        assert forall|a: int, b: int| 0 <= a < target.len() && 0 <= b < target.len() && a != b
            implies target[a].0 != target[b].0 by {
            assert(target[a].0 == e[a].0);
            assert(target[b].0 == e[b].0);
        }
    }
    while i < n
        invariant
            n == e.len(),
            e == sp_entries(shorpaths),
            target == e.map_values(|x| subst_env_entry(x)),
            keys_unique(target),
            i <= n,
            sp_wf(out),
            sp_entries(out) == target.take(i as int),
        decreases n - i,
    {
        let (name, sp) = sp_get_index(&shorpaths, i);
        let path = substitute_env_in(&sp.path);
        let new_sp = Shortpath { path, full_path: copy_opt(&sp.full_path) };
        proof {
            assert(target[i as int] == subst_env_entry(e[i as int]));
            assert(target.take(i + 1) =~= target.take(i as int).push((name@, new_sp@)));
            let ghost t1 = target.take(i + 1);
            assert(keys_unique(t1)) by {
                assert forall|a: int, b: int|
                    0 <= a < t1.len() && 0 <= b < t1.len() && a != b implies #[trigger] t1[a].0
                    != #[trigger] t1[b].0 by {
                    assert(t1[a] == target[a]);
                    assert(t1[b] == target[b]);
                }
            }
            lemma_insert_fresh(target.take(i as int), name@, new_sp@);
        }
        sp_insert(&mut out, name.clone(), new_sp);
        i = i + 1;
    }
    assert(target.take(n as int) =~= target);
    out
}

/// Every shortpath has its full path.
pub open spec fn all_full(e: Entries) -> bool {
    forall|i: int| 0 <= i < e.len() ==> (#[trigger] e[i]).1.full_path is Some
}

/// The order of two entries: that of their full paths.
pub open spec fn entry_order(a: (Seq<char>, ShortpathView), b: (Seq<char>, ShortpathView)) -> int {
    path_order(a.1.full_path.unwrap(), b.1.full_path.unwrap())
}

/// `new` holds the entries of `old`, sorted by full path, with entries whose
/// full paths are equal kept in their former relative order: `p` tells where
/// in `old` each entry of `new` was.
pub open spec fn stable_sorted_by(new: Entries, old: Entries, p: Seq<int>) -> bool {
    &&& new.len() == old.len()
    &&& p.len() == new.len()
    &&& forall|k: int| 0 <= k < p.len() ==> 0 <= #[trigger] p[k] < old.len()
    &&& forall|k: int, l: int| 0 <= k < p.len() && 0 <= l < p.len() && k != l ==> p[k] != p[l]
    &&& forall|k: int| 0 <= k < new.len() ==> #[trigger] new[k] == old[p[k]]
    &&& forall|k: int, l: int|
        0 <= k < l < new.len() ==> entry_order(#[trigger] new[k], #[trigger] new[l]) <= 0
    &&& forall|k: int, l: int|
        0 <= k < l < new.len() && entry_order(#[trigger] new[k], #[trigger] new[l]) == 0
            ==> p[k] < p[l]
}

impl Shortpath {
    /// Orders shortpaths by their full paths, component by component.
    pub fn cmp(&self, other: &Self) -> (r: Ordering)
        requires
            self.full_path is Some,
            other.full_path is Some,
        ensures
            ordering_value(r) == path_order(self@.full_path.unwrap(), other@.full_path.unwrap()),
    {
        match (&self.full_path, &other.full_path) {
            (Some(a), Some(b)) => compare_paths(a.as_str(), b.as_str()),
            _ => Ordering::Equal,
        }
    }

    /// The order of [`Shortpath::cmp`], always defined.
    pub fn partial_cmp(&self, other: &Self) -> (r: Option<Ordering>)
        requires
            self.full_path is Some,
            other.full_path is Some,
        ensures
            r matches Some(o) && ordering_value(o) == path_order(
                self@.full_path.unwrap(),
                other@.full_path.unwrap(),
            ),
    {
        Some(self.cmp(other))
    }
}

/// Sorts the entries by full path (`IndexMap::sort_by` with
/// [`Shortpath::cmp`], a total order by `crate::paths::lemma_path_order_total`).
/// The sort is stable, as the crate documents.
#[verifier::external_body]
pub(crate) fn sp_sort_by_full_path(m: &mut SP)
    requires
        sp_wf(*old(m)),
        all_full(sp_entries(*old(m))),
    ensures
        sp_wf(*final(m)),
        exists|p: Seq<int>| stable_sorted_by(sp_entries(*final(m)), sp_entries(*old(m)), p),
{
    m.sort_by(|_, v1, _, v2| v1.cmp(v2));
}

/// A sorted copy of the shortpaths, in order of their full paths.
pub fn sort_shortpaths(shortpaths: SP) -> (r: SP)
    requires
        sp_wf(shortpaths),
        all_full(sp_entries(shortpaths)),
    ensures
        sp_wf(r),
        exists|p: Seq<int>| stable_sorted_by(sp_entries(r), sp_entries(shortpaths), p),
{
    let mut m = shortpaths;
    sp_sort_by_full_path(&mut m);
    m
}

/// Saves `path` under `name`, its full path being the path itself.
pub fn add_shortpath(shortpaths: &mut SP, name: String, path: String)
    requires
        sp_wf(*old(shortpaths)),
    ensures
        sp_wf(*final(shortpaths)),
        sp_entries(*final(shortpaths)) == entries_insert(
            sp_entries(*old(shortpaths)),
            name@,
            ShortpathView { path: path@, full_path: Some(path@) },
        ),
{
    let shortpath = Shortpath::new(path.clone(), Some(path));
    sp_insert(shortpaths, name, shortpath);
}

/// What listing a shortpath by name shows: `name : path`, or that it could
/// not be found.
pub open spec fn show_line(e: Entries, name: Seq<char>) -> Seq<char> {
    match lookup(e, name) {
        Some(s) => name + " : "@ + s.path,
        None => "Could not find "@ + name,
    }
}

/// The lines that listing the shortpaths `names` shows, one per name, in
/// order.
pub fn show_lines(shortpaths: &SP, names: &[String]) -> (r: Vec<String>)
    requires
        sp_wf(*shortpaths),
    ensures
        r@.len() == names@.len(),
        forall|i: int| 0 <= i < names@.len() ==> (#[trigger] r@[i])@ == show_line(sp_entries(*shortpaths), names@[i]@),
{
    let mut out: Vec<String> = Vec::new();
    let mut i: usize = 0;
    while i < names.len()
        invariant
            sp_wf(*shortpaths),
            i <= names@.len(),
            out@.len() == i,
            forall|j: int| 0 <= j < i ==> (#[trigger] out@[j])@ == show_line(sp_entries(*shortpaths), names@[j]@),
        decreases names@.len() - i,
    {
        let name = &names[i];
        let line = match sp_get(shortpaths, name.as_str()) {
            Some(sp) => {
                let mut l = copy_str(name.as_str());
                l.append(" : ");
                l.append(sp.path.as_str());
                l
            },
            None => {
                let mut l = copy_str("Could not find ");
                l.append(name.as_str());
                l
            },
        };
        out.push(line);
        i = i + 1;
    }
    out
}

/// The text `yes`.
pub open spec fn yes_text() -> Seq<char> {
    seq!['y', 'e', 's']
}

/// Removing the shortpaths `names[i..]`, one after another: each is removed
/// when `yes` is set or its answer is `yes` (trailing whitespace, such as the newline of the line read, aside), and what the removal
/// handed back is collected; other names are passed over.
pub open spec fn remove_run(
    e: Entries,
    names: Seq<Seq<char>>,
    yes: bool,
    answers: Seq<Seq<char>>,
    i: int,
) -> (Entries, Seq<Option<ShortpathView>>)
    decreases names.len() - i,
{
    if i < 0 || i >= names.len() {
        (e, Seq::empty())
    } else {
        let take = yes || trim_end_of(answers[i]) == yes_text();
        let e1 = if take {
            entries_shift_remove(e, names[i])
        } else {
            e
        };
        let rest = remove_run(e1, names, yes, answers, i + 1);
        (rest.0, if take {
            seq![lookup(e, names[i])] + rest.1
        } else {
            rest.1
        })
    }
}

/// Without `yes`, every name must be present when its turn comes, for the
/// question about it shows its path.
pub open spec fn remove_ok(e: Entries, names: Seq<Seq<char>>, yes: bool, answers: Seq<Seq<char>>, i: int) -> bool
    decreases names.len() - i,
{
    if i < 0 || i >= names.len() {
        true
    } else {
        let take = yes || trim_end_of(answers[i]) == yes_text();
        let e1 = if take {
            entries_shift_remove(e, names[i])
        } else {
            e
        };
        (yes || has_key(e, names[i])) && remove_ok(e1, names, yes, answers, i + 1)
    }
}

/// With `yes` set nothing is asked, so every removal run is possible.
pub proof fn lemma_remove_ok_yes(e: Entries, names: Seq<Seq<char>>, answers: Seq<Seq<char>>, i: int)
    ensures
        remove_ok(e, names, true, answers, i),
    decreases names.len() - i,
{
    if 0 <= i < names.len() {
        lemma_remove_ok_yes(entries_shift_remove(e, names[i]), names, answers, i + 1);
    }
}


pub open spec fn strings_view(v: Seq<String>) -> Seq<Seq<char>> {
    v.map_values(|s: String| s@)
}

pub open spec fn opt_sps_view(v: Seq<Option<Shortpath>>) -> Seq<Option<ShortpathView>> {
    v.map_values(
        |o: Option<Shortpath>|
            match o {
                Some(s) => Some(s@),
                None => None,
            },
    )
}

/// The question asked before removing `name` without `yes`.
pub fn remove_prompt_message(shortpaths: &SP, name: &str) -> (r: String)
    requires
        sp_wf(*shortpaths),
        has_key(sp_entries(*shortpaths), name@),
    ensures
        r@ == seq!['R', 'e', 'm', 'o', 'v', 'e', ' '] + name@ + seq![' ', ':', ' '] + lookup(
            sp_entries(*shortpaths),
            name@,
        ).unwrap().path + seq!['?', ' ', '[', 'y', 'e', 's', '/', 'n', 'o', ']', ':', ' '],
{
    let sp = match sp_get(shortpaths, name) {
        Some(v) => v,
        None => {
            assert(false);
            return String::new();
        },
    };
    let mut v: Vec<char> = Vec::new();
    v.push('R');
    v.push('e');
    v.push('m');
    v.push('o');
    v.push('v');
    v.push('e');
    v.push(' ');
    crate::strings::push_all(&mut v, &to_str_slice(name));
    v.push(' ');
    v.push(':');
    v.push(' ');
    crate::strings::push_all(&mut v, &to_str_slice(sp.path.as_str()));
    v.push('?');
    v.push(' ');
    v.push('[');
    v.push('y');
    v.push('e');
    v.push('s');
    v.push('/');
    v.push('n');
    v.push('o');
    v.push(']');
    v.push(':');
    v.push(' ');
    let ghost want = seq!['R', 'e', 'm', 'o', 'v', 'e', ' '] + name@ + seq![' ', ':', ' ']
        + sp@.path + seq!['?', ' ', '[', 'y', 'e', 's', '/', 'n', 'o', ']', ':', ' '];
    assert(v@ =~= want);
    chars_to_string(&v)
}

fn is_yes(input: &str) -> (r: bool)
    ensures
        r == (trim_end_of(input@) == yes_text()),
{
    let t = crate::helpers::trim_end(input);
    let mut y: Vec<char> = Vec::new();
    y.push('y');
    y.push('e');
    y.push('s');
    assert(y@ =~= yes_text());
    let ys = chars_to_string(&y);
    str_eq(t.as_str(), ys.as_str())
}

/// Removes `name` when the answer given for it is `yes` once trailing whitespace is removed, and hands
/// back what the removal returned; otherwise leaves the map alone.
pub fn remove_confirmed(shortpaths: &mut SP, name: &str, input: &str) -> (r: Option<Option<Shortpath>>)
    requires
        sp_wf(*old(shortpaths)),
    ensures
        sp_wf(*final(shortpaths)),
        trim_end_of(input@) == yes_text() ==> r is Some && sp_entries(*final(shortpaths)) == entries_shift_remove(
            sp_entries(*old(shortpaths)),
            name@,
        ) && opt_sps_view(seq![r.unwrap()]) == seq![lookup(sp_entries(*old(shortpaths)), name@)],
        trim_end_of(input@) != yes_text() ==> r is None && sp_entries(*final(shortpaths)) == sp_entries(
            *old(shortpaths),
        ),
{
    if is_yes(input) {
        let sp = sp_remove(shortpaths, name);
        let ghost rv = opt_sps_view(seq![sp]);
        assert(rv[0] == lookup(sp_entries(*old(shortpaths)), name@));
        assert(rv =~= seq![lookup(sp_entries(*old(shortpaths)), name@)]);
        Some(sp)
    } else {
        None
    }
}

/// Removes the shortpaths `names` in turn: all of them with `yes`, otherwise
/// those whose answer (the line given to the question of
/// [`remove_prompt_message`]) is `yes` once trailing whitespace is removed.  Returns what each removal
/// handed back.
pub fn remove_shortpath(shortpaths: &mut SP, names: &[String], yes: bool, answers: &[String]) -> (r:
    Vec<Option<Shortpath>>)
    requires
        sp_wf(*old(shortpaths)),
        yes || answers@.len() == names@.len(),
        yes || remove_ok(sp_entries(*old(shortpaths)), strings_view(names@), yes, strings_view(answers@), 0),
    ensures
        sp_wf(*final(shortpaths)),
        (sp_entries(*final(shortpaths)), opt_sps_view(r@)) == remove_run(
            sp_entries(*old(shortpaths)),
            strings_view(names@),
            yes,
            strings_view(answers@),
            0,
        ),
{
    let ghost nv = strings_view(names@);
    let ghost av = strings_view(answers@);
    let ghost total = remove_run(sp_entries(*shortpaths), nv, yes, av, 0);
    proof {
        if yes {
            lemma_remove_ok_yes(sp_entries(*shortpaths), nv, av, 0);
        }
    }
    let mut removed: Vec<Option<Shortpath>> = Vec::new();
    let mut i: usize = 0;
    while i < names.len()
        invariant
            nv == strings_view(names@),
            av == strings_view(answers@),
            yes || av.len() == nv.len(),
            i <= nv.len(),
            sp_wf(*shortpaths),
            remove_ok(sp_entries(*shortpaths), nv, yes, av, i as int),
            ({
                let rest = remove_run(sp_entries(*shortpaths), nv, yes, av, i as int);
                total == (rest.0, opt_sps_view(removed@) + rest.1)
            }),
        decreases nv.len() - i,
    {
        let name = &names[i];
        assert(nv[i as int] == name@);
        let ghost before = sp_entries(*shortpaths);
        let ghost prev = opt_sps_view(removed@);
        if yes {
            let sp = sp_remove(shortpaths, name.as_str());
            removed.push(sp);
            assert(opt_sps_view(removed@) =~= prev + seq![lookup(before, name@)]);
        } else {
            assert(av[i as int] == answers@[i as int]@);
            match remove_confirmed(shortpaths, name.as_str(), answers[i].as_str()) {
                Some(sp) => {
                    removed.push(sp);
                    assert(opt_sps_view(removed@) =~= prev + opt_sps_view(seq![sp]));
                },
                None => {},
            }
        }
        i = i + 1;
    }
    assert(opt_sps_view(removed@) + Seq::<Option<ShortpathView>>::empty() =~= opt_sps_view(removed@));
    removed
}

/// Renames the shortpath `current_name` to `new_name`, in its place (see
/// [`entries_rename`]).
pub fn update_shortpath_name(current_name: &str, new_name: String, shortpaths: &mut SP)
    requires
        sp_wf(*old(shortpaths)),
        has_key(sp_entries(*old(shortpaths)), current_name@),
    ensures
        sp_wf(*final(shortpaths)),
        sp_entries(*final(shortpaths)) == entries_rename(
            sp_entries(*old(shortpaths)),
            current_name@,
            new_name@,
        ),
{
    let ghost e = sp_entries(*shortpaths);
    let i = match sp_get_index_of(shortpaths, current_name) {
        Some(i) => i,
        None => {
            assert(false);
            return;
        },
    };
    proof {
        lemma_key_index_unique(e, current_name@, i as int);
    }
    let ghost v = e[i as int].1;
    let copy = copy_str(new_name.as_str());
    if sp_replace_key(shortpaths, i, copy) {
        assert(new_name@ == current_name@ || !has_key(e, new_name@)) by {
            if has_key(e, new_name@) && new_name@ != current_name@ {
                assert(e[i as int].0 == current_name@);
            }
        }
        return;
    }
    let path = match sp_remove(shortpaths, current_name) {
        Some(p) => p,
        None => {
            assert(false);
            return;
        },
    };
    assert(path@ == v);
    sp_insert(shortpaths, new_name, path);
}

/// Gives the shortpath `current_name` a new path and full path.
pub fn update_shortpath_path(
    current_name: &str,
    new_path: String,
    full_path: Option<String>,
    shortpaths: &mut SP,
)
    requires
        sp_wf(*old(shortpaths)),
    ensures
        sp_wf(*final(shortpaths)),
        sp_entries(*final(shortpaths)) == entries_insert(
            sp_entries(*old(shortpaths)),
            current_name@,
            ShortpathView { path: new_path@, full_path: opt_view(full_path) },
        ),
{
    let shortpath = Shortpath::new(new_path, full_path);
    sp_insert(shortpaths, copy_str(current_name), shortpath);
}

/// Update a single shortpath's alias name or path: when `current_name`
/// exists, a new name renames it, provided no shortpath has that name yet;
/// without a new name, a new path replaces its path and full path.  Returns
/// whether anything changed.
pub fn update_shortpath(
    shortpaths: &mut SP,
    current_name: &str,
    name: Option<String>,
    path: Option<String>,
) -> (r: bool)
    requires
        sp_wf(*old(shortpaths)),
    ensures
        sp_wf(*final(shortpaths)),
        r == (has_key(sp_entries(*old(shortpaths)), current_name@) && match name {
            Some(n) => !has_key(sp_entries(*old(shortpaths)), n@),
            None => path is Some,
        }),
        !r ==> sp_entries(*final(shortpaths)) == sp_entries(*old(shortpaths)),
        r && name is Some ==> sp_entries(*final(shortpaths)) == entries_rename(
            sp_entries(*old(shortpaths)),
            current_name@,
            name.unwrap()@,
        ),
        r && name is None ==> sp_entries(*final(shortpaths)) == entries_insert(
            sp_entries(*old(shortpaths)),
            current_name@,
            ShortpathView { path: path.unwrap()@, full_path: Some(path.unwrap()@) },
        ),
{
    let entry_exists = sp_contains_key(shortpaths, current_name);
    match (entry_exists, name, path) {
        (true, Some(new_name), _) => {
            if sp_contains_key(shortpaths, new_name.as_str()) {
                false
            } else {
                update_shortpath_name(current_name, new_name, shortpaths);
                true
            }
        },
        (true, None, Some(new_path)) => {
            update_shortpath_path(current_name, new_path.clone(), Some(new_path), shortpaths);
            true
        },
        _ => false,
    }
}

/// The entries whose full path is missing or does not exist (`exists[i]`
/// tells whether the full path of entry `i` is on disk).
pub open spec fn unreachable_entries(e: Entries, exists: Seq<bool>) -> Entries
    decreases e.len(),
{
    if e.len() == 0 {
        Seq::empty()
    } else {
        let last = e.len() - 1;
        let before = unreachable_entries(e.drop_last(), exists.take(last));
        if e[last].1.full_path is None || !exists[last] {
            before.push(e[last])
        } else {
            before
        }
    }
}

proof fn lemma_unreachable_keys(e: Entries, exists: Seq<bool>, a: int)
    requires
        0 <= a < unreachable_entries(e, exists).len(),
    ensures
        exists|j: int| 0 <= j < e.len() && e[j] == unreachable_entries(e, exists)[a],
    decreases e.len(),
{
    let last = e.len() - 1;
    let before = unreachable_entries(e.drop_last(), exists.take(last));
    if a < before.len() {
        lemma_unreachable_keys(e.drop_last(), exists.take(last), a);
        let j = choose|j: int| 0 <= j < e.drop_last().len() && e.drop_last()[j] == before[a];
        assert(e[j] == e.drop_last()[j]);
    } else {
        assert(e[last] == unreachable_entries(e, exists)[a]);
    }
}

/// The shortpaths whose full path is missing or, as `exists` tells for each
/// entry in order, is not on disk.
pub fn find_unreachable(shortpaths: &SP, exists: &[bool]) -> (r: SP)
    requires
        sp_wf(*shortpaths),
        exists@.len() == sp_entries(*shortpaths).len(),
    ensures
        sp_wf(r),
        sp_entries(r) == unreachable_entries(sp_entries(*shortpaths), exists@),
{
    let ghost e = sp_entries(*shortpaths);
    let n = sp_len(shortpaths);
    let mut out = sp_new();
    let mut i: usize = 0;
    while i < n
        invariant
            n == e.len(),
            e == sp_entries(*shortpaths),
            keys_unique(e),
            exists@.len() == n,
            i <= n,
            sp_wf(out),
            sp_entries(out) == unreachable_entries(e.take(i as int), exists@.take(i as int)),
        decreases n - i,
    {
        let (name, sp) = sp_get_index(shortpaths, i);
        let ghost prev = sp_entries(out);
        proof {
            assert(e.take(i + 1).drop_last() =~= e.take(i as int));
            assert(exists@.take(i + 1).take(i as int) =~= exists@.take(i as int));
            assert(e.take(i + 1)[i as int] == e[i as int]);
            assert(exists@.take(i + 1)[i as int] == exists@[i as int]);
        }
        if sp.full_path.is_none() || !exists[i] {
            proof {
                assert(!has_key(prev, name@)) by {
                    if has_key(prev, name@) {
                        let a = choose|a: int| 0 <= a < prev.len() && prev[a].0 == name@;
                        lemma_unreachable_keys(e.take(i as int), exists@.take(i as int), a);
                        let j = choose|j: int|
                            0 <= j < e.take(i as int).len() && e.take(i as int)[j] == prev[a];
                        assert(e[j] == e.take(i as int)[j]);
                    }
                }
            }
            sp_insert(&mut out, name.clone(), sp.clone());
        }
        i = i + 1;
    }
    assert(e.take(n as int) =~= e);
    assert(exists@.take(n as int) =~= exists@);
    out
}

/// Search results for one shortpath, as values.
pub type ScopeView = Seq<(Seq<char>, Seq<Seq<char>>)>;

pub open spec fn named_results_view(r: Seq<(String, crate::helpers::ScopeResults)>) -> Seq<
    (Seq<char>, ScopeView),
> {
    r.map_values(|x: (String, crate::helpers::ScopeResults)| (x.0@, crate::helpers::scope_view(x.1@)))
}

/// The updates (name, previous full path, new path) that automatic
/// resolution proposes for one shortpath: one for each search result made for
/// that name in which a file was found.
pub open spec fn updates_for(name: Seq<char>, previous: Seq<char>, res: Seq<(Seq<char>, ScopeView)>) -> Seq<
    (Seq<char>, Seq<char>, Seq<char>),
>
    decreases res.len(),
{
    if res.len() == 0 {
        Seq::empty()
    } else {
        (if res[0].0 != name {
            Seq::empty()
        } else {
            match crate::helpers::first_found(res[0].1) {
                Some(p) => seq![(name, previous, p)],
                None => Seq::empty(),
            }
        }) + updates_for(name, previous, res.drop_first())
    }
}

/// The updates that automatic resolution proposes for the unreachable
/// shortpaths `u`, in order.
pub open spec fn auto_updates(u: Entries, res: Seq<(Seq<char>, ScopeView)>) -> Seq<
    (Seq<char>, Seq<char>, Seq<char>),
>
    decreases u.len(),
{
    if u.len() == 0 {
        Seq::empty()
    } else {
        updates_for(u[0].0, u[0].1.full_path.unwrap(), res) + auto_updates(u.drop_first(), res)
    }
}

pub open spec fn triples_view(v: Seq<(String, String, String)>) -> Seq<(Seq<char>, Seq<char>, Seq<char>)> {
    v.map_values(|t: (String, String, String)| (t.0@, t.1@, t.2@))
}

/// The proposals of automatic resolution: for every unreachable shortpath
/// and every search result, the first file found there.
pub fn auto_resolve_updates(
    unreachable: &SP,
    results: &Vec<(String, crate::helpers::ScopeResults)>,
) -> (r: Vec<(String, String, String)>)
    requires
        all_full(sp_entries(*unreachable)),
    ensures
        triples_view(r@) == auto_updates(sp_entries(*unreachable), named_results_view(results@)),
{
    let ghost u = sp_entries(*unreachable);
    let ghost rv = named_results_view(results@);
    let n = sp_len(unreachable);
    let mut out: Vec<(String, String, String)> = Vec::new();
    let mut i: usize = 0;
    assert(u.skip(0) =~= u);
    while i < n
        invariant
            n == u.len(),
            u == sp_entries(*unreachable),
            all_full(u),
            rv == named_results_view(results@),
            i <= n,
            triples_view(out@) + auto_updates(u.skip(i as int), rv) == auto_updates(u, rv),
        decreases n - i,
    {
        let (name, sp) = sp_get_index(unreachable, i);
        assert(u.skip(i as int)[0] == u[i as int]);
        assert(u.skip(i as int).drop_first() =~= u.skip(i + 1));
        assert(u[i as int].1.full_path is Some);
        let previous = match &sp.full_path {
            Some(f) => f.clone(),
            None => String::new(),
        };
        let ghost base = triples_view(out@);
        let mut j: usize = 0;
        assert(rv.skip(0) =~= rv);
        while j < results.len()
            invariant
                rv == named_results_view(results@),
                j <= rv.len(),
                triples_view(out@) + updates_for(name@, previous@, rv.skip(j as int)) == base
                    + updates_for(name@, previous@, rv),
            decreases rv.len() - j,
        {
            assert(rv.skip(j as int)[0] == rv[j as int]);
            assert(rv.skip(j as int).drop_first() =~= rv.skip(j + 1));
            let ghost prev = triples_view(out@);
            if str_eq(results[j].0.as_str(), name.as_str()) {
                let nested = crate::helpers::clone_scope_results(&results[j].1);
                match crate::helpers::auto_resolve(name.clone(), nested) {
                    Some((_, updated)) => {
                        out.push((name.clone(), previous.clone(), updated));
                        assert(triples_view(out@) =~= prev + seq![(name@, previous@, updated@)]);
                    },
                    None => {},
                }
            }
            j = j + 1;
        }
        assert(rv.skip(j as int) =~= Seq::<(Seq<char>, ScopeView)>::empty());
        i = i + 1;
    }
    assert(u.skip(i as int) =~= Seq::<(Seq<char>, ShortpathView)>::empty());
    assert(triples_view(out@) + Seq::<(Seq<char>, Seq<char>, Seq<char>)>::empty() =~= triples_view(out@));
    out
}

/// The map after giving `name`, when present, the path `path` as its path
/// and full path.
pub open spec fn path_update(e: Entries, name: Seq<char>, path: Seq<char>) -> Entries {
    if has_key(e, name) {
        entries_insert(e, name, ShortpathView { path, full_path: Some(path) })
    } else {
        e
    }
}

/// The map after the updates `ups[i..]`, applied in order.
pub open spec fn apply_updates(e: Entries, ups: Seq<(Seq<char>, Seq<char>, Seq<char>)>, i: int) -> Entries
    decreases ups.len() - i,
{
    if i < 0 || i >= ups.len() {
        e
    } else {
        apply_updates(path_update(e, ups[i].0, ups[i].2), ups, i + 1)
    }
}

/// Moves each named shortpath to its new path, in order.
pub fn apply_resolve_updates(shortpaths: &mut SP, updates: &Vec<(String, String, String)>)
    requires
        sp_wf(*old(shortpaths)),
    ensures
        sp_wf(*final(shortpaths)),
        sp_entries(*final(shortpaths)) == apply_updates(
            sp_entries(*old(shortpaths)),
            triples_view(updates@),
            0,
        ),
{
    let ghost uv = triples_view(updates@);
    let ghost total = apply_updates(sp_entries(*shortpaths), uv, 0);
    let mut i: usize = 0;
    while i < updates.len()
        invariant
            uv == triples_view(updates@),
            i <= uv.len(),
            sp_wf(*shortpaths),
            apply_updates(sp_entries(*shortpaths), uv, i as int) == total,
        decreases uv.len() - i,
    {
        let (name, _, updated) = &updates[i];
        assert(uv[i as int] == (name@, updates@[i as int].1@, updated@));
        update_shortpath(shortpaths, name.as_str(), None, Some(updated.clone()));
        i = i + 1;
    }
}

/// Fix unreachable or broken paths automatically: every unreachable
/// shortpath is moved to the first file found in the search made for its own
/// name.  Returns the updates (name, previous full path, new path); with
/// `dry_run` they are only returned, and the shortpaths stay as they were.
pub fn resolve(
    shortpaths: &mut SP,
    unreachable: &SP,
    results: &Vec<(String, crate::helpers::ScopeResults)>,
    dry_run: bool,
) -> (r: Vec<(String, String, String)>)
    requires
        sp_wf(*old(shortpaths)),
        all_full(sp_entries(*unreachable)),
    ensures
        sp_wf(*final(shortpaths)),
        triples_view(r@) == auto_updates(sp_entries(*unreachable), named_results_view(results@)),
        dry_run ==> sp_entries(*final(shortpaths)) == sp_entries(*old(shortpaths)),
        !dry_run ==> sp_entries(*final(shortpaths)) == apply_updates(
            sp_entries(*old(shortpaths)),
            triples_view(r@),
            0,
        ),
{
    let updates = auto_resolve_updates(unreachable, results);
    finish_resolve(shortpaths, updates, dry_run)
}

/// The files found in search results, directory after directory.
pub open spec fn flat_files(sv: ScopeView) -> Seq<Seq<char>>
    decreases sv.len(),
{
    if sv.len() == 0 {
        Seq::empty()
    } else {
        flat_files(sv.drop_last()) + sv.last().1
    }
}

/// The candidates for the shortpath `name`: the files found in the searches
/// made for that name, in order.
pub open spec fn named_candidates(name: Seq<char>, rv: Seq<(Seq<char>, ScopeView)>) -> Seq<Seq<char>>
    decreases rv.len(),
{
    if rv.len() == 0 {
        Seq::empty()
    } else {
        named_candidates(name, rv.drop_last()) + (if rv.last().0 == name {
            flat_files(rv.last().1)
        } else {
            Seq::empty()
        })
    }
}

/// Resolving the unreachable shortpaths `u[k..]` by hand, with `av[k]` the
/// choices named by the answers given for shortpath `k`: the shortpath and
/// candidate the next question is about, if one is owed, and the updates
/// (name, previous full path, new path) that the answers settle, in order.
pub open spec fn manual_updates(
    u: Entries,
    rv: Seq<(Seq<char>, ScopeView)>,
    av: Seq<Seq<crate::helpers::ResolveChoices>>,
    k: int,
) -> (Option<(int, int)>, Seq<(Seq<char>, Seq<char>, Seq<char>)>)
    decreases u.len() - k,
{
    if k < 0 || k >= u.len() {
        (None, Seq::empty())
    } else {
        let c = named_candidates(u[k].0, rv);
        match crate::helpers::manual_run(None, av[k], c.len() as int, 0, 0) {
            crate::helpers::ManualOutcome::NeedAnswer(i) => (Some((k, i)), Seq::empty()),
            crate::helpers::ManualOutcome::Taken(i) => {
                let rest = manual_updates(u, rv, av, k + 1);
                (rest.0, seq![(u[k].0, u[k].1.full_path.unwrap(), c[i])] + rest.1)
            },
            crate::helpers::ManualOutcome::NoneTaken => manual_updates(u, rv, av, k + 1),
        }
    }
}

/// The candidates for the shortpath `name` in the search results.
fn candidates_for(name: &String, results: &Vec<(String, crate::helpers::ScopeResults)>) -> (r: Vec<String>)
    ensures
        crate::helpers::strs_view(r@) == named_candidates(name@, named_results_view(results@)),
{
    let ghost rv = named_results_view(results@);
    let mut out: Vec<String> = Vec::new();
    let mut j: usize = 0;
    while j < results.len()
        invariant
            rv == named_results_view(results@),
            j <= rv.len(),
            crate::helpers::strs_view(out@) == named_candidates(name@, rv.take(j as int)),
        decreases rv.len() - j,
    {
        assert(rv.take(j + 1).drop_last() =~= rv.take(j as int));
        assert(rv.take(j + 1).last() == rv[j as int]);
        if str_eq(results[j].0.as_str(), name.as_str()) {
            let scope = &results[j].1;
            let ghost sv = crate::helpers::scope_view(scope@);
            assert(sv == rv[j as int].1);
            let ghost base = crate::helpers::strs_view(out@);
            let mut d: usize = 0;
            while d < scope.len()
                invariant
                    sv == crate::helpers::scope_view(scope@),
                    d <= sv.len(),
                    crate::helpers::strs_view(out@) == base + flat_files(sv.take(d as int)),
                decreases sv.len() - d,
            {
                assert(sv.take(d + 1).drop_last() =~= sv.take(d as int));
                assert(sv.take(d + 1).last() == sv[d as int]);
                let files = &scope[d].1;
                let ghost fv = crate::helpers::strs_view(files@);
                assert(fv == sv[d as int].1);
                let ghost base2 = crate::helpers::strs_view(out@);
                let mut f: usize = 0;
                while f < files.len()
                    invariant
                        fv == crate::helpers::strs_view(files@),
                        f <= fv.len(),
                        crate::helpers::strs_view(out@) == base2 + fv.take(f as int),
                    decreases fv.len() - f,
                {
                    let ghost prev = out@;
                    let item = files[f].clone();
                    out.push(item);
                    assert(out@ =~= prev.push(item));
                    assert(crate::helpers::strs_view(out@) =~= crate::helpers::strs_view(prev).push(item@));
                    assert(fv[f as int] == files@[f as int]@);
                    assert(fv.take(f + 1) =~= fv.take(f as int).push(fv[f as int]));
                    assert(crate::helpers::strs_view(out@) =~= base2 + fv.take(f + 1));
                    f = f + 1;
                }
                assert(fv.take(fv.len() as int) =~= fv);
                assert(crate::helpers::strs_view(out@) =~= base + flat_files(sv.take(d + 1)));
                d = d + 1;
            }
            assert(sv.take(sv.len() as int) =~= sv);
        } else {
            assert(crate::helpers::strs_view(out@) =~= named_candidates(name@, rv.take(j + 1)));
        }
        j = j + 1;
    }
    assert(rv.take(rv.len() as int) =~= rv);
    out
}

/// What resolving by hand asks next, or the updates it settles.
pub enum ManualNext {
    /// The question owed about shortpath `k` (its position among the
    /// unreachable ones).
    Ask(usize, String),
    /// The updates (name, previous full path, new path), in order.
    Done(Vec<(String, String, String)>),
}

/// Resolving the unreachable shortpaths by hand, with `answers[k]` the
/// choices named by the answers given so far for shortpath `k`: the next
/// question, or, once every shortpath is settled, the updates (see
/// [`manual_updates`]).  A shortpath's candidates are the files found in
/// the searches made for its name.
pub fn manual_resolve_updates(
    unreachable: &SP,
    results: &Vec<(String, crate::helpers::ScopeResults)>,
    answers: &Vec<Vec<crate::helpers::ResolveChoices>>,
) -> (r: ManualNext)
    requires
        all_full(sp_entries(*unreachable)),
        answers@.len() == sp_entries(*unreachable).len(),
    ensures
        ({
            let u = sp_entries(*unreachable);
            let rv = named_results_view(results@);
            let av = answers@.map_values(|a: Vec<crate::helpers::ResolveChoices>| a@);
            match manual_updates(u, rv, av, 0).0 {
                Some((k, i)) => r matches ManualNext::Ask(k2, q) && k2 == k && q@
                    == crate::helpers::manual_question(
                    u[k].0,
                    u[k].1.full_path.unwrap(),
                    named_candidates(u[k].0, rv)[i],
                ),
                None => r matches ManualNext::Done(v) && triples_view(v@) == manual_updates(u, rv, av, 0).1,
            }
        }),
{
    let ghost u = sp_entries(*unreachable);
    let ghost rv = named_results_view(results@);
    let ghost av = answers@.map_values(|a: Vec<crate::helpers::ResolveChoices>| a@);
    let ghost total = manual_updates(u, rv, av, 0);
    let n = sp_len(unreachable);
    let mut out: Vec<(String, String, String)> = Vec::new();
    let mut k: usize = 0;
    while k < n
        invariant
            n == u.len(),
            u == sp_entries(*unreachable),
            all_full(u),
            rv == named_results_view(results@),
            av == answers@.map_values(|a: Vec<crate::helpers::ResolveChoices>| a@),
            answers@.len() == n,
            total == manual_updates(u, rv, av, 0),
            k <= n,
            ({
                let rest = manual_updates(u, rv, av, k as int);
                total == (rest.0, triples_view(out@) + rest.1)
            }),
        decreases n - k,
    {
        let (name, sp) = sp_get_index(unreachable, k);
        assert(u[k as int].1.full_path is Some);
        let previous = match &sp.full_path {
            Some(f) => f.clone(),
            None => String::new(),
        };
        let cands = candidates_for(name, results);
        assert(av[k as int] == answers@[k as int]@);
        let ghost prev = triples_view(out@);
        match crate::helpers::manual_run_answers(cands.len(), &answers[k]) {
            crate::helpers::RunOutcome::NeedAnswer(i) => {
                let q = crate::helpers::manual_resolve_message(name.as_str(), previous.as_str(), cands[i].as_str());
                return ManualNext::Ask(k, q);
            },
            crate::helpers::RunOutcome::Taken(i) => {
                out.push((name.clone(), previous.clone(), cands[i].clone()));
                assert(triples_view(out@) =~= prev + seq![(name@, previous@, cands@[i as int]@)]);
            },
            crate::helpers::RunOutcome::NoneTaken => {},
        }
        k = k + 1;
    }
    assert(triples_view(out@) + Seq::<(Seq<char>, Seq<char>, Seq<char>)>::empty() =~= triples_view(out@));
    ManualNext::Done(out)
}

/// Makes the updates of a resolution, in order, unless `dry_run`, in which
/// case the shortpaths stay as they were.  Returns the updates.
pub fn finish_resolve(shortpaths: &mut SP, updates: Vec<(String, String, String)>, dry_run: bool) -> (r: Vec<
    (String, String, String),
>)
    requires
        sp_wf(*old(shortpaths)),
    ensures
        sp_wf(*final(shortpaths)),
        triples_view(r@) == triples_view(updates@),
        dry_run ==> sp_entries(*final(shortpaths)) == sp_entries(*old(shortpaths)),
        !dry_run ==> sp_entries(*final(shortpaths)) == apply_updates(
            sp_entries(*old(shortpaths)),
            triples_view(updates@),
            0,
        ),
{
    if !dry_run {
        apply_resolve_updates(shortpaths, &updates);
    }
    updates
}

/// `s` holds no `$`.
pub open spec fn dollar_free(s: Seq<char>) -> bool {
    forall|j: int| 0 <= j < s.len() ==> s[j] != '$'
}

/// A pattern that starts with `$` does not occur in a `$`-free text.
proof fn lemma_replace_dollar_free(t: Seq<char>, pat: Seq<char>, v: Seq<char>)
    requires
        pat.len() > 0,
        pat[0] == '$',
        dollar_free(t),
    ensures
        replace_all(t, pat, v) == t,
{
    assert(!contains_seq(t, pat)) by {
        if contains_seq(t, pat) {
            let i = choose|i: int| occurs_at(t, pat, i);
            assert(t.subrange(i, i + pat.len())[0] == t[i]);
        }
    }
    lemma_replace_absent(t, pat, v);
}

/// Replacing a `/`-free pattern that starts with `$` leaves alone a `$`-free
/// tail that starts with `/`.
proof fn lemma_replace_before_tail(x: Seq<char>, t: Seq<char>, pat: Seq<char>, v: Seq<char>)
    requires
        pat.len() > 0,
        pat[0] == '$',
        crate::paths::sep_free(pat),
        t.len() > 0,
        t[0] == '/',
        dollar_free(t),
    ensures
        replace_all(x + t, pat, v) == replace_all(x, pat, v) + t,
    decreases x.len(),
{
    let s = x + t;
    let n = pat.len() as int;
    if x.len() == 0 {
        assert(s =~= t);
        lemma_replace_dollar_free(t, pat, v);
        assert(replace_all(x, pat, v) == x);
        assert(x + t =~= t);
    } else if s.len() < n {
        assert(replace_all(x, pat, v) == x);
    } else if s.take(n) == pat {
        if n > x.len() {
            assert(s.take(n)[x.len() as int] == t[0]);
            assert(false);
        }
        assert(x.take(n) =~= s.take(n));
        assert(s.skip(n) =~= x.skip(n) + t);
        lemma_replace_before_tail(x.skip(n), t, pat, v);
        assert(replace_all(x, pat, v) == v + replace_all(x.skip(n), pat, v));
        assert(replace_all(s, pat, v) =~= replace_all(x, pat, v) + t);
    } else {
        assert(s.drop_first() =~= x.drop_first() + t);
        lemma_replace_before_tail(x.drop_first(), t, pat, v);
        assert(s[0] == x[0]);
        if x.len() >= n {
            assert(x.take(n) =~= s.take(n));
            assert(replace_all(x, pat, v) == seq![x[0]] + replace_all(x.drop_first(), pat, v));
        } else {
            assert(replace_all(x, pat, v) == x);
            assert(replace_all(x.drop_first(), pat, v) == x.drop_first());
            assert(x =~= seq![x[0]] + x.drop_first());
        }
        assert(replace_all(s, pat, v) =~= replace_all(x, pat, v) + t);
    }
}

/// Expanding `x/r`, with a `$`-free `r`, expands `x` and keeps `/r` after it.
proof fn lemma_layers_join(x: Seq<char>, r: Seq<char>, e: Entries, f: nat)
    requires
        dollar_free(r),
    ensures
        expand_layers(x + seq!['/'] + r, e, f) == (match expand_layers(x, e, f) {
            Some(y) => Some(y + seq!['/'] + r),
            None => None,
        }),
    decreases f,
{
    let t = seq!['/'] + r;
    let s = x + seq!['/'] + r;
    assert(s =~= x + t);
    assert(dollar_free(t)) by {
        assert forall|j: int| 0 <= j < t.len() implies t[j] != '$' by {
            if j > 0 {
                assert(t[j] == r[j - 1]);
            }
        }
    }
    if x.len() == 0 {
        assert(s =~= t);
        assert(path_comps(s) == seq![Comp::Root] + body_comps(s.skip(1)));
        assert(first_comp_text(s) == Some(seq!['/']));
        assert(!first_is_alias(s));
        assert(path_comps(x).len() == 0);
    } else {
        lemma_path_comps_join(x, r);
        lemma_path_comps_nonempty(x);
        assert(path_comps(s)[0] == path_comps(x)[0]);
        assert(first_comp_text(s) == first_comp_text(x));
        if first_is_alias(x) {
            let text = comp_text(path_comps(x)[0]);
            lemma_path_comps_sep_free(x);
            assert(comp_sep_free(path_comps(x)[0]));
            assert(path_comps(x)[0] is Normal);
            let dep = first_dep_name(x);
            let pat = alias_ref(dep);
            assert(pat =~= text);
            match lookup(e, dep) {
                Some(v) => {
                    lemma_replace_before_tail(x, t, pat, v.path);
                    let nx = replace_all(x, pat, v.path);
                    assert(nx + t =~= nx + seq!['/'] + r);
                    if f > 0 {
                        lemma_layers_join(nx, r, e, (f - 1) as nat);
                    }
                },
                None => {},
            }
        }
    }
}

/// More layers allowed than needed change nothing.
proof fn lemma_layers_more_fuel(s: Seq<char>, e: Entries, f: nat, g: nat)
    requires
        f <= g,
        expand_layers(s, e, f) is Some,
    ensures
        expand_layers(s, e, g) == expand_layers(s, e, f),
    decreases f,
{
    if path_comps(s).len() != 0 && first_is_alias(s) {
        let next = expand_step(s, e).unwrap();
        lemma_layers_more_fuel(next, e, (f - 1) as nat, (g - 1) as nat);
    }
}

/// A path made of the alias of shortpath `k`, `/` and a `$`-free rest expands
/// to the full path of `k`'s own path, `/` and the rest: so a chain of
/// aliases expands link by link into the paths it names.
pub proof fn lemma_expand_nested(k: Seq<char>, rest: Seq<char>, e: Entries)
    requires
        crate::paths::sep_free(k),
        !is_env_comp(alias_ref(k)),
        dollar_free(rest),
        lookup(e, k) is Some,
        expandable(lookup(e, k).unwrap().path, e),
    ensures
        expandable(alias_ref(k) + seq!['/'] + rest, e),
        expanded_path(alias_ref(k) + seq!['/'] + rest, e) == expanded_path(lookup(e, k).unwrap().path, e)
            + seq!['/'] + rest,
{
    let x = alias_ref(k);
    let p = x + seq!['/'] + rest;
    let target = lookup(e, k).unwrap().path;
    // the alias is the first (and only) component of `x`
    assert(crate::paths::sep_free(x)) by {
        assert forall|j: int| 0 <= j < x.len() implies x[j] != '/' by {
            if j > 0 {
                assert(x[j] == k[j - 1]);
            }
        }
    }
    crate::paths::lemma_sep_free_comps(x);
    assert(first_comp_text(x) == Some(x));
    assert(first_is_alias(x));
    assert(first_dep_name(x) =~= k);
    assert(x.take(x.len() as int) =~= x);
    assert(replace_all(x, x, target) =~= target + replace_all(x.skip(x.len() as int), x, target));
    assert(replace_all(x.skip(x.len() as int), x, target) == x.skip(x.len() as int));
    assert(replace_all(x, x, target) =~= target);
    assert(expand_step(x, e) == Some(target));
    let f0 = choose|fuel: nat| expand_from(target, e, fuel) is Some;
    let y0 = expand_from(target, e, f0).unwrap();
    assert(expanded_path(target, e) == y0);
    lemma_path_comps_nonempty(x);
    assert(expand_layers(x, e, f0 + 1) == expand_layers(target, e, f0));
    lemma_layers_join(x, rest, e, f0 + 1);
    lemma_path_comps_join(x, rest);
    assert(expand_from(p, e, f0 + 1) == Some(y0 + seq!['/'] + rest));
    assert(expandable(p, e));
    let f1 = choose|fuel: nat| expand_from(p, e, fuel) is Some;
    let g: nat = if f1 > f0 + 1 { f1 } else { (f0 + 1) as nat };
    lemma_layers_more_fuel(p, e, f1, g);
    lemma_layers_more_fuel(p, e, (f0 + 1) as nat, g);
}

// ---------------------------------------------------------------------------
// Folding walks every parent

proof fn lemma_chain_lengths(chain: Seq<Seq<char>>, j: int)
    requires
        0 <= j < chain.len(),
        forall|i: int| 0 <= i < chain.len() - 1 ==> #[trigger] chain[i + 1].len() < chain[i].len(),
    ensures
        chain[j].len() + j <= chain[0].len(),
    decreases j,
{
    if j > 0 {
        lemma_chain_lengths(chain, j - 1);
        assert(chain[(j - 1) + 1].len() < chain[j - 1].len());
    }
}

/// Once the text is `w`, the farther parents change nothing.
proof fn lemma_fold_chain_settled(chain: Seq<Seq<char>>, j: int, w: Seq<char>, e: Entries, f: nat)
    requires
        0 <= j < chain.len(),
        forall|i: int| 0 <= i < chain.len() - 1 ==> path_parent_of(#[trigger] chain[i]) == Some(chain[i + 1]),
        path_parent_of(chain.last()) is None,
        forall|i: int|
            j < i < chain.len() ==> key_for_full_path(e, #[trigger] chain[i]) is None || !contains_seq(w, chain[i]),
    ensures
        fold_chain(chain[j], w, e, f) == w,
    decreases f,
{
    if f > 0 && j < chain.len() - 1 {
        let q = chain[j + 1];
        assert(path_parent_of(chain[j]) == Some(q));
        if key_for_full_path(e, q) is Some {
            assert(!contains_seq(w, q));
            if q.len() == 0 {
                assert(w.subrange(0, 0) =~= q);
                assert(occurs_at(w, q, 0));
            }
            lemma_replace_absent(w, q, alias_ref(key_for_full_path(e, q).unwrap()));
        }
        lemma_fold_chain_settled(chain, j + 1, w, e, (f - 1) as nat);
    }
}

/// Before the parent `chain[m]` is reached the text is unchanged; there it
/// becomes `w`.
proof fn lemma_fold_chain_reach(
    chain: Seq<Seq<char>>,
    j: int,
    m: int,
    k: Seq<char>,
    w: Seq<char>,
    e: Entries,
    f: nat,
)
    requires
        0 <= j < m < chain.len(),
        f >= m - j,
        forall|i: int| 0 <= i < chain.len() - 1 ==> path_parent_of(#[trigger] chain[i]) == Some(chain[i + 1]),
        path_parent_of(chain.last()) is None,
        forall|i: int| 0 < i < m ==> key_for_full_path(e, #[trigger] chain[i]) is None,
        key_for_full_path(e, chain[m]) == Some(k),
        replace_all(chain[0], chain[m], alias_ref(k)) == w,
        forall|i: int|
            m < i < chain.len() ==> key_for_full_path(e, #[trigger] chain[i]) is None || !contains_seq(w, chain[i]),
    ensures
        fold_chain(chain[j], chain[0], e, f) == w,
    decreases m - j,
{
    assert(path_parent_of(chain[j]) == Some(chain[j + 1]));
    if j + 1 < m {
        assert(key_for_full_path(e, chain[j + 1]) is None);
        lemma_fold_chain_reach(chain, j + 1, m, k, w, e, (f - 1) as nat);
    } else {
        lemma_fold_chain_settled(chain, m, w, e, (f - 1) as nat);
    }
}

/// Folding looks at every parent of a path, not only the nearest.  With
/// `chain` the path followed by its parents, nearest first (each shorter than
/// the one before, the last without a parent): when the parent `chain[m]`,
/// the path's text up to `/rest`, is the full path of shortpath `k`, no
/// nearer parent is the full path of a shortpath, that text occurs in the
/// path only at its start, and the full paths among the farther parents do
/// not occur in `$k/rest`, the path folds to `$k/rest`.
pub proof fn lemma_fold_reaches_ancestor(chain: Seq<Seq<char>>, m: int, k: Seq<char>, rest: Seq<char>, e: Entries)
    requires
        1 <= m < chain.len(),
        forall|i: int| 0 <= i < chain.len() - 1 ==> path_parent_of(#[trigger] chain[i]) == Some(chain[i + 1]),
        forall|i: int| 0 <= i < chain.len() - 1 ==> #[trigger] chain[i + 1].len() < chain[i].len(),
        path_parent_of(chain.last()) is None,
        chain[m].len() > 0,
        chain[0] == chain[m] + seq!['/'] + rest,
        forall|i: int| 0 < i ==> !occurs_at(chain[0], chain[m], i),
        forall|i: int| 0 < i < m ==> key_for_full_path(e, #[trigger] chain[i]) is None,
        key_for_full_path(e, chain[m]) == Some(k),
        forall|i: int|
            m < i < chain.len() ==> key_for_full_path(e, #[trigger] chain[i]) is None || !contains_seq(
                alias_ref(k) + seq!['/'] + rest,
                chain[i],
            ),
    ensures
        fold_chain(chain[0], chain[0], e, chain[0].len()) == alias_ref(k) + seq!['/'] + rest,
{
    let p = chain[0];
    let d = chain[m];
    let a = alias_ref(k);
    let w = a + seq!['/'] + rest;
    let n = d.len() as int;
    assert(p.take(n) =~= d);
    assert(p.skip(n) =~= seq!['/'] + rest);
    assert(!contains_seq(p.skip(n), d)) by {
        if contains_seq(p.skip(n), d) {
            let i = choose|i: int| occurs_at(p.skip(n), d, i);
            assert(p.skip(n).subrange(i, i + n) =~= p.subrange(i + n, i + n + n));
            assert(occurs_at(p, d, i + n));
        }
    }
    lemma_replace_absent(p.skip(n), d, a);
    assert(replace_all(p, d, a) == a + replace_all(p.skip(n), d, a));
    assert(replace_all(p, d, a) =~= w);
    lemma_fold_replaces_ancestor(chain, m, k, e);
}

/// Folding looks at every parent of a path.  With `chain` the path followed
/// by its parents, nearest first (each shorter than the one before, the last
/// without a parent): when the parent `chain[m]` is the full path of
/// shortpath `k` and no nearer parent is the full path of a shortpath, every
/// occurrence of `chain[m]` in the path is written `$k`, and nothing else
/// changes as long as the full paths among the farther parents do not occur
/// in that text.
pub proof fn lemma_fold_replaces_ancestor(chain: Seq<Seq<char>>, m: int, k: Seq<char>, e: Entries)
    requires
        1 <= m < chain.len(),
        forall|i: int| 0 <= i < chain.len() - 1 ==> path_parent_of(#[trigger] chain[i]) == Some(chain[i + 1]),
        forall|i: int| 0 <= i < chain.len() - 1 ==> #[trigger] chain[i + 1].len() < chain[i].len(),
        path_parent_of(chain.last()) is None,
        forall|i: int| 0 < i < m ==> key_for_full_path(e, #[trigger] chain[i]) is None,
        key_for_full_path(e, chain[m]) == Some(k),
        forall|i: int|
            m < i < chain.len() ==> key_for_full_path(e, #[trigger] chain[i]) is None || !contains_seq(
                replace_all(chain[0], chain[m], alias_ref(k)),
                chain[i],
            ),
    ensures
        fold_chain(chain[0], chain[0], e, chain[0].len()) == replace_all(chain[0], chain[m], alias_ref(k)),
{
    lemma_chain_lengths(chain, m);
    lemma_fold_chain_reach(chain, 0, m, k, replace_all(chain[0], chain[m], alias_ref(k)), e, chain[0].len());
}

// ---------------------------------------------------------------------------
// Writing variables as aliases removes every `${env:NAME}` component

/// A name written as an alias by export: not empty, without `$`, and not
/// starting with `{`.
pub open spec fn plain_env_name(n: Seq<char>) -> bool {
    n.len() > 0 && n[0] != '{' && dollar_free(n)
}

/// Replacing `p` by `w` creates no occurrence of a `$`-led `x` (one with no
/// other `$`) where none was, and leaves none of `p` itself when `x` is `p`,
/// as long as `w` holds no `$` but perhaps a first one not followed by
/// `x`'s second character.
proof fn lemma_replace_keeps_out(t: Seq<char>, p: Seq<char>, w: Seq<char>, x: Seq<char>)
    requires
        p.len() > 0,
        x.len() >= 2,
        x[0] == '$',
        dollar_free(x.drop_first()),
        w.len() >= 2,
        w[0] == '$',
        w[1] != x[1],
        dollar_free(w.drop_first()),
        !contains_seq(t, x) || x == p,
    ensures
        !contains_seq(replace_all(t, p, w), x),
    decreases t.len(),
{
    let r = replace_all(t, p, w);
    let n = p.len() as int;
    if t.len() < n {
        if contains_seq(r, x) {
            let i = choose|i: int| occurs_at(r, x, i);
            assert(x == p ==> false);
        }
    } else if t.take(n) == p {
        let t2 = t.skip(n);
        if !contains_seq(t, x) {
            lemma_no_occurrence_skip(t, x, n);
        }
        lemma_replace_keeps_out(t2, p, w, x);
        let r2 = replace_all(t2, p, w);
        assert(r == w + r2);
        if contains_seq(r, x) {
            let i = choose|i: int| occurs_at(r, x, i);
            assert(r.subrange(i, i + x.len())[0] == r[i]);
            if i < w.len() {
                if i > 0 {
                    assert(w.drop_first()[i - 1] == w[i]);
                }
                assert(r.subrange(i, i + x.len())[1] == r[1]);
            } else {
                assert(r2.subrange(i - w.len(), i - w.len() + x.len()) =~= r.subrange(i, i + x.len()));
                assert(occurs_at(r2, x, i - w.len()));
            }
        }
    } else {
        let t1 = t.drop_first();
        if !contains_seq(t, x) {
            lemma_no_occurrence_skip(t, x, 1);
            assert(t.skip(1) =~= t1);
        }
        lemma_replace_keeps_out(t1, p, w, x);
        let r1 = replace_all(t1, p, w);
        assert(r == seq![t[0]] + r1);
        if contains_seq(r, x) {
            let i = choose|i: int| occurs_at(r, x, i);
            if i > 0 {
                assert(r1.subrange(i - 1, i - 1 + x.len()) =~= r.subrange(i, i + x.len()));
                assert(occurs_at(r1, x, i - 1));
            } else {
                let y = x.drop_first();
                assert(r.subrange(0, x.len() as int)[0] == r[0]);
                assert(t[0] == '$');
                assert(r1.take(y.len() as int) =~= r.subrange(0, x.len() as int).drop_first());
                lemma_fold_prefix(t1, p, w, y);
                assert(t.subrange(0, x.len() as int) =~= seq![t[0]] + t1.take(y.len() as int));
                assert(t.subrange(0, x.len() as int) =~= x);
                assert(occurs_at(t, x, 0));
                assert(t.take(n) =~= t.subrange(0, x.len() as int));
            }
        }
    }
}

proof fn lemma_env_ref_shape(n: Seq<char>)
    requires
        dollar_free(n),
    ensures
        env_ref(n).len() >= 2,
        env_ref(n)[0] == '$',
        env_ref(n)[1] == '{',
        dollar_free(env_ref(n).drop_first()),
{
    let x = env_ref(n);
    assert forall|j: int| 0 <= j < x.drop_first().len() implies x.drop_first()[j] != '$' by {
        if 5 <= j < 5 + n.len() {
            assert(x.drop_first()[j] == n[j - 5]);
        }
    }
}

proof fn lemma_alias_ref_shape(n: Seq<char>)
    requires
        plain_env_name(n),
    ensures
        alias_ref(n).len() >= 2,
        alias_ref(n)[0] == '$',
        alias_ref(n)[1] != '{',
        dollar_free(alias_ref(n).drop_first()),
{
    assert(alias_ref(n).drop_first() =~= n);
}

/// The names of the `${env:NAME}` components among `cs` are plain.
pub open spec fn env_names_plain(cs: Seq<Comp>) -> bool {
    forall|i: int|
        0 <= i < cs.len() ==> (env_alias_name_of(comp_text(#[trigger] cs[i])) matches Some(n) ==> plain_env_name(n))
}

proof fn lemma_subst_comps_removes(out: Seq<char>, cs: Seq<Comp>, x: Seq<char>)
    requires
        env_names_plain(cs),
        x.len() >= 2,
        x[0] == '$',
        x[1] == '{',
        dollar_free(x.drop_first()),
    ensures
        !contains_seq(out, x) ==> !contains_seq(subst_env_comps(out, cs), x),
        forall|i: int|
            0 <= i < cs.len() ==> (env_alias_name_of(comp_text(#[trigger] cs[i])) matches Some(n) ==> (x == env_ref(n)
                ==> !contains_seq(subst_env_comps(out, cs), x))),
    decreases cs.len(),
{
    if cs.len() > 0 {
        let next = match env_alias_name_of(comp_text(cs[0])) {
            Some(n) => replace_all(out, env_ref(n), alias_ref(n)),
            None => out,
        };
        let rest = cs.drop_first();
        assert(env_names_plain(rest)) by {
            assert forall|i: int| 0 <= i < rest.len() implies (env_alias_name_of(comp_text(#[trigger] rest[i]))
                matches Some(n) ==> plain_env_name(n)) by {
                assert(rest[i] == cs[i + 1]);
            }
        }
        assert(plain_env_name(env_alias_name_of(comp_text(cs[0])).unwrap()) || env_alias_name_of(
            comp_text(cs[0]),
        ) is None);
        if let Some(n) = env_alias_name_of(comp_text(cs[0])) {
            lemma_alias_ref_shape(n);
            lemma_env_ref_shape(n);
            if !contains_seq(out, x) || x == env_ref(n) {
                lemma_replace_keeps_out(out, env_ref(n), alias_ref(n), x);
            }
        }
        lemma_subst_comps_removes(next, rest, x);
        assert forall|i: int|
            0 <= i < cs.len() implies (env_alias_name_of(comp_text(#[trigger] cs[i])) matches Some(n) ==> (x
                == env_ref(n) ==> !contains_seq(subst_env_comps(out, cs), x))) by {
            if i > 0 {
                assert(cs[i] == rest[i - 1]);
            }
        }
    }
}

/// Writing the variables of a path as aliases leaves none of them written
/// `${env:NAME}`: for every component `${env:NAME}` of the path, wherever
/// it stands, the result holds no `${env:NAME}` (the names being plain).
pub proof fn lemma_subst_env_removes_all(path: Seq<char>)
    requires
        env_names_plain(path_comps(path)),
    ensures
        forall|i: int|
            0 <= i < path_comps(path).len() ==> (env_alias_name_of(comp_text(#[trigger] path_comps(path)[i]))
                matches Some(n) ==> !contains_seq(subst_env_in_path(path), env_ref(n))),
{
    let cs = path_comps(path);
    assert forall|i: int| 0 <= i < cs.len() implies (env_alias_name_of(comp_text(#[trigger] cs[i])) matches Some(n)
        ==> !contains_seq(subst_env_in_path(path), env_ref(n))) by {
        if let Some(n) = env_alias_name_of(comp_text(cs[i])) {
            lemma_env_ref_shape(n);
            lemma_subst_comps_removes(path, cs, env_ref(n));
        }
    }
}

/// Some component among `cs` is written `${env:NAME}`.
pub open spec fn has_env_comp(cs: Seq<Comp>) -> bool {
    exists|i: int| 0 <= i < cs.len() && env_alias_name_of(comp_text(#[trigger] cs[i])) is Some
}

proof fn lemma_subst_comps_one_name(out: Seq<char>, cs: Seq<Comp>, n: Seq<char>)
    requires
        plain_env_name(n),
        forall|i: int|
            0 <= i < cs.len() ==> (env_alias_name_of(comp_text(#[trigger] cs[i])) is Some ==> env_alias_name_of(
                comp_text(cs[i]),
            ) == Some(n)),
    ensures
        subst_env_comps(out, cs) == (if has_env_comp(cs) {
            replace_all(out, env_ref(n), alias_ref(n))
        } else {
            out
        }),
    decreases cs.len(),
{
    if cs.len() > 0 {
        let rest = cs.drop_first();
        assert forall|i: int|
            0 <= i < rest.len() && env_alias_name_of(comp_text(#[trigger] rest[i])) is Some implies env_alias_name_of(
                comp_text(rest[i]),
            ) == Some(n) by {
            assert(rest[i] == cs[i + 1]);
        }
        if env_alias_name_of(comp_text(cs[0])) is Some {
            let next = replace_all(out, env_ref(n), alias_ref(n));
            lemma_subst_comps_one_name(next, rest, n);
            lemma_alias_ref_shape(n);
            lemma_env_ref_shape(n);
            lemma_replace_keeps_out(out, env_ref(n), alias_ref(n), env_ref(n));
            lemma_replace_absent(next, env_ref(n), alias_ref(n));
            assert(has_env_comp(cs));
        } else {
            lemma_subst_comps_one_name(out, rest, n);
            if has_env_comp(cs) {
                let i = choose|i: int| 0 <= i < cs.len() && env_alias_name_of(comp_text(#[trigger] cs[i])) is Some;
                assert(rest[i - 1] == cs[i]);
            }
            if has_env_comp(rest) {
                let i = choose|i: int| 0 <= i < rest.len() && env_alias_name_of(comp_text(#[trigger] rest[i])) is Some;
                assert(cs[i + 1] == rest[i]);
            }
        }
    }
}

/// A path whose variables are all `NAME` (a plain name) is written with
/// every `${env:NAME}` in it, wherever it stands, as `$NAME`; a path with no
/// variable is kept as it is.
pub proof fn lemma_subst_env_one_name(path: Seq<char>, n: Seq<char>)
    requires
        plain_env_name(n),
        forall|i: int|
            0 <= i < path_comps(path).len() ==> (env_alias_name_of(comp_text(#[trigger] path_comps(path)[i])) is Some
                ==> env_alias_name_of(comp_text(path_comps(path)[i])) == Some(n)),
    ensures
        has_env_comp(path_comps(path)) ==> subst_env_in_path(path) == replace_all(path, env_ref(n), alias_ref(n)),
        !has_env_comp(path_comps(path)) ==> subst_env_in_path(path) == path,
{
    lemma_subst_comps_one_name(path, path_comps(path), n);
}

// ---------------------------------------------------------------------------
// Keeping shortpaths in step with files that are removed or moved

/// `path` folded into the aliases of the shortpaths (see [`fold_shortpath`]).
pub open spec fn folded(path: Seq<char>, e: Entries) -> Seq<char> {
    fold_chain(path, path, e, path.len())
}

/// The names of the shortpaths that the removed files `paths` were, in
/// order: a path that is itself the path of a shortpath is passed over;
/// otherwise, folded into aliases, it names the first shortpath with that
/// path, if any.
pub open spec fn removed_names(e: Entries, paths: Seq<Seq<char>>) -> Seq<Seq<char>>
    decreases paths.len(),
{
    if paths.len() == 0 {
        Seq::empty()
    } else {
        let before = removed_names(e, paths.drop_last());
        let p = paths.last();
        if key_for_path(e, p) is Some {
            before
        } else {
            match key_for_path(e, folded(p, e)) {
                Some(k) => before.push(k),
                None => before,
            }
        }
    }
}

/// The names of the shortpaths that the removed files `filepaths` (full
/// paths) were: what is to be removed when those files are.
pub fn removed_shortpath_names(shortpaths: &SP, filepaths: &Vec<String>) -> (r: Vec<String>)
    ensures
        crate::helpers::strs_view(r@) == removed_names(sp_entries(*shortpaths), crate::helpers::strs_view(filepaths@)),
{
    let ghost e = sp_entries(*shortpaths);
    let ghost pv = crate::helpers::strs_view(filepaths@);
    let mut out: Vec<String> = Vec::new();
    let mut i: usize = 0;
    while i < filepaths.len()
        invariant
            e == sp_entries(*shortpaths),
            pv == crate::helpers::strs_view(filepaths@),
            i <= pv.len(),
            crate::helpers::strs_view(out@) == removed_names(e, pv.take(i as int)),
        decreases pv.len() - i,
    {
        let ghost prev = crate::helpers::strs_view(out@);
        assert(pv.take(i + 1).drop_last() =~= pv.take(i as int));
        assert(pv.take(i + 1).last() == filepaths@[i as int]@);
        let p = &filepaths[i];
        if find_key(shortpaths, p.as_str(), false).is_none() {
            let f = fold_shortpath(p.clone(), shortpaths);
            match find_key(shortpaths, f.as_str(), false) {
                Some(k) => {
                    out.push(k.clone());
                    assert(crate::helpers::strs_view(out@) =~= prev.push(k@));
                },
                None => {},
            }
        }
        i = i + 1;
    }
    assert(pv.take(pv.len() as int) =~= pv);
    out
}

/// Follows a file moved from `src` to `dest` (full paths): the shortpath
/// whose path is `src` folded into aliases, if any, takes `dest` folded into
/// aliases as its path and `dest` as its full path.  Returns whether one did.
pub fn move_shortpath(shortpaths: &mut SP, src: &str, dest: &str) -> (r: bool)
    requires
        sp_wf(*old(shortpaths)),
    ensures
        sp_wf(*final(shortpaths)),
        r == (key_for_path(sp_entries(*old(shortpaths)), folded(src@, sp_entries(*old(shortpaths)))) is Some),
        !r ==> sp_entries(*final(shortpaths)) == sp_entries(*old(shortpaths)),
        r ==> sp_entries(*final(shortpaths)) == entries_insert(
            sp_entries(*old(shortpaths)),
            key_for_path(sp_entries(*old(shortpaths)), folded(src@, sp_entries(*old(shortpaths)))).unwrap(),
            ShortpathView { path: folded(dest@, sp_entries(*old(shortpaths))), full_path: Some(dest@) },
        ),
{
    let folded_src = fold_shortpath(copy_str(src), shortpaths);
    let key = match find_key(shortpaths, folded_src.as_str(), false) {
        Some(k) => k.clone(),
        None => {
            return false;
        },
    };
    let folded_dest = fold_shortpath(copy_str(dest), shortpaths);
    update_shortpath_path(key.as_str(), folded_dest, Some(copy_str(dest)), shortpaths);
    true
}

// ---------------------------------------------------------------------------
// Laws

/// What is stored under a name is read back under that name, and storing
/// leaves every other name as it was; the map stays free of repeated names.
pub proof fn lemma_insert_lookup<V>(e: Seq<(Seq<char>, V)>, k: Seq<char>, v: V, other: Seq<char>)
    requires
        keys_unique(e),
    ensures
        keys_unique(entries_insert(e, k, v)),
        lookup(entries_insert(e, k, v), k) == Some(v),
        other != k ==> lookup(entries_insert(e, k, v), other) == lookup(e, other),
        entries_insert(e, k, v).len() == e.len() + (if has_key(e, k) { 0int } else { 1int }),
{
    let e2 = entries_insert(e, k, v);
    if has_key(e, k) {
        let i = key_index(e, k);
        assert(e2 == e.update(i, (k, v)));
        assert forall|a: int, b: int| 0 <= a < e2.len() && 0 <= b < e2.len() && a != b implies
            #[trigger] e2[a].0 != #[trigger] e2[b].0 by {
            if a != i {
                assert(e2[a] == e[a]);
            }
            if b != i {
                assert(e2[b] == e[b]);
            }
        }
        lemma_key_index_unique(e2, k, i);
        if other != k {
            if has_key(e, other) {
                let j = key_index(e, other);
                assert(j != i);
                assert(e2[j] == e[j]);
                lemma_key_index_unique(e2, other, j);
            } else {
                assert(!has_key(e2, other)) by {
                    if has_key(e2, other) {
                        let j = choose|j: int| 0 <= j < e2.len() && e2[j].0 == other;
                        assert(j != i);
                        assert(e2[j] == e[j]);
                    }
                }
            }
        }
    } else {
        assert(e2 == e.push((k, v)));
        assert forall|a: int, b: int| 0 <= a < e2.len() && 0 <= b < e2.len() && a != b implies
            #[trigger] e2[a].0 != #[trigger] e2[b].0 by {
            if a < e.len() {
                assert(e2[a] == e[a]);
            }
            if b < e.len() {
                assert(e2[b] == e[b]);
            }
        }
        lemma_key_index_unique(e2, k, e.len() as int);
        if other != k {
            if has_key(e, other) {
                let j = key_index(e, other);
                assert(e2[j] == e[j]);
                lemma_key_index_unique(e2, other, j);
            } else {
                assert(!has_key(e2, other)) by {
                    if has_key(e2, other) {
                        let j = choose|j: int| 0 <= j < e2.len() && e2[j].0 == other;
                        if j < e.len() {
                            assert(e2[j] == e[j]);
                        }
                    }
                }
            }
        }
    }
}

/// A removed name is gone, every other name keeps its value, the map shrinks
/// by one when the name was there, and the remaining entries keep their
/// order.
pub proof fn lemma_remove_lookup<V>(e: Seq<(Seq<char>, V)>, k: Seq<char>, other: Seq<char>)
    requires
        keys_unique(e),
    ensures
        keys_unique(entries_shift_remove(e, k)),
        lookup(entries_shift_remove(e, k), k) is None,
        other != k ==> lookup(entries_shift_remove(e, k), other) == lookup(e, other),
        entries_shift_remove(e, k).len() == e.len() - (if has_key(e, k) { 1int } else { 0int }),
        has_key(e, k) ==> entries_shift_remove(e, k) == e.take(key_index(e, k)) + e.skip(
            key_index(e, k) + 1,
        ),
{
    let e2 = entries_shift_remove(e, k);
    if has_key(e, k) {
        let i = key_index(e, k);
        assert(e2 =~= e.take(i) + e.skip(i + 1));
        assert forall|a: int| 0 <= a < e2.len() implies #[trigger] e2[a] == e[if a < i {
            a
        } else {
            a + 1
        }] by {}
        assert forall|a: int, b: int| 0 <= a < e2.len() && 0 <= b < e2.len() && a != b implies
            #[trigger] e2[a].0 != #[trigger] e2[b].0 by {
            let sa = if a < i { a } else { a + 1 };
            let sb = if b < i { b } else { b + 1 };
            assert(e2[a] == e[sa]);
            assert(e2[b] == e[sb]);
        }
        assert(!has_key(e2, k)) by {
            if has_key(e2, k) {
                let j = choose|j: int| 0 <= j < e2.len() && e2[j].0 == k;
                let sj = if j < i { j } else { j + 1 };
                assert(e2[j] == e[sj]);
            }
        }
        if other != k {
            if has_key(e, other) {
                let j = key_index(e, other);
                assert(j != i);
                let tj = if j < i { j } else { j - 1 };
                assert(e2[tj] == e[j]);
                lemma_key_index_unique(e2, other, tj);
            } else {
                assert(!has_key(e2, other)) by {
                    if has_key(e2, other) {
                        let j = choose|j: int| 0 <= j < e2.len() && e2[j].0 == other;
                        let sj = if j < i { j } else { j + 1 };
                        assert(e2[j] == e[sj]);
                    }
                }
            }
        }
    }
}

/// Renaming (what [`update_shortpath_name`] does) moves the shortpath to the
/// new name: the new name reads back the old value, the old name is gone
/// when the names differ, every other name keeps its value, and no name
/// repeats.  When the new name was not taken, the entry keeps its place and
/// every other entry stays where it was.
pub proof fn lemma_rename_lookup<V>(e: Seq<(Seq<char>, V)>, cur: Seq<char>, new: Seq<char>, other: Seq<char>)
    requires
        keys_unique(e),
        has_key(e, cur),
    ensures
        keys_unique(entries_rename(e, cur, new)),
        lookup(entries_rename(e, cur, new), new) == lookup(e, cur),
        new != cur ==> lookup(entries_rename(e, cur, new), cur) is None,
        other != cur && other != new ==> lookup(entries_rename(e, cur, new), other) == lookup(e, other),
        new == cur || !has_key(e, new) ==> entries_rename(e, cur, new).len() == e.len()
            && entries_rename(e, cur, new)[key_index(e, cur)] == (new, e[key_index(e, cur)].1)
            && forall|j: int|
            0 <= j < e.len() && j != key_index(e, cur) ==> #[trigger] entries_rename(e, cur, new)[j]
                == e[j],
{
    let i = key_index(e, cur);
    let v = e[i].1;
    lemma_key_index_unique(e, cur, i);
    if new == cur || !has_key(e, new) {
        let e2 = e.update(i, (new, v));
        assert forall|a: int, b: int| 0 <= a < e2.len() && 0 <= b < e2.len() && a != b implies
            #[trigger] e2[a].0 != #[trigger] e2[b].0 by {
            if a != i && b != i {
                assert(e2[a] == e[a] && e2[b] == e[b]);
            } else if a == i {
                assert(e2[b] == e[b]);
                if e2[b].0 == new {
                    assert(has_key(e, new));
                    assert(e[b].0 == cur);
                }
            } else {
                assert(e2[a] == e[a]);
                if e2[a].0 == new {
                    assert(has_key(e, new));
                    assert(e[a].0 == cur);
                }
            }
        }
        lemma_key_index_unique(e2, new, i);
        if new != cur {
            assert(!has_key(e2, cur)) by {
                if has_key(e2, cur) {
                    let j = choose|j: int| 0 <= j < e2.len() && e2[j].0 == cur;
                    assert(j != i);
                    assert(e2[j] == e[j]);
                }
            }
        }
        if other != cur && other != new {
            if has_key(e, other) {
                let j = key_index(e, other);
                assert(j != i);
                assert(e2[j] == e[j]);
                lemma_key_index_unique(e2, other, j);
            } else {
                assert(!has_key(e2, other)) by {
                    if has_key(e2, other) {
                        let j = choose|j: int| 0 <= j < e2.len() && e2[j].0 == other;
                        assert(j != i);
                        assert(e2[j] == e[j]);
                    }
                }
            }
        }
    } else {
        let e2 = entries_shift_remove(e, cur);
        lemma_remove_lookup(e, cur, other);
        lemma_insert_lookup(e2, new, v, other);
        lemma_insert_lookup(e2, new, v, cur);
    }
}

/// The names `names[i..]` repeat none.
pub open spec fn names_distinct(names: Seq<Seq<char>>) -> bool {
    forall|a: int, b: int| 0 <= a < names.len() && 0 <= b < names.len() && a != b ==> names[a] != names[b]
}

proof fn lemma_remove_all_from(
    e: Entries,
    names: Seq<Seq<char>>,
    answers: Seq<Seq<char>>,
    i: int,
)
    requires
        keys_unique(e),
        names_distinct(names),
        0 <= i <= names.len(),
        forall|k: int| 0 <= k < i ==> !has_key(e, #[trigger] names[k]),
    ensures
        keys_unique(remove_run(e, names, true, answers, i).0),
        remove_run(e, names, true, answers, i).1 == names.subrange(i, names.len() as int).map_values(
            |n: Seq<char>| lookup(e, n),
        ),
        forall|k: Seq<char>|
            #![trigger lookup(remove_run(e, names, true, answers, i).0, k)]
            lookup(remove_run(e, names, true, answers, i).0, k) == (if names.contains(k) {
                None
            } else {
                lookup(e, k)
            }),
    decreases names.len() - i,
{
    let r = remove_run(e, names, true, answers, i);
    if i == names.len() {
        assert(names.subrange(i, names.len() as int).map_values(|n: Seq<char>| lookup(e, n))
            =~= Seq::<Option<ShortpathView>>::empty());
        assert forall|k: Seq<char>| #[trigger] lookup(r.0, k) == (if names.contains(k) {
            None
        } else {
            lookup(e, k)
        }) by {
            if names.contains(k) {
                let a = choose|a: int| 0 <= a < names.len() && names[a] == k;
                assert(!has_key(e, names[a]));
            }
        }
    } else {
        let n = names[i];
        let e1 = entries_shift_remove(e, n);
        lemma_remove_lookup(e, n, n);
        assert forall|k: int| 0 <= k < i + 1 implies !has_key(e1, #[trigger] names[k]) by {
            if k < i {
                lemma_remove_lookup(e, n, names[k]);
                assert(names[k] != n);
                assert(!has_key(e, names[k]));
                assert(lookup(e1, names[k]) is None);
            }
        }
        lemma_remove_all_from(e1, names, answers, i + 1);
        let rest = remove_run(e1, names, true, answers, i + 1);
        assert(r.0 == rest.0);
        assert(r.1 == seq![lookup(e, n)] + rest.1);
        let want = names.subrange(i, names.len() as int).map_values(|x: Seq<char>| lookup(e, x));
        let tail = names.subrange(i + 1, names.len() as int).map_values(|x: Seq<char>| lookup(e1, x));
        assert forall|a: int| 0 <= a < tail.len() implies tail[a] == want[a + 1] by {
            let x = names[i + 1 + a];
            assert(x != n);
            lemma_remove_lookup(e, n, x);
        }
        assert(r.1 =~= want);
        assert forall|k: Seq<char>| #[trigger] lookup(r.0, k) == (if names.contains(k) {
            None
        } else {
            lookup(e, k)
        }) by {
            assert(lookup(r.0, k) == (if names.contains(k) { None } else { lookup(e1, k) }));
            lemma_remove_lookup(e, n, k);
            if k == n {
                assert(names.contains(k)) by {
                    assert(names[i] == k);
                }
            }
        }
    }
}

/// Removing distinct names with `yes` set hands back, for each name in
/// order, the shortpath it had (nothing for a name that was not there);
/// afterwards none of the names is present and every other name keeps its
/// shortpath.
pub proof fn lemma_remove_all(e: Entries, names: Seq<Seq<char>>, answers: Seq<Seq<char>>)
    requires
        keys_unique(e),
        names_distinct(names),
    ensures
        keys_unique(remove_run(e, names, true, answers, 0).0),
        remove_run(e, names, true, answers, 0).1 == names.map_values(|n: Seq<char>| lookup(e, n)),
        forall|k: Seq<char>|
            #![trigger lookup(remove_run(e, names, true, answers, 0).0, k)]
            lookup(remove_run(e, names, true, answers, 0).0, k) == (if names.contains(k) {
                None
            } else {
                lookup(e, k)
            }),
{
    lemma_remove_all_from(e, names, answers, 0);
    assert(names.subrange(0, names.len() as int) =~= names);
}

/// An alias written for a name parses back to that name.
pub proof fn lemma_alias_roundtrip(name: Seq<char>)
    ensures
        alias_name_of(alias_ref(name)) == Some(name),
{
    assert(alias_ref(name).drop_first() =~= name);
}

/// A variable written as `${env:NAME}` parses back to `NAME`.
pub proof fn lemma_env_alias_roundtrip(name: Seq<char>)
    ensures
        env_alias_name_of(env_ref(name)) == Some(name),
{
    let r = env_ref(name);
    assert(r.take(6) =~= env_prefix());
    assert(r.subrange(6, r.len() - 1) =~= name);
}

proof fn lemma_replace_short(s: Seq<char>, a: Seq<char>, p: Seq<char>)
    requires
        a.len() > 0,
        s.len() < a.len(),
    ensures
        replace_all(s, a, p) == s,
{
}

/// A text without an occurrence of `a` has none after its first `k`
/// characters either.
pub(crate) proof fn lemma_no_occurrence_skip(s: Seq<char>, a: Seq<char>, k: int)
    requires
        !contains_seq(s, a),
        0 <= k <= s.len(),
    ensures
        !contains_seq(s.skip(k), a),
{
    if contains_seq(s.skip(k), a) {
        let i = choose|i: int| occurs_at(s.skip(k), a, i);
        assert(s.skip(k).subrange(i, i + a.len()) =~= s.subrange(i + k, i + k + a.len()));
        assert(occurs_at(s, a, i + k));
    }
}

/// Replacing what does not occur leaves the text as it is.
pub(crate) proof fn lemma_replace_absent(s: Seq<char>, a: Seq<char>, p: Seq<char>)
    requires
        a.len() > 0,
        !contains_seq(s, a),
    ensures
        replace_all(s, a, p) == s,
    decreases s.len(),
{
    if s.len() >= a.len() {
        assert(s.take(a.len() as int) != a) by {
            if s.take(a.len() as int) == a {
                assert(s.subrange(0, a.len() as int) =~= s.take(a.len() as int));
                assert(occurs_at(s, a, 0));
            }
        }
        lemma_no_occurrence_skip(s, a, 1);
        assert(s.skip(1) =~= s.drop_first());
        lemma_replace_absent(s.drop_first(), a, p);
        assert(seq![s[0]] + s.drop_first() =~= s);
    }
}

/// When the text folded with a marker that starts with `$` begins with a
/// `$`-free `w`, the text itself begins with `w`.
proof fn lemma_fold_prefix(rest: Seq<char>, path: Seq<char>, a: Seq<char>, w: Seq<char>)
    requires
        path.len() > 0,
        a.len() > 0,
        a[0] == '$',
        forall|j: int| 0 <= j < w.len() ==> w[j] != '$',
        has_prefix(replace_all(rest, path, a), w),
    ensures
        has_prefix(rest, w),
    decreases rest.len(),
{
    let f = replace_all(rest, path, a);
    if w.len() == 0 {
        assert(rest.take(0) =~= w);
    } else if rest.len() < path.len() {
        assert(f == rest);
    } else if rest.take(path.len() as int) == path {
        assert(f == a + replace_all(rest.skip(path.len() as int), path, a));
        assert(f[0] == '$');
        assert(f.take(w.len() as int)[0] == w[0]);
    } else {
        let fr = replace_all(rest.drop_first(), path, a);
        assert(f == seq![rest[0]] + fr);
        assert(f.take(w.len() as int)[0] == w[0]);
        let w1 = w.drop_first();
        assert(fr.take(w1.len() as int) =~= f.take(w.len() as int).drop_first());
        lemma_fold_prefix(rest.drop_first(), path, a, w1);
        assert(f[0] == rest[0]);
        assert(w =~= seq![w[0]] + w1);
        assert(rest.take(w.len() as int) =~= seq![rest[0]] + rest.drop_first().take(w1.len() as int));
    }
}

/// Replacing `path` by a marker that starts with `$` (and holds no other
/// `$`), and the marker by `path` again, gives back a text in which the
/// marker does not occur.
proof fn lemma_marker_roundtrip(src: Seq<char>, path: Seq<char>, a: Seq<char>)
    requires
        path.len() > 0,
        a.len() > 0,
        a[0] == '$',
        forall|j: int| 1 <= j < a.len() ==> a[j] != '$',
        !contains_seq(src, a),
    ensures
        replace_all(replace_all(src, path, a), a, path) == src,
    decreases src.len(),
{
    let folded = replace_all(src, path, a);
    if src.len() < path.len() {
        lemma_replace_absent(src, a, path);
    } else if src.take(path.len() as int) == path {
        let rest = src.skip(path.len() as int);
        lemma_no_occurrence_skip(src, a, path.len() as int);
        lemma_marker_roundtrip(rest, path, a);
        let fr = replace_all(rest, path, a);
        assert(folded == a + fr);
        assert((a + fr).take(a.len() as int) =~= a);
        assert((a + fr).skip(a.len() as int) =~= fr);
        assert(replace_all(a + fr, a, path) == path + replace_all(fr, a, path));
        assert(path + rest =~= src);
    } else {
        let rest = src.drop_first();
        lemma_no_occurrence_skip(src, a, 1);
        assert(src.skip(1) =~= rest);
        lemma_marker_roundtrip(rest, path, a);
        let fr = replace_all(rest, path, a);
        assert(folded == seq![src[0]] + fr);
        let t = seq![src[0]] + fr;
        if t.len() < a.len() {
            lemma_replace_short(t, a, path);
            lemma_replace_short(fr, a, path);
            assert(t =~= src);
        } else {
            assert(t.take(a.len() as int) != a) by {
                if t.take(a.len() as int) == a {
                    let w = a.drop_first();
                    assert(t.take(a.len() as int)[0] == src[0]);
                    assert(fr.take(w.len() as int) =~= t.take(a.len() as int).drop_first());
                    lemma_fold_prefix(rest, path, a, w);
                    assert(t.take(a.len() as int)[0] == a[0]);
                    assert(t[0] == src[0]);
                    assert(a =~= seq![a[0]] + w);
                    assert(src.subrange(0, a.len() as int) =~= seq![src[0]] + rest.take(w.len() as int));
                    assert(occurs_at(src, a, 0));
                }
            }
            assert(t.drop_first() =~= fr);
            assert(seq![src[0]] + rest =~= src);
        }
    }
}

/// Folding a path into an alias and expanding the alias again gives back
/// the text, when the path is not empty, the name holds no `$`, and the alias
/// `$name` does not already occur in the text.
pub proof fn lemma_fold_expand_roundtrip(src: Seq<char>, name: Seq<char>, path: Seq<char>)
    requires
        path.len() > 0,
        forall|i: int| 0 <= i < name.len() ==> name[i] != '$',
        !contains_seq(src, alias_ref(name)),
    ensures
        replace_all(replace_all(src, path, alias_ref(name)), alias_ref(name), path) == src,
{
    let a = alias_ref(name);
    assert forall|j: int| 1 <= j < a.len() implies a[j] != '$' by {
        assert(a[j] == name[j - 1]);
    }
    lemma_marker_roundtrip(src, path, a);
}

/// Writing an environment value as `${env:NAME}` and substituting the
/// variable back gives back the text, when the value is not empty, the name
/// holds no `$`, and `${env:NAME}` does not already occur in the text.
pub proof fn lemma_env_fold_substitute_roundtrip(src: Seq<char>, name: Seq<char>, value: Seq<char>)
    requires
        value.len() > 0,
        forall|i: int| 0 <= i < name.len() ==> name[i] != '$',
        !contains_seq(src, env_ref(name)),
    ensures
        replace_all(replace_all(src, value, env_ref(name)), env_ref(name), value) == src,
{
    let a = env_ref(name);
    assert forall|j: int| 1 <= j < a.len() implies a[j] != '$' by {
        if 6 <= j < 6 + name.len() {
            assert(a[j] == name[j - 6]);
        }
    }
    lemma_marker_roundtrip(src, value, a);
}

} // verus!
