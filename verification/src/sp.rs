//! The typed form of shortpaths: each path tagged as a plain path, an alias
//! path or an environment path, with the dependencies found in its
//! components; kept by name in an `IndexMap`.

use vstd::prelude::*;
use indexmap::IndexMap;
use std::cmp::Ordering;
use crate::paths::{
    path_comps, components, comp_text, Comp, PathComponent, path_order, ordering_value,
    compare_paths,
};
use crate::shortpaths::{
    keys_unique, has_key, key_index, lookup, entries_insert, entries_shift_remove, entries_rename, lemma_key_index_unique, alias_ref,
    expand_path, refs_view, opt_ref_view, triples_view, is_env_comp, env_prefix, ShortpathVariant,
};
use crate::strings::{
    chars_to_string, replace_all, contains_seq, contains_chars, str_eq, copy_str,
};
use crate::helpers::{
    lowercase_of, to_lowercase, entries_named, entries_view, strs_view, SearchResults, byte_len,
    is_last_longest,
};
use crate::paths::{file_name, file_name_of};

pub use crate::strings::to_str_slice;
pub use crate::helpers::expand_tilde;

verus! {

/// The kind of a shortpath, with its name and path.
#[derive(Debug)]
pub enum ShortpathType {
    /// Shortpath name and path.
    Path(String, String),
    /// Shortpath name and a path that refers to another shortpath.
    AliasPath(String, String),
    /// Environment variable name and path.
    EnvPath(String, String),
}

/// A shortpath kind as a value.
pub ghost enum SptView {
    Path(Seq<char>, Seq<char>),
    AliasPath(Seq<char>, Seq<char>),
    EnvPath(Seq<char>, Seq<char>),
}

impl View for ShortpathType {
    type V = SptView;

    open spec fn view(&self) -> SptView {
        match self {
            ShortpathType::Path(n, p) => SptView::Path(n@, p@),
            ShortpathType::AliasPath(n, p) => SptView::AliasPath(n@, p@),
            ShortpathType::EnvPath(n, p) => SptView::EnvPath(n@, p@),
        }
    }
}

/// The name of a shortpath kind.
pub open spec fn spt_name(t: SptView) -> Seq<char> {
    match t {
        SptView::Path(n, _) => n,
        SptView::AliasPath(n, _) => n,
        SptView::EnvPath(n, _) => n,
    }
}

/// The path of a shortpath kind.
pub open spec fn spt_path(t: SptView) -> Seq<char> {
    match t {
        SptView::Path(_, p) => p,
        SptView::AliasPath(_, p) => p,
        SptView::EnvPath(_, p) => p,
    }
}

impl ShortpathType {
    pub fn new_path(name: String, path: String) -> (r: ShortpathType)
        ensures
            r@ == SptView::Path(name@, path@),
    {
        ShortpathType::Path(name, path)
    }

    pub fn new_alias_path(name: String, alias_path: String) -> (r: ShortpathType)
        ensures
            r@ == SptView::AliasPath(name@, alias_path@),
    {
        ShortpathType::AliasPath(name, alias_path)
    }

    /// The environment variable `name` with its value, as read from the
    /// environment when it is created (empty when it could not be read).
    pub fn new_env_path(name: String, value: Option<String>) -> (r: ShortpathType)
        ensures
            r@ == SptView::EnvPath(
                name@,
                match value {
                    Some(v) => v@,
                    None => Seq::empty(),
                },
            ),
    {
        let alias_path = match value {
            Some(v) => v,
            None => String::new(),
        };
        ShortpathType::EnvPath(name, alias_path)
    }

    /// A copy.
    pub fn copy(&self) -> (r: ShortpathType)
        ensures
            r@ == self@,
    {
        match self {
            ShortpathType::Path(n, p) => ShortpathType::Path(n.clone(), p.clone()),
            ShortpathType::AliasPath(n, p) => ShortpathType::AliasPath(n.clone(), p.clone()),
            ShortpathType::EnvPath(n, p) => ShortpathType::EnvPath(n.clone(), p.clone()),
        }
    }
}

/// A typed shortpath, its full path once expanded, and its dependencies
/// once found.
#[derive(Debug)]
pub struct Shortpath {
    pub path: ShortpathType,
    pub full_path: Option<String>,
    pub deps: Option<Vec<ShortpathType>>,
}

/// A typed shortpath as a value.
pub ghost struct SpView {
    pub path: SptView,
    pub full_path: Option<Seq<char>>,
    pub deps: Option<Seq<SptView>>,
}

pub open spec fn spts_view(v: Seq<ShortpathType>) -> Seq<SptView> {
    v.map_values(|t: ShortpathType| t@)
}

impl View for Shortpath {
    type V = SpView;

    open spec fn view(&self) -> SpView {
        SpView {
            path: self.path@,
            full_path: crate::shortpaths::opt_view(self.full_path),
            deps: match self.deps {
                Some(d) => Some(spts_view(d@)),
                None => None,
            },
        }
    }
}

fn copy_spts(v: &Vec<ShortpathType>) -> (r: Vec<ShortpathType>)
    ensures
        spts_view(r@) == spts_view(v@),
{
    let mut out: Vec<ShortpathType> = Vec::new();
    let mut i: usize = 0;
    while i < v.len()
        invariant
            i <= v@.len(),
            spts_view(out@) == spts_view(v@).take(i as int),
        decreases v@.len() - i,
    {
        let c = v[i].copy();
        let ghost prev = spts_view(out@);
        out.push(c);
        assert(spts_view(out@) =~= prev.push(c@));
        i = i + 1;
        assert(spts_view(out@) =~= spts_view(v@).take(i as int));
    }
    assert(spts_view(v@).take(v@.len() as int) =~= spts_view(v@));
    out
}

impl Clone for Shortpath {
    fn clone(&self) -> (r: Self)
        ensures
            r@ == self@,
    {
        Shortpath {
            path: self.path.copy(),
            full_path: crate::shortpaths::copy_opt(&self.full_path),
            deps: match &self.deps {
                Some(d) => Some(copy_spts(d)),
                None => None,
            },
        }
    }
}

impl Shortpath {
    pub fn new(path: ShortpathType, full_path: Option<String>, deps: Option<Vec<ShortpathType>>) -> (r:
        Shortpath)
        ensures
            r.path@ == path@,
            r.full_path == full_path,
            r.deps == deps,
    {
        Shortpath { path, full_path, deps }
    }

    pub fn path(&self) -> (r: &String)
        ensures
            r@ == spt_path(self.path@),
    {
        match &self.path {
            ShortpathType::Path(_, path) | ShortpathType::AliasPath(_, path)
            | ShortpathType::EnvPath(_, path) => path,
        }
    }

    pub fn name(&self) -> (r: &String)
        ensures
            r@ == spt_name(self.path@),
    {
        match &self.path {
            ShortpathType::Path(name, _) | ShortpathType::AliasPath(name, _)
            | ShortpathType::EnvPath(name, _) => name,
        }
    }
}

/// The name of a shortpath kind.
pub fn get_shortpath_name(sp: &ShortpathType) -> (r: String)
    ensures
        r@ == spt_name(sp@),
{
    match sp {
        ShortpathType::Path(name, _) | ShortpathType::AliasPath(name, _)
        | ShortpathType::EnvPath(name, _) => name.clone(),
    }
}

/// The path of a shortpath kind.
pub fn get_shortpath_path(sp: &ShortpathType) -> (r: String)
    ensures
        r@ == spt_path(sp@),
{
    match sp {
        ShortpathType::Path(_, path) | ShortpathType::AliasPath(_, path)
        | ShortpathType::EnvPath(_, path) => path.clone(),
    }
}

/// `$key_name` in `src` expanded to `key_path`.
pub fn fmt_expand(src: &str, key_name: &str, key_path: &str) -> (r: String)
    ensures
        r@ == replace_all(src@, alias_ref(key_name@), key_path@),
{
    expand_path(src, key_name, key_path)
}

/// `key_path` in `src` folded into `$key_name`.
pub fn fmt_fold(src: &str, key_name: &str, key_path: &str) -> (r: String)
    ensures
        r@ == replace_all(src@, key_path@, alias_ref(key_name@)),
{
    crate::shortpaths::fold_path(src, key_name, key_path)
}

/// The dependency a component stands for: `${env:NAME}` is the variable
/// `NAME`; another `$name` is an alias of `name`; the component itself is the
/// path.
pub open spec fn parsed_alias(path: Seq<char>) -> Option<SptView> {
    if is_env_comp(path) {
        Some(SptView::EnvPath(path.subrange(6, path.len() - 1), path))
    } else if path.len() > 0 && path[0] == '$' {
        Some(SptView::AliasPath(path.drop_first(), path))
    } else {
        None
    }
}

/** Parse a Shortpath entry, and returns any dependencies */
pub fn parse_alias(path: &[char]) -> (r: Option<ShortpathType>)
    ensures
        match r {
            Some(t) => parsed_alias(path@) == Some(t@),
            None => parsed_alias(path@) is None,
        },
{
    let n = path.len();
    let mut whole: Vec<char> = Vec::new();
    let mut i: usize = 0;
    while i < n
        invariant
            n == path@.len(),
            i <= n,
            whole@ == path@.take(i as int),
        decreases n - i,
    {
        whole.push(path[i]);
        i = i + 1;
        assert(whole@ =~= path@.take(i as int));
    }
    assert(whole@ =~= path@);
    match crate::shortpaths::get_shortpath_type(path) {
        Some(ShortpathVariant::Environment) => {
            let mut name: Vec<char> = Vec::new();
            let mut j: usize = 6;
            while j < n - 1
                invariant
                    n == path@.len(),
                    n >= 7,
                    6 <= j <= n - 1,
                    name@ == path@.subrange(6, j as int),
                decreases n - 1 - j,
            {
                name.push(path[j]);
                j = j + 1;
                assert(name@ =~= path@.subrange(6, j as int));
            }
            Some(ShortpathType::EnvPath(chars_to_string(&name), chars_to_string(&whole)))
        },
        Some(ShortpathVariant::Alias) => {
            let mut name: Vec<char> = Vec::new();
            let mut j: usize = 1;
            while j < n
                invariant
                    n == path@.len(),
                    1 <= j <= n,
                    name@ == path@.subrange(1, j as int),
                decreases n - j,
            {
                name.push(path[j]);
                j = j + 1;
                assert(name@ =~= path@.subrange(1, j as int));
            }
            assert(name@ =~= path@.drop_first());
            Some(ShortpathType::AliasPath(chars_to_string(&name), chars_to_string(&whole)))
        },
        _ => None,
    }
}

/// The kind of the shortpath `name` with the path `path`: an environment
/// path when it holds `${env:`, else an alias path when its lowercase form
/// holds `$`, otherwise a plain path.
pub open spec fn shortpath_type_for(name: Seq<char>, path: Seq<char>) -> SptView {
    if contains_seq(path, env_prefix()) {
        SptView::EnvPath(name, path)
    } else if contains_seq(lowercase_of(path), seq!['$']) {
        SptView::AliasPath(name, path)
    } else {
        SptView::Path(name, path)
    }
}

/// The kind of the shortpath `name` with the path `path`.
pub fn get_shortpath_type(name: String, path: &String) -> (r: ShortpathType)
    ensures
        r@ == shortpath_type_for(name@, path@),
{
    let pv = to_str_slice(path.as_str());
    let prefix: Vec<char> = vec!['$', '{', 'e', 'n', 'v', ':'];
    assert(prefix@ =~= env_prefix());
    if contains_chars(&pv, &prefix) {
        return ShortpathType::EnvPath(name, path.clone());
    }
    let lower = to_lowercase(path.as_str());
    let lv = to_str_slice(lower.as_str());
    let mut dollar: Vec<char> = Vec::new();
    dollar.push('$');
    if contains_chars(&lv, &dollar) {
        ShortpathType::AliasPath(name, path.clone())
    } else {
        ShortpathType::Path(name, path.clone())
    }
}

/// The dependencies of a path: what each of its named components stands for.
pub open spec fn deps_of_comps(comps: Seq<Comp>) -> Seq<SptView>
    decreases comps.len(),
{
    if comps.len() == 0 {
        Seq::empty()
    } else {
        let first = match comps[0] {
            Comp::Normal(c) => match parsed_alias(c) {
                Some(t) => seq![t],
                None => Seq::empty(),
            },
            _ => Seq::empty(),
        };
        first + deps_of_comps(comps.drop_first())
    }
}

/// Find the dependencies for a given shortpath
pub fn find_deps(entry: &String) -> (r: Option<Vec<ShortpathType>>)
    ensures
        r matches Some(d) && spts_view(d@) == deps_of_comps(path_comps(entry@)),
{
    let comps = components(entry.as_str());
    let ghost cv = crate::paths::comps_view(comps@);
    let mut deps: Vec<ShortpathType> = Vec::new();
    let mut i: usize = 0;
    assert(cv.skip(0) =~= cv);
    while i < comps.len()
        invariant
            cv == crate::paths::comps_view(comps@),
            cv == path_comps(entry@),
            i <= comps@.len(),
            spts_view(deps@) + deps_of_comps(cv.skip(i as int)) == deps_of_comps(cv),
        decreases comps@.len() - i,
    {
        assert(cv.skip(i as int)[0] == comps@[i as int]@);
        assert(cv.skip(i as int).drop_first() =~= cv.skip(i + 1));
        let ghost prev = spts_view(deps@);
        match &comps[i] {
            PathComponent::Normal(c) => {
                let chars = to_str_slice(c.as_str());
                match parse_alias(chars.as_slice()) {
                    Some(t) => {
                        deps.push(t);
                        assert(spts_view(deps@) =~= prev + seq![deps@.last()@]);
                    },
                    None => {
                        assert(spts_view(deps@) =~= prev + Seq::<SptView>::empty());
                    },
                }
            },
            _ => {
                assert(spts_view(deps@) =~= prev + Seq::<SptView>::empty());
            },
        }
        i = i + 1;
    }
    assert(cv.skip(i as int) =~= Seq::<Comp>::empty());
    assert(spts_view(deps@) + Seq::<SptView>::empty() =~= spts_view(deps@));
    Some(deps)
}

/// The path with each dependency `$name` (in order) expanded to the
/// dependency's path.
pub open spec fn expand_with_deps(path: Seq<char>, deps: Seq<SptView>) -> Seq<char>
    decreases deps.len(),
{
    if deps.len() == 0 {
        path
    } else {
        expand_with_deps(
            replace_all(path, alias_ref(spt_name(deps[0])), spt_path(deps[0])),
            deps.drop_first(),
        )
    }
}

/// What a shortpath's path expands to with its dependencies.
pub open spec fn sp_expanded(sp: SpView) -> Seq<char> {
    match sp.deps {
        Some(d) => expand_with_deps(spt_path(sp.path), d),
        None => spt_path(sp.path),
    }
}

/// Expand shortpath variants at runtime
///
/// The shortpath dependencies must be populated before this is run; both
/// their name and path values are used.
pub fn expand_shortpath(sp: &Shortpath) -> (r: String)
    ensures
        r@ == sp_expanded(sp@),
{
    let entry = sp.path().clone();
    match &sp.deps {
        Some(deps) => {
            let ghost dv = spts_view(deps@);
            let mut output = entry;
            let mut i: usize = 0;
            assert(dv.skip(0) =~= dv);
            while i < deps.len()
                invariant
                    dv == spts_view(deps@),
                    i <= deps@.len(),
                    expand_with_deps(output@, dv.skip(i as int)) == sp_expanded(sp@),
                decreases deps@.len() - i,
            {
                assert(dv.skip(i as int)[0] == deps@[i as int]@);
                assert(dv.skip(i as int).drop_first() =~= dv.skip(i + 1));
                let dep_name = get_shortpath_name(&deps[i]);
                let dep_path = get_shortpath_path(&deps[i]);
                output = fmt_expand(output.as_str(), dep_name.as_str(), dep_path.as_str());
                i = i + 1;
            }
            assert(dv.skip(i as int) =~= Seq::<SptView>::empty());
            output
        },
        None => entry,
    }
}

/// Populate shortpath dependencies
pub fn sp_pop_deps(sp: &mut Shortpath)
    ensures
        final(sp).path@ == old(sp).path@,
        final(sp).full_path == old(sp).full_path,
        old(sp).deps is Some ==> final(sp)@ == old(sp)@,
        old(sp).deps is None ==> final(sp)@.deps == Some(
            deps_of_comps(path_comps(spt_path(old(sp).path@))),
        ),
{
    if sp.deps.is_some() {
        return;
    }
    let path = sp.path().clone();
    sp.deps = find_deps(&path);
}

/// Expand and populate shortpath's full_path field
pub fn sp_pop_full_path(sp: &mut Shortpath)
    ensures
        final(sp).path@ == old(sp).path@,
        final(sp)@.deps == old(sp)@.deps,
        final(sp)@.full_path == Some(sp_expanded(old(sp)@)),
{
    let output = expand_shortpath(sp);
    sp.full_path = Some(output);
}

/// Typed shortpaths by name, in insertion order.
pub type SP = IndexMap<String, Shortpath>;

/// The entries of a typed shortpath map, in order.
pub type SpEntries = Seq<(Seq<char>, SpView)>;

/// What a typed shortpath map holds, in order.
pub uninterp spec fn spt_entries(m: SP) -> SpEntries;

/// A typed shortpath map never holds a name twice.
pub open spec fn spt_wf(m: SP) -> bool {
    keys_unique(spt_entries(m))
}

/// An empty map (`IndexMap::new`).
#[verifier::external_body]
pub(crate) fn spt_new() -> (m: SP)
    ensures
        spt_entries(m) == Seq::<(Seq<char>, SpView)>::empty(),
{
    IndexMap::new()
}

/// The number of entries (`IndexMap::len`).
#[verifier::external_body]
pub(crate) fn spt_len(m: &SP) -> (n: usize)
    ensures
        n == spt_entries(*m).len(),
{
    m.len()
}

/// The entry at position `i` (`IndexMap::get_index`).
#[verifier::external_body]
pub(crate) fn spt_get_index<'a>(m: &'a SP, i: usize) -> (r: (&'a String, &'a Shortpath))
    requires
        i < spt_entries(*m).len(),
    ensures
        r.0@ == spt_entries(*m)[i as int].0,
        r.1@ == spt_entries(*m)[i as int].1,
{
    m.get_index(i).unwrap()
}

/// Stores `v` under `k` (`IndexMap::insert`): an existing name keeps its
/// place and takes the new value, which is handed back; a new name goes last.
#[verifier::external_body]
pub(crate) fn spt_insert(m: &mut SP, k: String, v: Shortpath) -> (r: Option<Shortpath>)
    requires
        spt_wf(*old(m)),
    ensures
        spt_wf(*final(m)),
        spt_entries(*final(m)) == entries_insert(spt_entries(*old(m)), k@, v@),
        match r {
            Some(o) => lookup(spt_entries(*old(m)), k@) == Some(o@),
            None => lookup(spt_entries(*old(m)), k@) is None,
        },
{
    m.insert(k, v)
}

/// Removes the entry under `k` (`IndexMap::shift_remove`): the entries after
/// it keep their order.  The removed shortpath is handed back.
#[verifier::external_body]
pub(crate) fn spt_remove(m: &mut SP, k: &str) -> (r: Option<Shortpath>)
    requires
        spt_wf(*old(m)),
    ensures
        spt_wf(*final(m)),
        spt_entries(*final(m)) == entries_shift_remove(spt_entries(*old(m)), k@),
        match r {
            Some(o) => lookup(spt_entries(*old(m)), k@) == Some(o@),
            None => lookup(spt_entries(*old(m)), k@) is None,
        },
{
    m.shift_remove(k)
}

/// The position of the entry under `k` (`IndexMap::get_index_of`).
#[verifier::external_body]
pub(crate) fn spt_get_index_of(m: &SP, k: &str) -> (r: Option<usize>)
    requires
        spt_wf(*m),
    ensures
        match r {
            Some(i) => has_key(spt_entries(*m), k@) && i == key_index(spt_entries(*m), k@),
            None => !has_key(spt_entries(*m), k@),
        },
{
    m.get_index_of(k)
}

/// Gives the entry at position `i` the name `k` (`IndexMap::replace_index`):
/// done when `k` is that entry's name already or no other entry has it;
/// otherwise the map is left as it was.  Returns whether it was done.
#[verifier::external_body]
pub(crate) fn spt_replace_key(m: &mut SP, i: usize, k: String) -> (r: bool)
    requires
        spt_wf(*old(m)),
        i < spt_entries(*old(m)).len(),
    ensures
        spt_wf(*final(m)),
        r == (spt_entries(*old(m))[i as int].0 == k@ || !has_key(spt_entries(*old(m)), k@)),
        r ==> spt_entries(*final(m)) == spt_entries(*old(m)).update(i as int, (k@, spt_entries(*old(m))[i as int].1)),
        !r ==> spt_entries(*final(m)) == spt_entries(*old(m)),
{
    m.replace_index(i, k).is_ok()
}

/// The number of dependencies found, none counting as zero.
pub open spec fn deps_count(s: SpView) -> int {
    match s.deps {
        Some(d) => d.len() as int,
        None => 0,
    }
}

/// The order of typed shortpaths before it is reversed: by number of
/// dependencies, then path, then name.
pub open spec fn sp_order_forward(a: SpView, b: SpView) -> int {
    if deps_count(a) < deps_count(b) {
        -1
    } else if deps_count(a) > deps_count(b) {
        1
    } else if path_order(spt_path(a.path), spt_path(b.path)) != 0 {
        path_order(spt_path(a.path), spt_path(b.path))
    } else {
        crate::paths::chars_order(spt_name(a.path), spt_name(b.path))
    }
}

proof fn lemma_sp_order_forward_trans(a: SpView, b: SpView, c: SpView)
    requires
        sp_order_forward(a, b) <= 0,
        sp_order_forward(b, c) <= 0,
    ensures
        sp_order_forward(a, c) <= 0,
{
    let (pa, pb, pc) = (spt_path(a.path), spt_path(b.path), spt_path(c.path));
    let (na, nb, nc) = (spt_name(a.path), spt_name(b.path), spt_name(c.path));
    crate::paths::lemma_path_order_total(pa, pb, pc);
    crate::paths::lemma_path_order_total(pb, pc, pa);
    crate::paths::lemma_path_order_total(pa, pc, pb);
    crate::paths::lemma_path_order_total(pc, pa, pb);
    crate::paths::lemma_chars_order_total(na, nb, nc);
    if deps_count(a) == deps_count(b) && deps_count(b) == deps_count(c) {
        if path_order(pa, pb) == 0 && path_order(pb, pc) == 0 {
            assert(path_order(pa, pc) == 0) by {
                crate::paths::lemma_path_order_total(pa, pb, pc);
                crate::paths::lemma_path_order_total(pb, pc, pa);
            }
        } else if path_order(pa, pb) == 0 {
            // the paths of a and b have the same components
            assert(path_comps(pa) == path_comps(pb));
            assert(path_order(pa, pc) == path_order(pb, pc));
        } else if path_order(pb, pc) == 0 {
            assert(path_comps(pb) == path_comps(pc));
            assert(path_order(pa, pc) == path_order(pa, pb));
        }
    }
}

/// The order of typed shortpaths: by number of dependencies, then path
/// (component by component), then name, all reversed.
pub open spec fn sp_order(a: SpView, b: SpView) -> int {
    -sp_order_forward(a, b)
}

/// The order of typed shortpaths is total: swapping the arguments negates
/// it, and it is transitive, so sorting by it is well defined.
pub proof fn lemma_sp_order_total(a: SpView, b: SpView, c: SpView)
    ensures
        sp_order(a, b) == -sp_order(b, a),
        sp_order(a, b) <= 0 && sp_order(b, c) <= 0 ==> sp_order(a, c) <= 0,
{
    let (pa, pb) = (spt_path(a.path), spt_path(b.path));
    crate::paths::lemma_path_order_total(pa, pb, pa);
    crate::paths::lemma_chars_order_total(spt_name(a.path), spt_name(b.path), spt_name(a.path));
    if sp_order(a, b) <= 0 && sp_order(b, c) <= 0 {
        crate::paths::lemma_path_order_total(spt_path(b.path), spt_path(c.path), pa);
        crate::paths::lemma_chars_order_total(spt_name(b.path), spt_name(c.path), spt_name(a.path));
        assert(sp_order_forward(b, a) <= 0);
        assert(sp_order_forward(c, b) <= 0);
        lemma_sp_order_forward_trans(c, b, a);
        crate::paths::lemma_path_order_total(spt_path(a.path), spt_path(c.path), pa);
        crate::paths::lemma_chars_order_total(spt_name(a.path), spt_name(c.path), spt_name(a.path));
    }
}

/// `new` holds the entries of `old` sorted by [`sp_order`], entries that
/// compare equal kept in their former relative order; `p` tells where in
/// `old` each entry of `new` was.
pub open spec fn sp_stable_sorted_by(new: SpEntries, old: SpEntries, p: Seq<int>) -> bool {
    &&& new.len() == old.len()
    &&& p.len() == new.len()
    &&& forall|k: int| 0 <= k < p.len() ==> 0 <= #[trigger] p[k] < old.len()
    &&& forall|k: int, l: int| 0 <= k < p.len() && 0 <= l < p.len() && k != l ==> p[k] != p[l]
    &&& forall|k: int| 0 <= k < new.len() ==> #[trigger] new[k] == old[p[k]]
    &&& forall|k: int, l: int|
        0 <= k < l < new.len() ==> sp_order((#[trigger] new[k]).1, (#[trigger] new[l]).1) <= 0
    &&& forall|k: int, l: int|
        0 <= k < l < new.len() && sp_order((#[trigger] new[k]).1, (#[trigger] new[l]).1) == 0
            ==> p[k] < p[l]
}

fn sp_order_value(a: &Shortpath, b: &Shortpath) -> (r: i8)
    ensures
        r == sp_order(a@, b@),
        -1 <= r <= 1,
{
    let la: usize = match &a.deps {
        Some(d) => d.len(),
        None => 0,
    };
    let lb: usize = match &b.deps {
        Some(d) => d.len(),
        None => 0,
    };
    let c: i8 = if la < lb {
        -1
    } else if la > lb {
        1
    } else {
        let p = crate::paths::path_order_value(a.path().as_str(), b.path().as_str());
        if p != 0 {
            p
        } else {
            let na = to_str_slice(a.name().as_str());
            let nb = to_str_slice(b.name().as_str());
            crate::paths::compare_chars(&na, &nb)
        }
    };
    -c
}

impl Shortpath {
    /// Orders typed shortpaths by number of dependencies, then path, then
    /// name, all reversed.
    pub fn cmp(&self, other: &Self) -> (r: Ordering)
        ensures
            ordering_value(r) == sp_order(self@, other@),
    {
        let v = sp_order_value(self, other);
        if v < 0 {
            Ordering::Less
        } else if v > 0 {
            Ordering::Greater
        } else {
            Ordering::Equal
        }
    }

    /// The order of [`Shortpath::cmp`], always defined.
    pub fn partial_cmp(&self, other: &Self) -> (r: Option<Ordering>)
        ensures
            r matches Some(o) && ordering_value(o) == sp_order(self@, other@),
    {
        Some(self.cmp(other))
    }
}

/// Sorts the entries with [`Shortpath::cmp`] (`IndexMap::sort_by`).  The
/// sort is stable, as the crate documents.
#[verifier::external_body]
pub(crate) fn spt_sort(m: &mut SP)
    requires
        spt_wf(*old(m)),
    ensures
        spt_wf(*final(m)),
        exists|p: Seq<int>| sp_stable_sorted_by(spt_entries(*final(m)), spt_entries(*old(m)), p),
{
    m.sort_by(|_, v1, _, v2| v1.cmp(v2));
}

/// A sorted copy of the typed shortpaths.
pub fn sort_shortpaths(shortpaths: SP) -> (r: SP)
    requires
        spt_wf(shortpaths),
    ensures
        spt_wf(r),
        exists|p: Seq<int>| sp_stable_sorted_by(spt_entries(r), spt_entries(shortpaths), p),
{
    let mut m = shortpaths;
    spt_sort(&mut m);
    m
}

/// A copy of the map (`IndexMap::clone`, which clones each shortpath with
/// [`Shortpath`]'s `clone`, whose contract keeps the value).
#[verifier::external_body]
pub(crate) fn spt_clone(m: &SP) -> (r: SP)
    ensures
        spt_entries(r) == spt_entries(*m),
{
    m.clone()
}

/// Find the longest name in the map (by bytes); of equally long names the
/// last one.
pub fn find_longest_keyname(map: SP) -> (r: String)
    requires
        spt_entries(map).len() > 0,
    ensures
        exists|i: int| is_last_longest(spt_entries(map), i) && r@ == spt_entries(map)[i].0,
{
    let ghost e = spt_entries(map);
    let n = spt_len(&map);
    let (k0, _) = spt_get_index(&map, 0);
    let mut best: usize = 0;
    let mut best_len: usize = k0.as_str().len();
    let mut i: usize = 1;
    while i < n
        invariant
            n == e.len(),
            e == spt_entries(map),
            1 <= i <= n,
            best < i,
            best_len == byte_len(e[best as int].0),
            forall|j: int| 0 <= j < i ==> byte_len(#[trigger] e[j].0) <= byte_len(e[best as int].0),
            forall|j: int| best < j < i ==> byte_len(#[trigger] e[j].0) < byte_len(e[best as int].0),
        decreases n - i,
    {
        let (k, _) = spt_get_index(&map, i);
        let l = k.as_str().len();
        if l >= best_len {
            best = i;
            best_len = l;
        }
        i = i + 1;
    }
    let (k, _) = spt_get_index(&map, best);
    assert(is_last_longest(e, best as int));
    k.clone()
}

/// The name of the first shortpath whose path is `v`.
pub open spec fn spt_key_for_path(e: SpEntries, v: Seq<char>) -> Option<Seq<char>>
    decreases e.len(),
{
    if e.len() == 0 {
        None
    } else if spt_path(e[0].1.path) == v {
        Some(e[0].0)
    } else {
        spt_key_for_path(e.drop_first(), v)
    }
}

/// The names of all shortpaths whose path is `v`, in order.
pub open spec fn spt_keys_for_path(e: SpEntries, v: Seq<char>) -> Seq<Seq<char>>
    decreases e.len(),
{
    if e.len() == 0 {
        Seq::empty()
    } else {
        (if spt_path(e[0].1.path) == v {
            seq![e[0].0]
        } else {
            Seq::empty()
        }) + spt_keys_for_path(e.drop_first(), v)
    }
}

fn find_keys<'a>(m: &'a SP, v: &str) -> (r: Vec<&'a String>)
    ensures
        refs_view(r@) == spt_keys_for_path(spt_entries(*m), v@),
{
    let ghost e = spt_entries(*m);
    let n = spt_len(m);
    let mut out: Vec<&'a String> = Vec::new();
    let mut i: usize = 0;
    assert(e.skip(0) =~= e);
    while i < n
        invariant
            n == e.len(),
            e == spt_entries(*m),
            i <= n,
            refs_view(out@) + spt_keys_for_path(e.skip(i as int), v@) == spt_keys_for_path(e, v@),
        decreases n - i,
    {
        let (key, val) = spt_get_index(m, i);
        assert(e.skip(i as int)[0] == e[i as int]);
        assert(e.skip(i as int).drop_first() =~= e.skip(i + 1));
        let ghost prev = refs_view(out@);
        if str_eq(val.path().as_str(), v) {
            out.push(key);
            assert(refs_view(out@) =~= prev + seq![key@]);
        }
        assert(refs_view(out@) + spt_keys_for_path(e.skip(i + 1), v@) =~= prev
            + spt_keys_for_path(e.skip(i as int), v@));
        i = i + 1;
    }
    assert(e.skip(n as int) =~= Seq::<(Seq<char>, SpView)>::empty());
    assert(refs_view(out@) + Seq::<Seq<char>>::empty() =~= refs_view(out@));
    out
}

fn find_key<'a>(m: &'a SP, v: &str) -> (r: Option<&'a String>)
    ensures
        opt_ref_view(r) == spt_key_for_path(spt_entries(*m), v@),
{
    let ghost e = spt_entries(*m);
    let n = spt_len(m);
    let mut i: usize = 0;
    assert(e.skip(0) =~= e);
    while i < n
        invariant
            n == e.len(),
            e == spt_entries(*m),
            i <= n,
            spt_key_for_path(e, v@) == spt_key_for_path(e.skip(i as int), v@),
        decreases n - i,
    {
        let (key, val) = spt_get_index(m, i);
        assert(e.skip(i as int)[0] == e[i as int]);
        assert(e.skip(i as int).drop_first() =~= e.skip(i + 1));
        if str_eq(val.path().as_str(), v) {
            return Some(key);
        }
        i = i + 1;
    }
    None
}

/// Looking up the names of typed shortpaths by their paths.
pub trait FindKeyIndexMapExt<'a, K, V> {
    /// Get keys from value of IndexMap
    fn find_keys_for_value(&'a self, value: V) -> Vec<&'a K>;

    /// Get key from value of IndexMap
    fn find_key_for_value(&'a self, value: V) -> Option<&'a K>;
}

impl<'a, 'b> FindKeyIndexMapExt<'a, String, &'b str> for IndexMap<String, Shortpath> {
    fn find_keys_for_value(&'a self, value: &'b str) -> (r: Vec<&'a String>)
        ensures
            refs_view(r@) == spt_keys_for_path(spt_entries(*self), value@),
    {
        find_keys(self, value)
    }

    fn find_key_for_value(&'a self, value: &'b str) -> (r: Option<&'a String>)
        ensures
            opt_ref_view(r) == spt_key_for_path(spt_entries(*self), value@),
    {
        find_key(self, value)
    }
}

impl<'a> FindKeyIndexMapExt<'a, String, String> for IndexMap<String, Shortpath> {
    fn find_keys_for_value(&'a self, value: String) -> (r: Vec<&'a String>)
        ensures
            refs_view(r@) == spt_keys_for_path(spt_entries(*self), value@),
    {
        find_keys(self, value.as_str())
    }

    fn find_key_for_value(&'a self, value: String) -> (r: Option<&'a String>)
        ensures
            opt_ref_view(r) == spt_key_for_path(spt_entries(*self), value@),
    {
        find_key(self, value.as_str())
    }
}

pub open spec fn sps_view(v: Seq<Shortpath>) -> Seq<SpView> {
    v.map_values(|s: Shortpath| s@)
}

/// The entries after inserting the shortpaths `sps[i..]` by name, in order.
pub open spec fn insert_all(e: SpEntries, sps: Seq<SpView>, i: int) -> SpEntries
    decreases sps.len() - i,
{
    if i < 0 || i >= sps.len() {
        e
    } else {
        insert_all(entries_insert(e, spt_name(sps[i].path), sps[i]), sps, i + 1)
    }
}

/// A typed shortpath with its dependencies found (unless it had them) and
/// its full path expanded from them.
pub open spec fn populated_sp(s: SpView) -> SpView {
    let d = if s.deps is Some {
        s
    } else {
        SpView { deps: Some(deps_of_comps(path_comps(spt_path(s.path)))), ..s }
    };
    SpView { full_path: Some(sp_expanded(d)), ..d }
}

/// Gathers typed shortpaths before building.
pub struct ShortpathsBuilder {
    pub paths: Option<SP>,
}

impl ShortpathsBuilder {
    pub fn new(sps: Vec<Shortpath>) -> (r: ShortpathsBuilder)
        ensures
            r.paths is Some,
            spt_wf(r.paths.unwrap()),
            spt_entries(r.paths.unwrap()) == insert_all(
                Seq::<(Seq<char>, SpView)>::empty(),
                sps_view(sps@),
                0,
            ),
    {
        let im = ShortpathsBuilder::from_vec(sps);
        ShortpathsBuilder { paths: Some(im) }
    }

    /// The shortpaths by name, in order; a repeated name keeps its first
    /// place and takes the later shortpath.
    pub fn from_vec(sps: Vec<Shortpath>) -> (r: SP)
        ensures
            spt_wf(r),
            spt_entries(r) == insert_all(Seq::<(Seq<char>, SpView)>::empty(), sps_view(sps@), 0),
    {
        let ghost sv = sps_view(sps@);
        let mut im = spt_new();
        let mut sps = sps;
        let ghost all = sps@;
        let mut rest: Vec<Shortpath> = Vec::new();
        // take the shortpaths out from the back, then insert them in order
        while sps.len() > 0
            invariant
                sps_view(sps@) + sps_view(rest@).reverse() == sv,
                sv == sps_view(all),
            decreases sps@.len(),
        {
            let ghost before_sps = sps_view(sps@);
            let ghost before_rest = sps_view(rest@);
            let last = sps.pop().unwrap();
            rest.push(last);
            assert(sps_view(sps@) =~= before_sps.drop_last());
            assert(sps_view(rest@) =~= before_rest.push(last@));
            assert(sps_view(rest@).reverse() =~= seq![last@] + before_rest.reverse());
            assert(sps_view(sps@) + sps_view(rest@).reverse() =~= before_sps + before_rest.reverse());
        }
        assert(sps_view(rest@).reverse() =~= sv);
        let n = rest.len();
        let mut i: usize = 0;
        while rest.len() > 0
            invariant
                n == sv.len(),
                i + rest@.len() == n,
                sps_view(rest@).reverse() =~= sv.skip(i as int),
                spt_wf(im),
                insert_all(spt_entries(im), sv, i as int) == insert_all(
                    Seq::<(Seq<char>, SpView)>::empty(),
                    sv,
                    0,
                ),
            decreases rest@.len(),
        {
            let ghost before_rest = sps_view(rest@);
            let sp = rest.pop().unwrap();
            assert(sps_view(rest@) =~= before_rest.drop_last());
            assert(sv.skip(i as int)[0] == sp@) by {
                assert(before_rest.reverse()[0] == before_rest.last());
            }
            assert(sps_view(rest@).reverse() =~= sv.skip(i + 1)) by {
                assert(sv.skip(i as int).drop_first() =~= sv.skip(i + 1));
                assert(before_rest.reverse().drop_first() =~= before_rest.drop_last().reverse());
            }
            assert(sv[i as int] == sp@);
            let name = sp.name().clone();
            spt_insert(&mut im, name, sp);
            i = i + 1;
        }
        im
    }

    /// Finds each shortpath's dependencies and full path, keeps the result,
    /// and returns a copy of it; nothing when there are no shortpaths.
    pub fn build(&mut self) -> (r: Option<SP>)
        requires
            old(self).paths matches Some(p) ==> spt_wf(p),
        ensures
            old(self).paths is None ==> r is None && final(self).paths is None,
            old(self).paths matches Some(p) ==> r matches Some(m) && final(self).paths matches Some(
                k,
            ) && spt_entries(k) == spt_entries(m) && spt_wf(m) && spt_entries(m) == spt_entries(
                p,
            ).map_values(|x: (Seq<char>, SpView)| (x.0, populated_sp(x.1))),
    {
        match &self.paths {
            None => None,
            Some(shortpaths) => {
                let ghost e = spt_entries(*shortpaths);
                let ghost target = e.map_values(|x: (Seq<char>, SpView)| (x.0, populated_sp(x.1)));
                assert(keys_unique(target)) by {
                    assert forall|a: int, b: int|
                        0 <= a < target.len() && 0 <= b < target.len() && a != b implies
                        #[trigger] target[a].0 != #[trigger] target[b].0 by {
                        assert(target[a].0 == e[a].0);
                        assert(target[b].0 == e[b].0);
                    }
                }
                let n = spt_len(shortpaths);
                let mut out = spt_new();
                let mut i: usize = 0;
                while i < n
                    invariant
                        n == e.len(),
                        e == spt_entries(*shortpaths),
                        target == e.map_values(
                            |x: (Seq<char>, SpView)| (x.0, populated_sp(x.1)),
                        ),
                        keys_unique(target),
                        i <= n,
                        spt_wf(out),
                        spt_entries(out) == target.take(i as int),
                    decreases n - i,
                {
                    let (name, sp) = spt_get_index(shortpaths, i);
                    let mut s = sp.clone();
                    sp_pop_deps(&mut s);
                    sp_pop_full_path(&mut s);
                    proof {
                        assert(target[i as int] == (name@, populated_sp(e[i as int].1)));
                        assert(s@ == populated_sp(e[i as int].1));
                        let t1 = target.take(i + 1);
                        assert(t1 =~= target.take(i as int).push((name@, s@)));
                        assert(keys_unique(t1)) by {
                            assert forall|a: int, b: int|
                                0 <= a < t1.len() && 0 <= b < t1.len() && a != b implies
                                #[trigger] t1[a].0 != #[trigger] t1[b].0 by {
                                assert(t1[a] == target[a]);
                                assert(t1[b] == target[b]);
                            }
                        }
                        crate::shortpaths::lemma_insert_fresh(target.take(i as int), name@, s@);
                    }
                    spt_insert(&mut out, name.clone(), s);
                    i = i + 1;
                }
                assert(target.take(n as int) =~= target);
                let copy = spt_clone(&out);
                self.paths = Some(out);
                Some(copy)
            },
        }
    }
}

/// The kind a path is given when it is saved under `name`: the kind that
/// [`parse_alias`] finds for the whole path (environment or alias), or else a
/// plain path; always named `name`, with the path as given.
pub open spec fn saved_type(name: Seq<char>, path: Seq<char>) -> SptView {
    match parsed_alias(path) {
        Some(SptView::EnvPath(_, _)) => SptView::EnvPath(name, path),
        Some(SptView::AliasPath(_, _)) => SptView::AliasPath(name, path),
        _ => SptView::Path(name, path),
    }
}

fn saved_shortpath(name: &String, path: String) -> (r: Shortpath)
    ensures
        r@ == (SpView { path: saved_type(name@, path@), full_path: None, deps: None }),
{
    let chars = to_str_slice(path.as_str());
    let spt = match parse_alias(chars.as_slice()) {
        Some(ShortpathType::EnvPath(_, _)) => ShortpathType::EnvPath(name.clone(), path),
        Some(ShortpathType::AliasPath(_, _)) => ShortpathType::AliasPath(name.clone(), path),
        _ => ShortpathType::Path(name.clone(), path),
    };
    Shortpath::new(spt, None, None)
}

/// Saves `path` under `name`, typed by [`saved_type`].
pub fn add_shortpath(shortpaths: &mut SP, name: String, path: String)
    requires
        spt_wf(*old(shortpaths)),
    ensures
        spt_wf(*final(shortpaths)),
        spt_entries(*final(shortpaths)) == entries_insert(
            spt_entries(*old(shortpaths)),
            name@,
            SpView { path: saved_type(name@, path@), full_path: None, deps: None },
        ),
{
    let shortpath = saved_shortpath(&name, path);
    spt_insert(shortpaths, name, shortpath);
}

/// Removes the shortpath `current_name` (the entries after it keep their order).
pub fn remove_shortpath(shortpaths: &mut SP, current_name: &str) -> (r: Option<Shortpath>)
    requires
        spt_wf(*old(shortpaths)),
    ensures
        spt_wf(*final(shortpaths)),
        spt_entries(*final(shortpaths)) == entries_shift_remove(
            spt_entries(*old(shortpaths)),
            current_name@,
        ),
        match r {
            Some(o) => lookup(spt_entries(*old(shortpaths)), current_name@) == Some(o@),
            None => lookup(spt_entries(*old(shortpaths)), current_name@) is None,
        },
{
    spt_remove(shortpaths, current_name)
}

/** Update a single shortpath's alias name or path: a new path replaces the
  * shortpath under `current_name`; otherwise a new name renames it, in its
  * place (see [`entries_rename`]). */
pub fn update_shortpath(
    shortpaths: &mut SP,
    current_name: &str,
    name: Option<&String>,
    path: Option<&String>,
)
    requires
        spt_wf(*old(shortpaths)),
        path is None && name is Some ==> has_key(spt_entries(*old(shortpaths)), current_name@),
    ensures
        spt_wf(*final(shortpaths)),
        path is Some ==> spt_entries(*final(shortpaths)) == entries_insert(
            spt_entries(*old(shortpaths)),
            current_name@,
            SpView {
                path: saved_type(current_name@, path.unwrap()@),
                full_path: None,
                deps: None,
            },
        ),
        path is None && name is Some ==> spt_entries(*final(shortpaths)) == entries_rename(
            spt_entries(*old(shortpaths)),
            current_name@,
            name.unwrap()@,
        ),
        path is None && name is None ==> spt_entries(*final(shortpaths)) == spt_entries(
            *old(shortpaths),
        ),
{
    if let Some(new_path) = path {
        let current = copy_str(current_name);
        let shortpath = saved_shortpath(&current, new_path.clone());
        spt_insert(shortpaths, current, shortpath);
    } else if let Some(new_name) = name {
        let ghost e = spt_entries(*shortpaths);
        let i = match spt_get_index_of(shortpaths, current_name) {
            Some(i) => i,
            None => {
                assert(false);
                return;
            },
        };
        proof {
            lemma_key_index_unique(e, current_name@, i as int);
        }
        let ghost v = e[i as int].1;
        if spt_replace_key(shortpaths, i, new_name.clone()) {
            assert(new_name@ == current_name@ || !has_key(e, new_name@)) by {
                if has_key(e, new_name@) && new_name@ != current_name@ {
                    assert(e[i as int].0 == current_name@);
                }
            }
            return;
        }
        let sp = match spt_remove(shortpaths, current_name) {
            Some(sp) => sp,
            None => {
                assert(false);
                return;
            },
        };
        assert(sp@ == v);
        spt_insert(shortpaths, new_name.clone(), sp);
    }
}

/// The typed shortpaths whose path is not on disk, as `exists` tells for
/// each entry in order.
pub open spec fn spt_unreachable(e: SpEntries, exists: Seq<bool>) -> SpEntries
    decreases e.len(),
{
    if e.len() == 0 {
        Seq::empty()
    } else {
        let last = e.len() - 1;
        let before = spt_unreachable(e.drop_last(), exists.take(last));
        if !exists[last] {
            before.push(e[last])
        } else {
            before
        }
    }
}

proof fn lemma_spt_unreachable_sub(e: SpEntries, exists: Seq<bool>, a: int)
    requires
        0 <= a < spt_unreachable(e, exists).len(),
    ensures
        exists|j: int| 0 <= j < e.len() && e[j] == spt_unreachable(e, exists)[a],
    decreases e.len(),
{
    let last = e.len() - 1;
    let before = spt_unreachable(e.drop_last(), exists.take(last));
    if a < before.len() {
        lemma_spt_unreachable_sub(e.drop_last(), exists.take(last), a);
        let j = choose|j: int| 0 <= j < e.drop_last().len() && e.drop_last()[j] == before[a];
        assert(e[j] == e.drop_last()[j]);
    } else {
        assert(e[last] == spt_unreachable(e, exists)[a]);
    }
}

/// The typed shortpaths whose path, as `exists` tells for each entry in
/// order, is not on disk.
pub fn find_unreachable(shortpaths: &SP, exists: &[bool]) -> (r: SP)
    requires
        spt_wf(*shortpaths),
        exists@.len() == spt_entries(*shortpaths).len(),
    ensures
        spt_wf(r),
        spt_entries(r) == spt_unreachable(spt_entries(*shortpaths), exists@),
{
    let ghost e = spt_entries(*shortpaths);
    let n = spt_len(shortpaths);
    let mut out = spt_new();
    let mut i: usize = 0;
    while i < n
        invariant
            n == e.len(),
            e == spt_entries(*shortpaths),
            keys_unique(e),
            exists@.len() == n,
            i <= n,
            spt_wf(out),
            spt_entries(out) == spt_unreachable(e.take(i as int), exists@.take(i as int)),
        decreases n - i,
    {
        let (name, sp) = spt_get_index(shortpaths, i);
        let ghost prev = spt_entries(out);
        proof {
            assert(e.take(i + 1).drop_last() =~= e.take(i as int));
            assert(exists@.take(i + 1).take(i as int) =~= exists@.take(i as int));
            assert(e.take(i + 1)[i as int] == e[i as int]);
            assert(exists@.take(i + 1)[i as int] == exists@[i as int]);
        }
        if !exists[i] {
            proof {
                assert(!has_key(prev, name@)) by {
                    if has_key(prev, name@) {
                        let a = choose|a: int| 0 <= a < prev.len() && prev[a].0 == name@;
                        lemma_spt_unreachable_sub(e.take(i as int), exists@.take(i as int), a);
                        let j = choose|j: int|
                            0 <= j < e.take(i as int).len() && e.take(i as int)[j] == prev[a];
                        assert(e[j] == e.take(i as int)[j]);
                    }
                }
            }
            spt_insert(&mut out, name.clone(), sp.clone());
        }
        i = i + 1;
    }
    assert(e.take(n as int) =~= e);
    assert(exists@.take(n as int) =~= exists@);
    out
}

// ---------------------------------------------------------------------------
// Looking for a moved file

/// The paths of the files in a directory listing (file name, path) that are
/// named `file_name`, in order.
pub fn find_by_matching_path(file_name: &str, dir: &[(String, String)]) -> (r: SearchResults)
    ensures
        strs_view(r@) == entries_named(file_name@, entries_view(dir@)),
{
    let ghost dv = entries_view(dir@);
    let mut out: SearchResults = Vec::new();
    let mut i: usize = 0;
    while i < dir.len()
        invariant
            dv == entries_view(dir@),
            i <= dir@.len(),
            strs_view(out@) == entries_named(file_name@, dv.take(i as int)),
        decreases dir@.len() - i,
    {
        let ghost prev = strs_view(out@);
        assert(dv.take(i + 1).drop_last() =~= dv.take(i as int));
        assert(dv.take(i + 1).last() == (dir@[i as int].0@, dir@[i as int].1@));
        if str_eq(dir[i].0.as_str(), file_name) {
            out.push(dir[i].1.clone());
            assert(strs_view(out@) =~= prev + seq![dir@[i as int].1@]);
        } else {
            assert(strs_view(out@) =~= prev + Seq::<Seq<char>>::empty());
        }
        i = i + 1;
    }
    assert(dv.take(dir@.len() as int) =~= dv);
    out
}

pub open spec fn listings_view(ls: Seq<Vec<(String, String)>>) -> Seq<Seq<(Seq<char>, Seq<char>)>> {
    ls.map_values(|l: Vec<(String, String)>| entries_view(l@))
}

/// The files named `name` in the first listing that has any, if one does.
pub open spec fn first_matches(name: Seq<char>, ls: Seq<Seq<(Seq<char>, Seq<char>)>>) -> Option<
    Seq<Seq<char>>,
>
    decreases ls.len(),
{
    if ls.len() == 0 {
        None
    } else if entries_named(name, ls[0]).len() > 0 {
        Some(entries_named(name, ls[0]))
    } else {
        first_matches(name, ls.drop_first())
    }
}

/// Looks for the shortpath's file in the listings of the directories above
/// its path, nearest first: the files with its file name in the first
/// directory that has any.
pub fn find_paths(sp: &Shortpath, parent_listings: &[Vec<(String, String)>]) -> (r: Option<SearchResults>)
    requires
        file_name_of(spt_path(sp.path@)) is Some,
    ensures
        match r {
            Some(v) => first_matches(file_name_of(spt_path(sp.path@)).unwrap(), listings_view(parent_listings@))
                == Some(strs_view(v@)),
            None => first_matches(file_name_of(spt_path(sp.path@)).unwrap(), listings_view(parent_listings@)) is None,
        },
{
    let search_term = match file_name(sp.path().as_str()) {
        Some(t) => t,
        None => {
            assert(false);
            return None;
        },
    };
    let ghost lv = listings_view(parent_listings@);
    let mut i: usize = 0;
    assert(lv.skip(0) =~= lv);
    while i < parent_listings.len()
        invariant
            lv == listings_view(parent_listings@),
            search_term@ == file_name_of(spt_path(sp.path@)).unwrap(),
            i <= parent_listings@.len(),
            first_matches(search_term@, lv) == first_matches(search_term@, lv.skip(i as int)),
        decreases parent_listings@.len() - i,
    {
        assert(lv.skip(i as int)[0] == lv[i as int]);
        assert(lv.skip(i as int).drop_first() =~= lv.skip(i + 1));
        let files = find_by_matching_path(search_term.as_str(), parent_listings[i].as_slice());
        if files.len() > 0 {
            return Some(files);
        }
        i = i + 1;
    }
    assert(lv.skip(i as int) =~= Seq::<Seq<(Seq<char>, Seq<char>)>>::empty());
    None
}

/// The listings of the directories above each shortpath, as values.
pub open spec fn all_listings_view(v: Seq<Vec<Vec<(String, String)>>>) -> Seq<
    Seq<Seq<(Seq<char>, Seq<char>)>>,
> {
    v.map_values(|l: Vec<Vec<(String, String)>>| listings_view(l@))
}

/// The updates (name, current path, new path) that resolving proposes, in
/// order: for each shortpath whose file turns up above it, its name with the
/// first file found (automatically) or with its own path (by hand, which
/// keeps it).
pub open spec fn sp_resolve_updates(
    e: SpEntries,
    ls: Seq<Seq<Seq<(Seq<char>, Seq<char>)>>>,
    automode: bool,
) -> Seq<(Seq<char>, Seq<char>, Seq<char>)>
    decreases e.len(),
{
    if e.len() == 0 {
        Seq::empty()
    } else {
        let last = e.len() - 1;
        let before = sp_resolve_updates(e.drop_last(), ls.take(last), automode);
        let t = e[last].1.path;
        match first_matches(file_name_of(spt_path(t)).unwrap(), ls[last]) {
            Some(v) => before.push(
                (spt_name(t), spt_path(t), if automode { v[0] } else { spt_path(t) }),
            ),
            None => before,
        }
    }
}

/// The map after saving each update's new path under its name, in order.
pub open spec fn sp_apply_updates(e: SpEntries, ups: Seq<(Seq<char>, Seq<char>, Seq<char>)>, i: int) -> SpEntries
    decreases ups.len() - i,
{
    if i < 0 || i >= ups.len() {
        e
    } else {
        sp_apply_updates(
            entries_insert(
                e,
                ups[i].0,
                SpView { path: saved_type(ups[i].0, ups[i].2), full_path: None, deps: None },
            ),
            ups,
            i + 1,
        )
    }
}

proof fn lemma_first_matches_nonempty(name: Seq<char>, ls: Seq<Seq<(Seq<char>, Seq<char>)>>)
    ensures
        first_matches(name, ls) matches Some(v) ==> v.len() > 0,
    decreases ls.len(),
{
    if ls.len() > 0 && entries_named(name, ls[0]).len() == 0 {
        lemma_first_matches_nonempty(name, ls.drop_first());
    }
}

/** Fix unreachable or broken paths: each shortpath whose file is found in
  * a directory above it (`parent_listings[i]` lists those directories for
  * entry `i`, nearest first) is saved again under its name, with the first
  * file found when `automode`, or with its own path otherwise.  Only
  * matching by file name exists, whatever `resolve_type` says.  Returns the
  * updates made (name, previous path, new path), in order. */
pub fn resolve(
    shortpaths: &mut SP,
    resolve_type: &str,
    automode: bool,
    parent_listings: &Vec<Vec<Vec<(String, String)>>>,
) -> (r: Vec<(String, String, String)>)
    requires
        spt_wf(*old(shortpaths)),
        parent_listings@.len() == spt_entries(*old(shortpaths)).len(),
        forall|i: int|
            0 <= i < spt_entries(*old(shortpaths)).len() ==> file_name_of(
                spt_path(#[trigger] spt_entries(*old(shortpaths))[i].1.path),
            ) is Some,
    ensures
        spt_wf(*final(shortpaths)),
        triples_view(r@) == sp_resolve_updates(
            spt_entries(*old(shortpaths)),
            all_listings_view(parent_listings@),
            automode,
        ),
        spt_entries(*final(shortpaths)) == sp_apply_updates(spt_entries(*old(shortpaths)), triples_view(r@), 0),
{
    let ghost e = spt_entries(*shortpaths);
    let ghost lv = all_listings_view(parent_listings@);
    let n = spt_len(shortpaths);
    let mut updates: Vec<(String, String, String)> = Vec::new();
    let mut i: usize = 0;
    while i < n
        invariant
            n == e.len(),
            e == spt_entries(*shortpaths),
            lv == all_listings_view(parent_listings@),
            parent_listings@.len() == n,
            forall|k: int| 0 <= k < e.len() ==> file_name_of(spt_path(#[trigger] e[k].1.path)) is Some,
            i <= n,
            triples_view(updates@) == sp_resolve_updates(e.take(i as int), lv.take(i as int), automode),
        decreases n - i,
    {
        let (_, sp) = spt_get_index(shortpaths, i);
        proof {
            assert(e.take(i + 1).drop_last() =~= e.take(i as int));
            assert(lv.take(i + 1).take(i as int) =~= lv.take(i as int));
            assert(e.take(i + 1)[i as int] == e[i as int]);
            assert(lv.take(i + 1)[i as int] == lv[i as int]);
            assert(lv[i as int] == listings_view(parent_listings@[i as int]@));
            assert(file_name_of(spt_path(e[i as int].1.path)) is Some);
        }
        let ghost prev = triples_view(updates@);
        match find_paths(sp, parent_listings[i].as_slice()) {
            Some(results) => {
                proof {
                    lemma_first_matches_nonempty(
                        file_name_of(spt_path(sp.path@)).unwrap(),
                        listings_view(parent_listings@[i as int]@),
                    );
                }
                let current = sp.path().clone();
                let path = if automode {
                    results[0].clone()
                } else {
                    current.clone()
                };
                let name = sp.name().clone();
                updates.push((name, current, path));
                assert(triples_view(updates@) =~= prev.push((name@, current@, path@)));
            },
            None => {},
        }
        i = i + 1;
    }
    assert(e.take(n as int) =~= e);
    assert(lv.take(n as int) =~= lv);
    let ghost all = triples_view(updates@);
    let mut j: usize = 0;
    while j < updates.len()
        invariant
            all == triples_view(updates@),
            j <= all.len(),
            spt_wf(*shortpaths),
            sp_apply_updates(spt_entries(*shortpaths), all, j as int) == sp_apply_updates(e, all, 0),
        decreases all.len() - j,
    {
        let (name, _, path) = &updates[j];
        assert(all[j as int] == (name@, updates@[j as int].1@, path@));
        update_shortpath(shortpaths, name.as_str(), None, Some(path));
        j = j + 1;
    }
    updates
}


/// Expanding with one more dependency after the others expands with the
/// others, then writes every `$name` of that dependency as its path: every
/// dependency in the list is applied, in order.
pub proof fn lemma_expand_with_deps_push(path: Seq<char>, deps: Seq<SptView>, d: SptView)
    ensures
        expand_with_deps(path, deps.push(d)) == replace_all(
            expand_with_deps(path, deps),
            alias_ref(spt_name(d)),
            spt_path(d),
        ),
    decreases deps.len(),
{
    if deps.len() == 0 {
        assert(deps.push(d).drop_first() =~= deps);
        assert(deps.push(d)[0] == d);
        let next0 = replace_all(path, alias_ref(spt_name(d)), spt_path(d));
        assert(expand_with_deps(path, deps.push(d)) == expand_with_deps(next0, deps.push(d).drop_first()));
        assert(expand_with_deps(next0, deps) == next0);
        assert(expand_with_deps(path, deps) == path);
    } else {
        let next = replace_all(path, alias_ref(spt_name(deps[0])), spt_path(deps[0]));
        assert(deps.push(d)[0] == deps[0]);
        assert(deps.push(d).drop_first() =~= deps.drop_first().push(d));
        assert(expand_with_deps(path, deps.push(d)) == expand_with_deps(next, deps.push(d).drop_first()));
        assert(expand_with_deps(path, deps) == expand_with_deps(next, deps.drop_first()));
        lemma_expand_with_deps_push(
            replace_all(path, alias_ref(spt_name(deps[0])), spt_path(deps[0])),
            deps.drop_first(),
            d,
        );
    }
}

} // verus!
