//! Building the shortpaths that the program works on: full paths expanded
//! from aliases and `~`, sorted by full path; and preparing them to be saved:
//! environment values folded back into `${env:NAME}`, and the configuration
//! text aligned on its `=` signs.

use vstd::prelude::*;
use crate::config::Config;
use crate::env::{EnvVars, EP, ep_entries, ep_len, ep_get_index, ep_wf, EnvEntries};
use crate::helpers::{
    byte_len, is_last_longest, find_longest_keyname, tab_align, tab_aligned, tilde_expansion, spaces,
    home_dir, expand_tilde_with_home,
};
use crate::shortpaths::{
    SP, Shortpath, ShortpathView, Entries, sp_entries, sp_wf, sp_new, sp_len, sp_get_index, sp_insert,
    sp_clone, keys_unique, has_key, lemma_insert_fresh, expandable, expanded_path, expand_shortpath,
    all_full, stable_sorted_by, sp_sort_by_full_path, opt_view, env_ref, entries_insert,
};
use crate::strings::{
    contains_seq, replace_all, to_str_slice, chars_to_string, push_all, find_first, slice_chars,
    first_occurrence, split_on, contains_chars, replace_chars, copy_str, lemma_first_occurrence_bounds,
};

verus! {

/// The shortpaths, the environment variables beside them, and where they are
/// stored.
#[derive(Debug)]
pub struct Shortpaths {
    pub shortpaths: SP,
    pub env_vars: Option<EnvVars>,
    pub cfg: Option<Config>,
}

/// Gathers the shortpaths and their configuration before building.
#[derive(Debug)]
pub struct ShortpathsBuilder {
    pub paths: Option<Shortpaths>,
    pub cfg: Option<Config>,
}

// ---------------------------------------------------------------------------
// Aligning the configuration text

/// One line of the configuration text, aligned: a `key = value` line gets its
/// key padded to `width`; every line ends with a newline.
pub open spec fn align_line(line: Seq<char>, width: int) -> Seq<char> {
    match first_occurrence(line, " = "@) {
        Some(k) => tab_aligned(line.take(k), width, Some(" = "@)) + line.skip(k + 3) + seq!['\n'],
        None => line + seq!['\n'],
    }
}

/// The lines aligned and joined.
pub open spec fn align_lines(lines: Seq<Seq<char>>, width: int) -> Seq<char>
    decreases lines.len(),
{
    if lines.len() == 0 {
        Seq::empty()
    } else {
        align_line(lines[0], width) + align_lines(lines.drop_first(), width)
    }
}

/// The configuration text with every `key = value` line aligned to `width`,
/// without a newline after the last line.
pub open spec fn aligned_text(conts: Seq<char>, width: int) -> Seq<char> {
    align_lines(split_on(conts, '\n'), width).drop_last()
}

fn align_one(line: &Vec<char>, width: usize, delim: &Vec<char>) -> (r: Vec<char>)
    requires
        delim@ == " = "@,
    ensures
        r@ == align_line(line@, width as int),
{
    proof {
        reveal_strlit(" = ");
    }
    match find_first(line, delim) {
        Some(k) => {
            let key = slice_chars(line, 0, k);
            let rest = slice_chars(line, k + 3, line.len());
            let key_s = chars_to_string(&key);
            let aligned = tab_align(key_s.as_str(), width, Some(" = "));
            let mut out = to_str_slice(aligned.as_str());
            push_all(&mut out, &rest);
            out.push('\n');
            assert(key@ =~= line@.take(k as int));
            assert(rest@ =~= line@.skip(k + 3));
            out
        },
        None => {
            let mut out = slice_chars(line, 0, line.len());
            assert(out@ =~= line@);
            out.push('\n');
            out
        },
    }
}

proof fn lemma_align_lines_nonempty_end(lines: Seq<Seq<char>>, width: int)
    requires
        lines.len() > 0,
    ensures
        align_lines(lines, width).len() > 0,
        align_lines(lines, width).last() == '\n',
    decreases lines.len(),
{
    let first = align_line(lines[0], width);
    assert(first.len() > 0 && first.last() == '\n');
    let rest = align_lines(lines.drop_first(), width);
    if lines.len() > 1 {
        lemma_align_lines_nonempty_end(lines.drop_first(), width);
        assert((first + rest).last() == rest.last());
    } else {
        assert(rest == Seq::<char>::empty());
        assert(first + rest =~= first);
    }
}

proof fn lemma_split_nonempty(s: Seq<char>, c: char)
    ensures
        split_on(s, c).len() > 0,
    decreases s.len(),
{
}

proof fn lemma_spaces(n: int)
    ensures
        spaces(n).len() == (if n <= 0 { 0 } else { n }),
        forall|i: int| 0 <= i < spaces(n).len() ==> spaces(n)[i] == ' ',
    decreases n,
{
    if n > 0 {
        lemma_spaces(n - 1);
    }
}

/// In an aligned `key = value` line, the key is padded with spaces to
/// `width` characters (longer keys are kept whole), then ` = ` follows, then
/// the value and a newline; taking the padding out gives back the line and
/// its newline.
pub proof fn lemma_align_line_delimiter(line: Seq<char>, width: int)
    requires
        first_occurrence(line, " = "@) is Some,
    ensures
        ({
            let k = first_occurrence(line, " = "@).unwrap();
            let at = if k < width { width } else { k };
            let out = align_line(line, width);
            &&& out.take(k) == line.take(k)
            &&& forall|i: int| k <= i < at ==> out[i] == ' '
            &&& out.subrange(at, at + 3) == " = "@
            &&& out.skip(at + 3) == line.skip(k + 3) + seq!['\n']
            &&& out.take(k) + out.skip(at) == line + seq!['\n']
        }),
{
    reveal_strlit(" = ");
    let k = first_occurrence(line, " = "@).unwrap();
    lemma_first_occurrence_bounds(line, " = "@);
    let key = line.take(k);
    let pad = spaces(width - k);
    lemma_spaces(width - k);
    let at = if k < width { width } else { k };
    let out = align_line(line, width);
    assert(out == key + pad + " = "@ + line.skip(k + 3) + seq!['\n']);
    assert(key.len() == k);
    assert(pad.len() == at - k);
    assert(out.take(k) =~= key);
    assert forall|i: int| k <= i < at implies out[i] == ' ' by {
        assert(out[i] == pad[i - k]);
    }
    assert(out.subrange(at, at + 3) =~= " = "@);
    assert(out.skip(at + 3) =~= line.skip(k + 3) + seq!['\n']);
    assert(out.skip(at) =~= " = "@ + line.skip(k + 3) + seq!['\n']);
    assert(line.subrange(k, k + 3) == " = "@);
    assert(line =~= key + line.subrange(k, k + 3) + line.skip(k + 3));
    assert(out.take(k) + out.skip(at) =~= line + seq!['\n']);
}

/// The configuration text `conts` with every `key = value` line aligned to
/// `width` (the lines are split on newlines, and no newline follows the last).
pub fn align_config_text(conts: &str, width: usize) -> (r: String)
    ensures
        r@ == aligned_text(conts@, width as int),
{
    let s = to_str_slice(conts);
    let mut nl: Vec<char> = Vec::new();
    nl.push('\n');
    let delim = to_str_slice(" = ");
    let ghost total = align_lines(split_on(s@, '\n'), width as int);
    let mut out: Vec<char> = Vec::new();
    let mut rest = slice_chars(&s, 0, s.len());
    assert(rest@ =~= s@);
    loop
        invariant_except_break
            out@ + align_lines(split_on(rest@, '\n'), width as int) == total,
        invariant
            nl@ == seq!['\n'],
            delim@ == " = "@,
            total == align_lines(split_on(s@, '\n'), width as int),
        ensures
            out@ == total,
        decreases rest@.len(),
    {
        match find_first(&rest, &nl) {
            Some(k) => {
                assert(nl@.len() == 1);
                let rl = rest.len();
                assert(k < rl);
                let line = slice_chars(&rest, 0, k);
                let aligned = align_one(&line, width, &delim);
                let ghost prev = out@;
                push_all(&mut out, &aligned);
                let next = slice_chars(&rest, k + 1, rl);
                proof {
                    assert(split_on(rest@, '\n') == seq![rest@.take(k as int)] + split_on(
                        rest@.skip(k + 1),
                        '\n',
                    ));
                    assert(line@ =~= rest@.take(k as int));
                    assert(next@ =~= rest@.skip(k + 1));
                    let ls = split_on(rest@, '\n');
                    assert(ls.drop_first() =~= split_on(next@, '\n'));
                }
                rest = next;
            },
            None => {
                let aligned = align_one(&rest, width, &delim);
                push_all(&mut out, &aligned);
                proof {
                    let ls = split_on(rest@, '\n');
                    assert(ls == seq![rest@]);
                    assert(ls.drop_first() =~= Seq::<Seq<char>>::empty());
                    assert(align_lines(ls.drop_first(), width as int) == Seq::<char>::empty());
                    assert(align_line(rest@, width as int) + Seq::<char>::empty() =~= align_line(
                        rest@,
                        width as int,
                    ));
                    assert(align_lines(ls, width as int) == align_line(rest@, width as int));
                }
                break;
            },
        }
    }
    proof {
        lemma_split_nonempty(s@, '\n');
        lemma_align_lines_nonempty_end(split_on(s@, '\n'), width as int);
    }
    assert(out@ == total);
    out.pop();
    chars_to_string(&out)
}

// ---------------------------------------------------------------------------
// Folding environment values

/// The path with each environment value that occurs in it (in the order of
/// `vars`, skipping empty values) written as `${env:NAME}`.
pub open spec fn fold_env_in(path: Seq<char>, vars: EnvEntries) -> Seq<char>
    decreases vars.len(),
{
    if vars.len() == 0 {
        path
    } else {
        let next = if vars[0].1.len() > 0 && contains_seq(path, vars[0].1) {
            replace_all(path, vars[0].1, env_ref(vars[0].0))
        } else {
            path
        };
        fold_env_in(next, vars.drop_first())
    }
}

/// A shortpath with environment values folded into its path.
pub open spec fn fold_env_entry(x: (Seq<char>, ShortpathView), vars: EnvEntries) -> (
    Seq<char>,
    ShortpathView,
) {
    (x.0, ShortpathView { path: fold_env_in(x.1.path, vars), full_path: x.1.full_path })
}

fn env_ref_chars(name: &str) -> (r: Vec<char>)
    ensures
        r@ == env_ref(name@),
{
    let mut v: Vec<char> = vec!['$', '{', 'e', 'n', 'v', ':'];
    push_all(&mut v, &to_str_slice(name));
    v.push('}');
    assert(v@ =~= env_ref(name@));
    v
}

fn fold_env_path(path: &String, vars: &EP) -> (r: String)
    ensures
        r@ == fold_env_in(path@, ep_entries(*vars)),
{
    let ghost e = ep_entries(*vars);
    let n = ep_len(vars);
    let mut out = to_str_slice(path.as_str());
    let mut i: usize = 0;
    assert(e.skip(0) =~= e);
    while i < n
        invariant
            n == e.len(),
            e == ep_entries(*vars),
            i <= n,
            fold_env_in(out@, e.skip(i as int)) == fold_env_in(path@, e),
        decreases n - i,
    {
        let (envname, envpath) = ep_get_index(vars, i);
        assert(e.skip(i as int)[0] == e[i as int]);
        assert(e.skip(i as int).drop_first() =~= e.skip(i + 1));
        let value = to_str_slice(envpath.as_str());
        if value.len() > 0 && contains_chars(&out, &value) {
            let with = env_ref_chars(envname.as_str());
            out = replace_chars(&out, &value, &with);
        }
        i = i + 1;
    }
    assert(e.skip(i as int) =~= Seq::<(Seq<char>, Seq<char>)>::empty());
    chars_to_string(&out)
}

/// Rebuilding a map entry by entry: inserting entry `i` of `target` into its
/// first `i` entries gives its first `i + 1` entries.
proof fn lemma_rebuild_step(target: Entries, i: int, name: Seq<char>, v: ShortpathView)
    requires
        keys_unique(target),
        0 <= i < target.len(),
        target[i] == (name, v),
    ensures
        entries_insert(target.take(i), name, v) == target.take(i + 1),
        keys_unique(target.take(i + 1)),
{
    let t1 = target.take(i + 1);
    assert(t1 =~= target.take(i).push((name, v)));
    assert(keys_unique(t1)) by {
        assert forall|a: int, b: int|
            0 <= a < t1.len() && 0 <= b < t1.len() && a != b implies #[trigger] t1[a].0
            != #[trigger] t1[b].0 by {
            assert(t1[a] == target[a]);
            assert(t1[b] == target[b]);
        }
    }
    lemma_insert_fresh(target.take(i), name, v);
}

/// Entries with the same names, in the same order, repeat no name either.
proof fn lemma_mapped_unique(e: Entries, target: Entries)
    requires
        keys_unique(e),
        target.len() == e.len(),
        forall|k: int| 0 <= k < e.len() ==> (#[trigger] target[k]).0 == e[k].0,
    ensures
        keys_unique(target),
{
    assert forall|a: int, b: int| 0 <= a < target.len() && 0 <= b < target.len() && a != b implies target[a].0
        != target[b].0 by {
        assert(target[a].0 == e[a].0);
        assert(target[b].0 == e[b].0);
    }
}

/// Horizontally aligning the configuration, and folding environment values.
pub trait ShortpathsAlignExt: Sized {
    spec fn has_paths(&self) -> bool;

    spec fn has_env_vars(&self) -> bool;

    /// Horizontally align shortpaths for the shortpaths config file, given
    /// the configuration text
    fn tab_align_paths(&self, conts: &str) -> String
        requires
            self.has_paths(),
    ;

    fn fold_env_paths(self) -> Shortpaths
        requires
            self.has_env_vars(),
    ;
}

impl ShortpathsAlignExt for Shortpaths {
    open spec fn has_paths(&self) -> bool {
        sp_entries(self.shortpaths).len() > 0
    }

    open spec fn has_env_vars(&self) -> bool {
        &&& self.env_vars is Some
        &&& sp_wf(self.shortpaths)
    }

    /// The configuration text aligned to the byte length of the longest
    /// name (of equally long names, the last).
    fn tab_align_paths(&self, conts: &str) -> (r: String)
        ensures
            exists|i: int|
                is_last_longest(sp_entries(self.shortpaths), i) && r@ == aligned_text(
                    conts@,
                    byte_len(sp_entries(self.shortpaths)[i].0) as int,
                ),
    {
        let key = find_longest_keyname(&self.shortpaths);
        let width = key.as_str().len();
        align_config_text(conts, width)
    }

    /// The shortpaths with every non-empty environment value that occurs in
    /// a path written as `${env:NAME}`.
    fn fold_env_paths(self) -> (r: Shortpaths)
        ensures
            sp_wf(r.shortpaths),
            sp_entries(r.shortpaths) == sp_entries(self.shortpaths).map_values(
                |x| fold_env_entry(x, ep_entries(self.env_vars.unwrap().vars)),
            ),
            r.env_vars == self.env_vars,
            r.cfg == self.cfg,
    {
        let Shortpaths { shortpaths, env_vars, cfg } = self;
        let evars = match env_vars {
            Some(v) => v,
            None => {
                assert(false);
                return Shortpaths { shortpaths, env_vars: None, cfg };
            },
        };
        let ghost e = sp_entries(shortpaths);
        let ghost vars = ep_entries(evars.vars);
        let ghost target = e.map_values(|x| fold_env_entry(x, vars));
        proof {
            lemma_mapped_unique(e, target);
        }
        let n = sp_len(&shortpaths);
        let mut out = sp_new();
        let mut i: usize = 0;
        while i < n
            invariant
                n == e.len(),
                e == sp_entries(shortpaths),
                vars == ep_entries(evars.vars),
                target == e.map_values(|x| fold_env_entry(x, vars)),
                keys_unique(target),
                i <= n,
                sp_wf(out),
                sp_entries(out) == target.take(i as int),
            decreases n - i,
        {
            let (name, sp) = sp_get_index(&shortpaths, i);
            let path = fold_env_path(&sp.path, &evars.vars);
            let new_sp = Shortpath { path, full_path: crate::shortpaths::copy_opt(&sp.full_path) };
            proof {
                lemma_rebuild_step(target, i as int, name@, new_sp@);
            }
            sp_insert(&mut out, name.clone(), new_sp);
            i = i + 1;
        }
        assert(target.take(n as int) =~= target);
        Shortpaths { shortpaths: out, env_vars: Some(evars), cfg }
    }
}

// ---------------------------------------------------------------------------
// Expanding and sorting

/// A shortpath whose full path is its full path (or, without one, its path)
/// with `~` expanded.
pub open spec fn special_entry(x: (Seq<char>, ShortpathView), home: Option<Seq<char>>) -> (
    Seq<char>,
    ShortpathView,
) {
    let src = match x.1.full_path {
        Some(f) => f,
        None => x.1.path,
    };
    (x.0, ShortpathView { path: x.1.path, full_path: tilde_expansion(src, home) })
}

/// Every entry can have `~` expanded (it does not start with `~`, or there
/// is a home directory).
pub open spec fn all_special_ok(e: Entries, home: Option<Seq<char>>) -> bool {
    forall|k: int| 0 <= k < e.len() ==> (#[trigger] special_entry(e[k], home)).1.full_path is Some
}

/// A shortpath whose full path is its path expanded through the aliases of
/// `e`.
pub open spec fn expanded_entry(x: (Seq<char>, ShortpathView), e: Entries) -> (
    Seq<char>,
    ShortpathView,
) {
    (x.0, ShortpathView { path: x.1.path, full_path: Some(expanded_path(x.1.path, e)) })
}

/// Every path expands without a missing name, in finitely many layers.
pub open spec fn all_expandable(e: Entries) -> bool {
    forall|k: int| 0 <= k < e.len() ==> expandable((#[trigger] e[k]).1.path, e)
}

/// Full paths for the shortpaths: `~` expansion, alias expansion, sorting.
pub trait ShortpathOperationsExt: Sized {
    spec fn ops_wf(&self) -> bool;

    spec fn ops_expandable(&self) -> bool;

    spec fn ops_all_full(&self) -> bool;

    /// Expand special chracters for shortpaths
    /// These include mapping '~' to the user's home directory.
    fn expand_special_characters(&self) -> Option<SP>
        requires
            self.ops_wf(),
    ;

    /// Expand shortpaths to full_paths at runtime
    fn populate_expanded_paths(&self) -> SP
        requires
            self.ops_wf(),
            self.ops_expandable(),
    ;

    /// Sort shortpaths in lexicographical order of the expanded paths
    fn sort_paths(&self) -> SP
        requires
            self.ops_wf(),
            self.ops_all_full(),
    ;

    /// Same as sort_paths but without creating a copy
    fn sort_paths_inplace(&mut self) -> SP
        requires
            old(self).ops_wf(),
            old(self).ops_all_full(),
    ;
}

/// The shortpaths with `~` expanded in their full paths (or paths), given
/// the home directory; nothing when a path needs the home directory and there
/// is none.
pub fn expand_special_characters_with(shortpaths: &SP, home: Option<String>) -> (r: Option<SP>)
    requires
        sp_wf(*shortpaths),
    ensures
        match r {
            Some(m) => sp_wf(m) && all_special_ok(sp_entries(*shortpaths), opt_view(home))
                && sp_entries(m) == sp_entries(*shortpaths).map_values(
                |x| special_entry(x, opt_view(home)),
            ),
            None => !all_special_ok(sp_entries(*shortpaths), opt_view(home)),
        },
{
    let ghost e = sp_entries(*shortpaths);
    let ghost h = opt_view(home);
    let ghost target = e.map_values(|x| special_entry(x, h));
    proof {
        lemma_mapped_unique(e, target);
    }
    let n = sp_len(shortpaths);
    let mut out = sp_new();
    let mut i: usize = 0;
    while i < n
        invariant
            n == e.len(),
            e == sp_entries(*shortpaths),
            h == opt_view(home),
            target == e.map_values(|x| special_entry(x, h)),
            keys_unique(target),
            i <= n,
            sp_wf(out),
            sp_entries(out) == target.take(i as int),
            forall|k: int| 0 <= k < i ==> (#[trigger] special_entry(e[k], h)).1.full_path is Some,
        decreases n - i,
    {
        let (name, sp) = sp_get_index(shortpaths, i);
        let src = match &sp.full_path {
            Some(f) => f,
            None => &sp.path,
        };
        let home_copy = crate::shortpaths::copy_opt(&home);
        let expanded = match expand_tilde_with_home(src.as_str(), home_copy) {
            Some(x) => x,
            None => {
                assert(!(special_entry(e[i as int], h).1.full_path is Some));
                return None;
            },
        };
        let new_sp = Shortpath { path: sp.path.clone(), full_path: Some(expanded) };
        proof {
            assert(target[i as int] == special_entry(e[i as int], h));
            lemma_rebuild_step(target, i as int, name@, new_sp@);
        }
        sp_insert(&mut out, name.clone(), new_sp);
        i = i + 1;
    }
    assert(target.take(n as int) =~= target);
    Some(out)
}

/// The shortpaths with their full paths expanded through their aliases.
pub fn populate_expanded(shortpaths: &SP) -> (r: SP)
    requires
        sp_wf(*shortpaths),
        all_expandable(sp_entries(*shortpaths)),
    ensures
        sp_wf(r),
        sp_entries(r) == sp_entries(*shortpaths).map_values(
            |x| expanded_entry(x, sp_entries(*shortpaths)),
        ),
{
    let ghost e = sp_entries(*shortpaths);
    let ghost target = e.map_values(|x| expanded_entry(x, e));
    proof {
        lemma_mapped_unique(e, target);
    }
    let n = sp_len(shortpaths);
    let mut out = sp_new();
    let mut i: usize = 0;
    while i < n
        invariant
            n == e.len(),
            e == sp_entries(*shortpaths),
            sp_wf(*shortpaths),
            all_expandable(e),
            target == e.map_values(|x| expanded_entry(x, e)),
            keys_unique(target),
            i <= n,
            sp_wf(out),
            sp_entries(out) == target.take(i as int),
        decreases n - i,
    {
        let (name, sp) = sp_get_index(shortpaths, i);
        assert(expandable(e[i as int].1.path, e));
        let full_path = expand_shortpath(sp, shortpaths);
        let new_sp = Shortpath { path: sp.path.clone(), full_path: Some(full_path) };
        proof {
            assert(target[i as int] == expanded_entry(e[i as int], e));
            lemma_rebuild_step(target, i as int, name@, new_sp@);
        }
        sp_insert(&mut out, name.clone(), new_sp);
        i = i + 1;
    }
    assert(target.take(n as int) =~= target);
    out
}

impl ShortpathOperationsExt for SP {
    open spec fn ops_wf(&self) -> bool {
        sp_wf(*self)
    }

    open spec fn ops_expandable(&self) -> bool {
        all_expandable(sp_entries(*self))
    }

    open spec fn ops_all_full(&self) -> bool {
        all_full(sp_entries(*self))
    }

    /// The full paths (or paths) with `~` expanded with the home directory;
    /// nothing when a path needs the home directory and there is none.
    fn expand_special_characters(&self) -> (r: Option<SP>)
        ensures
            exists|home: Option<Seq<char>>|
                match r {
                    Some(m) => sp_wf(m) && sp_entries(m) == sp_entries(*self).map_values(
                        |x| special_entry(x, home),
                    ),
                    None => !all_special_ok(sp_entries(*self), home),
                },
    {
        let home = home_dir();
        expand_special_characters_with(self, home)
    }

    fn populate_expanded_paths(&self) -> (r: SP)
        ensures
            sp_wf(r),
            sp_entries(r) == sp_entries(*self).map_values(|x| expanded_entry(x, sp_entries(*self))),
    {
        populate_expanded(self)
    }

    fn sort_paths(&self) -> (r: SP)
        ensures
            sp_wf(r),
            exists|p: Seq<int>| stable_sorted_by(sp_entries(r), sp_entries(*self), p),
    {
        crate::shortpaths::sort_shortpaths(sp_clone(self))
    }

    fn sort_paths_inplace(&mut self) -> (r: SP)
        ensures
            sp_wf(*final(self)),
            exists|p: Seq<int>| stable_sorted_by(sp_entries(*final(self)), sp_entries(*old(self)), p),
            sp_entries(r) == sp_entries(*final(self)),
    {
        sp_sort_by_full_path(self);
        sp_clone(self)
    }
}

// ---------------------------------------------------------------------------
// The builder

/// The entries after alias expansion of every full path.
pub open spec fn populated(e: Entries) -> Entries {
    e.map_values(|x| expanded_entry(x, e))
}

/// The entries after alias and `~` expansion of every full path.
pub open spec fn specialised(e: Entries, home: Option<Seq<char>>) -> Entries {
    populated(e).map_values(|x| special_entry(x, home))
}

/// What building gives, with the home directory `home`: nothing without
/// shortpaths or when a full path needs a home directory and there is none;
/// otherwise the shortpaths with full paths expanded (aliases, then `~`) and
/// sorted by full path, every one with its full path, beside `env_vars` and
/// the builder's configuration.
pub open spec fn build_result_ok(b: ShortpathsBuilder, env_vars: EnvVars, home: Option<Seq<char>>, r: Option<Shortpaths>) -> bool {
    match b.paths {
        None => r is None,
        Some(p) => {
            let e = sp_entries(p.shortpaths);
            if all_special_ok(populated(e), home) {
                &&& r is Some
                &&& sp_wf(r.unwrap().shortpaths)
                &&& exists|perm: Seq<int>| stable_sorted_by(sp_entries(r.unwrap().shortpaths), specialised(e, home), perm)
                &&& all_full(sp_entries(r.unwrap().shortpaths))
                &&& r.unwrap().cfg == b.cfg
                &&& r.unwrap().env_vars == Some(env_vars)
            } else {
                r is None
            }
        },
    }
}

/// The builder can build: its shortpaths, if any, are well formed and all
/// expand.
pub open spec fn builder_ok(b: ShortpathsBuilder) -> bool {
    match b.paths {
        None => true,
        Some(p) => sp_wf(p.shortpaths) && all_expandable(sp_entries(p.shortpaths)),
    }
}

proof fn lemma_special_all_full(e: Entries, home: Option<Seq<char>>)
    requires
        all_special_ok(e, home),
    ensures
        all_full(e.map_values(|x| special_entry(x, home))),
{
    let t = e.map_values(|x| special_entry(x, home));
    assert forall|i: int| 0 <= i < t.len() implies (#[trigger] t[i]).1.full_path is Some by {
        assert(t[i] == special_entry(e[i], home));
    }
}

impl ShortpathsBuilder {
    /// A builder with nothing in it.
    pub fn new() -> (r: ShortpathsBuilder)
        ensures
            r.paths is None,
            r.cfg is None,
    {
        ShortpathsBuilder { paths: None, cfg: None }
    }

    /// Builds the shortpaths with the home directory `home`.
    pub fn build_with_home(self, env_vars: EnvVars, home: Option<String>) -> (r: Option<Shortpaths>)
        requires
            builder_ok(self),
        ensures
            build_result_ok(self, env_vars, opt_view(home), r),
    {
        let ghost b = self;
        let ShortpathsBuilder { paths, cfg } = self;
        match paths {
            None => None,
            Some(paths) => {
                let ghost e = sp_entries(paths.shortpaths);
                let populated_paths = populate_expanded(&paths.shortpaths);
                assert(sp_entries(populated_paths) =~= populated(e));
                let ghost h = opt_view(home);
                match expand_special_characters_with(&populated_paths, home) {
                    None => {
                        assert(!all_special_ok(populated(e), h));
                        None
                    },
                    Some(expanded) => {
                        proof {
                            lemma_special_all_full(populated(e), opt_view(home));
                        }
                        assert(sp_entries(expanded) =~= specialised(e, h));
                        let mut shortpaths = expanded;
                        sp_sort_by_full_path(&mut shortpaths);
                        proof {
                            let old_e = specialised(e, h);
                            let new_e = sp_entries(shortpaths);
                            let p = choose|p: Seq<int>| stable_sorted_by(new_e, old_e, p);
                            assert forall|k: int| 0 <= k < new_e.len() implies (#[trigger] new_e[k]).1.full_path is Some by {
                                assert(new_e[k] == old_e[p[k]]);
                            }
                        }
                        let r = Shortpaths { shortpaths, cfg, env_vars: Some(env_vars) };
                        assert(r.cfg == b.cfg);
                        Some(r)
                    },
                }
            },
        }
    }

    /// Builds the shortpaths: full paths expanded through aliases and `~`,
    /// sorted by full path.  Nothing without shortpaths, or when a full path
    /// needs the home directory and none can be found.
    pub fn build(self, env_vars: EnvVars) -> (r: Option<Shortpaths>)
        requires
            builder_ok(self),
        ensures
            exists|home: Option<Seq<char>>| build_result_ok(self, env_vars, home, r),
    {
        let home = home_dir();
        self.build_with_home(env_vars, home)
    }

    /// The builder with the configuration `cfg`.
    pub fn with_config(self, cfg: Config) -> (r: Self)
        ensures
            r.paths == self.paths,
            r.cfg == Some(cfg),
    {
        ShortpathsBuilder { paths: self.paths, cfg: Some(cfg) }
    }

    /// Adds the shortpath `key` with the path `path`; the builder's
    /// shortpaths lose their configuration and variables.
    pub fn shortpath(self, key: String, path: String) -> (r: Self)
        requires
            self.paths is Some,
            sp_wf(self.paths.unwrap().shortpaths),
        ensures
            r.cfg == self.cfg,
            r.paths is Some,
            r.paths.unwrap().cfg is None,
            r.paths.unwrap().env_vars is None,
            sp_wf(r.paths.unwrap().shortpaths),
            sp_entries(r.paths.unwrap().shortpaths) == entries_insert(
                sp_entries(self.paths.unwrap().shortpaths),
                key@,
                ShortpathView { path: path@, full_path: None },
            ),
    {
        let ShortpathsBuilder { paths, cfg } = self;
        let mut shortpaths = match paths {
            Some(p) => p.shortpaths,
            None => {
                assert(false);
                sp_new()
            },
        };
        let sp = Shortpath::new(path, None);
        sp_insert(&mut shortpaths, key, sp);
        ShortpathsBuilder {
            paths: Some(Shortpaths { shortpaths, cfg: None, env_vars: None }),
            cfg,
        }
    }
}

impl vstd::std_specs::convert::FromSpecImpl<SP> for ShortpathsBuilder {
    open spec fn obeys_from_spec() -> bool {
        true
    }

    open spec fn from_spec(v: SP) -> ShortpathsBuilder {
        ShortpathsBuilder {
            paths: Some(Shortpaths { shortpaths: v, cfg: None, env_vars: None }),
            cfg: None,
        }
    }
}

impl From<SP> for ShortpathsBuilder {
    /// A builder holding the shortpaths `item`.
    fn from(item: SP) -> (r: Self) {
        let shortpaths = Shortpaths { shortpaths: item, cfg: None, env_vars: None };
        ShortpathsBuilder { paths: Some(shortpaths), cfg: None }
    }
}


/// Folding with one more variable `(name, value)` after the others folds
/// with the others, then writes every occurrence of a non-empty `value`,
/// wherever it stands in the path, as `${env:name}`.
pub proof fn lemma_fold_env_push(path: Seq<char>, vars: EnvEntries, name: Seq<char>, value: Seq<char>)
    ensures
        fold_env_in(path, vars.push((name, value))) == (if value.len() > 0 {
            replace_all(fold_env_in(path, vars), value, env_ref(name))
        } else {
            fold_env_in(path, vars)
        }),
    decreases vars.len(),
{
    let x = (name, value);
    if vars.len() == 0 {
        assert(vars.push(x).drop_first() =~= vars);
        assert(vars.push(x)[0] == x);
        let next0 = if value.len() > 0 && contains_seq(path, value) {
            replace_all(path, value, env_ref(name))
        } else {
            path
        };
        assert(fold_env_in(path, vars.push(x)) == fold_env_in(next0, vars.push(x).drop_first()));
        assert(fold_env_in(next0, vars) == next0);
        assert(fold_env_in(path, vars) == path);
        if value.len() > 0 && !contains_seq(path, value) {
            crate::shortpaths::lemma_replace_absent(path, value, env_ref(name));
        }
    } else {
        let next = if vars[0].1.len() > 0 && contains_seq(path, vars[0].1) {
            replace_all(path, vars[0].1, env_ref(vars[0].0))
        } else {
            path
        };
        assert(vars.push(x)[0] == vars[0]);
        assert(vars.push(x).drop_first() =~= vars.drop_first().push(x));
        assert(fold_env_in(path, vars.push(x)) == fold_env_in(next, vars.push(x).drop_first()));
        assert(fold_env_in(path, vars) == fold_env_in(next, vars.drop_first()));
        lemma_fold_env_push(next, vars.drop_first(), name, value);
    }
}

/// With one variable whose value is not empty, folding writes every
/// occurrence of the value in the path, at any position, as `${env:NAME}`.
pub proof fn lemma_fold_env_single(path: Seq<char>, name: Seq<char>, value: Seq<char>)
    requires
        value.len() > 0,
    ensures
        fold_env_in(path, seq![(name, value)]) == replace_all(path, value, env_ref(name)),
{
    lemma_fold_env_push(path, Seq::empty(), name, value);
    assert(Seq::<(Seq<char>, Seq<char>)>::empty().push((name, value)) =~= seq![(name, value)]);
}

} // verus!
