//! Paths held as strings, and the parts of Unix path handling that shortpaths
//! rely on: splitting a path into components (with the normalisation that
//! `std::path::Path::components` documents), ordering paths component by
//! component, joining two paths, and taking a path's parent.

use vstd::prelude::*;
use std::cmp::Ordering;
use crate::strings::{chars_to_string, push_all, string_push, to_str_slice};

verus! {

/// A path component, as a value.
pub ghost enum Comp {
    Root,
    Cur,
    Parent,
    Normal(Seq<char>),
}

/// A path component: the root `/`, `.` at the start of a relative path,
/// `..`, or a named segment.
#[derive(Debug)]
pub enum PathComponent {
    RootDir,
    CurDir,
    ParentDir,
    Normal(String),
}

impl View for PathComponent {
    type V = Comp;

    open spec fn view(&self) -> Comp {
        match self {
            PathComponent::RootDir => Comp::Root,
            PathComponent::CurDir => Comp::Cur,
            PathComponent::ParentDir => Comp::Parent,
            PathComponent::Normal(s) => Comp::Normal(s@),
        }
    }
}

/// The text of a component: `/`, `.`, `..`, or the segment itself.
pub open spec fn comp_text(c: Comp) -> Seq<char> {
    match c {
        Comp::Root => seq!['/'],
        Comp::Cur => seq!['.'],
        Comp::Parent => seq!['.', '.'],
        Comp::Normal(s) => s,
    }
}

/// Position of the first `/` in `s`, or `s.len()` when there is none.
pub open spec fn index_of_sep(s: Seq<char>) -> nat
    decreases s.len(),
{
    if s.len() == 0 {
        0
    } else if s[0] == '/' {
        0
    } else {
        1 + index_of_sep(s.drop_first())
    }
}

/// The components that one `/`-free segment of a path's body contributes:
/// none for an empty segment or `.`, `..` as a parent, otherwise the segment.
pub open spec fn segment_comps(seg: Seq<char>) -> Seq<Comp> {
    if seg.len() == 0 || seg == seq!['.'] {
        Seq::empty()
    } else if seg == seq!['.', '.'] {
        seq![Comp::Parent]
    } else {
        seq![Comp::Normal(seg)]
    }
}

/// The components of the body of a path (what follows its root or leading `.`).
pub open spec fn body_comps(s: Seq<char>) -> Seq<Comp>
    decreases s.len(),
{
    if s.len() == 0 {
        Seq::empty()
    } else {
        let k = index_of_sep(s);
        if k < s.len() {
            segment_comps(s.take(k as int)) + body_comps(s.skip(k as int + 1))
        } else {
            segment_comps(s)
        }
    }
}

/// Whether a relative path starts with the component `.`.
pub open spec fn starts_with_cur_dir(s: Seq<char>) -> bool {
    (s.len() == 1 && s[0] == '.') || (s.len() >= 2 && s[0] == '.' && s[1] == '/')
}

/// The components of the path `s`: a leading `/` gives the root, a leading
/// `.` of a relative path gives `.`, and the rest is split on `/`, dropping
/// empty segments and `.`.
pub open spec fn path_comps(s: Seq<char>) -> Seq<Comp> {
    if s.len() > 0 && s[0] == '/' {
        seq![Comp::Root] + body_comps(s.skip(1))
    } else if starts_with_cur_dir(s) {
        seq![Comp::Cur] + body_comps(s.skip(1))
    } else {
        body_comps(s)
    }
}

/// The text of the first component of `s`, if it has one.
pub open spec fn first_comp_text(s: Seq<char>) -> Option<Seq<char>> {
    if path_comps(s).len() == 0 {
        None
    } else {
        Some(comp_text(path_comps(s)[0]))
    }
}

/// The views of a sequence of components.
pub open spec fn comps_view(v: Seq<PathComponent>) -> Seq<Comp> {
    v.map_values(|c: PathComponent| c@)
}

proof fn lemma_index_of_sep(t: Seq<char>, d: int)
    requires
        0 <= d <= t.len(),
        forall|m: int| 0 <= m < d ==> t[m] != '/',
        d == t.len() || t[d] == '/',
    ensures
        index_of_sep(t) == d,
    decreases d,
{
    if d > 0 {
        lemma_index_of_sep(t.drop_first(), d - 1);
    }
}

/// The component that a `/`-free segment contributes, if any.
fn segment_component(seg: &Vec<char>) -> (r: Option<PathComponent>)
    ensures
        segment_comps(seg@) == (match r {
            Some(c) => seq![c@],
            None => Seq::<Comp>::empty(),
        }),
{
    if seg.len() == 0 {
        return None;
    }
    if seg.len() == 1 && seg[0] == '.' {
        assert(seg@ =~= seq!['.']);
        return None;
    }
    if seg.len() == 2 && seg[0] == '.' && seg[1] == '.' {
        assert(seg@ =~= seq!['.', '.']);
        return Some(PathComponent::ParentDir);
    }
    assert(seg@ != seq!['.']) by {
        if seg@ == seq!['.'] {
            assert(seg@.len() == 1 && seg@[0] == '.');
        }
    }
    assert(seg@ != seq!['.', '.']) by {
        if seg@ == seq!['.', '.'] {
            assert(seg@.len() == 2 && seg@[0] == '.' && seg@[1] == '.');
        }
    }
    Some(PathComponent::Normal(chars_to_string(seg)))
}

/// The components of the body `s[start..]` of a path.
fn body_components(s: &Vec<char>, start: usize) -> (r: Vec<PathComponent>)
    requires
        start <= s@.len(),
    ensures
        comps_view(r@) == body_comps(s@.skip(start as int)),
{
    let n = s.len();
    let mut out: Vec<PathComponent> = Vec::new();
    let mut pos: usize = start;
    while pos < n
        invariant
            n == s@.len(),
            start <= pos <= n,
            comps_view(out@) + body_comps(s@.skip(pos as int)) == body_comps(s@.skip(start as int)),
        decreases n - pos,
    {
        let mut seg: Vec<char> = Vec::new();
        let mut j: usize = pos;
        while j < n && s[j] != '/'
            invariant
                n == s@.len(),
                pos <= j <= n,
                seg@ == s@.subrange(pos as int, j as int),
                forall|m: int| pos <= m < j ==> s@[m] != '/',
            decreases n - j,
        {
            seg.push(s[j]);
            j = j + 1;
            assert(seg@ =~= s@.subrange(pos as int, j as int));
        }
        let ghost t = s@.skip(pos as int);
        proof {
            lemma_index_of_sep(t, j - pos);
            assert(t.take(j - pos) =~= seg@);
            if j < n {
                assert(t.skip(j - pos + 1) =~= s@.skip(j + 1));
            } else {
                assert(t =~= seg@);
            }
        }
        let c = segment_component(&seg);
        let ghost prev = out@;
        match c {
            Some(c) => {
                out.push(c);
            },
            None => {},
        }
        assert(comps_view(out@) =~= comps_view(prev) + segment_comps(seg@));
        if j < n {
            pos = j + 1;
            assert(comps_view(out@) + body_comps(s@.skip(pos as int)) =~= comps_view(prev) + (
            segment_comps(seg@) + body_comps(s@.skip(pos as int))));
        } else {
            pos = n;
            assert(s@.skip(pos as int) =~= Seq::<char>::empty());
            assert(comps_view(out@) + body_comps(s@.skip(pos as int)) =~= comps_view(prev)
                + segment_comps(seg@));
        }
    }
    assert(s@.skip(pos as int) =~= Seq::<char>::empty());
    assert(comps_view(out@) + body_comps(s@.skip(pos as int)) =~= comps_view(out@));
    out
}

/// The components of the path `path`, in order.
pub fn components(path: &str) -> (r: Vec<PathComponent>)
    ensures
        comps_view(r@) == path_comps(path@),
{
    let s = to_str_slice(path);
    if s.len() > 0 && s[0] == '/' {
        let mut body = body_components(&s, 1);
        let mut out: Vec<PathComponent> = Vec::new();
        out.push(PathComponent::RootDir);
        out.append(&mut body);
        assert(comps_view(out@) =~= seq![Comp::Root] + body_comps(s@.skip(1)));
        out
    } else if (s.len() == 1 && s[0] == '.') || (s.len() >= 2 && s[0] == '.' && s[1] == '/') {
        let mut body = body_components(&s, 1);
        let mut out: Vec<PathComponent> = Vec::new();
        out.push(PathComponent::CurDir);
        out.append(&mut body);
        assert(comps_view(out@) =~= seq![Comp::Cur] + body_comps(s@.skip(1)));
        out
    } else {
        let r = body_components(&s, 0);
        assert(s@.skip(0) =~= s@);
        r
    }
}

/// The text of a component: `/` for the root, `.`, `..`, or the segment.
pub fn to_string(comp: &PathComponent) -> (r: String)
    ensures
        r@ == comp_text(comp@),
{
    match comp {
        PathComponent::RootDir => {
            let mut s = String::new();
            string_push(&mut s, '/');
            assert(s@ =~= seq!['/']);
            s
        },
        PathComponent::CurDir => {
            let mut s = String::new();
            string_push(&mut s, '.');
            assert(s@ =~= seq!['.']);
            s
        },
        PathComponent::ParentDir => {
            let mut s = String::new();
            string_push(&mut s, '.');
            string_push(&mut s, '.');
            assert(s@ =~= seq!['.', '.']);
            s
        },
        PathComponent::Normal(n) => n.clone(),
    }
}

/// The text of the first component of `path`, if it has one.
pub fn first_component(path: &str) -> (r: Option<String>)
    ensures
        match r {
            Some(t) => first_comp_text(path@) == Some(t@),
            None => first_comp_text(path@) is None,
        },
{
    let comps = components(path);
    if comps.len() == 0 {
        None
    } else {
        assert(comps_view(comps@)[0] == comps@[0]@);
        Some(to_string(&comps[0]))
    }
}

/// The final component of `s` when it is a named segment (what
/// `Path::file_name` gives): nothing for an empty path, the root, or a path
/// ending in `..`.
pub open spec fn file_name_of(s: Seq<char>) -> Option<Seq<char>> {
    let c = path_comps(s);
    if c.len() > 0 && c.last() is Normal {
        Some(comp_text(c.last()))
    } else {
        None
    }
}

/// The file name of `path`: its final component, when that is a named segment.
pub fn file_name(path: &str) -> (r: Option<String>)
    ensures
        match r {
            Some(t) => file_name_of(path@) == Some(t@),
            None => file_name_of(path@) is None,
        },
{
    let comps = components(path);
    let n = comps.len();
    if n == 0 {
        return None;
    }
    assert(comps_view(comps@)[n - 1] == comps@[n - 1]@);
    match &comps[n - 1] {
        PathComponent::Normal(s) => Some(s.clone()),
        _ => None,
    }
}

/// The rank of a component kind in the order of `std::path::Component`:
/// the root, then `.`, then `..`, then named segments.
pub open spec fn comp_rank(c: Comp) -> int {
    match c {
        Comp::Root => 1,
        Comp::Cur => 2,
        Comp::Parent => 3,
        Comp::Normal(_) => 4,
    }
}

/// Lexicographic order of character sequences by code point: -1, 0 or 1.
pub open spec fn chars_order(a: Seq<char>, b: Seq<char>) -> int
    decreases a.len(),
{
    if a.len() == 0 && b.len() == 0 {
        0
    } else if a.len() == 0 {
        -1
    } else if b.len() == 0 {
        1
    } else if a[0] < b[0] {
        -1
    } else if a[0] > b[0] {
        1
    } else {
        chars_order(a.drop_first(), b.drop_first())
    }
}

/// Order of two components: by kind, and named segments by their text.
pub open spec fn comp_order(a: Comp, b: Comp) -> int {
    if comp_rank(a) < comp_rank(b) {
        -1
    } else if comp_rank(a) > comp_rank(b) {
        1
    } else {
        match (a, b) {
            (Comp::Normal(x), Comp::Normal(y)) => chars_order(x, y),
            _ => 0,
        }
    }
}

/// Lexicographic order of component sequences: -1, 0 or 1.
pub open spec fn comps_order(a: Seq<Comp>, b: Seq<Comp>) -> int
    decreases a.len(),
{
    if a.len() == 0 && b.len() == 0 {
        0
    } else if a.len() == 0 {
        -1
    } else if b.len() == 0 {
        1
    } else if comp_order(a[0], b[0]) != 0 {
        comp_order(a[0], b[0])
    } else {
        comps_order(a.drop_first(), b.drop_first())
    }
}

/// The order of two paths: component by component.
pub open spec fn path_order(a: Seq<char>, b: Seq<char>) -> int {
    comps_order(path_comps(a), path_comps(b))
}

/// The number that an `Ordering` stands for: -1, 0 or 1.
pub open spec fn ordering_value(o: Ordering) -> int {
    match o {
        Ordering::Less => -1,
        Ordering::Equal => 0,
        Ordering::Greater => 1,
    }
}

proof fn lemma_chars_order_antisym(a: Seq<char>, b: Seq<char>)
    ensures
        chars_order(a, b) == -chars_order(b, a),
        chars_order(a, b) == 0 <==> a == b,
    decreases a.len(),
{
    if a.len() == 0 && b.len() == 0 {
        assert(a =~= b);
    }
    if a.len() > 0 && b.len() > 0 {
        lemma_chars_order_antisym(a.drop_first(), b.drop_first());
        if a[0] == b[0] && a.drop_first() == b.drop_first() {
            assert(a =~= seq![a[0]] + a.drop_first());
            assert(b =~= seq![b[0]] + b.drop_first());
        }
        if a[0] == b[0] {
            assert(a[0] == b[0]);
        }
    }
}

proof fn lemma_chars_order_trans(a: Seq<char>, b: Seq<char>, c: Seq<char>)
    requires
        chars_order(a, b) <= 0,
        chars_order(b, c) <= 0,
    ensures
        chars_order(a, c) <= 0,
    decreases a.len(),
{
    if a.len() > 0 && b.len() > 0 && c.len() > 0 {
        if a[0] == b[0] && b[0] == c[0] {
            lemma_chars_order_trans(a.drop_first(), b.drop_first(), c.drop_first());
        }
    }
}

proof fn lemma_comp_order_props(a: Comp, b: Comp, c: Comp)
    ensures
        comp_order(a, b) == -comp_order(b, a),
        comp_order(a, b) == 0 <==> a == b,
        comp_order(a, b) <= 0 && comp_order(b, c) <= 0 ==> comp_order(a, c) <= 0,
{
    match (a, b) {
        (Comp::Normal(x), Comp::Normal(y)) => {
            lemma_chars_order_antisym(x, y);
        },
        _ => {},
    }
    match (a, b, c) {
        (Comp::Normal(x), Comp::Normal(y), Comp::Normal(z)) => {
            if chars_order(x, y) <= 0 && chars_order(y, z) <= 0 {
                lemma_chars_order_trans(x, y, z);
            }
        },
        _ => {},
    }
}

proof fn lemma_comps_order_antisym(a: Seq<Comp>, b: Seq<Comp>)
    ensures
        comps_order(a, b) == -comps_order(b, a),
        comps_order(a, b) == 0 <==> a == b,
    decreases a.len(),
{
    if a.len() == 0 && b.len() == 0 {
        assert(a =~= b);
    }
    if a.len() > 0 && b.len() > 0 {
        lemma_comp_order_props(a[0], b[0], a[0]);
        lemma_comps_order_antisym(a.drop_first(), b.drop_first());
        if a[0] == b[0] && a.drop_first() == b.drop_first() {
            assert(a =~= seq![a[0]] + a.drop_first());
            assert(b =~= seq![b[0]] + b.drop_first());
        }
    }
}

proof fn lemma_comps_order_trans(a: Seq<Comp>, b: Seq<Comp>, c: Seq<Comp>)
    requires
        comps_order(a, b) <= 0,
        comps_order(b, c) <= 0,
    ensures
        comps_order(a, c) <= 0,
    decreases a.len(),
{
    if a.len() > 0 && b.len() > 0 && c.len() > 0 {
        lemma_comp_order_props(a[0], b[0], c[0]);
        lemma_comp_order_props(b[0], c[0], a[0]);
        lemma_comp_order_props(a[0], c[0], b[0]);
        if comp_order(a[0], b[0]) == 0 && comp_order(b[0], c[0]) == 0 {
            lemma_comps_order_trans(a.drop_first(), b.drop_first(), c.drop_first());
        }
    }
}

/// The order of paths is a total order on their component sequences:
/// swapping the arguments negates it, it is zero exactly for paths with the
/// same components, and it is transitive.
pub proof fn lemma_path_order_total(a: Seq<char>, b: Seq<char>, c: Seq<char>)
    ensures
        path_order(a, b) == -path_order(b, a),
        path_order(a, b) == 0 <==> path_comps(a) == path_comps(b),
        path_order(a, b) <= 0 && path_order(b, c) <= 0 ==> path_order(a, c) <= 0,
{
    lemma_comps_order_antisym(path_comps(a), path_comps(b));
    if path_order(a, b) <= 0 && path_order(b, c) <= 0 {
        lemma_comps_order_trans(path_comps(a), path_comps(b), path_comps(c));
    }
}

/// The order of character sequences is total: swapping the arguments negates
/// it, it is zero exactly for equal sequences, and it is transitive.
pub proof fn lemma_chars_order_total(a: Seq<char>, b: Seq<char>, c: Seq<char>)
    ensures
        chars_order(a, b) == -chars_order(b, a),
        chars_order(a, b) == 0 <==> a == b,
        chars_order(a, b) <= 0 && chars_order(b, c) <= 0 ==> chars_order(a, c) <= 0,
{
    lemma_chars_order_antisym(a, b);
    if chars_order(a, b) <= 0 && chars_order(b, c) <= 0 {
        lemma_chars_order_trans(a, b, c);
    }
}

proof fn lemma_chars_order_range(a: Seq<char>, b: Seq<char>)
    ensures
        -1 <= chars_order(a, b) <= 1,
    decreases a.len(),
{
    if a.len() > 0 && b.len() > 0 {
        lemma_chars_order_range(a.drop_first(), b.drop_first());
    }
}

proof fn lemma_chars_order_range_comp(a: Comp, b: Comp)
    ensures
        -1 <= comp_order(a, b) <= 1,
{
    match (a, b) {
        (Comp::Normal(x), Comp::Normal(y)) => lemma_chars_order_range(x, y),
        _ => {},
    }
}

/// Compares two character sequences by code point, lexicographically.
pub fn compare_chars(a: &Vec<char>, b: &Vec<char>) -> (r: i8)
    ensures
        r == chars_order(a@, b@),
        -1 <= r <= 1,
{
    let mut i: usize = 0;
    assert(a@.skip(0) =~= a@);
    assert(b@.skip(0) =~= b@);
    while i < a.len() && i < b.len()
        invariant
            i <= a@.len(),
            i <= b@.len(),
            a@.take(i as int) == b@.take(i as int),
            chars_order(a@, b@) == chars_order(a@.skip(i as int), b@.skip(i as int)),
        decreases a@.len() - i,
    {
        let x = a[i];
        let y = b[i];
        assert(a@.skip(i as int)[0] == x);
        assert(b@.skip(i as int)[0] == y);
        if x < y {
            return -1;
        }
        if x > y {
            return 1;
        }
        proof {
            assert(a@.skip(i as int).drop_first() =~= a@.skip(i + 1));
            assert(b@.skip(i as int).drop_first() =~= b@.skip(i + 1));
            assert(a@.take(i + 1) =~= a@.take(i as int).push(x));
            assert(b@.take(i + 1) =~= b@.take(i as int).push(y));
        }
        i = i + 1;
    }
    if i < a.len() {
        1
    } else if i < b.len() {
        -1
    } else {
        0
    }
}

/// Compares two components in the order of `std::path::Component`.
fn compare_component(a: &PathComponent, b: &PathComponent) -> (r: i8)
    ensures
        r == comp_order(a@, b@),
{
    match (a, b) {
        (PathComponent::Normal(x), PathComponent::Normal(y)) => {
            let xv = to_str_slice(x.as_str());
            let yv = to_str_slice(y.as_str());
            compare_chars(&xv, &yv)
        },
        _ => {
            let ra = rank_of(a);
            let rb = rank_of(b);
            if ra < rb {
                -1
            } else if ra > rb {
                1
            } else {
                0
            }
        },
    }
}

fn rank_of(c: &PathComponent) -> (r: u8)
    ensures
        r == comp_rank(c@),
{
    match c {
        PathComponent::RootDir => 1,
        PathComponent::CurDir => 2,
        PathComponent::ParentDir => 3,
        PathComponent::Normal(_) => 4,
    }
}

/// Compares two paths component by component: -1, 0 or 1.
pub fn path_order_value(a: &str, b: &str) -> (r: i8)
    ensures
        r == path_order(a@, b@),
        -1 <= r <= 1,
{
    let ca = components(a);
    let cb = components(b);
    let ghost va = comps_view(ca@);
    let ghost vb = comps_view(cb@);
    assert(va.skip(0) =~= va);
    assert(vb.skip(0) =~= vb);
    let mut i: usize = 0;
    while i < ca.len() && i < cb.len()
        invariant
            va == comps_view(ca@),
            vb == comps_view(cb@),
            i <= ca@.len(),
            i <= cb@.len(),
            path_order(a@, b@) == comps_order(va.skip(i as int), vb.skip(i as int)),
        decreases ca@.len() - i,
    {
        let o = compare_component(&ca[i], &cb[i]);
        proof {
            lemma_chars_order_range_comp(ca@[i as int]@, cb@[i as int]@);
        }
        assert(va.skip(i as int)[0] == ca@[i as int]@);
        assert(vb.skip(i as int)[0] == cb@[i as int]@);
        if o != 0 {
            return o;
        }
        assert(va.skip(i as int).drop_first() =~= va.skip(i + 1));
        assert(vb.skip(i as int).drop_first() =~= vb.skip(i + 1));
        i = i + 1;
    }
    if i < ca.len() {
        1
    } else if i < cb.len() {
        -1
    } else {
        0
    }
}

/// Compares two paths component by component, as `Path`'s `Ord` does.
pub fn compare_paths(a: &str, b: &str) -> (r: Ordering)
    ensures
        ordering_value(r) == path_order(a@, b@),
{
    let v = path_order_value(a, b);
    if v < 0 {
        Ordering::Less
    } else if v > 0 {
        Ordering::Greater
    } else {
        Ordering::Equal
    }
}

/// `b` appended to `a` as `PathBuf::push` does on Unix: an absolute `b`
/// replaces `a`; otherwise a `/` goes between them unless `a` is empty or
/// already ends with `/`.
pub open spec fn join_paths(a: Seq<char>, b: Seq<char>) -> Seq<char> {
    if b.len() > 0 && b[0] == '/' {
        b
    } else if a.len() > 0 && a.last() != '/' {
        a + seq!['/'] + b
    } else {
        a + b
    }
}

/// The path `s1` joined with `s2` (`PathBuf::join`).
pub fn str_join_path(s1: &str, s2: &str) -> (r: String)
    ensures
        r@ == join_paths(s1@, s2@),
{
    let a = to_str_slice(s1);
    let b = to_str_slice(s2);
    if b.len() > 0 && b[0] == '/' {
        return chars_to_string(&b);
    }
    let mut out = a;
    if out.len() > 0 && out[out.len() - 1] != '/' {
        out.push('/');
    }
    push_all(&mut out, &b);
    chars_to_string(&out)
}

/// What `Path::parent` gives for the path `s`: the path without its final
/// component, or nothing for the empty path and for a path that ends in its
/// root.
pub uninterp spec fn path_parent_of(s: Seq<char>) -> Option<Seq<char>>;

/// The parent of `path` (`std::path::Path::parent`).  Its contract claims the
/// result is `path_parent_of(path)`, and, as the documentation describes the
/// parent as the path without its final component, that it is a strictly
/// shorter prefix of `path` whose components are those of `path` but the
/// last.  Which prefix it is is left to `path_parent_of`.
#[verifier::external_body]
pub(crate) fn path_parent(path: &str) -> (r: Option<String>)
    ensures
        match r {
            Some(p) => path_parent_of(path@) == Some(p@) && p@.len() < path@.len()
                && path@.take(p@.len() as int) == p@ && path_comps(p@) == path_comps(path@).drop_last(),
            None => path_parent_of(path@) is None,
        },
{
    std::path::Path::new(path).parent().map(|p| p.to_string_lossy().into_owned())
}


/// `s` holds no `/`.
pub open spec fn sep_free(s: Seq<char>) -> bool {
    forall|j: int| 0 <= j < s.len() ==> s[j] != '/'
}

/// A named component holds no `/`.
pub open spec fn comp_sep_free(c: Comp) -> bool {
    match c {
        Comp::Normal(seg) => sep_free(seg),
        _ => true,
    }
}

proof fn lemma_index_of_sep_props(t: Seq<char>)
    ensures
        index_of_sep(t) <= t.len(),
        forall|m: int| 0 <= m < index_of_sep(t) ==> t[m] != '/',
        index_of_sep(t) < t.len() ==> t[index_of_sep(t) as int] == '/',
    decreases t.len(),
{
    if t.len() > 0 && t[0] != '/' {
        lemma_index_of_sep_props(t.drop_first());
        assert forall|m: int| 0 <= m < index_of_sep(t) implies t[m] != '/' by {
            if m > 0 {
                assert(t[m] == t.drop_first()[m - 1]);
            }
        }
    }
}

/// Every named component of a path's body holds no `/`.
pub proof fn lemma_body_comps_sep_free(s: Seq<char>)
    ensures
        forall|i: int| 0 <= i < body_comps(s).len() ==> comp_sep_free(#[trigger] body_comps(s)[i]),
    decreases s.len(),
{
    if s.len() > 0 {
        let k = index_of_sep(s);
        lemma_index_of_sep_props(s);
        let seg = if k < s.len() { s.take(k as int) } else { s };
        assert(sep_free(seg));
        let sc = segment_comps(seg);
        assert forall|i: int| 0 <= i < sc.len() implies comp_sep_free(#[trigger] sc[i]) by {}
        if k < s.len() {
            lemma_body_comps_sep_free(s.skip(k as int + 1));
            let rest = body_comps(s.skip(k as int + 1));
            assert forall|i: int| 0 <= i < body_comps(s).len() implies comp_sep_free(
                #[trigger] body_comps(s)[i],
            ) by {
                if i >= sc.len() {
                    assert(body_comps(s)[i] == rest[i - sc.len()]);
                }
            }
        }
    }
}

/// Every named component of a path holds no `/`.
pub proof fn lemma_path_comps_sep_free(s: Seq<char>)
    ensures
        forall|i: int| 0 <= i < path_comps(s).len() ==> comp_sep_free(#[trigger] path_comps(s)[i]),
{
    lemma_body_comps_sep_free(s);
    lemma_body_comps_sep_free(s.skip(1));
    if (s.len() > 0 && s[0] == '/') || starts_with_cur_dir(s) {
        let b = body_comps(s.skip(1));
        assert forall|i: int| 0 <= i < path_comps(s).len() implies comp_sep_free(
            #[trigger] path_comps(s)[i],
        ) by {
            if i > 0 {
                assert(path_comps(s)[i] == b[i - 1]);
            }
        }
    }
}

/// The body of `t/r` has the components of `t`, then those of `r`.
pub proof fn lemma_body_comps_join(t: Seq<char>, r: Seq<char>)
    ensures
        body_comps(t + seq!['/'] + r) == body_comps(t) + body_comps(r),
    decreases t.len(),
{
    let s = t + seq!['/'] + r;
    let k = index_of_sep(t);
    lemma_index_of_sep_props(t);
    if k < t.len() {
        lemma_index_of_sep(s, k as int);
        assert(s.take(k as int) =~= t.take(k as int));
        assert(s.skip(k as int + 1) =~= t.skip(k as int + 1) + seq!['/'] + r);
        lemma_body_comps_join(t.skip(k as int + 1), r);
        assert(body_comps(s) =~= body_comps(t) + body_comps(r));
    } else {
        lemma_index_of_sep(s, t.len() as int);
        assert(s.take(t.len() as int) =~= t);
        assert(s.skip(t.len() as int + 1) =~= r);
        assert(body_comps(s) =~= body_comps(t) + body_comps(r));
    }
}

/// A path that is not empty has a component.
pub proof fn lemma_path_comps_nonempty(x: Seq<char>)
    requires
        x.len() > 0,
    ensures
        path_comps(x).len() > 0,
{
    if !(x[0] == '/') && !starts_with_cur_dir(x) {
        let k = index_of_sep(x);
        lemma_index_of_sep_props(x);
        assert(k > 0);
        let seg = if k < x.len() { x.take(k as int) } else { x };
        assert(seg.len() > 0);
        if seg == seq!['.'] {
            assert(seg[0] == x[0]);
            assert(seg.len() == 1);
            if k < x.len() {
                assert(k == 1);
                assert(x[1] == '/');
            }
            assert(starts_with_cur_dir(x));
        }
        assert(segment_comps(seg).len() > 0);
    }
}

/// The components of `x/r`, for a path `x` that is not empty: those of `x`,
/// then those of the body `r`.
pub proof fn lemma_path_comps_join(x: Seq<char>, r: Seq<char>)
    requires
        x.len() > 0,
    ensures
        path_comps(x + seq!['/'] + r) == path_comps(x) + body_comps(r),
{
    let s = x + seq!['/'] + r;
    assert(s[0] == x[0]);
    if x[0] == '/' || starts_with_cur_dir(x) {
        assert(s.skip(1) =~= x.skip(1) + seq!['/'] + r);
        lemma_body_comps_join(x.skip(1), r);
        if !(x[0] == '/') {
            assert(starts_with_cur_dir(s)) by {
                if x.len() >= 2 {
                    assert(s[1] == x[1]);
                } else {
                    assert(s[1] == '/');
                }
            }
        }
        assert(path_comps(s) =~= path_comps(x) + body_comps(r));
    } else {
        assert(!starts_with_cur_dir(s)) by {
            if s.len() >= 2 && s[0] == '.' && s[1] == '/' {
                if x.len() >= 2 {
                    assert(x[1] == s[1]);
                }
            }
        }
        lemma_body_comps_join(x, r);
    }
}


/// A path without `/` that is not empty, `.` or `..` is one named component.
pub proof fn lemma_sep_free_comps(x: Seq<char>)
    requires
        x.len() > 0,
        sep_free(x),
        x[0] != '.',
    ensures
        path_comps(x) == seq![Comp::Normal(x)],
{
    lemma_index_of_sep(x, x.len() as int);
}

} // verus!
