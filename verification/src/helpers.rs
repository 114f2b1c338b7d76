//! Helpers: the longest name in a map, padding for aligned output, `~`
//! expansion, the answers accepted at the prompts, and the choices made when
//! resolving unreachable shortpaths.

use vstd::prelude::*;
use crate::paths::{
    path_comps, join_paths, str_join_path, components, Comp, PathComponent, path_parent,
    path_parent_of, file_name, file_name_of, body_comps, lemma_path_comps_join,
};
use crate::shortpaths::{SP, Shortpath, Entries, sp_entries, sp_len, sp_get_index, opt_view};
use crate::strings::{chars_to_string, push_all, str_eq, copy_str};

pub use crate::strings::to_str_slice;
pub use crate::shortpaths::sort_shortpaths;

verus! {

/// A choice offered when resolving a shortpath by hand.
#[derive(PartialEq, Eq, Clone, Copy, Debug, Structural)]
pub enum ResolveChoices {
    Overwrite,
    OverwriteAll,
    Skip,
    SkipAll,
}

/// The number of bytes of the UTF-8 encoding of `s`, as `str::len` gives it.
pub open spec fn byte_len(s: Seq<char>) -> usize {
    vstd::utf8::encode_utf8(s).len() as usize
}

/// `i` is the last position holding a name of the greatest byte length.
pub open spec fn is_last_longest<V>(e: Seq<(Seq<char>, V)>, i: int) -> bool {
    &&& 0 <= i < e.len()
    &&& forall|j: int| 0 <= j < e.len() ==> byte_len(#[trigger] e[j].0) <= byte_len(e[i].0)
    &&& forall|j: int| i < j < e.len() ==> byte_len(#[trigger] e[j].0) < byte_len(e[i].0)
}

/// Find the longest key name in the map (by bytes); of equally long names the
/// last one.
pub fn find_longest_keyname(map: &SP) -> (r: String)
    requires
        sp_entries(*map).len() > 0,
    ensures
        exists|i: int| is_last_longest(sp_entries(*map), i) && r@ == sp_entries(*map)[i].0,
{
    let ghost e = sp_entries(*map);
    let n = sp_len(map);
    let (k0, _) = sp_get_index(map, 0);
    let mut best: usize = 0;
    let mut best_len: usize = k0.as_str().len();
    let mut i: usize = 1;
    while i < n
        invariant
            n == e.len(),
            e == sp_entries(*map),
            1 <= i <= n,
            best < i,
            best_len == byte_len(e[best as int].0),
            forall|j: int| 0 <= j < i ==> byte_len(#[trigger] e[j].0) <= byte_len(e[best as int].0),
            forall|j: int| best < j < i ==> byte_len(#[trigger] e[j].0) < byte_len(e[best as int].0),
        decreases n - i,
    {
        let (k, _) = sp_get_index(map, i);
        let l = k.as_str().len();
        if l >= best_len {
            best = i;
            best_len = l;
        }
        i = i + 1;
    }
    let (k, _) = sp_get_index(map, best);
    assert(is_last_longest(e, best as int));
    k.clone()
}

/// `n` spaces.
pub open spec fn spaces(n: int) -> Seq<char>
    decreases n,
{
    if n <= 0 {
        Seq::empty()
    } else {
        spaces(n - 1).push(' ')
    }
}

/// `s` padded on the right with spaces to `width` characters, then the
/// delimiter (a single space when there is none).
pub open spec fn tab_aligned(s: Seq<char>, width: int, delim: Option<Seq<char>>) -> Seq<char> {
    s + spaces(width - s.len()) + match delim {
        Some(d) => d,
        None => seq![' '],
    }
}

/// Tab align right strings
pub fn tab_align(s: &str, width: usize, delim: Option<&str>) -> (r: String)
    ensures
        r@ == tab_aligned(
            s@,
            width as int,
            match delim {
                Some(d) => Some(d@),
                None => None,
            },
        ),
{
    let mut v = to_str_slice(s);
    let len = v.len();
    let mut k: usize = len;
    assert(spaces(0) =~= Seq::<char>::empty());
    while k < width
        invariant
            len == s@.len(),
            len <= k <= width || (k == len && width < len),
            v@ == s@ + spaces(k - len),
        decreases width - k,
    {
        v.push(' ');
        k = k + 1;
        assert(v@ =~= s@ + spaces(k - len));
    }
    assert(spaces(width - s@.len()) == spaces(k - len)) by {
        if width < len {
            assert(spaces(width - s@.len()) == Seq::<char>::empty());
        }
    }
    match delim {
        Some(d) => {
            let dv = to_str_slice(d);
            push_all(&mut v, &dv);
        },
        None => {
            v.push(' ');
        },
    }
    let ghost want = tab_aligned(
        s@,
        width as int,
        match delim {
            Some(d) => Some(d@),
            None => None,
        },
    );
    assert(v@ =~= want);
    chars_to_string(&v)
}

/// The home directory of the current user (`dirs::home_dir`).  It depends on
/// the environment, so nothing is promised of it.
#[verifier::external_body]
pub(crate) fn home_dir() -> (r: Option<String>) {
    dirs::home_dir().map(|p| p.to_string_lossy().into_owned())
}

/// What `Path::strip_prefix("~")` leaves of a path whose first component is
/// `~`: the rest of the path, without the separators and `.` components that
/// would lead or trail it.
pub uninterp spec fn tilde_rest_of(s: Seq<char>) -> Seq<char>;

/// The path after its leading `~` component (`Path::strip_prefix`).  Its
/// contract claims that the result is `tilde_rest_of(path)` and, as the
/// documentation promises that the result joined onto `~` yields the path
/// (paths being equal when their components are), that `~` joined with the
/// result has the components of `path`.  Which text the result is beyond
/// that is left to `tilde_rest_of`.
#[verifier::external_body]
fn strip_tilde(path: &str) -> (r: String)
    requires
        path_comps(path@).len() > 0,
        path_comps(path@)[0] == Comp::Normal(seq!['~']),
    ensures
        r@ == tilde_rest_of(path@),
        path_comps(join_paths(seq!['~'], r@)) == path_comps(path@),
{
    std::path::Path::new(path).strip_prefix("~").unwrap().to_string_lossy().into_owned()
}

/// The path starts with the component `~`.
pub open spec fn starts_with_tilde(s: Seq<char>) -> bool {
    path_comps(s).len() > 0 && path_comps(s)[0] == Comp::Normal(seq!['~'])
}

/// `~` expanded with the home directory `home`: a path not starting with the
/// component `~` is kept; `~` alone is the home directory; otherwise the rest
/// of the path goes under the home directory (directly after `/` when the
/// home directory is the root).
pub open spec fn tilde_expansion(s: Seq<char>, home: Option<Seq<char>>) -> Option<Seq<char>> {
    if !starts_with_tilde(s) {
        Some(s)
    } else if path_comps(s) == seq![Comp::Normal(seq!['~'])] {
        home
    } else {
        match home {
            None => None,
            Some(h) => Some(
                if path_comps(h) == seq![Comp::Root] {
                    tilde_rest_of(s)
                } else {
                    join_paths(h, tilde_rest_of(s))
                },
            ),
        }
    }
}

fn is_tilde_comp(c: &PathComponent) -> (r: bool)
    ensures
        r == (c@ == Comp::Normal(seq!['~'])),
{
    match c {
        PathComponent::Normal(n) => {
            let v = to_str_slice(n.as_str());
            let r = v.len() == 1 && v[0] == '~';
            assert(r ==> v@ =~= seq!['~']);
            r
        },
        _ => false,
    }
}

/// A path joined onto a home directory that is neither empty nor the root:
/// the components of the home directory, then those of the path.
proof fn lemma_join_home(h: Seq<char>, rest: Seq<char>)
    requires
        h.len() > 0,
        path_comps(h) != seq![Comp::Root],
        rest.len() == 0 || rest[0] != '/',
    ensures
        path_comps(join_paths(h, rest)) == path_comps(h) + body_comps(rest),
{
    if h.last() != '/' {
        lemma_path_comps_join(h, rest);
    } else {
        let h1 = h.drop_last();
        if h1.len() == 0 {
            assert(h =~= seq!['/']);
            assert(path_comps(h) =~= seq![Comp::Root] + body_comps(h.skip(1)));
            assert(h.skip(1).len() == 0);
            assert(false);
        }
        assert(h =~= h1 + seq!['/'] + Seq::<char>::empty());
        lemma_path_comps_join(h1, Seq::<char>::empty());
        assert(body_comps(Seq::<char>::empty()) =~= Seq::<Comp>::empty());
        assert(h + rest =~= h1 + seq!['/'] + rest);
        lemma_path_comps_join(h1, rest);
        assert(path_comps(h) =~= path_comps(h1));
    }
}

/// Expands `~` in `path_user_input` with the given home directory.  With a
/// home directory that is neither empty nor the root, a path `~/r` expands
/// to a path with the components of the home directory, then those of `r`.
pub fn expand_tilde_with_home(path_user_input: &str, home: Option<String>) -> (r: Option<String>)
    ensures
        opt_view(r) == tilde_expansion(path_user_input@, opt_view(home)),
        match home {
            Some(h) => h@.len() > 0 && path_comps(h@) != seq![Comp::Root] && starts_with_tilde(path_user_input@)
                && path_comps(path_user_input@).len() > 1 ==> (r matches Some(x) && path_comps(x@) == path_comps(h@)
                + path_comps(path_user_input@).drop_first()),
            None => true,
        },
{
    let comps = components(path_user_input);
    let ghost cv = crate::paths::comps_view(comps@);
    if comps.len() == 0 || !is_tilde_comp(&comps[0]) {
        return Some(copy_str(path_user_input));
    }
    assert(cv[0] == comps@[0]@);
    if comps.len() == 1 {
        assert(cv =~= seq![Comp::Normal(seq!['~'])]);
        return home;
    }
    assert(cv != seq![Comp::Normal(seq!['~'])]) by {
        assert(cv.len() != 1);
    }
    match home {
        None => None,
        Some(h) => {
            let rest = strip_tilde(path_user_input);
            let hc = components(h.as_str());
            let ghost hv = crate::paths::comps_view(hc@);
            let is_root = hc.len() == 1 && match &hc[0] {
                PathComponent::RootDir => true,
                _ => false,
            };
            if is_root {
                assert(hv[0] == hc@[0]@);
                assert(hv =~= seq![Comp::Root]);
                Some(rest)
            } else {
                assert(hv != seq![Comp::Root]) by {
                    if hv == seq![Comp::Root] {
                        assert(hv[0] == hc@[0]@);
                    }
                }
                proof {
                    let p = path_user_input@;
                    let t = seq!['~'];
                    if rest@.len() > 0 && rest@[0] == '/' {
                        assert(join_paths(t, rest@) == rest@);
                        assert(path_comps(rest@)[0] == Comp::Root);
                        assert(false);
                    }
                    assert(join_paths(t, rest@) == t + seq!['/'] + rest@);
                    lemma_path_comps_join(t, rest@);
                    assert(path_comps(t) == seq![Comp::Normal(seq!['~'])]) by {
                        crate::paths::lemma_sep_free_comps(t);
                    }
                    assert(body_comps(rest@) =~= path_comps(p).drop_first());
                    if h@.len() > 0 {
                        lemma_join_home(h@, rest@);
                    }
                }
                Some(str_join_path(h.as_str(), rest.as_str()))
            }
        },
    }
}

/// Expands ~/ to the user's home
pub fn expand_tilde(path_user_input: &str) -> (r: Option<String>)
    ensures
        exists|home: Option<Seq<char>>| opt_view(r) == tilde_expansion(path_user_input@, home),
        !starts_with_tilde(path_user_input@) ==> opt_view(r) == Some(path_user_input@),
{
    let home = home_dir();
    expand_tilde_with_home(path_user_input, home)
}

/// `str::to_lowercase`: what it gives for `s`.
pub uninterp spec fn lowercase_of(s: Seq<char>) -> Seq<char>;

/// A character with the Unicode property White_Space, as `char::is_whitespace`
/// and `str::trim_end` take it.
pub open spec fn is_white_space(c: char) -> bool {
    ||| '\t' <= c <= '\r'
    ||| c == ' '
    ||| c == '\u{85}'
    ||| c == '\u{A0}'
    ||| c == '\u{1680}'
    ||| '\u{2000}' <= c <= '\u{200A}'
    ||| c == '\u{2028}'
    ||| c == '\u{2029}'
    ||| c == '\u{202F}'
    ||| c == '\u{205F}'
    ||| c == '\u{3000}'
}

/// `s` without its trailing whitespace.
pub open spec fn trim_end_of(s: Seq<char>) -> Seq<char>
    decreases s.len(),
{
    if s.len() > 0 && is_white_space(s.last()) {
        trim_end_of(s.drop_last())
    } else {
        s
    }
}

/// The lowercase form of `s` (`str::to_lowercase`).  Its contract claims
/// only that the result is `lowercase_of(s)`.
#[verifier::external_body]
pub(crate) fn to_lowercase(s: &str) -> (r: String)
    ensures
        r@ == lowercase_of(s@),
{
    s.to_lowercase()
}

/// `s` without trailing whitespace (`str::trim_end`, whose documentation
/// takes whitespace to be the Unicode White_Space characters).
#[verifier::external_body]
pub(crate) fn trim_end(s: &str) -> (r: String)
    ensures
        r@ == trim_end_of(s@),
{
    s.trim_end().to_string()
}

pub open spec fn overwrite_text() -> Seq<char> {
    seq!['o', 'v', 'e', 'r', 'w', 'r', 'i', 't', 'e']
}

pub open spec fn overwrite_all_text() -> Seq<char> {
    seq!['o', 'v', 'e', 'r', 'w', 'r', 'i', 't', 'e', '_', 'a', 'l', 'l']
}

pub open spec fn skip_text() -> Seq<char> {
    seq!['s', 'k', 'i', 'p']
}

pub open spec fn skip_all_text() -> Seq<char> {
    seq!['s', 'k', 'i', 'p', '_', 'a', 'l', 'l']
}

/// The choice that a normalised answer names, if any.
pub open spec fn choice_named(t: Seq<char>) -> Option<ResolveChoices> {
    if t == overwrite_text() {
        Some(ResolveChoices::Overwrite)
    } else if t == overwrite_all_text() {
        Some(ResolveChoices::OverwriteAll)
    } else if t == skip_text() {
        Some(ResolveChoices::Skip)
    } else if t == skip_all_text() {
        Some(ResolveChoices::SkipAll)
    } else {
        None
    }
}

/// The choice that an answer names, once lowercased and stripped of trailing
/// whitespace.
pub open spec fn choice_of_answer(input: Seq<char>) -> Option<ResolveChoices> {
    choice_named(trim_end_of(lowercase_of(input)))
}

fn word(Ghost(chars): Ghost<Seq<char>>, v: Vec<char>) -> (r: String)
    requires
        v@ == chars,
    ensures
        r@ == chars,
{
    chars_to_string(&v)
}

/// The choice that a normalised answer names.
pub fn choice_from_normalized(t: &str) -> (r: Option<ResolveChoices>)
    ensures
        r == choice_named(t@),
{
    let ov = word(Ghost(overwrite_text()), vec!['o', 'v', 'e', 'r', 'w', 'r', 'i', 't', 'e']);
    let oa = word(Ghost(overwrite_all_text()),
        vec!['o', 'v', 'e', 'r', 'w', 'r', 'i', 't', 'e', '_', 'a', 'l', 'l'],
    );
    let sk = word(Ghost(skip_text()), vec!['s', 'k', 'i', 'p']);
    let sa = word(Ghost(skip_all_text()), vec!['s', 'k', 'i', 'p', '_', 'a', 'l', 'l']);
    if str_eq(t, ov.as_str()) {
        Some(ResolveChoices::Overwrite)
    } else if str_eq(t, oa.as_str()) {
        Some(ResolveChoices::OverwriteAll)
    } else if str_eq(t, sk.as_str()) {
        Some(ResolveChoices::Skip)
    } else if str_eq(t, sa.as_str()) {
        Some(ResolveChoices::SkipAll)
    } else {
        None
    }
}

/// The choice named by an answer at the resolve prompt.
pub fn get_choice(input: String) -> (r: Option<ResolveChoices>)
    ensures
        r == choice_of_answer(input@),
{
    let lower = to_lowercase(input.as_str());
    let trimmed = trim_end(lower.as_str());
    choice_from_normalized(trimmed.as_str())
}

/// An answer at the resolve prompt is valid when it names a choice.
pub fn is_valid_resolve_input(input: String) -> (r: bool)
    ensures
        r == (choice_of_answer(input@) is Some),
{
    get_choice(input).is_some()
}

/// Whether a choice takes the candidate (overwrite) rather than passing it by.
pub open spec fn choice_takes(c: ResolveChoices) -> bool {
    c == ResolveChoices::Overwrite || c == ResolveChoices::OverwriteAll
}

/// Whether a choice takes the candidate it was asked about.
pub fn takes_candidate(c: ResolveChoices) -> (r: bool)
    ensures
        r == choice_takes(c),
{
    match c {
        ResolveChoices::Skip | ResolveChoices::SkipAll => false,
        _ => true,
    }
}

/// Whether resolving by hand asks about the next candidate: not once
/// `overwrite_all` (take it) or `skip_all` (pass it by) has been chosen.
pub open spec fn choice_asks(choice: Option<ResolveChoices>) -> bool {
    choice != Some(ResolveChoices::OverwriteAll) && choice != Some(ResolveChoices::SkipAll)
}

/// One candidate of resolving by hand: the new choice, and whether the
/// candidate is taken.  After `overwrite_all` every candidate is taken, after
/// `skip_all` every one is passed by, both without a question; otherwise the
/// answer's choice is the new one, and overwrite and overwrite_all take the
/// candidate while skip and skip_all pass it by.
pub open spec fn manual_step(choice: Option<ResolveChoices>, answer: Option<ResolveChoices>) -> (
    Option<ResolveChoices>,
    bool,
) {
    if choice == Some(ResolveChoices::OverwriteAll) {
        (choice, true)
    } else if choice == Some(ResolveChoices::SkipAll) {
        (choice, false)
    } else {
        (answer, choice_takes(answer.unwrap()))
    }
}

/// Whether resolving by hand asks about the next candidate.
pub fn manual_resolve_asks(choice: Option<ResolveChoices>) -> (r: bool)
    ensures
        r == choice_asks(choice),
{
    match choice {
        Some(ResolveChoices::OverwriteAll) => false,
        Some(ResolveChoices::SkipAll) => false,
        _ => true,
    }
}

/// One candidate of resolving by hand, given the choice made so far and,
/// when a question was asked, the choice its answer named (see
/// [`get_choice`]): the new choice, and whether the candidate is taken (see
/// [`manual_step`]).
pub fn manual_resolve_step(choice: Option<ResolveChoices>, answer: Option<ResolveChoices>) -> (r: (
    Option<ResolveChoices>,
    bool,
))
    requires
        choice_asks(choice) ==> answer is Some,
    ensures
        r == manual_step(choice, answer),
{
    if !manual_resolve_asks(choice) {
        return match choice {
            Some(ResolveChoices::OverwriteAll) => (choice, true),
            _ => (choice, false),
        };
    }
    match answer {
        Some(c) => (answer, takes_candidate(c)),
        None => {
            assert(false);
            (answer, false)
        },
    }
}

/// Where resolving by hand stands: a question is owed about candidate `i`,
/// candidate `i` is taken, or none is.
pub ghost enum ManualOutcome {
    NeedAnswer(int),
    Taken(int),
    NoneTaken,
}

/// Resolving by hand over the candidates `i..m`, with the choice `choice`
/// made so far and `answers[q..]` the choices named by the answers still to
/// come (one for each question asked).
pub open spec fn manual_run(
    choice: Option<ResolveChoices>,
    answers: Seq<ResolveChoices>,
    m: int,
    i: int,
    q: int,
) -> ManualOutcome
    decreases m - i,
{
    if i >= m {
        ManualOutcome::NoneTaken
    } else if choice_asks(choice) {
        if q < 0 || q >= answers.len() {
            ManualOutcome::NeedAnswer(i)
        } else {
            let (next, take) = manual_step(choice, Some(answers[q]));
            if take {
                ManualOutcome::Taken(i)
            } else {
                manual_run(next, answers, m, i + 1, q + 1)
            }
        }
    } else {
        let (next, take) = manual_step(choice, None);
        if take {
            ManualOutcome::Taken(i)
        } else {
            manual_run(next, answers, m, i + 1, q)
        }
    }
}

proof fn lemma_manual_skips(answers: Seq<ResolveChoices>, m: int, j: int, i: int)
    requires
        0 <= i <= j,
        forall|k: int| 0 <= k < j ==> answers[k] == ResolveChoices::Skip,
        j <= answers.len(),
        j <= m,
    ensures
        manual_run(Some(ResolveChoices::Skip), answers, m, i, i) == manual_run(
            Some(ResolveChoices::Skip),
            answers,
            m,
            j,
            j,
        ),
        i == 0 ==> manual_run(None, answers, m, 0, 0) == manual_run(
            Some(ResolveChoices::Skip),
            answers,
            m,
            j,
            j,
        ),
    decreases j - i,
{
    if i < j {
        lemma_manual_skips(answers, m, j, i + 1);
    }
}

proof fn lemma_manual_skip_all(answers: Seq<ResolveChoices>, m: int, i: int)
    requires
        0 < i,
    ensures
        manual_run(Some(ResolveChoices::SkipAll), answers, m, i, 1) == ManualOutcome::NoneTaken,
    decreases m - i,
{
    if i < m {
        lemma_manual_skip_all(answers, m, i + 1);
    }
}

/// Resolving by hand over `m` candidates, first with no choice made, when
/// the first `j` answers are skip: with those answers alone the next
/// question is about candidate `j` (so exactly `j` questions came before it);
/// an answer of overwrite or overwrite_all next takes candidate `j`; when all
/// `m` candidates are skipped none is taken; and a first answer of skip_all
/// takes none, with no further question.
pub proof fn lemma_manual_run(answers: Seq<ResolveChoices>, m: int, j: int)
    requires
        0 <= j <= answers.len(),
        forall|k: int| 0 <= k < j ==> answers[k] == ResolveChoices::Skip,
    ensures
        j < m ==> manual_run(None, answers.take(j), m, 0, 0) == ManualOutcome::NeedAnswer(j),
        j < m && j < answers.len() && choice_takes(answers[j]) ==> manual_run(None, answers, m, 0, 0)
            == ManualOutcome::Taken(j),
        j == m ==> manual_run(None, answers, m, 0, 0) == ManualOutcome::NoneTaken,
        0 < m && 0 < answers.len() && answers[0] == ResolveChoices::SkipAll ==> manual_run(
            None,
            answers,
            m,
            0,
            0,
        ) == ManualOutcome::NoneTaken,
{
    if j <= m {
        lemma_manual_skips(answers, m, j, 0);
        let t = answers.take(j);
        assert forall|k: int| 0 <= k < j implies t[k] == ResolveChoices::Skip by {}
        lemma_manual_skips(t, m, j, 0);
    }
    if 0 < m && 0 < answers.len() && answers[0] == ResolveChoices::SkipAll {
        lemma_manual_skip_all(answers, m, 1);
    }
}

/// Where a run of resolving by hand stands (see [`manual_run`]).
pub enum RunOutcome {
    NeedAnswer(usize),
    Taken(usize),
    NoneTaken,
}

pub open spec fn run_outcome_is(r: RunOutcome, g: ManualOutcome) -> bool {
    match r {
        RunOutcome::NeedAnswer(i) => g == ManualOutcome::NeedAnswer(i as int),
        RunOutcome::Taken(i) => g == ManualOutcome::Taken(i as int),
        RunOutcome::NoneTaken => g == ManualOutcome::NoneTaken,
    }
}

/// Resolving by hand over `m` candidates with the choices named by the
/// answers given so far: which candidate is taken, if the answers settle it,
/// or which candidate the next question is about.
pub fn manual_run_answers(m: usize, answers: &Vec<ResolveChoices>) -> (r: RunOutcome)
    ensures
        run_outcome_is(r, manual_run(None, answers@, m as int, 0, 0)),
        r matches RunOutcome::NeedAnswer(i) ==> i < m,
        r matches RunOutcome::Taken(i) ==> i < m,
{
    let ghost goal = manual_run(None, answers@, m as int, 0, 0);
    let mut choice: Option<ResolveChoices> = None;
    let mut i: usize = 0;
    let mut q: usize = 0;
    while i < m
        invariant
            i <= m,
            q <= answers@.len(),
            goal == manual_run(None, answers@, m as int, 0, 0),
            manual_run(choice, answers@, m as int, i as int, q as int) == goal,
        decreases m - i,
    {
        let answer = if manual_resolve_asks(choice) {
            if q >= answers.len() {
                return RunOutcome::NeedAnswer(i);
            }
            let a = answers[q];
            q = q + 1;
            Some(a)
        } else {
            None
        };
        let (next, take) = manual_resolve_step(choice, answer);
        if take {
            return RunOutcome::Taken(i);
        }
        choice = next;
        i = i + 1;
    }
    RunOutcome::NoneTaken
}

/// The question asked about moving `name` from `previous` to `candidate`.
pub open spec fn manual_question(name: Seq<char>, previous: Seq<char>, candidate: Seq<char>) -> Seq<char> {
    seq!['U', 'p', 'd', 'a', 't', 'e', ' '] + name + seq![' ', 'f', 'r', 'o', 'm', ' '] + previous + seq![
        ' ',
        't',
        'o',
        ' ',
    ] + candidate + resolve_question_tail()
}

/// The question asked about moving `name` from `previous` to `candidate`.
pub fn manual_resolve_message(name: &str, previous: &str, candidate: &str) -> (r: String)
    ensures
        r@ == manual_question(name@, previous@, candidate@),
{
    let mut v: Vec<char> = vec!['U', 'p', 'd', 'a', 't', 'e', ' '];
    push_all(&mut v, &to_str_slice(name));
    push_all(&mut v, &vec![' ', 'f', 'r', 'o', 'm', ' ']);
    push_all(&mut v, &to_str_slice(previous));
    push_all(&mut v, &vec![' ', 't', 'o', ' ']);
    push_all(&mut v, &to_str_slice(candidate));
    let tail = question_tail();
    push_all(&mut v, &tail);
    chars_to_string(&v)
}

pub open spec fn resolve_question_tail() -> Seq<char> {
    seq![
        '?', ' ', '[', 'o', 'v', 'e', 'r', 'w', 'r', 'i', 't', 'e', ',', ' ', 'o', 'v', 'e', 'r',
        'w', 'r', 'i', 't', 'e', '_', 'a', 'l', 'l', ',', ' ', 's', 'k', 'i', 'p', ',', ' ', 's',
        'k', 'i', 'p', '_', 'a', 'l', 'l', ']', ':', ' ',
    ]
}

fn question_tail() -> (r: Vec<char>)
    ensures
        r@ == resolve_question_tail(),
{
    let r = vec![
        '?', ' ', '[', 'o', 'v', 'e', 'r', 'w', 'r', 'i', 't', 'e', ',', ' ', 'o', 'v', 'e', 'r',
        'w', 'r', 'i', 't', 'e', '_', 'a', 'l', 'l', ',', ' ', 's', 'k', 'i', 'p', ',', ' ', 's',
        'k', 'i', 'p', '_', 'a', 'l', 'l', ']', ':', ' ',
    ];
    assert(r@ =~= resolve_question_tail());
    r
}

pub open spec fn yes_word() -> Seq<char> {
    seq!['y', 'e', 's']
}

pub open spec fn no_word() -> Seq<char> {
    seq!['n', 'o']
}

/// An answer at the remove prompt is valid when, without trailing
/// whitespace, it is `yes` or `no`.
pub open spec fn valid_remove_answer(input: Seq<char>) -> bool {
    trim_end_of(input) == seq!['y', 'e', 's'] || trim_end_of(input) == seq!['n', 'o']
}

/// Whether an answer at the remove prompt is valid.
pub fn is_valid_remove_input(input: String) -> (r: bool)
    ensures
        r == valid_remove_answer(input@),
{
    let t = trim_end(input.as_str());
    let y = word(Ghost(yes_word()), vec!['y', 'e', 's']);
    let n = word(Ghost(no_word()), vec!['n', 'o']);
    str_eq(t.as_str(), y.as_str()) || str_eq(t.as_str(), n.as_str())
}

/// Paths of the files found in one directory.
pub type SearchResults = Vec<String>;

/// For each directory searched, the files found there.
pub type ScopeResults = Vec<(String, SearchResults)>;

pub open spec fn strs_view(v: Seq<String>) -> Seq<Seq<char>> {
    v.map_values(|s: String| s@)
}

/// Search results as values.
pub open spec fn scope_view(r: Seq<(String, SearchResults)>) -> Seq<(Seq<char>, Seq<Seq<char>>)> {
    r.map_values(|x: (String, SearchResults)| (x.0@, strs_view(x.1@)))
}

/// The first file of the first directory in which anything was found.
pub open spec fn first_found(r: Seq<(Seq<char>, Seq<Seq<char>>)>) -> Option<Seq<char>>
    decreases r.len(),
{
    if r.len() == 0 {
        None
    } else if r[0].1.len() > 0 {
        Some(r[0].1[0])
    } else {
        first_found(r.drop_first())
    }
}

/// Automatically chooses the best candidate to resolve the shortpath to: the
/// first file of the nearest directory in which anything was found.
pub fn auto_resolve(name: String, results: ScopeResults) -> (r: Option<(String, String)>)
    ensures
        match r {
            Some((n, p)) => n@ == name@ && first_found(scope_view(results@)) == Some(p@),
            None => first_found(scope_view(results@)) is None,
        },
{
    let ghost rv = scope_view(results@);
    let mut i: usize = 0;
    assert(rv.skip(0) =~= rv);
    while i < results.len()
        invariant
            rv == scope_view(results@),
            i <= results@.len(),
            first_found(rv) == first_found(rv.skip(i as int)),
        decreases results@.len() - i,
    {
        assert(rv.skip(i as int)[0] == rv[i as int]);
        assert(rv.skip(i as int).drop_first() =~= rv.skip(i + 1));
        if results[i].1.len() > 0 {
            assert(rv[i as int].1[0] == results@[i as int].1@[0]@);
            return Some((name, results[i].1[0].clone()));
        }
        i = i + 1;
    }
    assert(rv.skip(i as int) =~= Seq::<(Seq<char>, Seq<Seq<char>>)>::empty());
    None
}

/// Directory entries as values: each file name with the entry's path.
pub open spec fn entries_view(v: Seq<(String, String)>) -> Seq<(Seq<char>, Seq<char>)> {
    v.map_values(|x: (String, String)| (x.0@, x.1@))
}

/// The paths of the entries named `name`, in order.
pub open spec fn entries_named(name: Seq<char>, dir: Seq<(Seq<char>, Seq<char>)>) -> Seq<Seq<char>>
    decreases dir.len(),
{
    if dir.len() == 0 {
        Seq::empty()
    } else {
        entries_named(name, dir.drop_last()) + (if dir.last().0 == name {
            seq![dir.last().1]
        } else {
            Seq::<Seq<char>>::empty()
        })
    }
}

/// The entries of a directory listing (file name, path) whose file name is
/// that of the shortpath's path: the paths of the files that may be the
/// shortpath moved elsewhere.
pub fn matching_file_names(sp: &Shortpath, dir: Vec<(String, String)>) -> (r: SearchResults)
    requires
        file_name_of(sp.path@) is Some,
    ensures
        strs_view(r@) == entries_named(file_name_of(sp.path@).unwrap(), entries_view(dir@)),
{
    let name = match file_name(sp.path.as_str()) {
        Some(n) => n,
        None => {
            assert(false);
            return Vec::new();
        },
    };
    let ghost dv = entries_view(dir@);
    let mut out: SearchResults = Vec::new();
    let mut i: usize = 0;
    while i < dir.len()
        invariant
            dv == entries_view(dir@),
            name@ == file_name_of(sp.path@).unwrap(),
            i <= dir@.len(),
            strs_view(out@) == entries_named(name@, dv.take(i as int)),
        decreases dir@.len() - i,
    {
        let ghost prev = strs_view(out@);
        assert(dv.take(i + 1).drop_last() =~= dv.take(i as int));
        assert(dv.take(i + 1).last() == (dir@[i as int].0@, dir@[i as int].1@));
        if str_eq(dir[i].0.as_str(), name.as_str()) {
            out.push(dir[i].1.clone());
            assert(strs_view(out@) =~= prev + seq![dir@[i as int].1@]);
        } else {
            assert(strs_view(out@) =~= prev + Seq::<Seq<char>>::empty());
        }
        i = i + 1;
    }
    assert(dv.take(dir@.len() as int) =~= dv);
    out
}

/// The parents of `path`, nearest first, at most `n` of them.
pub open spec fn parent_chain(path: Seq<char>, n: nat) -> Seq<Seq<char>>
    decreases n,
{
    if n == 0 {
        Seq::empty()
    } else {
        match path_parent_of(path) {
            None => Seq::empty(),
            Some(p) => seq![p] + parent_chain(p, (n - 1) as nat),
        }
    }
}

/// The directories above `path`, nearest first: where a missing file is
/// looked for.
pub fn parent_dirs(path: &str) -> (r: Vec<String>)
    ensures
        strs_view(r@) == parent_chain(path@, path@.len()),
{
    let ghost total = path@.len();
    let ghost orig = path@;
    let mut out: Vec<String> = Vec::new();
    let mut cur = copy_str(path);
    let ghost mut n: nat = total;
    loop
        invariant
            orig == path@,
            total == orig.len(),
            cur@.len() <= n,
            strs_view(out@) + parent_chain(cur@, n) == parent_chain(orig, total),
        decreases cur@.len(),
    {
        match path_parent(cur.as_str()) {
            Some(parent) => {
                let ghost prev = strs_view(out@);
                assert(parent_chain(cur@, n) == seq![parent@] + parent_chain(parent@, (n - 1) as nat));
                out.push(copy_str(parent.as_str()));
                assert(strs_view(out@) =~= prev + seq![parent@]);
                cur = parent;
                proof {
                    n = (n - 1) as nat;
                }
            },
            None => {
                assert(parent_chain(cur@, n) == Seq::<Seq<char>>::empty());
                assert(strs_view(out@) + Seq::<Seq<char>>::empty() =~= strs_view(out@));
                return out;
            },
        }
    }
}

/// A copy of search results.
pub fn clone_scope_results(r: &ScopeResults) -> (c: ScopeResults)
    ensures
        scope_view(c@) == scope_view(r@),
{
    let mut out: ScopeResults = Vec::new();
    let mut i: usize = 0;
    while i < r.len()
        invariant
            i <= r@.len(),
            scope_view(out@) == scope_view(r@).take(i as int),
        decreases r@.len() - i,
    {
        let mut files: Vec<String> = Vec::new();
        let mut j: usize = 0;
        while j < r[i].1.len()
            invariant
                i < r@.len(),
                j <= r@[i as int].1@.len(),
                strs_view(files@) == strs_view(r@[i as int].1@).take(j as int),
            decreases r@[i as int].1@.len() - j,
        {
            let f = r[i].1[j].clone();
            assert(f@ == r@[i as int].1@[j as int]@);
            let ghost prevf = strs_view(files@);
            files.push(f);
            assert(strs_view(files@) =~= prevf.push(f@));
            j = j + 1;
            assert(strs_view(files@) =~= strs_view(r@[i as int].1@).take(j as int));
        }
        assert(strs_view(r@[i as int].1@).take(j as int) =~= strs_view(r@[i as int].1@));
        let ghost prevo = scope_view(out@);
        let d = r[i].0.clone();
        assert(strs_view(files@) == strs_view(r@[i as int].1@));
        out.push((d, files));
        assert(scope_view(out@) =~= prevo.push((r@[i as int].0@, strs_view(r@[i as int].1@))));
        i = i + 1;
        assert(scope_view(out@) =~= scope_view(r@).take(i as int));
    }
    assert(scope_view(r@).take(r@.len() as int) =~= scope_view(r@));
    out
}


/// A directory entry named `name`.
pub open spec fn entry_named(name: Seq<char>) -> spec_fn((Seq<char>, Seq<char>)) -> bool {
    |x: (Seq<char>, Seq<char>)| x.0 == name
}

/// The search of a directory listing for `name` returns exactly the paths
/// of the entries whose file name is `name`, in the order of the listing:
/// each path returned is that of an entry named `name`, and every entry
/// named `name` has its path returned.
pub proof fn lemma_entries_named(name: Seq<char>, dir: Seq<(Seq<char>, Seq<char>)>)
    ensures
        ({
            let r = entries_named(name, dir);
            let f = dir.filter(entry_named(name));
            &&& r.len() == f.len()
            &&& forall|j: int| 0 <= j < r.len() ==> r[j] == f[j].1
            &&& forall|j: int| 0 <= j < r.len() ==> dir.contains((name, #[trigger] r[j]))
            &&& forall|i: int| 0 <= i < dir.len() && dir[i].0 == name ==> r.contains(#[trigger] dir[i].1)
        }),
    decreases dir.len(),
{
    reveal(Seq::filter);
    let r = entries_named(name, dir);
    if dir.len() == 0 {
        assert(dir.filter(entry_named(name)).len() == 0);
    } else {
        let d0 = dir.drop_last();
        lemma_entries_named(name, d0);
        let r0 = entries_named(name, d0);
        let last = dir.last();
        assert(dir.filter(entry_named(name)) == (if entry_named(name)(last) {
            d0.filter(entry_named(name)).push(last)
        } else {
            d0.filter(entry_named(name))
        }));
        let f0 = d0.filter(entry_named(name));
        let f = dir.filter(entry_named(name));
        if last.0 == name {
            assert(r =~= r0.push(last.1));
            assert(f == f0.push(last));
        } else {
            assert(r =~= r0);
            assert(f == f0);
        }
        assert(r.len() == f.len());
        assert forall|j: int| 0 <= j < r.len() implies r[j] == f[j].1 by {
            if j < r0.len() {
                assert(r[j] == r0[j]);
                assert(f[j] == f0[j]);
            }
        }
        assert forall|j: int| 0 <= j < r.len() implies dir.contains((name, #[trigger] r[j])) by {
            if j < r0.len() {
                assert(r[j] == r0[j]);
                assert(d0.contains((name, r0[j])));
                let i = choose|i: int| 0 <= i < d0.len() && d0[i] == (name, r0[j]);
                assert(dir[i] == d0[i]);
            } else {
                assert(last.0 == name);
                assert(r[j] == last.1);
                assert(dir[dir.len() - 1] == (name, r[j]));
            }
        }
        assert forall|i: int| 0 <= i < dir.len() && dir[i].0 == name implies r.contains(#[trigger] dir[i].1) by {
            if i < d0.len() {
                assert(dir[i] == d0[i]);
                assert(r0.contains(d0[i].1));
                let j = choose|j: int| 0 <= j < r0.len() && r0[j] == d0[i].1;
                assert(r[j] == r0[j]);
            } else {
                assert(r[r0.len() as int] == last.1);
            }
        }
    }
}

} // verus!
