//! Text primitives on character sequences: conversion between `String` and
//! `Vec<char>`, prefix and substring tests, and search-and-replace with the
//! leftmost, non-overlapping semantics of `str::replace`.

use vstd::prelude::*;

verus! {

/// Every non-overlapping occurrence of `pat` in `s`, taken from left to right,
/// replaced by `with`.  An empty pattern matches before every character and at
/// the end, so `with` is put between all characters and at both ends.
pub open spec fn replace_all(s: Seq<char>, pat: Seq<char>, with: Seq<char>) -> Seq<char>
    decreases s.len(),
{
    if pat.len() == 0 {
        insert_between(s, with)
    } else if s.len() < pat.len() {
        s
    } else if s.take(pat.len() as int) == pat {
        with + replace_all(s.skip(pat.len() as int), pat, with)
    } else {
        seq![s[0]] + replace_all(s.drop_first(), pat, with)
    }
}

/// `w`, then each character of `s` followed by `w`.
pub open spec fn insert_between(s: Seq<char>, w: Seq<char>) -> Seq<char>
    decreases s.len(),
{
    if s.len() == 0 {
        w
    } else {
        w + seq![s[0]] + insert_between(s.drop_first(), w)
    }
}

/// `s` begins with `prefix`.
pub open spec fn has_prefix(s: Seq<char>, prefix: Seq<char>) -> bool {
    prefix.len() <= s.len() && s.take(prefix.len() as int) == prefix
}

/// `pat` occurs in `s` at position `i`.
pub open spec fn occurs_at(s: Seq<char>, pat: Seq<char>, i: int) -> bool {
    0 <= i && i + pat.len() <= s.len() && s.subrange(i, i + pat.len()) == pat
}

/// `pat` occurs somewhere in `s`.
pub open spec fn contains_seq(s: Seq<char>, pat: Seq<char>) -> bool {
    exists|i: int| occurs_at(s, pat, i)
}

/// Appends a character to a `String` (`String::push`).
#[verifier::external_body]
pub(crate) fn string_push(s: &mut String, c: char)
    ensures
        final(s)@ == old(s)@.push(c),
{
    s.push(c);
}

/// The characters of `s`, in order.
pub fn to_str_slice(s: &str) -> (r: Vec<char>)
    ensures
        r@ == s@,
{
    let mut r: Vec<char> = Vec::new();
    for c in iter: s.chars()
        invariant
            r@ == iter.seq().take(iter.index() as int),
            iter.seq() == s@,
    {
        r.push(c);
    }
    assert(r@ =~= s@);
    r
}

/// A `String` holding the characters of `v`.
pub fn chars_to_string(v: &Vec<char>) -> (r: String)
    ensures
        r@ == v@,
{
    let mut r = String::new();
    let mut i: usize = 0;
    while i < v.len()
        invariant
            i <= v@.len(),
            r@ == v@.take(i as int),
        decreases v@.len() - i,
    {
        string_push(&mut r, v[i]);
        i = i + 1;
        assert(r@ =~= v@.take(i as int));
    }
    assert(v@.take(v@.len() as int) =~= v@);
    r
}

/// Appends every element of `src` to `out`.
pub fn push_all(out: &mut Vec<char>, src: &Vec<char>)
    ensures
        final(out)@ == old(out)@ + src@,
{
    let mut i: usize = 0;
    while i < src.len()
        invariant
            i <= src@.len(),
            out@ == old(out)@ + src@.take(i as int),
        decreases src@.len() - i,
    {
        out.push(src[i]);
        i = i + 1;
        assert(out@ =~= old(out)@ + src@.take(i as int));
    }
    assert(src@.take(src@.len() as int) =~= src@);
}

/// Whether `pat` occurs in `s` at position `i`.
pub fn matches_at(s: &Vec<char>, pat: &Vec<char>, i: usize) -> (r: bool)
    ensures
        r == occurs_at(s@, pat@, i as int),
{
    if i > s.len() || pat.len() > s.len() - i {
        return false;
    }
    let n = s.len();
    let mut j: usize = 0;
    while j < pat.len()
        invariant
            n == s@.len(),
            i + pat@.len() <= s@.len(),
            j <= pat@.len(),
            forall|k: int| 0 <= k < j ==> s@[i + k] == pat@[k],
        decreases pat@.len() - j,
    {
        let idx: usize = i + j;
        if s[idx] != pat[j] {
            assert(s@.subrange(i as int, i + pat@.len())[j as int] != pat@[j as int]);
            return false;
        }
        j = j + 1;
    }
    assert(s@.subrange(i as int, i + pat@.len()) =~= pat@);
    true
}

/// Whether `s` begins with `prefix`.
pub fn starts_with_chars(s: &Vec<char>, prefix: &Vec<char>) -> (r: bool)
    ensures
        r == has_prefix(s@, prefix@),
{
    let r = matches_at(s, prefix, 0);
    proof {
        if prefix@.len() <= s@.len() {
            assert(s@.subrange(0, prefix@.len() as int) =~= s@.take(prefix@.len() as int));
        }
    }
    r
}

/// Whether `pat` occurs anywhere in `s`.
pub fn contains_chars(s: &Vec<char>, pat: &Vec<char>) -> (r: bool)
    ensures
        r == contains_seq(s@, pat@),
{
    if pat.len() > s.len() {
        return false;
    }
    if pat.len() == 0 {
        assert(s@.subrange(0, 0) =~= pat@);
        assert(occurs_at(s@, pat@, 0));
        return true;
    }
    let n = s.len();
    let last = n - pat.len();
    let mut i: usize = 0;
    while i <= last
        invariant
            n == s@.len(),
            last == s@.len() - pat@.len(),
            0 < pat@.len() <= s@.len(),
            last < s@.len(),
            i <= last + 1,
            forall|k: int| 0 <= k < i ==> !occurs_at(s@, pat@, k),
        decreases last + 1 - i,
    {
        if matches_at(s, pat, i) {
            return true;
        }
        i = i + 1;
    }
    assert forall|k: int| !occurs_at(s@, pat@, k) by {
        if occurs_at(s@, pat@, k) {
            assert(k <= last);
        }
    }
    false
}

proof fn lemma_replace_step_match(s: Seq<char>, pat: Seq<char>, with: Seq<char>, i: int)
    requires
        pat.len() > 0,
        0 <= i,
        occurs_at(s, pat, i),
    ensures
        replace_all(s.skip(i), pat, with) == with + replace_all(s.skip(i + pat.len()), pat, with),
{
    assert(s.skip(i).take(pat.len() as int) =~= s.subrange(i, i + pat.len()));
    assert(s.skip(i).skip(pat.len() as int) =~= s.skip(i + pat.len()));
}

proof fn lemma_replace_step_nomatch(s: Seq<char>, pat: Seq<char>, with: Seq<char>, i: int)
    requires
        pat.len() > 0,
        0 <= i,
        i + pat.len() <= s.len(),
        !occurs_at(s, pat, i),
    ensures
        replace_all(s.skip(i), pat, with) == seq![s[i]] + replace_all(s.skip(i + 1), pat, with),
{
    assert(s.skip(i).take(pat.len() as int) =~= s.subrange(i, i + pat.len()));
    assert(s.skip(i).drop_first() =~= s.skip(i + 1));
}

/// `s` with every non-overlapping occurrence of `pat` (leftmost first)
/// replaced by `with`.
pub fn replace_chars(s: &Vec<char>, pat: &Vec<char>, with: &Vec<char>) -> (r: Vec<char>)
    ensures
        r@ == replace_all(s@, pat@, with@),
{
    let mut out: Vec<char> = Vec::new();
    let mut i: usize = 0;
    if pat.len() == 0 {
        assert(s@.skip(0) =~= s@);
        while i < s.len()
            invariant
                pat@.len() == 0,
                i <= s@.len(),
                out@ + insert_between(s@.skip(i as int), with@) == replace_all(s@, pat@, with@),
            decreases s@.len() - i,
        {
            proof {
                assert(s@.skip(i as int).drop_first() =~= s@.skip(i + 1));
                assert(insert_between(s@.skip(i as int), with@) == with@ + seq![s@[i as int]]
                    + insert_between(s@.skip(i + 1), with@));
            }
            let ghost prev = out@;
            push_all(&mut out, with);
            out.push(s[i]);
            i = i + 1;
            assert(out@ =~= prev + with@ + seq![s@[i - 1]]);
            assert(out@ + insert_between(s@.skip(i as int), with@) =~= prev + (with@ + seq![
                s@[i - 1],
            ] + insert_between(s@.skip(i as int), with@)));
        }
        assert(s@.skip(i as int) =~= Seq::<char>::empty());
        push_all(&mut out, with);
        return out;
    }
    assert(s@.skip(0) =~= s@);
    while pat.len() <= s.len() - i
        invariant
            pat@.len() > 0,
            i <= s@.len(),
            out@ + replace_all(s@.skip(i as int), pat@, with@) == replace_all(s@, pat@, with@),
        decreases s@.len() - i,
    {
        let ghost prev = out@;
        if matches_at(s, pat, i) {
            proof {
                lemma_replace_step_match(s@, pat@, with@, i as int);
            }
            push_all(&mut out, with);
            i = i + pat.len();
            assert(out@ + replace_all(s@.skip(i as int), pat@, with@) =~= prev + (with@
                + replace_all(s@.skip(i as int), pat@, with@)));
        } else {
            proof {
                lemma_replace_step_nomatch(s@, pat@, with@, i as int);
            }
            out.push(s[i]);
            i = i + 1;
            assert(out@ + replace_all(s@.skip(i as int), pat@, with@) =~= prev + (seq![s@[i - 1]]
                + replace_all(s@.skip(i as int), pat@, with@)));
        }
    }
    let ghost mid = out@;
    let mut rest: Vec<char> = Vec::new();
    let mut j: usize = i;
    while j < s.len()
        invariant
            i <= j <= s@.len(),
            rest@ == s@.subrange(i as int, j as int),
        decreases s@.len() - j,
    {
        rest.push(s[j]);
        j = j + 1;
        assert(rest@ =~= s@.subrange(i as int, j as int));
    }
    assert(rest@ =~= s@.skip(i as int));
    push_all(&mut out, &rest);
    out
}

/// `String` form of [`replace_chars`].
pub fn replace_str(s: &str, pat: &str, with: &str) -> (r: String)
    ensures
        r@ == replace_all(s@, pat@, with@),
{
    let sv = to_str_slice(s);
    let pv = to_str_slice(pat);
    let wv = to_str_slice(with);
    let rv = replace_chars(&sv, &pv, &wv);
    chars_to_string(&rv)
}

/// The concatenation of `a` and `b`.
pub fn concat_str(a: &str, b: &str) -> (r: String)
    ensures
        r@ == a@ + b@,
{
    let mut v = to_str_slice(a);
    let w = to_str_slice(b);
    push_all(&mut v, &w);
    chars_to_string(&v)
}

/// A copy of `s`.
pub fn copy_str(s: &str) -> (r: String)
    ensures
        r@ == s@,
{
    let v = to_str_slice(s);
    chars_to_string(&v)
}

/// Whether the strings `a` and `b` hold the same characters.
pub fn str_eq(a: &str, b: &str) -> (r: bool)
    ensures
        r == (a@ == b@),
{
    let av = to_str_slice(a);
    let bv = to_str_slice(b);
    if av.len() != bv.len() {
        return false;
    }
    let r = matches_at(&av, &bv, 0);
    proof {
        if r {
            assert(av@ =~= av@.subrange(0, bv@.len() as int));
        }
        if av@ == bv@ {
            assert(av@.subrange(0, bv@.len() as int) =~= bv@);
        }
    }
    r
}

/// Position of the first occurrence of `pat` in `s`.
pub open spec fn first_occurrence(s: Seq<char>, pat: Seq<char>) -> Option<int>
    decreases s.len(),
{
    if s.len() < pat.len() {
        None
    } else if has_prefix(s, pat) {
        Some(0)
    } else if s.len() == 0 {
        None
    } else {
        match first_occurrence(s.drop_first(), pat) {
            Some(k) => Some(k + 1),
            None => None,
        }
    }
}

/// The pieces of `s` between the characters `c`, empty pieces included (as
/// `str::split` with a character gives them).
pub open spec fn split_on(s: Seq<char>, c: char) -> Seq<Seq<char>>
    decreases s.len(),
{
    match first_occurrence(s, seq![c]) {
        Some(k) => if 0 <= k < s.len() {
            seq![s.take(k)] + split_on(s.skip(k + 1), c)
        } else {
            seq![s]
        },
        None => seq![s],
    }
}

/// The first occurrence lies within the text, and the pattern is there.
pub proof fn lemma_first_occurrence_bounds(s: Seq<char>, pat: Seq<char>)
    ensures
        first_occurrence(s, pat) matches Some(k) ==> 0 <= k && k + pat.len() <= s.len() && s.subrange(
            k,
            k + pat.len(),
        ) == pat,
    decreases s.len(),
{
    if s.len() >= pat.len() && has_prefix(s, pat) {
        assert(s.subrange(0, pat.len() as int) =~= s.take(pat.len() as int));
    }
    if s.len() >= pat.len() && !has_prefix(s, pat) && s.len() > 0 {
        lemma_first_occurrence_bounds(s.drop_first(), pat);
        if let Some(k) = first_occurrence(s.drop_first(), pat) {
            assert(s.drop_first().subrange(k, k + pat.len()) =~= s.subrange(k + 1, k + 1 + pat.len()));
        }
    }
}

proof fn lemma_first_occurrence_at(s: Seq<char>, pat: Seq<char>, i: int)
    requires
        0 <= i,
        occurs_at(s, pat, i),
        forall|k: int| 0 <= k < i ==> !occurs_at(s, pat, k),
    ensures
        first_occurrence(s, pat) == Some(i),
    decreases i,
{
    if i == 0 {
        assert(s.take(pat.len() as int) =~= s.subrange(0, pat.len() as int));
    } else {
        assert(!occurs_at(s, pat, 0));
        assert(!has_prefix(s, pat)) by {
            if has_prefix(s, pat) {
                assert(s.take(pat.len() as int) =~= s.subrange(0, pat.len() as int));
            }
        }
        assert forall|k: int| 0 <= k < i - 1 implies !occurs_at(s.drop_first(), pat, k) by {
            assert(!occurs_at(s, pat, k + 1));
            if occurs_at(s.drop_first(), pat, k) {
                assert(s.drop_first().subrange(k, k + pat.len()) =~= s.subrange(k + 1, k + 1 + pat.len()));
            }
        }
        assert(s.drop_first().subrange(i - 1, i - 1 + pat.len()) =~= s.subrange(i, i + pat.len()));
        lemma_first_occurrence_at(s.drop_first(), pat, i - 1);
    }
}

proof fn lemma_first_occurrence_none(s: Seq<char>, pat: Seq<char>)
    requires
        forall|k: int| !occurs_at(s, pat, k),
    ensures
        first_occurrence(s, pat) is None,
    decreases s.len(),
{
    if s.len() >= pat.len() {
        assert(!occurs_at(s, pat, 0));
        assert(!has_prefix(s, pat)) by {
            if has_prefix(s, pat) {
                assert(s.take(pat.len() as int) =~= s.subrange(0, pat.len() as int));
            }
        }
        if s.len() > 0 {
            assert forall|k: int| !occurs_at(s.drop_first(), pat, k) by {
                assert(!occurs_at(s, pat, k + 1));
                if occurs_at(s.drop_first(), pat, k) {
                    assert(s.drop_first().subrange(k, k + pat.len()) =~= s.subrange(k + 1, k + 1 + pat.len()));
                }
            }
            lemma_first_occurrence_none(s.drop_first(), pat);
        }
    }
}

/// The position of the first occurrence of `pat` in `s`, if any.
pub fn find_first(s: &Vec<char>, pat: &Vec<char>) -> (r: Option<usize>)
    ensures
        match r {
            Some(k) => first_occurrence(s@, pat@) == Some(k as int) && k + pat@.len() <= s@.len(),
            None => first_occurrence(s@, pat@) is None,
        },
{
    if pat.len() > s.len() {
        proof {
            lemma_first_occurrence_none(s@, pat@);
        }
        return None;
    }
    let n = s.len();
    let last = n - pat.len();
    let mut i: usize = 0;
    while i <= last
        invariant
            n == s@.len(),
            last == n - pat@.len(),
            pat@.len() <= n,
            i <= last + 1,
            forall|k: int| 0 <= k < i ==> !occurs_at(s@, pat@, k),
        decreases last + 1 - i,
    {
        if matches_at(s, pat, i) {
            proof {
                lemma_first_occurrence_at(s@, pat@, i as int);
            }
            return Some(i);
        }
        if i == last {
            proof {
                assert forall|k: int| !occurs_at(s@, pat@, k) by {
                    if occurs_at(s@, pat@, k) {
                        assert(k <= last);
                    }
                }
                lemma_first_occurrence_none(s@, pat@);
            }
            return None;
        }
        i = i + 1;
    }
    proof {
        assert forall|k: int| !occurs_at(s@, pat@, k) by {
            if occurs_at(s@, pat@, k) {
                assert(k <= last);
            }
        }
        lemma_first_occurrence_none(s@, pat@);
    }
    None
}

/// The characters of `s` from `from` to `to`.
pub fn slice_chars(s: &Vec<char>, from: usize, to: usize) -> (r: Vec<char>)
    requires
        from <= to <= s@.len(),
    ensures
        r@ == s@.subrange(from as int, to as int),
{
    let mut out: Vec<char> = Vec::new();
    let mut i: usize = from;
    while i < to
        invariant
            from <= i <= to <= s@.len(),
            out@ == s@.subrange(from as int, i as int),
        decreases to - i,
    {
        out.push(s[i]);
        i = i + 1;
        assert(out@ =~= s@.subrange(from as int, i as int));
    }
    out
}

} // verus!
