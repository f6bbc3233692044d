//! Lists of words (`Vec<String>`): comparison, membership and the canonical sorted set form.
use vstd::prelude::*;
use vstd::relations::{sorted_by, strict_total_ordering};
use crate::order::{lemma_insert_members, lemma_insert_sorted, lemma_take_push_members};
use crate::text::{chars_lt, text_order, is_word_set, lemma_chars_strict_total, str_less, words_lt};

verus! {

/// Whether every word of `s` occurs in `t`.
pub open spec fn covers(t: Seq<Seq<char>>, s: Seq<Seq<char>>) -> bool {
    forall|i: int| 0 <= i < s.len() ==> t.contains(#[trigger] s[i])
}

/// Whether two lists of words agree on their first `n` words.
pub fn words_prefix_equal(a: &Vec<String>, b: &Vec<String>, n: usize) -> (r: bool)
    requires
        n <= a.len(),
        n <= b.len(),
    ensures
        r == (a.deep_view().take(n as int) == b.deep_view().take(n as int)),
{
    let mut i: usize = 0;
    while i < n
        invariant
            i <= n <= a.len(),
            n <= b.len(),
            a.deep_view().take(i as int) == b.deep_view().take(i as int),
        decreases n - i,
    {
        if a[i] != b[i] {
            assert(a.deep_view().take(n as int)[i as int] != b.deep_view().take(n as int)[i as int]);
            return false;
        }
        assert(a.deep_view().take(i + 1) =~= b.deep_view().take(i + 1)) by {
            assert(a.deep_view().take(i as int) =~= b.deep_view().take(i as int));
        }
        i = i + 1;
    }
    true
}

/// Whether two lists of words are equal.
pub fn words_equal(a: &Vec<String>, b: &Vec<String>) -> (r: bool)
    ensures
        r == (a.deep_view() == b.deep_view()),
{
    if a.len() != b.len() {
        return false;
    }
    let r = words_prefix_equal(a, b, a.len());
    assert(a.deep_view().take(a.len() as int) =~= a.deep_view());
    assert(b.deep_view().take(b.len() as int) =~= b.deep_view());
    r
}

/// A copy of a list of words.
pub fn clone_words(v: &Vec<String>) -> (r: Vec<String>)
    ensures
        r.deep_view() == v.deep_view(),
{
    let mut r: Vec<String> = Vec::new();
    let mut i: usize = 0;
    while i < v.len()
        invariant
            i <= v.len(),
            r.deep_view() =~= v.deep_view().take(i as int),
        decreases v.len() - i,
    {
        let c = v[i].clone();
        let ghost old_r = r.deep_view();
        r.push(c);
        assert(r.deep_view() =~= old_r.push(v.deep_view()[i as int]));
        assert(v.deep_view().take(i + 1) =~= v.deep_view().take(i as int).push(v.deep_view()[i as int]));
        i = i + 1;
    }
    assert(v.deep_view().take(v.len() as int) =~= v.deep_view());
    r
}

/// Whether the list `x` occurs in `v`.
pub fn contains_words(v: &Vec<Vec<String>>, x: &Vec<String>) -> (r: bool)
    ensures
        r == v.deep_view().contains(x.deep_view()),
{
    let mut i: usize = 0;
    while i < v.len()
        invariant
            i <= v.len(),
            forall|j: int| 0 <= j < i ==> v.deep_view()[j] != x.deep_view(),
        decreases v.len() - i,
    {
        if words_equal(&v[i], x) {
            assert(v.deep_view()[i as int] == x.deep_view());
            return true;
        }
        i = i + 1;
    }
    false
}

/// Whether `a` comes strictly before `b` in the order of `Vec<String>`.
pub fn words_less(a: &Vec<String>, b: &Vec<String>) -> (r: bool)
    ensures
        r == words_lt(a.deep_view(), b.deep_view()),
{
    let mut i: usize = 0;
    assert(a.deep_view().skip(0) =~= a.deep_view());
    assert(b.deep_view().skip(0) =~= b.deep_view());
    while i < a.len() && i < b.len()
        invariant
            i <= a.len(),
            i <= b.len(),
            words_lt(a.deep_view(), b.deep_view()) == words_lt(
                a.deep_view().skip(i as int),
                b.deep_view().skip(i as int),
            ),
        decreases a.len() - i,
    {
        if a[i] != b[i] {
            return str_less(a[i].as_str(), b[i].as_str());
        }
        assert(a.deep_view().skip(i as int).drop_first() =~= a.deep_view().skip(i + 1));
        assert(b.deep_view().skip(i as int).drop_first() =~= b.deep_view().skip(i + 1));
        i = i + 1;
    }
    i < b.len()
}

/// Whether `x` occurs in `v`.
pub fn contains_word(v: &Vec<String>, x: &String) -> (r: bool)
    ensures
        r == v.deep_view().contains(x@),
{
    let mut i: usize = 0;
    while i < v.len()
        invariant
            i <= v.len(),
            forall|j: int| 0 <= j < i ==> v.deep_view()[j] != x@,
        decreases v.len() - i,
    {
        if v[i] == *x {
            assert(v.deep_view()[i as int] == x@);
            return true;
        }
        i = i + 1;
    }
    false
}

/// Whether every word of `s` occurs in `t`.
pub fn covers_words(t: &Vec<String>, s: &Vec<String>) -> (r: bool)
    ensures
        r == covers(t.deep_view(), s.deep_view()),
{
    let mut i: usize = 0;
    while i < s.len()
        invariant
            i <= s.len(),
            forall|j: int| 0 <= j < i ==> t.deep_view().contains(#[trigger] s.deep_view()[j]),
        decreases s.len() - i,
    {
        if !contains_word(t, &s[i]) {
            assert(!t.deep_view().contains(s.deep_view()[i as int]));
            return false;
        }
        i = i + 1;
    }
    true
}

/// Adds `x` to a word set, keeping it a word set.
pub fn insert_word(v: &mut Vec<String>, x: String)
    requires
        is_word_set(old(v).deep_view()),
    ensures
        is_word_set(final(v).deep_view()),
        forall|y: Seq<char>| #[trigger]
            final(v).deep_view().contains(y) <==> (old(v).deep_view().contains(y) || y == x@),
{
    proof {
        lemma_chars_strict_total();
    }
    let ghost lt = text_order();
    let ghost old_v = v.deep_view();
    let mut p: usize = 0;
    while p < v.len() && str_less(v[p].as_str(), x.as_str())
        invariant
            p <= v.len(),
            v.deep_view() == old_v,
            forall|j: int| 0 <= j < p ==> chars_lt(#[trigger] old_v[j], x@),
        decreases v.len() - p,
    {
        p = p + 1;
    }
    if p < v.len() && v[p] == x {
        assert(old_v[p as int] == x@);
        return;
    }
    v.insert(p, x);
    proof {
        assert(v.deep_view() =~= old_v.insert(p as int, x@));
        if p < old_v.len() {
            assert(old_v[p as int] != x@);
            assert(!lt(old_v[p as int], x@));
            assert(lt(old_v[p as int], x@) || lt(x@, old_v[p as int]));
        }
        lemma_insert_sorted(old_v, x@, p as int, lt);
        lemma_insert_members(old_v, x@, p as int);
    }
}

/// The distinct words of `v` in increasing order.
pub fn word_set_of(v: &Vec<String>) -> (r: Vec<String>)
    ensures
        is_word_set(r.deep_view()),
        forall|y: Seq<char>| #[trigger] r.deep_view().contains(y) <==> v.deep_view().contains(y),
{
    let mut r: Vec<String> = Vec::new();
    let mut i: usize = 0;
    while i < v.len()
        invariant
            i <= v.len(),
            is_word_set(r.deep_view()),
            forall|y: Seq<char>| #[trigger]
                r.deep_view().contains(y) <==> v.deep_view().take(i as int).contains(y),
        decreases v.len() - i,
    {
        insert_word(&mut r, v[i].clone());
        proof {
            lemma_take_push_members(v.deep_view(), i as int);
        }
        i = i + 1;
    }
    assert(v.deep_view().take(v.len() as int) =~= v.deep_view());
    r
}

} // verus!
