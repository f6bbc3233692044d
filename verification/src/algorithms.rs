//! Frequent itemset mining (Apriori), sequential pattern mining (PrefixSpan) and next-app
//! prediction from sequential patterns.
use vstd::prelude::*;
use vstd::relations::{sorted_by, strict_total_ordering};
use crate::order::{
    lemma_insert_members, lemma_insert_sorted, lemma_sorted_same_members_equal,
    lemma_take_push_members,
};
use crate::text::{
    chars_lt, lex_lt, str_equal, is_word_set, lemma_chars_strict_total, lemma_lex_common_prefix,
    lemma_words_strict_total, text_order, words_lt, words_order,
};
use crate::words::{
    clone_words, contains_words, covers, covers_words, insert_word, word_set_of,
    words_less, words_prefix_equal,
};

verus! {

// ------------------------------------------------------------------
// Apriori
// ------------------------------------------------------------------

/// A set of applications used together, and in how many transactions it occurs.
#[derive(Debug, Clone, PartialEq)]
pub struct FrequentItemset {
    /// The items, in increasing order, each once.
    pub items: Vec<String>,
    /// The number of transactions that hold every item.
    pub support: usize,
}

impl DeepView for FrequentItemset {
    type V = (Seq<Seq<char>>, nat);

    open spec fn deep_view(&self) -> (Seq<Seq<char>>, nat) {
        (self.items.deep_view(), self.support as nat)
    }
}

/// The number of the first `n` transactions that hold every item of `s`.
pub open spec fn support_upto(txs: Seq<Seq<Seq<char>>>, s: Seq<Seq<char>>, n: int) -> nat
    decreases n,
{
    if n <= 0 {
        0
    } else {
        support_upto(txs, s, n - 1) + if covers(txs[n - 1], s) {
            1nat
        } else {
            0nat
        }
    }
}

/// The number of transactions that hold every item of `s`.
pub open spec fn support(txs: Seq<Seq<Seq<char>>>, s: Seq<Seq<char>>) -> nat {
    support_upto(txs, s, txs.len() as int)
}

/// An itemset that Apriori reports: 2 to 5 distinct items, in increasing order, held together
/// by at least `min_support` transactions.
pub open spec fn is_frequent_itemset(
    txs: Seq<Seq<Seq<char>>>,
    min_support: nat,
    s: Seq<Seq<char>>,
) -> bool {
    &&& is_word_set(s)
    &&& 2 <= s.len() <= 5
    &&& support(txs, s) >= min_support
}

/// The order of results: higher support first, then larger sets, then by items.
pub open spec fn ranked_before(a: (Seq<Seq<char>>, nat), b: (Seq<Seq<char>>, nat)) -> bool {
    ||| a.1 > b.1
    ||| a.1 == b.1 && a.0.len() > b.0.len()
    ||| a.1 == b.1 && a.0.len() == b.0.len() && words_lt(a.0, b.0)
}

/// `ranked_before` as a relation.
pub open spec fn ranking() -> spec_fn((Seq<Seq<char>>, nat), (Seq<Seq<char>>, nat)) -> bool {
    |a: (Seq<Seq<char>>, nat), b: (Seq<Seq<char>>, nat)| ranked_before(a, b)
}

/// `ranked_before` is a strict total order.
pub proof fn lemma_ranked_strict_total()
    ensures
        strict_total_ordering(ranking()),
{
    lemma_words_strict_total();
    let w = words_order();
    let l = ranking();
    assert forall|a: (Seq<Seq<char>>, nat)| #[trigger] l(a, a) == false by {
        assert(!w(a.0, a.0));
    }
    assert forall|a: (Seq<Seq<char>>, nat), b: (Seq<Seq<char>>, nat)| #[trigger]
        l(a, b) && #[trigger] l(b, a) implies a == b by {
        if a.1 == b.1 && a.0.len() == b.0.len() {
            assert(w(a.0, b.0) && w(b.0, a.0));
        }
    }
    assert forall|a: (Seq<Seq<char>>, nat), b: (Seq<Seq<char>>, nat), c: (Seq<Seq<char>>, nat)|
        #[trigger] l(a, b) && #[trigger] l(b, c) implies l(a, c) by {
        if a.1 == b.1 && b.1 == c.1 && a.0.len() == b.0.len() && b.0.len() == c.0.len() {
            assert(w(a.0, b.0) && w(b.0, c.0));
        }
    }
    assert forall|a: (Seq<Seq<char>>, nat), b: (Seq<Seq<char>>, nat)| a != b implies #[trigger] l(
        a,
        b,
    ) || #[trigger] l(b, a) by {
        if a.1 == b.1 && a.0.len() == b.0.len() {
            if a.0 == b.0 {
                assert(a == b);
            }
            assert(w(a.0, b.0) || w(b.0, a.0));
        }
    }
}

/// Counting is insensitive to replacing each transaction by one with the same items.
proof fn lemma_support_same_members(
    t1: Seq<Seq<Seq<char>>>,
    t2: Seq<Seq<Seq<char>>>,
    s: Seq<Seq<char>>,
    n: int,
)
    requires
        t1.len() == t2.len(),
        0 <= n <= t1.len(),
        forall|i: int, y: Seq<char>|
            0 <= i < t1.len() ==> (#[trigger] t1[i].contains(y) <==> t2[i].contains(y)),
    ensures
        support_upto(t1, s, n) == support_upto(t2, s, n),
    decreases n,
{
    if n > 0 {
        lemma_support_same_members(t1, t2, s, n - 1);
        assert(covers(t1[n - 1], s) == covers(t2[n - 1], s)) by {
            if covers(t1[n - 1], s) {
                assert forall|i: int| 0 <= i < s.len() implies t2[n - 1].contains(#[trigger] s[i]) by {
                    assert(t1[n - 1].contains(s[i]));
                }
            }
            if covers(t2[n - 1], s) {
                assert forall|i: int| 0 <= i < s.len() implies t1[n - 1].contains(#[trigger] s[i]) by {
                    assert(t2[n - 1].contains(s[i]));
                }
            }
        }
    }
}

/// A set holding every item of another occurs in at most as many transactions.
proof fn lemma_support_anti_monotone(
    txs: Seq<Seq<Seq<char>>>,
    big: Seq<Seq<char>>,
    small: Seq<Seq<char>>,
    n: int,
)
    requires
        0 <= n <= txs.len(),
        forall|i: int| 0 <= i < small.len() ==> big.contains(#[trigger] small[i]),
    ensures
        support_upto(txs, big, n) <= support_upto(txs, small, n),
    decreases n,
{
    if n > 0 {
        lemma_support_anti_monotone(txs, big, small, n - 1);
        if covers(txs[n - 1], big) {
            assert forall|i: int| 0 <= i < small.len() implies txs[n - 1].contains(
                #[trigger] small[i],
            ) by {
                let j = choose|j: int| 0 <= j < big.len() && big[j] == small[i];
                assert(txs[n - 1].contains(big[j]));
            }
        }
    }
}

/// A set with positive support is held by some transaction.
proof fn lemma_support_witness(txs: Seq<Seq<Seq<char>>>, s: Seq<Seq<char>>, n: int) -> (i: int)
    requires
        0 <= n <= txs.len(),
        support_upto(txs, s, n) > 0,
    ensures
        0 <= i < n,
        covers(txs[i], s),
    decreases n,
{
    if covers(txs[n - 1], s) {
        n - 1
    } else {
        lemma_support_witness(txs, s, n - 1)
    }
}

/// The number of transactions in `txs` holding every item of `s`.
fn count_support(txs: &Vec<Vec<String>>, s: &Vec<String>) -> (r: usize)
    ensures
        r == support(txs.deep_view(), s.deep_view()),
{
    let mut count: usize = 0;
    let mut i: usize = 0;
    while i < txs.len()
        invariant
            i <= txs.len(),
            count == support_upto(txs.deep_view(), s.deep_view(), i as int),
            count <= i,
        decreases txs.len() - i,
    {
        if covers_words(&txs[i], s) {
            count = count + 1;
        }
        i = i + 1;
    }
    count
}

/// Whether two (k-1)-itemsets share their first k-2 items.
pub open spec fn joinable(a: Seq<Seq<char>>, b: Seq<Seq<char>>, k: int) -> bool {
    &&& a.len() == k - 1
    &&& b.len() == k - 1
    &&& a.take(k - 2) == b.take(k - 2)
}

/// The two (k-1)-subsets of a k-itemset that Apriori joins to build it: all but the last item,
/// and all but the one before last.
pub open spec fn parents_in(prev: Seq<Seq<Seq<char>>>, s: Seq<Seq<char>>, k: int) -> bool {
    &&& prev.contains(s.take(k - 1))
    &&& prev.contains(s.take(k - 2).push(s[k - 1]))
}

/// Two joinable itemsets, the first before the second, differ in their last item, the
/// first's being smaller.
proof fn lemma_joinable_last_lt(a: Seq<Seq<char>>, b: Seq<Seq<char>>, k: int)
    requires
        k >= 2,
        joinable(a, b, k),
        words_lt(a, b),
    ensures
        chars_lt(a[k - 2], b[k - 2]),
{
    let lt = text_order();
    lemma_lex_common_prefix(a, b, k - 2, lt);
    let sa = a.skip(k - 2);
    let sb = b.skip(k - 2);
    assert(sa.len() == 1 && sb.len() == 1);
    assert(sa[0] == a[k - 2] && sb[0] == b[k - 2]);
    assert(lex_lt(sa, sb, lt));
    if sa[0] == sb[0] {
        assert(sa.drop_first().len() == 0 && sb.drop_first().len() == 0);
        assert(!lex_lt(sa.drop_first(), sb.drop_first(), lt));
    } else {
        assert(lt(sa[0], sb[0]));
    }
}

/// A word set extended by a word larger than its last is a word set.
proof fn lemma_push_larger_word_set(a: Seq<Seq<char>>, x: Seq<char>)
    requires
        is_word_set(a),
        a.len() > 0 ==> chars_lt(a[a.len() - 1], x),
    ensures
        is_word_set(a.push(x)),
{
    lemma_chars_strict_total();
    let lt = text_order();
    let n = a.push(x);
    assert forall|i: int, j: int| 0 <= i < j < n.len() implies #[trigger] lt(n[i], n[j]) by {
        if j < a.len() {
            assert(lt(a[i], a[j]));
        } else {
            assert(n[j] == x);
            assert(lt(a[a.len() - 1], x));
            if i < a.len() - 1 {
                assert(lt(a[i], a[a.len() - 1]));
            }
        }
    }
}

/// The first `m` items of a word set form a word set.
proof fn lemma_take_word_set(a: Seq<Seq<char>>, m: int)
    requires
        is_word_set(a),
        0 <= m <= a.len(),
    ensures
        is_word_set(a.take(m)),
{
    let lt = text_order();
    let t = a.take(m);
    assert forall|i: int, j: int| 0 <= i < j < t.len() implies #[trigger] lt(t[i], t[j]) by {
        assert(lt(a[i], a[j]));
    }
}

/// Apriori-gen: joins every two frequent (k-1)-itemsets that share their first k-2 items.
fn generate_candidates(prev: &Vec<Vec<String>>, k: usize) -> (cands: Vec<Vec<String>>)
    requires
        2 <= k <= 5,
        sorted_by(prev.deep_view(), words_order()),
        forall|i: int|
            0 <= i < prev.deep_view().len() ==> is_word_set(#[trigger] prev.deep_view()[i])
                && prev.deep_view()[i].len() == k - 1,
    ensures
        forall|i: int, j: int|
            0 <= i < j < cands.deep_view().len() ==> cands.deep_view()[i]
                != cands.deep_view()[j],
        forall|i: int|
            0 <= i < cands.deep_view().len() ==> {
                let c = #[trigger] cands.deep_view()[i];
                &&& is_word_set(c)
                &&& c.len() == k
                &&& parents_in(prev.deep_view(), c, k as int)
            },
        forall|s: Seq<Seq<char>>|
            is_word_set(s) && s.len() == k && #[trigger] parents_in(prev.deep_view(), s, k as int)
                ==> cands.deep_view().contains(s),
{
    proof {
        lemma_chars_strict_total();
        lemma_words_strict_total();
    }
    let ghost pv = prev.deep_view();
    let ghost wl = words_order();
    let mut cands: Vec<Vec<String>> = Vec::new();
    let n = prev.len();
    let mut i: usize = 0;
    while i < n
        invariant
            n == prev.len(),
            pv == prev.deep_view(),
            2 <= k <= 5,
            i <= n,
            wl == words_order(),
            sorted_by(pv, wl),
            forall|p: int| 0 <= p < pv.len() ==> is_word_set(#[trigger] pv[p]) && pv[p].len() == k - 1,
            forall|p: int, q: int|
                0 <= p < q < cands.deep_view().len() ==> cands.deep_view()[p]
                    != cands.deep_view()[q],
            forall|p: int|
                0 <= p < cands.deep_view().len() ==> {
                    let c = #[trigger] cands.deep_view()[p];
                    &&& is_word_set(c)
                    &&& c.len() == k
                    &&& parents_in(pv, c, k as int)
                },
            forall|p: int, q: int|
                0 <= p < q < n && p < i && joinable(#[trigger] pv[p], #[trigger] pv[q], k as int)
                    ==> cands.deep_view().contains(pv[p].push(pv[q][k - 2])),
        decreases n - i,
    {
        let mut j: usize = i + 1;
        while j < n
            invariant
                n == prev.len(),
                pv == prev.deep_view(),
                2 <= k <= 5,
                i < n,
                i + 1 <= j <= n,
                wl == words_order(),
                sorted_by(pv, wl),
                forall|p: int|
                    0 <= p < pv.len() ==> is_word_set(#[trigger] pv[p]) && pv[p].len() == k - 1,
                forall|p: int, q: int|
                    0 <= p < q < cands.deep_view().len() ==> cands.deep_view()[p]
                        != cands.deep_view()[q],
                forall|p: int|
                    0 <= p < cands.deep_view().len() ==> {
                        let c = #[trigger] cands.deep_view()[p];
                        &&& is_word_set(c)
                        &&& c.len() == k
                        &&& parents_in(pv, c, k as int)
                    },
                forall|p: int, q: int|
                    0 <= p < q < n && (p < i || (p == i && q < j)) && joinable(
                        #[trigger] pv[p],
                        #[trigger] pv[q],
                        k as int,
                    ) ==> cands.deep_view().contains(pv[p].push(pv[q][k - 2])),
            decreases n - j,
        {
            proof {
                lemma_chars_strict_total();
                lemma_words_strict_total();
            }
            let a = &prev[i];
            let b = &prev[j];
            if a.len() == k - 1 && b.len() == k - 1 && words_prefix_equal(a, b, k - 2) {
                let mut merged = clone_words(a);
                let last = b[k - 2].clone();
                let ghost joined = pv[i as int].push(pv[j as int][k - 2]);
                merged.push(last);
                assert(merged.deep_view() =~= joined);
                let merged = word_set_of(&merged);
                proof {
                    assert(wl(pv[i as int], pv[j as int]));
                    assert(words_lt(pv[i as int], pv[j as int]));
                    lemma_joinable_last_lt(pv[i as int], pv[j as int], k as int);
                    lemma_push_larger_word_set(pv[i as int], pv[j as int][k - 2]);
                    lemma_sorted_same_members_equal(
                        merged.deep_view(),
                        joined,
                        text_order(),
                    );
                    assert(joined.take(k - 1) =~= pv[i as int]);
                    assert(a.deep_view() == pv[i as int]);
                    assert(b.deep_view() == pv[j as int]);
                    assert(pv[j as int].take(k - 2) == pv[i as int].take(k - 2));
                    assert(joined.take(k - 2) =~= pv[i as int].take(k - 2));
                    assert(pv[j as int] =~= pv[j as int].take(k - 2).push(pv[j as int][k - 2]));
                    assert(joined.take(k - 2).push(joined[k - 1]) =~= pv[j as int]);
                    assert(pv.contains(pv[i as int]));
                    assert(pv.contains(pv[j as int]));
                }
                if merged.len() == k && !contains_words(&cands, &merged) {
                    let ghost old_c = cands.deep_view();
                    cands.push(merged);
                    proof {
                        assert(cands.deep_view() =~= old_c.push(joined));
                        assert(cands.deep_view()[old_c.len() as int] == joined);
                        assert forall|p: int, q: int|
                            0 <= p < q < n && (p < i || (p == i && q < j + 1)) && joinable(
                                #[trigger] pv[p],
                                #[trigger] pv[q],
                                k as int,
                            ) implies cands.deep_view().contains(pv[p].push(pv[q][k - 2])) by {
                            if p == i && q == j {
                                assert(cands.deep_view()[old_c.len() as int] == joined);
                            } else {
                                let w = choose|w: int|
                                    0 <= w < old_c.len() && old_c[w] == pv[p].push(pv[q][k - 2]);
                                assert(cands.deep_view()[w] == old_c[w]);
                            }
                        }
                    }
                }
            }
            j = j + 1;
        }
        i = i + 1;
    }
    proof {
        let cv = cands.deep_view();
        assert forall|s: Seq<Seq<char>>|
            is_word_set(s) && s.len() == k && #[trigger] parents_in(pv, s, k as int) implies cv.contains(
            s,
        ) by {
            let p1 = s.take(k - 1);
            let p2 = s.take(k - 2).push(s[k - 1]);
            let i1 = choose|i1: int| 0 <= i1 < pv.len() && pv[i1] == p1;
            let j1 = choose|j1: int| 0 <= j1 < pv.len() && pv[j1] == p2;
            assert(text_order()(s[k - 2], s[k - 1]));
            assert(p1.take(k - 2) =~= p2.take(k - 2));
            lemma_lex_common_prefix(p1, p2, k - 2, text_order());
            let r1 = p1.skip(k - 2);
            let r2 = p2.skip(k - 2);
            assert(r1[0] == s[k - 2] && r2[0] == s[k - 1]);
            assert(s[k - 2] != s[k - 1]);
            assert(r1.drop_first().len() == 0);
            assert(lex_lt(r1, r2, text_order()));
            assert(wl(p1, p2));
            if j1 < i1 {
                assert(wl(pv[j1], pv[i1]));
            }
            if j1 == i1 {
                assert(p1[k - 2] == p2[k - 2]);
            }
            assert(joinable(pv[i1], pv[j1], k as int));
            assert(pv[i1].push(pv[j1][k - 2]) =~= s);
        }
    }
    cands
}

/// Whether `a` ranks before `b`: higher support, then more items, then items in order.
fn ranked_less(a: &Vec<String>, a_support: usize, b: &Vec<String>, b_support: usize) -> (r: bool)
    ensures
        r == ranked_before(
            (a.deep_view(), a_support as nat),
            (b.deep_view(), b_support as nat),
        ),
{
    if a_support != b_support {
        a_support > b_support
    } else if a.len() != b.len() {
        a.len() > b.len()
    } else {
        words_less(a, b)
    }
}

/// Distinct word lists in increasing `words_lt` order.
fn sort_word_lists(v: &Vec<Vec<String>>) -> (r: Vec<Vec<String>>)
    requires
        forall|i: int, j: int|
            0 <= i < j < v.deep_view().len() ==> v.deep_view()[i] != v.deep_view()[j],
    ensures
        sorted_by(r.deep_view(), words_order()),
        forall|x: Seq<Seq<char>>| #[trigger] r.deep_view().contains(x) <==> v.deep_view().contains(x),
{
    let ghost lt = words_order();
    let ghost vv = v.deep_view();
    let mut r: Vec<Vec<String>> = Vec::new();
    let mut i: usize = 0;
    while i < v.len()
        invariant
            i <= v.len(),
            vv == v.deep_view(),
            lt == words_order(),
            forall|p: int, q: int| 0 <= p < q < vv.len() ==> vv[p] != vv[q],
            sorted_by(r.deep_view(), lt),
            forall|x: Seq<Seq<char>>| #[trigger] r.deep_view().contains(x) <==> vv.take(i as int).contains(x),
        decreases v.len() - i,
    {
        proof {
            lemma_words_strict_total();
        }
        let x = &v[i];
        let mut p: usize = 0;
        while p < r.len() && words_less(&r[p], x)
            invariant
                p <= r.len(),
                forall|j: int| 0 <= j < p ==> lt(#[trigger] r.deep_view()[j], vv[i as int]),
                lt == words_order(),
                x.deep_view() == vv[i as int],
            decreases r.len() - p,
        {
            p = p + 1;
        }
        let ghost old_r = r.deep_view();
        proof {
            if p < r.len() {
                assert(old_r.contains(old_r[p as int]));
                assert(vv.take(i as int).contains(old_r[p as int]));
                let w = choose|w: int| 0 <= w < i && vv.take(i as int)[w] == old_r[p as int];
                assert(vv[w] != vv[i as int]);
                assert(lt(old_r[p as int], vv[i as int]) || lt(vv[i as int], old_r[p as int]));
            }
            lemma_insert_sorted(old_r, vv[i as int], p as int, lt);
            lemma_insert_members(old_r, vv[i as int], p as int);
            lemma_take_push_members(vv, i as int);
        }
        r.insert(p, clone_words(x));
        assert(r.deep_view() =~= old_r.insert(p as int, vv[i as int]));
        i = i + 1;
    }
    assert(vv.take(v.len() as int) =~= vv);
    r
}

/// Itemsets with distinct items, ranked by `ranked_before`.
fn sort_itemsets(v: &Vec<FrequentItemset>) -> (r: Vec<FrequentItemset>)
    requires
        forall|i: int, j: int|
            0 <= i < j < v.deep_view().len() ==> v.deep_view()[i] != v.deep_view()[j],
    ensures
        sorted_by(r.deep_view(), ranking()),
        forall|x: (Seq<Seq<char>>, nat)| #[trigger] r.deep_view().contains(x) <==> v.deep_view().contains(x),
{
    let ghost lt = ranking();
    let ghost vv = v.deep_view();
    let mut r: Vec<FrequentItemset> = Vec::new();
    let mut i: usize = 0;
    while i < v.len()
        invariant
            i <= v.len(),
            vv == v.deep_view(),
            lt == ranking(),
            forall|p: int, q: int| 0 <= p < q < vv.len() ==> vv[p] != vv[q],
            sorted_by(r.deep_view(), lt),
            forall|x: (Seq<Seq<char>>, nat)| #[trigger] r.deep_view().contains(x) <==> vv.take(i as int).contains(x),
        decreases v.len() - i,
    {
        proof {
            lemma_ranked_strict_total();
        }
        let x = &v[i];
        let mut p: usize = 0;
        while p < r.len() && ranked_less(&r[p].items, r[p].support, &x.items, x.support)
            invariant
                p <= r.len(),
                forall|j: int| 0 <= j < p ==> lt(#[trigger] r.deep_view()[j], vv[i as int]),
                lt == ranking(),
                x.deep_view() == vv[i as int],
            decreases r.len() - p,
        {
            p = p + 1;
        }
        let ghost old_r = r.deep_view();
        proof {
            if p < r.len() {
                assert(old_r.contains(old_r[p as int]));
                assert(vv.take(i as int).contains(old_r[p as int]));
                let w = choose|w: int| 0 <= w < i && vv.take(i as int)[w] == old_r[p as int];
                assert(vv[w] != vv[i as int]);
                assert(lt(old_r[p as int], vv[i as int]) || lt(vv[i as int], old_r[p as int]));
            }
            lemma_insert_sorted(old_r, vv[i as int], p as int, lt);
            lemma_insert_members(old_r, vv[i as int], p as int);
            lemma_take_push_members(vv, i as int);
        }
        let item = FrequentItemset { items: clone_words(&x.items), support: x.support };
        r.insert(p, item);
        assert(r.deep_view() =~= old_r.insert(p as int, vv[i as int]));
        i = i + 1;
    }
    assert(vv.take(v.len() as int) =~= vv);
    r
}

/// What Apriori gives for transactions `txs` and least support `min_support`: nothing when
/// there are no transactions or `min_support` is 0; otherwise each frequent itemset once,
/// with its support, ranked by `ranked_before`.
pub open spec fn is_apriori_result(txs: Seq<Seq<Seq<char>>>, min_support: nat, r: Seq<(Seq<Seq<char>>, nat)>) -> bool {
    &&& txs.len() == 0 || min_support == 0 ==> r.len() == 0
    &&& forall|i: int|
        0 <= i < r.len() ==> {
            let e = #[trigger] r[i];
            &&& is_frequent_itemset(txs, min_support, e.0)
            &&& e.1 == support(txs, e.0)
        }
    &&& min_support > 0 ==> forall|s: Seq<Seq<char>>|
        #[trigger] is_frequent_itemset(txs, min_support, s) ==> exists|i: int| 0 <= i < r.len() && r[i].0 == s
    &&& sorted_by(r, ranking())
}

/// Apriori frequent itemset mining.
///
/// Each transaction is the set of applications used together in one session (repeats do not
/// count twice). Returns every set of 2 to 5 distinct applications that at least `min_support`
/// transactions hold, with its support, ranked by support (highest first), then by size
/// (largest first), then by items. No transactions, or `min_support == 0`, give nothing.
pub fn apriori(transactions: &[Vec<String>], min_support: usize) -> (r: Vec<FrequentItemset>)
    ensures
        is_apriori_result(transactions.deep_view(), min_support as nat, r.deep_view()),
{
    if transactions.len() == 0 || min_support == 0 {
        return Vec::new();
    }
    let ghost orig = transactions.deep_view();
    let ghost ms = min_support as nat;

    // Each transaction as a set: distinct items in increasing order.
    let mut tx: Vec<Vec<String>> = Vec::new();
    let mut i: usize = 0;
    while i < transactions.len()
        invariant
            i <= transactions.len(),
            orig == transactions.deep_view(),
            tx.len() == i,
            forall|j: int, y: Seq<char>|
                0 <= j < i ==> (#[trigger] tx.deep_view()[j].contains(y) <==> orig[j].contains(y)),
            forall|j: int| 0 <= j < i ==> is_word_set(#[trigger] tx.deep_view()[j]),
        decreases transactions.len() - i,
    {
        let t = word_set_of(&transactions[i]);
        let ghost old_tx = tx.deep_view();
        tx.push(t);
        assert(tx.deep_view() =~= old_tx.push(t.deep_view()));
        i = i + 1;
    }
    let ghost txv = tx.deep_view();
    proof {
        assert forall|s: Seq<Seq<char>>| #[trigger] support(txv, s) == support(orig, s) by {
            lemma_support_same_members(txv, orig, s, txv.len() as int);
        }
    }

    // Frequent 1-itemsets, from every item that occurs.
    let mut universe: Vec<String> = Vec::new();
    let mut i: usize = 0;
    while i < tx.len()
        invariant
            i <= tx.len(),
            txv == tx.deep_view(),
            is_word_set(universe.deep_view()),
            forall|p: int, y: Seq<char>|
                0 <= p < i && #[trigger] txv[p].contains(y) ==> universe.deep_view().contains(y),
        decreases tx.len() - i,
    {
        let mut j: usize = 0;
        while j < tx[i].len()
            invariant
                i < tx.len(),
                j <= tx[i as int].len(),
                txv == tx.deep_view(),
                is_word_set(universe.deep_view()),
                forall|p: int, y: Seq<char>|
                    0 <= p < i && #[trigger] txv[p].contains(y) ==> universe.deep_view().contains(y),
                forall|q: int| 0 <= q < j ==> universe.deep_view().contains(#[trigger] txv[i as int][q]),
            decreases tx[i as int].len() - j,
        {
            insert_word(&mut universe, tx[i][j].clone());
            j = j + 1;
        }
        proof {
            assert forall|p: int, y: Seq<char>|
                0 <= p < i + 1 && #[trigger] txv[p].contains(y) implies universe.deep_view().contains(y) by {
                if p == i {
                    let q = choose|q: int| 0 <= q < txv[p].len() && txv[p][q] == y;
                    assert(universe.deep_view().contains(txv[i as int][q]));
                }
            }
        }
        i = i + 1;
    }
    let ghost uv = universe.deep_view();
    let mut current: Vec<Vec<String>> = Vec::new();
    let mut m: usize = 0;
    while m < universe.len()
        invariant
            m <= universe.len(),
            uv == universe.deep_view(),
            txv == tx.deep_view(),
            is_word_set(uv),
            ms == min_support as nat,
            sorted_by(current.deep_view(), words_order()),
            forall|j: int|
                0 <= j < current.deep_view().len() ==> (#[trigger] current.deep_view()[j]).len() == 1
                    && uv.take(m as int).contains(current.deep_view()[j][0]),
            forall|s: Seq<Seq<char>>| #[trigger]
                current.deep_view().contains(s) <==> (s.len() == 1 && support(txv, s) >= ms
                    && uv.take(m as int).contains(s[0])),
        decreases universe.len() - m,
    {
        proof {
            lemma_chars_strict_total();
            lemma_words_strict_total();
        }
        let single = vec![universe[m].clone()];
        let ghost sv = seq![uv[m as int]];
        assert(single.deep_view() =~= sv);
        let sup = count_support(&tx, &single);
        let ghost old_c = current.deep_view();
        proof {
            lemma_take_push_members(uv, m as int);
        }
        if sup >= min_support {
            current.push(single);
            proof {
                let cv = current.deep_view();
                assert(cv =~= old_c.push(sv));
                assert forall|a: int, b: int| 0 <= a < b < cv.len() implies #[trigger] words_order()(
                    cv[a],
                    cv[b],
                ) by {
                    if b < old_c.len() {
                        assert(words_order()(old_c[a], old_c[b]));
                    } else {
                        let w = choose|w: int| 0 <= w < m && uv.take(m as int)[w] == old_c[a][0];
                        assert(text_order()(uv[w], uv[m as int]));
                        assert(old_c[a] =~= seq![old_c[a][0]]);
                        assert(old_c[a][0] != sv[0]);
                        assert(lex_lt(old_c[a], sv, text_order()));
                    }
                }
                assert forall|s: Seq<Seq<char>>| #[trigger] cv.contains(s) <==> (s.len() == 1 && support(
                    txv,
                    s,
                ) >= ms && uv.take(m + 1).contains(s[0])) by {
                    if s.len() == 1 && s[0] == uv[m as int] {
                        assert(s =~= sv);
                        assert(cv[old_c.len() as int] == sv);
                    }
                    if cv.contains(s) && s != sv {
                        let w = choose|w: int| 0 <= w < cv.len() && cv[w] == s;
                        assert(old_c[w] == s);
                    }
                    if old_c.contains(s) {
                        let w = choose|w: int| 0 <= w < old_c.len() && old_c[w] == s;
                        assert(cv[w] == s);
                    }
                }
            }
        } else {
            proof {
                assert forall|s: Seq<Seq<char>>| #[trigger] old_c.contains(s) <==> (s.len() == 1 && support(
                    txv,
                    s,
                ) >= ms && uv.take(m + 1).contains(s[0])) by {
                    if s.len() == 1 && s[0] == uv[m as int] {
                        assert(s =~= sv);
                    }
                }
            }
        }
        m = m + 1;
    }
    proof {
        assert(uv.take(uv.len() as int) =~= uv);
        // every frequent single item occurs somewhere, so it is in the universe
        assert forall|s: Seq<Seq<char>>| #[trigger]
            current.deep_view().contains(s) <==> (is_word_set(s) && s.len() == 1 && support(txv, s) >= ms) by {
            if s.len() == 1 && support(txv, s) >= ms {
                let w = lemma_support_witness(txv, s, txv.len() as int);
                assert(txv[w].contains(s[0]));
            }
            if s.len() == 1 {
                assert(is_word_set(s));
            }
        }
    }

    // Level k: join frequent (k-1)-itemsets, keep the candidates with enough support.
    let mut result: Vec<FrequentItemset> = Vec::new();
    let mut k: usize = 2;
    while current.len() > 0 && k <= 5
        invariant
            2 <= k <= 6,
            txv == tx.deep_view(),
            ms == min_support as nat,
            ms > 0,
            forall|s: Seq<Seq<char>>| #[trigger] support(txv, s) == support(orig, s),
            sorted_by(current.deep_view(), words_order()),
            forall|s: Seq<Seq<char>>| #[trigger]
                current.deep_view().contains(s) <==> (is_word_set(s) && s.len() == k - 1 && support(txv, s) >= ms),
            forall|j: int|
                0 <= j < result.deep_view().len() ==> {
                    let e = #[trigger] result.deep_view()[j];
                    &&& is_word_set(e.0)
                    &&& 2 <= e.0.len() < k
                    &&& e.1 == support(txv, e.0)
                    &&& e.1 >= ms
                },
            forall|a: int, b: int|
                0 <= a < b < result.deep_view().len() ==> result.deep_view()[a].0 != result.deep_view()[b].0,
            forall|s: Seq<Seq<char>>|
                is_word_set(s) && 2 <= s.len() < k && #[trigger] support(txv, s) >= ms
                    ==> exists|j: int| 0 <= j < result.deep_view().len() && result.deep_view()[j].0 == s,
        decreases 6 - k,
    {
        proof {
            let cv = current.deep_view();
            assert forall|p: int| 0 <= p < cv.len() implies is_word_set(#[trigger] cv[p]) && cv[p].len() == k - 1 by {
                assert(cv.contains(cv[p]));
            }
        }
        let candidates = generate_candidates(&current, k);
        let ghost cd = candidates.deep_view();
        let ghost prev_result = result.deep_view();
        let mut frequent: Vec<Vec<String>> = Vec::new();
        let mut c: usize = 0;
        while c < candidates.len()
            invariant
                c <= candidates.len(),
                cd == candidates.deep_view(),
                txv == tx.deep_view(),
                ms == min_support as nat,
                2 <= k <= 5,
                forall|p: int, q: int| 0 <= p < q < cd.len() ==> cd[p] != cd[q],
                forall|p: int|
                    0 <= p < cd.len() ==> is_word_set(#[trigger] cd[p]) && cd[p].len() == k,
                forall|s: Seq<Seq<char>>| #[trigger]
                    frequent.deep_view().contains(s) <==> (cd.take(c as int).contains(s) && support(txv, s) >= ms),
                forall|p: int, q: int|
                    0 <= p < q < frequent.deep_view().len() ==> frequent.deep_view()[p] != frequent.deep_view()[q],
                forall|p: int| 0 <= p < frequent.deep_view().len() ==> cd.take(c as int).contains(#[trigger] frequent.deep_view()[p]),
                result.deep_view().len() == prev_result.len() + frequent.deep_view().len(),
                forall|p: int| 0 <= p < prev_result.len() ==> #[trigger] result.deep_view()[p] == prev_result[p],
                forall|p: int|
                    prev_result.len() <= p < result.deep_view().len() ==> #[trigger] result.deep_view()[p]
                        == (frequent.deep_view()[p - prev_result.len()], support(txv, frequent.deep_view()[p - prev_result.len()])),
            decreases candidates.len() - c,
        {
            let sup = count_support(&tx, &candidates[c]);
            proof {
                lemma_take_push_members(cd, c as int);
            }
            if sup >= min_support {
                let ghost old_f = frequent.deep_view();
                let ghost old_r = result.deep_view();
                frequent.push(clone_words(&candidates[c]));
                result.push(FrequentItemset { items: clone_words(&candidates[c]), support: sup });
                proof {
                    let fv = frequent.deep_view();
                    assert(fv =~= old_f.push(cd[c as int]));
                    assert(result.deep_view() =~= old_r.push((cd[c as int], sup as nat)));
                    assert forall|s: Seq<Seq<char>>| #[trigger] fv.contains(s) <==> (cd.take(c + 1).contains(s)
                        && support(txv, s) >= ms) by {
                        if fv.contains(s) {
                            let w = choose|w: int| 0 <= w < fv.len() && fv[w] == s;
                            if w < old_f.len() {
                                assert(old_f[w] == s);
                            }
                        }
                        if old_f.contains(s) {
                            let w = choose|w: int| 0 <= w < old_f.len() && old_f[w] == s;
                            assert(fv[w] == s);
                        }
                        if s == cd[c as int] {
                            assert(fv[old_f.len() as int] == s);
                        }
                    }
                    assert forall|p: int, q: int| 0 <= p < q < fv.len() implies fv[p] != fv[q] by {
                        if q == old_f.len() {
                            assert(cd.take(c as int).contains(old_f[p]));
                            let w = choose|w: int| 0 <= w < c && cd.take(c as int)[w] == old_f[p];
                            assert(cd[w] != cd[c as int]);
                        }
                    }
                    assert forall|p: int| 0 <= p < fv.len() implies cd.take(c + 1).contains(#[trigger] fv[p]) by {
                        if p < old_f.len() {
                            assert(cd.take(c as int).contains(old_f[p]));
                        } else {
                            assert(cd.take(c + 1)[c as int] == fv[p]);
                        }
                    }
                }
            } else {
                proof {
                    let fv = frequent.deep_view();
                    assert forall|s: Seq<Seq<char>>| #[trigger] fv.contains(s) <==> (cd.take(c + 1).contains(s)
                        && support(txv, s) >= ms) by {
                    }
                    assert forall|p: int| 0 <= p < fv.len() implies cd.take(c + 1).contains(#[trigger] fv[p]) by {
                        assert(cd.take(c as int).contains(fv[p]));
                    }
                }
            }
            c = c + 1;
        }
        proof {
            assert(cd.take(cd.len() as int) =~= cd);
            let fv = frequent.deep_view();
            let rv = result.deep_view();
            let cv = current.deep_view();
            // the frequent k-itemsets are exactly the frequent candidates
            assert forall|s: Seq<Seq<char>>| #[trigger] fv.contains(s) <==> (is_word_set(s) && s.len() == k
                && support(txv, s) >= ms) by {
                if is_word_set(s) && s.len() == k && support(txv, s) >= ms {
                    let p1 = s.take(k - 1);
                    let p2 = s.take(k - 2).push(s[k - 1]);
                    lemma_take_word_set(s, k - 1);
                    lemma_take_word_set(s, k - 2);
                    if k > 2 {
                        assert(text_order()(s[k - 3], s[k - 1]));
                    }
                    lemma_push_larger_word_set(s.take(k - 2), s[k - 1]);
                    assert forall|q: int| 0 <= q < p1.len() implies s.contains(#[trigger] p1[q]) by {
                        assert(s[q] == p1[q]);
                    }
                    lemma_support_anti_monotone(txv, s, p1, txv.len() as int);
                    assert forall|q: int| 0 <= q < p2.len() implies s.contains(#[trigger] p2[q]) by {
                        if q < k - 2 {
                            assert(s[q] == p2[q]);
                        } else {
                            assert(s[k - 1] == p2[q]);
                        }
                    }
                    lemma_support_anti_monotone(txv, s, p2, txv.len() as int);
                    assert(cv.contains(p1));
                    assert(cv.contains(p2));
                    assert(parents_in(cv, s, k as int));
                    assert(cd.contains(s));
                }
                if fv.contains(s) {
                    let w = choose|w: int| 0 <= w < cd.len() && cd[w] == s;
                }
            }
            assert forall|j: int| 0 <= j < rv.len() implies {
                let e = #[trigger] rv[j];
                &&& is_word_set(e.0)
                &&& 2 <= e.0.len() < k + 1
                &&& e.1 == support(txv, e.0)
                &&& e.1 >= ms
            } by {
                if j >= prev_result.len() {
                    let p = j - prev_result.len();
                    assert(rv[j] == (fv[p], support(txv, fv[p])));
                    assert(fv.contains(fv[p]));
                } else {
                    assert(rv[j] == prev_result[j]);
                }
            }
            assert forall|a: int, b: int| 0 <= a < b < rv.len() implies rv[a].0 != rv[b].0 by {
                if b >= prev_result.len() {
                    assert(rv[b].0 == fv[b - prev_result.len()]);
                    assert(fv.contains(fv[b - prev_result.len()]));
                    if a >= prev_result.len() {
                        assert(rv[a].0 == fv[a - prev_result.len()]);
                    } else {
                        assert(rv[a] == prev_result[a]);
                    }
                } else {
                    assert(rv[a] == prev_result[a]);
                    assert(rv[b] == prev_result[b]);
                }
            }
            assert forall|s: Seq<Seq<char>>|
                is_word_set(s) && 2 <= s.len() < k + 1 && #[trigger] support(txv, s) >= ms
                    implies exists|j: int| 0 <= j < rv.len() && rv[j].0 == s by {
                if s.len() == k {
                    assert(fv.contains(s));
                    let w = choose|w: int| 0 <= w < fv.len() && fv[w] == s;
                    assert(rv[prev_result.len() + w].0 == s);
                } else {
                    let w = choose|w: int| 0 <= w < prev_result.len() && prev_result[w].0 == s;
                    assert(rv[w] == prev_result[w]);
                }
            }
        }
        current = sort_word_lists(&frequent);
        k = k + 1;
    }
    proof {
        // nothing frequent beyond the last level that had frequent itemsets
        let cv = current.deep_view();
        let rv = result.deep_view();
        assert forall|s: Seq<Seq<char>>|
            #[trigger] is_frequent_itemset(orig, ms, s) implies exists|j: int| 0 <= j < rv.len() && rv[j].0 == s by {
            assert(support(txv, s) >= ms);
            if s.len() >= k {
                let p = s.take(k - 1);
                lemma_take_word_set(s, k - 1);
                assert forall|q: int| 0 <= q < p.len() implies s.contains(#[trigger] p[q]) by {
                    assert(s[q] == p[q]);
                }
                lemma_support_anti_monotone(txv, s, p, txv.len() as int);
                assert(cv.contains(p));
                assert(cv.len() > 0);
            }
        }
    }
    let r = sort_itemsets(&result);
    proof {
        let rv = result.deep_view();
        assert forall|i: int| 0 <= i < r.deep_view().len() implies {
            let e = #[trigger] r.deep_view()[i];
            &&& is_frequent_itemset(orig, ms, e.0)
            &&& e.1 == support(orig, e.0)
        } by {
            assert(r.deep_view().contains(r.deep_view()[i]));
            let j = choose|j: int| 0 <= j < rv.len() && rv[j] == r.deep_view()[i];
            assert(support(txv, rv[j].0) == support(orig, rv[j].0));
        }
        assert forall|s: Seq<Seq<char>>|
            #[trigger] is_frequent_itemset(orig, ms, s) implies exists|i: int|
                0 <= i < r.deep_view().len() && r.deep_view()[i].0 == s by {
            let j = choose|j: int| 0 <= j < rv.len() && rv[j].0 == s;
            assert(rv.contains(rv[j]));
            assert(r.deep_view().contains(rv[j]));
        }
    }
    r
}

/// Apriori's result is fixed by the supports of the itemsets that it can report: two lists
/// of transactions, neither empty, that give every set of at least 2 items the same support
/// give the same result.
pub proof fn law_apriori_determined_by_supports(
    t1: Seq<Seq<Seq<char>>>,
    t2: Seq<Seq<Seq<char>>>,
    min_support: nat,
    r1: Seq<(Seq<Seq<char>>, nat)>,
    r2: Seq<(Seq<Seq<char>>, nat)>,
)
    requires
        t1.len() > 0,
        t2.len() > 0,
        forall|s: Seq<Seq<char>>| 2 <= s.len() ==> #[trigger] support(t1, s) == support(t2, s),
        is_apriori_result(t1, min_support, r1),
        is_apriori_result(t2, min_support, r2),
    ensures
        r1 == r2,
{
    if min_support == 0 {
        assert(r1 =~= r2);
    } else {
        assert forall|x: (Seq<Seq<char>>, nat)| r1.contains(x) implies r2.contains(x) by {
            let i = choose|i: int| 0 <= i < r1.len() && r1[i] == x;
            assert(is_frequent_itemset(t1, min_support, r1[i].0));
            assert(support(t1, x.0) == support(t2, x.0));
            assert(is_frequent_itemset(t2, min_support, x.0));
            let j = choose|j: int| 0 <= j < r2.len() && r2[j].0 == x.0;
            assert(r2[j].1 == support(t2, r2[j].0));
            assert(r2[j] == x);
        }
        assert forall|x: (Seq<Seq<char>>, nat)| r2.contains(x) implies r1.contains(x) by {
            let i = choose|i: int| 0 <= i < r2.len() && r2[i] == x;
            assert(is_frequent_itemset(t2, min_support, r2[i].0));
            assert(support(t1, x.0) == support(t2, x.0));
            assert(is_frequent_itemset(t1, min_support, x.0));
            let j = choose|j: int| 0 <= j < r1.len() && r1[j].0 == x.0;
            assert(r1[j].1 == support(t1, r1[j].0));
            assert(r1[j] == x);
        }
        lemma_ranked_strict_total();
        lemma_sorted_same_members_equal(r1, r2, ranking());
    }
}

proof fn lemma_support_upto_prefix(t: Seq<Seq<Seq<char>>>, u: Seq<Seq<Seq<char>>>, s: Seq<Seq<char>>, n: int)
    requires
        0 <= n <= t.len(),
        n <= u.len(),
        forall|k: int| 0 <= k < n ==> t[k] == u[k],
    ensures
        support_upto(t, s, n) == support_upto(u, s, n),
    decreases n,
{
    if n > 0 {
        lemma_support_upto_prefix(t, u, s, n - 1);
    }
}

proof fn lemma_support_remove(t: Seq<Seq<Seq<char>>>, j: int, s: Seq<Seq<char>>)
    requires
        0 <= j < t.len(),
    ensures
        support(t, s) == support(t.remove(j), s) + if covers(t[j], s) {
            1nat
        } else {
            0nat
        },
    decreases t.len(),
{
    let r = t.remove(j);
    if j == t.len() - 1 {
        assert(r =~= t.drop_last());
        lemma_support_upto_prefix(t, r, s, r.len() as int);
    } else {
        let t0 = t.drop_last();
        lemma_support_remove(t0, j, s);
        assert(t0.remove(j) =~= r.drop_last());
        lemma_support_upto_prefix(t, t0, s, t0.len() as int);
        lemma_support_upto_prefix(r, r.drop_last(), s, r.len() - 1);
        assert(r[r.len() - 1] == t[t.len() - 1]);
    }
}

/// The support of an itemset does not depend on the order of the transactions.
pub proof fn law_support_ignores_transaction_order(t1: Seq<Seq<Seq<char>>>, t2: Seq<Seq<Seq<char>>>, s: Seq<Seq<char>>)
    requires
        t1.to_multiset() == t2.to_multiset(),
    ensures
        support(t1, s) == support(t2, s),
    decreases t1.len(),
{
    broadcast use vstd::seq_lib::group_to_multiset_ensures;

    if t1.len() == 0 {
        assert(t2.to_multiset().len() == 0);
        assert(t2.len() == 0);
    } else {
        let x = t1.last();
        let a = t1.drop_last();
        assert(t1 =~= a.push(x));
        assert(t1.to_multiset().count(x) > 0);
        assert(t2.contains(x));
        let j = choose|j: int| 0 <= j < t2.len() && t2[j] == x;
        assert(t2.remove(j).to_multiset() =~= t2.to_multiset().remove(x));
        assert(a.to_multiset() =~= t1.to_multiset().remove(x));
        law_support_ignores_transaction_order(a, t2.remove(j), s);
        lemma_support_remove(t2, j, s);
        lemma_support_upto_prefix(t1, a, s, a.len() as int);
    }
}

/// The support of an itemset does not depend on the order of the items within a transaction
/// or on items repeated there: transactions that hold the same items give the same support.
pub proof fn law_support_ignores_item_order(t1: Seq<Seq<Seq<char>>>, t2: Seq<Seq<Seq<char>>>, s: Seq<Seq<char>>)
    requires
        t1.len() == t2.len(),
        forall|k: int, w: Seq<char>| 0 <= k < t1.len() ==> (#[trigger] t1[k].contains(w) <==> #[trigger] t2[k].contains(w)),
    ensures
        support(t1, s) == support(t2, s),
{
    lemma_support_upto_items(t1, t2, s, t1.len() as int);
}

proof fn lemma_support_upto_items(t1: Seq<Seq<Seq<char>>>, t2: Seq<Seq<Seq<char>>>, s: Seq<Seq<char>>, n: int)
    requires
        0 <= n <= t1.len(),
        t1.len() == t2.len(),
        forall|k: int, w: Seq<char>| 0 <= k < t1.len() ==> (#[trigger] t1[k].contains(w) <==> #[trigger] t2[k].contains(w)),
    ensures
        support_upto(t1, s, n) == support_upto(t2, s, n),
    decreases n,
{
    if n > 0 {
        lemma_support_upto_items(t1, t2, s, n - 1);
        assert(covers(t1[n - 1], s) == covers(t2[n - 1], s)) by {
            if covers(t1[n - 1], s) {
                assert forall|i: int| 0 <= i < s.len() implies t2[n - 1].contains(#[trigger] s[i]) by {
                    assert(t1[n - 1].contains(s[i]));
                }
            }
            if covers(t2[n - 1], s) {
                assert forall|i: int| 0 <= i < s.len() implies t1[n - 1].contains(#[trigger] s[i]) by {
                    assert(t2[n - 1].contains(s[i]));
                }
            }
        }
    }
}

/// Empty transactions do not change the support of a non-empty itemset.
pub proof fn law_support_ignores_empty_transactions(t: Seq<Seq<Seq<char>>>, e: Seq<Seq<Seq<char>>>, s: Seq<Seq<char>>)
    requires
        s.len() >= 1,
        forall|k: int| 0 <= k < e.len() ==> #[trigger] e[k].len() == 0,
    ensures
        support(t + e, s) == support(t, s),
    decreases e.len(),
{
    if e.len() > 0 {
        let e0 = e.drop_last();
        law_support_ignores_empty_transactions(t, e0, s);
        assert((t + e).drop_last() =~= t + e0);
        lemma_support_upto_prefix(t + e, t + e0, s, (t + e0).len() as int);
        assert((t + e)[(t + e).len() - 1] == e.last());
        assert(!e.last().contains(s[0]));
    }
}

// ------------------------------------------------------------------
// PrefixSpan
// ------------------------------------------------------------------

/// A sequence of applications switched to in this order, and in how many sequences it occurs.
#[derive(Debug, Clone, PartialEq)]
pub struct SequentialPattern {
    /// The applications, in order of use.
    pub pattern: Vec<String>,
    /// The number of sequences that hold the pattern as a subsequence.
    pub support: usize,
}

impl DeepView for SequentialPattern {
    type V = (Seq<Seq<char>>, nat);

    open spec fn deep_view(&self) -> (Seq<Seq<char>>, nat) {
        (self.pattern.deep_view(), self.support as nat)
    }
}

/// Whether `p` occurs in `s` as a subsequence (its items in order, not necessarily adjacent).
pub open spec fn embeds(s: Seq<Seq<char>>, p: Seq<Seq<char>>) -> bool
    decreases s.len(),
{
    if p.len() == 0 {
        true
    } else if s.len() == 0 {
        false
    } else if s[0] == p[0] {
        embeds(s.drop_first(), p.drop_first())
    } else {
        embeds(s.drop_first(), p)
    }
}

/// What follows the leftmost occurrence of `p` as a subsequence of `s`: the projection of
/// `s` on the prefix `p`.
pub open spec fn rest(s: Seq<Seq<char>>, p: Seq<Seq<char>>) -> Seq<Seq<char>>
    decreases s.len(),
{
    if p.len() == 0 {
        s
    } else if s.len() == 0 {
        s
    } else if s[0] == p[0] {
        rest(s.drop_first(), p.drop_first())
    } else {
        rest(s.drop_first(), p)
    }
}

/// The number of the first `n` sequences in which `p` occurs as a subsequence.
pub open spec fn seq_support_upto(seqs: Seq<Seq<Seq<char>>>, p: Seq<Seq<char>>, n: int) -> nat
    decreases n,
{
    if n <= 0 {
        0
    } else {
        seq_support_upto(seqs, p, n - 1) + if embeds(seqs[n - 1], p) {
            1nat
        } else {
            0nat
        }
    }
}

/// The number of sequences in which `p` occurs as a subsequence.
pub open spec fn seq_support(seqs: Seq<Seq<Seq<char>>>, p: Seq<Seq<char>>) -> nat {
    seq_support_upto(seqs, p, seqs.len() as int)
}

/// A pattern that PrefixSpan reports: 1 to `max_len` items, occurring in at least
/// `min_support` sequences.
pub open spec fn is_frequent_pattern(
    seqs: Seq<Seq<Seq<char>>>,
    min_support: nat,
    max_len: nat,
    p: Seq<Seq<char>>,
) -> bool {
    &&& 1 <= p.len() <= max_len
    &&& seq_support(seqs, p) >= min_support
}

/// `p + q` occurs in `s` exactly when `p` does and `q` occurs in what follows it; the
/// projection on `p + q` is the projection on `q` of the projection on `p`.
proof fn lemma_embeds_append(s: Seq<Seq<char>>, p: Seq<Seq<char>>, q: Seq<Seq<char>>)
    ensures
        embeds(s, p + q) == (embeds(s, p) && embeds(rest(s, p), q)),
        embeds(s, p) ==> rest(s, p + q) == rest(rest(s, p), q),
    decreases s.len(),
{
    if p.len() == 0 {
        assert(p + q =~= q);
    } else if s.len() == 0 {
    } else {
        assert((p + q)[0] == p[0]);
        if s[0] == p[0] {
            assert((p + q).drop_first() =~= p.drop_first() + q);
            lemma_embeds_append(s.drop_first(), p.drop_first(), q);
        } else {
            lemma_embeds_append(s.drop_first(), p, q);
        }
    }
}

/// The single-item pattern `[x]` occurs in `t` when `x` does, and its projection starts
/// after the first `x`.
proof fn lemma_embeds_single(t: Seq<Seq<char>>, x: Seq<char>, pos: int)
    requires
        0 <= pos < t.len(),
        t[pos] == x,
        forall|j: int| 0 <= j < pos ==> t[j] != x,
    ensures
        embeds(t, seq![x]),
        rest(t, seq![x]) == t.skip(pos + 1),
    decreases pos,
{
    let p = seq![x];
    assert(p.len() == 1 && p[0] == x);
    if pos == 0 {
        assert(p.drop_first().len() == 0);
        assert(embeds(t.drop_first(), p.drop_first()));
        assert(rest(t.drop_first(), p.drop_first()) == t.drop_first());
        assert(t.drop_first() =~= t.skip(1));
    } else {
        assert(t[0] != x);
        lemma_embeds_single(t.drop_first(), x, pos - 1);
        assert(embeds(t.drop_first(), p));
        assert(t.drop_first().skip(pos) =~= t.skip(pos + 1));
    }
}

/// `[x]` does not occur in a sequence without `x`.
proof fn lemma_not_embeds_single(t: Seq<Seq<char>>, x: Seq<char>)
    requires
        forall|j: int| 0 <= j < t.len() ==> t[j] != x,
    ensures
        !embeds(t, seq![x]),
    decreases t.len(),
{
    if t.len() > 0 {
        assert(t[0] != x);
        lemma_not_embeds_single(t.drop_first(), x);
    }
}

/// Counting is monotone: if every sequence holding `big` holds `small`, fewer hold `big`.
proof fn lemma_seq_support_monotone(
    seqs: Seq<Seq<Seq<char>>>,
    big: Seq<Seq<char>>,
    small: Seq<Seq<char>>,
    n: int,
)
    requires
        0 <= n <= seqs.len(),
        forall|i: int| 0 <= i < n && #[trigger] embeds(seqs[i], big) ==> embeds(seqs[i], small),
    ensures
        seq_support_upto(seqs, big, n) <= seq_support_upto(seqs, small, n),
    decreases n,
{
    if n > 0 {
        lemma_seq_support_monotone(seqs, big, small, n - 1);
    }
}

/// A pattern is held by at most as many sequences as any of its prefixes.
proof fn lemma_seq_support_prefix(seqs: Seq<Seq<Seq<char>>>, p: Seq<Seq<char>>, m: int)
    requires
        0 <= m <= p.len(),
    ensures
        seq_support(seqs, p) <= seq_support(seqs, p.take(m)),
{
    assert(p =~= p.take(m) + p.skip(m));
    assert forall|i: int| 0 <= i < seqs.len() && #[trigger] embeds(seqs[i], p) implies embeds(
        seqs[i],
        p.take(m),
    ) by {
        lemma_embeds_append(seqs[i], p.take(m), p.skip(m));
    }
    lemma_seq_support_monotone(seqs, p, p.take(m), seqs.len() as int);
}

/// A pattern with positive support occurs in some sequence.
proof fn lemma_seq_support_witness(seqs: Seq<Seq<Seq<char>>>, p: Seq<Seq<char>>, n: int) -> (i: int)
    requires
        0 <= n <= seqs.len(),
        seq_support_upto(seqs, p, n) > 0,
    ensures
        0 <= i < n,
        embeds(seqs[i], p),
    decreases n,
{
    if embeds(seqs[n - 1], p) {
        n - 1
    } else {
        lemma_seq_support_witness(seqs, p, n - 1)
    }
}

/// The projected database of `prefix`: entry `i` holds where the projection of sequence `i`
/// starts, or nothing when `prefix` does not occur in it.
pub open spec fn valid_projection(
    seqs: Seq<Seq<Seq<char>>>,
    prefix: Seq<Seq<char>>,
    proj: Seq<Option<usize>>,
) -> bool {
    &&& proj.len() == seqs.len()
    &&& forall|i: int|
        0 <= i < seqs.len() ==> {
            &&& (#[trigger] proj[i] is Some <==> embeds(seqs[i], prefix))
            &&& proj[i] is Some ==> proj[i]->0 <= seqs[i].len() && seqs[i].skip(
                proj[i]->0 as int,
            ) == rest(seqs[i], prefix)
        }
}

/// Whether `p` strictly extends `prefix`.
pub open spec fn extends(prefix: Seq<Seq<char>>, p: Seq<Seq<char>>) -> bool {
    p.len() > prefix.len() && p.take(prefix.len() as int) == prefix
}

/// What one call of the miner adds: each frequent pattern that strictly extends `prefix`
/// and is at most `max_len` long, once, with its support.
pub open spec fn mined_extensions(
    seqs: Seq<Seq<Seq<char>>>,
    prefix: Seq<Seq<char>>,
    min_support: nat,
    max_len: nat,
    added: Seq<(Seq<Seq<char>>, nat)>,
) -> bool {
    &&& forall|i: int|
        0 <= i < added.len() ==> {
            let e = #[trigger] added[i];
            &&& extends(prefix, e.0)
            &&& e.0.len() <= max_len
            &&& e.1 == seq_support(seqs, e.0)
            &&& e.1 >= min_support
        }
    &&& forall|i: int, j: int| 0 <= i < j < added.len() ==> added[i].0 != added[j].0
    &&& forall|p: Seq<Seq<char>>|
        #[trigger] extends(prefix, p) && p.len() <= max_len && seq_support(seqs, p) >= min_support
            ==> exists|i: int| 0 <= i < added.len() && added[i].0 == p
}

/// The first position at or after `start` where `x` occurs in `s`.
fn find_from(s: &Vec<String>, start: usize, x: &String) -> (r: Option<usize>)
    requires
        start <= s.len(),
    ensures
        r matches Some(pos) ==> start <= pos < s.len() && s.deep_view()[pos as int] == x@ && forall|
            j: int,
        | start <= j < pos ==> s.deep_view()[j] != x@,
        r is None ==> forall|j: int| start <= j < s.len() ==> s.deep_view()[j] != x@,
{
    let mut j = start;
    while j < s.len()
        invariant
            start <= j <= s.len(),
            forall|q: int| start <= q < j ==> s.deep_view()[q] != x@,
        decreases s.len() - j,
    {
        if s[j] == *x {
            assert(s.deep_view()[j as int] == x@);
            return Some(j);
        }
        j = j + 1;
    }
    None
}

/// Where the projection on `prefix + [x]` starts in sequence `s`, whose projection on
/// `prefix` starts at `st`.
proof fn lemma_project_step(
    s: Seq<Seq<char>>,
    prefix: Seq<Seq<char>>,
    x: Seq<char>,
    st: int,
    found: Option<usize>,
)
    requires
        embeds(s, prefix),
        0 <= st <= s.len(),
        s.skip(st) == rest(s, prefix),
        found matches Some(pos) ==> st <= pos < s.len() && s[pos as int] == x && forall|j: int|
            st <= j < pos ==> s[j] != x,
        found is None ==> forall|j: int| st <= j < s.len() ==> s[j] != x,
    ensures
        embeds(s, prefix.push(x)) == found is Some,
        found matches Some(pos) ==> s.skip(pos + 1) == rest(s, prefix.push(x)),
{
    let t = s.skip(st);
    assert(prefix.push(x) =~= prefix + seq![x]);
    lemma_embeds_append(s, prefix, seq![x]);
    match found {
        Some(pos) => {
            assert forall|j: int| 0 <= j < pos - st implies t[j] != x by {
                assert(t[j] == s[st + j]);
            }
            lemma_embeds_single(t, x, pos - st);
            assert(t.skip(pos - st + 1) =~= s.skip(pos + 1));
        },
        None => {
            assert forall|j: int| 0 <= j < t.len() implies t[j] != x by {
                assert(t[j] == s[st + j]);
            }
            lemma_not_embeds_single(t, x);
        },
    }
}

/// PrefixSpan on the projected database of `prefix`: reports every frequent extension of
/// `prefix`, depth first, items in increasing order at each level.
fn prefixspan_mine(
    sequences: &[Vec<String>],
    prefix: &Vec<String>,
    projected: &Vec<Option<usize>>,
    min_support: usize,
    max_len: usize,
    out: &mut Vec<SequentialPattern>,
)
    requires
        min_support > 0,
        valid_projection(sequences.deep_view(), prefix.deep_view(), projected@),
    ensures
        final(out).deep_view().len() >= old(out).deep_view().len(),
        final(out).deep_view().take(old(out).deep_view().len() as int) == old(out).deep_view(),
        mined_extensions(
            sequences.deep_view(),
            prefix.deep_view(),
            min_support as nat,
            max_len as nat,
            final(out).deep_view().skip(old(out).deep_view().len() as int),
        ),
    decreases max_len - prefix.len(),
{
    let ghost sv = sequences.deep_view();
    let ghost pv = prefix.deep_view();
    let ghost ms = min_support as nat;
    let ghost ml = max_len as nat;
    let ghost out0 = out.deep_view();
    if prefix.len() >= max_len {
        proof {
            let added = out.deep_view().skip(out0.len() as int);
            assert(added.len() == 0);
            assert(out.deep_view().take(out0.len() as int) =~= out0);
        }
        return;
    }
    let n = sequences.len();
    // every item that occurs in some projected sequence
    let mut universe: Vec<String> = Vec::new();
    let mut i: usize = 0;
    while i < n
        invariant
            n == sequences.len(),
            sv == sequences.deep_view(),
            pv == prefix.deep_view(),
            i <= n,
            valid_projection(sv, pv, projected@),
            is_word_set(universe.deep_view()),
            forall|a: int, y: Seq<char>|
                0 <= a < i && embeds(sv[a], pv) && #[trigger] rest(sv[a], pv).contains(y)
                    ==> universe.deep_view().contains(y),
        decreases n - i,
    {
        if let Some(st) = projected[i] {
            let seq_i = &sequences[i];
            assert(seq_i.deep_view() == sv[i as int]);
            let mut j = st;
            while j < seq_i.len()
                invariant
                    i < n,
                    n == sequences.len(),
                    sv == sequences.deep_view(),
                    seq_i.deep_view() == sv[i as int],
                    st <= j <= seq_i.len(),
                    is_word_set(universe.deep_view()),
                    forall|a: int, y: Seq<char>|
                        0 <= a < i && embeds(sv[a], pv) && #[trigger] rest(sv[a], pv).contains(y)
                            ==> universe.deep_view().contains(y),
                    forall|q: int| st <= q < j ==> universe.deep_view().contains(#[trigger] sv[i as int][q]),
                decreases seq_i.len() - j,
            {
                insert_word(&mut universe, seq_i[j].clone());
                j = j + 1;
            }
            proof {
                assert forall|a: int, y: Seq<char>|
                    0 <= a < i + 1 && embeds(sv[a], pv) && #[trigger] rest(sv[a], pv).contains(y)
                        implies universe.deep_view().contains(y) by {
                    if a == i {
                        let r = rest(sv[a], pv);
                        let q = choose|q: int| 0 <= q < r.len() && r[q] == y;
                        assert(r[q] == sv[i as int][st + q]);
                        assert(universe.deep_view().contains(sv[i as int][st + q]));
                    }
                }
            }
        }
        i = i + 1;
    }
    let ghost uv = universe.deep_view();
    let mut idx: usize = 0;
    while idx < universe.len()
        invariant
            n == sequences.len(),
            sv == sequences.deep_view(),
            pv == prefix.deep_view(),
            uv == universe.deep_view(),
            ms == min_support as nat,
            ml == max_len as nat,
            min_support > 0,
            prefix.len() < max_len,
            idx <= universe.len(),
            valid_projection(sv, pv, projected@),
            is_word_set(uv),
            forall|a: int, y: Seq<char>|
                0 <= a < n && embeds(sv[a], pv) && #[trigger] rest(sv[a], pv).contains(y)
                    ==> uv.contains(y),
            out.deep_view().len() >= out0.len(),
            out.deep_view().take(out0.len() as int) == out0,
            forall|q: int|
                0 <= q < out.deep_view().skip(out0.len() as int).len() ==> {
                    let e = #[trigger] out.deep_view().skip(out0.len() as int)[q];
                    &&& extends(pv, e.0)
                    &&& e.0.len() <= ml
                    &&& e.1 == seq_support(sv, e.0)
                    &&& e.1 >= ms
                    &&& uv.take(idx as int).contains(e.0[pv.len() as int])
                },
            forall|a: int, b: int|
                0 <= a < b < out.deep_view().skip(out0.len() as int).len() ==> out.deep_view().skip(
                    out0.len() as int,
                )[a].0 != out.deep_view().skip(out0.len() as int)[b].0,
            forall|p: Seq<Seq<char>>|
                #[trigger] extends(pv, p) && p.len() <= ml && seq_support(sv, p) >= ms
                    && uv.take(idx as int).contains(p[pv.len() as int]) ==> exists|q: int|
                    0 <= q < out.deep_view().skip(out0.len() as int).len() && out.deep_view().skip(
                        out0.len() as int,
                    )[q].0 == p,
        decreases universe.len() - idx,
    {
        let item = &universe[idx];
        let ghost x = uv[idx as int];
        let ghost px = pv.push(x);
        // support of prefix + [item]: the projected sequences that hold item
        let mut count: usize = 0;
        let mut i: usize = 0;
        while i < n
            invariant
                n == sequences.len(),
                sv == sequences.deep_view(),
                pv == prefix.deep_view(),
                item@ == x,
                px == pv.push(x),
                i <= n,
                valid_projection(sv, pv, projected@),
                count == seq_support_upto(sv, px, i as int),
                count <= i,
            decreases n - i,
        {
            if let Some(st) = projected[i] {
                let found = find_from(&sequences[i], st, item);
                proof {
                    assert(sequences[i as int].deep_view() == sv[i as int]);
                    lemma_project_step(sv[i as int], pv, x, st as int, found);
                }
                if found.is_some() {
                    count = count + 1;
                }
            } else {
                proof {
                    assert(px =~= pv + seq![x]);
                    lemma_embeds_append(sv[i as int], pv, seq![x]);
                }
            }
            i = i + 1;
        }
        let ghost added0 = out.deep_view().skip(out0.len() as int);
        let ghost outa = out.deep_view();
        proof {
            lemma_take_push_members(uv, idx as int);
            lemma_chars_strict_total();
        }
        if count >= min_support {
            let mut next_prefix = clone_words(prefix);
            next_prefix.push(item.clone());
            assert(next_prefix.deep_view() =~= px);
            // project every sequence past the first item after its current projection
            let mut next_proj: Vec<Option<usize>> = Vec::new();
            let mut i: usize = 0;
            while i < n
                invariant
                    n == sequences.len(),
                    sv == sequences.deep_view(),
                    pv == prefix.deep_view(),
                    item@ == x,
                    px == pv.push(x),
                    i <= n,
                    next_proj.len() == i,
                    valid_projection(sv, pv, projected@),
                    forall|a: int|
                        0 <= a < i ==> {
                            &&& (#[trigger] next_proj@[a] is Some <==> embeds(sv[a], px))
                            &&& next_proj@[a] is Some ==> next_proj@[a]->0 <= sv[a].len()
                                && sv[a].skip(next_proj@[a]->0 as int) == rest(sv[a], px)
                        },
                decreases n - i,
            {
                let mut entry: Option<usize> = None;
                if let Some(st) = projected[i] {
                    let found = find_from(&sequences[i], st, item);
                    proof {
                        assert(sequences[i as int].deep_view() == sv[i as int]);
                        lemma_project_step(sv[i as int], pv, x, st as int, found);
                    }
                    if let Some(pos) = found {
                        entry = Some(pos + 1);
                    }
                } else {
                    proof {
                        assert(px =~= pv + seq![x]);
                        lemma_embeds_append(sv[i as int], pv, seq![x]);
                    }
                }
                next_proj.push(entry);
                i = i + 1;
            }
            out.push(SequentialPattern { pattern: clone_words(&next_prefix), support: count });
            let ghost outb = out.deep_view();
            proof {
                assert(outb =~= outa.push((px, count as nat)));
            }
            prefixspan_mine(sequences, &next_prefix, &next_proj, min_support, max_len, out);
            proof {
                let outc = out.deep_view();
                let sub = outc.skip(outb.len() as int);
                let added = outc.skip(out0.len() as int);
                assert(outc.take(outb.len() as int) == outb);
                assert(added =~= added0.push((px, count as nat)) + sub) by {
                    assert(outc =~= outc.take(outb.len() as int) + sub);
                    assert(outa =~= outa.take(out0.len() as int) + added0);
                    assert(outc =~= out0 + added0.push((px, count as nat)) + sub);
                }
                assert(outc.take(out0.len() as int) =~= out0) by {
                    assert(outc.take(out0.len() as int) =~= outb.take(out0.len() as int));
                }
                assert(extends(pv, px)) by {
                    assert(px.take(pv.len() as int) =~= pv);
                }
                // each sub-pattern extends prefix + [x]; so its item after `prefix` is x
                assert forall|q: int| 0 <= q < sub.len() implies (#[trigger] sub[q]).0[pv.len() as int]
                    == x && extends(pv, sub[q].0) by {
                    let e = sub[q];
                    assert(extends(px, e.0));
                    assert(e.0.take(px.len() as int)[pv.len() as int] == px[pv.len() as int]);
                    assert(e.0.take(pv.len() as int) =~= e.0.take(px.len() as int).take(pv.len() as int));
                    assert(px.take(pv.len() as int) =~= pv);
                }
                assert forall|q: int| 0 <= q < added.len() implies {
                    let e = #[trigger] added[q];
                    &&& extends(pv, e.0)
                    &&& e.0.len() <= ml
                    &&& e.1 == seq_support(sv, e.0)
                    &&& e.1 >= ms
                    &&& uv.take(idx + 1).contains(e.0[pv.len() as int])
                } by {
                    if q < added0.len() {
                        assert(added[q] == added0[q]);
                        assert(uv.take(idx as int).contains(added0[q].0[pv.len() as int]));
                    } else if q == added0.len() {
                        assert(added[q] == (px, count as nat));
                        assert(seq_support(sv, px) == count);
                        assert(px[pv.len() as int] == x);
                    } else {
                        assert(added[q] == sub[q - added0.len() - 1]);
                    }
                }
                assert forall|a: int, b: int| 0 <= a < b < added.len() implies added[a].0 != added[b].0 by {
                    if b < added0.len() {
                        assert(added[a] == added0[a] && added[b] == added0[b]);
                    } else if a < added0.len() {
                        assert(added[a] == added0[a]);
                        let y = added0[a].0[pv.len() as int];
                        assert(uv.take(idx as int).contains(y));
                        let w = choose|w: int| 0 <= w < idx && uv.take(idx as int)[w] == y;
                        assert(text_order()(uv[w], uv[idx as int]));
                        if b == added0.len() {
                            assert(added[b].0[pv.len() as int] == x);
                        } else {
                            assert(added[b] == sub[b - added0.len() - 1]);
                        }
                    } else if a == added0.len() {
                        assert(added[b] == sub[b - added0.len() - 1]);
                        assert(extends(px, sub[b - added0.len() - 1].0));
                    } else {
                        assert(added[a] == sub[a - added0.len() - 1]);
                        assert(added[b] == sub[b - added0.len() - 1]);
                    }
                }
                assert forall|p: Seq<Seq<char>>|
                    #[trigger] extends(pv, p) && p.len() <= ml && seq_support(sv, p) >= ms
                        && uv.take(idx + 1).contains(p[pv.len() as int]) implies exists|q: int|
                        0 <= q < added.len() && added[q].0 == p by {
                    if p[pv.len() as int] == x {
                        if p.len() == px.len() {
                            assert(p =~= px) by {
                                assert(p =~= p.take(pv.len() as int).push(p[pv.len() as int]));
                            }
                            assert(added[added0.len() as int].0 == p);
                        } else {
                            assert(p.take(px.len() as int) =~= px) by {
                                assert(p.take(px.len() as int) =~= p.take(pv.len() as int).push(
                                    p[pv.len() as int],
                                ));
                            }
                            assert(extends(px, p));
                            let q = choose|q: int| 0 <= q < sub.len() && sub[q].0 == p;
                            assert(added[added0.len() + 1 + q] == sub[q]);
                        }
                    } else {
                        let ut = uv.take(idx + 1);
                        let w = choose|w: int| 0 <= w < idx + 1 && #[trigger] ut[w] == p[pv.len() as int];
                        assert(uv.take(idx as int).contains(p[pv.len() as int])) by {
                            assert(uv.take(idx as int)[w] == p[pv.len() as int]);
                        }
                        let q = choose|q: int| 0 <= q < added0.len() && added0[q].0 == p;
                        assert(added[q] == added0[q]);
                    }
                }
            }
        } else {
            proof {
                let added = out.deep_view().skip(out0.len() as int);
                assert forall|q: int| 0 <= q < added.len() implies uv.take(idx + 1).contains(
                    (#[trigger] added[q]).0[pv.len() as int],
                ) by {
                    assert(uv.take(idx as int).contains(added[q].0[pv.len() as int]));
                }
                assert forall|p: Seq<Seq<char>>|
                    #[trigger] extends(pv, p) && p.len() <= ml && seq_support(sv, p) >= ms
                        && uv.take(idx + 1).contains(p[pv.len() as int]) implies exists|q: int|
                        0 <= q < added.len() && added[q].0 == p by {
                    if p[pv.len() as int] == x {
                        lemma_seq_support_prefix(sv, p, px.len() as int);
                        assert(p.take(px.len() as int) =~= px) by {
                            assert(p.take(px.len() as int) =~= p.take(pv.len() as int).push(
                                p[pv.len() as int],
                            ));
                        }
                        assert(false);
                    }
                }
            }
        }
        idx = idx + 1;
    }
    proof {
        let added = out.deep_view().skip(out0.len() as int);
        assert(uv.take(uv.len() as int) =~= uv);
        assert forall|p: Seq<Seq<char>>|
            #[trigger] extends(pv, p) && p.len() <= ml && seq_support(sv, p) >= ms implies exists|q: int|
                0 <= q < added.len() && added[q].0 == p by {
            let x = p[pv.len() as int];
            let px = pv.push(x);
            lemma_seq_support_prefix(sv, p, px.len() as int);
            assert(p.take(px.len() as int) =~= px) by {
                assert(p.take(px.len() as int) =~= p.take(pv.len() as int).push(x));
            }
            let a = lemma_seq_support_witness(sv, px, sv.len() as int);
            assert(px =~= pv + seq![x]);
            lemma_embeds_append(sv[a], pv, seq![x]);
            assert(rest(sv[a], pv).contains(x)) by {
                let r = rest(sv[a], pv);
                if !r.contains(x) {
                    lemma_not_embeds_single(r, x);
                }
            }
            assert(uv.contains(x));
        }
    }
}

/// Patterns, each once, ranked by `ranked_before`.
fn sort_patterns(v: &Vec<SequentialPattern>) -> (r: Vec<SequentialPattern>)
    requires
        forall|i: int, j: int|
            0 <= i < j < v.deep_view().len() ==> v.deep_view()[i] != v.deep_view()[j],
    ensures
        sorted_by(r.deep_view(), ranking()),
        forall|x: (Seq<Seq<char>>, nat)| #[trigger] r.deep_view().contains(x) <==> v.deep_view().contains(x),
{
    let ghost lt = ranking();
    let ghost vv = v.deep_view();
    let mut r: Vec<SequentialPattern> = Vec::new();
    let mut i: usize = 0;
    while i < v.len()
        invariant
            i <= v.len(),
            vv == v.deep_view(),
            lt == ranking(),
            forall|p: int, q: int| 0 <= p < q < vv.len() ==> vv[p] != vv[q],
            sorted_by(r.deep_view(), lt),
            forall|x: (Seq<Seq<char>>, nat)| #[trigger] r.deep_view().contains(x) <==> vv.take(i as int).contains(x),
        decreases v.len() - i,
    {
        proof {
            lemma_ranked_strict_total();
        }
        let x = &v[i];
        let mut p: usize = 0;
        while p < r.len() && ranked_less(&r[p].pattern, r[p].support, &x.pattern, x.support)
            invariant
                p <= r.len(),
                forall|j: int| 0 <= j < p ==> lt(#[trigger] r.deep_view()[j], vv[i as int]),
                lt == ranking(),
                x.deep_view() == vv[i as int],
            decreases r.len() - p,
        {
            p = p + 1;
        }
        let ghost old_r = r.deep_view();
        proof {
            if p < r.len() {
                assert(old_r.contains(old_r[p as int]));
                assert(vv.take(i as int).contains(old_r[p as int]));
                let w = choose|w: int| 0 <= w < i && vv.take(i as int)[w] == old_r[p as int];
                assert(vv[w] != vv[i as int]);
                assert(lt(old_r[p as int], vv[i as int]) || lt(vv[i as int], old_r[p as int]));
            }
            lemma_insert_sorted(old_r, vv[i as int], p as int, lt);
            lemma_insert_members(old_r, vv[i as int], p as int);
            lemma_take_push_members(vv, i as int);
        }
        let item = SequentialPattern { pattern: clone_words(&x.pattern), support: x.support };
        r.insert(p, item);
        assert(r.deep_view() =~= old_r.insert(p as int, vv[i as int]));
        i = i + 1;
    }
    assert(vv.take(v.len() as int) =~= vv);
    r
}

/// PrefixSpan sequential pattern mining over single-item events.
///
/// Each sequence is an ordered record of application switches. Returns every pattern of 1 to
/// `max_len` applications that occurs, in order, in at least `min_support` sequences, with
/// its support, ranked by support (highest first), then by length (longest first), then by
/// items. No sequences, `min_support == 0` or `max_len == 0` give nothing.
pub fn prefixspan(sequences: &[Vec<String>], min_support: usize, max_len: usize) -> (r: Vec<
    SequentialPattern,
>)
    ensures
        sequences.len() == 0 || min_support == 0 || max_len == 0 ==> r.len() == 0,
        forall|i: int|
            0 <= i < r.deep_view().len() ==> {
                let e = #[trigger] r.deep_view()[i];
                &&& is_frequent_pattern(
                    sequences.deep_view(),
                    min_support as nat,
                    max_len as nat,
                    e.0,
                )
                &&& e.1 == seq_support(sequences.deep_view(), e.0)
            },
        min_support > 0 ==> forall|p: Seq<Seq<char>>|
            #[trigger] is_frequent_pattern(
                sequences.deep_view(),
                min_support as nat,
                max_len as nat,
                p,
            ) ==> exists|i: int| 0 <= i < r.deep_view().len() && r.deep_view()[i].0 == p,
        sorted_by(r.deep_view(), ranking()),
{
    if sequences.len() == 0 || min_support == 0 || max_len == 0 {
        return Vec::new();
    }
    let ghost sv = sequences.deep_view();
    let mut projected: Vec<Option<usize>> = Vec::new();
    let mut i: usize = 0;
    while i < sequences.len()
        invariant
            i <= sequences.len(),
            sv == sequences.deep_view(),
            projected.len() == i,
            forall|a: int| 0 <= a < i ==> #[trigger] projected@[a] == Some(0usize),
        decreases sequences.len() - i,
    {
        projected.push(Some(0));
        i = i + 1;
    }
    let prefix: Vec<String> = Vec::new();
    proof {
        assert(prefix.deep_view() =~= Seq::<Seq<char>>::empty());
        assert forall|a: int| 0 <= a < sv.len() implies {
            &&& (#[trigger] projected@[a] is Some <==> embeds(sv[a], prefix.deep_view()))
            &&& projected@[a] is Some ==> projected@[a]->0 <= sv[a].len() && sv[a].skip(
                projected@[a]->0 as int,
            ) == rest(sv[a], prefix.deep_view())
        } by {
            assert(sv[a].skip(0) =~= sv[a]);
        }
    }
    let mut out: Vec<SequentialPattern> = Vec::new();
    prefixspan_mine(sequences, &prefix, &projected, min_support, max_len, &mut out);
    let ghost ov = out.deep_view();
    proof {
        assert(ov.skip(0) =~= ov);
        assert forall|p: int, q: int| 0 <= p < q < ov.len() implies ov[p] != ov[q] by {
            assert(ov[p].0 != ov[q].0);
        }
    }
    let r = sort_patterns(&out);
    proof {
        let ms = min_support as nat;
        let ml = max_len as nat;
        assert forall|i: int| 0 <= i < r.deep_view().len() implies {
            let e = #[trigger] r.deep_view()[i];
            &&& is_frequent_pattern(sv, ms, ml, e.0)
            &&& e.1 == seq_support(sv, e.0)
        } by {
            assert(r.deep_view().contains(r.deep_view()[i]));
            let j = choose|j: int| 0 <= j < ov.len() && ov[j] == r.deep_view()[i];
            assert(extends(prefix.deep_view(), ov[j].0));
        }
        assert forall|p: Seq<Seq<char>>| #[trigger] is_frequent_pattern(sv, ms, ml, p) implies exists|
            i: int,
        | 0 <= i < r.deep_view().len() && r.deep_view()[i].0 == p by {
            assert(p.take(0) =~= prefix.deep_view());
            assert(extends(prefix.deep_view(), p));
            let j = choose|j: int| 0 <= j < ov.len() && ov[j].0 == p;
            assert(ov.contains(ov[j]));
            assert(r.deep_view().contains(ov[j]));
        }
    }
    r
}

// ------------------------------------------------------------------
// Next-application prediction
// ------------------------------------------------------------------

/// For the two-item patterns that start with `current`, in order: the second item and the
/// pattern's support.
pub open spec fn successors(pats: Seq<(Seq<Seq<char>>, nat)>, current: Seq<char>) -> Seq<
    (Seq<char>, nat),
>
    decreases pats.len(),
{
    if pats.len() == 0 {
        seq![]
    } else {
        let prev = successors(pats.drop_last(), current);
        let p = pats.last();
        if p.0.len() == 2 && p.0[0] == current {
            prev.push((p.0[1], p.1))
        } else {
            prev
        }
    }
}

/// The entries of `s` with support `v`, in order.
pub open spec fn with_support(s: Seq<(Seq<char>, nat)>, v: nat) -> Seq<(Seq<char>, nat)> {
    s.filter(|e: (Seq<char>, nat)| e.1 == v)
}

/// Predictions as (application, support) values.
pub open spec fn prediction_view(r: Seq<(String, usize)>) -> Seq<(Seq<char>, nat)> {
    r.map_values(|e: (String, usize)| (e.0@, e.1 as nat))
}

/// Predicts what follows `current`: the second application of every two-item pattern that
/// starts with `current`, with the pattern's support, by support (highest first); entries of
/// equal support keep the order of `patterns` (the sort is stable).
pub fn predict_next(patterns: &[SequentialPattern], current: &str) -> (r: Vec<(String, usize)>)
    ensures
        forall|i: int, j: int|
            0 <= i < j < r@.len() ==> prediction_view(r@)[i].1 >= prediction_view(r@)[j].1,
        forall|v: nat| #[trigger]
            with_support(prediction_view(r@), v) == with_support(
                successors(patterns.deep_view(), current@),
                v,
            ),
{
    broadcast use vstd::seq_lib::group_filter_ensures;

    let ghost pv = patterns.deep_view();
    let mut next: Vec<(String, usize)> = Vec::new();
    let mut i: usize = 0;
    while i < patterns.len()
        invariant
            i <= patterns.len(),
            pv == patterns.deep_view(),
            prediction_view(next@) =~= successors(pv.take(i as int), current@),
        decreases patterns.len() - i,
    {
        let p = &patterns[i];
        assert(pv.take(i + 1).drop_last() =~= pv.take(i as int));
        assert(p.deep_view() == pv[i as int]);
        if p.pattern.len() == 2 && str_equal(p.pattern[0].as_str(), current) {
            let ghost old_n = prediction_view(next@);
            next.push((p.pattern[1].clone(), p.support));
            assert(prediction_view(next@) =~= old_n.push((pv[i as int].0[1], pv[i as int].1)));
        }
        i = i + 1;
    }
    assert(pv.take(patterns.len() as int) =~= pv);
    let ghost nv = prediction_view(next@);
    // stable insertion sort by support, highest first
    let mut r: Vec<(String, usize)> = Vec::new();
    let mut i: usize = 0;
    while i < next.len()
        invariant
            i <= next.len(),
            nv == prediction_view(next@),
            forall|a: int, b: int|
                0 <= a < b < r@.len() ==> prediction_view(r@)[a].1 >= prediction_view(r@)[b].1,
            forall|v: nat| #[trigger]
                with_support(prediction_view(r@), v) == with_support(nv.take(i as int), v),
        decreases next.len() - i,
    {
        let x_support = next[i].1;
        let mut p: usize = 0;
        while p < r.len() && r[p].1 >= x_support
            invariant
                p <= r.len(),
                i < next.len(),
                nv == prediction_view(next@),
                x_support == nv[i as int].1,
                forall|a: int| 0 <= a < p ==> prediction_view(r@)[a].1 >= x_support,
            decreases r.len() - p,
        {
            p = p + 1;
        }
        let ghost old_r = prediction_view(r@);
        let ghost x = nv[i as int];
        r.insert(p, (next[i].0.clone(), x_support));
        proof {
            let nr = prediction_view(r@);
            assert(nr =~= old_r.insert(p as int, x));
            assert(nr =~= old_r.take(p as int) + seq![x] + old_r.skip(p as int));
            assert(old_r =~= old_r.take(p as int) + old_r.skip(p as int));
            assert(nv.take(i + 1) =~= nv.take(i as int).push(x));
            assert forall|a: int, b: int| 0 <= a < b < nr.len() implies nr[a].1 >= nr[b].1 by {
                if b < p {
                } else if b == p {
                } else if a < p {
                    assert(old_r[a].1 >= old_r[b - 1].1);
                } else if a == p {
                    if b - 1 > p {
                        assert(old_r[p as int].1 >= old_r[b - 1].1);
                    }
                    assert(old_r[p as int].1 < x.1);
                } else {
                    assert(old_r[a - 1].1 >= old_r[b - 1].1);
                }
            }
            assert forall|v: nat| #[trigger] with_support(nr, v) == with_support(nv.take(i + 1), v) by {
                let pred = |e: (Seq<char>, nat)| e.1 == v;
                let front = old_r.take(p as int);
                let back = old_r.skip(p as int);
                Seq::filter_distributes_over_add(front + seq![x], back, pred);
                Seq::filter_distributes_over_add(front, back, pred);
                front.lemma_filter_push(x, pred);
                nv.take(i as int).lemma_filter_push(x, pred);
                assert((front + seq![x] + back).filter(pred) == (front + seq![x]).filter(pred)
                    + back.filter(pred));
                assert(front.push(x) =~= front + seq![x]);
                assert(front.push(x).filter(pred) == if pred(x) {
                    front.filter(pred).push(x)
                } else {
                    front.filter(pred)
                });
                assert(old_r.filter(pred) == front.filter(pred) + back.filter(pred));
                assert(nv.take(i + 1).filter(pred) == if pred(x) {
                    nv.take(i as int).filter(pred).push(x)
                } else {
                    nv.take(i as int).filter(pred)
                });
                assert(with_support(old_r, v) == with_support(nv.take(i as int), v));
                if pred(x) {
                    assert forall|q: int| 0 <= q < back.len() implies !pred(#[trigger] back[q]) by {
                        if q > 0 {
                            assert(old_r[p as int].1 >= old_r[p + q].1);
                        }
                    }
                    assert(back.all(|e: (Seq<char>, nat)| !pred(e)));
                    back.lemma_all_neg_filter_empty(pred);
                    assert(back.filter(pred) =~= Seq::<(Seq<char>, nat)>::empty());
                    assert(with_support(nr, v) =~= front.filter(pred).push(x));
                    assert(with_support(old_r, v) =~= front.filter(pred));
                } else {
                    assert(with_support(nr, v) =~= front.filter(pred) + back.filter(pred));
                }
            }
        }
        i = i + 1;
    }
    assert(nv.take(next.len() as int) =~= nv);
    r
}

} // verus!
