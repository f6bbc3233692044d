//! Facts about sequences kept in strictly increasing order.
use vstd::prelude::*;
use vstd::relations::{sorted_by, strict_total_ordering};

verus! {

/// Two sequences, each strictly increasing under the same strict total order and holding
/// the same elements, are equal.
pub proof fn lemma_sorted_same_members_equal<A>(a: Seq<A>, b: Seq<A>, lt: spec_fn(A, A) -> bool)
    requires
        strict_total_ordering(lt),
        sorted_by(a, lt),
        sorted_by(b, lt),
        forall|x: A| a.contains(x) <==> b.contains(x),
    ensures
        a == b,
    decreases a.len(),
{
    if a.len() == 0 {
        if b.len() > 0 {
            assert(b.contains(b[0]));
        }
        assert(a =~= b);
    } else {
        assert(a.contains(a[0]));
        let j = choose|j: int| 0 <= j < b.len() && b[j] == a[0];
        assert(b.contains(b[0]));
        let i = choose|i: int| 0 <= i < a.len() && a[i] == b[0];
        if j > 0 {
            assert(lt(b[0], b[j]));
            if i > 0 {
                assert(lt(a[0], a[i]));
            }
        }
        assert(a[0] == b[0]);
        let ta = a.drop_first();
        let tb = b.drop_first();
        assert forall|x: A| ta.contains(x) <==> tb.contains(x) by {
            if ta.contains(x) {
                let k = choose|k: int| 0 <= k < ta.len() && ta[k] == x;
                assert(lt(a[0], a[k + 1]));
                assert(b.contains(x));
                let m = choose|m: int| 0 <= m < b.len() && b[m] == x;
                if m == 0 {
                    assert(lt(x, x));
                }
                assert(tb[m - 1] == x);
            }
            if tb.contains(x) {
                let k = choose|k: int| 0 <= k < tb.len() && tb[k] == x;
                assert(lt(b[0], b[k + 1]));
                assert(a.contains(x));
                let m = choose|m: int| 0 <= m < a.len() && a[m] == x;
                if m == 0 {
                    assert(lt(x, x));
                }
                assert(ta[m - 1] == x);
            }
        }
        assert(sorted_by(ta, lt)) by {
            assert forall|p: int, q: int| 0 <= p < q < ta.len() implies #[trigger] lt(ta[p], ta[q]) by {
                assert(lt(a[p + 1], a[q + 1]));
            }
        }
        assert(sorted_by(tb, lt)) by {
            assert forall|p: int, q: int| 0 <= p < q < tb.len() implies #[trigger] lt(tb[p], tb[q]) by {
                assert(lt(b[p + 1], b[q + 1]));
            }
        }
        lemma_sorted_same_members_equal(ta, tb, lt);
        assert(a =~= seq![a[0]] + ta);
        assert(b =~= seq![b[0]] + tb);
    }
}

/// Inserting `x` at a position after everything smaller and before everything larger keeps
/// a strictly increasing sequence strictly increasing.
pub proof fn lemma_insert_sorted<A>(r: Seq<A>, x: A, p: int, lt: spec_fn(A, A) -> bool)
    requires
        strict_total_ordering(lt),
        sorted_by(r, lt),
        0 <= p <= r.len(),
        forall|j: int| 0 <= j < p ==> lt(#[trigger] r[j], x),
        p < r.len() ==> lt(x, r[p]),
    ensures
        sorted_by(r.insert(p, x), lt),
{
    let nr = r.insert(p, x);
    assert forall|i: int, j: int| 0 <= i < j < nr.len() implies #[trigger] lt(nr[i], nr[j]) by {
        if j < p {
            assert(lt(r[i], r[j]));
        } else if j == p {
            assert(lt(r[i], x));
        } else if i < p {
            assert(lt(r[i], r[j - 1]));
        } else if i == p {
            if j - 1 > p {
                assert(lt(r[p], r[j - 1]));
            }
        } else {
            assert(lt(r[i - 1], r[j - 1]));
        }
    }
}

/// The elements of `r.insert(p, x)` are those of `r` and `x`.
pub proof fn lemma_insert_members<A>(r: Seq<A>, x: A, p: int)
    requires
        0 <= p <= r.len(),
    ensures
        forall|y: A| #[trigger] r.insert(p, x).contains(y) <==> (r.contains(y) || y == x),
{
    let nr = r.insert(p, x);
    assert forall|y: A| #[trigger] nr.contains(y) <==> (r.contains(y) || y == x) by {
        if nr.contains(y) {
            let k = choose|k: int| 0 <= k < nr.len() && nr[k] == y;
            if k < p {
                assert(r[k] == y);
            } else if k > p {
                assert(r[k - 1] == y);
            }
        }
        if r.contains(y) {
            let k = choose|k: int| 0 <= k < r.len() && r[k] == y;
            if k < p {
                assert(nr[k] == y);
            } else {
                assert(nr[k + 1] == y);
            }
        }
        if y == x {
            assert(nr[p] == y);
        }
    }
}

/// The elements of `s.take(i + 1)` are those of `s.take(i)` and `s[i]`.
pub proof fn lemma_take_push_members<A>(s: Seq<A>, i: int)
    requires
        0 <= i < s.len(),
    ensures
        forall|y: A| #[trigger] s.take(i + 1).contains(y) <==> (s.take(i).contains(y) || y == s[i]),
{
    assert(s.take(i + 1) =~= s.take(i).push(s[i]));
    let t0 = s.take(i);
    let t1 = s.take(i + 1);
    assert forall|y: A| #[trigger] t1.contains(y) <==> (t0.contains(y) || y == s[i]) by {
        if t1.contains(y) {
            let k = choose|k: int| 0 <= k < t1.len() && t1[k] == y;
            if k < i {
                assert(t0[k] == y);
            }
        }
        if t0.contains(y) {
            let k = choose|k: int| 0 <= k < t0.len() && t0[k] == y;
            assert(t1[k] == y);
        }
        if y == s[i] {
            assert(t1[i] == y);
        }
    }
}

/// Filtering keeps a sequence whole when every element passes.
pub proof fn lemma_filter_keeps_all<A>(s: Seq<A>, pred: spec_fn(A) -> bool)
    requires
        forall|k: int| 0 <= k < s.len() ==> pred(#[trigger] s[k]),
    ensures
        s.filter(pred) == s,
    decreases s.len(),
{
    if s.len() > 0 {
        let d = s.drop_last();
        assert forall|k: int| 0 <= k < d.len() implies pred(#[trigger] d[k]) by {
            assert(d[k] == s[k]);
        }
        lemma_filter_keeps_all(d, pred);
        d.lemma_filter_push(s.last(), pred);
        assert(d.push(s.last()) =~= s);
    } else {
        assert(s.filter(pred) =~= s) by {
            s.lemma_filter_len(pred);
        }
    }
}

/// Whether an element's key is `v`.
pub open spec fn key_is<A>(key: spec_fn(A) -> int, v: int) -> spec_fn(A) -> bool {
    |e: A| key(e) == v
}

/// The keys never increase along `s`.
pub open spec fn sorted_desc<A>(s: Seq<A>, key: spec_fn(A) -> int) -> bool {
    forall|a: int, b: int| 0 <= a < b < s.len() ==> key(s[a]) >= key(s[b])
}

/// `s` and `t` hold the same elements of each key, in the same order.
pub open spec fn same_by_key<A>(s: Seq<A>, t: Seq<A>, key: spec_fn(A) -> int) -> bool {
    forall|v: int| #[trigger] s.filter(key_is(key, v)) == t.filter(key_is(key, v))
}

/// `r` is `s` sorted by key, highest first, elements of equal keys kept in their order.
pub open spec fn stable_desc<A>(r: Seq<A>, s: Seq<A>, key: spec_fn(A) -> int) -> bool {
    sorted_desc(r, key) && same_by_key(r, s, key)
}

/// Inserting `x` after the elements of keys at least its own keeps a stable sort.
pub proof fn lemma_insert_desc<A>(r: Seq<A>, done: Seq<A>, x: A, p: int, key: spec_fn(A) -> int)
    requires
        stable_desc(r, done, key),
        0 <= p <= r.len(),
        forall|a: int| 0 <= a < p ==> key(r[a]) >= key(x),
        p < r.len() ==> key(r[p]) < key(x),
    ensures
        stable_desc(r.insert(p, x), done.push(x), key),
{
    let nr = r.insert(p, x);
    assert(nr =~= r.take(p) + seq![x] + r.skip(p));
    assert(r =~= r.take(p) + r.skip(p));
    assert forall|a: int, b: int| 0 <= a < b < nr.len() implies key(nr[a]) >= key(nr[b]) by {
        if b < p {
            assert(nr[a] == r[a] && nr[b] == r[b]);
        } else if b == p {
            assert(nr[a] == r[a]);
        } else if a < p {
            assert(nr[a] == r[a] && nr[b] == r[b - 1]);
        } else if a == p {
            assert(nr[b] == r[b - 1]);
            if b - 1 > p {
                assert(key(r[p]) >= key(r[b - 1]));
            }
        } else {
            assert(nr[a] == r[a - 1] && nr[b] == r[b - 1]);
        }
    }
    assert forall|v: int| #[trigger] nr.filter(key_is(key, v)) == done.push(x).filter(key_is(key, v)) by {
        let pred = key_is(key, v);
        let front = r.take(p);
        let back = r.skip(p);
        Seq::filter_distributes_over_add(front + seq![x], back, pred);
        Seq::filter_distributes_over_add(front, back, pred);
        front.lemma_filter_push(x, pred);
        done.lemma_filter_push(x, pred);
        assert(front.push(x) =~= front + seq![x]);
        assert(r.filter(pred) == done.filter(pred));
        if pred(x) {
            assert forall|q: int| 0 <= q < back.len() implies !pred(#[trigger] back[q]) by {
                assert(back[q] == r[p + q]);
                if q > 0 {
                    assert(key(r[p]) >= key(r[p + q]));
                }
            }
            assert(back.all(|e: A| !pred(e)));
            back.lemma_all_neg_filter_empty(pred);
            assert(back.filter(pred) =~= Seq::<A>::empty());
            assert(nr.filter(pred) =~= front.filter(pred).push(x));
            assert(r.filter(pred) =~= front.filter(pred));
        } else {
            assert(nr.filter(pred) =~= front.filter(pred) + back.filter(pred));
        }
    }
}

} // verus!
