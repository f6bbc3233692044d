//! Orders on text, and the executable comparisons that follow them.
use vstd::prelude::*;
use vstd::relations::{sorted_by, strict_total_ordering};
use vstd::std_specs::iter::IteratorSpec;

verus! {

/// Strict lexicographic order on sequences, given a strict order on their elements:
/// a proper prefix comes first, otherwise the first differing element decides.
pub open spec fn lex_lt<A>(a: Seq<A>, b: Seq<A>, lt: spec_fn(A, A) -> bool) -> bool
    decreases a.len(),
{
    if a.len() == 0 {
        b.len() > 0
    } else if b.len() == 0 {
        false
    } else if a[0] != b[0] {
        lt(a[0], b[0])
    } else {
        lex_lt(a.drop_first(), b.drop_first(), lt)
    }
}

/// Order of characters by code point.
pub open spec fn char_lt(x: char, y: char) -> bool {
    (x as int) < (y as int)
}

/// `char_lt` as a relation.
pub open spec fn code_point_order() -> spec_fn(char, char) -> bool {
    |x: char, y: char| char_lt(x, y)
}

/// The order of `str`'s `Ord`: lexicographic by code point (UTF-8 keeps code point order).
pub open spec fn chars_lt(a: Seq<char>, b: Seq<char>) -> bool {
    lex_lt(a, b, code_point_order())
}

/// `chars_lt` as a relation.
pub open spec fn text_order() -> spec_fn(Seq<char>, Seq<char>) -> bool {
    |x: Seq<char>, y: Seq<char>| chars_lt(x, y)
}

/// The order of `Vec<String>`'s `Ord`: lexicographic, strings compared by `chars_lt`.
pub open spec fn words_lt(a: Seq<Seq<char>>, b: Seq<Seq<char>>) -> bool {
    lex_lt(a, b, text_order())
}

/// `words_lt` as a relation.
pub open spec fn words_order() -> spec_fn(Seq<Seq<char>>, Seq<Seq<char>>) -> bool {
    |x: Seq<Seq<char>>, y: Seq<Seq<char>>| words_lt(x, y)
}

/// A list of distinct words in increasing order: the canonical form of a set of words.
pub open spec fn is_word_set(s: Seq<Seq<char>>) -> bool {
    sorted_by(s, text_order())
}

proof fn lemma_lex_irreflexive<A>(a: Seq<A>, lt: spec_fn(A, A) -> bool)
    ensures
        !lex_lt(a, a, lt),
    decreases a.len(),
{
    if a.len() > 0 {
        lemma_lex_irreflexive(a.drop_first(), lt);
    }
}

proof fn lemma_lex_transitive<A>(a: Seq<A>, b: Seq<A>, c: Seq<A>, lt: spec_fn(A, A) -> bool)
    requires
        strict_total_ordering(lt),
        lex_lt(a, b, lt),
        lex_lt(b, c, lt),
    ensures
        lex_lt(a, c, lt),
    decreases a.len(),
{
    if a.len() > 0 && b.len() > 0 && c.len() > 0 {
        if a[0] == b[0] && b[0] == c[0] {
            lemma_lex_transitive(a.drop_first(), b.drop_first(), c.drop_first(), lt);
        } else if a[0] == b[0] {
        } else if b[0] == c[0] {
        } else {
            assert(lt(a[0], b[0]) && lt(b[0], c[0]));
            if a[0] == c[0] {
                assert(lt(a[0], a[0]));
            }
        }
    }
}

proof fn lemma_lex_connected<A>(a: Seq<A>, b: Seq<A>, lt: spec_fn(A, A) -> bool)
    requires
        strict_total_ordering(lt),
        a != b,
    ensures
        lex_lt(a, b, lt) || lex_lt(b, a, lt),
    decreases a.len(),
{
    if a.len() > 0 && b.len() > 0 {
        if a[0] == b[0] {
            if a.drop_first() == b.drop_first() {
                assert(a =~= seq![a[0]] + a.drop_first());
                assert(b =~= seq![b[0]] + b.drop_first());
            }
            lemma_lex_connected(a.drop_first(), b.drop_first(), lt);
        }
    } else if a.len() == 0 && b.len() == 0 {
        assert(a =~= b);
    }
}

/// The lexicographic extension of a strict total order is a strict total order.
pub proof fn lemma_lex_strict_total<A>(lt: spec_fn(A, A) -> bool)
    requires
        strict_total_ordering(lt),
    ensures
        strict_total_ordering(|a: Seq<A>, b: Seq<A>| lex_lt(a, b, lt)),
{
    let l = |a: Seq<A>, b: Seq<A>| lex_lt(a, b, lt);
    assert forall|a: Seq<A>| #[trigger] l(a, a) == false by {
        lemma_lex_irreflexive(a, lt);
    }
    assert forall|a: Seq<A>, b: Seq<A>| #[trigger] l(a, b) && #[trigger] l(b, a) implies a == b by {
        lemma_lex_transitive(a, b, a, lt);
        lemma_lex_irreflexive(a, lt);
    }
    assert forall|a: Seq<A>, b: Seq<A>, c: Seq<A>| #[trigger] l(a, b) && #[trigger] l(b, c) implies l(
        a,
        c,
    ) by {
        lemma_lex_transitive(a, b, c, lt);
    }
    assert forall|a: Seq<A>, b: Seq<A>| a != b implies #[trigger] l(a, b) || #[trigger] l(b, a) by {
        lemma_lex_connected(a, b, lt);
    }
}

/// Sequences that agree on their first `m` elements compare as their remainders do.
pub proof fn lemma_lex_common_prefix<A>(a: Seq<A>, b: Seq<A>, m: int, lt: spec_fn(A, A) -> bool)
    requires
        0 <= m <= a.len(),
        m <= b.len(),
        a.take(m) == b.take(m),
    ensures
        lex_lt(a, b, lt) == lex_lt(a.skip(m), b.skip(m), lt),
    decreases m,
{
    if m > 0 {
        assert(a[0] == a.take(m)[0]);
        assert(b[0] == b.take(m)[0]);
        assert(a.drop_first().take(m - 1) =~= a.take(m).drop_first());
        assert(b.drop_first().take(m - 1) =~= b.take(m).drop_first());
        lemma_lex_common_prefix(a.drop_first(), b.drop_first(), m - 1, lt);
        assert(a.drop_first().skip(m - 1) =~= a.skip(m));
        assert(b.drop_first().skip(m - 1) =~= b.skip(m));
    } else {
        assert(a.skip(0) =~= a);
        assert(b.skip(0) =~= b);
    }
}

/// Code point order on characters is a strict total order.
pub proof fn lemma_char_strict_total()
    ensures
        strict_total_ordering(code_point_order()),
{
    let l = code_point_order();
    assert forall|x: char, y: char| x != y implies #[trigger] l(x, y) || #[trigger] l(y, x) by {
        assert((x as int) != (y as int));
    }
}

/// `chars_lt` is a strict total order.
pub proof fn lemma_chars_strict_total()
    ensures
        strict_total_ordering(text_order()),
{
    lemma_char_strict_total();
    lemma_lex_strict_total(code_point_order());
    let l1 = text_order();
    let l2 = |a: Seq<char>, b: Seq<char>| lex_lt(a, b, code_point_order());
    assert(l1 =~= l2);
}

/// `words_lt` is a strict total order.
pub proof fn lemma_words_strict_total()
    ensures
        strict_total_ordering(words_order()),
{
    lemma_chars_strict_total();
    lemma_lex_strict_total(text_order());
    let l1 = words_order();
    let l2 = |a: Seq<Seq<char>>, b: Seq<Seq<char>>| lex_lt(a, b, text_order());
    assert(l1 =~= l2);
}

/// Whether `a` comes strictly before `b` in the order of `str`.
pub fn str_less(a: &str, b: &str) -> (r: bool)
    ensures
        r == chars_lt(a@, b@),
{
    broadcast use vstd::string::group_string_axioms;

    let mut ia = a.chars();
    let mut ib = b.chars();
    let ghost mut i: int = 0;
    loop
        invariant
            0 <= i <= a@.len(),
            i <= b@.len(),
            ia.remaining() == a@.skip(i),
            ib.remaining() == b@.skip(i),
            chars_lt(a@, b@) == chars_lt(a@.skip(i), b@.skip(i)),
        decreases a@.len() - i,
    {
        let ca = ia.next();
        let cb = ib.next();
        match ca {
            None => {
                return cb.is_some();
            },
            Some(x) => match cb {
                None => {
                    return false;
                },
                Some(y) => {
                    if x != y {
                        return x < y;
                    }
                    proof {
                        assert(a@.skip(i).drop_first() =~= a@.skip(i + 1));
                        assert(b@.skip(i).drop_first() =~= b@.skip(i + 1));
                        i = i + 1;
                    }
                },
            },
        }
    }
}

/// Whether two strings hold the same characters.
pub fn str_equal(a: &str, b: &str) -> (r: bool)
    ensures
        r == (a@ == b@),
{
    proof {
        lemma_chars_strict_total();
        assert(!text_order()(a@, a@));
    }
    let r = !str_less(a, b) && !str_less(b, a);
    proof {
        if a@ != b@ {
            assert(text_order()(a@, b@) || text_order()(b@, a@));
        }
    }
    r
}

/// The characters of `s`, in order.
pub fn chars_of(s: &str) -> (r: Vec<char>)
    ensures
        r@ == s@,
{
    broadcast use vstd::string::group_string_axioms;

    let mut it = s.chars();
    let mut r: Vec<char> = Vec::new();
    loop
        invariant
            r@.len() <= s@.len(),
            r@ == s@.take(r@.len() as int),
            it.remaining() == s@.skip(r@.len() as int),
        decreases s@.len() - r@.len(),
    {
        let ghost i = r@.len() as int;
        match it.next() {
            None => {
                assert(r@.len() == s@.len()) by {
                    if i < s@.len() {
                        assert(s@.skip(i).len() > 0);
                    }
                }
                assert(s@.take(s@.len() as int) =~= s@);
                return r;
            },
            Some(c) => {
                assert(c == s@[i]) by {
                    assert(s@.skip(i)[0] == s@[i]);
                }
                r.push(c);
                proof {
                    assert(s@.skip(i).drop_first() =~= s@.skip(i + 1));
                    assert(r@ =~= s@.take(i + 1));
                }
            },
        }
    }
}

/// Whether `hay` holds `needle` from position `i`.
pub open spec fn text_at(hay: Seq<char>, needle: Seq<char>, i: int) -> bool {
    0 <= i && i + needle.len() <= hay.len() && hay.subrange(i, i + needle.len()) == needle
}

/// Whether `hay` holds `needle` somewhere.
pub open spec fn has_text(hay: Seq<char>, needle: Seq<char>) -> bool {
    exists|i: int| #[trigger] text_at(hay, needle, i)
}

/// Whether `hay` holds `needle` from position `i`.
fn matches_at(hay: &Vec<char>, needle: &Vec<char>, i: usize) -> (r: bool)
    requires
        i + needle@.len() <= hay@.len(),
    ensures
        r == text_at(hay@, needle@, i as int),
{
    let hl = hay.len();
    let mut k: usize = 0;
    while k < needle.len()
        invariant
            k <= needle@.len(),
            hl == hay@.len(),
            i + needle@.len() <= hay@.len(),
            forall|m: int| 0 <= m < k ==> hay@[i + m] == needle@[m],
        decreases needle.len() - k,
    {
        assert(i + k < hay@.len());
        if hay[i + k] != needle[k] {
            assert(hay@.subrange(i as int, i + needle@.len())[k as int] != needle@[k as int]);
            return false;
        }
        k = k + 1;
    }
    assert(hay@.subrange(i as int, i + needle@.len()) =~= needle@);
    true
}

/// Whether `hay` holds `needle` somewhere.
pub fn contains_text(hay: &str, needle: &str) -> (r: bool)
    ensures
        r == has_text(hay@, needle@),
{
    let h = chars_of(hay);
    let n = chars_of(needle);
    if n.len() == 0 {
        assert(hay@.subrange(0, 0) =~= needle@);
        assert(text_at(hay@, needle@, 0));
        return true;
    }
    if n.len() > h.len() {
        assert forall|i: int| !text_at(hay@, needle@, i) by {}
        return false;
    }
    let last = h.len() - n.len();
    let mut i: usize = 0;
    while i <= last
        invariant
            h@ == hay@,
            n@ == needle@,
            last == h@.len() - n@.len(),
            n@.len() >= 1,
            last < usize::MAX,
            i <= last + 1,
            forall|j: int| 0 <= j < i ==> !text_at(hay@, needle@, j),
        decreases last + 1 - i,
    {
        if matches_at(&h, &n, i) {
            return true;
        }
        i = i + 1;
    }
    assert forall|j: int| !text_at(hay@, needle@, j) by {
        if 0 <= j && j < i {
        }
    }
    false
}

/// The lowercase form of a text, as `str::to_lowercase` gives it (Unicode lowercase mapping).
pub uninterp spec fn lowercase(s: Seq<char>) -> Seq<char>;

/// Whether every character of a text is ASCII.
pub open spec fn is_ascii_text(s: Seq<char>) -> bool {
    forall|i: int| 0 <= i < s.len() ==> (#[trigger] s[i] as int) < 128
}

/// The ASCII lowercase form of a character: `A`-`Z` become `a`-`z`, others stay.
pub open spec fn ascii_lower_char(c: char) -> char {
    if 'A' <= c <= 'Z' {
        ((c as int) + 32) as char
    } else {
        c
    }
}

/// `str::to_lowercase`: the text with every character in its Unicode lowercase form, only
/// named here; on ASCII text that is `A`-`Z` turned into `a`-`z` and every other character
/// kept, as std documents for ASCII characters.
#[verifier::external_body]
pub(crate) fn to_lower(s: &str) -> (r: String)
    ensures
        r@ == lowercase(s@),
        is_ascii_text(s@) ==> r@ == s@.map_values(|c: char| ascii_lower_char(c)),
{
    s.to_lowercase()
}

} // verus!
