//! What the online model is asked, and how the JSON is picked out of its answer. The
//! request itself is made outside the library.
use vstd::prelude::*;
use vstd::string::{StrSliceExecFns, StringExecFns};
use crate::digits::{dec_text, decimal_u64};
use crate::crypto::{hash_window_title, text_hash};
use crate::errors::OnlineModelError;
use crate::order::{lemma_insert_desc, stable_desc};
use crate::queries::{totals_view, switches_view, DwellTotal, SwitchCount, TotalView};
use crate::recommendation::CoOccurrence;
use crate::types::RecommendationSettings;
use crate::text::chars_of;

verus! {

/// The position of the first `c` in `s`, from `k` on (-1 for none).
pub open spec fn first_pos_from(s: Seq<char>, c: char, k: int) -> int
    decreases s.len() - k,
{
    if k < 0 || k >= s.len() {
        -1
    } else if s[k] == c {
        k
    } else {
        first_pos_from(s, c, k + 1)
    }
}

/// The position of the last `c` among the first `n` characters of `s` (-1 for none).
pub open spec fn last_pos_upto(s: Seq<char>, c: char, n: int) -> int
    decreases n,
{
    if n <= 0 {
        -1
    } else if s[n - 1] == c {
        n - 1
    } else {
        last_pos_upto(s, c, n - 1)
    }
}

/// Which bracket pair an answer's JSON is found between: the first `open` and the last
/// `close`, when both occur.
pub open spec fn span_of(s: Seq<char>, open: char, close: char) -> Option<(int, int)> {
    let a = first_pos_from(s, open, 0);
    let b = last_pos_upto(s, close, s.len() as int);
    if a >= 0 && b >= 0 {
        Some((a, b))
    } else {
        None
    }
}

/// The span that `extract_json` takes: between square brackets when both occur, else
/// between braces when both occur.
pub open spec fn json_span(s: Seq<char>) -> Option<(int, int)> {
    match span_of(s, '[', ']') {
        Some(p) => Some(p),
        None => span_of(s, '{', '}'),
    }
}

/// Taking the span does not fail: its closing bracket does not come before its opening one.
pub open spec fn json_span_in_order(s: Seq<char>) -> bool {
    match json_span(s) {
        Some((a, b)) => a <= b,
        None => true,
    }
}

proof fn lemma_first_pos(s: Seq<char>, c: char, k: int)
    requires
        0 <= k,
    ensures
        first_pos_from(s, c, k) == -1 || (k <= first_pos_from(s, c, k) < s.len() && s[first_pos_from(s, c, k)] == c),
    decreases s.len() - k,
{
    if k < s.len() {
        lemma_first_pos(s, c, k + 1);
    }
}

proof fn lemma_last_pos(s: Seq<char>, c: char, n: int)
    requires
        n <= s.len(),
    ensures
        last_pos_upto(s, c, n) == -1 || (0 <= last_pos_upto(s, c, n) < n && s[last_pos_upto(s, c, n)] == c),
    decreases n,
{
    if n > 0 {
        lemma_last_pos(s, c, n - 1);
    }
}

/// The position of the first `c`.
fn first_pos(s: &Vec<char>, c: char) -> (r: Option<usize>)
    ensures
        r matches Some(k) ==> k == first_pos_from(s@, c, 0),
        r is None ==> first_pos_from(s@, c, 0) == -1,
{
    proof {
        lemma_first_pos(s@, c, 0);
    }
    let mut k: usize = 0;
    while k < s.len()
        invariant
            k <= s@.len(),
            first_pos_from(s@, c, 0) == first_pos_from(s@, c, k as int),
        decreases s.len() - k,
    {
        if s[k] == c {
            return Some(k);
        }
        k = k + 1;
    }
    None
}

/// The position of the last `c`.
fn last_pos(s: &Vec<char>, c: char) -> (r: Option<usize>)
    ensures
        r matches Some(k) ==> k == last_pos_upto(s@, c, s@.len() as int),
        r is None ==> last_pos_upto(s@, c, s@.len() as int) == -1,
{
    let mut n: usize = s.len();
    while n > 0
        invariant
            n <= s@.len(),
            last_pos_upto(s@, c, s@.len() as int) == last_pos_upto(s@, c, n as int),
        decreases n,
    {
        if s[n - 1] == c {
            return Some(n - 1);
        }
        n = n - 1;
    }
    None
}

/// The bracket positions of the span `extract_json` takes, if any.
fn find_span(s: &Vec<char>) -> (r: Option<(usize, usize)>)
    ensures
        match json_span(s@) {
            Some((a, b)) => (r matches Some((x, y)) && x == a && y == b) && 0 <= a < s@.len() && 0 <= b < s@.len(),
            None => r is None,
        },
{
    proof {
        lemma_first_pos(s@, '[', 0);
        lemma_last_pos(s@, ']', s@.len() as int);
        lemma_first_pos(s@, '{', 0);
        lemma_last_pos(s@, '}', s@.len() as int);
    }
    match (first_pos(s, '['), last_pos(s, ']')) {
        (Some(a), Some(b)) => {
            return Some((a, b));
        },
        _ => {},
    }
    match (first_pos(s, '{'), last_pos(s, '}')) {
        (Some(a), Some(b)) => Some((a, b)),
        _ => None,
    }
}

/// Whether picking the JSON out of an answer succeeds without failing on a closing bracket
/// that comes before the opening one.
pub fn can_extract_json(content: &str) -> (r: bool)
    ensures
        r == json_span_in_order(content@),
{
    let c = chars_of(content);
    let sp = find_span(&c);
    proof {
        assert(c@ == content@);
        match json_span(content@) {
            Some((a, b)) => {
                assert(json_span_in_order(content@) == (a <= b));
            },
            None => {
                assert(sp is None);
            },
        }
    }
    match sp {
        Some((a, b)) => a <= b,
        None => true,
    }
}

/// The JSON in a model's answer: from the first "[" to the last "]", else from the first
/// "{" to the last "}"; `ParseError` when neither pair occurs.
pub fn extract_json(content: &str) -> (r: Result<String, OnlineModelError>)
    requires
        json_span_in_order(content@),
    ensures
        match json_span(content@) {
            Some((a, b)) => r matches Ok(j) && j@ == content@.subrange(a, b + 1),
            None => r matches Err(OnlineModelError::ParseError(m)) && m@ == "No JSON found in response"@,
        },
{
    let c = chars_of(content);
    let n = c.len();
    match find_span(&c) {
        Some((a, b)) => {
            assert(b < n);
            Ok(String::from_str(content.substring_char(a, b + 1)))
        },
        None => Err(OnlineModelError::ParseError(String::from_str("No JSON found in response"))),
    }
}

/// Dwell totals by time, highest first.
pub open spec fn secs_key() -> spec_fn(TotalView) -> int {
    |x: TotalView| x.2 as int
}

/// Co-occurrence entries as plain values.
pub type PairView = (Seq<char>, Seq<char>, u32);

/// The plain values of co-occurrence entries.
pub open spec fn pairs_view(v: Seq<CoOccurrence>) -> Seq<PairView> {
    v.map_values(|c: CoOccurrence| (c.first@, c.second@, c.count))
}

/// Co-occurrence entries by count, highest first.
pub open spec fn pair_key() -> spec_fn(PairView) -> int {
    |x: PairView| x.2 as int
}

/// Switch counts by count, highest first.
pub open spec fn switch_count_key() -> spec_fn((Seq<char>, nat)) -> int {
    |x: (Seq<char>, nat)| x.1 as int
}

/// The first `n` of `s`, or all of it when it is shorter.
pub open spec fn first_n<A>(s: Seq<A>, n: int) -> Seq<A> {
    if s.len() < n {
        s
    } else {
        s.take(n)
    }
}

/// The lines of dwell totals: "- {hash of the process}: {seconds}秒".
pub open spec fn dwell_lines(s: Seq<TotalView>) -> Seq<char>
    decreases s.len(),
{
    if s.len() == 0 {
        seq![]
    } else {
        dwell_lines(s.drop_last()) + "- "@ + text_hash(s.last().1) + ": "@ + dec_text(s.last().2) + "秒\n"@
    }
}

/// The lines of co-occurrence counts: "- {hash of first} 和 {hash of second}: {count}次".
pub open spec fn pair_lines(s: Seq<PairView>) -> Seq<char>
    decreases s.len(),
{
    if s.len() == 0 {
        seq![]
    } else {
        pair_lines(s.drop_last()) + "- "@ + text_hash(s.last().0) + " 和 "@ + text_hash(s.last().1) + ": "@ + dec_text(
            s.last().2 as nat,
        ) + "次\n"@
    }
}

/// The lines of switch counts: "- {hash of the process}: {count}次".
pub open spec fn switch_lines(s: Seq<(Seq<char>, nat)>) -> Seq<char>
    decreases s.len(),
{
    if s.len() == 0 {
        seq![]
    } else {
        switch_lines(s.drop_last()) + "- "@ + text_hash(s.last().0) + ": "@ + dec_text(s.last().1) + "次\n"@
    }
}

/// The opening of the prompt.
pub open spec fn prompt_head() -> Seq<char> {
    "你是一个窗口管理助手。根据以下用户窗口使用数据，分析用户的工作场景并推荐合适的窗口组合。\n\n## 窗口停留时间（秒）\n"@
}

/// The heading of the co-occurrence part.
pub open spec fn prompt_pairs_head() -> Seq<char> {
    "\n## 窗口共现次数\n"@
}

/// The heading of the switch part.
pub open spec fn prompt_switches_head() -> Seq<char> {
    "\n## 频繁切换的窗口\n"@
}

/// The closing of the prompt: the task and the JSON format asked for.
pub open spec fn prompt_tail() -> Seq<char> {
    "\n请分析这些数据，识别用户的工作场景（如：文字工作、图形设计、编程开发、数据分析等），并推荐2组最合适的窗口组合。每组包含2-5个窗口名称。\n\n请以JSON格式返回，格式如下：\n[\n  {\n    \"scenario_type\": \"场景类型\",\n    \"window_combinations\": [\"窗口1\", \"窗口2\"],\n    \"confidence_score\": 0.85\n  }\n]\n"@
}

/// The prompt: the 10 longest dwell totals, the 10 largest co-occurrence counts and the 5
/// largest switch counts, each part sorted (highest first, equal ones in the order given).
/// Processes appear only by their hashes.
pub open spec fn prompt_text(dwell: Seq<TotalView>, pairs: Seq<PairView>, switches: Seq<(Seq<char>, nat)>) -> Seq<char> {
    prompt_head() + dwell_lines(first_n(dwell, 10)) + prompt_pairs_head() + pair_lines(first_n(pairs, 10))
        + prompt_switches_head() + switch_lines(first_n(switches, 5)) + prompt_tail()
}

/// Dwell totals alike but for process names of equal hash.
pub open spec fn totals_alike(a: Seq<TotalView>, b: Seq<TotalView>) -> bool {
    a.len() == b.len() && forall|k: int|
        0 <= k < a.len() ==> #[trigger] a[k].2 == b[k].2 && text_hash(a[k].1) == text_hash(b[k].1)
}

/// Co-occurrence entries alike but for process names of equal hash.
pub open spec fn pairs_alike(a: Seq<PairView>, b: Seq<PairView>) -> bool {
    a.len() == b.len() && forall|k: int|
        0 <= k < a.len() ==> #[trigger] a[k].2 == b[k].2 && text_hash(a[k].0) == text_hash(b[k].0)
            && text_hash(a[k].1) == text_hash(b[k].1)
}

/// Switch counts alike but for process names of equal hash.
pub open spec fn switches_alike(a: Seq<(Seq<char>, nat)>, b: Seq<(Seq<char>, nat)>) -> bool {
    a.len() == b.len() && forall|k: int| 0 <= k < a.len() ==> #[trigger] a[k].1 == b[k].1 && text_hash(a[k].0) == text_hash(b[k].0)
}

proof fn lemma_dwell_lines_alike(a: Seq<TotalView>, b: Seq<TotalView>)
    requires
        totals_alike(a, b),
    ensures
        dwell_lines(a) == dwell_lines(b),
    decreases a.len(),
{
    if a.len() > 0 {
        assert(a[a.len() - 1].2 == b[b.len() - 1].2);
        lemma_dwell_lines_alike(a.drop_last(), b.drop_last());
    }
}

proof fn lemma_pair_lines_alike(a: Seq<PairView>, b: Seq<PairView>)
    requires
        pairs_alike(a, b),
    ensures
        pair_lines(a) == pair_lines(b),
    decreases a.len(),
{
    if a.len() > 0 {
        assert(a[a.len() - 1].2 == b[b.len() - 1].2);
        lemma_pair_lines_alike(a.drop_last(), b.drop_last());
    }
}

proof fn lemma_switch_lines_alike(a: Seq<(Seq<char>, nat)>, b: Seq<(Seq<char>, nat)>)
    requires
        switches_alike(a, b),
    ensures
        switch_lines(a) == switch_lines(b),
    decreases a.len(),
{
    if a.len() > 0 {
        assert(a[a.len() - 1].1 == b[b.len() - 1].1);
        lemma_switch_lines_alike(a.drop_last(), b.drop_last());
    }
}

/// The prompt sees process names only through their hashes: inputs that differ only in
/// names of equal hash give the same prompt.
pub proof fn law_prompt_sees_names_only_through_hashes(
    d1: Seq<TotalView>,
    d2: Seq<TotalView>,
    p1: Seq<PairView>,
    p2: Seq<PairView>,
    s1: Seq<(Seq<char>, nat)>,
    s2: Seq<(Seq<char>, nat)>,
)
    requires
        totals_alike(d1, d2),
        pairs_alike(p1, p2),
        switches_alike(s1, s2),
    ensures
        prompt_text(d1, p1, s1) == prompt_text(d2, p2, s2),
{
    let (fd1, fd2) = (first_n(d1, 10), first_n(d2, 10));
    let (fp1, fp2) = (first_n(p1, 10), first_n(p2, 10));
    let (fs1, fs2) = (first_n(s1, 5), first_n(s2, 5));
    assert(totals_alike(fd1, fd2)) by {
        assert forall|k: int| 0 <= k < fd1.len() implies #[trigger] fd1[k].2 == fd2[k].2 && text_hash(fd1[k].1)
            == text_hash(fd2[k].1) by {
            assert(fd1[k] == d1[k] && fd2[k] == d2[k]);
        }
    }
    assert(pairs_alike(fp1, fp2)) by {
        assert forall|k: int| 0 <= k < fp1.len() implies #[trigger] fp1[k].2 == fp2[k].2 && text_hash(fp1[k].0)
            == text_hash(fp2[k].0) && text_hash(fp1[k].1) == text_hash(fp2[k].1) by {
            assert(fp1[k] == p1[k] && fp2[k] == p2[k]);
        }
    }
    assert(switches_alike(fs1, fs2)) by {
        assert forall|k: int| 0 <= k < fs1.len() implies #[trigger] fs1[k].1 == fs2[k].1 && text_hash(fs1[k].0)
            == text_hash(fs2[k].0) by {
            assert(fs1[k] == s1[k] && fs2[k] == s2[k]);
        }
    }
    lemma_dwell_lines_alike(fd1, fd2);
    lemma_pair_lines_alike(fp1, fp2);
    lemma_switch_lines_alike(fs1, fs2);
}

/// Dwell totals by time, highest first; equal ones keep their order.
fn sort_totals(v: &Vec<DwellTotal>) -> (r: Vec<DwellTotal>)
    ensures
        stable_desc(totals_view(r@), totals_view(v@), secs_key()),
{
    let ghost all = totals_view(v@);
    let ghost key = secs_key();
    let mut r: Vec<DwellTotal> = Vec::new();
    proof {
        assert(all.take(0) =~= Seq::<TotalView>::empty());
        assert(totals_view(r@) =~= Seq::<TotalView>::empty());
    }
    let mut j: usize = 0;
    while j < v.len()
        invariant
            j <= v@.len(),
            all == totals_view(v@),
            key == secs_key(),
            stable_desc(totals_view(r@), all.take(j as int), key),
        decreases v.len() - j,
    {
        let x = &v[j];
        let ghost xv = all[j as int];
        let mut p: usize = 0;
        while p < r.len() && r[p].secs >= x.secs
            invariant
                p <= r@.len(),
                forall|a: int| 0 <= a < p ==> key(#[trigger] totals_view(r@)[a]) >= x.secs,
                key == secs_key(),
            decreases r.len() - p,
        {
            p = p + 1;
        }
        let ghost old_r = totals_view(r@);
        proof {
            lemma_insert_desc(old_r, all.take(j as int), xv, p as int, key);
            assert(all.take(j + 1) =~= all.take(j as int).push(xv));
        }
        r.insert(p, DwellTotal { hwnd: x.hwnd, process_name: x.process_name.clone(), secs: x.secs });
        assert(totals_view(r@) =~= old_r.insert(p as int, xv));
        j = j + 1;
    }
    assert(all.take(v@.len() as int) =~= all);
    r
}

/// Co-occurrence entries by count, highest first; equal ones keep their order.
fn sort_pairs(v: &Vec<CoOccurrence>) -> (r: Vec<CoOccurrence>)
    ensures
        stable_desc(pairs_view(r@), pairs_view(v@), pair_key()),
{
    let ghost all = pairs_view(v@);
    let ghost key = pair_key();
    let mut r: Vec<CoOccurrence> = Vec::new();
    proof {
        assert(all.take(0) =~= Seq::<PairView>::empty());
        assert(pairs_view(r@) =~= Seq::<PairView>::empty());
    }
    let mut j: usize = 0;
    while j < v.len()
        invariant
            j <= v@.len(),
            all == pairs_view(v@),
            key == pair_key(),
            stable_desc(pairs_view(r@), all.take(j as int), key),
        decreases v.len() - j,
    {
        let x = &v[j];
        let ghost xv = all[j as int];
        let mut p: usize = 0;
        while p < r.len() && r[p].count >= x.count
            invariant
                p <= r@.len(),
                forall|a: int| 0 <= a < p ==> key(#[trigger] pairs_view(r@)[a]) >= x.count,
                key == pair_key(),
            decreases r.len() - p,
        {
            p = p + 1;
        }
        let ghost old_r = pairs_view(r@);
        proof {
            lemma_insert_desc(old_r, all.take(j as int), xv, p as int, key);
            assert(all.take(j + 1) =~= all.take(j as int).push(xv));
        }
        r.insert(p, CoOccurrence { first: x.first.clone(), second: x.second.clone(), count: x.count });
        assert(pairs_view(r@) =~= old_r.insert(p as int, xv));
        j = j + 1;
    }
    assert(all.take(v@.len() as int) =~= all);
    r
}

/// Switch counts by count, highest first; equal ones keep their order.
fn sort_switches(v: &Vec<SwitchCount>) -> (r: Vec<SwitchCount>)
    ensures
        stable_desc(switches_view(r@), switches_view(v@), switch_count_key()),
{
    let ghost all = switches_view(v@);
    let ghost key = switch_count_key();
    let mut r: Vec<SwitchCount> = Vec::new();
    proof {
        assert(all.take(0) =~= Seq::<(Seq<char>, nat)>::empty());
        assert(switches_view(r@) =~= Seq::<(Seq<char>, nat)>::empty());
    }
    let mut j: usize = 0;
    while j < v.len()
        invariant
            j <= v@.len(),
            all == switches_view(v@),
            key == switch_count_key(),
            stable_desc(switches_view(r@), all.take(j as int), key),
        decreases v.len() - j,
    {
        let x = &v[j];
        let ghost xv = all[j as int];
        let mut p: usize = 0;
        while p < r.len() && r[p].count >= x.count
            invariant
                p <= r@.len(),
                forall|a: int| 0 <= a < p ==> key(#[trigger] switches_view(r@)[a]) >= x.count,
                key == switch_count_key(),
            decreases r.len() - p,
        {
            p = p + 1;
        }
        let ghost old_r = switches_view(r@);
        proof {
            lemma_insert_desc(old_r, all.take(j as int), xv, p as int, key);
            assert(all.take(j + 1) =~= all.take(j as int).push(xv));
        }
        r.insert(p, SwitchCount { process_name: x.process_name.clone(), count: x.count });
        assert(switches_view(r@) =~= old_r.insert(p as int, xv));
        j = j + 1;
    }
    assert(all.take(v@.len() as int) =~= all);
    r
}

/// Builds the prompt that asks the online model for window combinations; processes appear
/// in it only by the hashes of their names.
#[verifier::spinoff_prover]
#[verifier::rlimit(40)]
pub fn build_prompt(dwell: &Vec<DwellTotal>, pairs: &Vec<CoOccurrence>, switches: &Vec<SwitchCount>) -> (r: String)
    ensures
        exists|d: Seq<TotalView>, p: Seq<PairView>, s: Seq<(Seq<char>, nat)>|
            stable_desc(d, totals_view(dwell@), secs_key()) && stable_desc(p, pairs_view(pairs@), pair_key())
                && stable_desc(s, switches_view(switches@), switch_count_key()) && r@ == prompt_text(d, p, s),
{
    let sd = sort_totals(dwell);
    let sp = sort_pairs(pairs);
    let ss = sort_switches(switches);
    let ghost dv = totals_view(sd@);
    let ghost pv = pairs_view(sp@);
    let ghost sv = switches_view(ss@);
    let mut prompt = String::from_str("你是一个窗口管理助手。根据以下用户窗口使用数据，分析用户的工作场景并推荐合适的窗口组合。\n\n");
    prompt.append("## 窗口停留时间（秒）\n");
    proof {
        reveal_strlit("你是一个窗口管理助手。根据以下用户窗口使用数据，分析用户的工作场景并推荐合适的窗口组合。\n\n");
        reveal_strlit("## 窗口停留时间（秒）\n");
        reveal_strlit("你是一个窗口管理助手。根据以下用户窗口使用数据，分析用户的工作场景并推荐合适的窗口组合。\n\n## 窗口停留时间（秒）\n");
        assert(prompt@ =~= prompt_head());
    }
    let ghost base = prompt@;
    let nd: usize = if sd.len() < 10 { sd.len() } else { 10 };
    let mut i: usize = 0;
    while i < nd
        invariant
            nd <= sd@.len(),
            nd == first_n(dv, 10).len(),
            dv == totals_view(sd@),
            i <= nd,
            prompt@ == base + dwell_lines(dv.take(i as int)),
        decreases nd - i,
    {
        let x = &sd[i];
        prompt.append("- ");
        let h = hash_window_title(x.process_name.as_str());
        prompt.append(h.as_str());
        prompt.append(": ");
        let n = decimal_u64(x.secs);
        prompt.append(n.as_str());
        prompt.append("秒\n");
        proof {
            assert(dv.take(i + 1).drop_last() =~= dv.take(i as int));
            assert(prompt@ =~= base + dwell_lines(dv.take(i + 1)));
        }
        i = i + 1;
    }
    assert(dv.take(nd as int) =~= first_n(dv, 10));
    prompt.append("\n## 窗口共现次数\n");
    let ghost base2 = prompt@;
    let np: usize = if sp.len() < 10 { sp.len() } else { 10 };
    let mut k: usize = 0;
    while k < np
        invariant
            np <= sp@.len(),
            np == first_n(pv, 10).len(),
            pv == pairs_view(sp@),
            k <= np,
            prompt@ == base2 + pair_lines(pv.take(k as int)),
        decreases np - k,
    {
        let x = &sp[k];
        prompt.append("- ");
        let h1 = hash_window_title(x.first.as_str());
        prompt.append(h1.as_str());
        prompt.append(" 和 ");
        let h2 = hash_window_title(x.second.as_str());
        prompt.append(h2.as_str());
        prompt.append(": ");
        let n = decimal_u64(x.count as u64);
        prompt.append(n.as_str());
        prompt.append("次\n");
        proof {
            assert(pv.take(k + 1).drop_last() =~= pv.take(k as int));
            assert(prompt@ =~= base2 + pair_lines(pv.take(k + 1)));
        }
        k = k + 1;
    }
    assert(pv.take(np as int) =~= first_n(pv, 10));
    prompt.append("\n## 频繁切换的窗口\n");
    let ghost base3 = prompt@;
    let ns: usize = if ss.len() < 5 { ss.len() } else { 5 };
    let mut m: usize = 0;
    while m < ns
        invariant
            ns <= ss@.len(),
            ns == first_n(sv, 5).len(),
            sv == switches_view(ss@),
            m <= ns,
            prompt@ == base3 + switch_lines(sv.take(m as int)),
        decreases ns - m,
    {
        let x = &ss[m];
        prompt.append("- ");
        let h = hash_window_title(x.process_name.as_str());
        prompt.append(h.as_str());
        prompt.append(": ");
        let n = decimal_u64(x.count as u64);
        prompt.append(n.as_str());
        prompt.append("次\n");
        proof {
            assert(sv.take(m + 1).drop_last() =~= sv.take(m as int));
            assert(prompt@ =~= base3 + switch_lines(sv.take(m + 1)));
        }
        m = m + 1;
    }
    assert(sv.take(ns as int) =~= first_n(sv, 5));
    prompt.append("\n请分析这些数据，识别用户的工作场景（如：文字工作、图形设计、编程开发、数据分析等），并推荐2组最合适的窗口组合。每组包含2-5个窗口名称。\n\n");
    prompt.append("请以JSON格式返回，格式如下：\n");
    prompt.append("[\n");
    prompt.append("  {\n");
    prompt.append("    \"scenario_type\": \"场景类型\",\n");
    prompt.append("    \"window_combinations\": [\"窗口1\", \"窗口2\"],\n");
    prompt.append("    \"confidence_score\": 0.85\n");
    prompt.append("  }\n");
    prompt.append("]\n");
    proof {
        reveal_strlit("\n请分析这些数据，识别用户的工作场景（如：文字工作、图形设计、编程开发、数据分析等），并推荐2组最合适的窗口组合。每组包含2-5个窗口名称。\n\n");
        reveal_strlit("请以JSON格式返回，格式如下：\n");
        reveal_strlit("[\n");
        reveal_strlit("  {\n");
        reveal_strlit("    \"scenario_type\": \"场景类型\",\n");
        reveal_strlit("    \"window_combinations\": [\"窗口1\", \"窗口2\"],\n");
        reveal_strlit("    \"confidence_score\": 0.85\n");
        reveal_strlit("  }\n");
        reveal_strlit("]\n");
        reveal_strlit("\n请分析这些数据，识别用户的工作场景（如：文字工作、图形设计、编程开发、数据分析等），并推荐2组最合适的窗口组合。每组包含2-5个窗口名称。\n\n请以JSON格式返回，格式如下：\n[\n  {\n    \"scenario_type\": \"场景类型\",\n    \"window_combinations\": [\"窗口1\", \"窗口2\"],\n    \"confidence_score\": 0.85\n  }\n]\n");
        assert(prompt@ =~= prompt_text(dv, pv, sv));
    }
    prompt
}

/// The index of the first of `names`, from `k` on, whose hash is `text` (-1 for none).
pub open spec fn hashed_name_from(text: Seq<char>, names: Seq<Seq<char>>, k: int) -> int
    decreases names.len() - k,
{
    if k < 0 || k >= names.len() {
        -1
    } else if text_hash(names[k]) == text {
        k
    } else {
        hashed_name_from(text, names, k + 1)
    }
}

/// A window name in the model's answer, read back: the first of `names` whose hash it is, or
/// the text itself when it is no such hash.
pub open spec fn name_behind(text: Seq<char>, names: Seq<Seq<char>>) -> Seq<char> {
    let k = hashed_name_from(text, names, 0);
    if 0 <= k < names.len() {
        names[k]
    } else {
        text
    }
}

proof fn lemma_hashed_name_from(text: Seq<char>, names: Seq<Seq<char>>, k: int)
    requires
        0 <= k,
    ensures
        hashed_name_from(text, names, k) == -1 || k <= hashed_name_from(text, names, k) < names.len(),
    decreases names.len() - k,
{
    if k < names.len() {
        lemma_hashed_name_from(text, names, k + 1);
    }
}

/// The window names of the model's answer, each hash read back as the process name it
/// stands for among `names` (the names the prompt was built from).
pub fn restore_names(answer: &Vec<String>, names: &Vec<String>) -> (r: Vec<String>)
    ensures
        r@.len() == answer@.len(),
        forall|i: int| 0 <= i < r@.len() ==> #[trigger] r@[i]@ == name_behind(answer@[i]@, names.deep_view()),
{
    let ghost nv = names.deep_view();
    let mut hashes: Vec<String> = Vec::new();
    let mut j: usize = 0;
    while j < names.len()
        invariant
            j <= names@.len(),
            nv == names.deep_view(),
            hashes@.len() == j,
            forall|q: int| 0 <= q < j ==> #[trigger] hashes@[q]@ == text_hash(nv[q]),
        decreases names.len() - j,
    {
        hashes.push(hash_window_title(names[j].as_str()));
        j = j + 1;
    }
    let mut r: Vec<String> = Vec::new();
    let mut i: usize = 0;
    while i < answer.len()
        invariant
            i <= answer@.len(),
            nv == names.deep_view(),
            nv.len() == names@.len(),
            hashes@.len() == names@.len(),
            forall|q: int| 0 <= q < hashes@.len() ==> #[trigger] hashes@[q]@ == text_hash(nv[q]),
            r@.len() == i,
            forall|q: int| 0 <= q < i ==> #[trigger] r@[q]@ == name_behind(answer@[q]@, nv),
        decreases answer.len() - i,
    {
        let a = &answer[i];
        let mut k: usize = 0;
        proof {
            lemma_hashed_name_from(a@, nv, 0);
        }
        while k < hashes.len() && hashes[k] != *a
            invariant
                k <= hashes@.len(),
                hashes@.len() == nv.len(),
                forall|q: int| 0 <= q < hashes@.len() ==> #[trigger] hashes@[q]@ == text_hash(nv[q]),
                hashed_name_from(a@, nv, 0) == hashed_name_from(a@, nv, k as int),
            decreases hashes.len() - k,
        {
            assert(text_hash(nv[k as int]) != a@);
            k = k + 1;
        }
        if k < hashes.len() {
            assert(text_hash(nv[k as int]) == a@);
            r.push(names[k].clone());
        } else {
            r.push(a.clone());
        }
        i = i + 1;
    }
    r
}

/// Where and with what the online model is asked.
#[derive(Debug, Clone)]
pub struct OnlineModelConfig {
    pub api_key: String,
    pub api_endpoint: String,
    pub model_name: String,
}

/// The online model's settings, checked: each of the key, the endpoint and the model name
/// must be set ("API Key 未配置", "API 端点未配置", "模型名称未配置", checked in that order),
/// and none may be empty.
pub fn online_model_config(settings: &RecommendationSettings) -> (r: Result<OnlineModelConfig, String>)
    ensures
        match (settings.api_key, settings.api_endpoint, settings.model_name) {
            (None, _, _) => r matches Err(m) && m@ == "API Key 未配置"@,
            (Some(_), None, _) => r matches Err(m) && m@ == "API 端点未配置"@,
            (Some(_), Some(_), None) => r matches Err(m) && m@ == "模型名称未配置"@,
            (Some(k), Some(e), Some(n)) => if k@.len() == 0 || e@.len() == 0 || n@.len() == 0 {
                r matches Err(m) && m@ == "在线模型配置不完整，请在设置中填写 API Key、端点和模型名称"@
            } else {
                r matches Ok(c) && c.api_key@ == k@ && c.api_endpoint@ == e@ && c.model_name@ == n@
            },
        },
{
    proof {
        reveal_strlit("API Key 未配置");
        reveal_strlit("API 端点未配置");
        reveal_strlit("模型名称未配置");
        reveal_strlit("在线模型配置不完整，请在设置中填写 API Key、端点和模型名称");
    }
    let key = match &settings.api_key {
        Some(k) => k,
        None => return Err(String::from_str("API Key 未配置")),
    };
    let endpoint = match &settings.api_endpoint {
        Some(e) => e,
        None => return Err(String::from_str("API 端点未配置")),
    };
    let model = match &settings.model_name {
        Some(n) => n,
        None => return Err(String::from_str("模型名称未配置")),
    };
    if key.as_str().unicode_len() == 0 || endpoint.as_str().unicode_len() == 0 || model.as_str().unicode_len() == 0 {
        return Err(String::from_str("在线模型配置不完整，请在设置中填写 API Key、端点和模型名称"));
    }
    Ok(OnlineModelConfig { api_key: key.clone(), api_endpoint: endpoint.clone(), model_name: model.clone() })
}

} // verus!
