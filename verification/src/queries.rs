//! What the user interface asks of the recorded data: usage figures per application, the
//! event of the current window, and the data handed to the online model.
use vstd::prelude::*;
use crate::order::{lemma_insert_desc, stable_desc};
use crate::recommendation::{build_co_occurrence, co_occurrence_of, elapsed_secs, secs_between, CoOccurrence};
use crate::types::copy_event;
use crate::types::{WindowFocusEvent, WindowStats};
use crate::words::contains_word;

verus! {

/// Whether an event is of process `p`.
pub open spec fn of_process(p: Seq<char>) -> spec_fn(WindowFocusEvent) -> bool {
    |e: WindowFocusEvent| e.process_name@ == p
}

/// The events of process `p`, in order.
pub open spec fn named(events: Seq<WindowFocusEvent>, p: Seq<char>) -> Seq<WindowFocusEvent> {
    events.filter(of_process(p))
}

/// The seconds between consecutive events of `s`, summed (0 when fewer than 2).
pub open spec fn pair_secs(s: Seq<WindowFocusEvent>) -> nat
    decreases s.len(),
{
    if s.len() < 2 {
        0
    } else {
        pair_secs(s.drop_last()) + secs_between(s[s.len() - 2].timestamp, s[s.len() - 1].timestamp)
    }
}

/// The distinct process names of the first `n` events, in the order they first appear.
pub open spec fn process_order_upto(events: Seq<WindowFocusEvent>, n: int) -> Seq<Seq<char>>
    decreases n,
{
    if n <= 0 {
        seq![]
    } else {
        let before = process_order_upto(events, n - 1);
        let p = events[n - 1].process_name@;
        if before.contains(p) {
            before
        } else {
            before.push(p)
        }
    }
}

/// Usage figures as plain values: process, total dwell, effective dwell, switches, ignored.
pub type StatsView = (Seq<char>, u64, u64, u32, bool);

/// The plain values of usage figures.
pub open spec fn stats_view(v: Seq<WindowStats>) -> Seq<StatsView> {
    v.map_values(
        |s: WindowStats|
            (s.process_name@, s.total_dwell_secs, s.effective_dwell_secs, s.switch_count, s.is_ignored),
    )
}

/// The usage figures of process `p`: its dwell time is the time between its consecutive
/// events (also taken as its effective time), its switch count its number of events.
pub open spec fn stats_of(events: Seq<WindowFocusEvent>, ignore: Seq<Seq<char>>, p: Seq<char>) -> StatsView {
    let mine = named(events, p);
    (p, pair_secs(mine) as u64, pair_secs(mine) as u64, mine.len() as u32, ignore.contains(p))
}

/// Orders usage figures by total dwell time.
pub open spec fn dwell_key() -> spec_fn(StatsView) -> int {
    |x: StatsView| x.1 as int
}

/// The seconds between two moments fit in 55 bits.
proof fn lemma_secs_small(a: i64, b: i64)
    ensures
        secs_between(a, b) < 0x80_0000_0000_0000,
{
}

/// The number of events of process `p` and the seconds between its consecutive events,
/// summed without overflow.
fn process_total(events: &Vec<WindowFocusEvent>, p: &String) -> (r: (u32, u128))
    requires
        events@.len() <= u32::MAX,
    ensures
        r.0 == named(events@, p@).len(),
        r.1 == pair_secs(named(events@, p@)),
{
    let ghost pred = of_process(p@);
    let mut count: u32 = 0;
    let mut total: u128 = 0;
    let mut prev: i64 = 0;
    let mut i: usize = 0;
    while i < events.len()
        invariant
            i <= events@.len(),
            events@.len() <= u32::MAX,
            pred == of_process(p@),
            count == events@.take(i as int).filter(pred).len(),
            total == pair_secs(events@.take(i as int).filter(pred)),
            total <= i * 0x80_0000_0000_0000,
            count > 0 ==> prev == events@.take(i as int).filter(pred).last().timestamp,
        decreases events.len() - i,
    {
        let ghost before = events@.take(i as int).filter(pred);
        proof {
            assert(events@.take(i + 1).drop_last() =~= events@.take(i as int));
            events@.take(i as int).lemma_filter_push(events@[i as int], pred);
            assert(events@.take(i as int).push(events@[i as int]) =~= events@.take(i + 1));
            events@.take(i as int).lemma_filter_len(pred);
        }
        if events[i].process_name == *p {
            let t = events[i].timestamp;
            if count > 0 {
                proof {
                    lemma_secs_small(prev, t);
                    let after = before.push(events@[i as int]);
                    assert(after.drop_last() =~= before);
                    assert(after[after.len() - 2] == before.last());
                }
                total = total + elapsed_secs(prev, t) as u128;
            } else {
                proof {
                    assert(before.push(events@[i as int]).len() == 1);
                }
            }
            count = count + 1;
            prev = t;
        }
        i = i + 1;
    }
    assert(events@.take(events@.len() as int) =~= events@);
    (count, total)
}

/// The usage figures of one process, when its dwell time fits in 64 bits.
fn process_stats(events: &Vec<WindowFocusEvent>, ignore: &Vec<String>, p: &String) -> (r: WindowStats)
    requires
        events@.len() <= u32::MAX,
        pair_secs(named(events@, p@)) <= u64::MAX,
    ensures
        stats_view(seq![r])[0] == stats_of(events@, ignore.deep_view(), p@),
{
    let (count, total) = process_total(events, p);
    let ignored = contains_word(ignore, p);
    WindowStats {
        process_name: p.clone(),
        total_dwell_secs: total as u64,
        effective_dwell_secs: total as u64,
        switch_count: count,
        is_ignored: ignored,
    }
}

proof fn lemma_unnamed_process(events: Seq<WindowFocusEvent>, p: Seq<char>)
    requires
        forall|i: int| 0 <= i < events.len() ==> #[trigger] events[i].process_name@ != p,
    ensures
        pair_secs(named(events, p)) == 0,
{
    let f = named(events, p);
    if f.len() > 0 {
        events.filter_lemma(of_process(p));
        assert(f.contains(f[0]));
        events.lemma_filter_contains_rev(of_process(p), f[0]);
        let i = choose|i: int| 0 <= i < events.len() && events[i] == f[0];
        assert(events[i].process_name@ == p);
    }
}

/// Whether each process's dwell time among `events` fits in 64 bits, as [`window_stats`]
/// needs.
pub fn window_stats_fit(events: &Vec<WindowFocusEvent>) -> (r: bool)
    requires
        events@.len() <= u32::MAX,
    ensures
        r == forall|p: Seq<char>| #[trigger] pair_secs(named(events@, p)) <= u64::MAX,
{
    let mut i: usize = 0;
    while i < events.len()
        invariant
            i <= events@.len(),
            events@.len() <= u32::MAX,
            forall|k: int| 0 <= k < i ==> #[trigger] pair_secs(named(events@, events@[k].process_name@)) <= u64::MAX,
        decreases events.len() - i,
    {
        let (_count, total) = process_total(events, &events[i].process_name);
        if total > u64::MAX as u128 {
            assert(pair_secs(named(events@, events@[i as int].process_name@)) > u64::MAX);
            return false;
        }
        i = i + 1;
    }
    assert forall|p: Seq<char>| #[trigger] pair_secs(named(events@, p)) <= u64::MAX by {
        if exists|k: int| 0 <= k < events@.len() && events@[k].process_name@ == p {
            let k = choose|k: int| 0 <= k < events@.len() && events@[k].process_name@ == p;
            assert(pair_secs(named(events@, events@[k].process_name@)) <= u64::MAX);
        } else {
            lemma_unnamed_process(events@, p);
        }
    }
    true
}

/// Usage figures for choosing what to ignore: one entry per process (in the order processes
/// first appear), sorted by total dwell time, highest first (equal times keep that order).
pub fn window_stats(events: &Vec<WindowFocusEvent>, ignore: &Vec<String>) -> (r: Vec<WindowStats>)
    requires
        events@.len() <= u32::MAX,
        forall|p: Seq<char>| #[trigger] pair_secs(named(events@, p)) <= u64::MAX,
    ensures
        stable_desc(
            stats_view(r@),
            process_order_upto(events@, events@.len() as int).map_values(
                |p: Seq<char>| stats_of(events@, ignore.deep_view(), p),
            ),
            dwell_key(),
        ),
{
    // the process names, in the order they first appear
    let mut names: Vec<String> = Vec::new();
    let mut i: usize = 0;
    while i < events.len()
        invariant
            i <= events@.len(),
            names.deep_view() == process_order_upto(events@, i as int),
        decreases events.len() - i,
    {
        if !contains_word(&names, &events[i].process_name) {
            let ghost before = names.deep_view();
            names.push(events[i].process_name.clone());
            assert(names.deep_view() =~= before.push(events@[i as int].process_name@));
        }
        i = i + 1;
    }
    let ghost order = names.deep_view();
    let ghost all = order.map_values(|p: Seq<char>| stats_of(events@, ignore.deep_view(), p));
    let ghost key = dwell_key();
    let mut r: Vec<WindowStats> = Vec::new();
    proof {
        assert(all.take(0) =~= Seq::<StatsView>::empty());
        assert(stats_view(r@) =~= Seq::<StatsView>::empty());
    }
    let mut j: usize = 0;
    while j < names.len()
        invariant
            j <= names@.len(),
            order == names.deep_view(),
            all == order.map_values(|p: Seq<char>| stats_of(events@, ignore.deep_view(), p)),
            key == dwell_key(),
            events@.len() <= u32::MAX,
            forall|p: Seq<char>| #[trigger] pair_secs(named(events@, p)) <= u64::MAX,
            stable_desc(stats_view(r@), all.take(j as int), key),
        decreases names.len() - j,
    {
        let s = process_stats(events, ignore, &names[j]);
        let ghost x = stats_view(seq![s])[0];
        assert(x == all[j as int]);
        let mut p: usize = 0;
        while p < r.len() && r[p].total_dwell_secs >= s.total_dwell_secs
            invariant
                p <= r@.len(),
                forall|a: int| 0 <= a < p ==> key(#[trigger] stats_view(r@)[a]) >= s.total_dwell_secs,
                key == dwell_key(),
            decreases r.len() - p,
        {
            p = p + 1;
        }
        let ghost old_r = stats_view(r@);
        proof {
            lemma_insert_desc(old_r, all.take(j as int), x, p as int, key);
            assert(all.take(j + 1) =~= all.take(j as int).push(x));
        }
        r.insert(p, s);
        assert(stats_view(r@) =~= old_r.insert(p as int, x));
        j = j + 1;
    }
    assert(all.take(names@.len() as int) =~= all);
    r
}

/// The index of the last event on window `hwnd` among the first `n` (-1 for none).
pub open spec fn last_on_window_upto(events: Seq<WindowFocusEvent>, hwnd: i64, n: int) -> int
    decreases n,
{
    if n <= 0 {
        -1
    } else if events[n - 1].hwnd.0 == hwnd {
        n - 1
    } else {
        last_on_window_upto(events, hwnd, n - 1)
    }
}

/// The event that stands for the current window: the latest event on window `hwnd`, else
/// the latest event of all; `None` when there are no events.
pub fn select_current_event(events: &Vec<WindowFocusEvent>, hwnd: i64) -> (r: Option<usize>)
    ensures
        ({
            let k = last_on_window_upto(events@, hwnd, events@.len() as int);
            &&& k >= 0 ==> r == Some(k as usize)
            &&& k < 0 && events@.len() > 0 ==> r == Some((events@.len() - 1) as usize)
            &&& k < 0 && events@.len() == 0 ==> r is None
        }),
{
    let mut k: usize = events.len();
    while k > 0
        invariant
            k <= events@.len(),
            last_on_window_upto(events@, hwnd, events@.len() as int) == last_on_window_upto(
                events@,
                hwnd,
                k as int,
            ),
        decreases k,
    {
        if events[k - 1].hwnd.0 == hwnd {
            return Some(k - 1);
        }
        k = k - 1;
    }
    if events.len() > 0 {
        Some(events.len() - 1)
    } else {
        None
    }
}

/// When some event is on window `hwnd`, the event chosen as current is on that window.
pub proof fn law_current_event_on_window(events: Seq<WindowFocusEvent>, hwnd: i64, n: int)
    requires
        0 <= n <= events.len(),
        exists|k: int| 0 <= k < n && events[k].hwnd.0 == hwnd,
    ensures
        0 <= last_on_window_upto(events, hwnd, n) < n,
        events[last_on_window_upto(events, hwnd, n)].hwnd.0 == hwnd,
    decreases n,
{
    if events[n - 1].hwnd.0 != hwnd {
        let k = choose|k: int| 0 <= k < n && events[k].hwnd.0 == hwnd;
        assert(k < n - 1);
        law_current_event_on_window(events, hwnd, n - 1);
    }
}

/// The time spent on one window of one process, in seconds.
#[derive(Debug, Clone)]
pub struct DwellTotal {
    pub hwnd: i64,
    pub process_name: String,
    pub secs: u64,
}

/// How often one process was used briefly.
#[derive(Debug, Clone)]
pub struct SwitchCount {
    pub process_name: String,
    pub count: u32,
}

/// What the online model is told of the recent week.
#[derive(Debug, Clone)]
pub struct ModelInputs {
    /// Time per window and process, one entry per pair, in the order first seen.
    pub dwell: Vec<DwellTotal>,
    /// Co-occurrence counts over the recent events.
    pub co_occurrence: Vec<CoOccurrence>,
    /// Per process, how many of its windows were used for less than the short-session limit.
    pub switches: Vec<SwitchCount>,
}

/// A dwell total as plain values.
pub type TotalView = (i64, Seq<char>, nat);

/// The plain values of dwell totals.
pub open spec fn totals_view(v: Seq<DwellTotal>) -> Seq<TotalView> {
    v.map_values(|d: DwellTotal| (d.hwnd, d.process_name@, d.secs as nat))
}

/// Whether some total is of window `h` and process `p`.
pub open spec fn has_total(t: Seq<TotalView>, h: i64, p: Seq<char>) -> bool {
    exists|k: int| 0 <= k < t.len() && #[trigger] t[k].0 == h && t[k].1 == p
}

/// The time each window and process got from the pairs of consecutive events `(k, k + 1)`,
/// `k < n`: each pair adds the seconds between them to the first event's window and process.
pub open spec fn dwell_totals_upto(s: Seq<WindowFocusEvent>, n: int) -> Seq<TotalView>
    decreases n,
{
    if n <= 0 {
        seq![]
    } else {
        let before = dwell_totals_upto(s, n - 1);
        let e = s[n - 1];
        let secs = secs_between(e.timestamp, s[n].timestamp);
        if has_total(before, e.hwnd.0, e.process_name@) {
            let k = choose|k: int| 0 <= k < before.len() && #[trigger] before[k].0 == e.hwnd.0 && before[k].1 == e.process_name@;
            before.update(k, (before[k].0, before[k].1, before[k].2 + secs))
        } else {
            before.push((e.hwnd.0, e.process_name@, secs))
        }
    }
}

/// The dwell totals of a sequence of events.
pub open spec fn dwell_totals(s: Seq<WindowFocusEvent>) -> Seq<TotalView> {
    if s.len() < 2 {
        seq![]
    } else {
        dwell_totals_upto(s, s.len() - 1)
    }
}

/// Per process, how many of the totals `0..n` are under `limit` seconds; processes in the
/// order first seen.
pub open spec fn switch_counts_upto(t: Seq<TotalView>, limit: u64, n: int) -> Seq<(Seq<char>, nat)>
    decreases n,
{
    if n <= 0 {
        seq![]
    } else {
        let before = switch_counts_upto(t, limit, n - 1);
        let x = t[n - 1];
        if x.2 >= limit {
            before
        } else if exists|k: int| 0 <= k < before.len() && #[trigger] before[k].0 == x.1 {
            let k = choose|k: int| 0 <= k < before.len() && #[trigger] before[k].0 == x.1;
            before.update(k, (before[k].0, before[k].1 + 1))
        } else {
            before.push((x.1, 1nat))
        }
    }
}

/// The plain values of switch counts.
pub open spec fn switches_view(v: Seq<SwitchCount>) -> Seq<(Seq<char>, nat)> {
    v.map_values(|c: SwitchCount| (c.process_name@, c.count as nat))
}

/// The events after `cutoff`, in order.
pub open spec fn recent_events(events: Seq<WindowFocusEvent>, cutoff: i64) -> Seq<WindowFocusEvent> {
    events.filter(|e: WindowFocusEvent| e.timestamp > cutoff)
}

proof fn lemma_totals_distinct(s: Seq<WindowFocusEvent>, n: int)
    requires
        0 <= n < s.len(),
    ensures
        forall|a: int, b: int|
            0 <= a < b < dwell_totals_upto(s, n).len() ==> !(dwell_totals_upto(s, n)[a].0
                == dwell_totals_upto(s, n)[b].0 && dwell_totals_upto(s, n)[a].1 == dwell_totals_upto(s, n)[b].1),
        dwell_totals_upto(s, n).len() <= n,
    decreases n,
{
    if n > 0 {
        lemma_totals_distinct(s, n - 1);
        let before = dwell_totals_upto(s, n - 1);
        let e = s[n - 1];
        if !has_total(before, e.hwnd.0, e.process_name@) {
            let after = before.push((e.hwnd.0, e.process_name@, secs_between(e.timestamp, s[n].timestamp)));
            assert forall|a: int, b: int| 0 <= a < b < after.len() implies !(after[a].0 == after[b].0 && after[a].1 == after[b].1) by {
                if b == before.len() {
                    assert(after[a] == before[a]);
                } else {
                    assert(after[a] == before[a] && after[b] == before[b]);
                }
            }
        }
    }
}

proof fn lemma_switches_distinct(t: Seq<TotalView>, limit: u64, n: int)
    requires
        0 <= n <= t.len(),
    ensures
        forall|a: int, b: int|
            0 <= a < b < switch_counts_upto(t, limit, n).len() ==> switch_counts_upto(t, limit, n)[a].0
                != switch_counts_upto(t, limit, n)[b].0,
        forall|a: int| 0 <= a < switch_counts_upto(t, limit, n).len() ==> #[trigger] switch_counts_upto(t, limit, n)[a].1 <= n,
    decreases n,
{
    if n > 0 {
        lemma_switches_distinct(t, limit, n - 1);
        let before = switch_counts_upto(t, limit, n - 1);
        let x = t[n - 1];
        if x.2 < limit && !(exists|k: int| 0 <= k < before.len() && #[trigger] before[k].0 == x.1) {
            let after = before.push((x.1, 1nat));
            assert forall|a: int, b: int| 0 <= a < b < after.len() implies after[a].0 != after[b].0 by {
                if b == before.len() {
                    assert(after[a] == before[a]);
                } else {
                    assert(after[a] == before[a] && after[b] == before[b]);
                }
            }
            assert forall|a: int| 0 <= a < after.len() implies #[trigger] after[a].1 <= n by {
                if a < before.len() {
                    assert(after[a] == before[a]);
                }
            }
        }
    }
}

/// The plain values of running totals.
pub open spec fn running_view(v: Seq<(i64, String, u128)>) -> Seq<TotalView> {
    v.map_values(|x: (i64, String, u128)| (x.0, x.1@, x.2 as nat))
}

/// The events after `cutoff_ms`, and the time per window and process among them, summed
/// without overflow.
fn recent_totals(events: &Vec<WindowFocusEvent>, cutoff_ms: i64) -> (r: (Vec<WindowFocusEvent>, Vec<(i64, String, u128)>))
    requires
        events@.len() <= u32::MAX,
    ensures
        r.0@ == recent_events(events@, cutoff_ms),
        running_view(r.1@) == dwell_totals(r.0@),
{
    let ghost pred = |e: WindowFocusEvent| e.timestamp > cutoff_ms;
    let mut recent: Vec<WindowFocusEvent> = Vec::new();
    let mut i: usize = 0;
    while i < events.len()
        invariant
            i <= events@.len(),
            pred == (|e: WindowFocusEvent| e.timestamp > cutoff_ms),
            recent@ == events@.take(i as int).filter(pred),
        decreases events.len() - i,
    {
        proof {
            assert(events@.take(i + 1).drop_last() =~= events@.take(i as int));
            events@.take(i as int).lemma_filter_push(events@[i as int], pred);
            assert(events@.take(i as int).push(events@[i as int]) =~= events@.take(i + 1));
        }
        if events[i].timestamp > cutoff_ms {
            recent.push(copy_event(&events[i]));
        }
        i = i + 1;
    }
    assert(events@.take(events@.len() as int) =~= events@);
    let ghost s = recent@;
    assert(s == recent_events(events@, cutoff_ms));
    proof {
        events@.lemma_filter_len(pred);
    }
    let mut totals: Vec<(i64, String, u128)> = Vec::new();
    if recent.len() < 2 {
        assert(running_view(totals@) =~= seq![]);
        return (recent, totals);
    }
    let mut k: usize = 0;
    while k + 1 < recent.len()
        invariant
            s == recent@,
            2 <= s.len() <= u32::MAX,
            k + 1 <= s.len(),
            running_view(totals@) == dwell_totals_upto(s, k as int),
            forall|q: int| 0 <= q < totals@.len() ==> #[trigger] totals@[q].2 <= k * 0x80_0000_0000_0000,
        decreases s.len() - k,
    {
        let ghost tv = running_view(totals@);
        proof {
            lemma_totals_distinct(s, k as int);
            lemma_secs_small(s[k as int].timestamp, s[k + 1].timestamp);
        }
        let e = &recent[k];
        let secs = elapsed_secs(e.timestamp, recent[k + 1].timestamp);
        let mut q: usize = 0;
        while q < totals.len() && !(totals[q].0 == e.hwnd.0 && totals[q].1 == e.process_name)
            invariant
                q <= totals@.len(),
                forall|m: int| 0 <= m < q ==> !(totals@[m].0 == e.hwnd.0 && totals@[m].1@ == e.process_name@),
            decreases totals.len() - q,
        {
            q = q + 1;
        }
        if q < totals.len() {
            proof {
                assert(tv[q as int].0 == e.hwnd.0 && tv[q as int].1 == e.process_name@);
                assert(has_total(tv, e.hwnd.0, e.process_name@));
                let c = choose|c: int| 0 <= c < tv.len() && #[trigger] tv[c].0 == e.hwnd.0 && tv[c].1 == e.process_name@;
                if c != q {
                    if c < q {
                        assert(!(tv[c].0 == tv[q as int].0 && tv[c].1 == tv[q as int].1));
                    } else {
                        assert(!(tv[q as int].0 == tv[c].0 && tv[q as int].1 == tv[c].1));
                    }
                }
            }
            let old_total = totals[q].2;
            let entry = (totals[q].0, totals[q].1.clone(), old_total + secs as u128);
            totals.set(q, entry);
            proof {
                assert(running_view(totals@) =~= tv.update(
                    q as int,
                    (tv[q as int].0, tv[q as int].1, tv[q as int].2 + secs as nat),
                ));
            }
        } else {
            proof {
                assert(!has_total(tv, e.hwnd.0, e.process_name@)) by {
                    if has_total(tv, e.hwnd.0, e.process_name@) {
                        let c = choose|c: int| 0 <= c < tv.len() && #[trigger] tv[c].0 == e.hwnd.0 && tv[c].1 == e.process_name@;
                        assert(!(totals@[c].0 == e.hwnd.0 && totals@[c].1@ == e.process_name@));
                    }
                }
            }
            totals.push((e.hwnd.0, e.process_name.clone(), secs as u128));
            proof {
                assert(running_view(totals@) =~= tv.push(
                    (e.hwnd.0, e.process_name@, secs as nat),
                ));
            }
        }
        k = k + 1;
    }
    assert(dwell_totals(s) == dwell_totals_upto(s, s.len() - 1));
    (recent, totals)
}

/// Whether each window's time among the events after `cutoff_ms` fits in 64 bits, as
/// [`model_inputs`] needs.
pub fn recent_dwell_fits(events: &Vec<WindowFocusEvent>, cutoff_ms: i64) -> (r: bool)
    requires
        events@.len() <= u32::MAX,
    ensures
        r == forall|k: int|
            0 <= k < dwell_totals(recent_events(events@, cutoff_ms)).len() ==> #[trigger] dwell_totals(
                recent_events(events@, cutoff_ms),
            )[k].2 <= u64::MAX,
{
    let (_recent, totals) = recent_totals(events, cutoff_ms);
    let ghost all = dwell_totals(recent_events(events@, cutoff_ms));
    let mut d: usize = 0;
    while d < totals.len()
        invariant
            d <= totals@.len(),
            all == dwell_totals(recent_events(events@, cutoff_ms)),
            running_view(totals@) == all,
            forall|q: int| 0 <= q < d ==> #[trigger] all[q].2 <= u64::MAX,
        decreases totals.len() - d,
    {
        assert(all[d as int].2 == totals@[d as int].2);
        if totals[d].2 > u64::MAX as u128 {
            return false;
        }
        d = d + 1;
    }
    true
}

/// What the online model is told: from the events after `cutoff_ms`, the time per window
/// and process (each event's gap to the next counts for its window), the co-occurrence
/// counts, and per process how many of those windows were used for less than
/// `recent_max_dwell_secs`. `None` when that gives no time at all (fewer than two recent
/// events).
pub fn model_inputs(events: &Vec<WindowFocusEvent>, cutoff_ms: i64, recent_max_dwell_secs: u64) -> (r: Option<ModelInputs>)
    requires
        events@.len() <= u32::MAX,
        forall|k: int|
            0 <= k < dwell_totals(recent_events(events@, cutoff_ms)).len() ==> #[trigger] dwell_totals(
                recent_events(events@, cutoff_ms),
            )[k].2 <= u64::MAX,
    ensures
        ({
            let s = recent_events(events@, cutoff_ms);
            &&& r is None <==> s.len() < 2
            &&& r matches Some(m) ==> {
                &&& totals_view(m.dwell@) == dwell_totals(s)
                &&& co_occurrence_of(m.co_occurrence@, s)
                &&& switches_view(m.switches@) == switch_counts_upto(
                    dwell_totals(s),
                    recent_max_dwell_secs,
                    dwell_totals(s).len() as int,
                )
            }
        }),
{
    let (recent, totals) = recent_totals(events, cutoff_ms);
    let ghost s = recent@;
    if recent.len() < 2 {
        return None;
    }
    let ghost all = dwell_totals(s);
    let mut dwell: Vec<DwellTotal> = Vec::new();
    let mut d: usize = 0;
    while d < totals.len()
        invariant
            d <= totals@.len(),
            running_view(totals@) == all,
            forall|q: int| 0 <= q < all.len() ==> #[trigger] all[q].2 <= u64::MAX,
            totals_view(dwell@) == all.take(d as int),
        decreases totals.len() - d,
    {
        assert(all[d as int] == (totals@[d as int].0, totals@[d as int].1@, totals@[d as int].2 as nat));
        assert(all[d as int].2 <= u64::MAX);
        assert(totals@[d as int].2 <= u64::MAX);
        let ghost before = totals_view(dwell@);
        let item = DwellTotal { hwnd: totals[d].0, process_name: totals[d].1.clone(), secs: totals[d].2 as u64 };
        assert((item.hwnd, item.process_name@, item.secs as nat) == all[d as int]);
        dwell.push(item);
        assert(totals_view(dwell@) =~= before.push(all[d as int]));
        assert(all.take(d + 1) =~= all.take(d as int).push(all[d as int]));
        d = d + 1;
    }
    assert(all.take(all.len() as int) =~= all);
    let co = build_co_occurrence(&recent);
    // per process, the windows used briefly
    let mut switches: Vec<SwitchCount> = Vec::new();
    let mut w: usize = 0;
    proof {
        lemma_totals_distinct(s, s.len() - 1);
    }
    while w < dwell.len()
        invariant
            w <= dwell@.len(),
            totals_view(dwell@) == all,
            all.len() <= u32::MAX,
            switches_view(switches@) == switch_counts_upto(all, recent_max_dwell_secs, w as int),
        decreases dwell.len() - w,
    {
        let ghost sv = switches_view(switches@);
        proof {
            lemma_switches_distinct(all, recent_max_dwell_secs, w as int);
        }
        let x = &dwell[w];
        assert(all[w as int] == (x.hwnd, x.process_name@, x.secs as nat));
        if x.secs < recent_max_dwell_secs {
            let mut q: usize = 0;
            while q < switches.len() && switches[q].process_name != x.process_name
                invariant
                    q <= switches@.len(),
                    forall|m: int| 0 <= m < q ==> switches@[m].process_name@ != x.process_name@,
                decreases switches.len() - q,
            {
                q = q + 1;
            }
            if q < switches.len() {
                proof {
                    assert(sv[q as int].0 == x.process_name@);
                    let c = choose|c: int| 0 <= c < sv.len() && #[trigger] sv[c].0 == x.process_name@;
                    if c != q {
                        if c < q {
                            assert(sv[c].0 != sv[q as int].0);
                        } else {
                            assert(sv[q as int].0 != sv[c].0);
                        }
                    }
                    assert(sv[q as int].1 <= w);
                }
                let entry = SwitchCount { process_name: switches[q].process_name.clone(), count: switches[q].count + 1 };
                switches.set(q, entry);
                proof {
                    assert(switches_view(switches@) =~= sv.update(q as int, (sv[q as int].0, sv[q as int].1 + 1)));
                }
            } else {
                proof {
                    assert(!(exists|c: int| 0 <= c < sv.len() && #[trigger] sv[c].0 == x.process_name@)) by {
                        if exists|c: int| 0 <= c < sv.len() && #[trigger] sv[c].0 == x.process_name@ {
                            let c = choose|c: int| 0 <= c < sv.len() && #[trigger] sv[c].0 == x.process_name@;
                            assert(switches@[c].process_name@ != x.process_name@);
                        }
                    }
                }
                switches.push(SwitchCount { process_name: x.process_name.clone(), count: 1 });
                assert(switches_view(switches@) =~= sv.push((x.process_name@, 1nat)));
            }
        }
        w = w + 1;
    }
    Some(ModelInputs { dwell, co_occurrence: co, switches })
}

} // verus!
