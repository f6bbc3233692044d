//! The recommendation engine's state: the focus events it works on, the dwell records and
//! co-occurrence counts drawn from them, and the user's settings.
use vstd::prelude::*;
use crate::recommendation::{
    build_co_occurrence, elapsed_secs, secs_between, calculate_dwell_times, co_occurrence_of, is_time_ordering_of,
    records_of, stays_upto, CoOccurrence, DwellRecord,
};
use crate::order::{key_is, lemma_filter_keeps_all, lemma_insert_desc, stable_desc};
use crate::words::contains_word;
use crate::recommendation::RecommendationError;
use crate::types::{
    CoOccurrenceRow, DwellRecordRow, copy_event, MouseActivityEvent, RecommendationGroupInfo, RecommendationResponse,
    RecommendationSettings, RecommendationWindowInfo, SingletonRecommendation,
    WindowFocusEvent, WindowHandle,
};
use std::collections::HashSet;
use chrono::DateTime;

verus! {

/// A window that exists now, with the file name of the process that owns it.
#[derive(Debug, Clone)]
pub struct LiveWindow {
    pub hwnd: i64,
    pub process_name: String,
}

/// The process name that the first entry for window `h` gives, from entry `k` on.
pub open spec fn live_name_from(live: Seq<LiveWindow>, h: i64, k: int) -> Option<Seq<char>>
    decreases live.len() - k,
{
    if k < 0 || k >= live.len() {
        None
    } else if live[k].hwnd == h {
        Some(live[k].process_name@)
    } else {
        live_name_from(live, h, k + 1)
    }
}

/// The process name that owns window `h` now, if the window exists.
pub open spec fn live_name(live: Seq<LiveWindow>, h: i64) -> Option<Seq<char>> {
    live_name_from(live, h, 0)
}

/// An event is still valid when its window exists and belongs to a process of the same name
/// (a handle the system gave to another process fails).
pub open spec fn still_valid(live: Seq<LiveWindow>, e: WindowFocusEvent) -> bool {
    live_name(live, e.hwnd.0) == Some(e.process_name@)
}

/// Whether some event of `s` is on window `h`.
pub open spec fn has_window(s: Seq<WindowFocusEvent>, h: WindowHandle) -> bool {
    exists|k: int| 0 <= k < s.len() && #[trigger] s[k].hwnd == h
}

/// The valid events among the first `n`, one per window: the window's latest event (the
/// first of equally late ones), windows in the order they first appear.
pub open spec fn latest_upto(events: Seq<WindowFocusEvent>, live: Seq<LiveWindow>, n: int) -> Seq<
    WindowFocusEvent,
>
    decreases n,
{
    if n <= 0 {
        seq![]
    } else {
        let before = latest_upto(events, live, n - 1);
        let e = events[n - 1];
        if !still_valid(live, e) {
            before
        } else if has_window(before, e.hwnd) {
            let k = choose|k: int| 0 <= k < before.len() && before[k].hwnd == e.hwnd;
            if e.timestamp > before[k].timestamp {
                before.update(k, e)
            } else {
                before
            }
        } else {
            before.push(e)
        }
    }
}

/// No two events are on the same window.
pub open spec fn one_per_window(s: Seq<WindowFocusEvent>) -> bool {
    forall|a: int, b: int| 0 <= a < b < s.len() ==> s[a].hwnd != s[b].hwnd
}

proof fn lemma_latest_upto(events: Seq<WindowFocusEvent>, live: Seq<LiveWindow>, n: int)
    requires
        0 <= n <= events.len(),
    ensures
        one_per_window(latest_upto(events, live, n)),
        latest_upto(events, live, n).len() <= n,
    decreases n,
{
    if n > 0 {
        lemma_latest_upto(events, live, n - 1);
        let before = latest_upto(events, live, n - 1);
        let e = events[n - 1];
        if still_valid(live, e) && !has_window(before, e.hwnd) {
            let after = before.push(e);
            assert forall|a: int, b: int| 0 <= a < b < after.len() implies after[a].hwnd
                != after[b].hwnd by {
                if b == before.len() {
                    assert(before[a].hwnd != e.hwnd);
                } else {
                    assert(after[a] == before[a] && after[b] == before[b]);
                }
            }
        }
    }
}

/// The index of the first live-window entry for `h`, if any.
fn live_entry(live: &Vec<LiveWindow>, h: i64) -> (r: Option<usize>)
    ensures
        r matches Some(k) ==> k < live@.len() && live@[k as int].hwnd == h && live_name(live@, h)
            == Some(live@[k as int].process_name@),
        r is None ==> live_name(live@, h) is None,
{
    let mut k: usize = 0;
    while k < live.len()
        invariant
            k <= live@.len(),
            live_name(live@, h) == live_name_from(live@, h, k as int),
        decreases live.len() - k,
    {
        if live[k].hwnd == h {
            return Some(k);
        }
        k = k + 1;
    }
    None
}

/// The index of the event on window `h`, if any.
fn window_event(v: &Vec<WindowFocusEvent>, h: WindowHandle) -> (r: Option<usize>)
    ensures
        r matches Some(k) ==> k < v@.len() && v@[k as int].hwnd == h,
        r is None ==> !has_window(v@, h),
{
    let mut k: usize = 0;
    while k < v.len()
        invariant
            k <= v@.len(),
            forall|m: int| 0 <= m < k ==> v@[m].hwnd != h,
        decreases v.len() - k,
    {
        if v[k].hwnd.0 == h.0 {
            return Some(k);
        }
        k = k + 1;
    }
    None
}

/// Keeps the valid events, one per window: its latest.
fn latest_valid_events(events: &Vec<WindowFocusEvent>, live: &Vec<LiveWindow>) -> (r: Vec<
    WindowFocusEvent,
>)
    ensures
        r@ == latest_upto(events@, live@, events@.len() as int),
        r@.len() <= events@.len(),
{
    let mut r: Vec<WindowFocusEvent> = Vec::new();
    let mut i: usize = 0;
    while i < events.len()
        invariant
            i <= events@.len(),
            r@ == latest_upto(events@, live@, i as int),
        decreases events.len() - i,
    {
        let e = &events[i];
        proof {
            lemma_latest_upto(events@, live@, i as int);
        }
        let valid = match live_entry(live, e.hwnd.0) {
            Some(k) => live[k].process_name == e.process_name,
            None => false,
        };
        if valid {
            match window_event(&r, e.hwnd) {
                Some(k) => {
                    proof {
                        let before = r@;
                        assert(has_window(before, e.hwnd));
                        let c = choose|c: int| 0 <= c < before.len() && before[c].hwnd == e.hwnd;
                        if c != k {
                            if c < k {
                                assert(before[c].hwnd != before[k as int].hwnd);
                            } else {
                                assert(before[k as int].hwnd != before[c].hwnd);
                            }
                        }
                    }
                    if e.timestamp > r[k].timestamp {
                        r.set(k, copy_event(e));
                    }
                },
                None => {
                    r.push(copy_event(e));
                },
            }
        }
        i = i + 1;
    }
    proof {
        lemma_latest_upto(events@, live@, events@.len() as int);
    }
    r
}

/// Whether an event's window is not among `gone`.
pub open spec fn event_kept(gone: Set<i64>) -> spec_fn(WindowFocusEvent) -> bool {
    |e: WindowFocusEvent| !gone.contains(e.hwnd.0)
}

/// Whether a record's window is not among `gone`.
pub open spec fn record_kept(gone: Set<i64>) -> spec_fn(DwellRecord) -> bool {
    |r: DwellRecord| !gone.contains(r.hwnd.0)
}

/// The events whose window is not among `gone`, in order.
fn events_without(v: &Vec<WindowFocusEvent>, gone: &HashSet<i64>) -> (r: Vec<WindowFocusEvent>)
    ensures
        r@ == v@.filter(event_kept(gone@)),
{
    broadcast use vstd::std_specs::hash::group_hash_axioms;

    let mut r: Vec<WindowFocusEvent> = Vec::new();
    let mut i: usize = 0;
    while i < v.len()
        invariant
            i <= v@.len(),
            r@ == v@.take(i as int).filter(event_kept(gone@)),
        decreases v.len() - i,
    {
        proof {
            assert(v@.take(i + 1).drop_last() =~= v@.take(i as int));
            v@.take(i as int).lemma_filter_push(v@[i as int], event_kept(gone@));
            assert(v@.take(i as int).push(v@[i as int]) =~= v@.take(i + 1));
        }
        if !gone.contains(&v[i].hwnd.0) {
            r.push(copy_event(&v[i]));
        }
        i = i + 1;
    }
    assert(v@.take(v@.len() as int) =~= v@);
    r
}

/// The records whose window is not among `gone`, in order.
fn records_without(v: Vec<DwellRecord>, gone: &HashSet<i64>) -> (r: Vec<DwellRecord>)
    ensures
        r@ == v@.filter(record_kept(gone@)),
{
    broadcast use vstd::std_specs::hash::group_hash_axioms;

    let mut v = v;
    let ghost orig = v@;
    let mut r: Vec<DwellRecord> = Vec::new();
    let mut rest: Vec<DwellRecord> = Vec::new();
    // take the records from the back, then restore their order
    while v.len() > 0
        invariant
            orig == v@ + rest@.reverse(),
            r@.len() == 0,
        decreases v.len(),
    {
        let x = v.pop().unwrap();
        let ghost old_rest = rest@;
        rest.push(x);
        proof {
            assert(rest@.reverse() =~= seq![x] + old_rest.reverse());
        }
    }
    assert(orig =~= rest@.reverse());
    let ghost back = rest@;
    while rest.len() > 0
        invariant
            orig == back.reverse(),
            back.len() >= rest@.len(),
            rest@ == back.take(rest@.len() as int),
            r@ == orig.take(back.len() - rest@.len()).filter(record_kept(gone@)),
        decreases rest.len(),
    {
        let ghost m = rest@.len();
        let x = rest.pop().unwrap();
        proof {
            let done = back.len() - m;
            assert(orig[done] == back[m - 1]);
            assert(orig.take(done + 1).drop_last() =~= orig.take(done));
            orig.take(done).lemma_filter_push(x, record_kept(gone@));
            assert(orig.take(done).push(x) =~= orig.take(done + 1));
            assert(rest@ =~= back.take(m - 1));
        }
        if !gone.contains(&x.hwnd.0) {
            r.push(x);
        }
    }
    assert(orig.take(orig.len() as int) =~= orig);
    r
}

/// The index of the first record of window `h` and process `name`, from `k` on (the length
/// when there is none).
pub open spec fn record_index_from(recs: Seq<DwellRecord>, h: WindowHandle, name: Seq<char>, k: int) -> int
    decreases recs.len() - k,
{
    if k < 0 || k >= recs.len() {
        recs.len() as int
    } else if recs[k].hwnd == h && recs[k].process_name@ == name {
        k
    } else {
        record_index_from(recs, h, name, k + 1)
    }
}

/// The index of the record of window `h` and process `name` (the length when there is none).
pub open spec fn record_index(recs: Seq<DwellRecord>, h: WindowHandle, name: Seq<char>) -> int {
    record_index_from(recs, h, name, 0)
}

proof fn lemma_record_index_from(recs: Seq<DwellRecord>, h: WindowHandle, name: Seq<char>, k: int)
    requires
        0 <= k <= recs.len(),
    ensures
        k <= record_index_from(recs, h, name, k) <= recs.len(),
    decreases recs.len() - k,
{
    if k < recs.len() {
        lemma_record_index_from(recs, h, name, k + 1);
    }
}

/// The position of the record of window `h` and process `name`, if there is one.
fn record_position(recs: &Vec<DwellRecord>, h: WindowHandle, name: &String) -> (r: Option<usize>)
    ensures
        r matches Some(k) ==> k == record_index(recs@, h, name@) && k < recs@.len(),
        r is None ==> record_index(recs@, h, name@) == recs@.len(),
{
    let mut k: usize = 0;
    while k < recs.len()
        invariant
            k <= recs@.len(),
            record_index(recs@, h, name@) == record_index_from(recs@, h, name@, k as int),
        decreases recs.len() - k,
    {
        if recs[k].hwnd.0 == h.0 && recs[k].process_name == *name {
            return Some(k);
        }
        k = k + 1;
    }
    None
}

/// The idle time that mouse pauses `0..n` give window `h`: each pause between one mouse event
/// and the next, in whole seconds, that is at least `threshold` long and began on `h`.
pub open spec fn idle_secs_upto(mouse: Seq<MouseActivityEvent>, h: WindowHandle, threshold: u64, n: int) -> nat
    decreases n,
{
    if n <= 0 {
        0
    } else {
        let i = n - 1;
        let gap = secs_between(mouse[i].timestamp, mouse[i + 1].timestamp);
        idle_secs_upto(mouse, h, threshold, n - 1) + if mouse[i].hwnd == h && gap >= threshold {
            gap
        } else {
            0
        }
    }
}

/// The idle time that the mouse pauses give window `h`.
pub open spec fn idle_secs(mouse: Seq<MouseActivityEvent>, h: WindowHandle, threshold: u64) -> nat {
    if mouse.len() == 0 {
        0
    } else {
        idle_secs_upto(mouse, h, threshold, mouse.len() - 1)
    }
}

/// How many of the first `n` sessions lasted longer than 0 seconds.
pub open spec fn busy_upto(sessions: Seq<u64>, n: int) -> nat
    decreases n,
{
    if n <= 0 {
        0
    } else {
        busy_upto(sessions, n - 1) + if sessions[n - 1] != 0 {
            1nat
        } else {
            0nat
        }
    }
}

/// How many sessions lasted longer than 0 seconds.
pub open spec fn busy_sessions(sessions: Seq<u64>) -> nat {
    busy_upto(sessions, sessions.len() as int)
}

/// The idle time taken off a record: the window's idle time once for each session that
/// lasted longer than 0 seconds.
pub open spec fn idle_total(r: DwellRecord, mouse: Seq<MouseActivityEvent>, threshold: u64) -> nat {
    busy_sessions(r.dwell_sessions@) * idle_secs(mouse, r.hwnd, threshold)
}

/// A record's effective dwell time: its dwell time less its idle time (at least 0); with no
/// mouse events, its dwell time.
pub open spec fn effective_secs(r: DwellRecord, mouse: Seq<MouseActivityEvent>, threshold: u64) -> nat {
    if mouse.len() == 0 {
        r.dwell_secs as nat
    } else if idle_total(r, mouse, threshold) >= r.dwell_secs {
        0
    } else {
        (r.dwell_secs - idle_total(r, mouse, threshold)) as nat
    }
}

/// The effective dwell time of window `h` of process `name`: 0 without a record.
pub open spec fn effective_dwell(
    recs: Seq<DwellRecord>,
    h: WindowHandle,
    name: Seq<char>,
    mouse: Seq<MouseActivityEvent>,
    threshold: u64,
) -> nat {
    let k = record_index(recs, h, name);
    if 0 <= k < recs.len() {
        effective_secs(recs[k], mouse, threshold)
    } else {
        0
    }
}

/// The idle time of every record fits in 64 bits.
pub open spec fn idle_fits(recs: Seq<DwellRecord>, mouse: Seq<MouseActivityEvent>, threshold: u64) -> bool {
    forall|k: int| 0 <= k < recs.len() ==> idle_total(#[trigger] recs[k], mouse, threshold) <= u64::MAX
}

proof fn lemma_mul_grows(a: nat, b: nat)
    requires
        a >= 1,
    ensures
        b <= a * b,
{
    assert(b <= a * b) by (nonlinear_arith)
        requires
            a >= 1,
    ;
}

proof fn lemma_idle_mono(mouse: Seq<MouseActivityEvent>, h: WindowHandle, threshold: u64, n: int, m: int)
    requires
        0 <= n <= m,
    ensures
        idle_secs_upto(mouse, h, threshold, n) <= idle_secs_upto(mouse, h, threshold, m),
    decreases m - n,
{
    if n < m {
        lemma_idle_mono(mouse, h, threshold, n, m - 1);
    }
}

/// Whether no mouse pause that began on window `h` lasted `threshold` seconds or more.
pub open spec fn no_long_pause_on(mouse: Seq<MouseActivityEvent>, h: WindowHandle, threshold: u64) -> bool {
    forall|i: int|
        0 <= i < mouse.len() - 1 && (#[trigger] mouse[i]).hwnd == h ==> secs_between(
            mouse[i].timestamp,
            mouse[i + 1].timestamp,
        ) < threshold
}

proof fn lemma_idle_none_upto(mouse: Seq<MouseActivityEvent>, h: WindowHandle, threshold: u64, n: int)
    requires
        n <= mouse.len() - 1,
        no_long_pause_on(mouse, h, threshold),
    ensures
        idle_secs_upto(mouse, h, threshold, n) == 0,
    decreases n,
{
    if n > 0 {
        lemma_idle_none_upto(mouse, h, threshold, n - 1);
        assert(mouse[n - 1].hwnd == h ==> secs_between(mouse[n - 1].timestamp, mouse[n].timestamp) < threshold);
    }
}

/// Idle time counts only the long mouse pauses that began on the window itself: when no
/// pause that began on window `h` reached the threshold (in particular when every mouse
/// event but the last is on another window), `h` has no idle time and its effective dwell
/// time is its whole dwell time, however long the pauses on other windows are.
pub proof fn law_idle_only_on_own_window(
    recs: Seq<DwellRecord>,
    h: WindowHandle,
    name: Seq<char>,
    mouse: Seq<MouseActivityEvent>,
    threshold: u64,
)
    requires
        no_long_pause_on(mouse, h, threshold),
    ensures
        idle_secs(mouse, h, threshold) == 0,
        effective_dwell(recs, h, name, mouse, threshold) == dwell_secs_of(recs, h, name),
{
    if mouse.len() > 0 {
        lemma_idle_none_upto(mouse, h, threshold, mouse.len() - 1);
    }
    let k = record_index(recs, h, name);
    if 0 <= k < recs.len() {
        let b = busy_sessions(recs[k].dwell_sessions@);
        let s = idle_secs(mouse, recs[k].hwnd, threshold);
        lemma_record_index_is_key(recs, h, name, k);
        assert(b * s == 0) by (nonlinear_arith)
            requires
                s == 0,
        ;
    }
}

/// Every long mouse pause that began on a window counts, in full, toward that window's
/// idle time: a pause from event `i` on window `h` to the next event, at least `threshold`
/// seconds long, adds its length.
pub proof fn law_own_long_pause_counts(mouse: Seq<MouseActivityEvent>, h: WindowHandle, threshold: u64, i: int)
    requires
        0 <= i < mouse.len() - 1,
        mouse[i].hwnd == h,
        secs_between(mouse[i].timestamp, mouse[i + 1].timestamp) >= threshold,
    ensures
        idle_secs(mouse, h, threshold) >= secs_between(mouse[i].timestamp, mouse[i + 1].timestamp),
{
    lemma_idle_mono(mouse, h, threshold, i + 1, mouse.len() - 1);
}

/// The idle time that the mouse pauses give window `h`, when it fits in 64 bits.
fn window_idle_secs(mouse: &Vec<MouseActivityEvent>, h: WindowHandle, threshold: u64) -> (r: u64)
    requires
        mouse@.len() >= 1,
        idle_secs(mouse@, h, threshold) <= u64::MAX,
    ensures
        r == idle_secs(mouse@, h, threshold),
{
    let n = mouse.len() - 1;
    let mut total: u64 = 0;
    let mut i: usize = 0;
    while i < n
        invariant
            n == mouse@.len() - 1,
            i <= n,
            total == idle_secs_upto(mouse@, h, threshold, i as int),
            idle_secs_upto(mouse@, h, threshold, n as int) <= u64::MAX,
        decreases n - i,
    {
        proof {
            lemma_idle_mono(mouse@, h, threshold, i + 1, n as int);
        }
        let gap = elapsed_secs(mouse[i].timestamp, mouse[i + 1].timestamp);
        if mouse[i].hwnd.0 == h.0 && gap >= threshold {
            total = total + gap;
        }
        i = i + 1;
    }
    total
}

proof fn lemma_busy_bound(sessions: Seq<u64>, n: int)
    requires
        0 <= n <= sessions.len(),
    ensures
        busy_upto(sessions, n) <= n,
    decreases n,
{
    if n > 0 {
        lemma_busy_bound(sessions, n - 1);
    }
}

/// How many sessions lasted longer than 0 seconds.
fn count_busy(sessions: &Vec<u64>) -> (r: usize)
    ensures
        r == busy_sessions(sessions@),
{
    let mut c: usize = 0;
    let mut i: usize = 0;
    while i < sessions.len()
        invariant
            i <= sessions@.len(),
            c == busy_upto(sessions@, i as int),
        decreases sessions.len() - i,
    {
        proof {
            lemma_busy_bound(sessions@, i as int);
        }
        if sessions[i] != 0 {
            c = c + 1;
        }
        i = i + 1;
    }
    c
}

/// A recommended window as plain values: window, process name, dwell time.
pub type Pick = (WindowHandle, Seq<char>, u64);

/// A recommendation's plain values.
pub open spec fn pick_of(c: SingletonRecommendation) -> Pick {
    (c.hwnd, c.process_name@, c.dwell_time_secs)
}

/// The plain values of recommendations, in order.
pub open spec fn picks_of(v: Seq<SingletonRecommendation>) -> Seq<Pick> {
    v.map_values(|c: SingletonRecommendation| pick_of(c))
}

/// Whether a session shorter than `max_dwell` seconds occurs.
pub open spec fn has_short_session(sessions: Seq<u64>, max_dwell: u64) -> bool {
    exists|k: int| 0 <= k < sessions.len() && sessions[k] < max_dwell
}

/// Whether some pick is of process `name`.
pub open spec fn has_pick_of(picks: Seq<Pick>, name: Seq<char>) -> bool {
    exists|k: int| 0 <= k < picks.len() && #[trigger] picks[k].1 == name
}

/// The position of a pick of process `name`.
pub open spec fn pick_pos(picks: Seq<Pick>, name: Seq<char>) -> int {
    choose|k: int| 0 <= k < picks.len() && #[trigger] picks[k].1 == name
}

/// Frequent-switcher candidates from the first `n` records, with the process names seen:
/// records of other windows than `current`, of processes not ignored, switched to at least
/// `min_switches` times, that had a session shorter than `max_dwell`; one per process name,
/// a later record of a name taking the place of the earlier one when it has a longer dwell
/// time (and dropping it when it has no short session).
pub open spec fn switchers_upto(
    recs: Seq<DwellRecord>,
    current: WindowHandle,
    ignore: Seq<Seq<char>>,
    max_dwell: u64,
    min_switches: u32,
    n: int,
) -> (Seq<Pick>, Set<Seq<char>>)
    decreases n,
{
    if n <= 0 {
        (seq![], Set::empty())
    } else {
        let (picks, seen) = switchers_upto(recs, current, ignore, max_dwell, min_switches, n - 1);
        let r = recs[n - 1];
        let name = r.process_name@;
        if r.hwnd == current || ignore.contains(name) || r.switch_count < min_switches {
            (picks, seen)
        } else if seen.contains(name) && !has_pick_of(picks, name) {
            (picks, seen)
        } else if seen.contains(name) && r.dwell_secs <= picks[pick_pos(picks, name)].2 {
            (picks, seen)
        } else {
            let base = if seen.contains(name) {
                picks.remove(pick_pos(picks, name))
            } else {
                picks
            };
            if has_short_session(r.dwell_sessions@, max_dwell) {
                (base.push((r.hwnd, name, r.dwell_secs)), seen.insert(name))
            } else {
                (base, seen)
            }
        }
    }
}

/// How often the record of a pick's window and process was switched to (0 without one).
pub open spec fn switch_key(recs: Seq<DwellRecord>) -> spec_fn(Pick) -> int {
    |c: Pick|
        {
            let k = record_index(recs, c.0, c.1);
            if 0 <= k < recs.len() {
                recs[k].switch_count as int
            } else {
                0
            }
        }
}

/// The names of the picks are distinct and were all seen.
pub open spec fn picks_distinct(picks: Seq<Pick>, seen: Set<Seq<char>>) -> bool {
    &&& forall|a: int, b: int| 0 <= a < b < picks.len() ==> picks[a].1 != picks[b].1
    &&& forall|a: int| 0 <= a < picks.len() ==> seen.contains(#[trigger] picks[a].1)
}

proof fn lemma_switchers_distinct(
    recs: Seq<DwellRecord>,
    current: WindowHandle,
    ignore: Seq<Seq<char>>,
    max_dwell: u64,
    min_switches: u32,
    n: int,
)
    requires
        0 <= n <= recs.len(),
    ensures
        picks_distinct(
            switchers_upto(recs, current, ignore, max_dwell, min_switches, n).0,
            switchers_upto(recs, current, ignore, max_dwell, min_switches, n).1,
        ),
    decreases n,
{
    if n > 0 {
        lemma_switchers_distinct(recs, current, ignore, max_dwell, min_switches, n - 1);
        let (picks, seen) = switchers_upto(recs, current, ignore, max_dwell, min_switches, n - 1);
        let r = recs[n - 1];
        let name = r.process_name@;
        if !(r.hwnd == current || ignore.contains(name) || r.switch_count < min_switches) && !(
        seen.contains(name) && !has_pick_of(picks, name)) && !(seen.contains(name) && r.dwell_secs
            <= picks[pick_pos(picks, name)].2) {
            let base = if seen.contains(name) {
                picks.remove(pick_pos(picks, name))
            } else {
                picks
            };
            let p = pick_pos(picks, name);
            assert forall|a: int| 0 <= a < base.len() implies #[trigger] base[a].1 != name && seen.contains(base[a].1) by {
                if seen.contains(name) {
                    if a < p {
                        assert(base[a] == picks[a]);
                        assert(picks[a].1 != picks[p].1);
                    } else {
                        assert(base[a] == picks[a + 1]);
                        assert(picks[p].1 != picks[a + 1].1);
                    }
                } else {
                    assert(!seen.contains(name));
                }
            }
            assert forall|a: int, b: int| 0 <= a < b < base.len() implies base[a].1 != base[b].1 by {
                if seen.contains(name) {
                    if b < p {
                        assert(base[a] == picks[a] && base[b] == picks[b]);
                    } else if a < p {
                        assert(base[a] == picks[a] && base[b] == picks[b + 1]);
                    } else {
                        assert(base[a] == picks[a + 1] && base[b] == picks[b + 1]);
                    }
                }
            }
            if has_short_session(r.dwell_sessions@, max_dwell) {
                let after = base.push((r.hwnd, name, r.dwell_secs));
                assert forall|a: int, b: int| 0 <= a < b < after.len() implies after[a].1 != after[b].1 by {
                    if b == base.len() {
                        assert(after[a] == base[a]);
                    } else {
                        assert(after[a] == base[a] && after[b] == base[b]);
                    }
                }
                assert forall|a: int| 0 <= a < after.len() implies seen.insert(name).contains(#[trigger] after[a].1) by {
                    if a < base.len() {
                        assert(after[a] == base[a]);
                    }
                }
            }
        }
    }
}

/// Whether a session shorter than `max_dwell` seconds occurs.
fn short_session(sessions: &Vec<u64>, max_dwell: u64) -> (r: bool)
    ensures
        r == has_short_session(sessions@, max_dwell),
{
    let mut k: usize = 0;
    while k < sessions.len()
        invariant
            k <= sessions@.len(),
            forall|m: int| 0 <= m < k ==> sessions@[m] >= max_dwell,
        decreases sessions.len() - k,
    {
        if sessions[k] < max_dwell {
            return true;
        }
        k = k + 1;
    }
    false
}

/// The position of a candidate of process `name`, if any.
fn candidate_of(cands: &Vec<SingletonRecommendation>, name: &String) -> (r: Option<usize>)
    ensures
        r matches Some(k) ==> k < cands@.len() && cands@[k as int].process_name@ == name@,
        r is None ==> !has_pick_of(picks_of(cands@), name@),
{
    let mut k: usize = 0;
    while k < cands.len()
        invariant
            k <= cands@.len(),
            forall|m: int| 0 <= m < k ==> cands@[m].process_name@ != name@,
        decreases cands.len() - k,
    {
        if cands[k].process_name == *name {
            return Some(k);
        }
        k = k + 1;
    }
    proof {
        assert forall|m: int| 0 <= m < cands@.len() implies #[trigger] picks_of(cands@)[m].1 != name@ by {
            assert(picks_of(cands@)[m] == pick_of(cands@[m]));
        }
    }
    None
}

/// An application with a co-occurrence count.
pub type AppCount = (Seq<char>, u32);

/// The plain values of applications with counts.
pub open spec fn app_counts(v: Seq<(String, u32)>) -> Seq<AppCount> {
    v.map_values(|x: (String, u32)| (x.0@, x.1))
}

/// The applications that co-occur with `cur` among the first `n` entries, with their counts,
/// leaving out ignored ones.
pub open spec fn co_apps_upto(co: Seq<CoOccurrence>, cur: Seq<char>, ignore: Seq<Seq<char>>, n: int) -> Seq<
    AppCount,
>
    decreases n,
{
    if n <= 0 {
        seq![]
    } else {
        let before = co_apps_upto(co, cur, ignore, n - 1);
        let e = co[n - 1];
        if e.first@ == cur && e.second@ != cur {
            if ignore.contains(e.second@) {
                before
            } else {
                before.push((e.second@, e.count))
            }
        } else if e.second@ == cur && e.first@ != cur {
            if ignore.contains(e.first@) {
                before
            } else {
                before.push((e.first@, e.count))
            }
        } else {
            before
        }
    }
}

/// Orders applications by co-occurrence count.
pub open spec fn count_key() -> spec_fn(AppCount) -> int {
    |x: AppCount| x.1 as int
}

/// The index of the last of the first `n` events of process `app` (-1 for none).
pub open spec fn last_index_upto(events: Seq<WindowFocusEvent>, app: Seq<char>, n: int) -> int
    decreases n,
{
    if n <= 0 {
        -1
    } else if events[n - 1].process_name@ == app {
        n - 1
    } else {
        last_index_upto(events, app, n - 1)
    }
}

/// The index of the first event of process `app` from `k` on (-1 for none).
pub open spec fn first_index_from(events: Seq<WindowFocusEvent>, app: Seq<char>, k: int) -> int
    decreases events.len() - k,
{
    if k < 0 || k >= events.len() {
        -1
    } else if events[k].process_name@ == app {
        k
    } else {
        first_index_from(events, app, k + 1)
    }
}

/// A group being built: its windows and the process names added.
pub type GroupState = (Seq<WindowHandle>, Set<Seq<char>>);

/// Adds co-occurring applications `0..n` to a group, while it has fewer than 5 windows:
/// each application not yet added gives the window of its latest event, if that window is
/// not in the group yet.
pub open spec fn add_co_apps(start: GroupState, apps: Seq<AppCount>, events: Seq<WindowFocusEvent>, n: int) -> GroupState
    decreases n,
{
    if n <= 0 {
        start
    } else {
        let (w, added) = add_co_apps(start, apps, events, n - 1);
        let app = apps[n - 1].0;
        let k = last_index_upto(events, app, events.len() as int);
        if w.len() >= 5 || added.contains(app) || k < 0 || w.contains(events[k].hwnd) {
            (w, added)
        } else {
            (w.push(events[k].hwnd), added.insert(app))
        }
    }
}

/// A recently used window: window, process name, when it was last active.
pub type Recent = (WindowHandle, Seq<char>, i64);

/// The plain values of recently used windows.
pub open spec fn recents(v: Seq<(WindowHandle, String, i64)>) -> Seq<Recent> {
    v.map_values(|x: (WindowHandle, String, i64)| (x.0, x.1@, x.2))
}

/// The records `0..n` of other windows than `current`, of processes not ignored.
pub open spec fn recent_upto(recs: Seq<DwellRecord>, current: WindowHandle, ignore: Seq<Seq<char>>, n: int) -> Seq<
    Recent,
>
    decreases n,
{
    if n <= 0 {
        seq![]
    } else {
        let before = recent_upto(recs, current, ignore, n - 1);
        let r = recs[n - 1];
        if r.hwnd != current && !ignore.contains(r.process_name@) {
            before.push((r.hwnd, r.process_name@, r.last_active))
        } else {
            before
        }
    }
}

/// Orders recently used windows by when they were last active.
pub open spec fn recency_key() -> spec_fn(Recent) -> int {
    |x: Recent| x.2 as int
}

/// Adds recently used windows `0..n` to a group, while it has fewer than 5 windows: each
/// window of a process not yet added that still exists, belongs to a process of its name and
/// is not in the group yet.
pub open spec fn add_recent(start: GroupState, recent: Seq<Recent>, live: Seq<LiveWindow>, n: int) -> GroupState
    decreases n,
{
    if n <= 0 {
        start
    } else {
        let (w, added) = add_recent(start, recent, live, n - 1);
        let x = recent[n - 1];
        if w.len() >= 5 || added.contains(x.1) || live_name(live, x.0.0) != Some(x.1) || w.contains(x.0) {
            (w, added)
        } else {
            (w.push(x.0), added.insert(x.1))
        }
    }
}

/// The windows of the group around the current window: it, then the windows of the
/// applications that co-occur with it most (in `apps` order); when that gives no other
/// window, recently used windows (in `recent` order). At most 5.
pub open spec fn main_group(
    current: WindowFocusEvent,
    events: Seq<WindowFocusEvent>,
    apps: Seq<AppCount>,
    recent: Seq<Recent>,
    live: Seq<LiveWindow>,
) -> Seq<WindowHandle> {
    let start = (seq![current.hwnd], Set::<Seq<char>>::empty().insert(current.process_name@));
    let s1 = add_co_apps(start, apps, events, apps.len() as int);
    if s1.0.len() < 2 {
        add_recent(s1, recent, live, recent.len() as int).0
    } else {
        s1.0
    }
}

/// The windows of two applications: the window of each one's first event, once.
pub open spec fn pair_windows(events: Seq<WindowFocusEvent>, a: Seq<char>, b: Seq<char>) -> Seq<WindowHandle> {
    let ka = first_index_from(events, a, 0);
    let w = if ka >= 0 {
        seq![events[ka].hwnd]
    } else {
        seq![]
    };
    let kb = first_index_from(events, b, 0);
    if kb >= 0 && !w.contains(events[kb].hwnd) {
        w.push(events[kb].hwnd)
    } else {
        w
    }
}

/// Pair groups from the first `n` entries: every pair of applications, neither ignored, that
/// co-occurred at least 3 times and whose windows make 2 to 5 windows, with its count.
pub open spec fn pair_groups_upto(
    co: Seq<CoOccurrence>,
    events: Seq<WindowFocusEvent>,
    ignore: Seq<Seq<char>>,
    n: int,
) -> Seq<(Seq<WindowHandle>, u32)>
    decreases n,
{
    if n <= 0 {
        seq![]
    } else {
        let before = pair_groups_upto(co, events, ignore, n - 1);
        let e = co[n - 1];
        let w = pair_windows(events, e.first@, e.second@);
        if ignore.contains(e.first@) || ignore.contains(e.second@) || e.count < 3 || !(2 <= w.len()
            <= 5) {
            before
        } else {
            before.push((w, e.count))
        }
    }
}

/// A group's plain values: its windows, its counts, whether it is a pair group.
pub open spec fn group_view(g: GroupCandidate) -> (Seq<WindowHandle>, Seq<u32>, bool) {
    (g.windows@, g.counts@, g.is_pair)
}

/// A window group offered for recommendation, with the co-occurrence counts that rank it.
#[derive(Debug, Clone)]
pub struct GroupCandidate {
    pub windows: Vec<WindowHandle>,
    /// The co-occurrence counts of the group's applications.
    pub counts: Vec<u32>,
    /// A pair of applications that often co-occur, rather than the group around the current
    /// window.
    pub is_pair: bool,
}

/// The applications that co-occur with `cur`, with their counts, leaving out ignored ones.
fn collect_co_apps(co: &Vec<CoOccurrence>, cur: &String, ignore: &Vec<String>) -> (r: Vec<(String, u32)>)
    ensures
        app_counts(r@) == co_apps_upto(co@, cur@, ignore.deep_view(), co@.len() as int),
{
    let mut r: Vec<(String, u32)> = Vec::new();
    let mut i: usize = 0;
    while i < co.len()
        invariant
            i <= co@.len(),
            app_counts(r@) == co_apps_upto(co@, cur@, ignore.deep_view(), i as int),
        decreases co.len() - i,
    {
        let e = &co[i];
        let ghost before = r@;
        if e.first == *cur && e.second != *cur {
            if !contains_word(ignore, &e.second) {
                r.push((e.second.clone(), e.count));
                assert(app_counts(r@) =~= app_counts(before).push((e.second@, e.count)));
            }
        } else if e.second == *cur && e.first != *cur {
            if !contains_word(ignore, &e.first) {
                r.push((e.first.clone(), e.count));
                assert(app_counts(r@) =~= app_counts(before).push((e.first@, e.count)));
            }
        }
        i = i + 1;
    }
    r
}

/// Applications by count, highest first; equal counts keep their order.
fn sort_by_count(v: &Vec<(String, u32)>) -> (r: Vec<(String, u32)>)
    ensures
        stable_desc(app_counts(r@), app_counts(v@), count_key()),
{
    let ghost all = app_counts(v@);
    let ghost key = count_key();
    let mut r: Vec<(String, u32)> = Vec::new();
    proof {
        assert(all.take(0) =~= Seq::<AppCount>::empty());
        assert(app_counts(r@) =~= Seq::<AppCount>::empty());
    }
    let mut j: usize = 0;
    while j < v.len()
        invariant
            j <= v@.len(),
            all == app_counts(v@),
            key == count_key(),
            stable_desc(app_counts(r@), all.take(j as int), key),
        decreases v.len() - j,
    {
        let kx = v[j].1;
        let ghost x = all[j as int];
        let mut p: usize = 0;
        while p < r.len() && r[p].1 >= kx
            invariant
                p <= r@.len(),
                forall|a: int| 0 <= a < p ==> key(#[trigger] app_counts(r@)[a]) >= kx,
                key == count_key(),
            decreases r.len() - p,
        {
            p = p + 1;
        }
        let ghost old_r = app_counts(r@);
        proof {
            lemma_insert_desc(old_r, all.take(j as int), x, p as int, key);
            assert(all.take(j + 1) =~= all.take(j as int).push(x));
        }
        r.insert(p, (v[j].0.clone(), kx));
        assert(app_counts(r@) =~= old_r.insert(p as int, x));
        j = j + 1;
    }
    assert(all.take(v@.len() as int) =~= all);
    r
}

/// The window of the latest event of process `app`, if any.
fn last_window_of(events: &Vec<WindowFocusEvent>, app: &String) -> (r: Option<WindowHandle>)
    ensures
        ({
            let k = last_index_upto(events@, app@, events@.len() as int);
            &&& r is None <==> k < 0
            &&& r matches Some(h) ==> 0 <= k < events@.len() && h == events@[k].hwnd
        }),
{
    let mut k: usize = events.len();
    while k > 0
        invariant
            k <= events@.len(),
            last_index_upto(events@, app@, events@.len() as int) == last_index_upto(events@, app@, k as int),
        decreases k,
    {
        if events[k - 1].process_name == *app {
            return Some(events[k - 1].hwnd);
        }
        k = k - 1;
    }
    None
}

proof fn lemma_first_index_from(events: Seq<WindowFocusEvent>, app: Seq<char>, k: int)
    requires
        0 <= k,
    ensures
        first_index_from(events, app, k) == -1 || k <= first_index_from(events, app, k) < events.len(),
    decreases events.len() - k,
{
    if k < events.len() {
        lemma_first_index_from(events, app, k + 1);
    }
}

/// The window of the first event of process `app`, if any.
fn first_window_of(events: &Vec<WindowFocusEvent>, app: &String) -> (r: Option<WindowHandle>)
    ensures
        ({
            let k = first_index_from(events@, app@, 0);
            &&& r is None <==> k < 0
            &&& r matches Some(h) ==> 0 <= k < events@.len() && h == events@[k].hwnd
        }),
{
    proof {
        lemma_first_index_from(events@, app@, 0);
    }
    let mut k: usize = 0;
    while k < events.len()
        invariant
            k <= events@.len(),
            first_index_from(events@, app@, 0) == first_index_from(events@, app@, k as int),
        decreases events.len() - k,
    {
        if events[k].process_name == *app {
            return Some(events[k].hwnd);
        }
        k = k + 1;
    }
    None
}

/// Whether `h` is among the windows.
fn has_handle(w: &Vec<WindowHandle>, h: WindowHandle) -> (r: bool)
    ensures
        r == w@.contains(h),
{
    let mut k: usize = 0;
    while k < w.len()
        invariant
            k <= w@.len(),
            forall|m: int| 0 <= m < k ==> w@[m] != h,
        decreases w.len() - k,
    {
        if w[k].0 == h.0 {
            assert(w@[k as int] == h);
            return true;
        }
        k = k + 1;
    }
    false
}

/// The records of other windows than `current`, of processes not ignored.
fn collect_recent(recs: &Vec<DwellRecord>, current: WindowHandle, ignore: &Vec<String>) -> (r: Vec<
    (WindowHandle, String, i64),
>)
    ensures
        recents(r@) == recent_upto(recs@, current, ignore.deep_view(), recs@.len() as int),
{
    let mut r: Vec<(WindowHandle, String, i64)> = Vec::new();
    let mut i: usize = 0;
    while i < recs.len()
        invariant
            i <= recs@.len(),
            recents(r@) == recent_upto(recs@, current, ignore.deep_view(), i as int),
        decreases recs.len() - i,
    {
        let x = &recs[i];
        let ghost before = r@;
        if x.hwnd.0 != current.0 && !contains_word(ignore, &x.process_name) {
            r.push((x.hwnd, x.process_name.clone(), x.last_active));
            assert(recents(r@) =~= recents(before).push((x.hwnd, x.process_name@, x.last_active)));
        }
        i = i + 1;
    }
    r
}

/// Recently used windows, latest first; equal times keep their order.
fn sort_by_recency(v: &Vec<(WindowHandle, String, i64)>) -> (r: Vec<(WindowHandle, String, i64)>)
    ensures
        stable_desc(recents(r@), recents(v@), recency_key()),
{
    let ghost all = recents(v@);
    let ghost key = recency_key();
    let mut r: Vec<(WindowHandle, String, i64)> = Vec::new();
    proof {
        assert(all.take(0) =~= Seq::<Recent>::empty());
        assert(recents(r@) =~= Seq::<Recent>::empty());
    }
    let mut j: usize = 0;
    while j < v.len()
        invariant
            j <= v@.len(),
            all == recents(v@),
            key == recency_key(),
            stable_desc(recents(r@), all.take(j as int), key),
        decreases v.len() - j,
    {
        let kx = v[j].2;
        let ghost x = all[j as int];
        let mut p: usize = 0;
        while p < r.len() && r[p].2 >= kx
            invariant
                p <= r@.len(),
                forall|a: int| 0 <= a < p ==> key(#[trigger] recents(r@)[a]) >= kx,
                key == recency_key(),
            decreases r.len() - p,
        {
            p = p + 1;
        }
        let ghost old_r = recents(r@);
        proof {
            lemma_insert_desc(old_r, all.take(j as int), x, p as int, key);
            assert(all.take(j + 1) =~= all.take(j as int).push(x));
        }
        r.insert(p, (v[j].0, v[j].1.clone(), kx));
        assert(recents(r@) =~= old_r.insert(p as int, x));
        j = j + 1;
    }
    assert(all.take(v@.len() as int) =~= all);
    r
}

/// Adds a name to a list of names standing for a set.
fn add_name(names: &mut Vec<String>, name: &String, Ghost(set): Ghost<Set<Seq<char>>>)
    requires
        forall|x: Seq<char>| #[trigger] old(names).deep_view().contains(x) <==> set.contains(x),
    ensures
        forall|x: Seq<char>| #[trigger] final(names).deep_view().contains(x) <==> set.insert(name@).contains(x),
{
    let ghost old_v = names.deep_view();
    names.push(name.clone());
    proof {
        let nv = names.deep_view();
        assert(nv =~= old_v.push(name@));
        assert forall|x: Seq<char>| #[trigger] nv.contains(x) <==> set.insert(name@).contains(x) by {
            if nv.contains(x) && x != name@ {
                let q = choose|q: int| 0 <= q < nv.len() && nv[q] == x;
                assert(old_v[q] == x);
            }
            if old_v.contains(x) {
                let q = choose|q: int| 0 <= q < old_v.len() && old_v[q] == x;
                assert(nv[q] == x);
            }
            if x == name@ {
                assert(nv[old_v.len() as int] == x);
            }
        }
    }
}

/// `sw` is the frequent-switcher list of the records: the candidates by switch count,
/// highest first (a stable sort), at most 4.
pub open spec fn is_switcher_list(
    recs: Seq<DwellRecord>,
    settings: RecommendationSettings,
    current: WindowHandle,
    sw: Seq<Pick>,
) -> bool {
    exists|sorted: Seq<Pick>|
        stable_desc(
            sorted,
            switchers_upto(
                recs,
                current,
                settings.ignore_list.deep_view(),
                settings.recent_max_dwell_secs,
                settings.recent_min_switch_count,
                recs.len() as int,
            ).0,
            switch_key(recs),
        ) && sw == sorted.take(if sorted.len() < 4 {
            sorted.len() as int
        } else {
            4
        })
}

/// The dwell time of window `h` of process `name` (0 without a record).
pub open spec fn dwell_secs_of(recs: Seq<DwellRecord>, h: WindowHandle, name: Seq<char>) -> nat {
    let k = record_index(recs, h, name);
    if 0 <= k < recs.len() {
        recs[k].dwell_secs as nat
    } else {
        0
    }
}

/// The index of the first event on window `h`, from `k` on (-1 for none).
pub open spec fn event_index_from(events: Seq<WindowFocusEvent>, h: WindowHandle, k: int) -> int
    decreases events.len() - k,
{
    if k < 0 || k >= events.len() {
        -1
    } else if events[k].hwnd == h {
        k
    } else {
        event_index_from(events, h, k + 1)
    }
}

proof fn lemma_event_index_from(events: Seq<WindowFocusEvent>, h: WindowHandle, k: int)
    requires
        0 <= k,
    ensures
        event_index_from(events, h, k) == -1 || k <= event_index_from(events, h, k) < events.len(),
    decreases events.len() - k,
{
    if k < events.len() {
        lemma_event_index_from(events, h, k + 1);
    }
}

/// The first event on window `h`, if any.
fn event_position(events: &Vec<WindowFocusEvent>, h: WindowHandle) -> (r: Option<usize>)
    ensures
        r matches Some(k) ==> k == event_index_from(events@, h, 0) && k < events@.len(),
        r is None ==> event_index_from(events@, h, 0) == -1,
{
    proof {
        lemma_event_index_from(events@, h, 0);
    }
    let mut k: usize = 0;
    while k < events.len()
        invariant
            k <= events@.len(),
            event_index_from(events@, h, 0) == event_index_from(events@, h, k as int),
        decreases events.len() - k,
    {
        if events[k].hwnd.0 == h.0 {
            return Some(k);
        }
        k = k + 1;
    }
    None
}

/// The common-combination list being built: the picks, and the windows seen.
pub type ComboState = (Seq<Pick>, Seq<WindowHandle>);

/// Adds the windows `0..n` of the top group to the common-combination list: each window not
/// seen yet that has an event, of a process not ignored, is seen, and joins with its
/// effective dwell time when that reaches `min_dwell`.
pub open spec fn combo_upto(
    top: Seq<WindowHandle>,
    events: Seq<WindowFocusEvent>,
    recs: Seq<DwellRecord>,
    mouse: Seq<MouseActivityEvent>,
    settings: RecommendationSettings,
    start: ComboState,
    n: int,
) -> ComboState
    decreases n,
{
    if n <= 0 {
        start
    } else {
        let (picks, seen) = combo_upto(top, events, recs, mouse, settings, start, n - 1);
        let h = top[n - 1];
        let k = event_index_from(events, h, 0);
        if seen.contains(h) || k < 0 || settings.ignore_list.deep_view().contains(
            events[k].process_name@,
        ) {
            (picks, seen)
        } else {
            let name = events[k].process_name@;
            let eff = effective_dwell(
                recs,
                h,
                name,
                mouse,
                settings.common_combo_mouse_idle_threshold_secs,
            );
            if eff < settings.common_combo_min_dwell_secs {
                (picks, seen.push(h))
            } else {
                (picks.push((h, name, eff as u64)), seen.push(h))
            }
        }
    }
}

/// Adds frequent switchers `0..n` not seen yet to a list of fewer than `max_count` windows.
pub open spec fn fill_switchers(sw: Seq<Pick>, start: ComboState, max_count: usize, n: int) -> ComboState
    decreases n,
{
    if n <= 0 {
        start
    } else {
        let (picks, seen) = fill_switchers(sw, start, max_count, n - 1);
        let x = sw[n - 1];
        if !seen.contains(x.0) && picks.len() < max_count {
            (picks.push(x), seen.push(x.0))
        } else {
            (picks, seen)
        }
    }
}

/// The label of the common-combination list.
pub open spec fn combo_label() -> Seq<char> {
    "常用组合"@
}

/// The label of the frequent-switcher list.
pub open spec fn switcher_label() -> Seq<char> {
    "频繁切换"@
}

/// The recommendation lists: the common combination (the current window with its dwell time,
/// then the windows of the top group, at most `max_count` in all), when not empty; then the
/// frequent switchers `sw` that are not the current window nor in the first list, at most
/// `max_count`, when not empty.
pub open spec fn recommendation_lists(
    events: Seq<WindowFocusEvent>,
    recs: Seq<DwellRecord>,
    settings: RecommendationSettings,
    current: WindowFocusEvent,
    max_count: usize,
    mouse: Seq<MouseActivityEvent>,
    top: Option<Seq<WindowHandle>>,
    sw: Seq<Pick>,
) -> Seq<(Seq<Pick>, Seq<char>)> {
    let start = (
        seq![(current.hwnd, current.process_name@, dwell_secs_of(recs, current.hwnd, current.process_name@) as u64)],
        seq![current.hwnd],
    );
    let combo = match top {
        Some(t) => combo_upto(t, events, recs, mouse, settings, start, t.len() as int).0,
        None => start.0,
    };
    let common = combo.take(if combo.len() < max_count {
        combo.len() as int
    } else {
        max_count as int
    });
    let first = if common.len() > 0 {
        seq![(common, combo_label())]
    } else {
        seq![]
    };
    let seen = if common.len() > 0 {
        seq![current.hwnd] + common.map_values(|p: Pick| p.0)
    } else {
        seq![current.hwnd]
    };
    let freq = fill_switchers(sw, (seq![], seen), max_count, sw.len() as int).0;
    if freq.len() > 0 {
        first.push((freq, switcher_label()))
    } else {
        first
    }
}

/// The plain values of recommended windows.
pub open spec fn window_picks(v: Seq<RecommendationWindowInfo>) -> Seq<Pick> {
    v.map_values(|w: RecommendationWindowInfo| (w.hwnd, w.process_name@, w.dwell_time_secs))
}

/// The plain values of recommendation lists.
pub open spec fn response_view(r: RecommendationResponse) -> Seq<(Seq<Pick>, Seq<char>)> {
    r.groups@.map_values(|g: RecommendationGroupInfo| (window_picks(g.windows@), g.label@))
}

/// The first second that chrono's dates hold: -262143-01-01 00:00:00 UTC.
pub const CHRONO_MIN_SECS: i64 = -8_334_601_228_800;

/// The last second that chrono's dates hold: 262142-12-31 23:59:59 UTC.
pub const CHRONO_MAX_SECS: i64 = 8_210_266_876_799;

/// `chrono::DateTime::from_timestamp(secs, 0)` read back with `timestamp_millis`: the same
/// moment in milliseconds when `secs` lies within chrono's dates (years -262143 to 262142,
/// `DateTime::<Utc>::MIN_UTC` to `MAX_UTC`); `None` outside them.
#[verifier::external_body]
fn millis_from_secs(secs: i64) -> (r: Option<i64>)
    ensures
        (r is Some) == (CHRONO_MIN_SECS <= secs <= CHRONO_MAX_SECS),
        r matches Some(ms) ==> ms == secs * 1000,
{
    DateTime::from_timestamp(secs, 0).map(|d| d.timestamp_millis())
}

/// The whole seconds of a time in milliseconds, rounded down.
fn floor_secs(ms: i64) -> (r: i64)
    ensures
        r == ms / 1000,
{
    if ms >= 0 {
        ((ms as u64) / 1000) as i64
    } else {
        let m: u64 = (-(ms + 1)) as u64;
        let q: u64 = m / 1000;
        proof {
            let rem = m % 1000;
            vstd::arithmetic::div_mod::lemma_fundamental_div_mod(m as int, 1000);
            assert(ms == (-(q as int) - 1) * 1000 + (999 - rem));
            vstd::arithmetic::div_mod::lemma_fundamental_div_mod_converse(ms as int, 1000, -(q as int) - 1, 999 - rem);
        }
        -(q as i64) - 1
    }
}

/// A dwell record as plain values: window, process, dwell time, last active, switch count,
/// sessions.
pub type RecordView = (WindowHandle, Seq<char>, u64, i64, u32, Seq<u64>);

/// The plain values of dwell records.
pub open spec fn records_view(v: Seq<DwellRecord>) -> Seq<RecordView> {
    v.map_values(|r: DwellRecord| (r.hwnd, r.process_name@, r.dwell_secs, r.last_active, r.switch_count, r.dwell_sessions@))
}

/// Inserts a record by its window and process: it takes the place of the one with that key,
/// or comes last.
pub open spec fn insert_record(v: Seq<RecordView>, x: RecordView) -> Seq<RecordView> {
    if exists|k: int| 0 <= k < v.len() && #[trigger] v[k].0 == x.0 && v[k].1 == x.1 {
        let k = choose|k: int| 0 <= k < v.len() && #[trigger] v[k].0 == x.0 && v[k].1 == x.1;
        v.update(k, x)
    } else {
        v.push(x)
    }
}

/// No two records share a window and process.
pub open spec fn keys_distinct(v: Seq<RecordView>) -> bool {
    forall|a: int, b: int| 0 <= a < b < v.len() ==> !(v[a].0 == v[b].0 && v[a].1 == v[b].1)
}

/// A stored row as a record: counts converted as Rust's `as` does, no sessions, last active
/// at the stored second (in milliseconds), or at `now_ms` when chrono cannot hold it.
pub open spec fn row_record(row: DwellRecordRow, last_ms: i64) -> RecordView {
    (WindowHandle(row.hwnd), row.process_name@, row.dwell_secs as u64, last_ms, row.switch_count as u32, seq![])
}

/// A stored co-occurrence row as an entry.
pub open spec fn co_entry_view(c: CoOccurrence) -> (Seq<char>, Seq<char>, u32) {
    (c.first@, c.second@, c.count)
}

/// Inserts a co-occurrence entry by its pair: it takes the place of the one of that pair, or
/// comes last.
pub open spec fn insert_pair(v: Seq<(Seq<char>, Seq<char>, u32)>, x: (Seq<char>, Seq<char>, u32)) -> Seq<(Seq<char>, Seq<char>, u32)> {
    if exists|k: int| 0 <= k < v.len() && #[trigger] v[k].0 == x.0 && v[k].1 == x.1 {
        let k = choose|k: int| 0 <= k < v.len() && #[trigger] v[k].0 == x.0 && v[k].1 == x.1;
        v.update(k, x)
    } else {
        v.push(x)
    }
}

/// The plain values of co-occurrence entries.
pub open spec fn co_view(v: Seq<CoOccurrence>) -> Seq<(Seq<char>, Seq<char>, u32)> {
    v.map_values(|c: CoOccurrence| co_entry_view(c))
}

/// No two entries share a pair.
pub open spec fn pairs_distinct(v: Seq<(Seq<char>, Seq<char>, u32)>) -> bool {
    forall|a: int, b: int| 0 <= a < b < v.len() ==> !(v[a].0 == v[b].0 && v[a].1 == v[b].1)
}

/// A dwell record as a stored row, saved at `now` (seconds): counts converted as Rust's `as`
/// does, last active in whole seconds (rounded down), no id yet (0).
pub open spec fn record_row(r: DwellRecord, now: i64) -> (i64, i64, Seq<char>, i64, i32, i64, i64) {
    (0, r.hwnd.0, r.process_name@, r.dwell_secs as i64, r.switch_count as i32, (r.last_active / 1000) as i64, now)
}

/// The plain values of stored rows.
pub open spec fn rows_view(v: Seq<DwellRecordRow>) -> Seq<(i64, i64, Seq<char>, i64, i32, i64, i64)> {
    v.map_values(|x: DwellRecordRow| (x.id, x.hwnd, x.process_name@, x.dwell_secs, x.switch_count, x.last_active, x.created_at))
}

/// When a stored row was last active, in milliseconds: its stored second, when chrono's
/// dates hold it; otherwise `now_ms`.
pub open spec fn stored_millis(secs: i64, now_ms: i64) -> i64 {
    if CHRONO_MIN_SECS <= secs <= CHRONO_MAX_SECS {
        (secs * 1000) as i64
    } else {
        now_ms
    }
}

/// When each stored row was last active, in milliseconds.
pub open spec fn stored_lasts(rows: Seq<DwellRecordRow>, now_ms: i64) -> Seq<i64> {
    rows.map_values(|r: DwellRecordRow| stored_millis(r.last_active, now_ms))
}

/// Whether a row before row `k` has the window and process of row `k`.
pub open spec fn key_seen_before(rows: Seq<DwellRecordRow>, k: int) -> bool {
    exists|m: int| 0 <= m < k && rows[m].hwnd == rows[k].hwnd && #[trigger] rows[m].process_name@ == rows[k].process_name@
}

/// The records after loading rows `0..n` (row `k` last active at `lasts[k]`): the first row
/// of each window and process counts, the later ones of that key are passed over.
pub open spec fn load_records(start: Seq<RecordView>, rows: Seq<DwellRecordRow>, lasts: Seq<i64>, n: int) -> Seq<RecordView>
    decreases n,
{
    if n <= 0 {
        start
    } else if key_seen_before(rows, n - 1) {
        load_records(start, rows, lasts, n - 1)
    } else {
        insert_record(load_records(start, rows, lasts, n - 1), row_record(rows[n - 1], lasts[n - 1]))
    }
}

proof fn lemma_load_records_prefix(start: Seq<RecordView>, rows: Seq<DwellRecordRow>, a: Seq<i64>, b: Seq<i64>, n: int)
    requires
        0 <= n <= a.len(),
        n <= b.len(),
        forall|k: int| 0 <= k < n ==> a[k] == b[k],
    ensures
        load_records(start, rows, a, n) == load_records(start, rows, b, n),
    decreases n,
{
    if n > 0 {
        lemma_load_records_prefix(start, rows, a, b, n - 1);
    }
}

/// The entries after loading rows `0..n`.
pub open spec fn load_pairs(start: Seq<(Seq<char>, Seq<char>, u32)>, rows: Seq<CoOccurrenceRow>, n: int) -> Seq<(Seq<char>, Seq<char>, u32)>
    decreases n,
{
    if n <= 0 {
        start
    } else {
        insert_pair(load_pairs(start, rows, n - 1), (rows[n - 1].process1@, rows[n - 1].process2@, rows[n - 1].count as u32))
    }
}

proof fn lemma_record_index_is_key(recs: Seq<DwellRecord>, h: WindowHandle, name: Seq<char>, k: int)
    requires
        k == record_index(recs, h, name),
        0 <= k < recs.len(),
    ensures
        recs[k].hwnd == h && recs[k].process_name@ == name,
{
    lemma_record_index_found(recs, h, name, 0);
}

proof fn lemma_record_index_found(recs: Seq<DwellRecord>, h: WindowHandle, name: Seq<char>, k: int)
    requires
        0 <= k <= recs.len(),
    ensures
        record_index_from(recs, h, name, k) < recs.len() ==> recs[record_index_from(recs, h, name, k)].hwnd == h
            && recs[record_index_from(recs, h, name, k)].process_name@ == name,
        k <= record_index_from(recs, h, name, k) <= recs.len(),
    decreases recs.len() - k,
{
    if k < recs.len() {
        lemma_record_index_found(recs, h, name, k + 1);
    }
}

proof fn lemma_record_index_none(recs: Seq<DwellRecord>, h: WindowHandle, name: Seq<char>, c: int)
    requires
        record_index(recs, h, name) == recs.len(),
        0 <= c < recs.len(),
    ensures
        !(recs[c].hwnd == h && recs[c].process_name@ == name),
{
    lemma_record_index_skip(recs, h, name, 0, c);
}

proof fn lemma_record_index_skip(recs: Seq<DwellRecord>, h: WindowHandle, name: Seq<char>, k: int, c: int)
    requires
        0 <= k <= c < recs.len(),
        record_index_from(recs, h, name, k) == recs.len(),
    ensures
        !(recs[c].hwnd == h && recs[c].process_name@ == name),
    decreases c - k,
{
    if k < c {
        lemma_record_index_skip(recs, h, name, k + 1, c);
    }
}

proof fn lemma_combo_keeps_start(
    top: Seq<WindowHandle>,
    events: Seq<WindowFocusEvent>,
    recs: Seq<DwellRecord>,
    mouse: Seq<MouseActivityEvent>,
    settings: RecommendationSettings,
    start: ComboState,
    n: int,
)
    ensures
        combo_upto(top, events, recs, mouse, settings, start, n).0.len() >= start.0.len(),
        forall|k: int|
            0 <= k < start.0.len() ==> #[trigger] combo_upto(top, events, recs, mouse, settings, start, n).0[k]
                == start.0[k],
    decreases n,
{
    if n > 0 {
        lemma_combo_keeps_start(top, events, recs, mouse, settings, start, n - 1);
    }
}

/// Fills only while under `max_count`, so the list holds at most `max_count` windows.
proof fn lemma_fill_bounded(sw: Seq<Pick>, start: ComboState, max_count: usize, n: int)
    requires
        start.0.len() <= max_count,
    ensures
        fill_switchers(sw, start, max_count, n).0.len() <= max_count,
    decreases n,
{
    if n > 0 {
        lemma_fill_bounded(sw, start, max_count, n - 1);
    }
}

/// Fills only with windows not seen, and every window added is seen from then on.
proof fn lemma_fill_unseen(sw: Seq<Pick>, start: ComboState, max_count: usize, n: int)
    requires
        start.0.len() == 0,
    ensures
        forall|h: WindowHandle| start.1.contains(h) ==> #[trigger] fill_switchers(sw, start, max_count, n).1.contains(h),
        forall|k: int|
            0 <= k < fill_switchers(sw, start, max_count, n).0.len() ==> !start.1.contains(
                #[trigger] fill_switchers(sw, start, max_count, n).0[k].0,
            ) && fill_switchers(sw, start, max_count, n).1.contains(fill_switchers(sw, start, max_count, n).0[k].0),
    decreases n,
{
    if n > 0 {
        lemma_fill_unseen(sw, start, max_count, n - 1);
        let (picks, seen) = fill_switchers(sw, start, max_count, n - 1);
        let x = sw[n - 1];
        if !seen.contains(x.0) && picks.len() < max_count {
            let np = picks.push(x);
            let ns = seen.push(x.0);
            assert forall|h: WindowHandle| seen.contains(h) implies #[trigger] ns.contains(h) by {
                let q = choose|q: int| 0 <= q < seen.len() && seen[q] == h;
                assert(ns[q] == h);
            }
            assert(ns[seen.len() as int] == x.0);
            assert forall|k: int| 0 <= k < np.len() implies !start.1.contains(#[trigger] np[k].0) && ns.contains(np[k].0) by {
                if k < picks.len() {
                    assert(np[k] == picks[k]);
                } else {
                    assert(np[k] == x);
                }
            }
        }
    }
}

/// The recommendations always show the current window first: with room for at least one
/// window, the first list is the common combination, and it starts with the current window
/// and its dwell time.
pub proof fn law_current_window_first(
    events: Seq<WindowFocusEvent>,
    recs: Seq<DwellRecord>,
    settings: RecommendationSettings,
    current: WindowFocusEvent,
    max_count: usize,
    mouse: Seq<MouseActivityEvent>,
    top: Option<Seq<WindowHandle>>,
    sw: Seq<Pick>,
)
    requires
        max_count >= 1,
    ensures
        ({
            let lists = recommendation_lists(events, recs, settings, current, max_count, mouse, top, sw);
            &&& lists.len() >= 1
            &&& lists[0].1 == combo_label()
            &&& lists[0].0.len() >= 1
            &&& lists[0].0[0] == (current.hwnd, current.process_name@, dwell_secs_of(recs, current.hwnd, current.process_name@) as u64)
        }),
{
    let start = (
        seq![(current.hwnd, current.process_name@, dwell_secs_of(recs, current.hwnd, current.process_name@) as u64)],
        seq![current.hwnd],
    );
    match top {
        Some(t) => {
            lemma_combo_keeps_start(t, events, recs, mouse, settings, start, t.len() as int);
            assert(combo_upto(t, events, recs, mouse, settings, start, t.len() as int).0[0] == start.0[0]);
        },
        None => {},
    }
}

/// Whether a window of the common combination was admitted by its effective dwell time: it
/// carries that time, and the time reaches the minimum.
pub open spec fn admitted_by_dwell(
    p: Pick,
    recs: Seq<DwellRecord>,
    mouse: Seq<MouseActivityEvent>,
    settings: RecommendationSettings,
) -> bool {
    &&& p.2 as int == effective_dwell(recs, p.0, p.1, mouse, settings.common_combo_mouse_idle_threshold_secs)
    &&& p.2 >= settings.common_combo_min_dwell_secs
}

proof fn lemma_combo_admitted(
    top: Seq<WindowHandle>,
    events: Seq<WindowFocusEvent>,
    recs: Seq<DwellRecord>,
    mouse: Seq<MouseActivityEvent>,
    settings: RecommendationSettings,
    start: ComboState,
    n: int,
)
    ensures
        forall|k: int|
            start.0.len() <= k < combo_upto(top, events, recs, mouse, settings, start, n).0.len()
                ==> admitted_by_dwell(
                #[trigger] combo_upto(top, events, recs, mouse, settings, start, n).0[k],
                recs,
                mouse,
                settings,
            ) && !settings.ignore_list.deep_view().contains(combo_upto(top, events, recs, mouse, settings, start, n).0[k].1),
    decreases n,
{
    if n > 0 {
        lemma_combo_admitted(top, events, recs, mouse, settings, start, n - 1);
        let (picks, seen) = combo_upto(top, events, recs, mouse, settings, start, n - 1);
        let h = top[n - 1];
        let k = event_index_from(events, h, 0);
        if !(seen.contains(h) || k < 0 || settings.ignore_list.deep_view().contains(events[k].process_name@)) {
            let name = events[k].process_name@;
            let thr = settings.common_combo_mouse_idle_threshold_secs;
            let eff = effective_dwell(recs, h, name, mouse, thr);
            if eff >= settings.common_combo_min_dwell_secs {
                let ri = record_index(recs, h, name);
                if 0 <= ri < recs.len() {
                    assert(effective_secs(recs[ri], mouse, thr) <= recs[ri].dwell_secs);
                }
                assert(eff <= u64::MAX);
                let np = picks.push((h, name, eff as u64));
                assert forall|j: int| start.0.len() <= j < np.len() implies admitted_by_dwell(
                    #[trigger] np[j],
                    recs,
                    mouse,
                    settings,
                ) && !settings.ignore_list.deep_view().contains(np[j].1) by {
                    if j < picks.len() {
                        assert(np[j] == picks[j]);
                    }
                }
            }
        }
    }
}

/// The common combination admits windows by their effective dwell time, not their raw
/// dwell time: every window after the current one carries its dwell time less its mouse
/// idle time, and that time reaches the minimum dwell time of a common combination.
pub proof fn law_combo_by_effective_dwell(
    events: Seq<WindowFocusEvent>,
    recs: Seq<DwellRecord>,
    settings: RecommendationSettings,
    current: WindowFocusEvent,
    max_count: usize,
    mouse: Seq<MouseActivityEvent>,
    top: Option<Seq<WindowHandle>>,
    sw: Seq<Pick>,
)
    ensures
        ({
            let lists = recommendation_lists(events, recs, settings, current, max_count, mouse, top, sw);
            lists.len() >= 1 && lists[0].1 == combo_label() ==> forall|m: int|
                1 <= m < lists[0].0.len() ==> {
                    let p = #[trigger] lists[0].0[m];
                    &&& p.2 as int == effective_dwell(
                        recs,
                        p.0,
                        p.1,
                        mouse,
                        settings.common_combo_mouse_idle_threshold_secs,
                    )
                    &&& p.2 >= settings.common_combo_min_dwell_secs
                }
        }),
{
    let start = (
        seq![(current.hwnd, current.process_name@, dwell_secs_of(recs, current.hwnd, current.process_name@) as u64)],
        seq![current.hwnd],
    );
    let combo = match top {
        Some(t) => combo_upto(t, events, recs, mouse, settings, start, t.len() as int).0,
        None => start.0,
    };
    let common = combo.take(if combo.len() < max_count {
        combo.len() as int
    } else {
        max_count as int
    });
    let lists = recommendation_lists(events, recs, settings, current, max_count, mouse, top, sw);
    assert(combo_label() != switcher_label()) by {
        reveal_strlit("常用组合");
        reveal_strlit("频繁切换");
        assert(combo_label()[0] != switcher_label()[0]);
    }
    if lists.len() >= 1 && lists[0].1 == combo_label() {
        assert(common.len() > 0);
        assert(lists[0].0 == common);
        match top {
            Some(t) => {
                lemma_combo_admitted(t, events, recs, mouse, settings, start, t.len() as int);
            },
            None => {},
        }
        assert forall|m: int| 1 <= m < common.len() implies admitted_by_dwell(#[trigger] common[m], recs, mouse, settings) by {
            assert(common[m] == combo[m]);
        }
    }
}

/// Ignored processes never join the common combination: every window after the current one
/// is of a process that is not on the ignore list.
pub proof fn law_combo_skips_ignored(
    events: Seq<WindowFocusEvent>,
    recs: Seq<DwellRecord>,
    settings: RecommendationSettings,
    current: WindowFocusEvent,
    max_count: usize,
    mouse: Seq<MouseActivityEvent>,
    top: Option<Seq<WindowHandle>>,
    sw: Seq<Pick>,
)
    ensures
        ({
            let lists = recommendation_lists(events, recs, settings, current, max_count, mouse, top, sw);
            lists.len() >= 1 && lists[0].1 == combo_label() ==> forall|m: int|
                1 <= m < lists[0].0.len() ==> !settings.ignore_list.deep_view().contains((#[trigger] lists[0].0[m]).1)
        }),
{
    let start = (
        seq![(current.hwnd, current.process_name@, dwell_secs_of(recs, current.hwnd, current.process_name@) as u64)],
        seq![current.hwnd],
    );
    let combo = match top {
        Some(t) => combo_upto(t, events, recs, mouse, settings, start, t.len() as int).0,
        None => start.0,
    };
    let common = combo.take(if combo.len() < max_count {
        combo.len() as int
    } else {
        max_count as int
    });
    let lists = recommendation_lists(events, recs, settings, current, max_count, mouse, top, sw);
    assert(combo_label() != switcher_label()) by {
        reveal_strlit("常用组合");
        reveal_strlit("频繁切换");
        assert(combo_label()[0] != switcher_label()[0]);
    }
    if lists.len() >= 1 && lists[0].1 == combo_label() {
        assert(lists[0].0 == common);
        match top {
            Some(t) => {
                lemma_combo_admitted(t, events, recs, mouse, settings, start, t.len() as int);
            },
            None => {},
        }
        assert forall|m: int| 1 <= m < common.len() implies !settings.ignore_list.deep_view().contains(
            (#[trigger] common[m]).1,
        ) by {
            assert(common[m] == combo[m]);
        }
    }
}

/// Every recommendation list holds at most `max_count` windows.
pub proof fn law_lists_within_max(
    events: Seq<WindowFocusEvent>,
    recs: Seq<DwellRecord>,
    settings: RecommendationSettings,
    current: WindowFocusEvent,
    max_count: usize,
    mouse: Seq<MouseActivityEvent>,
    top: Option<Seq<WindowHandle>>,
    sw: Seq<Pick>,
)
    ensures
        forall|k: int|
            0 <= k < recommendation_lists(events, recs, settings, current, max_count, mouse, top, sw).len()
                ==> #[trigger] recommendation_lists(events, recs, settings, current, max_count, mouse, top, sw)[k].0.len()
                <= max_count,
{
    let start = (
        seq![(current.hwnd, current.process_name@, dwell_secs_of(recs, current.hwnd, current.process_name@) as u64)],
        seq![current.hwnd],
    );
    let combo = match top {
        Some(t) => combo_upto(t, events, recs, mouse, settings, start, t.len() as int).0,
        None => start.0,
    };
    let common = combo.take(if combo.len() < max_count {
        combo.len() as int
    } else {
        max_count as int
    });
    let seen = if common.len() > 0 {
        seq![current.hwnd] + common.map_values(|p: Pick| p.0)
    } else {
        seq![current.hwnd]
    };
    lemma_fill_bounded(sw, (seq![], seen), max_count, sw.len() as int);
}

/// The frequent-switcher list never shows the current window, nor a window of the
/// common-combination list.
pub proof fn law_switchers_not_repeated(
    events: Seq<WindowFocusEvent>,
    recs: Seq<DwellRecord>,
    settings: RecommendationSettings,
    current: WindowFocusEvent,
    max_count: usize,
    mouse: Seq<MouseActivityEvent>,
    top: Option<Seq<WindowHandle>>,
    sw: Seq<Pick>,
)
    ensures
        ({
            let lists = recommendation_lists(events, recs, settings, current, max_count, mouse, top, sw);
            let last = lists[lists.len() - 1];
            lists.len() >= 1 && last.1 == switcher_label() ==> forall|k: int|
                0 <= k < last.0.len() ==> (#[trigger] last.0[k]).0 != current.hwnd && (lists.len() == 2 ==> forall|m: int|
                    0 <= m < lists[0].0.len() ==> lists[0].0[m].0 != last.0[k].0)
        }),
{
    let start = (
        seq![(current.hwnd, current.process_name@, dwell_secs_of(recs, current.hwnd, current.process_name@) as u64)],
        seq![current.hwnd],
    );
    let combo = match top {
        Some(t) => combo_upto(t, events, recs, mouse, settings, start, t.len() as int).0,
        None => start.0,
    };
    let common = combo.take(if combo.len() < max_count {
        combo.len() as int
    } else {
        max_count as int
    });
    let seen = if common.len() > 0 {
        seq![current.hwnd] + common.map_values(|p: Pick| p.0)
    } else {
        seq![current.hwnd]
    };
    let st = (Seq::<Pick>::empty(), seen);
    lemma_fill_unseen(sw, st, max_count, sw.len() as int);
    let freq = fill_switchers(sw, st, max_count, sw.len() as int).0;
    let lists = recommendation_lists(events, recs, settings, current, max_count, mouse, top, sw);
    assert(seen[0] == current.hwnd);
    assert(combo_label() != switcher_label()) by {
        reveal_strlit("常用组合");
        reveal_strlit("频繁切换");
        assert(combo_label()[0] != switcher_label()[0]);
    }
    if lists.len() >= 1 && lists[lists.len() - 1].1 == switcher_label() {
        assert(lists[lists.len() - 1].0 == freq);
        assert forall|k: int| 0 <= k < freq.len() implies (#[trigger] freq[k]).0 != current.hwnd && (lists.len() == 2 ==> forall|m: int|
            0 <= m < lists[0].0.len() ==> lists[0].0[m].0 != freq[k].0) by {
            assert(!seen.contains(freq[k].0));
            if lists.len() == 2 {
                assert(lists[0].0 == common);
                assert forall|m: int| 0 <= m < common.len() implies common[m].0 != freq[k].0 by {
                    assert(seen[m + 1] == common[m].0);
                }
            }
        }
    }
}

/// Dropping the data of destroyed windows leaves no event of them, and dropping it again
/// changes nothing.
pub proof fn law_cleanup_removes_destroyed(events: Seq<WindowFocusEvent>, destroyed: Set<i64>)
    ensures
        forall|k: int|
            0 <= k < events.filter(event_kept(destroyed)).len() ==> !destroyed.contains(
                (#[trigger] events.filter(event_kept(destroyed))[k]).hwnd.0,
            ),
        events.filter(event_kept(destroyed)).filter(event_kept(destroyed)) == events.filter(event_kept(destroyed)),
{
    events.filter_lemma(event_kept(destroyed));
    let once = events.filter(event_kept(destroyed));
    assert forall|k: int| 0 <= k < once.len() implies event_kept(destroyed)(#[trigger] once[k]) by {
        events.lemma_filter_pred(event_kept(destroyed), k);
    }
    lemma_filter_keeps_all(once, event_kept(destroyed));
}

/// A window's effective dwell time never exceeds its dwell time.
pub proof fn law_effective_at_most_dwell(r: DwellRecord, mouse: Seq<MouseActivityEvent>, threshold: u64)
    ensures
        effective_secs(r, mouse, threshold) <= r.dwell_secs,
{
}

/// The group around the current window starts with the current window, holds at most 5
/// windows, and none twice.
pub proof fn law_main_group_shape(
    current: WindowFocusEvent,
    events: Seq<WindowFocusEvent>,
    apps: Seq<AppCount>,
    recent: Seq<Recent>,
    live: Seq<LiveWindow>,
)
    ensures
        ({
            let g = main_group(current, events, apps, recent, live);
            &&& g.len() >= 1 && g[0] == current.hwnd
            &&& g.len() <= 5
            &&& g.no_duplicates()
        }),
{
    let start = (seq![current.hwnd], Set::<Seq<char>>::empty().insert(current.process_name@));
    assert(start.0.no_duplicates());
    lemma_group_grows(start, apps, events, apps.len() as int);
    let s1 = add_co_apps(start, apps, events, apps.len() as int);
    lemma_recent_grows(s1, recent, live, recent.len() as int);
}

proof fn lemma_co_apps_len(start: GroupState, apps: Seq<AppCount>, events: Seq<WindowFocusEvent>, n: int)
    ensures
        add_co_apps(start, apps, events, n).0.len() >= start.0.len(),
        add_co_apps(start, apps, events, n).0.len() == start.0.len() ==> add_co_apps(start, apps, events, n) == start,
    decreases n,
{
    if n > 0 {
        lemma_co_apps_len(start, apps, events, n - 1);
    }
}

proof fn lemma_recent_len(start: GroupState, recent: Seq<Recent>, live: Seq<LiveWindow>, n: int)
    ensures
        add_recent(start, recent, live, n).0.len() >= start.0.len(),
        add_recent(start, recent, live, n).0.len() == start.0.len() ==> add_recent(start, recent, live, n) == start,
    decreases n,
{
    if n > 0 {
        lemma_recent_len(start, recent, live, n - 1);
    }
}

/// A co-occurring application that can join the group of `current`: another process than
/// the current one, with a latest event on another window.
pub open spec fn joins_by_co_occurrence(current: WindowFocusEvent, events: Seq<WindowFocusEvent>, app: Seq<char>) -> bool {
    let k = last_index_upto(events, app, events.len() as int);
    app != current.process_name@ && k >= 0 && events[k].hwnd != current.hwnd
}

/// A recently used window that can join the group of `current`: another window, of another
/// process, that still exists under that process.
pub open spec fn joins_by_recency(current: WindowFocusEvent, live: Seq<LiveWindow>, x: Recent) -> bool {
    x.1 != current.process_name@ && x.0 != current.hwnd && live_name(live, x.0.0) == Some(x.1)
}

proof fn lemma_co_apps_company(
    current: WindowFocusEvent,
    events: Seq<WindowFocusEvent>,
    apps: Seq<AppCount>,
    j: int,
    n: int,
)
    requires
        0 <= j < n <= apps.len(),
        joins_by_co_occurrence(current, events, apps[j].0),
    ensures
        add_co_apps(
            (seq![current.hwnd], Set::<Seq<char>>::empty().insert(current.process_name@)),
            apps,
            events,
            n,
        ).0.len() >= 2,
    decreases n,
{
    let start = (seq![current.hwnd], Set::<Seq<char>>::empty().insert(current.process_name@));
    if j < n - 1 {
        lemma_co_apps_company(current, events, apps, j, n - 1);
    } else {
        lemma_co_apps_len(start, apps, events, n - 1);
        let prev = add_co_apps(start, apps, events, n - 1);
        if prev.0.len() < 2 {
            assert(prev == start);
            let k = last_index_upto(events, apps[j].0, events.len() as int);
            assert(!start.0.contains(events[k].hwnd)) by {
                if start.0.contains(events[k].hwnd) {
                    assert(start.0[0] == current.hwnd);
                }
            }
        }
    }
    lemma_co_apps_len(start, apps, events, n);
}

proof fn lemma_recent_company(
    current: WindowFocusEvent,
    start: GroupState,
    recent: Seq<Recent>,
    live: Seq<LiveWindow>,
    j: int,
    n: int,
)
    requires
        start == (seq![current.hwnd], Set::<Seq<char>>::empty().insert(current.process_name@)),
        0 <= j < n <= recent.len(),
        joins_by_recency(current, live, recent[j]),
    ensures
        add_recent(start, recent, live, n).0.len() >= 2,
    decreases n,
{
    if j < n - 1 {
        lemma_recent_company(current, start, recent, live, j, n - 1);
        lemma_recent_len(add_recent(start, recent, live, n - 1), recent, live, 0);
    } else {
        lemma_recent_len(start, recent, live, n - 1);
        let prev = add_recent(start, recent, live, n - 1);
        if prev.0.len() < 2 {
            assert(prev == start);
            assert(!start.0.contains(recent[j].0)) by {
                if start.0.contains(recent[j].0) {
                    assert(start.0[0] == current.hwnd);
                }
            }
        }
    }
}

/// The group around the current window holds 2 to 5 windows whenever another window can
/// join it: a co-occurring application with a window of its own, or a recently used window
/// of another process that still exists. (With neither, it is the current window alone.)
pub proof fn law_main_group_has_company(
    current: WindowFocusEvent,
    events: Seq<WindowFocusEvent>,
    apps: Seq<AppCount>,
    recent: Seq<Recent>,
    live: Seq<LiveWindow>,
)
    requires
        (exists|j: int| 0 <= j < apps.len() && #[trigger] joins_by_co_occurrence(current, events, apps[j].0))
            || (exists|j: int| 0 <= j < recent.len() && #[trigger] joins_by_recency(current, live, recent[j])),
    ensures
        2 <= main_group(current, events, apps, recent, live).len() <= 5,
{
    law_main_group_shape(current, events, apps, recent, live);
    let start = (seq![current.hwnd], Set::<Seq<char>>::empty().insert(current.process_name@));
    let s1 = add_co_apps(start, apps, events, apps.len() as int);
    if exists|j: int| 0 <= j < apps.len() && #[trigger] joins_by_co_occurrence(current, events, apps[j].0) {
        let j = choose|j: int| 0 <= j < apps.len() && #[trigger] joins_by_co_occurrence(current, events, apps[j].0);
        lemma_co_apps_company(current, events, apps, j, apps.len() as int);
    } else if s1.0.len() < 2 {
        lemma_co_apps_len(start, apps, events, apps.len() as int);
        assert(s1 == start);
        let j = choose|j: int| 0 <= j < recent.len() && #[trigger] joins_by_recency(current, live, recent[j]);
        lemma_recent_company(current, start, recent, live, j, recent.len() as int);
    }
}

/// Whether window `h` is one of process `name`: an event shows `name` on `h`, or `h` belongs
/// to `name` now.
pub open spec fn window_of(events: Seq<WindowFocusEvent>, live: Seq<LiveWindow>, h: WindowHandle, name: Seq<char>) -> bool {
    (exists|k: int| 0 <= k < events.len() && (#[trigger] events[k]).hwnd == h && events[k].process_name@ == name)
        || live_name(live, h.0) == Some(name)
}

/// Whether window `h` is one of a process that is not ignored.
pub open spec fn unignored_window(
    events: Seq<WindowFocusEvent>,
    live: Seq<LiveWindow>,
    ignore: Seq<Seq<char>>,
    h: WindowHandle,
) -> bool {
    exists|name: Seq<char>| !ignore.contains(name) && #[trigger] window_of(events, live, h, name)
}

proof fn lemma_co_apps_not_ignored(co: Seq<CoOccurrence>, cur: Seq<char>, ignore: Seq<Seq<char>>, n: int)
    ensures
        forall|k: int|
            0 <= k < co_apps_upto(co, cur, ignore, n).len() ==> !ignore.contains(
                (#[trigger] co_apps_upto(co, cur, ignore, n)[k]).0,
            ),
    decreases n,
{
    if n > 0 {
        lemma_co_apps_not_ignored(co, cur, ignore, n - 1);
        let before = co_apps_upto(co, cur, ignore, n - 1);
        let after = co_apps_upto(co, cur, ignore, n);
        assert forall|k: int| 0 <= k < after.len() implies !ignore.contains((#[trigger] after[k]).0) by {
            if k < before.len() {
                assert(after[k] == before[k]);
            }
        }
    }
}

proof fn lemma_recent_not_ignored(recs: Seq<DwellRecord>, current: WindowHandle, ignore: Seq<Seq<char>>, n: int)
    ensures
        forall|k: int|
            0 <= k < recent_upto(recs, current, ignore, n).len() ==> !ignore.contains(
                (#[trigger] recent_upto(recs, current, ignore, n)[k]).1,
            ),
    decreases n,
{
    if n > 0 {
        lemma_recent_not_ignored(recs, current, ignore, n - 1);
        let before = recent_upto(recs, current, ignore, n - 1);
        let after = recent_upto(recs, current, ignore, n);
        assert forall|k: int| 0 <= k < after.len() implies !ignore.contains((#[trigger] after[k]).1) by {
            if k < before.len() {
                assert(after[k] == before[k]);
            }
        }
    }
}

proof fn lemma_last_index_of_app(events: Seq<WindowFocusEvent>, app: Seq<char>, n: int)
    requires
        0 <= n <= events.len(),
    ensures
        last_index_upto(events, app, n) < n,
        last_index_upto(events, app, n) >= 0 ==> events[last_index_upto(events, app, n)].process_name@ == app,
    decreases n,
{
    if n > 0 {
        lemma_last_index_of_app(events, app, n - 1);
    }
}

proof fn lemma_co_apps_unignored(
    start: GroupState,
    apps: Seq<AppCount>,
    events: Seq<WindowFocusEvent>,
    live: Seq<LiveWindow>,
    ignore: Seq<Seq<char>>,
    n: int,
)
    requires
        n <= apps.len(),
        forall|j: int| 0 <= j < apps.len() ==> !ignore.contains((#[trigger] apps[j]).0),
        forall|i: int| 1 <= i < start.0.len() ==> unignored_window(events, live, ignore, #[trigger] start.0[i]),
    ensures
        forall|i: int|
            1 <= i < add_co_apps(start, apps, events, n).0.len() ==> unignored_window(
                events,
                live,
                ignore,
                #[trigger] add_co_apps(start, apps, events, n).0[i],
            ),
    decreases n,
{
    if n > 0 {
        lemma_co_apps_unignored(start, apps, events, live, ignore, n - 1);
        let (w, added) = add_co_apps(start, apps, events, n - 1);
        let app = apps[n - 1].0;
        let k = last_index_upto(events, app, events.len() as int);
        if !(w.len() >= 5 || added.contains(app) || k < 0 || w.contains(events[k].hwnd)) {
            lemma_last_index_of_app(events, app, events.len() as int);
            let nw = w.push(events[k].hwnd);
            assert(!ignore.contains(apps[n - 1].0));
            assert(window_of(events, live, events[k].hwnd, app));
            assert forall|i: int| 1 <= i < nw.len() implies unignored_window(events, live, ignore, #[trigger] nw[i]) by {
                if i < w.len() {
                    assert(nw[i] == w[i]);
                }
            }
        }
    }
}

proof fn lemma_recent_unignored(
    start: GroupState,
    recent: Seq<Recent>,
    events: Seq<WindowFocusEvent>,
    live: Seq<LiveWindow>,
    ignore: Seq<Seq<char>>,
    n: int,
)
    requires
        n <= recent.len(),
        forall|j: int| 0 <= j < recent.len() ==> !ignore.contains((#[trigger] recent[j]).1),
        forall|i: int| 1 <= i < start.0.len() ==> unignored_window(events, live, ignore, #[trigger] start.0[i]),
    ensures
        forall|i: int|
            1 <= i < add_recent(start, recent, live, n).0.len() ==> unignored_window(
                events,
                live,
                ignore,
                #[trigger] add_recent(start, recent, live, n).0[i],
            ),
    decreases n,
{
    if n > 0 {
        lemma_recent_unignored(start, recent, events, live, ignore, n - 1);
        let (w, added) = add_recent(start, recent, live, n - 1);
        let x = recent[n - 1];
        if !(w.len() >= 5 || added.contains(x.1) || live_name(live, x.0.0) != Some(x.1) || w.contains(x.0)) {
            let nw = w.push(x.0);
            assert(!ignore.contains(recent[n - 1].1));
            assert(window_of(events, live, x.0, x.1));
            assert forall|i: int| 1 <= i < nw.len() implies unignored_window(events, live, ignore, #[trigger] nw[i]) by {
                if i < w.len() {
                    assert(nw[i] == w[i]);
                }
            }
        }
    }
}

/// Ignored processes never join the group around the current window: every other window of
/// the group is one of a process that is not on the ignore list (an event shows that process
/// on the window, or the window belongs to it now). `apps` and `recent` are the co-occurring
/// applications and the recently used windows as `generate_window_groups` orders them.
pub proof fn law_main_group_skips_ignored(
    current: WindowFocusEvent,
    events: Seq<WindowFocusEvent>,
    co: Seq<CoOccurrence>,
    recs: Seq<DwellRecord>,
    live: Seq<LiveWindow>,
    settings: RecommendationSettings,
    apps: Seq<AppCount>,
    recent: Seq<Recent>,
)
    requires
        stable_desc(
            apps,
            co_apps_upto(co, current.process_name@, settings.ignore_list.deep_view(), co.len() as int),
            count_key(),
        ),
        stable_desc(
            recent,
            recent_upto(recs, current.hwnd, settings.ignore_list.deep_view(), recs.len() as int),
            recency_key(),
        ),
    ensures
        forall|i: int|
            1 <= i < main_group(current, events, apps, recent, live).len() ==> unignored_window(
                events,
                live,
                settings.ignore_list.deep_view(),
                #[trigger] main_group(current, events, apps, recent, live)[i],
            ),
{
    let ignore = settings.ignore_list.deep_view();
    let cands = co_apps_upto(co, current.process_name@, ignore, co.len() as int);
    lemma_co_apps_not_ignored(co, current.process_name@, ignore, co.len() as int);
    assert forall|j: int| 0 <= j < apps.len() implies !ignore.contains((#[trigger] apps[j]).0) by {
        let x = apps[j];
        let pred = key_is(count_key(), count_key()(x));
        apps.lemma_filter_contains(pred, j);
        assert(apps.filter(pred) == cands.filter(pred));
        cands.lemma_filter_contains_rev(pred, x);
        let q = choose|q: int| 0 <= q < cands.len() && cands[q] == x;
        assert(!ignore.contains(cands[q].0));
    }
    let rc = recent_upto(recs, current.hwnd, ignore, recs.len() as int);
    lemma_recent_not_ignored(recs, current.hwnd, ignore, recs.len() as int);
    assert forall|j: int| 0 <= j < recent.len() implies !ignore.contains((#[trigger] recent[j]).1) by {
        let x = recent[j];
        let pred = key_is(recency_key(), recency_key()(x));
        recent.lemma_filter_contains(pred, j);
        assert(recent.filter(pred) == rc.filter(pred));
        rc.lemma_filter_contains_rev(pred, x);
        let q = choose|q: int| 0 <= q < rc.len() && rc[q] == x;
        assert(!ignore.contains(rc[q].1));
    }
    let start = (seq![current.hwnd], Set::<Seq<char>>::empty().insert(current.process_name@));
    lemma_co_apps_unignored(start, apps, events, live, ignore, apps.len() as int);
    let s1 = add_co_apps(start, apps, events, apps.len() as int);
    if s1.0.len() < 2 {
        lemma_recent_unignored(s1, recent, events, live, ignore, recent.len() as int);
    }
}

proof fn lemma_group_grows(start: GroupState, apps: Seq<AppCount>, events: Seq<WindowFocusEvent>, n: int)
    requires
        start.0.len() >= 1,
        start.0.len() <= 5,
        start.0.no_duplicates(),
    ensures
        ({
            let s = add_co_apps(start, apps, events, n);
            &&& s.0.len() >= 1 && s.0[0] == start.0[0]
            &&& s.0.len() <= 5
            &&& s.0.no_duplicates()
        }),
    decreases n,
{
    if n > 0 {
        lemma_group_grows(start, apps, events, n - 1);
        let (w, added) = add_co_apps(start, apps, events, n - 1);
        let app = apps[n - 1].0;
        let k = last_index_upto(events, app, events.len() as int);
        if !(w.len() >= 5 || added.contains(app) || k < 0 || w.contains(events[k].hwnd)) {
            let nw = w.push(events[k].hwnd);
            assert forall|a: int, b: int| 0 <= a < nw.len() && 0 <= b < nw.len() && a != b implies nw[a] != nw[b] by {
                if a == w.len() {
                    assert(nw[b] == w[b]);
                } else if b == w.len() {
                    assert(nw[a] == w[a]);
                } else {
                    assert(nw[a] == w[a] && nw[b] == w[b]);
                }
            }
        }
    }
}

proof fn lemma_recent_grows(start: GroupState, recent: Seq<Recent>, live: Seq<LiveWindow>, n: int)
    requires
        start.0.len() >= 1,
        start.0.len() <= 5,
        start.0.no_duplicates(),
    ensures
        ({
            let s = add_recent(start, recent, live, n);
            &&& s.0.len() >= 1 && s.0[0] == start.0[0]
            &&& s.0.len() <= 5
            &&& s.0.no_duplicates()
        }),
    decreases n,
{
    if n > 0 {
        lemma_recent_grows(start, recent, live, n - 1);
        let (w, added) = add_recent(start, recent, live, n - 1);
        let x = recent[n - 1];
        if !(w.len() >= 5 || added.contains(x.1) || live_name(live, x.0.0) != Some(x.1) || w.contains(x.0)) {
            let nw = w.push(x.0);
            assert forall|a: int, b: int| 0 <= a < nw.len() && 0 <= b < nw.len() && a != b implies nw[a] != nw[b] by {
                if a == w.len() {
                    assert(nw[b] == w[b]);
                } else if b == w.len() {
                    assert(nw[a] == w[a]);
                } else {
                    assert(nw[a] == w[a] && nw[b] == w[b]);
                }
            }
        }
    }
}

proof fn lemma_switchers_not_current(
    recs: Seq<DwellRecord>,
    current: WindowHandle,
    ignore: Seq<Seq<char>>,
    max_dwell: u64,
    min_switches: u32,
    n: int,
)
    requires
        0 <= n <= recs.len(),
    ensures
        forall|k: int|
            0 <= k < switchers_upto(recs, current, ignore, max_dwell, min_switches, n).0.len() ==> (
            #[trigger] switchers_upto(recs, current, ignore, max_dwell, min_switches, n).0[k]).0 != current,
    decreases n,
{
    if n > 0 {
        lemma_switchers_not_current(recs, current, ignore, max_dwell, min_switches, n - 1);
        let (picks, seen) = switchers_upto(recs, current, ignore, max_dwell, min_switches, n - 1);
        let r = recs[n - 1];
        let name = r.process_name@;
        if seen.contains(name) && has_pick_of(picks, name) {
            let p = pick_pos(picks, name);
            let base = picks.remove(p);
            assert forall|k: int| 0 <= k < base.len() implies (#[trigger] base[k]).0 != current by {
                if k < p {
                    assert(base[k] == picks[k]);
                } else {
                    assert(base[k] == picks[k + 1]);
                }
            }
            let after = base.push((r.hwnd, name, r.dwell_secs));
            assert forall|k: int| 0 <= k < after.len() implies (#[trigger] after[k]).0 != current || r.hwnd == current by {
                if k < base.len() {
                    assert(after[k] == base[k]);
                }
            }
        } else {
            let after = picks.push((r.hwnd, name, r.dwell_secs));
            assert forall|k: int| 0 <= k < after.len() implies (#[trigger] after[k]).0 != current || r.hwnd == current by {
                if k < picks.len() {
                    assert(after[k] == picks[k]);
                }
            }
        }
    }
}

proof fn lemma_switchers_not_ignored(
    recs: Seq<DwellRecord>,
    current: WindowHandle,
    ignore: Seq<Seq<char>>,
    max_dwell: u64,
    min_switches: u32,
    n: int,
)
    requires
        0 <= n <= recs.len(),
    ensures
        forall|k: int|
            0 <= k < switchers_upto(recs, current, ignore, max_dwell, min_switches, n).0.len() ==> !ignore.contains(
                (#[trigger] switchers_upto(recs, current, ignore, max_dwell, min_switches, n).0[k]).1,
            ),
    decreases n,
{
    if n > 0 {
        lemma_switchers_not_ignored(recs, current, ignore, max_dwell, min_switches, n - 1);
        let (picks, seen) = switchers_upto(recs, current, ignore, max_dwell, min_switches, n - 1);
        let r = recs[n - 1];
        let name = r.process_name@;
        if seen.contains(name) && has_pick_of(picks, name) {
            let p = pick_pos(picks, name);
            let base = picks.remove(p);
            assert forall|k: int| 0 <= k < base.len() implies !ignore.contains((#[trigger] base[k]).1) by {
                if k < p {
                    assert(base[k] == picks[k]);
                } else {
                    assert(base[k] == picks[k + 1]);
                }
            }
            let after = base.push((r.hwnd, name, r.dwell_secs));
            assert forall|k: int| 0 <= k < after.len() implies !ignore.contains((#[trigger] after[k]).1) || ignore.contains(
                name,
            ) by {
                if k < base.len() {
                    assert(after[k] == base[k]);
                }
            }
        } else {
            let after = picks.push((r.hwnd, name, r.dwell_secs));
            assert forall|k: int| 0 <= k < after.len() implies !ignore.contains((#[trigger] after[k]).1) || ignore.contains(
                name,
            ) by {
                if k < picks.len() {
                    assert(after[k] == picks[k]);
                }
            }
        }
    }
}

/// No process on the ignore list is ever recommended as a frequent switcher.
pub proof fn law_switchers_not_ignored(
    recs: Seq<DwellRecord>,
    settings: RecommendationSettings,
    current: WindowHandle,
    sw: Seq<Pick>,
)
    requires
        is_switcher_list(recs, settings, current, sw),
    ensures
        forall|k: int| 0 <= k < sw.len() ==> !settings.ignore_list.deep_view().contains((#[trigger] sw[k]).1),
{
    let cands = switchers_upto(
        recs,
        current,
        settings.ignore_list.deep_view(),
        settings.recent_max_dwell_secs,
        settings.recent_min_switch_count,
        recs.len() as int,
    ).0;
    let key = switch_key(recs);
    let sorted = choose|sorted: Seq<Pick>|
        stable_desc(sorted, cands, key) && sw == sorted.take(if sorted.len() < 4 {
            sorted.len() as int
        } else {
            4
        });
    lemma_switchers_not_ignored(
        recs,
        current,
        settings.ignore_list.deep_view(),
        settings.recent_max_dwell_secs,
        settings.recent_min_switch_count,
        recs.len() as int,
    );
    assert forall|k: int| 0 <= k < sw.len() implies !settings.ignore_list.deep_view().contains((#[trigger] sw[k]).1) by {
        let x = sorted[k];
        assert(sw[k] == x);
        let pred = key_is(key, key(x));
        sorted.lemma_filter_contains(pred, k);
        assert(sorted.filter(pred) == cands.filter(pred));
        cands.lemma_filter_contains_rev(pred, x);
        let j = choose|j: int| 0 <= j < cands.len() && cands[j] == x;
        assert(!settings.ignore_list.deep_view().contains(cands[j].1));
    }
}

/// The frequent-switcher list holds at most 4 windows, never the current one.
pub proof fn law_switcher_list_shape(
    recs: Seq<DwellRecord>,
    settings: RecommendationSettings,
    current: WindowHandle,
    sw: Seq<Pick>,
)
    requires
        is_switcher_list(recs, settings, current, sw),
    ensures
        sw.len() <= 4,
        forall|k: int| 0 <= k < sw.len() ==> (#[trigger] sw[k]).0 != current,
{
    let cands = switchers_upto(
        recs,
        current,
        settings.ignore_list.deep_view(),
        settings.recent_max_dwell_secs,
        settings.recent_min_switch_count,
        recs.len() as int,
    ).0;
    let key = switch_key(recs);
    let sorted = choose|sorted: Seq<Pick>|
        stable_desc(sorted, cands, key) && sw == sorted.take(if sorted.len() < 4 {
            sorted.len() as int
        } else {
            4
        });
    lemma_switchers_not_current(
        recs,
        current,
        settings.ignore_list.deep_view(),
        settings.recent_max_dwell_secs,
        settings.recent_min_switch_count,
        recs.len() as int,
    );
    assert forall|k: int| 0 <= k < sw.len() implies (#[trigger] sw[k]).0 != current by {
        let x = sorted[k];
        assert(sw[k] == x);
        let pred = key_is(key, key(x));
        sorted.lemma_filter_contains(pred, k);
        assert(sorted.filter(pred) == cands.filter(pred));
        cands.lemma_filter_contains_rev(pred, x);
        let j = choose|j: int| 0 <= j < cands.len() && cands[j] == x;
        assert(cands[j].0 != current);
    }
}

/// Whether pick `p` is what record `r` gives as a frequent switcher: its window, process
/// name and dwell time, switched to at least `min_switches` times, with a session shorter
/// than `max_dwell`.
pub open spec fn switcher_from(p: Pick, r: DwellRecord, max_dwell: u64, min_switches: u32) -> bool {
    &&& p == (r.hwnd, r.process_name@, r.dwell_secs)
    &&& r.switch_count >= min_switches
    &&& has_short_session(r.dwell_sessions@, max_dwell)
}

/// Whether some record gives pick `p` as a frequent switcher.
pub open spec fn switcher_of_records(p: Pick, recs: Seq<DwellRecord>, max_dwell: u64, min_switches: u32) -> bool {
    exists|j: int| 0 <= j < recs.len() && #[trigger] switcher_from(p, recs[j], max_dwell, min_switches)
}

proof fn lemma_switchers_from_records(
    recs: Seq<DwellRecord>,
    current: WindowHandle,
    ignore: Seq<Seq<char>>,
    max_dwell: u64,
    min_switches: u32,
    n: int,
)
    requires
        0 <= n <= recs.len(),
    ensures
        forall|k: int|
            0 <= k < switchers_upto(recs, current, ignore, max_dwell, min_switches, n).0.len()
                ==> switcher_of_records(
                #[trigger] switchers_upto(recs, current, ignore, max_dwell, min_switches, n).0[k],
                recs,
                max_dwell,
                min_switches,
            ),
    decreases n,
{
    if n > 0 {
        lemma_switchers_from_records(recs, current, ignore, max_dwell, min_switches, n - 1);
        let (picks, seen) = switchers_upto(recs, current, ignore, max_dwell, min_switches, n - 1);
        let r = recs[n - 1];
        let name = r.process_name@;
        let after = switchers_upto(recs, current, ignore, max_dwell, min_switches, n).0;
        if !(r.hwnd == current || ignore.contains(name) || r.switch_count < min_switches)
            && !(seen.contains(name) && !has_pick_of(picks, name))
            && !(seen.contains(name) && r.dwell_secs <= picks[pick_pos(picks, name)].2)
            && has_short_session(r.dwell_sessions@, max_dwell) {
            let base = if seen.contains(name) {
                picks.remove(pick_pos(picks, name))
            } else {
                picks
            };
            assert forall|k: int| 0 <= k < base.len() implies switcher_of_records(
                #[trigger] base[k],
                recs,
                max_dwell,
                min_switches,
            ) by {
                if seen.contains(name) {
                    let p = pick_pos(picks, name);
                    if k < p {
                        assert(base[k] == picks[k]);
                    } else {
                        assert(base[k] == picks[k + 1]);
                    }
                } else {
                    assert(base[k] == picks[k]);
                }
            }
            assert(switcher_from((r.hwnd, name, r.dwell_secs), recs[n - 1], max_dwell, min_switches));
            assert(after == base.push((r.hwnd, name, r.dwell_secs)));
            assert forall|k: int| 0 <= k < after.len() implies switcher_of_records(
                #[trigger] after[k],
                recs,
                max_dwell,
                min_switches,
            ) by {
                if k < base.len() {
                    assert(after[k] == base[k]);
                }
            }
        } else if !(r.hwnd == current || ignore.contains(name) || r.switch_count < min_switches)
            && !(seen.contains(name) && !has_pick_of(picks, name))
            && !(seen.contains(name) && r.dwell_secs <= picks[pick_pos(picks, name)].2) {
            let base = if seen.contains(name) {
                picks.remove(pick_pos(picks, name))
            } else {
                picks
            };
            assert(after == base);
            assert forall|k: int| 0 <= k < base.len() implies switcher_of_records(
                #[trigger] base[k],
                recs,
                max_dwell,
                min_switches,
            ) by {
                if seen.contains(name) {
                    let p = pick_pos(picks, name);
                    if k < p {
                        assert(base[k] == picks[k]);
                    } else {
                        assert(base[k] == picks[k + 1]);
                    }
                } else {
                    assert(base[k] == picks[k]);
                }
            }
        }
    }
}

/// Every frequent switcher is what a dwell record gives: that record's window, process name
/// and dwell time, switched to at least `recent_min_switch_count` times, with a session
/// shorter than `recent_max_dwell_secs`.
pub proof fn law_switchers_switched_often(
    recs: Seq<DwellRecord>,
    settings: RecommendationSettings,
    current: WindowHandle,
    sw: Seq<Pick>,
)
    requires
        is_switcher_list(recs, settings, current, sw),
    ensures
        forall|k: int|
            0 <= k < sw.len() ==> switcher_of_records(
                #[trigger] sw[k],
                recs,
                settings.recent_max_dwell_secs,
                settings.recent_min_switch_count,
            ),
{
    let cands = switchers_upto(
        recs,
        current,
        settings.ignore_list.deep_view(),
        settings.recent_max_dwell_secs,
        settings.recent_min_switch_count,
        recs.len() as int,
    ).0;
    let key = switch_key(recs);
    let sorted = choose|sorted: Seq<Pick>|
        stable_desc(sorted, cands, key) && sw == sorted.take(if sorted.len() < 4 {
            sorted.len() as int
        } else {
            4
        });
    lemma_switchers_from_records(
        recs,
        current,
        settings.ignore_list.deep_view(),
        settings.recent_max_dwell_secs,
        settings.recent_min_switch_count,
        recs.len() as int,
    );
    assert forall|k: int| 0 <= k < sw.len() implies switcher_of_records(
        #[trigger] sw[k],
        recs,
        settings.recent_max_dwell_secs,
        settings.recent_min_switch_count,
    ) by {
        let x = sorted[k];
        assert(sw[k] == x);
        let pred = key_is(key, key(x));
        sorted.lemma_filter_contains(pred, k);
        assert(sorted.filter(pred) == cands.filter(pred));
        cands.lemma_filter_contains_rev(pred, x);
        let j = choose|j: int| 0 <= j < cands.len() && cands[j] == x;
        assert(switcher_of_records(cands[j], recs, settings.recent_max_dwell_secs, settings.recent_min_switch_count));
    }
}

/// Whether the idle time that the mouse pauses give window `h` exceeds `limit`; when it
/// does not, that idle time.
fn window_idle_within(mouse: &Vec<MouseActivityEvent>, h: WindowHandle, threshold: u64, limit: u64) -> (r: Option<u64>)
    requires
        mouse@.len() >= 1,
    ensures
        r matches Some(v) ==> v == idle_secs(mouse@, h, threshold) && v <= limit,
        r is None ==> idle_secs(mouse@, h, threshold) > limit,
{
    let n = mouse.len() - 1;
    let mut total: u64 = 0;
    let mut i: usize = 0;
    while i < n
        invariant
            n == mouse@.len() - 1,
            i <= n,
            total == idle_secs_upto(mouse@, h, threshold, i as int),
            total <= limit,
        decreases n - i,
    {
        let gap = elapsed_secs(mouse[i].timestamp, mouse[i + 1].timestamp);
        if mouse[i].hwnd.0 == h.0 && gap >= threshold {
            if gap > limit - total {
                proof {
                    lemma_idle_mono(mouse@, h, threshold, i + 1, n as int);
                }
                return None;
            }
            total = total + gap;
        }
        i = i + 1;
    }
    Some(total)
}

/// Statistics over focus events, for recommending windows.
pub struct RecommendationEngine {
    /// The focus events, one per window.
    pub events: Vec<WindowFocusEvent>,
    /// One record per window and process name.
    pub dwell_records: Vec<DwellRecord>,
    /// One entry per pair of applications.
    pub co_occurrence: Vec<CoOccurrence>,
    pub settings: RecommendationSettings,
}

impl RecommendationEngine {
    /// An engine with no data and the default settings.
    pub fn new() -> (r: Self)
        ensures
            r.events@.len() == 0,
            r.dwell_records@.len() == 0,
            r.co_occurrence@.len() == 0,
            r.settings.list_count == 1,
            r.settings.max_windows_per_list == 5,
            r.settings.common_combo_min_dwell_secs == 600,
            r.settings.common_combo_mouse_idle_threshold_secs == 180,
            r.settings.recent_max_dwell_secs == 300,
            r.settings.recent_min_switch_count == 3,
            r.settings.ignore_list@.len() == 0,
            r.settings.api_key is None,
            r.settings.api_endpoint is None,
            r.settings.model_name is None,
    {
        RecommendationEngine {
            events: Vec::new(),
            dwell_records: Vec::new(),
            co_occurrence: Vec::new(),
            settings: RecommendationSettings::default(),
        }
    }

    /// Replaces the data with what the focus events give. An event counts only while its
    /// window still exists and belongs to a process of the event's name (`live` tells which
    /// windows exist now, and their process names); of each window only the latest event is
    /// kept. Dwell records and co-occurrence counts are then drawn from those events.
    pub fn update_from_events(&mut self, events: &Vec<WindowFocusEvent>, live: &Vec<LiveWindow>)
        requires
            events@.len() <= u32::MAX,
        ensures
            final(self).events@ == latest_upto(events@, live@, events@.len() as int),
            one_per_window(final(self).events@),
            final(self).settings == old(self).settings,
            final(self).events@.len() < 2 ==> final(self).dwell_records@.len() == 0
                && final(self).co_occurrence@.len() == 0,
            final(self).events@.len() >= 2 ==> co_occurrence_of(
                final(self).co_occurrence@,
                final(self).events@,
            ),
            final(self).events@.len() >= 2 ==> exists|s: Seq<WindowFocusEvent>|
                is_time_ordering_of(s, final(self).events@) && s.len() == final(self).events@.len()
                    && records_of(final(self).dwell_records@, stays_upto(s, s.len() as int)),
    {
        let kept = latest_valid_events(events, live);
        proof {
            lemma_latest_upto(events@, live@, events@.len() as int);
        }
        self.dwell_records = calculate_dwell_times(&kept);
        self.co_occurrence = build_co_occurrence(&kept);
        self.events = kept;
    }

    /// Drops the events and dwell records of windows that no longer exist (`destroyed`).
    pub fn cleanup_destroyed_events_internal(&mut self, destroyed: &HashSet<i64>)
        ensures
            final(self).events@ == old(self).events@.filter(event_kept(destroyed@)),
            final(self).dwell_records@ == old(self).dwell_records@.filter(record_kept(destroyed@)),
            final(self).co_occurrence == old(self).co_occurrence,
            final(self).settings == old(self).settings,
    {
        broadcast use vstd::std_specs::hash::group_hash_axioms;

        if destroyed.is_empty() {
            proof {
                lemma_filter_keeps_all(self.events@, event_kept(destroyed@));
                lemma_filter_keeps_all(self.dwell_records@, record_kept(destroyed@));
            }
            return;
        }
        self.events = events_without(&self.events, destroyed);
        let mut records: Vec<DwellRecord> = Vec::new();
        std::mem::swap(&mut records, &mut self.dwell_records);
        self.dwell_records = records_without(records, destroyed);
    }

    /// The effective dwell time of window `hwnd` of process `process_name`: its dwell time
    /// less the mouse idle time (pauses at least as long as the idle threshold, on that
    /// window), once per session that lasted longer than 0 seconds; 0 without a record.
    pub fn calculate_effective_dwell(
        &self,
        hwnd: &WindowHandle,
        process_name: &String,
        mouse_events: &Vec<MouseActivityEvent>,
    ) -> (r: u64)
        requires
            idle_fits(
                self.dwell_records@,
                mouse_events@,
                self.settings.common_combo_mouse_idle_threshold_secs,
            ),
        ensures
            r == effective_dwell(
                self.dwell_records@,
                *hwnd,
                process_name@,
                mouse_events@,
                self.settings.common_combo_mouse_idle_threshold_secs,
            ),
    {
        let k = match record_position(&self.dwell_records, *hwnd, process_name) {
            Some(k) => k,
            None => {
                return 0;
            },
        };
        let record = &self.dwell_records[k];
        if mouse_events.len() == 0 {
            return record.dwell_secs;
        }
        let threshold = self.settings.common_combo_mouse_idle_threshold_secs;
        proof {
            assert(idle_total(self.dwell_records@[k as int], mouse_events@, threshold) <= u64::MAX);
            lemma_busy_bound(record.dwell_sessions@, record.dwell_sessions@.len() as int);
        }
        let busy = count_busy(&record.dwell_sessions) as u64;
        let ghost idle = idle_total(*record, mouse_events@, threshold);
        let mut total_idle: u64 = 0;
        if busy > 0 {
            proof {
                lemma_mul_grows(busy as nat, idle_secs(mouse_events@, record.hwnd, threshold));
            }
            let per_session = window_idle_secs(mouse_events, record.hwnd, threshold);
            total_idle = busy * per_session;
        } else {
            let ghost b = busy_sessions(record.dwell_sessions@);
            let ghost s = idle_secs(mouse_events@, record.hwnd, threshold);
            assert(b * s == 0) by (nonlinear_arith)
                requires
                    b == 0,
            ;
        }
        assert(total_idle == idle);
        if record.dwell_secs > total_idle {
            record.dwell_secs - total_idle
        } else {
            0
        }
    }

    /// Frequent switchers: windows used in short sessions but switched to often. Records of
    /// other windows than the current one, of processes not ignored, switched to at least the
    /// minimum number of times and with a session shorter than the short-session limit are
    /// candidates, one per process name (a later record with a longer dwell time takes the
    /// place of an earlier one of its name); they come by switch count, highest first (a
    /// stable sort), and at most 4 are kept.
    pub fn generate_frequent_switcher_recommendations(&self, current_window: &WindowFocusEvent) -> (r: Vec<
        SingletonRecommendation,
    >)
        ensures
            is_switcher_list(self.dwell_records@, self.settings, current_window.hwnd, picks_of(r@)),
    {
        let recs = &self.dwell_records;
        let ignore = &self.settings.ignore_list;
        let max_dwell = self.settings.recent_max_dwell_secs;
        let min_switches = self.settings.recent_min_switch_count;
        let ghost spec_at = |n: int|
            switchers_upto(recs@, current_window.hwnd, ignore.deep_view(), max_dwell, min_switches, n);
        let mut cands: Vec<SingletonRecommendation> = Vec::new();
        let mut seen: Vec<String> = Vec::new();
        let mut i: usize = 0;
        while i < recs.len()
            invariant
                i <= recs@.len(),
                picks_of(cands@) == spec_at(i as int).0,
                forall|x: Seq<char>| #[trigger] seen.deep_view().contains(x) <==> spec_at(i as int).1.contains(x),
                spec_at == (|n: int|
                    switchers_upto(recs@, current_window.hwnd, ignore.deep_view(), max_dwell, min_switches, n)),
            decreases recs.len() - i,
        {
            let r = &recs[i];
            proof {
                lemma_switchers_distinct(recs@, current_window.hwnd, ignore.deep_view(), max_dwell, min_switches, i as int);
            }
            let ghost picks = spec_at(i as int).0;
            let ghost seen_set = spec_at(i as int).1;
            let ghost name = r.process_name@;
            if r.hwnd.0 == current_window.hwnd.0 || contains_word(ignore, &r.process_name)
                || r.switch_count < min_switches {
                i = i + 1;
                continue;
            }
            let mut replace_at: Option<usize> = None;
            if contains_word(&seen, &r.process_name) {
                match candidate_of(&cands, &r.process_name) {
                    Some(k) => {
                        proof {
                            assert(picks[k as int] == pick_of(cands@[k as int]));
                            assert(picks[k as int].1 == name);
                            assert(has_pick_of(picks, name));
                            let c = pick_pos(picks, name);
                            if c != k {
                                if c < k {
                                    assert(picks[c].1 != picks[k as int].1);
                                } else {
                                    assert(picks[k as int].1 != picks[c].1);
                                }
                            }
                        }
                        if r.dwell_secs <= cands[k].dwell_time_secs {
                            i = i + 1;
                            continue;
                        }
                        replace_at = Some(k);
                    },
                    None => {
                        i = i + 1;
                        continue;
                    },
                }
            }
            if let Some(k) = replace_at {
                let ghost before = cands@;
                cands.remove(k);
                proof {
                    assert(picks_of(cands@) =~= picks_of(before).remove(k as int));
                }
            }
            if short_session(&r.dwell_sessions, max_dwell) {
                let ghost before = cands@;
                let c = SingletonRecommendation {
                    hwnd: r.hwnd,
                    process_name: r.process_name.clone(),
                    dwell_time_secs: r.dwell_secs,
                };
                cands.push(c);
                proof {
                    assert(picks_of(cands@) =~= picks_of(before).push((r.hwnd, name, r.dwell_secs)));
                }
                let ghost old_seen = seen.deep_view();
                seen.push(r.process_name.clone());
                proof {
                    assert(seen.deep_view() =~= old_seen.push(name));
                    assert forall|x: Seq<char>| #[trigger] seen.deep_view().contains(x) <==> seen_set.insert(name).contains(x) by {
                        if seen.deep_view().contains(x) && x != name {
                            let q = choose|q: int| 0 <= q < seen.deep_view().len() && seen.deep_view()[q] == x;
                            assert(old_seen[q] == x);
                        }
                        if old_seen.contains(x) {
                            let q = choose|q: int| 0 <= q < old_seen.len() && old_seen[q] == x;
                            assert(seen.deep_view()[q] == x);
                        }
                        if x == name {
                            assert(seen.deep_view()[old_seen.len() as int] == x);
                        }
                    }
                }
            }
            i = i + 1;
        }
        let ghost all = spec_at(recs@.len() as int).0;
        let ghost key = switch_key(recs@);
        // stable insertion sort by switch count, highest first
        let mut sorted: Vec<SingletonRecommendation> = Vec::new();
        let mut keys: Vec<u32> = Vec::new();
        let mut j: usize = 0;
        proof {
            assert(all.take(0) =~= Seq::<Pick>::empty());
            assert(picks_of(sorted@) =~= Seq::<Pick>::empty());
        }
        while j < cands.len()
            invariant
                j <= cands@.len(),
                picks_of(cands@) == all,
                keys@.len() == sorted@.len(),
                forall|a: int| 0 <= a < keys@.len() ==> keys@[a] == key(#[trigger] picks_of(sorted@)[a]),
                stable_desc(picks_of(sorted@), all.take(j as int), key),
                key == switch_key(recs@),
            decreases cands.len() - j,
        {
            let c = &cands[j];
            let ghost x = pick_of(*c);
            assert(x == all[j as int]);
            let kx: u32 = match record_position(recs, c.hwnd, &c.process_name) {
                Some(k) => recs[k].switch_count,
                None => 0,
            };
            assert(kx == key(x));
            let mut p: usize = 0;
            while p < sorted.len() && keys[p] >= kx
                invariant
                    p <= sorted@.len(),
                    keys@.len() == sorted@.len(),
                    forall|a: int| 0 <= a < keys@.len() ==> keys@[a] == key(#[trigger] picks_of(sorted@)[a]),
                    forall|a: int| 0 <= a < p ==> key(#[trigger] picks_of(sorted@)[a]) >= kx,
                decreases sorted.len() - p,
            {
                p = p + 1;
            }
            let ghost old_s = picks_of(sorted@);
            let ghost old_keys = keys@;
            proof {
                lemma_insert_desc(old_s, all.take(j as int), x, p as int, key);
                assert(all.take(j + 1) =~= all.take(j as int).push(x));
            }
            sorted.insert(p, SingletonRecommendation {
                hwnd: c.hwnd,
                process_name: c.process_name.clone(),
                dwell_time_secs: c.dwell_time_secs,
            });
            keys.insert(p, kx);
            proof {
                assert(picks_of(sorted@) =~= old_s.insert(p as int, x));
                assert forall|a: int| 0 <= a < keys@.len() implies keys@[a] == key(#[trigger] picks_of(sorted@)[a]) by {
                    if a < p {
                        assert(keys@[a] == old_keys[a] && picks_of(sorted@)[a] == old_s[a]);
                    } else if a > p {
                        assert(keys@[a] == old_keys[a - 1] && picks_of(sorted@)[a] == old_s[a - 1]);
                    }
                }
            }
            j = j + 1;
        }
        assert(all.take(cands@.len() as int) =~= all);
        let ghost full = picks_of(sorted@);
        sorted.truncate(4);
        proof {
            assert(picks_of(sorted@) =~= full.take(if full.len() < 4 {
                full.len() as int
            } else {
                4
            }));
            assert(is_switcher_list(recs@, self.settings, current_window.hwnd, picks_of(sorted@)));
        }
        sorted
    }

    /// Window groups to recommend: first the group around the current window (it, then the
    /// windows of the applications that co-occur with it most, by count; when that gives no
    /// other window, recently used windows that still exist, latest first; at most 5, and the
    /// current window alone only when no other window can join, see
    /// `law_main_group_has_company`), with
    /// the counts of those applications; then, for every pair of applications, neither
    /// ignored, that co-occurred at least 3 times, the windows of their first events when
    /// they are 2 to 5, with the pair's count. `live` tells which windows exist now.
    pub fn generate_window_groups(&self, current_window: &WindowFocusEvent, live: &Vec<LiveWindow>) -> (r: Vec<
        GroupCandidate,
    >)
        ensures
            r@.len() >= 1,
            !r@[0].is_pair,
            exists|apps: Seq<AppCount>, recent: Seq<Recent>|
                stable_desc(
                    apps,
                    co_apps_upto(
                        self.co_occurrence@,
                        current_window.process_name@,
                        self.settings.ignore_list.deep_view(),
                        self.co_occurrence@.len() as int,
                    ),
                    count_key(),
                ) && stable_desc(
                    recent,
                    recent_upto(
                        self.dwell_records@,
                        current_window.hwnd,
                        self.settings.ignore_list.deep_view(),
                        self.dwell_records@.len() as int,
                    ),
                    recency_key(),
                ) && r@[0].windows@ == main_group(*current_window, self.events@, apps, recent, live@)
                    && r@[0].counts@ == apps.map_values(|x: AppCount| x.1),
            r@.len() - 1 == pair_groups_upto(
                self.co_occurrence@,
                self.events@,
                self.settings.ignore_list.deep_view(),
                self.co_occurrence@.len() as int,
            ).len(),
            forall|k: int|
                1 <= k < r@.len() ==> group_view(#[trigger] r@[k]) == ({
                    let g = pair_groups_upto(
                        self.co_occurrence@,
                        self.events@,
                        self.settings.ignore_list.deep_view(),
                        self.co_occurrence@.len() as int,
                    )[k - 1];
                    (g.0, seq![g.1], true)
                }),
    {
        let ignore = &self.settings.ignore_list;
        let events = &self.events;
        let apps = collect_co_apps(&self.co_occurrence, &current_window.process_name, ignore);
        let sorted = sort_by_count(&apps);
        let ghost sv = app_counts(sorted@);
        let mut windows: Vec<WindowHandle> = Vec::new();
        windows.push(current_window.hwnd);
        let mut added: Vec<String> = Vec::new();
        let ghost start = (seq![current_window.hwnd], Set::<Seq<char>>::empty().insert(current_window.process_name@));
        add_name(&mut added, &current_window.process_name, Ghost(Set::<Seq<char>>::empty()));
        proof {
            assert(windows@ =~= start.0);
        }
        let mut i: usize = 0;
        while i < sorted.len()
            invariant
                i <= sorted@.len(),
                sv == app_counts(sorted@),
                windows@ == add_co_apps(start, sv, events@, i as int).0,
                forall|x: Seq<char>| #[trigger] added.deep_view().contains(x) <==> add_co_apps(start, sv, events@, i as int).1.contains(x),
            decreases sorted.len() - i,
        {
            let app = &sorted[i].0;
            let ghost st = add_co_apps(start, sv, events@, i as int);
            assert(sv[i as int].0 == app@);
            if windows.len() < 5 && !contains_word(&added, app) {
                match last_window_of(events, app) {
                    Some(h) => {
                        if !has_handle(&windows, h) {
                            windows.push(h);
                            add_name(&mut added, app, Ghost(st.1));
                        }
                    },
                    None => {},
                }
            }
            i = i + 1;
        }
        let ghost s1 = add_co_apps(start, sv, events@, sv.len() as int);
        let mut counts: Vec<u32> = Vec::new();
        let mut c: usize = 0;
        while c < sorted.len()
            invariant
                c <= sorted@.len(),
                sv == app_counts(sorted@),
                counts@ == sv.take(c as int).map_values(|x: AppCount| x.1),
            decreases sorted.len() - c,
        {
            counts.push(sorted[c].1);
            assert(sv.take(c + 1) =~= sv.take(c as int).push(sv[c as int]));
            assert(counts@ =~= sv.take(c + 1).map_values(|x: AppCount| x.1));
            c = c + 1;
        }
        assert(sv.take(sv.len() as int) =~= sv);
        let recent = collect_recent(&self.dwell_records, current_window.hwnd, ignore);
        let by_time = sort_by_recency(&recent);
        let ghost rv = recents(by_time@);
        if windows.len() < 2 {
            let mut j: usize = 0;
            while j < by_time.len()
                invariant
                    j <= by_time@.len(),
                    rv == recents(by_time@),
                    windows@ == add_recent(s1, rv, live@, j as int).0,
                    forall|x: Seq<char>| #[trigger] added.deep_view().contains(x) <==> add_recent(s1, rv, live@, j as int).1.contains(x),
                decreases by_time.len() - j,
            {
                let x = &by_time[j];
                let ghost st = add_recent(s1, rv, live@, j as int);
                assert(rv[j as int] == (x.0, x.1@, x.2));
                if windows.len() < 5 && !contains_word(&added, &x.1) {
                    let valid = match live_entry(live, x.0.0) {
                        Some(k) => live[k].process_name == x.1,
                        None => false,
                    };
                    if valid && !has_handle(&windows, x.0) {
                        windows.push(x.0);
                        add_name(&mut added, &x.1, Ghost(st.1));
                    }
                }
                j = j + 1;
            }
        }
        assert(windows@ == main_group(*current_window, events@, sv, rv, live@));
        let mut groups: Vec<GroupCandidate> = Vec::new();
        groups.push(GroupCandidate { windows, counts, is_pair: false });
        let co = &self.co_occurrence;
        let ghost pg = |n: int| pair_groups_upto(co@, events@, ignore.deep_view(), n);
        let mut q: usize = 0;
        while q < co.len()
            invariant
                q <= co@.len(),
                groups@.len() >= 1,
                !groups@[0].is_pair,
                groups@[0].windows@ == main_group(*current_window, events@, sv, rv, live@),
                groups@[0].counts@ == sv.map_values(|x: AppCount| x.1),
                pg == (|n: int| pair_groups_upto(co@, events@, ignore.deep_view(), n)),
                groups@.len() - 1 == pg(q as int).len(),
                forall|k: int|
                    1 <= k < groups@.len() ==> group_view(#[trigger] groups@[k]) == ({
                        let g = pg(q as int)[k - 1];
                        (g.0, seq![g.1], true)
                    }),
            decreases co.len() - q,
        {
            let e = &co[q];
            let ghost before = groups@;
            if !contains_word(ignore, &e.first) && !contains_word(ignore, &e.second) && e.count >= 3 {
                let mut w: Vec<WindowHandle> = Vec::new();
                match first_window_of(events, &e.first) {
                    Some(h) => {
                        w.push(h);
                    },
                    None => {},
                }
                match first_window_of(events, &e.second) {
                    Some(h) => {
                        if !has_handle(&w, h) {
                            w.push(h);
                        }
                    },
                    None => {},
                }
                proof {
                    let ka = first_index_from(events@, e.first@, 0);
                    if ka >= 0 {
                        assert(w@.len() >= 1);
                    }
                }
                assert(w@ =~= pair_windows(events@, e.first@, e.second@));
                if 2 <= w.len() && w.len() <= 5 {
                    let mut cs: Vec<u32> = Vec::new();
                    cs.push(e.count);
                    assert(cs@ =~= seq![e.count]);
                    groups.push(GroupCandidate { windows: w, counts: cs, is_pair: true });
                }
            }
            proof {
                assert forall|k: int|
                    1 <= k < groups@.len() implies group_view(#[trigger] groups@[k]) == ({
                        let g = pg(q + 1)[k - 1];
                        (g.0, seq![g.1], true)
                    }) by {
                    if k < before.len() {
                        assert(groups@[k] == before[k]);
                    }
                }
            }
            q = q + 1;
        }
        groups
    }

    /// The recommendation lists for the current window, given the top-ranked window group
    /// (`top_group`, the windows of the best group that `generate_window_groups` offered, if
    /// any). Fails with `NoEvents` when there are no events; otherwise first drops the data
    /// of destroyed windows. The first list, the common combination, holds the current window
    /// with its dwell time, then each window of the top group that has an event, of a process
    /// not ignored, whose effective dwell time reaches the minimum, at most `max_count` in
    /// all. The second holds frequent switchers not in the first list nor the current window,
    /// at most `max_count`. Empty lists are left out.
    pub fn generate_recommendations(
        &mut self,
        current_window: &WindowFocusEvent,
        max_count: usize,
        mouse_events: &Vec<MouseActivityEvent>,
        destroyed_hwnds: &HashSet<i64>,
        top_group: Option<&Vec<WindowHandle>>,
    ) -> (r: Result<RecommendationResponse, RecommendationError>)
        requires
            idle_fits(
                old(self).dwell_records@,
                mouse_events@,
                old(self).settings.common_combo_mouse_idle_threshold_secs,
            ),
        ensures
            old(self).events@.len() == 0 ==> r == Err::<RecommendationResponse, RecommendationError>(
                RecommendationError::NoEvents,
            ) && *final(self) == *old(self),
            old(self).events@.len() > 0 ==> {
                &&& final(self).events@ == old(self).events@.filter(event_kept(destroyed_hwnds@))
                &&& final(self).dwell_records@ == old(self).dwell_records@.filter(
                    record_kept(destroyed_hwnds@),
                )
                &&& final(self).co_occurrence == old(self).co_occurrence
                &&& final(self).settings == old(self).settings
                &&& r matches Ok(resp) && exists|sw: Seq<Pick>|
                    is_switcher_list(final(self).dwell_records@, final(self).settings, current_window.hwnd, sw)
                        && response_view(resp) == recommendation_lists(
                        final(self).events@,
                        final(self).dwell_records@,
                        final(self).settings,
                        *current_window,
                        max_count,
                        mouse_events@,
                        match top_group {
                            Some(t) => Some(t@),
                            None => None,
                        },
                        sw,
                    )
            },
    {
        if self.events.len() == 0 {
            return Err(RecommendationError::NoEvents);
        }
        let ghost old_recs = self.dwell_records@;
        self.cleanup_destroyed_events_internal(destroyed_hwnds);
        let threshold = self.settings.common_combo_mouse_idle_threshold_secs;
        proof {
            assert forall|k: int| 0 <= k < self.dwell_records@.len() implies idle_total(
                #[trigger] self.dwell_records@[k],
                mouse_events@,
                threshold,
            ) <= u64::MAX by {
                let x = self.dwell_records@[k];
                assert(old_recs.filter(record_kept(destroyed_hwnds@)).contains(x));
                old_recs.lemma_filter_contains_rev(record_kept(destroyed_hwnds@), x);
                let j = choose|j: int| 0 <= j < old_recs.len() && old_recs[j] == x;
                assert(idle_total(old_recs[j], mouse_events@, threshold) <= u64::MAX);
            }
        }
        Ok(self.build_recommendations(current_window, max_count, mouse_events, top_group))
    }

    /// The recommendation lists for the current window, from the engine's data as it stands
    /// (destroyed windows already left out): the common combination, then the frequent
    /// switchers; see `recommendation_lists`.
    pub fn build_recommendations(
        &self,
        current_window: &WindowFocusEvent,
        max_count: usize,
        mouse_events: &Vec<MouseActivityEvent>,
        top_group: Option<&Vec<WindowHandle>>,
    ) -> (resp: RecommendationResponse)
        requires
            idle_fits(self.dwell_records@, mouse_events@, self.settings.common_combo_mouse_idle_threshold_secs),
        ensures
            exists|sw: Seq<Pick>|
                is_switcher_list(self.dwell_records@, self.settings, current_window.hwnd, sw) && response_view(resp)
                    == recommendation_lists(
                    self.events@,
                    self.dwell_records@,
                    self.settings,
                    *current_window,
                    max_count,
                    mouse_events@,
                    match top_group {
                        Some(t) => Some(t@),
                        None => None,
                    },
                    sw,
                ),
    {
        let threshold = self.settings.common_combo_mouse_idle_threshold_secs;
        let ghost events = self.events@;
        let ghost recs = self.dwell_records@;
        let ghost settings = self.settings;
        let ghost mouse = mouse_events@;
        let ghost top = match top_group {
            Some(t) => Some(t@),
            None => None,
        };
        // the common combination
        let dwell = match record_position(&self.dwell_records, current_window.hwnd, &current_window.process_name) {
            Some(k) => self.dwell_records[k].dwell_secs,
            None => 0,
        };
        let mut windows: Vec<RecommendationWindowInfo> = Vec::new();
        windows.push(RecommendationWindowInfo {
            hwnd: current_window.hwnd,
            process_name: current_window.process_name.clone(),
            dwell_time_secs: dwell,
        });
        let mut seen: Vec<WindowHandle> = Vec::new();
        seen.push(current_window.hwnd);
        let ghost start = (
            seq![(current_window.hwnd, current_window.process_name@, dwell_secs_of(recs, current_window.hwnd, current_window.process_name@) as u64)],
            seq![current_window.hwnd],
        );
        assert(window_picks(windows@) =~= start.0);
        assert(seen@ =~= start.1);
        match top_group {
            Some(group) => {
                let mut i: usize = 0;
                while i < group.len()
                    invariant
                        i <= group@.len(),
                        events == self.events@,
                        recs == self.dwell_records@,
                        settings == self.settings,
                        mouse == mouse_events@,
                        threshold == settings.common_combo_mouse_idle_threshold_secs,
                        idle_fits(recs, mouse, threshold),
                        window_picks(windows@) == combo_upto(group@, events, recs, mouse, settings, start, i as int).0,
                        seen@ == combo_upto(group@, events, recs, mouse, settings, start, i as int).1,
                    decreases group.len() - i,
                {
                    let h = group[i];
                    if !has_handle(&seen, h) {
                        match event_position(&self.events, h) {
                            Some(k) => {
                                let name = &self.events[k].process_name;
                                if !contains_word(&self.settings.ignore_list, name) {
                                    seen.push(h);
                                    let eff = self.calculate_effective_dwell(&h, name, mouse_events);
                                    if eff >= self.settings.common_combo_min_dwell_secs {
                                        let ghost before = window_picks(windows@);
                                        windows.push(RecommendationWindowInfo {
                                            hwnd: h,
                                            process_name: name.clone(),
                                            dwell_time_secs: eff,
                                        });
                                        assert(window_picks(windows@) =~= before.push((h, name@, eff)));
                                    }
                                }
                            },
                            None => {},
                        }
                    }
                    i = i + 1;
                }
            },
            None => {},
        }
        let ghost combo = window_picks(windows@);
        windows.truncate(max_count);
        let ghost common = window_picks(windows@);
        assert(common =~= combo.take(if combo.len() < max_count {
            combo.len() as int
        } else {
            max_count as int
        }));
        let mut groups: Vec<RecommendationGroupInfo> = Vec::new();
        let mut seen2: Vec<WindowHandle> = Vec::new();
        seen2.push(current_window.hwnd);
        if windows.len() > 0 {
            let mut c: usize = 0;
            while c < windows.len()
                invariant
                    c <= windows@.len(),
                    common == window_picks(windows@),
                    seen2@ == seq![current_window.hwnd] + common.take(c as int).map_values(|p: Pick| p.0),
                decreases windows.len() - c,
            {
                seen2.push(windows[c].hwnd);
                assert(common.take(c + 1) =~= common.take(c as int).push(common[c as int]));
                assert(seen2@ =~= seq![current_window.hwnd] + common.take(c + 1).map_values(|p: Pick| p.0));
                c = c + 1;
            }
            assert(common.take(common.len() as int) =~= common);
            groups.push(RecommendationGroupInfo { windows, label: "常用组合".to_owned() });
        } else {
            assert(seen2@ =~= seq![current_window.hwnd]);
        }
        let ghost first = groups@;
        // the frequent switchers
        let switchers = self.generate_frequent_switcher_recommendations(current_window);
        let ghost sw = picks_of(switchers@);
        let ghost seen_start = seen2@;
        let mut freq: Vec<RecommendationWindowInfo> = Vec::new();
        let mut s: usize = 0;
        assert(window_picks(freq@) =~= Seq::<Pick>::empty());
        while s < switchers.len()
            invariant
                s <= switchers@.len(),
                sw == picks_of(switchers@),
                window_picks(freq@) == fill_switchers(sw, (seq![], seen_start), max_count, s as int).0,
                seen2@ == fill_switchers(sw, (seq![], seen_start), max_count, s as int).1,
            decreases switchers.len() - s,
        {
            let x = &switchers[s];
            assert(sw[s as int] == pick_of(*x));
            if !has_handle(&seen2, x.hwnd) && freq.len() < max_count {
                seen2.push(x.hwnd);
                let ghost before = window_picks(freq@);
                freq.push(RecommendationWindowInfo {
                    hwnd: x.hwnd,
                    process_name: x.process_name.clone(),
                    dwell_time_secs: x.dwell_time_secs,
                });
                assert(window_picks(freq@) =~= before.push(pick_of(*x)));
            }
            s = s + 1;
        }
        if freq.len() > 0 {
            groups.push(RecommendationGroupInfo { windows: freq, label: "频繁切换".to_owned() });
        }
        let resp = RecommendationResponse { groups };
        proof {
            assert(response_view(resp) =~= recommendation_lists(events, recs, settings, *current_window, max_count, mouse, top, sw));
        }
        resp
    }

    /// Adds stored dwell records, each taking the place of the record of its window and
    /// process: counts converted as Rust's `as` does, no sessions, last active at the stored
    /// second, or at `now_ms` when that second is out of chrono's range. Rows come newest
    /// first: of several rows of one window and process, the first is kept.
    pub fn load_dwell_rows(&mut self, rows: &Vec<DwellRecordRow>, now_ms: i64)
        requires
            keys_distinct(records_view(old(self).dwell_records@)),
        ensures
            keys_distinct(records_view(final(self).dwell_records@)),
            records_view(final(self).dwell_records@) == load_records(
                records_view(old(self).dwell_records@),
                rows@,
                stored_lasts(rows@, now_ms),
                rows@.len() as int,
            ),
            final(self).events == old(self).events,
            final(self).co_occurrence == old(self).co_occurrence,
            final(self).settings == old(self).settings,
    {
        let ghost start = records_view(self.dwell_records@);
        let ghost mut lasts: Seq<i64> = seq![];
        let mut i: usize = 0;
        while i < rows.len()
            invariant
                i <= rows@.len(),
                lasts.len() == i,
                forall|k: int| 0 <= k < i ==> #[trigger] lasts[k] == stored_millis(rows@[k].last_active, now_ms),
                keys_distinct(records_view(self.dwell_records@)),
                records_view(self.dwell_records@) == load_records(start, rows@, lasts, i as int),
                self.events == old(self).events,
                self.co_occurrence == old(self).co_occurrence,
                self.settings == old(self).settings,
            decreases rows.len() - i,
        {
            let row = &rows[i];
            let last = match millis_from_secs(row.last_active) {
                Some(ms) => ms,
                None => now_ms,
            };
            let rec = DwellRecord {
                hwnd: WindowHandle(row.hwnd),
                process_name: row.process_name.clone(),
                dwell_secs: #[verifier::truncate] (row.dwell_secs as u64),
                last_active: last,
                switch_count: #[verifier::truncate] (row.switch_count as u32),
                dwell_sessions: Vec::new(),
            };
            let ghost before = records_view(self.dwell_records@);
            let ghost x = row_record(*row, last);
            assert((rec.hwnd, rec.process_name@, rec.dwell_secs, rec.last_active, rec.switch_count, rec.dwell_sessions@) == x);
            proof {
                assert(lasts.push(last).take(i as int) =~= lasts);
                lemma_load_records_prefix(start, rows@, lasts.push(last), lasts, i as int);
            }
            let mut m: usize = 0;
            while m < i && !(rows[m].hwnd == row.hwnd && rows[m].process_name == row.process_name)
                invariant
                    m <= i < rows@.len(),
                    row == rows@[i as int],
                    forall|q: int|
                        0 <= q < m ==> !(rows@[q].hwnd == rows@[i as int].hwnd && #[trigger] rows@[q].process_name@
                            == rows@[i as int].process_name@),
                decreases i - m,
            {
                m = m + 1;
            }
            if m < i {
                proof {
                    assert(rows@[m as int].process_name@ == rows@[i as int].process_name@);
                    assert(key_seen_before(rows@, i as int));
                    lasts = lasts.push(last);
                }
                i = i + 1;
                continue;
            }
            assert(!key_seen_before(rows@, i as int));
            match record_position(&self.dwell_records, rec.hwnd, &rec.process_name) {
                Some(k) => {
                    proof {
                        lemma_record_index_is_key(self.dwell_records@, rec.hwnd, rec.process_name@, k as int);
                        assert(before[k as int].0 == x.0 && before[k as int].1 == x.1);
                        let c = choose|c: int| 0 <= c < before.len() && #[trigger] before[c].0 == x.0 && before[c].1 == x.1;
                        if c != k {
                            if c < k {
                                assert(!(before[c].0 == before[k as int].0 && before[c].1 == before[k as int].1));
                            } else {
                                assert(!(before[k as int].0 == before[c].0 && before[k as int].1 == before[c].1));
                            }
                        }
                    }
                    self.dwell_records.set(k, rec);
                    assert(records_view(self.dwell_records@) =~= before.update(k as int, x));
                },
                None => {
                    proof {
                        assert(!(exists|c: int| 0 <= c < before.len() && #[trigger] before[c].0 == x.0 && before[c].1 == x.1)) by {
                            if exists|c: int| 0 <= c < before.len() && #[trigger] before[c].0 == x.0 && before[c].1 == x.1 {
                                let c = choose|c: int| 0 <= c < before.len() && #[trigger] before[c].0 == x.0 && before[c].1 == x.1;
                                lemma_record_index_none(self.dwell_records@, rec.hwnd, rec.process_name@, c);
                            }
                        }
                    }
                    self.dwell_records.push(rec);
                    assert(records_view(self.dwell_records@) =~= before.push(x));
                    proof {
                        let after = records_view(self.dwell_records@);
                        assert forall|a: int, b: int| 0 <= a < b < after.len() implies !(after[a].0 == after[b].0 && after[a].1 == after[b].1) by {
                            if b == before.len() {
                                assert(after[a] == before[a]);
                            } else {
                                assert(after[a] == before[a] && after[b] == before[b]);
                            }
                        }
                    }
                },
            }
            proof {
                lasts = lasts.push(last);
            }
            i = i + 1;
        }
        proof {
            lemma_load_records_prefix(start, rows@, lasts, stored_lasts(rows@, now_ms), rows@.len() as int);
        }
    }

    /// Adds stored co-occurrence counts, each taking the place of the entry of its pair; the
    /// count is converted as Rust's `as` does.
    pub fn load_co_occurrence_rows(&mut self, rows: &Vec<CoOccurrenceRow>)
        requires
            pairs_distinct(co_view(old(self).co_occurrence@)),
        ensures
            pairs_distinct(co_view(final(self).co_occurrence@)),
            co_view(final(self).co_occurrence@) == load_pairs(co_view(old(self).co_occurrence@), rows@, rows@.len() as int),
            final(self).events == old(self).events,
            final(self).dwell_records == old(self).dwell_records,
            final(self).settings == old(self).settings,
    {
        let ghost start = co_view(self.co_occurrence@);
        let mut i: usize = 0;
        while i < rows.len()
            invariant
                i <= rows@.len(),
                pairs_distinct(co_view(self.co_occurrence@)),
                co_view(self.co_occurrence@) == load_pairs(start, rows@, i as int),
                self.events == old(self).events,
                self.dwell_records == old(self).dwell_records,
                self.settings == old(self).settings,
            decreases rows.len() - i,
        {
            let row = &rows[i];
            let entry = CoOccurrence { first: row.process1.clone(), second: row.process2.clone(), count: #[verifier::truncate] (row.count as u32) };
            let ghost before = co_view(self.co_occurrence@);
            let ghost x = co_entry_view(entry);
            let mut q: usize = 0;
            while q < self.co_occurrence.len() && !(self.co_occurrence[q].first == entry.first && self.co_occurrence[q].second == entry.second)
                invariant
                    q <= self.co_occurrence@.len(),
                    before == co_view(self.co_occurrence@),
                    x == co_entry_view(entry),
                    forall|m: int| 0 <= m < q ==> !(before[m].0 == x.0 && before[m].1 == x.1),
                decreases self.co_occurrence.len() - q,
            {
                q = q + 1;
            }
            if q < self.co_occurrence.len() {
                proof {
                    assert(before[q as int].0 == x.0 && before[q as int].1 == x.1);
                    let c = choose|c: int| 0 <= c < before.len() && #[trigger] before[c].0 == x.0 && before[c].1 == x.1;
                    if c != q {
                        if c < q {
                            assert(!(before[c].0 == before[q as int].0 && before[c].1 == before[q as int].1));
                        } else {
                            assert(!(before[q as int].0 == before[c].0 && before[q as int].1 == before[c].1));
                        }
                    }
                }
                self.co_occurrence.set(q, entry);
                assert(co_view(self.co_occurrence@) =~= before.update(q as int, x));
            } else {
                self.co_occurrence.push(entry);
                assert(co_view(self.co_occurrence@) =~= before.push(x));
                proof {
                    let after = co_view(self.co_occurrence@);
                    assert forall|a: int, b: int| 0 <= a < b < after.len() implies !(after[a].0 == after[b].0 && after[a].1 == after[b].1) by {
                        if b == before.len() {
                            assert(after[a] == before[a]);
                        } else {
                            assert(after[a] == before[a] && after[b] == before[b]);
                        }
                    }
                }
            }
            i = i + 1;
        }
    }

    /// The dwell records as rows to store, saved at `now` (seconds since the Unix epoch).
    pub fn dwell_rows(&self, now: i64) -> (r: Vec<DwellRecordRow>)
        ensures
            rows_view(r@) == self.dwell_records@.map_values(|x: DwellRecord| record_row(x, now)),
    {
        let mut r: Vec<DwellRecordRow> = Vec::new();
        let mut i: usize = 0;
        while i < self.dwell_records.len()
            invariant
                i <= self.dwell_records@.len(),
                rows_view(r@) == self.dwell_records@.take(i as int).map_values(|x: DwellRecord| record_row(x, now)),
            decreases self.dwell_records.len() - i,
        {
            let x = &self.dwell_records[i];
            let ghost before = rows_view(r@);
            r.push(DwellRecordRow {
                id: 0,
                hwnd: x.hwnd.0,
                process_name: x.process_name.clone(),
                dwell_secs: #[verifier::truncate] (x.dwell_secs as i64),
                switch_count: #[verifier::truncate] (x.switch_count as i32),
                last_active: floor_secs(x.last_active),
                created_at: now,
            });
            assert(rows_view(r@) =~= before.push(record_row(*x, now)));
            assert(self.dwell_records@.take(i + 1) =~= self.dwell_records@.take(i as int).push(*x));
            i = i + 1;
        }
        assert(self.dwell_records@.take(self.dwell_records@.len() as int) =~= self.dwell_records@);
        r
    }

    /// The co-occurrence entries as rows to store: pair and count, the count converted as
    /// Rust's `as` does.
    pub fn co_occurrence_rows(&self) -> (r: Vec<(String, String, i32)>)
        ensures
            r@.len() == self.co_occurrence@.len(),
            forall|k: int|
                0 <= k < r@.len() ==> (#[trigger] r@[k]).0@ == self.co_occurrence@[k].first@ && r@[k].1@
                    == self.co_occurrence@[k].second@ && r@[k].2 == self.co_occurrence@[k].count as i32,
    {
        let mut r: Vec<(String, String, i32)> = Vec::new();
        let mut i: usize = 0;
        while i < self.co_occurrence.len()
            invariant
                i <= self.co_occurrence@.len(),
                r@.len() == i,
                forall|k: int|
                    0 <= k < i ==> (#[trigger] r@[k]).0@ == self.co_occurrence@[k].first@ && r@[k].1@
                        == self.co_occurrence@[k].second@ && r@[k].2 == self.co_occurrence@[k].count as i32,
            decreases self.co_occurrence.len() - i,
        {
            let e = &self.co_occurrence[i];
            r.push((e.first.clone(), e.second.clone(), #[verifier::truncate] (e.count as i32)));
            i = i + 1;
        }
        r
    }

    /// Whether the idle time of every record fits in 64 bits, as computing effective dwell
    /// times needs.
    pub fn idle_times_fit(&self, mouse_events: &Vec<MouseActivityEvent>) -> (r: bool)
        ensures
            r == idle_fits(self.dwell_records@, mouse_events@, self.settings.common_combo_mouse_idle_threshold_secs),
    {
        let threshold = self.settings.common_combo_mouse_idle_threshold_secs;
        let recs = &self.dwell_records;
        let mut k: usize = 0;
        while k < recs.len()
            invariant
                recs@ == self.dwell_records@,
                threshold == self.settings.common_combo_mouse_idle_threshold_secs,
                k <= recs@.len(),
                forall|q: int| 0 <= q < k ==> idle_total(#[trigger] recs@[q], mouse_events@, threshold) <= u64::MAX,
            decreases recs.len() - k,
        {
            let busy = count_busy(&recs[k].dwell_sessions) as u64;
            let ghost b = busy_sessions(recs@[k as int].dwell_sessions@);
            if busy > 0 && mouse_events.len() > 0 {
                let limit = u64::MAX / busy;
                match window_idle_within(mouse_events, recs[k].hwnd, threshold, limit) {
                    Some(v) => {
                        proof {
                            assert(b * v <= u64::MAX) by (nonlinear_arith)
                                requires
                                    v <= limit,
                                    limit as int == (u64::MAX as int) / (b as int),
                                    b >= 1,
                            ;
                        }
                    },
                    None => {
                        proof {
                            let s = idle_secs(mouse_events@, recs@[k as int].hwnd, threshold);
                            assert(b * s > u64::MAX) by (nonlinear_arith)
                                requires
                                    s > limit,
                                    limit as int == (u64::MAX as int) / (b as int),
                                    b >= 1,
                            ;
                            assert(idle_total(recs@[k as int], mouse_events@, threshold) > u64::MAX);
                        }
                        return false;
                    },
                }
            } else {
                proof {
                    let s = idle_secs(mouse_events@, recs@[k as int].hwnd, threshold);
                    if mouse_events@.len() == 0 {
                        assert(s == 0);
                    }
                    assert(b * s == 0) by (nonlinear_arith)
                        requires
                            b == 0 || s == 0,
                    ;
                }
            }
            k = k + 1;
        }
        true
    }

    /// Whether no two dwell records share a window and process, as loading rows needs.
    pub fn records_keys_distinct(&self) -> (r: bool)
        ensures
            r == keys_distinct(records_view(self.dwell_records@)),
    {
        let recs = &self.dwell_records;
        let ghost v = records_view(recs@);
        let mut b: usize = 0;
        while b < recs.len()
            invariant
                v == records_view(recs@),
                recs@ == self.dwell_records@,
                b <= recs@.len(),
                forall|x: int, y: int| 0 <= x < y < b ==> !(#[trigger] v[x].0 == #[trigger] v[y].0 && v[x].1 == v[y].1),
            decreases recs.len() - b,
        {
            let mut a: usize = 0;
            while a < b
                invariant
                    v == records_view(recs@),
                    recs@ == self.dwell_records@,
                    a <= b < recs@.len(),
                    forall|x: int| 0 <= x < a ==> !(#[trigger] v[x].0 == v[b as int].0 && v[x].1 == v[b as int].1),
                decreases b - a,
            {
                if recs[a].hwnd.0 == recs[b].hwnd.0 && recs[a].process_name == recs[b].process_name {
                    assert(v[a as int].0 == v[b as int].0 && v[a as int].1 == v[b as int].1);
                    return false;
                }
                a = a + 1;
            }
            b = b + 1;
        }
        true
    }

    /// Whether no two co-occurrence entries share a pair, as loading rows needs.
    pub fn pairs_are_distinct(&self) -> (r: bool)
        ensures
            r == pairs_distinct(co_view(self.co_occurrence@)),
    {
        let co = &self.co_occurrence;
        let ghost v = co_view(co@);
        let mut b: usize = 0;
        while b < co.len()
            invariant
                v == co_view(co@),
                co@ == self.co_occurrence@,
                b <= co@.len(),
                forall|x: int, y: int| 0 <= x < y < b ==> !(#[trigger] v[x].0 == #[trigger] v[y].0 && v[x].1 == v[y].1),
            decreases co.len() - b,
        {
            let mut a: usize = 0;
            while a < b
                invariant
                    v == co_view(co@),
                    co@ == self.co_occurrence@,
                    a <= b < co@.len(),
                    forall|x: int| 0 <= x < a ==> !(#[trigger] v[x].0 == v[b as int].0 && v[x].1 == v[b as int].1),
                decreases b - a,
            {
                if co[a].first == co[b].first && co[a].second == co[b].second {
                    assert(v[a as int].0 == v[b as int].0 && v[a as int].1 == v[b as int].1);
                    return false;
                }
                a = a + 1;
            }
            b = b + 1;
        }
        true
    }

    /// Replaces the settings.
    pub fn update_settings(&mut self, settings: RecommendationSettings)
        ensures
            final(self).settings == settings,
            final(self).events == old(self).events,
            final(self).dwell_records == old(self).dwell_records,
            final(self).co_occurrence == old(self).co_occurrence,
    {
        self.settings = settings;
    }

    /// The settings.
    pub fn get_settings(&self) -> (r: &RecommendationSettings)
        ensures
            *r == self.settings,
    {
        &self.settings
    }
}

} // verus!
