//! The local recommendation engine: dwell times, co-occurrence of applications, frequent
//! switchers and window groups, computed from focus events.
use vstd::prelude::*;
use vstd::string::StringExecFns;
use crate::errors::with_detail;
use crate::text::{chars_lt, is_word_set, lemma_chars_strict_total, str_equal, text_order};
use crate::words::insert_word;
use crate::types::{
    copy_event, MouseActivityEvent, RecommendationGroupInfo, RecommendationResponse,
    RecommendationSettings, RecommendationWindowInfo, SingletonRecommendation, WindowFocusEvent,
    WindowHandle,
};

verus! {

/// Why no recommendation could be made.
#[derive(Debug, Clone, PartialEq, Eq)]
pub enum RecommendationError {
    /// There are no focus events.
    NoEvents,
    /// There is too little data.
    InsufficientData,
    /// The store failed, with its message.
    DatabaseError(String),
}

impl RecommendationError {
    /// The message that describes the error.
    pub fn message(&self) -> (r: String)
        ensures
            r@ == match self {
                RecommendationError::NoEvents => "No events available"@,
                RecommendationError::InsufficientData => "Insufficient data for recommendation"@,
                RecommendationError::DatabaseError(m) => "Database error: "@ + m@,
            },
    {
        match self {
            RecommendationError::NoEvents => String::from_str("No events available"),
            RecommendationError::InsufficientData => String::from_str("Insufficient data for recommendation"),
            RecommendationError::DatabaseError(m) => with_detail("Database error: ", m),
        }
    }
}

/// How long a window was used: the stays that began on it, keyed by window and process name.
#[derive(Debug, Clone)]
pub struct DwellRecord {
    pub hwnd: WindowHandle,
    pub process_name: String,
    /// Total dwell time, in seconds.
    pub dwell_secs: u64,
    /// When the latest stay began, in milliseconds since the Unix epoch.
    pub last_active: i64,
    /// How many stays began on this window.
    pub switch_count: u32,
    /// The length of each stay, in seconds, in time order.
    pub dwell_sessions: Vec<u64>,
}

/// How many time windows two applications were both used in. `first` comes before `second`
/// in string order.
#[derive(Debug, Clone)]
pub struct CoOccurrence {
    pub first: String,
    pub second: String,
    pub count: u32,
}

/// Whole seconds from `a` to `b` (milliseconds), or 0 when `b` is not after `a`.
pub open spec fn secs_between(a: i64, b: i64) -> nat {
    if b - a > 0 {
        ((b - a) / 1000) as nat
    } else {
        0
    }
}

/// Whole seconds from `a` to `b` (milliseconds), or 0 when `b` is not after `a`.
pub fn elapsed_secs(a: i64, b: i64) -> (r: u64)
    ensures
        r == secs_between(a, b),
{
    if b > a {
        let d: i128 = (b as i128) - (a as i128);
        ((d / 1000) as u64)
    } else {
        0
    }
}

// ------------------------------------------------------------------
// Events in time order
// ------------------------------------------------------------------

/// The events of `s` that happened at time `t`, in order.
pub open spec fn at_time(s: Seq<WindowFocusEvent>, t: i64) -> Seq<WindowFocusEvent> {
    s.filter(|e: WindowFocusEvent| e.timestamp == t)
}

/// `s` is `events` sorted by time, events of the same time kept in their order (a stable sort).
pub open spec fn is_time_ordering_of(s: Seq<WindowFocusEvent>, events: Seq<WindowFocusEvent>) -> bool {
    &&& forall|i: int, j: int| 0 <= i < j < s.len() ==> s[i].timestamp <= s[j].timestamp
    &&& forall|t: i64| #[trigger] at_time(s, t) == at_time(events, t)
}

/// The events sorted by time; events of the same time keep their order.
fn sort_by_time(events: &Vec<WindowFocusEvent>) -> (r: Vec<WindowFocusEvent>)
    ensures
        is_time_ordering_of(r@, events@),
        r@.len() == events@.len(),
{
    broadcast use vstd::seq_lib::group_filter_ensures;

    let mut r: Vec<WindowFocusEvent> = Vec::new();
    let mut i: usize = 0;
    while i < events.len()
        invariant
            i <= events.len(),
            r@.len() == i,
            forall|a: int, b: int| 0 <= a < b < r@.len() ==> r@[a].timestamp <= r@[b].timestamp,
            forall|t: i64| #[trigger] at_time(r@, t) == at_time(events@.take(i as int), t),
        decreases events.len() - i,
    {
        let ts = events[i].timestamp;
        let mut p: usize = r.len();
        while p > 0 && r[p - 1].timestamp > ts
            invariant
                p <= r.len(),
                forall|a: int| p <= a < r@.len() ==> r@[a].timestamp > ts,
            decreases p,
        {
            p = p - 1;
        }
        let ghost old_r = r@;
        let ghost x = events@[i as int];
        r.insert(p, copy_event(&events[i]));
        proof {
            let nr = r@;
            assert(nr =~= old_r.insert(p as int, x));
            assert(nr =~= old_r.take(p as int) + seq![x] + old_r.skip(p as int));
            assert(old_r =~= old_r.take(p as int) + old_r.skip(p as int));
            assert(events@.take(i + 1) =~= events@.take(i as int).push(x));
            assert forall|a: int, b: int| 0 <= a < b < nr.len() implies nr[a].timestamp
                <= nr[b].timestamp by {
                if b < p {
                } else if b == p {
                    if p > 0 && a < p {
                        assert(old_r[a].timestamp <= old_r[p - 1].timestamp);
                    }
                } else if a < p {
                    assert(old_r[a].timestamp <= old_r[b - 1].timestamp);
                } else if a == p {
                } else {
                    assert(old_r[a - 1].timestamp <= old_r[b - 1].timestamp);
                }
            }
            assert forall|t: i64| #[trigger] at_time(nr, t) == at_time(events@.take(i + 1), t) by {
                let pred = |e: WindowFocusEvent| e.timestamp == t;
                let front = old_r.take(p as int);
                let back = old_r.skip(p as int);
                Seq::filter_distributes_over_add(front + seq![x], back, pred);
                Seq::filter_distributes_over_add(front, back, pred);
                Seq::filter_distributes_over_add(front, seq![x], pred);
                assert(front.push(x) =~= front + seq![x]);
                front.lemma_filter_push(x, pred);
                events@.take(i as int).lemma_filter_push(x, pred);
                assert(at_time(old_r, t) == at_time(events@.take(i as int), t));
                if pred(x) {
                    assert forall|q: int| 0 <= q < back.len() implies !pred(#[trigger] back[q]) by {
                        assert(old_r[p + q].timestamp > x.timestamp);
                    }
                    assert(back.all(|e: WindowFocusEvent| !pred(e)));
                    back.lemma_all_neg_filter_empty(pred);
                    assert(back.filter(pred) =~= Seq::<WindowFocusEvent>::empty());
                    assert(at_time(nr, t) =~= front.filter(pred).push(x));
                    assert(at_time(old_r, t) =~= front.filter(pred));
                } else {
                    assert(seq![x].filter(pred) =~= Seq::<WindowFocusEvent>::empty()) by {
                        Seq::<WindowFocusEvent>::empty().lemma_filter_push(x, pred);
                        assert(Seq::<WindowFocusEvent>::empty().push(x) =~= seq![x]);
                        assert(Seq::<WindowFocusEvent>::empty().filter(pred) =~= Seq::<
                            WindowFocusEvent,
                        >::empty()) by {
                            Seq::<WindowFocusEvent>::empty().lemma_filter_len(pred);
                        }
                    }
                    assert(at_time(nr, t) =~= front.filter(pred) + back.filter(pred));
                }
            }
        }
        i = i + 1;
    }
    assert(events@.take(events@.len() as int) =~= events@);
    r
}

// ------------------------------------------------------------------
// Dwell times
// ------------------------------------------------------------------

/// The first index from `j` on where the window is not `h` (or the end).
pub open spec fn run_end(s: Seq<WindowFocusEvent>, h: WindowHandle, j: int) -> int
    decreases s.len() - j,
{
    if j < 0 || j >= s.len() {
        s.len() as int
    } else if s[j].hwnd != h {
        j
    } else {
        run_end(s, h, j + 1)
    }
}

/// Whether event `i` begins a stay: the first event, or a different window than the one before.
pub open spec fn starts_stay(s: Seq<WindowFocusEvent>, i: int) -> bool {
    i == 0 || s[i].hwnd != s[i - 1].hwnd
}

/// A stay on a window: the window, its process name, when it began, and how long it lasted in
/// seconds.
pub type Stay = (WindowHandle, Seq<char>, i64, nat);

/// The stay that event `i` begins: it lasts until the next stay begins; the last stay lasts
/// until the event after its first, if there is one, else nothing.
pub open spec fn stay_at(s: Seq<WindowFocusEvent>, i: int) -> Stay {
    let j = run_end(s, s[i].hwnd, i + 1);
    let secs = if j < s.len() {
        secs_between(s[i].timestamp, s[j].timestamp)
    } else if i + 1 < s.len() {
        secs_between(s[i].timestamp, s[i + 1].timestamp)
    } else {
        0
    };
    (s[i].hwnd, s[i].process_name@, s[i].timestamp, secs)
}

/// The stays that begin among the first `n` events of a time-ordered sequence.
pub open spec fn stays_upto(s: Seq<WindowFocusEvent>, n: int) -> Seq<Stay>
    decreases n,
{
    if n <= 0 {
        seq![]
    } else if starts_stay(s, n - 1) {
        stays_upto(s, n - 1).push(stay_at(s, n - 1))
    } else {
        stays_upto(s, n - 1)
    }
}

/// Whether a stay is on window `h` of process `name`.
pub open spec fn stay_on(h: WindowHandle, name: Seq<char>) -> spec_fn(Stay) -> bool {
    |x: Stay| x.0 == h && x.1 == name
}

/// The stays on window `h` of process `name`, in order.
pub open spec fn stays_of(stays: Seq<Stay>, h: WindowHandle, name: Seq<char>) -> Seq<Stay> {
    stays.filter(stay_on(h, name))
}

/// The summed length of stays, in seconds.
pub open spec fn total_secs(stays: Seq<Stay>) -> nat
    decreases stays.len(),
{
    if stays.len() == 0 {
        0
    } else {
        total_secs(stays.drop_last()) + stays.last().3
    }
}

/// The latest beginning among stays (0 for none).
pub open spec fn latest_start(stays: Seq<Stay>) -> i64
    decreases stays.len(),
{
    if stays.len() == 0 {
        0
    } else if stays.len() == 1 {
        stays[0].2
    } else {
        let before = latest_start(stays.drop_last());
        if stays.last().2 > before {
            stays.last().2
        } else {
            before
        }
    }
}

/// The distinct (window, process name) keys of stays, in order of first appearance.
pub open spec fn stay_keys(stays: Seq<Stay>) -> Seq<(WindowHandle, Seq<char>)>
    decreases stays.len(),
{
    if stays.len() == 0 {
        seq![]
    } else {
        let before = stay_keys(stays.drop_last());
        let k = (stays.last().0, stays.last().1);
        if before.contains(k) {
            before
        } else {
            before.push(k)
        }
    }
}

/// A record sums up the stays of its window and process name.
pub open spec fn summarizes(r: DwellRecord, stays: Seq<Stay>) -> bool {
    let mine = stays_of(stays, r.hwnd, r.process_name@);
    &&& r.dwell_sessions@.len() == mine.len()
    &&& forall|k: int| 0 <= k < mine.len() ==> r.dwell_sessions@[k] == mine[k].3
    &&& r.dwell_secs == total_secs(mine)
    &&& r.switch_count == mine.len()
    &&& r.last_active == latest_start(mine)
}

/// The records sum up the stays: one per key, in order of first appearance.
pub open spec fn records_of(recs: Seq<DwellRecord>, stays: Seq<Stay>) -> bool {
    &&& recs.len() == stay_keys(stays).len()
    &&& forall|k: int|
        0 <= k < recs.len() ==> (#[trigger] recs[k].hwnd, recs[k].process_name@) == stay_keys(
            stays,
        )[k] && summarizes(recs[k], stays)
}

proof fn lemma_run_end(s: Seq<WindowFocusEvent>, h: WindowHandle, j: int)
    requires
        0 <= j <= s.len(),
    ensures
        j <= run_end(s, h, j) <= s.len(),
        forall|k: int| j <= k < run_end(s, h, j) ==> s[k].hwnd == h,
        run_end(s, h, j) < s.len() ==> s[run_end(s, h, j)].hwnd != h,
    decreases s.len() - j,
{
    if j < s.len() && s[j].hwnd == h {
        lemma_run_end(s, h, j + 1);
    }
}

/// Within a stay no new stay begins, so the stays up to its end are those before it and it.
proof fn lemma_stays_skip_run(s: Seq<WindowFocusEvent>, i: int, m: int)
    requires
        0 <= i < m <= run_end(s, s[i].hwnd, i + 1),
        starts_stay(s, i),
    ensures
        stays_upto(s, m) == stays_upto(s, i).push(stay_at(s, i)),
    decreases m - i,
{
    lemma_run_end(s, s[i].hwnd, i + 1);
    if m > i + 1 {
        lemma_stays_skip_run(s, i, m - 1);
        assert(s[m - 1].hwnd == s[i].hwnd);
        assert(s[m - 2].hwnd == s[i].hwnd);
    }
}

proof fn lemma_total_secs_push(stays: Seq<Stay>, x: Stay)
    ensures
        total_secs(stays.push(x)) == total_secs(stays) + x.3,
{
    assert(stays.push(x).drop_last() =~= stays);
}

/// A part of the stays lasts at most as long as all of them.
proof fn lemma_total_secs_filter(stays: Seq<Stay>, h: WindowHandle, name: Seq<char>)
    ensures
        total_secs(stays_of(stays, h, name)) <= total_secs(stays),
    decreases stays.len(),
{
    if stays.len() > 0 {
        let pred = stay_on(h, name);
        lemma_total_secs_filter(stays.drop_last(), h, name);
        assert(stays =~= stays.drop_last().push(stays.last()));
        stays.drop_last().lemma_filter_push(stays.last(), pred);
        lemma_total_secs_push(stays.drop_last().filter(pred), stays.last());
    }
}

proof fn lemma_latest_start_push(stays: Seq<Stay>, x: Stay)
    ensures
        latest_start(stays.push(x)) == if stays.len() == 0 {
            x.2
        } else if x.2 > latest_start(stays) {
            x.2
        } else {
            latest_start(stays)
        },
{
    assert(stays.push(x).drop_last() =~= stays);
}

/// Keys of stays: a key not yet seen has no stays.
proof fn lemma_stay_keys_absent(stays: Seq<Stay>, h: WindowHandle, name: Seq<char>)
    requires
        !stay_keys(stays).contains((h, name)),
    ensures
        stays_of(stays, h, name).len() == 0,
    decreases stays.len(),
{
    if stays.len() > 0 {
        let pred = stay_on(h, name);
        let before = stay_keys(stays.drop_last());
        if before.contains((h, name)) {
            let w = choose|w: int| 0 <= w < before.len() && before[w] == (h, name);
            let k = (stays.last().0, stays.last().1);
            if !before.contains(k) {
                assert(stay_keys(stays)[w] == (h, name));
            }
        }
        lemma_stay_keys_absent(stays.drop_last(), h, name);
        assert(stays =~= stays.drop_last().push(stays.last()));
        stays.drop_last().lemma_filter_push(stays.last(), pred);
        if pred(stays.last()) {
            let k = (stays.last().0, stays.last().1);
            assert(k == (h, name));
            if before.contains(k) {
            } else {
                assert(stay_keys(stays)[before.len() as int] == k);
            }
        }
    }
}

/// Keys of stays: a key seen has stays.
proof fn lemma_stay_keys_present(stays: Seq<Stay>, h: WindowHandle, name: Seq<char>)
    requires
        stay_keys(stays).contains((h, name)),
    ensures
        stays_of(stays, h, name).len() > 0,
    decreases stays.len(),
{
    let pred = stay_on(h, name);
    let before = stay_keys(stays.drop_last());
    assert(stays =~= stays.drop_last().push(stays.last()));
    stays.drop_last().lemma_filter_push(stays.last(), pred);
    if before.contains((h, name)) {
        lemma_stay_keys_present(stays.drop_last(), h, name);
    } else {
        let k = (stays.last().0, stays.last().1);
        let w = choose|w: int| 0 <= w < stay_keys(stays).len() && stay_keys(stays)[w] == (h, name);
        if k != (h, name) {
            assert(stay_keys(stays) == before);
        }
        assert(pred(stays.last()));
    }
}

/// Stay keys never repeat.
proof fn lemma_stay_keys_distinct(stays: Seq<Stay>)
    ensures
        forall|a: int, b: int|
            0 <= a < b < stay_keys(stays).len() ==> stay_keys(stays)[a] != stay_keys(stays)[b],
    decreases stays.len(),
{
    if stays.len() > 0 {
        lemma_stay_keys_distinct(stays.drop_last());
        let before = stay_keys(stays.drop_last());
        let k = (stays.last().0, stays.last().1);
        if !before.contains(k) {
            let ks = stay_keys(stays);
            assert forall|a: int, b: int| 0 <= a < b < ks.len() implies ks[a] != ks[b] by {
                if b == before.len() {
                    assert(ks[a] == before[a]);
                    if ks[a] == k {
                        assert(before.contains(k));
                    }
                }
            }
        }
    }
}

/// The index of the record for window `hwnd` of process `name`, if any.
fn find_record(recs: &Vec<DwellRecord>, hwnd: WindowHandle, name: &String) -> (r: Option<usize>)
    ensures
        r matches Some(i) ==> i < recs@.len() && recs@[i as int].hwnd == hwnd
            && recs@[i as int].process_name@ == name@,
        r is None ==> forall|i: int|
            0 <= i < recs@.len() ==> !(recs@[i].hwnd == hwnd && recs@[i].process_name@ == name@),
{
    let mut i: usize = 0;
    while i < recs.len()
        invariant
            i <= recs@.len(),
            forall|k: int|
                0 <= k < i ==> !(recs@[k].hwnd == hwnd && recs@[k].process_name@ == name@),
        decreases recs.len() - i,
    {
        if recs[i].hwnd.0 == hwnd.0 && recs[i].process_name == *name {
            return Some(i);
        }
        i = i + 1;
    }
    None
}

/// Dwell records from focus events: the events are put in time order (events of the same time
/// keep their order), each run of consecutive events on one window is a stay, and the stays
/// are summed up per window and process name. Fewer than two events give no records.
pub fn calculate_dwell_times(events: &Vec<WindowFocusEvent>) -> (recs: Vec<DwellRecord>)
    requires
        events@.len() <= u32::MAX,
    ensures
        events@.len() < 2 ==> recs@.len() == 0,
        events@.len() >= 2 ==> exists|s: Seq<WindowFocusEvent>|
            is_time_ordering_of(s, events@) && s.len() == events@.len() && records_of(
                recs@,
                stays_upto(s, s.len() as int),
            ),
{
    let mut recs: Vec<DwellRecord> = Vec::new();
    if events.len() < 2 {
        return recs;
    }
    let sorted = sort_by_time(events);
    let ghost s = sorted@;
    let n = sorted.len();
    let mut i: usize = 0;
    while i < n
        invariant
            n == sorted@.len(),
            s == sorted@,
            n >= 2,
            n <= u32::MAX,
            i <= n,
            i < n ==> starts_stay(s, i as int),
            forall|a: int, b: int| 0 <= a < b < s.len() ==> s[a].timestamp <= s[b].timestamp,
            records_of(recs@, stays_upto(s, i as int)),
            stays_upto(s, i as int).len() <= i,
            1000 * total_secs(stays_upto(s, i as int)) <= s[if i < n {
                i as int
            } else {
                n - 1
            }].timestamp - s[0].timestamp,
        decreases n - i,
    {
        let cur = &sorted[i];
        let mut j = i + 1;
        proof {
            lemma_run_end(s, s[i as int].hwnd, i + 1);
        }
        while j < n && sorted[j].hwnd.0 == cur.hwnd.0
            invariant
                n == sorted@.len(),
                s == sorted@,
                i < n,
                i + 1 <= j <= n,
                cur == s[i as int],
                run_end(s, s[i as int].hwnd, i + 1) == run_end(s, s[i as int].hwnd, j as int),
            decreases n - j,
        {
            j = j + 1;
        }
        proof {
            lemma_run_end(s, s[i as int].hwnd, j as int);
        }
        let mut dwell: u64 = 0;
        if j < n {
            dwell = elapsed_secs(cur.timestamp, sorted[j].timestamp);
        } else if i + 1 < n {
            dwell = elapsed_secs(cur.timestamp, sorted[i + 1].timestamp);
        }
        let ghost done = stays_upto(s, i as int);
        let ghost x = stay_at(s, i as int);
        assert(x.3 == dwell);
        proof {
            lemma_stays_skip_run(s, i as int, j as int);
            lemma_total_secs_push(done, x);
            if j < n {
                assert(s[i as int].timestamp <= s[j as int].timestamp);
            } else if i + 1 < n {
                assert(s[i as int].timestamp <= s[i + 1].timestamp);
                assert(s[i + 1].timestamp <= s[n - 1].timestamp);
            }
            lemma_stay_keys_distinct(done);
        }
        let ghost done2 = done.push(x);
        let found = find_record(&recs, cur.hwnd, &cur.process_name);
        let ghost old_recs = recs@;
        match found {
            Some(p) => {
                proof {
                    lemma_total_secs_filter(done, cur.hwnd, cur.process_name@);
                }
                let mut rec = recs.remove(p);
                assert(rec == old_recs[p as int]);
                rec.dwell_secs = rec.dwell_secs + dwell;
                if cur.timestamp > rec.last_active {
                    rec.last_active = cur.timestamp;
                }
                rec.hwnd = cur.hwnd;
                rec.switch_count = rec.switch_count + 1;
                rec.dwell_sessions.push(dwell);
                recs.insert(p, rec);
                proof {
                    assert(recs@ =~= old_recs.update(p as int, rec));
                    assert(stay_keys(done).contains((x.0, x.1))) by {
                        assert(stay_keys(done)[p as int] == (x.0, x.1));
                    }
                    assert(done2.drop_last() =~= done);
                    assert(stay_keys(done2) == stay_keys(done));
                    assert forall|k: int| 0 <= k < recs@.len() implies (
                        #[trigger] recs@[k].hwnd,
                        recs@[k].process_name@,
                    ) == stay_keys(done2)[k] && summarizes(recs@[k], done2) by {
                        let r = recs@[k];
                        let pred = stay_on(r.hwnd, r.process_name@);
                        done.lemma_filter_push(x, pred);
                        if k == p {
                            assert(stays_of(done2, r.hwnd, r.process_name@) == stays_of(
                                done,
                                r.hwnd,
                                r.process_name@,
                            ).push(x));
                            let mine = stays_of(done, r.hwnd, r.process_name@);
                            lemma_total_secs_push(mine, x);
                            lemma_latest_start_push(mine, x);
                            lemma_stay_keys_present(done, r.hwnd, r.process_name@);
                            let old = old_recs[p as int];
                            assert(old.hwnd == r.hwnd && old.process_name@ == r.process_name@);
                            assert(summarizes(old, done));
                            assert(r.dwell_sessions@ =~= old.dwell_sessions@.push(x.3 as u64));
                            let mine2 = stays_of(done2, r.hwnd, r.process_name@);
                            assert(mine2 == mine.push(x));
                            assert forall|q: int| 0 <= q < mine2.len() implies r.dwell_sessions@[q] == mine2[q].3 by {
                                if q < mine.len() {
                                    assert(r.dwell_sessions@[q] == old.dwell_sessions@[q]);
                                }
                            }
                            assert(r.dwell_secs == total_secs(mine2));
                            assert(r.switch_count == mine2.len());
                            assert(r.last_active == latest_start(mine2));
                        } else {
                            assert(old_recs[k] == r);
                            assert((r.hwnd, r.process_name@) != (x.0, x.1)) by {
                                assert(stay_keys(done)[k] != stay_keys(done)[p as int]);
                            }
                        }
                    }
                }
            },
            None => {
                proof {
                    assert(!stay_keys(done).contains((x.0, x.1))) by {
                        if stay_keys(done).contains((x.0, x.1)) {
                            let w = choose|w: int| 0 <= w < stay_keys(done).len() && stay_keys(done)[w] == (x.0, x.1);
                            assert((recs@[w].hwnd, recs@[w].process_name@) == stay_keys(done)[w]);
                        }
                    }
                    lemma_stay_keys_absent(done, x.0, x.1);
                }
                let mut sessions: Vec<u64> = Vec::new();
                sessions.push(dwell);
                let rec = DwellRecord {
                    hwnd: cur.hwnd,
                    process_name: cur.process_name.clone(),
                    dwell_secs: dwell,
                    last_active: cur.timestamp,
                    switch_count: 1,
                    dwell_sessions: sessions,
                };
                recs.push(rec);
                proof {
                    assert(recs@ =~= old_recs.push(rec));
                    assert(done2.drop_last() =~= done);
                    assert(stay_keys(done2) == stay_keys(done).push((x.0, x.1)));
                    assert forall|k: int| 0 <= k < recs@.len() implies (
                        #[trigger] recs@[k].hwnd,
                        recs@[k].process_name@,
                    ) == stay_keys(done2)[k] && summarizes(recs@[k], done2) by {
                        let r = recs@[k];
                        let pred = stay_on(r.hwnd, r.process_name@);
                        done.lemma_filter_push(x, pred);
                        if k == old_recs.len() {
                            let mine = stays_of(done, r.hwnd, r.process_name@);
                            assert(mine.len() == 0);
                            assert(mine =~= Seq::<Stay>::empty());
                            lemma_total_secs_push(mine, x);
                            lemma_latest_start_push(mine, x);
                            assert(stays_of(done2, r.hwnd, r.process_name@) =~= seq![x]);
                            assert(total_secs(Seq::<Stay>::empty()) == 0);
                        } else {
                            assert(old_recs[k] == r);
                            assert(stay_keys(done)[k] != (x.0, x.1)) by {
                                assert(stay_keys(done).contains(stay_keys(done)[k]));
                            }
                        }
                    }
                }
            },
        }
        i = j;
    }
    recs
}

// ------------------------------------------------------------------
// Co-occurrence
// ------------------------------------------------------------------

/// The length of a co-occurrence time window: 30 minutes, in milliseconds.
pub const CO_OCCURRENCE_WINDOW_MS: i64 = 1_800_000;

/// The end of the time window that event `i` opens, scanning from `j`: the first later event
/// more than 30 minutes after it (or the end). Events are taken in the order given.
pub open spec fn window_end(s: Seq<WindowFocusEvent>, i: int, j: int) -> int
    decreases s.len() - j,
{
    if j < 0 || j >= s.len() {
        s.len() as int
    } else if s[j].timestamp - s[i].timestamp > CO_OCCURRENCE_WINDOW_MS {
        j
    } else {
        window_end(s, i, j + 1)
    }
}

pub proof fn lemma_window_end(s: Seq<WindowFocusEvent>, i: int, j: int)
    requires
        0 <= j <= s.len(),
    ensures
        j <= window_end(s, i, j) <= s.len(),
        forall|k: int|
            j <= k < window_end(s, i, j) ==> s[k].timestamp - s[i].timestamp
                <= CO_OCCURRENCE_WINDOW_MS,
        window_end(s, i, j) < s.len() ==> s[window_end(s, i, j)].timestamp - s[i].timestamp
            > CO_OCCURRENCE_WINDOW_MS,
    decreases s.len() - j,
{
    if j < s.len() && s[j].timestamp - s[i].timestamp <= CO_OCCURRENCE_WINDOW_MS {
        lemma_window_end(s, i, j + 1);
    }
}

/// Whether an application occurs among events `i..j`.
pub open spec fn used_in(s: Seq<WindowFocusEvent>, i: int, j: int, app: Seq<char>) -> bool {
    exists|k: int| i <= k < j && #[trigger] s[k].process_name@ == app
}

/// In how many time windows, from the one opened by event `i` on, both `a` and `b` are used.
/// Each window opens at the first event after the previous one.
pub open spec fn pair_count_from(s: Seq<WindowFocusEvent>, i: int, a: Seq<char>, b: Seq<char>) -> nat
    decreases s.len() - i,
{
    if i < 0 || i >= s.len() {
        0
    } else {
        let j = window_end(s, i, i + 1);
        proof {
            lemma_window_end(s, i, i + 1);
        }
        (if used_in(s, i, j, a) && used_in(s, i, j, b) {
            1nat
        } else {
            0nat
        }) + pair_count_from(s, j, a, b)
    }
}

/// In how many time windows both `a` and `b` are used.
pub open spec fn co_count(s: Seq<WindowFocusEvent>, a: Seq<char>, b: Seq<char>) -> nat {
    pair_count_from(s, 0, a, b)
}

/// The count that the entries give the pair (`a`, `b`), 0 when it has none.
pub open spec fn co_lookup(co: Seq<CoOccurrence>, a: Seq<char>, b: Seq<char>) -> nat
    decreases co.len(),
{
    if co.len() == 0 {
        0
    } else if co.last().first@ == a && co.last().second@ == b {
        co.last().count as nat
    } else {
        co_lookup(co.drop_last(), a, b)
    }
}

/// The entries are distinct ordered pairs, each with a positive count.
pub open spec fn co_well_formed(co: Seq<CoOccurrence>) -> bool {
    &&& forall|k: int|
        0 <= k < co.len() ==> chars_lt((#[trigger] co[k]).first@, co[k].second@) && co[k].count >= 1
    &&& forall|k: int, m: int|
        0 <= k < m < co.len() ==> !(co[k].first@ == co[m].first@ && co[k].second@ == co[m].second@)
}

/// The entries hold exactly the co-occurrence counts of `s`: each pair of applications, in
/// string order, that share a time window, with the number of windows they share.
pub open spec fn co_occurrence_of(co: Seq<CoOccurrence>, s: Seq<WindowFocusEvent>) -> bool {
    &&& co_well_formed(co)
    &&& forall|a: Seq<char>, b: Seq<char>|
        chars_lt(a, b) ==> #[trigger] co_lookup(co, a, b) == co_count(s, a, b)
}

proof fn lemma_pair_count_bound(s: Seq<WindowFocusEvent>, i: int, a: Seq<char>, b: Seq<char>)
    requires
        0 <= i <= s.len(),
    ensures
        pair_count_from(s, i, a, b) <= s.len() - i,
    decreases s.len() - i,
{
    if i < s.len() {
        lemma_window_end(s, i, i + 1);
        lemma_pair_count_bound(s, window_end(s, i, i + 1), a, b);
    }
}

/// A well-formed entry list gives an entry's pair that entry's count.
proof fn lemma_co_lookup_at(co: Seq<CoOccurrence>, k: int)
    requires
        co_well_formed(co),
        0 <= k < co.len(),
    ensures
        co_lookup(co, co[k].first@, co[k].second@) == co[k].count,
    decreases co.len(),
{
    if k < co.len() - 1 {
        assert(!(co[k].first@ == co.last().first@ && co[k].second@ == co.last().second@));
        assert(co_well_formed(co.drop_last()));
        lemma_co_lookup_at(co.drop_last(), k);
    }
}

/// Pairs without an entry count 0.
proof fn lemma_co_lookup_absent(co: Seq<CoOccurrence>, a: Seq<char>, b: Seq<char>)
    requires
        forall|k: int| 0 <= k < co.len() ==> !(co[k].first@ == a && co[k].second@ == b),
    ensures
        co_lookup(co, a, b) == 0,
    decreases co.len(),
{
    if co.len() > 0 {
        lemma_co_lookup_absent(co.drop_last(), a, b);
    }
}

/// Changing one entry's count changes only that pair's lookup.
proof fn lemma_co_lookup_update(co: Seq<CoOccurrence>, k: int, e: CoOccurrence, a: Seq<char>, b: Seq<char>)
    requires
        co_well_formed(co),
        0 <= k < co.len(),
        e.first@ == co[k].first@,
        e.second@ == co[k].second@,
        e.count >= 1,
    ensures
        co_well_formed(co.update(k, e)),
        co_lookup(co.update(k, e), a, b) == if a == e.first@ && b == e.second@ {
            e.count as nat
        } else {
            co_lookup(co, a, b)
        },
    decreases co.len(),
{
    let nc = co.update(k, e);
    if a == e.first@ && b == e.second@ {
        lemma_co_lookup_at(nc, k);
    } else if k == co.len() - 1 {
        assert(nc.drop_last() =~= co.drop_last());
    } else {
        assert(nc.drop_last() =~= co.drop_last().update(k, e));
        assert(co_well_formed(co.drop_last()));
        lemma_co_lookup_update(co.drop_last(), k, e, a, b);
    }
}

/// The index of the entry for the pair (`a`, `b`), if any.
fn find_pair(co: &Vec<CoOccurrence>, a: &String, b: &String) -> (r: Option<usize>)
    ensures
        r matches Some(k) ==> k < co@.len() && co@[k as int].first@ == a@ && co@[k as int].second@
            == b@,
        r is None ==> forall|k: int|
            0 <= k < co@.len() ==> !(co@[k].first@ == a@ && co@[k].second@ == b@),
{
    let mut k: usize = 0;
    while k < co.len()
        invariant
            k <= co@.len(),
            forall|m: int| 0 <= m < k ==> !(co@[m].first@ == a@ && co@[m].second@ == b@),
        decreases co.len() - k,
    {
        if co[k].first == *a && co[k].second == *b {
            return Some(k);
        }
        k = k + 1;
    }
    None
}

/// Adds one to the count of the pair (`a`, `b`), adding the pair if it is new.
fn bump_pair(co: &mut Vec<CoOccurrence>, a: &String, b: &String)
    requires
        co_well_formed(old(co)@),
        chars_lt(a@, b@),
        co_lookup(old(co)@, a@, b@) < u32::MAX,
    ensures
        co_well_formed(final(co)@),
        forall|x: Seq<char>, y: Seq<char>| #[trigger]
            co_lookup(final(co)@, x, y) == if x == a@ && y == b@ {
                co_lookup(old(co)@, x, y) + 1
            } else {
                co_lookup(old(co)@, x, y)
            },
{
    let ghost old_co = co@;
    match find_pair(co, a, b) {
        Some(k) => {
            proof {
                lemma_co_lookup_at(old_co, k as int);
            }
            let e = CoOccurrence {
                first: co[k].first.clone(),
                second: co[k].second.clone(),
                count: co[k].count + 1,
            };
            let ghost ge = e;
            co.set(k, e);
            proof {
                assert(co@ =~= old_co.update(k as int, ge));
                assert forall|x: Seq<char>, y: Seq<char>| #[trigger]
                    co_lookup(co@, x, y) == if x == a@ && y == b@ {
                        co_lookup(old_co, x, y) + 1
                    } else {
                        co_lookup(old_co, x, y)
                    } by {
                    lemma_co_lookup_update(old_co, k as int, ge, x, y);
                }
                lemma_co_lookup_update(old_co, k as int, ge, a@, b@);
            }
        },
        None => {
            proof {
                lemma_co_lookup_absent(old_co, a@, b@);
            }
            let e = CoOccurrence { first: a.clone(), second: b.clone(), count: 1 };
            co.push(e);
            proof {
                let nc = co@;
                assert(nc.drop_last() =~= old_co);
                assert forall|k: int| 0 <= k < nc.len() implies chars_lt((#[trigger] nc[k]).first@, nc[k].second@)
                    && nc[k].count >= 1 by {
                    if k < old_co.len() {
                        assert(nc[k] == old_co[k]);
                    }
                }
                assert forall|k: int, m: int| 0 <= k < m < nc.len() implies !(nc[k].first@ == nc[m].first@
                    && nc[k].second@ == nc[m].second@) by {
                    assert(nc[k] == old_co[k]);
                    if m < old_co.len() {
                        assert(nc[m] == old_co[m]);
                    }
                }
            }
        },
    }
}

/// Co-occurrence counts from focus events, taken in the order given: the first event opens a
/// 30-minute time window holding it and the events right after it up to the first one more
/// than 30 minutes later, which opens the next window; every two applications used in one
/// window count once for it. Fewer than two events give no counts.
pub fn build_co_occurrence(events: &Vec<WindowFocusEvent>) -> (co: Vec<CoOccurrence>)
    requires
        events@.len() <= u32::MAX,
    ensures
        events@.len() < 2 ==> co@.len() == 0,
        events@.len() >= 2 ==> co_occurrence_of(co@, events@),
{
    let mut co: Vec<CoOccurrence> = Vec::new();
    if events.len() < 2 {
        return co;
    }
    let ghost s = events@;
    let n = events.len();
    let mut i: usize = 0;
    while i < n
        invariant
            n == events@.len(),
            s == events@,
            n <= u32::MAX,
            i <= n,
            co_well_formed(co@),
            forall|a: Seq<char>, b: Seq<char>|
                chars_lt(a, b) ==> #[trigger] co_lookup(co@, a, b) + pair_count_from(s, i as int, a, b)
                    == co_count(s, a, b),
        decreases n - i,
    {
        let cur = &events[i];
        // the applications of this time window, in string order
        let mut apps: Vec<String> = Vec::new();
        insert_word(&mut apps, cur.process_name.clone());
        let mut j = i + 1;
        proof {
            lemma_window_end(s, i as int, i + 1);
        }
        while j < n
            invariant
                n == events@.len(),
                s == events@,
                i < n,
                i + 1 <= j <= n,
                cur == s[i as int],
                window_end(s, i as int, i + 1) == window_end(s, i as int, j as int),
                is_word_set(apps.deep_view()),
                forall|x: Seq<char>| #[trigger] apps.deep_view().contains(x) <==> used_in(s, i as int, j as int, x),
            ensures
                j == window_end(s, i as int, i + 1),
            decreases n - j,
        {
            let diff: i128 = (events[j].timestamp as i128) - (cur.timestamp as i128);
            if diff > CO_OCCURRENCE_WINDOW_MS as i128 {
                assert(window_end(s, i as int, j as int) == j);
                break;
            }
            let ghost old_apps = apps.deep_view();
            if events[j].process_name != cur.process_name {
                insert_word(&mut apps, events[j].process_name.clone());
            }
            proof {
                assert forall|x: Seq<char>| #[trigger] apps.deep_view().contains(x) <==> used_in(s, i as int, j + 1, x) by {
                    if used_in(s, i as int, j + 1, x) {
                        let k = choose|k: int| i <= k < j + 1 && #[trigger] s[k].process_name@ == x;
                        if k < j {
                            assert(used_in(s, i as int, j as int, x));
                        } else if s[j as int].process_name@ == cur.process_name@ {
                            assert(s[i as int].process_name@ == x);
                            assert(used_in(s, i as int, j as int, x));
                        }
                    }
                    if apps.deep_view().contains(x) && x != s[j as int].process_name@ {
                        assert(old_apps.contains(x));
                        let k = choose|k: int| i <= k < j && #[trigger] s[k].process_name@ == x;
                        assert(i <= k < j + 1);
                    }
                    if x == s[j as int].process_name@ {
                        assert(i <= j < j + 1 && s[j as int].process_name@ == x);
                    }
                }
            }
            j = j + 1;
        }
        let ghost au = apps.deep_view();
        let ghost base = co@;
        proof {
            lemma_window_end(s, i as int, i + 1);
            assert forall|a: Seq<char>, b: Seq<char>|
                chars_lt(a, b) && au.contains(a) && au.contains(b) implies #[trigger] co_lookup(base, a, b) < n by {
                lemma_pair_count_bound(s, 0, a, b);
                assert(used_in(s, i as int, j as int, a));
                assert(used_in(s, i as int, j as int, b));
                assert(pair_count_from(s, i as int, a, b) >= 1);
            }
        }
        let m = apps.len();
        // count every pair of distinct applications of the window once, in string order
        let mut p: usize = 0;
        while p < m
            invariant
                m == apps@.len(),
                au == apps.deep_view(),
                is_word_set(au),
                p <= m,
                co_well_formed(co@),
                co_well_formed(base),
                n <= u32::MAX,
                forall|a: Seq<char>, b: Seq<char>|
                    chars_lt(a, b) && au.contains(a) && au.contains(b) ==> #[trigger] co_lookup(base, a, b) < n,
                forall|a: Seq<char>, b: Seq<char>|
                    chars_lt(a, b) && !(au.contains(a) && au.contains(b)) ==> #[trigger] co_lookup(co@, a, b)
                        == co_lookup(base, a, b),
                forall|x: int, y: int|
                    0 <= x < y < m ==> #[trigger] co_lookup(co@, au[x], au[y]) == co_lookup(base, au[x], au[y])
                        + if x < p {
                        1nat
                    } else {
                        0nat
                    },
            decreases m - p,
        {
            let mut q: usize = p + 1;
            while q < m
                invariant
                    m == apps@.len(),
                    au == apps.deep_view(),
                    is_word_set(au),
                    p < m,
                    p + 1 <= q <= m,
                    co_well_formed(co@),
                    n <= u32::MAX,
                forall|a: Seq<char>, b: Seq<char>|
                    chars_lt(a, b) && au.contains(a) && au.contains(b) ==> #[trigger] co_lookup(base, a, b) < n,
                    forall|a: Seq<char>, b: Seq<char>|
                        chars_lt(a, b) && !(au.contains(a) && au.contains(b)) ==> #[trigger] co_lookup(co@, a, b)
                            == co_lookup(base, a, b),
                    forall|x: int, y: int|
                        0 <= x < y < m ==> #[trigger] co_lookup(co@, au[x], au[y]) == co_lookup(base, au[x], au[y])
                            + if x < p || (x == p && y < q) {
                            1nat
                        } else {
                            0nat
                        },
                decreases m - q,
            {
                proof {
                    assert(text_order()(au[p as int], au[q as int]));
                    lemma_chars_strict_total();
                    assert(au.contains(au[p as int]) && au.contains(au[q as int]));
                    assert(co_lookup(co@, au[p as int], au[q as int]) == co_lookup(base, au[p as int], au[q as int]));
                }
                let ghost before = co@;
                bump_pair(&mut co, &apps[p], &apps[q]);
                proof {
                    assert forall|x: int, y: int|
                        0 <= x < y < m implies #[trigger] co_lookup(co@, au[x], au[y]) == co_lookup(base, au[x], au[y])
                            + if x < p || (x == p && y < q + 1) {
                            1nat
                        } else {
                            0nat
                        } by {
                        assert(co_lookup(before, au[x], au[y]) == co_lookup(base, au[x], au[y])
                            + if x < p || (x == p && y < q) { 1nat } else { 0nat });
                        if au[x] == au[p as int] && au[y] == au[q as int] {
                            if x != p {
                                assert(text_order()(au[x], au[p as int]) || text_order()(au[p as int], au[x]));
                            }
                            if y != q {
                                assert(text_order()(au[y], au[q as int]) || text_order()(au[q as int], au[y]));
                            }
                        }
                    }
                    assert forall|a: Seq<char>, b: Seq<char>|
                        chars_lt(a, b) && !(au.contains(a) && au.contains(b)) implies #[trigger] co_lookup(co@, a, b)
                            == co_lookup(base, a, b) by {
                        assert(co_lookup(before, a, b) == co_lookup(base, a, b));
                        if a == au[p as int] && b == au[q as int] {
                            assert(au.contains(au[p as int]) && au.contains(au[q as int]));
                        }
                    }
                }
                q = q + 1;
            }
            p = p + 1;
        }
        proof {
            lemma_window_end(s, i as int, i + 1);
            assert forall|a: Seq<char>, b: Seq<char>|
                chars_lt(a, b) implies #[trigger] co_lookup(co@, a, b) + pair_count_from(s, j as int, a, b)
                    == co_count(s, a, b) by {
                assert(co_lookup(base, a, b) + pair_count_from(s, i as int, a, b) == co_count(s, a, b));
                if au.contains(a) && au.contains(b) {
                    let x = choose|x: int| 0 <= x < au.len() && au[x] == a;
                    let y = choose|y: int| 0 <= y < au.len() && au[y] == b;
                    if y < x {
                        assert(text_order()(au[y], au[x]));
                        lemma_chars_strict_total();
                        assert(text_order()(a, b));
                    }
                    if x == y {
                        lemma_chars_strict_total();
                        assert(text_order()(a, a));
                    }
                    assert(co_lookup(co@, au[x], au[y]) == co_lookup(base, au[x], au[y]) + 1);
                }
            }
        }
        i = j;
    }
    proof {
        assert forall|a: Seq<char>, b: Seq<char>| chars_lt(a, b) implies #[trigger] co_lookup(co@, a, b)
            == co_count(s, a, b) by {
            assert(co_lookup(co@, a, b) + pair_count_from(s, n as int, a, b) == co_count(s, a, b));
        }
    }
    co
}

} // verus!
