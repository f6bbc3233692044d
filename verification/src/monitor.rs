//! The process monitor's state: the focus events and mouse movements recorded so far, the
//! windows destroyed since the last cleanup, and the last foreground window and mouse
//! position. The system hooks that feed it live outside the library.
use vstd::prelude::*;
use crate::errors::{MonitorError, PlatformError};
use crate::order::lemma_take_push_members;
use crate::text::{contains_text, has_text, lowercase, to_lower};
use crate::types::{copy_event, MouseActivityEvent, WindowFocusEvent};
use std::collections::HashSet;

verus! {

/// At most this many focus events are kept; the oldest go first.
pub const MAX_EVENTS: usize = 5000;

/// At most this many mouse events are kept; the oldest goes first.
pub const MAX_MOUSE_EVENTS: usize = 1000;

/// The least squared distance, in pixels, that counts as a mouse movement (5 pixels).
pub const MIN_MOVEMENT_SQ: i32 = 25;

/// Whether a focus event's window is not among `gone`.
pub open spec fn event_survives(gone: Seq<i64>) -> spec_fn(WindowFocusEvent) -> bool {
    |e: WindowFocusEvent| !gone.contains(e.hwnd.0)
}

/// Whether a mouse event's window is not among `gone`.
pub open spec fn mouse_survives(gone: Seq<i64>) -> spec_fn(MouseActivityEvent) -> bool {
    |e: MouseActivityEvent| !gone.contains(e.hwnd.0)
}

/// Whether a focus event happened after `cutoff`.
pub open spec fn after(cutoff: int) -> spec_fn(WindowFocusEvent) -> bool {
    |e: WindowFocusEvent| e.timestamp > cutoff
}

/// Whether `x` is among `v`.
fn has_i64(v: &Vec<i64>, x: i64) -> (r: bool)
    ensures
        r == v@.contains(x),
{
    let mut k: usize = 0;
    while k < v.len()
        invariant
            k <= v@.len(),
            forall|m: int| 0 <= m < k ==> v@[m] != x,
        decreases v.len() - k,
    {
        if v[k] == x {
            assert(v@[k as int] == x);
            return true;
        }
        k = k + 1;
    }
    false
}

/// A copy of the focus events.
fn copy_events(v: &Vec<WindowFocusEvent>) -> (r: Vec<WindowFocusEvent>)
    ensures
        r@ == v@,
{
    let mut r: Vec<WindowFocusEvent> = Vec::new();
    let mut i: usize = 0;
    while i < v.len()
        invariant
            i <= v@.len(),
            r@ == v@.take(i as int),
        decreases v.len() - i,
    {
        r.push(copy_event(&v[i]));
        assert(r@ =~= v@.take(i + 1));
        i = i + 1;
    }
    assert(v@.take(v@.len() as int) =~= v@);
    r
}

/// The process monitor's recorded data.
pub struct ProcessMonitorService {
    /// Focus events, oldest first.
    pub events: Vec<WindowFocusEvent>,
    /// Mouse movements, oldest first.
    pub mouse_events: Vec<MouseActivityEvent>,
    /// Windows destroyed since the last cleanup.
    pub destroyed: Vec<i64>,
    /// The last window seen in the foreground (0 for none).
    pub last_hwnd: i64,
    /// The last mouse position that counted as a movement.
    pub last_mouse_pos: (i32, i32),
}

impl ProcessMonitorService {
    /// A monitor with nothing recorded.
    pub fn new() -> (r: Self)
        ensures
            r.events@.len() == 0,
            r.mouse_events@.len() == 0,
            r.destroyed@.len() == 0,
            r.last_hwnd == 0,
            r.last_mouse_pos == (0i32, 0i32),
    {
        ProcessMonitorService {
            events: Vec::new(),
            mouse_events: Vec::new(),
            destroyed: Vec::new(),
            last_hwnd: 0,
            last_mouse_pos: (0, 0),
        }
    }

    /// Forgets the focus events and mouse movements.
    pub fn clear_events(&mut self)
        ensures
            final(self).events@.len() == 0,
            final(self).mouse_events@.len() == 0,
            final(self).destroyed == old(self).destroyed,
            final(self).last_hwnd == old(self).last_hwnd,
            final(self).last_mouse_pos == old(self).last_mouse_pos,
    {
        self.events.clear();
        self.mouse_events.clear();
    }

    /// The windows destroyed since the last cleanup.
    pub fn get_destroyed_hwnds(&self) -> (r: HashSet<i64>)
        ensures
            r@ == self.destroyed@.to_set(),
    {
        broadcast use vstd::std_specs::hash::group_hash_axioms;

        let mut r: HashSet<i64> = HashSet::new();
        let mut i: usize = 0;
        while i < self.destroyed.len()
            invariant
                i <= self.destroyed@.len(),
                r@ == self.destroyed@.take(i as int).to_set(),
            decreases self.destroyed.len() - i,
        {
            r.insert(self.destroyed[i]);
            proof {
                lemma_take_push_members(self.destroyed@, i as int);
                assert(r@ =~= self.destroyed@.take(i + 1).to_set());
            }
            i = i + 1;
        }
        assert(self.destroyed@.take(self.destroyed@.len() as int) =~= self.destroyed@);
        r
    }

    /// Notes that window `hwnd` was destroyed.
    pub fn note_destroyed(&mut self, hwnd: i64)
        ensures
            final(self).destroyed@.to_set() == old(self).destroyed@.to_set().insert(hwnd),
            final(self).events == old(self).events,
            final(self).mouse_events == old(self).mouse_events,
            final(self).last_hwnd == old(self).last_hwnd,
            final(self).last_mouse_pos == old(self).last_mouse_pos,
    {
        let ghost before = self.destroyed@;
        if !has_i64(&self.destroyed, hwnd) {
            self.destroyed.push(hwnd);
            proof {
                lemma_take_push_members(self.destroyed@, before.len() as int);
                assert(self.destroyed@.take(before.len() as int) =~= before);
                assert(self.destroyed@.take(before.len() as int + 1) =~= self.destroyed@);
            }
        }
        assert(self.destroyed@.to_set() =~= before.to_set().insert(hwnd));
    }

    /// Drops the focus events and mouse movements of destroyed windows, then forgets the
    /// destroyed windows. With none destroyed, nothing changes.
    pub fn cleanup_destroyed_events(&mut self)
        ensures
            old(self).destroyed@.len() == 0 ==> *final(self) == *old(self),
            old(self).destroyed@.len() > 0 ==> {
                &&& final(self).events@ == old(self).events@.filter(event_survives(old(self).destroyed@))
                &&& final(self).mouse_events@ == old(self).mouse_events@.filter(
                    mouse_survives(old(self).destroyed@),
                )
                &&& final(self).destroyed@.len() == 0
                &&& final(self).last_hwnd == old(self).last_hwnd
                &&& final(self).last_mouse_pos == old(self).last_mouse_pos
            },
    {
        if self.destroyed.len() == 0 {
            return;
        }
        let gone = &self.destroyed;
        let mut kept: Vec<WindowFocusEvent> = Vec::new();
        let mut i: usize = 0;
        while i < self.events.len()
            invariant
                i <= self.events@.len(),
                kept@ == self.events@.take(i as int).filter(event_survives(gone@)),
            decreases self.events.len() - i,
        {
            proof {
                assert(self.events@.take(i + 1).drop_last() =~= self.events@.take(i as int));
                self.events@.take(i as int).lemma_filter_push(self.events@[i as int], event_survives(gone@));
                assert(self.events@.take(i as int).push(self.events@[i as int]) =~= self.events@.take(i + 1));
            }
            if !has_i64(gone, self.events[i].hwnd.0) {
                kept.push(copy_event(&self.events[i]));
            }
            i = i + 1;
        }
        assert(self.events@.take(self.events@.len() as int) =~= self.events@);
        let mut kept_mouse: Vec<MouseActivityEvent> = Vec::new();
        let mut j: usize = 0;
        while j < self.mouse_events.len()
            invariant
                j <= self.mouse_events@.len(),
                kept_mouse@ == self.mouse_events@.take(j as int).filter(mouse_survives(gone@)),
            decreases self.mouse_events.len() - j,
        {
            proof {
                assert(self.mouse_events@.take(j + 1).drop_last() =~= self.mouse_events@.take(j as int));
                self.mouse_events@.take(j as int).lemma_filter_push(self.mouse_events@[j as int], mouse_survives(gone@));
                assert(self.mouse_events@.take(j as int).push(self.mouse_events@[j as int]) =~= self.mouse_events@.take(j + 1));
            }
            if !has_i64(gone, self.mouse_events[j].hwnd.0) {
                kept_mouse.push(self.mouse_events[j]);
            }
            j = j + 1;
        }
        assert(self.mouse_events@.take(self.mouse_events@.len() as int) =~= self.mouse_events@);
        self.events = kept;
        self.mouse_events = kept_mouse;
        self.destroyed.clear();
    }

    /// The focus events of the last `minutes` minutes before `now_ms` (milliseconds since
    /// the Unix epoch): those strictly after the cutoff, in order.
    pub fn get_recent_events(&self, now_ms: i64, minutes: u32) -> (r: Result<Vec<WindowFocusEvent>, MonitorError>)
        requires
            now_ms - minutes * 60_000 >= i64::MIN,
        ensures
            r matches Ok(v) && v@ == self.events@.filter(after(now_ms - minutes * 60_000)),
    {
        let cutoff: i64 = now_ms - (minutes as i64) * 60_000;
        let ghost pred = after(now_ms - minutes * 60_000);
        let mut recent: Vec<WindowFocusEvent> = Vec::new();
        let mut i: usize = 0;
        while i < self.events.len()
            invariant
                i <= self.events@.len(),
                cutoff == now_ms - minutes * 60_000,
                pred == after(now_ms - minutes * 60_000),
                recent@ == self.events@.take(i as int).filter(pred),
            decreases self.events.len() - i,
        {
            proof {
                assert(self.events@.take(i + 1).drop_last() =~= self.events@.take(i as int));
                self.events@.take(i as int).lemma_filter_push(self.events@[i as int], pred);
                assert(self.events@.take(i as int).push(self.events@[i as int]) =~= self.events@.take(i + 1));
            }
            if self.events[i].timestamp > cutoff {
                recent.push(copy_event(&self.events[i]));
            }
            i = i + 1;
        }
        assert(self.events@.take(self.events@.len() as int) =~= self.events@);
        Ok(recent)
    }

    /// All focus events, oldest first.
    pub fn get_all_events(&self) -> (r: Vec<WindowFocusEvent>)
        ensures
            r@ == self.events@,
    {
        copy_events(&self.events)
    }

    /// All mouse movements, oldest first.
    pub fn get_all_mouse_events(&self) -> (r: Vec<MouseActivityEvent>)
        ensures
            r@ == self.mouse_events@,
    {
        let mut r: Vec<MouseActivityEvent> = Vec::new();
        let mut i: usize = 0;
        while i < self.mouse_events.len()
            invariant
                i <= self.mouse_events@.len(),
                r@ == self.mouse_events@.take(i as int),
            decreases self.mouse_events.len() - i,
        {
            r.push(self.mouse_events[i]);
            assert(r@ =~= self.mouse_events@.take(i + 1));
            i = i + 1;
        }
        assert(self.mouse_events@.take(self.mouse_events@.len() as int) =~= self.mouse_events@);
        r
    }

    /// Notes window `hwnd` in the foreground; `true` when it differs from the last one seen,
    /// which it then becomes.
    pub fn note_foreground(&mut self, hwnd: i64) -> (changed: bool)
        ensures
            changed == (hwnd != old(self).last_hwnd),
            final(self).last_hwnd == hwnd,
            final(self).events == old(self).events,
            final(self).mouse_events == old(self).mouse_events,
            final(self).destroyed == old(self).destroyed,
            final(self).last_mouse_pos == old(self).last_mouse_pos,
    {
        if hwnd == self.last_hwnd {
            return false;
        }
        self.last_hwnd = hwnd;
        true
    }

    /// Records a focus event; past `MAX_EVENTS`, the oldest events go.
    pub fn push_focus_event(&mut self, event: WindowFocusEvent)
        ensures
            final(self).events@ == if old(self).events@.len() + 1 > MAX_EVENTS {
                old(self).events@.push(event).skip(old(self).events@.len() + 1 - MAX_EVENTS)
            } else {
                old(self).events@.push(event)
            },
            final(self).events@.len() <= MAX_EVENTS,
            final(self).events@.last() == event,
            final(self).mouse_events == old(self).mouse_events,
            final(self).destroyed == old(self).destroyed,
            final(self).last_hwnd == old(self).last_hwnd,
            final(self).last_mouse_pos == old(self).last_mouse_pos,
    {
        let ghost all = self.events@.push(event);
        self.events.push(event);
        if self.events.len() > MAX_EVENTS {
            let overflow = self.events.len() - MAX_EVENTS;
            let tail = self.events.split_off(overflow);
            self.events = tail;
            assert(self.events@ =~= all.skip(overflow as int));
        }
    }

    /// Notes the mouse at (`x`, `y`); `true` when it moved at least 5 pixels from the last
    /// position that counted, which it then becomes.
    pub fn note_mouse_position(&mut self, x: i32, y: i32) -> (moved: bool)
        requires
            i32::MIN <= x - old(self).last_mouse_pos.0 <= i32::MAX,
            i32::MIN <= y - old(self).last_mouse_pos.1 <= i32::MAX,
            (x - old(self).last_mouse_pos.0) * (x - old(self).last_mouse_pos.0) + (y
                - old(self).last_mouse_pos.1) * (y - old(self).last_mouse_pos.1) <= i32::MAX,
        ensures
            moved == ((x - old(self).last_mouse_pos.0) * (x - old(self).last_mouse_pos.0) + (y
                - old(self).last_mouse_pos.1) * (y - old(self).last_mouse_pos.1) >= MIN_MOVEMENT_SQ),
            final(self).last_mouse_pos == if moved {
                (x, y)
            } else {
                old(self).last_mouse_pos
            },
            final(self).events == old(self).events,
            final(self).mouse_events == old(self).mouse_events,
            final(self).destroyed == old(self).destroyed,
            final(self).last_hwnd == old(self).last_hwnd,
    {
        let dx = x - self.last_mouse_pos.0;
        let dy = y - self.last_mouse_pos.1;
        proof {
            assert(0 <= dx * dx) by (nonlinear_arith);
            assert(0 <= dy * dy) by (nonlinear_arith);
        }
        let distance_sq = dx * dx + dy * dy;
        if distance_sq >= MIN_MOVEMENT_SQ {
            self.last_mouse_pos = (x, y);
            true
        } else {
            false
        }
    }

    /// Records a mouse movement; past `MAX_MOUSE_EVENTS`, the oldest one goes.
    pub fn push_mouse_event(&mut self, event: MouseActivityEvent)
        ensures
            final(self).mouse_events@ == if old(self).mouse_events@.len() + 1 > MAX_MOUSE_EVENTS {
                old(self).mouse_events@.push(event).drop_first()
            } else {
                old(self).mouse_events@.push(event)
            },
            old(self).mouse_events@.len() <= MAX_MOUSE_EVENTS ==> final(self).mouse_events@.len()
                <= MAX_MOUSE_EVENTS,
            final(self).mouse_events@.last() == event,
            final(self).events == old(self).events,
            final(self).destroyed == old(self).destroyed,
            final(self).last_hwnd == old(self).last_hwnd,
            final(self).last_mouse_pos == old(self).last_mouse_pos,
    {
        let ghost all = self.mouse_events@.push(event);
        self.mouse_events.push(event);
        if self.mouse_events.len() > MAX_MOUSE_EVENTS {
            self.mouse_events.remove(0);
            assert(self.mouse_events@ =~= all.drop_first());
        }
    }
}

/// The name that marks this application's own processes.
pub open spec fn own_marker() -> Seq<char> {
    "windowflow"@
}

/// Whether a process, by its lowercase name, is this application itself: the name holds
/// "windowflow".
pub fn is_own_lowercase_name(lower_name: &str) -> (r: bool)
    ensures
        r == has_text(lower_name@, own_marker()),
{
    contains_text(lower_name, "windowflow")
}

/// Whether a process is this application itself: its name, in lowercase, holds
/// "windowflow". Its own windows are never recorded.
pub fn is_own_window(process_name: &str) -> (r: bool)
    ensures
        r == has_text(lowercase(process_name@), own_marker()),
{
    let lower = to_lower(process_name);
    is_own_lowercase_name(lower.as_str())
}

/// The focus events after recording `event` on `events`: past `MAX_EVENTS`, the oldest go.
pub open spec fn capped_push(events: Seq<WindowFocusEvent>, event: WindowFocusEvent) -> Seq<WindowFocusEvent> {
    if events.len() + 1 > MAX_EVENTS {
        events.push(event).skip(events.len() + 1 - MAX_EVENTS)
    } else {
        events.push(event)
    }
}

/// Whether a focus event is recorded: its window has a process, and that process is not
/// this application.
pub open spec fn is_recorded(event: WindowFocusEvent) -> bool {
    event.pid != 0 && !has_text(lowercase(event.process_name@), own_marker())
}

impl ProcessMonitorService {
    /// Records a focus event of a window newly in the foreground, unless its window has no
    /// process or belongs to this application; `true` when it was recorded.
    pub fn record_focus_event(&mut self, event: WindowFocusEvent) -> (recorded: bool)
        ensures
            recorded == is_recorded(event),
            final(self).events@ == if recorded {
                capped_push(old(self).events@, event)
            } else {
                old(self).events@
            },
            final(self).mouse_events == old(self).mouse_events,
            final(self).destroyed == old(self).destroyed,
            final(self).last_hwnd == old(self).last_hwnd,
            final(self).last_mouse_pos == old(self).last_mouse_pos,
    {
        if event.pid == 0 || is_own_window(event.process_name.as_str()) {
            return false;
        }
        self.push_focus_event(event);
        true
    }
}

impl ProcessMonitorService {
    /// The start of a poll for a focus change, with window `hwnd` in the foreground: nothing
    /// happens while the foreground hook runs (`hook_active`); otherwise the events of
    /// destroyed windows go, and `true` tells that `hwnd` differs from the last window seen
    /// (which it then becomes), so that its event is to be recorded.
    pub fn begin_poll(&mut self, hook_active: bool, hwnd: i64) -> (record: bool)
        ensures
            hook_active ==> !record && *final(self) == *old(self),
            !hook_active ==> {
                &&& record == (hwnd != old(self).last_hwnd)
                &&& final(self).last_hwnd == hwnd
                &&& final(self).events@ == if old(self).destroyed@.len() == 0 {
                    old(self).events@
                } else {
                    old(self).events@.filter(event_survives(old(self).destroyed@))
                }
                &&& final(self).destroyed@.len() == 0
            },
    {
        if hook_active {
            return false;
        }
        self.cleanup_destroyed_events();
        self.note_foreground(hwnd)
    }
}

/// Over a whole poll, the focus events stay within `MAX_EVENTS`: dropping the events of
/// destroyed windows keeps them within it, and recording one more event does too.
pub proof fn law_event_cap_kept(events: Seq<WindowFocusEvent>, gone: Seq<i64>, event: WindowFocusEvent)
    requires
        events.len() <= MAX_EVENTS,
    ensures
        events.filter(event_survives(gone)).len() <= MAX_EVENTS,
        capped_push(events.filter(event_survives(gone)), event).len() <= MAX_EVENTS,
        capped_push(events, event).len() <= MAX_EVENTS,
{
    events.lemma_filter_len(event_survives(gone));
}

} // verus!
