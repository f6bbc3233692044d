//! Moving windows between monitors: which windows may be moved, where a moved window goes,
//! the order in which the ways of moving it are tried, and what a batch of moves reports.
//! The system calls themselves live outside the library.
use vstd::prelude::*;
use vstd::string::StringExecFns;
use crate::digits::{dec_text, decimal_u64};
use crate::errors::PlatformError;
use crate::text::{chars_of, lowercase, to_lower};
use crate::types::{MonitorId, MonitorInfo, ProcessInfo, WindowHandle, WindowInfo, WindowRect};

verus! {

/// What the window system lists: its top-level windows, its monitors, and the process of a
/// window. The application implements it over the system's calls.
pub trait PlatformWindowManager {
    fn enumerate_windows(&self) -> Result<Vec<WindowInfo>, PlatformError>;

    fn enumerate_monitors(&self) -> Result<Vec<MonitorInfo>, PlatformError>;

    fn get_window_process_info(&self, hwnd: WindowHandle) -> Result<ProcessInfo, PlatformError>;
}

/// The window system, whose calls are made outside the library.
#[derive(Debug, Clone, Copy)]
pub struct WindowsPlatform;

/// How moving a window to another monitor begins.
#[derive(Debug, Clone, Copy, PartialEq, Eq, Structural)]
pub enum MoveStart {
    /// Nothing to do: the window may not be moved, or it is already on the target monitor.
    Skip,
    /// Move it (see [`next_move_step`]), bringing it to the foreground first when
    /// `activate` holds.
    Begin { activate: bool },
}

/// How moving a window begins: `Skip` when it may not be moved or is already on the target
/// monitor, else `Begin`.
pub open spec fn move_start(movable: bool, current_monitor: MonitorId, target_monitor: MonitorId, activate: bool) -> MoveStart {
    if !movable || current_monitor == target_monitor {
        MoveStart::Skip
    } else {
        MoveStart::Begin { activate }
    }
}

impl WindowsPlatform {
    pub fn new() -> (r: Self) {
        WindowsPlatform
    }

    /// How moving a window to `target_monitor` begins when the user asks for one window:
    /// as [`WindowsPlatform::move_window_internal`], bringing the window to the foreground.
    pub fn move_window(&self, movable: bool, current_monitor: MonitorId, target_monitor: MonitorId) -> (r: MoveStart)
        ensures
            r == move_start(movable, current_monitor, target_monitor, true),
    {
        self.move_window_internal(movable, current_monitor, target_monitor, true)
    }

    /// How moving a window to `target_monitor` begins: nothing to do when it may not be
    /// moved (`movable`, see [`is_window_movable`]) or its monitor (`current_monitor`) is the
    /// target already; else the moves begin, with the window brought to the foreground first
    /// when `activate` holds (moves of several windows leave the focus alone).
    pub fn move_window_internal(
        &self,
        movable: bool,
        current_monitor: MonitorId,
        target_monitor: MonitorId,
        activate: bool,
    ) -> (r: MoveStart)
        ensures
            r == move_start(movable, current_monitor, target_monitor, activate),
    {
        if !movable || current_monitor.0 == target_monitor.0 {
            MoveStart::Skip
        } else {
            MoveStart::Begin { activate }
        }
    }
}

/// Rust's integer division by 2, which rounds toward zero.
pub open spec fn half_toward_zero(v: int) -> int {
    if v >= 0 {
        v / 2
    } else {
        -((-v) / 2)
    }
}

/// Where a window of `width` by `height` goes to be centred in a work area.
pub open spec fn centred_origin(
    work_left: i32,
    work_top: i32,
    work_right: i32,
    work_bottom: i32,
    width: i32,
    height: i32,
) -> (int, int) {
    (
        work_left + half_toward_zero(work_right - work_left - width),
        work_top + half_toward_zero(work_bottom - work_top - height),
    )
}

/// `v / 2` on `i32`, rounding toward zero.
fn half_i32(v: i32) -> (r: i32)
    ensures
        r == half_toward_zero(v as int),
{
    if v >= 0 {
        v / 2
    } else {
        let m: i64 = -(v as i64);
        -((m / 2) as i32)
    }
}

/// The top-left corner that centres a window of `width` by `height` in a work area.
pub fn placement_origin(
    work_left: i32,
    work_top: i32,
    work_right: i32,
    work_bottom: i32,
    width: i32,
    height: i32,
) -> (r: (i32, i32))
    requires
        i32::MIN <= work_right - work_left <= i32::MAX,
        i32::MIN <= work_bottom - work_top <= i32::MAX,
        i32::MIN <= work_right - work_left - width <= i32::MAX,
        i32::MIN <= work_bottom - work_top - height <= i32::MAX,
        i32::MIN <= centred_origin(work_left, work_top, work_right, work_bottom, width, height).0
            <= i32::MAX,
        i32::MIN <= centred_origin(work_left, work_top, work_right, work_bottom, width, height).1
            <= i32::MAX,
    ensures
        r.0 as int == centred_origin(work_left, work_top, work_right, work_bottom, width, height).0,
        r.1 as int == centred_origin(work_left, work_top, work_right, work_bottom, width, height).1,
{
    let work_width = work_right - work_left;
    let work_height = work_bottom - work_top;
    let x = work_left + half_i32(work_width - width);
    let y = work_top + half_i32(work_height - height);
    (x, y)
}

/// An arrow key.
#[derive(Debug, Clone, Copy, PartialEq, Eq, Structural)]
pub enum Arrow {
    Left,
    Right,
    Up,
    Down,
}

/// The middle of `a..b`, as Rust's `(a + b) / 2` on `i32` gives it.
pub open spec fn middle(a: i32, b: i32) -> int {
    half_toward_zero(a + b)
}

/// The arrow that points from a window to a target work area: right or left by their
/// horizontal middles; with equal middles, down when the target's vertical middle is lower,
/// otherwise up.
pub fn arrow_toward(
    src_left: i32,
    src_top: i32,
    src_right: i32,
    src_bottom: i32,
    work_left: i32,
    work_top: i32,
    work_right: i32,
    work_bottom: i32,
) -> (r: Arrow)
    requires
        i32::MIN <= src_left + src_right <= i32::MAX,
        i32::MIN <= src_top + src_bottom <= i32::MAX,
        i32::MIN <= work_left + work_right <= i32::MAX,
        i32::MIN <= work_top + work_bottom <= i32::MAX,
    ensures
        r == if middle(work_left, work_right) > middle(src_left, src_right) {
            Arrow::Right
        } else if middle(work_left, work_right) < middle(src_left, src_right) {
            Arrow::Left
        } else if middle(work_top, work_bottom) > middle(src_top, src_bottom) {
            Arrow::Down
        } else {
            Arrow::Up
        },
{
    let source_center_x = half_i32(src_left + src_right);
    let target_center_x = half_i32(work_left + work_right);
    if target_center_x > source_center_x {
        Arrow::Right
    } else if target_center_x < source_center_x {
        Arrow::Left
    } else {
        let source_center_y = half_i32(src_top + src_bottom);
        let target_center_y = half_i32(work_top + work_bottom);
        if target_center_y > source_center_y {
            Arrow::Down
        } else {
            Arrow::Up
        }
    }
}

/// The extended style bit of a tool window.
pub const WS_EX_TOOLWINDOW: u32 = 0x80;

/// The lowercase window classes of the desktop, the taskbar and the start menu.
pub open spec fn is_system_class(lower: Seq<char>) -> bool {
    lower == "progman"@ || lower == "workerw"@ || lower == "shell_traywnd"@ || lower
        == "shell_secondarystart"@
}

/// The lowercase titles of the desktop and the start menu.
pub open spec fn is_system_title(lower: Seq<char>) -> bool {
    lower == "program manager"@ || lower == "开始"@ || lower == "start"@
}

/// Whether a window may be moved: it exists and is visible, its class (when it has one) is
/// not a system class, its title is not a system title (both compared in lowercase), and it
/// is not a tool window.
pub open spec fn movable(is_window: bool, visible: bool, class_name: Seq<char>, title: Seq<char>, ex_style: u32) -> bool {
    is_window && visible && (class_name.len() == 0 || !is_system_class(lowercase(class_name)))
        && !is_system_title(lowercase(title)) && ex_style & WS_EX_TOOLWINDOW == 0
}

/// The desktop's own windows never move: a window whose class, in lowercase, is that of the
/// desktop wallpaper host ("workerw"), the desktop ("progman"), the taskbar ("shell_traywnd")
/// or a secondary taskbar's start button ("shell_secondarystart") is not movable, whether or
/// not it exists and is visible, whatever its title and style.
pub proof fn law_desktop_windows_never_move(
    is_window: bool,
    visible: bool,
    class_name: Seq<char>,
    title: Seq<char>,
    ex_style: u32,
)
    requires
        class_name.len() > 0,
        lowercase(class_name) == "workerw"@ || lowercase(class_name) == "progman"@
            || lowercase(class_name) == "shell_traywnd"@ || lowercase(class_name)
            == "shell_secondarystart"@,
    ensures
        !movable(is_window, visible, class_name, title, ex_style),
{
}

/// Only existing, visible, ordinary windows move: a window that does not exist or is hidden,
/// a tool window, and the desktop's or the start menu's own window (its title, in lowercase,
/// "program manager", "start" or "开始") are never movable.
pub proof fn law_hidden_tool_and_shell_windows_never_move(
    is_window: bool,
    visible: bool,
    class_name: Seq<char>,
    title: Seq<char>,
    ex_style: u32,
)
    ensures
        !is_window || !visible ==> !movable(is_window, visible, class_name, title, ex_style),
        ex_style & WS_EX_TOOLWINDOW != 0 ==> !movable(is_window, visible, class_name, title, ex_style),
        lowercase(title) == "program manager"@ || lowercase(title) == "start"@ || lowercase(title) == "开始"@
            ==> !movable(is_window, visible, class_name, title, ex_style),
{
}

/// Whether two texts are equal.
fn same_text(a: &Vec<char>, b: &str) -> (r: bool)
    ensures
        r == (a@ == b@),
{
    let c = chars_of(b);
    if a.len() != c.len() {
        return false;
    }
    let mut k: usize = 0;
    while k < a.len()
        invariant
            k <= a@.len(),
            a@.len() == c@.len(),
            c@ == b@,
            forall|m: int| 0 <= m < k ==> a@[m] == c@[m],
        decreases a.len() - k,
    {
        if a[k] != c[k] {
            return false;
        }
        k = k + 1;
    }
    assert(a@ =~= c@);
    true
}

/// Whether a window may be moved, from what the system tells of it: whether it exists and is
/// visible, its class name, its title and its extended style.
pub fn is_window_movable(is_window: bool, visible: bool, class_name: &str, title: &str, ex_style: u32) -> (r: bool)
    ensures
        r == movable(is_window, visible, class_name@, title@, ex_style),
{
    if !is_window || !visible {
        return false;
    }
    let class_chars = chars_of(class_name);
    if class_chars.len() > 0 {
        let lower = to_lower(class_name);
        let lc = chars_of(lower.as_str());
        if same_text(&lc, "progman") || same_text(&lc, "workerw") || same_text(&lc, "shell_traywnd")
            || same_text(&lc, "shell_secondarystart") {
            return false;
        }
    }
    let lower_title = to_lower(title);
    let lt = chars_of(lower_title.as_str());
    if same_text(&lt, "program manager") || same_text(&lt, "开始") || same_text(&lt, "start") {
        return false;
    }
    ex_style & WS_EX_TOOLWINDOW == 0
}

/// The ways of moving a window to another monitor, in the order they are tried.
#[derive(Debug, Clone, Copy, PartialEq, Eq, Structural)]
pub enum MoveStrategy {
    /// Set the window's placement.
    Placement,
    /// Set its position, with the frame redrawn.
    SetPosition,
    /// Move it.
    MoveWindow,
    /// Hide it, move it, show it again.
    HideMoveShow,
    /// Press Win+Shift and an arrow key (folder windows only).
    WinShiftArrow,
    /// Send it a move message.
    PostMove,
    /// Restore it, then set its position on top.
    RestoreThenPosition,
}

/// What to do next while moving a window.
#[derive(Debug, Clone, Copy, PartialEq, Eq, Structural)]
pub enum MoveStep {
    /// Try this way of moving it, then check whether it is on the target monitor.
    Try(MoveStrategy),
    /// It is on the target monitor: done, after maximizing it again when `maximize_again`
    /// holds (it was maximized before the move).
    Done { maximize_again: bool },
    /// Every way failed.
    Failed,
}

/// The way tried after `s`, skipping Win+Shift+arrow for windows that are not folder
/// windows; `None` after the last.
pub open spec fn strategy_after(s: MoveStrategy, is_folder: bool) -> Option<MoveStrategy> {
    match s {
        MoveStrategy::Placement => Some(MoveStrategy::SetPosition),
        MoveStrategy::SetPosition => Some(MoveStrategy::MoveWindow),
        MoveStrategy::MoveWindow => Some(MoveStrategy::HideMoveShow),
        MoveStrategy::HideMoveShow => if is_folder {
            Some(MoveStrategy::WinShiftArrow)
        } else {
            Some(MoveStrategy::PostMove)
        },
        MoveStrategy::WinShiftArrow => Some(MoveStrategy::PostMove),
        MoveStrategy::PostMove => Some(MoveStrategy::RestoreThenPosition),
        MoveStrategy::RestoreThenPosition => None,
    }
}

/// The next step of moving a window, after trying `tried` (`None` at the start) and checking
/// whether the window is now on the target monitor (`on_target`): done when it is (a window
/// that was maximized, `was_maximized`, is maximized again before success), else the next
/// way, or failure after the last. `is_folder` tells a folder window (class "CabinetWClass").
pub fn next_move_step(tried: Option<MoveStrategy>, on_target: bool, is_folder: bool, was_maximized: bool) -> (r: MoveStep)
    ensures
        r == match tried {
            None => MoveStep::Try(MoveStrategy::Placement),
            Some(s) => if on_target {
                MoveStep::Done { maximize_again: was_maximized }
            } else {
                match strategy_after(s, is_folder) {
                    Some(n) => MoveStep::Try(n),
                    None => MoveStep::Failed,
                }
            },
        },
{
    match tried {
        None => MoveStep::Try(MoveStrategy::Placement),
        Some(s) => {
            if on_target {
                return MoveStep::Done { maximize_again: was_maximized };
            }
            match s {
                MoveStrategy::Placement => MoveStep::Try(MoveStrategy::SetPosition),
                MoveStrategy::SetPosition => MoveStep::Try(MoveStrategy::MoveWindow),
                MoveStrategy::MoveWindow => MoveStep::Try(MoveStrategy::HideMoveShow),
                MoveStrategy::HideMoveShow => if is_folder {
                    MoveStep::Try(MoveStrategy::WinShiftArrow)
                } else {
                    MoveStep::Try(MoveStrategy::PostMove)
                },
                MoveStrategy::WinShiftArrow => MoveStep::Try(MoveStrategy::PostMove),
                MoveStrategy::PostMove => MoveStep::Try(MoveStrategy::RestoreThenPosition),
                MoveStrategy::RestoreThenPosition => MoveStep::Failed,
            }
        },
    }
}

/// The index of the first window of `hwnd`, from `k` on (-1 for none).
pub open spec fn info_index_from(windows: Seq<WindowInfo>, hwnd: WindowHandle, k: int) -> int
    decreases windows.len() - k,
{
    if k < 0 || k >= windows.len() {
        -1
    } else if windows[k].hwnd == hwnd {
        k
    } else {
        info_index_from(windows, hwnd, k + 1)
    }
}

proof fn lemma_info_index_from(windows: Seq<WindowInfo>, hwnd: WindowHandle, k: int)
    requires
        0 <= k,
    ensures
        info_index_from(windows, hwnd, k) == -1 || k <= info_index_from(windows, hwnd, k) < windows.len(),
    decreases windows.len() - k,
{
    if k < windows.len() {
        lemma_info_index_from(windows, hwnd, k + 1);
    }
}

/// The result of moving one window in a smart migration.
#[derive(Debug, Clone)]
pub struct SmartMigrateResult {
    pub hwnd: WindowHandle,
    pub success: bool,
    /// Whether the window was minimized before, and so was restored and minimized again.
    pub was_minimized: bool,
    /// The message of the failure, if it failed.
    pub error: Option<String>,
}

impl SmartMigrateResult {
    /// The result of moving window `hwnd`, minimized before when `was_minimized`, from how
    /// the move went: a success, or a failure with the error's message. A window minimized
    /// before is minimized again after a successful move.
    pub fn from_outcome(hwnd: WindowHandle, was_minimized: bool, outcome: &Result<(), PlatformError>) -> (r: SmartMigrateResult)
        ensures
            r.hwnd == hwnd,
            r.was_minimized == was_minimized,
            r.success == outcome is Ok,
            match outcome {
                Ok(_) => r.error is None,
                Err(e) => r.error matches Some(m) && m@ == e.message_text(),
            },
    {
        match outcome {
            Ok(_) => SmartMigrateResult { hwnd, success: true, was_minimized, error: None },
            Err(e) => SmartMigrateResult { hwnd, success: false, was_minimized, error: Some(e.message()) },
        }
    }

    /// Whether the window is minimized again after the move: it was minimized before and the
    /// move succeeded.
    pub fn minimize_again(&self) -> (r: bool)
        ensures
            r == (self.success && self.was_minimized),
    {
        self.success && self.was_minimized
    }
}

/// Moves windows between monitors; the moves themselves are made outside the library.
#[derive(Debug, Clone, Copy)]
pub struct WindowManagerService {
    pub platform: WindowsPlatform,
}

impl WindowManagerService {
    pub fn new() -> (r: Self) {
        WindowManagerService { platform: WindowsPlatform::new() }
    }

    /// The window `hwnd` among the windows the system listed: the first of that handle, or
    /// `WindowNotFound`.
    pub fn get_window_info(&self, windows: Vec<WindowInfo>, hwnd: WindowHandle) -> (r: Result<WindowInfo, PlatformError>)
        ensures
            ({
                let k = info_index_from(windows@, hwnd, 0);
                &&& k < 0 ==> r == Err::<WindowInfo, PlatformError>(PlatformError::WindowNotFound)
                &&& k >= 0 ==> r == Ok::<WindowInfo, PlatformError>(windows@[k])
            }),
    {
        proof {
            lemma_info_index_from(windows@, hwnd, 0);
        }
        let mut list = windows;
        let ghost all = list@;
        let mut k: usize = 0;
        while k < list.len()
            invariant
                all == list@,
                all == windows@,
                k <= list@.len(),
                info_index_from(all, hwnd, 0) == info_index_from(all, hwnd, k as int),
            decreases list.len() - k,
        {
            if list[k].hwnd.0 == hwnd.0 {
                assert(all[k as int].hwnd == hwnd);
                assert(info_index_from(all, hwnd, k as int) == k);
                let w = list.swap_remove(k);
                assert(w == all[k as int]);
                return Ok(w);
            }
            k = k + 1;
        }
        Err(PlatformError::WindowNotFound)
    }

    /// Whether a window's DPI (`actual_dpi`, as the system tells it) is the expected one.
    pub fn verify_dpi_scaling(&self, actual_dpi: u32, expected_dpi: u32) -> (r: Result<bool, PlatformError>)
        ensures
            r == Ok::<bool, PlatformError>(actual_dpi == expected_dpi),
    {
        Ok(actual_dpi == expected_dpi)
    }

    /// Checks a window before it is moved to `target_monitor`: it must be among the windows
    /// the system listed, else `WindowNotFound`; `Ok` with its details, kept as they were
    /// before the move.
    pub fn migrate_window(&self, windows: Vec<WindowInfo>, hwnd: WindowHandle, target_monitor: MonitorId) -> (r: Result<WindowInfo, PlatformError>)
        ensures
            ({
                let k = info_index_from(windows@, hwnd, 0);
                &&& k < 0 ==> r == Err::<WindowInfo, PlatformError>(PlatformError::WindowNotFound)
                &&& k >= 0 ==> r == Ok::<WindowInfo, PlatformError>(windows@[k])
            }),
    {
        self.get_window_info(windows, hwnd)
    }

    /// The result of moving windows one after the other, which stops at the first failure:
    /// that failure, or `Ok` when every move (`outcomes`, in order) succeeded.
    pub fn migrate_windows(&self, outcomes: Vec<Result<(), PlatformError>>) -> (r: Result<(), PlatformError>)
        ensures
            (forall|k: int| 0 <= k < outcomes@.len() ==> outcomes@[k] is Ok) ==> r is Ok,
            (exists|k: int| 0 <= k < outcomes@.len() && outcomes@[k] is Err) ==> r is Err,
            r matches Err(e) ==> exists|k: int|
                0 <= k < outcomes@.len() && outcomes@[k] == Err::<(), PlatformError>(e) && forall|m: int|
                    0 <= m < k ==> outcomes@[m] is Ok,
    {
        let mut list = outcomes;
        let ghost all = list@;
        let mut k: usize = 0;
        while k < list.len()
            invariant
                all == list@,
                all == outcomes@,
                k <= list@.len(),
                forall|m: int| 0 <= m < k ==> all[m] is Ok,
            decreases list.len() - k,
        {
            if list[k].is_err() {
                let e = list.swap_remove(k);
                assert(e == all[k as int]);
                assert(e is Err);
                return e;
            }
            k = k + 1;
        }
        Ok(())
    }
}

/// What to do next while moving windows one after the other.
#[derive(Debug)]
pub enum BatchStep {
    /// Move the window of this index.
    Move(usize),
    /// Stop, with this result.
    Finish(Result<(), PlatformError>),
}

/// The step after `done` of `count` windows have been handled, the last with outcome `last`
/// (`Ok` before the first): stop at a failure with it; otherwise move the next window, or
/// finish with `Ok` when none is left.
pub open spec fn batch_step(count: nat, done: nat, last: Result<(), PlatformError>) -> BatchStep {
    match last {
        Err(e) => BatchStep::Finish(Err(e)),
        Ok(_) => if done < count {
            BatchStep::Move(done as usize)
        } else {
            BatchStep::Finish(Ok(()))
        },
    }
}

/// A whole run of steps over the outcomes of the moves, from `done` windows handled and the
/// last outcome `last`: how many windows get moved in all, and the result.
pub open spec fn batch_run(
    outcomes: Seq<Result<(), PlatformError>>,
    done: nat,
    last: Result<(), PlatformError>,
) -> (nat, Result<(), PlatformError>)
    decreases outcomes.len() - done,
{
    match batch_step(outcomes.len(), done, last) {
        BatchStep::Move(i) => if done < outcomes.len() {
            batch_run(outcomes, done + 1, outcomes[done as int])
        } else {
            (done, last)
        },
        BatchStep::Finish(r) => (done, r),
    }
}

/// The index of the first failure among `outcomes`, from `k` on (their number for none).
pub open spec fn first_failure_from(outcomes: Seq<Result<(), PlatformError>>, k: int) -> int
    decreases outcomes.len() - k,
{
    if k < 0 || k >= outcomes.len() {
        outcomes.len() as int
    } else if outcomes[k] is Err {
        k
    } else {
        first_failure_from(outcomes, k + 1)
    }
}

proof fn lemma_batch_run(outcomes: Seq<Result<(), PlatformError>>, done: nat)
    requires
        done <= outcomes.len(),
        forall|m: int| 0 <= m < done ==> outcomes[m] is Ok,
    ensures
        ({
            let f = first_failure_from(outcomes, done as int);
            &&& batch_run(outcomes, done, Ok(())) == if f < outcomes.len() {
                ((f + 1) as nat, outcomes[f])
            } else {
                (outcomes.len(), Ok::<(), PlatformError>(()))
            }
        }),
    decreases outcomes.len() - done,
{
    lemma_first_failure(outcomes, done as int);
    if done < outcomes.len() {
        if outcomes[done as int] is Ok {
            lemma_batch_run(outcomes, done + 1);
            assert(batch_run(outcomes, done + 1, outcomes[done as int]) == batch_run(outcomes, done + 1, Ok(())));
            assert(first_failure_from(outcomes, done as int) == first_failure_from(outcomes, done + 1 as int));
        } else {
            reveal_with_fuel(batch_run, 2);
            assert(first_failure_from(outcomes, done as int) == done);
        }
    }
}

/// Moving windows step by step moves them in order up to and including the first failure and
/// no further, and ends with that failure, or with `Ok` after moving all of them: the windows
/// moved and the result are what [`WindowManagerService::migrate_windows`] describes.
pub proof fn law_batch_stops_at_first_failure(outcomes: Seq<Result<(), PlatformError>>)
    ensures
        ({
            let f = first_failure_from(outcomes, 0);
            &&& f < outcomes.len() ==> batch_run(outcomes, 0, Ok(())) == ((f + 1) as nat, outcomes[f])
            &&& f < outcomes.len() ==> forall|m: int| 0 <= m < f ==> outcomes[m] is Ok
            &&& f >= outcomes.len() ==> batch_run(outcomes, 0, Ok(())) == (
                outcomes.len(),
                Ok::<(), PlatformError>(()),
            )
        }),
{
    lemma_batch_run(outcomes, 0);
    lemma_first_failure(outcomes, 0);
}

proof fn lemma_first_failure(outcomes: Seq<Result<(), PlatformError>>, k: int)
    requires
        0 <= k <= outcomes.len(),
    ensures
        k <= first_failure_from(outcomes, k) <= outcomes.len(),
        forall|m: int| k <= m < first_failure_from(outcomes, k) ==> outcomes[m] is Ok,
        first_failure_from(outcomes, k) < outcomes.len() ==> outcomes[first_failure_from(outcomes, k)] is Err,
    decreases outcomes.len() - k,
{
    if k < outcomes.len() && outcomes[k] is Ok {
        lemma_first_failure(outcomes, k + 1);
    }
}

impl WindowManagerService {
    /// The next step of moving `count` windows one after the other, after `done` of them
    /// were handled and the last had outcome `last` (`Ok(())` before the first).
    pub fn next_batch_step(&self, count: usize, done: usize, last: Result<(), PlatformError>) -> (r: BatchStep)
        requires
            done <= count,
        ensures
            r == batch_step(count as nat, done as nat, last),
    {
        match last {
            Err(e) => BatchStep::Finish(Err(e)),
            Ok(_) => if done < count {
                BatchStep::Move(done)
            } else {
                BatchStep::Finish(Ok(()))
            },
        }
    }
}

/// What follows the move of a window to another monitor.
#[derive(Debug, Clone)]
pub enum MigrationFollowUp {
    /// The move succeeded.
    Done,
    /// The move failed: put the window back where it was, shown or hidden as it was, then
    /// report the failure.
    RestoreThenFail { hwnd: WindowHandle, rect: WindowRect, visible: bool, error: PlatformError },
}

/// What follows a move: nothing when it succeeded; when it failed, putting the window back
/// at the place and in the visibility it had before (`original`) and reporting the failure.
pub fn migration_follow_up(original: &WindowInfo, outcome: Result<(), PlatformError>) -> (r: MigrationFollowUp)
    ensures
        match outcome {
            Ok(_) => r is Done,
            Err(e) => r == MigrationFollowUp::RestoreThenFail {
                hwnd: original.hwnd,
                rect: original.rect,
                visible: original.is_visible,
                error: e,
            },
        },
{
    match outcome {
        Ok(_) => MigrationFollowUp::Done,
        Err(e) => MigrationFollowUp::RestoreThenFail {
                hwnd: original.hwnd,
                rect: original.rect,
                visible: original.is_visible,
                error: e,
            },
    }
}

/// How many moves succeeded among the first `n`.
pub open spec fn successes_upto(outcomes: Seq<bool>, n: int) -> nat
    decreases n,
{
    if n <= 0 {
        0
    } else {
        successes_upto(outcomes, n - 1) + if outcomes[n - 1] {
            1nat
        } else {
            0nat
        }
    }
}

proof fn lemma_successes_bound(outcomes: Seq<bool>, n: int)
    requires
        0 <= n <= outcomes.len(),
    ensures
        successes_upto(outcomes, n) <= n,
    decreases n,
{
    if n > 0 {
        lemma_successes_bound(outcomes, n - 1);
    }
}

/// The successes of a batch of moves and its failures make up the whole batch.
pub proof fn law_summary_counts(outcomes: Seq<bool>)
    ensures
        successes_upto(outcomes, outcomes.len() as int) <= outcomes.len(),
{
    lemma_successes_bound(outcomes, outcomes.len() as int);
}

/// The summary of a batch of moves: "迁移完成: {successes} 成功, {failures} 失败".
pub open spec fn migration_summary_text(outcomes: Seq<bool>) -> Seq<char> {
    let ok = successes_upto(outcomes, outcomes.len() as int);
    "迁移完成: "@ + dec_text(ok) + " 成功, "@ + dec_text((outcomes.len() - ok) as nat) + " 失败"@
}

/// The summary of a batch of moves, from whether each one succeeded.
pub fn migration_summary(outcomes: &Vec<bool>) -> (r: String)
    ensures
        r@ == migration_summary_text(outcomes@),
{
    let mut ok: usize = 0;
    let mut k: usize = 0;
    while k < outcomes.len()
        invariant
            k <= outcomes@.len(),
            ok == successes_upto(outcomes@, k as int),
        decreases outcomes.len() - k,
    {
        proof {
            lemma_successes_bound(outcomes@, k as int);
        }
        if outcomes[k] {
            ok = ok + 1;
        }
        k = k + 1;
    }
    proof {
        lemma_successes_bound(outcomes@, outcomes@.len() as int);
    }
    let failed = outcomes.len() - ok;
    let mut s = String::from_str("迁移完成: ");
    let oks = decimal_u64(ok as u64);
    s.append(oks.as_str());
    s.append(" 成功, ");
    let fails = decimal_u64(failed as u64);
    s.append(fails.as_str());
    s.append(" 失败");
    s
}

} // verus!
