//! The data that windows, monitors, focus events and recommendations are described by.
//!
//! Times are whole milliseconds since the Unix epoch (UTC); durations are whole seconds.
use vstd::prelude::*;

verus! {

/// A top-level window, by its native handle value.
#[derive(Debug, Clone, Copy, PartialEq, Eq, Hash, Structural)]
pub struct WindowHandle(pub i64);

/// A display monitor, by its native handle value.
#[derive(Debug, Clone, Copy, PartialEq, Eq, Hash, Structural)]
pub struct MonitorId(pub i64);

/// A window rectangle in screen coordinates.
#[derive(Debug, Clone, Copy, PartialEq, Eq, Structural)]
pub struct WindowRect {
    pub left: i32,
    pub top: i32,
    pub right: i32,
    pub bottom: i32,
}

impl WindowRect {
    /// The width, `right - left`.
    pub fn width(&self) -> (w: i32)
        requires
            i32::MIN <= self.right - self.left <= i32::MAX,
        ensures
            w == self.right - self.left,
    {
        self.right - self.left
    }

    /// The height, `bottom - top`.
    pub fn height(&self) -> (h: i32)
        requires
            i32::MIN <= self.bottom - self.top <= i32::MAX,
        ensures
            h == self.bottom - self.top,
    {
        self.bottom - self.top
    }

    /// Whether `other` lies entirely within this rectangle (edges may touch).
    pub fn contains(&self, other: &WindowRect) -> (r: bool)
        ensures
            r == (self.left <= other.left && self.top <= other.top && self.right >= other.right
                && self.bottom >= other.bottom),
    {
        self.left <= other.left && self.top <= other.top && self.right >= other.right
            && self.bottom >= other.bottom
    }
}

/// A monitor's full and work-area rectangles.
#[derive(Debug, Clone, Copy, PartialEq, Eq, Structural)]
pub struct MonitorRect {
    pub left: i32,
    pub top: i32,
    pub right: i32,
    pub bottom: i32,
    pub work_left: i32,
    pub work_top: i32,
    pub work_right: i32,
    pub work_bottom: i32,
}

/// A visible top-level window.
#[derive(Debug, Clone)]
pub struct WindowInfo {
    pub hwnd: WindowHandle,
    pub pid: u32,
    pub process_name: String,
    pub window_title_hash: String,
    pub rect: WindowRect,
    pub monitor_id: MonitorId,
    pub is_visible: bool,
}

/// A display monitor.
#[derive(Debug, Clone)]
pub struct MonitorInfo {
    pub id: MonitorId,
    pub name: String,
    pub rect: MonitorRect,
    pub dpi: u32,
    pub is_primary: bool,
}

/// The process that owns a window.
#[derive(Debug, Clone)]
pub struct ProcessInfo {
    pub pid: u32,
    pub process_name: String,
    pub window_title_hash: String,
}

/// How often and how recently an application was used.
#[derive(Debug, Clone)]
pub struct AppUsageStats {
    pub process_name: String,
    /// Total focus time in seconds.
    pub total_focus_time: u64,
    pub focus_count: u32,
    /// Last use, in milliseconds since the Unix epoch.
    pub last_used: i64,
}

/// A single application recommended for its dwell time.
#[derive(Debug, Clone)]
pub struct SingletonRecommendation {
    pub hwnd: WindowHandle,
    pub process_name: String,
    pub dwell_time_secs: u64,
}

/// A recommended window with its details.
#[derive(Debug, Clone)]
pub struct RecommendationWindowInfo {
    pub hwnd: WindowHandle,
    pub process_name: String,
    pub dwell_time_secs: u64,
}

/// A group of related recommended windows.
#[derive(Debug, Clone)]
pub struct RecommendationGroupInfo {
    pub windows: Vec<RecommendationWindowInfo>,
    pub label: String,
}

/// The recommendation lists shown to the user.
#[derive(Debug, Clone)]
pub struct RecommendationResponse {
    pub groups: Vec<RecommendationGroupInfo>,
}

/// The user's recommendation settings.
#[derive(Debug, Clone)]
pub struct RecommendationSettings {
    /// How many recommendation lists to show (1-3).
    pub list_count: usize,
    /// At most this many windows per list (2-10).
    pub max_windows_per_list: usize,
    /// Frequent combination: least effective dwell time, in seconds.
    pub common_combo_min_dwell_secs: u64,
    /// Frequent combination: a mouse pause at least this long, in seconds, counts as idle.
    pub common_combo_mouse_idle_threshold_secs: u64,
    /// Recently used: a session shorter than this, in seconds, is a short one.
    pub recent_max_dwell_secs: u64,
    /// Recently used: least number of switches to a window.
    pub recent_min_switch_count: u32,
    /// Process names never recommended.
    pub ignore_list: Vec<String>,
    /// Online model API key.
    pub api_key: Option<String>,
    /// Online model API endpoint.
    pub api_endpoint: Option<String>,
    /// Online model name.
    pub model_name: Option<String>,
}

impl Default for RecommendationSettings {
    /// One list of at most 5 windows; frequent combinations need 600 s of effective dwell
    /// with 180 s mouse pauses counted as idle; frequent switching means sessions under 300 s
    /// and at least 3 switches; nothing ignored; no online model.
    fn default() -> (r: Self)
        ensures
            r.list_count == 1,
            r.max_windows_per_list == 5,
            r.common_combo_min_dwell_secs == 600,
            r.common_combo_mouse_idle_threshold_secs == 180,
            r.recent_max_dwell_secs == 300,
            r.recent_min_switch_count == 3,
            r.ignore_list@.len() == 0,
            r.api_key is None,
            r.api_endpoint is None,
            r.model_name is None,
    {
        RecommendationSettings {
            list_count: 1,
            max_windows_per_list: 5,
            common_combo_min_dwell_secs: 600,
            common_combo_mouse_idle_threshold_secs: 180,
            recent_max_dwell_secs: 300,
            recent_min_switch_count: 3,
            ignore_list: Vec::new(),
            api_key: None,
            api_endpoint: None,
            model_name: None,
        }
    }
}

/// A mouse movement noticed while a window had the focus.
#[derive(Debug, Clone, Copy, PartialEq, Eq, Structural)]
pub struct MouseActivityEvent {
    /// When, in milliseconds since the Unix epoch.
    pub timestamp: i64,
    pub x: i32,
    pub y: i32,
    /// The window that had the focus.
    pub hwnd: WindowHandle,
}

/// A window's dwell record, with its effective (non-idle) time.
#[derive(Debug, Clone)]
pub struct WindowDwellRecord {
    pub hwnd: WindowHandle,
    pub process_name: String,
    /// Total dwell time, in seconds.
    pub total_dwell_secs: u64,
    /// Dwell time without mouse idle time, in seconds.
    pub effective_dwell_secs: u64,
    /// How many times the window was switched to.
    pub switch_count: u32,
    /// The length of each stay, in seconds.
    pub dwell_sessions: Vec<u64>,
    /// Last active, in milliseconds since the Unix epoch.
    pub last_active: i64,
}

/// Per-application usage figures, for choosing what to ignore.
#[derive(Debug, Clone)]
pub struct WindowStats {
    pub process_name: String,
    pub total_dwell_secs: u64,
    pub effective_dwell_secs: u64,
    pub switch_count: u32,
    pub is_ignored: bool,
}

/// A stored dwell record.
#[derive(Debug, Clone)]
pub struct DwellRecordRow {
    pub id: i64,
    pub hwnd: i64,
    pub process_name: String,
    pub dwell_secs: i64,
    pub switch_count: i32,
    pub last_active: i64,
    pub created_at: i64,
}

/// A stored co-occurrence count.
#[derive(Debug, Clone)]
pub struct CoOccurrenceRow {
    pub id: i64,
    pub process1: String,
    pub process2: String,
    pub count: i32,
    pub updated_at: i64,
}

/// Stored recommendation settings.
#[derive(Debug, Clone)]
pub struct RecommendationSettingsRow {
    pub id: i64,
    pub settings_json: String,
    pub updated_at: i64,
}

/// Where a recommendation comes from.
#[derive(Debug, Clone, Copy, PartialEq, Eq, Structural)]
pub enum RecommendationSource {
    LocalRule,
    OnlineModel,
}

/// A window gaining the focus.
#[derive(Debug, Clone)]
pub struct WindowFocusEvent {
    pub hwnd: WindowHandle,
    pub pid: u32,
    pub process_name: String,
    pub window_title_hash: String,
    /// When, in milliseconds since the Unix epoch.
    pub timestamp: i64,
    pub monitor_id: MonitorId,
}

/// A copy of a focus event.
pub fn copy_event(e: &WindowFocusEvent) -> (r: WindowFocusEvent)
    ensures
        r == *e,
{
    WindowFocusEvent {
        hwnd: e.hwnd,
        pid: e.pid,
        process_name: e.process_name.clone(),
        window_title_hash: e.window_title_hash.clone(),
        timestamp: e.timestamp,
        monitor_id: e.monitor_id,
    }
}

} // verus!
