//! What the commands answer and are asked, as plain values.
use vstd::prelude::*;
use crate::types::{MonitorInfo, WindowFocusEvent, WindowInfo};

verus! {

/// A window as the user interface sees it.
#[derive(Debug, Clone)]
pub struct WindowInfoResponse {
    pub hwnd: i64,
    pub pid: u32,
    pub process_name: String,
    pub window_title_hash: String,
    pub monitor_id: i64,
    pub is_visible: bool,
}

/// A monitor as the user interface sees it.
#[derive(Debug, Clone)]
pub struct MonitorInfoResponse {
    pub id: i64,
    pub name: String,
    pub is_primary: bool,
    pub dpi: u32,
}

/// A request to move one window to a monitor.
#[derive(Debug, Clone, Copy)]
pub struct MigrateWindowRequest {
    pub hwnd: i64,
    pub target_monitor_id: i64,
}

/// A request to move windows to a monitor.
#[derive(Debug, Clone)]
pub struct MigrateWindowsRequest {
    pub hwnds: Vec<i64>,
    pub target_monitor_id: i64,
}

/// Where the mouse cursor is.
#[derive(Debug, Clone, Copy)]
pub struct CursorPositionResponse {
    pub x: i32,
    pub y: i32,
}

/// The monitor a window is on.
#[derive(Debug, Clone, Copy)]
pub struct MonitorIdResponse {
    pub monitor_id: i64,
}

impl WindowInfoResponse {
    /// A listed window, with its handle and monitor as plain numbers.
    pub fn from_window(w: &WindowInfo) -> (r: Self)
        ensures
            r.hwnd == w.hwnd.0,
            r.pid == w.pid,
            r.process_name@ == w.process_name@,
            r.window_title_hash@ == w.window_title_hash@,
            r.monitor_id == w.monitor_id.0,
            r.is_visible == w.is_visible,
    {
        WindowInfoResponse {
            hwnd: w.hwnd.0,
            pid: w.pid,
            process_name: w.process_name.clone(),
            window_title_hash: w.window_title_hash.clone(),
            monitor_id: w.monitor_id.0,
            is_visible: w.is_visible,
        }
    }

    /// The window of a focus event; a window that had the focus counts as visible.
    pub fn from_event(e: &WindowFocusEvent) -> (r: Self)
        ensures
            r.hwnd == e.hwnd.0,
            r.pid == e.pid,
            r.process_name@ == e.process_name@,
            r.window_title_hash@ == e.window_title_hash@,
            r.monitor_id == e.monitor_id.0,
            r.is_visible,
    {
        WindowInfoResponse {
            hwnd: e.hwnd.0,
            pid: e.pid,
            process_name: e.process_name.clone(),
            window_title_hash: e.window_title_hash.clone(),
            monitor_id: e.monitor_id.0,
            is_visible: true,
        }
    }
}

impl MonitorInfoResponse {
    /// A listed monitor, with its id as a plain number.
    pub fn from_monitor(m: &MonitorInfo) -> (r: Self)
        ensures
            r.id == m.id.0,
            r.name@ == m.name@,
            r.is_primary == m.is_primary,
            r.dpi == m.dpi,
    {
        MonitorInfoResponse { id: m.id.0, name: m.name.clone(), is_primary: m.is_primary, dpi: m.dpi }
    }
}

} // verus!
