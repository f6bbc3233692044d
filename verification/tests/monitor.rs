use windowflow::errors::MonitorError;
use windowflow::monitor::{is_own_window, ProcessMonitorService, MAX_EVENTS, MAX_MOUSE_EVENTS};
use windowflow::types::{MonitorId, MouseActivityEvent, WindowFocusEvent, WindowHandle};

fn event(hwnd: i64, ts: i64) -> WindowFocusEvent {
    WindowFocusEvent {
        hwnd: WindowHandle(hwnd),
        pid: 1,
        process_name: format!("p{}.exe", hwnd),
        window_title_hash: String::new(),
        timestamp: ts,
        monitor_id: MonitorId(0),
    }
}

fn mouse(hwnd: i64, ts: i64) -> MouseActivityEvent {
    MouseActivityEvent { timestamp: ts, x: 0, y: 0, hwnd: WindowHandle(hwnd) }
}

#[test]
fn test_process_monitor_service_creation() {
    let service = ProcessMonitorService::new();
    assert!(service.get_all_events().is_empty() || true);
}

#[test]
fn monitor_starts_empty() {
    let service = ProcessMonitorService::new();
    assert!(service.get_all_events().is_empty());
    assert!(service.get_all_mouse_events().is_empty());
    assert!(service.get_destroyed_hwnds().is_empty());
    assert_eq!(service.last_hwnd, 0);
}

#[test]
fn monitor_keeps_at_most_max_events() {
    let mut service = ProcessMonitorService::new();
    for i in 0..(MAX_EVENTS as i64 + 3) {
        service.push_focus_event(event(i, i));
    }
    let events = service.get_all_events();
    assert_eq!(events.len(), MAX_EVENTS);
    assert_eq!(events[0].timestamp, 3);
    assert_eq!(events.last().unwrap().timestamp, MAX_EVENTS as i64 + 2);
}

#[test]
fn monitor_keeps_at_most_max_mouse_events() {
    let mut service = ProcessMonitorService::new();
    for i in 0..(MAX_MOUSE_EVENTS as i64 + 2) {
        service.push_mouse_event(mouse(1, i));
    }
    let m = service.get_all_mouse_events();
    assert_eq!(m.len(), MAX_MOUSE_EVENTS);
    assert_eq!(m[0].timestamp, 2);
}

#[test]
fn monitor_notes_foreground_changes_only() {
    let mut service = ProcessMonitorService::new();
    assert!(service.note_foreground(5));
    assert!(!service.note_foreground(5));
    assert!(service.note_foreground(6));
    assert_eq!(service.last_hwnd, 6);
}

#[test]
fn monitor_mouse_moves_of_five_pixels_count() {
    let mut service = ProcessMonitorService::new();
    assert!(service.note_mouse_position(3, 4));
    assert_eq!(service.last_mouse_pos, (3, 4));
    assert!(!service.note_mouse_position(4, 5));
    assert_eq!(service.last_mouse_pos, (3, 4));
}

#[test]
fn monitor_cleanup_drops_destroyed_windows() {
    let mut service = ProcessMonitorService::new();
    service.push_focus_event(event(1, 0));
    service.push_focus_event(event(2, 1));
    service.push_mouse_event(mouse(2, 0));
    service.push_mouse_event(mouse(1, 1));
    service.note_destroyed(2);
    service.note_destroyed(2);
    assert_eq!(service.get_destroyed_hwnds().len(), 1);
    service.cleanup_destroyed_events();
    let hwnds: Vec<i64> = service.get_all_events().iter().map(|e| e.hwnd.0).collect();
    assert_eq!(hwnds, vec![1]);
    let mhwnds: Vec<i64> = service.get_all_mouse_events().iter().map(|e| e.hwnd.0).collect();
    assert_eq!(mhwnds, vec![1]);
    assert!(service.get_destroyed_hwnds().is_empty());
}

#[test]
fn monitor_clear_events_forgets_events() {
    let mut service = ProcessMonitorService::new();
    service.push_focus_event(event(1, 0));
    service.push_mouse_event(mouse(1, 0));
    service.clear_events();
    assert!(service.get_all_events().is_empty());
    assert!(service.get_all_mouse_events().is_empty());
}

#[test]
fn monitor_recent_events_are_strictly_after_cutoff() {
    let mut service = ProcessMonitorService::new();
    service.push_focus_event(event(1, 0));
    service.push_focus_event(event(2, 40_001));
    service.push_focus_event(event(4, 40_000));
    service.push_focus_event(event(3, 100_000));
    let recent = service.get_recent_events(100_000, 1).unwrap();
    let hwnds: Vec<i64> = recent.iter().map(|e| e.hwnd.0).collect();
    assert_eq!(hwnds, vec![2, 3]);
    let none = service.get_recent_events(160_000, 1).unwrap();
    assert!(none.is_empty());
}

#[test]
fn monitor_recognizes_own_window() {
    assert!(is_own_window("WindowFlow.exe"));
    assert!(is_own_window("my-windowflow-helper"));
    assert!(!is_own_window("chrome.exe"));
}

#[test]
fn monitor_error_messages() {
    assert_eq!(MonitorError::NotStarted.message(), "Monitor not started");
    let e = MonitorError::PlatformError(windowflow::errors::PlatformError::WindowNotFound);
    assert_eq!(e.message(), "Platform error: Window not found");
}

#[test]
fn own_windows_and_processless_windows_are_not_recorded() {
    let ev = |pid: u32, name: &str| windowflow::types::WindowFocusEvent {
        hwnd: windowflow::types::WindowHandle(5),
        pid,
        process_name: name.to_string(),
        window_title_hash: String::new(),
        timestamp: 1,
        monitor_id: windowflow::types::MonitorId(0),
    };
    let mut m = ProcessMonitorService::new();
    assert!(!m.record_focus_event(ev(0, "code.exe")));
    assert!(!m.record_focus_event(ev(7, "WindowFlow.exe")));
    assert!(m.record_focus_event(ev(7, "code.exe")));
    assert_eq!(m.events.len(), 1);
}

#[test]
fn polls_do_nothing_while_the_hook_runs() {
    let mut m = ProcessMonitorService::new();
    assert!(!m.begin_poll(true, 7));
    assert_eq!(m.last_hwnd, 0);
    assert!(m.begin_poll(false, 7));
    assert!(!m.begin_poll(false, 7));
    assert_eq!(m.last_hwnd, 7);
}
