use windowflow::panel::{badge_pixel, badge_plan, monitor_label, monitor_number};
use windowflow::queries::{model_inputs, recent_dwell_fits, select_current_event, window_stats, window_stats_fit};
use windowflow::types::{MonitorId, MonitorInfo, MonitorRect, WindowFocusEvent, WindowHandle};

fn event(hwnd: i64, name: &str, ts: i64) -> WindowFocusEvent {
    WindowFocusEvent {
        hwnd: WindowHandle(hwnd),
        pid: 1,
        process_name: name.to_string(),
        window_title_hash: String::new(),
        timestamp: ts,
        monitor_id: MonitorId(0),
    }
}

fn monitor(id: i64, name: &str, primary: bool) -> MonitorInfo {
    MonitorInfo {
        id: MonitorId(id),
        name: name.to_string(),
        rect: MonitorRect { left: 0, top: 0, right: 10, bottom: 10, work_left: 100, work_top: 50, work_right: 10, work_bottom: 10 },
        dpi: 96,
        is_primary: primary,
    }
}

#[test]
fn stats_sum_gaps_between_a_process_events() {
    let events = vec![
        event(1, "a.exe", 0),
        event(2, "b.exe", 10_000),
        event(1, "a.exe", 40_000),
        event(3, "c.exe", 50_000),
        event(4, "a.exe", 100_000),
    ];
    let ignore = vec!["b.exe".to_string()];
    let stats = window_stats(&events, &ignore);
    let view: Vec<(String, u64, u32, bool)> =
        stats.iter().map(|s| (s.process_name.clone(), s.total_dwell_secs, s.switch_count, s.is_ignored)).collect();
    assert_eq!(
        view,
        vec![
            ("a.exe".to_string(), 100, 3, false),
            ("b.exe".to_string(), 0, 1, true),
            ("c.exe".to_string(), 0, 1, false),
        ]
    );
}

#[test]
fn current_event_prefers_the_window() {
    let events = vec![event(1, "a", 0), event(2, "b", 1), event(1, "a", 2), event(3, "c", 3)];
    assert_eq!(select_current_event(&events, 1), Some(2));
    assert_eq!(select_current_event(&events, 9), Some(3));
    assert_eq!(select_current_event(&Vec::new(), 1), None);
}

#[test]
fn model_inputs_of_recent_events() {
    let events = vec![
        event(9, "old.exe", -1),
        event(1, "a.exe", 0),
        event(2, "b.exe", 100_000),
        event(1, "a.exe", 1_000_000),
        event(3, "b.exe", 1_010_000),
    ];
    let m = model_inputs(&events, -1, 300).unwrap();
    let dwell: Vec<(i64, String, u64)> = m.dwell.iter().map(|d| (d.hwnd, d.process_name.clone(), d.secs)).collect();
    assert_eq!(
        dwell,
        vec![(1, "a.exe".to_string(), 110), (2, "b.exe".to_string(), 900)]
    );
    let switches: Vec<(String, u32)> = m.switches.iter().map(|s| (s.process_name.clone(), s.count)).collect();
    assert_eq!(switches, vec![("a.exe".to_string(), 1)]);
    let co: Vec<(String, String, u32)> =
        m.co_occurrence.iter().map(|c| (c.first.clone(), c.second.clone(), c.count)).collect();
    assert_eq!(co, vec![("a.exe".to_string(), "b.exe".to_string(), 1)]);
    assert!(model_inputs(&events, 1_000_000, 300).is_none());
}

#[test]
fn monitor_labels() {
    assert_eq!(monitor_number("\\\\.\\DISPLAY2"), "2");
    assert_eq!(monitor_number("DISPLAY1DISPLAY7"), "7");
    assert_eq!(monitor_number("Generic"), "Generic");
    assert_eq!(monitor_label("\\\\.\\DISPLAY1", true), "显示器 1 (主)");
    assert_eq!(monitor_label("\\\\.\\DISPLAY3", false), "显示器 3");
}

#[test]
fn badge_goes_to_the_work_area_corner() {
    let monitors = vec![monitor(5, "\\\\.\\DISPLAY1", true), monitor(6, "\\\\.\\DISPLAY2", false)];
    let plan = badge_plan(&monitors, 6).unwrap();
    assert_eq!(plan.label, "显示器 2");
    assert_eq!((plan.x, plan.y), (124, 74));
    assert!(badge_plan(&monitors, 7).is_none());
}

#[test]
fn badge_pixels_get_alpha() {
    // the background keeps its alpha, premultiplied
    assert_eq!(badge_pixel(0xE61B1B1B), 0xE6181818);
    // white text is opaque
    assert_eq!(badge_pixel(0x00FFFFFF), 0xFFFFFFFF);
    // the first and third channel bytes trade places
    assert_eq!(badge_pixel(0x00FF0000), 0xFF0000FF);
}

#[test]
fn recent_dwell_fits_unless_one_window_piles_up_time() {
    let events = vec![event(1, "a.exe", 0), event(2, "b.exe", 10_000), event(1, "a.exe", 20_000)];
    assert!(recent_dwell_fits(&events, -1));
    assert!(recent_dwell_fits(&Vec::new(), 0));
    // every rise from i64::MIN to i64::MAX gives window 1 about 1.8e16 s
    let huge: Vec<WindowFocusEvent> = (0..4800)
        .map(|i| if i % 2 == 0 { event(1, "a.exe", i64::MIN + 1) } else { event(2, "b.exe", i64::MAX) })
        .collect();
    assert!(!recent_dwell_fits(&huge, i64::MIN));
}

#[test]
fn window_stats_fit_unless_a_process_piles_up_time() {
    let events = vec![event(1, "a.exe", 0), event(2, "b.exe", 10_000), event(1, "a.exe", 20_000)];
    assert!(window_stats_fit(&events));
    assert!(window_stats_fit(&Vec::new()));
    let huge: Vec<WindowFocusEvent> =
        (0..4800).map(|i| event(1, "a.exe", if i % 2 == 0 { i64::MIN } else { i64::MAX })).collect();
    assert!(!window_stats_fit(&huge));
}
