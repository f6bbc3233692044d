use std::collections::HashSet;
use windowflow::engine::{LiveWindow, RecommendationEngine};
use windowflow::errors::PlatformError;
use windowflow::recommendation::{build_co_occurrence, calculate_dwell_times, RecommendationError};
use windowflow::types::{
    CoOccurrenceRow, DwellRecordRow, MonitorId, MouseActivityEvent, WindowFocusEvent, WindowHandle,
};

fn event(hwnd: i64, name: &str, ts: i64) -> WindowFocusEvent {
    WindowFocusEvent {
        hwnd: WindowHandle(hwnd),
        pid: 100 + hwnd as u32,
        process_name: name.to_string(),
        window_title_hash: "0000000000000000".to_string(),
        timestamp: ts,
        monitor_id: MonitorId(1),
    }
}

fn live(entries: &[(i64, &str)]) -> Vec<LiveWindow> {
    entries
        .iter()
        .map(|(h, n)| LiveWindow { hwnd: *h, process_name: n.to_string() })
        .collect()
}

fn sample_events() -> Vec<WindowFocusEvent> {
    vec![
        event(1, "code.exe", 0),
        event(2, "chrome.exe", 60_000),
        event(1, "code.exe", 120_000),
        event(3, "term.exe", 180_000),
    ]
}

fn sample_live() -> Vec<LiveWindow> {
    live(&[(1, "code.exe"), (2, "chrome.exe"), (3, "term.exe")])
}

#[test]
fn engine_keeps_latest_event_per_window() {
    let mut engine = RecommendationEngine::new();
    engine.update_from_events(&sample_events(), &sample_live());
    let kept: Vec<(i64, i64)> = engine.events.iter().map(|e| (e.hwnd.0, e.timestamp)).collect();
    assert_eq!(kept, vec![(1, 120_000), (2, 60_000), (3, 180_000)]);
}

#[test]
fn engine_drops_events_of_recycled_windows() {
    let mut engine = RecommendationEngine::new();
    // window 2 now belongs to another process, window 3 is gone
    let now = live(&[(1, "code.exe"), (2, "notepad.exe")]);
    engine.update_from_events(&sample_events(), &now);
    let kept: Vec<i64> = engine.events.iter().map(|e| e.hwnd.0).collect();
    assert_eq!(kept, vec![1]);
    assert!(engine.dwell_records.is_empty());
    assert!(engine.co_occurrence.is_empty());
}

#[test]
fn engine_dwell_records_follow_time_order() {
    let mut engine = RecommendationEngine::new();
    engine.update_from_events(&sample_events(), &sample_live());
    let recs: Vec<(i64, String, u64, u32, Vec<u64>)> = engine
        .dwell_records
        .iter()
        .map(|r| (r.hwnd.0, r.process_name.clone(), r.dwell_secs, r.switch_count, r.dwell_sessions.clone()))
        .collect();
    assert_eq!(
        recs,
        vec![
            (2, "chrome.exe".to_string(), 60, 1, vec![60]),
            (1, "code.exe".to_string(), 60, 1, vec![60]),
            (3, "term.exe".to_string(), 0, 1, vec![0]),
        ]
    );
}

#[test]
fn dwell_times_merge_consecutive_events_of_a_window() {
    let events = vec![
        event(1, "a.exe", 0),
        event(1, "a.exe", 10_000),
        event(2, "b.exe", 30_000),
        event(1, "a.exe", 35_500),
    ];
    let recs = calculate_dwell_times(&events);
    let view: Vec<(i64, u64, u32, i64)> =
        recs.iter().map(|r| (r.hwnd.0, r.dwell_secs, r.switch_count, r.last_active)).collect();
    // a: 0 -> 30 s; b: 30 -> 35.5 s (5 s); a again: last stay, 0
    assert_eq!(view, vec![(1, 30, 2, 35_500), (2, 5, 1, 30_000)]);
    assert!(calculate_dwell_times(&vec![event(1, "a.exe", 0)]).is_empty());
}

#[test]
fn co_occurrence_counts_pairs_per_time_window() {
    let events = vec![
        event(1, "b.exe", 0),
        event(2, "a.exe", 60_000),
        event(3, "c.exe", 1_860_000),
        event(4, "a.exe", 1_900_000),
    ];
    let co = build_co_occurrence(&events);
    let view: Vec<(String, String, u32)> =
        co.iter().map(|c| (c.first.clone(), c.second.clone(), c.count)).collect();
    // first window: b, a (c is 31 minutes after b); second window from c: c, a
    assert_eq!(
        view,
        vec![("a.exe".to_string(), "b.exe".to_string(), 1), ("a.exe".to_string(), "c.exe".to_string(), 1)]
    );
}

#[test]
fn engine_window_groups_start_with_current() {
    let mut engine = RecommendationEngine::new();
    engine.update_from_events(&sample_events(), &sample_live());
    let current = event(1, "code.exe", 120_000);
    let groups = engine.generate_window_groups(&current, &sample_live());
    assert_eq!(groups.len(), 1);
    let hwnds: Vec<i64> = groups[0].windows.iter().map(|h| h.0).collect();
    assert_eq!(hwnds, vec![1, 2, 3]);
    assert_eq!(groups[0].counts, vec![1, 1]);
    assert!(!groups[0].is_pair);
}

#[test]
fn engine_recommendations_with_defaults() {
    let mut engine = RecommendationEngine::new();
    engine.update_from_events(&sample_events(), &sample_live());
    let current = event(1, "code.exe", 120_000);
    let top = vec![WindowHandle(1), WindowHandle(2), WindowHandle(3)];
    let resp = engine
        .generate_recommendations(&current, 5, &Vec::new(), &HashSet::new(), Some(&top))
        .unwrap();
    assert_eq!(resp.groups.len(), 1);
    assert_eq!(resp.groups[0].label, "常用组合");
    assert_eq!(resp.groups[0].windows.len(), 1);
    assert_eq!(resp.groups[0].windows[0].hwnd, WindowHandle(1));
    assert_eq!(resp.groups[0].windows[0].dwell_time_secs, 60);
}

#[test]
fn engine_recommendations_split_switchers() {
    let mut engine = RecommendationEngine::new();
    let mut settings = engine.get_settings().clone();
    settings.common_combo_min_dwell_secs = 0;
    settings.recent_min_switch_count = 1;
    engine.update_settings(settings);
    engine.update_from_events(&sample_events(), &sample_live());
    let current = event(1, "code.exe", 120_000);
    let top = vec![WindowHandle(1), WindowHandle(2), WindowHandle(3)];
    let resp = engine
        .generate_recommendations(&current, 5, &Vec::new(), &HashSet::new(), Some(&top))
        .unwrap();
    let first: Vec<(i64, u64)> = resp.groups[0].windows.iter().map(|w| (w.hwnd.0, w.dwell_time_secs)).collect();
    assert_eq!(first, vec![(1, 60), (2, 60), (3, 0)]);
    assert_eq!(resp.groups.len(), 1);

    let resp = engine
        .generate_recommendations(&current, 1, &Vec::new(), &HashSet::new(), Some(&top))
        .unwrap();
    assert_eq!(resp.groups.len(), 2);
    assert_eq!(resp.groups[0].windows.len(), 1);
    assert_eq!(resp.groups[1].label, "频繁切换");
    let second: Vec<(i64, String)> =
        resp.groups[1].windows.iter().map(|w| (w.hwnd.0, w.process_name.clone())).collect();
    assert_eq!(second, vec![(2, "chrome.exe".to_string())]);
}

#[test]
fn engine_recommendations_need_events() {
    let mut engine = RecommendationEngine::new();
    let current = event(1, "code.exe", 0);
    let r = engine.generate_recommendations(&current, 5, &Vec::new(), &HashSet::new(), None);
    assert_eq!(r.unwrap_err(), RecommendationError::NoEvents);
}

#[test]
fn engine_cleanup_drops_destroyed_windows() {
    let mut engine = RecommendationEngine::new();
    engine.update_from_events(&sample_events(), &sample_live());
    let mut destroyed = HashSet::new();
    destroyed.insert(2i64);
    engine.cleanup_destroyed_events_internal(&destroyed);
    assert!(engine.events.iter().all(|e| e.hwnd.0 != 2));
    assert!(engine.dwell_records.iter().all(|r| r.hwnd.0 != 2));
    assert_eq!(engine.events.len(), 2);
    // a second cleanup changes nothing
    engine.cleanup_destroyed_events_internal(&destroyed);
    assert_eq!(engine.events.len(), 2);
}

#[test]
fn engine_effective_dwell_subtracts_mouse_idle_time() {
    let mut engine = RecommendationEngine::new();
    engine.update_from_events(&sample_events(), &sample_live());
    let mut settings = engine.get_settings().clone();
    settings.common_combo_mouse_idle_threshold_secs = 20;
    engine.update_settings(settings);
    let mouse = vec![
        MouseActivityEvent { timestamp: 0, x: 0, y: 0, hwnd: WindowHandle(2) },
        MouseActivityEvent { timestamp: 25_000, x: 10, y: 0, hwnd: WindowHandle(2) },
        MouseActivityEvent { timestamp: 30_000, x: 20, y: 0, hwnd: WindowHandle(2) },
    ];
    // chrome dwelt 60 s in one session; the 25 s pause on its window is idle
    let eff = engine.calculate_effective_dwell(&WindowHandle(2), &"chrome.exe".to_string(), &mouse);
    assert_eq!(eff, 35);
    assert_eq!(engine.calculate_effective_dwell(&WindowHandle(9), &"x.exe".to_string(), &mouse), 0);
    assert_eq!(engine.calculate_effective_dwell(&WindowHandle(2), &"chrome.exe".to_string(), &Vec::new()), 60);
}

#[test]
fn engine_idle_times_fit_unless_a_pause_overflows() {
    let mut engine = RecommendationEngine::new();
    engine.update_from_events(&sample_events(), &sample_live());
    let mouse = vec![
        MouseActivityEvent { timestamp: 0, x: 0, y: 0, hwnd: WindowHandle(2) },
        MouseActivityEvent { timestamp: 25_000, x: 10, y: 0, hwnd: WindowHandle(2) },
    ];
    assert!(engine.idle_times_fit(&mouse));
    assert!(engine.idle_times_fit(&Vec::new()));
    let mut settings = engine.get_settings().clone();
    settings.common_combo_mouse_idle_threshold_secs = 0;
    engine.update_settings(settings);
    // each rise from i64::MIN to i64::MAX is about 1.8e16 s: 2400 of them pass u64::MAX
    let huge: Vec<MouseActivityEvent> = (0..4800)
        .map(|i| MouseActivityEvent {
            timestamp: if i % 2 == 0 { i64::MIN } else { i64::MAX },
            x: 0,
            y: 0,
            hwnd: WindowHandle(2),
        })
        .collect();
    assert!(!engine.idle_times_fit(&huge));
}

#[test]
fn engine_frequent_switchers_keep_one_per_process() {
    let mut engine = RecommendationEngine::new();
    let mut settings = engine.get_settings().clone();
    settings.recent_min_switch_count = 1;
    engine.update_settings(settings);
    let events = vec![
        event(1, "code.exe", 0),
        event(2, "chrome.exe", 10_000),
        event(3, "chrome.exe", 20_000),
        event(4, "term.exe", 50_000),
    ];
    let now = live(&[(1, "code.exe"), (2, "chrome.exe"), (3, "chrome.exe"), (4, "term.exe")]);
    engine.update_from_events(&events, &now);
    let current = event(1, "code.exe", 0);
    let picks = engine.generate_frequent_switcher_recommendations(&current);
    let view: Vec<(i64, u64)> = picks.iter().map(|p| (p.hwnd.0, p.dwell_time_secs)).collect();
    // chrome window 3 (30 s) replaces window 2 (10 s); term's single stay lasts 0 s
    assert_eq!(view, vec![(3, 30), (4, 0)]);
}

#[test]
fn engine_loads_and_saves_rows() {
    let mut engine = RecommendationEngine::new();
    let rows = vec![
        // newest first, as the store lists them: the first row of a window is the one kept
        DwellRecordRow { id: 2, hwnd: 7, process_name: "x.exe".to_string(), dwell_secs: 150, switch_count: 3, last_active: 1_700_000_100, created_at: 0 },
        DwellRecordRow { id: 1, hwnd: 7, process_name: "x.exe".to_string(), dwell_secs: 100, switch_count: 2, last_active: 1_700_000_000, created_at: 0 },
    ];
    engine.load_dwell_rows(&rows, 5);
    assert_eq!(engine.dwell_records.len(), 1);
    assert_eq!(engine.dwell_records[0].dwell_secs, 150);
    assert_eq!(engine.dwell_records[0].last_active, 1_700_000_100_000);
    let saved = engine.dwell_rows(99);
    assert_eq!(saved.len(), 1);
    assert_eq!(saved[0].last_active, 1_700_000_100);
    assert_eq!(saved[0].switch_count, 3);
    assert_eq!(saved[0].created_at, 99);

    let co_rows = vec![CoOccurrenceRow { id: 1, process1: "a".to_string(), process2: "b".to_string(), count: 4, updated_at: 0 }];
    engine.load_co_occurrence_rows(&co_rows);
    assert_eq!(engine.co_occurrence_rows(), vec![("a".to_string(), "b".to_string(), 4)]);
}

#[test]
fn platform_error_message_is_kept_in_command_errors() {
    let e = PlatformError::ApiError("boom".to_string());
    assert_eq!(e.message(), "API error: boom");
}

#[test]
fn recommendation_errors_describe_themselves() {
    assert_eq!(RecommendationError::NoEvents.message(), "No events available");
    assert_eq!(RecommendationError::InsufficientData.message(), "Insufficient data for recommendation");
    assert_eq!(RecommendationError::DatabaseError("locked".to_string()).message(), "Database error: locked");
}

#[test]
fn engine_keys_stay_distinct_after_loading() {
    let mut engine = RecommendationEngine::new();
    assert!(engine.records_keys_distinct());
    assert!(engine.pairs_are_distinct());
    engine.update_from_events(&sample_events(), &sample_live());
    assert!(engine.records_keys_distinct());
    assert!(engine.pairs_are_distinct());
    let row = DwellRecordRow {
        id: 0,
        hwnd: 1,
        process_name: "code.exe".to_string(),
        dwell_secs: 5,
        switch_count: 1,
        last_active: 10,
        created_at: 10,
    };
    engine.load_dwell_rows(&vec![row.clone(), row], 0);
    assert!(engine.records_keys_distinct());
}

#[test]
fn stored_times_outside_chrono_dates_load_as_now() {
    let row = |hwnd: i64, last: i64| DwellRecordRow {
        id: 0,
        hwnd,
        process_name: "x.exe".to_string(),
        dwell_secs: 1,
        switch_count: 1,
        last_active: last,
        created_at: 0,
    };
    let mut engine = RecommendationEngine::new();
    let rows = vec![
        row(1, 8_210_266_876_799),
        row(2, 8_210_266_876_800),
        row(3, -8_334_601_228_800),
        row(4, -8_334_601_228_801),
    ];
    engine.load_dwell_rows(&rows, 42);
    let lasts: Vec<i64> = engine.dwell_records.iter().map(|r| r.last_active).collect();
    assert_eq!(lasts, vec![8_210_266_876_799_000, 42, -8_334_601_228_800_000, 42]);
}

#[test]
fn lists_are_built_even_when_cleanup_left_no_events() {
    let mut engine = RecommendationEngine::new();
    engine.update_from_events(&sample_events(), &sample_live());
    let gone: HashSet<i64> = [1, 2, 3].into_iter().collect();
    engine.cleanup_destroyed_events_internal(&gone);
    assert!(engine.events.is_empty());
    let current = event(1, "code.exe", 120_000);
    let resp = engine.build_recommendations(&current, 5, &Vec::new(), None);
    assert_eq!(resp.groups.len(), 1);
    assert_eq!(resp.groups[0].windows[0].hwnd, WindowHandle(1));
}

#[test]
fn lone_window_group_only_without_company() {
    let engine = RecommendationEngine::new();
    let current = event(9, "solo.exe", 0);
    let groups = engine.generate_window_groups(&current, &Vec::new());
    assert_eq!(groups[0].windows, vec![WindowHandle(9)]);
    let mut engine = RecommendationEngine::new();
    engine.update_from_events(&sample_events(), &sample_live());
    let groups = engine.generate_window_groups(&event(1, "code.exe", 120_000), &sample_live());
    assert!(groups[0].windows.len() >= 2 && groups[0].windows.len() <= 5);
}
