use windowflow::errors::{CommandError, PlatformError};
use windowflow::platform::{
    arrow_toward, is_window_movable, migration_follow_up, migration_summary, MigrationFollowUp, MoveStart, next_move_step, placement_origin, Arrow,
    BatchStep, MoveStep, MoveStrategy, SmartMigrateResult, WindowManagerService, WindowsPlatform,
};
use windowflow::types::{MonitorId, WindowHandle, WindowInfo, WindowRect};

fn info(hwnd: i64, pid: u32) -> WindowInfo {
    WindowInfo {
        hwnd: WindowHandle(hwnd),
        pid,
        process_name: "p.exe".to_string(),
        window_title_hash: String::new(),
        rect: WindowRect { left: 0, top: 0, right: 10, bottom: 10 },
        monitor_id: MonitorId(1),
        is_visible: true,
    }
}

#[test]
fn placement_centres_in_work_area() {
    assert_eq!(placement_origin(0, 0, 1920, 1080, 800, 600), (560, 240));
    assert_eq!(placement_origin(1920, 40, 3840, 1080, 1000, 1000), (2380, 60));
    // a window wider than the area: the half rounds toward zero
    assert_eq!(placement_origin(0, 0, 100, 100, 301, 0), (-100, 50));
}

#[test]
fn arrow_points_to_target() {
    assert_eq!(arrow_toward(0, 0, 100, 100, 200, 0, 400, 100), Arrow::Right);
    assert_eq!(arrow_toward(200, 0, 400, 100, 0, 0, 100, 100), Arrow::Left);
    assert_eq!(arrow_toward(0, 0, 100, 100, 0, 200, 100, 400), Arrow::Down);
    assert_eq!(arrow_toward(0, 0, 100, 100, 0, 0, 100, 100), Arrow::Up);
}

#[test]
fn movable_windows() {
    assert!(is_window_movable(true, true, "Notepad", "Untitled - Notepad", 0));
    assert!(!is_window_movable(false, true, "Notepad", "x", 0));
    assert!(!is_window_movable(true, false, "Notepad", "x", 0));
    assert!(!is_window_movable(true, true, "Progman", "", 0));
    assert!(!is_window_movable(true, true, "Shell_TrayWnd", "", 0));
    assert!(!is_window_movable(true, true, "Notepad", "Program Manager", 0));
    assert!(!is_window_movable(true, true, "Notepad", "开始", 0));
    assert!(!is_window_movable(true, true, "Notepad", "x", 0x80));
    assert!(is_window_movable(true, true, "", "x", 0x100));
}

#[test]
fn move_strategies_in_order() {
    let mut step = next_move_step(None, false, false, false);
    let mut tried = Vec::new();
    while let MoveStep::Try(s) = step {
        tried.push(s);
        step = next_move_step(Some(s), false, false, false);
    }
    assert_eq!(step, MoveStep::Failed);
    assert_eq!(
        tried,
        vec![
            MoveStrategy::Placement,
            MoveStrategy::SetPosition,
            MoveStrategy::MoveWindow,
            MoveStrategy::HideMoveShow,
            MoveStrategy::PostMove,
            MoveStrategy::RestoreThenPosition
        ]
    );
    assert_eq!(
        next_move_step(Some(MoveStrategy::HideMoveShow), false, true, false),
        MoveStep::Try(MoveStrategy::WinShiftArrow)
    );
    assert_eq!(next_move_step(Some(MoveStrategy::MoveWindow), true, false, false), MoveStep::Done { maximize_again: false });
    assert_eq!(next_move_step(Some(MoveStrategy::MoveWindow), true, false, true), MoveStep::Done { maximize_again: true });
}

#[test]
fn window_info_is_found_by_handle() {
    let wm = WindowManagerService::new();
    let windows = vec![info(1, 10), info(2, 20), info(2, 30)];
    assert_eq!(wm.get_window_info(windows.clone(), WindowHandle(2)).unwrap().pid, 20);
    assert_eq!(wm.get_window_info(windows.clone(), WindowHandle(3)).unwrap_err(), PlatformError::WindowNotFound);
    assert_eq!(
        wm.migrate_window(windows, WindowHandle(9), MonitorId(2)).unwrap_err(),
        PlatformError::WindowNotFound
    );
    assert_eq!(wm.verify_dpi_scaling(144, 144), Ok(true));
    assert_eq!(wm.verify_dpi_scaling(96, 144), Ok(false));
}

#[test]
fn batch_moves_report_first_failure() {
    let wm = WindowManagerService::new();
    assert_eq!(wm.migrate_windows(vec![Ok(()), Ok(())]), Ok(()));
    assert_eq!(
        wm.migrate_windows(vec![Ok(()), Err(PlatformError::AccessDenied), Err(PlatformError::MonitorNotFound)]),
        Err(PlatformError::AccessDenied)
    );
    assert_eq!(migration_summary(&vec![true, false, true]), "迁移完成: 2 成功, 1 失败");
    assert_eq!(migration_summary(&vec![]), "迁移完成: 0 成功, 0 失败");
}

#[test]
fn command_errors_carry_messages() {
    let e = CommandError::from_platform(&PlatformError::AccessDenied);
    assert_eq!(e, CommandError::WindowManager("Access denied".to_string()));
    assert_eq!(e.message(), "Window manager error: Access denied");
}

#[test]
fn failed_moves_put_the_window_back() {
    let original = info(4, 1);
    assert!(matches!(migration_follow_up(&original, Ok(())), MigrationFollowUp::Done));
    match migration_follow_up(&original, Err(PlatformError::AccessDenied)) {
        MigrationFollowUp::RestoreThenFail { hwnd, rect, visible, error } => {
            assert_eq!(visible, original.is_visible);
            assert_eq!(hwnd, WindowHandle(4));
            assert_eq!(rect, WindowRect { left: 0, top: 0, right: 10, bottom: 10 });
            assert_eq!(error, PlatformError::AccessDenied);
        }
        MigrationFollowUp::Done => panic!("a failed move needs a restore"),
    }
}

#[test]
fn moving_begins_unless_skipped() {
    let p = WindowsPlatform::new();
    assert_eq!(p.move_window(true, MonitorId(1), MonitorId(2)), MoveStart::Begin { activate: true });
    assert_eq!(p.move_window(false, MonitorId(1), MonitorId(2)), MoveStart::Skip);
    assert_eq!(p.move_window(true, MonitorId(2), MonitorId(2)), MoveStart::Skip);
    assert_eq!(p.move_window_internal(true, MonitorId(1), MonitorId(2), false), MoveStart::Begin { activate: false });
}

#[test]
fn smart_migrate_results_carry_the_error_message() {
    let ok = SmartMigrateResult::from_outcome(WindowHandle(3), true, &Ok(()));
    assert!(ok.success && ok.was_minimized && ok.error.is_none());
    assert!(ok.minimize_again());
    assert_eq!(ok.hwnd, WindowHandle(3));
    let failed = SmartMigrateResult::from_outcome(WindowHandle(4), false, &Err(PlatformError::ApiError("busy".to_string())));
    assert!(!failed.success && !failed.was_minimized);
    assert!(!failed.minimize_again());
    assert_eq!(failed.error, Some("API error: busy".to_string()));
}

#[test]
fn batches_stop_at_the_first_failure() {
    let s = WindowManagerService::new();
    assert!(matches!(s.next_batch_step(3, 0, Ok(())), BatchStep::Move(0)));
    assert!(matches!(s.next_batch_step(3, 1, Ok(())), BatchStep::Move(1)));
    assert!(matches!(s.next_batch_step(3, 2, Err(PlatformError::AccessDenied)), BatchStep::Finish(Err(PlatformError::AccessDenied))));
    assert!(matches!(s.next_batch_step(3, 3, Ok(())), BatchStep::Finish(Ok(()))));
    assert!(matches!(s.next_batch_step(0, 0, Ok(())), BatchStep::Finish(Ok(()))));
}
