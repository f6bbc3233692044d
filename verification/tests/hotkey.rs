use windowflow::hotkey::{
    init_mouse_config, key_to_code, parse_hotkey, side_button_toggles, split_text, toggle_allowed,
    update_mouse_config, Hotkey, HotkeyError, MouseConfigCell, ToggleGate,
};

#[test]
fn key_codes_ignore_case() {
    assert_eq!(key_to_code("space"), 0);
    assert_eq!(key_to_code("Space"), 0);
    assert_eq!(key_to_code("a"), 1);
    assert_eq!(key_to_code("Z"), 26);
    assert_eq!(key_to_code("0"), 27);
    assert_eq!(key_to_code("9"), 36);
    assert_eq!(key_to_code("F1"), 37);
    assert_eq!(key_to_code("f10"), 46);
    assert_eq!(key_to_code("F12"), 48);
    assert_eq!(key_to_code("f13"), 0);
    assert_eq!(key_to_code("enter"), 0);
}

#[test]
fn split_keeps_empty_pieces() {
    assert_eq!(split_text("Ctrl+Shift+A", '+'), vec!["Ctrl", "Shift", "A"]);
    assert_eq!(split_text("", '+'), vec![""]);
    assert_eq!(split_text("a++", '+'), vec!["a", "", ""]);
}

#[test]
fn hotkey_parses_modifiers_and_key() {
    assert_eq!(
        parse_hotkey("Ctrl+Shift+Space"),
        Ok(Hotkey { ctrl: true, shift: true, alt: false, code: 0 })
    );
    assert_eq!(parse_hotkey("alt+F5"), Ok(Hotkey { ctrl: false, shift: false, alt: true, code: 41 }));
}

#[test]
fn hotkey_refusals() {
    assert_eq!(parse_hotkey("Space"), Err(HotkeyError::BadFormat));
    assert_eq!(parse_hotkey("Win+A"), Err(HotkeyError::UnsupportedModifier("Win".to_string())));
    assert_eq!(parse_hotkey("Ctrl+Enter"), Err(HotkeyError::UnsupportedKey("Enter".to_string())));
    assert_eq!(HotkeyError::UnsupportedKey("Enter".to_string()).message(), "不支持的键: Enter");
    assert_eq!(HotkeyError::UnsupportedModifier("Win".to_string()).message(), "不支持的修饰键: Win");
    assert_eq!(HotkeyError::BadFormat.message(), "快捷键格式错误，请使用如 Ctrl+Shift+Key 格式");
}

#[test]
fn side_buttons_follow_settings() {
    let mut cell = MouseConfigCell { config: None };
    update_mouse_config(&mut cell, true, true, true);
    assert!(cell.config.is_none());
    assert!(!side_button_toggles(&cell, 1 << 16));
    init_mouse_config(&mut cell, true, true, false);
    assert!(side_button_toggles(&cell, 1 << 16));
    assert!(!side_button_toggles(&cell, 2 << 16));
    init_mouse_config(&mut cell, false, false, false);
    assert!(side_button_toggles(&cell, 1 << 16));
    update_mouse_config(&mut cell, true, false, true);
    assert!(side_button_toggles(&cell, (2 << 16) | 0x1234));
    update_mouse_config(&mut cell, false, true, true);
    assert!(!side_button_toggles(&cell, 1 << 16));
}

#[test]
fn toggles_are_half_a_second_apart() {
    let mut gate = ToggleGate { last_toggle_ms: None };
    assert!(toggle_allowed(&mut gate, 1_000));
    assert!(!toggle_allowed(&mut gate, 1_400));
    assert!(toggle_allowed(&mut gate, 1_500));
    assert!(!toggle_allowed(&mut gate, 1_700));
    assert!(toggle_allowed(&mut gate, 2_100));
}

#[test]
fn mouse_hook_acts_only_on_side_buttons_going_down() {
    let mut cell = MouseConfigCell { config: None };
    init_mouse_config(&mut cell, true, true, false);
    let down = windowflow::hotkey::WM_XBUTTONDOWN;
    assert!(windowflow::hotkey::mouse_hook_toggles(&cell, 0, down, 1 << 16));
    assert!(!windowflow::hotkey::mouse_hook_toggles(&cell, -1, down, 1 << 16));
    assert!(!windowflow::hotkey::mouse_hook_toggles(&cell, 0, down + 1, 1 << 16));
    assert!(!windowflow::hotkey::mouse_hook_toggles(&cell, 0, down, 2 << 16));
}
