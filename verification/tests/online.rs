use windowflow::errors::OnlineModelError;
use windowflow::engine::RecommendationEngine;
use windowflow::online::{build_prompt, can_extract_json, extract_json, online_model_config, restore_names};
use windowflow::queries::{DwellTotal, SwitchCount};
use windowflow::recommendation::CoOccurrence;

#[test]
fn json_is_taken_between_brackets() {
    assert_eq!(extract_json("Here: [1, 2] done").unwrap(), "[1, 2]");
    assert_eq!(extract_json("x {\"a\": [1]} y").unwrap(), "[1]");
    assert_eq!(extract_json("obj {\"a\": 1} end").unwrap(), "{\"a\": 1}");
    assert_eq!(
        extract_json("no json here"),
        Err(OnlineModelError::ParseError("No JSON found in response".to_string()))
    );
    assert!(can_extract_json("[ok]"));
    assert!(!can_extract_json("] then ["));
}

#[test]
fn prompt_lists_the_largest_figures_first() {
    let dwell = vec![
        DwellTotal { hwnd: 1, process_name: "a.exe".to_string(), secs: 5 },
        DwellTotal { hwnd: 2, process_name: "b.exe".to_string(), secs: 50 },
    ];
    let pairs = vec![CoOccurrence { first: "a.exe".to_string(), second: "b.exe".to_string(), count: 3 }];
    let switches = vec![SwitchCount { process_name: "a.exe".to_string(), count: 2 }];
    let p = build_prompt(&dwell, &pairs, &switches);
    assert!(p.starts_with("你是一个窗口管理助手。"));
    assert!(p.contains("## 窗口停留时间（秒）\n- afded3ccc64604b6: 50秒\n- 46bb774e3cc954c6: 5秒\n"));
    assert!(p.contains("## 窗口共现次数\n- 46bb774e3cc954c6 和 afded3ccc64604b6: 3次\n"));
    assert!(p.contains("## 频繁切换的窗口\n- 46bb774e3cc954c6: 2次\n"));
    assert!(!p.contains("a.exe") && !p.contains("b.exe"));
    assert!(p.ends_with("  }\n]\n"));
}

#[test]
fn online_model_error_messages() {
    assert_eq!(OnlineModelError::InsufficientData.message(), "Insufficient data");
    assert_eq!(OnlineModelError::RequestError("timeout".to_string()).message(), "HTTP request failed: timeout");
}

#[test]
fn answer_hashes_are_read_back_as_names() {
    let names = vec!["a.exe".to_string(), "b.exe".to_string()];
    let answer = vec!["afded3ccc64604b6".to_string(), "other".to_string(), "46bb774e3cc954c6".to_string()];
    assert_eq!(restore_names(&answer, &names), vec!["b.exe".to_string(), "other".to_string(), "a.exe".to_string()]);
}

#[test]
fn online_model_settings_must_be_complete() {
    let mut s = RecommendationEngine::new().get_settings().clone();
    assert_eq!(online_model_config(&s).unwrap_err(), "API Key 未配置");
    s.api_key = Some("k".to_string());
    assert_eq!(online_model_config(&s).unwrap_err(), "API 端点未配置");
    s.api_endpoint = Some("https://x".to_string());
    assert_eq!(online_model_config(&s).unwrap_err(), "模型名称未配置");
    s.model_name = Some(String::new());
    assert_eq!(online_model_config(&s).unwrap_err(), "在线模型配置不完整，请在设置中填写 API Key、端点和模型名称");
    s.model_name = Some("m".to_string());
    let c = online_model_config(&s).unwrap();
    assert_eq!((c.api_key.as_str(), c.api_endpoint.as_str(), c.model_name.as_str()), ("k", "https://x", "m"));
}
