use windowflow::algorithms::{apriori, predict_next, prefixspan, FrequentItemset, SequentialPattern};

fn words(items: &[&str]) -> Vec<String> {
    items.iter().map(|s| s.to_string()).collect()
}

#[test]
fn test_apriori_basic() {
    let transactions = vec![
        vec!["code".to_string(), "chrome".to_string(), "terminal".to_string()],
        vec!["code".to_string(), "chrome".to_string()],
        vec!["code".to_string(), "chrome".to_string(), "terminal".to_string()],
        vec!["word".to_string(), "chrome".to_string()],
    ];
    let itemsets = apriori(&transactions, 2);
    let top = &itemsets[0];
    assert_eq!(top.items, vec!["chrome".to_string(), "code".to_string()]);
    assert_eq!(top.support, 3);
    let triple = itemsets.iter().find(|s| s.items.len() == 3);
    assert!(triple.is_some());
    assert_eq!(triple.unwrap().support, 2);
}

#[test]
fn test_apriori_min_support_filter() {
    let transactions = vec![
        vec!["a".to_string(), "b".to_string()],
        vec!["a".to_string(), "c".to_string()],
    ];
    assert!(apriori(&transactions, 2).is_empty());
    assert!(!apriori(&transactions, 1).is_empty());
}

#[test]
fn test_apriori_empty() {
    assert!(apriori(&[], 2).is_empty());
    assert!(apriori(&[vec!["a".to_string()]], 0).is_empty());
}

#[test]
fn test_prefixspan_basic() {
    let sequences = vec![
        vec!["a".to_string(), "b".to_string(), "c".to_string()],
        vec!["a".to_string(), "b".to_string(), "d".to_string()],
        vec!["a".to_string(), "b".to_string(), "c".to_string()],
    ];
    let patterns = prefixspan(&sequences, 2, 3);
    let ab = patterns.iter().find(|p| p.pattern == vec!["a".to_string(), "b".to_string()]);
    assert!(ab.is_some());
    assert_eq!(ab.unwrap().support, 3);
    let abc = patterns
        .iter()
        .find(|p| p.pattern == vec!["a".to_string(), "b".to_string(), "c".to_string()]);
    assert!(abc.is_some());
    assert_eq!(abc.unwrap().support, 2);
}

#[test]
fn test_prefixspan_max_len() {
    let sequences = vec![
        vec!["a".to_string(), "b".to_string(), "c".to_string(), "d".to_string()],
        vec!["a".to_string(), "b".to_string(), "c".to_string(), "d".to_string()],
    ];
    let patterns = prefixspan(&sequences, 2, 2);
    assert!(patterns.iter().all(|p| p.pattern.len() <= 2));
}

#[test]
fn test_predict_next() {
    let sequences = vec![
        vec!["editor".to_string(), "browser".to_string()],
        vec!["editor".to_string(), "browser".to_string()],
        vec!["editor".to_string(), "terminal".to_string()],
    ];
    let patterns = prefixspan(&sequences, 2, 2);
    let preds = predict_next(&patterns, "editor");
    assert_eq!(preds[0].0, "browser");
    assert_eq!(preds[0].1, 2);
}

#[test]
fn apriori_full_result_in_rank_order() {
    let transactions = vec![
        words(&["code", "chrome", "terminal"]),
        words(&["code", "chrome"]),
        words(&["code", "chrome", "terminal"]),
        words(&["word", "chrome"]),
    ];
    let itemsets = apriori(&transactions, 2);
    assert_eq!(
        itemsets,
        vec![
            FrequentItemset { items: words(&["chrome", "code"]), support: 3 },
            FrequentItemset { items: words(&["chrome", "code", "terminal"]), support: 2 },
            FrequentItemset { items: words(&["chrome", "terminal"]), support: 2 },
            FrequentItemset { items: words(&["code", "terminal"]), support: 2 },
        ]
    );
}

#[test]
fn apriori_repeated_items_count_once() {
    let transactions = vec![words(&["a", "a", "b"]), words(&["b", "a"])];
    let itemsets = apriori(&transactions, 2);
    assert_eq!(itemsets, vec![FrequentItemset { items: words(&["a", "b"]), support: 2 }]);
}

#[test]
fn apriori_stops_at_five_items() {
    let t = words(&["a", "b", "c", "d", "e", "f"]);
    let itemsets = apriori(&[t.clone(), t], 2);
    assert!(itemsets.iter().all(|s| s.items.len() <= 5));
    // 2..5-subsets of 6 items: 15 + 20 + 15 + 6
    assert_eq!(itemsets.len(), 56);
    assert_eq!(itemsets[0].items.len(), 5);
}

#[test]
fn apriori_orders_by_code_point() {
    let transactions = vec![words(&["b", "B", "a"]), words(&["a", "b", "B"])];
    let itemsets = apriori(&transactions, 2);
    assert_eq!(itemsets[0].items, words(&["B", "a", "b"]));
}

#[test]
fn prefixspan_full_result_in_rank_order() {
    let sequences = vec![words(&["a", "b", "a"]), words(&["b", "a"])];
    let patterns = prefixspan(&sequences, 2, 3);
    assert_eq!(
        patterns,
        vec![
            SequentialPattern { pattern: words(&["b", "a"]), support: 2 },
            SequentialPattern { pattern: words(&["a"]), support: 2 },
            SequentialPattern { pattern: words(&["b"]), support: 2 },
        ]
    );
}

#[test]
fn prefixspan_empty_inputs() {
    let sequences = vec![words(&["a"])];
    assert!(prefixspan(&[], 1, 3).is_empty());
    assert!(prefixspan(&sequences, 0, 3).is_empty());
    assert!(prefixspan(&sequences, 1, 0).is_empty());
}

#[test]
fn predict_next_is_stable_for_ties() {
    let patterns = vec![
        SequentialPattern { pattern: words(&["x", "c"]), support: 1 },
        SequentialPattern { pattern: words(&["x", "a"]), support: 2 },
        SequentialPattern { pattern: words(&["y", "z"]), support: 9 },
        SequentialPattern { pattern: words(&["x", "b"]), support: 1 },
        SequentialPattern { pattern: words(&["x"]), support: 5 },
        SequentialPattern { pattern: words(&["x", "d", "e"]), support: 7 },
    ];
    let preds = predict_next(&patterns, "x");
    assert_eq!(
        preds,
        vec![("a".to_string(), 2), ("c".to_string(), 1), ("b".to_string(), 1)]
    );
}

#[test]
fn apriori_ignores_order_repeats_and_empty_sessions() {
    let tx = |items: &[&str]| items.iter().map(|s| s.to_string()).collect::<Vec<String>>();
    let a = vec![tx(&["code", "term", "web"]), tx(&["code", "term"]), tx(&["web", "code"])];
    let b = vec![tx(&["code", "web", "web"]), tx(&["term", "code"]), tx(&["web", "term", "code"]), tx(&[])];
    let ra = windowflow::algorithms::apriori(&a, 2);
    let rb = windowflow::algorithms::apriori(&b, 2);
    assert_eq!(ra, rb);
    assert!(!ra.is_empty());
}
