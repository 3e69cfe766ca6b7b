use scripted_prompt_lib::data::{Script, Template};
use scripted_prompt_lib::history::{calculate_script_trend, trend_from, HistoryManager, UsageRecord};
use scripted_prompt_lib::value_map::ValueMap;

fn record(id: &str, kind: &str, timestamp: &str) -> UsageRecord {
    UsageRecord { id: id.to_string(), item_type: kind.to_string(), timestamp: timestamp.to_string(), duration_ms: None }
}

fn ids(records: &[UsageRecord]) -> Vec<String> {
    records.iter().map(|r| r.id.clone()).collect()
}

#[test]
fn new_history_is_empty_with_limit_1000() {
    let h = HistoryManager::new();
    assert_eq!(h.max_records_limit(), 1000);
    assert!(h.export_history().is_empty());
    let d = HistoryManager::default();
    assert_eq!(d.max_records_limit(), 1000);
}

#[test]
fn recording_puts_newest_first_and_drops_oldest() {
    let mut h = HistoryManager::from_parts(vec![], 2);
    let s1 = Script::new("a".to_string(), String::new(), String::new());
    let s2 = Script::new("b".to_string(), String::new(), String::new());
    let t = Template::new("t".to_string(), String::new(), vec![], ValueMap::new());
    h.record_script_usage(&s1, Some(5));
    h.record_script_usage(&s2, None);
    h.record_template_usage(&t, None);
    let out = h.export_history();
    assert_eq!(ids(&out), vec![t.id.clone(), s2.id.clone()]);
    assert_eq!(out[0].item_type, "template");
    assert_eq!(out[1].item_type, "script");
    assert_eq!(out[1].duration_ms, None);
    assert!(!out[0].timestamp.is_empty());
}

#[test]
fn recent_ids_are_distinct_newest_first_and_limited() {
    let h = HistoryManager::from_parts(
        vec![
            record("s1", "script", "t"),
            record("t1", "template", "t"),
            record("s2", "script", "t"),
            record("s1", "script", "t"),
            record("s3", "script", "t"),
        ],
        1000,
    );
    assert_eq!(h.get_recent_scripts(10), vec!["s1".to_string(), "s2".to_string(), "s3".to_string()]);
    assert_eq!(h.get_recent_scripts(2), vec!["s1".to_string(), "s2".to_string()]);
    assert_eq!(h.get_recent_templates(5), vec!["t1".to_string()]);
    // A count of zero still yields the first match, as the loop checks the count after adding.
    assert_eq!(h.get_recent_scripts(0), vec!["s1".to_string()]);
}

#[test]
fn import_puts_new_records_first_and_respects_limit() {
    let mut h = HistoryManager::from_parts(vec![record("old1", "script", "t"), record("old2", "script", "t")], 3);
    h.import_history(vec![record("n1", "script", "t"), record("n2", "template", "t")]);
    assert_eq!(ids(&h.export_history()), vec!["n1".to_string(), "n2".to_string(), "old1".to_string()]);
    h.clear_history();
    assert!(h.export_history().is_empty());
    assert_eq!(h.max_records_limit(), 3);
}

#[test]
fn usage_stats_since_counts_recent_valid_records() {
    // 2025-01-01T00:00:00Z
    let cutoff: (i64, u32) = (1735689600, 0);
    let h = HistoryManager::from_parts(
        vec![
            record("a", "script", "2025-01-02T10:00:00+00:00"),
            record("b", "template", "2025-01-01T00:00:00Z"),
            record("a", "script", "2025-01-01T02:00:00+01:00"),
            record("a", "script", "2024-12-31T23:59:59Z"),
            record("c", "script", "not a time"),
        ],
        1000,
    );
    let stats = h.usage_stats_since(cutoff);
    assert_eq!(stats, vec![("script_a".to_string(), 2), ("template_b".to_string(), 1)]);
    assert!(h.get_usage_stats(7).is_some());
}

#[test]
fn trend_from_lists_each_day_once_in_order() {
    let labels = vec!["2025-01-03".to_string(), "2025-01-02".to_string(), "2025-01-01".to_string()];
    let uses = vec!["2025-01-02".to_string(), "2025-01-02".to_string(), "2024-12-31".to_string()];
    let trend = trend_from(&labels, &uses);
    assert_eq!(
        trend,
        vec![
            ("2024-12-31".to_string(), 1),
            ("2025-01-01".to_string(), 0),
            ("2025-01-02".to_string(), 2),
            ("2025-01-03".to_string(), 0),
        ]
    );
    assert!(trend_from(&vec![], &vec![]).is_empty());
}

#[test]
fn script_trend_has_one_entry_per_day_without_uses() {
    let h = HistoryManager::from_parts(vec![record("x", "template", "2025-01-01T00:00:00Z")], 10);
    let trend = calculate_script_trend(&h, "x", 3).expect("local dates are available");
    assert_eq!(trend.len(), 3);
    assert!(trend.iter().all(|(_, c)| *c == 0));
    assert!(trend.windows(2).all(|w| w[0].0 < w[1].0));
}

#[test]
fn script_trend_counts_a_use_made_now_on_today() {
    let mut h = HistoryManager::new();
    let s = Script::new("a".to_string(), String::new(), String::new());
    h.record_script_usage(&s, None);
    h.record_script_usage(&s, Some(3));
    let trend = calculate_script_trend(&h, &s.id, 3).expect("local dates are available");
    assert_eq!(trend.len(), 3);
    assert_eq!(trend.iter().map(|(_, c)| *c).sum::<usize>(), 2);
    assert_eq!(trend.last().unwrap().1, 2);
    let stats = h.get_usage_stats(1).expect("a cutoff is available");
    assert_eq!(stats, vec![(format!("script_{}", s.id), 2)]);
}
