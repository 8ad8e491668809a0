use visit_recorder::recorder::{record_all, Stats};

#[test]
fn single_owner_scenario() {
    let mut stats = Stats::new();
    stats.add_visit("test");
    stats.add_visit("test");
    stats.add_visit("test");
    assert_eq!(stats.visits(), 3);
    assert_eq!(
        stats.log(),
        vec![
            "thread: test, visit: 1".to_string(),
            "thread: test, visit: 2".to_string(),
            "thread: test, visit: 3".to_string(),
        ]
    );
    stats.clear_log();
    assert_eq!(stats.log(), Vec::<String>::new());
    assert_eq!(stats.visits(), 3);
}

#[test]
fn fresh_recorder_is_empty() {
    let stats = Stats::new();
    assert_eq!(stats.visits(), 0);
    assert!(stats.log().is_empty());
}

#[test]
fn clear_log_on_fresh_recorder_is_a_no_op() {
    let mut stats = Stats::new();
    stats.clear_log();
    assert_eq!(stats.visits(), 0);
    assert!(stats.log().is_empty());
}

#[test]
fn ten_workers_serialized_in_arbitrary_order() {
    // The lock may serialize ten workers in any order; here is one of them.
    let labels: Vec<String> = vec!["7", "2", "9", "1", "10", "4", "6", "3", "8", "5"]
        .into_iter()
        .map(|s| s.to_string())
        .collect();
    let mut stats = Stats::new();
    record_all(&mut stats, &labels);
    assert_eq!(stats.visits(), 10);
    let log = stats.log();
    assert_eq!(log.len(), 10);
    // The embedded visit numbers form exactly 1..=10, one per entry.
    for (i, entry) in log.iter().enumerate() {
        assert_eq!(*entry, format!("thread: {}, visit: {}", labels[i], i + 1));
    }
}

#[test]
fn record_all_of_no_labels_changes_nothing() {
    let mut stats = Stats::new();
    record_all(&mut stats, &Vec::new());
    assert_eq!(stats.visits(), 0);
    assert!(stats.log().is_empty());
}

#[test]
fn entries_stay_distinct_even_with_confusable_labels() {
    let mut stats = Stats::new();
    stats.add_visit("a, visit: 1");
    stats.add_visit("a");
    stats.add_visit("a");
    let log = stats.log();
    assert_eq!(log[0], "thread: a, visit: 1, visit: 1");
    assert_eq!(log[1], "thread: a, visit: 2");
    assert_eq!(log[2], "thread: a, visit: 3");
    for i in 0..log.len() {
        for j in (i + 1)..log.len() {
            assert_ne!(log[i], log[j]);
        }
    }
}

#[test]
fn visits_survive_clearing_and_keep_growing() {
    let mut stats = Stats::new();
    stats.add_visit("w");
    stats.add_visit("w");
    assert_eq!(stats.visits(), 2);
    stats.clear_log();
    assert_eq!(stats.visits(), 2);
    stats.add_visit("w");
    assert_eq!(stats.visits(), 3);
    // The counter kept counting across the clear: the new entry embeds 3.
    assert_eq!(stats.log(), vec!["thread: w, visit: 3".to_string()]);
}
