use bwl_meta::eval::{compare_entry, format_failure, goldset_lines, EvalStats, FieldStats};
use bwl_meta::models::{FrameData, GoldSetEntry};

#[test]
fn field_stats_record_counts() {
    let mut s = FieldStats::default();
    s.record(true);
    s.record(false);
    s.record(true);
    assert_eq!((s.correct, s.total), (2, 3));
}

#[test]
fn format_failure_describes_all_fields() {
    let expected = GoldSetEntry {
        video: "v.mp4".to_string(),
        frame_time: "00:00:01".to_string(),
        timestamp: "00:01".to_string(),
        player1supply: None,
        player2supply: Some("4/9".to_string()),
    };
    let predicted = FrameData {
        timestamp: "00:02".to_string(),
        player1supply: Some("5/9".to_string()),
        player2supply: None,
    };
    assert_eq!(
        format_failure(&expected, &predicted),
        "v.mp4 00:00:01 :: timestamp expected=00:01 predicted=00:02 | player1supply expected=<none> predicted=5/9 | player2supply expected=4/9 predicted=<none>"
    );
}

#[test]
fn compare_entry_match_leaves_no_failure() {
    let expected = GoldSetEntry {
        video: "v.mp4".to_string(),
        frame_time: "00:00:01".to_string(),
        timestamp: "00:01".to_string(),
        player1supply: Some("4/9".to_string()),
        player2supply: None,
    };
    let predicted = FrameData {
        timestamp: "00:01".to_string(),
        player1supply: Some("4/9".to_string()),
        player2supply: None,
    };
    let mut stats = EvalStats::default();
    let mut failures = Vec::new();
    assert!(compare_entry(&expected, &predicted, &mut stats, &mut failures));
    assert!(failures.is_empty());
    assert_eq!(stats.player2supply.correct, 1);
    assert_eq!(stats.timestamp.total, 1);
    assert_eq!(stats.frame_total, 0);
}

#[test]
fn goldset_lines_number_non_blank_lines() {
    let content = "\n  {\"a\":1}  \n\n\t{\"b\":2}\r\n   \n";
    let lines = goldset_lines(content);
    assert_eq!(lines, vec![(2, "{\"a\":1}".to_string()), (4, "{\"b\":2}".to_string())]);
}

#[test]
fn eval_stats_record_frame_counts() {
    let mut stats = EvalStats::default();
    stats.record_frame(true);
    stats.record_frame(false);
    assert_eq!((stats.frame_matches, stats.frame_total), (1, 2));
    assert_eq!(stats.timestamp.total, 0);
}

#[test]
fn compare_entry_leaves_unmatched_correct_counts_alone() {
    let expected = GoldSetEntry {
        video: "v.mp4".to_string(),
        frame_time: "00:00:01".to_string(),
        timestamp: "00:01".to_string(),
        player1supply: None,
        player2supply: None,
    };
    let predicted = FrameData { timestamp: "00:02".to_string(), player1supply: None, player2supply: None };
    let mut stats = EvalStats::default();
    // a field that does not match may have its correct count at the limit
    stats.timestamp.correct = usize::MAX;
    let mut failures = Vec::new();
    assert!(!compare_entry(&expected, &predicted, &mut stats, &mut failures));
    assert_eq!(stats.timestamp.correct, usize::MAX);
    assert_eq!(stats.timestamp.total, 1);
    assert_eq!(stats.player1supply.correct, 1);
    assert_eq!(failures.len(), 1);
}
