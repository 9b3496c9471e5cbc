use bwl_meta::eval::{compare_entry, goldset_lines, EvalStats};
use bwl_meta::models::{FrameData, GoldSetEntry};

#[test]
fn compares_expected_and_predicted_frames() {
    let expected = GoldSetEntry {
        video: "sample.mp4".to_string(),
        frame_time: "00:10:03".to_string(),
        timestamp: "10:03".to_string(),
        player1supply: Some("42/58".to_string()),
        player2supply: Some("38/50".to_string()),
    };
    let predicted = FrameData {
        timestamp: "10:03".to_string(),
        player1supply: Some("42/58".to_string()),
        player2supply: Some("37/50".to_string()),
    };

    let mut stats = EvalStats::default();
    let mut failures = Vec::new();
    let matched = compare_entry(&expected, &predicted, &mut stats, &mut failures);

    assert!(!matched);
    assert_eq!(stats.timestamp.correct, 1);
    assert_eq!(stats.player1supply.correct, 1);
    assert_eq!(stats.player2supply.correct, 0);
    assert_eq!(failures.len(), 1);
}

#[test]
fn parses_goldset_jsonl() {
    let content = r#"
{"video":"sample.mp4","frame_time":"00:10:03","timestamp":"10:03","player1supply":"42/58","player2supply":"38/50"}
{"video":"sample.mp4","frame_time":"00:10:04","timestamp":"10:04","player1supply":"42/58","player2supply":"39/50"}
"#;

    let entries: Vec<GoldSetEntry> = goldset_lines(content)
        .iter()
        .map(|(_, line)| gold_entry(&serde_json::from_str(line).unwrap()))
        .collect();

    assert_eq!(entries.len(), 2);
    assert_eq!(entries[0].frame_time, "00:10:03");
    assert_eq!(entries[1].player2supply.as_deref(), Some("39/50"));
}

fn gold_entry(v: &serde_json::Value) -> GoldSetEntry {
    let text = |key: &str| v[key].as_str().unwrap().to_string();
    let opt = |key: &str| v[key].as_str().map(|s| s.to_string());
    GoldSetEntry {
        video: text("video"),
        frame_time: text("frame_time"),
        timestamp: text("timestamp"),
        player1supply: opt("player1supply"),
        player2supply: opt("player2supply"),
    }
}
