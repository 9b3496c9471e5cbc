use bwl_meta::helpers::find_consistent;
use bwl_meta::models::{FrameData, SupplyData};
use bwl_meta::{keep_if_timestamped, none_if_empty, nullify_inconsistent, record_roi_text};

fn frame(ts: &str, p1: Option<&str>, p2: Option<&str>) -> FrameData {
    FrameData {
        timestamp: ts.to_string(),
        player1supply: p1.map(|s| s.to_string()),
        player2supply: p2.map(|s| s.to_string()),
    }
}

fn supplies(frames: &[FrameData]) -> Vec<(Option<&str>, Option<&str>)> {
    frames
        .iter()
        .map(|f| (f.player1supply.as_deref(), f.player2supply.as_deref()))
        .collect()
}

#[test]
fn nullify_drops_isolated_glitch() {
    let mut frames = vec![
        frame("00:01", Some("9/9"), Some("4/9")),
        frame("00:02", Some("10/9"), Some("4/9")),
        frame("00:03", Some("9/9"), Some("4/9")),
    ];
    nullify_inconsistent(&mut frames).unwrap();
    assert_eq!(
        supplies(&frames),
        vec![
            (Some("9/9"), Some("4/9")),
            (None, Some("4/9")),
            (Some("9/9"), Some("4/9")),
        ]
    );
}

#[test]
fn nullify_compares_with_cleaned_previous_frame() {
    let mut frames = vec![
        frame("00:01", Some("5/9"), None),
        frame("00:02", Some("7/9"), None),
        frame("00:03", Some("8/9"), None),
        frame("00:04", Some("9/9"), None),
    ];
    nullify_inconsistent(&mut frames).unwrap();
    assert_eq!(
        supplies(&frames),
        vec![(Some("5/9"), None), (None, None), (None, None), (Some("9/9"), None)]
    );
}

#[test]
fn nullify_keeps_short_segments_and_timestamps() {
    let mut two = vec![frame("00:01", Some("1/9"), None), frame("00:02", Some("2/9"), None)];
    nullify_inconsistent(&mut two).unwrap();
    assert_eq!(supplies(&two), vec![(Some("1/9"), None), (Some("2/9"), None)]);

    let mut five = vec![
        frame("a", Some("1/9"), Some("1/9")),
        frame("b", Some("2/9"), Some("1/9")),
        frame("c", Some("3/9"), Some("1/9")),
        frame("d", Some("3/9"), Some("2/9")),
        frame("e", Some("4/9"), Some("2/9")),
    ];
    nullify_inconsistent(&mut five).unwrap();
    let stamps: Vec<&str> = five.iter().map(|f| f.timestamp.as_str()).collect();
    assert_eq!(stamps, vec!["a", "b", "c", "d", "e"]);
    // a reading equal to the next frame's is always kept
    assert_eq!(five[2].player1supply.as_deref(), Some("3/9"));
    assert_eq!(five[3].player2supply.as_deref(), Some("2/9"));
    assert_eq!(five[0].player1supply.as_deref(), Some("1/9"));
    assert_eq!(five[4].player1supply.as_deref(), Some("4/9"));
}

#[test]
fn helper_consistency_ignores_blanks_around_slash() {
    let p = SupplyData { player1supply: Some(" 10 / 9".to_string()), player2supply: None };
    let c = SupplyData { player1supply: Some("10/9".to_string()), player2supply: Some("1000/1000".to_string()) };
    let n = SupplyData { player1supply: Some("11/9".to_string()), player2supply: Some("3/9".to_string()) };
    assert_eq!(find_consistent(&p, &c, &n).unwrap(), (true, true));

    let c2 = SupplyData { player1supply: Some("12/9".to_string()), player2supply: Some("2/9".to_string()) };
    assert_eq!(find_consistent(&p, &c2, &n).unwrap(), (false, false));
}

#[test]
fn none_if_empty_drops_empty_text() {
    assert_eq!(none_if_empty(String::new()), None);
    assert_eq!(none_if_empty("42/58".to_string()).as_deref(), Some("42/58"));
}

#[test]
fn record_roi_text_fills_fields_by_region() {
    let mut f = frame("", None, None);
    record_roi_text(&mut f, "timestamp", "12:34".to_string());
    record_roi_text(&mut f, "player1supply", "42/58".to_string());
    record_roi_text(&mut f, "player2supply", String::new());
    record_roi_text(&mut f, "elsewhere", "x".to_string());
    assert_eq!(f.timestamp, "12:34");
    assert_eq!(f.player1supply.as_deref(), Some("42/58"));
    assert_eq!(f.player2supply, None);
    assert!(keep_if_timestamped(f).is_some());
    assert!(keep_if_timestamped(frame("", Some("1/1"), None)).is_none());
}

#[test]
fn nullify_twice_changes_nothing() {
    let mut frames = vec![
        frame("a", Some("1/9"), Some("1/9")),
        frame("b", Some("2/9"), Some("1/9")),
        frame("c", Some("3/9"), Some("5/9")),
        frame("d", Some("3/9"), Some("2/9")),
        frame("e", Some("7/9"), Some("2/9")),
        frame("f", Some("8/9"), None),
    ];
    nullify_inconsistent(&mut frames).unwrap();
    let once: Vec<(Option<String>, Option<String>)> = frames
        .iter()
        .map(|f| (f.player1supply.clone(), f.player2supply.clone()))
        .collect();
    nullify_inconsistent(&mut frames).unwrap();
    let twice: Vec<(Option<String>, Option<String>)> = frames
        .iter()
        .map(|f| (f.player1supply.clone(), f.player2supply.clone()))
        .collect();
    assert_eq!(once, twice);
    assert_eq!(
        supplies(&frames),
        vec![
            (Some("1/9"), Some("1/9")),
            (None, Some("1/9")),
            (Some("3/9"), None),
            (Some("3/9"), Some("2/9")),
            (None, Some("2/9")),
            (Some("8/9"), None),
        ]
    );
}
