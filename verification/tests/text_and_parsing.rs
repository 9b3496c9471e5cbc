use bwl_meta::eval::parse_frame_time;
use bwl_meta::text::{parse_u16, parse_usize, split_str, str_eq, trim_string};
use bwl_meta::{parse_timestamp, timestamp_fits, MetaError};

#[test]
fn parse_timestamp_reads_hours_minutes_seconds() {
    assert_eq!(parse_timestamp("01:02:03").unwrap(), 3723);
    assert_eq!(parse_timestamp("00:10:00").unwrap(), 600);
    assert_eq!(parse_timestamp("+1:00:00").unwrap(), 3600);
    assert_eq!(parse_frame_time("00:12:00").unwrap(), 720);
}

#[test]
fn parse_timestamp_rejects_wrong_field_count() {
    assert!(matches!(parse_timestamp("10:00"), Err(MetaError::InvalidTimestamp)));
    assert!(matches!(parse_timestamp("1:2:3:4"), Err(MetaError::InvalidTimestamp)));
    assert!(matches!(parse_timestamp(""), Err(MetaError::InvalidTimestamp)));
}

#[test]
fn parse_timestamp_rejects_bad_numbers() {
    assert!(matches!(parse_timestamp("aa:00:00"), Err(MetaError::InvalidNumber)));
    assert!(matches!(parse_timestamp("00:00:"), Err(MetaError::InvalidNumber)));
    assert!(matches!(parse_timestamp("00:-1:00"), Err(MetaError::InvalidNumber)));
    assert!(matches!(parse_timestamp("00: 1:00"), Err(MetaError::InvalidNumber)));
}

#[test]
fn timestamp_fits_detects_overflow() {
    assert!(timestamp_fits("01:02:03"));
    assert!(timestamp_fits("not a timestamp"));
    assert!(timestamp_fits("99999999999999999999999:0:0"));
    let big = format!("{}:0:0", usize::MAX / 3600 + 1);
    assert!(!timestamp_fits(&big));
}

#[test]
fn parse_usize_follows_std_parse() {
    for s in ["0", "007", "+12", "18446744073709551615", "", "+", "-1", "1 ", "1_0", "++1"] {
        assert_eq!(parse_usize(s), s.parse::<usize>().ok(), "input {:?}", s);
    }
}

#[test]
fn parse_u16_follows_std_parse() {
    for s in ["65535", "65536", "42", "+7", "x", "", "00058"] {
        assert_eq!(parse_u16(s), s.parse::<u16>().ok(), "input {:?}", s);
    }
}

#[test]
fn split_str_matches_std_split() {
    for s in ["a:b:c", "", ":", "::x", "abc", "x:"] {
        let ours: Vec<String> = split_str(s, ':');
        let theirs: Vec<String> = s.split(':').map(|p| p.to_string()).collect();
        assert_eq!(ours, theirs, "input {:?}", s);
    }
}

#[test]
fn trim_string_matches_std_trim() {
    for s in ["  x  ", "\u{3000}ab\u{2028}", "\t\n", "", "a b", "\u{85}z\u{a0}"] {
        assert_eq!(trim_string(s), s.trim(), "input {:?}", s);
    }
}

#[test]
fn str_eq_compares_characters() {
    assert!(str_eq("timestamp", "timestamp"));
    assert!(!str_eq("timestamp", "timestamps"));
    assert!(!str_eq("a", "b"));
    assert!(str_eq("", ""));
}
