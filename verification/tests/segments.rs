use std::cell::Cell;

use bwl_meta::models::{Config, ConfigMatchSegment, DecodedFrames, HudCrops};
use bwl_meta::pixels::GrayPixels;
use bwl_meta::recognizer::RoiGroup;
use bwl_meta::templates::{render_template, templates_for, GlyphTemplates};
use bwl_meta::models::FrameData;
use bwl_meta::{
    parse_segment, parse_segments, parse_segments_with_progress, segment_windows_fit, total_frames,
    MetaError,
};

fn segment(start: &str, end: &str) -> ConfigMatchSegment {
    ConfigMatchSegment {
        player1: "A".to_string(),
        race1: "P".to_string(),
        player2: "B".to_string(),
        race2: "Z".to_string(),
        winner: "A".to_string(),
        start: start.to_string(),
        end: end.to_string(),
    }
}

fn config(matches: Vec<ConfigMatchSegment>) -> Config {
    Config {
        yt_url: "https://example.invalid/v".to_string(),
        video_name: "sample.mp4".to_string(),
        date: "2026-04-07".to_string(),
        org: "BWL".to_string(),
        org_season: 1,
        org_xtra: "sample".to_string(),
        matches,
    }
}

fn text_image(group: RoiGroup, text: &str) -> GrayPixels {
    let templates = GlyphTemplates::built_in();
    let set = match group {
        RoiGroup::Timestamp => &templates.timestamp,
        RoiGroup::Supply => &templates.supply,
    };
    let colon = render_template(&[".....", "..#..", ".....", ".....", "..#..", ".....", "....."]);
    let chars: Vec<char> = text.chars().collect();
    let width = 12 * chars.len() + 2 * (chars.len() - 1);
    let mut data = vec![0u8; width * 20];
    for (i, &ch) in chars.iter().enumerate() {
        let glyph = if ch == ':' { &colon } else { &templates_for(set, ch)[0] };
        for y in 0..20 {
            for x in 0..12 {
                data[y * width + i * 14 + x] = glyph.data[y * 12 + x];
            }
        }
    }
    GrayPixels { width: width as u32, height: 20, data }
}

fn blank() -> GrayPixels {
    GrayPixels { width: 30, height: 20, data: vec![0; 600] }
}

fn crops(ts: &str, p1: &str) -> Result<HudCrops, MetaError> {
    Ok(HudCrops {
        timestamp: text_image(RoiGroup::Timestamp, ts),
        player1supply: text_image(RoiGroup::Supply, p1),
        player2supply: blank(),
    })
}

fn no_hud() -> Result<HudCrops, MetaError> {
    Ok(HudCrops { timestamp: blank(), player1supply: blank(), player2supply: blank() })
}

#[test]
fn parse_segments_decodes_each_window_and_cleans_it() {
    let conf = config(vec![segment("00:10:00", "00:10:04"), segment("00:20:00", "00:20:01")]);
    let templates = GlyphTemplates::built_in();
    let calls = Cell::new(0usize);
    let ticks = Cell::new(0usize);
    let decode = |video: &String, start: usize, end: usize, count: usize| -> DecodedFrames {
        calls.set(calls.get() + 1);
        assert_eq!(video, "sample.mp4");
        assert_eq!(count, end - start);
        if start == 600 {
            assert_eq!(end, 604);
            // one frame more than the window holds: it is not taken
            Ok(vec![
                crops("10:00", "9/9"),
                no_hud(),
                crops("10:02", "7/9"),
                crops("10:03", "9/9"),
                crops("10:04", "7/9"),
            ])
        } else {
            assert_eq!((start, end), (1200, 1201));
            Ok(vec![crops("20:00", "1/9")])
        }
    };
    let entries =
        parse_segments_with_progress(&conf, &templates, decode, |_| ticks.set(ticks.get() + 1)).unwrap();
    assert_eq!(calls.get(), 2);
    assert_eq!(ticks.get(), 5);
    assert_eq!(entries.len(), 2);
    assert_eq!(entries[0].segment.start, "00:10:00");
    let stamps: Vec<&str> = entries[0].ocr.iter().map(|f| f.timestamp.as_str()).collect();
    assert_eq!(stamps, vec!["10:00", "10:02", "10:03"]);
    assert_eq!(entries[0].ocr[0].player1supply.as_deref(), Some("9/9"));
    assert_eq!(entries[0].ocr[1].player1supply, None);
    assert_eq!(entries[0].ocr[2].player1supply.as_deref(), Some("9/9"));
    assert_eq!(entries[0].ocr[2].player2supply, None);
    assert_eq!(entries[1].ocr.len(), 1);
    assert_eq!(entries[1].ocr[0].player1supply.as_deref(), Some("1/9"));
}

#[test]
fn parse_segments_stops_at_a_frame_that_fails_to_decode() {
    let conf = config(vec![segment("00:00:01", "00:00:05"), segment("00:00:06", "00:00:07")]);
    let templates = GlyphTemplates::built_in();
    let calls = Cell::new(0usize);
    let ticks = Cell::new(0usize);
    let decode = |_: &String, _: usize, _: usize, _: usize| -> DecodedFrames {
        calls.set(calls.get() + 1);
        Ok(vec![
            crops("00:01", "9/9"),
            Err(MetaError::Decode("bad frame".to_string())),
            crops("00:03", "9/9"),
        ])
    };
    let result = parse_segments_with_progress(&conf, &templates, decode, |_| ticks.set(ticks.get() + 1));
    match result {
        Err(MetaError::Decode(message)) => assert_eq!(message, "bad frame"),
        _ => panic!("expected a decode error"),
    }
    // the frame decoded before the failure was reported; the next segment never decoded
    assert_eq!(ticks.get(), 1);
    assert_eq!(calls.get(), 1);
}

#[test]
fn parse_segments_stops_at_invalid_timestamp() {
    let conf = config(vec![segment("00:10:00", "00:10:01"), segment("10:00", "00:20:00")]);
    let templates = GlyphTemplates::built_in();
    let calls = Cell::new(0usize);
    let decode = |_: &String, _: usize, _: usize, _: usize| -> DecodedFrames {
        calls.set(calls.get() + 1);
        Ok(Vec::new())
    };
    let result = parse_segments(&conf, &templates, decode);
    assert!(matches!(result, Err(MetaError::InvalidTimestamp)));
    assert_eq!(calls.get(), 1);
}

#[test]
fn parse_segments_passes_on_decode_errors() {
    let conf = config(vec![segment("00:00:01", "00:00:02")]);
    let templates = GlyphTemplates::built_in();
    let decode = |_: &String, _: usize, _: usize, _: usize| -> DecodedFrames {
        Err(MetaError::Decode("ffmpeg decode".to_string()))
    };
    match parse_segments(&conf, &templates, decode) {
        Err(MetaError::Decode(message)) => assert_eq!(message, "ffmpeg decode"),
        _ => panic!("expected a decode error"),
    }
}

#[test]
fn segment_windows_fit_rejects_backward_windows() {
    assert!(segment_windows_fit(&config(vec![segment("00:10:00", "00:11:00")])));
    assert!(!segment_windows_fit(&config(vec![segment("00:11:00", "00:10:00")])));
    // a later backward window is not reached after an invalid one
    assert!(segment_windows_fit(&config(vec![segment("bad", "00:10:00"), segment("00:11:00", "00:10:00")])));
    assert!(!segment_windows_fit(&config(vec![segment("00:01:00", "00:02:00"), segment("00:11:00", "00:10:00")])));
}

#[test]
fn total_frames_sums_forward_windows() {
    let conf = config(vec![segment("00:10:00", "00:10:04"), segment("00:20:00", "00:19:00"), segment("01:00:00", "01:01:00")]);
    assert!(matches!(total_frames(&conf), Ok(Some(64))));
    assert!(matches!(total_frames(&config(vec![])), Ok(Some(0))));
}

#[test]
fn total_frames_reports_the_first_failure() {
    let bad_then_huge = config(vec![segment("00:00:01", "10:00"), segment("9999999999999999:00:00", "00:00:00")]);
    assert!(matches!(total_frames(&bad_then_huge), Err(MetaError::InvalidTimestamp)));
    let huge_then_bad = config(vec![segment("00:00:01", "9999999999999999:00:00"), segment("x", "00:00:00")]);
    assert!(matches!(total_frames(&huge_then_bad), Ok(None)));
    let bad_number = config(vec![segment("00:0a:01", "00:00:02")]);
    assert!(matches!(total_frames(&bad_number), Err(MetaError::InvalidNumber)));
}

#[test]
fn parse_segment_appends_readings_and_keeps_them_on_failure() {
    let templates = GlyphTemplates::built_in();
    let ticks = Cell::new(0usize);
    let tick = || ticks.set(ticks.get() + 1);
    let earlier = FrameData { timestamp: "09:59".to_string(), player1supply: None, player2supply: None };

    let good = |_: &String, start: usize, end: usize, count: usize| -> DecodedFrames {
        assert_eq!((start, end, count), (5, 7, 2));
        Ok(vec![crops("00:05", "9/9"), no_hud(), crops("00:07", "8/9")])
    };
    let mut seg_vec = vec![earlier];
    parse_segment(&mut seg_vec, 2, 5, 7, &"v.mp4".to_string(), &templates, &good, &tick).unwrap();
    let stamps: Vec<&str> = seg_vec.iter().map(|f| f.timestamp.as_str()).collect();
    assert_eq!(stamps, vec!["09:59", "00:05"]);
    assert_eq!(ticks.get(), 2);

    let failing = |_: &String, _: usize, _: usize, _: usize| -> DecodedFrames {
        Ok(vec![crops("00:05", "9/9"), Err(MetaError::Decode("bad frame".to_string())), crops("00:07", "8/9")])
    };
    let mut seg_vec = Vec::new();
    ticks.set(0);
    let result = parse_segment(&mut seg_vec, 3, 5, 8, &"v.mp4".to_string(), &templates, &failing, &tick);
    assert!(matches!(result, Err(MetaError::Decode(_))));
    assert_eq!(seg_vec.len(), 1);
    assert_eq!(seg_vec[0].player1supply.as_deref(), Some("9/9"));
    assert_eq!(ticks.get(), 1);
}
