use bwl_meta::extract_frame_data;
use bwl_meta::pixels::GrayPixels;
use bwl_meta::recognizer::{
    choose_best_digit, decode_supply, glyph_score_for_char, decode_timestamp, min_glyph_score, parse_supply_numbers,
    recognize_text, roi_group, score_for_char, score_glyph_for_roi, sort_scores,
    validate_supply, DebugGlyphScores, GlyphScore, RoiGroup,
};
use bwl_meta::segment::{crop_to_ink, glyph_column_ranges, segment_glyphs};
use bwl_meta::templates::{
    allowed_chars, built_in_templates, glyph_dir_name, is_png_extension, merge_templates,
    normalize, render_template, roi_group_dir_name, supported_glyphs, templates_for,
    GlyphTemplates, GLYPH_HEIGHT, GLYPH_WIDTH,
};

fn blank(width: u32, height: u32) -> GrayPixels {
    GrayPixels { width, height, data: vec![0; (width * height) as usize] }
}

fn with_ink(width: u32, height: u32, points: &[(u32, u32)]) -> GrayPixels {
    let mut img = blank(width, height);
    for &(x, y) in points {
        img.data[(y * width + x) as usize] = 255;
    }
    img
}

fn ranked(pairs: &[(char, u32)]) -> DebugGlyphScores {
    DebugGlyphScores {
        best: pairs.first().map(|p| p.0),
        accepted: true,
        scores: pairs.iter().map(|&(ch, score)| GlyphScore { ch, score }).collect(),
    }
}

fn digit(ch: char) -> DebugGlyphScores {
    ranked(&[(ch, 230), ('/', 100)])
}

#[test]
fn crop_to_ink_copies_the_inked_rectangle() {
    let img = GrayPixels { width: 3, height: 2, data: vec![1, 2, 3, 4, 5, 6] };
    let out = crop_to_ink(&img, 1, 2).unwrap();
    assert_eq!((out.width, out.height), (2, 2));
    assert_eq!(out.data, vec![2, 3, 5, 6]);
    let tall = with_ink(4, 5, &[(2, 1), (3, 3)]);
    let out = crop_to_ink(&tall, 2, 3).unwrap();
    assert_eq!((out.width, out.height), (2, 3));
    assert_eq!(out.data, vec![255, 0, 0, 0, 0, 255]);
}

#[test]
fn normalize_resizes_by_nearest_sample() {
    let img = GrayPixels { width: 2, height: 1, data: vec![10, 200] };
    let out = normalize(&img);
    assert_eq!((out.width, out.height, out.data.len()), (12, 20, 240));
    for row in out.data.chunks(12) {
        assert_eq!(row, &[0, 0, 0, 0, 0, 0, 255, 255, 255, 255, 255, 255][..]);
    }
    let full = GrayPixels { width: 12, height: 20, data: (0..240).map(|i| if i % 7 == 0 { 255 } else { 90 }).collect() };
    let same = normalize(&full);
    let expected: Vec<u8> = (0..240).map(|i| if i % 7 == 0 { 255 } else { 0 }).collect();
    assert_eq!(same.data, expected);
}

#[test]
fn normalize_yields_binary_glyph_of_fixed_size() {
    let img = with_ink(5, 7, &[(2, 3), (1, 1)]);
    let out = normalize(&img);
    assert_eq!((out.width, out.height), (GLYPH_WIDTH, GLYPH_HEIGHT));
    assert_eq!(out.data.len(), 240);
    assert!(out.data.iter().all(|&b| b == 0 || b == 255));
    assert!(out.data.iter().any(|&b| b == 255));
}

#[test]
fn render_template_normalizes_pattern() {
    let t = render_template(&["#....", ".....", ".....", ".....", ".....", ".....", "....."]);
    assert_eq!((t.width, t.height), (12, 20));
    assert_eq!(t.data[0], 255);
    assert_eq!(t.data[239], 0);
}

#[test]
fn column_ranges_split_on_two_blank_columns() {
    // ink at columns 0, 2 (one blank between) and 5 (two blanks before)
    let img = with_ink(7, 3, &[(0, 1), (2, 0), (5, 2)]);
    assert_eq!(glyph_column_ranges(&img), vec![(0, 2), (5, 6)]);
    let glyphs = segment_glyphs(&img);
    assert_eq!(glyphs.len(), 2);
    assert_eq!((glyphs[0].width, glyphs[0].height), (3, 2));
    assert_eq!(glyphs[0].data, vec![0, 0, 255, 255, 0, 0]);
    assert_eq!((glyphs[1].width, glyphs[1].height), (2, 1));
}

#[test]
fn blank_image_has_no_glyphs() {
    let img = blank(10, 4);
    assert!(segment_glyphs(&img).is_empty());
    assert!(crop_to_ink(&img, 0, 9).is_none());
    let templates = GlyphTemplates::built_in();
    assert_eq!(recognize_text("timestamp", &img, &templates), "");
    assert_eq!(recognize_text("player2supply", &img, &templates), "");
}

#[test]
fn sort_scores_orders_best_first_and_keeps_ties_in_order() {
    let input = vec![
        GlyphScore { ch: 'a', score: 3 },
        GlyphScore { ch: 'b', score: 9 },
        GlyphScore { ch: 'c', score: 3 },
        GlyphScore { ch: 'd', score: 9 },
    ];
    let out: Vec<char> = sort_scores(input).iter().map(|s| s.ch).collect();
    assert_eq!(out, vec!['b', 'd', 'a', 'c']);
}

#[test]
fn choose_best_digit_prefers_last_of_equal_scores() {
    let g = ranked(&[('7', 200), ('/', 200), ('1', 200), ('3', 10)]);
    assert_eq!(choose_best_digit(&g, &['1', '7']), Some('1'));
    assert_eq!(choose_best_digit(&g, &['3']), Some('3'));
    assert_eq!(choose_best_digit(&g, &['9']), None);
    assert_eq!(score_for_char(&g, '/'), Some(200));
    assert_eq!(score_for_char(&g, '5'), None);
}

#[test]
fn decode_timestamp_reads_five_glyphs() {
    let glyphs = vec![digit('0'), digit('9'), digit('8'), digit('5'), digit('9')];
    assert_eq!(decode_timestamp(&glyphs).as_deref(), Some("09:59"));
    let bad_tens = vec![digit('7'), digit('9'), digit('8'), digit('5'), digit('9')];
    assert_eq!(decode_timestamp(&bad_tens), None);
    assert_eq!(decode_timestamp(&glyphs[..4]), None);
}

#[test]
fn decode_supply_prefers_single_digit_used() {
    let slash = ranked(&[('/', 200), ('1', 100)]);
    let glyphs = vec![digit('4'), slash.clone(), digit('2'), digit('8')];
    assert_eq!(decode_supply(&glyphs).as_deref(), Some("4/28"));
    let glyphs = vec![digit('4'), digit('2'), slash.clone(), digit('8')];
    assert_eq!(decode_supply(&glyphs).as_deref(), Some("42/8"));
    let weak_slash = ranked(&[('/', min_glyph_score(RoiGroup::Supply) - 1), ('1', 10)]);
    let glyphs = vec![digit('4'), weak_slash, digit('8')];
    assert_eq!(decode_supply(&glyphs), None);
    let glyphs = vec![digit('4'), digit('2'), slash, digit('5'), digit('8')];
    assert_eq!(decode_supply(&glyphs).as_deref(), Some("42/58"));
}

#[test]
fn supply_numbers_parse_like_std() {
    assert_eq!(parse_supply_numbers("42/58"), Some((42, 58)));
    assert_eq!(parse_supply_numbers("+4/2"), Some((4, 2)));
    assert_eq!(parse_supply_numbers("4/2/5"), None);
    assert_eq!(parse_supply_numbers("70000/1"), None);
    assert_eq!(parse_supply_numbers("42"), None);
    assert_eq!(validate_supply("10/9").as_deref(), Some("10/9"));
    assert_eq!(validate_supply("10/"), None);
}

#[test]
fn group_tables_match_hud_layout() {
    assert_eq!(roi_group("timestamp"), RoiGroup::Timestamp);
    assert_eq!(roi_group("player1supply"), RoiGroup::Supply);
    assert_eq!(min_glyph_score(RoiGroup::Timestamp), 144);
    assert_eq!(min_glyph_score(RoiGroup::Supply), 154);
    assert_eq!(allowed_chars(RoiGroup::Supply), "0123456789/");
    assert_eq!(supported_glyphs(RoiGroup::Timestamp).len(), 10);
    assert_eq!(roi_group_dir_name(RoiGroup::Supply), "supply");
    assert_eq!(glyph_dir_name('/'), "slash");
    assert_eq!(glyph_dir_name(':'), "colon");
    assert_eq!(glyph_dir_name('7'), "7");
}

#[test]
fn png_extension_ignores_ascii_case() {
    assert!(is_png_extension(Some("png")));
    assert!(is_png_extension(Some("PnG")));
    assert!(!is_png_extension(Some("jpg")));
    assert!(!is_png_extension(Some("pngx")));
    assert!(!is_png_extension(None));
}

#[test]
fn built_in_templates_cover_each_group() {
    let ts = built_in_templates(RoiGroup::Timestamp);
    let sup = built_in_templates(RoiGroup::Supply);
    assert_eq!(ts.len(), 10);
    assert_eq!(sup.len(), 11);
    assert_eq!(sup[10].0, '/');
    assert!(sup.iter().all(|(_, imgs)| imgs.len() == 1 && imgs[0].data.len() == 240));
    assert!(GlyphTemplates::built_in().is_ready());
}

#[test]
fn merge_templates_puts_real_templates_first() {
    let mut base = built_in_templates(RoiGroup::Supply);
    let extra = vec![('4', vec![blank(12, 20)]), ('x', vec![blank(12, 20)])];
    merge_templates(&mut base, extra);
    assert_eq!(base.len(), 12);
    let fours = templates_for(&base, '4');
    assert_eq!(fours.len(), 2);
    assert!(fours[0].data.iter().all(|&b| b == 0));
    assert_eq!(base[11].0, 'x');
}

#[test]
fn score_glyph_for_roi_keeps_top_n() {
    let templates = GlyphTemplates::built_in();
    let four = templates_for(&templates.supply, '4')[0].clone_pixels();
    let r = score_glyph_for_roi(&four, RoiGroup::Supply, 3, &templates);
    assert_eq!(r.best, Some('4'));
    assert!(r.accepted);
    assert_eq!(r.scores.len(), 3);
    assert_eq!(r.scores[0], GlyphScore { ch: '4', score: 240 });
    assert!(r.scores[0].score >= r.scores[1].score && r.scores[1].score >= r.scores[2].score);
    let r0 = score_glyph_for_roi(&four, RoiGroup::Supply, 0, &templates);
    assert_eq!(r0.scores.len(), 1);
}

#[test]
fn extract_frame_data_needs_a_timestamp() {
    let templates = GlyphTemplates::built_in();
    let img = blank(20, 20);
    assert!(extract_frame_data(&img, &img, &img, &templates).is_none());
}

trait ClonePixels {
    fn clone_pixels(&self) -> GrayPixels;
}

impl ClonePixels for GrayPixels {
    fn clone_pixels(&self) -> GrayPixels {
        GrayPixels { width: self.width, height: self.height, data: self.data.clone() }
    }
}

#[test]
fn merging_templates_never_lowers_a_score() {
    let mut set = built_in_templates(RoiGroup::Supply);
    let four = normalize(&templates_for(&set, '4')[0].clone_pixels());
    let empty = normalize(&blank(12, 20));
    assert_eq!(glyph_score_for_char(&four, '4', &set), 240);
    let seven_before = glyph_score_for_char(&empty, '7', &set);
    assert!(seven_before < 240);
    merge_templates(&mut set, vec![('4', vec![blank(12, 20)]), ('7', vec![blank(12, 20)])]);
    // the built-in template still matches the four exactly
    assert_eq!(glyph_score_for_char(&four, '4', &set), 240);
    // the added blank template matches the empty glyph everywhere
    assert_eq!(glyph_score_for_char(&empty, '7', &set), 240);
}

#[test]
fn glyph_runs_end_at_two_blanks_or_the_edge() {
    // ink at 0 and 4: columns 1 and 2 close the first run, the second stays
    // open to the right edge although column 5 is blank
    let img = with_ink(6, 1, &[(0, 0), (4, 0)]);
    assert_eq!(glyph_column_ranges(&img), vec![(0, 0), (4, 5)]);
    // a single blank column does not split a run
    let img = with_ink(5, 1, &[(0, 0), (2, 0), (4, 0)]);
    assert_eq!(glyph_column_ranges(&img), vec![(0, 4)]);
}
