use bwl_meta::extract_frame_data;
use bwl_meta::pixels::GrayPixels;
use bwl_meta::recognizer::{debug_segment_glyphs, recognize_text, RoiGroup};
use bwl_meta::templates::{
    render_template, templates_for, GlyphTemplates, GLYPH_HEIGHT, GLYPH_WIDTH,
};
use image::{imageops, GrayImage};

fn to_image(p: &GrayPixels) -> GrayImage {
    GrayImage::from_raw(p.width, p.height, p.data.clone()).unwrap()
}

fn to_pixels(img: &GrayImage) -> GrayPixels {
    GrayPixels {
        width: img.width(),
        height: img.height(),
        data: img.as_raw().clone(),
    }
}

fn render_char(templates: &GlyphTemplates, roi_group: RoiGroup, ch: char) -> GrayImage {
    if ch == ':' {
        return to_image(&render_template(&[
            ".....", "..#..", ".....", ".....", "..#..", ".....", ".....",
        ]));
    }
    let set = match roi_group {
        RoiGroup::Timestamp => &templates.timestamp,
        RoiGroup::Supply => &templates.supply,
    };
    to_image(&templates_for(set, ch)[0])
}

fn compose(roi_group: RoiGroup, glyphs: &[char], spacing: u32) -> GrayPixels {
    let templates = GlyphTemplates::built_in();
    let width = GLYPH_WIDTH as usize * glyphs.len() + (glyphs.len() - 1) * spacing as usize;
    let mut image = GrayImage::new(width as u32, GLYPH_HEIGHT);
    let mut x = 0u32;
    for &ch in glyphs {
        let glyph = render_char(&templates, roi_group, ch);
        imageops::overlay(&mut image, &glyph, x.into(), 0);
        x += GLYPH_WIDTH + spacing;
    }
    to_pixels(&image)
}

#[test]
fn recognizes_timestamp_tokens() {
    let templates = GlyphTemplates::built_in();
    let image = compose(RoiGroup::Timestamp, &['1', '2', ':', '3', '4'], 2);
    assert_eq!(recognize_text("timestamp", &image, &templates), "12:34");
}

#[test]
fn recognizes_supply_tokens() {
    let templates = GlyphTemplates::built_in();
    let image = compose(RoiGroup::Supply, &['4', '2', '/', '5', '8'], 2);
    assert_eq!(recognize_text("player1supply", &image, &templates), "42/58");
}

#[test]
fn rejects_non_five_glyph_timestamp() {
    let templates = GlyphTemplates::built_in();
    let image = compose(RoiGroup::Timestamp, &['1', '2', '3', '4'], 2);
    assert_eq!(recognize_text("timestamp", &image, &templates), "");
}

#[test]
fn rejects_supply_with_invalid_length() {
    let templates = GlyphTemplates::built_in();
    let image = compose(RoiGroup::Supply, &['4', '/'], 2);
    assert_eq!(recognize_text("player1supply", &image, &templates), "");
}

#[test]
fn segments_multiple_glyphs() {
    let image = compose(RoiGroup::Supply, &['4', '2', '/', '5'], 3);
    let segmented = debug_segment_glyphs(&image);
    assert_eq!(segmented.len(), 4);
}

#[test]
fn frame_reading_has_clock_and_supply_texts() {
    let templates = GlyphTemplates::built_in();
    let clock = compose(RoiGroup::Timestamp, &['1', '2', ':', '3', '4'], 2);
    let supply = compose(RoiGroup::Supply, &['9', '/', '1', '7'], 2);
    let empty = GrayPixels { width: 30, height: GLYPH_HEIGHT, data: vec![0; 30 * GLYPH_HEIGHT as usize] };
    let frame = extract_frame_data(&clock, &supply, &empty, &templates).unwrap();
    assert_eq!(frame.timestamp, "12:34");
    assert_eq!(frame.player1supply.as_deref(), Some("9/17"));
    assert_eq!(frame.player2supply, None);
    // a supply region holding a clock does not read as a supply
    let misplaced = extract_frame_data(&clock, &clock, &supply, &templates).unwrap();
    assert_eq!(misplaced.player1supply, None);
    assert_eq!(misplaced.player2supply.as_deref(), Some("9/17"));
}
