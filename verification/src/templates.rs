//! Glyph templates: the built-in HUD glyph patterns, rendering them into
//! normalized rasters, and assembling the per-group template sets.
use vstd::prelude::*;
use crate::pixels::{raster_wf, resize_nearest, resize_nearest_pixels, GrayPixels, RasterView};
use crate::recognizer::{allowed_seq, RoiGroup};
use crate::text::str_chars;
use vstd::utf8::encode_utf8;
use vstd::string::StringSliceAdditionalSpecFns;

verus! {

broadcast use vstd::string::group_string_axioms;

/// Width of a normalized glyph raster.
pub const GLYPH_WIDTH: u32 = 12;

/// Height of a normalized glyph raster.
pub const GLYPH_HEIGHT: u32 = 20;

/// The byte of `#`, which marks ink in a text pattern.
pub const INK_BYTE: u8 = 35;

/// Samples above 127 become 255, all others 0.
pub open spec fn threshold_view(s: Seq<u8>) -> Seq<u8> {
    s.map_values(|b: u8| if b > 127 { 255u8 } else { 0u8 })
}

/// A glyph raster resized to `GLYPH_WIDTH` x `GLYPH_HEIGHT` with nearest
/// sampling, then thresholded to black and white.
pub open spec fn normalize_view(v: RasterView) -> RasterView {
    (
        GLYPH_WIDTH,
        GLYPH_HEIGHT,
        threshold_view(resize_nearest_pixels(v.2, v.0, v.1, GLYPH_WIDTH, GLYPH_HEIGHT)),
    )
}

/// Resizing a raster this wide to the normalized size keeps the buffers that
/// the resize allocates within what a `Vec` can hold (always so when `usize`
/// has 64 bits).
pub open spec fn normalizable_width(width: int) -> bool {
    width * (GLYPH_HEIGHT as int) * 16 <= isize::MAX as int
}

/// Resizes a glyph raster to the normalized size and thresholds it.
pub fn normalize(image: &GrayPixels) -> (out: GrayPixels)
    requires
        image.wf(),
        normalizable_width(image.width as int),
    ensures
        out@ == normalize_view(image@),
        out.wf(),
{
    let resized = resize_nearest(image, GLYPH_WIDTH, GLYPH_HEIGHT);
    let mut data: Vec<u8> = Vec::new();
    let mut i: usize = 0;
    while i < resized.data.len()
        invariant
            i <= resized.data@.len(),
            data@ == threshold_view(resized.data@).take(i as int),
        decreases resized.data@.len() - i,
    {
        let b = resized.data[i];
        data.push(if b > 127 { 255u8 } else { 0u8 });
        i = i + 1;
        assert(data@ =~= threshold_view(resized.data@).take(i as int));
    }
    assert(data@ =~= threshold_view(resized.data@));
    GrayPixels { width: GLYPH_WIDTH, height: GLYPH_HEIGHT, data }
}

/// The raw raster of a text pattern: one row per string, as wide as the
/// first row (in bytes); a `#` byte is ink (255), any other byte is 0.
pub open spec fn pattern_raster(rows: Seq<Seq<u8>>) -> RasterView {
    let w = rows[0].len();
    (w as u32, rows.len() as u32, pattern_samples(rows, w as int))
}

/// The samples of the first `w` bytes of each row, row after row.
pub open spec fn pattern_samples(rows: Seq<Seq<u8>>, w: int) -> Seq<u8>
    decreases rows.len(),
{
    if rows.len() == 0 {
        Seq::empty()
    } else {
        pattern_samples(rows.drop_last(), w) + rows.last().take(w).map_values(
            |b: u8| if b == INK_BYTE { 255u8 } else { 0u8 },
        )
    }
}

/// A pattern can be rendered: it has a first row, no row is shorter than the
/// first, and the raster fits the machine.
pub open spec fn renderable(rows: Seq<Seq<u8>>) -> bool {
    &&& rows.len() > 0
    &&& rows.len() <= u32::MAX
    &&& rows[0].len() <= u32::MAX
    &&& rows.len() * rows[0].len() <= usize::MAX
    &&& normalizable_width(rows[0].len() as int)
    &&& forall|y: int| 0 <= y < rows.len() ==> (#[trigger] rows[y]).len() >= rows[0].len()
}

/// The bytes of each row of a pattern.
pub open spec fn rows_bytes(rows: Seq<&str>) -> Seq<Seq<u8>> {
    rows.map_values(|r: &str| r.spec_bytes())
}

proof fn lemma_samples_len(rows: Seq<Seq<u8>>, w: int)
    requires
        w >= 0,
        forall|y: int| 0 <= y < rows.len() ==> (#[trigger] rows[y]).len() >= w,
    ensures
        pattern_samples(rows, w).len() == rows.len() * w,
    decreases rows.len(),
{
    if rows.len() > 0 {
        assert forall|y: int| 0 <= y < rows.drop_last().len() implies (
        #[trigger] rows.drop_last()[y]).len() >= w by {
            assert(rows.drop_last()[y] == rows[y]);
        }
        lemma_samples_len(rows.drop_last(), w);
        assert(rows.len() * w == (rows.len() - 1) * w + w) by (nonlinear_arith);
    }
}

/// Renders a text pattern (`#` = ink) and normalizes it into a template.
pub fn render_template(rows: &[&str]) -> (out: GrayPixels)
    requires
        renderable(rows_bytes(rows@)),
    ensures
        out@ == normalize_view(pattern_raster(rows_bytes(rows@))),
        out.wf(),
{
    let ghost rb = rows_bytes(rows@);
    let height = rows.len() as u32;
    let width = rows[0].len() as u32;
    let w = rows[0].len();
    let mut data: Vec<u8> = Vec::new();
    let mut y: usize = 0;
    while y < rows.len()
        invariant
            rb == rows_bytes(rows@),
            renderable(rb),
            w == rb[0].len(),
            y <= rows@.len(),
            data@ == pattern_samples(rb.take(y as int), w as int),
        decreases rows@.len() - y,
    {
        let bytes = rows[y].as_bytes();
        assert(bytes@ == rb[y as int]);
        let ghost before = data@;
        let mut x: usize = 0;
        while x < w
            invariant
                x <= w,
                w <= bytes@.len(),
                data@ == before + bytes@.take(x as int).map_values(
                    |b: u8| if b == INK_BYTE { 255u8 } else { 0u8 },
                ),
            decreases w - x,
        {
            let b = bytes[x];
            data.push(if b == INK_BYTE { 255u8 } else { 0u8 });
            x = x + 1;
            assert(bytes@.take(x as int).map_values(
                |b: u8| if b == INK_BYTE { 255u8 } else { 0u8 },
            ) =~= bytes@.take(x - 1).map_values(
                |b: u8| if b == INK_BYTE { 255u8 } else { 0u8 },
            ).push(if b == INK_BYTE { 255u8 } else { 0u8 }));
        }
        assert(rb.take(y + 1).drop_last() =~= rb.take(y as int));
        y = y + 1;
    }
    assert(rb.take(rows@.len() as int) =~= rb);
    proof {
        lemma_samples_len(rb, w as int);
        assert(data@.len() == width as int * height as int) by (nonlinear_arith)
            requires
                data@.len() == rb.len() * w,
                width == w,
                height == rb.len(),
        ;
    }
    let raw = GrayPixels { width, height, data };
    normalize(&raw)
}

/// The rows of the built-in pattern of `ch`, 5 columns by 7 rows, `#` for ink.
pub open spec fn glyph_pattern(ch: char) -> Seq<Seq<char>> {
    if ch == '0' {
        seq![".###."@, "##.##"@, "##.##"@, "##.##"@, "##.##"@, "##.##"@, ".###."@]
    } else if ch == '1' {
        seq!["..##."@, ".###."@, "..##."@, "..##."@, "..##."@, "..##."@, ".####"@]
    } else if ch == '2' {
        seq![".###."@, "##.##"@, "...##"@, "..##."@, ".##.."@, "##..."@, "#####"@]
    } else if ch == '3' {
        seq!["####."@, "...##"@, "..##."@, "..###"@, "...##"@, "##.##"@, ".###."@]
    } else if ch == '4' {
        seq!["...##"@, "..###"@, ".####"@, "##.##"@, "#####"@, "...##"@, "...##"@]
    } else if ch == '5' {
        seq!["#####"@, "##..."@, "####."@, "...##"@, "...##"@, "##.##"@, ".###."@]
    } else if ch == '6' {
        seq![".###."@, "##.##"@, "##..."@, "####."@, "##.##"@, "##.##"@, ".###."@]
    } else if ch == '7' {
        seq!["#####"@, "...##"@, "..##."@, ".##.."@, ".##.."@, ".##.."@, ".##.."@]
    } else if ch == '8' {
        seq![".###."@, "##.##"@, "##.##"@, ".###."@, "##.##"@, "##.##"@, ".###."@]
    } else if ch == '9' {
        seq![".###."@, "##.##"@, "##.##"@, ".####"@, "...##"@, "##.##"@, ".###."@]
    } else {
        seq!["....#"@, "...##"@, "...#."@, "..##."@, ".##.."@, ".#..."@, "##..."@]
    }
}

/// The built-in pattern rows of `ch` (a digit or `/`).
pub fn glyph_rows(ch: char) -> (rows: Vec<&'static str>)
    ensures
        rows@.map_values(|r: &str| r@) == glyph_pattern(ch),
{
    let rows = if ch == '0' {
        vec![".###.", "##.##", "##.##", "##.##", "##.##", "##.##", ".###."]
    } else if ch == '1' {
        vec!["..##.", ".###.", "..##.", "..##.", "..##.", "..##.", ".####"]
    } else if ch == '2' {
        vec![".###.", "##.##", "...##", "..##.", ".##..", "##...", "#####"]
    } else if ch == '3' {
        vec!["####.", "...##", "..##.", "..###", "...##", "##.##", ".###."]
    } else if ch == '4' {
        vec!["...##", "..###", ".####", "##.##", "#####", "...##", "...##"]
    } else if ch == '5' {
        vec!["#####", "##...", "####.", "...##", "...##", "##.##", ".###."]
    } else if ch == '6' {
        vec![".###.", "##.##", "##...", "####.", "##.##", "##.##", ".###."]
    } else if ch == '7' {
        vec!["#####", "...##", "..##.", ".##..", ".##..", ".##..", ".##.."]
    } else if ch == '8' {
        vec![".###.", "##.##", "##.##", ".###.", "##.##", "##.##", ".###."]
    } else if ch == '9' {
        vec![".###.", "##.##", "##.##", ".####", "...##", "##.##", ".###."]
    } else {
        vec!["....#", "...##", "...#.", "..##.", ".##..", ".#...", "##..."]
    };
    assert(rows@.map_values(|r: &str| r@) =~= glyph_pattern(ch));
    rows
}

/// The UTF-8 bytes of each pattern row.
pub open spec fn pattern_bytes(rows: Seq<Seq<char>>) -> Seq<Seq<u8>> {
    rows.map_values(|r: Seq<char>| encode_utf8(r))
}

/// The built-in template of `ch`: its pattern rendered and normalized.
pub open spec fn builtin_template_view(ch: char) -> RasterView {
    normalize_view(pattern_raster(pattern_bytes(glyph_pattern(ch))))
}

/// The built-in template set of a group: one template per allowed character,
/// in the group's character order.
pub open spec fn builtin_set_view(group: RoiGroup) -> Seq<(char, Seq<RasterView>)> {
    allowed_seq(group).map_values(|c: char| (c, seq![builtin_template_view(c)]))
}

proof fn lemma_ascii_row(s: &str)
    requires
        s@.len() == 5,
        vstd::utf8::is_ascii_chars(s@),
    ensures
        encode_utf8(s@).len() == 5,
{
    vstd::utf8::is_ascii_chars_encode_utf8(s@);
}

/// Every built-in pattern has 7 rows of 5 ASCII bytes.
pub proof fn lemma_glyph_pattern_shape(ch: char)
    ensures
        glyph_pattern(ch).len() == 7,
        forall|y: int|
            0 <= y < 7 ==> #[trigger] encode_utf8(glyph_pattern(ch)[y]).len() == 5,
{
    reveal_strlit(".###.");
    reveal_strlit("##.##");
    reveal_strlit("..##.");
    reveal_strlit(".####");
    reveal_strlit("...##");
    reveal_strlit(".##..");
    reveal_strlit("##...");
    reveal_strlit("#####");
    reveal_strlit("####.");
    reveal_strlit("..###");
    reveal_strlit("....#");
    reveal_strlit("...#.");
    reveal_strlit(".#...");
    lemma_ascii_row(".###.");
    lemma_ascii_row("##.##");
    lemma_ascii_row("..##.");
    lemma_ascii_row(".####");
    lemma_ascii_row("...##");
    lemma_ascii_row(".##..");
    lemma_ascii_row("##...");
    lemma_ascii_row("#####");
    lemma_ascii_row("####.");
    lemma_ascii_row("..###");
    lemma_ascii_row("....#");
    lemma_ascii_row("...#.");
    lemma_ascii_row(".#...");
}

/// The characters a group's text may contain, in template order.
pub fn allowed_chars(group: RoiGroup) -> (s: &'static str)
    ensures
        s@ == allowed_seq(group),
{
    match group {
        RoiGroup::Timestamp => {
            let s = "0123456789";
            proof {
                reveal_strlit("0123456789");
            }
            assert(s@ =~= allowed_seq(group));
            s
        },
        RoiGroup::Supply => {
            let s = "0123456789/";
            proof {
                reveal_strlit("0123456789/");
            }
            assert(s@ =~= allowed_seq(group));
            s
        },
    }
}

/// The characters a group has templates for.
pub fn supported_glyphs(group: RoiGroup) -> (chars: Vec<char>)
    ensures
        chars@ == allowed_seq(group),
{
    str_chars(allowed_chars(group))
}

/// The built-in patterns of a group, one per allowed character, in order.
pub fn glyph_patterns(group: RoiGroup) -> (patterns: Vec<(char, Vec<&'static str>)>)
    ensures
        patterns@.len() == allowed_seq(group).len(),
        forall|i: int|
            0 <= i < patterns@.len() ==> {
                &&& (#[trigger] patterns@[i]).0 == allowed_seq(group)[i]
                &&& patterns@[i].1@.map_values(|r: &str| r@) == glyph_pattern(patterns@[i].0)
            },
{
    let chars = supported_glyphs(group);
    let mut patterns: Vec<(char, Vec<&'static str>)> = Vec::new();
    let mut i: usize = 0;
    while i < chars.len()
        invariant
            chars@ == allowed_seq(group),
            i <= chars@.len(),
            patterns@.len() == i,
            forall|k: int|
                0 <= k < i ==> {
                    &&& (#[trigger] patterns@[k]).0 == allowed_seq(group)[k]
                    &&& patterns@[k].1@.map_values(|r: &str| r@) == glyph_pattern(
                        patterns@[k].0,
                    )
                },
        decreases chars@.len() - i,
    {
        let ch = chars[i];
        let rows = glyph_rows(ch);
        patterns.push((ch, rows));
        i = i + 1;
    }
    patterns
}

/// The built-in template set of a group: each pattern rendered and
/// normalized.
pub fn built_in_templates(group: RoiGroup) -> (set: Vec<(char, Vec<GrayPixels>)>)
    ensures
        set.deep_view() == builtin_set_view(group),
        set_ready(set.deep_view(), group),
{
    let patterns = glyph_patterns(group);
    let mut set: Vec<(char, Vec<GrayPixels>)> = Vec::new();
    let mut i: usize = 0;
    while i < patterns.len()
        invariant
            patterns@.len() == allowed_seq(group).len(),
            forall|k: int|
                0 <= k < patterns@.len() ==> {
                    &&& (#[trigger] patterns@[k]).0 == allowed_seq(group)[k]
                    &&& patterns@[k].1@.map_values(|r: &str| r@) == glyph_pattern(
                        patterns@[k].0,
                    )
                },
            i <= patterns@.len(),
            set@.len() == i,
            set.deep_view() == builtin_set_view(group).take(i as int),
            forall|a: int, b: int|
                0 <= a < set@.len() && 0 <= b < set@[a].1@.len() ==> (#[trigger] set@[a].1@[
                    b
                ]).wf(),
        decreases patterns@.len() - i,
    {
        let ch = patterns[i].0;
        let rows = &patterns[i].1;
        proof {
            lemma_glyph_pattern_shape(ch);
            let rb = rows_bytes(rows@);
            assert(rb =~= pattern_bytes(glyph_pattern(ch))) by {
                assert forall|y: int| 0 <= y < rb.len() implies rb[y] == pattern_bytes(
                    glyph_pattern(ch),
                )[y] by {
                    assert(rows@.map_values(|r: &str| r@)[y] == rows@[y]@);
                }
            }
            assert(renderable(rb));
        }
        let template = render_template(rows.as_slice());
        assert(template.deep_view() == builtin_template_view(ch));
        let mut images: Vec<GrayPixels> = Vec::new();
        images.push(template);
        assert(images.deep_view() =~= seq![builtin_template_view(ch)]);
        let ghost before = set.deep_view();
        let entry = (ch, images);
        let ghost entry_g = entry;
        assert(entry_g.deep_view() == (ch, seq![builtin_template_view(ch)]));
        set.push(entry);
        proof {
            assert(set@[i as int] == entry_g);
            assert(set.deep_view()[i as int] == entry_g.deep_view());
            assert(set.deep_view() =~= builtin_set_view(group).take(i + 1));
        }
        i = i + 1;
    }
    assert(builtin_set_view(group).take(patterns@.len() as int) =~= builtin_set_view(group));
    proof {
        let sv = set.deep_view();
        assert forall|a: int, b: int| 0 <= a < sv.len() && 0 <= b < sv[a].1.len() implies {
            &&& raster_wf(#[trigger] sv[a].1[b])
            &&& sv[a].1[b].0 >= GLYPH_WIDTH
            &&& sv[a].1[b].1 >= GLYPH_HEIGHT
        } by {
            assert(sv[a] == set@[a].deep_view());
            assert(sv[a].1[b] == set@[a].1@[b].deep_view());
            assert(set@[a].1@[b].wf());
            assert(sv[a].1[b] == builtin_template_view(allowed_seq(group)[a]));
        }
        assert forall|k: int| 0 <= k < allowed_seq(group).len() implies has_entry(
            sv,
            #[trigger] allowed_seq(group)[k],
        ) by {
            assert(sv[k].0 == allowed_seq(group)[k]);
        }
    }
    set
}

/// The templates of the first entry for `ch` in a template set (none when
/// no entry has `ch`).
pub open spec fn templates_of(set: Seq<(char, Seq<RasterView>)>, ch: char) -> Seq<RasterView> {
    match entry_index(set, ch) {
        Some(i) => set[i].1,
        None => Seq::empty(),
    }
}

/// A template set is ready for a group: every template is a well-formed
/// raster of at least the normalized size, and every character of the group
/// has an entry.
pub open spec fn set_ready(set: Seq<(char, Seq<RasterView>)>, group: RoiGroup) -> bool {
    &&& forall|i: int, j: int|
        0 <= i < set.len() && 0 <= j < set[i].1.len() ==> {
            &&& raster_wf(#[trigger] set[i].1[j])
            &&& set[i].1[j].0 >= GLYPH_WIDTH
            &&& set[i].1[j].1 >= GLYPH_HEIGHT
        }
    &&& forall|k: int|
        0 <= k < allowed_seq(group).len() ==> has_entry(set, #[trigger] allowed_seq(group)[k])
}

/// The template sets of both HUD text kinds.
pub struct GlyphTemplates {
    pub timestamp: Vec<(char, Vec<GrayPixels>)>,
    pub supply: Vec<(char, Vec<GrayPixels>)>,
}

impl GlyphTemplates {
    /// The template set used for a group.
    pub open spec fn set_view(&self, group: RoiGroup) -> Seq<(char, Seq<RasterView>)> {
        match group {
            RoiGroup::Timestamp => self.timestamp.deep_view(),
            RoiGroup::Supply => self.supply.deep_view(),
        }
    }

    /// Both sets are ready for their groups.
    pub open spec fn ready(&self) -> bool {
        &&& set_ready(self.timestamp.deep_view(), RoiGroup::Timestamp)
        &&& set_ready(self.supply.deep_view(), RoiGroup::Supply)
    }

    /// The built-in template sets.
    pub fn built_in() -> (t: GlyphTemplates)
        ensures
            t.timestamp.deep_view() == builtin_set_view(RoiGroup::Timestamp),
            t.supply.deep_view() == builtin_set_view(RoiGroup::Supply),
            t.ready(),
    {
        let timestamp = built_in_templates(RoiGroup::Timestamp);
        let supply = built_in_templates(RoiGroup::Supply);
        GlyphTemplates { timestamp, supply }
    }
}

/// The template set used for a group.
pub fn template_cache(templates: &GlyphTemplates, group: RoiGroup) -> (set: &Vec<(char, Vec<GrayPixels>)>)
    ensures
        set.deep_view() == templates.set_view(group),
{
    match group {
        RoiGroup::Timestamp => &templates.timestamp,
        RoiGroup::Supply => &templates.supply,
    }
}

/// Some entry of the set has `ch`.
pub open spec fn has_entry(set: Seq<(char, Seq<RasterView>)>, ch: char) -> bool {
    exists|i: int| 0 <= i < set.len() && #[trigger] set[i].0 == ch
}

/// The index of the first entry for `ch`, if any.
pub fn find_entry(set: &Vec<(char, Vec<GrayPixels>)>, ch: char) -> (r: Option<usize>)
    ensures
        match r {
            Some(i) => entry_index(set.deep_view(), ch) == Some(i as int),
            None => entry_index(set.deep_view(), ch) is None,
        },
{
    let ghost sv = set.deep_view();
    proof {
        lemma_entry_index(sv, ch);
    }
    let mut i: usize = 0;
    while i < set.len()
        invariant
            sv == set.deep_view(),
            sv.len() == set@.len(),
            i <= set@.len(),
            forall|k: int| 0 <= k < i ==> (#[trigger] sv[k]).0 != ch,
            entry_index(sv, ch) matches Some(e) ==> 0 <= e < sv.len() && sv[e].0 == ch && forall|
                k: int,
            | 0 <= k < e ==> (#[trigger] sv[k]).0 != ch,
            entry_index(sv, ch) is None ==> !has_entry(sv, ch),
        decreases set@.len() - i,
    {
        assert(sv[i as int] == set@[i as int].deep_view());
        if set[i].0 == ch {
            proof {
                if let Some(e) = entry_index(sv, ch) {
                    if e < i {
                        assert(sv[e].0 != ch);
                    }
                    if e > i {
                        assert(sv[i as int].0 != ch);
                    }
                } else {
                    assert(sv[i as int].0 == ch);
                    assert(has_entry(sv, ch));
                }
            }
            return Some(i);
        }
        i = i + 1;
    }
    proof {
        if let Some(e) = entry_index(sv, ch) {
            assert(sv[e].0 != ch);
        }
    }
    None
}

/// The templates of the first entry for `ch`.
pub fn templates_for(set: &Vec<(char, Vec<GrayPixels>)>, ch: char) -> (images: &Vec<GrayPixels>)
    requires
        has_entry(set.deep_view(), ch),
    ensures
        images.deep_view() == templates_of(set.deep_view(), ch),
{
    proof {
        lemma_entry_index(set.deep_view(), ch);
    }
    match find_entry(set, ch) {
        Some(i) => {
            assert(set.deep_view()[i as int] == set@[i as int].deep_view());
            &set[i].1
        },
        None => {
            assert(false);
            &set[0].1
        },
    }
}

/// The first entry index for `ch`, if any.
pub open spec fn entry_index(set: Seq<(char, Seq<RasterView>)>, ch: char) -> Option<int>
    decreases set.len(),
{
    if set.len() == 0 {
        None
    } else if set.last().0 == ch && !has_entry(set.drop_last(), ch) {
        Some(set.len() - 1)
    } else {
        entry_index(set.drop_last(), ch)
    }
}

/// Adds one group of templates to a set: in front of the templates of the
/// first entry for the same character, or as a new last entry.
pub open spec fn merge_one(
    base: Seq<(char, Seq<RasterView>)>,
    extra: (char, Seq<RasterView>),
) -> Seq<(char, Seq<RasterView>)> {
    match entry_index(base, extra.0) {
        Some(i) => base.update(i, (extra.0, extra.1 + base[i].1)),
        None => base.push(extra),
    }
}

/// Adds each group of templates of `extra`, in order.
pub open spec fn merge_all(
    base: Seq<(char, Seq<RasterView>)>,
    extra: Seq<(char, Seq<RasterView>)>,
) -> Seq<(char, Seq<RasterView>)>
    decreases extra.len(),
{
    if extra.len() == 0 {
        base
    } else {
        merge_one(merge_all(base, extra.drop_last()), extra.last())
    }
}

/// `entry_index` finds the first entry for `ch`, and finds none only when no
/// entry has `ch`.
pub proof fn lemma_entry_index(set: Seq<(char, Seq<RasterView>)>, ch: char)
    ensures
        entry_index(set, ch) matches Some(i) ==> 0 <= i < set.len() && set[i].0 == ch && forall|
            k: int,
        | 0 <= k < i ==> (#[trigger] set[k]).0 != ch,
        entry_index(set, ch) is None ==> !has_entry(set, ch),
    decreases set.len(),
{
    if set.len() > 0 {
        lemma_entry_index(set.drop_last(), ch);
        if has_entry(set.drop_last(), ch) {
            let j = choose|j: int| 0 <= j < set.drop_last().len() && #[trigger] set.drop_last()[j].0 == ch;
            assert(set[j].0 == ch);
        }
        if entry_index(set, ch) is None {
            assert forall|k: int| 0 <= k < set.len() implies (#[trigger] set[k]).0 != ch by {
                if k < set.len() - 1 {
                    assert(set[k] == set.drop_last()[k]);
                }
            }
        }
        if let Some(i) = entry_index(set, ch) {
            if i < set.len() - 1 {
                assert forall|k: int| 0 <= k < i implies (#[trigger] set[k]).0 != ch by {
                    assert(set[k] == set.drop_last()[k]);
                }
            } else {
                assert forall|k: int| 0 <= k < i implies (#[trigger] set[k]).0 != ch by {
                    assert(set[k] == set.drop_last()[k]);
                }
            }
        }
    }
}

/// Adds real templates to a base set: for each group of `extra`, in order,
/// its templates go in front of those of the base entry for the same
/// character, or become a new entry.
pub fn merge_templates(base: &mut Vec<(char, Vec<GrayPixels>)>, extra: Vec<(char, Vec<GrayPixels>)>)
    ensures
        final(base).deep_view() == merge_all(old(base).deep_view(), extra.deep_view()),
{
    let ghost ev = extra.deep_view();
    let ghost start = base.deep_view();
    let mut extra = extra;
    let n = extra.len();
    let mut k: usize = 0;
    while k < n
        invariant
            n == ev.len(),
            k <= n,
            extra.deep_view() == ev.skip(k as int),
            base.deep_view() == merge_all(start, ev.take(k as int)),
        decreases n - k,
    {
        assert(extra.deep_view().len() == extra@.len());
        let ghost before = extra@;
        let (glyph, mut images) = extra.remove(0);
        let ghost entry = (glyph, images.deep_view());
        proof {
            assert(ev.skip(k as int)[0] == before[0].deep_view());
            assert(ev[k as int] == entry);
            assert forall|j: int| 0 <= j < extra@.len() implies extra.deep_view()[j]
                == ev.skip(k + 1)[j] by {
                assert(extra@[j] == before[j + 1]);
                assert(ev.skip(k as int)[j + 1] == before[j + 1].deep_view());
            }
            assert(extra.deep_view() =~= ev.skip(k + 1));
            assert(ev.take(k + 1).drop_last() =~= ev.take(k as int));
            assert(ev.take(k + 1).last() == entry);
            lemma_entry_index(base.deep_view(), glyph);
        }
        let ghost bv = base.deep_view();
        let found = find_entry(&base, glyph);
        let ghost imgs = images.deep_view();
        match found {
            Some(idx) => {
                let (g, mut existing) = base.remove(idx);
                let ghost ex = existing.deep_view();
                assert(ex == bv[idx as int].1);
                images.append(&mut existing);
                assert(images.deep_view() =~= imgs + ex);
                let entry = (g, images);
                let ghost entry_g = entry;
                let ghost removed = base@;
                base.insert(idx, entry);
                proof {
                    assert(base.deep_view() =~= bv.update(idx as int, (glyph, imgs + ex))) by {
                        assert forall|j: int| 0 <= j < base@.len() implies base.deep_view()[j]
                            == bv.update(idx as int, (glyph, imgs + ex))[j] by {
                            if j < idx {
                                assert(base@[j] == removed[j]);
                            } else if j > idx {
                                assert(base@[j] == removed[j - 1]);
                            } else {
                                assert(base@[j] == entry_g);
                            }
                        }
                    }
                }
            },
            None => {
                let entry = (glyph, images);
                let ghost entry_g = entry;
                base.push(entry);
                assert(base@.last() == entry_g);
                assert(base.deep_view() =~= bv.push((glyph, imgs)));
            },
        }
        k = k + 1;
    }
    assert(ev.take(n as int) =~= ev);
}

/// The directory holding a group's real glyph templates.
pub fn roi_group_dir_name(group: RoiGroup) -> (name: &'static str)
    ensures
        name@ == (match group {
            RoiGroup::Timestamp => "timestamp"@,
            RoiGroup::Supply => "supply"@,
        }),
{
    match group {
        RoiGroup::Timestamp => "timestamp",
        RoiGroup::Supply => "supply",
    }
}

/// A character that has a template directory: a digit, `/` or `:`.
pub open spec fn has_glyph_dir(ch: char) -> bool {
    ('0' <= ch && ch <= '9') || ch == '/' || ch == ':'
}

/// The directory holding the real templates of `ch`: the digit itself,
/// `slash` or `colon`.
pub fn glyph_dir_name(ch: char) -> (name: &'static str)
    requires
        has_glyph_dir(ch),
    ensures
        ('0' <= ch && ch <= '9') ==> name@ == seq![ch],
        ch == '/' ==> name@ == "slash"@,
        ch == ':' ==> name@ == "colon"@,
{
    proof {
        reveal_strlit("0");
        reveal_strlit("1");
        reveal_strlit("2");
        reveal_strlit("3");
        reveal_strlit("4");
        reveal_strlit("5");
        reveal_strlit("6");
        reveal_strlit("7");
        reveal_strlit("8");
        reveal_strlit("9");
    }
    if ch == '0' {
        "0"
    } else if ch == '1' {
        "1"
    } else if ch == '2' {
        "2"
    } else if ch == '3' {
        "3"
    } else if ch == '4' {
        "4"
    } else if ch == '5' {
        "5"
    } else if ch == '6' {
        "6"
    } else if ch == '7' {
        "7"
    } else if ch == '8' {
        "8"
    } else if ch == '9' {
        "9"
    } else if ch == '/' {
        "slash"
    } else {
        "colon"
    }
}

/// `c` with ASCII upper case letters made lower case.
pub open spec fn ascii_lower(c: char) -> char {
    if 'A' <= c && c <= 'Z' {
        ((c as u32) + 32) as char
    } else {
        c
    }
}

/// A file extension names a PNG image: it is `png` in any ASCII case.
pub open spec fn is_png_ext(ext: Option<Seq<char>>) -> bool {
    ext matches Some(e) && e.len() == 3 && ascii_lower(e[0]) == 'p' && ascii_lower(e[1]) == 'n'
        && ascii_lower(e[2]) == 'g'
}

fn lower_ascii(c: char) -> (r: char)
    ensures
        r == ascii_lower(c),
{
    if 'A' <= c && c <= 'Z' {
        let u = c as u32 + 32;
        assert(u < 0xD800);
        char_from_ascii(u)
    } else {
        c
    }
}

/// The character of an ASCII code.
fn char_from_ascii(u: u32) -> (c: char)
    requires
        u < 128,
    ensures
        c == u as char,
{
    (u as u8) as char
}

/// Whether a file's extension (if it has a UTF-8 one) is `png` in any ASCII
/// case.
pub fn is_png_extension(ext: Option<&str>) -> (r: bool)
    ensures
        r == is_png_ext(match ext {
            Some(e) => Some(e@),
            None => None,
        }),
{
    match ext {
        Some(e) => {
            let cs = str_chars(e);
            cs.len() == 3 && lower_ascii(cs[0]) == 'p' && lower_ascii(cs[1]) == 'n' && lower_ascii(
                cs[2],
            ) == 'g'
        },
        None => false,
    }
}

/// The templates that merging `extra` adds for `ch`: those of every group for
/// `ch`, the later groups in front.
pub open spec fn added_templates(extra: Seq<(char, Seq<RasterView>)>, ch: char) -> Seq<RasterView>
    decreases extra.len(),
{
    if extra.len() == 0 {
        Seq::empty()
    } else {
        let rest = added_templates(extra.drop_last(), ch);
        if extra.last().0 == ch {
            extra.last().1 + rest
        } else {
            rest
        }
    }
}

/// Two sets whose entries have the same characters find the same first entry
/// for every character.
proof fn lemma_entry_index_same_chars(
    a: Seq<(char, Seq<RasterView>)>,
    b: Seq<(char, Seq<RasterView>)>,
    ch: char,
)
    requires
        a.len() == b.len(),
        forall|k: int| 0 <= k < a.len() ==> (#[trigger] a[k]).0 == b[k].0,
    ensures
        entry_index(a, ch) == entry_index(b, ch),
    decreases a.len(),
{
    if a.len() > 0 {
        let pa = a.drop_last();
        let pb = b.drop_last();
        assert forall|k: int| 0 <= k < pa.len() implies (#[trigger] pa[k]).0 == pb[k].0 by {
            assert(pa[k] == a[k] && pb[k] == b[k]);
        }
        lemma_entry_index_same_chars(pa, pb, ch);
        if has_entry(pa, ch) {
            let w = choose|w: int| 0 <= w < pa.len() && #[trigger] pa[w].0 == ch;
            assert(pb[w].0 == ch);
        }
        if has_entry(pb, ch) {
            let w = choose|w: int| 0 <= w < pb.len() && #[trigger] pb[w].0 == ch;
            assert(pa[w].0 == ch);
        }
        assert(a.last().0 == b.last().0);
    }
}

/// Merging one group puts its templates in front of those the set had for
/// its character, and changes the templates of no other character.
proof fn lemma_merge_one_templates(base: Seq<(char, Seq<RasterView>)>, e: (char, Seq<RasterView>), ch: char)
    ensures
        templates_of(merge_one(base, e), ch) == if e.0 == ch {
            e.1 + templates_of(base, ch)
        } else {
            templates_of(base, ch)
        },
{
    let m = merge_one(base, e);
    lemma_entry_index(base, e.0);
    lemma_entry_index(base, ch);
    match entry_index(base, e.0) {
        Some(i) => {
            assert forall|k: int| 0 <= k < m.len() implies (#[trigger] m[k]).0 == base[k].0 by {}
            lemma_entry_index_same_chars(m, base, ch);
            if e.0 == ch {
                assert(entry_index(base, ch) == Some(i));
            } else {
                if let Some(j) = entry_index(base, ch) {
                    assert(j != i);
                    assert(m[j] == base[j]);
                }
            }
        },
        None => {
            assert(m.drop_last() =~= base);
            assert(m.last() == e);
            if e.0 == ch {
                assert(entry_index(m, ch) == Some(base.len() as int));
                assert(templates_of(base, ch) =~= Seq::<RasterView>::empty());
                assert(e.1 + templates_of(base, ch) =~= e.1);
            } else {
                assert(entry_index(m, ch) == entry_index(base, ch));
                if let Some(j) = entry_index(base, ch) {
                    assert(m[j] == base[j]);
                }
            }
        },
    }
}

/// Merging real templates into a set keeps every template it had: for each
/// character, the merged templates are the added ones followed by the
/// base's own, in their order.
pub proof fn lemma_merge_keeps_base_templates(
    base: Seq<(char, Seq<RasterView>)>,
    extra: Seq<(char, Seq<RasterView>)>,
    ch: char,
)
    ensures
        templates_of(merge_all(base, extra), ch) == added_templates(extra, ch) + templates_of(base, ch),
    decreases extra.len(),
{
    if extra.len() == 0 {
        assert(Seq::<RasterView>::empty() + templates_of(base, ch) =~= templates_of(base, ch));
    } else {
        let pre = extra.drop_last();
        let e = extra.last();
        lemma_merge_keeps_base_templates(base, pre, ch);
        lemma_merge_one_templates(merge_all(base, pre), e, ch);
        if e.0 == ch {
            assert(e.1 + (added_templates(pre, ch) + templates_of(base, ch)) =~= (e.1
                + added_templates(pre, ch)) + templates_of(base, ch));
        }
    }
}

/// Every template of the set is a well-formed raster of at least the
/// normalized size.
pub open spec fn templates_fit(set: Seq<(char, Seq<RasterView>)>) -> bool {
    forall|i: int, j: int|
        0 <= i < set.len() && 0 <= j < set[i].1.len() ==> {
            &&& raster_wf(#[trigger] set[i].1[j])
            &&& set[i].1[j].0 >= GLYPH_WIDTH
            &&& set[i].1[j].1 >= GLYPH_HEIGHT
        }
}

/// Merging loaded templates into a ready set leaves it ready, as long as the
/// loaded templates fit; with nothing loaded, the set stays as it was.
pub proof fn lemma_merge_keeps_ready(
    base: Seq<(char, Seq<RasterView>)>,
    extra: Seq<(char, Seq<RasterView>)>,
    group: RoiGroup,
)
    requires
        set_ready(base, group),
        templates_fit(extra),
    ensures
        set_ready(merge_all(base, extra), group),
        extra.len() == 0 ==> merge_all(base, extra) == base,
    decreases extra.len(),
{
    if extra.len() > 0 {
        let pre = extra.drop_last();
        assert forall|i: int, j: int| 0 <= i < pre.len() && 0 <= j < pre[i].1.len() implies {
            &&& raster_wf(#[trigger] pre[i].1[j])
            &&& pre[i].1[j].0 >= GLYPH_WIDTH
            &&& pre[i].1[j].1 >= GLYPH_HEIGHT
        } by {
            assert(pre[i] == extra[i]);
        }
        lemma_merge_keeps_ready(base, pre, group);
        let m = merge_all(base, pre);
        let e = extra.last();
        let r = merge_one(m, e);
        lemma_entry_index(m, e.0);
        assert forall|i: int, j: int| 0 <= i < r.len() && 0 <= j < r[i].1.len() implies {
            &&& raster_wf(#[trigger] r[i].1[j])
            &&& r[i].1[j].0 >= GLYPH_WIDTH
            &&& r[i].1[j].1 >= GLYPH_HEIGHT
        } by {
            assert(extra[extra.len() - 1] == e);
            match entry_index(m, e.0) {
                Some(x) => {
                    if i == x {
                        if j < e.1.len() {
                            assert(r[i].1[j] == e.1[j]);
                        } else {
                            assert(r[i].1[j] == m[x].1[j - e.1.len()]);
                        }
                    } else {
                        assert(r[i] == m[i]);
                    }
                },
                None => {
                    if i < m.len() {
                        assert(r[i] == m[i]);
                    } else {
                        assert(r[i] == e);
                    }
                },
            }
        }
        assert forall|k: int| 0 <= k < allowed_seq(group).len() implies has_entry(
            r,
            #[trigger] allowed_seq(group)[k],
        ) by {
            let c = allowed_seq(group)[k];
            assert(has_entry(m, c));
            let w = choose|w: int| 0 <= w < m.len() && #[trigger] m[w].0 == c;
            match entry_index(m, e.0) {
                Some(x) => {
                    assert(r[w].0 == c);
                },
                None => {
                    assert(r[w] == m[w]);
                },
            }
        }
    }
}

/// Whether a template set is ready for a group.
pub fn set_ready_exec(set: &Vec<(char, Vec<GrayPixels>)>, group: RoiGroup) -> (ok: bool)
    ensures
        ok == set_ready(set.deep_view(), group),
{
    let ghost sv = set.deep_view();
    let mut i: usize = 0;
    while i < set.len()
        invariant
            sv == set.deep_view(),
            sv.len() == set@.len(),
            i <= set@.len(),
            forall|a: int, b: int|
                0 <= a < i && 0 <= b < sv[a].1.len() ==> {
                    &&& raster_wf(#[trigger] sv[a].1[b])
                    &&& sv[a].1[b].0 >= GLYPH_WIDTH
                    &&& sv[a].1[b].1 >= GLYPH_HEIGHT
                },
        decreases set@.len() - i,
    {
        let images = &set[i].1;
        assert(sv[i as int] == set@[i as int].deep_view());
        let mut j: usize = 0;
        while j < images.len()
            invariant
                sv == set.deep_view(),
                sv.len() == set@.len(),
                i < set@.len(),
                images == set@[i as int].1,
                sv[i as int].1 == images.deep_view(),
                sv[i as int].1.len() == images@.len(),
                j <= images@.len(),
                forall|a: int, b: int|
                    0 <= a < i && 0 <= b < sv[a].1.len() ==> {
                        &&& raster_wf(#[trigger] sv[a].1[b])
                        &&& sv[a].1[b].0 >= GLYPH_WIDTH
                        &&& sv[a].1[b].1 >= GLYPH_HEIGHT
                    },
                forall|b: int|
                    0 <= b < j ==> {
                        &&& raster_wf(#[trigger] sv[i as int].1[b])
                        &&& sv[i as int].1[b].0 >= GLYPH_WIDTH
                        &&& sv[i as int].1[b].1 >= GLYPH_HEIGHT
                    },
            decreases images@.len() - j,
        {
            let img = &images[j];
            assert(sv[i as int].1[j as int] == img@);
            proof {
                let w = img.width as int;
                let h = img.height as int;
                assert(w * h <= 0xffff_ffff * 0xffff_ffff) by (nonlinear_arith)
                    requires
                        0 <= w <= 0xffff_ffff,
                        0 <= h <= 0xffff_ffff,
                ;
            }
            let fits = img.width >= GLYPH_WIDTH && img.height >= GLYPH_HEIGHT && (img.width as u64)
                * (img.height as u64) == img.data.len() as u64;
            if !fits {
                return false;
            }
            j = j + 1;
        }
        i = i + 1;
    }
    let chars = supported_glyphs(group);
    let mut k: usize = 0;
    while k < chars.len()
        invariant
            sv == set.deep_view(),
            chars@ == allowed_seq(group),
            k <= chars@.len(),
            forall|a: int, b: int|
                0 <= a < sv.len() && 0 <= b < sv[a].1.len() ==> {
                    &&& raster_wf(#[trigger] sv[a].1[b])
                    &&& sv[a].1[b].0 >= GLYPH_WIDTH
                    &&& sv[a].1[b].1 >= GLYPH_HEIGHT
                },
            forall|q: int| 0 <= q < k ==> has_entry(sv, #[trigger] allowed_seq(group)[q]),
        decreases chars@.len() - k,
    {
        proof {
            lemma_entry_index(sv, chars@[k as int]);
        }
        if find_entry(set, chars[k]).is_none() {
            return false;
        }
        k = k + 1;
    }
    true
}

impl GlyphTemplates {
    /// Whether both sets are ready for their groups.
    pub fn is_ready(&self) -> (ok: bool)
        ensures
            ok == self.ready(),
    {
        set_ready_exec(&self.timestamp, RoiGroup::Timestamp) && set_ready_exec(
            &self.supply,
            RoiGroup::Supply,
        )
    }
}

} // verus!
