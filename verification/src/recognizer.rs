//! Recognition of BW HUD text (timestamps and supply counts) from thresholded
//! HUD crops: glyph scoring against templates and pattern-constrained
//! decoding.
//!
//! A glyph score counts the pixels of the normalized `GLYPH_WIDTH` x
//! `GLYPH_HEIGHT` raster whose ink agrees with a template, so it ranges over
//! `0..=240`; a glyph is accepted when its score reaches the group's minimum.
use vstd::prelude::*;
use crate::pixels::{at_v, raster_wf, GrayPixels, RasterView};
use crate::segment::{lemma_glyphs_within_width, segment_glyphs, segment_view};
use crate::templates::{
    allowed_chars,
    normalize,
    normalize_view,
    normalizable_width,
    set_ready,
    template_cache,
    templates_for,
    templates_of,
    has_entry,
    entry_index,
    lemma_entry_index,
    added_templates,
    lemma_merge_keeps_base_templates,
    merge_all,
    GlyphTemplates,
    GLYPH_HEIGHT,
    GLYPH_WIDTH,
};
use crate::text::{
    opt_view,
    parse_u16,
    parse_unsigned,
    split_on,
    split_str,
    str_chars,
    str_eq,
};

verus! {

broadcast use vstd::string::group_string_axioms;

/// The two HUD text kinds, which use different glyph sets and thresholds.
#[derive(Clone, Copy, Debug, PartialEq, Eq, Structural)]
pub enum RoiGroup {
    Timestamp,
    Supply,
}

/// The characters a group's text may contain, in template order.
pub open spec fn allowed_seq(group: RoiGroup) -> Seq<char> {
    match group {
        RoiGroup::Timestamp => seq!['0', '1', '2', '3', '4', '5', '6', '7', '8', '9'],
        RoiGroup::Supply => seq!['0', '1', '2', '3', '4', '5', '6', '7', '8', '9', '/'],
    }
}

/// The group of a HUD region: `timestamp` reads a timestamp, every other
/// region a supply count.
pub open spec fn roi_group_of(name: Seq<char>) -> RoiGroup {
    if name == "timestamp"@ {
        RoiGroup::Timestamp
    } else {
        RoiGroup::Supply
    }
}

/// The group of a HUD region by name.
pub fn roi_group(roi_name: &str) -> (g: RoiGroup)
    ensures
        g == roi_group_of(roi_name@),
{
    if str_eq(roi_name, "timestamp") {
        RoiGroup::Timestamp
    } else {
        RoiGroup::Supply
    }
}

/// The least score (agreeing pixels out of 240) a glyph needs to be accepted:
/// 60% for timestamps, 64% for supply counts.
pub open spec fn min_score_of(group: RoiGroup) -> u32 {
    match group {
        RoiGroup::Timestamp => 144,
        RoiGroup::Supply => 154,
    }
}

/// The least score a glyph of the group needs to be accepted.
pub fn min_glyph_score(group: RoiGroup) -> (s: u32)
    ensures
        s == min_score_of(group),
{
    match group {
        RoiGroup::Timestamp => 144,
        RoiGroup::Supply => 154,
    }
}

/// The score of one character for a glyph.
#[derive(Clone, Copy, Debug, PartialEq, Eq, Structural)]
pub struct GlyphScore {
    pub ch: char,
    pub score: u32,
}

/// The ranking of one glyph: the best character, whether its score is high
/// enough, and the best-scored characters, best first.
#[derive(Clone, Debug)]
pub struct DebugGlyphScores {
    pub best: Option<char>,
    pub accepted: bool,
    pub scores: Vec<GlyphScore>,
}

/// The content of a glyph ranking.
pub type ScoresView = (Option<char>, bool, Seq<GlyphScore>);

impl View for DebugGlyphScores {
    type V = ScoresView;

    open spec fn view(&self) -> ScoresView {
        (self.best, self.accepted, self.scores@)
    }
}

/// The contents of a sequence of glyph rankings.
pub open spec fn scores_views(s: Seq<DebugGlyphScores>) -> Seq<ScoresView> {
    s.map_values(|g: DebugGlyphScores| g@)
}

/// Whether the pixel (x, y) of candidate and template agree on ink.
pub open spec fn pixel_agrees(c: RasterView, t: RasterView, x: int, y: int) -> bool {
    (at_v(c, x, y) > 0) == (at_v(t, x, y) > 0)
}

/// Agreeing pixels among the first `n` columns of row `y`.
pub open spec fn row_matches(c: RasterView, t: RasterView, y: int, n: int) -> nat
    decreases n,
{
    if n <= 0 {
        0
    } else {
        row_matches(c, t, y, n - 1) + if pixel_agrees(c, t, n - 1, y) {
            1nat
        } else {
            0nat
        }
    }
}

/// Agreeing pixels among the first `m` rows of the normalized raster.
pub open spec fn grid_matches(c: RasterView, t: RasterView, m: int) -> nat
    decreases m,
{
    if m <= 0 {
        0
    } else {
        grid_matches(c, t, m - 1) + row_matches(c, t, m - 1, GLYPH_WIDTH as int)
    }
}

/// The score of a candidate against one template: the pixels of the
/// `GLYPH_WIDTH` x `GLYPH_HEIGHT` area on which both agree about ink.
pub open spec fn glyph_score_view(c: RasterView, t: RasterView) -> nat {
    grid_matches(c, t, GLYPH_HEIGHT as int)
}

/// A raster that covers the normalized glyph area.
pub open spec fn covers_glyph(v: RasterView) -> bool {
    raster_wf(v) && v.0 >= GLYPH_WIDTH && v.1 >= GLYPH_HEIGHT
}

/// The score of a candidate against one template.
pub fn glyph_score(candidate: &GrayPixels, template: &GrayPixels) -> (s: u32)
    requires
        covers_glyph(candidate@),
        covers_glyph(template@),
    ensures
        s == glyph_score_view(candidate@, template@),
        s <= GLYPH_WIDTH * GLYPH_HEIGHT,
{
    let ghost c = candidate@;
    let ghost t = template@;
    let mut matches: u32 = 0;
    let mut y: u32 = 0;
    while y < GLYPH_HEIGHT
        invariant
            c == candidate@,
            t == template@,
            covers_glyph(c),
            covers_glyph(t),
            y <= GLYPH_HEIGHT,
            matches == grid_matches(c, t, y as int),
            matches <= y * GLYPH_WIDTH,
        decreases GLYPH_HEIGHT - y,
    {
        let ghost row_start = matches;
        let mut x: u32 = 0;
        while x < GLYPH_WIDTH
            invariant
                c == candidate@,
                t == template@,
                covers_glyph(c),
                covers_glyph(t),
                y < GLYPH_HEIGHT,
                x <= GLYPH_WIDTH,
                matches == row_start + row_matches(c, t, y as int, x as int),
                row_start <= y * GLYPH_WIDTH,
                row_matches(c, t, y as int, x as int) <= x,
            decreases GLYPH_WIDTH - x,
        {
            let a = candidate.get_pixel(x, y) > 0;
            let b = template.get_pixel(x, y) > 0;
            if a == b {
                matches = matches + 1;
            }
            x = x + 1;
        }
        y = y + 1;
    }
    matches
}

/// The best score of a candidate over a list of templates (0 for none).
pub open spec fn best_template_score(c: RasterView, ts: Seq<RasterView>) -> nat
    decreases ts.len(),
{
    if ts.len() == 0 {
        0
    } else {
        let rest = best_template_score(c, ts.drop_last());
        let s = glyph_score_view(c, ts.last());
        if s > rest {
            s
        } else {
            rest
        }
    }
}

/// The score of character `ch` for a normalized candidate: its best score
/// over the templates of `ch`.
pub fn glyph_score_for_char(candidate: &GrayPixels, ch: char, set: &Vec<(char, Vec<GrayPixels>)>) -> (s: u32)
    requires
        covers_glyph(candidate@),
        has_entry(set.deep_view(), ch),
        forall|i: int, j: int|
            0 <= i < set.deep_view().len() && 0 <= j < set.deep_view()[i].1.len() ==> covers_glyph(
                #[trigger] set.deep_view()[i].1[j],
            ),
    ensures
        s == best_template_score(candidate@, templates_of(set.deep_view(), ch)),
        s <= GLYPH_WIDTH * GLYPH_HEIGHT,
{
    let templates = templates_for(set, ch);
    let ghost ts = templates.deep_view();
    proof {
        lemma_entry_index(set.deep_view(), ch);
        let e = entry_index(set.deep_view(), ch)->0;
        assert forall|j: int| 0 <= j < ts.len() implies covers_glyph(#[trigger] ts[j]) by {
            assert(ts[j] == set.deep_view()[e].1[j]);
        }
    }
    let mut best: u32 = 0;
    let mut i: usize = 0;
    while i < templates.len()
        invariant
            ts == templates.deep_view(),
            ts.len() == templates@.len(),
            forall|j: int| 0 <= j < ts.len() ==> covers_glyph(#[trigger] ts[j]),
            covers_glyph(candidate@),
            i <= ts.len(),
            best == best_template_score(candidate@, ts.take(i as int)),
            best <= GLYPH_WIDTH * GLYPH_HEIGHT,
        decreases ts.len() - i,
    {
        assert(ts[i as int] == templates@[i as int]@);
        let s = glyph_score(candidate, &templates[i]);
        assert(ts.take(i + 1).drop_last() =~= ts.take(i as int));
        if s > best {
            best = s;
        }
        i = i + 1;
    }
    assert(ts.take(ts.len() as int) =~= ts);
    best
}

/// The best score over two template lists is the better of their best
/// scores.
pub proof fn lemma_best_score_concat(c: RasterView, a: Seq<RasterView>, b: Seq<RasterView>)
    ensures
        best_template_score(c, a + b) == if best_template_score(c, a) >= best_template_score(c, b) {
            best_template_score(c, a)
        } else {
            best_template_score(c, b)
        },
    decreases b.len(),
{
    if b.len() == 0 {
        assert(a + b =~= a);
    } else {
        assert((a + b).drop_last() =~= a + b.drop_last());
        assert((a + b).last() == b.last());
        lemma_best_score_concat(c, a, b.drop_last());
    }
}

/// Real templates only add matches: after merging, a character's score for
/// any candidate is the better of its best score over the added templates
/// and its score in the base set, so merging never lowers it.
pub proof fn lemma_merged_score(
    c: RasterView,
    base: Seq<(char, Seq<RasterView>)>,
    extra: Seq<(char, Seq<RasterView>)>,
    ch: char,
)
    ensures
        best_template_score(c, templates_of(merge_all(base, extra), ch)) == if best_template_score(
            c,
            added_templates(extra, ch),
        ) >= best_template_score(c, templates_of(base, ch)) {
            best_template_score(c, added_templates(extra, ch))
        } else {
            best_template_score(c, templates_of(base, ch))
        },
        best_template_score(c, templates_of(merge_all(base, extra), ch)) >= best_template_score(
            c,
            templates_of(base, ch),
        ),
{
    lemma_merge_keeps_base_templates(base, extra, ch);
    lemma_best_score_concat(c, added_templates(extra, ch), templates_of(base, ch));
}

/// The index of the first best-scored entry.
pub open spec fn best_index(s: Seq<GlyphScore>) -> int
    decreases s.len(),
{
    if s.len() <= 1 {
        0
    } else {
        let b = best_index(s.drop_last());
        if s.last().score > s[b].score {
            s.len() - 1
        } else {
            b
        }
    }
}

/// `best_index` points into a nonempty sequence.
pub proof fn lemma_best_index(s: Seq<GlyphScore>)
    requires
        s.len() > 0,
    ensures
        0 <= best_index(s) < s.len(),
        forall|k: int| 0 <= k < s.len() ==> (#[trigger] s[k]).score <= s[best_index(s)].score,
        forall|k: int| 0 <= k < best_index(s) ==> (#[trigger] s[k]).score < s[best_index(s)].score,
    decreases s.len(),
{
    if s.len() > 1 {
        let p = s.drop_last();
        lemma_best_index(p);
        assert forall|k: int| 0 <= k < s.len() - 1 implies (#[trigger] s[k]) == p[k] by {}
    }
}

/// The scores ordered best first, equal scores keeping their order: the
/// first best entry, then the same ordering of the others.
pub open spec fn sort_by_score(s: Seq<GlyphScore>) -> Seq<GlyphScore>
    decreases s.len(),
{
    if s.len() == 0 {
        Seq::empty()
    } else {
        let b = best_index(s);
        proof {
            lemma_best_index(s);
        }
        seq![s[b]] + sort_by_score(s.remove(b))
    }
}

fn best_index_exec(s: &Vec<GlyphScore>) -> (b: usize)
    requires
        s@.len() > 0,
    ensures
        b == best_index(s@),
{
    let mut b: usize = 0;
    let mut i: usize = 1;
    while i < s.len()
        invariant
            1 <= i <= s@.len(),
            b == best_index(s@.take(i as int)),
            b < i,
        decreases s@.len() - i,
    {
        proof {
            let t = s@.take(i + 1);
            assert(t.drop_last() =~= s@.take(i as int));
            assert(t[b as int] == s@[b as int]);
        }
        if s[i].score > s[b].score {
            b = i;
        }
        i = i + 1;
    }
    assert(s@.take(s@.len() as int) =~= s@);
    b
}

/// Orders scores best first; equal scores keep their order.
pub fn sort_scores(scores: Vec<GlyphScore>) -> (sorted: Vec<GlyphScore>)
    ensures
        sorted@ == sort_by_score(scores@),
{
    let ghost all = scores@;
    let mut rest = scores;
    let mut sorted: Vec<GlyphScore> = Vec::new();
    while rest.len() > 0
        invariant
            sorted@ + sort_by_score(rest@) == sort_by_score(all),
        decreases rest@.len(),
    {
        let b = best_index_exec(&rest);
        proof {
            lemma_best_index(rest@);
        }
        let ghost before = rest@;
        let e = rest.remove(b);
        sorted.push(e);
        assert(sort_by_score(before) == seq![e] + sort_by_score(rest@));
        assert(sorted@ + sort_by_score(rest@) =~= sorted@.drop_last() + sort_by_score(before));
    }
    assert(sort_by_score(rest@) =~= Seq::<GlyphScore>::empty());
    assert(sorted@ =~= sorted@ + sort_by_score(rest@));
    sorted
}

/// The score of every allowed character for a normalized candidate, in the
/// allowed order.
pub open spec fn raw_scores(
    c: RasterView,
    set: Seq<(char, Seq<RasterView>)>,
    allowed: Seq<char>,
) -> Seq<GlyphScore> {
    allowed.map_values(|ch: char| scored(ch, best_template_score(c, templates_of(set, ch)) as u32))
}

/// The score entry of `ch`.
pub open spec fn scored(ch: char, score: u32) -> GlyphScore {
    GlyphScore { ch, score }
}

/// How many scores a ranking keeps: `top_n`, at least one, at most all.
pub open spec fn kept_count(top_n: usize, len: nat) -> int {
    let want = if top_n < 1 {
        1
    } else {
        top_n as int
    };
    if want < len {
        want
    } else {
        len as int
    }
}

/// The ranking of a glyph raster in a group with a template set.
pub open spec fn score_glyph_view(
    img: RasterView,
    group: RoiGroup,
    top_n: usize,
    set: Seq<(char, Seq<RasterView>)>,
) -> ScoresView {
    let sorted = sort_by_score(raw_scores(normalize_view(img), set, allowed_seq(group)));
    (
        if sorted.len() > 0 {
            Some(sorted[0].ch)
        } else {
            None
        },
        sorted.len() > 0 && sorted[0].score >= min_score_of(group),
        sorted.take(kept_count(top_n, sorted.len())),
    )
}

/// Ranks a glyph raster: every allowed character scored against its
/// templates, best first, keeping the `top_n` best (at least one).
pub fn score_glyph_for_roi(
    image: &GrayPixels,
    roi_group: RoiGroup,
    top_n: usize,
    templates: &GlyphTemplates,
) -> (r: DebugGlyphScores)
    requires
        image.wf(),
        normalizable_width(image.width as int),
        templates.ready(),
    ensures
        r@ == score_glyph_view(image@, roi_group, top_n, templates.set_view(roi_group)),
{
    let allowed = str_chars(allowed_chars(roi_group));
    let normalized = normalize(image);
    let set = template_cache(templates, roi_group);
    let ghost sv = set.deep_view();
    let ghost raw = raw_scores(normalized@, sv, allowed_seq(roi_group));
    assert(set_ready(sv, roi_group));
    let mut scores: Vec<GlyphScore> = Vec::new();
    let mut i: usize = 0;
    while i < allowed.len()
        invariant
            allowed@ == allowed_seq(roi_group),
            sv == set.deep_view(),
            set_ready(sv, roi_group),
            normalized@ == normalize_view(image@),
            normalized.wf(),
            raw == raw_scores(normalized@, sv, allowed_seq(roi_group)),
            i <= allowed@.len(),
            scores@ == raw.take(i as int),
        decreases allowed@.len() - i,
    {
        let ch = allowed[i];
        assert(has_entry(sv, allowed_seq(roi_group)[i as int]));
        let score = glyph_score_for_char(&normalized, ch, set);
        assert(raw[i as int] == GlyphScore { ch, score });
        scores.push(GlyphScore { ch, score });
        i = i + 1;
        assert(scores@ =~= raw.take(i as int));
    }
    assert(raw.take(allowed@.len() as int) =~= raw);
    let mut sorted = sort_scores(scores);
    let ghost full = sorted@;
    proof {
        lemma_sort_len(raw);
    }
    let best = if sorted.len() > 0 {
        Some(sorted[0].ch)
    } else {
        None
    };
    let accepted = sorted.len() > 0 && sorted[0].score >= min_glyph_score(roi_group);
    let want = if top_n < 1 {
        1
    } else {
        top_n
    };
    let keep = if want < sorted.len() {
        want
    } else {
        sorted.len()
    };
    sorted.truncate(keep);
    assert(sorted@ =~= full.take(keep as int));
    DebugGlyphScores { best, accepted, scores: sorted }
}

/// Sorting keeps the number of scores.
pub proof fn lemma_sort_len(s: Seq<GlyphScore>)
    ensures
        sort_by_score(s).len() == s.len(),
    decreases s.len(),
{
    if s.len() > 0 {
        lemma_best_index(s);
        lemma_sort_len(s.remove(best_index(s)));
    }
}

/// The last entry of maximal score among those whose character is allowed
/// (`Iterator::max_by` keeps the last of equally maximal elements).
pub open spec fn max_allowed(s: Seq<GlyphScore>, allowed: Seq<char>) -> Option<GlyphScore>
    decreases s.len(),
{
    if s.len() == 0 {
        None
    } else {
        let rest = max_allowed(s.drop_last(), allowed);
        let e = s.last();
        if allowed.contains(e.ch) {
            match rest {
                None => Some(e),
                Some(a) => if e.score >= a.score {
                    Some(e)
                } else {
                    Some(a)
                },
            }
        } else {
            rest
        }
    }
}

/// The best allowed character of a glyph ranking.
pub open spec fn best_digit(g: ScoresView, allowed: Seq<char>) -> Option<char> {
    match max_allowed(g.2, allowed) {
        Some(e) => Some(e.ch),
        None => None,
    }
}

/// The entry `max_allowed` picks has an allowed character.
pub proof fn lemma_max_allowed_allowed(s: Seq<GlyphScore>, allowed: Seq<char>)
    ensures
        max_allowed(s, allowed) matches Some(e) ==> allowed.contains(e.ch),
    decreases s.len(),
{
    if s.len() > 0 {
        lemma_max_allowed_allowed(s.drop_last(), allowed);
    }
}

/// The entry `max_allowed` picks is an allowed entry of the ranking whose
/// score no allowed entry beats, and it picks none only when no entry is
/// allowed.
pub proof fn lemma_max_allowed_is_best(s: Seq<GlyphScore>, allowed: Seq<char>)
    ensures
        max_allowed(s, allowed) matches Some(e) ==> s.contains(e) && allowed.contains(e.ch)
            && forall|k: int|
            0 <= k < s.len() && allowed.contains(#[trigger] s[k].ch) ==> s[k].score <= e.score,
        max_allowed(s, allowed) is None ==> forall|k: int|
            0 <= k < s.len() ==> !allowed.contains(#[trigger] s[k].ch),
    decreases s.len(),
{
    if s.len() > 0 {
        let p = s.drop_last();
        let n = s.len() - 1;
        let e = s.last();
        lemma_max_allowed_is_best(p, allowed);
        assert(s[n] == e);
        if let Some(a) = max_allowed(p, allowed) {
            let w = choose|w: int| 0 <= w < p.len() && p[w] == a;
            assert(s[w] == a);
        }
        match max_allowed(s, allowed) {
            Some(r) => {
                assert forall|k: int|
                    0 <= k < s.len() && allowed.contains(#[trigger] s[k].ch) implies s[k].score
                    <= r.score by {
                    if k < n {
                        assert(p[k] == s[k]);
                    }
                }
            },
            None => {
                assert forall|k: int| 0 <= k < s.len() implies !allowed.contains(
                    #[trigger] s[k].ch,
                ) by {
                    if k < n {
                        assert(p[k] == s[k]);
                    }
                }
            },
        }
    }
}

fn slice_contains(allowed: &[char], c: char) -> (r: bool)
    ensures
        r == allowed@.contains(c),
{
    let mut i: usize = 0;
    while i < allowed.len()
        invariant
            i <= allowed@.len(),
            forall|k: int| 0 <= k < i ==> allowed@[k] != c,
        decreases allowed@.len() - i,
    {
        if allowed[i] == c {
            assert(allowed@[i as int] == c);
            return true;
        }
        i = i + 1;
    }
    false
}

/// The best-scored allowed character among a glyph's kept scores; of equal
/// scores, the one listed last.
pub fn choose_best_digit(glyph: &DebugGlyphScores, allowed: &[char]) -> (r: Option<char>)
    ensures
        r == best_digit(glyph@, allowed@),
{
    let ghost s = glyph.scores@;
    let mut acc: Option<GlyphScore> = None;
    let mut i: usize = 0;
    while i < glyph.scores.len()
        invariant
            s == glyph.scores@,
            i <= s.len(),
            acc == max_allowed(s.take(i as int), allowed@),
        decreases s.len() - i,
    {
        let e = glyph.scores[i];
        assert(s.take(i + 1).drop_last() =~= s.take(i as int));
        assert(s.take(i + 1).last() == e);
        if slice_contains(allowed, e.ch) {
            acc = match acc {
                None => Some(e),
                Some(a) => if e.score >= a.score {
                    Some(e)
                } else {
                    Some(a)
                },
            };
        }
        i = i + 1;
    }
    assert(s.take(s.len() as int) =~= s);
    match acc {
        Some(e) => Some(e.ch),
        None => None,
    }
}

/// The score of the first entry for `ch`.
pub open spec fn first_score(s: Seq<GlyphScore>, ch: char) -> Option<u32>
    decreases s.len(),
{
    if s.len() == 0 {
        None
    } else if s[0].ch == ch {
        Some(s[0].score)
    } else {
        first_score(s.drop_first(), ch)
    }
}

/// The kept score of `ch` in a glyph ranking, if it was kept.
pub fn score_for_char(glyph: &DebugGlyphScores, ch: char) -> (r: Option<u32>)
    ensures
        r == first_score(glyph@.2, ch),
{
    let ghost s = glyph.scores@;
    let mut i: usize = 0;
    assert(s.skip(0) =~= s);
    while i < glyph.scores.len()
        invariant
            s == glyph.scores@,
            i <= s.len(),
            first_score(s, ch) == first_score(s.skip(i as int), ch),
        decreases s.len() - i,
    {
        assert(s.skip(i as int)[0] == s[i as int]);
        if glyph.scores[i].ch == ch {
            return Some(glyph.scores[i].score);
        }
        assert(s.skip(i as int).drop_first() =~= s.skip(i + 1));
        i = i + 1;
    }
    None
}

/// The decimal digits.
pub open spec fn all_digit_chars() -> Seq<char> {
    seq!['0', '1', '2', '3', '4', '5', '6', '7', '8', '9']
}

/// A timestamp read from five glyphs `M M : S S`: the minute tens digit is
/// 0-3, the seconds tens digit 0-5; the colon glyph is not read.
pub open spec fn decode_timestamp_view(gs: Seq<ScoresView>) -> Option<Seq<char>> {
    if gs.len() != 5 {
        None
    } else {
        match (
            best_digit(gs[0], seq!['0', '1', '2', '3']),
            best_digit(gs[1], all_digit_chars()),
            best_digit(gs[3], seq!['0', '1', '2', '3', '4', '5']),
            best_digit(gs[4], all_digit_chars()),
        ) {
            (Some(a), Some(b), Some(d), Some(e)) => Some(seq![a, b, ':', d, e]),
            _ => None,
        }
    }
}

/// Reads a timestamp from five ranked glyphs.
pub fn decode_timestamp(glyphs: &[DebugGlyphScores]) -> (r: Option<String>)
    ensures
        opt_view(r) == decode_timestamp_view(scores_views(glyphs@)),
{
    let ghost gs = scores_views(glyphs@);
    if glyphs.len() != 5 {
        return None;
    }
    assert(gs[0] == glyphs@[0]@ && gs[1] == glyphs@[1]@ && gs[3] == glyphs@[3]@ && gs[4]
        == glyphs@[4]@);
    let first_set = ['0', '1', '2', '3'];
    let digits = ['0', '1', '2', '3', '4', '5', '6', '7', '8', '9'];
    let fourth_set = ['0', '1', '2', '3', '4', '5'];
    assert(first_set@ =~= seq!['0', '1', '2', '3']);
    assert(digits@ =~= all_digit_chars());
    assert(fourth_set@ =~= seq!['0', '1', '2', '3', '4', '5']);
    let first = match choose_best_digit(&glyphs[0], &first_set) {
        Some(c) => c,
        None => return None,
    };
    let second = match choose_best_digit(&glyphs[1], &digits) {
        Some(c) => c,
        None => return None,
    };
    let third = ':';
    let fourth = match choose_best_digit(&glyphs[3], &fourth_set) {
        Some(c) => c,
        None => return None,
    };
    let fifth = match choose_best_digit(&glyphs[4], &digits) {
        Some(c) => c,
        None => return None,
    };
    proof {
        lemma_max_allowed_allowed(gs[3].2, fourth_set@);
        lemma_max_allowed_allowed(gs[4].2, digits@);
        assert(fourth_set@.contains(fourth));
        assert(digits@.contains(fifth));
    }
    // the seconds read as a number must stay below 60
    let seconds: u32 = (fourth as u32 - '0' as u32) * 10 + (fifth as u32 - '0' as u32);
    if seconds < 60 {
        let mut out = String::new();
        out.push(first);
        out.push(second);
        out.push(third);
        out.push(fourth);
        out.push(fifth);
        assert(out@ =~= seq![first, second, third, fourth, fifth]);
        Some(out)
    } else {
        None
    }
}

/// The kept characters of a supply pattern's first `n` glyphs: a slash
/// position needs a kept `/` score reaching the supply minimum, any other
/// position reads its best digit.
pub open spec fn decode_pattern_prefix(gs: Seq<ScoresView>, pattern: Seq<bool>, n: int) -> Option<
    Seq<char>,
>
    decreases n,
{
    if n <= 0 {
        Some(Seq::empty())
    } else {
        match decode_pattern_prefix(gs, pattern, n - 1) {
            None => None,
            Some(p) => if pattern[n - 1] {
                let slash = match first_score(gs[n - 1].2, '/') {
                    Some(v) => v,
                    None => 0,
                };
                if slash < min_score_of(RoiGroup::Supply) {
                    None
                } else {
                    Some(p.push('/'))
                }
            } else {
                match best_digit(gs[n - 1], all_digit_chars()) {
                    Some(c) => Some(p.push(c)),
                    None => None,
                }
            },
        }
    }
}

/// Once a pattern prefix fails to read, every longer prefix fails too.
pub proof fn lemma_prefix_none(gs: Seq<ScoresView>, pattern: Seq<bool>, n: int, m: int)
    requires
        0 <= n <= m,
        decode_pattern_prefix(gs, pattern, n) is None,
    ensures
        decode_pattern_prefix(gs, pattern, m) is None,
    decreases m - n,
{
    if m > n {
        lemma_prefix_none(gs, pattern, n, m - 1);
    }
}

/// The two numbers of a supply text `used/cap`: exactly one `/`, each side a
/// `u16` as `str::parse` reads it.
pub open spec fn parse_supply_view(t: Seq<char>) -> Option<(nat, nat)> {
    let parts = split_on(t, '/');
    if parts.len() != 2 {
        None
    } else {
        match (parse_unsigned(parts[0], u16::MAX as nat), parse_unsigned(parts[1], u16::MAX as nat)) {
            (Some(a), Some(b)) => Some((a, b)),
            _ => None,
        }
    }
}

/// The text of a supply pattern, kept only when it parses as a supply.
pub open spec fn decode_supply_pattern_view(gs: Seq<ScoresView>, pattern: Seq<bool>) -> Option<
    Seq<char>,
> {
    if gs.len() != pattern.len() {
        None
    } else {
        match decode_pattern_prefix(gs, pattern, gs.len() as int) {
            Some(t) => if parse_supply_view(t) is Some {
                Some(t)
            } else {
                None
            },
            None => None,
        }
    }
}

/// The first reading if there is one, else the second.
pub open spec fn better_supply_view(left: Option<Seq<char>>, right: Option<Seq<char>>) -> Option<
    Seq<char>,
> {
    if left is Some {
        left
    } else {
        right
    }
}

/// A supply text read from 3, 4 or 5 glyphs: `d/d`, `d/dd` or `dd/d`
/// (preferring `d/dd`), or `dd/dd`.
pub open spec fn decode_supply_view(gs: Seq<ScoresView>) -> Option<Seq<char>> {
    if gs.len() == 3 {
        decode_supply_pattern_view(gs, seq![false, true, false])
    } else if gs.len() == 4 {
        better_supply_view(
            decode_supply_pattern_view(gs, seq![false, true, false, false]),
            decode_supply_pattern_view(gs, seq![false, false, true, false]),
        )
    } else if gs.len() == 5 {
        decode_supply_pattern_view(gs, seq![false, false, true, false, false])
    } else {
        None
    }
}

/// The text of a region's ranked glyphs: a timestamp for `timestamp`, a
/// supply count for any other region.
pub open spec fn decode_text_view(name: Seq<char>, gs: Seq<ScoresView>) -> Option<Seq<char>> {
    if name == "timestamp"@ {
        decode_timestamp_view(gs)
    } else {
        decode_supply_view(gs)
    }
}

/// The two numbers of a supply text.
pub fn parse_supply_numbers(text: &str) -> (r: Option<(u16, u16)>)
    ensures
        match r {
            Some((a, b)) => parse_supply_view(text@) == Some((a as nat, b as nat)),
            None => parse_supply_view(text@) is None,
        },
{
    let parts = split_str(text, '/');
    if parts.len() != 2 {
        return None;
    }
    assert(parts.deep_view()[0] == parts@[0]@);
    assert(parts.deep_view()[1] == parts@[1]@);
    let used = match parse_u16(parts[0].as_str()) {
        Some(v) => v,
        None => return None,
    };
    let cap = match parse_u16(parts[1].as_str()) {
        Some(v) => v,
        None => return None,
    };
    Some((used, cap))
}

/// The text itself when it parses as a supply.
pub fn validate_supply(text: &str) -> (r: Option<String>)
    ensures
        opt_view(r) == (if parse_supply_view(text@) is Some {
            Some(text@)
        } else {
            None
        }),
{
    match parse_supply_numbers(text) {
        Some(_) => Some(text.to_string()),
        None => None,
    }
}

/// Reads the glyphs along a supply pattern (`true` marks the slash).
pub fn decode_supply_pattern(glyphs: &[DebugGlyphScores], slash_positions: &[bool]) -> (r: Option<
    String,
>)
    ensures
        opt_view(r) == decode_supply_pattern_view(scores_views(glyphs@), slash_positions@),
{
    let ghost gs = scores_views(glyphs@);
    let ghost pattern = slash_positions@;
    if glyphs.len() != slash_positions.len() {
        return None;
    }
    let digits = ['0', '1', '2', '3', '4', '5', '6', '7', '8', '9'];
    assert(digits@ =~= all_digit_chars());
    let mut output = String::new();
    let mut i: usize = 0;
    while i < glyphs.len()
        invariant
            gs == scores_views(glyphs@),
            pattern == slash_positions@,
            glyphs@.len() == pattern.len(),
            digits@ == all_digit_chars(),
            i <= glyphs@.len(),
            decode_pattern_prefix(gs, pattern, i as int) == Some(output@),
        decreases glyphs@.len() - i,
    {
        assert(gs[i as int] == glyphs@[i as int]@);
        if slash_positions[i] {
            let slash_score = match score_for_char(&glyphs[i], '/') {
                Some(v) => v,
                None => 0,
            };
            if slash_score < min_glyph_score(RoiGroup::Supply) {
                proof {
                    assert(decode_pattern_prefix(gs, pattern, i + 1) is None);
                    lemma_prefix_none(gs, pattern, i + 1, gs.len() as int);
                }
                return None;
            }
            output.push('/');
        } else {
            let c = match choose_best_digit(&glyphs[i], &digits) {
                Some(c) => c,
                None => {
                    proof {
                        assert(decode_pattern_prefix(gs, pattern, i + 1) is None);
                        lemma_prefix_none(gs, pattern, i + 1, gs.len() as int);
                    }
                    return None;
                },
            };
            output.push(c);
        }
        i = i + 1;
    }
    validate_supply(output.as_str())
}

/// The first reading if there is one, else the second.
pub fn choose_better_supply(left: Option<String>, right: Option<String>) -> (r: Option<String>)
    ensures
        opt_view(r) == better_supply_view(opt_view(left), opt_view(right)),
{
    match (left, right) {
        (Some(a), Some(_b)) => Some(a),
        (Some(a), None) => Some(a),
        (None, Some(b)) => Some(b),
        (None, None) => None,
    }
}

/// Reads a supply text from 3, 4 or 5 ranked glyphs.
pub fn decode_supply(glyphs: &[DebugGlyphScores]) -> (r: Option<String>)
    ensures
        opt_view(r) == decode_supply_view(scores_views(glyphs@)),
{
    let n = glyphs.len();
    if n == 3 {
        let p = [false, true, false];
        assert(p@ =~= seq![false, true, false]);
        decode_supply_pattern(glyphs, &p)
    } else if n == 4 {
        let pl = [false, true, false, false];
        let pr = [false, false, true, false];
        assert(pl@ =~= seq![false, true, false, false]);
        assert(pr@ =~= seq![false, false, true, false]);
        let left = decode_supply_pattern(glyphs, &pl);
        let right = decode_supply_pattern(glyphs, &pr);
        choose_better_supply(left, right)
    } else if n == 5 {
        let p = [false, false, true, false, false];
        assert(p@ =~= seq![false, false, true, false, false]);
        decode_supply_pattern(glyphs, &p)
    } else {
        None
    }
}

/// Reads the text of a region from its ranked glyphs.
pub fn decode_text(roi_name: &str, glyphs: &[DebugGlyphScores]) -> (r: Option<String>)
    ensures
        opt_view(r) == decode_text_view(roi_name@, scores_views(glyphs@)),
{
    if str_eq(roi_name, "timestamp") {
        decode_timestamp(glyphs)
    } else {
        decode_supply(glyphs)
    }
}

/// The rankings of a region's glyphs.
pub open spec fn ranked_view(name: Seq<char>, img: RasterView, templates: GlyphTemplates, top_n: usize) -> Seq<
    ScoresView,
> {
    let group = roi_group_of(name);
    segment_view(img).map_values(
        |g: RasterView| score_glyph_view(g, group, top_n, templates.set_view(group)),
    )
}

/// The text recognized in a region's thresholded crop, empty when it does
/// not read as the region's kind of text.
pub open spec fn recognize_view(name: Seq<char>, img: RasterView, templates: GlyphTemplates) -> Seq<char> {
    match decode_text_view(name, ranked_view(name, img, templates, 10)) {
        Some(t) => t,
        None => Seq::empty(),
    }
}

/// Segments a thresholded crop into glyphs and ranks each.
pub fn debug_score_glyphs(roi_name: &str, image: &GrayPixels, top_n: usize, templates: &GlyphTemplates) -> (r: Vec<DebugGlyphScores>)
    requires
        image.wf(),
        normalizable_width(image.width as int),
        templates.ready(),
    ensures
        scores_views(r@) == ranked_view(roi_name@, image@, *templates, top_n),
{
    let group = roi_group(roi_name);
    let glyphs = segment_glyphs(image);
    let ghost gv = glyphs.deep_view();
    proof {
        lemma_glyphs_within_width(image@);
    }
    let mut ranked: Vec<DebugGlyphScores> = Vec::new();
    let mut i: usize = 0;
    while i < glyphs.len()
        invariant
            image.wf(),
            normalizable_width(image.width as int),
            forall|k: int| 0 <= k < gv.len() ==> (#[trigger] gv[k]).0 <= image.width,
            templates.ready(),
            group == roi_group_of(roi_name@),
            gv == glyphs.deep_view(),
            gv == segment_view(image@),
            gv.len() == glyphs@.len(),
            forall|k: int| 0 <= k < glyphs@.len() ==> (#[trigger] glyphs@[k]).wf(),
            i <= glyphs@.len(),
            ranked@.len() == i,
            scores_views(ranked@) == ranked_view(roi_name@, image@, *templates, top_n).take(i as int),
        decreases glyphs@.len() - i,
    {
        assert(gv[i as int] == glyphs@[i as int]@);
        let r = score_glyph_for_roi(&glyphs[i], group, top_n, templates);
        assert(ranked_view(roi_name@, image@, *templates, top_n)[i as int] == r@);
        let ghost before = ranked@;
        ranked.push(r);
        assert(scores_views(ranked@)[i as int] == r@);
        assert(forall|k: int| 0 <= k < i ==> ranked@[k] == before[k]);
        i = i + 1;
        assert(scores_views(ranked@) =~= ranked_view(roi_name@, image@, *templates, top_n).take(
            i as int,
        ));
    }
    assert(ranked_view(roi_name@, image@, *templates, top_n).take(glyphs@.len() as int)
        =~= ranked_view(roi_name@, image@, *templates, top_n));
    ranked
}

/// The glyph images of a thresholded crop, left to right.
pub fn debug_segment_glyphs(image: &GrayPixels) -> (glyphs: Vec<GrayPixels>)
    requires
        image.wf(),
    ensures
        glyphs.deep_view() == segment_view(image@),
{
    segment_glyphs(image)
}

/// The text recognized in a region's thresholded crop: its glyphs are
/// segmented, each ranked against the templates of the region's group
/// (keeping the ten best characters), and the rankings decoded as a
/// timestamp or supply text; empty when they do not decode.
pub fn recognize_text(roi_name: &str, image: &GrayPixels, templates: &GlyphTemplates) -> (text: String)
    requires
        image.wf(),
        normalizable_width(image.width as int),
        templates.ready(),
    ensures
        text@ == recognize_view(roi_name@, image@, *templates),
{
    let ranked = debug_score_glyphs(roi_name, image, 10, templates);
    match decode_text(roi_name, ranked.as_slice()) {
        Some(t) => t,
        None => String::new(),
    }
}

/// A clock text `MM:SS`: minute tens 0-3, seconds tens 0-5.
pub open spec fn is_clock_text(t: Seq<char>) -> bool {
    &&& t.len() == 5
    &&& '0' <= t[0] <= '3'
    &&& '0' <= t[1] <= '9'
    &&& t[2] == ':'
    &&& '0' <= t[3] <= '5'
    &&& '0' <= t[4] <= '9'
}

/// A supply text: one or two digits, `/`, one or two digits, with both
/// numbers readable as `u16`.
pub open spec fn is_supply_text(t: Seq<char>) -> bool {
    &&& parse_supply_view(t) is Some
    &&& exists|k: int|
        1 <= k <= 2 && 1 <= t.len() - k - 1 <= 2 && #[trigger] t[k] == '/' && forall|i: int|
            0 <= i < t.len() && i != k ==> '0' <= #[trigger] t[i] <= '9'
}

proof fn lemma_contains_range(s: Seq<char>, c: char, lo: char, hi: char)
    requires
        s.contains(c),
        forall|i: int| 0 <= i < s.len() ==> lo <= #[trigger] s[i] <= hi,
    ensures
        lo <= c <= hi,
{
}

/// A decoded timestamp is always a clock text.
pub proof fn lemma_timestamp_is_clock(gs: Seq<ScoresView>)
    ensures
        decode_timestamp_view(gs) matches Some(t) ==> is_clock_text(t),
{
    if gs.len() == 5 {
        lemma_max_allowed_allowed(gs[0].2, seq!['0', '1', '2', '3']);
        lemma_max_allowed_allowed(gs[1].2, all_digit_chars());
        lemma_max_allowed_allowed(gs[3].2, seq!['0', '1', '2', '3', '4', '5']);
        lemma_max_allowed_allowed(gs[4].2, all_digit_chars());
        if let Some(t) = decode_timestamp_view(gs) {
            let a = best_digit(gs[0], seq!['0', '1', '2', '3'])->0;
            let b = best_digit(gs[1], all_digit_chars())->0;
            let d = best_digit(gs[3], seq!['0', '1', '2', '3', '4', '5'])->0;
            let e = best_digit(gs[4], all_digit_chars())->0;
            lemma_contains_range(seq!['0', '1', '2', '3'], a, '0', '3');
            lemma_contains_range(all_digit_chars(), b, '0', '9');
            lemma_contains_range(seq!['0', '1', '2', '3', '4', '5'], d, '0', '5');
            lemma_contains_range(all_digit_chars(), e, '0', '9');
        }
    }
}

/// A decoded pattern prefix has one character per glyph: `/` exactly at
/// the slash positions, digits elsewhere.
pub proof fn lemma_pattern_prefix_shape(gs: Seq<ScoresView>, pattern: Seq<bool>, n: int)
    requires
        0 <= n <= pattern.len(),
        n <= gs.len(),
    ensures
        decode_pattern_prefix(gs, pattern, n) matches Some(t) ==> {
            &&& t.len() == n
            &&& forall|i: int|
                0 <= i < n ==> (pattern[i] ==> #[trigger] t[i] == '/') && (!pattern[i] ==> '0'
                    <= t[i] <= '9')
        },
    decreases n,
{
    if n > 0 {
        lemma_pattern_prefix_shape(gs, pattern, n - 1);
        lemma_max_allowed_allowed(gs[n - 1].2, all_digit_chars());
        if let Some(t) = decode_pattern_prefix(gs, pattern, n) {
            let p = decode_pattern_prefix(gs, pattern, n - 1)->0;
            assert(t.drop_last() =~= p);
            if !pattern[n - 1] {
                let c = best_digit(gs[n - 1], all_digit_chars())->0;
                lemma_contains_range(all_digit_chars(), c, '0', '9');
            }
            assert forall|i: int| 0 <= i < n implies (pattern[i] ==> #[trigger] t[i] == '/') && (
            !pattern[i] ==> '0' <= t[i] <= '9') by {
                if i < n - 1 {
                    assert(t[i] == p[i]);
                }
            }
        }
    }
}

proof fn lemma_pattern_supply(gs: Seq<ScoresView>, pattern: Seq<bool>, k: int)
    requires
        3 <= pattern.len() <= 5,
        1 <= k <= 2,
        1 <= pattern.len() - k - 1 <= 2,
        pattern[k],
        forall|i: int| 0 <= i < pattern.len() && i != k ==> !#[trigger] pattern[i],
    ensures
        decode_supply_pattern_view(gs, pattern) matches Some(t) ==> is_supply_text(t),
{
    if gs.len() == pattern.len() {
        lemma_pattern_prefix_shape(gs, pattern, gs.len() as int);
        if let Some(t) = decode_supply_pattern_view(gs, pattern) {
            assert(t[k] == '/');
            assert forall|i: int| 0 <= i < t.len() && i != k implies '0' <= #[trigger] t[i]
                <= '9' by {
                assert(!pattern[i]);
            }
        }
    }
}

/// A decoded supply reading is always a supply text.
pub proof fn lemma_supply_is_supply_text(gs: Seq<ScoresView>)
    ensures
        decode_supply_view(gs) matches Some(t) ==> is_supply_text(t),
{
    lemma_pattern_supply(gs, seq![false, true, false], 1);
    lemma_pattern_supply(gs, seq![false, true, false, false], 1);
    lemma_pattern_supply(gs, seq![false, false, true, false], 2);
    lemma_pattern_supply(gs, seq![false, false, true, false, false], 2);
}

/// What the recognizer reads is empty or well formed: a clock text `MM:SS`
/// in the timestamp region, a supply text `used/cap` in any other region.
pub proof fn lemma_recognized_text_well_formed(
    name: Seq<char>,
    img: RasterView,
    templates: GlyphTemplates,
)
    ensures
        ({
            let t = recognize_view(name, img, templates);
            t.len() == 0 || (if name == "timestamp"@ {
                is_clock_text(t)
            } else {
                is_supply_text(t)
            })
        }),
{
    let gs = ranked_view(name, img, templates, 10);
    lemma_timestamp_is_clock(gs);
    lemma_supply_is_supply_text(gs);
}

/// Ranking puts the scores in non-increasing order and keeps every entry:
/// the result is a permutation of the input.
pub proof fn lemma_sort_by_score_sorted(s: Seq<GlyphScore>)
    ensures
        sort_by_score(s).to_multiset() == s.to_multiset(),
        forall|i: int, j: int|
            0 <= i < j < sort_by_score(s).len() ==> #[trigger] sort_by_score(s)[i].score
                >= #[trigger] sort_by_score(s)[j].score,
    decreases s.len(),
{
    broadcast use vstd::seq_lib::group_to_multiset_ensures;

    lemma_sort_len(s);
    if s.len() > 0 {
        let b = best_index(s);
        lemma_best_index(s);
        let rest = s.remove(b);
        lemma_sort_by_score_sorted(rest);
        let out = sort_by_score(s);
        let tail = sort_by_score(rest);
        assert(out == seq![s[b]] + tail);
        assert(out.drop_first() =~= tail);
        assert(out.to_multiset() =~= tail.to_multiset().insert(s[b])) by {
            vstd::seq_lib::lemma_multiset_commutative(seq![s[b]], tail);
            assert(seq![s[b]] =~= Seq::<GlyphScore>::empty().push(s[b]));
        }
        assert(s.to_multiset() =~= rest.to_multiset().insert(s[b]));
        assert forall|i: int, j: int| 0 <= i < j < out.len() implies #[trigger] out[i].score
            >= #[trigger] out[j].score by {
            if i == 0 {
                let x = out[j];
                assert(x == tail[j - 1]);
                assert(tail.to_multiset().count(x) > 0);
                assert(rest.contains(x));
                let k = choose|k: int| 0 <= k < rest.len() && rest[k] == x;
                if k < b {
                    assert(rest[k] == s[k]);
                } else {
                    assert(rest[k] == s[k + 1]);
                }
            } else {
                assert(out[i] == tail[i - 1]);
                assert(out[j] == tail[j - 1]);
            }
        }
    }
}

/// Ranking is stable: of two entries with equal scores, the one listed
/// first in the input is also ranked first.
pub proof fn lemma_sort_by_score_stable(s: Seq<GlyphScore>, i: int, j: int)
    requires
        0 <= i < j < s.len(),
        s[i].score == s[j].score,
    ensures
        exists|p: int, q: int|
            0 <= p < q < sort_by_score(s).len() && #[trigger] sort_by_score(s)[p] == s[i]
                && #[trigger] sort_by_score(s)[q] == s[j],
    decreases s.len(),
{
    broadcast use vstd::seq_lib::group_to_multiset_ensures;

    lemma_best_index(s);
    lemma_sort_len(s);
    let b = best_index(s);
    let rest = s.remove(b);
    let out = sort_by_score(s);
    let tail = sort_by_score(rest);
    assert(out == seq![s[b]] + tail);
    if j == b {
        assert(s[i].score < s[b].score);
    } else if i == b {
        assert(rest[j - 1] == s[j]);
        lemma_sort_by_score_sorted(rest);
        assert(rest.contains(s[j]));
        assert(tail.to_multiset().count(s[j]) > 0);
        assert(tail.contains(s[j]));
        let q2 = choose|q2: int| 0 <= q2 < tail.len() && tail[q2] == s[j];
        assert(out[0] == s[i]);
        assert(out[q2 + 1] == s[j]);
    } else {
        let i2 = if i < b { i } else { i - 1 };
        let j2 = if j < b { j } else { j - 1 };
        assert(rest[i2] == s[i] && rest[j2] == s[j]);
        lemma_sort_by_score_stable(rest, i2, j2);
        lemma_sort_len(rest);
        let (p2, q2) = choose|p2: int, q2: int|
            0 <= p2 < q2 < tail.len() && #[trigger] tail[p2] == s[i] && #[trigger] tail[q2] == s[j];
        assert(out[p2 + 1] == s[i]);
        assert(out[q2 + 1] == s[j]);
    }
}

/// Every sample of a normalized glyph is black (0) or white (255).
pub proof fn lemma_normalized_is_binary(v: RasterView)
    ensures
        forall|i: int|
            0 <= i < normalize_view(v).2.len() ==> #[trigger] normalize_view(v).2[i] == 0
                || normalize_view(v).2[i] == 255,
{
}

/// The colon of a timestamp is structural: the reading does not depend on
/// how the third glyph ranks.
pub proof fn lemma_timestamp_ignores_colon_glyph(gs: Seq<ScoresView>, g: ScoresView)
    requires
        gs.len() == 5,
    ensures
        decode_timestamp_view(gs.update(2, g)) == decode_timestamp_view(gs),
{
    let u = gs.update(2, g);
    assert(u[0] == gs[0] && u[1] == gs[1] && u[3] == gs[3] && u[4] == gs[4]);
}

/// The kept `/` score of ranking `g` reaches the supply minimum.
pub open spec fn slash_accepted(g: Seq<GlyphScore>) -> bool {
    first_score(g, '/') matches Some(v) && v >= min_score_of(RoiGroup::Supply)
}

/// Ranking `g` holds an entry whose character lies in `lo..=hi`.
pub open spec fn has_in_range(g: Seq<GlyphScore>, lo: char, hi: char) -> bool {
    exists|k: int| 0 <= k < g.len() && lo <= #[trigger] g[k].ch && g[k].ch <= hi
}

/// `c` lies in `lo..=hi` and is the character of an entry of ranking `g` that
/// no entry with a character in `lo..=hi` outscores.
pub open spec fn best_in_range(g: Seq<GlyphScore>, c: char, lo: char, hi: char) -> bool {
    &&& lo <= c && c <= hi
    &&& exists|k: int|
        0 <= k < g.len() && (#[trigger] g[k]).ch == c && forall|j: int|
            0 <= j < g.len() && lo <= g[j].ch && g[j].ch <= hi ==> #[trigger] g[j].score
                <= g[k].score
}

/// The digits a clock's second tens may be.
pub open spec fn second_tens_digits() -> Seq<char> {
    seq!['0', '1', '2', '3', '4', '5']
}

/// The digits a clock's minute tens may be.
pub open spec fn minute_tens_digits() -> Seq<char> {
    seq!['0', '1', '2', '3']
}

/// The digit sets the decoders read from, by character range.
proof fn lemma_digit_sets()
    ensures
        forall|c: char| #[trigger] all_digit_chars().contains(c) <==> ('0' <= c && c <= '9'),
        forall|c: char| #[trigger] second_tens_digits().contains(c) <==> ('0' <= c && c <= '5'),
        forall|c: char| #[trigger] minute_tens_digits().contains(c) <==> ('0' <= c && c <= '3'),
{
    let d = all_digit_chars();
    let s6 = second_tens_digits();
    let s4 = minute_tens_digits();
    assert forall|c: char| #[trigger] d.contains(c) <==> ('0' <= c && c <= '9') by {
        if d.contains(c) {
            lemma_contains_range(d, c, '0', '9');
        }
        if '0' <= c && c <= '9' {
            let k = (c as u32 - '0' as u32) as int;
            assert(0 <= k < 10);
            assert(d[k] == c) by {
                assert(d[0] == '0' && d[1] == '1' && d[2] == '2' && d[3] == '3' && d[4] == '4');
                assert(d[5] == '5' && d[6] == '6' && d[7] == '7' && d[8] == '8' && d[9] == '9');
            }
        }
    }
    assert forall|c: char| #[trigger] s6.contains(c) <==> ('0' <= c && c <= '5') by {
        if s6.contains(c) {
            lemma_contains_range(s6, c, '0', '5');
        }
        if '0' <= c && c <= '5' {
            let k = (c as u32 - '0' as u32) as int;
            assert(s6[k] == c) by {
                assert(s6[0] == '0' && s6[1] == '1' && s6[2] == '2' && s6[3] == '3');
                assert(s6[4] == '4' && s6[5] == '5');
            }
        }
    }
    assert forall|c: char| #[trigger] s4.contains(c) <==> ('0' <= c && c <= '3') by {
        if s4.contains(c) {
            lemma_contains_range(s4, c, '0', '3');
        }
        if '0' <= c && c <= '3' {
            let k = (c as u32 - '0' as u32) as int;
            assert(s4[k] == c) by {
                assert(s4[0] == '0' && s4[1] == '1' && s4[2] == '2' && s4[3] == '3');
            }
        }
    }
}

/// Reading a glyph over a set of characters that is a character range picks
/// the best-scored entry in that range, and picks none only when the ranking
/// has no entry in it.
proof fn lemma_best_digit_in(g: ScoresView, allowed: Seq<char>, lo: char, hi: char)
    requires
        forall|c: char| #[trigger] allowed.contains(c) <==> (lo <= c && c <= hi),
    ensures
        best_digit(g, allowed) matches Some(c) ==> best_in_range(g.2, c, lo, hi),
        best_digit(g, allowed) is None <==> !has_in_range(g.2, lo, hi),
{
    let s = g.2;
    lemma_max_allowed_is_best(s, allowed);
    if let Some(e) = max_allowed(s, allowed) {
        let k = choose|k: int| 0 <= k < s.len() && s[k] == e;
        assert(s[k].ch == e.ch);
        assert(allowed.contains(e.ch));
        assert forall|j: int| 0 <= j < s.len() && lo <= s[j].ch && s[j].ch <= hi implies #[trigger] s[j].score
            <= s[k].score by {
            assert(allowed.contains(s[j].ch));
        }
        assert(lo <= s[k].ch && s[k].ch <= hi);
    } else {
        if has_in_range(s, lo, hi) {
            let k = choose|k: int| 0 <= k < s.len() && lo <= #[trigger] s[k].ch && s[k].ch <= hi;
            assert(allowed.contains(s[k].ch));
        }
    }
}

/// A clock is read digit by digit from the glyph rankings: the minute tens
/// is the best-scored digit 0-3 of the first glyph, the minute and second
/// units the best-scored digits of the second and fifth glyphs, and the
/// second tens the best-scored digit 0-5 of the fourth glyph; the third glyph
/// stands for the colon. Five glyphs that each rank some digit of their range
/// always read as a clock.
pub proof fn lemma_timestamp_reads_best_digits(gs: Seq<ScoresView>)
    ensures
        decode_timestamp_view(gs) matches Some(t) ==> {
            &&& gs.len() == 5
            &&& t.len() == 5
            &&& t[2] == ':'
            &&& best_in_range(gs[0].2, t[0], '0', '3')
            &&& best_in_range(gs[1].2, t[1], '0', '9')
            &&& best_in_range(gs[3].2, t[3], '0', '5')
            &&& best_in_range(gs[4].2, t[4], '0', '9')
        },
        (gs.len() == 5 && has_in_range(gs[0].2, '0', '3') && has_in_range(gs[1].2, '0', '9')
            && has_in_range(gs[3].2, '0', '5') && has_in_range(gs[4].2, '0', '9'))
            ==> decode_timestamp_view(gs) is Some,
{
    lemma_digit_sets();
    if gs.len() == 5 {
        assert(seq!['0', '1', '2', '3'] =~= minute_tens_digits());
        assert(seq!['0', '1', '2', '3', '4', '5'] =~= second_tens_digits());
        lemma_best_digit_in(gs[0], minute_tens_digits(), '0', '3');
        lemma_best_digit_in(gs[1], all_digit_chars(), '0', '9');
        lemma_best_digit_in(gs[3], second_tens_digits(), '0', '5');
        lemma_best_digit_in(gs[4], all_digit_chars(), '0', '9');
    }
}

/// Every character of a decoded pattern prefix comes from its glyph: a slash
/// from a glyph whose kept `/` score reaches the supply minimum, a digit as
/// the best-scored digit of its glyph.
proof fn lemma_prefix_reads_best_digits(gs: Seq<ScoresView>, pattern: Seq<bool>, n: int)
    requires
        0 <= n <= pattern.len(),
        n <= gs.len(),
    ensures
        decode_pattern_prefix(gs, pattern, n) matches Some(t) ==> {
            &&& t.len() == n
            &&& forall|i: int|
                0 <= i < n ==> (pattern[i] ==> #[trigger] t[i] == '/' && slash_accepted(gs[i].2)) && (!pattern[i]
                    ==> best_in_range(gs[i].2, t[i], '0', '9'))
        },
    decreases n,
{
    if n > 0 {
        lemma_prefix_reads_best_digits(gs, pattern, n - 1);
        lemma_digit_sets();
        lemma_best_digit_in(gs[n - 1], all_digit_chars(), '0', '9');
        if let Some(t) = decode_pattern_prefix(gs, pattern, n) {
            let p = decode_pattern_prefix(gs, pattern, n - 1)->0;
            assert(t.drop_last() =~= p);
            assert forall|i: int| 0 <= i < n implies (pattern[i] ==> #[trigger] t[i] == '/' && slash_accepted(gs[i].2)) && (
            !pattern[i] ==> best_in_range(gs[i].2, t[i], '0', '9')) by {
                if i < n - 1 {
                    assert(t[i] == p[i]);
                }
            }
        }
    }
}

proof fn lemma_pattern_reads_best_digits(gs: Seq<ScoresView>, pattern: Seq<bool>)
    ensures
        decode_supply_pattern_view(gs, pattern) matches Some(t) ==> {
            &&& t.len() == gs.len()
            &&& forall|i: int|
                0 <= i < t.len() ==> (#[trigger] t[i] == '/' ==> slash_accepted(gs[i].2)) && (t[i] != '/' ==> best_in_range(
                    gs[i].2,
                    t[i],
                    '0',
                    '9',
                ))
        },
{
    if gs.len() == pattern.len() {
        lemma_prefix_reads_best_digits(gs, pattern, gs.len() as int);
    }
}

/// A supply count is read one character per glyph: each `/` from a glyph
/// whose kept `/` score reaches the supply minimum, and every other character
/// as the best-scored of the ten digits '0'-'9' of its glyph's ranking.
pub proof fn lemma_supply_reads_best_digits(gs: Seq<ScoresView>)
    ensures
        decode_supply_view(gs) matches Some(t) ==> {
            &&& t.len() == gs.len()
            &&& forall|i: int|
                0 <= i < t.len() ==> (#[trigger] t[i] == '/' ==> slash_accepted(gs[i].2)) && (t[i] != '/' ==> best_in_range(
                    gs[i].2,
                    t[i],
                    '0',
                    '9',
                ))
        },
{
    lemma_pattern_reads_best_digits(gs, seq![false, true, false]);
    lemma_pattern_reads_best_digits(gs, seq![false, true, false, false]);
    lemma_pattern_reads_best_digits(gs, seq![false, false, true, false]);
    lemma_pattern_reads_best_digits(gs, seq![false, false, true, false, false]);
}

/// The characters each group reads, in ranking order: a timestamp the ten
/// digits '0' to '9'; a supply count those digits, then '/'. No character
/// occurs twice.
pub proof fn lemma_allowed_characters()
    ensures
        allowed_seq(RoiGroup::Timestamp).len() == 10,
        forall|i: int|
            0 <= i < 10 ==> #[trigger] allowed_seq(RoiGroup::Timestamp)[i] as int == '0' as int + i,
        allowed_seq(RoiGroup::Supply).len() == 11,
        forall|i: int|
            0 <= i < 10 ==> #[trigger] allowed_seq(RoiGroup::Supply)[i] as int == '0' as int + i,
        allowed_seq(RoiGroup::Supply)[10] == '/',
        allowed_seq(RoiGroup::Timestamp).no_duplicates(),
        allowed_seq(RoiGroup::Supply).no_duplicates(),
        forall|c: char|
            #[trigger] allowed_seq(RoiGroup::Timestamp).contains(c) <==> ('0' <= c && c <= '9'),
        forall|c: char|
            #[trigger] allowed_seq(RoiGroup::Supply).contains(c) <==> (('0' <= c && c <= '9') || c
                == '/'),
{
    let t = allowed_seq(RoiGroup::Timestamp);
    let u = allowed_seq(RoiGroup::Supply);
    assert(t[0] == '0' && t[1] == '1' && t[2] == '2' && t[3] == '3' && t[4] == '4');
    assert(t[5] == '5' && t[6] == '6' && t[7] == '7' && t[8] == '8' && t[9] == '9');
    assert(u[0] == '0' && u[1] == '1' && u[2] == '2' && u[3] == '3' && u[4] == '4');
    assert(u[5] == '5' && u[6] == '6' && u[7] == '7' && u[8] == '8' && u[9] == '9');
    assert(u[10] == '/');
    assert forall|c: char| #[trigger] t.contains(c) <==> ('0' <= c && c <= '9') by {
        if '0' <= c && c <= '9' {
            let k = (c as u32 - '0' as u32) as int;
            assert(t[k] == c);
        }
    }
    assert forall|c: char| #[trigger] u.contains(c) <==> (('0' <= c && c <= '9') || c == '/') by {
        if '0' <= c && c <= '9' {
            let k = (c as u32 - '0' as u32) as int;
            assert(u[k] == c);
        }
        if c == '/' {
            assert(u[10] == c);
        }
    }
}

/// A glyph is accepted when at least 60% (timestamp) or 64% (supply count)
/// of the 240 pixels of the normalized area agree with its best template.
pub proof fn lemma_acceptance_thresholds(score: u32)
    ensures
        score >= min_score_of(RoiGroup::Timestamp) <==> score * 100 >= 60 * (GLYPH_WIDTH
            * GLYPH_HEIGHT),
        score >= min_score_of(RoiGroup::Supply) <==> score * 100 >= 64 * (GLYPH_WIDTH
            * GLYPH_HEIGHT),
{
}

proof fn lemma_row_self(c: RasterView, y: int, n: int)
    requires
        0 <= n,
    ensures
        row_matches(c, c, y, n) == n,
    decreases n,
{
    if n > 0 {
        lemma_row_self(c, y, n - 1);
    }
}

proof fn lemma_grid_self(c: RasterView, m: int)
    requires
        0 <= m,
    ensures
        grid_matches(c, c, m) == m * GLYPH_WIDTH,
    decreases m,
{
    if m > 0 {
        lemma_grid_self(c, m - 1);
        lemma_row_self(c, m - 1, GLYPH_WIDTH as int);
    }
}

proof fn lemma_row_sym(c: RasterView, t: RasterView, y: int, n: int)
    ensures
        row_matches(c, t, y, n) == row_matches(t, c, y, n),
    decreases n,
{
    if n > 0 {
        lemma_row_sym(c, t, y, n - 1);
    }
}

proof fn lemma_grid_sym(c: RasterView, t: RasterView, m: int)
    ensures
        grid_matches(c, t, m) == grid_matches(t, c, m),
    decreases m,
{
    if m > 0 {
        lemma_grid_sym(c, t, m - 1);
        lemma_row_sym(c, t, m - 1, GLYPH_WIDTH as int);
    }
}

/// A glyph score counts agreement: a candidate scored against itself gets
/// all 240 pixels, and scoring is symmetric in candidate and template.
pub proof fn lemma_glyph_score_agreement(c: RasterView, t: RasterView)
    ensures
        glyph_score_view(c, c) == GLYPH_WIDTH * GLYPH_HEIGHT,
        glyph_score_view(c, t) == glyph_score_view(t, c),
{
    lemma_grid_self(c, GLYPH_HEIGHT as int);
    lemma_grid_sym(c, t, GLYPH_HEIGHT as int);
}

/// A ranking keeps the `top_n` best scores, at least one and at most all of
/// them.
pub proof fn lemma_kept_count(top_n: usize, len: nat)
    ensures
        kept_count(top_n, len) == if len == 0 {
            0
        } else if top_n == 0 {
            1
        } else if top_n < len {
            top_n as int
        } else {
            len as int
        },
{
}

} // verus!
