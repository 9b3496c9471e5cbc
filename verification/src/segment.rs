//! Splitting a thresholded HUD crop into glyph images: runs of inked columns
//! become glyphs, each cropped to the rows that hold ink.
use vstd::prelude::*;
use crate::pixels::{at_v, crop_pixels, crop_view, GrayPixels, RasterView};

verus! {

/// Column `x` holds at least one nonzero sample.
pub open spec fn column_inked(v: RasterView, x: int) -> bool {
    exists|y: int| 0 <= y < v.1 && #[trigger] at_v(v, x, y) > 0
}

/// Row `y` holds a nonzero sample between columns `left` and `right`
/// (inclusive).
pub open spec fn row_inked(v: RasterView, y: int, left: int, right: int) -> bool {
    exists|x: int| left <= x <= right && #[trigger] at_v(v, x, y) > 0
}

/// The column scan after the first `n` columns: the start of the open run (if
/// any), the count of blank columns seen since its last inked column, and the
/// closed runs as (first column, last column) pairs. A run opens at an inked
/// column and closes at the second blank column in a row; its last column is
/// then the column just before those two blanks.
pub open spec fn scan_columns(v: RasterView, n: nat) -> (Option<u32>, u32, Seq<(u32, u32)>)
    decreases n,
{
    if n == 0 {
        (None, 0, Seq::empty())
    } else {
        let prev = scan_columns(v, (n - 1) as nat);
        let start = prev.0;
        let gap = prev.1;
        let ranges = prev.2;
        let x = (n - 1) as int;
        if column_inked(v, x) {
            (if start is Some { start } else { Some(x as u32) }, 0, ranges)
        } else if start is Some {
            if gap + 1 > 1 {
                (None, 0, ranges.push((start->0, (x - (gap + 1)) as u32)))
            } else {
                (start, (gap + 1) as u32, ranges)
            }
        } else {
            (start, gap, ranges)
        }
    }
}

/// The column runs that become glyphs: the closed runs of the full scan, then
/// the run still open at the right edge, which extends to the last column.
pub open spec fn glyph_ranges(v: RasterView) -> Seq<(u32, u32)> {
    let s = scan_columns(v, v.0 as nat);
    match s.0 {
        Some(start) => s.2.push((start, (v.0 - 1) as u32)),
        None => s.2,
    }
}

/// The first and last rows holding ink between columns `left` and `right`,
/// if any row does.
pub open spec fn ink_rows(v: RasterView, left: int, right: int) -> Option<(u32, u32)> {
    if exists|y: int| 0 <= y < v.1 && row_inked(v, y, left, right) {
        let top = choose|y: u32|
            y < v.1 && row_inked(v, y as int, left, right) && forall|z: int|
                0 <= z < y ==> !row_inked(v, z, left, right);
        let bottom = choose|y: u32|
            y < v.1 && row_inked(v, y as int, left, right) && forall|z: int|
                y < z < v.1 ==> !row_inked(v, z, left, right);
        Some((top, bottom))
    } else {
        None
    }
}

/// The columns `left..=right` cropped to their inked rows, or `None` when they
/// hold no ink.
pub open spec fn crop_to_ink_view(v: RasterView, left: u32, right: u32) -> Option<RasterView> {
    match ink_rows(v, left as int, right as int) {
        Some((top, bottom)) => Some(
            crop_view(
                v,
                left as int,
                top as int,
                (right - left + 1) as u32,
                (bottom - top + 1) as u32,
            ),
        ),
        None => None,
    }
}

/// The inked crops of the given column runs, in order, skipping runs without
/// ink.
pub open spec fn crops_of(v: RasterView, ranges: Seq<(u32, u32)>) -> Seq<RasterView>
    decreases ranges.len(),
{
    if ranges.len() == 0 {
        Seq::empty()
    } else {
        let rest = crops_of(v, ranges.drop_last());
        match crop_to_ink_view(v, ranges.last().0, ranges.last().1) {
            Some(c) => rest.push(c),
            None => rest,
        }
    }
}

/// The glyph images of a thresholded crop, left to right.
pub open spec fn segment_view(v: RasterView) -> Seq<RasterView> {
    crops_of(v, glyph_ranges(v))
}

/// Facts that every state of the column scan keeps.
pub open spec fn scan_ok(v: RasterView, n: nat) -> bool {
    let s = scan_columns(v, n);
    &&& s.1 <= 1
    &&& (s.0 is None ==> s.1 == 0)
    &&& (s.0 matches Some(st) ==> st + s.1 < n && column_inked(v, st as int))
    &&& (s.0 matches Some(st) ==> (s.2.len() > 0 ==> s.2.last().1 + 2 < st))
    &&& forall|i: int|
        0 <= i < s.2.len() ==> {
            &&& (#[trigger] s.2[i]).0 <= s.2[i].1
            &&& s.2[i].1 + 2 < n
            &&& column_inked(v, s.2[i].0 as int)
        }
    &&& forall|i: int| 0 <= i < s.2.len() - 1 ==> (#[trigger] s.2[i]).1 + 2 < s.2[i + 1].0
}

/// The scan keeps `scan_ok` column after column.
pub proof fn lemma_scan_ok(v: RasterView, n: nat)
    requires
        n <= v.0,
    ensures
        scan_ok(v, n),
    decreases n,
{
    if n > 0 {
        lemma_scan_ok(v, (n - 1) as nat);
        let prev = scan_columns(v, (n - 1) as nat);
        let cur = scan_columns(v, n);
        assert forall|i: int| 0 <= i < cur.2.len() implies {
            &&& (#[trigger] cur.2[i]).0 <= cur.2[i].1
            &&& cur.2[i].1 + 2 < n
            &&& column_inked(v, cur.2[i].0 as int)
        } by {
            if i < prev.2.len() {
                assert(cur.2[i] == prev.2[i]);
            }
        }
        assert forall|i: int| 0 <= i < cur.2.len() - 1 implies (#[trigger] cur.2[i]).1 + 2
            < cur.2[i + 1].0 by {
            if i + 1 < prev.2.len() {
                assert(cur.2[i] == prev.2[i]);
                assert(cur.2[i + 1] == prev.2[i + 1]);
            } else {
                assert(cur.2[i] == prev.2[i]);
            }
        }
    }
}

/// Where the scan's runs end and which inked columns they cover, after `n`
/// columns: a closed run ends at an inked column followed by two blank ones;
/// the open run's last inked column is `gap` columns back; every inked
/// column seen lies in a closed run or in the open one.
pub open spec fn scan_covers(v: RasterView, n: nat) -> bool {
    let s = scan_columns(v, n);
    &&& forall|i: int|
        0 <= i < s.2.len() ==> {
            &&& (#[trigger] s.2[i]).1 + 2 < n
            &&& column_inked(v, s.2[i].1 as int)
            &&& !column_inked(v, s.2[i].1 + 1)
            &&& !column_inked(v, s.2[i].1 + 2)
        }
    &&& (s.0 matches Some(st) ==> {
        &&& st + s.1 < n
        &&& column_inked(v, n - 1 - s.1)
        &&& (s.1 == 1 ==> !column_inked(v, n - 1))
    })
    &&& forall|x: int|
        0 <= x < n && column_inked(v, x) ==> (s.0 matches Some(st) && st <= x) || exists|i: int|
            0 <= i < s.2.len() && (#[trigger] s.2[i]).0 <= x && x <= s.2[i].1
}

/// The scan keeps `scan_covers` column after column.
pub proof fn lemma_scan_covers(v: RasterView, n: nat)
    requires
        n <= v.0,
    ensures
        scan_covers(v, n),
    decreases n,
{
    if n > 0 {
        lemma_scan_covers(v, (n - 1) as nat);
        lemma_scan_ok(v, (n - 1) as nat);
        lemma_scan_covers_step(v, n);
    }
}

#[verifier::spinoff_prover]
#[verifier::rlimit(50)]
proof fn lemma_scan_covers_step(v: RasterView, n: nat)
    requires
        0 < n <= v.0,
        scan_covers(v, (n - 1) as nat),
        scan_ok(v, (n - 1) as nat),
    ensures
        scan_covers(v, n),
{
    let m = (n - 1) as nat;
    let prev = scan_columns(v, m);
    let cur = scan_columns(v, n);
    let x = m as int;
    if column_inked(v, x) {
        assert(cur.2 == prev.2);
        assert forall|y: int| 0 <= y < n && column_inked(v, y) implies (cur.0 matches Some(st)
            && st <= y) || exists|i: int|
            0 <= i < cur.2.len() && (#[trigger] cur.2[i]).0 <= y && y <= cur.2[i].1 by {
            if y < x {
                if !(prev.0 matches Some(st) && st <= y) {
                    let i = choose|i: int|
                        0 <= i < prev.2.len() && (#[trigger] prev.2[i]).0 <= y && y <= prev.2[i].1;
                    assert(cur.2[i] == prev.2[i]);
                }
            }
        }
    } else if prev.0 is Some {
        let st = prev.0->0;
        if prev.1 + 1 > 1 {
            let r = (st, (x - (prev.1 + 1)) as u32);
            assert(cur.2 == prev.2.push(r));
            assert(cur.2[prev.2.len() as int] == r);
            assert forall|i: int| 0 <= i < cur.2.len() implies {
                &&& (#[trigger] cur.2[i]).1 + 2 < n
                &&& column_inked(v, cur.2[i].1 as int)
                &&& !column_inked(v, cur.2[i].1 + 1)
                &&& !column_inked(v, cur.2[i].1 + 2)
            } by {
                if i < prev.2.len() {
                    assert(cur.2[i] == prev.2[i]);
                }
            }
            assert forall|y: int| 0 <= y < n && column_inked(v, y) implies (cur.0 matches Some(
                s0,
            ) && s0 <= y) || exists|i: int|
                0 <= i < cur.2.len() && (#[trigger] cur.2[i]).0 <= y && y <= cur.2[i].1 by {
                if y < x {
                    if st <= y {
                        assert(cur.2[prev.2.len() as int] == r);
                    } else {
                        let i = choose|i: int|
                            0 <= i < prev.2.len() && (#[trigger] prev.2[i]).0 <= y && y
                                <= prev.2[i].1;
                        assert(cur.2[i] == prev.2[i]);
                    }
                }
            }
        } else {
            assert(cur.2 == prev.2);
            assert forall|y: int| 0 <= y < n && column_inked(v, y) implies (cur.0 matches Some(
                s0,
            ) && s0 <= y) || exists|i: int|
                0 <= i < cur.2.len() && (#[trigger] cur.2[i]).0 <= y && y <= cur.2[i].1 by {
                if y < x && !(st <= y) {
                    let i = choose|i: int|
                        0 <= i < prev.2.len() && (#[trigger] prev.2[i]).0 <= y && y <= prev.2[i].1;
                    assert(cur.2[i] == prev.2[i]);
                }
            }
        }
    } else {
        assert(cur == prev);
    }
}

/// The glyph runs, stated directly: each starts at an inked column and ends
/// either at the right edge or at an inked column followed by two blank
/// columns; every inked column lies in some run.
pub proof fn lemma_glyph_runs(v: RasterView)
    ensures
        forall|k: int|
            0 <= k < glyph_ranges(v).len() ==> {
                &&& column_inked(v, (#[trigger] glyph_ranges(v)[k]).0 as int)
                &&& (glyph_ranges(v)[k].1 == v.0 - 1 || {
                    &&& glyph_ranges(v)[k].1 + 2 < v.0
                    &&& column_inked(v, glyph_ranges(v)[k].1 as int)
                    &&& !column_inked(v, glyph_ranges(v)[k].1 + 1)
                    &&& !column_inked(v, glyph_ranges(v)[k].1 + 2)
                })
            },
        forall|x: int|
            0 <= x < v.0 && column_inked(v, x) ==> exists|k: int|
                0 <= k < glyph_ranges(v).len() && (#[trigger] glyph_ranges(v)[k]).0 <= x && x
                    <= glyph_ranges(v)[k].1,
{
    lemma_glyph_ranges_bounded(v);
    lemma_scan_covers(v, v.0 as nat);
    let s = scan_columns(v, v.0 as nat);
    let g = glyph_ranges(v);
    assert forall|k: int| 0 <= k < g.len() && k < s.2.len() implies #[trigger] g[k] == s.2[k] by {}
    assert forall|k: int| 0 <= k < g.len() implies {
        &&& column_inked(v, (#[trigger] g[k]).0 as int)
        &&& (g[k].1 == v.0 - 1 || {
            &&& g[k].1 + 2 < v.0
            &&& column_inked(v, g[k].1 as int)
            &&& !column_inked(v, g[k].1 + 1)
            &&& !column_inked(v, g[k].1 + 2)
        })
    } by {
        if k < s.2.len() {
            assert(g[k] == s.2[k]);
        }
    }
    assert forall|x: int| 0 <= x < v.0 && column_inked(v, x) implies exists|k: int|
        0 <= k < g.len() && (#[trigger] g[k]).0 <= x && x <= g[k].1 by {
        if s.0 is Some && s.0->0 <= x {
            assert(g[s.2.len() as int] == (s.0->0, (v.0 - 1) as u32));
        } else {
            let i = choose|i: int| 0 <= i < s.2.len() && (#[trigger] s.2[i]).0 <= x && x <= s.2[i].1;
            assert(g[i] == s.2[i]);
        }
    }
}

/// Whether column `x` holds ink./// Whether column `x` holds ink.
pub fn column_has_ink(image: &GrayPixels, x: u32) -> (r: bool)
    requires
        image.wf(),
        x < image.width,
    ensures
        r == column_inked(image@, x as int),
{
    let mut y: u32 = 0;
    while y < image.height
        invariant
            image.wf(),
            x < image.width,
            y <= image.height,
            forall|z: int| 0 <= z < y ==> !(#[trigger] at_v(image@, x as int, z) > 0),
        decreases image.height - y,
    {
        if image.get_pixel(x, y) > 0 {
            return true;
        }
        y = y + 1;
    }
    false
}

/// Whether row `y` holds ink between columns `left` and `right`.
pub fn row_has_ink(image: &GrayPixels, y: u32, left: u32, right: u32) -> (r: bool)
    requires
        image.wf(),
        y < image.height,
        left <= right,
        right < image.width,
    ensures
        r == row_inked(image@, y as int, left as int, right as int),
{
    let mut x: u32 = left;
    while x <= right
        invariant
            image.wf(),
            y < image.height,
            right < image.width,
            left <= x,
            x <= right + 1,
            forall|z: int| left <= z < x ==> !(#[trigger] at_v(image@, z, y as int) > 0),
        decreases right + 1 - x,
    {
        if image.get_pixel(x, y) > 0 {
            return true;
        }
        x = x + 1;
    }
    false
}

/// The columns `left..=right` cropped to the rows that hold ink there, or
/// `None` when no row does.
pub fn crop_to_ink(image: &GrayPixels, left: u32, right: u32) -> (r: Option<GrayPixels>)
    requires
        image.wf(),
        left <= right,
        right < image.width,
    ensures
        match r {
            Some(g) => crop_to_ink_view(image@, left, right) == Some(g@),
            None => crop_to_ink_view(image@, left, right) is None,
        },
{
    let ghost v = image@;
    let mut top: u32 = 0;
    while top < image.height && !row_has_ink(image, top, left, right)
        invariant
            image.wf(),
            v == image@,
            left <= right,
            right < image.width,
            top <= image.height,
            forall|z: int| 0 <= z < top ==> !row_inked(v, z, left as int, right as int),
        decreases image.height - top,
    {
        top = top + 1;
    }
    if top == image.height {
        assert(!exists|y: int| 0 <= y < v.1 && row_inked(v, y, left as int, right as int));
        return None;
    }
    let mut bottom: u32 = image.height - 1;
    while !row_has_ink(image, bottom, left, right)
        invariant
            image.wf(),
            v == image@,
            left <= right,
            right < image.width,
            top <= bottom < image.height,
            row_inked(v, top as int, left as int, right as int),
            forall|z: int| bottom < z < v.1 ==> !row_inked(v, z, left as int, right as int),
        decreases bottom,
    {
        if bottom == top {
            // unreachable: row `top` holds ink
            assert(false);
        }
        bottom = bottom - 1;
    }
    proof {
        let l = left as int;
        let rr = right as int;
        assert(0 <= top < v.1 && row_inked(v, top as int, l, rr));
        let t = choose|y: u32|
            y < v.1 && row_inked(v, y as int, l, rr) && forall|z: int|
                0 <= z < y ==> !row_inked(v, z, l, rr);
        assert(top < v.1 && row_inked(v, top as int, l, rr) && forall|z: int|
            0 <= z < top ==> !row_inked(v, z, l, rr));
        if t < top {
            assert(!row_inked(v, t as int, l, rr));
        }
        if t > top {
            assert(!row_inked(v, top as int, l, rr));
        }
        let b = choose|y: u32|
            y < v.1 && row_inked(v, y as int, l, rr) && forall|z: int|
                y < z < v.1 ==> !row_inked(v, z, l, rr);
        assert(bottom < v.1 && row_inked(v, bottom as int, l, rr) && forall|z: int|
            bottom < z < v.1 ==> !row_inked(v, z, l, rr));
        if b < bottom {
            assert(!row_inked(v, bottom as int, l, rr));
        }
        if b > bottom {
            assert(!row_inked(v, b as int, l, rr));
        }
        assert(ink_rows(v, l, rr) == Some((top, bottom)));
    }
    let g = crop_pixels(image, left, top, right - left + 1, bottom - top + 1);
    Some(g)
}

/// The column runs of `image` that become glyphs.
pub fn glyph_column_ranges(image: &GrayPixels) -> (ranges: Vec<(u32, u32)>)
    requires
        image.wf(),
    ensures
        ranges@ == glyph_ranges(image@),
{
    let ghost v = image@;
    let mut ranges: Vec<(u32, u32)> = Vec::new();
    let mut start: Option<u32> = None;
    let mut gap: u32 = 0;
    let mut x: u32 = 0;
    while x < image.width
        invariant
            image.wf(),
            v == image@,
            x <= image.width,
            scan_columns(v, x as nat) == (start, gap, ranges@),
        decreases image.width - x,
    {
        proof {
            lemma_scan_ok(v, x as nat);
        }
        if column_has_ink(image, x) {
            if start.is_none() {
                start = Some(x);
            }
            gap = 0;
        } else if let Some(run_start) = start {
            gap = gap + 1;
            if gap > 1 {
                ranges.push((run_start, x - gap));
                start = None;
                gap = 0;
            }
        }
        x = x + 1;
    }
    proof {
        lemma_scan_ok(v, x as nat);
    }
    if let Some(run_start) = start {
        ranges.push((run_start, image.width - 1));
    }
    ranges
}

/// The glyph images of a thresholded crop, left to right: every run of inked
/// columns that no two adjacent blank columns interrupt, cropped to its
/// inked rows.
pub fn segment_glyphs(image: &GrayPixels) -> (glyphs: Vec<GrayPixels>)
    requires
        image.wf(),
    ensures
        glyphs.deep_view() == segment_view(image@),
        forall|k: int| 0 <= k < glyphs@.len() ==> (#[trigger] glyphs@[k]).wf(),
{
    let ghost v = image@;
    let ranges = glyph_column_ranges(image);
    proof {
        lemma_glyph_ranges_bounded(v);
    }
    let mut glyphs: Vec<GrayPixels> = Vec::new();
    let mut i: usize = 0;
    while i < ranges.len()
        invariant
            image.wf(),
            v == image@,
            ranges@ == glyph_ranges(v),
            i <= ranges@.len(),
            forall|k: int|
                0 <= k < ranges@.len() ==> (#[trigger] ranges@[k]).0 <= ranges@[k].1 && ranges@[k].1
                    < v.0,
            glyphs.deep_view() == crops_of(v, ranges@.take(i as int)),
            forall|k: int| 0 <= k < glyphs@.len() ==> (#[trigger] glyphs@[k]).wf(),
        decreases ranges@.len() - i,
    {
        let (left, right) = ranges[i];
        proof {
            assert(ranges@.take(i + 1).drop_last() =~= ranges@.take(i as int));
            assert(ranges@.take(i + 1).last() == ranges@[i as int]);
        }
        match crop_to_ink(image, left, right) {
            Some(g) => {
                let ghost before = glyphs.deep_view();
                glyphs.push(g);
                assert(glyphs.deep_view() =~= before.push(g@));
            },
            None => {},
        }
        i = i + 1;
    }
    assert(ranges@.take(ranges@.len() as int) =~= ranges@);
    glyphs
}

/// Every glyph run lies inside the image, first column before last, and
/// starts at an inked column; runs come left to right with at least two
/// columns between one and the next.
pub proof fn lemma_glyph_ranges_bounded(v: RasterView)
    ensures
        forall|k: int|
            0 <= k < glyph_ranges(v).len() ==> {
                &&& (#[trigger] glyph_ranges(v)[k]).0 <= glyph_ranges(v)[k].1
                &&& glyph_ranges(v)[k].1 < v.0
                &&& column_inked(v, glyph_ranges(v)[k].0 as int)
            },
        forall|k: int|
            0 <= k < glyph_ranges(v).len() - 1 ==> (#[trigger] glyph_ranges(v)[k]).1 + 2
                < glyph_ranges(v)[k + 1].0,
{
    lemma_scan_ok(v, v.0 as nat);
    let s = scan_columns(v, v.0 as nat);
    let g = glyph_ranges(v);
    if let Some(st) = s.0 {
        assert forall|k: int| 0 <= k < g.len() implies {
            &&& (#[trigger] g[k]).0 <= g[k].1
            &&& g[k].1 < v.0
            &&& column_inked(v, g[k].0 as int)
        } by {
            if k < s.2.len() {
                assert(g[k] == s.2[k]);
            }
        }
        assert forall|k: int| 0 <= k < g.len() - 1 implies (#[trigger] g[k]).1 + 2 < g[k
            + 1].0 by {
            assert(g[k] == s.2[k]);
            if k + 1 < s.2.len() {
                assert(g[k + 1] == s.2[k + 1]);
            }
        }
    }
}

/// A run that starts at an inked column always holds an inked row.
pub proof fn lemma_inked_run_crops(v: RasterView, left: u32, right: u32)
    requires
        left <= right,
        column_inked(v, left as int),
    ensures
        crop_to_ink_view(v, left, right) is Some,
{
    let y = choose|y: int| 0 <= y < v.1 && #[trigger] at_v(v, left as int, y) > 0;
    assert(row_inked(v, y, left as int, right as int));
}

/// Every glyph run yields one glyph: the segmentation of a crop has exactly
/// as many glyphs as it has runs of inked columns.
pub proof fn lemma_segment_count(v: RasterView)
    ensures
        segment_view(v).len() == glyph_ranges(v).len(),
{
    lemma_glyph_ranges_bounded(v);
    lemma_crops_of_count(v, glyph_ranges(v));
}

/// No glyph is wider than the crop it was cut from.
pub proof fn lemma_glyphs_within_width(v: RasterView)
    ensures
        forall|k: int| 0 <= k < segment_view(v).len() ==> (#[trigger] segment_view(v)[k]).0 <= v.0,
{
    lemma_glyph_ranges_bounded(v);
    lemma_crops_width(v, glyph_ranges(v));
}

proof fn lemma_crops_width(v: RasterView, ranges: Seq<(u32, u32)>)
    requires
        forall|k: int| 0 <= k < ranges.len() ==> (#[trigger] ranges[k]).0 <= ranges[k].1 < v.0,
    ensures
        forall|k: int| 0 <= k < crops_of(v, ranges).len() ==> (#[trigger] crops_of(v, ranges)[k]).0 <= v.0,
    decreases ranges.len(),
{
    if ranges.len() > 0 {
        assert forall|k: int| 0 <= k < ranges.drop_last().len() implies (
        #[trigger] ranges.drop_last()[k]).0 <= ranges.drop_last()[k].1 < v.0 by {
            assert(ranges.drop_last()[k] == ranges[k]);
        }
        lemma_crops_width(v, ranges.drop_last());
        let rest = crops_of(v, ranges.drop_last());
        let all = crops_of(v, ranges);
        assert forall|k: int| 0 <= k < all.len() implies (#[trigger] all[k]).0 <= v.0 by {
            if k < rest.len() {
                assert(all[k] == rest[k]);
            }
        }
    }
}

proof fn lemma_crops_of_count(v: RasterView, ranges: Seq<(u32, u32)>)
    requires
        forall|k: int|
            0 <= k < ranges.len() ==> (#[trigger] ranges[k]).0 <= ranges[k].1 && column_inked(
                v,
                ranges[k].0 as int,
            ),
    ensures
        crops_of(v, ranges).len() == ranges.len(),
    decreases ranges.len(),
{
    if ranges.len() > 0 {
        assert forall|k: int| 0 <= k < ranges.drop_last().len() implies (
        #[trigger] ranges.drop_last()[k]).0 <= ranges.drop_last()[k].1 && column_inked(
            v,
            ranges.drop_last()[k].0 as int,
        ) by {
            assert(ranges.drop_last()[k] == ranges[k]);
        }
        lemma_crops_of_count(v, ranges.drop_last());
        lemma_inked_run_crops(v, ranges.last().0, ranges.last().1);
    }
}

} // verus!
