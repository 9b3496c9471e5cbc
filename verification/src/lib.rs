//! Brood War HUD metadata extraction: glyph recognition on thresholded
//! HUD crops, frame assembly, temporal consistency cleanup, and evaluation
//! bookkeeping.
pub mod constants;
pub mod eval;
pub mod helpers;
pub mod models;
pub mod pixels;
pub mod recognizer;
pub mod segment;
pub mod templates;
pub mod text;

use vstd::prelude::*;
use crate::models::{
    frames_view,
    opt_chars,
    Config,
    ConfigMatchSegment,
    DecodedFrames,
    EntryData,
    FrameData,
    FrameView,
    HudCrops,
};
use crate::constants::rois;
use crate::pixels::{GrayPixels, RasterView};
use crate::recognizer::{
    is_clock_text,
    is_supply_text,
    lemma_recognized_text_well_formed,
    recognize_text,
    recognize_view,
};
use crate::templates::{normalizable_width, GlyphTemplates};
use crate::text::{opt_string_eq, str_eq, parse_unsigned, parse_usize, split_on, split_str};

verus! {

/// Why an extraction step failed.
#[derive(Debug)]
pub enum MetaError {
    /// A timestamp is not three `:`-separated fields.
    InvalidTimestamp,
    /// A timestamp field is not a decimal `usize`.
    InvalidNumber,
    /// Decoding the frames of a segment failed, with the decoder's message.
    Decode(String),
}

/// The three fields of an `H:M:S` timestamp, if it has exactly three
/// `:`-separated fields.
pub open spec fn timestamp_fields(s: Seq<char>) -> Option<(Seq<char>, Seq<char>, Seq<char>)> {
    let parts = split_on(s, ':');
    if parts.len() == 3 {
        Some((parts[0], parts[1], parts[2]))
    } else {
        None
    }
}

/// The seconds of `h:m:s`.
pub open spec fn seconds_of(h: nat, m: nat, s: nat) -> nat {
    h * 3600 + m * 60 + s
}

/// The seconds an `H:M:S` timestamp denotes, or why it does not denote any.
pub open spec fn timestamp_value(s: Seq<char>) -> Result<nat, MetaError> {
    match timestamp_fields(s) {
        None => Err(MetaError::InvalidTimestamp),
        Some((h, m, sec)) => match (
            parse_unsigned(h, usize::MAX as nat),
            parse_unsigned(m, usize::MAX as nat),
            parse_unsigned(sec, usize::MAX as nat),
        ) {
            (Some(hv), Some(mv), Some(sv)) => Ok(seconds_of(hv, mv, sv)),
            _ => Err(MetaError::InvalidNumber),
        },
    }
}

/// An `H:M:S` timestamp counts an hour as 3600 seconds and a minute as 60.
pub proof fn lemma_timestamp_seconds(h: nat, m: nat, s: nat)
    ensures
        seconds_of(h, m, s) == 3600 * h + 60 * m + s,
        seconds_of(h, m + 1, s) == seconds_of(h, m, s) + 60,
        seconds_of(h + 1, m, s) == seconds_of(h, m, s) + 3600,
{
}

/// The timestamp's fields are numbers, but its seconds exceed `usize`.
pub open spec fn timestamp_overflows(s: Seq<char>) -> bool {
    timestamp_value(s) matches Ok(v) && v > usize::MAX
}

/// The seconds of an `H:M:S` timestamp (each field a decimal `usize`).
pub fn parse_timestamp(timestamp: &str) -> (r: Result<usize, MetaError>)
    requires
        !timestamp_overflows(timestamp@),
    ensures
        match r {
            Ok(v) => timestamp_value(timestamp@) == Ok::<nat, MetaError>(v as nat),
            Err(e) => timestamp_value(timestamp@) == Err::<nat, MetaError>(e),
        },
{
    let parts = split_str(timestamp, ':');
    if parts.len() != 3 {
        return Err(MetaError::InvalidTimestamp);
    }
    assert(parts.deep_view()[0] == parts@[0]@);
    assert(parts.deep_view()[1] == parts@[1]@);
    assert(parts.deep_view()[2] == parts@[2]@);
    let h = match parse_usize(parts[0].as_str()) {
        Some(v) => v,
        None => return Err(MetaError::InvalidNumber),
    };
    let m = match parse_usize(parts[1].as_str()) {
        Some(v) => v,
        None => return Err(MetaError::InvalidNumber),
    };
    let s = match parse_usize(parts[2].as_str()) {
        Some(v) => v,
        None => return Err(MetaError::InvalidNumber),
    };
    assert(h * 3600 <= seconds_of(h as nat, m as nat, s as nat));
    assert(m * 60 <= seconds_of(h as nat, m as nat, s as nat));
    Ok(h * 3600 + m * 60 + s)
}

/// The optional string, or `None` when it is empty.
pub fn none_if_empty(text: String) -> (r: Option<String>)
    ensures
        opt_chars(r) == (if text@.len() == 0 {
            None
        } else {
            Some(text@)
        }),
{
    if text.as_str().is_empty() {
        None
    } else {
        Some(text)
    }
}

/// Whether each player's supply in the current frame agrees with the
/// previous or the next frame.
pub open spec fn consistency(p: FrameView, c: FrameView, n: FrameView) -> (bool, bool) {
    (c.1 == p.1 || c.1 == n.1, c.2 == p.2 || c.2 == n.2)
}

/// Whether each player's supply in `c_frame` equals that of `p_frame` or of
/// `n_frame`.
fn find_consistent(p_frame: &FrameData, c_frame: &FrameData, n_frame: &FrameData) -> (r: Result<
    (bool, bool),
    MetaError,
>)
    ensures
        r == Ok::<(bool, bool), MetaError>(consistency(p_frame@, c_frame@, n_frame@)),
{
    let player1 = opt_string_eq(&c_frame.player1supply, &p_frame.player1supply)
        || opt_string_eq(&c_frame.player1supply, &n_frame.player1supply);
    let player2 = opt_string_eq(&c_frame.player2supply, &p_frame.player2supply)
        || opt_string_eq(&c_frame.player2supply, &n_frame.player2supply);
    Ok((player1, player2))
}

/// Frame `c` checked against its neighbors `p` and `n`: each supply reading
/// that equals neither neighbor's is dropped.
pub open spec fn clean_frame(p: FrameView, c: FrameView, n: FrameView) -> FrameView {
    let k = consistency(p, c, n);
    (
        c.0,
        if k.0 {
            c.1
        } else {
            None
        },
        if k.1 {
            c.2
        } else {
            None
        },
    )
}

/// Frame `i` after checking it against its (already cleaned) predecessor and
/// its successor: a supply that agrees with neither is dropped.
pub open spec fn nullify_step(s: Seq<FrameView>, i: int) -> Seq<FrameView> {
    s.update(i, clean_frame(s[i - 1], s[i], s[i + 1]))
}

/// The frames after cleaning positions `1..k`, left to right.
pub open spec fn nullify_upto(s: Seq<FrameView>, k: int) -> Seq<FrameView>
    decreases k,
{
    if k <= 1 {
        s
    } else {
        nullify_step(nullify_upto(s, k - 1), k - 1)
    }
}

/// The frames after the consistency cleanup: every inner frame, left to
/// right, loses each supply that agrees with neither the previous frame (as
/// already cleaned) nor the next one. Fewer than three frames stay as they
/// are.
pub open spec fn nullify_view(s: Seq<FrameView>) -> Seq<FrameView> {
    if s.len() < 3 {
        s
    } else {
        nullify_upto(s, s.len() - 1)
    }
}

proof fn lemma_nullify_upto_len(s: Seq<FrameView>, k: int)
    requires
        k <= s.len() - 1,
    ensures
        nullify_upto(s, k).len() == s.len(),
        forall|j: int| k <= j < s.len() ==> #[trigger] nullify_upto(s, k)[j] == s[j],
    decreases k,
{
    if k > 1 {
        lemma_nullify_upto_len(s, k - 1);
    }
}

/// What cleaning keeps after the first `k` positions were visited.
pub open spec fn cleanup_facts(s: Seq<FrameView>, r: Seq<FrameView>, k: int) -> bool {
    &&& r.len() == s.len()
    &&& forall|j: int| 0 <= j < s.len() ==> (#[trigger] r[j]).0 == s[j].0
    &&& forall|j: int|
        0 <= j < s.len() ==> ((#[trigger] r[j]).1 == s[j].1 || r[j].1 is None) && (r[j].2
            == s[j].2 || r[j].2 is None)
    &&& forall|j: int| (j == 0 || k <= j < s.len()) ==> #[trigger] r[j] == s[j]
    &&& forall|j: int|
        1 <= j < k && j + 1 < s.len() ==> (s[j].1 == s[j + 1].1 ==> (#[trigger] r[j]).1 == s[j].1)
            && (s[j].2 == s[j + 1].2 ==> r[j].2 == s[j].2)
}

proof fn lemma_nullify_upto_facts(s: Seq<FrameView>, k: int)
    requires
        1 <= k <= s.len() - 1,
    ensures
        cleanup_facts(s, nullify_upto(s, k), k),
    decreases k,
{
    if k > 1 {
        lemma_nullify_upto_facts(s, k - 1);
        let prev = nullify_upto(s, k - 1);
        let r = nullify_upto(s, k);
        let i = k - 1;
        assert(r == nullify_step(prev, i));
        assert(prev[i] == s[i] && prev[i + 1] == s[i + 1]);
        assert forall|j: int| 0 <= j < s.len() implies (#[trigger] r[j]).0 == s[j].0 by {
            if j != i {
                assert(r[j] == prev[j]);
            }
        }
        assert forall|j: int| 0 <= j < s.len() implies ((#[trigger] r[j]).1 == s[j].1 || r[j].1 is None)
            && (r[j].2 == s[j].2 || r[j].2 is None) by {
            if j != i {
                assert(r[j] == prev[j]);
            }
        }
        assert forall|j: int| (j == 0 || k <= j < s.len()) implies #[trigger] r[j] == s[j] by {
            assert(r[j] == prev[j]);
        }
        assert forall|j: int| 1 <= j < k && j + 1 < s.len() implies (s[j].1 == s[j + 1].1 ==> (
        #[trigger] r[j]).1 == s[j].1) && (s[j].2 == s[j + 1].2 ==> r[j].2 == s[j].2) by {
            if j != i {
                assert(r[j] == prev[j]);
            }
        }
    }
}

/// The consistency cleanup keeps the number of frames and every timestamp,
/// never changes the first and last frames, and only ever drops supply
/// readings (each reading stays as it was or becomes none); an inner frame
/// keeps every supply reading that equals the next frame's.
pub proof fn lemma_nullify_laws(s: Seq<FrameView>)
    ensures
        nullify_view(s).len() == s.len(),
        forall|j: int| 0 <= j < s.len() ==> (#[trigger] nullify_view(s)[j]).0 == s[j].0,
        forall|j: int|
            0 <= j < s.len() ==> ((#[trigger] nullify_view(s)[j]).1 == s[j].1 || nullify_view(
                s,
            )[j].1 is None) && (nullify_view(s)[j].2 == s[j].2 || nullify_view(s)[j].2 is None),
        s.len() > 0 ==> nullify_view(s)[0] == s[0] && nullify_view(s)[s.len() - 1] == s[s.len()
            - 1],
        forall|j: int|
            0 < j < s.len() - 1 ==> (s[j].1 == s[j + 1].1 ==> (#[trigger] nullify_view(s)[j]).1
                == s[j].1) && (s[j].2 == s[j + 1].2 ==> nullify_view(s)[j].2 == s[j].2),
{
    if s.len() >= 3 {
        lemma_nullify_upto_facts(s, s.len() - 1);
    }
}

/// `r` is `s` cleaned: the ends as they were, and every inner frame checked
/// against the cleaned frame before it and the uncleaned frame after it.
pub open spec fn cleaned_from(s: Seq<FrameView>, r: Seq<FrameView>) -> bool {
    &&& r.len() == s.len()
    &&& r[0] == s[0]
    &&& r[s.len() - 1] == s[s.len() - 1]
    &&& forall|j: int| 1 <= j < s.len() - 1 ==> #[trigger] r[j] == clean_frame(r[j - 1], s[j], s[j + 1])
}

proof fn lemma_nullify_upto_shape(s: Seq<FrameView>, k: int)
    requires
        1 <= k <= s.len() - 1,
    ensures
        nullify_upto(s, k).len() == s.len(),
        nullify_upto(s, k)[0] == s[0],
        forall|j: int| k <= j < s.len() ==> #[trigger] nullify_upto(s, k)[j] == s[j],
        forall|j: int|
            1 <= j < k ==> #[trigger] nullify_upto(s, k)[j] == clean_frame(
                nullify_upto(s, k)[j - 1],
                s[j],
                s[j + 1],
            ),
    decreases k,
{
    if k > 1 {
        lemma_nullify_upto_shape(s, k - 1);
        let prev = nullify_upto(s, k - 1);
        let r = nullify_upto(s, k);
        assert(r == nullify_step(prev, k - 1));
        assert(prev[k - 1] == s[k - 1] && prev[k] == s[k]);
        assert forall|j: int| 1 <= j < k implies #[trigger] r[j] == clean_frame(
            r[j - 1],
            s[j],
            s[j + 1],
        ) by {
            if j < k - 1 {
                assert(r[j] == prev[j]);
                assert(r[j - 1] == prev[j - 1]);
            } else {
                assert(r[j - 1] == prev[j - 1]);
            }
        }
        assert forall|j: int| k <= j < s.len() implies #[trigger] r[j] == s[j] by {
            assert(r[j] == prev[j]);
        }
    }
}

/// The cleanup of three or more frames is `s` cleaned.
proof fn lemma_nullify_cleaned(s: Seq<FrameView>)
    requires
        s.len() >= 3,
    ensures
        cleaned_from(s, nullify_view(s)),
{
    lemma_nullify_upto_shape(s, s.len() - 1);
}

proof fn lemma_clean_again(s: Seq<FrameView>, w: Seq<FrameView>, u: Seq<FrameView>, j: int)
    requires
        s.len() >= 3,
        cleaned_from(s, w),
        cleaned_from(w, u),
        0 <= j < s.len(),
    ensures
        u[j] == w[j],
    decreases j,
{
    if 0 < j < s.len() - 1 {
        lemma_clean_again(s, w, u, j - 1);
        assert(u[j] == clean_frame(u[j - 1], w[j], w[j + 1]));
        assert(w[j] == clean_frame(w[j - 1], s[j], s[j + 1]));
        if j + 1 < s.len() - 1 {
            assert(w[j + 1] == clean_frame(w[j], s[j + 1], s[j + 2]));
        }
    }
}

/// The consistency law: each inner frame of the cleaned sequence is its own
/// reading checked against the cleaned frame before it and the frame after
/// it; so a supply reading that is kept equals the reading of a neighbour in
/// the input, and one that equals neither neighbour is cleared.
pub proof fn lemma_nullify_consistency(s: Seq<FrameView>)
    ensures
        forall|j: int|
            0 < j < s.len() - 1 ==> #[trigger] nullify_view(s)[j] == clean_frame(
                nullify_view(s)[j - 1],
                s[j],
                s[j + 1],
            ),
        forall|j: int|
            0 < j < s.len() - 1 ==> ((#[trigger] nullify_view(s)[j]).1 matches Some(t) ==> s[j].1
                == Some(t) && (s[j - 1].1 == Some(t) || s[j + 1].1 == Some(t))),
        forall|j: int|
            0 < j < s.len() - 1 ==> ((#[trigger] nullify_view(s)[j]).2 matches Some(t) ==> s[j].2
                == Some(t) && (s[j - 1].2 == Some(t) || s[j + 1].2 == Some(t))),
        forall|j: int|
            0 < j < s.len() - 1 && s[j].1 != s[j - 1].1 && s[j].1 != s[j + 1].1 ==> (
            #[trigger] nullify_view(s)[j]).1 is None,
        forall|j: int|
            0 < j < s.len() - 1 && s[j].2 != s[j - 1].2 && s[j].2 != s[j + 1].2 ==> (
            #[trigger] nullify_view(s)[j]).2 is None,
{
    if s.len() >= 3 {
        lemma_nullify_cleaned(s);
        lemma_nullify_laws(s);
        let r = nullify_view(s);
        assert forall|j: int| 0 < j < s.len() - 1 implies ((#[trigger] r[j]).1 matches Some(t)
            ==> s[j].1 == Some(t) && (s[j - 1].1 == Some(t) || s[j + 1].1 == Some(t))) by {
            assert(r[j] == clean_frame(r[j - 1], s[j], s[j + 1]));
            assert(r[j - 1].1 == s[j - 1].1 || r[j - 1].1 is None);
        }
        assert forall|j: int| 0 < j < s.len() - 1 implies ((#[trigger] r[j]).2 matches Some(t)
            ==> s[j].2 == Some(t) && (s[j - 1].2 == Some(t) || s[j + 1].2 == Some(t))) by {
            assert(r[j] == clean_frame(r[j - 1], s[j], s[j + 1]));
            assert(r[j - 1].2 == s[j - 1].2 || r[j - 1].2 is None);
        }
        assert forall|j: int|
            0 < j < s.len() - 1 && s[j].1 != s[j - 1].1 && s[j].1 != s[j + 1].1 implies (
            #[trigger] r[j]).1 is None by {
            assert(r[j] == clean_frame(r[j - 1], s[j], s[j + 1]));
            assert(r[j - 1].1 == s[j - 1].1 || r[j - 1].1 is None);
        }
        assert forall|j: int|
            0 < j < s.len() - 1 && s[j].2 != s[j - 1].2 && s[j].2 != s[j + 1].2 implies (
            #[trigger] r[j]).2 is None by {
            assert(r[j] == clean_frame(r[j - 1], s[j], s[j + 1]));
            assert(r[j - 1].2 == s[j - 1].2 || r[j - 1].2 is None);
        }
    }
}

/// Cleaning is idempotent: cleaning frames that were already cleaned
/// changes nothing.
pub proof fn lemma_nullify_idempotent(s: Seq<FrameView>)
    ensures
        nullify_view(nullify_view(s)) == nullify_view(s),
{
    if s.len() >= 3 {
        let w = nullify_view(s);
        lemma_nullify_cleaned(s);
        lemma_nullify_cleaned(w);
        let u = nullify_view(w);
        assert forall|j: int| 0 <= j < u.len() implies #[trigger] u[j] == w[j] by {
            lemma_clean_again(s, w, u, j);
        }
        assert(u =~= w);
    }
}

/// Drops each inner frame's supply readings that agree with neither the
/// previous frame (as already cleaned) nor the next one.
pub fn nullify_inconsistent(seg_vec: &mut [FrameData]) -> (r: Result<(), MetaError>)
    ensures
        r is Ok,
        frames_view(final(seg_vec)@) == nullify_view(frames_view(old(seg_vec)@)),
{
    let ghost start = frames_view(seg_vec@);
    let len = seg_vec.len();
    if len < 3 {
        return Ok(());
    }
    let mut i: usize = 1;
    while i < len - 1
        invariant
            len == seg_vec@.len(),
            len >= 3,
            1 <= i <= len - 1,
            start.len() == len,
            frames_view(seg_vec@) == nullify_upto(start, i as int),
        decreases len - 1 - i,
    {
        proof {
            lemma_nullify_upto_len(start, i as int);
        }
        let ghost cur = frames_view(seg_vec@);
        let (player1_valid, player2_valid) = match find_consistent(
            &seg_vec[i - 1],
            &seg_vec[i],
            &seg_vec[i + 1],
        ) {
            Ok(k) => k,
            Err(e) => return Err(e),
        };
        assert(cur[i - 1] == seg_vec@[i - 1]@ && cur[i as int] == seg_vec@[i as int]@ && cur[i
            + 1] == seg_vec@[i + 1]@);
        let ghost before = seg_vec@;
        if !player1_valid {
            seg_vec[i].player1supply = None;
        }
        if !player2_valid {
            seg_vec[i].player2supply = None;
        }
        proof {
            assert(frames_view(seg_vec@) =~= nullify_step(cur, i as int)) by {
                assert forall|j: int| 0 <= j < seg_vec@.len() implies #[trigger] frames_view(
                    seg_vec@,
                )[j] == nullify_step(cur, i as int)[j] by {
                    if j != i {
                        assert(seg_vec@[j] == before[j]);
                    }
                }
            }
        }
        i = i + 1;
    }
    Ok(())
}

/// The start and end seconds of a segment, or why its timestamps do not
/// parse (the start is read first).
pub open spec fn segment_window(seg: ConfigMatchSegment) -> Result<(nat, nat), MetaError> {
    match timestamp_value(seg.start@) {
        Err(e) => Err(e),
        Ok(s) => match timestamp_value(seg.end@) {
            Err(e) => Err(e),
            Ok(e) => Ok((s, e)),
        },
    }
}

/// Reading the segment's window overflows `usize`, or its end precedes its
/// start.
pub open spec fn segment_panics(seg: ConfigMatchSegment) -> bool {
    ||| timestamp_overflows(seg.start@)
    ||| (timestamp_value(seg.start@) is Ok && timestamp_overflows(seg.end@))
    ||| (segment_window(seg) matches Ok((s, e)) && e < s)
}

/// No segment whose predecessors all have valid windows has a window that
/// overflows or runs backwards.
pub open spec fn segments_panic_free(conf: Config) -> bool {
    forall|i: int|
        0 <= i < conf.matches@.len() && (forall|j: int|
            0 <= j < i ==> segment_window(#[trigger] conf.matches@[j]) is Ok) ==> !segment_panics(
            #[trigger] conf.matches@[i],
        )
}

/// The reading recognized in a frame's HUD crops: none when no timestamp is
/// recognized.
#[verifier::opaque]
pub open spec fn crops_reading(c: HudCrops, templates: GlyphTemplates) -> Option<FrameView> {
    frame_from_texts(
        recognize_view("timestamp"@, c.timestamp@, templates),
        recognize_view("player1supply"@, c.player1supply@, templates),
        recognize_view("player2supply"@, c.player2supply@, templates),
    )
}

/// The readings of the first `k` decoded frames, in order (a frame without
/// a recognized timestamp yields none), or the error of the first of them
/// that failed to decode.
pub open spec fn readings_upto(
    items: Seq<Result<HudCrops, MetaError>>,
    templates: GlyphTemplates,
    k: int,
) -> Result<Seq<FrameView>, MetaError>
    decreases k,
{
    if k <= 0 {
        Ok(Seq::empty())
    } else {
        match readings_upto(items, templates, k - 1) {
            Err(e) => Err(e),
            Ok(r) => match items[k - 1] {
                Err(e) => Err(e),
                Ok(c) => match crops_reading(c, templates) {
                    Some(f) => Ok(r.push(f)),
                    None => Ok(r),
                },
            },
        }
    }
}

/// The readings of a segment's first `limit` decoded frames (of all of them
/// when there are fewer), or the error of the first that failed to decode.
pub open spec fn segment_frames(
    items: Seq<Result<HudCrops, MetaError>>,
    templates: GlyphTemplates,
    limit: nat,
) -> Result<Seq<FrameView>, MetaError> {
    readings_upto(
        items,
        templates,
        if items.len() <= limit {
            items.len() as int
        } else {
            limit as int
        },
    )
}

/// Once a frame has failed to decode, the readings stay at that error.
proof fn lemma_readings_stuck(items: Seq<Result<HudCrops, MetaError>>, t: GlyphTemplates, k: int, m: int)
    requires
        0 <= k <= m,
        readings_upto(items, t, k) is Err,
    ensures
        readings_upto(items, t, m) == readings_upto(items, t, k),
    decreases m - k,
{
    if m > k {
        lemma_readings_stuck(items, t, k, m - 1);
    }
}

/// Frames that all decoded give readings.
proof fn lemma_readings_ok(items: Seq<Result<HudCrops, MetaError>>, t: GlyphTemplates, k: int)
    requires
        k <= items.len(),
        forall|q: int| 0 <= q < items.len() ==> (#[trigger] items[q]) is Ok,
    ensures
        readings_upto(items, t, k) is Ok,
    decreases k,
{
    if k > 0 {
        lemma_readings_ok(items, t, k - 1);
        assert(items[k - 1] is Ok);
    }
}

/// A reading as recognition gives it: an `MM:SS` clock timestamp, and each
/// supply absent or a `used/cap` supply text.
pub open spec fn well_formed_reading(f: FrameView) -> bool {
    &&& is_clock_text(f.0)
    &&& (f.1 matches Some(t) ==> is_supply_text(t))
    &&& (f.2 matches Some(t) ==> is_supply_text(t))
}

/// Every decoded frame's crops fit recognition.
pub open spec fn decoded_fit(res: DecodedFrames) -> bool {
    res matches Ok(items) ==> forall|k: int|
        0 <= k < items@.len() && items@[k] is Ok ==> (#[trigger] items@[k])->Ok_0.fits()
}

/// Decoding succeeded for the window and for every frame in it.
pub open spec fn decoded_cleanly(res: DecodedFrames) -> bool {
    res matches Ok(items) && forall|k: int| 0 <= k < items@.len() ==> (#[trigger] items@[k]) is Ok
}

/// Segment `i` decodes and reads: its window parses, and some outcome of
/// decoding the window is `Ok` with none of the frames taken failing.
pub open spec fn segment_decodes<D>(conf: Config, decode: D, templates: GlyphTemplates, i: int) -> bool where
    D: Fn(&String, usize, usize, usize) -> DecodedFrames,
 {
    segment_window(conf.matches@[i]) matches Ok((s, e)) && exists|items: Vec<Result<HudCrops, MetaError>>|
        #[trigger] call_ensures(
            decode,
            (&conf.video_name, s as usize, e as usize, (e - s) as usize),
            Ok::<Vec<Result<HudCrops, MetaError>>, MetaError>(items),
        ) && segment_frames(items@, templates, (e - s) as nat) is Ok
}

/// `entry` is what the run makes of segment `i`: the segment itself, and the
/// cleaned readings of the frames taken from some successful decoding of its
/// window (no more than the window's seconds), each a well-formed reading.
pub open spec fn entry_for<D>(conf: Config, decode: D, templates: GlyphTemplates, i: int, entry: EntryData) -> bool where
    D: Fn(&String, usize, usize, usize) -> DecodedFrames,
 {
    &&& *entry.segment == conf.matches@[i]
    &&& forall|k: int| 0 <= k < entry.ocr@.len() ==> well_formed_reading(#[trigger] entry.ocr@[k]@)
    &&& segment_window(conf.matches@[i]) matches Ok((s, e)) && entry.ocr@.len() <= e - s && exists|
        items: Vec<Result<HudCrops, MetaError>>,
    |
        #[trigger] call_ensures(
            decode,
            (&conf.video_name, s as usize, e as usize, (e - s) as usize),
            Ok::<Vec<Result<HudCrops, MetaError>>, MetaError>(items),
        ) && (segment_frames(items@, templates, (e - s) as nat) matches Ok(r) && frames_view(
            entry.ocr@,
        ) == nullify_view(r))
}

/// Segment `i` fails with `e`: its window does not parse, failing with `e`;
/// or decoding the window fails with `e`; or it decodes and one of the
/// frames taken fails with `e`.
pub open spec fn fails_within<D>(conf: Config, decode: D, templates: GlyphTemplates, i: int, e: MetaError) -> bool where
    D: Fn(&String, usize, usize, usize) -> DecodedFrames,
 {
    match segment_window(conf.matches@[i]) {
        Err(w) => w == e,
        Ok((s, en)) => call_ensures(
            decode,
            (&conf.video_name, s as usize, en as usize, (en - s) as usize),
            Err::<Vec<Result<HudCrops, MetaError>>, MetaError>(e),
        ) || exists|items: Vec<Result<HudCrops, MetaError>>|
            #[trigger] call_ensures(
                decode,
                (&conf.video_name, s as usize, en as usize, (en - s) as usize),
                Ok::<Vec<Result<HudCrops, MetaError>>, MetaError>(items),
            ) && segment_frames(items@, templates, (en - s) as nat) == Err::<
                Seq<FrameView>,
                MetaError,
            >(e),
    }
}

/// The run stops at segment `i` with `e`: every earlier segment decoded and
/// read, and segment `i` fails with `e`.
pub open spec fn fails_at<D>(conf: Config, decode: D, templates: GlyphTemplates, i: int, e: MetaError) -> bool where
    D: Fn(&String, usize, usize, usize) -> DecodedFrames,
 {
    &&& 0 <= i < conf.matches@.len()
    &&& forall|j: int| 0 <= j < i ==> #[trigger] segment_decodes(conf, decode, templates, j)
    &&& fails_within(conf, decode, templates, i, e)
}

/// What a run of the extraction may return: on success one entry per
/// segment, each what the run makes of its segment; on failure the error of
/// the segment where the run stops.
pub open spec fn extraction_result<D>(
    conf: Config,
    decode: D,
    templates: GlyphTemplates,
    r: Result<Vec<EntryData>, MetaError>,
) -> bool where
    D: Fn(&String, usize, usize, usize) -> DecodedFrames,
 {
    &&& r matches Ok(entries) ==> {
        &&& entries@.len() == conf.matches@.len()
        &&& forall|i: int|
            0 <= i < entries@.len() ==> entry_for(conf, decode, templates, i, #[trigger] entries@[i])
    }
    &&& r matches Err(e) ==> exists|i: int| fails_at(conf, decode, templates, i, e)
}

/// The content of the extracted entries: each segment with its readings.
pub open spec fn entries_view(entries: Seq<EntryData>) -> Seq<(ConfigMatchSegment, Seq<FrameView>)> {
    entries.map_values(|e: EntryData| (*e.segment, frames_view(e.ocr@)))
}

/// The content of an extraction's outcome.
pub open spec fn extraction_view(r: Result<Vec<EntryData>, MetaError>) -> Result<
    Seq<(ConfigMatchSegment, Seq<FrameView>)>,
    MetaError,
> {
    match r {
        Ok(entries) => Ok(entries_view(entries@)),
        Err(e) => Err(e),
    }
}

/// The decoder gives one result for each set of arguments.
pub open spec fn deterministic_decoder<D>(decode: D) -> bool where
    D: Fn(&String, usize, usize, usize) -> DecodedFrames,
 {
    forall|a: (&String, usize, usize, usize), r1: DecodedFrames, r2: DecodedFrames|
        #![trigger call_ensures(decode, a, r1), call_ensures(decode, a, r2)]
        call_ensures(decode, a, r1) && call_ensures(decode, a, r2) ==> r1 == r2
}

proof fn lemma_entry_decodes<D>(conf: Config, decode: D, templates: GlyphTemplates, i: int, x: EntryData)
    where
        D: Fn(&String, usize, usize, usize) -> DecodedFrames,

    requires
        entry_for(conf, decode, templates, i, x),
    ensures
        segment_decodes(conf, decode, templates, i),
{
    let (s, e) = segment_window(conf.matches@[i])->Ok_0;
    let args = (&conf.video_name, s as usize, e as usize, (e - s) as usize);
    let it = choose|items: Vec<Result<HudCrops, MetaError>>|
        #[trigger] call_ensures(decode, args, Ok::<Vec<Result<HudCrops, MetaError>>, MetaError>(items))
            && (segment_frames(items@, templates, (e - s) as nat) matches Ok(r) && frames_view(x.ocr@)
            == nullify_view(r));
    assert(call_ensures(decode, args, Ok::<Vec<Result<HudCrops, MetaError>>, MetaError>(it)));
}

proof fn lemma_entry_determined<D>(
    conf: Config,
    decode: D,
    templates: GlyphTemplates,
    i: int,
    x: EntryData,
    y: EntryData,
) where
    D: Fn(&String, usize, usize, usize) -> DecodedFrames,

    requires
        deterministic_decoder(decode),
        entry_for(conf, decode, templates, i, x),
        entry_for(conf, decode, templates, i, y),
    ensures
        *x.segment == *y.segment,
        frames_view(x.ocr@) == frames_view(y.ocr@),
{
    let (s, e) = segment_window(conf.matches@[i])->Ok_0;
    let args = (&conf.video_name, s as usize, e as usize, (e - s) as usize);
    let ix = choose|items: Vec<Result<HudCrops, MetaError>>|
        #[trigger] call_ensures(decode, args, Ok::<Vec<Result<HudCrops, MetaError>>, MetaError>(items))
            && (segment_frames(items@, templates, (e - s) as nat) matches Ok(r) && frames_view(x.ocr@)
            == nullify_view(r));
    let iy = choose|items: Vec<Result<HudCrops, MetaError>>|
        #[trigger] call_ensures(decode, args, Ok::<Vec<Result<HudCrops, MetaError>>, MetaError>(items))
            && (segment_frames(items@, templates, (e - s) as nat) matches Ok(r) && frames_view(y.ocr@)
            == nullify_view(r));
    assert(call_ensures(decode, args, Ok::<Vec<Result<HudCrops, MetaError>>, MetaError>(ix)));
    assert(call_ensures(decode, args, Ok::<Vec<Result<HudCrops, MetaError>>, MetaError>(iy)));
    assert(ix == iy);
}

proof fn lemma_decodes_excludes_failure<D>(
    conf: Config,
    decode: D,
    templates: GlyphTemplates,
    i: int,
    err: MetaError,
) where
    D: Fn(&String, usize, usize, usize) -> DecodedFrames,

    requires
        deterministic_decoder(decode),
        segment_decodes(conf, decode, templates, i),
    ensures
        !fails_within(conf, decode, templates, i, err),
{
    let (s, e) = segment_window(conf.matches@[i])->Ok_0;
    let args = (&conf.video_name, s as usize, e as usize, (e - s) as usize);
    let it = choose|items: Vec<Result<HudCrops, MetaError>>|
        #[trigger] call_ensures(decode, args, Ok::<Vec<Result<HudCrops, MetaError>>, MetaError>(items))
            && segment_frames(items@, templates, (e - s) as nat) is Ok;
    assert(call_ensures(decode, args, Ok::<Vec<Result<HudCrops, MetaError>>, MetaError>(it)));
    if call_ensures(decode, args, Err::<Vec<Result<HudCrops, MetaError>>, MetaError>(err)) {
        assert(false);
    }
    if exists|items: Vec<Result<HudCrops, MetaError>>|
        #[trigger] call_ensures(decode, args, Ok::<Vec<Result<HudCrops, MetaError>>, MetaError>(items))
            && segment_frames(items@, templates, (e - s) as nat) == Err::<Seq<FrameView>, MetaError>(
            err,
        ) {
        let other = choose|items: Vec<Result<HudCrops, MetaError>>|
            #[trigger] call_ensures(decode, args, Ok::<Vec<Result<HudCrops, MetaError>>, MetaError>(items))
                && segment_frames(items@, templates, (e - s) as nat) == Err::<
                Seq<FrameView>,
                MetaError,
            >(err);
        assert(call_ensures(decode, args, Ok::<Vec<Result<HudCrops, MetaError>>, MetaError>(other)));
        assert(other == it);
    }
}

proof fn lemma_failure_determined<D>(
    conf: Config,
    decode: D,
    templates: GlyphTemplates,
    i: int,
    a: MetaError,
    b: MetaError,
) where
    D: Fn(&String, usize, usize, usize) -> DecodedFrames,

    requires
        deterministic_decoder(decode),
        fails_within(conf, decode, templates, i, a),
        fails_within(conf, decode, templates, i, b),
    ensures
        a == b,
{
    if let Ok((s, e)) = segment_window(conf.matches@[i]) {
        let args = (&conf.video_name, s as usize, e as usize, (e - s) as usize);
        let decode_err = |x: MetaError|
            call_ensures(decode, args, Err::<Vec<Result<HudCrops, MetaError>>, MetaError>(x));
        let frame_err = |x: MetaError|
            exists|items: Vec<Result<HudCrops, MetaError>>|
                #[trigger] call_ensures(decode, args, Ok::<Vec<Result<HudCrops, MetaError>>, MetaError>(items))
                    && segment_frames(items@, templates, (e - s) as nat) == Err::<
                    Seq<FrameView>,
                    MetaError,
                >(x);
        assert(decode_err(a) || frame_err(a));
        assert(decode_err(b) || frame_err(b));
        let pick = |x: MetaError|
            choose|items: Vec<Result<HudCrops, MetaError>>|
                #[trigger] call_ensures(decode, args, Ok::<Vec<Result<HudCrops, MetaError>>, MetaError>(items))
                    && segment_frames(items@, templates, (e - s) as nat) == Err::<
                    Seq<FrameView>,
                    MetaError,
                >(x);
        if frame_err(a) {
            assert(call_ensures(decode, args, Ok::<Vec<Result<HudCrops, MetaError>>, MetaError>(pick(a))));
        }
        if frame_err(b) {
            assert(call_ensures(decode, args, Ok::<Vec<Result<HudCrops, MetaError>>, MetaError>(pick(b))));
        }
        if decode_err(a) && frame_err(b) {
            assert(false);
        }
        if frame_err(a) && decode_err(b) {
            assert(false);
        }
        if frame_err(a) && frame_err(b) {
            assert(pick(a) == pick(b));
        }
    }
}

/// With a decoder that gives one result for each window, the contract fixes
/// the extraction's outcome: two runs on the same configuration, templates
/// and decoder return the same entries or the same error. So
/// `parse_segments` gives what `parse_segments_with_progress` gives, whatever
/// progress callback the latter is passed.
#[verifier::spinoff_prover]
pub proof fn lemma_extraction_determined<D>(
    conf: Config,
    decode: D,
    templates: GlyphTemplates,
    r1: Result<Vec<EntryData>, MetaError>,
    r2: Result<Vec<EntryData>, MetaError>,
) where
    D: Fn(&String, usize, usize, usize) -> DecodedFrames,

    requires
        deterministic_decoder(decode),
        extraction_result(conf, decode, templates, r1),
        extraction_result(conf, decode, templates, r2),
    ensures
        extraction_view(r1) == extraction_view(r2),
{
    match (r1, r2) {
        (Ok(x), Ok(y)) => {
            assert forall|i: int| 0 <= i < x@.len() implies entries_view(x@)[i] == entries_view(
                y@,
            )[i] by {
                lemma_entry_determined(conf, decode, templates, i, x@[i], y@[i]);
            }
            assert(entries_view(x@) =~= entries_view(y@));
        },
        (Ok(x), Err(e)) => {
            let i = choose|i: int| fails_at(conf, decode, templates, i, e);
            lemma_entry_decodes(conf, decode, templates, i, x@[i]);
            lemma_decodes_excludes_failure(conf, decode, templates, i, e);
        },
        (Err(e), Ok(y)) => {
            let i = choose|i: int| fails_at(conf, decode, templates, i, e);
            lemma_entry_decodes(conf, decode, templates, i, y@[i]);
            lemma_decodes_excludes_failure(conf, decode, templates, i, e);
        },
        (Err(a), Err(b)) => {
            let i = choose|i: int| fails_at(conf, decode, templates, i, a);
            let j = choose|j: int| fails_at(conf, decode, templates, j, b);
            if i < j {
                assert(segment_decodes(conf, decode, templates, i));
                lemma_decodes_excludes_failure(conf, decode, templates, i, a);
            } else if j < i {
                assert(segment_decodes(conf, decode, templates, j));
                lemma_decodes_excludes_failure(conf, decode, templates, j, b);
            } else {
                lemma_failure_determined(conf, decode, templates, i, a, b);
            }
        },
    }
}

/// Extracts the readings of every segment of the configuration, in order:
/// its window is read from its timestamps, `decode` yields the window's
/// decoded frames, of which the first `end - start` are taken. Each frame
/// taken either failed to decode, which ends the run, or has its HUD crops
/// recognized after `on_frame` is told the segment index; the readings of
/// the frames with a recognized timestamp are cleaned for consistency. The
/// first failure ends the run.
#[verifier::spinoff_prover]
#[verifier::rlimit(60)]
pub fn parse_segments_with_progress<'a, D, F>(
    conf: &'a Config,
    templates: &GlyphTemplates,
    decode: D,
    on_frame: F,
) -> (r: Result<Vec<EntryData<'a>>, MetaError>) where
    D: Fn(&String, usize, usize, usize) -> DecodedFrames,
    F: Fn(usize),

    requires
        segments_panic_free(*conf),
        templates.ready(),
        forall|v: &String, a: usize, b: usize, n: usize| call_requires(decode, (v, a, b, n)),
        forall|v: &String, a: usize, b: usize, n: usize, res: DecodedFrames|
            #[trigger] call_ensures(decode, (v, a, b, n), res) ==> decoded_fit(res),
        forall|k: usize| call_requires(on_frame, (k,)),
    ensures
        extraction_result(*conf, decode, *templates, r),
        ((forall|i: int|
            0 <= i < conf.matches@.len() ==> segment_window(#[trigger] conf.matches@[i]) is Ok)
            && (forall|v: &String, a: usize, b: usize, n: usize, res: DecodedFrames|
            #[trigger] call_ensures(decode, (v, a, b, n), res) ==> decoded_cleanly(res))) ==> r is Ok,
{
    let mut output: Vec<EntryData<'a>> = Vec::new();
    let mut idx: usize = 0;
    while idx < conf.matches.len()
        invariant
            segments_panic_free(*conf),
            templates.ready(),
            forall|v: &String, a: usize, b: usize, n: usize| call_requires(decode, (v, a, b, n)),
            forall|v: &String, a: usize, b: usize, n: usize, res: DecodedFrames|
                #[trigger] call_ensures(decode, (v, a, b, n), res) ==> decoded_fit(res),
            forall|k: usize| call_requires(on_frame, (k,)),
            idx <= conf.matches@.len(),
            output@.len() == idx,
            forall|j: int| 0 <= j < idx ==> segment_window(#[trigger] conf.matches@[j]) is Ok,
            forall|j: int| 0 <= j < idx ==> #[trigger] segment_decodes(*conf, decode, *templates, j),
            forall|j: int| 0 <= j < idx ==> entry_for(*conf, decode, *templates, j, #[trigger] output@[j]),
        decreases conf.matches@.len() - idx,
    {
        let entry = match segment_readings(conf, templates, idx, &decode, &on_frame) {
            Ok(e) => e,
            Err(e) => {
                assert(fails_at(*conf, decode, *templates, idx as int, e));
                return Err(e);
            },
        };
        output.push(entry);
        idx = idx + 1;
    }
    Ok(output)
}

/// The readings of segment `idx`, given that every earlier segment has a
/// valid window.
#[verifier::spinoff_prover]
#[verifier::rlimit(60)]
fn segment_readings<'a, D, F>(
    conf: &'a Config,
    templates: &GlyphTemplates,
    idx: usize,
    decode: &D,
    on_frame: &F,
) -> (r: Result<EntryData<'a>, MetaError>) where
    D: Fn(&String, usize, usize, usize) -> DecodedFrames,
    F: Fn(usize),

    requires
        segments_panic_free(*conf),
        templates.ready(),
        idx < conf.matches@.len(),
        forall|j: int| 0 <= j < idx ==> segment_window(#[trigger] conf.matches@[j]) is Ok,
        forall|v: &String, a: usize, b: usize, n: usize| call_requires(*decode, (v, a, b, n)),
        forall|v: &String, a: usize, b: usize, n: usize, res: DecodedFrames|
            #[trigger] call_ensures(*decode, (v, a, b, n), res) ==> decoded_fit(res),
        forall|k: usize| call_requires(*on_frame, (k,)),
    ensures
        r matches Ok(entry) ==> segment_window(conf.matches@[idx as int]) is Ok && segment_decodes(
            *conf,
            *decode,
            *templates,
            idx as int,
        ) && entry_for(*conf, *decode, *templates, idx as int, entry),
        r matches Err(e) ==> fails_within(*conf, *decode, *templates, idx as int, e),
        (segment_window(conf.matches@[idx as int]) is Ok && (forall|
            v: &String,
            a: usize,
            b: usize,
            n: usize,
            res: DecodedFrames,
        | #[trigger] call_ensures(*decode, (v, a, b, n), res) ==> decoded_cleanly(res))) ==> r is Ok,
{
    let segment = &conf.matches[idx];
    let ghost i = idx as int;
    assert(!segment_panics(conf.matches@[i]));
    let start_s = match parse_timestamp(segment.start.as_str()) {
        Ok(v) => v,
        Err(e) => return Err(e),
    };
    let end_s = match parse_timestamp(segment.end.as_str()) {
        Ok(v) => v,
        Err(e) => return Err(e),
    };
    let seg_vec_len = end_s - start_s;
    let ghost args = (&conf.video_name, start_s, end_s, seg_vec_len);
    let tick = || requires call_requires(on_frame, (idx,)) { on_frame(idx) };
    let mut seg_vec: Vec<FrameData> = Vec::new();
    match parse_segment(
        &mut seg_vec,
        seg_vec_len,
        start_s,
        end_s,
        &conf.video_name,
        templates,
        decode,
        &tick,
    ) {
        Ok(()) => {},
        Err(e) => return Err(e),
    }
    let ghost it = choose|items: Vec<Result<HudCrops, MetaError>>|
        #[trigger] call_ensures(*decode, args, Ok::<Vec<Result<HudCrops, MetaError>>, MetaError>(items))
            && (segment_frames(items@, *templates, seg_vec_len as nat) matches Ok(rs) && frames_view(
            seg_vec@,
        ) == Seq::<FrameView>::empty() + rs);
    proof {
        assert(call_ensures(*decode, args, Ok::<Vec<Result<HudCrops, MetaError>>, MetaError>(it)));
        let rs = segment_frames(it@, *templates, seg_vec_len as nat)->Ok_0;
        assert(Seq::<FrameView>::empty() + rs =~= rs);
    }
    let ghost before = seg_vec@;
    match nullify_inconsistent(&mut seg_vec) {
        Ok(()) => {},
        Err(e) => return Err(e),
    }
    proof {
        lemma_cleaned_frames_well_formed(before, seg_vec@);
    }
    let entry = EntryData { segment, ocr: seg_vec };
    assert(entry_for(*conf, *decode, *templates, i, entry));
    Ok(entry)
}

/// Cleaning keeps the readings well formed.
proof fn lemma_cleaned_frames_well_formed(before: Seq<FrameData>, after: Seq<FrameData>)
    requires
        forall|k: int| 0 <= k < before.len() ==> well_formed_reading(#[trigger] before[k]@),
        frames_view(after) == nullify_view(frames_view(before)),
    ensures
        after.len() == before.len(),
        forall|k: int| 0 <= k < after.len() ==> well_formed_reading(#[trigger] after[k]@),
{
    let r = frames_view(before);
    lemma_nullify_laws(r);
    assert(frames_view(after).len() == after.len());
    assert forall|k: int| 0 <= k < after.len() implies well_formed_reading(#[trigger] after[k]@) by {
        assert(frames_view(after)[k] == after[k]@);
        assert(r[k] == before[k]@);
        assert(nullify_view(r)[k].0 == r[k].0);
    }
}

/// The reading recognized in a frame's HUD crops.
fn read_crops(crops: &HudCrops, templates: &GlyphTemplates) -> (r: Option<FrameData>)
    requires
        crops.fits(),
        templates.ready(),
    ensures
        opt_frame_view(r) == crops_reading(*crops, *templates),
        r matches Some(f) ==> well_formed_reading(f@),
{
    proof {
        reveal(crops_reading);
        lemma_frame_reading_well_formed(
            crops.timestamp@,
            crops.player1supply@,
            crops.player2supply@,
            *templates,
        );
    }
    extract_frame_data(&crops.timestamp, &crops.player1supply, &crops.player2supply, templates)
}

/// The readings of one segment, appended to `seg_vec`: `decode` yields the
/// decoded frames of the window from `start_s` to `end_s`, of which the first
/// `seg_vec_len` are taken. A frame that failed to decode ends the segment
/// with its error, the readings of the frames before it staying appended; for
/// every other frame `on_frame` is called, then its HUD crops are
/// recognized, and its reading is appended when it has a timestamp.
#[verifier::spinoff_prover]
#[verifier::rlimit(80)]
pub fn parse_segment<D, F>(
    seg_vec: &mut Vec<FrameData>,
    seg_vec_len: usize,
    start_s: usize,
    end_s: usize,
    video_name: &String,
    templates: &GlyphTemplates,
    decode: &D,
    on_frame: &F,
) -> (r: Result<(), MetaError>) where
    D: Fn(&String, usize, usize, usize) -> DecodedFrames,
    F: Fn(),

    requires
        templates.ready(),
        call_requires(*decode, (video_name, start_s, end_s, seg_vec_len)),
        forall|res: DecodedFrames|
            #[trigger] call_ensures(*decode, (video_name, start_s, end_s, seg_vec_len), res)
                ==> decoded_fit(res),
        call_requires(*on_frame, ()),
    ensures
        r is Ok ==> exists|items: Vec<Result<HudCrops, MetaError>>|
            #[trigger] call_ensures(
                *decode,
                (video_name, start_s, end_s, seg_vec_len),
                Ok::<Vec<Result<HudCrops, MetaError>>, MetaError>(items),
            ) && (segment_frames(items@, *templates, seg_vec_len as nat) matches Ok(rs)
                && frames_view(final(seg_vec)@) == frames_view(old(seg_vec)@) + rs),
        r matches Err(e) ==> (call_ensures(
            *decode,
            (video_name, start_s, end_s, seg_vec_len),
            Err::<Vec<Result<HudCrops, MetaError>>, MetaError>(e),
        ) && final(seg_vec)@ == old(seg_vec)@) || exists|items: Vec<Result<HudCrops, MetaError>>|
            #[trigger] call_ensures(
                *decode,
                (video_name, start_s, end_s, seg_vec_len),
                Ok::<Vec<Result<HudCrops, MetaError>>, MetaError>(items),
            ) && segment_frames(items@, *templates, seg_vec_len as nat) == Err::<
                Seq<FrameView>,
                MetaError,
            >(e) && exists|k: int|
                0 <= k < items@.len() && k < seg_vec_len && #[trigger] items@[k] == Err::<
                    HudCrops,
                    MetaError,
                >(e) && (readings_upto(items@, *templates, k) matches Ok(rs) && frames_view(
                    final(seg_vec)@,
                ) == frames_view(old(seg_vec)@) + rs),
        final(seg_vec)@.len() <= old(seg_vec)@.len() + seg_vec_len,
        forall|q: int|
            old(seg_vec)@.len() <= q < final(seg_vec)@.len() ==> well_formed_reading(
                #[trigger] final(seg_vec)@[q]@,
            ),
        (forall|res: DecodedFrames|
            #[trigger] call_ensures(*decode, (video_name, start_s, end_s, seg_vec_len), res)
                ==> decoded_cleanly(res)) ==> r is Ok,
{
    let ghost start = frames_view(seg_vec@);
    let ghost old_len = seg_vec@.len();
    let decoded = match decode(video_name, start_s, end_s, seg_vec_len) {
        Ok(d) => d,
        Err(e) => return Err(e),
    };
    let ghost dvec = decoded;
    let ghost dv = decoded@;
    assert(decoded_fit(Ok::<Vec<Result<HudCrops, MetaError>>, MetaError>(dvec)));
    let mut rest = decoded;
    let n = if rest.len() < seg_vec_len {
        rest.len()
    } else {
        seg_vec_len
    };
    let mut k: usize = 0;
    assert(start + Seq::<FrameView>::empty() =~= start);
    while k < n
        invariant
            templates.ready(),
            forall|q: int| 0 <= q < dv.len() && dv[q] is Ok ==> (#[trigger] dv[q])->Ok_0.fits(),
            call_requires(*on_frame, ()),
            call_ensures(
                *decode,
                (video_name, start_s, end_s, seg_vec_len),
                Ok::<Vec<Result<HudCrops, MetaError>>, MetaError>(dvec),
            ),
            dv == dvec@,
            start == frames_view(old(seg_vec)@),
            old_len == old(seg_vec)@.len(),
            n <= dv.len(),
            n <= seg_vec_len,
            n == dv.len() || n == seg_vec_len,
            k <= n,
            rest@ == dv.skip(k as int),
            readings_upto(dv, *templates, k as int) matches Ok(rs) && frames_view(seg_vec@)
                == start + rs,
            old_len <= seg_vec@.len() <= old_len + k,
            forall|q: int|
                old_len <= q < seg_vec@.len() ==> well_formed_reading(#[trigger] seg_vec@[q]@),
        decreases n - k,
    {
        let item = rest.remove(0);
        proof {
            assert(dv.skip(k as int)[0] == item);
            assert(rest@ =~= dv.skip(k + 1));
            assert(dv[k as int] == item);
        }
        match item {
            Err(e) => {
                proof {
                    assert(readings_upto(dv, *templates, k + 1) == Err::<Seq<FrameView>, MetaError>(e));
                    lemma_readings_stuck(dv, *templates, k + 1, n as int);
                    assert(segment_frames(dv, *templates, seg_vec_len as nat) == readings_upto(
                        dv,
                        *templates,
                        n as int,
                    ));
                    assert(dv[k as int] == Err::<HudCrops, MetaError>(e));
                    assert(call_ensures(
                        *decode,
                        (video_name, start_s, end_s, seg_vec_len),
                        Ok::<Vec<Result<HudCrops, MetaError>>, MetaError>(dvec),
                    ));
                    if forall|res: DecodedFrames|
                        #[trigger] call_ensures(*decode, (video_name, start_s, end_s, seg_vec_len), res)
                            ==> decoded_cleanly(res) {
                        assert(decoded_cleanly(Ok::<Vec<Result<HudCrops, MetaError>>, MetaError>(dvec)));
                        assert(dv[k as int] is Ok);
                    }
                }
                return Err(e);
            },
            Ok(crops) => {
                on_frame();
                let reading = read_crops(&crops, templates);
                let ghost rs = readings_upto(dv, *templates, k as int)->Ok_0;
                match reading {
                    Some(f) => {
                        let ghost fv = f@;
                        let ghost before = seg_vec@;
                        seg_vec.push(f);
                        assert(frames_view(seg_vec@) =~= frames_view(before).push(fv));
                        assert(start + rs.push(fv) =~= (start + rs).push(fv));
                        assert(seg_vec@[seg_vec@.len() - 1]@ == fv);
                        assert forall|q: int|
                            old_len <= q < seg_vec@.len() implies well_formed_reading(
                            #[trigger] seg_vec@[q]@,
                        ) by {
                            if q < before.len() {
                                assert(seg_vec@[q] == before[q]);
                            }
                        }
                    },
                    None => {},
                }
            },
        }
        k = k + 1;
    }
    assert(call_ensures(
        *decode,
        (video_name, start_s, end_s, seg_vec_len),
        Ok::<Vec<Result<HudCrops, MetaError>>, MetaError>(dvec),
    ));
    assert(segment_frames(dv, *templates, seg_vec_len as nat) == readings_upto(dv, *templates, n as int));
    Ok(())
}

/// Extracts the readings of every segment of the configuration, without
/// progress reporting.
pub fn parse_segments<'a, D>(conf: &'a Config, templates: &GlyphTemplates, decode: D) -> (r: Result<
    Vec<EntryData<'a>>,
    MetaError,
>) where
    D: Fn(&String, usize, usize, usize) -> DecodedFrames,

    requires
        segments_panic_free(*conf),
        templates.ready(),
        forall|v: &String, a: usize, b: usize, n: usize| call_requires(decode, (v, a, b, n)),
        forall|v: &String, a: usize, b: usize, n: usize, res: DecodedFrames|
            #[trigger] call_ensures(decode, (v, a, b, n), res) ==> decoded_fit(res),
    ensures
        extraction_result(*conf, decode, *templates, r),
        ((forall|i: int|
            0 <= i < conf.matches@.len() ==> segment_window(#[trigger] conf.matches@[i]) is Ok)
            && (forall|v: &String, a: usize, b: usize, n: usize, res: DecodedFrames|
            #[trigger] call_ensures(decode, (v, a, b, n), res) ==> decoded_cleanly(res))) ==> r is Ok,
{
    parse_segments_with_progress(conf, templates, decode, |_segment_idx: usize| {})
}

/// The frames the segments span, read left to right: each segment adds its
/// end minus its start (nothing when the end comes first). `Err` is the
/// failure of the first timestamp that does not parse, `Ok(None)` means a
/// timestamp's seconds exceed `usize` before any such failure.
pub open spec fn span_total(segs: Seq<ConfigMatchSegment>) -> Result<Option<nat>, MetaError>
    decreases segs.len(),
{
    if segs.len() == 0 {
        Ok(Some(0))
    } else {
        match span_total(segs.drop_last()) {
            Ok(Some(t)) => {
                let seg = segs.last();
                if timestamp_overflows(seg.start@) {
                    Ok(None)
                } else {
                    match timestamp_value(seg.start@) {
                        Err(e) => Err(e),
                        Ok(s) => if timestamp_overflows(seg.end@) {
                            Ok(None)
                        } else {
                            match timestamp_value(seg.end@) {
                                Err(e) => Err(e),
                                Ok(e) => Ok(Some(t + if e >= s { (e - s) as nat } else { 0nat })),
                            }
                        },
                    }
                }
            },
            other => other,
        }
    }
}

/// The number of frames a run will decode: the spans of all segments summed,
/// as `span_total` reads them; `Ok(None)` when a timestamp or the sum does not
/// fit in `usize`.
pub fn total_frames(conf: &Config) -> (r: Result<Option<usize>, MetaError>)
    ensures
        r == match span_total(conf.matches@) {
            Ok(Some(t)) => if t <= usize::MAX {
                Ok::<Option<usize>, MetaError>(Some(t as usize))
            } else {
                Ok(None)
            },
            Ok(None) => Ok(None),
            Err(e) => Err(e),
        },
{
    let mut total: usize = 0;
    let mut fits = true;
    let mut i: usize = 0;
    while i < conf.matches.len()
        invariant
            i <= conf.matches@.len(),
            span_total(conf.matches@.take(i as int)) matches Ok(Some(t)) && (fits ==> t
                == total as nat) && (!fits ==> t > usize::MAX),
        decreases conf.matches@.len() - i,
    {
        let seg = &conf.matches[i];
        proof {
            assert(conf.matches@.take(i + 1).drop_last() =~= conf.matches@.take(i as int));
            assert(conf.matches@.take(i + 1).last() == *seg);
        }
        if !timestamp_fits(seg.start.as_str()) {
            proof {
                lemma_span_total_stuck(conf.matches@, i + 1);
            }
            return Ok(None);
        }
        let start_s = match parse_timestamp(seg.start.as_str()) {
            Ok(v) => v,
            Err(e) => {
                proof {
                    lemma_span_total_stuck(conf.matches@, i + 1);
                }
                return Err(e);
            },
        };
        if !timestamp_fits(seg.end.as_str()) {
            proof {
                lemma_span_total_stuck(conf.matches@, i + 1);
            }
            return Ok(None);
        }
        let end_s = match parse_timestamp(seg.end.as_str()) {
            Ok(v) => v,
            Err(e) => {
                proof {
                    lemma_span_total_stuck(conf.matches@, i + 1);
                }
                return Err(e);
            },
        };
        let span = end_s.saturating_sub(start_s);
        if fits {
            match total.checked_add(span) {
                Some(t) => total = t,
                None => fits = false,
            }
        }
        i = i + 1;
    }
    assert(conf.matches@.take(conf.matches@.len() as int) =~= conf.matches@);
    if fits {
        Ok(Some(total))
    } else {
        Ok(None)
    }
}

/// Once the running total has stopped at an error or an overflow, it stays
/// there.
proof fn lemma_span_total_stuck(segs: Seq<ConfigMatchSegment>, k: int)
    requires
        0 <= k <= segs.len(),
        !(span_total(segs.take(k)) is Ok && span_total(segs.take(k))->Ok_0 is Some),
    ensures
        span_total(segs) == span_total(segs.take(k)),
    decreases segs.len() - k,
{
    if k < segs.len() {
        assert(segs.take(k + 1).drop_last() =~= segs.take(k));
        lemma_span_total_stuck(segs, k + 1);
    } else {
        assert(segs.take(k) =~= segs);
    }
}

/// The reading of a frame from the texts of its three HUD regions: none when
/// the timestamp is empty; an empty supply text reads as no supply.
pub open spec fn frame_from_texts(ts: Seq<char>, p1: Seq<char>, p2: Seq<char>) -> Option<FrameView> {
    if ts.len() == 0 {
        None
    } else {
        Some(
            (
                ts,
                if p1.len() == 0 {
                    None
                } else {
                    Some(p1)
                },
                if p2.len() == 0 {
                    None
                } else {
                    Some(p2)
                },
            ),
        )
    }
}

/// The view of an optional frame reading.
pub open spec fn opt_frame_view(f: Option<FrameData>) -> Option<FrameView> {
    match f {
        Some(d) => Some(d@),
        None => None,
    }
}

/// The reading of a frame from the thresholded crops of its timestamp and
/// supply regions: the timestamp region is read as `timestamp`, the others
/// as `player1supply` and `player2supply`; the frame has no reading when no
/// timestamp is recognized.
pub fn extract_frame_data(
    timestamp_bw: &GrayPixels,
    player1_bw: &GrayPixels,
    player2_bw: &GrayPixels,
    templates: &GlyphTemplates,
) -> (r: Option<FrameData>)
    requires
        timestamp_bw.wf(),
        player1_bw.wf(),
        player2_bw.wf(),
        normalizable_width(timestamp_bw.width as int),
        normalizable_width(player1_bw.width as int),
        normalizable_width(player2_bw.width as int),
        templates.ready(),
    ensures
        opt_frame_view(r) == frame_from_texts(
            recognize_view("timestamp"@, timestamp_bw@, *templates),
            recognize_view("player1supply"@, player1_bw@, *templates),
            recognize_view("player2supply"@, player2_bw@, *templates),
        ),
{
    let rois = rois();
    let timestamp = recognize_text(rois[0].name, timestamp_bw, templates);
    if timestamp.as_str().is_empty() {
        return None;
    }
    let player1_ocr = recognize_text(rois[1].name, player1_bw, templates);
    let player2_ocr = recognize_text(rois[2].name, player2_bw, templates);
    Some(
        FrameData {
            timestamp,
            player1supply: none_if_empty(player1_ocr),
            player2supply: none_if_empty(player2_ocr),
        },
    )
}

/// Every frame reading is well formed: its timestamp is an `MM:SS` clock
/// text, and each supply is absent or a `used/cap` supply text.
pub proof fn lemma_frame_reading_well_formed(
    timestamp_bw: RasterView,
    player1_bw: RasterView,
    player2_bw: RasterView,
    templates: GlyphTemplates,
)
    ensures
        frame_from_texts(
            recognize_view("timestamp"@, timestamp_bw, templates),
            recognize_view("player1supply"@, player1_bw, templates),
            recognize_view("player2supply"@, player2_bw, templates),
        ) matches Some(f) ==> well_formed_reading(f),
{
    reveal_strlit("timestamp");
    reveal_strlit("player1supply");
    reveal_strlit("player2supply");
    assert("player1supply"@ != "timestamp"@) by {
        assert("player1supply"@.len() != "timestamp"@.len());
    }
    assert("player2supply"@ != "timestamp"@) by {
        assert("player2supply"@.len() != "timestamp"@.len());
    }
    lemma_recognized_text_well_formed("timestamp"@, timestamp_bw, templates);
    lemma_recognized_text_well_formed("player1supply"@, player1_bw, templates);
    lemma_recognized_text_well_formed("player2supply"@, player2_bw, templates);
}

/// Stores a region's text in a frame reading by the region's name:
/// `timestamp` sets the timestamp, `player1supply` and `player2supply` the
/// supplies (an empty text as no supply); other names change nothing.
pub fn record_roi_text(frame_data: &mut FrameData, roi_name: &str, text: String)
    ensures
        roi_name@ == "timestamp"@ ==> final(frame_data)@ == (text@, old(frame_data)@.1, old(
            frame_data,
        )@.2),
        roi_name@ == "player1supply"@ ==> final(frame_data)@ == (old(frame_data)@.0, if text@.len()
            == 0 {
            None
        } else {
            Some(text@)
        }, old(frame_data)@.2),
        roi_name@ == "player2supply"@ ==> final(frame_data)@ == (old(frame_data)@.0, old(
            frame_data,
        )@.1, if text@.len() == 0 {
            None
        } else {
            Some(text@)
        }),
        (roi_name@ != "timestamp"@ && roi_name@ != "player1supply"@ && roi_name@
            != "player2supply"@) ==> final(frame_data)@ == old(frame_data)@,
{
    proof {
        reveal_strlit("timestamp");
        reveal_strlit("player1supply");
        reveal_strlit("player2supply");
        assert("timestamp"@.len() != "player1supply"@.len());
        assert("timestamp"@.len() != "player2supply"@.len());
        assert("player2supply"@[6] != "player1supply"@[6]);
    }
    if str_eq(roi_name, "timestamp") {
        frame_data.timestamp = text;
    } else if str_eq(roi_name, "player1supply") {
        frame_data.player1supply = none_if_empty(text);
    } else if str_eq(roi_name, "player2supply") {
        frame_data.player2supply = none_if_empty(text);
    }
}

/// The frame reading, or none when its timestamp is empty.
pub fn keep_if_timestamped(frame_data: FrameData) -> (r: Option<FrameData>)
    ensures
        opt_frame_view(r) == (if frame_data@.0.len() == 0 {
            None
        } else {
            Some(frame_data@)
        }),
{
    if frame_data.timestamp.as_str().is_empty() {
        None
    } else {
        Some(frame_data)
    }
}

/// Whether reading the timestamp stays within `usize` (it always does when
/// the timestamp does not parse).
pub fn timestamp_fits(timestamp: &str) -> (ok: bool)
    ensures
        ok == !timestamp_overflows(timestamp@),
{
    let parts = split_str(timestamp, ':');
    if parts.len() != 3 {
        return true;
    }
    assert(parts.deep_view()[0] == parts@[0]@);
    assert(parts.deep_view()[1] == parts@[1]@);
    assert(parts.deep_view()[2] == parts@[2]@);
    let h = match parse_usize(parts[0].as_str()) {
        Some(v) => v,
        None => return true,
    };
    let m = match parse_usize(parts[1].as_str()) {
        Some(v) => v,
        None => return true,
    };
    let s = match parse_usize(parts[2].as_str()) {
        Some(v) => v,
        None => return true,
    };
    let hs = match h.checked_mul(3600) {
        Some(v) => v,
        None => return false,
    };
    let ms = match m.checked_mul(60) {
        Some(v) => v,
        None => return false,
    };
    let sum = match hs.checked_add(ms) {
        Some(v) => v,
        None => return false,
    };
    match sum.checked_add(s) {
        Some(_) => true,
        None => false,
    }
}

/// Whether the segments meet `segments_panic_free`: no segment reached
/// before the first invalid window overflows or runs backwards.
pub fn segment_windows_fit(conf: &Config) -> (ok: bool)
    ensures
        ok == segments_panic_free(*conf),
{
    let mut i: usize = 0;
    while i < conf.matches.len()
        invariant
            i <= conf.matches@.len(),
            forall|j: int| 0 <= j < i ==> segment_window(#[trigger] conf.matches@[j]) is Ok,
            forall|j: int| 0 <= j < i ==> !segment_panics(#[trigger] conf.matches@[j]),
        decreases conf.matches@.len() - i,
    {
        let seg = &conf.matches[i];
        assert(seg == conf.matches@[i as int]);
        if !timestamp_fits(seg.start.as_str()) {
            return false;
        }
        let start_s = match parse_timestamp(seg.start.as_str()) {
            Ok(v) => v,
            Err(_) => {
                proof {
                    assert forall|k: int|
                        0 <= k < conf.matches@.len() && (forall|j: int|
                            0 <= j < k ==> segment_window(
                                #[trigger] conf.matches@[j],
                            ) is Ok) implies !segment_panics(#[trigger] conf.matches@[k]) by {
                        if k > i {
                            assert(segment_window(conf.matches@[i as int]) is Ok);
                        }
                    }
                }
                return true;
            },
        };
        if !timestamp_fits(seg.end.as_str()) {
            return false;
        }
        let end_s = match parse_timestamp(seg.end.as_str()) {
            Ok(v) => v,
            Err(_) => {
                proof {
                    assert forall|k: int|
                        0 <= k < conf.matches@.len() && (forall|j: int|
                            0 <= j < k ==> segment_window(
                                #[trigger] conf.matches@[j],
                            ) is Ok) implies !segment_panics(#[trigger] conf.matches@[k]) by {
                        if k > i {
                            assert(segment_window(conf.matches@[i as int]) is Ok);
                        }
                    }
                }
                return true;
            },
        };
        if end_s < start_s {
            return false;
        }
        i = i + 1;
    }
    true
}

} // verus!
