//! Gold-set evaluation bookkeeping: per-field exact-match counts, failure
//! descriptions, and the labeled lines of a gold-set file.
use vstd::prelude::*;
use crate::models::{opt_chars, FrameData, FrameView, GoldSetEntry};
use crate::text::{
    is_white_space,
    lemma_trim_shape,
    opt_string_eq,
    push_str,
    split_on,
    split_str,
    str_eq,
    trim,
    trim_string,
};
use crate::{parse_timestamp, timestamp_overflows, timestamp_value, MetaError};

verus! {

/// Exact-match counts of one field.
#[derive(Debug)]
pub struct FieldStats {
    pub correct: usize,
    pub total: usize,
}

impl Default for FieldStats {
    fn default() -> (s: FieldStats)
        ensures
            s.correct == 0,
            s.total == 0,
    {
        FieldStats { correct: 0, total: 0 }
    }
}

impl FieldStats {
    /// Counts one comparison, and one match when `matched`.
    pub fn record(&mut self, matched: bool)
        requires
            old(self).total < usize::MAX,
            matched ==> old(self).correct < usize::MAX,
        ensures
            final(self).total == old(self).total + 1,
            final(self).correct == old(self).correct + if matched {
                1int
            } else {
                0int
            },
    {
        self.total = self.total + 1;
        if matched {
            self.correct = self.correct + 1;
        }
    }
}

/// Exact-match counts of every field and of whole frames.
#[derive(Debug)]
pub struct EvalStats {
    pub timestamp: FieldStats,
    pub player1supply: FieldStats,
    pub player2supply: FieldStats,
    pub frame_matches: usize,
    pub frame_total: usize,
}

impl Default for EvalStats {
    fn default() -> (s: EvalStats)
        ensures
            s.timestamp.correct == 0 && s.timestamp.total == 0,
            s.player1supply.correct == 0 && s.player1supply.total == 0,
            s.player2supply.correct == 0 && s.player2supply.total == 0,
            s.frame_matches == 0,
            s.frame_total == 0,
    {
        EvalStats {
            timestamp: FieldStats::default(),
            player1supply: FieldStats::default(),
            player2supply: FieldStats::default(),
            frame_matches: 0,
            frame_total: 0,
        }
    }
}

impl EvalStats {
    /// Counts one evaluated frame, and one fully matching frame when
    /// `matched`.
    pub fn record_frame(&mut self, matched: bool)
        requires
            old(self).frame_total < usize::MAX,
            matched ==> old(self).frame_matches < usize::MAX,
        ensures
            final(self).frame_total == old(self).frame_total + 1,
            final(self).frame_matches == old(self).frame_matches + if matched {
                1int
            } else {
                0int
            },
            final(self).timestamp == old(self).timestamp,
            final(self).player1supply == old(self).player1supply,
            final(self).player2supply == old(self).player2supply,
    {
        self.frame_total = self.frame_total + 1;
        if matched {
            self.frame_matches = self.frame_matches + 1;
        }
    }
}

/// The content of a gold-set label: video, frame time, and the expected
/// readings.
pub type GoldView = (Seq<char>, Seq<char>, Seq<char>, Option<Seq<char>>, Option<Seq<char>>);

/// The content of a gold-set label.
pub open spec fn gold_view(e: GoldSetEntry) -> GoldView {
    (e.video@, e.frame_time@, e.timestamp@, opt_chars(e.player1supply), opt_chars(e.player2supply))
}

/// A reading as printed in a failure: the text, or `<none>`.
pub open spec fn shown(o: Option<Seq<char>>) -> Seq<char> {
    match o {
        Some(s) => s,
        None => "<none>"@,
    }
}

/// The description of a frame whose readings differ from its label.
pub open spec fn failure_text(e: GoldView, p: FrameView) -> Seq<char> {
    e.0 + " "@ + e.1 + " :: timestamp expected="@ + e.2 + " predicted="@ + p.0
        + " | player1supply expected="@ + shown(e.3) + " predicted="@ + shown(p.1)
        + " | player2supply expected="@ + shown(e.4) + " predicted="@ + shown(p.2)
}

fn push_shown(out: &mut String, o: &Option<String>)
    ensures
        final(out)@ == old(out)@ + shown(opt_chars(*o)),
{
    match o {
        Some(s) => push_str(out, s.as_str()),
        None => push_str(out, "<none>"),
    }
}

/// Describes a frame whose readings differ from its label.
pub fn format_failure(expected: &GoldSetEntry, predicted: &FrameData) -> (s: String)
    ensures
        s@ == failure_text(gold_view(*expected), predicted@),
{
    let mut out = String::new();
    push_str(&mut out, expected.video.as_str());
    push_str(&mut out, " ");
    push_str(&mut out, expected.frame_time.as_str());
    push_str(&mut out, " :: timestamp expected=");
    push_str(&mut out, expected.timestamp.as_str());
    push_str(&mut out, " predicted=");
    push_str(&mut out, predicted.timestamp.as_str());
    push_str(&mut out, " | player1supply expected=");
    push_shown(&mut out, &expected.player1supply);
    push_str(&mut out, " predicted=");
    push_shown(&mut out, &predicted.player1supply);
    push_str(&mut out, " | player2supply expected=");
    push_shown(&mut out, &expected.player2supply);
    push_str(&mut out, " predicted=");
    push_shown(&mut out, &predicted.player2supply);
    assert(out@ =~= failure_text(gold_view(*expected), predicted@));
    out
}

/// Whether each field of the reading equals its label.
pub open spec fn field_matches(e: GoldView, p: FrameView) -> (bool, bool, bool) {
    (e.2 == p.0, e.3 == p.1, e.4 == p.2)
}

/// Every field counter that comparing a reading with label `e` raises is
/// below its limit: each total, and the correct count of each matching field.
pub open spec fn stats_room(s: EvalStats, e: GoldView, p: FrameView) -> bool {
    let m = field_matches(e, p);
    &&& s.timestamp.total < usize::MAX && (m.0 ==> s.timestamp.correct < usize::MAX)
    &&& s.player1supply.total < usize::MAX && (m.1 ==> s.player1supply.correct < usize::MAX)
    &&& s.player2supply.total < usize::MAX && (m.2 ==> s.player2supply.correct < usize::MAX)
}

/// Compares a reading with its label: records each field's outcome, and
/// describes the frame in `failures` when some field differs. Returns
/// whether all fields match.
pub fn compare_entry(
    expected: &GoldSetEntry,
    predicted: &FrameData,
    stats: &mut EvalStats,
    failures: &mut Vec<String>,
) -> (all: bool)
    requires
        stats_room(*old(stats), gold_view(*expected), predicted@),
    ensures
        all == (expected.timestamp@ == predicted.timestamp@ && opt_chars(expected.player1supply)
            == opt_chars(predicted.player1supply) && opt_chars(expected.player2supply) == opt_chars(
            predicted.player2supply)),
        ({
            let m = field_matches(gold_view(*expected), predicted@);
            &&& all == (m.0 && m.1 && m.2)
            &&& final(stats).timestamp.total == old(stats).timestamp.total + 1
            &&& final(stats).timestamp.correct == old(stats).timestamp.correct + if m.0 {
                1int
            } else {
                0int
            }
            &&& final(stats).player1supply.total == old(stats).player1supply.total + 1
            &&& final(stats).player1supply.correct == old(stats).player1supply.correct + if m.1 {
                1int
            } else {
                0int
            }
            &&& final(stats).player2supply.total == old(stats).player2supply.total + 1
            &&& final(stats).player2supply.correct == old(stats).player2supply.correct + if m.2 {
                1int
            } else {
                0int
            }
            &&& final(stats).frame_matches == old(stats).frame_matches
            &&& final(stats).frame_total == old(stats).frame_total
        }),
        all ==> final(failures)@ == old(failures)@,
        !all ==> final(failures)@.len() == old(failures)@.len() + 1 && final(failures)@.drop_last()
            == old(failures)@ && final(failures)@.last()@ == failure_text(
            gold_view(*expected),
            predicted@,
        ),
{
    let timestamp_match = str_eq(expected.timestamp.as_str(), predicted.timestamp.as_str());
    stats.timestamp.record(timestamp_match);
    let player1_match = opt_string_eq(&expected.player1supply, &predicted.player1supply);
    stats.player1supply.record(player1_match);
    let player2_match = opt_string_eq(&expected.player2supply, &predicted.player2supply);
    stats.player2supply.record(player2_match);
    if timestamp_match && player1_match && player2_match {
        return true;
    }
    let text = format_failure(expected, predicted);
    failures.push(text);
    false
}

/// The seconds of an `HH:MM:SS` frame time.
pub fn parse_frame_time(value: &str) -> (r: Result<usize, MetaError>)
    requires
        !timestamp_overflows(value@),
    ensures
        match r {
            Ok(v) => timestamp_value(value@) == Ok::<nat, MetaError>(v as nat),
            Err(e) => timestamp_value(value@) == Err::<nat, MetaError>(e),
        },
{
    parse_timestamp(value)
}

/// The labeled lines of the first `k` lines of a gold-set file: each
/// non-blank line, trimmed, with its line number (counting from 1).
pub open spec fn labeled_lines(lines: Seq<Seq<char>>, k: int) -> Seq<(nat, Seq<char>)>
    decreases k,
{
    if k <= 0 {
        Seq::empty()
    } else {
        let rest = labeled_lines(lines, k - 1);
        let t = trim(lines[k - 1]);
        if t.len() == 0 {
            rest
        } else {
            rest.push((k as nat, t))
        }
    }
}

/// The labeled lines of a gold-set file: its non-blank lines, trimmed, with
/// their line numbers.
pub open spec fn goldset_lines_view(content: Seq<char>) -> Seq<(nat, Seq<char>)> {
    let lines = split_on(content, '\n');
    labeled_lines(lines, lines.len() as int)
}

/// The labeled lines of a gold-set file, to be parsed one JSON object each.
pub fn goldset_lines(content: &str) -> (r: Vec<(usize, String)>)
    ensures
        r@.len() == goldset_lines_view(content@).len(),
        forall|i: int|
            0 <= i < r@.len() ==> (#[trigger] r@[i]).0 as nat == goldset_lines_view(content@)[i].0
                && r@[i].1@ == goldset_lines_view(content@)[i].1,
{
    let lines = split_str(content, '\n');
    let ghost lv = lines.deep_view();
    let mut out: Vec<(usize, String)> = Vec::new();
    let mut k: usize = 0;
    while k < lines.len()
        invariant
            lv == lines.deep_view(),
            lv == split_on(content@, '\n'),
            k <= lines@.len(),
            out@.len() == labeled_lines(lv, k as int).len(),
            forall|i: int|
                0 <= i < out@.len() ==> (#[trigger] out@[i]).0 as nat == labeled_lines(
                    lv,
                    k as int,
                )[i].0 && out@[i].1@ == labeled_lines(lv, k as int)[i].1,
        decreases lines@.len() - k,
    {
        assert(lv[k as int] == lines@[k as int]@);
        let t = trim_string(lines[k].as_str());
        if !t.as_str().is_empty() {
            out.push((k + 1, t));
        }
        k = k + 1;
    }
    out
}

proof fn lemma_labeled_lines(lines: Seq<Seq<char>>, k: int)
    requires
        0 <= k <= lines.len(),
    ensures
        forall|i: int|
            0 <= i < labeled_lines(lines, k).len() ==> {
                let (n, t) = #[trigger] labeled_lines(lines, k)[i];
                &&& 1 <= n <= k
                &&& t == trim(lines[n - 1])
                &&& t.len() > 0
                &&& !is_white_space(t[0])
                &&& !is_white_space(t.last())
            },
        forall|i: int, j: int|
            0 <= i < j < labeled_lines(lines, k).len() ==> (#[trigger] labeled_lines(lines, k)[i]).0
                < (#[trigger] labeled_lines(lines, k)[j]).0,
    decreases k,
{
    if k > 0 {
        lemma_labeled_lines(lines, k - 1);
        lemma_trim_shape(lines[k - 1]);
        let rest = labeled_lines(lines, k - 1);
        let cur = labeled_lines(lines, k);
        assert forall|i: int| 0 <= i < rest.len() implies #[trigger] cur[i] == rest[i] by {}
    }
}

/// Every labeled line of a gold-set file is a non-empty line with no white
/// space at either end, carrying its own line number; the numbers increase
/// from one label to the next.
pub proof fn lemma_goldset_lines(content: Seq<char>)
    ensures
        forall|i: int|
            0 <= i < goldset_lines_view(content).len() ==> {
                let (n, t) = #[trigger] goldset_lines_view(content)[i];
                &&& 1 <= n <= split_on(content, '\n').len()
                &&& t == trim(split_on(content, '\n')[n - 1])
                &&& t.len() > 0
                &&& !is_white_space(t[0])
                &&& !is_white_space(t.last())
            },
        forall|i: int, j: int|
            0 <= i < j < goldset_lines_view(content).len() ==> (#[trigger] goldset_lines_view(
                content,
            )[i]).0 < (#[trigger] goldset_lines_view(content)[j]).0,
{
    let lines = split_on(content, '\n');
    lemma_labeled_lines(lines, lines.len() as int);
}

/// A field matches exactly when the label equals the reading: a missing
/// label against a present reading, or a present label against a missing
/// reading, is a mismatch, and so is any difference in the text.
pub proof fn lemma_field_matches_exact(e: GoldView, p: FrameView)
    ensures
        field_matches(e, p).0 <==> e.2 == p.0,
        field_matches(e, p).1 <==> e.3 == p.1,
        field_matches(e, p).2 <==> e.4 == p.2,
        (e.3 is None) != (p.1 is None) ==> !field_matches(e, p).1,
        (e.4 is None) != (p.2 is None) ==> !field_matches(e, p).2,
{
}

/// Every non-blank line of a gold-set file is labeled: for each line `i`
/// (counting from 0) whose trimmed text is not empty, `(i + 1, trimmed
/// text)` is among the labeled lines, the last line included whether or not
/// a newline ends it.
pub proof fn lemma_goldset_lines_complete(content: Seq<char>)
    ensures
        forall|i: int|
            0 <= i < split_on(content, '\n').len() && trim(
                #[trigger] split_on(content, '\n')[i],
            ).len() > 0 ==> goldset_lines_view(content).contains(
                ((i + 1) as nat, trim(split_on(content, '\n')[i])),
            ),
{
    let lines = split_on(content, '\n');
    lemma_labeled_lines_complete(lines, lines.len() as int);
}

proof fn lemma_labeled_lines_complete(lines: Seq<Seq<char>>, k: int)
    requires
        0 <= k <= lines.len(),
    ensures
        forall|i: int|
            0 <= i < k && trim(#[trigger] lines[i]).len() > 0 ==> labeled_lines(lines, k).contains(
                ((i + 1) as nat, trim(lines[i])),
            ),
    decreases k,
{
    if k > 0 {
        lemma_labeled_lines_complete(lines, k - 1);
        let rest = labeled_lines(lines, k - 1);
        let cur = labeled_lines(lines, k);
        assert forall|i: int| 0 <= i < k && trim(#[trigger] lines[i]).len() > 0 implies cur.contains(
            ((i + 1) as nat, trim(lines[i])),
        ) by {
            if i < k - 1 {
                let j = choose|j: int| 0 <= j < rest.len() && rest[j] == ((i + 1) as nat, trim(lines[i]));
                assert(cur[j] == rest[j]);
            } else {
                assert(cur[cur.len() - 1] == ((i + 1) as nat, trim(lines[i])));
            }
        }
    }
}

} // verus!
