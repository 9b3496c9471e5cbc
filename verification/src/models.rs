//! The data of an extraction run: configuration, per-frame HUD readings,
//! HUD regions, and gold-set labels.
use vstd::prelude::*;
use crate::pixels::GrayPixels;
use crate::templates::normalizable_width;

verus! {

/// A run configuration: the video and the match segments to extract.
pub struct Config {
    pub yt_url: String,
    pub video_name: String,
    pub date: String,
    pub org: String,
    pub org_season: u8,
    pub org_xtra: String,
    pub matches: Vec<ConfigMatchSegment>,
}

/// One match of the video, between timestamps `start` and `end`
/// (`HH:MM:SS`).
pub struct ConfigMatchSegment {
    pub player1: String,
    pub race1: String,
    pub player2: String,
    pub race2: String,
    pub winner: String,
    pub start: String,
    pub end: String,
}

/// The readings extracted for one match segment.
pub struct EntryData<'a> {
    pub segment: &'a ConfigMatchSegment,
    pub ocr: Vec<FrameData>,
}

/// The HUD readings of one frame.
#[derive(Debug)]
pub struct FrameData {
    pub timestamp: String,
    pub player1supply: Option<String>,
    pub player2supply: Option<String>,
}

/// The content of a frame reading: timestamp, player 1 supply, player 2
/// supply.
pub type FrameView = (Seq<char>, Option<Seq<char>>, Option<Seq<char>>);

/// The characters of an optional string.
pub open spec fn opt_chars(o: Option<String>) -> Option<Seq<char>> {
    match o {
        Some(s) => Some(s@),
        None => None,
    }
}

impl View for FrameData {
    type V = FrameView;

    open spec fn view(&self) -> FrameView {
        (self.timestamp@, opt_chars(self.player1supply), opt_chars(self.player2supply))
    }
}

/// The contents of a sequence of frame readings.
pub open spec fn frames_view(s: Seq<FrameData>) -> Seq<FrameView> {
    s.map_values(|f: FrameData| f@)
}

/// The two supply readings of a frame.
pub struct SupplyData {
    pub player1supply: Option<String>,
    pub player2supply: Option<String>,
}

/// The thresholded crops of a frame's three HUD regions.
pub struct HudCrops {
    pub timestamp: GrayPixels,
    pub player1supply: GrayPixels,
    pub player2supply: GrayPixels,
}

impl HudCrops {
    /// Each crop is a well-formed raster that glyph normalization can resize.
    pub open spec fn fits(&self) -> bool {
        &&& self.timestamp.wf() && normalizable_width(self.timestamp.width as int)
        &&& self.player1supply.wf() && normalizable_width(self.player1supply.width as int)
        &&& self.player2supply.wf() && normalizable_width(self.player2supply.width as int)
    }
}

/// What decoding a segment's window yields: the decoder's own failure, or
/// one item per decoded frame, each the frame's HUD crops or the error that
/// decoding it gave.
pub type DecodedFrames = Result<Vec<Result<HudCrops, crate::MetaError>>, crate::MetaError>;

/// A rectangular HUD region of a video frame, by name.
#[derive(Clone, Copy, Debug)]
pub struct Roi {
    pub name: &'static str,
    pub x: u32,
    pub y: u32,
    pub width: u32,
    pub height: u32,
}

/// A labeled frame of the gold set: the video, the frame's time in it, and
/// the expected readings.
pub struct GoldSetEntry {
    pub video: String,
    pub frame_time: String,
    pub timestamp: String,
    pub player1supply: Option<String>,
    pub player2supply: Option<String>,
}

} // verus!
