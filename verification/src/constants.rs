//! The BW HUD layout: thresholding level and the HUD regions read.
use vstd::prelude::*;
use crate::models::Roi;

verus! {

/// Gray level above which an enlarged HUD crop counts as ink.
pub const THRESH: u8 = 130;

/// The HUD regions read from each frame: the game clock, then the supply
/// counters of player 1 and player 2.
pub fn rois() -> (r: [Roi; 3])
    ensures
        r[0].name@ == "timestamp"@,
        r[1].name@ == "player1supply"@,
        r[2].name@ == "player2supply"@,
        r[0].x == 124 && r[0].y == 738 && r[0].width == 73 && r[0].height == 25,
        r[1].x == 1708 && r[1].y == 16 && r[1].width == 117 && r[1].height == 29,
        r[2].x == 1708 && r[2].y == 46 && r[2].width == 117 && r[2].height == 29,
{
    [
        Roi { name: "timestamp", x: 124, y: 738, width: 73, height: 25 },
        Roi { name: "player1supply", x: 1708, y: 16, width: 117, height: 29 },
        Roi { name: "player2supply", x: 1708, y: 46, width: 117, height: 29 },
    ]
}

} // verus!
