//! The live objects on the playfield: lane groups and the notes that travel
//! along them.

use crate::chart::LaserId;
use vstd::prelude::*;

verus! {

/// A colour, each component in millionths of full intensity.
#[derive(Copy, Clone, Debug, PartialEq, Eq, Structural)]
pub struct Rgb {
    pub r: u32,
    pub g: u32,
    pub b: u32,
}

/// A live lane group: `lanes` parallel lanes drawn in `color` at the vertical
/// offset `y`, in millionths of the playfield height.
#[derive(Copy, Clone, Debug, PartialEq, Eq, Structural)]
pub struct Laser {
    pub color: Rgb,
    pub lanes: u16,
    pub y: i32,
}

/// A live note, waiting to be judged.
///
/// `index` is the note's position in the chart and identifies it for as long
/// as it lives. `x` is the left edge of its lane and `width` the width of the
/// lane, both in millionths of the lane group's width; `y` is the vertical
/// offset of the lane group and `depth` the tempo position of the note.
#[derive(Copy, Clone, Debug, PartialEq, Eq, Structural)]
pub struct Note {
    pub index: usize,
    pub time: i64,
    pub laser: LaserId,
    pub x: i64,
    pub width: u32,
    pub y: i32,
    pub depth: i128,
}

impl Note {
    /// The horizontal centre of the note, where a key press is measured against.
    pub open spec fn spec_centre(&self) -> int {
        self.x + self.width / 2
    }

    /// The horizontal centre of the note, in millionths of the lane group's width.
    pub fn centre(&self) -> (c: i128)
        ensures
            c == self.spec_centre(),
    {
        self.x as i128 + (self.width / 2) as i128
    }
}

} // verus!
