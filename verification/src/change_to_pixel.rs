//! The frame in which a change is drawn.
use vstd::prelude::*;

verus! {

/// Maps a block height and an amount to a pixel: the picture is `height`
/// pixels high, `max_satoshi` lies on its top row and `min_satoshi` on its
/// bottom row.
#[derive(Clone, Copy, Debug, PartialEq, Eq)]
pub struct ChangeToPixel {
    height: u32,
    min_satoshi: i64,
    max_satoshi: i64,
}

impl ChangeToPixel {
    /// Height of the picture in pixels.
    pub closed spec fn height(&self) -> u32 {
        self.height
    }

    /// The amount on the bottom row, row `height - 1`.
    pub closed spec fn min_satoshi(&self) -> i64 {
        self.min_satoshi
    }

    /// The amount on the top row, row 0.
    pub closed spec fn max_satoshi(&self) -> i64 {
        self.max_satoshi
    }

    /// A frame of `height` pixels for amounts from `min_satoshi` to
    /// `max_satoshi`.
    pub fn new(height: u32, min_satoshi: i64, max_satoshi: i64) -> (r: ChangeToPixel)
        ensures
            r.height() == height,
            r.min_satoshi() == min_satoshi,
            r.max_satoshi() == max_satoshi,
    {
        ChangeToPixel { height, min_satoshi, max_satoshi }
    }
}

} // verus!
