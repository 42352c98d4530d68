//! Integer 2D geometry: positions, axis-aligned rectangles and their
//! per-axis overlap extents.

use vstd::prelude::*;

verus! {

/// Bound on world coordinates. Every coordinate the engine handles stays
/// well inside it, and it keeps all rectangle arithmetic far from `i64`
/// overflow.
pub const COORD_BOUND: i64 = 0x10_0000_0000_0000;

/// A position or displacement in world pixels. World y grows upward.
#[derive(Clone, Copy, Debug, PartialEq, Eq, Structural)]
pub struct Vec2 {
    pub x: i64,
    pub y: i64,
}

/// An axis-aligned rectangle: origin at its bottom-left corner in world
/// pixels, width and height non-negative.
#[derive(Clone, Copy, Debug, PartialEq, Eq, Structural)]
pub struct Rect {
    pub x: i64,
    pub y: i64,
    pub w: u16,
    pub h: u16,
}

impl Rect {
    /// Both origin coordinates lie within [`COORD_BOUND`].
    pub open spec fn in_range(self) -> bool {
        &&& -COORD_BOUND <= self.x <= COORD_BOUND
        &&& -COORD_BOUND <= self.y <= COORD_BOUND
    }

    /// Horizontal overlap extent of two rectangles: the smaller right edge
    /// minus the larger left edge. Non-positive means no overlap on this
    /// axis.
    pub open spec fn overlap_x(self, other: Rect) -> int {
        vstd::math::min(self.x + self.w, other.x + other.w) - vstd::math::max(
            self.x as int,
            other.x as int,
        )
    }

    /// Vertical overlap extent, as [`Rect::overlap_x`].
    pub open spec fn overlap_y(self, other: Rect) -> int {
        vstd::math::min(self.y + self.h, other.y + other.h) - vstd::math::max(
            self.y as int,
            other.y as int,
        )
    }

    /// The rectangles overlap with positive area.
    pub open spec fn overlaps(self, other: Rect) -> bool {
        self.overlap_x(other) > 0 && self.overlap_y(other) > 0
    }

    /// Per-axis overlap extents with `other`, or `None` when the rectangles
    /// do not overlap with positive area.
    pub fn overlap(&self, other: Rect) -> (r: Option<Vec2>)
        requires
            self.in_range(),
            other.in_range(),
        ensures
            self.overlaps(other) ==> r == Some(
                Vec2 { x: self.overlap_x(other) as i64, y: self.overlap_y(other) as i64 },
            ),
            !self.overlaps(other) ==> r is None,
    {
        let self_r: i64 = self.x + self.w as i64;
        let other_r: i64 = other.x + other.w as i64;
        let right: i64 = if self_r < other_r {
            self_r
        } else {
            other_r
        };
        let left: i64 = if self.x > other.x {
            self.x
        } else {
            other.x
        };
        let self_t: i64 = self.y + self.h as i64;
        let other_t: i64 = other.y + other.h as i64;
        let top: i64 = if self_t < other_t {
            self_t
        } else {
            other_t
        };
        let bot: i64 = if self.y > other.y {
            self.y
        } else {
            other.y
        };
        if right > left && top > bot {
            Some(Vec2 { x: right - left, y: top - bot })
        } else {
            None
        }
    }
}

} // verus!
