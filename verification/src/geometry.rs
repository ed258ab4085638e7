use vstd::prelude::*;

verus! {

/// Largest coordinate magnitude the engine accepts; keeps every
/// intermediate product and sum of the layout arithmetic inside `i64`.
pub const COORD_LIMIT: i64 = 0x1000_0000_0000;

/// An axis-aligned rectangle in screen coordinates.
#[derive(Clone, Copy, PartialEq, Eq, Structural, Debug)]
pub struct Rect {
    pub x: i64,
    pub y: i64,
    pub width: i64,
    pub height: i64,
}

impl Rect {
    /// A rectangle is well formed when both extents are non-negative.
    pub open spec fn wf(self) -> bool {
        self.width >= 0 && self.height >= 0
    }

    /// Well formed and small enough for the layout arithmetic.
    pub open spec fn bounded(self) -> bool {
        &&& self.wf()
        &&& -COORD_LIMIT <= self.x <= COORD_LIMIT
        &&& -COORD_LIMIT <= self.y <= COORD_LIMIT
        &&& self.width <= COORD_LIMIT
        &&& self.height <= COORD_LIMIT
    }

    /// Whether the centre of `self` lies inside `display`
    /// (half-open on the right and bottom edges).  Doubling both sides
    /// of each comparison keeps the centre computation exact.
    pub open spec fn spec_center_within(self, display: Rect) -> bool {
        let cx2 = 2 * self.x + self.width;
        let cy2 = 2 * self.y + self.height;
        &&& cx2 >= 2 * display.x
        &&& cx2 < 2 * (display.x + display.width)
        &&& cy2 >= 2 * display.y
        &&& cy2 < 2 * (display.y + display.height)
    }

    /// A window is tiled only while its centre sits on the main display.
    pub fn center_within(self, display: Rect) -> (r: bool)
        requires
            self.bounded(),
            display.bounded(),
        ensures
            r == self.spec_center_within(display),
    {
        let cx2: i64 = 2 * self.x + self.width;
        let cy2: i64 = 2 * self.y + self.height;
        cx2 >= 2 * display.x && cx2 < 2 * (display.x + display.width) && cy2 >= 2 * display.y
            && cy2 < 2 * (display.y + display.height)
    }
}

} // verus!
