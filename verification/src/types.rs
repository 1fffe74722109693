use vstd::prelude::*;

verus! {

/// Coordinate type.
pub type CInt = i64;

/// Largest coordinate magnitude handled with 64-bit cross products.
pub const LO_RANGE: i64 = 0x3FFF_FFFF;

/// Largest coordinate magnitude accepted at all.
pub const HI_RANGE: i64 = 0x3FFF_FFFF_FFFF_FFFF;

/// Output index of an edge that does not (yet) contribute to any output ring.
pub const UNASSIGNED: i32 = -1;

/// Output index marking an edge that is skipped while building bounds.
pub const SKIP: i32 = -2;

/// A point with integer coordinates.
#[derive(Debug, Clone, Copy, PartialEq, Eq, Structural, Hash, PartialOrd, Ord)]
pub struct IntPoint {
    pub x: i64,
    pub y: i64,
}

impl IntPoint {
    /// The point `(x, y)`.
    pub fn new(x: i64, y: i64) -> (r: Self)
        ensures
            r.x == x,
            r.y == y,
    {
        IntPoint { x, y }
    }
}

impl Default for IntPoint {
    fn default() -> (r: Self)
        ensures
            r.x == 0,
            r.y == 0,
    {
        IntPoint { x: 0, y: 0 }
    }
}

/// An open or closed polyline.
pub type Path = Vec<IntPoint>;

/// A list of paths.
pub type Paths = Vec<Path>;

/// An axis-aligned rectangle.
#[derive(Debug, Clone, Copy, PartialEq, Eq, Structural)]
pub struct IntRect {
    pub left: i64,
    pub top: i64,
    pub right: i64,
    pub bottom: i64,
}

impl IntRect {
    /// The rectangle with the given sides.
    pub fn new(left: i64, top: i64, right: i64, bottom: i64) -> (r: Self)
        ensures
            r.left == left,
            r.top == top,
            r.right == right,
            r.bottom == bottom,
    {
        IntRect { left, top, right, bottom }
    }
}

impl Default for IntRect {
    fn default() -> (r: Self)
        ensures
            r.left == 0 && r.top == 0 && r.right == 0 && r.bottom == 0,
    {
        IntRect { left: 0, top: 0, right: 0, bottom: 0 }
    }
}

/// Whether a path was taken into a clipper.
#[derive(Debug, Clone, Copy, PartialEq, Eq, Structural)]
pub enum AddPathResult {
    Added,
    Skipped,
}

impl AddPathResult {
    /// True for `Added`.
    pub fn was_added(self) -> (r: bool)
        ensures
            r == (self == AddPathResult::Added),
    {
        match self {
            AddPathResult::Added => true,
            AddPathResult::Skipped => false,
        }
    }

}

impl From<bool> for AddPathResult {
    /// `Added` for `true`, `Skipped` for `false`.
    fn from(added: bool) -> (r: Self) {
        if added {
            AddPathResult::Added
        } else {
            AddPathResult::Skipped
        }
    }
}

impl vstd::std_specs::convert::FromSpecImpl<bool> for AddPathResult {
    open spec fn obeys_from_spec() -> bool {
        true
    }

    open spec fn from_spec(added: bool) -> Self {
        if added {
            AddPathResult::Added
        } else {
            AddPathResult::Skipped
        }
    }
}

/// Orientation of a closed path.
#[derive(Debug, Clone, Copy, PartialEq, Eq, Structural)]
pub enum Orientation {
    Clockwise,
    CounterClockwise,
}

impl Orientation {
    /// True for `CounterClockwise`.
    pub fn is_counter_clockwise(self) -> (r: bool)
        ensures
            r == (self == Orientation::CounterClockwise),
    {
        match self {
            Orientation::Clockwise => false,
            Orientation::CounterClockwise => true,
        }
    }
}

/// Where a point lies relative to a polygon.
#[derive(Debug, Clone, Copy, PartialEq, Eq, Structural)]
pub enum PointLocation {
    Outside,
    Inside,
    Boundary,
}

impl PointLocation {
    /// Decodes the integer code of `point_in_polygon`: 1 inside, -1 on the
    /// boundary, anything else outside.
    pub fn from_clipper_code(code: i32) -> (r: Self)
        ensures
            code == 1 ==> r == PointLocation::Inside,
            code == -1 ==> r == PointLocation::Boundary,
            code != 1 && code != -1 ==> r == PointLocation::Outside,
    {
        if code == 1 {
            PointLocation::Inside
        } else if code == -1 {
            PointLocation::Boundary
        } else {
            PointLocation::Outside
        }
    }
}

/// Boolean operation.
#[derive(Debug, Clone, Copy, PartialEq, Eq, Structural)]
pub enum ClipType {
    Intersection,
    Union,
    Difference,
    Xor,
}

/// Role of an input path.
#[derive(Debug, Clone, Copy, PartialEq, Eq, Structural)]
pub enum PolyType {
    Subject,
    Clip,
}

/// Rule that decides which winding numbers count as inside.
#[derive(Debug, Clone, Copy, PartialEq, Eq, Structural)]
pub enum PolyFillType {
    EvenOdd,
    NonZero,
    Positive,
    Negative,
}

/// Corner style of offsetting.
#[derive(Debug, Clone, Copy, PartialEq, Eq, Structural)]
pub enum JoinType {
    Square,
    Round,
    Miter,
}

/// End style of offsetting.
#[derive(Debug, Clone, Copy, PartialEq, Eq, Structural)]
pub enum EndType {
    ClosedPolygon,
    ClosedLine,
    OpenButt,
    OpenSquare,
    OpenRound,
}

/// Side of an output ring an edge writes to.
#[derive(Debug, Clone, Copy, PartialEq, Eq, Structural)]
pub enum EdgeSide {
    Left,
    Right,
}

/// Horizontal direction of travel.
#[derive(Debug, Clone, Copy, PartialEq, Eq, Structural)]
pub enum Direction {
    RightToLeft,
    LeftToRight,
}

} // verus!
