use vstd::prelude::*;

verus! {

/// An axis-aligned bounding rectangle for an accessibility element.
///
/// Coordinates are relative to the top-left corner of the associated window's
/// client area. Each field holds the IEEE 754 bit pattern of an `f64`
/// (`f64::to_bits`); the tree stores and hands back rectangles unchanged and
/// leaves the arithmetic on them to the caller.
#[derive(Clone, Copy, Debug, PartialEq, Eq, Structural)]
pub struct AccessRect {
    /// The horizontal coordinate of the rectangle's left edge.
    pub x: u64,
    /// The vertical coordinate of the rectangle's top edge.
    pub y: u64,
    /// The horizontal extent of the rectangle.
    pub width: u64,
    /// The vertical extent of the rectangle.
    pub height: u64,
}

impl AccessRect {
    /// Creates a rectangle from the bit patterns of its top-left position and dimensions.
    pub fn from_bits(x: u64, y: u64, width: u64, height: u64) -> (r: AccessRect)
        ensures
            r == (AccessRect { x, y, width, height }),
    {
        AccessRect { x, y, width, height }
    }
}

impl Default for AccessRect {
    /// The empty rectangle at the origin: every coordinate is `0.0`, whose bit pattern is zero.
    fn default() -> (r: AccessRect)
        ensures
            r == (AccessRect { x: 0, y: 0, width: 0, height: 0 }),
    {
        AccessRect { x: 0, y: 0, width: 0, height: 0 }
    }
}

} // verus!
