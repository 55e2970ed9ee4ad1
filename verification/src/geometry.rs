//! Output primitives and the fixed-point coordinate space.
//!
//! One layout unit — the height of a task row, and one trace time unit on
//! the horizontal axis — is [`UNIT`] coordinate steps.  The vertical gap
//! between blocks stacked in a sequence is a fifth of a unit,
//! [`VERTICAL_GAP`] steps, and centering halves differences of block
//! dimensions; both are exact in this space.

use vstd::prelude::*;

verus! {

/// Coordinate steps per layout unit.
pub const UNIT: u64 = 100;

/// Vertical gap between consecutive blocks of a sequence: a fifth of a unit.
pub const VERTICAL_GAP: u64 = 20;

/// Opacity is measured in per-mille; this is full opacity.
pub const OPAQUE: u32 = 1000;

/// Least opacity of a work-tagged task rectangle.
pub const OPACITY_BASE: u32 = 400;

/// Opacity span distributed by relative speed: a task at the best observed
/// speed of its work type reaches `OPACITY_BASE + OPACITY_SPAN`.
pub const OPACITY_SPAN: u32 = 600;

/// Number of colors in the thread palette.
pub const PALETTE_SIZE: usize = 8;

/// An attachment point for connector edges, in coordinate steps.
#[derive(Clone, Copy, Debug, PartialEq, Eq, Structural)]
pub struct Point {
    /// Horizontal coordinate.
    pub x: u64,
    /// Vertical coordinate.
    pub y: u64,
}

/// A directed connector from one block's exit point to another's entry point.
pub type Edge = (Point, Point);

/// A drawable rectangle, in coordinate steps.
#[derive(Clone, Copy, Debug, PartialEq, Eq)]
pub struct Rectangle {
    /// Red, green and blue channels.
    pub color: (u8, u8, u8),
    /// Opacity in per-mille, `OPAQUE` at most.
    pub opacity: u32,
    /// Horizontal coordinate of the upper-left corner.
    pub x: u64,
    /// Vertical coordinate of the upper-left corner.
    pub y: u64,
    /// Horizontal extent.
    pub width: u64,
    /// Vertical extent.
    pub height: u64,
    /// Optional (start, end) time tag for animated display.
    pub animation: Option<(u64, u64)>,
}

impl Rectangle {
    /// Builds a rectangle from its parts.
    pub fn new(
        color: (u8, u8, u8),
        opacity: u32,
        position: (u64, u64),
        size: (u64, u64),
        animation: Option<(u64, u64)>,
    ) -> (r: Rectangle)
        ensures
            r == (Rectangle {
                color,
                opacity,
                x: position.0,
                y: position.1,
                width: size.0,
                height: size.1,
                animation,
            }),
    {
        Rectangle { color, opacity, x: position.0, y: position.1, width: size.0, height: size.1, animation }
    }
}

/// The color assigned to a worker thread: palette entry `tid % PALETTE_SIZE`.
pub open spec fn color_of(tid: int) -> (u8, u8, u8) {
    let k = tid % (PALETTE_SIZE as int);
    if k == 0 {
        (230, 25, 75)
    } else if k == 1 {
        (60, 180, 75)
    } else if k == 2 {
        (255, 225, 25)
    } else if k == 3 {
        (0, 130, 200)
    } else if k == 4 {
        (245, 130, 48)
    } else if k == 5 {
        (145, 30, 180)
    } else if k == 6 {
        (70, 240, 240)
    } else {
        (240, 50, 230)
    }
}

/// Picks the palette color of a worker thread.
pub fn thread_color(tid: usize) -> (c: (u8, u8, u8))
    ensures
        c == color_of(tid as int),
{
    let k = tid % PALETTE_SIZE;
    if k == 0 {
        (230, 25, 75)
    } else if k == 1 {
        (60, 180, 75)
    } else if k == 2 {
        (255, 225, 25)
    } else if k == 3 {
        (0, 130, 200)
    } else if k == 4 {
        (245, 130, 48)
    } else if k == 5 {
        (145, 30, 180)
    } else if k == 6 {
        (70, 240, 240)
    } else {
        (240, 50, 230)
    }
}

} // verus!
