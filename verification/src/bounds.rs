use crate::point::{zigzag, zigzag_encode, Point};
use vstd::prelude::*;

verus! {

/// Which points of the plane belong to the board.
///
/// `Rect(width, height)` is laid over the zigzag codes of the coordinates, not over
/// the coordinates themselves: it holds the points whose `x` is among the first
/// `width` of 0, -1, 1, -2, 2, ... and whose `y` is among the first `height` of
/// them. So a rectangle of odd width `2 * n + 1` reaches from `-n` to `n`, and one
/// of even width `2 * n` from `-n` to `n - 1`.
#[derive(Debug, Clone, Copy, PartialEq, Eq, Structural)]
pub enum Bounds {
    Infinite,
    Rect(u32, u32),
}

impl Bounds {
    /// Whether `p` is a point of the board.
    pub open spec fn spec_contains(self, p: Point) -> bool {
        match self {
            Bounds::Infinite => true,
            Bounds::Rect(width, height) => zigzag(p.x as int) < width && zigzag(p.y as int)
                < height,
        }
    }

    /// Whether `p` is a point of the board.
    #[verifier::when_used_as_spec(spec_contains)]
    pub fn contains(self, p: Point) -> (r: bool)
        ensures
            r == self.spec_contains(p),
    {
        match self {
            Bounds::Infinite => true,
            Bounds::Rect(x, y) => zigzag_encode(p.x) < x && zigzag_encode(p.y) < y,
        }
    }
}

impl Default for Bounds {
    /// No bounds.
    fn default() -> (r: Bounds)
        ensures
            r == Bounds::Infinite,
    {
        Bounds::Infinite
    }
}

/// In raw coordinates a rectangle is the range from `-(width / 2)` up to
/// `(width - 1) / 2` in `x`, and likewise in `y` with the height: one cell
/// further on the negative side where the side is even.
pub proof fn lemma_rect_in_coordinates(width: u32, height: u32, p: Point)
    ensures
        Bounds::Rect(width, height).spec_contains(p) <==> {
            &&& -(width as int / 2) <= p.x
            &&& p.x < (width as int + 1) / 2
            &&& -(height as int / 2) <= p.y
            &&& p.y < (height as int + 1) / 2
        },
{
}

} // verus!
