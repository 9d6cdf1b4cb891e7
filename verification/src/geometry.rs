//! Half-open rectangles of pixels.

use vstd::prelude::*;

verus! {

/// `(x, y)` lies in the rectangle that runs from `start` up to, and not
/// including, `end`.
pub open spec fn in_rect(start: (usize, usize), end: (usize, usize), x: int, y: int) -> bool {
    start.0 <= x < end.0 && start.1 <= y < end.1
}

/// The number of indices from `a` up to `b`.
pub open spec fn span(a: usize, b: usize) -> nat {
    if a < b {
        (b - a) as nat
    } else {
        0
    }
}

/// The number of pixels in the rectangle from `start` up to `end`.
pub open spec fn rect_area(start: (usize, usize), end: (usize, usize)) -> nat {
    span(start.0, end.0) * span(start.1, end.1)
}

/// An axis-aligned region: `start` is its first column and row, `end` the
/// column and row just past it.
#[derive(Clone, Copy, Debug, PartialEq, Eq)]
pub struct Rectangle {
    pub start: (usize, usize),
    pub end: (usize, usize),
}

impl Rectangle {
    /// `start` does not lie beyond `end` on either axis. A rectangle without
    /// pixels is well formed.
    pub open spec fn wf(self) -> bool {
        self.start.0 <= self.end.0 && self.start.1 <= self.end.1
    }

    /// `(x, y)` is a pixel of the rectangle.
    pub open spec fn contains(self, x: int, y: int) -> bool {
        in_rect(self.start, self.end, x, y)
    }

    /// The number of pixels.
    pub open spec fn area(self) -> nat {
        rect_area(self.start, self.end)
    }

    /// The rectangle from `start` up to `end`, where that is well formed.
    pub fn new(start: (usize, usize), end: (usize, usize)) -> (r: Option<Rectangle>)
        ensures
            r is Some <==> start.0 <= end.0 && start.1 <= end.1,
            r is Some ==> r->Some_0 == (Rectangle { start, end }) && r->Some_0.wf(),
    {
        if start.0 <= end.0 && start.1 <= end.1 {
            Some(Rectangle { start, end })
        } else {
            None
        }
    }

    /// Whether the rectangle has no pixel.
    pub fn is_empty(&self) -> (r: bool)
        ensures
            r == (self.area() == 0),
    {
        proof {
            lemma_area_zero(self.start, self.end);
        }
        self.start.0 >= self.end.0 || self.start.1 >= self.end.1
    }
}

/// A rectangle has no pixel exactly when it has no column or no row.
pub proof fn lemma_area_zero(start: (usize, usize), end: (usize, usize))
    ensures
        rect_area(start, end) == 0 <==> (start.0 >= end.0 || start.1 >= end.1),
        rect_area(start, end) == 0 <==> forall|x: int, y: int| !in_rect(start, end, x, y),
{
    let a = span(start.0, end.0);
    let b = span(start.1, end.1);
    assert(a * b == 0 <==> (a == 0 || b == 0)) by (nonlinear_arith);
    if start.0 < end.0 && start.1 < end.1 {
        assert(in_rect(start, end, start.0 as int, start.1 as int));
    }
}

} // verus!
