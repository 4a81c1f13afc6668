//! Integer points, sizes, half-open rectangles and unions of rectangles, in
//! window coordinates and layout units.

use vstd::prelude::*;

verus! {

/// A position in window coordinates.
#[derive(Clone, Copy, Debug, PartialEq, Eq, Structural)]
pub struct Point {
    pub x: i64,
    pub y: i64,
}

/// A width and a height.
#[derive(Clone, Copy, Debug, PartialEq, Eq, Structural)]
pub struct Size {
    pub width: i64,
    pub height: i64,
}

/// A rectangle: the points with `x0 <= x < x1` and `y0 <= y < y1`.
#[derive(Clone, Copy, Debug, PartialEq, Eq, Structural)]
pub struct Rect {
    pub x0: i64,
    pub y0: i64,
    pub x1: i64,
    pub y1: i64,
}

impl Rect {
    /// Whether the position `(x, y)` lies inside; the far edges are outside.
    pub open spec fn holds_at(self, x: int, y: int) -> bool {
        self.x0 <= x < self.x1 && self.y0 <= y < self.y1
    }

    /// Whether `p` lies inside; the far edges are outside.
    pub open spec fn holds(self, p: Point) -> bool {
        self.holds_at(p.x as int, p.y as int)
    }

    /// Whether the product of the signed width and height is positive.
    pub open spec fn has_area(self) -> bool {
        (self.x1 - self.x0) * (self.y1 - self.y0) > 0
    }

    /// The rectangle at the origin that holds no point.
    pub fn zero() -> (rect: Rect)
        ensures
            rect == (Rect { x0: 0, y0: 0, x1: 0, y1: 0 }),
    {
        Rect { x0: 0, y0: 0, x1: 0, y1: 0 }
    }

    /// Whether `p` lies inside; the far edges are outside.
    pub fn contains(&self, p: Point) -> (inside: bool)
        ensures
            inside == self.holds(p),
    {
        p.x >= self.x0 && p.x < self.x1 && p.y >= self.y0 && p.y < self.y1
    }

    /// Whether a region keeps this rectangle.
    pub fn is_solid(&self) -> (solid: bool)
        ensures
            solid == self.has_area(),
    {
        let w: i128 = self.x1 as i128 - self.x0 as i128;
        let h: i128 = self.y1 as i128 - self.y0 as i128;
        assert(w * h > 0 <==> (w > 0 && h > 0) || (w < 0 && h < 0)) by (nonlinear_arith);
        (w > 0 && h > 0) || (w < 0 && h < 0)
    }
}

/// A rectangle that holds a point has a positive width and height.
pub proof fn lemma_holding_has_area(r: Rect, x: int, y: int)
    requires
        r.holds_at(x, y),
    ensures
        r.has_area(),
{
    let w = r.x1 - r.x0;
    let h = r.y1 - r.y0;
    assert(w * h > 0) by (nonlinear_arith)
        requires
            w > 0,
            h > 0,
    ;
}

/// A union of rectangles. It keeps only rectangles with an area.
#[derive(Clone, Debug)]
pub struct Region {
    pub rects: Vec<Rect>,
}

impl View for Region {
    type V = Seq<Rect>;

    open spec fn view(&self) -> Seq<Rect> {
        self.rects@
    }
}

/// Whether one of the rectangles holds `p`.
pub open spec fn any_holds(rects: Seq<Rect>, p: Point) -> bool {
    exists|i: int| 0 <= i < rects.len() && (#[trigger] rects[i]).holds(p)
}

impl Region {
    /// The region without a rectangle.
    pub fn empty() -> (region: Region)
        ensures
            region@ == Seq::<Rect>::empty(),
    {
        Region { rects: Vec::new() }
    }

    /// Adds a rectangle, unless it has no area.
    pub fn add_rect(&mut self, rect: Rect)
        ensures
            final(self)@ == (if rect.has_area() {
                old(self)@.push(rect)
            } else {
                old(self)@
            }),
    {
        if rect.is_solid() {
            self.rects.push(rect);
        }
    }

    /// Whether the point lies in one of the rectangles.
    pub fn contains(&self, p: Point) -> (inside: bool)
        ensures
            inside == any_holds(self@, p),
    {
        let mut i: usize = 0;
        while i < self.rects.len()
            invariant
                i <= self.rects.len(),
                forall|k: int| 0 <= k < i ==> !(#[trigger] self.rects@[k]).holds(p),
            decreases self.rects.len() - i,
        {
            if self.rects[i].contains(p) {
                return true;
            }
            i = i + 1;
        }
        false
    }
}

} // verus!
