//! What the dock knows of the widgets that draw a pane: where the last
//! layout pass has put them.

use vstd::prelude::*;
use crate::geometry::{Point, Rect, Size};

verus! {

/// The content of a pane, as laid out.
#[derive(Clone, Copy, Debug, PartialEq, Eq, Structural)]
pub struct PaneWidget {
    /// The rectangle of the content in window coordinates.
    pub layout_rect: Rect,
}

impl PaneWidget {
    /// A content widget that has not been laid out yet.
    pub fn new() -> (widget: PaneWidget)
        ensures
            widget.layout_rect == (Rect { x0: 0, y0: 0, x1: 0, y1: 0 }),
    {
        PaneWidget { layout_rect: Rect::zero() }
    }
}

/// The header of a pane, as laid out: a title and, at its right end, the
/// label that closes the pane.
#[derive(Clone, Copy, Debug, PartialEq, Eq, Structural)]
pub struct PaneHeaderWidget {
    /// The rectangle of the header in window coordinates.
    pub layout_rect: Rect,
    /// The rectangle of the close label, relative to the header's origin.
    pub close_label: Rect,
}

impl PaneHeaderWidget {
    /// A header that has not been laid out yet.
    pub fn new() -> (header: PaneHeaderWidget)
        ensures
            header.layout_rect == (Rect { x0: 0, y0: 0, x1: 0, y1: 0 }),
            header.close_label == (Rect { x0: 0, y0: 0, x1: 0, y1: 0 }),
    {
        PaneHeaderWidget { layout_rect: Rect::zero(), close_label: Rect::zero() }
    }

    /// Whether a point, given relative to the header's origin, is on the close label.
    pub fn is_in_button(&self, point: Point) -> (inside: bool)
        ensures
            inside == self.close_label.holds(point),
    {
        self.close_label.contains(point)
    }

    /// Whether a position in window coordinates is on the close label.
    pub open spec fn closes_at(self, pos: Point) -> bool {
        self.close_label.holds_at(pos.x - self.layout_rect.x0, pos.y - self.layout_rect.y0)
    }

    /// Whether a position in window coordinates is on the close label.
    pub fn hits_close(&self, pos: Point) -> (inside: bool)
        ensures
            inside == self.closes_at(pos),
    {
        let x: i128 = pos.x as i128 - self.layout_rect.x0 as i128;
        let y: i128 = pos.y as i128 - self.layout_rect.y0 as i128;
        x >= self.close_label.x0 as i128 && x < self.close_label.x1 as i128 && y
            >= self.close_label.y0 as i128 && y < self.close_label.y1 as i128
    }

    /// Where the close label of a header of size `max` goes: flush with the
    /// right end and the top, at the size the label has asked for.
    pub open spec fn close_label_in(max: Size, label: Size) -> Rect {
        Rect {
            x0: (max.width - label.width) as i64,
            y0: 0,
            x1: max.width,
            y1: label.height,
        }
    }

    /// Lays the header out at the size `max`, with a close label of the size
    /// `label`. The header takes all of `max`.
    pub fn layout(&mut self, max: Size, label: Size) -> (size: Size)
        requires
            i64::MIN <= max.width - label.width <= i64::MAX,
        ensures
            size == max,
            final(self).close_label == Self::close_label_in(max, label),
            final(self).layout_rect == old(self).layout_rect,
    {
        self.close_label = Rect {
            x0: max.width - label.width,
            y0: 0,
            x1: max.width,
            y1: label.height,
        };
        max
    }
}

/// The two widgets of one pane.
#[derive(Clone, Copy, Debug, PartialEq, Eq, Structural)]
pub struct PaneFrame {
    pub content: PaneWidget,
    pub header: PaneHeaderWidget,
}

/// The smaller of two coordinates.
pub open spec fn lesser(a: i64, b: i64) -> i64 {
    if a <= b {
        a
    } else {
        b
    }
}

impl PaneFrame {
    /// The border on the left of a pane: one pixel wide, from the top of
    /// the header to the bottom of the content, just left of the lesser of
    /// the two left edges.
    pub open spec fn left_border(self, pixel: i64) -> Rect {
        let left = lesser(self.content.layout_rect.x0, self.header.layout_rect.x0);
        Rect {
            x0: (left - pixel) as i64,
            y0: self.header.layout_rect.y0,
            x1: left,
            y1: self.content.layout_rect.y1,
        }
    }

    /// The border on the right of a pane: one pixel wide, from the top of
    /// the header to the bottom of the content, from the lesser of the two
    /// right edges on.
    pub open spec fn right_border(self, pixel: i64) -> Rect {
        let right = lesser(self.content.layout_rect.x1, self.header.layout_rect.x1);
        Rect {
            x0: right,
            y0: self.header.layout_rect.y0,
            x1: (right + pixel) as i64,
            y1: self.content.layout_rect.y1,
        }
    }

    /// The two borders to draw beside a pane, the left one first.
    pub fn borders(&self, pixel: i64) -> (sides: (Rect, Rect))
        requires
            i64::MIN <= lesser(self.content.layout_rect.x0, self.header.layout_rect.x0) - pixel
                <= i64::MAX,
            i64::MIN <= lesser(self.content.layout_rect.x1, self.header.layout_rect.x1) + pixel
                <= i64::MAX,
        ensures
            sides.0 == self.left_border(pixel),
            sides.1 == self.right_border(pixel),
    {
        let left: i64 = if self.content.layout_rect.x0 <= self.header.layout_rect.x0 {
            self.content.layout_rect.x0
        } else {
            self.header.layout_rect.x0
        };
        let right: i64 = if self.content.layout_rect.x1 <= self.header.layout_rect.x1 {
            self.content.layout_rect.x1
        } else {
            self.header.layout_rect.x1
        };
        let top: i64 = self.header.layout_rect.y0;
        let bottom: i64 = self.content.layout_rect.y1;
        (
            Rect { x0: left - pixel, y0: top, x1: left, y1: bottom },
            Rect { x0: right, y0: top, x1: right + pixel, y1: bottom },
        )
    }
}

} // verus!
