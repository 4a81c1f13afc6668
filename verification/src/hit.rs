//! Where the pointer is: the input area of the dock and the header under a point.

use vstd::prelude::*;
use crate::dock::{PaneDockWidget, in_input_area, is_header_at, no_header_at};
use crate::geometry::{Point, Rect, Region, any_holds, lemma_holding_has_area};
use crate::widgets::PaneFrame;

verus! {

/// The rectangles a region is offered for the input area, in order: the
/// controls, then the content and the header of each pane.
pub open spec fn input_rects(persistent: Rect, frames: Seq<PaneFrame>) -> Seq<Rect>
    decreases frames.len(),
{
    if frames.len() == 0 {
        seq![persistent]
    } else {
        input_rects(persistent, frames.drop_last()).push(
            frames.last().content.layout_rect,
        ).push(frames.last().header.layout_rect)
    }
}

/// The rectangles among `rects` that have an area, in order.
pub open spec fn solid(rects: Seq<Rect>) -> Seq<Rect>
    decreases rects.len(),
{
    if rects.len() == 0 {
        rects
    } else if rects.last().has_area() {
        solid(rects.drop_last()).push(rects.last())
    } else {
        solid(rects.drop_last())
    }
}

/// What `solid` keeps of a run with one more rectangle.
pub proof fn lemma_solid_push(rects: Seq<Rect>, r: Rect)
    ensures
        solid(rects.push(r)) == (if r.has_area() {
            solid(rects).push(r)
        } else {
            solid(rects)
        }),
{
    assert(rects.push(r).drop_last() == rects);
}

/// A point lies in one of the solid rectangles exactly when it lies in one of all.
pub proof fn lemma_solid_holds(rects: Seq<Rect>, p: Point)
    ensures
        any_holds(solid(rects), p) == any_holds(rects, p),
    decreases rects.len(),
{
    if rects.len() > 0 {
        let rest = rects.drop_last();
        lemma_solid_holds(rest, p);
        if any_holds(rects, p) {
            let i = choose|i: int| 0 <= i < rects.len() && (#[trigger] rects[i]).holds(p);
            if i < rest.len() {
                assert(rest[i].holds(p));
                let k = choose|k: int| 0 <= k < solid(rest).len() && (#[trigger] solid(rest)[k]).holds(p);
                if rects.last().has_area() {
                    assert(solid(rects)[k] == solid(rest)[k]);
                }
                assert(solid(rects)[k].holds(p));
            } else {
                lemma_holding_has_area(rects.last(), p.x as int, p.y as int);
                assert(solid(rects)[solid(rest).len() as int].holds(p));
            }
        }
        if any_holds(solid(rects), p) {
            let k = choose|k: int| 0 <= k < solid(rects).len() && (#[trigger] solid(rects)[k]).holds(p);
            if k < solid(rest).len() {
                assert(solid(rest)[k] == solid(rects)[k]);
                assert(any_holds(solid(rest), p));
                let i = choose|i: int| 0 <= i < rest.len() && (#[trigger] rest[i]).holds(p);
                assert(rects[i].holds(p));
            } else {
                assert(rects[rects.len() - 1].holds(p));
            }
        }
    }
}

/// A point lies in one of the offered rectangles exactly when it is on the
/// controls, on a pane or on a header.
pub proof fn lemma_input_rects_hold(persistent: Rect, frames: Seq<PaneFrame>, p: Point)
    ensures
        any_holds(input_rects(persistent, frames), p) == in_input_area(persistent, frames, p),
    decreases frames.len(),
{
    let all = input_rects(persistent, frames);
    if frames.len() == 0 {
        if persistent.holds(p) {
            assert(all[0].holds(p));
        }
    } else {
        let rest = frames.drop_last();
        let before = input_rects(persistent, rest);
        lemma_input_rects_hold(persistent, rest, p);
        let last = frames.last();
        if any_holds(all, p) {
            let i = choose|i: int| 0 <= i < all.len() && (#[trigger] all[i]).holds(p);
            if i < before.len() {
                assert(before[i].holds(p));
                if !persistent.holds(p) {
                    let k = choose|k: int|
                        0 <= k < rest.len() && ((#[trigger] rest[k]).content.layout_rect.holds(p)
                            || rest[k].header.layout_rect.holds(p));
                    assert(frames[k] == rest[k]);
                }
            } else {
                assert(frames[frames.len() - 1] == last);
            }
        }
        if in_input_area(persistent, frames, p) {
            if persistent.holds(p) {
                assert(in_input_area(persistent, rest, p));
                let i = choose|i: int| 0 <= i < before.len() && (#[trigger] before[i]).holds(p);
                assert(all[i] == before[i]);
            } else {
                let k = choose|k: int|
                    0 <= k < frames.len() && ((#[trigger] frames[k]).content.layout_rect.holds(p)
                        || frames[k].header.layout_rect.holds(p));
                if k < rest.len() {
                    assert(rest[k] == frames[k]);
                    assert(in_input_area(persistent, rest, p));
                    let i = choose|i: int| 0 <= i < before.len() && (#[trigger] before[i]).holds(p);
                    assert(all[i] == before[i]);
                } else {
                    if last.content.layout_rect.holds(p) {
                        assert(all[before.len() as int].holds(p));
                    } else {
                        assert(all[before.len() as int + 1].holds(p));
                    }
                }
            }
        }
    }
}

impl PaneDockWidget {
    /// The area in which the dock takes pointer input while its background
    /// is hidden: the controls, and every pane with its header.
    pub fn get_input_area(&self) -> (area: Region)
        ensures
            area@ == solid(input_rects(self.persistent, self.frames@)),
            forall|p: Point|
                any_holds(area@, p) == in_input_area(self.persistent, self.frames@, p),
    {
        let mut area = Region::empty();
        area.add_rect(self.persistent);
        proof {
            lemma_solid_push(Seq::<Rect>::empty(), self.persistent);
            assert(Seq::<Rect>::empty().push(self.persistent) == seq![self.persistent]);
        }
        let mut i: usize = 0;
        while i < self.frames.len()
            invariant
                i <= self.frames.len(),
                area@ == solid(input_rects(self.persistent, self.frames@.take(i as int))),
            decreases self.frames.len() - i,
        {
            proof {
                let f = self.frames@;
                assert(f.take(i as int + 1).drop_last() == f.take(i as int));
                assert(f.take(i as int + 1).last() == f[i as int]);
                let before = input_rects(self.persistent, f.take(i as int));
                let mid = before.push(f[i as int].content.layout_rect);
                let all = mid.push(f[i as int].header.layout_rect);
                lemma_solid_push(before, f[i as int].content.layout_rect);
                lemma_solid_push(mid, f[i as int].header.layout_rect);
            }
            area.add_rect(self.frames[i].content.layout_rect);
            area.add_rect(self.frames[i].header.layout_rect);
            i = i + 1;
        }
        proof {
            assert(self.frames@.take(i as int) == self.frames@);
            assert forall|p: Point|
                any_holds(area@, p) == in_input_area(self.persistent, self.frames@, p) by {
                lemma_solid_holds(input_rects(self.persistent, self.frames@), p);
                lemma_input_rects_hold(self.persistent, self.frames@, p);
            }
        }
        area
    }

    /// The first pane in logical order whose header holds the point.
    pub fn find_pane(&self, point: Point) -> (found: Option<usize>)
        ensures
            (match found {
                Some(i) => is_header_at(self.frames@, point, i as int),
                None => no_header_at(self.frames@, point),
            }),
    {
        let mut i: usize = 0;
        while i < self.frames.len()
            invariant
                i <= self.frames.len(),
                forall|k: int| 0 <= k < i ==> !(#[trigger] self.frames@[k]).header.layout_rect.holds(point),
            decreases self.frames.len() - i,
        {
            if self.frames[i].header.layout_rect.contains(point) {
                return Some(i);
            }
            i = i + 1;
        }
        None
    }
}

} // verus!
