//! The dock's state machine: what a pointer event or an animation frame
//! does to the dock, and what it asks of the host.

use vstd::prelude::*;
use crate::animation::{paced, step, stepped, unsettled};
use crate::dock::{PaneDockWidget, in_input_area, is_header_at, no_header_at};
use crate::drag::{DragState, advanced, magnitude, recorded, total};
use crate::entry::{PaneEntry, Slot, slots, storable, well_formed};
use crate::geometry::Point;
use crate::solver::{
    has_room,
    lemma_needed_shift,
    lemma_reach,
    lemma_reach_within,
    lemma_same_reach,
    lemma_same_widest,
    lemma_widest,
    needed_shift,
    reach,
    refresh_all_target_positions,
    refreshed,
    resolved_target,
    resolved_target_for,
    set_target,
    shift_left_of,
    shifted_left_of,
    widest,
    closest_to_right,
    is_closest,
};

verus! {

/// What the dock asks of its host after an event.
#[derive(Clone, Copy, Debug, PartialEq, Eq)]
pub struct Effects {
    /// Lay the dock out again.
    pub relayout: bool,
    /// Schedule another animation frame.
    pub animate: bool,
    /// Move the window by this much.
    pub move_window_by: Option<Point>,
    /// Remove the identity at this logical index from the application's
    /// collection, and have the dock updated from it.
    pub close_pane: Option<usize>,
}

impl Effects {
    /// Nothing is asked.
    pub open spec fn nothing() -> Effects {
        Effects { relayout: false, animate: false, move_window_by: None, close_pane: None }
    }

    /// Nothing is asked.
    pub fn none() -> (effects: Effects)
        ensures
            effects == Self::nothing(),
    {
        Effects { relayout: false, animate: false, move_window_by: None, close_pane: None }
    }
}

/// What the host tells the dock.
#[derive(Clone, Copy, Debug, PartialEq, Eq)]
pub enum DockEvent {
    /// A button went down at `pos`; `primary` says whether the primary button is held.
    PointerDown { pos: Point, primary: bool },
    /// The pointer moved to `pos`; `primary` says whether the primary button is held.
    PointerMove { pos: Point, primary: bool },
    /// A button was released at `pos`.
    PointerUp { pos: Point },
    /// An animation frame is due, `elapsed_nanos` after the last one.
    AnimFrame { elapsed_nanos: u64 },
    /// Anything else.
    Other,
}

/// Where a dragged pane looks for its neighbour, ahead of the pointer: a
/// quarter of its width before its displayed offset while the recorded
/// movements sum to more than nothing (`toward_far`), and a quarter of its
/// width past its far side otherwise.
pub open spec fn probe_for(slot: Slot, toward_far: bool) -> int {
    if toward_far {
        slot.display - slot.width / 4
    } else {
        slot.display + (5 * slot.width) / 4
    }
}

/// The entries after pane `i` has followed the pointer to `display` and has
/// taken the target that its probe resolves to.
pub open spec fn retargeted(
    s: Seq<Slot>,
    i: int,
    display: int,
    toward_far: bool,
    spacing: int,
) -> Seq<Slot> {
    let carried = s.update(i, s[i].drawn_at(display));
    let target = resolved_target(carried, probe_for(carried[i], toward_far), i, spacing);
    carried.update(i, carried[i].at(target))
}

/// The entries after pane `i` has been dragged by `dx`: it follows the
/// pointer and takes a new target, the panes in its way make room, and one
/// repair pass runs.
pub open spec fn dragged(
    s: Seq<Slot>,
    i: int,
    dx: int,
    toward_far: bool,
    spacing: int,
) -> Seq<Slot> {
    refreshed(
        shifted_left_of(retargeted(s, i, s[i].display - dx, toward_far, spacing), i),
        spacing,
    )
}

/// Whether `drag` is a gesture that has just begun at `anchor`.
pub open spec fn begun(drag: Option<DragState>, anchor: Point, index: Option<usize>) -> bool {
    drag matches Some(d) && d.is_fresh(anchor, index)
}

/// Whether `next` is the gesture `d` after the pointer has moved by `dx` to
/// `pos`: the movement is recorded and added to the travelled distance, and
/// the anchor follows the pointer.
pub open spec fn moved_on(d: DragState, next: DragState, pos: Point, dx: int, pixel: int) -> bool {
    &&& next.pointer_anchor == pos
    &&& next.dragging_entry_index == d.dragging_entry_index
    &&& next.recent_deltas@ == recorded(
        d.recent_deltas@,
        d.recent_deltas_cursor as int,
        dx as i64,
        pixel,
    )
    &&& next.recent_deltas_cursor == advanced(d.recent_deltas_cursor as int, dx as i64, pixel)
    &&& next.accumulated_drag_distance == d.accumulated_drag_distance + magnitude(dx)
}

/// Whether `next` is a gesture that `moved_on` from `d`.
pub open spec fn follows(d: DragState, next: Option<DragState>, pos: Point, dx: int, pixel: int) -> bool {
    next matches Some(n) && moved_on(d, n, pos, dx, pixel)
}

/// What a drag of pane `i` needs of the room in the dock: the new target
/// can be stored, the panes in the way can move, and the repair pass that
/// follows has room.
pub proof fn lemma_drag_room(s: Seq<Slot>, i: int, display: int, toward_far: bool, spacing: int)
    requires
        0 <= i < s.len(),
        spacing >= 0,
        well_formed(s),
        storable(s),
        has_room(s, spacing, s.len() as int + 2),
    ensures
        ({
            let carried = s.update(i, s[i].drawn_at(display));
            let target = resolved_target(carried, probe_for(carried[i], toward_far), i, spacing);
            let placed = retargeted(s, i, display, toward_far, spacing);
            let cleared = shifted_left_of(placed, i);
            &&& i64::MIN <= target <= i64::MAX
            &&& well_formed(placed)
            &&& well_formed(cleared)
            &&& forall|k: int| 0 <= k < s.len() ==> (#[trigger] cleared[k]).target <= i64::MAX
            &&& has_room(cleared, spacing, s.len() as int)
        }),
{
    let n = s.len() as int;
    let step = widest(s) + spacing;
    let top = reach(s);
    let carried = s.update(i, s[i].drawn_at(display));
    let target = resolved_target(carried, probe_for(carried[i], toward_far), i, spacing);
    let placed = retargeted(s, i, display, toward_far, spacing);
    let cleared = shifted_left_of(placed, i);
    lemma_reach(s);
    lemma_widest(s);
    lemma_same_reach(s, carried);
    lemma_reach(carried);
    assert((n + 2) * step == n * step + 2 * step) by (nonlinear_arith);
    assert(n * step >= 0) by (nonlinear_arith)
        requires
            n >= 0,
            step >= 0,
    ;
    let r = closest_to_right(carried, probe_for(carried[i], toward_far), i);
    if r is Some {
        let j = r->0;
        assert(is_closest(carried, probe_for(carried[i], toward_far), i, j));
        assert(carried[j].far_edge() <= top);
        assert(carried[j] == s[j]);
        assert(s[j].width > 0);
        assert(s[j].storable());
    }
    assert(s[i].width <= widest(s));
    assert(s[i].width > 0);
    assert(target <= top + spacing);
    assert forall|k: int| 0 <= k < n implies (#[trigger] placed[k]).far_edge() <= top + step
        && placed[k].width == s[k].width && placed[k].height == s[k].height by {
        assert(s[k].far_edge() <= top);
        assert(s[k].width > 0);
    }
    lemma_needed_shift(placed, i, n);
    let shift = needed_shift(placed, i, n);
    assert(shift <= placed[i].width);
    assert forall|k: int| 0 <= k < n implies (#[trigger] cleared[k]).far_edge() <= top + 2 * step
        && cleared[k].width == s[k].width && cleared[k].height == s[k].height by {
        assert(placed[k].far_edge() <= top + step);
        assert(s[k].width > 0);
    }
    assert forall|k: int| 0 <= k < n implies (#[trigger] cleared[k]).target <= i64::MAX by {
        assert(cleared[k].far_edge() <= top + 2 * step);
        assert(cleared[k].width > 0) by {
            assert(s[k].width > 0);
        }
    }
    assert(well_formed(placed)) by {
        assert forall|k: int| 0 <= k < placed.len() implies (#[trigger] placed[k]).width > 0
            && placed[k].height >= 0 by {
            assert(s[k].width > 0);
        }
    }
    assert(well_formed(cleared)) by {
        assert forall|k: int| 0 <= k < cleared.len() implies (#[trigger] cleared[k]).width > 0
            && cleared[k].height >= 0 by {
            assert(s[k].width > 0);
        }
    }
    lemma_same_widest(s, cleared);
    lemma_reach_within(cleared, top + 2 * step);
}

/// A click closes: when the primary button goes down on the header of pane
/// `i` and is released on that header's close label without a movement in
/// between, the host is asked to remove pane `i`, and no entry changes.
pub proof fn lemma_click_closes(
    dock: PaneDockWidget,
    down: PaneDockWidget,
    up: PaneDockWidget,
    i: int,
    pressed_at: Point,
    released_at: Point,
    on_down: Effects,
    on_up: Effects,
)
    requires
        dock.wf(),
        in_input_area(dock.persistent, dock.frames@, pressed_at),
        is_header_at(dock.frames@, pressed_at, i),
        dock.pressed(down, pressed_at, true, on_down),
        dock.frames@[i].header.closes_at(released_at),
        down.released(up, released_at, on_up),
    ensures
        on_up.close_pane == Some(i as usize),
        up.entries == dock.entries,
        up.drag is None,
{
    assert(dock.frames@[i].header.layout_rect.holds(pressed_at));
    assert(begun(down.drag, pressed_at, Some(i as usize)));
}

/// A drag does not close: once the pane under the pointer has moved by a
/// pixel or more, the release is no click wherever it happens; the pane
/// stays, and the release settles the panes with one repair pass.
pub proof fn lemma_drag_does_not_close(
    dock: PaneDockWidget,
    during: PaneDockWidget,
    up: PaneDockWidget,
    moved_to: Point,
    released_at: Point,
    on_move: Effects,
    on_up: Effects,
)
    requires
        dock.wf(),
        dock.drag matches Some(d) && d.dragging_entry_index is Some && magnitude(
            moved_to.x - d.pointer_anchor.x,
        ) >= dock.config.pixel,
        dock.moved(during, moved_to, true, on_move),
        during.released(up, released_at, on_up),
    ensures
        on_up.close_pane is None,
        on_up.relayout,
        slots(up.entries@) == refreshed(slots(during.entries@), during.config.spacing as int),
        up.drag is None,
{
    let d = dock.drag->0;
    let dx = moved_to.x - d.pointer_anchor.x;
    assert(follows(d, during.drag, moved_to, dx, dock.config.pixel as int));
    assert(!during.is_close_click(released_at));
}

/// The gesture with its travelled distance set back to nothing.
pub open spec fn rewound(drag: Option<DragState>) -> Option<DragState> {
    match drag {
        Some(d) => Some(DragState { accumulated_drag_distance: 0, ..d }),
        None => None,
    }
}

impl PaneDockWidget {
    /// Whether `next` and `effects` are what a pointer-down at `pos` makes
    /// of this dock.
    ///
    /// Outside the input area the gesture drags the window. On a header it
    /// drags that pane, the first in logical order whose header holds the
    /// pointer, and asks for animation frames. Elsewhere inside the input
    /// area nothing begins; a gesture that is still in progress goes on
    /// with its travelled distance set back to nothing. The entries and the
    /// laid-out widgets stay as they are.
    pub open spec fn pressed(
        &self,
        next: PaneDockWidget,
        pos: Point,
        primary: bool,
        effects: Effects,
    ) -> bool {
        &&& next.config == self.config
        &&& next.entries == self.entries
        &&& next.frames == self.frames
        &&& next.persistent == self.persistent
        &&& if !primary {
            next.drag == self.drag && effects == Effects::nothing()
        } else if !in_input_area(self.persistent, self.frames@, pos) {
            begun(next.drag, pos, None) && effects == Effects::nothing()
        } else if no_header_at(self.frames@, pos) {
            next.drag == rewound(self.drag) && effects == Effects::nothing()
        } else {
            forall|i: int| #[trigger]
                is_header_at(self.frames@, pos, i) ==> begun(next.drag, pos, Some(i as usize))
                    && effects == (Effects { animate: true, ..Effects::nothing() })
        }
    }

    /// Whether `next` and `effects` are what a pointer-move to `pos` makes
    /// of this dock.
    ///
    /// Without a gesture, or without the primary button, nothing happens.
    /// While the window is dragged the host is asked to move the window by
    /// the distance from the anchor, which stays where it is. While pane `i`
    /// is dragged, its displayed offset follows the pointer, the movement is
    /// added to the travelled distance and, if larger than a pixel,
    /// recorded; the pane then takes the target that its probe resolves to,
    /// the panes in its way make room, one repair pass runs, the anchor
    /// moves to `pos`, and a layout pass is asked for.
    pub open spec fn moved(
        &self,
        next: PaneDockWidget,
        pos: Point,
        primary: bool,
        effects: Effects,
    ) -> bool {
        &&& next.config == self.config
        &&& next.frames == self.frames
        &&& next.persistent == self.persistent
        &&& match self.drag {
            Some(d) if primary => {
                let dx = pos.x - d.pointer_anchor.x;
                let dy = pos.y - d.pointer_anchor.y;
                match d.dragging_entry_index {
                    None => {
                        &&& next.entries == self.entries
                        &&& next.drag == self.drag
                        &&& effects == (Effects {
                            move_window_by: Some(Point { x: dx as i64, y: dy as i64 }),
                            ..Effects::nothing()
                        })
                    },
                    Some(i) => {
                        &&& follows(d, next.drag, pos, dx, self.config.pixel as int)
                        &&& slots(next.entries@) == dragged(
                            slots(self.entries@),
                            i as int,
                            dx,
                            total(
                                recorded(
                                    d.recent_deltas@,
                                    d.recent_deltas_cursor as int,
                                    dx as i64,
                                    self.config.pixel as int,
                                ),
                            ) > 0,
                            self.config.spacing as int,
                        )
                        &&& effects == (Effects { relayout: true, ..Effects::nothing() })
                    },
                }
            },
            _ => {
                &&& next.entries == self.entries
                &&& next.drag == self.drag
                &&& effects == Effects::nothing()
            },
        }
    }

    /// Whether `next` and `effects` are what a release at `pos` makes of
    /// this dock.
    ///
    /// The gesture ends. If a pane was dragged, the pointer has travelled
    /// less than a pixel and is on the pane's close label, the host is asked
    /// to remove the pane's identity and to lay out; the entries stay as
    /// they are until the dock is updated from the identities. After any
    /// other drag of a pane one repair pass runs and a layout pass is asked
    /// for. The end of a window drag changes nothing else.
    pub open spec fn released(&self, next: PaneDockWidget, pos: Point, effects: Effects) -> bool {
        &&& next.config == self.config
        &&& next.frames == self.frames
        &&& next.persistent == self.persistent
        &&& next.drag is None
        &&& match self.dragged_pane() {
            None => next.entries == self.entries && effects == Effects::nothing(),
            Some(i) => if self.is_close_click(pos) {
                &&& next.entries == self.entries
                &&& effects == (Effects {
                    close_pane: Some(i),
                    relayout: true,
                    ..Effects::nothing()
                })
            } else {
                &&& slots(next.entries@) == refreshed(
                    slots(self.entries@),
                    self.config.spacing as int,
                )
                &&& effects == (Effects { relayout: true, ..Effects::nothing() })
            },
        }
    }

    /// Whether `next` and `effects` are what an animation frame makes of
    /// this dock.
    ///
    /// Every pane but the dragged one eases towards its target. Another
    /// frame is asked for while a pane is away from its target or a pane is
    /// being dragged, and a layout pass if anything was away from its target.
    pub open spec fn ticked(&self, next: PaneDockWidget, elapsed_nanos: u64, effects: Effects) -> bool {
        &&& next.config == self.config
        &&& next.frames == self.frames
        &&& next.persistent == self.persistent
        &&& next.drag == self.drag
        &&& slots(next.entries@) == stepped(
            slots(self.entries@),
            self.dragged_pane(),
            paced(elapsed_nanos as int),
            self.config.pixel as int,
        )
        &&& effects == (Effects {
            animate: unsettled(slots(next.entries@), self.dragged_pane()) || self.dragged_pane()
                is Some,
            relayout: unsettled(slots(self.entries@), self.dragged_pane()),
            ..Effects::nothing()
        })
    }

    /// Whether `next` and `effects` are what `event` makes of this dock.
    pub open spec fn handled(&self, next: PaneDockWidget, event: DockEvent, effects: Effects) -> bool {
        match event {
            DockEvent::PointerDown { pos, primary } => self.pressed(next, pos, primary, effects),
            DockEvent::PointerMove { pos, primary } => self.moved(next, pos, primary, effects),
            DockEvent::PointerUp { pos } => self.released(next, pos, effects),
            DockEvent::AnimFrame { elapsed_nanos } => self.ticked(next, elapsed_nanos, effects),
            DockEvent::Other => next == *self && effects == Effects::nothing(),
        }
    }

    /// Whether the dock can take `event` without an offset, a distance or a
    /// movement leaving the range of the stored integers.
    pub open spec fn admits(&self, event: DockEvent) -> bool {
        match event {
            DockEvent::PointerDown { pos, primary } => true,
            DockEvent::PointerMove { pos, primary } => self.admits_move(pos, primary),
            DockEvent::PointerUp { pos } => self.admits_release(pos),
            DockEvent::AnimFrame { elapsed_nanos } => self.admits_frame(elapsed_nanos),
            DockEvent::Other => true,
        }
    }

    /// Whether the pointer may move to `pos` without an offset, a distance
    /// or a movement leaving the range of the stored integers.
    pub open spec fn admits_move(&self, pos: Point, primary: bool) -> bool {
        primary ==> match self.drag {
            None => true,
            Some(d) => {
                let dx = pos.x - d.pointer_anchor.x;
                let dy = pos.y - d.pointer_anchor.y;
                &&& i64::MIN <= dx <= i64::MAX
                &&& match d.dragging_entry_index {
                    None => i64::MIN <= dy <= i64::MAX,
                    Some(i) => {
                        let s = slots(self.entries@);
                        let display = s[i as int].display - dx;
                        let deltas = recorded(
                            d.recent_deltas@,
                            d.recent_deltas_cursor as int,
                            dx as i64,
                            self.config.pixel as int,
                        );
                        &&& i64::MIN <= display <= i64::MAX
                        &&& d.accumulated_drag_distance + magnitude(dx) <= u64::MAX
                        &&& i64::MIN <= probe_for(
                            s[i as int].drawn_at(display),
                            total(deltas) > 0,
                        ) <= i64::MAX
                        &&& has_room(s, self.config.spacing as int, s.len() as int + 2)
                    },
                }
            },
        }
    }

    /// Whether release of the pane under the pointer at `pos` counts as a
    /// click on its close label: the pointer has travelled less than a pixel
    /// and is on the label.
    pub open spec fn is_close_click(&self, pos: Point) -> bool {
        self.drag matches Some(d) && d.dragging_entry_index matches Some(i)
            && d.accumulated_drag_distance < self.config.pixel && self.frames@[i as int].header.closes_at(pos)
    }

    /// Whether the pointer may be released at `pos`: the repair pass that
    /// ends the drag of a pane needs room.
    pub open spec fn admits_release(&self, pos: Point) -> bool {
        self.dragged_pane() is Some && !self.is_close_click(pos) ==> has_room(
            slots(self.entries@),
            self.config.spacing as int,
            self.entries@.len() as int,
        )
    }

    /// Whether a frame of `elapsed_nanos` leaves every displayed offset in
    /// the range of the stored integers.
    pub open spec fn admits_frame(&self, elapsed_nanos: u64) -> bool {
        forall|i: int|
            0 <= i < self.entries@.len() ==> i64::MIN <= (#[trigger] stepped(
                slots(self.entries@),
                self.dragged_pane(),
                paced(elapsed_nanos as int),
                self.config.pixel as int,
            )[i]).display <= i64::MAX
    }

    /// The primary button goes down at `pos`: a gesture may begin.
    pub fn pointer_down(&mut self, pos: Point, primary: bool) -> (effects: Effects)
        requires
            old(self).wf(),
        ensures
            final(self).wf(),
            old(self).pressed(*final(self), pos, primary, effects),
    {
        if !primary {
            return Effects::none();
        }
        let area = self.get_input_area();
        if area.contains(pos) {
            match self.drag {
                Some(d) => {
                    self.drag = Some(DragState { accumulated_drag_distance: 0, ..d });
                },
                None => {},
            }
            match self.find_pane(pos) {
                Some(i) => {
                    self.drag = Some(DragState::begin(pos, Some(i)));
                    assert forall|k: int| #[trigger]
                        is_header_at(old(self).frames@, pos, k) implies k == i by {
                        if k < i {
                            assert(!self.frames@[k].header.layout_rect.holds(pos));
                        } else if i < k {
                            assert(!self.frames@[i as int].header.layout_rect.holds(pos));
                        }
                    }
                    Effects { animate: true, ..Effects::none() }
                },
                None => {
                    assert forall|k: int| #[trigger]
                        is_header_at(old(self).frames@, pos, k) implies false by {
                        assert(!self.frames@[k].header.layout_rect.holds(pos));
                    }
                    Effects::none()
                },
            }
        } else {
            self.drag = Some(DragState::begin(pos, None));
            Effects::none()
        }
    }

    /// An animation frame: the panes ease towards their targets.
    pub fn anim_frame(&mut self, elapsed_nanos: u64) -> (effects: Effects)
        requires
            old(self).wf(),
            old(self).admits_frame(elapsed_nanos),
        ensures
            final(self).wf(),
            old(self).ticked(*final(self), elapsed_nanos, effects),
    {
        let excluded: Option<usize> = match self.drag {
            Some(d) => d.dragging_entry_index,
            None => None,
        };
        let ghost s = slots(self.entries@);
        let outcome = step(&mut self.entries, excluded, elapsed_nanos, self.config.pixel);
        proof {
            let out = slots(self.entries@);
            assert forall|k: int| 0 <= k < out.len() implies (#[trigger] out[k]).width > 0
                && out[k].height >= 0 by {
                assert(s[k].width > 0);
            }
        }
        Effects {
            animate: outcome.more_frames_needed || excluded.is_some(),
            relayout: outcome.any_moved,
            ..Effects::none()
        }
    }

    /// The pointer moves to `pos`: the window or the pane under it follows.
    pub fn pointer_move(&mut self, pos: Point, primary: bool) -> (effects: Effects)
        requires
            old(self).wf(),
            old(self).admits_move(pos, primary),
        ensures
            final(self).wf(),
            old(self).moved(*final(self), pos, primary, effects),
    {
        if !primary {
            return Effects::none();
        }
        let d: DragState = match self.drag {
            Some(d) => d,
            None => {
                return Effects::none();
            },
        };
        let dx: i64 = (pos.x as i128 - d.pointer_anchor.x as i128) as i64;
        let i: usize = match d.dragging_entry_index {
            Some(i) => i,
            None => {
                let dy: i64 = (pos.y as i128 - d.pointer_anchor.y as i128) as i64;
                return Effects { move_window_by: Some(Point { x: dx, y: dy }), ..Effects::none() };
            },
        };
        let ghost s = slots(self.entries@);
        let spacing: i64 = self.config.spacing;
        let entry: PaneEntry = self.entries[i];
        let display: i64 = (entry.display_offset as i128 - dx as i128) as i64;
        self.entries.set(i, PaneEntry { display_offset: display, ..entry });
        let ghost carried = s.update(i as int, s[i as int].drawn_at(display as int));
        assert(slots(self.entries@) =~= carried);
        let size: u64 = if dx < 0 {
            (-(dx as i128)) as u64
        } else {
            dx as u64
        };
        let mut next: DragState = d;
        next.record(dx, self.config.pixel);
        next.accumulated_drag_distance = d.accumulated_drag_distance + size;
        next.pointer_anchor = pos;
        let toward_far: bool = next.recent_motion() > 0;
        assert(entry.width > 0) by {
            assert(s[i as int].width > 0);
        }
        let probe: i128 = if toward_far {
            display as i128 - (entry.width / 4) as i128
        } else {
            display as i128 + (5 * entry.width as i128) / 4
        };
        assert(probe == probe_for(carried[i as int], toward_far));
        proof {
            lemma_drag_room(s, i as int, display as int, toward_far, spacing as int);
        }
        let target: i64 = resolved_target_for(&self.entries, probe as i64, i, spacing);
        set_target(&mut self.entries, i, target);
        assert(slots(self.entries@) =~= retargeted(
            s,
            i as int,
            display as int,
            toward_far,
            spacing as int,
        ));
        shift_left_of(&mut self.entries, i);
        refresh_all_target_positions(&mut self.entries, spacing);
        self.drag = Some(next);
        proof {
            let out = slots(self.entries@);
            assert(well_formed(out)) by {
                let cleared = shifted_left_of(
                    retargeted(s, i as int, display as int, toward_far, spacing as int),
                    i as int,
                );
                assert forall|k: int| 0 <= k < out.len() implies (#[trigger] out[k]).width > 0
                    && out[k].height >= 0 by {
                    assert(cleared[k].at(out[k].target) == out[k]);
                    assert(cleared[k].width > 0);
                }
            }
        }
        Effects { relayout: true, ..Effects::none() }
    }

    /// The button is released at `pos`: the gesture ends, with a click on a
    /// close label or with the panes settled.
    pub fn pointer_up(&mut self, pos: Point) -> (effects: Effects)
        requires
            old(self).wf(),
            old(self).admits_release(pos),
        ensures
            final(self).wf(),
            old(self).released(*final(self), pos, effects),
    {
        let d: DragState = match self.drag {
            Some(d) => d,
            None => {
                return Effects::none();
            },
        };
        self.drag = None;
        let i: usize = match d.dragging_entry_index {
            Some(i) => i,
            None => {
                return Effects::none();
            },
        };
        if d.accumulated_drag_distance < self.config.pixel as u64 && self.frames[i].header.hits_close(
            pos,
        ) {
            Effects { close_pane: Some(i), relayout: true, ..Effects::none() }
        } else {
            let ghost s = slots(self.entries@);
            refresh_all_target_positions(&mut self.entries, self.config.spacing);
            proof {
                let out = slots(self.entries@);
                assert forall|k: int| 0 <= k < out.len() implies (#[trigger] out[k]).width > 0
                    && out[k].height >= 0 by {
                    assert(s[k].at(out[k].target) == out[k]);
                    assert(s[k].width > 0);
                }
            }
            Effects { relayout: true, ..Effects::none() }
        }
    }

    /// Feeds one event to the dock's state machine and says what the host
    /// has to do in turn.
    pub fn handle_dragging(&mut self, event: &DockEvent) -> (effects: Effects)
        requires
            old(self).wf(),
            old(self).admits(*event),
        ensures
            final(self).wf(),
            old(self).handled(*final(self), *event, effects),
    {
        match *event {
            DockEvent::PointerDown { pos, primary } => self.pointer_down(pos, primary),
            DockEvent::PointerMove { pos, primary } => self.pointer_move(pos, primary),
            DockEvent::PointerUp { pos } => self.pointer_up(pos),
            DockEvent::AnimFrame { elapsed_nanos } => self.anim_frame(elapsed_nanos),
            DockEvent::Other => Effects::none(),
        }
    }
}

} // verus!
