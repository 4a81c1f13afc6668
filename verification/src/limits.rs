//! Checks at run time that an operation stays within the range of the
//! stored integers: each answers one of the conditions that the operations
//! of the dock demand of their callers.

use vstd::prelude::*;
use crate::animation::{eased_of, pace_of, paced, stepped};
use crate::dock::PaneDockWidget;
use crate::drag::DragState;
use crate::entry::{PaneEntry, slots};
use crate::events::{DockEvent, probe_for};
use crate::geometry::{Point, Size};
use crate::layout::{frame_fits, pane_top, pane_x};
use crate::reconcile::{changes, identities_differ, ids_of, room_to_reconcile};
use crate::solver::{has_room, reach, widest};
use crate::state::{PaneData, distinct, ids};

verus! {

/// The far edge of the outermost target span, wide enough for any dock.
pub fn reach_of(entries: &Vec<PaneEntry>) -> (far: i128)
    ensures
        far == reach(slots(entries@)),
        0 <= far <= 2 * i64::MAX,
{
    let ghost s = slots(entries@);
    let mut far: i128 = 0;
    let mut i: usize = 0;
    while i < entries.len()
        invariant
            i <= entries.len(),
            s == slots(entries@),
            far == reach(s.take(i as int)),
            0 <= far <= 2 * i64::MAX,
        decreases entries.len() - i,
    {
        proof {
            assert(s.take(i as int + 1).drop_last() == s.take(i as int));
            assert(s.take(i as int + 1).last() == s[i as int]);
        }
        let edge: i128 = entries[i].target_offset as i128 + entries[i].width as i128;
        if edge > far {
            far = edge;
        }
        i = i + 1;
    }
    proof {
        assert(s.take(i as int) == s);
    }
    far
}

/// The largest width in the dock.
pub fn widest_of(entries: &Vec<PaneEntry>) -> (width: i64)
    ensures
        width == widest(slots(entries@)),
        width >= 0,
{
    let ghost s = slots(entries@);
    let mut width: i64 = 0;
    let mut i: usize = 0;
    while i < entries.len()
        invariant
            i <= entries.len(),
            s == slots(entries@),
            width == widest(s.take(i as int)),
            width >= 0,
        decreases entries.len() - i,
    {
        proof {
            assert(s.take(i as int + 1).drop_last() == s.take(i as int));
            assert(s.take(i as int + 1).last() == s[i as int]);
        }
        if entries[i].width > width {
            width = entries[i].width;
        }
        i = i + 1;
    }
    proof {
        assert(s.take(i as int) == s);
    }
    width
}

/// Whether `from + steps * step` is no more than the largest stored integer.
fn within_reach(from: i128, steps: u128, step: i128) -> (ok: bool)
    requires
        0 <= from <= 2 * i64::MAX,
        0 <= step <= 2 * i64::MAX,
        steps <= 3 * usize::MAX + 2,
    ensures
        ok == (from + steps * step <= i64::MAX),
{
    if from > i64::MAX as i128 {
        assert(steps * step >= 0) by (nonlinear_arith)
            requires
                steps >= 0,
                step >= 0,
        ;
        return false;
    }
    if step == 0 {
        assert(steps * step == 0) by (nonlinear_arith)
            requires
                step == 0,
        ;
        return true;
    }
    let left: i128 = i64::MAX as i128 - from;
    let most: i128 = left / step;
    assert(steps * step <= left <==> steps <= most) by (nonlinear_arith)
        requires
            step > 0,
            left >= 0,
            steps >= 0,
            most == left / step,
    ;
    steps as i128 <= most
}

/// Whether the dock can take `steps` placements.
pub fn has_room_for(entries: &Vec<PaneEntry>, spacing: i64, steps: usize) -> (ok: bool)
    requires
        spacing >= 0,
    ensures
        ok == has_room(slots(entries@), spacing as int, steps as int),
{
    let from: i128 = reach_of(entries);
    let step: i128 = widest_of(entries) as i128 + spacing as i128;
    within_reach(from, steps as u128, step)
}

/// Whether no id occurs twice among the identities.
pub fn all_distinct(panes: &Vec<PaneData>) -> (ok: bool)
    ensures
        ok == distinct(ids(panes@)),
{
    let ghost all = ids(panes@);
    let mut j: usize = 0;
    while j < panes.len()
        invariant
            j <= panes.len(),
            all == ids(panes@),
            forall|a: int, b: int| 0 <= a < b < j ==> all[a] != all[b],
        decreases panes.len() - j,
    {
        let mut i: usize = 0;
        while i < j
            invariant
                i <= j,
                j < panes.len(),
                all == ids(panes@),
                forall|a: int| 0 <= a < i ==> all[a] != all[j as int],
            decreases j - i,
        {
            if panes[i].id == panes[j].id {
                assert(all[i as int] == all[j as int]);
                return false;
            }
            i = i + 1;
        }
        j = j + 1;
    }
    true
}

impl PaneDockWidget {
    /// Whether the dock can be reconciled with these identities.
    pub fn can_reconcile(
        &self,
        previous: Option<&Vec<PaneData>>,
        new_identities: &Vec<PaneData>,
    ) -> (ok: bool)
        requires
            self.wf(),
        ensures
            ok == self.admits_reconcile(ids_of(previous), ids(new_identities@)),
    {
        let changed: bool = match previous {
            Some(p) => identities_differ(p, new_identities),
            None => new_identities.len() != 0,
        };
        assert(changed == changes(ids_of(previous), ids(new_identities@)));
        if changed {
            let from: i128 = reach_of(&self.entries);
            let wide: i64 = widest_of(&self.entries);
            let widest: i64 = if wide > self.config.pane_width {
                wide
            } else {
                self.config.pane_width
            };
            let step: i128 = widest as i128 + self.config.spacing as i128;
            let steps: u128 = self.entries.len() as u128 + 2 * (new_identities.len() as u128);
            let room: bool = within_reach(from, steps, step);
            assert(room == room_to_reconcile(
                slots(self.entries@),
                self.config,
                new_identities@.len() as int,
            ));
            if !room {
                return false;
            }
        }
        match previous {
            None => true,
            Some(p) => {
                if p.len() != self.entries.len() {
                    return false;
                }
                if !all_distinct(p) || !all_distinct(new_identities) {
                    return false;
                }
                match self.drag {
                    Some(d) => match d.dragging_entry_index {
                        Some(i) => i < new_identities.len(),
                        None => true,
                    },
                    None => true,
                }
            },
        }
    }

    /// Whether the pointer may move to `pos`.
    pub fn can_move(&self, pos: Point, primary: bool) -> (ok: bool)
        requires
            self.wf(),
        ensures
            ok == self.admits_move(pos, primary),
    {
        if !primary {
            return true;
        }
        let d: DragState = match self.drag {
            Some(d) => d,
            None => {
                return true;
            },
        };
        let dx: i128 = pos.x as i128 - d.pointer_anchor.x as i128;
        if dx < i64::MIN as i128 || dx > i64::MAX as i128 {
            return false;
        }
        let i: usize = match d.dragging_entry_index {
            Some(i) => i,
            None => {
                let dy: i128 = pos.y as i128 - d.pointer_anchor.y as i128;
                return i64::MIN as i128 <= dy && dy <= i64::MAX as i128;
            },
        };
        let ghost s = slots(self.entries@);
        let entry: PaneEntry = self.entries[i];
        let display: i128 = entry.display_offset as i128 - dx;
        if display < i64::MIN as i128 || display > i64::MAX as i128 {
            return false;
        }
        let size: i128 = if dx < 0 {
            -dx
        } else {
            dx
        };
        if d.accumulated_drag_distance as i128 + size > u64::MAX as i128 {
            return false;
        }
        let mut next: DragState = d;
        next.record(dx as i64, self.config.pixel);
        let toward_far: bool = next.recent_motion() > 0;
        assert(entry.width > 0) by {
            assert(s[i as int].width > 0);
        }
        let probe: i128 = if toward_far {
            display - (entry.width / 4) as i128
        } else {
            display + (5 * entry.width as i128) / 4
        };
        assert(probe == probe_for(s[i as int].drawn_at(display as int), toward_far));
        if probe < i64::MIN as i128 || probe > i64::MAX as i128 {
            return false;
        }
        let from: i128 = reach_of(&self.entries);
        let step: i128 = widest_of(&self.entries) as i128 + self.config.spacing as i128;
        within_reach(from, self.entries.len() as u128 + 2, step)
    }

    /// Whether the pointer may be released at `pos`.
    pub fn can_release(&self, pos: Point) -> (ok: bool)
        requires
            self.wf(),
        ensures
            ok == self.admits_release(pos),
    {
        let d: DragState = match self.drag {
            Some(d) => d,
            None => {
                return true;
            },
        };
        let i: usize = match d.dragging_entry_index {
            Some(i) => i,
            None => {
                return true;
            },
        };
        if d.accumulated_drag_distance < self.config.pixel as u64 && self.frames[i].header.hits_close(
            pos,
        ) {
            return true;
        }
        has_room_for(&self.entries, self.config.spacing, self.entries.len())
    }

    /// Whether an animation frame of `elapsed_nanos` can be taken.
    pub fn can_animate(&self, elapsed_nanos: u64) -> (ok: bool)
        requires
            self.wf(),
        ensures
            ok == self.admits_frame(elapsed_nanos),
    {
        let pace: u64 = pace_of(elapsed_nanos);
        let pixel: i64 = self.config.pixel;
        let excluded: Option<usize> = match self.drag {
            Some(d) => d.dragging_entry_index,
            None => None,
        };
        let ghost goal = stepped(slots(self.entries@), excluded, pace as int, pixel as int);
        let mut i: usize = 0;
        while i < self.entries.len()
            invariant
                i <= self.entries@.len(),
                pixel >= 1,
                pixel == self.config.pixel,
                pace == paced(elapsed_nanos as int),
                4_000_000 <= pace <= 20_000_000,
                excluded == self.dragged_pane(),
                goal == stepped(slots(self.entries@), excluded, pace as int, pixel as int),
                forall|k: int| 0 <= k < i ==> i64::MIN <= (#[trigger] goal[k]).display <= i64::MAX,
            decreases self.entries@.len() - i,
        {
            let skip: bool = match excluded {
                Some(e) => e == i,
                None => false,
            };
            if !skip {
                let next: i128 = eased_of(&self.entries[i], pace, pixel);
                assert(next == goal[i as int].display);
                if next < i64::MIN as i128 || next > i64::MAX as i128 {
                    assert(!(i64::MIN <= stepped(
                        slots(self.entries@),
                        self.dragged_pane(),
                        paced(elapsed_nanos as int),
                        self.config.pixel as int,
                    )[i as int].display <= i64::MAX));
                    return false;
                }
            }
            assert(i64::MIN <= goal[i as int].display <= i64::MAX);
            i = i + 1;
        }
        true
    }

    /// Whether the dock can take the event.
    pub fn can_handle(&self, event: &DockEvent) -> (ok: bool)
        requires
            self.wf(),
        ensures
            ok == self.admits(*event),
    {
        match *event {
            DockEvent::PointerDown { pos, primary } => true,
            DockEvent::PointerMove { pos, primary } => self.can_move(pos, primary),
            DockEvent::PointerUp { pos } => self.can_release(pos),
            DockEvent::AnimFrame { elapsed_nanos } => self.can_animate(elapsed_nanos),
            DockEvent::Other => true,
        }
    }

    /// Whether the dock can be laid out in a window of the size `max`.
    pub fn can_layout(&self, max: Size, persistent: Size, label: Size, live: usize) -> (ok: bool)
        requires
            self.wf(),
        ensures
            ok == self.admits_layout(max, persistent, label, live),
    {
        let beside: i128 = max.width as i128 - persistent.width as i128;
        if beside < i64::MIN as i128 || beside > i64::MAX as i128 {
            return false;
        }
        let ghost s = slots(self.entries@);
        let mut i: usize = 0;
        while i < self.entries.len() && i < live
            invariant
                i <= self.entries@.len(),
                s == slots(self.entries@),
                forall|k: int|
                    0 <= k < i ==> frame_fits(#[trigger] s[k], max, self.config, label),
            decreases self.entries@.len() - i,
        {
            let entry: PaneEntry = self.entries[i];
            let x0: i128 = max.width as i128 - entry.display_offset as i128 - entry.width as i128
                + self.config.pixel as i128;
            let x1: i128 = x0 + entry.width as i128;
            let top: i128 = max.height as i128 - entry.height as i128;
            let header_top: i128 = top - self.config.header_height as i128;
            let label_x: i128 = entry.width as i128 - label.width as i128;
            let lo: i128 = i64::MIN as i128;
            let hi: i128 = i64::MAX as i128;
            assert(x0 == pane_x(s[i as int], max, self.config));
            assert(top == pane_top(s[i as int], max));
            if x0 < lo || x0 > hi || x1 < lo || x1 > hi || top < lo || top > hi || header_top < lo
                || header_top > hi || label_x < lo || label_x > hi {
                assert(!frame_fits(s[i as int], max, self.config, label));
                return false;
            }
            i = i + 1;
        }
        true
    }
}

} // verus!
