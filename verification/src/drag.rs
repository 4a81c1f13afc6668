//! The gesture in progress between a pointer-down and the pointer-up that ends it.

use vstd::prelude::*;
use crate::geometry::Point;

verus! {

/// How many recent movements decide the direction of travel.
pub const RECENT_DELTAS: usize = 15;

/// The state of one gesture. It begins with a pointer-down and ends with
/// the next pointer-up.
#[derive(Clone, Copy, Debug)]
pub struct DragState {
    /// Where the pointer was when the last event was handled.
    pub pointer_anchor: Point,
    /// The pane under the pointer, or `None` while the window is dragged.
    pub dragging_entry_index: Option<usize>,
    /// The last horizontal movements of more than a pixel, oldest overwritten first.
    pub recent_deltas: [i64; 15],
    /// Where the next movement is recorded.
    pub recent_deltas_cursor: usize,
    /// The sum of the horizontal distances moved since the pointer went down.
    pub accumulated_drag_distance: u64,
}

/// The sum of the recorded movements.
pub open spec fn total(deltas: Seq<i64>) -> int
    decreases deltas.len(),
{
    if deltas.len() == 0 {
        0
    } else {
        total(deltas.drop_last()) + deltas.last()
    }
}

/// The size of a movement.
pub open spec fn magnitude(dx: int) -> int {
    if dx < 0 {
        -dx
    } else {
        dx
    }
}

/// The recorded movements after a movement of `dx`: one of more than a
/// pixel takes the place at the cursor, a smaller one is not recorded.
pub open spec fn recorded(deltas: Seq<i64>, cursor: int, dx: i64, pixel: int) -> Seq<i64> {
    if magnitude(dx as int) > pixel {
        deltas.update(cursor, dx)
    } else {
        deltas
    }
}

/// The cursor after a movement of `dx`.
pub open spec fn advanced(cursor: int, dx: i64, pixel: int) -> int {
    if magnitude(dx as int) > pixel {
        (cursor + 1) % 15
    } else {
        cursor
    }
}

impl DragState {
    /// The cursor points into the record.
    pub open spec fn valid(self) -> bool {
        self.recent_deltas_cursor < 15
    }

    /// Whether this is the state right after a pointer-down at `anchor`.
    pub open spec fn is_fresh(self, anchor: Point, index: Option<usize>) -> bool {
        &&& self.pointer_anchor == anchor
        &&& self.dragging_entry_index == index
        &&& forall|k: int| 0 <= k < 15 ==> #[trigger] self.recent_deltas@[k] == 0
        &&& self.recent_deltas_cursor == 0
        &&& self.accumulated_drag_distance == 0
    }

    /// The state right after a pointer-down at `anchor`.
    pub fn begin(anchor: Point, index: Option<usize>) -> (state: DragState)
        ensures
            state.is_fresh(anchor, index),
            state.valid(),
    {
        DragState {
            pointer_anchor: anchor,
            dragging_entry_index: index,
            recent_deltas: [0i64; 15],
            recent_deltas_cursor: 0,
            accumulated_drag_distance: 0,
        }
    }

    /// Records a horizontal movement if it is larger than a pixel.
    pub fn record(&mut self, dx: i64, pixel: i64)
        requires
            old(self).valid(),
        ensures
            final(self).valid(),
            final(self).recent_deltas@ == recorded(
                old(self).recent_deltas@,
                old(self).recent_deltas_cursor as int,
                dx,
                pixel as int,
            ),
            final(self).recent_deltas_cursor == advanced(
                old(self).recent_deltas_cursor as int,
                dx,
                pixel as int,
            ),
            final(self).pointer_anchor == old(self).pointer_anchor,
            final(self).dragging_entry_index == old(self).dragging_entry_index,
            final(self).accumulated_drag_distance == old(self).accumulated_drag_distance,
    {
        let size: i128 = if dx < 0 {
            -(dx as i128)
        } else {
            dx as i128
        };
        if size > pixel as i128 {
            self.recent_deltas[self.recent_deltas_cursor] = dx;
            self.recent_deltas_cursor = (self.recent_deltas_cursor + 1) % RECENT_DELTAS;
        }
    }

    /// The sum of the recorded movements: positive while the pointer has
    /// lately moved towards larger `x`.
    pub fn recent_motion(&self) -> (sum: i128)
        ensures
            sum == total(self.recent_deltas@),
    {
        let mut sum: i128 = 0;
        let mut i: usize = 0;
        while i < RECENT_DELTAS
            invariant
                i <= 15,
                sum == total(self.recent_deltas@.take(i as int)),
                -(i * 0x8000_0000_0000_0000) <= sum <= i * 0x8000_0000_0000_0000,
            decreases 15 - i,
        {
            proof {
                let s = self.recent_deltas@;
                assert(s.take(i as int + 1).drop_last() == s.take(i as int));
                assert(s.take(i as int + 1).last() == s[i as int]);
            }
            sum = sum + self.recent_deltas[i] as i128;
            i = i + 1;
        }
        proof {
            assert(self.recent_deltas@.take(15) == self.recent_deltas@);
        }
        sum
    }
}

} // verus!
