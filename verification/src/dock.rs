//! The dock: its pane entries in logical order, the widgets of each pane as
//! the last layout pass left them, and the gesture in progress.

use vstd::prelude::*;
use crate::config::DockConfig;
use crate::drag::DragState;
use crate::entry::{PaneEntry, slots, well_formed};
use crate::geometry::{Point, Rect};
use crate::widgets::PaneFrame;

verus! {

/// A row of panes anchored to one edge of a window.
///
/// `entries[i]` and `frames[i]` belong to the pane with the logical index
/// `i`; the order of the panes on the screen follows from their offsets.
#[derive(Clone, Debug)]
pub struct PaneDockWidget {
    pub config: DockConfig,
    pub entries: Vec<PaneEntry>,
    pub frames: Vec<PaneFrame>,
    /// The rectangle of the controls that stay visible when the dock's
    /// background is hidden, as laid out.
    pub persistent: Rect,
    /// The gesture in progress; `None` while no button is held.
    pub drag: Option<DragState>,
}

impl PaneDockWidget {
    /// What holds of a dock between any two operations.
    pub open spec fn wf(&self) -> bool {
        &&& self.config.valid()
        &&& self.frames.len() == self.entries.len()
        &&& well_formed(slots(self.entries@))
        &&& self.drag matches Some(d) ==> {
            &&& d.valid()
            &&& d.dragging_entry_index matches Some(i) ==> i < self.entries.len()
        }
    }

    /// The index of the pane under the pointer, while a pane is dragged.
    pub open spec fn dragged_pane(&self) -> Option<usize> {
        match self.drag {
            Some(d) => d.dragging_entry_index,
            None => None,
        }
    }

    /// An empty dock with the standard measures.
    pub fn new() -> (dock: PaneDockWidget)
        ensures
            dock.wf(),
            dock.config == (DockConfig {
                spacing: 8,
                pane_width: 300,
                pane_height: 480,
                header_height: 25,
                pixel: 1,
            }),
            dock.entries@.len() == 0,
            dock.frames@.len() == 0,
            dock.persistent == (Rect { x0: 0, y0: 0, x1: 0, y1: 0 }),
            dock.drag is None,
    {
        Self::with_config(DockConfig::default())
    }

    /// An empty dock with the given measures.
    pub fn with_config(config: DockConfig) -> (dock: PaneDockWidget)
        requires
            config.valid(),
        ensures
            dock.wf(),
            dock.config == config,
            dock.entries@.len() == 0,
            dock.frames@.len() == 0,
            dock.persistent == (Rect { x0: 0, y0: 0, x1: 0, y1: 0 }),
            dock.drag is None,
    {
        PaneDockWidget {
            config,
            entries: Vec::new(),
            frames: Vec::new(),
            persistent: Rect::zero(),
            drag: None,
        }
    }
}

/// Whether a position is on the dock's controls, on a pane or on a header.
pub open spec fn in_input_area(persistent: Rect, frames: Seq<PaneFrame>, p: Point) -> bool {
    persistent.holds(p) || exists|i: int|
        0 <= i < frames.len() && ((#[trigger] frames[i]).content.layout_rect.holds(p)
            || frames[i].header.layout_rect.holds(p))
}

/// Whether pane `i` is the first in logical order whose header holds `p`.
pub open spec fn is_header_at(frames: Seq<PaneFrame>, p: Point, i: int) -> bool {
    &&& 0 <= i < frames.len()
    &&& frames[i].header.layout_rect.holds(p)
    &&& forall|k: int| 0 <= k < i ==> !(#[trigger] frames[k]).header.layout_rect.holds(p)
}

/// Whether no header holds `p`.
pub open spec fn no_header_at(frames: Seq<PaneFrame>, p: Point) -> bool {
    forall|k: int| 0 <= k < frames.len() ==> !(#[trigger] frames[k]).header.layout_rect.holds(p)
}

} // verus!
