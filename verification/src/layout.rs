//! The layout pass: where the controls, the panes and their headers go in
//! a window of a given size, and where the window takes pointer input.

use vstd::prelude::*;
use crate::config::DockConfig;
use crate::dock::PaneDockWidget;
use crate::entry::{PaneEntry, Slot, slots};
use crate::geometry::{Point, Rect, Region, Size};
use crate::hit::{input_rects, solid};
use crate::widgets::{PaneFrame, PaneHeaderWidget, PaneWidget};

verus! {

/// What the host has to do with the widgets that are not panes, and with
/// the window, after a layout pass.
#[derive(Clone, Debug)]
pub struct DockLayout {
    /// The size the dock takes: all that was offered.
    pub size: Size,
    /// Where the controls go: the top right corner.
    pub persistent_origin: Point,
    /// The largest size the dock's own items may take beside the controls,
    /// if the dock is shown.
    pub dock_items_max: Option<Size>,
    /// Where the window takes pointer input: everywhere (`None`) while the
    /// dock is shown, and in the input area alone while it is hidden.
    pub input_region: Option<Region>,
}

/// Whether a value can be stored.
pub open spec fn fits(v: int) -> bool {
    i64::MIN <= v <= i64::MAX
}

/// The left edge of a pane in the window. The dock is anchored to the right
/// edge of the window: the displayed offset is the distance from there to
/// the right edge of the pane. One pixel is added for the border.
pub open spec fn pane_x(e: Slot, max: Size, config: DockConfig) -> int {
    max.width - e.display - e.width + config.pixel
}

/// The top of a pane in the window: panes stand on the bottom edge.
pub open spec fn pane_top(e: Slot, max: Size) -> int {
    max.height - e.height
}

/// Whether the rectangles of a pane can be stored.
pub open spec fn frame_fits(e: Slot, max: Size, config: DockConfig, label: Size) -> bool {
    &&& fits(pane_x(e, max, config))
    &&& fits(pane_x(e, max, config) + e.width)
    &&& fits(pane_top(e, max))
    &&& fits(pane_top(e, max) - config.header_height)
    &&& fits(e.width - label.width)
}

/// The widgets of a pane as the layout pass leaves them: the content at the
/// pane's size on the bottom edge, the header of the same width above it,
/// and the close label at the right end of the header.
pub open spec fn frame_for(e: Slot, max: Size, config: DockConfig, label: Size) -> PaneFrame {
    let x0 = pane_x(e, max, config);
    let top = pane_top(e, max);
    PaneFrame {
        content: PaneWidget {
            layout_rect: Rect {
                x0: x0 as i64,
                y0: top as i64,
                x1: (x0 + e.width) as i64,
                y1: max.height,
            },
        },
        header: PaneHeaderWidget {
            layout_rect: Rect {
                x0: x0 as i64,
                y0: (top - config.header_height) as i64,
                x1: (x0 + e.width) as i64,
                y1: top as i64,
            },
            close_label: PaneHeaderWidget::close_label_in(
                Size { width: e.width as i64, height: config.header_height },
                label,
            ),
        },
    }
}

/// The widgets after the layout pass: the first `live` panes are laid out
/// from their entries, the others stay as they were.
pub open spec fn laid_out(
    frames: Seq<PaneFrame>,
    s: Seq<Slot>,
    live: int,
    max: Size,
    config: DockConfig,
    label: Size,
) -> Seq<PaneFrame> {
    Seq::new(
        frames.len(),
        |i: int|
            if i < live {
                frame_for(s[i], max, config, label)
            } else {
                frames[i]
            },
    )
}

/// The rectangle of the controls: at their own size in the top right corner.
pub open spec fn persistent_rect(max: Size, persistent: Size) -> Rect {
    Rect {
        x0: (max.width - persistent.width) as i64,
        y0: 0,
        x1: max.width,
        y1: persistent.height,
    }
}

impl PaneDockWidget {
    /// Whether every rectangle of the layout pass can be stored.
    pub open spec fn admits_layout(&self, max: Size, persistent: Size, label: Size, live: usize) -> bool {
        &&& fits(max.width - persistent.width)
        &&& forall|i: int|
            0 <= i < self.entries@.len() && i < live ==> frame_fits(
                #[trigger] slots(self.entries@)[i],
                max,
                self.config,
                label,
            )
    }

    /// Lays the dock out in a window of the size `max`.
    ///
    /// `persistent` is the size the controls have asked for, `label` the
    /// size a close label asks for, and `live` the number of identities the
    /// application holds: only the panes that stand for one are laid out.
    /// The entries and the gesture stay as they are.
    pub fn layout(
        &mut self,
        max: Size,
        persistent: Size,
        label: Size,
        show_dock: bool,
        live: usize,
    ) -> (plan: DockLayout)
        requires
            old(self).wf(),
            old(self).admits_layout(max, persistent, label, live),
        ensures
            final(self).wf(),
            final(self).config == old(self).config,
            final(self).entries == old(self).entries,
            final(self).drag == old(self).drag,
            final(self).persistent == persistent_rect(max, persistent),
            final(self).frames@ == laid_out(
                old(self).frames@,
                slots(old(self).entries@),
                live as int,
                max,
                old(self).config,
                label,
            ),
            plan.size == max,
            plan.persistent_origin == (Point {
                x: (max.width - persistent.width) as i64,
                y: 0,
            }),
            plan.dock_items_max == (if show_dock {
                Some(Size { width: (max.width - persistent.width) as i64, height: max.height })
            } else {
                None
            }),
            show_dock ==> plan.input_region is None,
            !show_dock ==> plan.input_region is Some && plan.input_region->0@ == solid(
                input_rects(final(self).persistent, final(self).frames@),
            ),
    {
        let ghost s = slots(self.entries@);
        let ghost before = self.frames@;
        let ghost goal = laid_out(before, s, live as int, max, self.config, label);
        let beside: i64 = max.width - persistent.width;
        self.persistent = Rect { x0: beside, y0: 0, x1: max.width, y1: persistent.height };
        let header_height: i64 = self.config.header_height;
        let pixel: i64 = self.config.pixel;
        let mut i: usize = 0;
        while i < self.frames.len() && i < live
            invariant
                i <= self.frames@.len(),
                self.frames@.len() == before.len(),
                before.len() == s.len(),
                s == slots(self.entries@),
                self.entries == old(self).entries,
                self.config == old(self).config,
                self.drag == old(self).drag,
                self.persistent == persistent_rect(max, persistent),
                header_height == self.config.header_height,
                pixel == self.config.pixel,
                goal == laid_out(before, s, live as int, max, self.config, label),
                forall|k: int|
                    0 <= k < s.len() && k < live ==> frame_fits(
                        #[trigger] s[k],
                        max,
                        self.config,
                        label,
                    ),
                forall|k: int| 0 <= k < i ==> (#[trigger] self.frames@[k]) == goal[k],
                forall|k: int| i <= k < before.len() ==> (#[trigger] self.frames@[k]) == before[k],
            decreases self.frames@.len() - i,
        {
            let entry: PaneEntry = self.entries[i];
            assert(frame_fits(s[i as int], max, self.config, label));
            let x0: i64 = (max.width as i128 - entry.display_offset as i128 - entry.width as i128
                + pixel as i128) as i64;
            let x1: i64 = (x0 as i128 + entry.width as i128) as i64;
            let top: i64 = (max.height as i128 - entry.height as i128) as i64;
            let header_top: i64 = (top as i128 - header_height as i128) as i64;
            let mut header: PaneHeaderWidget = self.frames[i].header;
            header.layout_rect = Rect { x0, y0: header_top, x1, y1: top };
            let _header_size: Size = header.layout(
                Size { width: entry.width, height: header_height },
                label,
            );
            let content = PaneWidget { layout_rect: Rect { x0, y0: top, x1, y1: max.height } };
            self.frames.set(i, PaneFrame { content, header });
            assert(self.frames@[i as int] == goal[i as int]);
            i = i + 1;
        }
        assert(self.frames@ =~= goal);
        let input_region: Option<Region> = if show_dock {
            None
        } else {
            Some(self.get_input_area())
        };
        DockLayout {
            size: max,
            persistent_origin: Point { x: beside, y: 0 },
            dock_items_max: if show_dock {
                Some(Size { width: beside, height: max.height })
            } else {
                None
            },
            input_region,
        }
    }
}

} // verus!
