//! The measures a dock is built with.

use vstd::prelude::*;

verus! {

/// The fixed measures of a dock, in layout units.
#[derive(Clone, Copy, Debug, PartialEq, Eq, Structural)]
pub struct DockConfig {
    /// The gap between two panes, and between the anchored edge and the first pane.
    pub spacing: i64,
    /// The width of a new pane.
    pub pane_width: i64,
    /// The height of a new pane.
    pub pane_height: i64,
    /// The height of the header above each pane.
    pub header_height: i64,
    /// The number of layout units in one pixel.
    pub pixel: i64,
}

impl DockConfig {
    /// The measures a dock can work with.
    pub open spec fn valid(self) -> bool {
        &&& self.spacing >= 0
        &&& self.pane_width > 0
        &&& self.pane_height >= 0
        &&& self.header_height >= 0
        &&& self.pixel >= 1
    }
}

impl Default for DockConfig {
    /// The measures of the standard dock, with one layout unit to the pixel.
    fn default() -> (config: DockConfig)
        ensures
            config == (DockConfig {
                spacing: 8,
                pane_width: 300,
                pane_height: 480,
                header_height: 25,
                pixel: 1,
            }),
            config.valid(),
    {
        DockConfig { spacing: 8, pane_width: 300, pane_height: 480, header_height: 25, pixel: 1 }
    }
}

} // verus!
