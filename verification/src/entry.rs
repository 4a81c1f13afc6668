//! The record the dock keeps for each live pane, and its mathematical model.

use vstd::prelude::*;

verus! {

/// Where one pane sits in the dock. Offsets are distances from the anchored
/// edge, in layout units; the logical order of the panes is the order of the
/// entries, not the order of their offsets.
#[derive(Clone, Copy, Debug, PartialEq, Eq, Structural)]
pub struct PaneEntry {
    /// Where the pane should come to rest.
    pub target_offset: i64,
    /// Where the pane is drawn right now.
    pub display_offset: i64,
    pub width: i64,
    pub height: i64,
}

/// A pane entry over unbounded integers: what the contracts speak of.
pub struct Slot {
    pub target: int,
    pub display: int,
    pub width: int,
    pub height: int,
}

impl Slot {
    /// The edge of the target span that lies farthest from the anchored edge.
    pub open spec fn far_edge(self) -> int {
        self.target + self.width
    }

    /// The middle of the target span, rounded towards the anchored edge.
    pub open spec fn center(self) -> int {
        self.target + self.width / 2
    }

    /// The same slot with another target.
    pub open spec fn at(self, target: int) -> Slot {
        Slot { target, ..self }
    }

    /// The same slot drawn at another offset.
    pub open spec fn drawn_at(self, display: int) -> Slot {
        Slot { display, ..self }
    }

    /// Whether every field can be stored in a `PaneEntry`.
    pub open spec fn storable(self) -> bool {
        &&& i64::MIN <= self.target <= i64::MAX
        &&& i64::MIN <= self.display <= i64::MAX
        &&& i64::MIN <= self.width <= i64::MAX
        &&& i64::MIN <= self.height <= i64::MAX
    }
}

impl View for PaneEntry {
    type V = Slot;

    open spec fn view(&self) -> Slot {
        Slot {
            target: self.target_offset as int,
            display: self.display_offset as int,
            width: self.width as int,
            height: self.height as int,
        }
    }
}

/// The models of a run of entries, index by index.
pub open spec fn slots(entries: Seq<PaneEntry>) -> Seq<Slot> {
    Seq::new(entries.len(), |i: int| entries[i]@)
}

/// Every slot can be stored in a `PaneEntry`.
pub open spec fn storable(s: Seq<Slot>) -> bool {
    forall|i: int| 0 <= i < s.len() ==> (#[trigger] s[i]).storable()
}

/// Every pane has a positive width and no negative height.
pub open spec fn well_formed(s: Seq<Slot>) -> bool {
    forall|i: int| 0 <= i < s.len() ==> (#[trigger] s[i]).width > 0 && s[i].height >= 0
}

/// Two runs that differ in their targets at most.
pub open spec fn same_panes(a: Seq<Slot>, b: Seq<Slot>) -> bool {
    &&& a.len() == b.len()
    &&& forall|i: int| 0 <= i < a.len() ==> (#[trigger] a[i]).at(b[i].target) == b[i]
}

} // verus!
