//! The application's side of the dock: the identities of the live panes, in
//! their canonical order, and the counter that names the next one.

use vstd::prelude::*;

verus! {

/// The identity of a pane: stable for the pane's lifetime and unique among
/// the live panes.
#[derive(Clone, Copy, Debug, PartialEq, Eq, Structural)]
pub struct PaneData {
    pub id: i32,
}

/// The ids of a run of identities, in order.
pub open spec fn ids(panes: Seq<PaneData>) -> Seq<int> {
    Seq::new(panes.len(), |i: int| panes[i].id as int)
}

/// No id occurs twice.
pub open spec fn distinct(ids: Seq<int>) -> bool {
    forall|i: int, j: int| 0 <= i < j < ids.len() ==> ids[i] != ids[j]
}

/// What the application keeps for the dock.
#[derive(Clone, Debug)]
pub struct AppState {
    /// Whether the dock's background and its own controls are shown.
    pub show_dock: bool,
    pub always_on_top: bool,
    /// The live panes in their canonical order.
    pub panes: Vec<PaneData>,
    /// The id that the next pane gets; larger than every id given so far.
    pub next_pane_id: i32,
}

impl AppState {
    /// Every live id was handed out by the counter, and none twice.
    pub open spec fn wf(&self) -> bool {
        &&& distinct(ids(self.panes@))
        &&& forall|i: int| 0 <= i < self.panes@.len() ==> (#[trigger] self.panes@[i]).id < self.next_pane_id
    }

    /// A state without panes, whose first pane will get the id `first_id`.
    pub fn new(first_id: i32) -> (state: AppState)
        ensures
            state.wf(),
            state.show_dock,
            !state.always_on_top,
            state.panes@.len() == 0,
            state.next_pane_id == first_id,
    {
        AppState { show_dock: true, always_on_top: false, panes: Vec::new(), next_pane_id: first_id }
    }

    /// Appends a pane under the next id and advances the counter.
    pub fn add_pane(&mut self)
        requires
            old(self).next_pane_id < i32::MAX,
        ensures
            final(self).panes@ == old(self).panes@.push((PaneData { id: old(self).next_pane_id })),
            final(self).next_pane_id == old(self).next_pane_id + 1,
            final(self).show_dock == old(self).show_dock,
            final(self).always_on_top == old(self).always_on_top,
            old(self).wf() ==> final(self).wf(),
    {
        self.panes.push(PaneData { id: self.next_pane_id });
        self.next_pane_id = self.next_pane_id + 1;
        proof {
            if old(self).wf() {
                let before = ids(old(self).panes@);
                let after = ids(self.panes@);
                assert forall|i: int, j: int| 0 <= i < j < after.len() implies after[i]
                    != after[j] by {
                    if j < before.len() {
                        assert(before[i] != before[j]);
                    } else {
                        assert(old(self).panes@[i].id < old(self).next_pane_id);
                    }
                }
                assert forall|i: int| 0 <= i < self.panes@.len() implies (#[trigger] self.panes@[i]).id
                    < self.next_pane_id by {
                    if i < old(self).panes@.len() {
                        assert(old(self).panes@[i].id < old(self).next_pane_id);
                    }
                }
            }
        }
    }

    /// Removes the pane at `index`: the pane was closed.
    pub fn remove_pane(&mut self, index: usize)
        requires
            index < old(self).panes@.len(),
        ensures
            final(self).panes@ == old(self).panes@.remove(index as int),
            final(self).next_pane_id == old(self).next_pane_id,
            final(self).show_dock == old(self).show_dock,
            final(self).always_on_top == old(self).always_on_top,
            old(self).wf() ==> final(self).wf(),
    {
        self.panes.remove(index);
        proof {
            if old(self).wf() {
                let before = ids(old(self).panes@);
                let after = ids(self.panes@);
                assert forall|i: int, j: int| 0 <= i < j < after.len() implies after[i]
                    != after[j] by {
                    let a = if i < index { i } else { i + 1 };
                    let b = if j < index { j } else { j + 1 };
                    assert(before[a] != before[b]);
                }
                assert forall|i: int| 0 <= i < self.panes@.len() implies (#[trigger] self.panes@[i]).id
                    < self.next_pane_id by {
                    let a = if i < index { i } else { i + 1 };
                    assert(old(self).panes@[a].id < old(self).next_pane_id);
                }
            }
        }
    }
}

/// The first position of `id` among the identities.
pub fn position_of(panes: &Vec<PaneData>, id: i32) -> (found: Option<usize>)
    ensures
        (match found {
            Some(k) => k < panes@.len() && panes@[k as int].id == id && forall|m: int|
                0 <= m < k ==> panes@[m].id != id,
            None => !ids(panes@).contains(id as int),
        }),
        found is Some <==> ids(panes@).contains(id as int),
{
    let mut k: usize = 0;
    while k < panes.len()
        invariant
            k <= panes.len(),
            forall|m: int| 0 <= m < k ==> panes@[m].id != id,
        decreases panes.len() - k,
    {
        if panes[k].id == id {
            assert(ids(panes@)[k as int] == id as int);
            return Some(k);
        }
        k = k + 1;
    }
    proof {
        assert forall|m: int| 0 <= m < ids(panes@).len() implies ids(panes@)[m] != id as int by {
            assert(panes@[m].id != id);
        }
    }
    None
}

} // verus!
