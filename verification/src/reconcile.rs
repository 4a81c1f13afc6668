//! Reconciliation: bringing the dock's entries in line with the
//! application's identities, pane by pane, without disturbing the panes
//! that stay.

use vstd::prelude::*;
use crate::config::DockConfig;
use crate::dock::PaneDockWidget;
use crate::entry::{PaneEntry, Slot, slots, well_formed};
use crate::geometry::Rect;
use crate::reconcile_laws::{
    lemma_kept_none,
    lemma_kept_step,
    lemma_restructured_same,
    lemma_retained_len,
    lemma_retained_members,
    lemma_same_identities,
};
use crate::solver::{
    lemma_reach,
    lemma_reach_within,
    lemma_widest,
    lemma_widest_within,
    next_append_offset,
    reach,
    refresh_all_target_positions,
    refreshed,
    widest,
};
use crate::state::{AppState, PaneData, distinct, ids, position_of};
use crate::widgets::{PaneFrame, PaneHeaderWidget, PaneWidget};

verus! {

/// The items from index `k` on whose identity is still among `next`, in order.
pub open spec fn retained_from<T>(
    items: Seq<T>,
    previous: Seq<int>,
    next: Seq<int>,
    k: int,
) -> Seq<T>
    decreases items.len() - k,
{
    if k >= items.len() {
        Seq::empty()
    } else if next.contains(previous[k]) {
        seq![items[k]] + retained_from(items, previous, next, k + 1)
    } else {
        retained_from(items, previous, next, k + 1)
    }
}

/// How many of the previous identities from index `k` on are among `tail`.
pub open spec fn kept(previous: Seq<int>, tail: Seq<int>, k: int) -> nat
    decreases previous.len() - k,
{
    if k >= previous.len() {
        0
    } else if tail.contains(previous[k]) {
        1 + kept(previous, tail, k + 1)
    } else {
        kept(previous, tail, k + 1)
    }
}

/// The entry of a pane that has just been created: past the outermost
/// occupied slot by one spacing, drawn where it belongs, at the standard size.
pub open spec fn fresh_slot(s: Seq<Slot>, config: DockConfig) -> Slot {
    Slot {
        target: reach(s) + config.spacing,
        display: reach(s) + config.spacing,
        width: config.pane_width as int,
        height: config.pane_height as int,
    }
}

/// The widgets of a pane that has just been created: not laid out yet.
pub open spec fn fresh_frame() -> PaneFrame {
    PaneFrame {
        content: PaneWidget { layout_rect: Rect { x0: 0, y0: 0, x1: 0, y1: 0 } },
        header: PaneHeaderWidget {
            layout_rect: Rect { x0: 0, y0: 0, x1: 0, y1: 0 },
            close_label: Rect { x0: 0, y0: 0, x1: 0, y1: 0 },
        },
    }
}

/// The entries after the first `k` of the new identities have been looked
/// at: each that was not among the previous ones has got a fresh entry at
/// its own logical index.
pub open spec fn grown(
    s: Seq<Slot>,
    previous: Seq<int>,
    next: Seq<int>,
    k: int,
    config: DockConfig,
) -> Seq<Slot>
    decreases k,
{
    if k <= 0 {
        s
    } else {
        let before = grown(s, previous, next, k - 1, config);
        if previous.contains(next[k - 1]) {
            before
        } else {
            before.insert(k - 1, fresh_slot(before, config))
        }
    }
}

/// The widgets after the first `k` of the new identities have been looked at.
pub open spec fn grown_frames(
    f: Seq<PaneFrame>,
    previous: Seq<int>,
    next: Seq<int>,
    k: int,
) -> Seq<PaneFrame>
    decreases k,
{
    if k <= 0 {
        f
    } else {
        let before = grown_frames(f, previous, next, k - 1);
        if previous.contains(next[k - 1]) {
            before
        } else {
            before.insert(k - 1, fresh_frame())
        }
    }
}

/// The entries with `count` fresh entries appended, one after the other.
pub open spec fn appended(s: Seq<Slot>, count: int, config: DockConfig) -> Seq<Slot>
    decreases count,
{
    if count <= 0 {
        s
    } else {
        let before = appended(s, count - 1, config);
        before.push(fresh_slot(before, config))
    }
}

/// The widgets with `count` fresh frames appended.
pub open spec fn appended_frames(f: Seq<PaneFrame>, count: int) -> Seq<PaneFrame>
    decreases count,
{
    if count <= 0 {
        f
    } else {
        appended_frames(f, count - 1).push(fresh_frame())
    }
}

/// Whether some previous identity is gone or some new identity was not there.
pub open spec fn differs(previous: Seq<int>, next: Seq<int>) -> bool {
    ||| exists|i: int| 0 <= i < previous.len() && !next.contains(#[trigger] previous[i])
    ||| exists|j: int| 0 <= j < next.len() && !previous.contains(#[trigger] next[j])
}

/// The entries after panes have been destroyed and created, before any
/// target is repaired.
///
/// On the first run, without previous identities, every new identity gets a
/// fresh entry at the end. Later the entries of the identities that are gone
/// leave, the others stay in their order, and every identity that was not
/// there gets a fresh entry at its own logical index.
pub open spec fn restructured(
    s: Seq<Slot>,
    previous: Option<Seq<int>>,
    next: Seq<int>,
    config: DockConfig,
) -> Seq<Slot> {
    match previous {
        None => appended(s, next.len() as int, config),
        Some(p) => grown(retained_from(s, p, next, 0), p, next, next.len() as int, config),
    }
}

/// The widgets after panes have been destroyed and created.
pub open spec fn restructured_frames(
    f: Seq<PaneFrame>,
    previous: Option<Seq<int>>,
    next: Seq<int>,
) -> Seq<PaneFrame> {
    match previous {
        None => appended_frames(f, next.len() as int),
        Some(p) => grown_frames(retained_from(f, p, next, 0), p, next, next.len() as int),
    }
}

/// Whether reconciliation destroys or creates a pane.
pub open spec fn changes(previous: Option<Seq<int>>, next: Seq<int>) -> bool {
    match previous {
        None => next.len() > 0,
        Some(p) => differs(p, next),
    }
}

/// The entries after reconciliation: if a pane was destroyed or created,
/// one repair pass runs over the new structure; otherwise nothing changes.
pub open spec fn reconciled(
    s: Seq<Slot>,
    previous: Option<Seq<int>>,
    next: Seq<int>,
    config: DockConfig,
) -> Seq<Slot> {
    if changes(previous, next) {
        refreshed(restructured(s, previous, next, config), config.spacing as int)
    } else {
        s
    }
}

/// The larger of the largest width in the dock and the width of a new pane.
pub open spec fn widest_with(s: Seq<Slot>, config: DockConfig) -> int {
    if widest(s) > config.pane_width {
        widest(s)
    } else {
        config.pane_width as int
    }
}

/// Whether the dock has room for a reconciliation with `count` new
/// identities: for each pane that may be created, and for the repair pass
/// over all panes.
pub open spec fn room_to_reconcile(s: Seq<Slot>, config: DockConfig, count: int) -> bool {
    reach(s) + (s.len() + 2 * count) * (widest_with(s, config) + config.spacing) <= i64::MAX
}

/// Whether some previous identity is gone or some new identity was not there.
pub fn identities_differ(
    previous: &Vec<PaneData>,
    new_identities: &Vec<PaneData>,
) -> (changed: bool)
    ensures
        changed == differs(ids(previous@), ids(new_identities@)),
{
    let ghost p = ids(previous@);
    let ghost n = ids(new_identities@);
    let mut i: usize = 0;
    while i < previous.len()
        invariant
            i <= previous@.len(),
            p == ids(previous@),
            n == ids(new_identities@),
            forall|k: int| 0 <= k < i ==> n.contains(#[trigger] p[k]),
        decreases previous@.len() - i,
    {
        assert(p[i as int] == previous@[i as int].id);
        if position_of(new_identities, previous[i].id).is_none() {
            assert(!n.contains(p[i as int]));
            return true;
        }
        i = i + 1;
    }
    let mut j: usize = 0;
    while j < new_identities.len()
        invariant
            j <= new_identities@.len(),
            p == ids(previous@),
            n == ids(new_identities@),
            forall|k: int| 0 <= k < p.len() ==> n.contains(#[trigger] p[k]),
            forall|k: int| 0 <= k < j ==> p.contains(#[trigger] n[k]),
        decreases new_identities@.len() - j,
    {
        assert(n[j as int] == new_identities@[j as int].id);
        if position_of(previous, new_identities[j].id).is_none() {
            assert(!p.contains(n[j as int]));
            return true;
        }
        j = j + 1;
    }
    false
}

/// The ids of the previous identities, if there are any.
pub open spec fn ids_of(previous: Option<&Vec<PaneData>>) -> Option<Seq<int>> {
    match previous {
        Some(p) => Some(ids(p@)),
        None => None,
    }
}

impl PaneDockWidget {
    /// Whether the dock can be reconciled: if a pane is to be destroyed or
    /// created, the dock has room; and after the first run the previous
    /// identities are those that the entries stand for, one each, no
    /// identity occurs twice, and a pane under the pointer keeps a valid
    /// index.
    pub open spec fn admits_reconcile(
        &self,
        previous: Option<Seq<int>>,
        next: Seq<int>,
    ) -> bool {
        &&& changes(previous, next) ==> room_to_reconcile(
            slots(self.entries@),
            self.config,
            next.len() as int,
        )
        &&& previous matches Some(p) ==> {
            &&& p.len() == self.entries@.len()
            &&& distinct(p)
            &&& distinct(next)
            &&& self.dragged_pane() matches Some(i) ==> i < next.len()
        }
    }

    /// The removal pass: from the last previous identity to the first, the
    /// pane of each identity that is gone is destroyed.
    fn remove_gone(
        &mut self,
        previous: &Vec<PaneData>,
        new_identities: &Vec<PaneData>,
    ) -> (gone: bool)
        requires
            old(self).entries@.len() == previous@.len(),
            old(self).frames@.len() == previous@.len(),
        ensures
            slots(final(self).entries@) == retained_from(
                slots(old(self).entries@),
                ids(previous@),
                ids(new_identities@),
                0,
            ),
            final(self).frames@ == retained_from(
                old(self).frames@,
                ids(previous@),
                ids(new_identities@),
                0,
            ),
            gone == exists|i: int|
                0 <= i < previous@.len() && !ids(new_identities@).contains(
                    #[trigger] ids(previous@)[i],
                ),
            final(self).config == old(self).config,
            final(self).persistent == old(self).persistent,
            final(self).drag == old(self).drag,
    {
        let ghost e = slots(self.entries@);
        let ghost f = self.frames@;
        let ghost p = ids(previous@);
        let ghost n = ids(new_identities@);
        let mut gone: bool = false;
        let mut i: usize = previous.len();
        assert(e.take(i as int) + retained_from(e, p, n, i as int) =~= e);
        assert(f.take(i as int) + retained_from(f, p, n, i as int) =~= f);
        while i > 0
            invariant
                i <= previous@.len(),
                e.len() == previous@.len(),
                f.len() == previous@.len(),
                p == ids(previous@),
                n == ids(new_identities@),
                slots(self.entries@) == e.take(i as int) + retained_from(e, p, n, i as int),
                self.frames@ == f.take(i as int) + retained_from(f, p, n, i as int),
                gone == exists|k: int| i <= k < previous@.len() && !n.contains(#[trigger] p[k]),
                self.config == old(self).config,
                self.persistent == old(self).persistent,
                self.drag == old(self).drag,
            decreases i,
        {
            i = i - 1;
            let ghost before = slots(self.entries@);
            let ghost before_frames = self.frames@;
            assert(p[i as int] == previous@[i as int].id);
            match position_of(new_identities, previous[i].id) {
                Some(_) => {
                    assert(n.contains(p[i as int]));
                    assert(e.take(i as int) + retained_from(e, p, n, i as int) =~= before);
                    assert(f.take(i as int) + retained_from(f, p, n, i as int) =~= before_frames);
                },
                None => {
                    assert(self.entries@.len() == before.len());
                    self.entries.remove(i);
                    self.frames.remove(i);
                    assert(slots(self.entries@) =~= before.remove(i as int));
                    assert(e.take(i as int) + retained_from(e, p, n, i as int) =~= before.remove(
                        i as int,
                    ));
                    assert(f.take(i as int) + retained_from(f, p, n, i as int)
                        =~= before_frames.remove(i as int));
                    gone = true;
                },
            }
        }
        assert(e.take(0) + retained_from(e, p, n, 0) =~= retained_from(e, p, n, 0));
        assert(f.take(0) + retained_from(f, p, n, 0) =~= retained_from(f, p, n, 0));
        gone
    }

    /// Creates the entry and the widgets of a new pane at the logical index
    /// `position`.
    pub fn add_pane(&mut self, position: usize)
        requires
            position <= old(self).entries@.len(),
            position <= old(self).frames@.len(),
            reach(slots(old(self).entries@)) + old(self).config.spacing <= i64::MAX,
            old(self).config.spacing >= 0,
        ensures
            slots(final(self).entries@) == slots(old(self).entries@).insert(
                position as int,
                fresh_slot(slots(old(self).entries@), old(self).config),
            ),
            final(self).frames@ == old(self).frames@.insert(position as int, fresh_frame()),
            final(self).config == old(self).config,
            final(self).persistent == old(self).persistent,
            final(self).drag == old(self).drag,
    {
        let ghost before = slots(self.entries@);
        proof {
            lemma_reach(before);
        }
        let next_pos: i64 = next_append_offset(&self.entries) + self.config.spacing;
        let entry = PaneEntry {
            target_offset: next_pos,
            display_offset: next_pos,
            width: self.config.pane_width,
            height: self.config.pane_height,
        };
        self.entries.insert(position, entry);
        self.frames.insert(
            position,
            PaneFrame { content: PaneWidget::new(), header: PaneHeaderWidget::new() },
        );
        assert(slots(self.entries@) =~= before.insert(
            position as int,
            fresh_slot(before, self.config),
        ));
    }

    /// The insertion pass: from the first new identity to the last, each
    /// identity that was not there gets a pane at its own logical index.
    fn create_new(
        &mut self,
        previous: &Vec<PaneData>,
        new_identities: &Vec<PaneData>,
        Ghost(bound): Ghost<int>,
        Ghost(step): Ghost<int>,
    ) -> (created: bool)
        requires
            old(self).config.valid(),
            distinct(ids(previous@)),
            distinct(ids(new_identities@)),
            old(self).entries@.len() == kept(ids(previous@), ids(new_identities@), 0),
            old(self).frames@.len() == old(self).entries@.len(),
            well_formed(slots(old(self).entries@)),
            bound >= 0,
            step >= old(self).config.pane_width + old(self).config.spacing,
            bound + new_identities@.len() * step <= i64::MAX,
            forall|k: int|
                0 <= k < old(self).entries@.len() ==> (#[trigger] slots(
                    old(self).entries@,
                )[k]).far_edge() <= bound && slots(old(self).entries@)[k].width + old(self).config.spacing <= step,
        ensures
            slots(final(self).entries@) == grown(
                slots(old(self).entries@),
                ids(previous@),
                ids(new_identities@),
                new_identities@.len() as int,
                old(self).config,
            ),
            final(self).frames@ == grown_frames(
                old(self).frames@,
                ids(previous@),
                ids(new_identities@),
                new_identities@.len() as int,
            ),
            created == exists|j: int|
                0 <= j < new_identities@.len() && !ids(previous@).contains(
                    #[trigger] ids(new_identities@)[j],
                ),
            final(self).entries@.len() == new_identities@.len(),
            final(self).frames@.len() == new_identities@.len(),
            well_formed(slots(final(self).entries@)),
            forall|k: int|
                0 <= k < final(self).entries@.len() ==> (#[trigger] slots(
                    final(self).entries@,
                )[k]).far_edge() <= bound + new_identities@.len() * step && slots(
                    final(self).entries@,
                )[k].width + old(self).config.spacing <= step,
            final(self).config == old(self).config,
            final(self).persistent == old(self).persistent,
            final(self).drag == old(self).drag,
    {
        let ghost e = slots(self.entries@);
        let ghost f = self.frames@;
        let ghost p = ids(previous@);
        let ghost n = ids(new_identities@);
        let ghost config = self.config;
        let mut created: bool = false;
        let mut j: usize = 0;
        proof {
            assert(n.skip(0) == n);
            assert(0 * step == 0) by (nonlinear_arith);
        }
        while j < new_identities.len()
            invariant
                j <= new_identities@.len(),
                p == ids(previous@),
                n == ids(new_identities@),
                distinct(p),
                distinct(n),
                config == self.config,
                config == old(self).config,
                config.valid(),
                bound >= 0,
                step >= config.pane_width + config.spacing,
                bound + new_identities@.len() * step <= i64::MAX,
                slots(self.entries@) == grown(e, p, n, j as int, config),
                self.frames@ == grown_frames(f, p, n, j as int),
                self.entries@.len() == j + kept(p, n.skip(j as int), 0),
                self.frames@.len() == self.entries@.len(),
                well_formed(slots(self.entries@)),
                created == exists|k: int| 0 <= k < j && !p.contains(#[trigger] n[k]),
                forall|k: int|
                    0 <= k < self.entries@.len() ==> (#[trigger] slots(
                        self.entries@,
                    )[k]).far_edge() <= bound + j * step && slots(self.entries@)[k].width
                        + config.spacing <= step,
                self.persistent == old(self).persistent,
                self.drag == old(self).drag,
            decreases new_identities@.len() - j,
        {
            let ghost before = slots(self.entries@);
            proof {
                lemma_kept_step(p, n, j as int);
                assert(n[j as int] == new_identities@[j as int].id);
                assert((j + 1) * step == j * step + step) by (nonlinear_arith);
                assert((j + 1) * step <= new_identities@.len() * step) by (nonlinear_arith)
                    requires
                        j + 1 <= new_identities@.len(),
                        step >= 0,
                ;
                assert(j * step >= 0) by (nonlinear_arith)
                    requires
                        j >= 0,
                        step >= 0,
                ;
            }
            match position_of(previous, new_identities[j].id) {
                Some(_) => {
                    assert(p.contains(n[j as int]));
                },
                None => {
                    proof {
                        lemma_reach_within(before, bound + j * step);
                    }
                    self.add_pane(j);
                    created = true;
                    proof {
                        let after = slots(self.entries@);
                        let fresh = fresh_slot(before, config);
                        assert(after == before.insert(j as int, fresh));
                        assert forall|k: int| 0 <= k < after.len() implies (#[trigger] after[k]).far_edge()
                            <= bound + (j + 1) * step && after[k].width + config.spacing <= step
                            && after[k].width > 0 && after[k].height >= 0 by {
                            if k < j {
                                assert(after[k] == before[k]);
                            } else if k > j {
                                assert(after[k] == before[k - 1]);
                            }
                        }
                    }
                },
            }
            j = j + 1;
        }
        proof {
            lemma_kept_none(p, n.skip(j as int), 0);
        }
        created
    }

    /// The first run: every identity gets a pane at the end of the dock.
    fn append_all(&mut self, count: usize, Ghost(bound): Ghost<int>, Ghost(step): Ghost<int>)
        requires
            old(self).config.valid(),
            old(self).frames@.len() == old(self).entries@.len(),
            well_formed(slots(old(self).entries@)),
            bound >= 0,
            step >= old(self).config.pane_width + old(self).config.spacing,
            bound + count * step <= i64::MAX,
            forall|k: int|
                0 <= k < old(self).entries@.len() ==> (#[trigger] slots(
                    old(self).entries@,
                )[k]).far_edge() <= bound && slots(old(self).entries@)[k].width + old(self).config.spacing <= step,
        ensures
            slots(final(self).entries@) == appended(
                slots(old(self).entries@),
                count as int,
                old(self).config,
            ),
            final(self).frames@ == appended_frames(old(self).frames@, count as int),
            final(self).entries@.len() == old(self).entries@.len() + count,
            final(self).frames@.len() == final(self).entries@.len(),
            well_formed(slots(final(self).entries@)),
            forall|k: int|
                0 <= k < final(self).entries@.len() ==> (#[trigger] slots(
                    final(self).entries@,
                )[k]).far_edge() <= bound + count * step && slots(final(self).entries@)[k].width
                    + old(self).config.spacing <= step,
            final(self).config == old(self).config,
            final(self).persistent == old(self).persistent,
            final(self).drag == old(self).drag,
    {
        let ghost e = slots(self.entries@);
        let ghost f = self.frames@;
        let ghost config = self.config;
        let mut j: usize = 0;
        proof {
            assert(0 * step == 0) by (nonlinear_arith);
        }
        while j < count
            invariant
                j <= count,
                config == self.config,
                config == old(self).config,
                config.valid(),
                bound >= 0,
                step >= config.pane_width + config.spacing,
                bound + count * step <= i64::MAX,
                slots(self.entries@) == appended(e, j as int, config),
                self.frames@ == appended_frames(f, j as int),
                self.entries@.len() == e.len() + j,
                self.frames@.len() == self.entries@.len(),
                well_formed(slots(self.entries@)),
                forall|k: int|
                    0 <= k < self.entries@.len() ==> (#[trigger] slots(
                        self.entries@,
                    )[k]).far_edge() <= bound + j * step && slots(self.entries@)[k].width
                        + config.spacing <= step,
                self.persistent == old(self).persistent,
                self.drag == old(self).drag,
            decreases count - j,
        {
            let ghost before = slots(self.entries@);
            let ghost before_frames = self.frames@;
            proof {
                assert((j + 1) * step == j * step + step) by (nonlinear_arith);
                assert((j + 1) * step <= count * step) by (nonlinear_arith)
                    requires
                        j + 1 <= count,
                        step >= 0,
                ;
                assert(j * step >= 0) by (nonlinear_arith)
                    requires
                        j >= 0,
                        step >= 0,
                ;
                lemma_reach_within(before, bound + j * step);
            }
            let end: usize = self.entries.len();
            self.add_pane(end);
            proof {
                let after = slots(self.entries@);
                let fresh = fresh_slot(before, config);
                assert(before.insert(before.len() as int, fresh) =~= before.push(fresh));
                assert(before_frames.insert(before_frames.len() as int, fresh_frame())
                    =~= before_frames.push(fresh_frame()));
                assert forall|k: int| 0 <= k < after.len() implies (#[trigger] after[k]).far_edge()
                    <= bound + (j + 1) * step && after[k].width + config.spacing <= step
                    && after[k].width > 0 && after[k].height >= 0 by {
                    if k < before.len() {
                        assert(after[k] == before[k]);
                    }
                }
            }
            j = j + 1;
        }
    }

    /// Brings the dock in line with the application's identities.
    ///
    /// Without previous identities (the first run) every identity gets a
    /// fresh pane at the end. Otherwise the panes of the identities that are
    /// gone are destroyed, the others stay as they are and in their order,
    /// and each identity that was not there gets a fresh pane at its own
    /// logical index. If a pane was destroyed or created, one repair pass
    /// runs and the result is `true`; if not, nothing changes.
    pub fn reconcile(
        &mut self,
        previous: Option<&Vec<PaneData>>,
        new_identities: &Vec<PaneData>,
    ) -> (changed: bool)
        requires
            old(self).wf(),
            old(self).admits_reconcile(ids_of(previous), ids(new_identities@)),
        ensures
            final(self).wf(),
            changed == changes(ids_of(previous), ids(new_identities@)),
            slots(final(self).entries@) == reconciled(
                slots(old(self).entries@),
                ids_of(previous),
                ids(new_identities@),
                old(self).config,
            ),
            final(self).frames@ == restructured_frames(
                old(self).frames@,
                ids_of(previous),
                ids(new_identities@),
            ),
            final(self).entries@.len() == (match previous {
                Some(_) => new_identities@.len(),
                None => old(self).entries@.len() + new_identities@.len(),
            }),
            final(self).config == old(self).config,
            final(self).persistent == old(self).persistent,
            final(self).drag == old(self).drag,
    {
        let ghost s = slots(self.entries@);
        let ghost f = self.frames@;
        let ghost n = ids(new_identities@);
        let ghost count = new_identities@.len() as int;
        let ghost top = reach(s);
        let ghost step = widest_with(s, self.config) + self.config.spacing;
        let ghost total = s.len() + 2 * count;
        let changed: bool = match previous {
            Some(p) => identities_differ(p, new_identities),
            None => new_identities.len() != 0,
        };
        if !changed {
            proof {
                match previous {
                    Some(p) => {
                        lemma_same_identities(ids(p@), n);
                        lemma_restructured_same(s, f, ids(p@), n, self.config);
                    },
                    None => {
                        assert(appended(s, 0, self.config) == s);
                        assert(appended_frames(f, 0) == f);
                    },
                }
            }
            return false;
        }
        proof {
            lemma_reach(s);
            lemma_widest(s);
            assert(count * step <= total * step && (s.len() + count) * step + count * step
                == total * step && count * step >= 0 && 2 * (count * step) <= total * step) by (nonlinear_arith)
                requires
                    count >= 0,
                    s.len() >= 0,
                    total == s.len() + 2 * count,
                    step >= 0,
            ;
        }
        let spacing: i64 = self.config.spacing;
        match previous {
            Some(previous) => {
                let ghost p = ids(previous@);
                let _gone: bool = self.remove_gone(previous, new_identities);
                proof {
                    let kept_slots = slots(self.entries@);
                    lemma_retained_members(s, p, n, 0);
                    lemma_retained_len(s, p, n, 0);
                    lemma_retained_len(f, p, n, 0);
                    assert forall|k: int| 0 <= k < kept_slots.len() implies (#[trigger] kept_slots[k]).far_edge()
                        <= top && kept_slots[k].width + spacing <= step && kept_slots[k].width > 0
                        && kept_slots[k].height >= 0 by {
                        let i = choose|i: int| 0 <= i < s.len() && s[i] == kept_slots[k];
                        assert(s[i].far_edge() <= top);
                        assert(s[i].width <= widest(s));
                    }
                }
                let _created: bool = self.create_new(
                    previous,
                    new_identities,
                    Ghost(top),
                    Ghost(step),
                );
            },
            None => {
                proof {
                    assert forall|k: int| 0 <= k < s.len() implies (#[trigger] s[k]).far_edge() <= top
                        && s[k].width + spacing <= step by {
                        assert(s[k].width <= widest(s));
                    }
                }
                self.append_all(new_identities.len(), Ghost(top), Ghost(step));
            },
        }
        let ghost built = slots(self.entries@);
        proof {
            let m = built.len() as int;
            lemma_reach_within(built, top + count * step);
            lemma_widest_within(built, step - spacing);
            assert(m * (widest(built) + spacing) <= m * step) by (nonlinear_arith)
                requires
                    m >= 0,
                    widest(built) + spacing <= step,
            ;
            assert(m * step <= (s.len() + count) * step) by (nonlinear_arith)
                requires
                    m <= s.len() + count,
                    step >= 0,
            ;
        }
        refresh_all_target_positions(&mut self.entries, spacing);
        proof {
            let out = slots(self.entries@);
            assert forall|k: int| 0 <= k < out.len() implies (#[trigger] out[k]).width > 0
                && out[k].height >= 0 by {
                assert(built[k].at(out[k].target) == out[k]);
                assert(built[k].width > 0);
            }
        }
        true
    }

    /// The application's state has changed from `old_data` to `data`: the
    /// dock is reconciled with the new identities. The result says whether
    /// the host has to rebuild its children and lay out again, which it
    /// must when a pane was destroyed or created or the dock was shown or
    /// hidden.
    pub fn update(&mut self, old_data: &AppState, data: &AppState) -> (relayout: bool)
        requires
            old(self).wf(),
            old(self).admits_reconcile(Some(ids(old_data.panes@)), ids(data.panes@)),
        ensures
            final(self).wf(),
            relayout == (differs(ids(old_data.panes@), ids(data.panes@)) || old_data.show_dock
                != data.show_dock),
            slots(final(self).entries@) == reconciled(
                slots(old(self).entries@),
                Some(ids(old_data.panes@)),
                ids(data.panes@),
                old(self).config,
            ),
            final(self).frames@ == restructured_frames(
                old(self).frames@,
                Some(ids(old_data.panes@)),
                ids(data.panes@),
            ),
            final(self).entries@.len() == data.panes@.len(),
            final(self).config == old(self).config,
            final(self).persistent == old(self).persistent,
            final(self).drag == old(self).drag,
    {
        let changed: bool = self.reconcile(Some(&old_data.panes), &data.panes);
        changed || old_data.show_dock != data.show_dock
    }

    /// A lifecycle event arrives. When the dock has just been added to the
    /// widget tree it is reconciled for the first time: every identity gets
    /// a pane. The result says whether the host has to rebuild its children
    /// and lay out again.
    pub fn lifecycle(&mut self, widget_added: bool, data: &AppState) -> (relayout: bool)
        requires
            old(self).wf(),
            widget_added ==> old(self).admits_reconcile(None, ids(data.panes@)),
        ensures
            final(self).wf(),
            relayout == (widget_added && data.panes@.len() > 0),
            slots(final(self).entries@) == (if widget_added {
                reconciled(slots(old(self).entries@), None, ids(data.panes@), old(self).config)
            } else {
                slots(old(self).entries@)
            }),
            final(self).frames@ == (if widget_added {
                restructured_frames(old(self).frames@, None, ids(data.panes@))
            } else {
                old(self).frames@
            }),
            final(self).config == old(self).config,
            final(self).persistent == old(self).persistent,
            final(self).drag == old(self).drag,
    {
        if widget_added {
            self.reconcile(None, &data.panes)
        } else {
            false
        }
    }
}

} // verus!
