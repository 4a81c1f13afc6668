//! Slot positions: where a pane goes, given the widths and targets of the others.

use vstd::prelude::*;
use crate::entry::{PaneEntry, Slot, same_panes, slots, well_formed};
use crate::fixed::lemma_fixed_point_has_no_overlap;
use crate::settled::disjoint;

verus! {

/// The far edge of the outermost target span, or 0 for an empty dock.
pub open spec fn reach(s: Seq<Slot>) -> int
    decreases s.len(),
{
    if s.len() == 0 {
        0
    } else if s.last().far_edge() > reach(s.drop_last()) {
        s.last().far_edge()
    } else {
        reach(s.drop_last())
    }
}

/// `reach` is an upper bound of every far edge, is never negative, and is
/// attained by some entry unless it is 0.
pub proof fn lemma_reach(s: Seq<Slot>)
    ensures
        reach(s) >= 0,
        forall|i: int| 0 <= i < s.len() ==> (#[trigger] s[i]).far_edge() <= reach(s),
        reach(s) == 0 || exists|i: int| 0 <= i < s.len() && (#[trigger] s[i]).far_edge() == reach(s),
    decreases s.len(),
{
    if s.len() > 0 {
        let t = s.drop_last();
        lemma_reach(t);
        assert forall|i: int| 0 <= i < s.len() implies (#[trigger] s[i]).far_edge() <= reach(s) by {
            if i < t.len() {
                assert(t[i] == s[i]);
            }
        }
        if reach(s) != 0 {
            if s.last().far_edge() > reach(t) {
                assert(s[s.len() - 1].far_edge() == reach(s));
            } else {
                let i = choose|i: int| 0 <= i < t.len() && (#[trigger] t[i]).far_edge() == reach(t);
                assert(s[i] == t[i]);
            }
        }
    }
}

/// Where a pane appended to the dock starts, before spacing: just past the
/// outermost occupied slot.
pub fn next_append_offset(entries: &Vec<PaneEntry>) -> (offset: i64)
    requires
        reach(slots(entries@)) <= i64::MAX,
    ensures
        offset == reach(slots(entries@)),
{
    let ghost s = slots(entries@);
    let mut next: i64 = 0;
    let mut i: usize = 0;
    while i < entries.len()
        invariant
            i <= entries.len(),
            s == slots(entries@),
            next == reach(s.take(i as int)),
            reach(s) <= i64::MAX,
        decreases entries.len() - i,
    {
        proof {
            assert(s.take(i as int + 1).drop_last() == s.take(i as int));
            assert(s.take(i as int + 1).last() == s[i as int]);
            lemma_reach(s);
        }
        let far: i128 = entries[i].target_offset as i128 + entries[i].width as i128;
        if far > next as i128 {
            assert(far == s[i as int].far_edge());
            next = far as i64;
        }
        i = i + 1;
    }
    proof {
        assert(s.take(i as int) == s);
    }
    next
}

/// Whether entry `j` may be the neighbour of a pane probing at `probe`: it is
/// not the pane itself, and its slot center lies nearer to the anchored edge.
pub open spec fn nearer(s: Seq<Slot>, probe: int, exclude: int, j: int) -> bool {
    0 <= j < s.len() && j != exclude && s[j].center() < probe
}

/// Whether entry `j` is the neighbour on the anchored side of `probe`: among
/// the candidates its center is the largest, and among equal centers it
/// comes first.
pub open spec fn is_closest(s: Seq<Slot>, probe: int, exclude: int, j: int) -> bool {
    &&& nearer(s, probe, exclude, j)
    &&& forall|k: int| #[trigger]
        nearer(s, probe, exclude, k) ==> s[k].center() < s[j].center() || (s[k].center()
            == s[j].center() && j <= k)
}

/// The neighbour on the anchored side of `probe`, if the dock holds at least
/// two panes and one of the others has its center below `probe`.
pub open spec fn closest_to_right(s: Seq<Slot>, probe: int, exclude: int) -> Option<int> {
    if s.len() >= 2 && exists|j: int| is_closest(s, probe, exclude, j) {
        Some(choose|j: int| is_closest(s, probe, exclude, j))
    } else {
        None
    }
}

/// At most one entry is the closest.
pub proof fn lemma_closest_unique(s: Seq<Slot>, probe: int, exclude: int, a: int, b: int)
    requires
        is_closest(s, probe, exclude, a),
        is_closest(s, probe, exclude, b),
    ensures
        a == b,
{
    assert(nearer(s, probe, exclude, a));
    assert(nearer(s, probe, exclude, b));
}

/// Finds the pane to align with: among the entries other than `exclude`, the
/// one whose slot center is the largest below `probe_offset`.
pub fn closest_entry_to_right(
    entries: &Vec<PaneEntry>,
    probe_offset: i64,
    exclude_index: usize,
) -> (found: Option<usize>)
    ensures
        (match found {
            Some(j) => closest_to_right(slots(entries@), probe_offset as int, exclude_index as int)
                == Some(j as int),
            None => closest_to_right(slots(entries@), probe_offset as int, exclude_index as int)
                is None,
        }),
        found matches Some(j) ==> j < entries.len() && j != exclude_index,
{
    let ghost s = slots(entries@);
    let ghost probe = probe_offset as int;
    let ghost exclude = exclude_index as int;
    if entries.len() <= 1 {
        return None;
    }
    let mut best: Option<usize> = None;
    let mut best_center: i128 = 0;
    let mut i: usize = 0;
    while i < entries.len()
        invariant
            i <= entries.len(),
            s == slots(entries@),
            probe == probe_offset as int,
            exclude == exclude_index as int,
            match best {
                Some(j) => {
                    &&& j < i
                    &&& nearer(s, probe, exclude, j as int)
                    &&& best_center == s[j as int].center()
                    &&& forall|k: int|
                        0 <= k < i && #[trigger] nearer(s, probe, exclude, k) ==> s[k].center()
                            < best_center || (s[k].center() == best_center && j <= k)
                },
                None => forall|k: int| 0 <= k < i ==> !#[trigger] nearer(s, probe, exclude, k),
            },
        decreases entries.len() - i,
    {
        let center: i128 = slot_center(&entries[i]);
        if i != exclude_index && center < probe_offset as i128 {
            let better: bool = match best {
                Some(_) => center > best_center,
                None => true,
            };
            if better {
                best = Some(i);
                best_center = center;
            }
        }
        i = i + 1;
    }
    proof {
        match best {
            Some(j) => {
                assert(is_closest(s, probe, exclude, j as int));
                let c = choose|j: int| is_closest(s, probe, exclude, j);
                lemma_closest_unique(s, probe, exclude, j as int, c);
            },
            None => {
                assert forall|j: int| !is_closest(s, probe, exclude, j) by {
                    if is_closest(s, probe, exclude, j) {
                        assert(nearer(s, probe, exclude, j));
                    }
                }
            },
        }
    }
    best
}

/// The slot center of one entry, wide enough for any offset and width.
pub fn slot_center(entry: &PaneEntry) -> (center: i128)
    ensures
        center == entry@.center(),
{
    let w: i128 = entry.width as i128;
    let half: i128 = if w >= 0 {
        w / 2
    } else {
        -((1 - w) / 2)
    };
    entry.target_offset as i128 + half
}

/// Where a pane probing at `probe` comes to rest: one spacing past its
/// neighbour's far edge, or one spacing from the anchored edge without one.
pub open spec fn resolved_target(s: Seq<Slot>, probe: int, exclude: int, spacing: int) -> int {
    match closest_to_right(s, probe, exclude) {
        Some(j) => s[j].far_edge() + spacing,
        None => spacing,
    }
}

/// The target for a pane at `probe_offset`, aligned with its neighbour on the
/// anchored side.
pub fn resolved_target_for(
    entries: &Vec<PaneEntry>,
    probe_offset: i64,
    exclude_index: usize,
    spacing: i64,
) -> (target: i64)
    requires
        i64::MIN <= resolved_target(
            slots(entries@),
            probe_offset as int,
            exclude_index as int,
            spacing as int,
        ) <= i64::MAX,
    ensures
        target == resolved_target(
            slots(entries@),
            probe_offset as int,
            exclude_index as int,
            spacing as int,
        ),
{
    match closest_entry_to_right(entries, probe_offset, exclude_index) {
        Some(j) => {
            let wide: i128 = entries[j].target_offset as i128 + entries[j].width as i128
                + spacing as i128;
            assert(wide == slots(entries@)[j as int].far_edge() + spacing);
            wide as i64
        },
        None => spacing,
    }
}

/// Stores a new target in entry `i`.
pub(crate) fn set_target(entries: &mut Vec<PaneEntry>, i: usize, target: i64)
    requires
        i < old(entries).len(),
    ensures
        final(entries)@ == old(entries)@.update(
            i as int,
            (PaneEntry { target_offset: target, ..old(entries)[i as int] }),
        ),
        slots(final(entries)@) == slots(old(entries)@).update(
            i as int,
            slots(old(entries)@)[i as int].at(target as int),
        ),
{
    let entry = PaneEntry { target_offset: target, ..entries[i] };
    entries.set(i, entry);
    assert(slots(entries@) =~= slots(old(entries)@).update(
        i as int,
        slots(old(entries)@)[i as int].at(target as int),
    ));
}

/// Whether the target of entry `i` lies inside the span of the moved entry.
pub open spec fn in_the_way(s: Seq<Slot>, moved: int, i: int) -> bool {
    0 <= i < s.len() && i != moved && s[moved].target <= s[i].target < s[moved].far_edge()
}

/// The largest distance by which one of the first `k` entries would have to
/// move to leave the span of the moved entry, or 0 if none is in the way.
pub open spec fn needed_shift(s: Seq<Slot>, moved: int, k: int) -> int
    decreases k,
{
    if k <= 0 {
        0
    } else {
        let rest = needed_shift(s, moved, k - 1);
        let own = s[moved].far_edge() - s[k - 1].target;
        if in_the_way(s, moved, k - 1) && own >= rest {
            own
        } else {
            rest
        }
    }
}

/// The entries after the moved pane has claimed its span: every other pane
/// at or beyond the moved pane's target moves outward by the same amount,
/// the least one that clears the span.
pub open spec fn shifted_left_of(s: Seq<Slot>, moved: int) -> Seq<Slot> {
    let shift = needed_shift(s, moved, s.len() as int);
    Seq::new(
        s.len(),
        |i: int|
            if i != moved && s[i].target >= s[moved].target {
                s[i].at(s[i].target + shift)
            } else {
                s[i]
            },
    )
}

/// The needed shift is not negative, clears every entry in the way, and is
/// no larger than that takes.
pub proof fn lemma_needed_shift(s: Seq<Slot>, moved: int, k: int)
    requires
        0 <= moved < s.len(),
        0 <= k <= s.len(),
    ensures
        needed_shift(s, moved, k) >= 0,
        forall|i: int|
            0 <= i < k && #[trigger] in_the_way(s, moved, i) ==> s[i].target + needed_shift(
                s,
                moved,
                k,
            ) >= s[moved].far_edge(),
        needed_shift(s, moved, k) == 0 || exists|i: int|
            0 <= i < k && #[trigger] in_the_way(s, moved, i) && s[i].target + needed_shift(
                s,
                moved,
                k,
            ) == s[moved].far_edge(),
    decreases k,
{
    if k > 0 {
        lemma_needed_shift(s, moved, k - 1);
        let rest = needed_shift(s, moved, k - 1);
        let own = s[moved].far_edge() - s[k - 1].target;
        if in_the_way(s, moved, k - 1) && own >= rest {
            assert(in_the_way(s, moved, k - 1) && s[k - 1].target + own == s[moved].far_edge());
        } else if rest != 0 {
            let i = choose|i: int|
                0 <= i < k - 1 && #[trigger] in_the_way(s, moved, i) && s[i].target + rest
                    == s[moved].far_edge();
            assert(in_the_way(s, moved, i));
        }
    }
}

/// After the shift no target lies inside the span of the moved entry.
pub proof fn lemma_shift_clears(s: Seq<Slot>, moved: int)
    requires
        0 <= moved < s.len(),
    ensures
        forall|i: int| !in_the_way(shifted_left_of(s, moved), moved, i),
{
    lemma_needed_shift(s, moved, s.len() as int);
    let r = shifted_left_of(s, moved);
    assert forall|i: int| !in_the_way(r, moved, i) by {
        if 0 <= i < s.len() && i != moved && s[i].target >= s[moved].target {
            if in_the_way(s, moved, i) {
            } else {
                assert(s[i].target >= s[moved].far_edge());
            }
        }
    }
}

/// Makes room for the pane at `moved_index` after it has taken a new target:
/// every other pane whose target is at or beyond that target moves outward by
/// the least common amount that leaves no target inside the moved span.
pub fn shift_left_of(entries: &mut Vec<PaneEntry>, moved_index: usize)
    requires
        moved_index < old(entries).len(),
        forall|i: int|
            0 <= i < old(entries).len() ==> (#[trigger] shifted_left_of(
                slots(old(entries)@),
                moved_index as int,
            )[i]).target <= i64::MAX,
    ensures
        slots(final(entries)@) == shifted_left_of(slots(old(entries)@), moved_index as int),
        forall|i: int| !in_the_way(slots(final(entries)@), moved_index as int, i),
{
    let ghost s = slots(entries@);
    let ghost moved = moved_index as int;
    let near: i64 = entries[moved_index].target_offset;
    let far: i128 = near as i128 + entries[moved_index].width as i128;
    let mut shift: i128 = 0;
    let mut i: usize = 0;
    while i < entries.len()
        invariant
            i <= entries.len(),
            s == slots(entries@),
            moved == moved_index as int,
            moved < s.len(),
            near == s[moved].target,
            far == s[moved].far_edge(),
            shift == needed_shift(s, moved, i as int),
            0 <= shift <= u64::MAX,
        decreases entries.len() - i,
    {
        if i != moved_index {
            let at: i64 = entries[i].target_offset;
            if at >= near && (at as i128) < far {
                let own: i128 = far - at as i128;
                if own >= shift {
                    shift = own;
                }
            }
        }
        i = i + 1;
    }
    proof {
        lemma_shift_clears(s, moved);
    }
    if shift > 0 {
        let ghost goal = shifted_left_of(s, moved);
        let mut j: usize = 0;
        while j < entries.len()
            invariant
                j <= entries.len(),
                entries.len() == s.len(),
                moved == moved_index as int,
                moved < s.len(),
                near == s[moved].target,
                shift == needed_shift(s, moved, s.len() as int),
                0 <= shift <= u64::MAX,
                goal == shifted_left_of(s, moved),
                forall|k: int| 0 <= k < s.len() ==> (#[trigger] goal[k]).target <= i64::MAX,
                forall|k: int| 0 <= k < j ==> (#[trigger] slots(entries@)[k]) == goal[k],
                forall|k: int| j <= k < s.len() ==> (#[trigger] slots(entries@)[k]) == s[k],
            decreases entries.len() - j,
        {
            let ghost before = slots(entries@);
            assert(before[j as int] == s[j as int]);
            if j != moved_index {
                let at: i64 = entries[j].target_offset;
                if at >= near {
                    assert(goal[j as int].target == at + shift);
                    set_target(entries, j, (at as i128 + shift) as i64);
                }
            }
            assert(slots(entries@)[j as int] == goal[j as int]);
            assert forall|k: int| j < k < s.len() implies (#[trigger] slots(entries@)[k])
                == s[k] by {
                assert(before[k] == s[k]);
            }
            assert forall|k: int| 0 <= k < j + 1 implies (#[trigger] slots(entries@)[k])
                == goal[k] by {
                if k < j {
                    assert(before[k] == goal[k]);
                }
            }
            j = j + 1;
        }
        assert(slots(entries@) =~= goal);
    } else {
        assert(slots(entries@) =~= shifted_left_of(s, moved));
    }
}

/// The smallest target in the dock, or 0 for an empty dock.
pub open spec fn lowest_target(s: Seq<Slot>) -> int
    decreases s.len(),
{
    if s.len() == 0 {
        0
    } else if s.len() == 1 {
        s[0].target
    } else if s.last().target < lowest_target(s.drop_last()) {
        s.last().target
    } else {
        lowest_target(s.drop_last())
    }
}

/// `lowest_target` is a lower bound of every target and the target of some entry.
pub proof fn lemma_lowest_target(s: Seq<Slot>)
    requires
        s.len() > 0,
    ensures
        forall|i: int| 0 <= i < s.len() ==> lowest_target(s) <= (#[trigger] s[i]).target,
        exists|i: int| 0 <= i < s.len() && (#[trigger] s[i]).target == lowest_target(s),
    decreases s.len(),
{
    if s.len() == 1 {
        assert(s[0].target == lowest_target(s));
    } else {
        let t = s.drop_last();
        lemma_lowest_target(t);
        assert forall|i: int| 0 <= i < s.len() implies lowest_target(s) <= (#[trigger] s[i]).target by {
            if i < t.len() {
                assert(t[i] == s[i]);
            }
        }
        if s.last().target < lowest_target(t) {
            assert(s[s.len() - 1].target == lowest_target(s));
        } else {
            let i = choose|i: int| 0 <= i < t.len() && (#[trigger] t[i]).target == lowest_target(t);
            assert(s[i] == t[i]);
        }
    }
}

/// The largest width in the dock, or 0 for an empty dock.
pub open spec fn widest(s: Seq<Slot>) -> int
    decreases s.len(),
{
    if s.len() == 0 {
        0
    } else if s.last().width > widest(s.drop_last()) {
        s.last().width
    } else {
        widest(s.drop_last())
    }
}

/// `widest` is an upper bound of every width and is never negative.
pub proof fn lemma_widest(s: Seq<Slot>)
    ensures
        widest(s) >= 0,
        forall|i: int| 0 <= i < s.len() ==> (#[trigger] s[i]).width <= widest(s),
    decreases s.len(),
{
    if s.len() > 0 {
        let t = s.drop_last();
        lemma_widest(t);
        assert forall|i: int| 0 <= i < s.len() implies (#[trigger] s[i]).width <= widest(s) by {
            if i < t.len() {
                assert(t[i] == s[i]);
            }
        }
    }
}

/// `reach` depends on the targets and widths alone.
pub proof fn lemma_same_reach(a: Seq<Slot>, b: Seq<Slot>)
    requires
        a.len() == b.len(),
        forall|i: int|
            0 <= i < a.len() ==> (#[trigger] a[i]).target == b[i].target && a[i].width
                == b[i].width,
    ensures
        reach(a) == reach(b),
    decreases a.len(),
{
    if a.len() > 0 {
        assert(a.last().target == b.last().target && a.last().width == b.last().width) by {
            assert(a[a.len() - 1].target == b[a.len() - 1].target);
        }
        assert forall|i: int| 0 <= i < a.drop_last().len() implies (#[trigger] a.drop_last()[i]).target
            == b.drop_last()[i].target && a.drop_last()[i].width == b.drop_last()[i].width by {
            assert(a[i].target == b[i].target);
        }
        lemma_same_reach(a.drop_last(), b.drop_last());
    }
}

/// `widest` depends on the widths alone.
pub proof fn lemma_same_widest(a: Seq<Slot>, b: Seq<Slot>)
    requires
        a.len() == b.len(),
        forall|i: int| 0 <= i < a.len() ==> (#[trigger] a[i]).width == b[i].width,
    ensures
        widest(a) == widest(b),
    decreases a.len(),
{
    if a.len() > 0 {
        assert(a.last().width == b.last().width) by {
            assert(a[a.len() - 1].width == b[a.len() - 1].width);
        }
        assert forall|i: int| 0 <= i < a.drop_last().len() implies (#[trigger] a.drop_last()[i]).width
            == b.drop_last()[i].width by {
            assert(a[i].width == b[i].width);
        }
        lemma_same_widest(a.drop_last(), b.drop_last());
    }
}

/// If no far edge lies beyond a limit that is not negative, neither does `reach`.
pub proof fn lemma_reach_within(s: Seq<Slot>, bound: int)
    requires
        bound >= 0,
        forall|i: int| 0 <= i < s.len() ==> (#[trigger] s[i]).far_edge() <= bound,
    ensures
        reach(s) <= bound,
{
    lemma_reach(s);
}

/// If no width is larger than a limit that is not negative, neither is `widest`.
pub proof fn lemma_widest_within(s: Seq<Slot>, bound: int)
    requires
        bound >= 0,
        forall|i: int| 0 <= i < s.len() ==> (#[trigger] s[i]).width <= bound,
    ensures
        widest(s) <= bound,
    decreases s.len(),
{
    if s.len() > 0 {
        assert(s.last().width <= bound) by {
            assert(s[s.len() - 1].width <= bound);
        }
        assert forall|i: int| 0 <= i < s.drop_last().len() implies (#[trigger] s.drop_last()[i]).width
            <= bound by {
            assert(s[i].width <= bound);
        }
        lemma_widest_within(s.drop_last(), bound);
    }
}

/// Whether the dock can take `steps` placements without an offset leaving
/// the range of the stored integers: each placement moves the outermost far
/// edge out by at most the largest width and one spacing.
pub open spec fn has_room(s: Seq<Slot>, spacing: int, steps: int) -> bool {
    reach(s) + steps * (widest(s) + spacing) <= i64::MAX
}

/// The dock pulled towards the anchored edge: when the nearest target is
/// more than one spacing away, every target gives up the excess.
pub open spec fn reanchored(s: Seq<Slot>, spacing: int) -> Seq<Slot> {
    let excess = lowest_target(s) - spacing;
    if s.len() > 0 && excess > 0 {
        Seq::new(s.len(), |i: int| s[i].at(s[i].target - excess))
    } else {
        s
    }
}

/// Whether an entry other than `i` has exactly the target `t`.
pub open spec fn collides(s: Seq<Slot>, i: int, t: int) -> bool {
    exists|j: int| 0 <= j < s.len() && j != i && (#[trigger] s[j]).target == t
}

/// One placement: entry `i` takes the target that its own center resolves
/// to; if another entry already has that very target, every other entry at
/// or beyond it moves outward by the width of entry `i` and one spacing.
pub open spec fn settle_at(s: Seq<Slot>, i: int, spacing: int) -> Seq<Slot> {
    let t = resolved_target(s, s[i].center(), i, spacing);
    let placed = s.update(i, s[i].at(t));
    if collides(placed, i, t) {
        let push = s[i].width + spacing;
        Seq::new(
            s.len(),
            |j: int|
                if j != i && placed[j].target >= t {
                    placed[j].at(placed[j].target + push)
                } else {
                    placed[j]
                },
        )
    } else {
        placed
    }
}

/// The first `k` entries placed one after the other, in logical order.
pub open spec fn settle_through(s: Seq<Slot>, k: int, spacing: int) -> Seq<Slot>
    decreases k,
{
    if k <= 0 {
        s
    } else {
        settle_at(settle_through(s, k - 1, spacing), k - 1, spacing)
    }
}

/// One full repair pass: the dock is pulled to the anchored edge, then every
/// entry is placed once, in logical order.
pub open spec fn refreshed(s: Seq<Slot>, spacing: int) -> Seq<Slot> {
    settle_through(reanchored(s, spacing), s.len() as int, spacing)
}

/// The smallest target of a dock that is not empty.
fn lowest(entries: &Vec<PaneEntry>) -> (low: i64)
    requires
        entries.len() > 0,
    ensures
        low == lowest_target(slots(entries@)),
{
    let ghost s = slots(entries@);
    let mut low: i64 = entries[0].target_offset;
    let mut i: usize = 1;
    assert(s.take(1).len() == 1);
    while i < entries.len()
        invariant
            1 <= i <= entries.len(),
            s == slots(entries@),
            low == lowest_target(s.take(i as int)),
        decreases entries.len() - i,
    {
        proof {
            assert(s.take(i as int + 1).drop_last() == s.take(i as int));
            assert(s.take(i as int + 1).last() == s[i as int]);
        }
        if entries[i].target_offset < low {
            low = entries[i].target_offset;
        }
        i = i + 1;
    }
    proof {
        assert(s.take(i as int) == s);
    }
    low
}

/// Pulls the dock towards the anchored edge.
fn reanchor(entries: &mut Vec<PaneEntry>, spacing: i64)
    requires
        spacing >= 0,
    ensures
        slots(final(entries)@) == reanchored(slots(old(entries)@), spacing as int),
{
    let ghost s = slots(entries@);
    if entries.len() == 0 {
        return ;
    }
    let excess: i128 = lowest(entries) as i128 - spacing as i128;
    if excess > 0 {
        let ghost goal = reanchored(s, spacing as int);
        proof {
            lemma_lowest_target(s);
        }
        let mut i: usize = 0;
        while i < entries.len()
            invariant
                i <= entries.len(),
                entries.len() == s.len(),
                spacing >= 0,
                excess == lowest_target(s) - spacing,
                excess > 0,
                goal == reanchored(s, spacing as int),
                forall|k: int| 0 <= k < s.len() ==> lowest_target(s) <= (#[trigger] s[k]).target,
                forall|k: int| 0 <= k < s.len() ==> i64::MIN <= (#[trigger] s[k]).target <= i64::MAX,
                forall|k: int| 0 <= k < i ==> (#[trigger] slots(entries@)[k]) == goal[k],
                forall|k: int| i <= k < s.len() ==> (#[trigger] slots(entries@)[k]) == s[k],
            decreases entries.len() - i,
        {
            let ghost before = slots(entries@);
            assert(before[i as int] == s[i as int]);
            let pulled: i128 = entries[i].target_offset as i128 - excess;
            set_target(entries, i, pulled as i64);
            assert(slots(entries@)[i as int] == goal[i as int]);
            assert forall|k: int| i < k < s.len() implies (#[trigger] slots(entries@)[k])
                == s[k] by {
                assert(before[k] == s[k]);
            }
            assert forall|k: int| 0 <= k < i + 1 implies (#[trigger] slots(entries@)[k])
                == goal[k] by {
                if k < i {
                    assert(before[k] == goal[k]);
                }
            }
            i = i + 1;
        }
        assert(slots(entries@) =~= goal);
    }
}

/// Places entry `i`. `bound` limits every far edge before the placement.
fn settle(entries: &mut Vec<PaneEntry>, i: usize, spacing: i64, Ghost(bound): Ghost<int>)
    requires
        i < old(entries).len(),
        spacing >= 0,
        well_formed(slots(old(entries)@)),
        bound >= 0,
        forall|k: int|
            0 <= k < old(entries).len() ==> (#[trigger] slots(old(entries)@)[k]).far_edge()
                <= bound,
        bound + slots(old(entries)@)[i as int].width + spacing <= i64::MAX,
    ensures
        slots(final(entries)@) == settle_at(slots(old(entries)@), i as int, spacing as int),
        same_panes(slots(old(entries)@), slots(final(entries)@)),
        forall|k: int|
            0 <= k < final(entries).len() ==> (#[trigger] slots(final(entries)@)[k]).far_edge()
                <= bound + slots(old(entries)@)[i as int].width + spacing,
{
    let ghost s = slots(entries@);
    let ghost goal = settle_at(s, i as int, spacing as int);
    let width: i64 = entries[i].width;
    let probe: i128 = slot_center(&entries[i]);
    assert(s[i as int].far_edge() <= bound);
    assert(s[i as int].target <= probe <= s[i as int].far_edge());
    proof {
        let r = closest_to_right(s, probe as int, i as int);
        if r is Some {
            let j = r->0;
            assert(is_closest(s, probe as int, i as int, j));
            assert(s[j].far_edge() <= bound);
            assert(s[j].width > 0);
        }
    }
    let t: i64 = resolved_target_for(entries, probe as i64, i, spacing);
    set_target(entries, i, t);
    let ghost placed = s.update(i as int, s[i as int].at(t as int));
    assert(slots(entries@) == placed);
    let mut taken: bool = false;
    let mut j: usize = 0;
    while j < entries.len()
        invariant
            j <= entries.len(),
            i < entries.len(),
            placed == slots(entries@),
            taken <==> exists|k: int| 0 <= k < j && k != i && (#[trigger] placed[k]).target == t,
        decreases entries.len() - j,
    {
        if j != i && entries[j].target_offset == t {
            assert(placed[j as int].target == t);
            taken = true;
        }
        j = j + 1;
    }
    assert(taken == collides(placed, i as int, t as int));
    if taken {
        let push: i64 = width + spacing;
        let mut k: usize = 0;
        while k < entries.len()
            invariant
                k <= entries.len(),
                i < entries.len(),
                entries.len() == placed.len(),
                placed.len() == s.len(),
                placed == s.update(i as int, s[i as int].at(t as int)),
                goal == settle_at(s, i as int, spacing as int),
                t == resolved_target(s, s[i as int].center(), i as int, spacing as int),
                collides(placed, i as int, t as int),
                push == s[i as int].width + spacing,
                push >= 0,
                bound + push <= i64::MAX,
                forall|m: int| 0 <= m < s.len() ==> (#[trigger] s[m]).far_edge() <= bound,
                forall|m: int| 0 <= m < s.len() ==> (#[trigger] s[m]).width > 0,
                forall|m: int| 0 <= m < k ==> (#[trigger] slots(entries@)[m]) == goal[m],
                forall|m: int| k <= m < s.len() ==> (#[trigger] slots(entries@)[m]) == placed[m],
            decreases entries.len() - k,
        {
            let ghost before = slots(entries@);
            assert(before[k as int] == placed[k as int]);
            if k != i {
                assert(placed[k as int] == s[k as int]);
                let at: i64 = entries[k].target_offset;
                if at >= t {
                    set_target(entries, k, at + push);
                }
            }
            assert(slots(entries@)[k as int] == goal[k as int]);
            assert forall|m: int| k < m < s.len() implies (#[trigger] slots(entries@)[m])
                == placed[m] by {
                assert(before[m] == placed[m]);
            }
            assert forall|m: int| 0 <= m < k + 1 implies (#[trigger] slots(entries@)[m])
                == goal[m] by {
                if m < k {
                    assert(before[m] == goal[m]);
                }
            }
            k = k + 1;
        }
        assert(slots(entries@) =~= goal);
    } else {
        assert(slots(entries@) =~= goal);
    }
    proof {
        lemma_settle_at_bound(s, i as int, spacing as int, bound);
    }
}

/// A placement keeps every pane but for its target, and moves no far edge
/// beyond the old limit by more than the placed width and one spacing.
pub proof fn lemma_settle_at_bound(s: Seq<Slot>, i: int, spacing: int, bound: int)
    requires
        0 <= i < s.len(),
        spacing >= 0,
        well_formed(s),
        bound >= 0,
        forall|k: int| 0 <= k < s.len() ==> (#[trigger] s[k]).far_edge() <= bound,
    ensures
        same_panes(s, settle_at(s, i, spacing)),
        forall|k: int|
            0 <= k < s.len() ==> (#[trigger] settle_at(s, i, spacing)[k]).far_edge() <= bound
                + s[i].width + spacing,
{
    let t = resolved_target(s, s[i].center(), i, spacing);
    let r = closest_to_right(s, s[i].center(), i);
    if r is Some {
        let j = r->0;
        assert(is_closest(s, s[i].center(), i, j));
        assert(s[j].far_edge() <= bound);
    }
    assert(t <= bound + spacing);
    let placed = s.update(i, s[i].at(t));
    let out = settle_at(s, i, spacing);
    assert forall|k: int| 0 <= k < s.len() implies (#[trigger] out[k]).far_edge() <= bound
        + s[i].width + spacing && s[k].at(out[k].target) == out[k] by {
        assert(s[k].far_edge() <= bound);
        assert(s[k].width > 0);
        assert(s[i].width > 0);
    }
}

/// Repairs every target after the panes or their order have changed: the
/// dock is pulled to the anchored edge, then each entry in logical order
/// takes the target that its own center resolves to, pushing the others
/// outward when it lands on an occupied target. One pass; a later pass may
/// still move panes. Once a pass moves no pane, no two target spans overlap.
pub fn refresh_all_target_positions(entries: &mut Vec<PaneEntry>, spacing: i64)
    requires
        spacing >= 0,
        well_formed(slots(old(entries)@)),
        has_room(slots(old(entries)@), spacing as int, old(entries).len() as int),
    ensures
        slots(final(entries)@) == refreshed(slots(old(entries)@), spacing as int),
        same_panes(slots(old(entries)@), slots(final(entries)@)),
        forall|k: int|
            0 <= k < final(entries).len() ==> (#[trigger] slots(final(entries)@)[k]).far_edge()
                <= reach(slots(old(entries)@)) + old(entries).len() * (widest(
                slots(old(entries)@),
            ) + spacing),
        slots(final(entries)@) == slots(old(entries)@) ==> disjoint(slots(final(entries)@)),
{
    let ghost s = slots(entries@);
    let ghost step = widest(s) + spacing;
    let ghost top = reach(s);
    let n: usize = entries.len();
    proof {
        if refreshed(s, spacing as int) == s {
            lemma_fixed_point_has_no_overlap(s, spacing as int);
        }
        lemma_reach(s);
        lemma_widest(s);
        lemma_reanchored(s, spacing as int);
        assert(n * step >= 0) by (nonlinear_arith)
            requires
                n >= 0,
                step >= 0,
        ;
    }
    reanchor(entries, spacing);
    let ghost base = slots(entries@);
    let mut i: usize = 0;
    while i < n
        invariant
            i <= n,
            n == entries.len(),
            n == s.len(),
            spacing >= 0,
            step == widest(s) + spacing,
            step >= 0,
            top == reach(s),
            top >= 0,
            top + n * step <= i64::MAX,
            base == reanchored(s, spacing as int),
            slots(entries@) == settle_through(base, i as int, spacing as int),
            same_panes(s, slots(entries@)),
            well_formed(slots(entries@)),
            forall|k: int| 0 <= k < n ==> (#[trigger] s[k]).width <= widest(s),
            forall|k: int|
                0 <= k < n ==> (#[trigger] slots(entries@)[k]).far_edge() <= top + i * step,
        decreases n - i,
    {
        let ghost before = slots(entries@);
        proof {
            assert(before[i as int].width == s[i as int].width) by {
                assert(s[i as int].at(before[i as int].target) == before[i as int]);
            }
            assert(s[i as int].width <= widest(s));
            assert((i + 1) * step == i * step + step) by (nonlinear_arith);
            assert((i + 1) * step <= n * step) by (nonlinear_arith)
                requires
                    i + 1 <= n,
                    step >= 0,
            ;
            assert(i * step >= 0) by (nonlinear_arith)
                requires
                    i >= 0,
                    step >= 0,
            ;
        }
        settle(entries, i, spacing, Ghost(top + i * step));
        proof {
            let after = slots(entries@);
            assert forall|k: int| 0 <= k < n implies (#[trigger] s[k]).at(after[k].target)
                == after[k] by {
                assert(s[k].at(before[k].target) == before[k]);
                assert(before[k].at(after[k].target) == after[k]);
            }
            assert forall|k: int| 0 <= k < n implies (#[trigger] after[k]).width > 0
                && after[k].height >= 0 by {
                assert(before[k].at(after[k].target) == after[k]);
                assert(before[k].width > 0);
            }
        }
        i = i + 1;
    }
    proof {
        assert forall|k: int| 0 <= k < n implies (#[trigger] slots(entries@)[k]).far_edge()
            <= top + n * step by {}
    }
}

/// Pulling the dock to the anchored edge keeps every pane but for its
/// target and moves no target outward.
pub proof fn lemma_reanchored(s: Seq<Slot>, spacing: int)
    ensures
        same_panes(s, reanchored(s, spacing)),
        forall|k: int|
            0 <= k < s.len() ==> (#[trigger] reanchored(s, spacing)[k]).target <= s[k].target,
{
}

} // verus!
