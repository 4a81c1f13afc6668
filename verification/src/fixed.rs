//! Fixed points of the repair pass: a dock that one whole pass leaves as it
//! is, is at rest, and its target spans do not overlap.
//!
//! The argument, for a dock that a pass leaves as it is:
//!
//! 1. The pull to the anchored edge moves nothing. If it did, every target
//!    would stay at one spacing or more during the pass and none would end
//!    on it, so no placement could land there. But the entry with the
//!    lowest center keeps the lowest center until its own placement, finds
//!    no neighbour then, and lands there.
//! 2. No placement lands on an occupied target. One that does leaves the
//!    entry it pushed a whole span and a spacing beyond itself. The other
//!    placements never bring such a pair nearer to each other, and the
//!    outer one, when it is placed itself, lands beyond the inner one. So
//!    the pass ends with the two in another order than it met them in, or
//!    farther apart.
//! 3. Without such a landing an entry changes at its own placement only,
//!    and as the pass ends where it began, not even then.

use vstd::prelude::*;
use crate::entry::{Slot, same_panes, well_formed};
use crate::settled::{disjoint, lemma_closest_exists, lemma_settled_disjoint, settled};
use crate::solver::{
    closest_to_right,
    collides,
    is_closest,
    lemma_lowest_target,
    lowest_target,
    nearer,
    reanchored,
    refreshed,
    resolved_target,
    settle_at,
    settle_through,
};

verus! {

/// The dock after the pull to the anchored edge and the first `t` placements.
pub open spec fn trace(s: Seq<Slot>, spacing: int, t: int) -> Seq<Slot> {
    settle_through(reanchored(s, spacing), t, spacing)
}

/// The target that entry `t` takes at its placement.
pub open spec fn landing(s: Seq<Slot>, spacing: int, t: int) -> int {
    resolved_target(trace(s, spacing, t), trace(s, spacing, t)[t].center(), t, spacing)
}

/// What one placement does: the placed entry takes its resolved target,
/// which no other entry has afterwards; every other entry stays or, if it
/// was at or beyond that target, moves outward by the placed width and one
/// spacing; and two other entries never come nearer to each other.
pub proof fn lemma_step(x: Seq<Slot>, k: int, spacing: int)
    requires
        0 <= k < x.len(),
        spacing >= 0,
        well_formed(x),
    ensures
        ({
            let y = settle_at(x, k, spacing);
            let r = resolved_target(x, x[k].center(), k, spacing);
            &&& y.len() == x.len()
            &&& well_formed(y)
            &&& y[k] == x[k].at(r)
            &&& forall|a: int|
                0 <= a < x.len() && a != k ==> (#[trigger] y[a]) == x[a] || (y[a] == x[a].at(
                    x[a].target + x[k].width + spacing,
                ) && x[a].target >= r && collides(x.update(k, x[k].at(r)), k, r))
            &&& forall|a: int| 0 <= a < x.len() && a != k ==> (#[trigger] y[a]).target != r
            &&& forall|a: int, b: int|
                0 <= a < x.len() && 0 <= b < x.len() && a != k && b != k && x[a].target
                    <= x[b].target ==> (#[trigger] y[b]).target - (#[trigger] y[a]).target
                    >= x[b].target - x[a].target
            &&& !collides(x.update(k, x[k].at(r)), k, r) ==> y == x.update(k, x[k].at(r))
        }),
{
    let y = settle_at(x, k, spacing);
    let r = resolved_target(x, x[k].center(), k, spacing);
    let placed = x.update(k, x[k].at(r));
    assert(x[k].width > 0);
    assert forall|a: int| 0 <= a < x.len() && a != k implies (#[trigger] y[a]).target != r by {
        if collides(placed, k, r) {
        } else {
            if y[a].target == r {
                assert(placed[a].target == r);
            }
        }
    }
    assert forall|a: int| 0 <= a < y.len() implies (#[trigger] y[a]).width > 0 && y[a].height
        >= 0 by {
        assert(x[a].width > 0);
    }
}

/// The resolved target of an entry: one spacing from the anchored edge if
/// no other center lies below its own, and otherwise beyond the center of
/// the closest such entry, which lies at or beyond every other center below.
pub proof fn lemma_resolved(x: Seq<Slot>, k: int, spacing: int)
    requires
        0 <= k < x.len(),
        spacing >= 0,
        well_formed(x),
    ensures
        ({
            let r = resolved_target(x, x[k].center(), k, spacing);
            match closest_to_right(x, x[k].center(), k) {
                None => r == spacing && forall|a: int|
                    0 <= a < x.len() && a != k ==> (#[trigger] x[a]).center() >= x[k].center(),
                Some(q) => {
                    &&& 0 <= q < x.len()
                    &&& q != k
                    &&& x[q].center() < x[k].center()
                    &&& r == x[q].far_edge() + spacing
                    &&& r > x[q].center()
                    &&& r > x[q].target + spacing
                    &&& forall|a: int|
                        0 <= a < x.len() && a != k && (#[trigger] x[a]).center() < x[k].center()
                            ==> x[a].center() <= x[q].center()
                },
            }
        }),
{
    let c = x[k].center();
    match closest_to_right(x, c, k) {
        None => {
            assert forall|a: int| 0 <= a < x.len() && a != k implies (#[trigger] x[a]).center()
                >= c by {
                if x[a].center() < c {
                    assert(nearer(x, c, k, a));
                    let q = lemma_closest_exists(x, c, k, a);
                }
            }
        },
        Some(q) => {
            assert(is_closest(x, c, k, q));
            assert(nearer(x, c, k, q));
            assert(x[q].width > 0);
            assert forall|a: int|
                0 <= a < x.len() && a != k && (#[trigger] x[a]).center() < c implies x[a].center()
                <= x[q].center() by {
                assert(nearer(x, c, k, a));
            }
        },
    }
}

/// An entry that lies a whole span and a spacing below the placed entry is
/// cleared by the placement: it stays where it is, below the placed entry.
pub proof fn lemma_step_clears(x: Seq<Slot>, k: int, a: int, spacing: int)
    requires
        0 <= k < x.len(),
        0 <= a < x.len(),
        a != k,
        spacing >= 0,
        well_formed(x),
        x[k].target - x[a].target >= x[a].width + spacing,
    ensures
        settle_at(x, k, spacing)[a] == x[a],
        settle_at(x, k, spacing)[k].target > x[a].target,
{
    lemma_step(x, k, spacing);
    lemma_resolved(x, k, spacing);
    assert(x[a].width > 0);
    assert(x[k].width > 0);
    assert(x[a].center() < x[k].center());
}

/// Along the pass the dock keeps its panes: their number, and all of each
/// but its target. Each state comes from the one before by one placement.
pub proof fn lemma_trace(s: Seq<Slot>, spacing: int, t: int)
    requires
        spacing >= 0,
        well_formed(s),
        0 <= t <= s.len(),
    ensures
        trace(s, spacing, t).len() == s.len(),
        well_formed(trace(s, spacing, t)),
        same_panes(s, trace(s, spacing, t)),
        t < s.len() ==> trace(s, spacing, t + 1) == settle_at(trace(s, spacing, t), t, spacing),
    decreases t,
{
    let base = reanchored(s, spacing);
    if t == 0 {
        assert forall|i: int| 0 <= i < base.len() implies (#[trigger] base[i]).width > 0
            && base[i].height >= 0 by {
            assert(s[i].width > 0);
        }
    } else {
        lemma_trace(s, spacing, t - 1);
        let x = trace(s, spacing, t - 1);
        lemma_step(x, t - 1, spacing);
        let y = trace(s, spacing, t);
        assert forall|i: int| 0 <= i < s.len() implies (#[trigger] s[i]).at(y[i].target)
            == y[i] by {
            assert(s[i].at(x[i].target) == x[i]);
        }
    }
}

/// While neither of two entries is placed, the outer one keeps its
/// distance from the inner one or gains on it.
pub proof fn lemma_pair_gap(s: Seq<Slot>, spacing: int, a: int, b: int, t1: int, t2: int)
    requires
        spacing >= 0,
        well_formed(s),
        0 <= t1 <= t2 <= s.len(),
        0 <= a < s.len(),
        0 <= b < s.len(),
        a != b,
        a < t1 || a >= t2,
        b < t1 || b >= t2,
        trace(s, spacing, t1)[b].target <= trace(s, spacing, t1)[a].target,
    ensures
        trace(s, spacing, t2)[a].target - trace(s, spacing, t2)[b].target >= trace(
            s,
            spacing,
            t1,
        )[a].target - trace(s, spacing, t1)[b].target,
    decreases t2 - t1,
{
    if t1 < t2 {
        lemma_pair_gap(s, spacing, a, b, t1, t2 - 1);
        lemma_trace(s, spacing, t2 - 1);
        let x = trace(s, spacing, t2 - 1);
        lemma_step(x, t2 - 1, spacing);
        let y = trace(s, spacing, t2);
        assert(y[a].target - y[b].target >= x[a].target - x[b].target);
    }
}

/// While an entry is not placed, its target does not come nearer to the
/// anchored edge.
pub proof fn lemma_rises(s: Seq<Slot>, spacing: int, j: int, t1: int, t2: int)
    requires
        spacing >= 0,
        well_formed(s),
        0 <= t1 <= t2 <= s.len(),
        0 <= j < s.len(),
        j < t1 || j >= t2,
    ensures
        trace(s, spacing, t2)[j].target >= trace(s, spacing, t1)[j].target,
    decreases t2 - t1,
{
    if t1 < t2 {
        lemma_rises(s, spacing, j, t1, t2 - 1);
        lemma_trace(s, spacing, t2 - 1);
        let x = trace(s, spacing, t2 - 1);
        lemma_step(x, t2 - 1, spacing);
        let y = trace(s, spacing, t2);
        assert(y[j].target >= x[j].target);
    }
}

/// In a pass that leaves an anchored dock as it is, no placement lands on
/// an occupied target.
pub proof fn lemma_no_collision(s: Seq<Slot>, spacing: int, k: int)
    requires
        spacing >= 0,
        well_formed(s),
        refreshed(s, spacing) == s,
        reanchored(s, spacing) == s,
        0 <= k < s.len(),
    ensures
        !collides(
            trace(s, spacing, k).update(
                k,
                trace(s, spacing, k)[k].at(landing(s, spacing, k)),
            ),
            k,
            landing(s, spacing, k),
        ),
{
    let n = s.len() as int;
    let x = trace(s, spacing, k);
    let y = trace(s, spacing, k + 1);
    let r = landing(s, spacing, k);
    let placed = x.update(k, x[k].at(r));
    lemma_trace(s, spacing, k);
    lemma_trace(s, spacing, k + 1);
    lemma_step(x, k, spacing);
    assert(trace(s, spacing, 0) == s);
    assert(trace(s, spacing, n) == s);
    if collides(placed, k, r) {
        let j = choose|j: int| 0 <= j < placed.len() && j != k && (#[trigger] placed[j]).target == r;
        assert(x[j].target == r);
        assert(y[j].target != r);
        assert(y[j].target == r + x[k].width + spacing);
        assert(y[k].target == r);
        assert(x[k].width > 0);
        assert(s[k].width == x[k].width) by {
            assert(s[k].at(x[k].target) == x[k]);
        }
        lemma_rises(s, spacing, k, 0, k);
        lemma_rises(s, spacing, k, k + 1, n);
        assert(x[k].target >= s[k].target >= r);
        lemma_trace(s, spacing, j);
        lemma_trace(s, spacing, j + 1);
        let before = trace(s, spacing, j);
        let after = trace(s, spacing, j + 1);
        assert(before[k].width == s[k].width) by {
            assert(s[k].at(before[k].target) == before[k]);
        }
        if j < k {
            lemma_pair_gap(s, spacing, j, k, k + 1, n);
            lemma_pair_gap(s, spacing, j, k, 0, j);
            lemma_step_clears(before, j, k, spacing);
            assert(after[j].target > after[k].target);
            lemma_pair_gap(s, spacing, j, k, j + 1, k);
            assert(false);
        } else {
            lemma_rises(s, spacing, j, 0, k);
            assert(s[j].target <= s[k].target);
            lemma_pair_gap(s, spacing, j, k, k + 1, j);
            lemma_step_clears(before, j, k, spacing);
            assert(after[j].target > after[k].target);
            lemma_pair_gap(s, spacing, j, k, j + 1, n);
            assert(false);
        }
    }
}

/// In a pass that leaves an anchored dock as it is, an entry changes at
/// its own placement at most.
pub proof fn lemma_untouched(s: Seq<Slot>, spacing: int, j: int, t1: int, t2: int)
    requires
        spacing >= 0,
        well_formed(s),
        refreshed(s, spacing) == s,
        reanchored(s, spacing) == s,
        0 <= t1 <= t2 <= s.len(),
        0 <= j < s.len(),
        j < t1 || j >= t2,
    ensures
        trace(s, spacing, t2)[j] == trace(s, spacing, t1)[j],
    decreases t2 - t1,
{
    if t1 < t2 {
        lemma_untouched(s, spacing, j, t1, t2 - 1);
        lemma_trace(s, spacing, t2 - 1);
        lemma_step(trace(s, spacing, t2 - 1), t2 - 1, spacing);
        lemma_no_collision(s, spacing, t2 - 1);
    }
}

/// A pass that leaves an anchored dock as it is changes nothing on its way.
pub proof fn lemma_fixed_constant(s: Seq<Slot>, spacing: int, t: int)
    requires
        spacing >= 0,
        well_formed(s),
        refreshed(s, spacing) == s,
        reanchored(s, spacing) == s,
        0 <= t <= s.len(),
    ensures
        trace(s, spacing, t) == s,
    decreases t,
{
    if t > 0 {
        let n = s.len() as int;
        lemma_fixed_constant(s, spacing, t - 1);
        lemma_trace(s, spacing, t - 1);
        lemma_trace(s, spacing, t);
        lemma_step(s, t - 1, spacing);
        lemma_no_collision(s, spacing, t - 1);
        lemma_untouched(s, spacing, t - 1, t, n);
        assert(trace(s, spacing, n) == s);
        let y = trace(s, spacing, t);
        assert(y[t - 1] == s[t - 1]);
        assert(y =~= s);
    }
}

/// Whether no target lies nearer to the anchored edge than one spacing.
pub open spec fn floored(x: Seq<Slot>, spacing: int) -> bool {
    forall|j: int| 0 <= j < x.len() ==> (#[trigger] x[j]).target >= spacing
}

/// Once the pull has left every target at one spacing or more, the
/// placements keep it so.
proof fn lemma_floor(s: Seq<Slot>, spacing: int, t: int)
    requires
        spacing >= 0,
        well_formed(s),
        0 <= t <= s.len(),
        floored(reanchored(s, spacing), spacing),
    ensures
        floored(trace(s, spacing, t), spacing),
    decreases t,
{
    if t > 0 {
        lemma_floor(s, spacing, t - 1);
        lemma_trace(s, spacing, t - 1);
        let x = trace(s, spacing, t - 1);
        let y = trace(s, spacing, t);
        lemma_step(x, t - 1, spacing);
        lemma_resolved(x, t - 1, spacing);
        assert forall|j: int| 0 <= j < y.len() implies (#[trigger] y[j]).target >= spacing by {
            assert(x[j].target >= spacing);
            if j == t - 1 {
                let r = closest_to_right(x, x[t - 1].center(), t - 1);
                if r is Some {
                    assert(x[r->0].target >= spacing);
                }
            }
        }
    }
}

/// Once a placement has landed one spacing from the anchored edge, some
/// placed entry is there ever after.
proof fn lemma_landed_stays(s: Seq<Slot>, spacing: int, t0: int, t: int)
    requires
        spacing >= 0,
        well_formed(s),
        floored(reanchored(s, spacing), spacing),
        0 <= t0 < t <= s.len(),
        landing(s, spacing, t0) == spacing,
    ensures
        exists|e: int| 0 <= e < t && (#[trigger] trace(s, spacing, t)[e]).target == spacing,
    decreases t,
{
    lemma_trace(s, spacing, t - 1);
    let x = trace(s, spacing, t - 1);
    let y = trace(s, spacing, t);
    lemma_step(x, t - 1, spacing);
    if t == t0 + 1 {
        assert(y[t0].target == spacing);
    } else {
        lemma_landed_stays(s, spacing, t0, t - 1);
        let e = choose|e: int| 0 <= e < t - 1 && (#[trigger] x[e]).target == spacing;
        lemma_floor(s, spacing, t);
        assert(y[t - 1].target >= spacing);
        if y[t - 1].target == spacing {
        } else {
            assert(y[e].target == spacing);
        }
    }
}

/// Among the first `n` entries of a dock, one has the lowest center.
proof fn lemma_lowest_center(x: Seq<Slot>, n: int) -> (z: int)
    requires
        0 < n <= x.len(),
    ensures
        0 <= z < n,
        forall|j: int| 0 <= j < n ==> (#[trigger] x[j]).center() >= x[z].center(),
    decreases n,
{
    if n == 1 {
        0
    } else {
        let before = lemma_lowest_center(x, n - 1);
        if x[n - 1].center() < x[before].center() {
            n - 1
        } else {
            before
        }
    }
}

/// While no placement lands one spacing from the anchored edge, the entry
/// with the lowest center stays where it is and keeps the lowest center
/// until it is placed itself.
proof fn lemma_lowest_stays(s: Seq<Slot>, spacing: int, z: int, t: int)
    requires
        spacing >= 0,
        well_formed(s),
        0 <= t <= z < s.len(),
        forall|u: int| 0 <= u < s.len() ==> #[trigger] landing(s, spacing, u) != spacing,
        forall|j: int|
            0 <= j < s.len() ==> (#[trigger] reanchored(s, spacing)[j]).center() >= reanchored(
                s,
                spacing,
            )[z].center(),
    ensures
        trace(s, spacing, t)[z] == reanchored(s, spacing)[z],
        forall|j: int|
            0 <= j < s.len() ==> (#[trigger] trace(s, spacing, t)[j]).center() >= trace(
                s,
                spacing,
                t,
            )[z].center(),
    decreases t,
{
    if t > 0 {
        lemma_lowest_stays(s, spacing, z, t - 1);
        lemma_trace(s, spacing, t - 1);
        let x = trace(s, spacing, t - 1);
        let y = trace(s, spacing, t);
        lemma_step(x, t - 1, spacing);
        lemma_resolved(x, t - 1, spacing);
        assert(landing(s, spacing, t - 1) != spacing);
        let q = closest_to_right(x, x[t - 1].center(), t - 1);
        assert(q is Some);
        assert(x[q->0].center() >= x[z].center());
        assert(x[z].width > 0);
        assert(y[z] == x[z]);
        assert forall|j: int| 0 <= j < s.len() implies (#[trigger] y[j]).center()
            >= y[z].center() by {
            assert(x[j].center() >= x[z].center());
            assert(x[j].width > 0);
            assert(y[j].width == x[j].width);
        }
    }
}

/// A dock that one whole repair pass leaves as it is has its nearest pane
/// within one spacing of the anchored edge: the pull does not move it.
pub proof fn lemma_fixed_is_anchored(s: Seq<Slot>, spacing: int)
    requires
        spacing >= 0,
        well_formed(s),
        refreshed(s, spacing) == s,
    ensures
        reanchored(s, spacing) == s,
{
    let n = s.len() as int;
    let excess = lowest_target(s) - spacing;
    if n > 0 && excess > 0 {
        let base = reanchored(s, spacing);
        lemma_lowest_target(s);
        assert(trace(s, spacing, n) == s);
        assert forall|j: int| 0 <= j < base.len() implies (#[trigger] base[j]).target
            >= spacing by {
            assert(s[j].target >= lowest_target(s));
        }
        assert forall|u: int| 0 <= u < n implies #[trigger] landing(s, spacing, u) != spacing by {
            if landing(s, spacing, u) == spacing {
                lemma_landed_stays(s, spacing, u, n);
                let e = choose|e: int| 0 <= e < n && (#[trigger] trace(s, spacing, n)[e]).target == spacing;
                assert(s[e].target >= lowest_target(s));
            }
        }
        let z = lemma_lowest_center(base, n);
        lemma_lowest_stays(s, spacing, z, z);
        lemma_trace(s, spacing, z);
        let x = trace(s, spacing, z);
        lemma_resolved(x, z, spacing);
        let q = closest_to_right(x, x[z].center(), z);
        if q is Some {
            assert(x[q->0].center() >= x[z].center());
        }
        assert(landing(s, spacing, z) == spacing);
        assert(false);
    }
}

/// A dock that one whole repair pass leaves as it is, is at rest: neither
/// the pull to the anchored edge nor any single placement moves a pane.
pub proof fn lemma_fixed_is_settled(s: Seq<Slot>, spacing: int)
    requires
        spacing >= 0,
        well_formed(s),
        refreshed(s, spacing) == s,
    ensures
        settled(s, spacing),
{
    lemma_fixed_is_anchored(s, spacing);
    assert forall|i: int| 0 <= i < s.len() implies #[trigger] settle_at(s, i, spacing) == s by {
        lemma_fixed_constant(s, spacing, i);
        lemma_fixed_constant(s, spacing, i + 1);
        lemma_trace(s, spacing, i);
    }
}

/// No overlap after settling: in a dock of panes with positive widths that
/// a repair pass leaves as it is, no two target spans overlap; any two are
/// at least one spacing apart.
pub proof fn lemma_fixed_point_has_no_overlap(s: Seq<Slot>, spacing: int)
    requires
        spacing >= 0,
        well_formed(s),
        refreshed(s, spacing) == s,
    ensures
        disjoint(s),
        forall|i: int, j: int|
            0 <= i < s.len() && 0 <= j < s.len() && i != j ==> (#[trigger] s[i]).far_edge()
                + spacing <= (#[trigger] s[j]).target || s[j].far_edge() + spacing <= s[i].target,
{
    lemma_fixed_is_settled(s, spacing);
    lemma_settled_disjoint(s, spacing);
}

} // verus!
