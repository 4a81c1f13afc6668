//! Docks at rest: what holds of the targets once a repair pass has nothing
//! left to do.

use vstd::prelude::*;
use crate::entry::{Slot, well_formed};
use crate::solver::{
    closest_to_right,
    collides,
    is_closest,
    lemma_closest_unique,
    nearer,
    reanchored,
    refreshed,
    resolved_target,
    settle_at,
    settle_through,
};

verus! {

/// Whether the target spans of two entries have no point in common.
pub open spec fn apart(a: Slot, b: Slot) -> bool {
    a.far_edge() <= b.target || b.far_edge() <= a.target
}

/// No two target spans overlap.
pub open spec fn disjoint(s: Seq<Slot>) -> bool {
    forall|i: int, j: int| 0 <= i < j < s.len() ==> apart(#[trigger] s[i], #[trigger] s[j])
}

/// Whether the dock is at rest: the pull to the anchored edge and the
/// placement of every single entry leave it as it is.
pub open spec fn settled(s: Seq<Slot>, spacing: int) -> bool {
    &&& reanchored(s, spacing) == s
    &&& forall|i: int| 0 <= i < s.len() ==> #[trigger] settle_at(s, i, spacing) == s
}

/// A repair pass leaves a dock at rest as it is.
pub proof fn lemma_settled_is_fixed(s: Seq<Slot>, spacing: int)
    requires
        settled(s, spacing),
    ensures
        refreshed(s, spacing) == s,
{
    lemma_settled_through(s, spacing, s.len() as int);
}

/// Placing the first `k` entries of a dock that no placement moves leaves
/// it as it is.
proof fn lemma_settled_through(s: Seq<Slot>, spacing: int, k: int)
    requires
        0 <= k <= s.len(),
        forall|i: int| 0 <= i < s.len() ==> #[trigger] settle_at(s, i, spacing) == s,
    ensures
        settle_through(s, k, spacing) == s,
    decreases k,
{
    if k > 0 {
        lemma_settled_through(s, spacing, k - 1);
        assert(settle_at(s, k - 1, spacing) == s);
    }
}

/// Among the first `n` entries, if one is nearer to the anchored edge than
/// the probe, one of them is the closest.
proof fn lemma_closest_among(s: Seq<Slot>, probe: int, exclude: int, n: int) -> (best: int)
    requires
        0 <= n <= s.len(),
        exists|k: int| 0 <= k < n && nearer(s, probe, exclude, k),
    ensures
        0 <= best < n,
        nearer(s, probe, exclude, best),
        forall|k: int|
            0 <= k < n && #[trigger] nearer(s, probe, exclude, k) ==> s[k].center()
                < s[best].center() || (s[k].center() == s[best].center() && best <= k),
    decreases n,
{
    let last = n - 1;
    if exists|k: int| 0 <= k < last && nearer(s, probe, exclude, k) {
        let before = lemma_closest_among(s, probe, exclude, last);
        if nearer(s, probe, exclude, last) && s[last].center() > s[before].center() {
            last
        } else {
            before
        }
    } else {
        let k = choose|k: int| 0 <= k < n && nearer(s, probe, exclude, k);
        assert(k == last);
        last
    }
}

/// In a dock of two or more, an entry with its center below the probe has
/// the closest one between itself and the probe.
pub proof fn lemma_closest_exists(s: Seq<Slot>, probe: int, exclude: int, i: int) -> (j: int)
    requires
        s.len() >= 2,
        nearer(s, probe, exclude, i),
    ensures
        closest_to_right(s, probe, exclude) == Some(j),
        is_closest(s, probe, exclude, j),
        s[i].center() <= s[j].center(),
{
    let best = lemma_closest_among(s, probe, exclude, s.len() as int);
    assert(is_closest(s, probe, exclude, best));
    let chosen = choose|j: int| is_closest(s, probe, exclude, j);
    lemma_closest_unique(s, probe, exclude, best, chosen);
    chosen
}

/// What rest means for one entry: it has the target that its own center
/// resolves to, and no other entry has the same target.
pub proof fn lemma_settled_entry(s: Seq<Slot>, spacing: int, i: int)
    requires
        0 <= i < s.len(),
        spacing >= 0,
        well_formed(s),
        settle_at(s, i, spacing) == s,
    ensures
        s[i].target == resolved_target(s, s[i].center(), i, spacing),
        forall|j: int| 0 <= j < s.len() && j != i ==> (#[trigger] s[j]).target != s[i].target,
{
    let t = resolved_target(s, s[i].center(), i, spacing);
    let placed = s.update(i, s[i].at(t));
    let out = settle_at(s, i, spacing);
    assert(out[i].target == t);
    if collides(placed, i, t) {
        let j = choose|j: int| 0 <= j < placed.len() && j != i && (#[trigger] placed[j]).target == t;
        assert(s[i].width > 0);
        assert(out[j].target == placed[j].target + s[i].width + spacing);
        assert(false);
    }
    assert forall|j: int| 0 <= j < s.len() && j != i implies (#[trigger] s[j]).target
        != s[i].target by {
        if s[j].target == s[i].target {
            assert(placed[j].target == t);
            assert(collides(placed, i, t));
        }
    }
}

/// In a dock at rest, an entry whose center lies nearer to the anchored
/// edge than that of another ends at least one spacing before the other
/// begins.
pub proof fn lemma_settled_order(s: Seq<Slot>, spacing: int, i: int, k: int)
    requires
        spacing >= 0,
        well_formed(s),
        settled(s, spacing),
        0 <= i < s.len(),
        0 <= k < s.len(),
        s[i].center() < s[k].center(),
    ensures
        s[i].far_edge() + spacing <= s[k].target,
    decreases s[k].center() - s[i].center(),
{
    assert(settle_at(s, k, spacing) == s);
    lemma_settled_entry(s, spacing, k);
    assert(nearer(s, s[k].center(), k, i));
    let j = lemma_closest_exists(s, s[k].center(), k, i);
    assert(nearer(s, s[k].center(), k, j));
    assert(s[j].width > 0);
    if j != i {
        if s[i].center() < s[j].center() {
            lemma_settled_order(s, spacing, i, j);
        } else {
            lemma_settled_centers(s, spacing, i, j);
        }
    }
}

/// In a dock at rest, no two entries have the same center.
pub proof fn lemma_settled_centers(s: Seq<Slot>, spacing: int, i: int, j: int)
    requires
        spacing >= 0,
        well_formed(s),
        settled(s, spacing),
        0 <= i < s.len(),
        0 <= j < s.len(),
        i != j,
    ensures
        s[i].center() != s[j].center(),
{
    if s[i].center() == s[j].center() {
        let c = s[i].center();
        assert(settle_at(s, i, spacing) == s);
        assert(settle_at(s, j, spacing) == s);
        lemma_settled_entry(s, spacing, i);
        lemma_settled_entry(s, spacing, j);
        assert forall|x: int| is_closest(s, c, i, x) <==> is_closest(s, c, j, x) by {
            assert forall|k: int| nearer(s, c, i, k) <==> nearer(s, c, j, k) by {}
            if is_closest(s, c, i, x) {
                assert(nearer(s, c, j, x));
                assert forall|k: int| #[trigger] nearer(s, c, j, k) implies s[k].center()
                    < s[x].center() || (s[k].center() == s[x].center() && x <= k) by {
                    assert(nearer(s, c, i, k));
                }
            }
            if is_closest(s, c, j, x) {
                assert(nearer(s, c, i, x));
                assert forall|k: int| #[trigger] nearer(s, c, i, k) implies s[k].center()
                    < s[x].center() || (s[k].center() == s[x].center() && x <= k) by {
                    assert(nearer(s, c, j, k));
                }
            }
        }
        let a = closest_to_right(s, c, i);
        let b = closest_to_right(s, c, j);
        if a is Some {
            let x = a->0;
            assert(is_closest(s, c, i, x));
            assert(is_closest(s, c, j, x));
            let y = choose|y: int| is_closest(s, c, j, y);
            lemma_closest_unique(s, c, j, x, y);
            assert(b == Some(x));
        } else {
            if b is Some {
                let y = b->0;
                assert(is_closest(s, c, j, y));
                assert(is_closest(s, c, i, y));
            }
        }
        assert(s[i].target == s[j].target);
        assert(false);
    }
}

/// No overlap at rest: in a dock with positive widths that a repair pass
/// leaves alone step by step, no two target spans overlap, and there is at
/// least one spacing between any two.
pub proof fn lemma_settled_disjoint(s: Seq<Slot>, spacing: int)
    requires
        spacing >= 0,
        well_formed(s),
        settled(s, spacing),
    ensures
        disjoint(s),
        forall|i: int, j: int|
            0 <= i < s.len() && 0 <= j < s.len() && i != j ==> (#[trigger] s[i]).far_edge()
                + spacing <= (#[trigger] s[j]).target || s[j].far_edge() + spacing <= s[i].target,
{
    assert forall|i: int, j: int| 0 <= i < s.len() && 0 <= j < s.len() && i != j implies (
    #[trigger] s[i]).far_edge() + spacing <= (#[trigger] s[j]).target || s[j].far_edge() + spacing
        <= s[i].target by {
        lemma_settled_centers(s, spacing, i, j);
        if s[i].center() < s[j].center() {
            lemma_settled_order(s, spacing, i, j);
        } else {
            lemma_settled_order(s, spacing, j, i);
        }
    }
}

} // verus!
