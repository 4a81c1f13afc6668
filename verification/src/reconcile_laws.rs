//! What holds of a reconciliation: which panes stay, where the fresh ones
//! stand, and that nothing happens when the identities have not changed.

use vstd::prelude::*;
use crate::config::DockConfig;
use crate::entry::Slot;
use crate::reconcile::{
    changes,
    differs,
    fresh_slot,
    grown,
    grown_frames,
    kept,
    reconciled,
    restructured,
    restructured_frames,
    retained_from,
};
use crate::state::distinct;
use crate::widgets::PaneFrame;

verus! {

/// Every retained item is one of the items from index `k` on.
pub proof fn lemma_retained_members<T>(items: Seq<T>, previous: Seq<int>, next: Seq<int>, k: int)
    requires
        0 <= k,
    ensures
        forall|m: int|
            0 <= m < retained_from(items, previous, next, k).len() ==> exists|i: int|
                k <= i < items.len() && items[i] == #[trigger] retained_from(
                    items,
                    previous,
                    next,
                    k,
                )[m],
    decreases items.len() - k,
{
    if k < items.len() {
        lemma_retained_members(items, previous, next, k + 1);
        let rest = retained_from(items, previous, next, k + 1);
        let all = retained_from(items, previous, next, k);
        assert forall|m: int| 0 <= m < all.len() implies exists|i: int|
            k <= i < items.len() && items[i] == #[trigger] all[m] by {
            if next.contains(previous[k]) {
                if m == 0 {
                    assert(items[k] == all[m]);
                } else {
                    let i = choose|i: int| k + 1 <= i < items.len() && items[i] == rest[m - 1];
                    assert(items[i] == all[m]);
                }
            } else {
                let i = choose|i: int| k + 1 <= i < items.len() && items[i] == rest[m];
                assert(items[i] == all[m]);
            }
        }
    }
}

/// As many items are retained as previous identities are kept.
pub proof fn lemma_retained_len<T>(items: Seq<T>, previous: Seq<int>, next: Seq<int>, k: int)
    requires
        0 <= k,
        items.len() == previous.len(),
    ensures
        retained_from(items, previous, next, k).len() == kept(previous, next, k),
    decreases items.len() - k,
{
    if k < items.len() {
        lemma_retained_len(items, previous, next, k + 1);
    }
}

/// The count of kept identities depends only on which of them the tail holds.
pub proof fn lemma_kept_same(previous: Seq<int>, a: Seq<int>, b: Seq<int>, k: int)
    requires
        0 <= k,
        forall|i: int| k <= i < previous.len() ==> a.contains(#[trigger] previous[i]) == b.contains(previous[i]),
    ensures
        kept(previous, a, k) == kept(previous, b, k),
    decreases previous.len() - k,
{
    if k < previous.len() {
        assert(a.contains(previous[k]) == b.contains(previous[k]));
        lemma_kept_same(previous, a, b, k + 1);
    }
}

/// A tail that gains one of the previous identities keeps one more.
pub proof fn lemma_kept_one_more(previous: Seq<int>, a: Seq<int>, b: Seq<int>, x: int, k: int)
    requires
        0 <= k,
        distinct(previous),
        exists|i: int| k <= i < previous.len() && previous[i] == x,
        !b.contains(x),
        forall|y: int| a.contains(y) <==> y == x || b.contains(y),
    ensures
        kept(previous, a, k) == kept(previous, b, k) + 1,
    decreases previous.len() - k,
{
    let i0 = choose|i: int| k <= i < previous.len() && previous[i] == x;
    if previous[k] == x {
        assert forall|i: int| k + 1 <= i < previous.len() implies a.contains(#[trigger] previous[i])
            == b.contains(previous[i]) by {
            assert(previous[k] != previous[i]);
        }
        lemma_kept_same(previous, a, b, k + 1);
        assert(a.contains(previous[k]));
    } else {
        assert(i0 > k);
        assert(a.contains(previous[k]) == b.contains(previous[k]));
        lemma_kept_one_more(previous, a, b, x, k + 1);
    }
}

/// Nothing is kept for an empty tail.
pub proof fn lemma_kept_none(previous: Seq<int>, tail: Seq<int>, k: int)
    requires
        0 <= k,
        tail.len() == 0,
    ensures
        kept(previous, tail, k) == 0,
    decreases previous.len() - k,
{
    if k < previous.len() {
        lemma_kept_none(previous, tail, k + 1);
    }
}

/// How the count of kept identities changes when the tail of the new
/// identities loses its first element.
pub proof fn lemma_kept_step(previous: Seq<int>, next: Seq<int>, j: int)
    requires
        0 <= j < next.len(),
        distinct(previous),
        distinct(next),
    ensures
        kept(previous, next.skip(j), 0) == kept(previous, next.skip(j + 1), 0) + (if previous.contains(
            next[j],
        ) {
            1nat
        } else {
            0nat
        }),
{
    let a = next.skip(j);
    let b = next.skip(j + 1);
    let x = next[j];
    assert forall|y: int| a.contains(y) <==> y == x || b.contains(y) by {
        if a.contains(y) {
            let m = choose|m: int| 0 <= m < a.len() && a[m] == y;
            if m > 0 {
                assert(b[m - 1] == y);
            }
        }
        if b.contains(y) {
            let m = choose|m: int| 0 <= m < b.len() && b[m] == y;
            assert(a[m + 1] == y);
        }
        if y == x {
            assert(a[0] == y);
        }
    }
    assert(!b.contains(x)) by {
        if b.contains(x) {
            let m = choose|m: int| 0 <= m < b.len() && b[m] == x;
            assert(next[j + 1 + m] == next[j]);
        }
    }
    if previous.contains(x) {
        let i = choose|i: int| 0 <= i < previous.len() && previous[i] == x;
        lemma_kept_one_more(previous, a, b, x, 0);
    } else {
        assert forall|i: int| 0 <= i < previous.len() implies a.contains(#[trigger] previous[i])
            == b.contains(previous[i]) by {
            if previous[i] == x {
                assert(previous.contains(x));
            }
        }
        lemma_kept_same(previous, a, b, 0);
    }
}

/// Where every previous identity from index `k` on is kept, every item
/// from there on is retained.
pub proof fn lemma_retained_all<T>(items: Seq<T>, previous: Seq<int>, next: Seq<int>, k: int)
    requires
        0 <= k <= items.len(),
        items.len() == previous.len(),
        forall|i: int| k <= i < previous.len() ==> next.contains(#[trigger] previous[i]),
    ensures
        retained_from(items, previous, next, k) == items.skip(k),
    decreases items.len() - k,
{
    if k < items.len() {
        lemma_retained_all(items, previous, next, k + 1);
        assert(next.contains(previous[k]));
        assert(seq![items[k]] + items.skip(k + 1) =~= items.skip(k));
    } else {
        assert(items.skip(k) =~= Seq::<T>::empty());
    }
}

/// Where each of the first `k` new identities was there before, nothing is created.
pub proof fn lemma_grown_none(
    s: Seq<Slot>,
    f: Seq<PaneFrame>,
    previous: Seq<int>,
    next: Seq<int>,
    k: int,
    config: DockConfig,
)
    requires
        0 <= k <= next.len(),
        forall|j: int| 0 <= j < k ==> previous.contains(#[trigger] next[j]),
    ensures
        grown(s, previous, next, k, config) == s,
        grown_frames(f, previous, next, k) == f,
    decreases k,
{
    if k > 0 {
        lemma_grown_none(s, f, previous, next, k - 1, config);
        assert(previous.contains(next[k - 1]));
    }
}

/// A reconciliation that destroys and creates nothing leaves the structure as it is.
pub proof fn lemma_restructured_same(
    s: Seq<Slot>,
    f: Seq<PaneFrame>,
    previous: Seq<int>,
    next: Seq<int>,
    config: DockConfig,
)
    requires
        s.len() == previous.len(),
        f.len() == previous.len(),
        !differs(previous, next),
    ensures
        restructured(s, Some(previous), next, config) == s,
        restructured_frames(f, Some(previous), next) == f,
{
    lemma_retained_all(s, previous, next, 0);
    lemma_retained_all(f, previous, next, 0);
    assert(s.skip(0) =~= s);
    assert(f.skip(0) =~= f);
    lemma_grown_none(s, f, previous, next, next.len() as int, config);
}

/// How many of the first `j` new identities were there before.
pub open spec fn matched_before(previous: Seq<int>, next: Seq<int>, j: int) -> int
    decreases j,
{
    if j <= 0 {
        0
    } else if previous.contains(next[j - 1]) {
        matched_before(previous, next, j - 1) + 1
    } else {
        matched_before(previous, next, j - 1)
    }
}

/// The shape of the dock while panes are created: behind the new
/// identities looked at so far, each fresh pane stands at the index of its
/// identity and the retained panes stand in their old order; beyond them
/// the retained panes that are still to come follow.
proof fn lemma_grown_shape(
    base: Seq<Slot>,
    previous: Seq<int>,
    next: Seq<int>,
    k: int,
    config: DockConfig,
)
    requires
        0 <= k <= next.len(),
        distinct(previous),
        distinct(next),
        base.len() == kept(previous, next, 0),
    ensures
        ({
            let g = grown(base, previous, next, k, config);
            let m = matched_before(previous, next, k);
            &&& 0 <= m
            &&& m + kept(previous, next.skip(k), 0) == base.len()
            &&& g.len() == k + base.len() - m
            &&& forall|j: int|
                0 <= j < k ==> #[trigger] g[j] == if previous.contains(next[j]) {
                    base[matched_before(previous, next, j)]
                } else {
                    fresh_slot(grown(base, previous, next, j, config), config)
                }
            &&& forall|j: int| k <= j < g.len() ==> #[trigger] g[j] == base[j - k + m]
        }),
    decreases k,
{
    if k == 0 {
        assert(next.skip(0) == next);
    } else {
        lemma_grown_shape(base, previous, next, k - 1, config);
        lemma_kept_step(previous, next, k - 1);
        let before = grown(base, previous, next, k - 1, config);
        let g = grown(base, previous, next, k, config);
        let m = matched_before(previous, next, k);
        if previous.contains(next[k - 1]) {
            assert forall|j: int| 0 <= j < k implies #[trigger] g[j] == if previous.contains(
                next[j],
            ) {
                base[matched_before(previous, next, j)]
            } else {
                fresh_slot(grown(base, previous, next, j, config), config)
            } by {
                if j == k - 1 {
                    assert(before[j] == base[j - (k - 1) + (m - 1)]);
                } else {
                    assert(g[j] == before[j]);
                }
            }
            assert forall|j: int| k <= j < g.len() implies #[trigger] g[j] == base[j - k + m] by {
                assert(before[j] == base[j - (k - 1) + (m - 1)]);
            }
        } else {
            assert forall|j: int| 0 <= j < k implies #[trigger] g[j] == if previous.contains(
                next[j],
            ) {
                base[matched_before(previous, next, j)]
            } else {
                fresh_slot(grown(base, previous, next, j, config), config)
            } by {
                if j < k - 1 {
                    assert(g[j] == before[j]);
                }
            }
            assert forall|j: int| k <= j < g.len() implies #[trigger] g[j] == base[j - k + m] by {
                assert(g[j] == before[j - 1]);
            }
        }
    }
}

/// Where the panes stand after a reconciliation, before the repair pass.
///
/// The dock has one pane for each new identity. At the index of an identity
/// that was not there before stands a fresh pane, placed past the panes
/// that stood before it at that moment. At the index of an identity that
/// was there before stands a retained pane, untouched: the retained panes
/// keep their old order, whatever the order of their identities has become.
pub proof fn lemma_restructured_positions(
    s: Seq<Slot>,
    previous: Seq<int>,
    next: Seq<int>,
    config: DockConfig,
)
    requires
        s.len() == previous.len(),
        distinct(previous),
        distinct(next),
    ensures
        ({
            let retained = retained_from(s, previous, next, 0);
            let r = restructured(s, Some(previous), next, config);
            &&& r.len() == next.len()
            &&& forall|j: int|
                0 <= j < next.len() && previous.contains(next[j]) ==> 0 <= matched_before(
                    previous,
                    next,
                    j,
                ) < retained.len() && #[trigger] r[j] == retained[matched_before(
                    previous,
                    next,
                    j,
                )]
            &&& forall|j: int|
                0 <= j < next.len() && !previous.contains(next[j]) ==> #[trigger] r[j]
                    == fresh_slot(grown(retained, previous, next, j, config), config)
        }),
{
    let retained = retained_from(s, previous, next, 0);
    let n = next.len() as int;
    lemma_retained_len(s, previous, next, 0);
    lemma_grown_shape(retained, previous, next, n, config);
    lemma_kept_none(previous, next.skip(n), 0);
    assert forall|j: int| 0 <= j < n && previous.contains(next[j]) implies 0 <= matched_before(
        previous,
        next,
        j,
    ) < retained.len() by {
        lemma_grown_shape(retained, previous, next, j, config);
        lemma_kept_step(previous, next, j);
    }
}

/// Reconciliation is idempotent: with the identities that the dock already
/// stands for, nothing is destroyed or created, and the entries and the
/// widgets stay as they are.
pub proof fn lemma_reconcile_idempotent(
    s: Seq<Slot>,
    f: Seq<PaneFrame>,
    identities: Seq<int>,
    config: DockConfig,
)
    ensures
        !changes(Some(identities), identities),
        reconciled(s, Some(identities), identities, config) == s,
        s.len() == identities.len() && f.len() == identities.len() ==> restructured(
            s,
            Some(identities),
            identities,
            config,
        ) == s && restructured_frames(f, Some(identities), identities) == f,
{
    assert forall|i: int| 0 <= i < identities.len() implies identities.contains(
        #[trigger] identities[i],
    ) by {}
    if s.len() == identities.len() && f.len() == identities.len() {
        lemma_restructured_same(s, f, identities, identities, config);
    }
}

/// As many previous identities are kept as the tail of the new identities
/// holds, where each identity of that tail was there before.
proof fn lemma_kept_all(previous: Seq<int>, next: Seq<int>, j: int)
    requires
        0 <= j <= next.len(),
        distinct(previous),
        distinct(next),
        forall|k: int| j <= k < next.len() ==> previous.contains(#[trigger] next[k]),
    ensures
        kept(previous, next.skip(j), 0) == next.len() - j,
    decreases next.len() - j,
{
    if j < next.len() {
        lemma_kept_step(previous, next, j);
        lemma_kept_all(previous, next, j + 1);
        assert(previous.contains(next[j]));
    } else {
        lemma_kept_none(previous, next.skip(j), 0);
    }
}

/// Two runs of distinct identities of which neither has an identity that
/// the other lacks have the same length.
pub proof fn lemma_same_identities(previous: Seq<int>, next: Seq<int>)
    requires
        distinct(previous),
        distinct(next),
        !differs(previous, next),
    ensures
        previous.len() == next.len(),
{
    lemma_kept_all(previous, next, 0);
    assert(next.skip(0) == next);
    lemma_retained_all(previous, previous, next, 0);
    lemma_retained_len(previous, previous, next, 0);
    assert(previous.skip(0) == previous);
}

} // verus!
