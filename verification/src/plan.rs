//! The structural changes of a reconciliation as a list, so that a host can
//! carry them out on what it keeps beside the dock, index by index.

use vstd::prelude::*;
use crate::reconcile::{
    appended_frames,
    fresh_frame,
    grown_frames,
    restructured_frames,
    retained_from,
};
use crate::state::{PaneData, ids, position_of};
use crate::widgets::PaneFrame;

verus! {

/// One structural change. The index is meant at the time the change is
/// carried out, after the changes before it.
#[derive(Clone, Copy, Debug, PartialEq, Eq, Structural)]
pub enum PaneChange {
    /// The pane at this logical index is destroyed.
    Destroy { index: usize },
    /// A fresh pane is created at this logical index.
    Create { index: usize },
}

/// The panes to destroy among the first `k` previous identities, last first.
pub open spec fn destroys(previous: Seq<int>, next: Seq<int>, k: int) -> Seq<PaneChange>
    decreases k,
{
    if k <= 0 {
        Seq::empty()
    } else if next.contains(previous[k - 1]) {
        destroys(previous, next, k - 1)
    } else {
        seq![PaneChange::Destroy { index: (k - 1) as usize }] + destroys(previous, next, k - 1)
    }
}

/// The panes to create among the first `k` new identities, first first.
pub open spec fn creates(previous: Seq<int>, next: Seq<int>, k: int) -> Seq<PaneChange>
    decreases k,
{
    if k <= 0 {
        Seq::empty()
    } else if previous.contains(next[k - 1]) {
        creates(previous, next, k - 1)
    } else {
        creates(previous, next, k - 1).push(PaneChange::Create { index: (k - 1) as usize })
    }
}

/// `count` panes created at the end of a dock of `len` panes.
pub open spec fn appends(len: int, count: int) -> Seq<PaneChange> {
    Seq::new(count as nat, |i: int| PaneChange::Create { index: (len + i) as usize })
}

/// The changes of a reconciliation, in the order in which it makes them:
/// on the first run one pane per identity at the end; later the panes of
/// the identities that are gone, last first, then a pane for each identity
/// that was not there, first first.
pub open spec fn planned(len: int, previous: Option<Seq<int>>, next: Seq<int>) -> Seq<PaneChange> {
    match previous {
        None => appends(len, next.len() as int),
        Some(p) => destroys(p, next, p.len() as int) + creates(p, next, next.len() as int),
    }
}

/// A run of items after one change; `fresh` is what a created pane gets.
pub open spec fn changed_by<T>(items: Seq<T>, change: PaneChange, fresh: T) -> Seq<T> {
    match change {
        PaneChange::Destroy { index } => items.remove(index as int),
        PaneChange::Create { index } => items.insert(index as int, fresh),
    }
}

/// A run of items after a list of changes, carried out in order.
pub open spec fn carried_out<T>(items: Seq<T>, plan: Seq<PaneChange>, fresh: T) -> Seq<T>
    decreases plan.len(),
{
    if plan.len() == 0 {
        items
    } else {
        changed_by(carried_out(items, plan.drop_last(), fresh), plan.last(), fresh)
    }
}

/// Carrying out two lists one after the other is carrying out their concatenation.
pub proof fn lemma_carried_out_add<T>(items: Seq<T>, a: Seq<PaneChange>, b: Seq<PaneChange>, fresh: T)
    ensures
        carried_out(items, a + b, fresh) == carried_out(carried_out(items, a, fresh), b, fresh),
    decreases b.len(),
{
    if b.len() == 0 {
        assert(a + b =~= a);
    } else {
        assert((a + b).drop_last() =~= a + b.drop_last());
        assert((a + b).last() == b.last());
        lemma_carried_out_add(items, a, b.drop_last(), fresh);
    }
}

/// Destroying the planned panes among the first `k` leaves the first `k`
/// items that are retained, followed by the items from `k` on.
proof fn lemma_destroys<T>(items: Seq<T>, previous: Seq<int>, next: Seq<int>, k: int, fresh: T)
    requires
        0 <= k <= items.len(),
        items.len() == previous.len(),
        items.len() <= usize::MAX,
    ensures
        carried_out(items, destroys(previous, next, k), fresh) == retained_from(
            items.take(k),
            previous.take(k),
            next,
            0,
        ) + items.skip(k),
    decreases k,
{
    if k == 0 {
        assert(retained_from(items.take(0), previous.take(0), next, 0) + items.skip(0) =~= items);
    } else {
        let rest = destroys(previous, next, k - 1);
        lemma_destroys(items, previous, next, k - 1, fresh);
        lemma_retained_take(items, previous, next, k, 0);
        let head = retained_from(items.take(k - 1), previous.take(k - 1), next, 0);
        if next.contains(previous[k - 1]) {
            assert(head.push(items[k - 1]) + items.skip(k) =~= head + items.skip(k - 1));
        } else {
            let first = seq![PaneChange::Destroy { index: (k - 1) as usize }];
            lemma_carried_out_add(items, first, rest, fresh);
            assert(first.drop_last() =~= Seq::<PaneChange>::empty());
            assert(carried_out(items, Seq::<PaneChange>::empty(), fresh) == items);
            assert(((k - 1) as usize) as int == k - 1);
            assert(carried_out(items, first, fresh) == items.remove(k - 1));
            let shorter = items.remove(k - 1);
            let fewer = previous.remove(k - 1);
            lemma_destroys(shorter, fewer, next, k - 1, fresh);
            lemma_destroys_prefix(previous, fewer, next, k - 1);
            assert(shorter.take(k - 1) =~= items.take(k - 1));
            assert(fewer.take(k - 1) =~= previous.take(k - 1));
            assert(shorter.skip(k - 1) =~= items.skip(k));
        }
    }
}

/// The planned destructions among the first `k` depend on the first `k`
/// previous identities alone.
proof fn lemma_destroys_prefix(a: Seq<int>, b: Seq<int>, next: Seq<int>, k: int)
    requires
        0 <= k <= a.len(),
        k <= b.len(),
        forall|i: int| 0 <= i < k ==> a[i] == b[i],
    ensures
        destroys(a, next, k) == destroys(b, next, k),
    decreases k,
{
    if k > 0 {
        lemma_destroys_prefix(a, b, next, k - 1);
    }
}

/// What is retained of the first `k` items: what is retained of the first
/// `k - 1`, and the last of them if its identity stays.
proof fn lemma_retained_take<T>(items: Seq<T>, previous: Seq<int>, next: Seq<int>, k: int, from: int)
    requires
        0 <= from < k <= items.len(),
        items.len() == previous.len(),
    ensures
        retained_from(items.take(k), previous.take(k), next, from) == (if next.contains(
            previous[k - 1],
        ) {
            retained_from(items.take(k - 1), previous.take(k - 1), next, from).push(items[k - 1])
        } else {
            retained_from(items.take(k - 1), previous.take(k - 1), next, from)
        }),
    decreases k - from,
{
    let long = items.take(k);
    let long_ids = previous.take(k);
    let short = items.take(k - 1);
    let short_ids = previous.take(k - 1);
    if from == k - 1 {
        assert(retained_from(short, short_ids, next, from) =~= Seq::<T>::empty());
        assert(retained_from(long, long_ids, next, k) =~= Seq::<T>::empty());
        assert(long[from] == items[k - 1]);
        assert(long_ids[from] == previous[k - 1]);
        if next.contains(previous[k - 1]) {
            assert(seq![items[k - 1]] + Seq::<T>::empty() =~= Seq::<T>::empty().push(
                items[k - 1],
            ));
        }
    } else {
        lemma_retained_take(items, previous, next, k, from + 1);
        assert(long[from] == short[from]);
        assert(long_ids[from] == short_ids[from]);
        let tail = retained_from(short, short_ids, next, from + 1);
        if next.contains(previous[k - 1]) {
            assert(seq![long[from]] + tail.push(items[k - 1]) =~= (seq![long[from]] + tail).push(
                items[k - 1],
            ));
        }
    }
}

/// Creating the planned panes among the first `k` new identities gives the
/// widgets their fresh frames at the same places as a reconciliation does.
proof fn lemma_creates(f: Seq<PaneFrame>, previous: Seq<int>, next: Seq<int>, k: int)
    requires
        0 <= k <= next.len(),
        next.len() <= usize::MAX,
    ensures
        carried_out(f, creates(previous, next, k), fresh_frame()) == grown_frames(
            f,
            previous,
            next,
            k,
        ),
    decreases k,
{
    if k > 0 {
        lemma_creates(f, previous, next, k - 1);
        if !previous.contains(next[k - 1]) {
            let before = creates(previous, next, k - 1);
            let all = before.push(PaneChange::Create { index: (k - 1) as usize });
            assert(all.drop_last() =~= before);
            assert(((k - 1) as usize) as int == k - 1);
        }
    }
}

/// Appending `count` panes gives the widgets `count` fresh frames at the end.
proof fn lemma_appends(f: Seq<PaneFrame>, count: int)
    requires
        0 <= count,
        f.len() + count <= usize::MAX,
    ensures
        carried_out(f, appends(f.len() as int, count), fresh_frame()) == appended_frames(f, count),
    decreases count,
{
    if count > 0 {
        lemma_appends(f, count - 1);
        assert(appends(f.len() as int, count).drop_last() =~= appends(f.len() as int, count - 1));
        lemma_appended_len(f, count - 1);
        let before = appended_frames(f, count - 1);
        assert(before.insert(before.len() as int, fresh_frame()) =~= before.push(fresh_frame()));
    }
}

/// Appending `count` frames makes the run `count` longer.
proof fn lemma_appended_len(f: Seq<PaneFrame>, count: int)
    requires
        0 <= count,
    ensures
        appended_frames(f, count).len() == f.len() + count,
    decreases count,
{
    if count > 0 {
        lemma_appended_len(f, count - 1);
    }
}

/// The plan says what a reconciliation does: carried out on the widgets of
/// the dock, it gives the widgets that the reconciliation leaves. A host
/// that carries it out on its own run of one item per pane keeps that run
/// in step with the dock.
pub proof fn lemma_plan_restructures(f: Seq<PaneFrame>, previous: Option<Seq<int>>, next: Seq<int>)
    requires
        previous matches Some(p) ==> p.len() == f.len(),
        f.len() + next.len() <= usize::MAX,
    ensures
        carried_out(f, planned(f.len() as int, previous, next), fresh_frame())
            == restructured_frames(f, previous, next),
{
    match previous {
        None => {
            lemma_appends(f, next.len() as int);
        },
        Some(p) => {
            let gone = destroys(p, next, p.len() as int);
            let made = creates(p, next, next.len() as int);
            lemma_carried_out_add(f, gone, made, fresh_frame());
            lemma_destroys(f, p, next, p.len() as int, fresh_frame());
            assert(f.take(f.len() as int) =~= f);
            assert(p.take(p.len() as int) =~= p);
            assert(retained_from(f, p, next, 0) + f.skip(f.len() as int) =~= retained_from(
                f,
                p,
                next,
                0,
            ));
            lemma_creates(retained_from(f, p, next, 0), p, next, next.len() as int);
        },
    }
}

/// Lists the changes that a reconciliation of a dock of `len` panes makes.
pub fn plan_changes(
    len: usize,
    previous: Option<&Vec<PaneData>>,
    new_identities: &Vec<PaneData>,
) -> (plan: Vec<PaneChange>)
    requires
        len + new_identities@.len() <= usize::MAX,
    ensures
        plan@ == planned(
            len as int,
            match previous {
                Some(p) => Some(ids(p@)),
                None => None,
            },
            ids(new_identities@),
        ),
{
    let ghost n = ids(new_identities@);
    let mut plan: Vec<PaneChange> = Vec::new();
    match previous {
        None => {
            let mut i: usize = 0;
            while i < new_identities.len()
                invariant
                    i <= new_identities@.len(),
                    len + new_identities@.len() <= usize::MAX,
                    plan@ == appends(len as int, i as int),
                decreases new_identities@.len() - i,
            {
                plan.push(PaneChange::Create { index: len + i });
                assert(plan@ =~= appends(len as int, i as int + 1));
                i = i + 1;
            }
        },
        Some(previous) => {
            let ghost p = ids(previous@);
            let mut i: usize = previous.len();
            while i > 0
                invariant
                    i <= previous@.len(),
                    p == ids(previous@),
                    n == ids(new_identities@),
                    plan@ + destroys(p, n, i as int) == destroys(p, n, p.len() as int),
                decreases i,
            {
                i = i - 1;
                assert(p[i as int] == previous@[i as int].id);
                let ghost before = plan@;
                if position_of(new_identities, previous[i].id).is_none() {
                    plan.push(PaneChange::Destroy { index: i });
                    assert(plan@ + destroys(p, n, i as int) =~= before + destroys(
                        p,
                        n,
                        i as int + 1,
                    ));
                }
            }
            let ghost gone = plan@;
            assert(gone =~= destroys(p, n, p.len() as int));
            let mut j: usize = 0;
            while j < new_identities.len()
                invariant
                    j <= new_identities@.len(),
                    p == ids(previous@),
                    n == ids(new_identities@),
                    plan@ == gone + creates(p, n, j as int),
                decreases new_identities@.len() - j,
            {
                assert(n[j as int] == new_identities@[j as int].id);
                if position_of(previous, new_identities[j].id).is_none() {
                    plan.push(PaneChange::Create { index: j });
                    assert(plan@ =~= gone + creates(p, n, j as int + 1));
                }
                j = j + 1;
            }
        },
    }
    plan
}

} // verus!
