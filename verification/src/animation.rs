//! The animation step: each frame, every pane that is not being dragged moves
//! its displayed offset towards its target, fast when far and never slower
//! than a floor speed, corrected for the time the frame took.

use vstd::prelude::*;
use crate::entry::{PaneEntry, Slot, slots};

verus! {

/// The frame time the speeds are tuned for, in nanoseconds.
pub const FRAME_NANOS: u64 = 16_000_000;

/// A quarter of the reference frame: shorter frames count as this long.
pub const SHORTEST_NANOS: u64 = 4_000_000;

/// Five quarters of the reference frame: longer frames count as this long.
pub const LONGEST_NANOS: u64 = 20_000_000;

/// The frame time that the step reckons with: the elapsed time, held to
/// between a quarter and five quarters of the reference frame.
pub open spec fn paced(elapsed: int) -> int {
    if elapsed < SHORTEST_NANOS {
        SHORTEST_NANOS as int
    } else if elapsed > LONGEST_NANOS {
        LONGEST_NANOS as int
    } else {
        elapsed
    }
}

/// Whether `pace` is a frame time that `paced` can give.
pub open spec fn is_pace(pace: int) -> bool {
    SHORTEST_NANOS <= pace <= LONGEST_NANOS
}

/// How far a pane moves in one frame when it is `gap` away from its target.
///
/// With the speed correction `c = pace / FRAME_NANOS` and the floor speed
/// of `20 * c` pixels, a pane nearer than the floor speed covers the whole
/// gap. Otherwise it moves by the floor speed plus `0.15 * c` of the gap,
/// rounded down to a whole unit. `pixel` is the number of units in a pixel.
///
/// In whole numbers: the pane is nearer than the floor speed when
/// `gap * FRAME_NANOS / 20 < pixel * pace`, and the floor speed plus the
/// share of the gap is `pace * (400 * pixel + 3 * gap) / (20 * FRAME_NANOS)`.
pub open spec fn advance(gap: int, pace: int, pixel: int) -> int {
    if gap * 800_000 < pixel * pace {
        gap
    } else {
        pace * (400 * pixel + 3 * gap) / 320_000_000
    }
}

/// The displayed offset after one frame.
pub open spec fn eased(display: int, target: int, pace: int, pixel: int) -> int {
    if target > display {
        display + advance(target - display, pace, pixel)
    } else if target < display {
        display - advance(display - target, pace, pixel)
    } else {
        display
    }
}

/// The distance between two offsets.
pub open spec fn gap_between(a: int, b: int) -> int {
    if a >= b {
        a - b
    } else {
        b - a
    }
}

/// Whether the step leaves entry `i` alone.
pub open spec fn is_excluded(excluded: Option<usize>, i: int) -> bool {
    excluded matches Some(e) && e == i
}

/// The dock after one frame: every entry but the excluded one is eased.
pub open spec fn stepped(
    s: Seq<Slot>,
    excluded: Option<usize>,
    pace: int,
    pixel: int,
) -> Seq<Slot> {
    Seq::new(
        s.len(),
        |i: int|
            if is_excluded(excluded, i) {
                s[i]
            } else {
                s[i].drawn_at(eased(s[i].display, s[i].target, pace, pixel))
            },
    )
}

/// Whether some entry other than the excluded one is drawn away from its target.
pub open spec fn unsettled(s: Seq<Slot>, excluded: Option<usize>) -> bool {
    exists|i: int|
        0 <= i < s.len() && !is_excluded(excluded, i) && (#[trigger] s[i]).display != s[i].target
}

/// What one frame reports to the host.
#[derive(Clone, Copy, Debug, PartialEq, Eq, Structural)]
pub struct StepOutcome {
    /// Some pane was drawn away from its target and has moved.
    pub any_moved: bool,
    /// Some pane is still away from its target: another frame is needed.
    pub more_frames_needed: bool,
}

/// The elapsed time held to the range that the speeds are corrected for.
pub fn pace_of(elapsed_nanos: u64) -> (pace: u64)
    ensures
        pace == paced(elapsed_nanos as int),
        is_pace(pace as int),
{
    if elapsed_nanos < SHORTEST_NANOS {
        SHORTEST_NANOS
    } else if elapsed_nanos > LONGEST_NANOS {
        LONGEST_NANOS
    } else {
        elapsed_nanos
    }
}

/// The distance covered in one frame, for a gap that is not negative.
pub(crate) fn advance_of(gap: i128, pace: u64, pixel: i64) -> (moved: i128)
    requires
        0 <= gap <= u64::MAX,
        is_pace(pace as int),
        pixel >= 1,
    ensures
        moved == advance(gap as int, pace as int, pixel as int),
        0 <= moved <= 0x1000_0000_0000_0000_0000,
{
    assert(0 <= pixel * pace <= i64::MAX * 20_000_000) by (nonlinear_arith)
        requires
            1 <= pixel <= i64::MAX,
            4_000_000 <= pace <= 20_000_000,
    ;
    let floor_speed: i128 = pixel as i128 * pace as i128;
    if gap * 800_000 < floor_speed {
        gap
    } else {
        let weight: i128 = 400 * pixel as i128 + 3 * gap;
        assert(0 <= pace * weight <= 20_000_000 * weight) by (nonlinear_arith)
            requires
                0 <= weight,
                4_000_000 <= pace <= 20_000_000,
        ;
        (pace as i128 * weight) / 320_000_000
    }
}

/// The displayed offset of one entry after a frame, wide enough for any entry.
pub(crate) fn eased_of(entry: &PaneEntry, pace: u64, pixel: i64) -> (next: i128)
    requires
        is_pace(pace as int),
        pixel >= 1,
    ensures
        next == eased(entry@.display, entry@.target, pace as int, pixel as int),
{
    let target: i128 = entry.target_offset as i128;
    let display: i128 = entry.display_offset as i128;
    if target > display {
        display + advance_of(target - display, pace, pixel)
    } else if target < display {
        display - advance_of(display - target, pace, pixel)
    } else {
        display
    }
}

/// Advances the dock by one frame of `elapsed_nanos`.
///
/// Every pane but the excluded one (the pane under the pointer, if any)
/// moves its displayed offset by `eased`. The outcome says whether anything
/// was away from its target before the frame, and whether anything still is.
pub fn step(
    entries: &mut Vec<PaneEntry>,
    excluded_index: Option<usize>,
    elapsed_nanos: u64,
    pixel: i64,
) -> (outcome: StepOutcome)
    requires
        pixel >= 1,
        forall|i: int|
            0 <= i < old(entries).len() ==> i64::MIN <= (#[trigger] stepped(
                slots(old(entries)@),
                excluded_index,
                paced(elapsed_nanos as int),
                pixel as int,
            )[i]).display <= i64::MAX,
    ensures
        slots(final(entries)@) == stepped(
            slots(old(entries)@),
            excluded_index,
            paced(elapsed_nanos as int),
            pixel as int,
        ),
        outcome.any_moved == unsettled(slots(old(entries)@), excluded_index),
        outcome.more_frames_needed == unsettled(slots(final(entries)@), excluded_index),
{
    let ghost s = slots(entries@);
    let pace: u64 = pace_of(elapsed_nanos);
    let ghost goal = stepped(s, excluded_index, pace as int, pixel as int);
    let mut any_moved: bool = false;
    let mut more_frames_needed: bool = false;
    let mut i: usize = 0;
    while i < entries.len()
        invariant
            i <= entries.len(),
            entries.len() == s.len(),
            pixel >= 1,
            is_pace(pace as int),
            goal == stepped(s, excluded_index, pace as int, pixel as int),
            forall|k: int| 0 <= k < s.len() ==> i64::MIN <= (#[trigger] goal[k]).display <= i64::MAX,
            forall|k: int| 0 <= k < i ==> (#[trigger] slots(entries@)[k]) == goal[k],
            forall|k: int| i <= k < s.len() ==> (#[trigger] slots(entries@)[k]) == s[k],
            any_moved <==> exists|k: int|
                0 <= k < i && !is_excluded(excluded_index, k) && (#[trigger] s[k]).display
                    != s[k].target,
            more_frames_needed <==> exists|k: int|
                0 <= k < i && !is_excluded(excluded_index, k) && (#[trigger] goal[k]).display
                    != goal[k].target,
        decreases entries.len() - i,
    {
        let ghost before = slots(entries@);
        assert(before[i as int] == s[i as int]);
        let skip: bool = match excluded_index {
            Some(e) => e == i,
            None => false,
        };
        if !skip {
            let entry = entries[i];
            let target: i128 = entry.target_offset as i128;
            let display: i128 = entry.display_offset as i128;
            if target != display {
                let next: i128 = eased_of(&entry, pace, pixel);
                assert(next == goal[i as int].display);
                entries.set(i, PaneEntry { display_offset: next as i64, ..entry });
                any_moved = true;
                assert(s[i as int].display != s[i as int].target);
                if next != target {
                    more_frames_needed = true;
                    assert(goal[i as int].display != goal[i as int].target);
                }
            }
        }
        assert(slots(entries@)[i as int] == goal[i as int]);
        assert forall|k: int| i < k < s.len() implies (#[trigger] slots(entries@)[k]) == s[k] by {
            assert(before[k] == s[k]);
        }
        assert forall|k: int| 0 <= k < i + 1 implies (#[trigger] slots(entries@)[k])
            == goal[k] by {
            if k < i {
                assert(before[k] == goal[k]);
            }
        }
        i = i + 1;
    }
    assert(slots(entries@) =~= goal);
    StepOutcome { any_moved, more_frames_needed }
}

/// The displayed offset after a number of frames of the same length.
pub open spec fn eased_n(display: int, target: int, pace: int, pixel: int, frames: nat) -> int
    decreases frames,
{
    if frames == 0 {
        display
    } else {
        eased_n(eased(display, target, pace, pixel), target, pace, pixel, (frames - 1) as nat)
    }
}

/// A number of frames after which a pane that started `gap` away from its
/// target has arrived, whatever the frame time: the slowest pace covers
/// five pixels in a frame, and two frames more allow for a pane that steps
/// past its target once and comes back.
pub open spec fn frames_to_settle(gap: int, pixel: int) -> nat {
    (gap / (5 * pixel) + 2) as nat
}

/// Whether a pane that is `gap` away steps past its target: it is not
/// nearer than the floor speed, and the floor speed and its share of the
/// gap together are more than the gap.
pub open spec fn overshoots(gap: int, pace: int, pixel: int) -> bool {
    gap * 800_000 >= pixel * pace && pace * (400 * pixel + 3 * gap) >= (gap + 1) * 320_000_000
}

/// The step of a pane that is not nearer than the floor speed.
proof fn lemma_advance_far(gap: int, pace: int, pixel: int)
    requires
        gap > 0,
        is_pace(pace),
        pixel >= 1,
        gap * 800_000 >= pixel * pace,
    ensures
        advance(gap, pace, pixel) >= 5 * pixel,
        advance(gap, pace, pixel) < 2 * gap,
        advance(gap, pace, pixel) > gap <==> overshoots(gap, pace, pixel),
        advance(gap, pace, pixel) > gap ==> (advance(gap, pace, pixel) - gap) * 800_000 < pixel
            * pace,
        gap >= 31 * pixel ==> advance(gap, pace, pixel) <= gap,
{
    let pp = pixel * pace;
    let gp = gap * pace;
    assert(pace * (400 * pixel + 3 * gap) == 400 * pp + 3 * gp) by (nonlinear_arith)
        requires
            pp == pixel * pace,
            gp == gap * pace,
    ;
    assert(4_000_000 * pixel <= pp <= 20_000_000 * pixel) by (nonlinear_arith)
        requires
            pp == pixel * pace,
            pixel >= 1,
            4_000_000 <= pace <= 20_000_000,
    ;
    assert(4_000_000 * gap <= gp <= 20_000_000 * gap) by (nonlinear_arith)
        requires
            gp == gap * pace,
            gap > 0,
            4_000_000 <= pace <= 20_000_000,
    ;
    let num = 400 * pp + 3 * gp;
    let adv = num / 320_000_000;
    assert(adv == advance(gap, pace, pixel));
    assert(320_000_000 * adv <= num < 320_000_000 * adv + 320_000_000);
}

/// A pane that is away from its target moves by at least one unit and by
/// less than twice the gap; one that is nearer than the floor speed covers
/// the gap.
pub proof fn lemma_advance_bounds(gap: int, pace: int, pixel: int)
    requires
        gap > 0,
        is_pace(pace),
        pixel >= 1,
    ensures
        1 <= advance(gap, pace, pixel) < 2 * gap,
        gap * 800_000 < pixel * pace ==> advance(gap, pace, pixel) == gap,
        gap * 800_000 >= pixel * pace ==> advance(gap, pace, pixel) >= 5 * pixel,
        advance(gap, pace, pixel) > gap <==> overshoots(gap, pace, pixel),
{
    if gap * 800_000 >= pixel * pace {
        lemma_advance_far(gap, pace, pixel);
    }
}

/// Every frame brings a pane that is away from its target strictly nearer to it.
pub proof fn lemma_eased_closes(display: int, target: int, pace: int, pixel: int)
    requires
        is_pace(pace),
        pixel >= 1,
        display != target,
    ensures
        gap_between(target, eased(display, target, pace, pixel)) < gap_between(target, display),
{
    lemma_advance_bounds(gap_between(target, display), pace, pixel);
}

/// A pane that does not overshoot stays between where it was and its
/// target: it moves towards the target and not past it.
pub proof fn lemma_eased_between(display: int, target: int, pace: int, pixel: int)
    requires
        is_pace(pace),
        pixel >= 1,
        !overshoots(gap_between(target, display), pace, pixel),
    ensures
        display <= target ==> display <= eased(display, target, pace, pixel) <= target,
        display >= target ==> display >= eased(display, target, pace, pixel) >= target,
{
    if display != target {
        lemma_advance_bounds(gap_between(target, display), pace, pixel);
    }
}

/// A pane that is at least 31 pixels from its target, or nearer than the
/// floor speed, does not overshoot.
pub proof fn lemma_overshoot_band(gap: int, pace: int, pixel: int)
    requires
        gap >= 0,
        is_pace(pace),
        pixel >= 1,
    ensures
        gap >= 31 * pixel ==> !overshoots(gap, pace, pixel),
        gap * 800_000 < pixel * pace ==> !overshoots(gap, pace, pixel),
{
    if gap > 0 && gap * 800_000 >= pixel * pace {
        lemma_advance_far(gap, pace, pixel);
    }
}

/// A pane at its target stays there.
pub proof fn lemma_settled_stays(target: int, pace: int, pixel: int, frames: nat)
    ensures
        eased_n(target, target, pace, pixel, frames) == target,
    decreases frames,
{
    if frames > 0 {
        lemma_settled_stays(target, pace, pixel, (frames - 1) as nat);
    }
}

/// Convergence: with frames of one length, a pane is at its target after
/// `frames_to_settle` frames, and it stays there.
pub proof fn lemma_settles(display: int, target: int, pace: int, pixel: int, frames: nat)
    requires
        is_pace(pace),
        pixel >= 1,
        frames >= frames_to_settle(gap_between(target, display), pixel),
    ensures
        eased_n(display, target, pace, pixel, frames) == target,
    decreases frames,
{
    let gap = gap_between(target, display);
    let unit = 5 * pixel;
    assert(gap / unit >= 0) by (nonlinear_arith)
        requires
            gap >= 0,
            unit > 0,
    ;
    if display == target {
        lemma_settled_stays(target, pace, pixel, frames);
    } else {
        let next = eased(display, target, pace, pixel);
        let rest = (frames - 1) as nat;
        lemma_advance_bounds(gap, pace, pixel);
        if gap * 800_000 < pixel * pace {
            lemma_settled_stays(target, pace, pixel, rest);
        } else {
            lemma_advance_far(gap, pace, pixel);
            let adv = advance(gap, pace, pixel);
            if adv <= gap {
                let left = gap - adv;
                assert(gap_between(target, next) == left);
                assert(left / unit + 1 <= gap / unit) by (nonlinear_arith)
                    requires
                        0 <= left,
                        left + unit <= gap,
                        unit > 0,
                ;
                lemma_settles(next, target, pace, pixel, rest);
            } else {
                let over = adv - gap;
                assert(gap_between(target, next) == over);
                assert(next != target);
                assert(advance(over, pace, pixel) == over);
                assert(eased(next, target, pace, pixel) == target);
                assert(rest >= 1);
                lemma_settled_stays(target, pace, pixel, (rest - 1) as nat);
            }
        }
    }
}

/// The dock after a number of frames of the same length.
pub open spec fn stepped_n(
    s: Seq<Slot>,
    excluded: Option<usize>,
    pace: int,
    pixel: int,
    frames: nat,
) -> Seq<Slot>
    decreases frames,
{
    if frames == 0 {
        s
    } else {
        stepped_n(stepped(s, excluded, pace, pixel), excluded, pace, pixel, (frames - 1) as nat)
    }
}

/// Frame after frame every entry goes its own way: the excluded one stays,
/// each other one is eased once per frame.
pub proof fn lemma_stepped_n(
    s: Seq<Slot>,
    excluded: Option<usize>,
    pace: int,
    pixel: int,
    frames: nat,
)
    ensures
        stepped_n(s, excluded, pace, pixel, frames).len() == s.len(),
        forall|i: int|
            0 <= i < s.len() ==> #[trigger] stepped_n(s, excluded, pace, pixel, frames)[i]
                == (if is_excluded(excluded, i) {
                s[i]
            } else {
                s[i].drawn_at(eased_n(s[i].display, s[i].target, pace, pixel, frames))
            }),
    decreases frames,
{
    if frames > 0 {
        let next = stepped(s, excluded, pace, pixel);
        lemma_stepped_n(next, excluded, pace, pixel, (frames - 1) as nat);
    }
}

/// Convergence of the dock: with frames of one length, once each pane that
/// is eased has had the frames it needs, every one of them is at its
/// target, and a frame reports that no more frames are needed.
pub proof fn lemma_dock_settles(
    s: Seq<Slot>,
    excluded: Option<usize>,
    pace: int,
    pixel: int,
    frames: nat,
)
    requires
        is_pace(pace),
        pixel >= 1,
        forall|i: int|
            0 <= i < s.len() && !is_excluded(excluded, i) ==> frames >= frames_to_settle(
                gap_between((#[trigger] s[i]).target, s[i].display),
                pixel,
            ),
    ensures
        !unsettled(stepped_n(s, excluded, pace, pixel, frames), excluded),
{
    let out = stepped_n(s, excluded, pace, pixel, frames);
    lemma_stepped_n(s, excluded, pace, pixel, frames);
    assert forall|i: int| 0 <= i < out.len() && !is_excluded(excluded, i) implies (#[trigger] out[i]).display
        == out[i].target by {
        assert(frames >= frames_to_settle(gap_between(s[i].target, s[i].display), pixel));
        lemma_settles(s[i].display, s[i].target, pace, pixel, frames);
    }
}

} // verus!
