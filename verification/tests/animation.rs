use pane_dock::animation::{pace_of, step, StepOutcome};
use pane_dock::entry::PaneEntry;

const FRAME: u64 = 16_000_000;

fn entry(target: i64, display: i64) -> PaneEntry {
    PaneEntry { target_offset: target, display_offset: display, width: 300, height: 480 }
}

fn displays(entries: &Vec<PaneEntry>) -> Vec<i64> {
    entries.iter().map(|e| e.display_offset).collect()
}

#[test]
fn pace_is_held_between_a_quarter_and_five_quarters_of_a_frame() {
    assert_eq!(pace_of(0), 4_000_000);
    assert_eq!(pace_of(3_999_999), 4_000_000);
    assert_eq!(pace_of(4_000_000), 4_000_000);
    assert_eq!(pace_of(16_000_000), 16_000_000);
    assert_eq!(pace_of(20_000_000), 20_000_000);
    assert_eq!(pace_of(20_000_001), 20_000_000);
    assert_eq!(pace_of(u64::MAX), 20_000_000);
}

#[test]
fn step_moves_by_floor_speed_plus_share_of_the_gap() {
    let mut entries = vec![entry(100, 0)];
    let outcome = step(&mut entries, None, FRAME, 1);
    assert_eq!(displays(&entries), vec![35]);
    assert_eq!(outcome, StepOutcome { any_moved: true, more_frames_needed: true });
}

#[test]
fn step_moves_towards_a_nearer_target_too() {
    let mut entries = vec![entry(0, 1000)];
    step(&mut entries, None, FRAME, 1);
    assert_eq!(displays(&entries), vec![830]);
}

#[test]
fn step_covers_a_gap_below_the_floor_speed() {
    let mut entries = vec![entry(19, 0), entry(-19, 0)];
    let outcome = step(&mut entries, None, FRAME, 1);
    assert_eq!(displays(&entries), vec![19, -19]);
    assert_eq!(outcome, StepOutcome { any_moved: true, more_frames_needed: false });
}

#[test]
fn step_at_the_floor_speed_takes_the_proportional_step() {
    let mut entries = vec![entry(20, 0)];
    let outcome = step(&mut entries, None, FRAME, 1);
    assert_eq!(displays(&entries), vec![23]);
    assert!(outcome.more_frames_needed);
}

#[test]
fn step_is_slower_after_a_short_frame() {
    let mut entries = vec![entry(100, 0)];
    step(&mut entries, None, 1_000_000, 1);
    assert_eq!(displays(&entries), vec![8]);
}

#[test]
fn step_is_faster_after_a_long_frame() {
    let mut entries = vec![entry(100, 0)];
    step(&mut entries, None, 1_000_000_000, 1);
    assert_eq!(displays(&entries), vec![43]);
}

#[test]
fn step_scales_with_the_units_in_a_pixel() {
    let mut entries = vec![entry(100_000, 0), entry(19_999, 0)];
    step(&mut entries, None, FRAME, 1000);
    assert_eq!(displays(&entries), vec![35_000, 19_999]);
}

#[test]
fn step_leaves_settled_panes_alone() {
    let mut entries = vec![entry(10, 10), entry(320, 320)];
    let outcome = step(&mut entries, None, FRAME, 1);
    assert_eq!(displays(&entries), vec![10, 320]);
    assert_eq!(outcome, StepOutcome { any_moved: false, more_frames_needed: false });
}

#[test]
fn step_of_empty_dock_reports_nothing() {
    let mut entries: Vec<PaneEntry> = Vec::new();
    let outcome = step(&mut entries, None, FRAME, 1);
    assert_eq!(outcome, StepOutcome { any_moved: false, more_frames_needed: false });
}

#[test]
fn step_skips_the_excluded_pane() {
    let mut entries = vec![entry(100, 0), entry(500, 0)];
    let outcome = step(&mut entries, Some(1), FRAME, 1);
    assert_eq!(displays(&entries), vec![35, 0]);
    assert!(outcome.any_moved);
    let mut only = vec![entry(100, 0)];
    let outcome = step(&mut only, Some(0), FRAME, 1);
    assert_eq!(displays(&only), vec![0]);
    assert_eq!(outcome, StepOutcome { any_moved: false, more_frames_needed: false });
}

#[test]
fn step_keeps_targets_and_sizes() {
    let mut entries = vec![entry(100, 0)];
    step(&mut entries, None, FRAME, 1);
    assert_eq!(
        entries[0],
        PaneEntry { target_offset: 100, display_offset: 35, width: 300, height: 480 }
    );
}

#[test]
fn step_may_pass_a_target_just_beyond_the_floor_speed() {
    let mut entries = vec![entry(21, 0)];
    let outcome = step(&mut entries, None, FRAME, 1);
    assert_eq!(displays(&entries), vec![23]);
    assert!(outcome.more_frames_needed);
    let outcome = step(&mut entries, None, FRAME, 1);
    assert_eq!(displays(&entries), vec![21]);
    assert!(!outcome.more_frames_needed);
}

#[test]
fn repeated_steps_arrive_within_the_bound() {
    for &elapsed in [1_000_000u64, 16_000_000, 40_000_000].iter() {
        for &gap in [1i64, 5, 19, 20, 21, 37, 300, 4000, 123_456].iter() {
            for &sign in [1i64, -1].iter() {
                let mut entries = vec![entry(1000 + sign * gap, 1000)];
                let bound = gap / 5 + 2;
                let mut frames = 0;
                let mut last = gap;
                loop {
                    let outcome = step(&mut entries, None, elapsed, 1);
                    frames += 1;
                    let left = (entries[0].target_offset - entries[0].display_offset).abs();
                    assert!(left < last);
                    last = left;
                    assert_eq!(outcome.more_frames_needed, left != 0);
                    if !outcome.more_frames_needed {
                        break;
                    }
                }
                assert!(frames <= bound);
                assert_eq!(entries[0].display_offset, entries[0].target_offset);
                let outcome = step(&mut entries, None, elapsed, 1);
                assert_eq!(outcome, StepOutcome { any_moved: false, more_frames_needed: false });
            }
        }
    }
}

#[test]
fn far_from_the_target_a_step_does_not_pass_it() {
    for gap in 31i64..400 {
        let mut entries = vec![entry(gap, 0)];
        step(&mut entries, None, 20_000_000, 1);
        assert!(entries[0].display_offset > 0);
        assert!(entries[0].display_offset <= gap);
    }
}
