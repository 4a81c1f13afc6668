use pane_dock::entry::PaneEntry;
use pane_dock::solver::{
    closest_entry_to_right, next_append_offset, refresh_all_target_positions,
    resolved_target_for, shift_left_of, slot_center,
};

fn entry(target: i64, width: i64) -> PaneEntry {
    PaneEntry { target_offset: target, display_offset: target, width, height: 480 }
}

fn targets(entries: &Vec<PaneEntry>) -> Vec<i64> {
    entries.iter().map(|e| e.target_offset).collect()
}

fn overlapping(entries: &Vec<PaneEntry>) -> bool {
    for i in 0..entries.len() {
        for j in (i + 1)..entries.len() {
            let a = &entries[i];
            let b = &entries[j];
            if a.target_offset < b.target_offset + b.width
                && b.target_offset < a.target_offset + a.width
            {
                return true;
            }
        }
    }
    false
}

#[test]
fn next_append_offset_of_empty_dock_is_zero() {
    let entries: Vec<PaneEntry> = Vec::new();
    assert_eq!(next_append_offset(&entries), 0);
}

#[test]
fn next_append_offset_is_the_outermost_far_edge() {
    let entries = vec![entry(10, 300), entry(320, 300), entry(100, 50)];
    assert_eq!(next_append_offset(&entries), 620);
}

#[test]
fn next_append_offset_is_never_negative() {
    let entries = vec![entry(-900, 300)];
    assert_eq!(next_append_offset(&entries), 0);
}

#[test]
fn slot_center_rounds_towards_the_anchored_edge() {
    assert_eq!(slot_center(&entry(10, 300)), 160);
    assert_eq!(slot_center(&entry(10, 301)), 160);
    assert_eq!(slot_center(&entry(-10, 5)), -8);
}

#[test]
fn closest_entry_is_the_largest_center_below_the_probe() {
    let entries = vec![entry(10, 300), entry(320, 300), entry(630, 300)];
    assert_eq!(closest_entry_to_right(&entries, 500, 2), Some(1));
    assert_eq!(closest_entry_to_right(&entries, 500, 1), Some(0));
    assert_eq!(closest_entry_to_right(&entries, 5000, 0), Some(2));
}

#[test]
fn closest_entry_needs_a_center_strictly_below_the_probe() {
    let entries = vec![entry(10, 300), entry(320, 300)];
    assert_eq!(closest_entry_to_right(&entries, 160, 1), None);
    assert_eq!(closest_entry_to_right(&entries, 161, 1), Some(0));
    assert_eq!(closest_entry_to_right(&entries, 100, 1), None);
}

#[test]
fn closest_entry_skips_the_excluded_entry() {
    let entries = vec![entry(10, 300), entry(320, 300)];
    assert_eq!(closest_entry_to_right(&entries, 1000, 1), Some(0));
    assert_eq!(closest_entry_to_right(&entries, 1000, 0), Some(1));
}

#[test]
fn closest_entry_of_fewer_than_two_is_none() {
    let none: Vec<PaneEntry> = Vec::new();
    assert_eq!(closest_entry_to_right(&none, 1000, 0), None);
    let one = vec![entry(10, 300)];
    assert_eq!(closest_entry_to_right(&one, 1000, 5), None);
}

#[test]
fn closest_entry_among_equal_centers_is_the_first() {
    let entries = vec![entry(500, 10), entry(10, 300), entry(60, 200), entry(900, 10)];
    assert_eq!(closest_entry_to_right(&entries, 400, 0), Some(1));
}

#[test]
fn resolved_target_is_one_spacing_past_the_neighbour() {
    let entries = vec![entry(10, 300), entry(320, 300), entry(630, 300)];
    assert_eq!(resolved_target_for(&entries, 500, 2, 10), 630);
    assert_eq!(resolved_target_for(&entries, 500, 1, 10), 320);
}

#[test]
fn resolved_target_without_neighbour_is_the_spacing() {
    let entries = vec![entry(10, 300), entry(320, 300)];
    assert_eq!(resolved_target_for(&entries, 100, 1, 10), 10);
    let one = vec![entry(700, 300)];
    assert_eq!(resolved_target_for(&one, 2000, 3, 8), 8);
}

#[test]
fn shift_left_of_clears_the_moved_span_by_the_largest_need() {
    let mut entries = vec![entry(100, 300), entry(150, 300), entry(300, 300), entry(500, 300)];
    shift_left_of(&mut entries, 0);
    assert_eq!(targets(&entries), vec![100, 400, 550, 750]);
}

#[test]
fn shift_left_of_leaves_panes_nearer_to_the_edge() {
    let mut entries = vec![entry(320, 300), entry(10, 300), entry(330, 300)];
    shift_left_of(&mut entries, 0);
    assert_eq!(targets(&entries), vec![320, 10, 620]);
}

#[test]
fn shift_left_of_without_conflict_changes_nothing() {
    let mut entries = vec![entry(320, 300), entry(10, 300), entry(630, 300)];
    shift_left_of(&mut entries, 0);
    assert_eq!(targets(&entries), vec![320, 10, 630]);
}

#[test]
fn shift_left_of_counts_a_pane_at_the_same_target() {
    let mut entries = vec![entry(10, 300), entry(10, 300)];
    shift_left_of(&mut entries, 1);
    assert_eq!(targets(&entries), vec![310, 10]);
}

#[test]
fn refresh_of_empty_dock_does_nothing() {
    let mut entries: Vec<PaneEntry> = Vec::new();
    refresh_all_target_positions(&mut entries, 10);
    assert!(entries.is_empty());
}

#[test]
fn refresh_closes_the_gap_left_by_a_pane() {
    let mut entries = vec![entry(10, 300), entry(630, 300)];
    refresh_all_target_positions(&mut entries, 10);
    assert_eq!(targets(&entries), vec![10, 320]);
}

#[test]
fn refresh_pulls_the_dock_to_the_anchored_edge() {
    let mut entries = vec![entry(510, 300), entry(820, 300)];
    refresh_all_target_positions(&mut entries, 10);
    assert_eq!(targets(&entries), vec![10, 320]);
}

#[test]
fn refresh_pushes_outward_on_a_collision() {
    let mut entries = vec![entry(10, 300), entry(10, 300)];
    refresh_all_target_positions(&mut entries, 10);
    assert_eq!(targets(&entries), vec![10, 320]);
}

#[test]
fn refresh_keeps_displayed_offsets_and_sizes() {
    let mut entries = vec![
        PaneEntry { target_offset: 700, display_offset: 55, width: 200, height: 90 },
        PaneEntry { target_offset: 10, display_offset: -4, width: 100, height: 80 },
    ];
    refresh_all_target_positions(&mut entries, 10);
    assert_eq!(
        entries,
        vec![
            PaneEntry { target_offset: 120, display_offset: 55, width: 200, height: 90 },
            PaneEntry { target_offset: 10, display_offset: -4, width: 100, height: 80 },
        ]
    );
}

#[test]
fn refresh_follows_logical_order_not_screen_order() {
    let mut entries = vec![entry(1_000_000_400, 300), entry(1_000_000_000, 300), entry(10, 300)];
    refresh_all_target_positions(&mut entries, 10);
    assert_eq!(targets(&entries), vec![1_000_000_310, 320, 10]);
    refresh_all_target_positions(&mut entries, 10);
    assert_eq!(targets(&entries), vec![630, 320, 10]);
}

#[test]
fn refresh_of_a_packed_dock_is_a_fixed_point() {
    let mut entries = vec![entry(320, 300), entry(10, 300), entry(630, 100), entry(740, 300)];
    let before = entries.clone();
    refresh_all_target_positions(&mut entries, 10);
    assert_eq!(entries, before);
    assert!(!overlapping(&entries));
}

#[test]
fn refresh_to_a_fixed_point_leaves_no_overlap() {
    let starts: Vec<Vec<PaneEntry>> = vec![
        vec![entry(10, 300), entry(100, 100), entry(50, 20)],
        vec![entry(0, 1), entry(0, 1), entry(0, 1), entry(0, 1)],
        vec![entry(900, 300), entry(950, 40), entry(40, 500), entry(41, 7)],
        vec![entry(-50, 30), entry(-20, 300), entry(5, 60)],
    ];
    for start in starts {
        let mut entries = start;
        let mut rounds = 0;
        loop {
            let before = entries.clone();
            refresh_all_target_positions(&mut entries, 10);
            rounds += 1;
            if entries == before {
                break;
            }
            assert!(rounds < 50);
        }
        assert!(!overlapping(&entries));
        assert_eq!(entries.iter().map(|e| e.target_offset).min(), Some(10));
    }
}
