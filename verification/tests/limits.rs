use pane_dock::config::DockConfig;
use pane_dock::dock::PaneDockWidget;
use pane_dock::entry::PaneEntry;
use pane_dock::events::DockEvent;
use pane_dock::geometry::{Point, Size};
use pane_dock::limits::{all_distinct, has_room_for, reach_of, widest_of};
use pane_dock::state::PaneData;

fn config() -> DockConfig {
    DockConfig { spacing: 10, pane_width: 300, pane_height: 480, header_height: 25, pixel: 1 }
}

fn entry(target: i64, width: i64) -> PaneEntry {
    PaneEntry { target_offset: target, display_offset: target, width, height: 480 }
}

fn identities(ids: &[i32]) -> Vec<PaneData> {
    ids.iter().map(|&id| PaneData { id }).collect()
}

fn dock_of(panes: i32) -> PaneDockWidget {
    let mut dock = PaneDockWidget::with_config(config());
    let all: Vec<PaneData> = (0..panes).map(|id| PaneData { id }).collect();
    dock.reconcile(None, &all);
    dock.layout(
        Size { width: 1024, height: 605 },
        Size { width: 100, height: 60 },
        Size { width: 20, height: 25 },
        false,
        panes as usize,
    );
    dock
}

#[test]
fn reach_and_widest_of_a_dock() {
    let entries = vec![entry(10, 300), entry(320, 120), entry(-50, 400)];
    assert_eq!(reach_of(&entries), 440);
    assert_eq!(widest_of(&entries), 400);
    assert_eq!(reach_of(&Vec::new()), 0);
    assert_eq!(widest_of(&Vec::new()), 0);
    assert_eq!(reach_of(&vec![entry(i64::MAX, i64::MAX)]), 2 * (i64::MAX as i128));
}

#[test]
fn has_room_for_counts_width_and_spacing_for_each_step() {
    let entries = vec![entry(i64::MAX - 1000, 300)];
    assert!(has_room_for(&entries, 10, 0));
    assert!(has_room_for(&entries, 10, 2));
    assert!(!has_room_for(&entries, 10, 3));
    assert!(has_room_for(&entries, 50, 2));
    assert!(!has_room_for(&entries, 51, 2));
    assert!(!has_room_for(&vec![entry(i64::MAX - 299, 300)], 0, 0));
    assert!(has_room_for(&vec![entry(i64::MAX - 300, 300)], 0, 0));
    assert!(has_room_for(&Vec::new(), 0, usize::MAX));
    assert!(has_room_for(&vec![entry(10, 300)], 10, 1_000_000));
}

#[test]
fn all_distinct_finds_a_repeated_id() {
    assert!(all_distinct(&identities(&[])));
    assert!(all_distinct(&identities(&[3, 1, 2])));
    assert!(!all_distinct(&identities(&[3, 1, 3])));
    assert!(!all_distinct(&identities(&[1, 1])));
}

#[test]
fn can_reconcile_wants_aligned_and_distinct_identities() {
    let dock = dock_of(2);
    assert!(dock.can_reconcile(Some(&identities(&[0, 1])), &identities(&[1, 2, 3])));
    assert!(dock.can_reconcile(None, &identities(&[1, 1])));
    assert!(!dock.can_reconcile(Some(&identities(&[0])), &identities(&[0, 1])));
    assert!(!dock.can_reconcile(Some(&identities(&[0, 0])), &identities(&[0, 1])));
    assert!(!dock.can_reconcile(Some(&identities(&[0, 1])), &identities(&[2, 2])));
}

#[test]
fn can_reconcile_keeps_the_dragged_index_valid() {
    let mut dock = dock_of(2);
    dock.pointer_down(Point { x: 500, y: 110 }, true);
    assert_eq!(dock.drag.map(|d| d.dragging_entry_index), Some(Some(1)));
    assert!(dock.can_reconcile(Some(&identities(&[0, 1])), &identities(&[0, 1, 2])));
    assert!(!dock.can_reconcile(Some(&identities(&[0, 1])), &identities(&[0])));
    assert!(dock.can_reconcile(None, &identities(&[])));
}

#[test]
fn can_reconcile_wants_room_for_the_new_panes() {
    let mut dock = dock_of(1);
    dock.entries[0].target_offset = i64::MAX - 1000;
    assert!(dock.can_reconcile(Some(&identities(&[0])), &identities(&[0])));
    assert!(!dock.can_reconcile(Some(&identities(&[0])), &identities(&[0, 1])));
    assert!(!dock.can_reconcile(None, &identities(&[1, 2])));
}

#[test]
fn can_move_rejects_what_cannot_be_stored() {
    let mut dock = dock_of(2);
    assert!(dock.can_move(Point { x: i64::MAX, y: 0 }, true));
    dock.pointer_down(Point { x: 800, y: 110 }, true);
    assert!(dock.can_move(Point { x: 600, y: 110 }, true));
    assert!(dock.can_move(Point { x: i64::MIN, y: 110 }, false));
    assert!(!dock.can_move(Point { x: i64::MIN, y: 110 }, true));
    assert!(dock.can_move(Point { x: i64::MAX, y: 110 }, true));
    assert!(!dock.can_move(Point { x: i64::MIN + 900, y: 110 }, true));
    dock.entries[1].target_offset = i64::MAX - 1000;
    assert!(!dock.can_move(Point { x: 600, y: 110 }, true));
}

#[test]
fn can_move_of_a_window_drag_checks_both_directions() {
    let mut dock = dock_of(1);
    dock.pointer_down(Point { x: -5, y: -5 }, true);
    assert!(dock.can_move(Point { x: i64::MAX - 5, y: 0 }, true));
    assert!(!dock.can_move(Point { x: i64::MAX - 4, y: 0 }, true));
    assert!(!dock.can_move(Point { x: 0, y: i64::MAX - 4 }, true));
}

#[test]
fn can_release_wants_room_unless_the_release_is_a_click() {
    let mut dock = dock_of(1);
    assert!(dock.can_release(Point { x: 0, y: 0 }));
    dock.pointer_down(Point { x: 1000, y: 110 }, true);
    dock.entries[0].target_offset = i64::MAX - 400;
    assert!(dock.can_release(Point { x: 1000, y: 110 }));
    assert!(!dock.can_release(Point { x: 800, y: 110 }));
    dock.entries[0].target_offset = 10;
    assert!(dock.can_release(Point { x: 800, y: 110 }));
}

#[test]
fn can_animate_rejects_a_step_out_of_range() {
    let mut dock = dock_of(2);
    assert!(dock.can_animate(16_000_000));
    dock.entries[0].target_offset = i64::MAX - 1;
    dock.entries[0].display_offset = i64::MAX - 20;
    assert!(dock.can_animate(16_000_000));
    dock.entries[0].display_offset = i64::MAX - 22;
    assert!(!dock.can_animate(16_000_000));
    dock.pointer_down(Point { x: 800, y: 110 }, true);
    assert!(dock.can_animate(16_000_000));
}

#[test]
fn can_layout_rejects_rectangles_out_of_range() {
    let dock = dock_of(2);
    let controls = Size { width: 100, height: 60 };
    let label = Size { width: 20, height: 25 };
    assert!(dock.can_layout(Size { width: 1024, height: 605 }, controls, label, 2));
    assert!(!dock.can_layout(Size { width: i64::MIN, height: 605 }, controls, label, 2));
    assert!(!dock.can_layout(Size { width: 1024, height: i64::MIN + 400 }, controls, label, 2));
    assert!(dock.can_layout(Size { width: i64::MIN + 100, height: 605 }, controls, label, 0));
    assert!(!dock.can_layout(Size { width: 1024, height: 605 }, controls, Size { width: i64::MIN, height: 0 }, 1));
}

#[test]
fn can_handle_answers_for_each_kind_of_event() {
    let mut dock = dock_of(2);
    dock.pointer_down(Point { x: 800, y: 110 }, true);
    assert!(dock.can_handle(&DockEvent::Other));
    assert!(dock.can_handle(&DockEvent::PointerDown { pos: Point { x: i64::MIN, y: i64::MAX }, primary: true }));
    assert!(dock.can_handle(&DockEvent::PointerMove { pos: Point { x: 700, y: 110 }, primary: true }));
    assert!(!dock.can_handle(&DockEvent::PointerMove { pos: Point { x: i64::MIN, y: 110 }, primary: true }));
    assert!(dock.can_handle(&DockEvent::PointerUp { pos: Point { x: 700, y: 110 } }));
    assert!(dock.can_handle(&DockEvent::AnimFrame { elapsed_nanos: 0 }));
}
