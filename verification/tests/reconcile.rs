use pane_dock::config::DockConfig;
use pane_dock::dock::PaneDockWidget;
use pane_dock::entry::PaneEntry;
use pane_dock::geometry::Rect;
use pane_dock::reconcile::identities_differ;
use pane_dock::state::{AppState, PaneData};
use pane_dock::widgets::{PaneFrame, PaneHeaderWidget, PaneWidget};

fn config() -> DockConfig {
    DockConfig { spacing: 10, pane_width: 300, pane_height: 480, header_height: 25, pixel: 1 }
}

fn identities(ids: &[i32]) -> Vec<PaneData> {
    ids.iter().map(|&id| PaneData { id }).collect()
}

fn entry(target: i64, display: i64) -> PaneEntry {
    PaneEntry { target_offset: target, display_offset: display, width: 300, height: 480 }
}

fn frame(mark: i64) -> PaneFrame {
    PaneFrame {
        content: PaneWidget { layout_rect: Rect { x0: mark, y0: 0, x1: mark + 1, y1: 1 } },
        header: PaneHeaderWidget {
            layout_rect: Rect { x0: mark, y0: 0, x1: mark + 1, y1: 1 },
            close_label: Rect { x0: 0, y0: 0, x1: 1, y1: 1 },
        },
    }
}

fn fresh_frame() -> PaneFrame {
    PaneFrame { content: PaneWidget::new(), header: PaneHeaderWidget::new() }
}

fn dock_with(entries: Vec<PaneEntry>) -> PaneDockWidget {
    let mut dock = PaneDockWidget::with_config(config());
    dock.frames = (0..entries.len()).map(|i| frame(i as i64 + 1)).collect();
    dock.entries = entries;
    dock
}

fn targets(dock: &PaneDockWidget) -> Vec<i64> {
    dock.entries.iter().map(|e| e.target_offset).collect()
}

fn displays(dock: &PaneDockWidget) -> Vec<i64> {
    dock.entries.iter().map(|e| e.display_offset).collect()
}

#[test]
fn new_dock_is_empty_with_standard_measures() {
    let dock = PaneDockWidget::new();
    assert_eq!(
        dock.config,
        DockConfig { spacing: 8, pane_width: 300, pane_height: 480, header_height: 25, pixel: 1 }
    );
    assert_eq!(dock.config, DockConfig::default());
    assert!(dock.entries.is_empty());
    assert!(dock.frames.is_empty());
    assert_eq!(dock.persistent, Rect { x0: 0, y0: 0, x1: 0, y1: 0 });
    assert!(dock.drag.is_none());
}

#[test]
fn append_placement() {
    let mut dock = PaneDockWidget::with_config(config());
    let first = identities(&[1]);
    assert!(dock.can_reconcile(None, &first));
    assert!(dock.reconcile(None, &first));
    assert_eq!(dock.entries, vec![entry(10, 10)]);
    let second = identities(&[1, 2]);
    assert!(dock.can_reconcile(Some(&first), &second));
    assert!(dock.reconcile(Some(&first), &second));
    assert_eq!(dock.entries, vec![entry(10, 10), entry(320, 320)]);
    assert_eq!(dock.frames, vec![fresh_frame(), fresh_frame()]);
}

#[test]
fn add_pane_places_past_the_outermost_slot() {
    let mut dock = PaneDockWidget::with_config(config());
    dock.add_pane(0);
    assert_eq!(dock.entries, vec![entry(10, 10)]);
    dock.add_pane(0);
    assert_eq!(dock.entries, vec![entry(320, 320), entry(10, 10)]);
    dock.add_pane(1);
    assert_eq!(dock.entries, vec![entry(320, 320), entry(630, 630), entry(10, 10)]);
    assert_eq!(dock.frames.len(), 3);
}

#[test]
fn first_run_creates_one_pane_per_identity_in_order() {
    let mut dock = PaneDockWidget::with_config(config());
    assert!(dock.reconcile(None, &identities(&[5, 3, 9])));
    assert_eq!(targets(&dock), vec![10, 320, 630]);
    assert_eq!(displays(&dock), vec![10, 320, 630]);
    assert_eq!(dock.frames.len(), 3);
}

#[test]
fn first_run_without_identities_changes_nothing() {
    let mut dock = PaneDockWidget::with_config(config());
    assert!(!dock.reconcile(None, &identities(&[])));
    assert!(dock.entries.is_empty());
    assert!(dock.frames.is_empty());
}

#[test]
fn reconciliation_preserves_matched_identity() {
    let mut dock = dock_with(vec![entry(10, 11), entry(320, 322), entry(630, 633)]);
    let previous = identities(&[1, 2, 3]);
    let next = identities(&[1, 3]);
    assert!(dock.can_reconcile(Some(&previous), &next));
    assert!(dock.reconcile(Some(&previous), &next));
    assert_eq!(dock.entries, vec![entry(10, 11), entry(320, 633)]);
    assert_eq!(dock.frames, vec![frame(1), frame(3)]);
}

#[test]
fn reconciliation_leaves_packed_survivors_untouched() {
    let mut dock = dock_with(vec![entry(10, 11), entry(630, 322), entry(320, 633)]);
    assert!(dock.reconcile(Some(&identities(&[1, 2, 3])), &identities(&[1, 3])));
    assert_eq!(dock.entries, vec![entry(10, 11), entry(320, 633)]);
    assert_eq!(dock.frames, vec![frame(1), frame(3)]);
}

#[test]
fn insertion_lands_at_logical_position() {
    let mut dock = dock_with(vec![entry(10, 11), entry(320, 322), entry(630, 633)]);
    let previous = identities(&[1, 2, 3]);
    let next = identities(&[1, 4, 2, 3]);
    assert!(dock.can_reconcile(Some(&previous), &next));
    assert!(dock.reconcile(Some(&previous), &next));
    assert_eq!(
        dock.entries,
        vec![entry(10, 11), entry(940, 940), entry(320, 322), entry(630, 633)]
    );
    assert_eq!(dock.frames, vec![frame(1), fresh_frame(), frame(2), frame(3)]);
}

#[test]
fn idempotent_reconciliation() {
    let mut dock = dock_with(vec![entry(10, 11), entry(320, 322), entry(630, 633)]);
    let previous = identities(&[1, 2, 3]);
    let next = identities(&[1, 4, 2, 3]);
    assert!(dock.reconcile(Some(&previous), &next));
    let entries = dock.entries.clone();
    let frames = dock.frames.clone();
    assert!(dock.can_reconcile(Some(&next), &next));
    assert!(!dock.reconcile(Some(&next), &next));
    assert_eq!(dock.entries, entries);
    assert_eq!(dock.frames, frames);
}

#[test]
fn unchanged_identities_leave_an_unsettled_dock_alone() {
    let mut dock = dock_with(vec![entry(700, 11), entry(15, 322)]);
    let same = identities(&[8, 9]);
    assert!(!dock.reconcile(Some(&same), &same));
    assert_eq!(dock.entries, vec![entry(700, 11), entry(15, 322)]);
    assert_eq!(dock.frames, vec![frame(1), frame(2)]);
}

#[test]
fn reordered_identities_reorder_nothing() {
    let mut dock = dock_with(vec![entry(10, 11), entry(320, 322), entry(630, 633)]);
    assert!(!dock.reconcile(Some(&identities(&[1, 2, 3])), &identities(&[3, 1, 2])));
    assert_eq!(dock.entries, vec![entry(10, 11), entry(320, 322), entry(630, 633)]);
}

#[test]
fn a_replaced_identity_destroys_one_pane_and_creates_another() {
    let mut dock = dock_with(vec![
        entry(10, 11),
        entry(320, 322),
        entry(630, 633),
        entry(940, 944),
        entry(1250, 1255),
    ]);
    let previous = identities(&[1, 2, 3, 4, 5]);
    let next = identities(&[1, 2, 6, 4, 5]);
    assert!(dock.can_reconcile(Some(&previous), &next));
    assert!(dock.reconcile(Some(&previous), &next));
    assert_eq!(
        dock.entries,
        vec![
            entry(10, 11),
            entry(320, 322),
            entry(1560, 1560),
            entry(630, 944),
            entry(940, 1255),
        ]
    );
    assert_eq!(dock.frames, vec![frame(1), frame(2), fresh_frame(), frame(4), frame(5)]);
}

#[test]
fn all_panes_gone_leaves_an_empty_dock() {
    let mut dock = dock_with(vec![entry(10, 11), entry(320, 322)]);
    assert!(dock.reconcile(Some(&identities(&[1, 2])), &identities(&[])));
    assert!(dock.entries.is_empty());
    assert!(dock.frames.is_empty());
}

#[test]
fn reconcile_keeps_the_gesture_and_the_controls() {
    let mut dock = dock_with(vec![entry(10, 11), entry(320, 322)]);
    dock.persistent = Rect { x0: 1, y0: 2, x1: 3, y1: 4 };
    assert!(dock.reconcile(Some(&identities(&[1, 2])), &identities(&[1, 2, 3])));
    assert_eq!(dock.persistent, Rect { x0: 1, y0: 2, x1: 3, y1: 4 });
    assert!(dock.drag.is_none());
    assert_eq!(dock.config, config());
}

#[test]
fn update_asks_for_layout_when_panes_change() {
    let mut state = AppState::new(1);
    state.add_pane();
    let mut dock = PaneDockWidget::with_config(config());
    assert!(dock.lifecycle(true, &state));
    assert_eq!(targets(&dock), vec![10]);
    let old = state.clone();
    state.add_pane();
    assert!(dock.update(&old, &state));
    assert_eq!(targets(&dock), vec![10, 320]);
    let old = state.clone();
    assert!(!dock.update(&old, &state));
    assert_eq!(targets(&dock), vec![10, 320]);
}

#[test]
fn update_asks_for_layout_when_the_dock_is_shown_or_hidden() {
    let mut state = AppState::new(1);
    state.add_pane();
    let mut dock = PaneDockWidget::with_config(config());
    dock.lifecycle(true, &state);
    let old = state.clone();
    state.show_dock = false;
    assert!(dock.update(&old, &state));
    assert_eq!(targets(&dock), vec![10]);
    let old = state.clone();
    state.always_on_top = true;
    assert!(!dock.update(&old, &state));
}

#[test]
fn lifecycle_reconciles_only_when_the_dock_is_added() {
    let mut state = AppState::new(1);
    state.add_pane();
    state.add_pane();
    let mut dock = PaneDockWidget::with_config(config());
    assert!(!dock.lifecycle(false, &state));
    assert!(dock.entries.is_empty());
    assert!(dock.lifecycle(true, &state));
    assert_eq!(targets(&dock), vec![10, 320]);
    let mut empty = PaneDockWidget::with_config(config());
    assert!(!empty.lifecycle(true, &AppState::new(0)));
}

#[test]
fn closing_a_pane_lets_the_others_close_ranks() {
    let mut state = AppState::new(1);
    state.add_pane();
    state.add_pane();
    state.add_pane();
    let mut dock = PaneDockWidget::with_config(config());
    dock.lifecycle(true, &state);
    let old = state.clone();
    state.remove_pane(0);
    assert!(dock.update(&old, &state));
    assert_eq!(targets(&dock), vec![10, 320]);
    assert_eq!(displays(&dock), vec![320, 630]);
}

#[test]
fn identities_differ_when_one_is_gone_or_new() {
    assert!(!identities_differ(&identities(&[]), &identities(&[])));
    assert!(!identities_differ(&identities(&[1, 2, 3]), &identities(&[1, 2, 3])));
    assert!(!identities_differ(&identities(&[1, 2, 3]), &identities(&[3, 1, 2])));
    assert!(identities_differ(&identities(&[1, 2, 3]), &identities(&[1, 3])));
    assert!(identities_differ(&identities(&[1, 3]), &identities(&[1, 2, 3])));
    assert!(identities_differ(&identities(&[1, 2]), &identities(&[1, 3])));
    assert!(identities_differ(&identities(&[]), &identities(&[1])));
}
