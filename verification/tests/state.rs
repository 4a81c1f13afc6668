use pane_dock::state::{position_of, AppState, PaneData};

fn ids(state: &AppState) -> Vec<i32> {
    state.panes.iter().map(|p| p.id).collect()
}

#[test]
fn new_state_has_no_panes() {
    let state = AppState::new(7);
    assert!(state.show_dock);
    assert!(!state.always_on_top);
    assert!(state.panes.is_empty());
    assert_eq!(state.next_pane_id, 7);
}

#[test]
fn add_pane_appends_the_next_id_and_advances_the_counter() {
    let mut state = AppState::new(0);
    state.add_pane();
    assert_eq!(ids(&state), vec![0]);
    assert_eq!(state.next_pane_id, 1);
    state.add_pane();
    state.add_pane();
    assert_eq!(ids(&state), vec![0, 1, 2]);
    assert_eq!(state.next_pane_id, 3);
}

#[test]
fn add_pane_keeps_the_flags() {
    let mut state = AppState::new(0);
    state.show_dock = false;
    state.always_on_top = true;
    state.add_pane();
    assert!(!state.show_dock);
    assert!(state.always_on_top);
}

#[test]
fn ids_are_not_reused_after_a_pane_is_removed() {
    let mut state = AppState::new(0);
    state.add_pane();
    state.add_pane();
    state.add_pane();
    state.remove_pane(1);
    assert_eq!(ids(&state), vec![0, 2]);
    state.add_pane();
    assert_eq!(ids(&state), vec![0, 2, 3]);
    assert_eq!(state.next_pane_id, 4);
}

#[test]
fn position_of_finds_the_first_pane_with_the_id() {
    let panes = vec![PaneData { id: 4 }, PaneData { id: 9 }, PaneData { id: 4 }];
    assert_eq!(position_of(&panes, 4), Some(0));
    assert_eq!(position_of(&panes, 9), Some(1));
    assert_eq!(position_of(&panes, 5), None);
    assert_eq!(position_of(&Vec::new(), 5), None);
}
