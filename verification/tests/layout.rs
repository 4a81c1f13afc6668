use pane_dock::config::DockConfig;
use pane_dock::dock::PaneDockWidget;
use pane_dock::geometry::{Point, Rect, Size};
use pane_dock::state::PaneData;
use pane_dock::widgets::{PaneFrame, PaneHeaderWidget, PaneWidget};

fn config() -> DockConfig {
    DockConfig { spacing: 10, pane_width: 300, pane_height: 480, header_height: 25, pixel: 1 }
}

fn rect(x0: i64, y0: i64, x1: i64, y1: i64) -> Rect {
    Rect { x0, y0, x1, y1 }
}

fn frame_at(x0: i64) -> PaneFrame {
    PaneFrame {
        content: PaneWidget { layout_rect: rect(x0, 125, x0 + 300, 605) },
        header: PaneHeaderWidget {
            layout_rect: rect(x0, 100, x0 + 300, 125),
            close_label: rect(280, 0, 300, 25),
        },
    }
}

fn dock_of(panes: i32) -> PaneDockWidget {
    let mut dock = PaneDockWidget::with_config(config());
    let identities: Vec<PaneData> = (0..panes).map(|id| PaneData { id }).collect();
    dock.reconcile(None, &identities);
    dock
}

const MAX: Size = Size { width: 1024, height: 605 };
const CONTROLS: Size = Size { width: 100, height: 60 };
const LABEL: Size = Size { width: 20, height: 25 };

#[test]
fn layout_places_panes_from_the_right_on_the_bottom_edge() {
    let mut dock = dock_of(3);
    let plan = dock.layout(MAX, CONTROLS, LABEL, true, 3);
    assert_eq!(dock.frames, vec![frame_at(715), frame_at(405), frame_at(95)]);
    assert_eq!(dock.persistent, rect(924, 0, 1024, 60));
    assert_eq!(plan.size, MAX);
    assert_eq!(plan.persistent_origin, Point { x: 924, y: 0 });
}

#[test]
fn layout_follows_the_displayed_offset_not_the_target() {
    let mut dock = dock_of(1);
    dock.entries[0].display_offset = 200;
    dock.entries[0].target_offset = 10;
    dock.layout(MAX, CONTROLS, LABEL, true, 1);
    assert_eq!(dock.frames, vec![frame_at(525)]);
}

#[test]
fn layout_uses_each_panes_own_size() {
    let mut dock = dock_of(1);
    dock.entries[0].width = 100;
    dock.entries[0].height = 50;
    dock.layout(MAX, CONTROLS, LABEL, true, 1);
    assert_eq!(
        dock.frames,
        vec![PaneFrame {
            content: PaneWidget { layout_rect: rect(915, 555, 1015, 605) },
            header: PaneHeaderWidget {
                layout_rect: rect(915, 530, 1015, 555),
                close_label: rect(80, 0, 100, 25),
            },
        }]
    );
}

#[test]
fn layout_gives_the_docks_items_the_room_beside_the_controls() {
    let mut dock = dock_of(1);
    let plan = dock.layout(MAX, CONTROLS, LABEL, true, 1);
    assert_eq!(plan.dock_items_max, Some(Size { width: 924, height: 605 }));
    assert!(plan.input_region.is_none());
    let plan = dock.layout(MAX, CONTROLS, LABEL, false, 1);
    assert_eq!(plan.dock_items_max, None);
}

#[test]
fn layout_of_a_hidden_dock_restricts_input_to_the_input_area() {
    let mut dock = dock_of(2);
    let plan = dock.layout(MAX, CONTROLS, LABEL, false, 2);
    let region = match plan.input_region {
        Some(region) => region,
        None => panic!("a hidden dock restricts input"),
    };
    assert_eq!(
        region.rects,
        vec![
            rect(924, 0, 1024, 60),
            rect(715, 125, 1015, 605),
            rect(715, 100, 1015, 125),
            rect(405, 125, 705, 605),
            rect(405, 100, 705, 125),
        ]
    );
}

#[test]
fn layout_covers_only_the_panes_that_stand_for_an_identity() {
    let mut dock = dock_of(3);
    dock.layout(MAX, CONTROLS, LABEL, true, 3);
    dock.entries[0].display_offset = 0;
    dock.entries[2].display_offset = 0;
    dock.layout(MAX, CONTROLS, LABEL, true, 2);
    assert_eq!(dock.frames, vec![frame_at(725), frame_at(405), frame_at(95)]);
    dock.layout(MAX, CONTROLS, LABEL, true, 7);
    assert_eq!(dock.frames, vec![frame_at(725), frame_at(405), frame_at(725)]);
}

#[test]
fn layout_changes_neither_entries_nor_gesture() {
    let mut dock = dock_of(2);
    let entries = dock.entries.clone();
    dock.layout(MAX, CONTROLS, LABEL, true, 2);
    assert_eq!(dock.entries, entries);
    assert!(dock.drag.is_none());
    assert_eq!(dock.config, config());
}

#[test]
fn layout_shifts_panes_in_by_one_pixel_of_any_size() {
    let mut dock = PaneDockWidget::with_config(DockConfig {
        spacing: 80,
        pane_width: 3000,
        pane_height: 4800,
        header_height: 250,
        pixel: 10,
    });
    dock.reconcile(None, &vec![PaneData { id: 1 }]);
    dock.layout(
        Size { width: 10240, height: 6050 },
        Size { width: 1000, height: 600 },
        Size { width: 200, height: 250 },
        true,
        1,
    );
    assert_eq!(dock.frames[0].content.layout_rect, rect(7170, 1250, 10170, 6050));
    assert_eq!(dock.frames[0].header.layout_rect, rect(7170, 1000, 10170, 1250));
    assert_eq!(dock.frames[0].header.close_label, rect(2800, 0, 3000, 250));
}
