use pane_dock::geometry::{Point, Rect, Region};
use pane_dock::widgets::{PaneFrame, PaneHeaderWidget, PaneWidget};
use pane_dock::geometry::Size;

fn rect(x0: i64, y0: i64, x1: i64, y1: i64) -> Rect {
    Rect { x0, y0, x1, y1 }
}

fn point(x: i64, y: i64) -> Point {
    Point { x, y }
}

#[test]
fn rect_holds_its_near_edges_and_not_its_far_edges() {
    let r = rect(10, 20, 30, 40);
    assert!(r.contains(point(10, 20)));
    assert!(r.contains(point(29, 39)));
    assert!(!r.contains(point(30, 39)));
    assert!(!r.contains(point(29, 40)));
    assert!(!r.contains(point(9, 20)));
    assert!(!r.contains(point(10, 19)));
}

#[test]
fn zero_rect_holds_nothing() {
    assert_eq!(Rect::zero(), rect(0, 0, 0, 0));
    assert!(!Rect::zero().contains(point(0, 0)));
}

#[test]
fn rect_is_solid_when_the_signed_area_is_positive() {
    assert!(rect(0, 0, 1, 1).is_solid());
    assert!(!rect(0, 0, 0, 5).is_solid());
    assert!(!rect(0, 0, 5, 0).is_solid());
    assert!(!rect(5, 0, 0, 5).is_solid());
    assert!(rect(5, 5, 0, 0).is_solid());
    assert!(rect(i64::MIN, i64::MIN, i64::MAX, i64::MAX).is_solid());
}

#[test]
fn region_keeps_only_rects_with_an_area() {
    let mut region = Region::empty();
    assert!(region.rects.is_empty());
    region.add_rect(rect(0, 0, 10, 10));
    region.add_rect(rect(20, 0, 20, 10));
    region.add_rect(rect(30, 0, 40, 10));
    assert_eq!(region.rects, vec![rect(0, 0, 10, 10), rect(30, 0, 40, 10)]);
}

#[test]
fn region_holds_the_points_of_its_rects() {
    let mut region = Region::empty();
    assert!(!region.contains(point(0, 0)));
    region.add_rect(rect(0, 0, 10, 10));
    region.add_rect(rect(30, 0, 40, 10));
    assert!(region.contains(point(5, 5)));
    assert!(region.contains(point(30, 9)));
    assert!(!region.contains(point(20, 5)));
    assert!(!region.contains(point(40, 5)));
}

#[test]
fn new_widgets_are_not_laid_out() {
    assert_eq!(PaneWidget::new().layout_rect, rect(0, 0, 0, 0));
    let header = PaneHeaderWidget::new();
    assert_eq!(header.layout_rect, rect(0, 0, 0, 0));
    assert_eq!(header.close_label, rect(0, 0, 0, 0));
    assert!(!header.is_in_button(point(0, 0)));
}

#[test]
fn header_layout_puts_the_close_label_at_the_right_end() {
    let mut header = PaneHeaderWidget::new();
    let size = header.layout(Size { width: 300, height: 25 }, Size { width: 20, height: 25 });
    assert_eq!(size, Size { width: 300, height: 25 });
    assert_eq!(header.close_label, rect(280, 0, 300, 25));
    assert_eq!(header.layout_rect, rect(0, 0, 0, 0));
}

#[test]
fn is_in_button_takes_a_point_relative_to_the_header() {
    let header = PaneHeaderWidget {
        layout_rect: rect(715, 100, 1015, 125),
        close_label: rect(280, 0, 300, 25),
    };
    assert!(header.is_in_button(point(280, 0)));
    assert!(header.is_in_button(point(299, 24)));
    assert!(!header.is_in_button(point(279, 10)));
    assert!(!header.is_in_button(point(300, 10)));
    assert!(!header.is_in_button(point(1000, 110)));
}

#[test]
fn hits_close_takes_a_position_in_the_window() {
    let header = PaneHeaderWidget {
        layout_rect: rect(715, 100, 1015, 125),
        close_label: rect(280, 0, 300, 25),
    };
    assert!(header.hits_close(point(995, 100)));
    assert!(header.hits_close(point(1014, 124)));
    assert!(!header.hits_close(point(994, 110)));
    assert!(!header.hits_close(point(1015, 110)));
    assert!(!header.hits_close(point(1000, 125)));
    assert!(!header.hits_close(point(i64::MIN, i64::MAX)));
}

#[test]
fn borders_stand_beside_the_pane() {
    let frame = PaneFrame {
        content: PaneWidget { layout_rect: rect(715, 125, 1015, 605) },
        header: PaneHeaderWidget {
            layout_rect: rect(715, 100, 1015, 125),
            close_label: rect(280, 0, 300, 25),
        },
    };
    let (left, right) = frame.borders(1);
    assert_eq!(left, rect(714, 100, 715, 605));
    assert_eq!(right, rect(1015, 100, 1016, 605));
}

#[test]
fn borders_follow_the_lesser_edges() {
    let frame = PaneFrame {
        content: PaneWidget { layout_rect: rect(10, 50, 110, 90) },
        header: PaneHeaderWidget {
            layout_rect: rect(20, 40, 100, 50),
            close_label: rect(0, 0, 0, 0),
        },
    };
    let (left, right) = frame.borders(2);
    assert_eq!(left, rect(8, 40, 10, 90));
    assert_eq!(right, rect(100, 40, 102, 90));
}
