use yokai::config::{Insert, Padding};
use yokai::display::Request;
use yokai::ipc::{Direction, State};
use yokai::tree::{Node, Point, WindowRef};
use yokai::wm::{Area, Desktop};

fn w(id: u32) -> WindowRef {
    WindowRef::new(id)
}

fn leaf(id: u32) -> Node {
    Node::root(w(id))
}

fn split(left: Node, right: Node, dir: Direction, ratio: i8) -> Node {
    Node::Internal { left: Box::new(left), right: Box::new(right), insert: Insert::new(dir, ratio) }
}

fn screen() -> Area {
    Area::new(0, 0, 1920, 1080)
}

fn no_padding() -> Padding {
    Padding { top: 0, bottom: 0, left: 0, right: 0 }
}

fn filled() -> Desktop {
    let mut desktop = Desktop::new(screen());
    desktop.insert(w(1), Insert::default(), Point::Any, State::Tiled);
    desktop.insert(w(2), Insert::default(), Point::Window(w(1)), State::Tiled);
    desktop.insert(w(10), Insert::default(), Point::Any, State::Float);
    desktop.insert(w(11), Insert::default(), Point::Any, State::Float);
    desktop
}

#[test]
fn new_desktop_is_empty() {
    let desktop = Desktop::new(screen());
    assert_eq!(desktop.clients, None);
    assert!(desktop.floating.is_empty());
    assert_eq!(desktop.area, screen());
    assert!(!desktop.contains(&w(1)));
}

#[test]
fn first_tiled_window_becomes_the_root() {
    let mut desktop = Desktop::new(screen());
    desktop.insert(w(1), Insert::new(Direction::West, 20), Point::Window(w(77)), State::Tiled);
    assert_eq!(desktop.clients, Some(leaf(1)));
    assert!(desktop.floating.is_empty());
}

#[test]
fn later_tiled_windows_join_the_tree() {
    let desktop = filled();
    assert_eq!(desktop.clients, Some(split(leaf(1), leaf(2), Direction::East, 50)));
}

#[test]
fn tiled_window_at_a_missing_point_is_dropped() {
    let mut desktop = filled();
    desktop.insert(w(3), Insert::default(), Point::Window(w(99)), State::Tiled);
    assert_eq!(desktop, filled());
}

#[test]
fn floating_windows_are_appended() {
    let desktop = filled();
    assert_eq!(desktop.floating, vec![w(10), w(11)]);
}

#[test]
fn dock_windows_are_not_kept() {
    let mut desktop = filled();
    desktop.insert(w(20), Insert::default(), Point::Any, State::Dock);
    assert_eq!(desktop, filled());
    assert!(!desktop.contains(&w(20)));
}

#[test]
fn desktop_contains_tiled_and_floating() {
    let desktop = filled();
    assert!(desktop.contains(&w(1)));
    assert!(desktop.contains(&w(2)));
    assert!(desktop.contains(&w(10)));
    assert!(desktop.contains(&w(11)));
    assert!(!desktop.contains(&w(3)));
}

#[test]
fn remove_tiled_window_reports_tiled() {
    let mut desktop = filled();
    assert_eq!(desktop.remove(1), State::Tiled);
    assert_eq!(desktop.clients, Some(leaf(2)));
    assert_eq!(desktop.floating, vec![w(10), w(11)]);
}

#[test]
fn remove_last_tiled_window_drops_the_tree() {
    let mut desktop = filled();
    assert_eq!(desktop.remove(1), State::Tiled);
    assert_eq!(desktop.remove(2), State::Tiled);
    assert_eq!(desktop.clients, None);
    assert_eq!(desktop.floating, vec![w(10), w(11)]);
}

#[test]
fn remove_floating_window_reports_float() {
    let mut desktop = filled();
    assert_eq!(desktop.remove(10), State::Float);
    assert_eq!(desktop.floating, vec![w(11)]);
    assert_eq!(desktop.clients, Some(split(leaf(1), leaf(2), Direction::East, 50)));
}

#[test]
fn remove_takes_the_first_of_two_equal_floating_windows() {
    let mut desktop = Desktop::new(screen());
    for id in [5, 6, 5] {
        desktop.insert(w(id), Insert::default(), Point::Any, State::Float);
    }
    assert_eq!(desktop.remove(5), State::Float);
    assert_eq!(desktop.floating, vec![w(6), w(5)]);
}

#[test]
fn remove_unknown_window_reports_tiled() {
    let mut desktop = filled();
    assert_eq!(desktop.remove(99), State::Tiled);
    assert_eq!(desktop, filled());
    let mut empty = Desktop::new(screen());
    assert_eq!(empty.remove(1), State::Tiled);
    assert_eq!(empty, Desktop::new(screen()));
}

#[test]
fn remove_takes_a_window_out_of_both_lists() {
    let mut desktop = filled();
    desktop.insert(w(1), Insert::default(), Point::Any, State::Float);
    assert_eq!(desktop.remove(1), State::Float);
    assert_eq!(desktop.clients, Some(leaf(2)));
    assert_eq!(desktop.floating, vec![w(10), w(11)]);
}

#[test]
fn desktop_map_internal_rewrites_the_tree() {
    let mut desktop = filled();
    desktop.map_internal(2, |left, right, insert| Node::Internal {
        left: right,
        right: left,
        insert,
    });
    assert_eq!(desktop.clients, Some(split(leaf(2), leaf(1), Direction::East, 50)));
    assert_eq!(desktop.floating, vec![w(10), w(11)]);
}

#[test]
fn desktop_map_internal_without_a_tree_does_nothing() {
    let mut desktop = Desktop::new(screen());
    desktop.map_internal(2, |left, right, insert| Node::Internal { left, right, insert });
    assert_eq!(desktop, Desktop::new(screen()));
}

#[test]
fn hide_unmaps_tiled_then_floating() {
    assert_eq!(
        filled().hide_windows(),
        vec![
            Request::UnmapWindow { window: w(1) },
            Request::UnmapWindow { window: w(2) },
            Request::UnmapWindow { window: w(10) },
            Request::UnmapWindow { window: w(11) },
        ]
    );
    assert_eq!(Desktop::new(screen()).hide_windows(), vec![]);
}

#[test]
fn tile_places_the_tree_then_raises_the_floating() {
    assert_eq!(
        filled().tile(no_padding(), 0),
        vec![
            Request::MoveResize { window: w(1), area: Area::new(0, 0, 960, 1080) },
            Request::MapWindow { window: w(1) },
            Request::MoveResize { window: w(2), area: Area::new(960, 0, 960, 1080) },
            Request::MapWindow { window: w(2) },
            Request::MapWindow { window: w(10) },
            Request::Raise { window: w(10) },
            Request::MapWindow { window: w(11) },
            Request::Raise { window: w(11) },
        ]
    );
}

#[test]
fn tile_takes_padding_and_gaps_off() {
    let mut desktop = Desktop::new(screen());
    desktop.insert(w(1), Insert::default(), Point::Any, State::Tiled);
    desktop.insert(w(2), Insert::new(Direction::South, 50), Point::Any, State::Tiled);
    let padding = Padding { top: 30, bottom: 10, left: 0, right: 20 };
    assert_eq!(
        desktop.tile(padding, 5),
        vec![
            Request::MoveResize { window: w(1), area: Area::new(5, 35, 1890, 510) },
            Request::MapWindow { window: w(1) },
            Request::MoveResize { window: w(2), area: Area::new(5, 555, 1890, 510) },
            Request::MapWindow { window: w(2) },
        ]
    );
}

#[test]
fn tile_of_an_empty_desktop_asks_nothing() {
    assert_eq!(Desktop::new(screen()).tile(no_padding(), 3), vec![]);
}

#[test]
fn tile_without_a_tree_raises_the_floating() {
    let mut desktop = Desktop::new(screen());
    desktop.insert(w(10), Insert::default(), Point::Any, State::Float);
    assert_eq!(
        desktop.tile(no_padding(), 0),
        vec![Request::MapWindow { window: w(10) }, Request::Raise { window: w(10) }]
    );
}
