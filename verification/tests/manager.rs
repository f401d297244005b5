use yokai::config::{Border, Configuration, Insert, Padding};
use yokai::display::{Pointer, Request};
use yokai::event::{EventType, XEvent};
use yokai::ipc::{
    Arguments, Change, Command, ConfigCommand, Descriptor, DesktopCommand, Direction, Modifier,
    NodeCommand, Selector, State, WindowType,
};
use yokai::tree::{Node, WindowRef};
use yokai::wm::{Area, CommandError, WindowManager};

fn w(id: u32) -> WindowRef {
    WindowRef::new(id)
}

fn leaf(id: u32) -> Node {
    Node::root(w(id))
}

fn split(left: Node, right: Node, dir: Direction, ratio: i8) -> Node {
    Node::Internal { left: Box::new(left), right: Box::new(right), insert: Insert::new(dir, ratio) }
}

fn at(x: u16, y: u16) -> Pointer {
    Pointer { x, y }
}

fn inside() -> Pointer {
    at(100, 100)
}

fn names(count: usize) -> Vec<String> {
    (1..=count).map(|n| n.to_string()).collect()
}

fn node(node: NodeCommand) -> Arguments {
    Arguments {
        command: Command::Node {
            node,
            selector: Selector {
                descriptor: Descriptor::Focused,
                modifier: Modifier::Focused,
                path: Vec::new(),
            },
        },
    }
}

fn config(config: ConfigCommand) -> Arguments {
    Arguments { command: Command::Config(config) }
}

fn focus(desktop: usize) -> Arguments {
    Arguments { command: Command::Desktop(DesktopCommand::Focus { desktop }) }
}

fn map(window: u32) -> XEvent {
    XEvent::MapRequest { window, types: vec![WindowType::Normal] }
}

fn greeting(id: u32) -> Vec<Request> {
    vec![
        Request::SelectInput { window: w(id) },
        Request::SetBorderPixel { window: w(id), pixel: 0x000000ff },
        Request::SetBorderWidth { window: w(id), width: 1 },
    ]
}

fn place(id: u32, x: u16, y: u16, width: u16, height: u16) -> Vec<Request> {
    vec![
        Request::MoveResize { window: w(id), area: Area::new(x, y, width, height) },
        Request::MapWindow { window: w(id) },
    ]
}

/// A manager with screens of 1920 by 1080 side by side, each with the
/// given number of desktops.
fn manager(screens: u16, desktops: usize) -> WindowManager {
    let mut wm = WindowManager::new();
    let areas = (0..screens).map(|i| Area::new(i * 1920, 0, 1920, 1080)).collect();
    assert_eq!(wm.load_screens(areas), vec![Request::SetDesktopViewport]);
    let outcome = wm.handle_config(
        config(ConfigCommand::Desktops { names: names(desktops), pinned: false }),
        inside(),
    );
    assert!(outcome.is_ok());
    wm
}

/// One screen, one desktop, windows 0x100 and 0x101 side by side, 0x101
/// focused.
fn two_windows() -> WindowManager {
    let mut wm = manager(1, 1);
    wm.handle_event(map(0x100), inside());
    wm.handle_event(map(0x101), inside());
    wm.handle_event(XEvent::FocusIn { window: 0x101 }, inside());
    wm
}

fn tree(wm: &WindowManager) -> Option<Node> {
    wm.screens[0].desktops[wm.screens[0].current].clients.clone()
}

#[test]
fn new_manager_is_blank() {
    let wm = WindowManager::new();
    assert!(wm.screens.is_empty());
    assert_eq!(wm.focus, None);
    assert_eq!(wm.config, Configuration::new());
    assert!(!wm.should_close());
}

#[test]
fn supported_hints_are_announced_in_order() {
    assert_eq!(
        WindowManager::supported(),
        vec![
            "WM_PROTOCOLS",
            "WM_DELETE_WINDOW",
            "_NET_ACTIVE_WINDOW",
            "_NET_NUMBER_OF_DESKTOPS",
            "_NET_CURRENT_DESKTOP",
            "_NET_WM_WINDOW_TYPE",
            "_NET_WM_WINDOW_TYPE_DESKTOP",
            "_NET_WM_WINDOW_TYPE_DOCK",
            "_NET_WM_WINDOW_TYPE_TOOLBAR",
            "_NET_WM_WINDOW_TYPE_MENU",
            "_NET_WM_WINDOW_TYPE_UTILITY",
            "_NET_WM_WINDOW_TYPE_SPLASH",
            "_NET_WM_WINDOW_TYPE_DIALOG",
            "_NET_WM_WINDOW_TYPE_NORMAL",
        ]
    );
}

#[test]
fn load_screens_appends_screens_without_desktops() {
    let mut wm = WindowManager::new();
    wm.load_screens(vec![Area::new(0, 0, 800, 600)]);
    wm.load_screens(vec![Area::new(800, 0, 1024, 768), Area::new(1824, 10, 640, 480)]);
    assert_eq!(wm.screens.len(), 3);
    assert_eq!(wm.screens[1].area, Area::new(800, 0, 1024, 768));
    assert!(wm.screens.iter().all(|screen| screen.desktops.is_empty() && screen.current == 0));
    assert_eq!(wm.viewport(), vec![(0, 0), (800, 0), (1824, 10)]);
}

#[test]
fn map_request_without_screens_tracks_nothing() {
    let mut wm = WindowManager::new();
    let requests = wm.handle_event(map(0x100), inside());
    assert_eq!(requests, greeting(0x100));
    assert!(!requests.iter().any(|request| matches!(request, Request::MoveResize { .. })));
    assert!(wm.screens.is_empty());
    assert!(!wm.is_managed(&w(0x100)));
    assert_eq!(wm.focus, None);
}

#[test]
fn first_window_fills_the_screen() {
    let mut wm = manager(1, 1);
    let requests = wm.handle_event(map(0x100), inside());
    assert_eq!(requests, [greeting(0x100), place(0x100, 0, 0, 1920, 1080)].concat());
    assert_eq!(tree(&wm), Some(leaf(0x100)));
    assert!(wm.is_managed(&w(0x100)));
}

#[test]
fn second_window_takes_the_east_half() {
    let mut wm = manager(1, 1);
    wm.handle_event(map(0x100), inside());
    let requests = wm.handle_event(map(0x101), inside());
    assert_eq!(
        requests,
        [greeting(0x101), place(0x100, 0, 0, 960, 1080), place(0x101, 960, 0, 960, 1080)].concat()
    );
    assert_eq!(tree(&wm), Some(split(leaf(0x100), leaf(0x101), Direction::East, 50)));
}

#[test]
fn ratio_set_to_seventy() {
    let mut wm = two_windows();
    let requests = wm
        .handle_config(node(NodeCommand::Ratio { change: Change::SetTo { value: 70 } }), inside())
        .unwrap();
    assert_eq!(requests, [place(0x100, 0, 0, 1344, 1080), place(0x101, 1344, 0, 576, 1080)].concat());
    assert_eq!(tree(&wm), Some(split(leaf(0x100), leaf(0x101), Direction::East, 70)));
}

#[test]
fn ratio_add_and_sub_clamp() {
    let mut wm = two_windows();
    wm.handle_config(node(NodeCommand::Ratio { change: Change::Add { value: 100 } }), inside())
        .unwrap();
    assert_eq!(tree(&wm), Some(split(leaf(0x100), leaf(0x101), Direction::East, 90)));
    let requests = wm
        .handle_config(node(NodeCommand::Ratio { change: Change::Sub { value: 100 } }), inside())
        .unwrap();
    assert_eq!(tree(&wm), Some(split(leaf(0x100), leaf(0x101), Direction::East, 10)));
    assert_eq!(requests, [place(0x100, 0, 0, 192, 1080), place(0x101, 192, 0, 1728, 1080)].concat());
}

#[test]
fn ratio_without_focus_does_nothing() {
    let mut wm = manager(1, 1);
    wm.handle_event(map(0x100), inside());
    wm.handle_event(map(0x101), inside());
    let before = tree(&wm);
    let requests = wm
        .handle_config(node(NodeCommand::Ratio { change: Change::SetTo { value: 70 } }), inside())
        .unwrap();
    assert!(requests.is_empty());
    assert_eq!(tree(&wm), before);
}

#[test]
fn reverse_swaps_the_two_windows() {
    let mut wm = two_windows();
    let requests = wm.handle_config(node(NodeCommand::Reverse), inside()).unwrap();
    assert_eq!(requests, [place(0x101, 0, 0, 960, 1080), place(0x100, 960, 0, 960, 1080)].concat());
    assert_eq!(tree(&wm), Some(split(leaf(0x101), leaf(0x100), Direction::East, 50)));
}

#[test]
fn reverse_twice_restores_the_layout() {
    let mut wm = two_windows();
    wm.handle_config(node(NodeCommand::Reverse), inside()).unwrap();
    let requests = wm.handle_config(node(NodeCommand::Reverse), inside()).unwrap();
    assert_eq!(requests, [place(0x100, 0, 0, 960, 1080), place(0x101, 960, 0, 960, 1080)].concat());
    assert_eq!(wm.screens, two_windows().screens);
}

#[test]
fn reverse_acts_on_the_parent_of_the_focus_only() {
    let mut wm = two_windows();
    wm.handle_event(map(0x102), inside());
    assert_eq!(
        tree(&wm),
        Some(split(
            leaf(0x100),
            split(leaf(0x101), leaf(0x102), Direction::East, 50),
            Direction::East,
            50
        ))
    );
    wm.handle_event(XEvent::FocusIn { window: 0x102 }, inside());
    wm.handle_config(node(NodeCommand::Reverse), inside()).unwrap();
    assert_eq!(
        tree(&wm),
        Some(split(
            leaf(0x100),
            split(leaf(0x102), leaf(0x101), Direction::East, 50),
            Direction::East,
            50
        ))
    );
}

#[test]
fn focus_switches_the_desktop_of_one_screen() {
    let mut wm = manager(1, 2);
    let requests = wm.handle_config(focus(1), inside()).unwrap();
    assert_eq!(wm.screens[0].current, 1);
    assert_eq!(requests, vec![Request::SetCurrentDesktop { desktop: 1 }]);
}

#[test]
fn focus_counts_desktops_across_screens() {
    let mut wm = manager(2, 2);
    let requests = wm.handle_config(focus(3), inside()).unwrap();
    assert_eq!(wm.screens[1].current, 1);
    assert_eq!(wm.screens[0].current, 0);
    assert_eq!(requests, vec![Request::SetCurrentDesktop { desktop: 3 }]);
    wm.handle_config(focus(0), inside()).unwrap();
    assert_eq!(wm.screens[0].current, 0);
    assert_eq!(wm.screens[1].current, 1);
    wm.handle_config(focus(2), inside()).unwrap();
    assert_eq!(wm.screens[1].current, 0);
}

#[test]
fn focus_out_of_range_is_an_error() {
    let mut wm = manager(2, 2);
    assert_eq!(wm.handle_config(focus(4), inside()), Err(CommandError::DesktopOutOfRange));
    assert_eq!(wm.screens, manager(2, 2).screens);
    let mut none = WindowManager::new();
    assert_eq!(none.handle_config(focus(0), inside()), Err(CommandError::DesktopOutOfRange));
}

#[test]
fn focus_retiles_and_hides_the_other_desktop() {
    let mut wm = two_windows();
    wm.handle_config(config(ConfigCommand::Desktops { names: names(2), pinned: false }), inside())
        .unwrap();
    let requests = wm.handle_config(focus(1), inside()).unwrap();
    assert_eq!(
        requests,
        vec![
            Request::SetCurrentDesktop { desktop: 1 },
            Request::UnmapWindow { window: w(0x100) },
            Request::UnmapWindow { window: w(0x101) },
        ]
    );
    let requests = wm.handle_config(focus(0), inside()).unwrap();
    assert_eq!(
        requests,
        [
            vec![Request::SetCurrentDesktop { desktop: 0 }],
            place(0x100, 0, 0, 960, 1080),
            place(0x101, 960, 0, 960, 1080)
        ]
        .concat()
    );
}

#[test]
fn pinned_focus_counts_within_the_focused_screen() {
    let mut wm = WindowManager::new();
    wm.load_screens(vec![Area::new(0, 0, 1920, 1080), Area::new(1920, 0, 1920, 1080)]);
    wm.handle_config(config(ConfigCommand::Desktops { names: names(3), pinned: true }), inside())
        .unwrap();
    let requests = wm.handle_config(focus(2), at(2000, 500)).unwrap();
    assert_eq!(wm.screens[0].current, 0);
    assert_eq!(wm.screens[1].current, 2);
    assert_eq!(requests, vec![Request::SetCurrentDesktop { desktop: 5 }]);
    let requests = wm.handle_config(focus(1), at(10, 10)).unwrap();
    assert_eq!(wm.screens[0].current, 1);
    assert_eq!(requests, vec![Request::SetCurrentDesktop { desktop: 1 }]);
}

#[test]
fn pinned_focus_out_of_range_is_an_error() {
    let mut wm = WindowManager::new();
    wm.load_screens(vec![Area::new(0, 0, 1920, 1080)]);
    wm.handle_config(config(ConfigCommand::Desktops { names: names(3), pinned: true }), inside())
        .unwrap();
    assert_eq!(wm.handle_config(focus(3), inside()), Err(CommandError::DesktopOutOfRange));
    assert_eq!(wm.screens[0].current, 0);
}

#[test]
fn pinned_focus_without_a_focused_screen_does_nothing() {
    let mut wm = WindowManager::new();
    wm.load_screens(vec![Area::new(0, 0, 1920, 1080)]);
    wm.handle_config(config(ConfigCommand::Desktops { names: names(3), pinned: true }), inside())
        .unwrap();
    assert_eq!(wm.handle_config(focus(7), at(5000, 5000)), Ok(vec![]));
    assert_eq!(wm.screens[0].current, 0);
}

#[test]
fn focused_screen_is_the_one_under_the_pointer() {
    let wm = manager(2, 1);
    assert_eq!(wm.focused(at(100, 100)), Some(0));
    assert_eq!(wm.focused(at(2000, 100)), Some(1));
    assert_eq!(wm.focused(at(1920, 100)), None);
    assert_eq!(wm.focused(at(0, 0)), None);
    assert_eq!(wm.focused(at(5000, 100)), None);
}

#[test]
fn focused_screen_is_the_one_with_the_focused_window() {
    let mut wm = manager(2, 1);
    wm.handle_event(map(0x200), at(2000, 100));
    assert!(wm.screens[1].contains(&w(0x200)));
    wm.handle_event(XEvent::FocusIn { window: 0x200 }, at(100, 100));
    assert_eq!(wm.focus, Some(w(0x200)));
    assert_eq!(wm.focused(at(100, 100)), Some(1));
    assert_eq!(wm.focused(at(60000, 60000)), Some(1));
    wm.handle_event(map(0x201), at(100, 100));
    assert_eq!(
        wm.screens[1].desktops[0].clients,
        Some(split(leaf(0x200), leaf(0x201), Direction::East, 50))
    );
    assert!(wm.screens[0].desktops[0].clients.is_none());
}

#[test]
fn map_request_outside_every_screen_only_greets() {
    let mut wm = manager(1, 1);
    let requests = wm.handle_event(map(0x100), at(4000, 4000));
    assert_eq!(requests, greeting(0x100));
    assert!(!wm.is_managed(&w(0x100)));
}

#[test]
fn map_request_joins_next_to_the_focus() {
    let mut wm = two_windows();
    wm.handle_event(XEvent::FocusIn { window: 0x100 }, inside());
    wm.handle_config(
        node(NodeCommand::Insert { dir: Direction::North, ratio: Some(30), toggle: false }),
        inside(),
    )
    .unwrap();
    let requests = wm.handle_event(map(0x102), inside());
    assert_eq!(
        tree(&wm),
        Some(split(
            split(leaf(0x102), leaf(0x100), Direction::North, 30),
            leaf(0x101),
            Direction::East,
            50
        ))
    );
    assert_eq!(
        requests,
        [
            greeting(0x102),
            place(0x102, 0, 0, 960, 324),
            place(0x100, 0, 324, 960, 756),
            place(0x101, 960, 0, 960, 1080)
        ]
        .concat()
    );
}

#[test]
fn map_request_of_a_dialog_floats() {
    let mut wm = two_windows();
    let requests = wm.handle_event(
        XEvent::MapRequest { window: 0x300, types: vec![WindowType::Normal, WindowType::Dialog] },
        inside(),
    );
    assert_eq!(wm.screens[0].desktops[0].floating, vec![w(0x300)]);
    assert_eq!(
        requests,
        [
            greeting(0x300),
            place(0x100, 0, 0, 960, 1080),
            place(0x101, 960, 0, 960, 1080),
            vec![Request::MapWindow { window: w(0x300) }, Request::Raise { window: w(0x300) }]
        ]
        .concat()
    );
}

#[test]
fn map_request_of_a_dock_is_not_kept() {
    let mut wm = two_windows();
    let requests =
        wm.handle_event(XEvent::MapRequest { window: 0x300, types: vec![WindowType::Dock] }, inside());
    assert!(!wm.is_managed(&w(0x300)));
    assert_eq!(wm.screens, two_windows().screens);
    assert_eq!(
        requests,
        [greeting(0x300), place(0x100, 0, 0, 960, 1080), place(0x101, 960, 0, 960, 1080)].concat()
    );
}

#[test]
fn map_request_uses_the_configured_border() {
    let mut wm = manager(1, 1);
    wm.handle_config(
        config(ConfigCommand::Border {
            normal: "00ff00".to_string(),
            focused: "FF0000".to_string(),
            width: 3,
        }),
        inside(),
    )
    .unwrap();
    let requests = wm.handle_event(map(0x100), inside());
    assert_eq!(
        requests[..3],
        [
            Request::SelectInput { window: w(0x100) },
            Request::SetBorderPixel { window: w(0x100), pixel: 0x00ff00 },
            Request::SetBorderWidth { window: w(0x100), width: 3 },
        ]
    );
}

#[test]
fn unmap_removes_the_window_and_retiles() {
    let mut wm = two_windows();
    let requests = wm.handle_event(XEvent::UnmapNotify { window: 0x100 }, inside());
    assert_eq!(requests, place(0x101, 0, 0, 1920, 1080));
    assert_eq!(tree(&wm), Some(leaf(0x101)));
    assert_eq!(wm.focus, Some(w(0x101)));
}

#[test]
fn unmap_of_the_focused_window_clears_the_focus() {
    let mut wm = two_windows();
    let requests = wm.handle_event(XEvent::UnmapNotify { window: 0x101 }, inside());
    assert_eq!(requests, place(0x100, 0, 0, 1920, 1080));
    assert_eq!(wm.focus, None);
    let requests = wm.handle_event(XEvent::UnmapNotify { window: 0x100 }, inside());
    assert_eq!(requests, vec![]);
    assert_eq!(tree(&wm), None);
}

#[test]
fn unmap_retiles_every_screen() {
    let mut wm = manager(2, 1);
    wm.handle_event(map(0x100), at(100, 100));
    wm.handle_event(map(0x200), at(2000, 100));
    let requests = wm.handle_event(XEvent::UnmapNotify { window: 0x999 }, inside());
    assert_eq!(requests, [place(0x100, 0, 0, 1920, 1080), place(0x200, 1920, 0, 1920, 1080)].concat());
}

#[test]
fn unmap_without_desktops_does_nothing() {
    let mut wm = WindowManager::new();
    wm.load_screens(vec![Area::new(0, 0, 1920, 1080)]);
    assert_eq!(wm.handle_event(XEvent::UnmapNotify { window: 1 }, inside()), vec![]);
}

#[test]
fn enter_focuses_managed_windows_when_asked_to() {
    let mut wm = two_windows();
    assert_eq!(wm.handle_event(XEvent::EnterNotify { window: 0x100 }, inside()), vec![]);
    wm.handle_config(config(ConfigCommand::FocusFollowsPointer), inside()).unwrap();
    assert!(wm.config.pf.focus_follows);
    assert_eq!(
        wm.handle_event(XEvent::EnterNotify { window: 0x100 }, inside()),
        vec![Request::SetInputFocus { window: w(0x100) }]
    );
    assert_eq!(wm.handle_event(XEvent::EnterNotify { window: 0x999 }, inside()), vec![]);
    assert_eq!(wm.focus, Some(w(0x101)));
    wm.handle_config(config(ConfigCommand::FocusFollowsPointer), inside()).unwrap();
    assert!(!wm.config.pf.focus_follows);
    assert_eq!(wm.handle_event(XEvent::EnterNotify { window: 0x100 }, inside()), vec![]);
}

#[test]
fn pointer_follows_focus_toggles() {
    let mut wm = WindowManager::new();
    assert_eq!(wm.handle_config(config(ConfigCommand::PointerFollowsFocus), inside()), Ok(vec![]));
    assert!(wm.config.pf.pointer_follows);
    assert!(!wm.config.pf.focus_follows);
    wm.handle_config(config(ConfigCommand::PointerFollowsFocus), inside()).unwrap();
    assert!(!wm.config.pf.pointer_follows);
}

#[test]
fn focus_in_paints_the_borders() {
    let mut wm = manager(1, 1);
    wm.handle_event(map(0x100), inside());
    wm.handle_event(map(0x101), inside());
    let requests = wm.handle_event(XEvent::FocusIn { window: 0x100 }, inside());
    assert_eq!(
        requests,
        vec![
            Request::SetBorderPixel { window: w(0x100), pixel: 0xffffffff },
            Request::Raise { window: w(0x100) },
        ]
    );
    assert_eq!(wm.focus, Some(w(0x100)));
    let requests = wm.handle_event(XEvent::FocusIn { window: 0x101 }, inside());
    assert_eq!(
        requests,
        vec![
            Request::SetBorderPixel { window: w(0x101), pixel: 0xffffffff },
            Request::Raise { window: w(0x101) },
            Request::SetBorderPixel { window: w(0x100), pixel: 0x000000ff },
        ]
    );
    assert_eq!(wm.focus, Some(w(0x101)));
    let requests = wm.handle_event(XEvent::FocusIn { window: 0x101 }, inside());
    assert_eq!(
        requests,
        vec![
            Request::SetBorderPixel { window: w(0x101), pixel: 0xffffffff },
            Request::Raise { window: w(0x101) },
        ]
    );
}

#[test]
fn focus_in_of_an_unmanaged_window_is_ignored() {
    let mut wm = two_windows();
    assert_eq!(wm.handle_event(XEvent::FocusIn { window: 0x999 }, inside()), vec![]);
    assert_eq!(wm.focus, Some(w(0x101)));
}

#[test]
fn other_events_are_ignored() {
    let mut wm = two_windows();
    assert_eq!(wm.handle_event(XEvent::Other, inside()), vec![]);
    assert_eq!(wm, two_windows());
}

#[test]
fn insert_command_sets_the_default() {
    let mut wm = WindowManager::new();
    let requests = wm
        .handle_config(
            node(NodeCommand::Insert { dir: Direction::South, ratio: Some(30), toggle: false }),
            inside(),
        )
        .unwrap();
    assert!(requests.is_empty());
    assert_eq!(wm.config.insert, Insert::new(Direction::South, 30));
    wm.handle_config(
        node(NodeCommand::Insert { dir: Direction::West, ratio: None, toggle: false }),
        inside(),
    )
    .unwrap();
    assert_eq!(wm.config.insert, Insert::new(Direction::West, 30));
    wm.handle_config(
        node(NodeCommand::Insert { dir: Direction::West, ratio: Some(120), toggle: true }),
        inside(),
    )
    .unwrap();
    assert_eq!(wm.config.insert, Insert::new(Direction::West, 120));
}

#[test]
fn insert_command_toggles_back_to_the_default() {
    let mut wm = WindowManager::new();
    let south = NodeCommand::Insert { dir: Direction::South, ratio: Some(30), toggle: true };
    wm.handle_config(node(south.clone()), inside()).unwrap();
    assert_eq!(wm.config.insert, Insert::new(Direction::South, 30));
    wm.handle_config(node(south.clone()), inside()).unwrap();
    assert_eq!(wm.config.insert, Insert::default());
    wm.handle_config(node(south), inside()).unwrap();
    assert_eq!(wm.config.insert, Insert::new(Direction::South, 30));
    wm.handle_config(
        node(NodeCommand::Insert { dir: Direction::South, ratio: None, toggle: false }),
        inside(),
    )
    .unwrap();
    assert_eq!(wm.config.insert, Insert::new(Direction::South, 30));
}

#[test]
fn state_command_floats_the_focused_window() {
    let mut wm = two_windows();
    let requests = wm
        .handle_config(node(NodeCommand::State { state: State::Float, toggle: false }), inside())
        .unwrap();
    assert_eq!(tree(&wm), Some(leaf(0x100)));
    assert_eq!(wm.screens[0].desktops[0].floating, vec![w(0x101)]);
    assert_eq!(
        requests,
        [
            place(0x100, 0, 0, 1920, 1080),
            vec![Request::MapWindow { window: w(0x101) }, Request::Raise { window: w(0x101) }]
        ]
        .concat()
    );
    assert_eq!(wm.focus, Some(w(0x101)));
}

#[test]
fn state_command_toggles_a_floating_window_back() {
    let mut wm = two_windows();
    let float = NodeCommand::State { state: State::Float, toggle: true };
    wm.handle_config(node(float.clone()), inside()).unwrap();
    assert_eq!(wm.screens[0].desktops[0].floating, vec![w(0x101)]);
    wm.handle_config(node(float), inside()).unwrap();
    assert!(wm.screens[0].desktops[0].floating.is_empty());
    assert_eq!(tree(&wm), Some(split(leaf(0x100), leaf(0x101), Direction::East, 50)));
}

#[test]
fn state_command_retiles_a_tiled_window_at_the_first_leaf() {
    let mut wm = two_windows();
    wm.handle_event(map(0x102), inside());
    wm.handle_config(node(NodeCommand::State { state: State::Tiled, toggle: false }), inside())
        .unwrap();
    assert_eq!(
        tree(&wm),
        Some(split(
            split(leaf(0x100), leaf(0x101), Direction::East, 50),
            leaf(0x102),
            Direction::East,
            50
        ))
    );
}

#[test]
fn state_command_with_toggle_floats_a_tiled_window() {
    let mut wm = two_windows();
    wm.handle_config(node(NodeCommand::State { state: State::Tiled, toggle: true }), inside())
        .unwrap();
    assert_eq!(wm.screens[0].desktops[0].floating, vec![w(0x101)]);
}

#[test]
fn state_command_to_dock_lets_the_window_go() {
    let mut wm = two_windows();
    wm.handle_config(node(NodeCommand::State { state: State::Dock, toggle: false }), inside())
        .unwrap();
    assert!(!wm.is_managed(&w(0x101)));
    assert_eq!(tree(&wm), Some(leaf(0x100)));
}

#[test]
fn desktop_command_sends_the_focused_window_away() {
    let mut wm = two_windows();
    wm.handle_config(config(ConfigCommand::Desktops { names: names(3), pinned: false }), inside())
        .unwrap();
    let requests = wm.handle_config(node(NodeCommand::Desktop { desktop: 2 }), inside()).unwrap();
    assert_eq!(wm.screens[0].desktops[0].clients, Some(leaf(0x100)));
    assert_eq!(wm.screens[0].desktops[2].clients, Some(leaf(0x101)));
    assert_eq!(wm.focus, None);
    assert_eq!(
        requests,
        [place(0x100, 0, 0, 1920, 1080), vec![Request::UnmapWindow { window: w(0x101) }]].concat()
    );
}

#[test]
fn desktop_command_keeps_a_floating_window_floating() {
    let mut wm = two_windows();
    wm.handle_config(config(ConfigCommand::Desktops { names: names(2), pinned: false }), inside())
        .unwrap();
    wm.handle_config(node(NodeCommand::State { state: State::Float, toggle: false }), inside())
        .unwrap();
    wm.handle_config(node(NodeCommand::Desktop { desktop: 1 }), inside()).unwrap();
    assert_eq!(wm.screens[0].desktops[1].floating, vec![w(0x101)]);
    assert!(wm.screens[0].desktops[0].floating.is_empty());
}

#[test]
fn desktop_command_ignores_the_current_and_missing_desktops() {
    let mut wm = two_windows();
    assert_eq!(wm.handle_config(node(NodeCommand::Desktop { desktop: 0 }), inside()), Ok(vec![]));
    assert_eq!(wm.handle_config(node(NodeCommand::Desktop { desktop: 1 }), inside()), Ok(vec![]));
    assert_eq!(wm.handle_config(node(NodeCommand::Desktop { desktop: 9 }), inside()), Ok(vec![]));
    assert_eq!(wm, two_windows());
}

#[test]
fn move_kill_and_close_address_the_focused_window() {
    let mut wm = two_windows();
    assert_eq!(
        wm.handle_config(node(NodeCommand::Move { dx: -5, dy: 7 }), inside()),
        Ok(vec![Request::Translate { window: w(0x101), dx: -5, dy: 7 }])
    );
    assert_eq!(
        wm.handle_config(node(NodeCommand::Kill), inside()),
        Ok(vec![Request::Kill { window: w(0x101) }])
    );
    assert_eq!(
        wm.handle_config(node(NodeCommand::Close), inside()),
        Ok(vec![Request::Close { window: w(0x101) }])
    );
    assert_eq!(wm, two_windows());
}

#[test]
fn node_commands_without_focus_do_nothing() {
    let commands = [
        NodeCommand::Move { dx: 1, dy: 1 },
        NodeCommand::Kill,
        NodeCommand::Close,
        NodeCommand::Reverse,
        NodeCommand::Ratio { change: Change::Add { value: 5 } },
        NodeCommand::State { state: State::Float, toggle: false },
        NodeCommand::Desktop { desktop: 0 },
    ];
    for command in commands {
        let mut wm = manager(1, 2);
        wm.handle_event(map(0x100), inside());
        let before = tree(&wm);
        assert_eq!(wm.handle_config(node(command), inside()), Ok(vec![]));
        assert_eq!(tree(&wm), before);
    }
}

#[test]
fn desktops_command_resizes_every_screen() {
    let mut wm = WindowManager::new();
    wm.load_screens(vec![Area::new(0, 0, 1920, 1080), Area::new(1920, 0, 1280, 1024)]);
    let requests = wm
        .handle_config(
            config(ConfigCommand::Desktops {
                names: vec!["web".to_string(), "code".to_string(), "chat".to_string()],
                pinned: true,
            }),
            inside(),
        )
        .unwrap();
    assert_eq!(
        requests,
        vec![Request::SetNumberOfDesktops { count: 6 }, Request::SetDesktopViewport]
    );
    assert_eq!(wm.config.desktops.names, vec!["web", "code", "chat"]);
    assert!(wm.config.desktops.pinned);
    assert_eq!(wm.screens[0].desktops.len(), 3);
    assert_eq!(wm.screens[1].desktops.len(), 3);
    assert_eq!(wm.screens[1].desktops[2].area, Area::new(1920, 0, 1280, 1024));
    assert_eq!(wm.viewport(), vec![(0, 0), (1920, 0)]);
}

#[test]
fn desktops_command_rehouses_windows_and_retiles() {
    let mut wm = two_windows();
    wm.handle_config(config(ConfigCommand::Desktops { names: names(2), pinned: false }), inside())
        .unwrap();
    wm.handle_config(node(NodeCommand::Desktop { desktop: 1 }), inside()).unwrap();
    assert_eq!(wm.screens[0].desktops[1].clients, Some(leaf(0x101)));
    let requests = wm
        .handle_config(config(ConfigCommand::Desktops { names: names(1), pinned: false }), inside())
        .unwrap();
    assert_eq!(tree(&wm), Some(split(leaf(0x100), leaf(0x101), Direction::East, 50)));
    assert_eq!(
        requests,
        [
            place(0x100, 0, 0, 960, 1080),
            place(0x101, 960, 0, 960, 1080),
            vec![Request::SetNumberOfDesktops { count: 1 }, Request::SetDesktopViewport]
        ]
        .concat()
    );
}

#[test]
fn desktops_command_without_names_needs_vacant_screens() {
    let mut wm = two_windows();
    assert_eq!(
        wm.handle_config(config(ConfigCommand::Desktops { names: vec![], pinned: true }), inside()),
        Err(CommandError::NoDesktopLeft)
    );
    assert_eq!(wm, two_windows());
    let mut vacant = manager(2, 3);
    assert_eq!(
        vacant.handle_config(config(ConfigCommand::Desktops { names: vec![], pinned: true }), inside()),
        Ok(vec![Request::SetNumberOfDesktops { count: 0 }, Request::SetDesktopViewport])
    );
    assert!(vacant.screens.iter().all(|screen| screen.desktops.is_empty()));
    assert!(vacant.config.desktops.pinned);
}

#[test]
fn window_command_sets_the_gaps_and_retiles() {
    let mut wm = two_windows();
    let requests = wm.handle_config(config(ConfigCommand::Window { gaps: 10 }), inside()).unwrap();
    assert_eq!(wm.config.window.gaps, 10);
    assert_eq!(requests, [place(0x100, 10, 10, 940, 1060), place(0x101, 970, 10, 940, 1060)].concat());
}

#[test]
fn padding_command_sets_the_padding_and_retiles() {
    let mut wm = two_windows();
    let requests = wm
        .handle_config(
            config(ConfigCommand::Padding { top: 30, bottom: 0, left: 10, right: 10 }),
            inside(),
        )
        .unwrap();
    assert_eq!(wm.config.padding, Padding { top: 30, bottom: 0, left: 10, right: 10 });
    assert_eq!(requests, [place(0x100, 10, 30, 950, 1050), place(0x101, 960, 30, 950, 1050)].concat());
}

#[test]
fn border_command_reads_hexadecimal_colours() {
    let mut wm = two_windows();
    let requests = wm
        .handle_config(
            config(ConfigCommand::Border {
                normal: "ff8000".to_string(),
                focused: "12ABcd".to_string(),
                width: 4,
            }),
            inside(),
        )
        .unwrap();
    assert_eq!(wm.config.border, Border { normal: 0xff8000, focused: 0x12abcd, width: 4 });
    assert_eq!(requests, [place(0x100, 0, 0, 960, 1080), place(0x101, 960, 0, 960, 1080)].concat());
}

#[test]
fn border_command_rejects_what_is_no_colour() {
    for (normal, focused) in [
        ("red", "ff0000"),
        ("ff0000", "#ff0000"),
        ("", "ff0000"),
        ("ff0000", "100000000"),
        ("0x10", "10"),
    ] {
        let mut wm = two_windows();
        let outcome = wm.handle_config(
            config(ConfigCommand::Border {
                normal: normal.to_string(),
                focused: focused.to_string(),
                width: 9,
            }),
            inside(),
        );
        assert_eq!(outcome, Err(CommandError::InvalidColor));
        assert_eq!(wm, two_windows());
    }
}

#[test]
fn set_border_takes_parsed_colours() {
    let mut wm = two_windows();
    assert_eq!(wm.set_border(Some(1), None, 2), Err(CommandError::InvalidColor));
    assert_eq!(wm.set_border(None, Some(1), 2), Err(CommandError::InvalidColor));
    assert_eq!(wm.set_border(None, None, 2), Err(CommandError::InvalidColor));
    assert_eq!(wm, two_windows());
    let requests = wm.set_border(Some(1), Some(2), 3).unwrap();
    assert_eq!(wm.config.border, Border { normal: 1, focused: 2, width: 3 });
    assert_eq!(requests, [place(0x100, 0, 0, 960, 1080), place(0x101, 960, 0, 960, 1080)].concat());
}

#[test]
fn exit_sets_should_close() {
    let mut wm = two_windows();
    assert_eq!(wm.handle_config(Arguments { command: Command::Exit }, inside()), Ok(vec![]));
    assert!(wm.should_close());
    assert_eq!(wm.screens, two_windows().screens);
}

#[test]
fn selector_is_ignored() {
    let mut first = two_windows();
    let mut second = two_windows();
    let plain = first.handle_config(node(NodeCommand::Reverse), inside());
    let odd = second.handle_config(
        Arguments {
            command: Command::Node {
                node: NodeCommand::Reverse,
                selector: Selector {
                    descriptor: Descriptor::Biggest,
                    modifier: Modifier::Fullscreen,
                    path: vec![yokai::ipc::Jump::Parent, yokai::ipc::Jump::Brother],
                },
            },
        },
        inside(),
    );
    assert_eq!(plain, odd);
    assert_eq!(first, second);
}

#[test]
fn dispatch_handles_both_kinds_of_message() {
    let mut wm = manager(1, 1);
    let requests = wm.dispatch(EventType::XEvent(map(0x100)), inside()).unwrap();
    assert_eq!(requests, [greeting(0x100), place(0x100, 0, 0, 1920, 1080)].concat());
    assert_eq!(wm.dispatch(EventType::Config(focus(5)), inside()), Err(CommandError::DesktopOutOfRange));
    assert_eq!(wm.dispatch(EventType::Config(Arguments { command: Command::Exit }), inside()), Ok(vec![]));
    assert!(wm.should_close());
}

#[test]
fn pinned_focus_announces_the_desktop() {
    let mut wm = manager(1, 1);
    wm.handle_config(config(ConfigCommand::Desktops { names: names(1), pinned: true }), inside())
        .unwrap();
    assert_eq!(
        wm.handle_config(focus(0), inside()),
        Ok(vec![Request::SetCurrentDesktop { desktop: 0 }])
    );
}

#[test]
fn focus_stays_on_a_managed_window() {
    let mut wm = manager(2, 2);
    let events = [
        (map(0x100), at(100, 100)),
        (XEvent::FocusIn { window: 0x100 }, at(100, 100)),
        (map(0x101), at(100, 100)),
        (map(0x200), at(2000, 100)),
        (XEvent::FocusIn { window: 0x999 }, at(100, 100)),
        (XEvent::FocusIn { window: 0x101 }, at(100, 100)),
        (XEvent::UnmapNotify { window: 0x100 }, at(100, 100)),
        (XEvent::EnterNotify { window: 0x101 }, at(100, 100)),
        (XEvent::UnmapNotify { window: 0x101 }, at(100, 100)),
        (XEvent::Other, at(100, 100)),
    ];
    for (event, pointer) in events {
        wm.handle_event(event, pointer);
        assert!(wm.focus.map_or(true, |focus| wm.is_managed(&focus)));
    }
    assert_eq!(wm.focus, None);
    assert!(wm.is_managed(&w(0x200)));
}

#[test]
fn commands_lose_no_window() {
    let commands = [
        node(NodeCommand::Reverse),
        node(NodeCommand::Ratio { change: Change::Add { value: 20 } }),
        node(NodeCommand::State { state: State::Float, toggle: true }),
        node(NodeCommand::State { state: State::Tiled, toggle: false }),
        node(NodeCommand::Desktop { desktop: 1 }),
        focus(1),
        config(ConfigCommand::Desktops { names: names(1), pinned: false }),
        config(ConfigCommand::Window { gaps: 4 }),
        Arguments { command: Command::Exit },
    ];
    let mut wm = two_windows();
    wm.handle_config(config(ConfigCommand::Desktops { names: names(3), pinned: false }), inside())
        .unwrap();
    for command in commands {
        wm.handle_config(command, inside()).unwrap();
        assert!(wm.is_managed(&w(0x100)));
        assert!(wm.is_managed(&w(0x101)));
        assert!(wm.focus.map_or(true, |focus| wm.is_managed(&focus)));
    }
}
