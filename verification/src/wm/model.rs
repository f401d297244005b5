//! The manager as a plain value, and what every message makes of it.

use vstd::prelude::*;

use crate::config::{Border, ConfigurationView, Insert, Padding, PointerFocus, Window};
use crate::display::{hex_value, Pointer, Request};
use crate::event::XEvent;
use crate::ipc::{Command, ConfigCommand, DesktopCommand, NodeCommand, State};
use crate::tree::{Node, Point, WindowRef};
use crate::wm::screen::{lemma_gathered_contains, ScreenView};

verus! {

/// Why a command was turned down.  The manager is left as it was.
#[derive(Clone, Copy, Debug, PartialEq, Eq, Structural)]
pub enum CommandError {
    /// A border colour is no hexadecimal number of 32 bits.
    InvalidColor,
    /// The desktop to switch to does not exist.
    DesktopOutOfRange,
    /// No desktop would be left for the windows there are.
    NoDesktopLeft,
}

/// A manager as a plain value.
pub struct ManagerView {
    pub screens: Seq<ScreenView>,
    pub focus: Option<WindowRef>,
    pub config: ConfigurationView,
    pub should_close: bool,
}

/// What a message leads to: the manager after it, and the requests to the
/// display in the order in which they are to be made.
pub struct Reaction {
    pub state: ManagerView,
    pub requests: Seq<Request>,
}

/// The requests that put every screen in order, screen by screen.
pub open spec fn laid_out_all(screens: Seq<ScreenView>, padding: Padding, gaps: u8) -> Seq<Request>
    decreases screens.len(),
{
    if screens.len() == 0 {
        Seq::empty()
    } else {
        laid_out_all(screens.drop_last(), padding, gaps) + screens.last().laid_out(padding, gaps)
    }
}

/// The number under which desktop `desktop` of the screen with the index
/// `index` is announced, where every screen has `count` desktops: desktops
/// are counted through screen after screen, and the number is cut down to
/// its low 32 bits.
pub open spec fn desktop_number(desktop: int, count: int, index: int) -> u32 {
    ((desktop + count * index) % 0x1_0000_0000) as u32
}

/// Whether the desktop with the number `desktop`, counted through screen
/// after screen, is one of the screen with the index `index`.
pub open spec fn picks(screen: ScreenView, index: int, desktop: int) -> bool {
    index * screen.desktops.len() <= desktop < (index + 1) * screen.desktops.len()
}

/// A screen that shows the desktop with the number `desktop` where that is
/// one of its own.
pub open spec fn switched(screen: ScreenView, index: int, desktop: int) -> ScreenView {
    if picks(screen, index, desktop) {
        ScreenView { current: (desktop - index * screen.desktops.len()) as usize, ..screen }
    } else {
        screen
    }
}

/// The requests that follow a switch to the desktop with the number
/// `desktop`: each screen that the desktop is one of announces it and is put
/// in order.  `screens` are the screens after the switch.
pub open spec fn announced(
    screens: Seq<ScreenView>,
    desktop: int,
    padding: Padding,
    gaps: u8,
) -> Seq<Request>
    decreases screens.len(),
{
    if screens.len() == 0 {
        Seq::empty()
    } else {
        let index = screens.len() - 1;
        let screen = screens.last();
        announced(screens.drop_last(), desktop, padding, gaps) + if picks(screen, index, desktop) {
            seq![
                Request::SetCurrentDesktop {
                    desktop: desktop_number(
                        screen.current as int,
                        screen.desktops.len() as int,
                        index,
                    ),
                },
            ] + screen.laid_out(padding, gaps)
        } else {
            Seq::empty()
        }
    }
}

impl ManagerView {
    /// The manager before it has seen a screen or a message.
    pub open spec fn initial() -> ManagerView {
        ManagerView {
            screens: Seq::empty(),
            focus: None,
            config: ConfigurationView::initial(),
            should_close: false,
        }
    }

    /// Whether one of the screens holds a window.
    pub open spec fn is_managed(self, window: WindowRef) -> bool {
        exists|i: int| 0 <= i < self.screens.len() && (#[trigger] self.screens[i]).contains(window)
    }

    /// Whether the screen with the index `i` may be the focused one: it
    /// holds the focused window or, where no window is focused, the pointer.
    pub open spec fn selects(self, i: int, pointer: Pointer) -> bool {
        match self.focus {
            Some(focus) => self.screens[i].contains(focus),
            None => self.screens[i].area.spec_contains(pointer.x, pointer.y),
        }
    }

    /// The first of the screens before `limit` that may be the focused one.
    pub open spec fn focused_below(self, pointer: Pointer, limit: int) -> Option<int>
        decreases limit,
    {
        if limit <= 0 {
            None
        } else {
            match self.focused_below(pointer, limit - 1) {
                Some(i) => Some(i),
                None => if self.selects(limit - 1, pointer) {
                    Some(limit - 1)
                } else {
                    None
                },
            }
        }
    }

    /// The index of the focused screen: the first screen that holds the
    /// focused window or, where no window is focused, the pointer.
    pub open spec fn focused(self, pointer: Pointer) -> Option<int> {
        self.focused_below(pointer, self.screens.len() as int)
    }

    /// The origin of every screen.
    pub open spec fn viewport(self) -> Seq<(u32, u32)> {
        Seq::new(
            self.screens.len(),
            |i: int| (self.screens[i].area.x as u32, self.screens[i].area.y as u32),
        )
    }

    /// The requests that put every screen in order.
    pub open spec fn retiled(self) -> Seq<Request> {
        laid_out_all(self.screens, self.config.padding, self.config.window.gaps)
    }

    /// The manager with another screen in place of the one at `i`, and the
    /// requests that put that screen in order.
    pub open spec fn with_screen(self, i: int, screen: ScreenView) -> Reaction {
        Reaction {
            state: ManagerView { screens: self.screens.update(i, screen), ..self },
            requests: screen.laid_out(self.config.padding, self.config.window.gaps),
        }
    }

    /// The manager as it is, and nothing to do.
    pub open spec fn idle(self) -> Reaction {
        Reaction { state: self, requests: Seq::empty() }
    }

    /// The manager as it is, and some requests.
    pub open spec fn asking(self, requests: Seq<Request>) -> Reaction {
        Reaction { state: self, requests }
    }

    /// A client wants a window shown.  The window is set up (the events to
    /// report, the border's colour and width); it joins the focused screen
    /// next to the focused window, or next to the first leaf where no window
    /// is focused, in the state its types call for; the screen is put in
    /// order.  Without a focused screen the window is set up and no more.
    pub open spec fn on_map_request(
        self,
        window: WindowRef,
        state: State,
        pointer: Pointer,
    ) -> Reaction {
        let greeting = seq![
            Request::SelectInput { window },
            Request::SetBorderPixel { window, pixel: self.config.border.normal },
            Request::SetBorderWidth { window, width: self.config.border.width },
        ];
        match self.focused(pointer) {
            Some(i) => {
                let point = match self.focus {
                    Some(focus) => Point::Window(focus),
                    None => Point::Any,
                };
                let placed = self.with_screen(
                    i,
                    self.screens[i].inserted(window, self.config.insert, point, state),
                );
                Reaction { state: placed.state, requests: greeting + placed.requests }
            },
            None => self.asking(greeting),
        }
    }

    /// A window went off the screen.  It leaves the desktop shown on each
    /// screen, every screen is put in order, and the focus is dropped where
    /// the window had it.
    pub open spec fn on_unmap(self, wid: u32) -> Reaction {
        let screens = self.screens.map_values(|screen: ScreenView| screen.removed(wid));
        Reaction {
            state: ManagerView {
                screens,
                focus: match self.focus {
                    Some(focus) => if focus.id == wid {
                        None
                    } else {
                        self.focus
                    },
                    None => None,
                },
                ..self
            },
            requests: laid_out_all(screens, self.config.padding, self.config.window.gaps),
        }
    }

    /// The pointer entered a window.  A managed window gets the input focus
    /// where the focus follows the pointer.
    pub open spec fn on_enter(self, window: WindowRef) -> Reaction {
        if self.is_managed(window) && self.config.pf.focus_follows {
            self.asking(seq![Request::SetInputFocus { window }])
        } else {
            self.idle()
        }
    }

    /// A window got the input focus.  A managed window gets the border of
    /// the focused window and is put on top, the window that had the focus
    /// before gets the normal border back unless it is the same window, and
    /// the manager takes note of the focus.
    pub open spec fn on_focus_in(self, window: WindowRef) -> Reaction {
        if self.is_managed(window) {
            Reaction {
                state: ManagerView { focus: Some(window), ..self },
                requests: seq![
                    Request::SetBorderPixel { window, pixel: self.config.border.focused },
                    Request::Raise { window },
                ] + match self.focus {
                    Some(before) => if before.id != window.id {
                        seq![
                            Request::SetBorderPixel {
                                window: before,
                                pixel: self.config.border.normal,
                            },
                        ]
                    } else {
                        Seq::empty()
                    },
                    None => Seq::empty(),
                },
            }
        } else {
            self.idle()
        }
    }

    /// What an event of the display leads to.
    pub open spec fn on_event(self, event: XEvent, pointer: Pointer) -> Reaction {
        match event {
            XEvent::MapRequest { window, types } => self.on_map_request(
                WindowRef { id: window },
                State::of_types(types@),
                pointer,
            ),
            XEvent::UnmapNotify { window } => self.on_unmap(window),
            XEvent::EnterNotify { window } => self.on_enter(WindowRef { id: window }),
            XEvent::FocusIn { window } => self.on_focus_in(WindowRef { id: window }),
            XEvent::Other => self.idle(),
        }
    }

    /// The default for new windows is set.  A ratio that is not given stays
    /// as it is.  With `toggle`, asking for the settings that are in force
    /// brings the standard ones back.
    pub open spec fn on_insert(self, wanted: Insert, toggle: bool) -> Reaction {
        ManagerView {
            config: ConfigurationView {
                insert: if wanted == self.config.insert && toggle {
                    Insert::standard()
                } else {
                    wanted
                },
                ..self.config
            },
            ..self
        }.idle()
    }

    /// The focused window changes its state: it leaves the desktop shown on
    /// the focused screen and joins it again next to the first leaf, in the
    /// state asked for, or, with `toggle` and when it is in that state
    /// already, in the state that `toggled` gives.
    pub open spec fn on_state(self, state: State, toggle: bool, pointer: Pointer) -> Reaction {
        match (self.focus, self.focused(pointer)) {
            (Some(focus), Some(i)) => {
                let screen = self.screens[i];
                let target = if screen.state_of(focus.id) == state && toggle {
                    state.toggled()
                } else {
                    state
                };
                self.with_screen(
                    i,
                    screen.removed(focus.id).inserted(
                        focus,
                        self.config.insert,
                        Point::Any,
                        target,
                    ),
                )
            },
            _ => self.idle(),
        }
    }

    /// The focused window moves to another desktop of the focused screen,
    /// in the state it was in, and loses the focus.  Nothing happens where
    /// the desktop does not exist or is the one that is shown.
    pub open spec fn on_send(self, desktop: usize, pointer: Pointer) -> Reaction {
        match (self.focus, self.focused(pointer)) {
            (Some(focus), Some(i)) => {
                let screen = self.screens[i];
                if desktop < screen.desktops.len() && screen.current != desktop {
                    let taken = screen.removed(focus.id);
                    let moved = ScreenView {
                        desktops: taken.desktops.update(
                            desktop as int,
                            taken.desktops[desktop as int].inserted(
                                focus,
                                self.config.insert,
                                Point::Any,
                                screen.state_of(focus.id),
                            ),
                        ),
                        ..taken
                    };
                    let placed = self.with_screen(i, moved);
                    Reaction {
                        state: ManagerView { focus: None, ..placed.state },
                        requests: placed.requests,
                    }
                } else {
                    self.idle()
                }
            },
            _ => self.idle(),
        }
    }

    /// The split above the focused window is rewritten by `g` on the focused
    /// screen, and the screen is put in order.
    pub open spec fn on_rewrite(
        self,
        g: spec_fn(Node, Node, Insert) -> Node,
        pointer: Pointer,
    ) -> Reaction {
        match (self.focus, self.focused(pointer)) {
            (Some(focus), Some(i)) => self.with_screen(i, self.screens[i].mapped(focus.id, g)),
            _ => self.idle(),
        }
    }

    /// A request that concerns the focused window alone.
    pub open spec fn on_focus_request(self, request: spec_fn(WindowRef) -> Request) -> Reaction {
        match self.focus {
            Some(focus) => self.asking(seq![request(focus)]),
            None => self.idle(),
        }
    }

    /// What a command for the focused window leads to.
    pub open spec fn on_node(self, node: NodeCommand, pointer: Pointer) -> Reaction {
        match node {
            NodeCommand::Insert { dir, ratio, toggle } => self.on_insert(
                Insert {
                    dir,
                    ratio: match ratio {
                        Some(ratio) => ratio,
                        None => self.config.insert.ratio,
                    },
                },
                toggle,
            ),
            NodeCommand::State { state, toggle } => self.on_state(state, toggle, pointer),
            NodeCommand::Desktop { desktop } => self.on_send(desktop, pointer),
            NodeCommand::Move { dx, dy } => self.on_focus_request(
                |window: WindowRef| Request::Translate { window, dx, dy },
            ),
            NodeCommand::Ratio { change } => self.on_rewrite(Node::rescaled(change), pointer),
            NodeCommand::Reverse => self.on_rewrite(Node::mirrored(), pointer),
            NodeCommand::Close => self.on_focus_request(
                |window: WindowRef| Request::Close { window },
            ),
            NodeCommand::Kill => self.on_focus_request(|window: WindowRef| Request::Kill { window }),
        }
    }

    /// The desktop with the number `desktop` is shown.  With pinned desktops
    /// the number counts the desktops of the focused screen; without a
    /// focused screen nothing happens.  Otherwise it counts the desktops of
    /// all screens, screen after screen.  The screen of the desktop announces
    /// it and is put in order.  A number that names no desktop is an error.
    pub open spec fn on_switch(self, desktop: usize, pointer: Pointer) -> Result<
        Reaction,
        CommandError,
    > {
        if self.config.pinned {
            match self.focused(pointer) {
                Some(i) => if desktop < self.screens[i].desktops.len() {
                    let screen = ScreenView { current: desktop, ..self.screens[i] };
                    let placed = self.with_screen(i, screen);
                    Ok(
                        Reaction {
                            state: placed.state,
                            requests: seq![
                                Request::SetCurrentDesktop {
                                    desktop: desktop_number(
                                        desktop as int,
                                        screen.desktops.len() as int,
                                        i,
                                    ),
                                },
                            ] + placed.requests,
                        },
                    )
                } else {
                    Err(CommandError::DesktopOutOfRange)
                },
                None => Ok(self.idle()),
            }
        } else if exists|i: int|
            0 <= i < self.screens.len() && picks(#[trigger] self.screens[i], i, desktop as int) {
            let screens = Seq::new(
                self.screens.len(),
                |i: int| switched(self.screens[i], i, desktop as int),
            );
            Ok(
                Reaction {
                    state: ManagerView { screens, ..self },
                    requests: announced(
                        screens,
                        desktop as int,
                        self.config.padding,
                        self.config.window.gaps,
                    ),
                },
            )
        } else {
            Err(CommandError::DesktopOutOfRange)
        }
    }

    /// The desktops get names, and every screen as many desktops as there
    /// are names.  Every screen is put in order, then the number of desktops
    /// of all screens together, cut down to 32 bits, and the viewport are
    /// announced.  Without a name, where a screen has windows to rehouse, the
    /// command is an error.
    pub open spec fn on_desktops(self, names: Seq<Seq<char>>, pinned: bool) -> Result<
        Reaction,
        CommandError,
    > {
        if names.len() == 0 && exists|i: int|
            0 <= i < self.screens.len() && (#[trigger] self.screens[i]).excess(0).len() > 0 {
            Err(CommandError::NoDesktopLeft)
        } else {
            let screens = self.screens.map_values(
                |screen: ScreenView| screen.resized(names.len() as int),
            );
            let state = ManagerView {
                screens,
                config: ConfigurationView { names, pinned, ..self.config },
                ..self
            };
            Ok(
                Reaction {
                    state,
                    requests: state.retiled() + seq![
                        Request::SetNumberOfDesktops {
                            count: desktop_number(0, names.len() as int, self.screens.len() as int),
                        },
                        Request::SetDesktopViewport,
                    ],
                },
            )
        }
    }

    /// The configuration changes, and every screen is put in order.
    pub open spec fn on_geometry(self, config: ConfigurationView) -> Reaction {
        let state = ManagerView { config, ..self };
        Reaction { state, requests: state.retiled() }
    }

    /// The border gets its colours and its width, and every screen is put in
    /// order.  A colour that is none is an error.
    pub open spec fn on_border(self, normal: Option<u32>, focused: Option<u32>, width: u16)
        -> Result<Reaction, CommandError> {
        match (normal, focused) {
            (Some(normal), Some(focused)) => Ok(
                self.on_geometry(
                    ConfigurationView { border: Border { normal, focused, width }, ..self.config },
                ),
            ),
            _ => Err(CommandError::InvalidColor),
        }
    }

    /// What a change of the configuration leads to.
    pub open spec fn on_config(self, config: ConfigCommand) -> Result<Reaction, CommandError> {
        match config {
            ConfigCommand::Desktops { names, pinned } => self.on_desktops(
                names.deep_view(),
                pinned,
            ),
            ConfigCommand::Window { gaps } => Ok(
                self.on_geometry(ConfigurationView { window: Window { gaps }, ..self.config }),
            ),
            ConfigCommand::Border { normal, focused, width } => self.on_border(
                hex_value(normal@),
                hex_value(focused@),
                width,
            ),
            ConfigCommand::Padding { top, bottom, left, right } => Ok(
                self.on_geometry(
                    ConfigurationView {
                        padding: Padding { top, bottom, left, right },
                        ..self.config
                    },
                ),
            ),
            ConfigCommand::PointerFollowsFocus => Ok(
                ManagerView {
                    config: ConfigurationView {
                        pf: PointerFocus {
                            pointer_follows: !self.config.pf.pointer_follows,
                            ..self.config.pf
                        },
                        ..self.config
                    },
                    ..self
                }.idle(),
            ),
            ConfigCommand::FocusFollowsPointer => Ok(
                ManagerView {
                    config: ConfigurationView {
                        pf: PointerFocus {
                            focus_follows: !self.config.pf.focus_follows,
                            ..self.config.pf
                        },
                        ..self.config
                    },
                    ..self
                }.idle(),
            ),
        }
    }

    /// What a command leads to.  A command for a node acts on the focused
    /// window whatever its selector says.
    pub open spec fn on_command(self, command: Command, pointer: Pointer) -> Result<
        Reaction,
        CommandError,
    > {
        match command {
            Command::Node { node, .. } => Ok(self.on_node(node, pointer)),
            Command::Desktop(DesktopCommand::Focus { desktop }) => self.on_switch(desktop, pointer),
            Command::Config(config) => self.on_config(config),
            Command::Exit => Ok(ManagerView { should_close: true, ..self }.idle()),
        }
    }
}

impl ManagerView {
    /// A search that has found nothing before `from` and comes upon a screen
    /// that may be the focused one at `from` ends there.
    pub proof fn lemma_focused_from(self, pointer: Pointer, from: int, limit: int)
        requires
            0 <= from < limit,
            self.focused_below(pointer, from) is None,
            self.selects(from, pointer),
        ensures
            self.focused_below(pointer, limit) == Some(from),
        decreases limit,
    {
        if limit > from + 1 {
            self.lemma_focused_from(pointer, from, limit - 1);
        }
    }

    /// The focused screen is the first one that holds the focused window or,
    /// where no window is focused, the pointer.
    pub proof fn lemma_focused_first(self, pointer: Pointer, limit: int)
        requires
            0 <= limit,
        ensures
            match self.focused_below(pointer, limit) {
                Some(i) => 0 <= i < limit && self.selects(i, pointer) && forall|j: int|
                    0 <= j < i ==> !self.selects(j, pointer),
                None => forall|j: int| 0 <= j < limit ==> !self.selects(j, pointer),
            },
        decreases limit,
    {
        if limit > 0 {
            self.lemma_focused_first(pointer, limit - 1);
        }
    }
}

impl ManagerView {
    /// The manager is done after the command to exit and after no other
    /// message: events leave `should_close` as it is, and so does every
    /// other command.
    pub proof fn lemma_closes_on_exit(self, event: XEvent, command: Command, pointer: Pointer)
        ensures
            self.on_event(event, pointer).state.should_close == self.should_close,
            self.on_command(command, pointer) matches Ok(reaction) ==> reaction.state.should_close
                == (self.should_close || command is Exit),
    {
    }

    /// Whether the focused window, if there is one, is on one of the
    /// screens.
    pub open spec fn focus_managed(self) -> bool {
        self.focus matches Some(focus) ==> self.is_managed(focus)
    }

    /// Whether a command makes a dock of the focused window, which the
    /// manager then lets go.
    pub open spec fn lets_go(self, command: Command, window: WindowRef) -> bool {
        &&& self.focus == Some(window)
        &&& command matches Command::Node { node: NodeCommand::State { state, .. }, .. }
        &&& state == State::Dock
    }

    /// No event makes the manager lose a window, but the one that tells it
    /// that the window went off the screen.
    pub proof fn lemma_event_keeps_windows(self, event: XEvent, pointer: Pointer, window: WindowRef)
        requires
            self.is_managed(window),
            !(event matches XEvent::UnmapNotify { window: gone } && gone == window.id),
        ensures
            self.on_event(event, pointer).state.is_managed(window),
    {
        let j = choose|j: int| 0 <= j < self.screens.len() && (#[trigger] self.screens[j]).contains(
            window,
        );
        let after = self.on_event(event, pointer).state;
        match event {
            XEvent::MapRequest { window: id, types } => {
                if let Some(i) = self.focused(pointer) {
                    self.lemma_focused_first(pointer, self.screens.len() as int);
                    let point = match self.focus {
                        Some(focus) => Point::Window(focus),
                        None => Point::Any,
                    };
                    self.screens[j].lemma_inserted_keeps(
                        WindowRef { id },
                        self.config.insert,
                        point,
                        State::of_types(types@),
                        window,
                    );
                }
            },
            XEvent::UnmapNotify { window: gone } => {
                self.screens[j].lemma_removed_keeps(gone, window);
            },
            _ => {},
        }
        assert(after.screens[j].contains(window));
    }

    /// No event makes the manager lose track of the focused window: where
    /// the focused window was on a screen before, it is so after.
    pub proof fn lemma_event_keeps_focus(self, event: XEvent, pointer: Pointer)
        requires
            self.focus_managed(),
        ensures
            self.on_event(event, pointer).state.focus_managed(),
    {
        let after = self.on_event(event, pointer).state;
        if let Some(focus) = after.focus {
            match event {
                XEvent::FocusIn { window } => {
                    assert(after.screens == self.screens);
                    assert(self.is_managed(focus));
                    let j = choose|j: int|
                        0 <= j < self.screens.len() && (#[trigger] self.screens[j]).contains(focus);
                    assert(after.screens[j].contains(focus));
                },
                _ => {
                    self.lemma_event_keeps_windows(event, pointer, focus);
                },
            }
        }
    }

    /// No command makes the manager lose a window, but the one that makes a
    /// dock of the focused window.
    pub proof fn lemma_command_keeps_windows(
        self,
        command: Command,
        pointer: Pointer,
        window: WindowRef,
    )
        requires
            self.is_managed(window),
            !self.lets_go(command, window),
        ensures
            self.on_command(command, pointer) matches Ok(reaction) ==> reaction.state.is_managed(
                window,
            ),
    {
        let j = choose|j: int| 0 <= j < self.screens.len() && (#[trigger] self.screens[j]).contains(
            window,
        );
        self.lemma_focused_first(pointer, self.screens.len() as int);
        if let Ok(reaction) = self.on_command(command, pointer) {
            let after = reaction.state;
            match command {
                Command::Node { node, .. } => match node {
                    NodeCommand::State { state, toggle } => {
                        if let (Some(focus), Some(i)) = (self.focus, self.focused(pointer)) {
                            if i == j {
                                let screen = self.screens[i];
                                let target = if screen.state_of(focus.id) == state && toggle {
                                    state.toggled()
                                } else {
                                    state
                                };
                                let taken = screen.removed(focus.id);
                                if window.id == focus.id {
                                    if screen.has_current() {
                                        taken.lemma_inserted_holds(
                                            focus,
                                            self.config.insert,
                                            target,
                                        );
                                    }
                                } else {
                                    screen.lemma_removed_keeps(focus.id, window);
                                    taken.lemma_inserted_keeps(
                                        focus,
                                        self.config.insert,
                                        Point::Any,
                                        target,
                                        window,
                                    );
                                }
                            }
                        }
                    },
                    NodeCommand::Desktop { desktop } => {
                        if let (Some(focus), Some(i)) = (self.focus, self.focused(pointer)) {
                            let screen = self.screens[i];
                            if i == j && desktop < screen.desktops.len() && screen.current
                                != desktop {
                                let taken = screen.removed(focus.id);
                                let target = taken.desktops[desktop as int];
                                let state = screen.state_of(focus.id);
                                if window.id == focus.id {
                                    target.lemma_inserted_holds(focus, self.config.insert, state);
                                    assert(after.screens[j].desktops[desktop as int].contains(
                                        window,
                                    ));
                                } else {
                                    screen.lemma_removed_keeps(focus.id, window);
                                    let k = choose|k: int|
                                        0 <= k < taken.desktops.len() && (
                                        #[trigger] taken.desktops[k]).contains(window);
                                    if k == desktop {
                                        target.lemma_inserted_keeps(
                                            focus,
                                            self.config.insert,
                                            Point::Any,
                                            state,
                                            window,
                                        );
                                    }
                                    assert(after.screens[j].desktops[k].contains(window));
                                }
                            }
                        }
                    },
                    NodeCommand::Ratio { change } => {
                        if let (Some(focus), Some(i)) = (self.focus, self.focused(pointer)) {
                            Node::lemma_rescaled_keeps(change, window);
                            self.screens[j].lemma_mapped_keeps(
                                focus.id,
                                Node::rescaled(change),
                                window,
                            );
                        }
                    },
                    NodeCommand::Reverse => {
                        if let (Some(focus), Some(i)) = (self.focus, self.focused(pointer)) {
                            Node::lemma_mirrored_keeps(window);
                            self.screens[j].lemma_mapped_keeps(focus.id, Node::mirrored(), window);
                        }
                    },
                    _ => {},
                },
                Command::Desktop(DesktopCommand::Focus { desktop }) => {
                    let k = choose|k: int|
                        0 <= k < self.screens[j].desktops.len() && (
                        #[trigger] self.screens[j].desktops[k]).contains(window);
                    assert(after.screens[j].desktops[k].contains(window));
                },
                Command::Config(ConfigCommand::Desktops { names, .. }) => {
                    let size = names.deep_view().len() as int;
                    if size >= 1 {
                        self.screens[j].lemma_resized_keeps(size, window);
                    } else {
                        lemma_gathered_contains(self.screens[j].desktops, window);
                        assert(self.screens[j].desktops.skip(0) =~= self.screens[j].desktops);
                        assert(self.screens[j].excess(0).len() > 0);
                    }
                },
                _ => {},
            }
            assert(after.screens[j].contains(window));
        }
    }

    /// No command makes the manager lose track of the focused window, but
    /// the one that makes a dock of it.
    pub proof fn lemma_command_keeps_focus(self, command: Command, pointer: Pointer)
        requires
            self.focus_managed(),
            self.focus matches Some(focus) ==> !self.lets_go(command, focus),
        ensures
            self.on_command(command, pointer) matches Ok(reaction)
                ==> reaction.state.focus_managed(),
    {
        if let Ok(reaction) = self.on_command(command, pointer) {
            if let Some(focus) = reaction.state.focus {
                assert(self.focus == Some(focus));
                self.lemma_command_keeps_windows(command, pointer, focus);
            }
        }
    }
}

} // verus!
