//! The manager: the owner of all screens, working off one message at a
//! time.

use vstd::prelude::*;

use crate::config::{
    Border,
    Configuration,
    ConfigurationView,
    Desktops,
    Insert,
    Padding,
    PointerFocus,
    Window,
};
use crate::display::{parse_hex, Pointer, Request};
use crate::event::{EventType, XEvent};
use crate::ipc::{
    Arguments,
    Change,
    Command,
    ConfigCommand,
    DesktopCommand,
    Direction,
    NodeCommand,
    State,
};
use crate::tree::{Node, Point, WindowRef};
use crate::wm::area::Area;
use crate::wm::model::{
    announced,
    desktop_number,
    laid_out_all,
    picks,
    switched,
    CommandError,
    ManagerView,
};
use crate::wm::screen::{Screen, ScreenView};

verus! {

/// The state of the window manager.
#[derive(Debug, PartialEq, Eq)]
pub struct WindowManager {
    pub screens: Vec<Screen>,
    pub focus: Option<WindowRef>,
    pub config: Configuration,
    pub should_close: bool,
}

impl View for WindowManager {
    type V = ManagerView;

    open spec fn view(&self) -> ManagerView {
        ManagerView {
            screens: self.screens@.map_values(|screen: Screen| screen@),
            focus: self.focus,
            config: self.config@,
            should_close: self.should_close,
        }
    }
}

/// The hints the manager announces its support for.
pub open spec fn supported_hints() -> Seq<Seq<char>> {
    seq![
        "WM_PROTOCOLS"@,
        "WM_DELETE_WINDOW"@,
        "_NET_ACTIVE_WINDOW"@,
        "_NET_NUMBER_OF_DESKTOPS"@,
        "_NET_CURRENT_DESKTOP"@,
        "_NET_WM_WINDOW_TYPE"@,
        "_NET_WM_WINDOW_TYPE_DESKTOP"@,
        "_NET_WM_WINDOW_TYPE_DOCK"@,
        "_NET_WM_WINDOW_TYPE_TOOLBAR"@,
        "_NET_WM_WINDOW_TYPE_MENU"@,
        "_NET_WM_WINDOW_TYPE_UTILITY"@,
        "_NET_WM_WINDOW_TYPE_SPLASH"@,
        "_NET_WM_WINDOW_TYPE_DIALOG"@,
        "_NET_WM_WINDOW_TYPE_NORMAL"@,
    ]
}

/// A desktop number lies on a screen exactly when dividing it by the
/// screen's number of desktops gives the screen's index.
proof fn lemma_picks(count: int, index: int, desktop: int)
    requires
        count > 0,
        index >= 0,
        desktop >= 0,
    ensures
        (index * count <= desktop < (index + 1) * count) <==> desktop / count == index,
        desktop / count == index ==> desktop - index * count == desktop % count,
{
    vstd::arithmetic::div_mod::lemma_fundamental_div_mod(desktop, count);
    vstd::arithmetic::div_mod::lemma_mod_bound(desktop, count);
    let q = desktop / count;
    assert(count * q == q * count) by (nonlinear_arith);
    if q < index {
        assert((q + 1) * count <= index * count) by (nonlinear_arith)
            requires
                q + 1 <= index,
                count > 0,
        ;
        assert((q + 1) * count == q * count + count) by (nonlinear_arith);
    } else if q > index {
        assert((index + 1) * count <= q * count) by (nonlinear_arith)
            requires
                index + 1 <= q,
                count > 0,
        ;
    } else {
        assert((index + 1) * count == index * count + count) by (nonlinear_arith);
    }
}

/// The number under which a desktop is announced.
fn number(desktop: usize, count: usize, index: usize) -> (n: u32)
    ensures
        n == desktop_number(desktop as int, count as int, index as int),
{
    assert(count * index <= 0xffff_ffff_ffff_ffff * 0xffff_ffff_ffff_ffff) by (nonlinear_arith)
        requires
            0 <= count <= 0xffff_ffff_ffff_ffff,
            0 <= index <= 0xffff_ffff_ffff_ffff,
    ;
    let sum: u128 = desktop as u128 + count as u128 * index as u128;
    (sum % 0x1_0000_0000) as u32
}

impl WindowManager {
    /// A manager without screens, with the standard settings.
    pub fn new() -> (manager: WindowManager)
        ensures
            manager@ == ManagerView::initial(),
    {
        let manager = WindowManager {
            screens: Vec::new(),
            focus: None,
            config: Configuration::new(),
            should_close: false,
        };
        assert(manager@.screens =~= Seq::empty());
        manager
    }

    /// Whether the manager is done: it has been told to exit.
    pub fn should_close(&self) -> (done: bool)
        ensures
            done == self@.should_close,
    {
        self.should_close
    }

    /// The hints the manager announces its support for.
    pub fn supported() -> (names: Vec<&'static str>)
        ensures
            names@.map_values(|name: &'static str| name@) == supported_hints(),
    {
        let names = vec![
            "WM_PROTOCOLS",
            "WM_DELETE_WINDOW",
            "_NET_ACTIVE_WINDOW",
            "_NET_NUMBER_OF_DESKTOPS",
            "_NET_CURRENT_DESKTOP",
            "_NET_WM_WINDOW_TYPE",
            "_NET_WM_WINDOW_TYPE_DESKTOP",
            "_NET_WM_WINDOW_TYPE_DOCK",
            "_NET_WM_WINDOW_TYPE_TOOLBAR",
            "_NET_WM_WINDOW_TYPE_MENU",
            "_NET_WM_WINDOW_TYPE_UTILITY",
            "_NET_WM_WINDOW_TYPE_SPLASH",
            "_NET_WM_WINDOW_TYPE_DIALOG",
            "_NET_WM_WINDOW_TYPE_NORMAL",
        ];
        assert(names@.map_values(|name: &'static str| name@) =~= supported_hints());
        names
    }

    /// Takes note of the screens there are, each without desktops, and asks
    /// for the viewport to be announced.
    pub fn load_screens(&mut self, areas: Vec<Area>) -> (requests: Vec<Request>)
        ensures
            final(self)@ == (ManagerView {
                screens: old(self)@.screens + areas@.map_values(
                    |area: Area| ScreenView::empty(area),
                ),
                ..old(self)@
            }),
            requests@ == seq![Request::SetDesktopViewport],
    {
        let mut i: usize = 0;
        assert(self@.screens =~= old(self)@.screens + areas@.take(0).map_values(
            |area: Area| ScreenView::empty(area),
        ));
        while i < areas.len()
            invariant
                i <= areas.len(),
                self.focus == old(self).focus,
                self.config == old(self).config,
                self.should_close == old(self).should_close,
                self@.screens == old(self)@.screens + areas@.take(i as int).map_values(
                    |area: Area| ScreenView::empty(area),
                ),
            decreases areas.len() - i,
        {
            let ghost before = self@.screens;
            self.screens.push(Screen::new(areas[i]));
            assert(self@.screens =~= before.push(ScreenView::empty(areas@[i as int])));
            assert(self@.screens =~= old(self)@.screens + areas@.take(i + 1).map_values(
                |area: Area| ScreenView::empty(area),
            ));
            i += 1;
        }
        assert(areas@.take(i as int) =~= areas@);
        let mut requests = Vec::new();
        requests.push(Request::SetDesktopViewport);
        assert(requests@ =~= seq![Request::SetDesktopViewport]);
        requests
    }

    /// The origin of every screen.
    pub fn viewport(&self) -> (origins: Vec<(u32, u32)>)
        ensures
            origins@ == self@.viewport(),
    {
        let mut origins: Vec<(u32, u32)> = Vec::new();
        let mut i: usize = 0;
        while i < self.screens.len()
            invariant
                i <= self.screens.len(),
                origins@.len() == i,
                forall|j: int| 0 <= j < i ==> origins@[j] == self@.viewport()[j],
            decreases self.screens.len() - i,
        {
            origins.push((self.screens[i].area.x as u32, self.screens[i].area.y as u32));
            i += 1;
        }
        assert(origins@ =~= self@.viewport());
        origins
    }

    /// Whether one of the screens holds a window.
    pub fn is_managed(&self, window: &WindowRef) -> (managed: bool)
        ensures
            managed == self@.is_managed(*window),
    {
        let mut i: usize = 0;
        while i < self.screens.len()
            invariant
                i <= self.screens.len(),
                forall|j: int| 0 <= j < i ==> !(#[trigger] self@.screens[j]).contains(*window),
            decreases self.screens.len() - i,
        {
            if self.screens[i].contains(window) {
                assert(self@.screens[i as int].contains(*window));
                return true;
            }
            i += 1;
        }
        false
    }

    /// The index of the focused screen.
    pub fn focused(&self, pointer: Pointer) -> (index: Option<usize>)
        ensures
            match index {
                Some(i) => self@.focused(pointer) == Some(i as int) && i < self.screens.len(),
                None => self@.focused(pointer) is None,
            },
    {
        let mut i: usize = 0;
        while i < self.screens.len()
            invariant
                i <= self.screens.len(),
                self@.focused_below(pointer, i as int) is None,
            decreases self.screens.len() - i,
        {
            let selected = match &self.focus {
                Some(focus) => self.screens[i].contains(focus),
                None => self.screens[i].area.contains(pointer.x, pointer.y),
            };
            assert(selected == self@.selects(i as int, pointer));
            if selected {
                proof {
                    self@.lemma_focused_from(pointer, i as int, self.screens.len() as int);
                }
                return Some(i);
            }
            i += 1;
        }
        None
    }

    /// The requests that put every screen in order.
    fn retile(&self) -> (requests: Vec<Request>)
        ensures
            requests@ == self@.retiled(),
    {
        let mut requests: Vec<Request> = Vec::new();
        let mut i: usize = 0;
        assert(self@.screens.take(0) =~= Seq::empty());
        while i < self.screens.len()
            invariant
                i <= self.screens.len(),
                requests@ == laid_out_all(
                    self@.screens.take(i as int),
                    self@.config.padding,
                    self@.config.window.gaps,
                ),
            decreases self.screens.len() - i,
        {
            let mut tiles = self.screens[i].tile(self.config.padding, self.config.window.gaps);
            requests.append(&mut tiles);
            proof {
                let run = self@.screens.take(i + 1);
                assert(run.drop_last() =~= self@.screens.take(i as int));
                assert(run.last() == self@.screens[i as int]);
            }
            i += 1;
        }
        assert(self@.screens.take(i as int) =~= self@.screens);
        requests
    }

    /// The requests that put one screen in order.
    fn tile_screen(&self, i: usize) -> (requests: Vec<Request>)
        requires
            i < self.screens.len(),
        ensures
            requests@ == self@.screens[i as int].laid_out(
                self@.config.padding,
                self@.config.window.gaps,
            ),
    {
        self.screens[i].tile(self.config.padding, self.config.window.gaps)
    }
}

impl WindowManager {
    fn map_request(&mut self, window: WindowRef, state: State, pointer: Pointer) -> (requests: Vec<
        Request,
    >)
        ensures
            final(self)@ == old(self)@.on_map_request(window, state, pointer).state,
            requests@ == old(self)@.on_map_request(window, state, pointer).requests,
    {
        let mut requests: Vec<Request> = Vec::new();
        requests.push(Request::SelectInput { window });
        requests.push(Request::SetBorderPixel { window, pixel: self.config.border.normal });
        requests.push(Request::SetBorderWidth { window, width: self.config.border.width });
        let ghost greeting = requests@;
        assert(greeting =~= seq![
            Request::SelectInput { window },
            Request::SetBorderPixel { window, pixel: self.config.border.normal },
            Request::SetBorderWidth { window, width: self.config.border.width },
        ]);
        if let Some(i) = self.focused(pointer) {
            let point = match self.focus {
                Some(focus) => Point::Window(focus),
                None => Point::Any,
            };
            let ghost before = self@.screens;
            self.screens[i].insert(window, self.config.insert, point, state);
            assert(self@.screens =~= before.update(
                i as int,
                before[i as int].inserted(window, self.config.insert, point, state),
            ));
            let mut tiles = self.tile_screen(i);
            requests.append(&mut tiles);
        }
        requests
    }

    fn unmap_notify(&mut self, wid: u32) -> (requests: Vec<Request>)
        ensures
            final(self)@ == old(self)@.on_unmap(wid).state,
            requests@ == old(self)@.on_unmap(wid).requests,
    {
        let mut requests: Vec<Request> = Vec::new();
        let mut i: usize = 0;
        assert(self@.screens.take(0) =~= Seq::empty());
        while i < self.screens.len()
            invariant
                i <= self.screens.len(),
                self.focus == old(self).focus,
                self.config == old(self).config,
                self.should_close == old(self).should_close,
                self@.screens.len() == old(self)@.screens.len(),
                forall|j: int|
                    0 <= j < i ==> #[trigger] self@.screens[j] == old(self)@.screens[j].removed(
                        wid,
                    ),
                forall|j: int|
                    i <= j < self.screens.len() ==> #[trigger] self@.screens[j] == old(
                        self,
                    )@.screens[j],
                requests@ == laid_out_all(
                    self@.screens.take(i as int),
                    self@.config.padding,
                    self@.config.window.gaps,
                ),
            decreases self.screens.len() - i,
        {
            let ghost before = self@.screens;
            self.screens[i].remove(wid);
            assert(self@.screens =~= before.update(i as int, before[i as int].removed(wid)));
            let mut tiles = self.tile_screen(i);
            requests.append(&mut tiles);
            proof {
                let run = self@.screens.take(i + 1);
                assert(run.drop_last() =~= before.take(i as int));
                assert(run.last() == self@.screens[i as int]);
            }
            i += 1;
        }
        assert(self@.screens.take(i as int) =~= self@.screens);
        assert(self@.screens =~= old(self)@.screens.map_values(
            |screen: ScreenView| screen.removed(wid),
        ));
        let drop = match &self.focus {
            Some(focus) => focus.id == wid,
            None => false,
        };
        if drop {
            self.focus = None;
        }
        requests
    }

    fn enter_notify(&self, window: WindowRef) -> (requests: Vec<Request>)
        ensures
            requests@ == self@.on_enter(window).requests,
    {
        let mut requests: Vec<Request> = Vec::new();
        if self.is_managed(&window) && self.config.pf.focus_follows {
            requests.push(Request::SetInputFocus { window });
            assert(requests@ =~= seq![Request::SetInputFocus { window }]);
        }
        requests
    }

    fn focus_in(&mut self, window: WindowRef) -> (requests: Vec<Request>)
        ensures
            final(self)@ == old(self)@.on_focus_in(window).state,
            requests@ == old(self)@.on_focus_in(window).requests,
    {
        let mut requests: Vec<Request> = Vec::new();
        if self.is_managed(&window) {
            requests.push(Request::SetBorderPixel { window, pixel: self.config.border.focused });
            requests.push(Request::Raise { window });
            if let Some(before) = self.focus {
                if before.id != window.id {
                    requests.push(
                        Request::SetBorderPixel { window: before, pixel: self.config.border.normal },
                    );
                }
            }
            self.focus = Some(window);
            assert(requests@ =~= old(self)@.on_focus_in(window).requests);
        }
        requests
    }

    /// Works off an event of the display.  `pointer` is where the pointer is
    /// when the event is taken up.  Returns what the display is to do, in
    /// that order.
    pub fn handle_event(&mut self, event: XEvent, pointer: Pointer) -> (requests: Vec<Request>)
        ensures
            final(self)@ == old(self)@.on_event(event, pointer).state,
            requests@ == old(self)@.on_event(event, pointer).requests,
    {
        match event {
            XEvent::MapRequest { window, types } => {
                let state = State::from(types.as_slice());
                self.map_request(WindowRef { id: window }, state, pointer)
            },
            XEvent::UnmapNotify { window } => self.unmap_notify(window),
            XEvent::EnterNotify { window } => self.enter_notify(WindowRef { id: window }),
            XEvent::FocusIn { window } => self.focus_in(WindowRef { id: window }),
            XEvent::Other => Vec::new(),
        }
    }
}

impl WindowManager {
    fn node_insert(&mut self, dir: Direction, ratio: Option<i8>, toggle: bool)
        ensures
            final(self)@ == old(self)@.on_insert(
                Insert {
                    dir,
                    ratio: match ratio {
                        Some(ratio) => ratio,
                        None => old(self)@.config.insert.ratio,
                    },
                },
                toggle,
            ).state,
    {
        let wanted = Insert::new(
            dir,
            match ratio {
                Some(ratio) => ratio,
                None => self.config.insert.ratio,
            },
        );
        self.config.insert = if wanted == self.config.insert && toggle {
            Insert::default()
        } else {
            wanted
        };
    }

    fn node_state(&mut self, state: State, toggle: bool, pointer: Pointer) -> (requests: Vec<
        Request,
    >)
        ensures
            final(self)@ == old(self)@.on_state(state, toggle, pointer).state,
            requests@ == old(self)@.on_state(state, toggle, pointer).requests,
    {
        if let Some(focus) = self.focus {
            if let Some(i) = self.focused(pointer) {
                let ghost before = self@.screens;
                let was = self.screens[i].remove(focus.id);
                let target = if was == state && toggle {
                    state.toggle()
                } else {
                    state
                };
                self.screens[i].insert(focus, self.config.insert, Point::Any, target);
                assert(self@.screens =~= before.update(
                    i as int,
                    before[i as int].removed(focus.id).inserted(
                        focus,
                        self.config.insert,
                        Point::Any,
                        target,
                    ),
                ));
                return self.tile_screen(i);
            }
        }
        Vec::new()
    }

    fn node_send(&mut self, desktop: usize, pointer: Pointer) -> (requests: Vec<Request>)
        ensures
            final(self)@ == old(self)@.on_send(desktop, pointer).state,
            requests@ == old(self)@.on_send(desktop, pointer).requests,
    {
        if let Some(focus) = self.focus {
            if let Some(i) = self.focused(pointer) {
                if desktop < self.screens[i].desktops.len() && self.screens[i].current != desktop {
                    let ghost before = self@.screens;
                    let was = self.screens[i].remove(focus.id);
                    let ghost taken = self@.screens[i as int];
                    assert(taken == before[i as int].removed(focus.id));
                    self.screens[i].desktops[desktop].insert(
                        focus,
                        self.config.insert,
                        Point::Any,
                        was,
                    );
                    assert(self@.screens[i as int].desktops =~= taken.desktops.update(
                        desktop as int,
                        taken.desktops[desktop as int].inserted(
                            focus,
                            self.config.insert,
                            Point::Any,
                            was,
                        ),
                    ));
                    assert(self@.screens =~= before.update(i as int, self@.screens[i as int]));
                    let requests = self.tile_screen(i);
                    self.focus = None;
                    return requests;
                }
            }
        }
        Vec::new()
    }

    fn node_ratio(&mut self, change: Change, pointer: Pointer) -> (requests: Vec<Request>)
        ensures
            final(self)@ == old(self)@.on_rewrite(Node::rescaled(change), pointer).state,
            requests@ == old(self)@.on_rewrite(Node::rescaled(change), pointer).requests,
    {
        if let Some(focus) = self.focus {
            if let Some(i) = self.focused(pointer) {
                let ghost before = self@.screens;
                let f = |left: Box<Node>, right: Box<Node>, insert: Insert| -> (node: Node)
                    ensures
                        node == Node::rescaled(change)(*left, *right, insert),
                    { Node::rescale(left, right, insert, change) };
                self.screens[i].map_internal(focus.id, f);
                proof {
                    before[i as int].lemma_rewritten_mapped(
                        focus.id,
                        f,
                        Node::rescaled(change),
                        self@.screens[i as int],
                    );
                    assert(self@.screens =~= before.update(
                        i as int,
                        before[i as int].mapped(focus.id, Node::rescaled(change)),
                    ));
                }
                return self.tile_screen(i);
            }
        }
        Vec::new()
    }

    fn node_reverse(&mut self, pointer: Pointer) -> (requests: Vec<Request>)
        ensures
            final(self)@ == old(self)@.on_rewrite(Node::mirrored(), pointer).state,
            requests@ == old(self)@.on_rewrite(Node::mirrored(), pointer).requests,
    {
        if let Some(focus) = self.focus {
            if let Some(i) = self.focused(pointer) {
                let ghost before = self@.screens;
                let f = |left: Box<Node>, right: Box<Node>, insert: Insert| -> (node: Node)
                    ensures
                        node == Node::mirrored()(*left, *right, insert),
                    { Node::mirror(left, right, insert) };
                self.screens[i].map_internal(focus.id, f);
                proof {
                    before[i as int].lemma_rewritten_mapped(
                        focus.id,
                        f,
                        Node::mirrored(),
                        self@.screens[i as int],
                    );
                    assert(self@.screens =~= before.update(
                        i as int,
                        before[i as int].mapped(focus.id, Node::mirrored()),
                    ));
                }
                return self.tile_screen(i);
            }
        }
        Vec::new()
    }

    fn handle_node(&mut self, node: NodeCommand, pointer: Pointer) -> (requests: Vec<Request>)
        ensures
            final(self)@ == old(self)@.on_node(node, pointer).state,
            requests@ == old(self)@.on_node(node, pointer).requests,
    {
        match node {
            NodeCommand::Insert { dir, ratio, toggle } => {
                self.node_insert(dir, ratio, toggle);
                Vec::new()
            },
            NodeCommand::State { state, toggle } => self.node_state(state, toggle, pointer),
            NodeCommand::Desktop { desktop } => self.node_send(desktop, pointer),
            NodeCommand::Move { dx, dy } => {
                let mut requests: Vec<Request> = Vec::new();
                if let Some(window) = self.focus {
                    requests.push(Request::Translate { window, dx, dy });
                    assert(requests@ =~= seq![Request::Translate { window, dx, dy }]);
                }
                requests
            },
            NodeCommand::Ratio { change } => self.node_ratio(change, pointer),
            NodeCommand::Reverse => self.node_reverse(pointer),
            NodeCommand::Close => {
                let mut requests: Vec<Request> = Vec::new();
                if let Some(window) = self.focus {
                    requests.push(Request::Close { window });
                    assert(requests@ =~= seq![Request::Close { window }]);
                }
                requests
            },
            NodeCommand::Kill => {
                let mut requests: Vec<Request> = Vec::new();
                if let Some(window) = self.focus {
                    requests.push(Request::Kill { window });
                    assert(requests@ =~= seq![Request::Kill { window }]);
                }
                requests
            },
        }
    }

    fn switch_desktop(&mut self, desktop: usize, pointer: Pointer) -> (outcome: Result<
        Vec<Request>,
        CommandError,
    >)
        ensures
            match old(self)@.on_switch(desktop, pointer) {
                Ok(reaction) => outcome matches Ok(requests) && requests@ == reaction.requests
                    && final(self)@ == reaction.state,
                Err(error) => outcome == Err::<Vec<Request>, CommandError>(error) && final(self)@
                    == old(self)@,
            },
    {
        if self.config.desktops.pinned {
            match self.focused(pointer) {
                Some(i) => {
                    let count = self.screens[i].desktops.len();
                    if desktop < count {
                        let ghost before = self@.screens;
                        self.screens[i].current = desktop;
                        assert(self@.screens =~= before.update(
                            i as int,
                            ScreenView { current: desktop, ..before[i as int] },
                        ));
                        let mut requests: Vec<Request> = Vec::new();
                        requests.push(
                            Request::SetCurrentDesktop { desktop: number(desktop, count, i) },
                        );
                        let mut tiles = self.tile_screen(i);
                        requests.append(&mut tiles);
                        Ok(requests)
                    } else {
                        Err(CommandError::DesktopOutOfRange)
                    }
                },
                None => Ok(Vec::new()),
            }
        } else {
            let mut found = false;
            let mut i: usize = 0;
            while i < self.screens.len()
                invariant
                    i <= self.screens.len(),
                    *self == *old(self),
                    found == exists|j: int|
                        0 <= j < i && picks(#[trigger] self@.screens[j], j, desktop as int),
                decreases self.screens.len() - i,
            {
                let count = self.screens[i].desktops.len();
                proof {
                    if count > 0 {
                        lemma_picks(count as int, i as int, desktop as int);
                    } else {
                        assert(i * 0 == 0 && (i + 1) * 0 == 0) by (nonlinear_arith);
                    }
                }
                if count > 0 && desktop / count == i {
                    assert(picks(self@.screens[i as int], i as int, desktop as int));
                    found = true;
                }
                i += 1;
            }
            if !found {
                return Err(CommandError::DesktopOutOfRange);
            }
            let mut requests: Vec<Request> = Vec::new();
            let mut i: usize = 0;
            let ghost target = Seq::new(
                old(self)@.screens.len(),
                |j: int| switched(old(self)@.screens[j], j, desktop as int),
            );
            assert(target.take(0) =~= Seq::empty());
            while i < self.screens.len()
                invariant
                    i <= self.screens.len(),
                    self.focus == old(self).focus,
                    self.config == old(self).config,
                    self.should_close == old(self).should_close,
                    self@.screens.len() == old(self)@.screens.len(),
                    target == Seq::new(
                        old(self)@.screens.len(),
                        |j: int| switched(old(self)@.screens[j], j, desktop as int),
                    ),
                    forall|j: int| 0 <= j < i ==> #[trigger] self@.screens[j] == target[j],
                    forall|j: int|
                        i <= j < self.screens.len() ==> #[trigger] self@.screens[j] == old(
                            self,
                        )@.screens[j],
                    requests@ == announced(
                        target.take(i as int),
                        desktop as int,
                        self@.config.padding,
                        self@.config.window.gaps,
                    ),
                decreases self.screens.len() - i,
            {
                let count = self.screens[i].desktops.len();
                proof {
                    if count > 0 {
                        lemma_picks(count as int, i as int, desktop as int);
                    } else {
                        assert(i * 0 == 0 && (i + 1) * 0 == 0) by (nonlinear_arith);
                    }
                    let run = target.take(i + 1);
                    assert(run.drop_last() =~= target.take(i as int));
                    assert(run.last() == target[i as int]);
                }
                let ghost before = self@.screens;
                if count > 0 && desktop / count == i {
                    assert(picks(before[i as int], i as int, desktop as int));
                    self.screens[i].current = desktop % count;
                    assert(self@.screens[i as int] == switched(
                        before[i as int],
                        i as int,
                        desktop as int,
                    ));
                    assert(self@.screens =~= before.update(i as int, target[i as int]));
                    requests.push(
                        Request::SetCurrentDesktop {
                            desktop: number(self.screens[i].current, count, i),
                        },
                    );
                    let mut tiles = self.tile_screen(i);
                    requests.append(&mut tiles);
                }
                i += 1;
            }
            assert(target.take(i as int) =~= target);
            assert(self@.screens =~= target);
            Ok(requests)
        }
    }

    fn set_desktops(&mut self, names: Vec<String>, pinned: bool) -> (outcome: Result<
        Vec<Request>,
        CommandError,
    >)
        ensures
            match old(self)@.on_desktops(names.deep_view(), pinned) {
                Ok(reaction) => outcome matches Ok(requests) && requests@ == reaction.requests
                    && final(self)@ == reaction.state,
                Err(error) => outcome == Err::<Vec<Request>, CommandError>(error) && final(self)@
                    == old(self)@,
            },
    {
        let length = names.len();
        assert(names.deep_view().len() == length);
        if length == 0 {
            let mut i: usize = 0;
            while i < self.screens.len()
                invariant
                    i <= self.screens.len(),
                    *self == *old(self),
                    names.deep_view().len() == 0,
                    forall|j: int|
                        0 <= j < i ==> (#[trigger] self@.screens[j]).excess(0).len() == 0,
                decreases self.screens.len() - i,
            {
                if !self.screens[i].is_vacant() {
                    assert(self@.screens[i as int].excess(0).len() > 0);
                    return Err(CommandError::NoDesktopLeft);
                }
                i += 1;
            }
        }
        self.config.desktops = Desktops { names, pinned };
        let mut i: usize = 0;
        while i < self.screens.len()
            invariant
                i <= self.screens.len(),
                self.focus == old(self).focus,
                self.config == (Configuration {
                    desktops: self.config.desktops,
                    ..old(self).config
                }),
                self.config.desktops.names == names,
                self.config.desktops.pinned == pinned,
                self.should_close == old(self).should_close,
                self@.screens.len() == old(self)@.screens.len(),
                length == names.deep_view().len(),
                length == 0 ==> forall|j: int|
                    0 <= j < self.screens.len() ==> (#[trigger] old(self)@.screens[j]).excess(
                        0,
                    ).len() == 0,
                forall|j: int|
                    0 <= j < i ==> #[trigger] self@.screens[j] == old(self)@.screens[j].resized(
                        length as int,
                    ),
                forall|j: int|
                    i <= j < self.screens.len() ==> #[trigger] self@.screens[j] == old(
                        self,
                    )@.screens[j],
            decreases self.screens.len() - i,
        {
            let ghost before = self@.screens;
            self.screens[i].resize(length);
            assert(self@.screens =~= before.update(
                i as int,
                before[i as int].resized(length as int),
            ));
            i += 1;
        }
        assert(self@.screens =~= old(self)@.screens.map_values(
            |screen: ScreenView| screen.resized(length as int),
        ));
        let mut requests = self.retile();
        requests.push(Request::SetNumberOfDesktops { count: number(0, length, self.screens.len()) });
        requests.push(Request::SetDesktopViewport);
        Ok(requests)
    }

    fn set_window(&mut self, gaps: u8) -> (requests: Vec<Request>)
        ensures
            final(self)@ == old(self)@.on_geometry(
                ConfigurationView { window: Window { gaps }, ..old(self)@.config },
            ).state,
            requests@ == old(self)@.on_geometry(
                ConfigurationView { window: Window { gaps }, ..old(self)@.config },
            ).requests,
    {
        self.config.window = Window { gaps };
        self.retile()
    }

    fn set_padding(&mut self, padding: Padding) -> (requests: Vec<Request>)
        ensures
            final(self)@ == old(self)@.on_geometry(
                ConfigurationView { padding, ..old(self)@.config },
            ).state,
            requests@ == old(self)@.on_geometry(
                ConfigurationView { padding, ..old(self)@.config },
            ).requests,
    {
        self.config.padding = padding;
        self.retile()
    }

    /// Gives the border its colours and its width and puts every screen in
    /// order.  A colour that is `None` has not been understood: the command
    /// is then an error and changes nothing.
    pub fn set_border(&mut self, normal: Option<u32>, focused: Option<u32>, width: u16) -> (outcome:
        Result<Vec<Request>, CommandError>)
        ensures
            match old(self)@.on_border(normal, focused, width) {
                Ok(reaction) => outcome matches Ok(requests) && requests@ == reaction.requests
                    && final(self)@ == reaction.state,
                Err(error) => outcome == Err::<Vec<Request>, CommandError>(error) && final(self)@
                    == old(self)@,
            },
    {
        match (normal, focused) {
            (Some(normal), Some(focused)) => {
                self.config.border = Border { normal, focused, width };
                Ok(self.retile())
            },
            _ => Err(CommandError::InvalidColor),
        }
    }

    fn handle_settings(&mut self, config: ConfigCommand) -> (outcome: Result<
        Vec<Request>,
        CommandError,
    >)
        ensures
            match old(self)@.on_config(config) {
                Ok(reaction) => outcome matches Ok(requests) && requests@ == reaction.requests
                    && final(self)@ == reaction.state,
                Err(error) => outcome == Err::<Vec<Request>, CommandError>(error) && final(self)@
                    == old(self)@,
            },
    {
        match config {
            ConfigCommand::Desktops { names, pinned } => self.set_desktops(names, pinned),
            ConfigCommand::Window { gaps } => Ok(self.set_window(gaps)),
            ConfigCommand::Border { normal, focused, width } => {
                let normal = parse_hex(normal.as_str());
                let focused = parse_hex(focused.as_str());
                self.set_border(normal, focused, width)
            },
            ConfigCommand::Padding { top, bottom, left, right } => Ok(
                self.set_padding(Padding { top, bottom, left, right }),
            ),
            ConfigCommand::PointerFollowsFocus => {
                self.config.pf = PointerFocus {
                    pointer_follows: !self.config.pf.pointer_follows,
                    focus_follows: self.config.pf.focus_follows,
                };
                Ok(Vec::new())
            },
            ConfigCommand::FocusFollowsPointer => {
                self.config.pf = PointerFocus {
                    pointer_follows: self.config.pf.pointer_follows,
                    focus_follows: !self.config.pf.focus_follows,
                };
                Ok(Vec::new())
            },
        }
    }

    /// Works off a command.  `pointer` is where the pointer is when the
    /// command is taken up.  Returns what the display is to do, in that
    /// order, or why the command was turned down; a command that is turned
    /// down changes nothing.
    pub fn handle_config(&mut self, args: Arguments, pointer: Pointer) -> (outcome: Result<
        Vec<Request>,
        CommandError,
    >)
        ensures
            match old(self)@.on_command(args.command, pointer) {
                Ok(reaction) => outcome matches Ok(requests) && requests@ == reaction.requests
                    && final(self)@ == reaction.state,
                Err(error) => outcome == Err::<Vec<Request>, CommandError>(error) && final(self)@
                    == old(self)@,
            },
    {
        match args.command {
            Command::Node { node, .. } => Ok(self.handle_node(node, pointer)),
            Command::Desktop(DesktopCommand::Focus { desktop }) => self.switch_desktop(
                desktop,
                pointer,
            ),
            Command::Config(config) => self.handle_settings(config),
            Command::Exit => {
                self.should_close = true;
                Ok(Vec::new())
            },
        }
    }

    /// Works off one message.
    pub fn dispatch(&mut self, message: EventType, pointer: Pointer) -> (outcome: Result<
        Vec<Request>,
        CommandError,
    >)
        ensures
            match message {
                EventType::XEvent(event) => outcome matches Ok(requests) && requests@ == old(
                    self,
                )@.on_event(event, pointer).requests && final(self)@ == old(self)@.on_event(
                    event,
                    pointer,
                ).state,
                EventType::Config(args) => match old(self)@.on_command(args.command, pointer) {
                    Ok(reaction) => outcome matches Ok(requests) && requests@ == reaction.requests
                        && final(self)@ == reaction.state,
                    Err(error) => outcome == Err::<Vec<Request>, CommandError>(error)
                        && final(self)@ == old(self)@,
                },
            },
    {
        match message {
            EventType::XEvent(event) => Ok(self.handle_event(event, pointer)),
            EventType::Config(args) => self.handle_config(args, pointer),
        }
    }
}

} // verus!
