//! A desktop: the tiled windows of a workspace, laid out by a tree, and the
//! windows that float above them.

use vstd::prelude::*;

use crate::config::{Insert, Padding};
use crate::display::Request;
use crate::ipc::State;
use crate::tree::{Node, Point, WindowRef};
use crate::wm::area::Area;

verus! {

/// A workspace of one screen.
#[derive(Debug, PartialEq, Eq)]
pub struct Desktop {
    pub clients: Option<Node>,
    pub floating: Vec<WindowRef>,
    pub area: Area,
}

/// A desktop as a plain value.
pub struct DesktopView {
    pub clients: Option<Node>,
    pub floating: Seq<WindowRef>,
    pub area: Area,
}

impl View for Desktop {
    type V = DesktopView;

    open spec fn view(&self) -> DesktopView {
        DesktopView { clients: self.clients, floating: self.floating@, area: self.area }
    }
}

/// One request to take each of the windows off the screen, in their order.
pub open spec fn unmapped(windows: Seq<WindowRef>) -> Seq<Request> {
    Seq::new(windows.len(), |i: int| Request::UnmapWindow { window: windows[i] })
}

/// For each of the windows in turn, a request to show it and one to put it
/// on top.
pub open spec fn raised(windows: Seq<WindowRef>) -> Seq<Request> {
    Seq::new(
        2 * windows.len(),
        |i: int|
            if i % 2 == 0 {
                Request::MapWindow { window: windows[i / 2] }
            } else {
                Request::Raise { window: windows[i / 2] }
            },
    )
}

impl DesktopView {
    /// A desktop without windows.
    pub open spec fn empty(area: Area) -> DesktopView {
        DesktopView { clients: None, floating: Seq::empty(), area }
    }

    /// The tiled windows, from left to right.
    pub open spec fn tiled(self) -> Seq<WindowRef> {
        match self.clients {
            Some(tree) => tree.leaves(),
            None => Seq::empty(),
        }
    }

    /// All windows: the tiled ones, then the floating ones.
    pub open spec fn windows(self) -> Seq<WindowRef> {
        self.tiled() + self.floating
    }

    /// Whether the desktop holds a window, tiled or floating.
    pub open spec fn contains(self, window: WindowRef) -> bool {
        self.tiled().contains(window) || self.floating.contains(window)
    }

    /// The desktop after a window in the given state has joined it: a tiled
    /// window becomes the tree where there is none and joins the tree at
    /// `point` otherwise, a floating window goes to the end of the floating
    /// ones, and a dock is not kept.
    pub open spec fn inserted(
        self,
        window: WindowRef,
        insert: Insert,
        point: Point,
        state: State,
    ) -> DesktopView {
        match state {
            State::Float => DesktopView { floating: self.floating.push(window), ..self },
            State::Tiled => DesktopView {
                clients: Some(
                    match self.clients {
                        Some(tree) => tree.inserted(window, insert, point),
                        None => Node::Leaf { window },
                    },
                ),
                ..self
            },
            State::Dock => self,
        }
    }

    /// The desktop after the window with the id `wid` has left it: the tree
    /// loses the window, and is dropped where it was the window's leaf; the
    /// floating windows lose the first of them with that id.
    pub open spec fn removed(self, wid: u32) -> DesktopView {
        DesktopView {
            clients: match self.clients {
                Some(tree) => if tree.is_leaf_of(wid) {
                    None
                } else {
                    Some(tree.removed(wid))
                },
                None => None,
            },
            floating: self.floating.remove_value(WindowRef { id: wid }),
            area: self.area,
        }
    }

    /// The state that `remove` reports for the window with the id `wid`:
    /// floating where it is among the floating windows, tiled otherwise.
    pub open spec fn state_of(self, wid: u32) -> State {
        if self.floating.contains(WindowRef { id: wid }) {
            State::Float
        } else {
            State::Tiled
        }
    }

    /// Whether `out` is a desktop that `map_internal` may leave behind: its
    /// tree is rewritten, the rest is as it was.
    pub open spec fn rewritten<F: Fn(Box<Node>, Box<Node>, Insert) -> Node>(
        self,
        wid: u32,
        f: F,
        out: DesktopView,
    ) -> bool {
        &&& out.floating == self.floating
        &&& out.area == self.area
        &&& match self.clients {
            Some(tree) => out.clients matches Some(after) && tree.rewritten(wid, f, after),
            None => out.clients is None,
        }
    }

    /// The desktop with its tree rewritten by `g`.
    pub open spec fn mapped(self, wid: u32, g: spec_fn(Node, Node, Insert) -> Node) -> DesktopView {
        DesktopView {
            clients: match self.clients {
                Some(tree) => Some(tree.mapped(wid, g)),
                None => None,
            },
            ..self
        }
    }

    /// The requests that take the desktop off the screen: every tiled window
    /// is unmapped, then every floating one.
    pub open spec fn hidden(self) -> Seq<Request> {
        unmapped(self.windows())
    }

    /// The requests that put the desktop on the screen: the tree is laid out
    /// on the desktop's area less the padding, then every floating window is
    /// shown and put on top.
    pub open spec fn laid_out(self, padding: Padding, gaps: u8) -> Seq<Request> {
        (match self.clients {
            Some(tree) => Node::placed(tree.tiles(self.area.padded(padding), gaps)),
            None => Seq::empty(),
        }) + raised(self.floating)
    }
}

impl DesktopView {
    /// Where `f` always returns what `g` says, `map_internal` leaves the
    /// desktop that `mapped` describes.
    pub proof fn lemma_rewritten_mapped<F: Fn(Box<Node>, Box<Node>, Insert) -> Node>(
        self,
        wid: u32,
        f: F,
        g: spec_fn(Node, Node, Insert) -> Node,
        out: DesktopView,
    )
        requires
            self.rewritten(wid, f, out),
            forall|l: Box<Node>, r: Box<Node>, i: Insert, o: Node| #[trigger]
                f.ensures((l, r, i), o) ==> o == g(*l, *r, i),
        ensures
            out == self.mapped(wid, g),
    {
        if let Some(tree) = self.clients {
            tree.lemma_rewritten_mapped(wid, f, g, out.clients.unwrap());
        }
    }
}

/// Taking the first occurrence of a value out of a sequence leaves every
/// other value in it.
pub proof fn lemma_remove_value_keeps<T>(s: Seq<T>, gone: T, other: T)
    requires
        s.contains(other),
        other != gone,
    ensures
        s.remove_value(gone).contains(other),
{
    s.index_of_first_ensures(gone);
    if let Some(i) = s.index_of_first(gone) {
        let j = choose|j: int| 0 <= j < s.len() && s[j] == other;
        if j < i {
            assert(s.remove(i)[j] == other);
        } else {
            assert(s.remove(i)[j - 1] == other);
        }
    }
}

impl DesktopView {
    /// A window that joins a desktop drives no window off it.
    pub proof fn lemma_inserted_keeps(
        self,
        window: WindowRef,
        insert: Insert,
        point: Point,
        state: State,
        other: WindowRef,
    )
        requires
            self.contains(other),
        ensures
            self.inserted(window, insert, point, state).contains(other),
    {
        match state {
            State::Float => {
                if self.floating.contains(other) {
                    let i = choose|i: int| 0 <= i < self.floating.len() && self.floating[i] == other;
                    assert(self.floating.push(window)[i] == other);
                }
            },
            State::Tiled => {
                if let Some(tree) = self.clients {
                    if tree.leaves().contains(other) {
                        tree.lemma_inserted_keeps(window, insert, point, other);
                    }
                } else {
                    assert(!Seq::<WindowRef>::empty().contains(other));
                }
            },
            State::Dock => {},
        }
    }

    /// A window that joins a desktop as a floating window is on it, and so
    /// is one that joins as a tiled window next to the first leaf.
    pub proof fn lemma_inserted_holds(self, window: WindowRef, insert: Insert, state: State)
        requires
            state != State::Dock,
        ensures
            self.inserted(window, insert, Point::Any, state).contains(window),
    {
        match state {
            State::Float => {
                assert(self.floating.push(window)[self.floating.len() as int] == window);
            },
            State::Tiled => {
                if let Some(tree) = self.clients {
                    tree.lemma_insert_contains(window, insert, Point::Any);
                } else {
                    assert((Node::Leaf { window }).leaves()[0] == window);
                }
            },
            State::Dock => {},
        }
    }

    /// A window that leaves a desktop takes no window of another id with
    /// it.
    pub proof fn lemma_removed_keeps(self, wid: u32, other: WindowRef)
        requires
            self.contains(other),
            other.id != wid,
        ensures
            self.removed(wid).contains(other),
    {
        if self.floating.contains(other) {
            lemma_remove_value_keeps(self.floating, WindowRef { id: wid }, other);
        }
        if let Some(tree) = self.clients {
            if tree.leaves().contains(other) {
                if tree.is_leaf_of(wid) {
                    assert(tree.leaves() =~= seq![WindowRef { id: wid }]);
                    let i = choose|i: int| 0 <= i < tree.leaves().len() && tree.leaves()[i] == other;
                    assert(tree.leaves()[i] == WindowRef { id: wid });
                } else {
                    tree.lemma_removed_keeps(wid, other);
                }
            }
        } else {
            assert(!Seq::<WindowRef>::empty().contains(other));
        }
    }

    /// A rewrite that keeps a window in every split it rewrites keeps it on
    /// the desktop.
    pub proof fn lemma_mapped_keeps(
        self,
        wid: u32,
        g: spec_fn(Node, Node, Insert) -> Node,
        other: WindowRef,
    )
        requires
            self.contains(other),
            Node::keeps(g, other),
        ensures
            self.mapped(wid, g).contains(other),
    {
        if let Some(tree) = self.clients {
            if tree.leaves().contains(other) {
                tree.lemma_mapped_keeps(wid, g, other);
            }
        } else {
            assert(!Seq::<WindowRef>::empty().contains(other));
        }
    }
}

/// Whether a list holds a window.
fn holds(list: &Vec<WindowRef>, window: &WindowRef) -> (found: bool)
    ensures
        found == list@.contains(*window),
{
    let mut i: usize = 0;
    while i < list.len()
        invariant
            i <= list.len(),
            forall|j: int| 0 <= j < i ==> list@[j] != *window,
        decreases list.len() - i,
    {
        if list[i].id == window.id {
            return true;
        }
        i += 1;
    }
    false
}

impl Desktop {
    /// A desktop without windows.
    pub fn new(area: Area) -> (desktop: Desktop)
        ensures
            desktop@ == DesktopView::empty(area),
    {
        Desktop { clients: None, floating: Vec::new(), area }
    }

    /// Whether the desktop holds a window, tiled or floating.
    pub fn contains(&self, window: &WindowRef) -> (found: bool)
        ensures
            found == self@.contains(*window),
    {
        match &self.clients {
            Some(clients) => clients.contains(window) || holds(&self.floating, window),
            None => {
                assert(!Seq::<WindowRef>::empty().contains(*window));
                holds(&self.floating, window)
            },
        }
    }

    fn insert_tiled(&mut self, window: WindowRef, insert: Insert, point: Point)
        ensures
            final(self)@ == old(self)@.inserted(window, insert, point, State::Tiled),
    {
        match &mut self.clients {
            Some(clients) => clients.insert(window, insert, point),
            None => self.clients = Some(Node::root(window)),
        }
    }

    /// Lets a window in the given state join the desktop.
    pub fn insert(&mut self, window: WindowRef, insert: Insert, point: Point, state: State)
        ensures
            final(self)@ == old(self)@.inserted(window, insert, point, state),
    {
        match state {
            State::Float => self.floating.push(window),
            State::Tiled => self.insert_tiled(window, insert, point),
            State::Dock => {},
        }
    }

    /// Takes the window with the id `wid` off the desktop and says in which
    /// state it was there.
    pub fn remove(&mut self, wid: u32) -> (state: State)
        ensures
            final(self)@ == old(self)@.removed(wid),
            state == old(self)@.state_of(wid),
    {
        let hit = match &mut self.clients {
            Some(clients) => clients.remove(wid),
            None => false,
        };
        if hit {
            self.clients = None;
        }
        let ghost needle = WindowRef { id: wid };
        let mut i: usize = 0;
        while i < self.floating.len()
            invariant
                i <= self.floating.len(),
                needle == (WindowRef { id: wid }),
                self.floating == old(self).floating,
                self.area == old(self).area,
                self@.clients == old(self)@.removed(wid).clients,
                forall|j: int| 0 <= j < i ==> self.floating@[j] != needle,
            decreases self.floating.len() - i,
        {
            if self.floating[i].id == wid {
                proof {
                    self.floating@.index_of_first_ensures(needle);
                    assert(self.floating@[i as int] == needle);
                }
                self.floating.remove(i);
                return State::Float;
            }
            i += 1;
        }
        proof {
            self.floating@.index_of_first_ensures(needle);
        }
        State::Tiled
    }

    /// Rewrites the tree as `Node::map_internal` does.
    pub fn map_internal<F>(&mut self, wid: u32, f: F) where
        F: Fn(Box<Node>, Box<Node>, Insert) -> Node,

        requires
            forall|l: Box<Node>, r: Box<Node>, i: Insert| f.requires((l, r, i)),
        ensures
            old(self)@.rewritten(wid, f, final(self)@),
    {
        if let Some(clients) = &mut self.clients {
            clients.map_internal(wid, f);
        }
    }

    /// The requests that take the desktop off the screen.
    pub fn hide_windows(&self) -> (requests: Vec<Request>)
        ensures
            requests@ == self@.hidden(),
    {
        let mut windows: Vec<WindowRef> = Vec::new();
        if let Some(clients) = &self.clients {
            clients.collect_into(&mut windows);
        }
        assert(windows@ =~= self@.tiled());
        let mut requests: Vec<Request> = Vec::new();
        let mut i: usize = 0;
        while i < windows.len()
            invariant
                i <= windows.len(),
                requests@ == unmapped(windows@.take(i as int)),
            decreases windows.len() - i,
        {
            requests.push(Request::UnmapWindow { window: windows[i] });
            assert(requests@ =~= unmapped(windows@.take(i + 1)));
            i += 1;
        }
        assert(windows@.take(i as int) =~= windows@);
        let mut i: usize = 0;
        while i < self.floating.len()
            invariant
                i <= self.floating.len(),
                requests@ == unmapped(self@.tiled() + self.floating@.take(i as int)),
            decreases self.floating.len() - i,
        {
            requests.push(Request::UnmapWindow { window: self.floating[i] });
            assert(requests@ =~= unmapped(self@.tiled() + self.floating@.take(i + 1)));
            i += 1;
        }
        assert(self.floating@.take(i as int) =~= self.floating@);
        requests
    }

    /// The requests that put the desktop on the screen.
    pub fn tile(&self, padding: Padding, gaps: u8) -> (requests: Vec<Request>)
        ensures
            requests@ == self@.laid_out(padding, gaps),
    {
        let mut requests: Vec<Request> = match &self.clients {
            Some(clients) => clients.partition(self.area.pad(padding), gaps),
            None => Vec::new(),
        };
        let ghost tiles = requests@;
        let mut i: usize = 0;
        while i < self.floating.len()
            invariant
                i <= self.floating.len(),
                requests@ == tiles + raised(self.floating@.take(i as int)),
            decreases self.floating.len() - i,
        {
            requests.push(Request::MapWindow { window: self.floating[i] });
            requests.push(Request::Raise { window: self.floating[i] });
            assert(requests@ =~= tiles + raised(self.floating@.take(i + 1)));
            i += 1;
        }
        assert(self.floating@.take(i as int) =~= self.floating@);
        requests
    }
}

} // verus!
