//! A screen: its desktops, of which one is shown.

use vstd::prelude::*;

use crate::config::{Insert, Padding};
use crate::display::Request;
use crate::ipc::State;
use crate::tree::{lemma_concat_contains, Node, Point, WindowRef};
use crate::wm::area::Area;
use crate::wm::desktop::{Desktop, DesktopView};

verus! {

/// A physical screen with its desktops.  `current` is the index of the
/// desktop that is shown; it may point past the last desktop, and then none
/// is shown.
#[derive(Debug, PartialEq, Eq)]
pub struct Screen {
    pub desktops: Vec<Desktop>,
    pub current: usize,
    pub area: Area,
}

/// A screen as a plain value.
pub struct ScreenView {
    pub desktops: Seq<DesktopView>,
    pub current: usize,
    pub area: Area,
}

impl View for Screen {
    type V = ScreenView;

    open spec fn view(&self) -> ScreenView {
        ScreenView {
            desktops: self.desktops@.map_values(|desktop: Desktop| desktop@),
            current: self.current,
            area: self.area,
        }
    }
}

/// The windows of a run of desktops: desktop by desktop, the tiled windows
/// from left to right and then the floating ones.
pub open spec fn gathered(desktops: Seq<DesktopView>) -> Seq<WindowRef>
    decreases desktops.len(),
{
    if desktops.len() == 0 {
        Seq::empty()
    } else {
        gathered(desktops.drop_last()) + desktops.last().windows()
    }
}

/// The tiled windows of a run of desktops, desktop by desktop.
pub open spec fn gathered_tiled(desktops: Seq<DesktopView>) -> Seq<WindowRef>
    decreases desktops.len(),
{
    if desktops.len() == 0 {
        Seq::empty()
    } else {
        gathered_tiled(desktops.drop_last()) + desktops.last().tiled()
    }
}

/// The requests that take every desktop but the one at `shown` off the
/// screen, desktop by desktop.
pub open spec fn hidden_but(desktops: Seq<DesktopView>, shown: int) -> Seq<Request>
    decreases desktops.len(),
{
    if desktops.len() == 0 {
        Seq::empty()
    } else if desktops.len() - 1 == shown {
        hidden_but(desktops.drop_last(), shown)
    } else {
        hidden_but(desktops.drop_last(), shown) + desktops.last().hidden()
    }
}

impl DesktopView {
    /// The desktop after each of the windows, in their order, has joined it
    /// as a tiled window next to the first leaf, with the default split.
    pub open spec fn absorbed(self, windows: Seq<WindowRef>) -> DesktopView
        decreases windows.len(),
    {
        if windows.len() == 0 {
            self
        } else {
            self.absorbed(windows.drop_last()).inserted(
                windows.last(),
                Insert::standard(),
                Point::Any,
                State::Tiled,
            )
        }
    }
}

impl ScreenView {
    /// A screen without desktops.
    pub open spec fn empty(area: Area) -> ScreenView {
        ScreenView { desktops: Seq::empty(), current: 0, area }
    }

    /// Whether `current` names a desktop.
    pub open spec fn has_current(self) -> bool {
        self.current < self.desktops.len()
    }

    /// Whether one of the desktops holds a window.
    pub open spec fn contains(self, window: WindowRef) -> bool {
        exists|i: int| 0 <= i < self.desktops.len() && (#[trigger] self.desktops[i]).contains(window)
    }

    /// The windows of the desktops from `size` on: those that a screen cut
    /// down to `size` desktops has to rehouse.
    pub open spec fn excess(self, size: int) -> Seq<WindowRef> {
        gathered(self.desktops.skip(size))
    }

    /// The screen with `size` desktops.  A screen that grows gets empty
    /// desktops of its own area at the end.  A screen that shrinks keeps
    /// its first `size` desktops, and the last of them takes in the windows
    /// of the desktops that go, as tiled windows.
    pub open spec fn resized(self, size: int) -> ScreenView {
        if size >= self.desktops.len() {
            ScreenView {
                desktops: self.desktops + Seq::new(
                    (size - self.desktops.len()) as nat,
                    |i: int| DesktopView::empty(self.area),
                ),
                ..self
            }
        } else if size >= 1 {
            ScreenView {
                desktops: self.desktops.take(size).update(
                    size - 1,
                    self.desktops[size - 1].absorbed(self.excess(size)),
                ),
                ..self
            }
        } else {
            ScreenView { desktops: Seq::empty(), ..self }
        }
    }

    /// The screen after a window has joined the desktop that is shown; the
    /// screen itself where none is shown.
    pub open spec fn inserted(
        self,
        window: WindowRef,
        insert: Insert,
        point: Point,
        state: State,
    ) -> ScreenView {
        if self.has_current() {
            ScreenView {
                desktops: self.desktops.update(
                    self.current as int,
                    self.desktops[self.current as int].inserted(window, insert, point, state),
                ),
                ..self
            }
        } else {
            self
        }
    }

    /// The screen after the window with the id `wid` has left the desktop
    /// that is shown; the screen itself where none is shown.
    pub open spec fn removed(self, wid: u32) -> ScreenView {
        if self.has_current() {
            ScreenView {
                desktops: self.desktops.update(
                    self.current as int,
                    self.desktops[self.current as int].removed(wid),
                ),
                ..self
            }
        } else {
            self
        }
    }

    /// The state that `remove` reports for the window with the id `wid`.
    pub open spec fn state_of(self, wid: u32) -> State {
        if self.has_current() {
            self.desktops[self.current as int].state_of(wid)
        } else {
            State::Tiled
        }
    }

    /// Whether `out` is a screen that `map_internal` may leave behind: the
    /// desktop that is shown is rewritten, the rest is as it was.
    pub open spec fn rewritten<F: Fn(Box<Node>, Box<Node>, Insert) -> Node>(
        self,
        wid: u32,
        f: F,
        out: ScreenView,
    ) -> bool {
        if self.has_current() {
            &&& out.current == self.current
            &&& out.area == self.area
            &&& out.desktops.len() == self.desktops.len()
            &&& self.desktops[self.current as int].rewritten(
                wid,
                f,
                out.desktops[self.current as int],
            )
            &&& out.desktops == self.desktops.update(
                self.current as int,
                out.desktops[self.current as int],
            )
        } else {
            out == self
        }
    }

    /// The screen with the tree of the desktop that is shown rewritten by
    /// `g`.
    pub open spec fn mapped(self, wid: u32, g: spec_fn(Node, Node, Insert) -> Node) -> ScreenView {
        if self.has_current() {
            ScreenView {
                desktops: self.desktops.update(
                    self.current as int,
                    self.desktops[self.current as int].mapped(wid, g),
                ),
                ..self
            }
        } else {
            self
        }
    }

    /// The requests that put the screen in order: the desktop that is shown
    /// is laid out, then every other desktop is taken off the screen.
    pub open spec fn laid_out(self, padding: Padding, gaps: u8) -> Seq<Request> {
        (if self.has_current() {
            self.desktops[self.current as int].laid_out(padding, gaps)
        } else {
            Seq::empty()
        }) + hidden_but(self.desktops, self.current as int)
    }
}

/// The windows of two runs of desktops put together are those of the first
/// run followed by those of the second.
pub proof fn lemma_gathered_concat(a: Seq<DesktopView>, b: Seq<DesktopView>)
    ensures
        gathered(a + b) == gathered(a) + gathered(b),
        gathered_tiled(a + b) == gathered_tiled(a) + gathered_tiled(b),
    decreases b.len(),
{
    if b.len() == 0 {
        assert(a + b =~= a);
        assert(gathered(a) + gathered(b) =~= gathered(a));
        assert(gathered_tiled(a) + gathered_tiled(b) =~= gathered_tiled(a));
    } else {
        lemma_gathered_concat(a, b.drop_last());
        assert((a + b).drop_last() =~= a + b.drop_last());
        assert((a + b).last() == b.last());
        assert(gathered(a + b) =~= gathered(a) + gathered(b));
        assert(gathered_tiled(a + b) =~= gathered_tiled(a) + gathered_tiled(b));
    }
}

/// Desktops without floating windows hold tiled windows only.
pub proof fn lemma_gathered_all_tiled(desktops: Seq<DesktopView>)
    requires
        forall|i: int| 0 <= i < desktops.len() ==> (#[trigger] desktops[i]).floating.len() == 0,
    ensures
        gathered(desktops) == gathered_tiled(desktops),
    decreases desktops.len(),
{
    if desktops.len() > 0 {
        lemma_gathered_all_tiled(desktops.drop_last());
        assert(desktops.last().floating =~= Seq::empty());
        assert(desktops.last().windows() =~= desktops.last().tiled());
    }
}

impl DesktopView {
    /// A desktop that takes windows in keeps its floating windows and its
    /// area, and its tiled windows are those it had and those it took in.
    pub proof fn lemma_absorbed(self, windows: Seq<WindowRef>)
        ensures
            self.absorbed(windows).floating == self.floating,
            self.absorbed(windows).area == self.area,
            self.absorbed(windows).tiled().to_multiset() == self.tiled().to_multiset().add(
                windows.to_multiset(),
            ),
        decreases windows.len(),
    {
        broadcast use vstd::seq_lib::group_to_multiset_ensures;

        if windows.len() == 0 {
            assert(windows.to_multiset() =~= vstd::multiset::Multiset::empty());
            assert(self.tiled().to_multiset().add(windows.to_multiset())
                =~= self.tiled().to_multiset());
        } else {
            let rest = windows.drop_last();
            let window = windows.last();
            let before = self.absorbed(rest);
            self.lemma_absorbed(rest);
            assert(windows =~= rest.push(window));
            match before.clients {
                Some(tree) => {
                    tree.lemma_find_any_leftmost();
                    tree.lemma_inserted_leaves(window, Insert::standard(), Point::Any);
                },
                None => {
                    assert(before.tiled().to_multiset() =~= vstd::multiset::Multiset::empty());
                    assert((Node::Leaf { window }).leaves() =~= Seq::empty().push(window));
                },
            }
            assert(self.absorbed(windows).tiled().to_multiset() =~= self.tiled().to_multiset().add(
                windows.to_multiset(),
            ));
        }
    }
}

impl ScreenView {
    /// Giving a screen another number of desktops, one at least, loses no
    /// window and brings none: the desktops together hold the windows they
    /// held, each as often as before.  Where the desktops that go hold no
    /// floating windows, the same is true of the tiled windows alone.  The
    /// desktops before the last one that stays do not change.
    pub proof fn lemma_resize_conserves(self, size: int)
        requires
            size >= 1,
        ensures
            gathered(self.resized(size).desktops).to_multiset() == gathered(
                self.desktops,
            ).to_multiset(),
            (forall|i: int|
                size <= i < self.desktops.len() ==> (#[trigger] self.desktops[i]).floating.len()
                    == 0) ==> gathered_tiled(self.resized(size).desktops).to_multiset()
                == gathered_tiled(self.desktops).to_multiset(),
            forall|i: int|
                0 <= i < size - 1 && i < self.desktops.len() ==> #[trigger] self.resized(
                    size,
                ).desktops[i] == self.desktops[i],
    {
        broadcast use vstd::seq_lib::group_to_multiset_ensures;

        let after = self.resized(size).desktops;
        if size >= self.desktops.len() {
            let fresh = Seq::new(
                (size - self.desktops.len()) as nat,
                |i: int| DesktopView::empty(self.area),
            );
            lemma_gathered_concat(self.desktops, fresh);
            lemma_gathered_empty(fresh);
            assert(gathered(after) =~= gathered(self.desktops));
            assert(gathered_tiled(after) =~= gathered_tiled(self.desktops));
        } else {
            let head = self.desktops.take(size - 1);
            let last = self.desktops[size - 1];
            let tail = self.desktops.skip(size);
            let excess = self.excess(size);
            let merged = last.absorbed(excess);
            last.lemma_absorbed(excess);
            assert(self.desktops =~= head.push(last) + tail);
            assert(after =~= head.push(merged));
            lemma_gathered_concat(head.push(last), tail);
            assert(head.push(last).drop_last() =~= head);
            assert(head.push(merged).drop_last() =~= head);
            vstd::seq_lib::lemma_multiset_commutative(gathered(head.push(last)), gathered(tail));
            vstd::seq_lib::lemma_multiset_commutative(gathered(head), last.windows());
            vstd::seq_lib::lemma_multiset_commutative(gathered(head), merged.windows());
            vstd::seq_lib::lemma_multiset_commutative(last.tiled(), last.floating);
            vstd::seq_lib::lemma_multiset_commutative(merged.tiled(), merged.floating);
            assert(gathered(after).to_multiset() =~= gathered(self.desktops).to_multiset());
            if forall|i: int|
                size <= i < self.desktops.len() ==> (#[trigger] self.desktops[i]).floating.len()
                    == 0 {
                assert forall|i: int| 0 <= i < tail.len() implies (#[trigger] tail[i]).floating.len()
                    == 0 by {
                    assert(tail[i] == self.desktops[size + i]);
                }
                lemma_gathered_all_tiled(tail);
                vstd::seq_lib::lemma_multiset_commutative(
                    gathered_tiled(head.push(last)),
                    gathered_tiled(tail),
                );
                vstd::seq_lib::lemma_multiset_commutative(gathered_tiled(head), last.tiled());
                vstd::seq_lib::lemma_multiset_commutative(gathered_tiled(head), merged.tiled());
                assert(gathered_tiled(after).to_multiset() =~= gathered_tiled(
                    self.desktops,
                ).to_multiset());
            }
        }
    }
}

impl ScreenView {
    /// Where `f` always returns what `g` says, `map_internal` leaves the
    /// screen that `mapped` describes.
    pub proof fn lemma_rewritten_mapped<F: Fn(Box<Node>, Box<Node>, Insert) -> Node>(
        self,
        wid: u32,
        f: F,
        g: spec_fn(Node, Node, Insert) -> Node,
        out: ScreenView,
    )
        requires
            self.rewritten(wid, f, out),
            forall|l: Box<Node>, r: Box<Node>, i: Insert, o: Node| #[trigger]
                f.ensures((l, r, i), o) ==> o == g(*l, *r, i),
        ensures
            out == self.mapped(wid, g),
    {
        if self.has_current() {
            self.desktops[self.current as int].lemma_rewritten_mapped(
                wid,
                f,
                g,
                out.desktops[self.current as int],
            );
        }
    }
}

/// A run of desktops holds at least the windows of each of them.
pub proof fn lemma_gathered_covers(desktops: Seq<DesktopView>, i: int)
    requires
        0 <= i < desktops.len(),
    ensures
        gathered(desktops).len() >= desktops[i].windows().len(),
    decreases desktops.len(),
{
    if i < desktops.len() - 1 {
        lemma_gathered_covers(desktops.drop_last(), i);
    }
}

/// A run of desktops holds a window when one of the desktops does.
pub proof fn lemma_gathered_contains(desktops: Seq<DesktopView>, window: WindowRef)
    ensures
        gathered(desktops).contains(window) <==> exists|i: int|
            0 <= i < desktops.len() && (#[trigger] desktops[i]).contains(window),
    decreases desktops.len(),
{
    if desktops.len() == 0 {
        assert(!Seq::<WindowRef>::empty().contains(window));
    } else {
        let rest = desktops.drop_last();
        let last = desktops.last();
        lemma_gathered_contains(rest, window);
        lemma_concat_contains(gathered(rest), last.windows(), window);
        lemma_concat_contains(last.tiled(), last.floating, window);
        if gathered(desktops).contains(window) {
            if gathered(rest).contains(window) {
                let i = choose|i: int| 0 <= i < rest.len() && (#[trigger] rest[i]).contains(window);
                assert(desktops[i].contains(window));
            } else {
                assert(desktops[desktops.len() - 1].contains(window));
            }
        }
        if exists|i: int| 0 <= i < desktops.len() && (#[trigger] desktops[i]).contains(window) {
            let i = choose|i: int|
                0 <= i < desktops.len() && (#[trigger] desktops[i]).contains(window);
            if i < rest.len() {
                assert(rest[i].contains(window));
            }
        }
    }
}

impl ScreenView {
    /// A window that joins a screen drives no window off it.
    pub proof fn lemma_inserted_keeps(
        self,
        window: WindowRef,
        insert: Insert,
        point: Point,
        state: State,
        other: WindowRef,
    )
        requires
            self.contains(other),
        ensures
            self.inserted(window, insert, point, state).contains(other),
    {
        let i = choose|i: int| 0 <= i < self.desktops.len() && (#[trigger] self.desktops[i]).contains(
            other,
        );
        let after = self.inserted(window, insert, point, state);
        if self.has_current() && i == self.current {
            self.desktops[i].lemma_inserted_keeps(window, insert, point, state, other);
        }
        assert(after.desktops[i].contains(other));
    }

    /// On a screen that shows a desktop, a window that joins it as a
    /// floating window or as a tiled window next to the first leaf is on
    /// the screen.
    pub proof fn lemma_inserted_holds(self, window: WindowRef, insert: Insert, state: State)
        requires
            state != State::Dock,
            self.has_current(),
        ensures
            self.inserted(window, insert, Point::Any, state).contains(window),
    {
        self.desktops[self.current as int].lemma_inserted_holds(window, insert, state);
        assert(self.inserted(window, insert, Point::Any, state).desktops[self.current as int].contains(
            window,
        ));
    }

    /// A window that leaves a screen takes no window of another id with
    /// it.
    pub proof fn lemma_removed_keeps(self, wid: u32, other: WindowRef)
        requires
            self.contains(other),
            other.id != wid,
        ensures
            self.removed(wid).contains(other),
    {
        let i = choose|i: int| 0 <= i < self.desktops.len() && (#[trigger] self.desktops[i]).contains(
            other,
        );
        if self.has_current() && i == self.current {
            self.desktops[i].lemma_removed_keeps(wid, other);
        }
        assert(self.removed(wid).desktops[i].contains(other));
    }

    /// A rewrite that keeps a window in every split it rewrites keeps it on
    /// the screen.
    pub proof fn lemma_mapped_keeps(
        self,
        wid: u32,
        g: spec_fn(Node, Node, Insert) -> Node,
        other: WindowRef,
    )
        requires
            self.contains(other),
            Node::keeps(g, other),
        ensures
            self.mapped(wid, g).contains(other),
    {
        let i = choose|i: int| 0 <= i < self.desktops.len() && (#[trigger] self.desktops[i]).contains(
            other,
        );
        if self.has_current() && i == self.current {
            self.desktops[i].lemma_mapped_keeps(wid, g, other);
        }
        assert(self.mapped(wid, g).desktops[i].contains(other));
    }

    /// A screen that gets another number of desktops, one at least, keeps
    /// every window.
    pub proof fn lemma_resized_keeps(self, size: int, other: WindowRef)
        requires
            size >= 1,
            self.contains(other),
        ensures
            self.resized(size).contains(other),
    {
        broadcast use vstd::seq_lib::group_to_multiset_ensures;

        self.lemma_resize_conserves(size);
        lemma_gathered_contains(self.desktops, other);
        lemma_gathered_contains(self.resized(size).desktops, other);
        assert(gathered(self.desktops).to_multiset().count(other) > 0);
        assert(gathered(self.resized(size).desktops).to_multiset().count(other) > 0);
    }
}

/// Empty desktops hold no windows.
pub proof fn lemma_gathered_empty(desktops: Seq<DesktopView>)
    requires
        forall|i: int|
            0 <= i < desktops.len() ==> (#[trigger] desktops[i]).clients is None
                && desktops[i].floating.len() == 0,
    ensures
        gathered(desktops) == Seq::<WindowRef>::empty(),
        gathered_tiled(desktops) == Seq::<WindowRef>::empty(),
    decreases desktops.len(),
{
    if desktops.len() > 0 {
        lemma_gathered_empty(desktops.drop_last());
        assert(desktops.last().windows() =~= Seq::empty());
        assert(gathered(desktops) =~= Seq::empty());
        assert(gathered_tiled(desktops) =~= Seq::empty());
    }
}

impl Screen {
    /// A screen without desktops.
    pub fn new(area: Area) -> (screen: Screen)
        ensures
            screen@ == ScreenView::empty(area),
    {
        let screen = Screen { desktops: Vec::new(), current: 0, area };
        assert(screen@.desktops =~= Seq::empty());
        screen
    }

    /// Whether one of the desktops holds a window.
    pub fn contains(&self, window: &WindowRef) -> (found: bool)
        ensures
            found == self@.contains(*window),
    {
        let mut i: usize = 0;
        while i < self.desktops.len()
            invariant
                i <= self.desktops.len(),
                forall|j: int| 0 <= j < i ==> !(#[trigger] self@.desktops[j]).contains(*window),
            decreases self.desktops.len() - i,
        {
            if self.desktops[i].contains(window) {
                assert(self@.desktops[i as int].contains(*window));
                return true;
            }
            i += 1;
        }
        false
    }

    /// Whether no desktop of the screen holds a window.
    pub fn is_vacant(&self) -> (vacant: bool)
        ensures
            vacant == (self@.excess(0).len() == 0),
    {
        let mut i: usize = 0;
        assert(self@.desktops.take(0) =~= Seq::empty());
        while i < self.desktops.len()
            invariant
                i <= self.desktops.len(),
                gathered(self@.desktops.take(i as int)).len() == 0,
            decreases self.desktops.len() - i,
        {
            proof {
                let run = self@.desktops.take(i + 1);
                assert(run.drop_last() =~= self@.desktops.take(i as int));
                assert(run.last() == self@.desktops[i as int]);
                lemma_gathered_covers(self@.desktops, i as int);
                if let Some(tree) = self@.desktops[i as int].clients {
                    tree.lemma_find_any_leftmost();
                }
            }
            if self.desktops[i].clients.is_some() || self.desktops[i].floating.len() > 0 {
                assert(self@.desktops[i as int].windows().len() > 0);
                assert(self@.desktops.skip(0) =~= self@.desktops);
                return false;
            }
            assert(self@.desktops[i as int].windows() =~= Seq::empty());
            i += 1;
        }
        assert(self@.desktops.take(i as int) =~= self@.desktops);
        assert(self@.desktops.skip(0) =~= self@.desktops);
        true
    }

    /// Gives the screen `size` desktops.  A screen that holds windows needs
    /// one desktop at least to keep them on.
    pub fn resize(&mut self, size: usize)
        requires
            size >= 1 || old(self)@.excess(0).len() == 0,
        ensures
            final(self)@ == old(self)@.resized(size as int),
    {
        let count = self.desktops.len();
        if size >= count {
            while self.desktops.len() < size
                invariant
                    count <= self.desktops.len() <= size,
                    count == old(self)@.desktops.len(),
                    self.current == old(self).current,
                    self.area == old(self).area,
                    self@.desktops == old(self)@.desktops + Seq::new(
                        (self.desktops.len() - count) as nat,
                        |i: int| DesktopView::empty(self.area),
                    ),
                decreases size - self.desktops.len(),
            {
                let ghost before = self@.desktops;
                self.desktops.push(Desktop::new(self.area));
                assert(self@.desktops =~= before.push(DesktopView::empty(self.area)));
                assert(self@.desktops =~= old(self)@.desktops + Seq::new(
                    (self.desktops.len() - count) as nat,
                    |i: int| DesktopView::empty(self.area),
                ));
            }
        } else {
            let mut excess: Vec<WindowRef> = Vec::new();
            let mut i: usize = size;
            assert(self@.desktops.subrange(size as int, i as int) =~= Seq::empty());
            while i < count
                invariant
                    size <= i <= count,
                    count == self.desktops.len(),
                    *self == *old(self),
                    excess@ == gathered(self@.desktops.subrange(size as int, i as int)),
                decreases count - i,
            {
                let ghost before = excess@;
                if let Some(clients) = &self.desktops[i].clients {
                    clients.collect_into(&mut excess);
                }
                assert(excess@ =~= before + self@.desktops[i as int].tiled());
                let mut j: usize = 0;
                while j < self.desktops[i].floating.len()
                    invariant
                        i < self.desktops.len(),
                        j <= self.desktops[i as int].floating.len(),
                        excess@ == before + self@.desktops[i as int].tiled()
                            + self@.desktops[i as int].floating.take(j as int),
                    decreases self.desktops[i as int].floating.len() - j,
                {
                    excess.push(self.desktops[i].floating[j]);
                    assert(excess@ =~= before + self@.desktops[i as int].tiled()
                        + self@.desktops[i as int].floating.take(j + 1));
                    j += 1;
                }
                proof {
                    let run = self@.desktops.subrange(size as int, i + 1);
                    assert(run.drop_last() =~= self@.desktops.subrange(size as int, i as int));
                    assert(run.last() == self@.desktops[i as int]);
                    assert(self@.desktops[i as int].floating.take(j as int)
                        =~= self@.desktops[i as int].floating);
                    assert(excess@ =~= gathered(run));
                }
                i += 1;
            }
            assert(self@.desktops.subrange(size as int, count as int) =~= self@.desktops.skip(
                size as int,
            ));
            self.desktops.truncate(size);
            assert(self@.desktops =~= old(self)@.desktops.take(size as int));
            if size >= 1 {
                let mut k: usize = 0;
                assert(excess@.take(0) =~= Seq::empty());
                while k < excess.len()
                    invariant
                        k <= excess.len(),
                        1 <= size == self.desktops.len(),
                        size < old(self).desktops.len(),
                        self.current == old(self).current,
                        self.area == old(self).area,
                        excess@ == old(self)@.excess(size as int),
                        self@.desktops == old(self)@.desktops.take(size as int).update(
                            size - 1,
                            old(self)@.desktops[size - 1].absorbed(excess@.take(k as int)),
                        ),
                    decreases excess.len() - k,
                {
                    let ghost before = self@.desktops;
                    self.desktops[size - 1].insert(
                        excess[k],
                        Insert::default(),
                        Point::Any,
                        State::Tiled,
                    );
                    proof {
                        let run = excess@.take(k + 1);
                        assert(run.drop_last() =~= excess@.take(k as int));
                        assert(run.last() == excess@[k as int]);
                        assert(self@.desktops =~= before.update(
                            size - 1,
                            before[size - 1].inserted(
                                excess@[k as int],
                                Insert::standard(),
                                Point::Any,
                                State::Tiled,
                            ),
                        ));
                    }
                    k += 1;
                }
                assert(excess@.take(k as int) =~= excess@);
            } else {
                assert(self@.desktops =~= Seq::empty());
            }
        }
    }

    /// Lets a window join the desktop that is shown.
    pub fn insert(&mut self, window: WindowRef, insert: Insert, point: Point, state: State)
        ensures
            final(self)@ == old(self)@.inserted(window, insert, point, state),
    {
        if self.current < self.desktops.len() {
            let ghost before = self@.desktops;
            self.desktops[self.current].insert(window, insert, point, state);
            assert(self@.desktops =~= before.update(
                self.current as int,
                before[self.current as int].inserted(window, insert, point, state),
            ));
        }
    }

    /// Takes the window with the id `wid` off the desktop that is shown and
    /// says in which state it was there.  Where no desktop is shown, nothing
    /// changes and the state is `Tiled`.
    pub fn remove(&mut self, wid: u32) -> (state: State)
        ensures
            final(self)@ == old(self)@.removed(wid),
            state == old(self)@.state_of(wid),
    {
        if self.current < self.desktops.len() {
            let ghost before = self@.desktops;
            let state = self.desktops[self.current].remove(wid);
            assert(self@.desktops =~= before.update(
                self.current as int,
                before[self.current as int].removed(wid),
            ));
            state
        } else {
            State::Tiled
        }
    }

    /// Rewrites the tree of the desktop that is shown as `Node::map_internal`
    /// does.
    pub fn map_internal<F>(&mut self, wid: u32, f: F) where
        F: Fn(Box<Node>, Box<Node>, Insert) -> Node,

        requires
            forall|l: Box<Node>, r: Box<Node>, i: Insert| f.requires((l, r, i)),
        ensures
            old(self)@.rewritten(wid, f, final(self)@),
    {
        if self.current < self.desktops.len() {
            let ghost before = self@.desktops;
            self.desktops[self.current].map_internal(wid, f);
            assert(self@.desktops =~= before.update(
                self.current as int,
                self@.desktops[self.current as int],
            ));
        }
    }

    /// The requests that put the screen in order: the desktop that is shown
    /// is laid out, every other desktop is taken off the screen.
    pub fn tile(&self, padding: Padding, gaps: u8) -> (requests: Vec<Request>)
        ensures
            requests@ == self@.laid_out(padding, gaps),
    {
        let mut requests: Vec<Request> = if self.current < self.desktops.len() {
            self.desktops[self.current].tile(padding, gaps)
        } else {
            Vec::new()
        };
        let ghost shown = requests@;
        let mut i: usize = 0;
        assert(self@.desktops.take(0) =~= Seq::empty());
        while i < self.desktops.len()
            invariant
                i <= self.desktops.len(),
                requests@ == shown + hidden_but(
                    self@.desktops.take(i as int),
                    self.current as int,
                ),
            decreases self.desktops.len() - i,
        {
            proof {
                let run = self@.desktops.take(i + 1);
                assert(run.drop_last() =~= self@.desktops.take(i as int));
                assert(run.last() == self@.desktops[i as int]);
            }
            if i != self.current {
                let mut hidden = self.desktops[i].hide_windows();
                requests.append(&mut hidden);
                assert(requests@ =~= shown + hidden_but(
                    self@.desktops.take(i + 1),
                    self.current as int,
                ));
            }
            i += 1;
        }
        assert(self@.desktops.take(i as int) =~= self@.desktops);
        requests
    }
}

} // verus!
