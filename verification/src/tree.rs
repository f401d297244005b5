//! The layout tree: a binary tree whose leaves are the tiled windows of a
//! desktop and whose inner nodes say how an area is split between their two
//! children.

use vstd::prelude::*;

use crate::config::Insert;
use crate::display::Request;
use crate::ipc::{Change, Direction};
use crate::wm::Area;

verus! {

/// A handle on a client window: the window's resource id.  Two handles are
/// equal when their ids are.
#[derive(Clone, Copy, Debug, PartialEq, Eq, Structural)]
pub struct WindowRef {
    pub id: u32,
}

impl WindowRef {
    pub fn new(id: u32) -> (window: WindowRef)
        ensures
            window.id == id,
    {
        WindowRef { id }
    }

    pub fn id(&self) -> (id: u32)
        ensures
            id == self.id,
    {
        self.id
    }
}

/// Where a new window joins the tree: next to a given window, or next to
/// the first leaf.
#[derive(Clone, Copy, Debug, PartialEq, Eq, Structural)]
pub enum Point {
    Window(WindowRef),
    Any,
}

impl Point {
    /// Whether a leaf holding `window` is one the point asks for.
    pub open spec fn accepts(self, window: WindowRef) -> bool {
        match self {
            Point::Window(wanted) => wanted == window,
            Point::Any => true,
        }
    }
}

/// A node of the layout tree.
#[derive(Debug, PartialEq, Eq)]
pub enum Node {
    Leaf { window: WindowRef },
    Internal { left: Box<Node>, right: Box<Node>, insert: Insert },
}

impl Clone for Node {
    fn clone(&self) -> (copy: Self)
        ensures
            copy == *self,
        decreases self,
    {
        match self {
            Node::Leaf { window } => Node::Leaf { window: *window },
            Node::Internal { left, right, insert } => Node::Internal {
                left: Box::new((&**left).clone()),
                right: Box::new((&**right).clone()),
                insert: *insert,
            },
        }
    }
}

impl Node {
    /// The windows of the tree, from left to right.
    pub open spec fn leaves(self) -> Seq<WindowRef>
        decreases self,
    {
        match self {
            Node::Leaf { window } => seq![window],
            Node::Internal { left, right, .. } => left.leaves() + right.leaves(),
        }
    }

    /// Whether no window occurs twice in the tree.
    pub open spec fn distinct(self) -> bool {
        self.leaves().no_duplicates()
    }

    /// Whether the node is the leaf of the window with the id `needle`.
    pub open spec fn is_leaf_of(self, needle: u32) -> bool {
        self matches Node::Leaf { window } && window.id == needle
    }

    /// The window of the first leaf, from left to right, that `point`
    /// accepts.
    pub open spec fn spec_find(self, point: Point) -> Option<WindowRef>
        decreases self,
    {
        match self {
            Node::Leaf { window } => if point.accepts(window) {
                Some(window)
            } else {
                None
            },
            Node::Internal { left, right, .. } => match left.spec_find(point) {
                Some(window) => Some(window),
                None => right.spec_find(point),
            },
        }
    }

    /// The tree with the leaf that `spec_find` returns replaced by `graft`;
    /// the tree itself where there is no such leaf.
    pub open spec fn grafted(self, point: Point, graft: Node) -> Node
        decreases self,
    {
        match self {
            Node::Leaf { window } => if point.accepts(window) {
                graft
            } else {
                self
            },
            Node::Internal { left, right, insert } => if left.spec_find(point) is Some {
                Node::Internal { left: Box::new(left.grafted(point, graft)), right, insert }
            } else {
                Node::Internal { left, right: Box::new(right.grafted(point, graft)), insert }
            },
        }
    }

    /// The split that takes the place of the leaf of `target` when `window`
    /// joins it: to the east or south the new window comes second, to the
    /// west or north it comes first.
    pub open spec fn joined(target: WindowRef, window: WindowRef, insert: Insert) -> Node {
        if insert.dir.puts_first() {
            Node::Internal {
                left: Box::new(Node::Leaf { window }),
                right: Box::new(Node::Leaf { window: target }),
                insert,
            }
        } else {
            Node::Internal {
                left: Box::new(Node::Leaf { window: target }),
                right: Box::new(Node::Leaf { window }),
                insert,
            }
        }
    }

    /// The tree after `window` has joined it at `point`.
    pub open spec fn inserted(self, window: WindowRef, insert: Insert, point: Point) -> Node {
        match self.spec_find(point) {
            Some(target) => self.grafted(point, Node::joined(target, window, insert)),
            None => self,
        }
    }

    /// The tree after the window with the id `needle` has left it.  A split
    /// that loses a child gives way to the other child.  A tree that is the
    /// window's leaf stays as it is: there is no tree without a window.
    pub open spec fn removed(self, needle: u32) -> Node
        decreases self,
    {
        match self {
            Node::Leaf { .. } => self,
            Node::Internal { left, right, insert } => if left.is_leaf_of(needle) {
                *right
            } else if right.is_leaf_of(needle) {
                left.removed(needle)
            } else {
                Node::Internal {
                    left: Box::new(left.removed(needle)),
                    right: Box::new(right.removed(needle)),
                    insert,
                }
            },
        }
    }

    /// The mirror image of the tree: the children of every split change
    /// places, while every split keeps its direction and ratio.
    pub open spec fn reversed(self) -> Node
        decreases self,
    {
        match self {
            Node::Leaf { .. } => self,
            Node::Internal { left, right, insert } => Node::Internal {
                left: Box::new(right.reversed()),
                right: Box::new(left.reversed()),
                insert,
            },
        }
    }

    /// The rectangle of every window, from left to right, when the tree is
    /// laid out on `area` with `gaps` pixels left free around each window.
    pub open spec fn tiles(self, area: Area, gaps: u8) -> Seq<(WindowRef, Area)>
        decreases self,
    {
        match self {
            Node::Leaf { window } => seq![(window, area.shrunk(gaps))],
            Node::Internal { left, right, insert } => left.tiles(area.first_part(insert), gaps)
                + right.tiles(area.second_part(insert), gaps),
        }
    }

    /// The requests that put windows into their rectangles: for each window
    /// in turn, one that moves and resizes it and one that shows it.
    pub open spec fn placed(tiles: Seq<(WindowRef, Area)>) -> Seq<Request> {
        Seq::new(
            2 * tiles.len(),
            |i: int|
                if i % 2 == 0 {
                    Request::MoveResize { window: tiles[i / 2].0, area: tiles[i / 2].1 }
                } else {
                    Request::MapWindow { window: tiles[i / 2].0 }
                },
        )
    }

    /// Whether one of the rectangles holds the pixel at `(x, y)`.
    pub open spec fn tiled_at(tiles: Seq<(WindowRef, Area)>, x: int, y: int) -> bool {
        exists|i: int| 0 <= i < tiles.len() && (#[trigger] tiles[i]).1.covers(x, y)
    }

    /// Whether no pixel lies in two of the rectangles.
    pub open spec fn disjoint(tiles: Seq<(WindowRef, Area)>) -> bool {
        forall|i: int, j: int, x: int, y: int|
            0 <= i < j < tiles.len() ==> !(#[trigger] tiles[i].1.covers(x, y)
                && #[trigger] tiles[j].1.covers(x, y))
    }

    /// Holds of every tree.  It marks the trees that a rewrite passes
    /// through, so that a proof can name them.
    pub open spec fn passed(node: Node) -> bool {
        true
    }

    /// Whether `out` is a tree that `map_internal` may leave behind: every
    /// split with a child that is the leaf of `needle` has given way to what
    /// `f` made of its children and its settings, from the bottom up and
    /// from left to right; everything else is as it was.
    pub open spec fn rewritten<F: Fn(Box<Node>, Box<Node>, Insert) -> Node>(
        self,
        needle: u32,
        f: F,
        out: Node,
    ) -> bool
        decreases self,
    {
        match self {
            Node::Leaf { .. } => out == self,
            Node::Internal { left, right, insert } => if left.is_leaf_of(needle) {
                f.ensures((left, right, insert), out)
            } else {
                exists|l: Node| #[trigger]
                    Node::passed(l) && left.rewritten(needle, f, l) && if right.is_leaf_of(
                        needle,
                    ) {
                        f.ensures((Box::new(l), right, insert), out)
                    } else {
                        exists|r: Node| #[trigger]
                            Node::passed(r) && right.rewritten(needle, f, r) && out
                                == (Node::Internal {
                                left: Box::new(l),
                                right: Box::new(r),
                                insert,
                            })
                    }
            },
        }
    }

    /// The tree in which every split with a child that is the leaf of
    /// `needle` has given way to what `g` makes of its children and its
    /// settings, from the bottom up and from left to right.
    pub open spec fn mapped(self, needle: u32, g: spec_fn(Node, Node, Insert) -> Node) -> Node
        decreases self,
    {
        match self {
            Node::Leaf { .. } => self,
            Node::Internal { left, right, insert } => if left.is_leaf_of(needle) {
                g(*left, *right, insert)
            } else if right.is_leaf_of(needle) {
                g(left.mapped(needle, g), *right, insert)
            } else {
                Node::Internal {
                    left: Box::new(left.mapped(needle, g)),
                    right: Box::new(right.mapped(needle, g)),
                    insert,
                }
            },
        }
    }

    /// Whether `f` may accept every one of the windows.
    pub open spec fn all_pass<E, F: Fn(&WindowRef) -> Result<(), E>>(
        windows: Seq<WindowRef>,
        f: F,
    ) -> bool {
        forall|i: int| 0 <= i < windows.len() ==> f.ensures((&#[trigger] windows[i],), Ok(()))
    }

    /// Whether `f` may accept the windows before the one at `at` and fail on
    /// that one with `error`.
    pub open spec fn fails_at<E, F: Fn(&WindowRef) -> Result<(), E>>(
        windows: Seq<WindowRef>,
        f: F,
        at: int,
        error: E,
    ) -> bool {
        &&& 0 <= at < windows.len()
        &&& f.ensures((&windows[at],), Err(error))
        &&& Node::all_pass(windows.take(at), f)
    }

    /// What a change of ratio makes of a split: the split with the changed
    /// ratio, held within 10 and 90.
    pub open spec fn rescaled(change: Change) -> spec_fn(Node, Node, Insert) -> Node {
        |left: Node, right: Node, insert: Insert|
            Node::Internal {
                left: Box::new(left),
                right: Box::new(right),
                insert: Insert { dir: insert.dir, ratio: change.applied(insert.ratio) },
            }
    }

    /// What mirroring makes of a split: the mirror image of the split.
    pub open spec fn mirrored() -> spec_fn(Node, Node, Insert) -> Node {
        |left: Node, right: Node, insert: Insert|
            Node::Internal {
                left: Box::new(right.reversed()),
                right: Box::new(left.reversed()),
                insert,
            }
    }

    /// Whether the ratio of every split lies within 10 and 90.
    pub open spec fn ratios_within(self) -> bool
        decreases self,
    {
        match self {
            Node::Leaf { .. } => true,
            Node::Internal { left, right, insert } => 10 <= insert.ratio <= 90
                && left.ratios_within() && right.ratios_within(),
        }
    }

    /// The tree after a run of ratio changes, each aimed at the parent of
    /// the window whose id it comes with.
    pub open spec fn after_changes(self, steps: Seq<(u32, Change)>) -> Node
        decreases steps.len(),
    {
        if steps.len() == 0 {
            self
        } else {
            self.after_changes(steps.drop_last()).mapped(
                steps.last().0,
                Node::rescaled(steps.last().1),
            )
        }
    }

    /// A tree of one window.
    pub fn root(window: WindowRef) -> (node: Node)
        ensures
            node == (Node::Leaf { window }),
    {
        Node::Leaf { window }
    }

    pub(crate) fn collect_into(&self, out: &mut Vec<WindowRef>)
        ensures
            final(out)@ == old(out)@ + self.leaves(),
        decreases self,
    {
        match self {
            Node::Leaf { window } => {
                out.push(*window);
                assert(out@ =~= old(out)@ + self.leaves());
            },
            Node::Internal { left, right, .. } => {
                left.collect_into(out);
                right.collect_into(out);
                assert(out@ =~= old(out)@ + self.leaves());
            },
        }
    }

    /// The windows of the tree, from left to right.
    pub fn collect(self) -> (windows: Vec<WindowRef>)
        ensures
            windows@ == self.leaves(),
    {
        let mut windows = Vec::new();
        self.collect_into(&mut windows);
        assert(windows@ =~= self.leaves());
        windows
    }

    /// Whether the tree holds a window.
    pub fn contains(&self, needle: &WindowRef) -> (found: bool)
        ensures
            found == self.leaves().contains(*needle),
        decreases self,
    {
        match self {
            Node::Leaf { window } => {
                assert(self.leaves()[0] == *window);
                *needle == *window
            },
            Node::Internal { left, right, .. } => {
                proof {
                    lemma_concat_contains(left.leaves(), right.leaves(), *needle);
                }
                left.contains(needle) || right.contains(needle)
            },
        }
    }

    /// The first leaf, from left to right, that `point` accepts, to be
    /// written to: what is put in its place takes its place in the tree.
    pub fn find(&mut self, point: &Point) -> (found: Option<&mut Node>)
        ensures
            match old(self).spec_find(*point) {
                Some(window) => found matches Some(leaf) && *leaf == (Node::Leaf { window })
                    && *final(self) == old(self).grafted(*point, *final(leaf)),
                None => found is None && *final(self) == *old(self),
            },
        decreases *old(self),
    {
        match self {
            Node::Leaf { window } => match point {
                Point::Window(wanted) => if *window == *wanted {
                    Some(self)
                } else {
                    None
                },
                Point::Any => Some(self),
            },
            Node::Internal { left, right, .. } => {
                match left.find(point) {
                    Some(leaf) => Some(leaf),
                    None => right.find(point),
                }
            },
        }
    }

    /// Lets `window` join the tree next to the first leaf that `point`
    /// accepts.  Where there is no such leaf, the tree stays as it is.
    pub fn insert(&mut self, window: WindowRef, insert: Insert, point: Point)
        ensures
            *final(self) == old(self).inserted(window, insert, point),
    {
        if let Some(node) = self.find(&point) {
            *node = match insert.dir {
                Direction::East | Direction::South => Node::Internal {
                    left: Box::new(node.clone()),
                    right: Box::new(Node::Leaf { window }),
                    insert,
                },
                Direction::West | Direction::North => Node::Internal {
                    left: Box::new(Node::Leaf { window }),
                    right: Box::new(node.clone()),
                    insert,
                },
            }
        }
    }

    /// Takes the window with the id `needle` out of the tree.  Returns
    /// whether the tree itself is the window's leaf; it then stays as it is,
    /// and it is for the owner to drop it.
    pub fn remove(&mut self, needle: u32) -> (hit: bool)
        ensures
            hit == old(self).is_leaf_of(needle),
            *final(self) == old(self).removed(needle),
        decreases *old(self),
    {
        match self {
            Node::Leaf { window } => window.id == needle,
            Node::Internal { left, right, .. } => {
                if left.remove(needle) {
                    *self = *right.clone();
                } else if right.remove(needle) {
                    *self = *left.clone();
                }
                false
            },
        }
    }

    fn map_with<F>(&mut self, needle: u32, f: &F) -> (hit: bool) where
        F: Fn(Box<Node>, Box<Node>, Insert) -> Node,

        requires
            forall|l: Box<Node>, r: Box<Node>, i: Insert| f.requires((l, r, i)),
        ensures
            hit == old(self).is_leaf_of(needle),
            old(self).rewritten(needle, *f, *final(self)),
        decreases *old(self),
    {
        match self {
            Node::Leaf { window } => window.id == needle,
            Node::Internal { left, right, insert } => {
                if left.map_with(needle, f) {
                    *self = f(left.clone(), right.clone(), *insert);
                } else {
                    assert(Node::passed(**left));
                    if right.map_with(needle, f) {
                        *self = f(left.clone(), right.clone(), *insert);
                    } else {
                        assert(Node::passed(**right));
                    }
                }
                false
            },
        }
    }

    /// Hands every split that has the leaf of the window with the id
    /// `needle` for a child to `f`, with its two children and its settings,
    /// and puts what `f` returns in its place.  Returns whether the tree
    /// itself is the window's leaf.
    pub fn map_internal<F>(&mut self, needle: u32, f: F) -> (hit: bool) where
        F: Fn(Box<Node>, Box<Node>, Insert) -> Node,

        requires
            forall|l: Box<Node>, r: Box<Node>, i: Insert| f.requires((l, r, i)),
        ensures
            hit == old(self).is_leaf_of(needle),
            old(self).rewritten(needle, f, *final(self)),
    {
        self.map_with(needle, &f)
    }

    fn visit<E, F>(&self, f: &F) -> (outcome: Result<(), E>) where
        F: Fn(&WindowRef) -> Result<(), E>,

        requires
            forall|i: int|
                0 <= i < self.leaves().len() ==> f.requires((&#[trigger] self.leaves()[i],)),
        ensures
            match outcome {
                Ok(_) => Node::all_pass(self.leaves(), *f),
                Err(error) => exists|at: int| Node::fails_at(self.leaves(), *f, at, error),
            },
        decreases self,
    {
        match self {
            Node::Leaf { window } => {
                assert(self.leaves()[0] == *window);
                let outcome = f(window);
                proof {
                    if outcome is Err {
                        assert(self.leaves().take(0) =~= Seq::empty());
                        assert(Node::fails_at(self.leaves(), *f, 0, outcome->Err_0));
                    } else {
                        assert(outcome->Ok_0 == ());
                    }
                }
                outcome
            },
            Node::Internal { left, right, .. } => {
                let ghost first = left.leaves();
                let ghost second = right.leaves();
                assert forall|i: int| 0 <= i < first.len() implies f.requires(
                    (&#[trigger] first[i],),
                ) by {
                    assert(self.leaves()[i] == first[i]);
                }
                assert forall|i: int| 0 <= i < second.len() implies f.requires(
                    (&#[trigger] second[i],),
                ) by {
                    assert(self.leaves()[first.len() + i] == second[i]);
                }
                match left.visit(f) {
                    Err(error) => {
                        proof {
                            let at = choose|at: int| Node::fails_at(first, *f, at, error);
                            assert(self.leaves().take(at) =~= first.take(at));
                            assert(self.leaves()[at] == first[at]);
                            assert(Node::fails_at(self.leaves(), *f, at, error));
                        }
                        Err(error)
                    },
                    Ok(_) => {
                        let outcome = right.visit(f);
                        proof {
                            if outcome is Ok {
                                assert forall|i: int| 0 <= i < self.leaves().len() implies f.ensures(
                                    (&#[trigger] self.leaves()[i],),
                                    Ok(()),
                                ) by {
                                    if i < first.len() {
                                        assert(self.leaves()[i] == first[i]);
                                    } else {
                                        assert(self.leaves()[i] == second[i - first.len()]);
                                    }
                                }
                            } else {
                                let error = outcome->Err_0;
                                let at = choose|at: int| Node::fails_at(second, *f, at, error);
                                let whole = first.len() + at;
                                assert forall|i: int| 0 <= i < whole implies f.ensures(
                                    (&#[trigger] self.leaves().take(whole)[i],),
                                    Ok(()),
                                ) by {
                                    if i < first.len() {
                                        assert(self.leaves().take(whole)[i] == first[i]);
                                    } else {
                                        assert(self.leaves().take(whole)[i] == second.take(at)[i
                                            - first.len()]);
                                    }
                                }
                                assert(self.leaves()[whole] == second[at]);
                                assert(Node::fails_at(self.leaves(), *f, whole, error));
                            }
                        }
                        outcome
                    },
                }
            },
        }
    }

    /// Calls `f` on every window, from left to right, until `f` fails.
    /// Returns the failure, if there is one.
    pub fn traverse<E, F>(&self, f: F) -> (outcome: Result<(), E>) where
        F: Fn(&WindowRef) -> Result<(), E>,

        requires
            forall|i: int|
                0 <= i < self.leaves().len() ==> f.requires((&#[trigger] self.leaves()[i],)),
        ensures
            match outcome {
                Ok(_) => Node::all_pass(self.leaves(), f),
                Err(error) => exists|at: int| Node::fails_at(self.leaves(), f, at, error),
            },
    {
        self.visit(&f)
    }

    /// Puts two children together to a split whose ratio is the one of
    /// `insert` after `change`.
    pub fn rescale(left: Box<Node>, right: Box<Node>, insert: Insert, change: Change) -> (node:
        Node)
        ensures
            node == Node::rescaled(change)(*left, *right, insert),
    {
        Node::Internal {
            left,
            right,
            insert: Insert { dir: insert.dir, ratio: change.apply(insert.ratio) },
        }
    }

    /// Puts two children together to the mirror image of their split.
    pub fn mirror(left: Box<Node>, right: Box<Node>, insert: Insert) -> (node: Node)
        ensures
            node == Node::mirrored()(*left, *right, insert),
            node == (Node::Internal { left, right, insert }).reversed(),
    {
        let mut left = left;
        let mut right = right;
        right.reverse();
        left.reverse();
        Node::Internal { left: right, right: left, insert }
    }

    /// Mirrors the tree.
    pub fn reverse(&mut self)
        ensures
            *final(self) == old(self).reversed(),
        decreases *old(self),
    {
        match self {
            Node::Leaf { .. } => {},
            Node::Internal { left, right, .. } => {
                std::mem::swap(left, right);
                left.reverse();
                right.reverse();
            },
        }
    }
}

impl Node {
    fn partition_into(&self, area: Area, gaps: u8, out: &mut Vec<Request>)
        ensures
            final(out)@ == old(out)@ + Node::placed(self.tiles(area, gaps)),
        decreases self,
    {
        match self {
            Node::Leaf { window } => {
                let target = area.shrink(gaps);
                out.push(Request::MoveResize { window: *window, area: target });
                out.push(Request::MapWindow { window: *window });
                assert(out@ =~= old(out)@ + Node::placed(self.tiles(area, gaps)));
            },
            Node::Internal { left, right, insert } => {
                let (first, second) = area.split(*insert);
                left.partition_into(first, gaps, out);
                right.partition_into(second, gaps, out);
                proof {
                    lemma_placed_concat(left.tiles(first, gaps), right.tiles(second, gaps));
                    assert(out@ =~= old(out)@ + Node::placed(self.tiles(area, gaps)));
                }
            },
        }
    }

    /// Lays the tree out on `area`: every split hands its first child the
    /// share of the area that its ratio gives, and its second child the
    /// rest; every window gets its rectangle less `gaps` pixels on each
    /// side.  Returns the requests that put the windows there.
    pub fn partition(&self, area: Area, gaps: u8) -> (requests: Vec<Request>)
        ensures
            requests@ == Node::placed(self.tiles(area, gaps)),
    {
        let mut requests = Vec::new();
        self.partition_into(area, gaps, &mut requests);
        assert(requests@ =~= Node::placed(self.tiles(area, gaps)));
        requests
    }

    /// The first leaf from the left is the one that `Point::Any` finds.
    pub proof fn lemma_find_any_leftmost(self)
        ensures
            self.leaves().len() > 0,
            self.spec_find(Point::Any) == Some(self.leaves()[0]),
        decreases self,
    {
        match self {
            Node::Leaf { .. } => {},
            Node::Internal { left, right, .. } => {
                left.lemma_find_any_leftmost();
                right.lemma_find_any_leftmost();
            },
        }
    }

    /// A window is found exactly when the tree holds it.
    pub proof fn lemma_find_window(self, window: WindowRef)
        ensures
            self.spec_find(Point::Window(window)) == if self.leaves().contains(window) {
                Some(window)
            } else {
                None
            },
        decreases self,
    {
        match self {
            Node::Leaf { window: own } => {
                assert(self.leaves()[0] == own);
            },
            Node::Internal { left, right, .. } => {
                left.lemma_find_window(window);
                right.lemma_find_window(window);
                lemma_concat_contains(left.leaves(), right.leaves(), window);
            },
        }
    }

    /// Grafting replaces one occurrence of the window found by the leaves of
    /// the graft.
    pub proof fn lemma_grafted_leaves(self, point: Point, graft: Node)
        requires
            self.spec_find(point) is Some,
        ensures
            self.leaves().contains(self.spec_find(point).unwrap()),
            self.grafted(point, graft).leaves().to_multiset() == self.leaves().to_multiset().remove(
                self.spec_find(point).unwrap(),
            ).add(graft.leaves().to_multiset()),
        decreases self,
    {
        broadcast use vstd::seq_lib::group_to_multiset_ensures;

        let target = self.spec_find(point).unwrap();
        match self {
            Node::Leaf { window } => {
                assert(self.leaves()[0] == window);
                assert(self.leaves() =~= Seq::empty().push(window));
                assert(self.leaves().to_multiset().remove(target).add(
                    graft.leaves().to_multiset(),
                ) =~= graft.leaves().to_multiset());
            },
            Node::Internal { left, right, insert } => {
                vstd::seq_lib::lemma_multiset_commutative(left.leaves(), right.leaves());
                lemma_concat_contains(left.leaves(), right.leaves(), target);
                if left.spec_find(point) is Some {
                    left.lemma_grafted_leaves(point, graft);
                    vstd::seq_lib::lemma_multiset_commutative(
                        left.grafted(point, graft).leaves(),
                        right.leaves(),
                    );
                    assert(self.grafted(point, graft).leaves().to_multiset()
                        =~= self.leaves().to_multiset().remove(target).add(
                        graft.leaves().to_multiset(),
                    ));
                } else {
                    right.lemma_grafted_leaves(point, graft);
                    vstd::seq_lib::lemma_multiset_commutative(
                        left.leaves(),
                        right.grafted(point, graft).leaves(),
                    );
                    assert(self.grafted(point, graft).leaves().to_multiset()
                        =~= self.leaves().to_multiset().remove(target).add(
                        graft.leaves().to_multiset(),
                    ));
                }
            },
        }
    }

    /// A window that joins a tree at a point the tree has a leaf for is
    /// added to the windows of the tree, and nothing else changes in them.
    pub proof fn lemma_inserted_leaves(self, window: WindowRef, insert: Insert, point: Point)
        requires
            self.spec_find(point) is Some,
        ensures
            self.inserted(window, insert, point).leaves().to_multiset()
                == self.leaves().to_multiset().insert(window),
    {
        broadcast use vstd::seq_lib::group_to_multiset_ensures;

        let target = self.spec_find(point).unwrap();
        let graft = Node::joined(target, window, insert);
        self.lemma_grafted_leaves(point, graft);
        let pair = graft.leaves();
        assert((Node::Leaf { window }).leaves() =~= seq![window]);
        assert((Node::Leaf { window: target }).leaves() =~= seq![target]);
        assert(pair.to_multiset() =~= vstd::multiset::Multiset::empty().insert(target).insert(
            window,
        )) by {
            if insert.dir.puts_first() {
                assert(pair =~= Seq::empty().push(window).push(target));
            } else {
                assert(pair =~= Seq::empty().push(target).push(window));
            }
        }
        assert(self.leaves().to_multiset().count(target) > 0);
        assert(self.leaves().to_multiset().remove(target).add(pair.to_multiset())
            =~= self.leaves().to_multiset().insert(window));
    }

    /// A tree that holds no window twice still holds none twice after a
    /// window it did not hold has joined it.
    pub proof fn lemma_inserted_distinct(self, window: WindowRef, insert: Insert, point: Point)
        requires
            self.distinct(),
            !self.leaves().contains(window),
        ensures
            self.inserted(window, insert, point).distinct(),
    {
        broadcast use vstd::seq_lib::group_to_multiset_ensures;

        if self.spec_find(point) is Some {
            let after = self.inserted(window, insert, point).leaves();
            self.lemma_inserted_leaves(window, insert, point);
            self.leaves().lemma_multiset_has_no_duplicates();
            assert(self.leaves().to_multiset().count(window) == 0);
            assert forall|x: WindowRef| after.to_multiset().contains(x) implies after.to_multiset().count(
                x,
            ) == 1 by {
                if x != window {
                    assert(self.leaves().to_multiset().contains(x));
                }
            }
            after.lemma_multiset_has_no_duplicates_conv();
        }
    }

    /// After a window has joined a tree next to a window of the tree, or
    /// next to the first leaf, the tree holds it.
    pub proof fn lemma_insert_contains(self, window: WindowRef, insert: Insert, point: Point)
        requires
            point matches Point::Window(target) ==> self.leaves().contains(target),
        ensures
            self.inserted(window, insert, point).leaves().contains(window),
    {
        broadcast use vstd::seq_lib::group_to_multiset_ensures;

        match point {
            Point::Window(target) => self.lemma_find_window(target),
            Point::Any => self.lemma_find_any_leftmost(),
        }
        self.lemma_inserted_leaves(window, insert, point);
        assert(self.inserted(window, insert, point).leaves().to_multiset().count(window) > 0);
    }

    /// Taking a window out of a tree that does not hold it changes nothing.
    pub proof fn lemma_removed_absent(self, window: WindowRef)
        requires
            !self.leaves().contains(window),
        ensures
            !self.is_leaf_of(window.id),
            self.removed(window.id) == self,
        decreases self,
    {
        match self {
            Node::Leaf { window: own } => {
                assert(self.leaves()[0] == own);
            },
            Node::Internal { left, right, .. } => {
                lemma_concat_contains(left.leaves(), right.leaves(), window);
                left.lemma_removed_absent(window);
                right.lemma_removed_absent(window);
            },
        }
    }

    /// Taking a window out again right after it has joined a tree that did
    /// not hold it gives the tree back as it was, every split with its
    /// direction and ratio.
    pub proof fn lemma_insert_remove(self, window: WindowRef, insert: Insert, point: Point)
        requires
            !self.leaves().contains(window),
        ensures
            !self.inserted(window, insert, point).is_leaf_of(window.id),
            self.inserted(window, insert, point).removed(window.id) == self,
        decreases self,
    {
        self.lemma_removed_absent(window);
        if let Some(target) = self.spec_find(point) {
            let graft = Node::joined(target, window, insert);
            match self {
                Node::Leaf { window: own } => {
                    assert(self.leaves()[0] == own);
                },
                Node::Internal { left, right, insert: own } => {
                    lemma_concat_contains(left.leaves(), right.leaves(), window);
                    left.lemma_removed_absent(window);
                    right.lemma_removed_absent(window);
                    if left.spec_find(point) is Some {
                        left.lemma_insert_remove(window, insert, point);
                        assert(left.inserted(window, insert, point) == left.grafted(point, graft));
                    } else {
                        right.lemma_insert_remove(window, insert, point);
                        assert(right.inserted(window, insert, point) == right.grafted(
                            point,
                            graft,
                        ));
                    }
                },
            }
        }
    }

    /// A split whose first child is the leaf of a window gives way to its
    /// second child when the window leaves; one whose second child is the
    /// leaf gives way to its first child, as long as no window occurs twice.
    pub proof fn lemma_remove_collapses(self, window: WindowRef)
        requires
            self is Internal,
            self.distinct(),
        ensures
            self->left == (Node::Leaf { window }) ==> self.removed(window.id) == *self->right,
            self->right == (Node::Leaf { window }) ==> self.removed(window.id) == *self->left,
    {
        let left = *self->left;
        let right = *self->right;
        if right == (Node::Leaf { window }) {
            assert(right.leaves()[0] == window);
            if left.leaves().contains(window) {
                let i = choose|i: int| 0 <= i < left.leaves().len() && left.leaves()[i] == window;
                assert(self.leaves()[i] == window);
                assert(self.leaves()[left.leaves().len() as int] == window);
            }
            left.lemma_removed_absent(window);
        }
    }

    /// A layout has one rectangle for each window, in the order of the
    /// leaves.
    pub proof fn lemma_tiles_follow_leaves(self, area: Area, gaps: u8)
        ensures
            self.tiles(area, gaps).len() == self.leaves().len(),
            forall|i: int|
                0 <= i < self.leaves().len() ==> (#[trigger] self.tiles(area, gaps)[i]).0
                    == self.leaves()[i],
        decreases self,
    {
        match self {
            Node::Leaf { .. } => {},
            Node::Internal { left, right, insert } => {
                left.lemma_tiles_follow_leaves(area.first_part(insert), gaps);
                right.lemma_tiles_follow_leaves(area.second_part(insert), gaps);
            },
        }
    }

    /// Laid out without gaps on an area that lies on the grid, the windows'
    /// rectangles tile the area: there is one for each window, in the order
    /// of the leaves, each lies on the grid, every pixel of the area lies in
    /// one of them and no pixel outside does, and no two of them share a
    /// pixel.
    pub proof fn lemma_partition_conserves(self, area: Area)
        requires
            area.on_grid(),
        ensures
            self.tiles(area, 0).len() == self.leaves().len(),
            forall|i: int|
                0 <= i < self.leaves().len() ==> (#[trigger] self.tiles(area, 0)[i]).0
                    == self.leaves()[i] && self.tiles(area, 0)[i].1.on_grid(),
            forall|x: int, y: int|
                area.covers(x, y) <==> #[trigger] Node::tiled_at(self.tiles(area, 0), x, y),
            Node::disjoint(self.tiles(area, 0)),
        decreases self,
    {
        let tiles = self.tiles(area, 0);
        match self {
            Node::Leaf { window } => {
                assert(area.shrunk(0) == area);
                assert(tiles[0] == (window, area));
                assert forall|x: int, y: int| area.covers(x, y) <==> #[trigger] Node::tiled_at(
                    tiles,
                    x,
                    y,
                ) by {
                    if area.covers(x, y) {
                        assert(tiles[0].1.covers(x, y));
                    }
                }
            },
            Node::Internal { left, right, insert } => {
                let first = area.first_part(insert);
                let second = area.second_part(insert);
                let lt = left.tiles(first, 0);
                let rt = right.tiles(second, 0);
                area.lemma_split_tiles(insert);
                left.lemma_partition_conserves(first);
                right.lemma_partition_conserves(second);
                assert forall|x: int, y: int| area.covers(x, y) <==> #[trigger] Node::tiled_at(
                    tiles,
                    x,
                    y,
                ) by {
                    lemma_tiled_at_concat(lt, rt, x, y);
                    assert(first.covers(x, y) <==> Node::tiled_at(lt, x, y));
                    assert(second.covers(x, y) <==> Node::tiled_at(rt, x, y));
                }
                assert forall|i: int, j: int, x: int, y: int| 0 <= i < j < tiles.len() implies !(
                #[trigger] tiles[i].1.covers(x, y) && #[trigger] tiles[j].1.covers(x, y)) by {
                    if tiles[i].1.covers(x, y) && tiles[j].1.covers(x, y) {
                        if j < lt.len() {
                            assert(lt[i].1.covers(x, y) && lt[j].1.covers(x, y));
                        } else if i >= lt.len() {
                            assert(rt[i - lt.len()].1.covers(x, y) && rt[j - lt.len()].1.covers(
                                x,
                                y,
                            ));
                        } else {
                            assert(lt[i].1.covers(x, y));
                            assert(rt[j - lt.len()].1.covers(x, y));
                            assert(Node::tiled_at(lt, x, y));
                            assert(Node::tiled_at(rt, x, y));
                            assert(first.covers(x, y) && second.covers(x, y));
                        }
                    }
                }
            },
        }
    }

    /// Where `f` always returns what `g` says, `map_internal` leaves the
    /// tree that `mapped` describes.
    pub proof fn lemma_rewritten_mapped<F: Fn(Box<Node>, Box<Node>, Insert) -> Node>(
        self,
        needle: u32,
        f: F,
        g: spec_fn(Node, Node, Insert) -> Node,
        out: Node,
    )
        requires
            self.rewritten(needle, f, out),
            forall|l: Box<Node>, r: Box<Node>, i: Insert, o: Node| #[trigger]
                f.ensures((l, r, i), o) ==> o == g(*l, *r, i),
        ensures
            out == self.mapped(needle, g),
        decreases self,
    {
        match self {
            Node::Leaf { .. } => {},
            Node::Internal { left, right, insert } => {
                if !left.is_leaf_of(needle) {
                    let l = choose|l: Node| #[trigger]
                        Node::passed(l) && left.rewritten(needle, f, l) && if right.is_leaf_of(
                            needle,
                        ) {
                            f.ensures((Box::new(l), right, insert), out)
                        } else {
                            exists|r: Node| #[trigger]
                                Node::passed(r) && right.rewritten(needle, f, r) && out
                                    == (Node::Internal {
                                    left: Box::new(l),
                                    right: Box::new(r),
                                    insert,
                                })
                        };
                    left.lemma_rewritten_mapped(needle, f, g, l);
                    if !right.is_leaf_of(needle) {
                        let r = choose|r: Node| #[trigger]
                            Node::passed(r) && right.rewritten(needle, f, r) && out
                                == (Node::Internal {
                                left: Box::new(l),
                                right: Box::new(r),
                                insert,
                            });
                        right.lemma_rewritten_mapped(needle, f, g, r);
                    }
                }
            },
        }
    }

    /// A change of ratio keeps every ratio within 10 and 90 that was there,
    /// and brings the ratio of the split it is aimed at there.
    pub proof fn lemma_rescaled_within(self, needle: u32, change: Change)
        ensures
            self.ratios_within() ==> self.mapped(needle, Node::rescaled(change)).ratios_within(),
            self matches Node::Internal { left, right, .. } && (left.is_leaf_of(needle)
                || right.is_leaf_of(needle)) ==> self.mapped(needle, Node::rescaled(change))
                is Internal && 10 <= self.mapped(
                needle,
                Node::rescaled(change),
            )->insert.ratio <= 90,
        decreases self,
    {
        match self {
            Node::Leaf { .. } => {},
            Node::Internal { left, right, .. } => {
                left.lemma_rescaled_within(needle, change);
                right.lemma_rescaled_within(needle, change);
            },
        }
    }

    /// After any run of ratio changes, every ratio of a tree whose ratios
    /// lay within 10 and 90 still does.
    pub proof fn lemma_ratio_clamped(self, steps: Seq<(u32, Change)>)
        requires
            self.ratios_within(),
        ensures
            self.after_changes(steps).ratios_within(),
        decreases steps.len(),
    {
        if steps.len() > 0 {
            self.lemma_ratio_clamped(steps.drop_last());
            self.after_changes(steps.drop_last()).lemma_rescaled_within(
                steps.last().0,
                steps.last().1,
            );
        }
    }

    /// A window that joins a tree drives no window out of it.
    pub proof fn lemma_inserted_keeps(
        self,
        window: WindowRef,
        insert: Insert,
        point: Point,
        other: WindowRef,
    )
        requires
            self.leaves().contains(other),
        ensures
            self.inserted(window, insert, point).leaves().contains(other),
    {
        broadcast use vstd::seq_lib::group_to_multiset_ensures;

        if self.spec_find(point) is Some {
            self.lemma_inserted_leaves(window, insert, point);
            assert(self.leaves().to_multiset().count(other) > 0);
            assert(self.inserted(window, insert, point).leaves().to_multiset().count(other) > 0);
        }
    }

    /// A window that leaves a tree takes no window of another id with it.
    pub proof fn lemma_removed_keeps(self, needle: u32, other: WindowRef)
        requires
            self.leaves().contains(other),
            other.id != needle,
        ensures
            self.removed(needle).leaves().contains(other),
        decreases self,
    {
        match self {
            Node::Leaf { .. } => {},
            Node::Internal { left, right, .. } => {
                lemma_concat_contains(left.leaves(), right.leaves(), other);
                if left.is_leaf_of(needle) {
                    assert(left.leaves() =~= seq![WindowRef { id: needle }]);
                    if left.leaves().contains(other) {
                        let i = choose|i: int|
                            0 <= i < left.leaves().len() && left.leaves()[i] == other;
                        assert(left.leaves()[i] == WindowRef { id: needle });
                    }
                } else if right.is_leaf_of(needle) {
                    assert(right.leaves() =~= seq![WindowRef { id: needle }]);
                    if right.leaves().contains(other) {
                        let i = choose|i: int|
                            0 <= i < right.leaves().len() && right.leaves()[i] == other;
                        assert(right.leaves()[i] == WindowRef { id: needle });
                    }
                    left.lemma_removed_keeps(needle, other);
                } else {
                    if left.leaves().contains(other) {
                        left.lemma_removed_keeps(needle, other);
                    } else {
                        right.lemma_removed_keeps(needle, other);
                    }
                    lemma_concat_contains(
                        left.removed(needle).leaves(),
                        right.removed(needle).leaves(),
                        other,
                    );
                }
            },
        }
    }

    /// Whether what `g` makes of two children holds `window` whenever one
    /// of the children does.
    pub open spec fn keeps(g: spec_fn(Node, Node, Insert) -> Node, window: WindowRef) -> bool {
        forall|left: Node, right: Node, insert: Insert|
            left.leaves().contains(window) || right.leaves().contains(window) ==> (#[trigger] g(
                left,
                right,
                insert,
            )).leaves().contains(window)
    }

    /// A rewrite that keeps a window in every split it rewrites keeps it in
    /// the tree.
    pub proof fn lemma_mapped_keeps(
        self,
        needle: u32,
        g: spec_fn(Node, Node, Insert) -> Node,
        other: WindowRef,
    )
        requires
            self.leaves().contains(other),
            Node::keeps(g, other),
        ensures
            self.mapped(needle, g).leaves().contains(other),
        decreases self,
    {
        match self {
            Node::Leaf { .. } => {},
            Node::Internal { left, right, insert } => {
                lemma_concat_contains(left.leaves(), right.leaves(), other);
                if left.leaves().contains(other) {
                    left.lemma_mapped_keeps(needle, g, other);
                } else {
                    right.lemma_mapped_keeps(needle, g, other);
                }
                lemma_concat_contains(
                    left.mapped(needle, g).leaves(),
                    right.mapped(needle, g).leaves(),
                    other,
                );
            },
        }
    }

    /// A change of ratio keeps every window.
    pub proof fn lemma_rescaled_keeps(change: Change, other: WindowRef)
        ensures
            Node::keeps(Node::rescaled(change), other),
    {
        assert forall|left: Node, right: Node, insert: Insert|
            left.leaves().contains(other) || right.leaves().contains(
                other,
            ) implies (#[trigger] Node::rescaled(change)(left, right, insert)).leaves().contains(
            other,
        ) by {
            lemma_concat_contains(left.leaves(), right.leaves(), other);
        }
    }

    /// The mirroring of a split keeps every window.
    pub proof fn lemma_mirrored_keeps(other: WindowRef)
        ensures
            Node::keeps(Node::mirrored(), other),
    {
        assert forall|left: Node, right: Node, insert: Insert|
            left.leaves().contains(other) || right.leaves().contains(
                other,
            ) implies (#[trigger] Node::mirrored()(left, right, insert)).leaves().contains(
            other,
        ) by {
            left.lemma_reversed_leaves();
            right.lemma_reversed_leaves();
            lemma_reverse_contains(left.leaves(), other);
            lemma_reverse_contains(right.leaves(), other);
            lemma_concat_contains(right.reversed().leaves(), left.reversed().leaves(), other);
        }
    }

    /// The mirror image holds the windows of the tree from right to left.
    pub proof fn lemma_reversed_leaves(self)
        ensures
            self.reversed().leaves() == self.leaves().reverse(),
        decreases self,
    {
        match self {
            Node::Leaf { window } => {
                assert(self.leaves().reverse() =~= self.leaves());
            },
            Node::Internal { left, right, .. } => {
                left.lemma_reversed_leaves();
                right.lemma_reversed_leaves();
                left.lemma_find_any_leftmost();
                right.lemma_find_any_leftmost();
                assert(self.reversed().leaves() =~= self.leaves().reverse());
            },
        }
    }

    /// In a tree that holds no window twice, taking a window out removes
    /// its leaf and nothing else: the windows that are left are the others,
    /// in their order, and still none occurs twice.  (A tree that is the
    /// window's leaf stays as it is.)
    pub proof fn lemma_removed_leaves(self, needle: u32)
        requires
            self.distinct(),
            !self.is_leaf_of(needle),
        ensures
            self.removed(needle).leaves() == self.leaves().filter(
                |window: WindowRef| window.id != needle,
            ),
            !self.removed(needle).leaves().contains(WindowRef { id: needle }),
            self.removed(needle).distinct(),
        decreases self,
    {
        let keep = |window: WindowRef| window.id != needle;
        let gone = WindowRef { id: needle };
        match self {
            Node::Leaf { window } => {
                assert(self.leaves()[0] == window);
                lemma_filter_all(self.leaves(), keep);
            },
            Node::Internal { left, right, .. } => {
                let l = left.leaves();
                let r = right.leaves();
                Seq::filter_distributes_over_add(l, r, keep);
                assert(l.no_duplicates() && r.no_duplicates() && forall|i: int, j: int|
                    0 <= i < l.len() && 0 <= j < r.len() ==> l[i] != r[j]) by {
                    assert forall|i: int, j: int| 0 <= i < j < l.len() implies l[i] != l[j] by {
                        assert(self.leaves()[i] == l[i] && self.leaves()[j] == l[j]);
                    }
                    assert forall|i: int, j: int| 0 <= i < j < r.len() implies r[i] != r[j] by {
                        assert(self.leaves()[l.len() + i] == r[i]);
                        assert(self.leaves()[l.len() + j] == r[j]);
                    }
                    assert forall|i: int, j: int|
                        0 <= i < l.len() && 0 <= j < r.len() implies l[i] != r[j] by {
                        assert(self.leaves()[i] == l[i]);
                        assert(self.leaves()[l.len() + j] == r[j]);
                    }
                }
                if left.is_leaf_of(needle) {
                    assert(l =~= seq![gone]);
                    assert(l[0] == gone);
                    lemma_filter_none(l, keep);
                    assert(!r.contains(gone));
                    lemma_filter_all(r, keep);
                    assert(Seq::<WindowRef>::empty() + r =~= r);
                } else if right.is_leaf_of(needle) {
                    assert(r =~= seq![gone]);
                    assert(r[0] == gone);
                    lemma_filter_none(r, keep);
                    assert(!l.contains(gone));
                    lemma_filter_all(l, keep);
                    left.lemma_removed_absent(gone);
                    assert(l + Seq::<WindowRef>::empty() =~= l);
                } else {
                    left.lemma_removed_leaves(needle);
                    right.lemma_removed_leaves(needle);
                    let lf = l.filter(keep);
                    let rf = r.filter(keep);
                    lemma_concat_contains(lf, rf, gone);
                    assert forall|i: int, j: int|
                        0 <= i < lf.len() && 0 <= j < rf.len() implies lf[i] != rf[j] by {
                        l.lemma_filter_contains_rev(keep, lf[i]);
                        r.lemma_filter_contains_rev(keep, rf[j]);
                    }
                    vstd::seq_lib::lemma_no_dup_in_concat(lf, rf);
                }
            },
        }
    }

    /// Mirroring a tree twice gives the tree back.
    pub proof fn lemma_reverse_involution(self)
        ensures
            self.reversed().reversed() == self,
        decreases self,
    {
        match self {
            Node::Leaf { .. } => {},
            Node::Internal { left, right, .. } => {
                left.lemma_reverse_involution();
                right.lemma_reverse_involution();
            },
        }
    }
}

/// A sequence read backwards holds what it holds read forwards.
pub proof fn lemma_reverse_contains<T>(s: Seq<T>, value: T)
    ensures
        s.reverse().contains(value) <==> s.contains(value),
{
    if s.contains(value) {
        let i = choose|i: int| 0 <= i < s.len() && s[i] == value;
        assert(s.reverse()[s.len() - 1 - i] == value);
    }
    if s.reverse().contains(value) {
        let i = choose|i: int| 0 <= i < s.reverse().len() && s.reverse()[i] == value;
        assert(s[s.len() - 1 - i] == value);
    }
}

/// Filtering keeps a sequence whose elements all pass as it is.
pub proof fn lemma_filter_all<T>(s: Seq<T>, keep: spec_fn(T) -> bool)
    requires
        forall|i: int| 0 <= i < s.len() ==> keep(#[trigger] s[i]),
    ensures
        s.filter(keep) == s,
    decreases s.len(),
{
    reveal(Seq::filter);
    if s.len() > 0 {
        lemma_filter_all(s.drop_last(), keep);
        assert(s.drop_last().push(s.last()) =~= s);
    }
}

/// Filtering leaves nothing of a sequence of which no element passes.
pub proof fn lemma_filter_none<T>(s: Seq<T>, keep: spec_fn(T) -> bool)
    requires
        forall|i: int| 0 <= i < s.len() ==> !keep(#[trigger] s[i]),
    ensures
        s.filter(keep) == Seq::<T>::empty(),
    decreases s.len(),
{
    reveal(Seq::filter);
    if s.len() > 0 {
        lemma_filter_none(s.drop_last(), keep);
    }
}

/// A pixel lies in one of two runs of rectangles put together when it lies
/// in one of either run.
pub proof fn lemma_tiled_at_concat(
    a: Seq<(WindowRef, Area)>,
    b: Seq<(WindowRef, Area)>,
    x: int,
    y: int,
)
    ensures
        Node::tiled_at(a + b, x, y) <==> Node::tiled_at(a, x, y) || Node::tiled_at(b, x, y),
{
    if Node::tiled_at(a, x, y) {
        let i = choose|i: int| 0 <= i < a.len() && (#[trigger] a[i]).1.covers(x, y);
        assert((a + b)[i].1.covers(x, y));
    }
    if Node::tiled_at(b, x, y) {
        let i = choose|i: int| 0 <= i < b.len() && (#[trigger] b[i]).1.covers(x, y);
        assert((a + b)[a.len() + i].1.covers(x, y));
    }
    if Node::tiled_at(a + b, x, y) {
        let i = choose|i: int| 0 <= i < (a + b).len() && (#[trigger] (a + b)[i]).1.covers(x, y);
        if i < a.len() {
            assert(a[i].1.covers(x, y));
        } else {
            assert(b[i - a.len()].1.covers(x, y));
        }
    }
}

/// Placing two runs of rectangles one after the other places them all.
pub proof fn lemma_placed_concat(a: Seq<(WindowRef, Area)>, b: Seq<(WindowRef, Area)>)
    ensures
        Node::placed(a + b) == Node::placed(a) + Node::placed(b),
{
    assert(Node::placed(a + b) =~= Node::placed(a) + Node::placed(b));
}

/// A value occurs in two sequences put together when it occurs in one of
/// them.
pub proof fn lemma_concat_contains<T>(a: Seq<T>, b: Seq<T>, value: T)
    ensures
        (a + b).contains(value) <==> a.contains(value) || b.contains(value),
{
    if a.contains(value) {
        let i = choose|i: int| 0 <= i < a.len() && a[i] == value;
        assert((a + b)[i] == value);
    }
    if b.contains(value) {
        let i = choose|i: int| 0 <= i < b.len() && b[i] == value;
        assert((a + b)[a.len() + i] == value);
    }
    if (a + b).contains(value) {
        let i = choose|i: int| 0 <= i < (a + b).len() && (a + b)[i] == value;
        if i < a.len() {
            assert(a[i] == value);
        } else {
            assert(b[i - a.len()] == value);
        }
    }
}

} // verus!
