//! Everything a user can tune.

use vstd::prelude::*;

use crate::ipc::Direction;

verus! {

/// How a new window is grafted onto the layout: on which side of the window
/// it joins, and which percentage of the shared area goes to the first of the
/// two.
#[derive(Clone, Copy, Debug, PartialEq, Eq, Structural)]
pub struct Insert {
    pub dir: Direction,
    pub ratio: i8,
}

impl Default for Insert {
    fn default() -> (insert: Insert)
        ensures
            insert == Insert::standard(),
    {
        Insert { dir: Direction::East, ratio: 50 }
    }
}

impl Insert {
    /// The default: to the east, half of the area each.
    pub open spec fn standard() -> Insert {
        Insert { dir: Direction::East, ratio: 50 }
    }

    pub fn new(dir: Direction, ratio: i8) -> (insert: Insert)
        ensures
            insert == (Insert { dir, ratio }),
    {
        Insert { dir, ratio }
    }
}

/// Whether the pointer and the input focus pull each other along.
#[derive(Clone, Copy, Debug, PartialEq, Eq, Structural)]
pub struct PointerFocus {
    pub focus_follows: bool,
    pub pointer_follows: bool,
}

/// The desktops of every screen: their names, and whether each screen counts
/// its own desktops (pinned) or all screens share one numbering.
#[derive(Clone, Debug, PartialEq, Eq)]
pub struct Desktops {
    pub names: Vec<String>,
    pub pinned: bool,
}

/// Settings for tiled windows: the gap left free on each side of a tile.
#[derive(Clone, Copy, Debug, PartialEq, Eq, Structural)]
pub struct Window {
    pub gaps: u8,
}

/// Border colours, as RGB values, and the border's width.
#[derive(Clone, Copy, Debug, PartialEq, Eq, Structural)]
pub struct Border {
    pub normal: u32,
    pub focused: u32,
    pub width: u16,
}

/// The margin kept free on each side of a screen.
#[derive(Clone, Copy, Debug, PartialEq, Eq, Structural)]
pub struct Padding {
    pub top: u16,
    pub bottom: u16,
    pub left: u16,
    pub right: u16,
}

/// All settings of the manager.
#[derive(Clone, Debug, PartialEq, Eq)]
pub struct Configuration {
    pub insert: Insert,
    pub pf: PointerFocus,
    pub desktops: Desktops,
    pub window: Window,
    pub border: Border,
    pub padding: Padding,
}

/// A configuration as a plain value: desktop names as sequences of characters.
pub struct ConfigurationView {
    pub insert: Insert,
    pub pf: PointerFocus,
    pub names: Seq<Seq<char>>,
    pub pinned: bool,
    pub window: Window,
    pub border: Border,
    pub padding: Padding,
}

impl ConfigurationView {
    /// The settings a manager starts with.
    pub open spec fn initial() -> ConfigurationView {
        ConfigurationView {
            insert: Insert::standard(),
            pf: PointerFocus { focus_follows: false, pointer_follows: false },
            names: Seq::empty(),
            pinned: false,
            window: Window { gaps: 0 },
            border: Border { normal: 0x0000_00ff, focused: 0xffff_ffff, width: 1 },
            padding: Padding { top: 0, bottom: 0, left: 0, right: 0 },
        }
    }
}

impl View for Configuration {
    type V = ConfigurationView;

    open spec fn view(&self) -> ConfigurationView {
        ConfigurationView {
            insert: self.insert,
            pf: self.pf,
            names: self.desktops.names.deep_view(),
            pinned: self.desktops.pinned,
            window: self.window,
            border: self.border,
            padding: self.padding,
        }
    }
}

impl Configuration {
    /// The settings a manager starts with.
    pub fn new() -> (config: Configuration)
        ensures
            config@ == ConfigurationView::initial(),
    {
        let config = Configuration {
            insert: Insert::default(),
            pf: PointerFocus { focus_follows: false, pointer_follows: false },
            desktops: Desktops { names: Vec::new(), pinned: false },
            window: Window { gaps: 0 },
            border: Border { normal: 0x0000_00ff, focused: 0xffff_ffff, width: 1 },
            padding: Padding { top: 0, bottom: 0, left: 0, right: 0 },
        };
        assert(config.desktops.names.deep_view() =~= Seq::<Seq<char>>::empty());
        config
    }
}

} // verus!
