//! The vocabulary of the control protocol: every command a client may send,
//! and the value types the commands are made of.

use vstd::prelude::*;

verus! {

/// The type a window announces for itself through its window-type hint.
#[derive(Clone, Copy, Debug, PartialEq, Eq, Structural)]
pub enum WindowType {
    Desktop,
    Dock,
    Toolbar,
    Menu,
    Utility,
    Splash,
    Dialog,
    Normal,
}

impl WindowType {
    /// Docks, toolbars and menus are left alone by the layout.
    pub open spec fn is_dock(self) -> bool {
        self == WindowType::Dock || self == WindowType::Toolbar || self == WindowType::Menu
    }

    /// Splash screens, utility windows and dialogs float above the tiles.
    pub open spec fn is_float(self) -> bool {
        self == WindowType::Splash || self == WindowType::Utility || self == WindowType::Dialog
    }
}

/// How a window is managed.
#[derive(Clone, Copy, Debug, PartialEq, Eq, Structural)]
pub enum State {
    Float,
    Dock,
    Tiled,
}

impl State {
    /// The state that a list of window types calls for: `Dock` as soon as one
    /// of them is dock-like, else `Float` as soon as one of them is
    /// float-like, else `Tiled`.
    pub open spec fn of_types(types: Seq<WindowType>) -> State {
        if exists|i: int| 0 <= i < types.len() && (#[trigger] types[i]).is_dock() {
            State::Dock
        } else if exists|i: int| 0 <= i < types.len() && (#[trigger] types[i]).is_float() {
            State::Float
        } else {
            State::Tiled
        }
    }

    /// What `toggle` turns a state into.
    pub open spec fn toggled(self) -> State {
        match self {
            State::Float => State::Tiled,
            State::Tiled => State::Float,
            State::Dock => State::Dock,
        }
    }

    /// Derives the state of a window from the types it announces.
    pub fn from(types: &[WindowType]) -> (state: State)
        ensures
            state == State::of_types(types@),
    {
        let mut dock = false;
        let mut float = false;
        let mut i: usize = 0;
        while i < types.len()
            invariant
                i <= types.len(),
                dock == exists|j: int| 0 <= j < i && (#[trigger] types@[j]).is_dock(),
                float == exists|j: int| 0 <= j < i && (#[trigger] types@[j]).is_float(),
            decreases types.len() - i,
        {
            match types[i] {
                WindowType::Dock | WindowType::Toolbar | WindowType::Menu => {
                    dock = true;
                },
                WindowType::Splash | WindowType::Utility | WindowType::Dialog => {
                    float = true;
                },
                _ => {},
            }
            i += 1;
        }
        if dock {
            State::Dock
        } else if float {
            State::Float
        } else {
            State::Tiled
        }
    }

    /// Swaps floating and tiled; a dock stays a dock.
    pub fn toggle(self) -> (state: State)
        ensures
            state == self.toggled(),
    {
        match self {
            State::Float => State::Tiled,
            State::Tiled => State::Float,
            State::Dock => State::Dock,
        }
    }
}

/// The side on which a new window is put next to an existing one.  North and
/// South stack the two windows, West and East put them side by side.
#[derive(Clone, Copy, Debug, PartialEq, Eq, Structural)]
pub enum Direction {
    North,
    South,
    West,
    East,
}

impl Direction {
    /// North and South stack the two parts of an area, one above the
    /// other; West and East put them side by side.
    pub open spec fn stacks(self) -> bool {
        self == Direction::North || self == Direction::South
    }

    /// West and North put the new window first.
    pub open spec fn puts_first(self) -> bool {
        self == Direction::West || self == Direction::North
    }
}

/// A change of a split ratio.
#[derive(Clone, Copy, Debug, PartialEq, Eq, Structural)]
pub enum Change {
    Add { value: i8 },
    Sub { value: i8 },
    SetTo { value: i8 },
}

impl Change {
    /// The ratio that results from a change, before any clamping.
    pub open spec fn target(self, ratio: int) -> int {
        match self {
            Change::Add { value } => ratio + value,
            Change::Sub { value } => ratio - value,
            Change::SetTo { value } => value as int,
        }
    }

    /// The ratio that results from a change: the target, held within 10 and 90.
    pub open spec fn applied(self, ratio: i8) -> i8 {
        let target = self.target(ratio as int);
        if target < 10 {
            10i8
        } else if target > 90 {
            90i8
        } else {
            target as i8
        }
    }

    /// Applies the change to a ratio and clamps the result to `10..=90`.
    pub fn apply(self, ratio: i8) -> (r: i8)
        ensures
            r == self.applied(ratio),
            10 <= r <= 90,
    {
        let target: i16 = match self {
            Change::Add { value } => ratio as i16 + value as i16,
            Change::Sub { value } => ratio as i16 - value as i16,
            Change::SetTo { value } => value as i16,
        };
        if target < 10 {
            10
        } else if target > 90 {
            90
        } else {
            target as i8
        }
    }
}

/// Commands that act on the focused window or on the defaults for new ones.
#[derive(Clone, Debug)]
pub enum NodeCommand {
    Insert { dir: Direction, ratio: Option<i8>, toggle: bool },
    State { state: State, toggle: bool },
    Desktop { desktop: usize },
    Move { dx: i32, dy: i32 },
    Ratio { change: Change },
    Reverse,
    Close,
    Kill,
}

/// Commands that act on desktops.
#[derive(Clone, Debug)]
pub enum DesktopCommand {
    Focus { desktop: usize },
}

/// Commands that change the configuration.
#[derive(Clone, Debug)]
pub enum ConfigCommand {
    Desktops { names: Vec<String>, pinned: bool },
    Window { gaps: u8 },
    Border { normal: String, focused: String, width: u16 },
    Padding { top: u16, bottom: u16, left: u16, right: u16 },
    PointerFollowsFocus,
    FocusFollowsPointer,
}

/// One step of a path through the layout tree.
#[derive(Clone, Copy, Debug, PartialEq, Eq, Structural)]
pub enum Jump {
    First,
    Second,
    Brother,
    Parent,
}

/// Names a node by a property.
#[derive(Clone, Copy, Debug, PartialEq, Eq, Structural)]
pub enum Descriptor {
    Any,
    FirstAncestor,
    Last,
    Newest,
    Older,
    Newer,
    Focused,
    Biggest,
    Smallest,
}

/// Narrows down the nodes a descriptor may name.
#[derive(Clone, Copy, Debug, PartialEq, Eq, Structural)]
pub enum Modifier {
    Focused,
    Active,
    Local,
    Leaf,
    Tiled,
    Floating,
    Fullscreen,
    DescententOf,
    AncestorOf,
}

/// Says which node a node command is meant for.  The manager accepts every
/// selector and always acts on the focused window.
#[derive(Clone, Debug)]
pub struct Selector {
    pub descriptor: Descriptor,
    pub modifier: Modifier,
    pub path: Vec<Jump>,
}

/// A command as it travels from a client to the manager.
#[derive(Clone, Debug)]
pub enum Command {
    Node { node: NodeCommand, selector: Selector },
    Desktop(DesktopCommand),
    Config(ConfigCommand),
    Exit,
}

/// The one message of the control protocol: a command.
#[derive(Debug)]
pub struct Arguments {
    pub command: Command,
}

} // verus!
