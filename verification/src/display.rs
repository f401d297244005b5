//! What the manager asks of the display.

use vstd::prelude::*;

use crate::tree::WindowRef;
use crate::wm::Area;

verus! {

/// One call for the display to carry out.  The manager hands its requests
/// out in the order in which they are to be made.
#[derive(Clone, Copy, Debug, PartialEq, Eq, Structural)]
pub enum Request {
    /// Listen on the window for changes of its children, for requests to
    /// redirect them, for the pointer entering, and for focus changes.
    SelectInput { window: WindowRef },
    /// Paint the window's border in a colour.
    SetBorderPixel { window: WindowRef, pixel: u32 },
    /// Give the window's border a width.
    SetBorderWidth { window: WindowRef, width: u16 },
    /// Move the window to a rectangle and give it the rectangle's size.
    MoveResize { window: WindowRef, area: Area },
    /// Show the window.
    MapWindow { window: WindowRef },
    /// Take the window off the screen.
    UnmapWindow { window: WindowRef },
    /// Put the window above its siblings.
    Raise { window: WindowRef },
    /// Give the window the input focus, which goes back to its parent when
    /// the window goes away.
    SetInputFocus { window: WindowRef },
    /// Move the window from where it is now at `(x, y)` to
    /// `(shifted(x, dx), shifted(y, dy))`.
    Translate { window: WindowRef, dx: i32, dy: i32 },
    /// Cut the window's client off.
    Kill { window: WindowRef },
    /// Ask the window's client to close the window: send the window a
    /// client message of the type `WM_PROTOCOLS` whose first datum is
    /// `WM_DELETE_WINDOW`.
    Close { window: WindowRef },
    /// Announce the number of the desktop that is shown.
    SetCurrentDesktop { desktop: u32 },
    /// Announce how many desktops there are.
    SetNumberOfDesktops { count: u32 },
    /// Announce the origin of every screen, as the manager's `viewport`
    /// gives them.
    SetDesktopViewport,
}

/// Where the pointer is, in screen coordinates.
#[derive(Clone, Copy, Debug, PartialEq, Eq, Structural)]
pub struct Pointer {
    pub x: u16,
    pub y: u16,
}

/// The name for what the standard library reads out of a text as a
/// hexadecimal number of 32 bits: the number, or nothing where it reads
/// none.
pub uninterp spec fn hex_value(text: Seq<char>) -> Option<u32>;

/// Reads a colour written as a hexadecimal number.  This is
/// `u32::from_str_radix` with radix 16, its error dropped; the contract
/// gives the result its name and claims nothing else of it.
#[verifier::external_body]
pub(crate) fn parse_hex(text: &str) -> (value: Option<u32>)
    ensures
        value == hex_value(text@),
{
    match u32::from_str_radix(text, 16) {
        Ok(value) => Some(value),
        Err(_) => None,
    }
}

/// The coordinate `delta` pixels away from `position`, not below zero, cut
/// down to its low 16 bits.
pub open spec fn spec_shifted(position: u16, delta: i32) -> u16 {
    if position + delta < 0 {
        0u16
    } else {
        ((position + delta) % 0x1_0000) as u16
    }
}

/// Where a coordinate ends up after a move by `delta` pixels.
pub fn shifted(position: u16, delta: i32) -> (moved: u16)
    ensures
        moved == spec_shifted(position, delta),
{
    let target: i64 = position as i64 + delta as i64;
    if target < 0 {
        0
    } else {
        (target % 0x1_0000) as u16
    }
}

} // verus!
