//! Rectangles in screen coordinates.

use vstd::prelude::*;

use crate::config::{Insert, Padding};
use crate::ipc::Direction;
use crate::split::{lemma_share_bounded, share, spec_share};

verus! {

/// A rectangle of pixels: its upper left corner, its width and its height.
#[derive(Clone, Copy, Debug, PartialEq, Eq, Structural)]
pub struct Area {
    pub x: u16,
    pub y: u16,
    pub width: u16,
    pub height: u16,
}

impl Area {
    /// Whether a point lies strictly inside the left and upper edge and before
    /// the right and lower edge.
    pub open spec fn spec_contains(self, x: u16, y: u16) -> bool {
        &&& self.x < x < self.x + self.width
        &&& self.y < y < self.y + self.height
    }

    /// Whether the pixel at `(x, y)` belongs to the rectangle.
    pub open spec fn covers(self, x: int, y: int) -> bool {
        &&& self.x <= x < self.x + self.width
        &&& self.y <= y < self.y + self.height
    }

    /// Whether the right and the lower edge still lie on the 16-bit grid.
    pub open spec fn on_grid(self) -> bool {
        &&& self.x + self.width <= u16::MAX
        &&& self.y + self.height <= u16::MAX
    }

    /// The rectangle with `gaps` pixels taken off on every side.  Coordinates
    /// wrap around at 16 bits.
    pub open spec fn shrunk(self, gaps: u8) -> Area {
        Area {
            x: self.x.wrapping_add(gaps as u16),
            y: self.y.wrapping_add(gaps as u16),
            width: self.width.wrapping_sub((2 * gaps) as u16),
            height: self.height.wrapping_sub((2 * gaps) as u16),
        }
    }

    /// The rectangle with a margin taken off on each side.  Coordinates wrap
    /// around at 16 bits.
    pub open spec fn padded(self, padding: Padding) -> Area {
        Area {
            x: self.x.wrapping_add(padding.left),
            y: self.y.wrapping_add(padding.top),
            width: self.width.wrapping_sub(padding.left).wrapping_sub(padding.right),
            height: self.height.wrapping_sub(padding.top).wrapping_sub(padding.bottom),
        }
    }

    /// The part of the rectangle that goes to the first child of a split:
    /// the upper part for a split to the north or south, the left part for
    /// one to the west or east.
    pub open spec fn first_part(self, insert: Insert) -> Area {
        if insert.dir.stacks() {
            Area {
                x: self.x,
                y: self.y,
                width: self.width,
                height: spec_share(self.height as nat, insert.ratio as int) as u16,
            }
        } else {
            Area {
                x: self.x,
                y: self.y,
                width: spec_share(self.width as nat, insert.ratio as int) as u16,
                height: self.height,
            }
        }
    }

    /// The part of the rectangle that goes to the second child of a split:
    /// what the first part leaves.
    pub open spec fn second_part(self, insert: Insert) -> Area {
        if insert.dir.stacks() {
            let taken = spec_share(self.height as nat, insert.ratio as int) as u16;
            Area {
                x: self.x,
                y: self.y.wrapping_add(taken),
                width: self.width,
                height: (self.height - taken) as u16,
            }
        } else {
            let taken = spec_share(self.width as nat, insert.ratio as int) as u16;
            Area {
                x: self.x.wrapping_add(taken),
                y: self.y,
                width: (self.width - taken) as u16,
                height: self.height,
            }
        }
    }

    pub fn new(x: u16, y: u16, width: u16, height: u16) -> (area: Area)
        ensures
            area == (Area { x, y, width, height }),
    {
        Area { x, y, width, height }
    }

    /// Whether a point lies inside the rectangle, its left and upper edge
    /// not counted.
    pub fn contains(&self, x: u16, y: u16) -> (inside: bool)
        ensures
            inside == self.spec_contains(x, y),
    {
        (x > self.x && (x as u32) < self.x as u32 + self.width as u32) && (y > self.y && (y as u32)
            < self.y as u32 + self.height as u32)
    }

    /// Takes `gaps` pixels off on every side.
    pub fn shrink(&self, gaps: u8) -> (area: Area)
        ensures
            area == self.shrunk(gaps),
    {
        Area {
            x: self.x.wrapping_add(gaps as u16),
            y: self.y.wrapping_add(gaps as u16),
            width: self.width.wrapping_sub(gaps as u16 * 2),
            height: self.height.wrapping_sub(gaps as u16 * 2),
        }
    }

    /// Takes a margin off on each side.
    pub fn pad(&self, padding: Padding) -> (area: Area)
        ensures
            area == self.padded(padding),
    {
        Area {
            x: self.x.wrapping_add(padding.left),
            y: self.y.wrapping_add(padding.top),
            width: self.width.wrapping_sub(padding.left).wrapping_sub(padding.right),
            height: self.height.wrapping_sub(padding.top).wrapping_sub(padding.bottom),
        }
    }

    /// Splits the rectangle between the two children of a split.
    pub fn split(&self, insert: Insert) -> (parts: (Area, Area))
        ensures
            parts.0 == self.first_part(insert),
            parts.1 == self.second_part(insert),
    {
        match insert.dir {
            Direction::North | Direction::South => {
                let taken = share(self.height, insert.ratio);
                (
                    Area { x: self.x, y: self.y, width: self.width, height: taken },
                    Area {
                        x: self.x,
                        y: self.y.wrapping_add(taken),
                        width: self.width,
                        height: self.height - taken,
                    },
                )
            },
            Direction::West | Direction::East => {
                let taken = share(self.width, insert.ratio);
                (
                    Area { x: self.x, y: self.y, width: taken, height: self.height },
                    Area {
                        x: self.x.wrapping_add(taken),
                        y: self.y,
                        width: self.width - taken,
                        height: self.height,
                    },
                )
            },
        }
    }

    /// A rectangle on the grid that is at least two gaps wide and high
    /// shrinks without wrapping around: what is left starts one gap in and
    /// is two gaps smaller each way, so it has no negative size and lies
    /// inside the rectangle.
    pub proof fn lemma_shrunk_fits(self, gaps: u8)
        requires
            self.on_grid(),
            self.width >= 2 * gaps,
            self.height >= 2 * gaps,
        ensures
            self.shrunk(gaps).x == self.x + gaps,
            self.shrunk(gaps).y == self.y + gaps,
            self.shrunk(gaps).width == self.width - 2 * gaps,
            self.shrunk(gaps).height == self.height - 2 * gaps,
            forall|x: int, y: int| #[trigger]
                self.shrunk(gaps).covers(x, y) ==> self.covers(x, y),
    {
    }

    /// The two parts of a split tile the rectangle: every pixel of it lies in
    /// exactly one of them, and both stay on the grid.
    pub proof fn lemma_split_tiles(self, insert: Insert)
        requires
            self.on_grid(),
        ensures
            self.first_part(insert).on_grid(),
            self.second_part(insert).on_grid(),
            forall|x: int, y: int|
                self.covers(x, y) <==> (#[trigger] self.first_part(insert).covers(x, y)
                    || self.second_part(insert).covers(x, y)),
            forall|x: int, y: int|
                !(#[trigger] self.first_part(insert).covers(x, y) && self.second_part(
                    insert,
                ).covers(x, y)),
    {
        lemma_share_bounded(self.height as nat, insert.ratio as int);
        lemma_share_bounded(self.width as nat, insert.ratio as int);
    }
}

} // verus!
