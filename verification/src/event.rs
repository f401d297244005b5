//! The messages the manager works through, and the queue they wait in.

use std::collections::VecDeque;
use vstd::prelude::*;

use crate::ipc::{Arguments, WindowType};

verus! {

/// What the display reports.
#[derive(Debug)]
pub enum XEvent {
    /// A client wants its window shown.  `types` are the window types the
    /// window announces.
    MapRequest { window: u32, types: Vec<WindowType> },
    /// A window went off the screen.
    UnmapNotify { window: u32 },
    /// The pointer entered a window.
    EnterNotify { window: u32 },
    /// A window got the input focus.
    FocusIn { window: u32 },
    /// Anything the manager does not react to.
    Other,
}

/// A message to the manager: an event of the display, or a command of a
/// client.
#[derive(Debug)]
pub enum EventType {
    XEvent(XEvent),
    Config(Arguments),
}

/// A queue that hands messages out in the order in which they came in.
pub struct Queue<T> {
    queue: VecDeque<T>,
}

impl<T> View for Queue<T> {
    type V = Seq<T>;

    closed spec fn view(&self) -> Seq<T> {
        self.queue@
    }
}

impl<T> Queue<T> {
    /// An empty queue.
    pub fn new() -> (queue: Queue<T>)
        ensures
            queue@ == Seq::<T>::empty(),
    {
        Queue { queue: VecDeque::new() }
    }

    /// Puts a message at the end of the queue.
    pub fn push(&mut self, value: T)
        ensures
            final(self)@ == old(self)@.push(value),
    {
        self.queue.push_back(value);
    }

    /// Takes the oldest message out of the queue.  Returns `None`, and
    /// leaves the queue as it is, where there is none to take: the caller
    /// then has to wait for the next `push`.
    pub fn wait(&mut self) -> (value: Option<T>)
        ensures
            match value {
                Some(message) => old(self)@.len() > 0 && message == old(self)@[0] && final(self)@
                    == old(self)@.skip(1),
                None => old(self)@.len() == 0 && final(self)@ == old(self)@,
            },
    {
        let value = self.queue.pop_front();
        assert(value is Some ==> self@ =~= old(self)@.skip(1));
        value
    }

    /// What goes in first comes out first: a message pushed onto a queue of
    /// `n` messages comes out after those `n`.
    pub proof fn lemma_first_in_first_out(before: Seq<T>, value: T)
        ensures
            before.push(value).skip(before.len() as int) == seq![value],
            before.len() > 0 ==> before.push(value)[0] == before[0] && before.push(value).skip(1)
                == before.skip(1).push(value),
    {
        assert(before.push(value).skip(before.len() as int) =~= seq![value]);
        if before.len() > 0 {
            assert(before.push(value).skip(1) =~= before.skip(1).push(value));
        }
    }
}

} // verus!
