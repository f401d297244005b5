//! The core of a tiling window manager for X11, as a pure state machine.
//!
//! The crate keeps the layout of every desktop as a binary split tree and
//! answers each display event and each control command with the list of
//! requests the display has to carry out.  Nothing in here talks to a
//! display: a caller feeds events in and performs the requests that come
//! back.

pub mod config;
pub mod display;
pub mod event;
pub mod ipc;
pub mod split;
pub mod tree;
pub mod wm;
