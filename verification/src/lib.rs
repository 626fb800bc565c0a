//! Decision core of a minimalist tiling window manager.
//!
//! The library decides where each managed window is placed (a binary split
//! of the focused window's rectangle), which window has input focus, how a
//! window is resized toward a screen edge and undone, and how key presses
//! map to actions. It never talks to a display server itself: every
//! operation works on plain values and returns the protocol requests to
//! issue as data, so that a thin unverified shell can perform them.

use vstd::prelude::*;

pub mod config;
pub mod geometry;
pub mod keys;
pub mod manager;
pub mod requests;

pub use config::Config;
pub use geometry::Geometry;
pub use manager::Manager;
pub use manager::NudgeOutcome;
pub use manager::WindowItem;
pub use keys::Action;
pub use keys::Direction;
pub use keys::KeyBinding;
pub use keys::KeyCombo;
pub use keys::KeyOutcome;
pub use keys::handle_key;
pub use requests::ConfigureRequest;
pub use requests::Request;

verus! {

} // verus!
