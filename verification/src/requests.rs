use vstd::prelude::*;

verus! {

/// A configure request toward the display server: reposition, resize,
/// re-border or restack one window. Absent fields are left untouched by
/// the server, so which fields are present is part of the request's
/// meaning.
#[derive(Clone, Copy, Debug, PartialEq, Eq)]
pub struct ConfigureRequest {
    pub window: u32,
    pub x: Option<i32>,
    pub y: Option<i32>,
    pub width: Option<u32>,
    pub height: Option<u32>,
    pub border_width: Option<u16>,
}

/// One abstract protocol request. The library only decides which requests
/// to issue; an unverified shell translates each value into the concrete
/// wire call.
#[derive(Clone, Copy, Debug, PartialEq, Eq)]
pub enum Request {
    /// Move, resize or re-border a window.
    Configure(ConfigureRequest),
    /// Change a window's border color; when `set_event_mask` also holds,
    /// subscribe the window to the standard event mask (key presses,
    /// pointer enter and leave, structure changes) in the same request.
    ChangeAttributes { window: u32, border_color: u32, set_event_mask: bool },
    /// Grab the designated kill key combination on the window, so its
    /// presses reach the manager.
    GrabKillKey { window: u32 },
    /// Map (show) the window.
    MapWin { window: u32 },
    /// Ask the server to destroy the window.
    DestroyWin { window: u32 },
    /// Give the window protocol input focus.
    SetFocus { window: u32 },
    /// Raise the window above its siblings in stacking order.
    Raise { window: u32 },
}

} // verus!
