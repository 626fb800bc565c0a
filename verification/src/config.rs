use vstd::prelude::*;

verus! {

/// Static settings, loaded once before the event loop starts and immutable
/// thereafter: screen size, the strip reserved for a status bar at the top,
/// border width and colors, and the advisory split-depth limit.
#[derive(Clone, Copy, Debug)]
pub struct Config {
    /// Screen width in pixels.
    pub screen_width: u16,
    /// Screen height in pixels.
    pub screen_height: u16,
    /// Vertical strip at the top of the screen left free for a status bar;
    /// managed windows are placed below it.
    pub bar_offset: u16,
    /// Width of the border drawn around every managed window.
    pub border_width: u16,
    /// Border color of the focused window.
    pub focus_color: u32,
    /// Border color of every unfocused window.
    pub defocus_color: u32,
    /// Maximum split depth; 0 means unlimited. The limit is advisory:
    /// placement is never refused on its account, and the value is kept
    /// for callers that want to consult it.
    pub max_split_depth: u8,
}

impl Config {
    /// The bar must leave a non-negative usable height below it.
    pub open spec fn wf(self) -> bool {
        self.bar_offset <= self.screen_height
    }

    /// Height of the usable area below the status bar.
    pub open spec fn usable_height(self) -> int {
        self.screen_height - self.bar_offset
    }
}

} // verus!
