//! Window bookkeeping that does not touch the window itself: its shown or
//! hidden state, and where it is restored when shown again.
use vstd::prelude::*;
use crate::settings::WindowGeometry;

verus! {

/// Coordinates below this are off screen (where a hidden window is parked).
pub const OFFSCREEN_THRESHOLD: i32 = -5000;

/// Where a window is parked to hide it.
pub const OFFSCREEN_POSITION: i32 = -10000;

/// Whether the window is shown.
#[derive(Debug, Clone, Copy, PartialEq, Eq, Structural)]
pub enum WindowState {
    Visible,
    Hidden,
}

/// The window's shown or hidden state.
pub struct WindowManager {
    state: WindowState,
}

impl WindowManager {
    pub closed spec fn current(&self) -> WindowState {
        self.state
    }

    /// A hidden window.
    pub fn new() -> (r: WindowManager)
        ensures
            r.current() == WindowState::Hidden,
    {
        WindowManager { state: WindowState::Hidden }
    }

    pub fn state(&self) -> (r: WindowState)
        ensures
            r == self.current(),
    {
        self.state
    }

    /// The state a toggle moves to.
    pub fn toggled(&self) -> (r: WindowState)
        ensures
            r == (if self.current() == WindowState::Visible { WindowState::Hidden } else { WindowState::Visible }),
    {
        match self.state {
            WindowState::Visible => WindowState::Hidden,
            WindowState::Hidden => WindowState::Visible,
        }
    }

    /// Records that the window was shown or hidden.
    pub fn set_state(&mut self, s: WindowState)
        ensures
            final(self).current() == s,
    {
        self.state = s;
    }
}

/// What showing or hiding did.
#[derive(Debug, Clone, Copy, PartialEq, Eq)]
pub enum ToggleResult {
    Shown { position: (i32, i32) },
    Hidden,
}

/// The saved position is usable: on screen and set.
pub open spec fn usable_position(g: WindowGeometry) -> bool {
    g.x > OFFSCREEN_THRESHOLD && g.y > OFFSCREEN_THRESHOLD && g.x != -1 && g.y != -1
}

/// Where to show the window again: the saved position where it is usable,
/// else `default_position`.
pub fn restore_position(geometry: &WindowGeometry, default_position: (i32, i32)) -> (r: (i32, i32))
    ensures
        usable_position(*geometry) ==> r == (geometry.x, geometry.y),
        !usable_position(*geometry) ==> r == default_position,
{
    if geometry.x > OFFSCREEN_THRESHOLD && geometry.y > OFFSCREEN_THRESHOLD && geometry.x != -1 && geometry.y != -1 {
        (geometry.x, geometry.y)
    } else {
        default_position
    }
}

/// The size to lay out a default position for: at least 400 by 500.
pub fn restore_size(geometry: &WindowGeometry) -> (r: (u32, u32))
    ensures
        r.0 == (if geometry.width > 400 { geometry.width } else { 400 }),
        r.1 == (if geometry.height > 500 { geometry.height } else { 500 }),
{
    (if geometry.width > 400 { geometry.width } else { 400 }, if geometry.height > 500 { geometry.height } else { 500 })
}

/// The default window position on a monitor at `(x, y)` of the given size:
/// against its right edge with a 10-pixel margin, 50 pixels from the top.
pub open spec fn right_edge_position(monitor: (i32, i32, i32, i32), window_width: i32) -> int {
    monitor.0 + monitor.2 - window_width - 10
}

/// Where a window of `window_width` goes by default on the focused monitor
/// `(x, y, width, height)`; `None` where no monitor is known or the position
/// does not fit the coordinate range.
pub fn calculate_default_position(window_width: i32, window_height: i32, monitor: Option<(i32, i32, i32, i32)>) -> (r: Option<(i32, i32)>)
    ensures
        match monitor {
            None => r is None,
            Some(m) => {
                let x = right_edge_position(m, window_width);
                if i32::MIN <= x <= i32::MAX { r == Some((x as i32, 50i32)) } else { r is None }
            },
        },
{
    match monitor {
        None => None,
        Some((mx, _my, mw, _mh)) => {
            let x: i64 = mx as i64 + mw as i64 - window_width as i64 - 10;
            if x < i32::MIN as i64 || x > i32::MAX as i64 {
                None
            } else {
                Some((x as i32, 50))
            }
        },
    }
}

/// Window operations that depend on the platform; the operations on the
/// window itself are carried out around the library.
pub struct PlatformManager;

impl PlatformManager {
    /// The default window position: on the focused monitor where one is
    /// known (see [`calculate_default_position`]), else `(100, 50)`.
    pub fn calculate_default_position(width: u32, height: u32, monitor: Option<(i32, i32, i32, i32)>) -> (r: (i32, i32))
        ensures
            match monitor {
                None => r == (100i32, 50i32),
                Some(m) => {
                    let x = right_edge_position(m, width as i32);
                    if i32::MIN <= x <= i32::MAX { r == (x as i32, 50i32) } else { r == (100i32, 50i32) }
                },
            },
    {
        match calculate_default_position(width as i32, height as i32, monitor) {
            Some(p) => p,
            None => (100, 50),
        }
    }
}

/// Showing and hiding the window, around the library; this part decides
/// where it is shown.
pub struct WindowService;

impl WindowService {
    /// Where to show the window: its saved position where usable, else the
    /// platform default for a window at least 400 by 500 on `monitor`.
    pub fn calculate_restore_position(geometry: &WindowGeometry, monitor: Option<(i32, i32, i32, i32)>) -> (r: (i32, i32))
        ensures
            usable_position(*geometry) ==> r == (geometry.x, geometry.y),
            !usable_position(*geometry) && monitor is None ==> r == (100i32, 50i32),
    {
        let (w, h) = restore_size(geometry);
        let fallback = PlatformManager::calculate_default_position(w, h, monitor);
        restore_position(geometry, fallback)
    }
}

} // verus!
