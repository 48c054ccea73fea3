//! Settings values that the engine's collaborators read: window geometry,
//! theme, autosave and shortcuts, with their defaults.
use vstd::prelude::*;

verus! {

/// Where the window stands and how large it is; `-1` for a coordinate means
/// "not placed yet".
#[derive(Debug, Clone, Copy, PartialEq, Eq, Structural)]
pub struct WindowGeometry {
    pub x: i32,
    pub y: i32,
    pub width: u32,
    pub height: u32,
    /// Read from older settings files and otherwise ignored.
    pub is_maximized: bool,
}

impl Default for WindowGeometry {
    fn default() -> (r: WindowGeometry)
        ensures
            r == (WindowGeometry { x: -1i32, y: -1i32, width: 400, height: 500, is_maximized: false }),
    {
        WindowGeometry { x: -1, y: -1, width: 400, height: 500, is_maximized: false }
    }
}

/// Colour themes.
#[derive(Debug, Clone, Copy, PartialEq, Eq, Structural)]
pub enum ThemeName {
    TokyoNight,
    Kanagawa,
    Monokai,
    Gruvbox,
    Dracula,
    Catppuccin,
    Synthwave,
}

impl Default for ThemeName {
    fn default() -> (r: ThemeName)
        ensures
            r == ThemeName::TokyoNight,
    {
        ThemeName::TokyoNight
    }
}

/// Light or dark variant of a theme.
#[derive(Debug, Clone, Copy, PartialEq, Eq, Structural)]
pub enum ThemeMode {
    Light,
    Dark,
}

impl Default for ThemeMode {
    fn default() -> (r: ThemeMode)
        ensures
            r == ThemeMode::Dark,
    {
        ThemeMode::Dark
    }
}

/// Saving while typing.
#[derive(Debug, Clone, Copy, PartialEq, Eq, Structural)]
pub struct AutosaveSettings {
    pub enabled: bool,
    pub delay_ms: u64,
}

impl Default for AutosaveSettings {
    fn default() -> (r: AutosaveSettings)
        ensures
            r == (AutosaveSettings { enabled: true, delay_ms: 2000 }),
    {
        AutosaveSettings { enabled: true, delay_ms: 2000 }
    }
}

/// Keyboard shortcuts inside the window.
pub struct ShortcutSettings {
    pub new_note: String,
    pub toggle_sidebar: String,
    pub open_settings: String,
}

impl Default for ShortcutSettings {
    fn default() -> (r: ShortcutSettings)
        ensures
            r.new_note@ == seq!['C', 't', 'r', 'l', '+', 'N'],
            r.toggle_sidebar@ == seq!['C', 't', 'r', 'l', '+', 'M'],
            r.open_settings@ == seq!['C', 't', 'r', 'l', '+', ','],
    {
        let a: Vec<char> = vec!['C', 't', 'r', 'l', '+', 'N'];
        let b: Vec<char> = vec!['C', 't', 'r', 'l', '+', 'M'];
        let c: Vec<char> = vec!['C', 't', 'r', 'l', '+', ','];
        proof {
            assert(a@ =~= seq!['C', 't', 'r', 'l', '+', 'N']);
            assert(b@ =~= seq!['C', 't', 'r', 'l', '+', 'M']);
            assert(c@ =~= seq!['C', 't', 'r', 'l', '+', ',']);
        }
        ShortcutSettings {
            new_note: crate::text::string_of(a.as_slice()),
            toggle_sidebar: crate::text::string_of(b.as_slice()),
            open_settings: crate::text::string_of(c.as_slice()),
        }
    }
}

/// Line numbers are shown unless the settings say otherwise.
pub fn default_show_line_numbers() -> (r: bool)
    ensures
        r,
{
    true
}

} // verus!
