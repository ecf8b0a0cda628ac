//! The host window plugin's settings.
use vstd::prelude::*;

verus! {

/// A width and a height.
#[derive(Clone, Copy, Debug, PartialEq, Eq)]
pub struct Size<T> {
    pub width: T,
    pub height: T,
}

impl<T> Size<T> {
    /// A size with the given width and height.
    pub fn new(width: T, height: T) -> (r: Self)
        ensures
            r.width == width,
            r.height == height,
    {
        Size { width, height }
    }
}

/// Spawns the main window of the application with `winit`.
pub struct WinitWindowPlugin {
    pub title: String,
    pub size: Size<u32>,
}

impl WinitWindowPlugin {
    /// Creates a new `Winit` Window.
    pub fn new(title: &str, width: u32, height: u32) -> (r: Self)
        ensures
            r.title@ == title@,
            r.size.width == width,
            r.size.height == height,
    {
        WinitWindowPlugin { title: title.to_string(), size: Size { width, height } }
    }
}

/// The first and one past the last host key codes that stand for letters.
pub const LETTER_KEY_CODES_START: u32 = 18;
pub const LETTER_KEY_CODES_END: u32 = 45;

/// The engine's key code for a physical key of the host: a key in the
/// letters' range maps to its code less 19; any other key is unknown
/// (`None`). The first code of the range has no engine key code, as the
/// subtraction would go below zero.
pub fn letter_key_code(host_code: u32) -> (r: Option<u32>)
    requires
        host_code != LETTER_KEY_CODES_START,
    ensures
        LETTER_KEY_CODES_START <= host_code < LETTER_KEY_CODES_END ==> r == Some((host_code - 19) as u32),
        !(LETTER_KEY_CODES_START <= host_code < LETTER_KEY_CODES_END) ==> r == None::<u32>,
{
    if LETTER_KEY_CODES_START <= host_code && host_code < LETTER_KEY_CODES_END {
        Some(host_code - 19)
    } else {
        None
    }
}

} // verus!
