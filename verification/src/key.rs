//! Key presses, as the form and the application state read them.
use vstd::prelude::*;

verus! {

/// Which key was pressed.
#[derive(Debug, Clone, Copy, PartialEq, Eq, Structural)]
pub enum KeyCode {
    Char(char),
    Enter,
    Esc,
    Backspace,
    Delete,
    Left,
    Right,
    Up,
    Down,
    Tab,
    BackTab,
    Other,
}

/// A key press: the key and whether Control or Alt was held.
#[derive(Debug, Clone, Copy, PartialEq, Eq, Structural)]
pub struct Key {
    pub code: KeyCode,
    pub ctrl: bool,
    pub alt: bool,
}

impl Key {
    /// A key pressed without modifiers.
    pub fn plain(code: KeyCode) -> (k: Key)
        ensures
            k == (Key { code, ctrl: false, alt: false }),
    {
        Key { code, ctrl: false, alt: false }
    }
}

} // verus!
