//! Keys, buttons and modifiers as the platforms share them.

use vstd::prelude::*;

verus! {

/// A key by its name, or the key of a character.
#[derive(Clone, Copy, Debug, PartialEq, Eq, Structural)]
pub enum KeyName {
    Ctrl,
    Alt,
    Shift,
    Meta,
    Enter,
    Escape,
    Tab,
    Space,
    Backspace,
    Delete,
    Insert,
    Home,
    End,
    PageUp,
    PageDown,
    Up,
    Down,
    Left,
    Right,
    CapsLock,
    NumLock,
    PrintScreen,
    F1,
    F2,
    F3,
    F4,
    F5,
    F6,
    F7,
    F8,
    F9,
    F10,
    F11,
    F12,
    F13,
    F14,
    F15,
    F16,
    F17,
    F18,
    F19,
    F20,
    F21,
    F22,
    F23,
    F24,
    Char(char),
}

/// Modifiers held during a gesture.
#[derive(Clone, Copy, Debug, PartialEq, Eq, Structural)]
pub struct Modifiers {
    pub ctrl: bool,
    pub alt: bool,
    pub shift: bool,
    pub meta: bool,
}

impl Default for Modifiers {
    fn default() -> (m: Modifiers)
        ensures
            m == Modifiers::none(),
    {
        Modifiers { ctrl: false, alt: false, shift: false, meta: false }
    }
}

impl Modifiers {
    /// No modifier.
    pub open spec fn none() -> Modifiers {
        Modifiers { ctrl: false, alt: false, shift: false, meta: false }
    }

    /// Whether any modifier is held.
    pub fn any(&self) -> (r: bool)
        ensures
            r == (*self != Modifiers::none()),
    {
        self.ctrl || self.alt || self.shift || self.meta
    }
}

/// A pointer button.
#[derive(Clone, Copy, Debug, PartialEq, Eq, Structural)]
pub enum MouseButton {
    Left,
    Right,
    Middle,
}

/// How input reaches a window.
#[derive(Clone, Copy, Debug, PartialEq, Eq, Structural)]
pub enum DeliveryMode {
    /// Without taking the user's focus.
    Background,
    /// By taking the focus for the action.
    Foreground,
}

} // verus!
