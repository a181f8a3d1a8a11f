//! Input on X11: keycodes, gestures, the virtual device pair and its owners,
//! the window manager's view, and which route input takes.

pub mod gesture;
pub mod gesture_law;
pub mod input;
pub mod keymap;
pub mod keymap_law;
pub mod mpx;
pub mod mpx_law;
pub mod route_law;
pub mod toolkit;
pub mod uinput;
pub mod virtual_gesture;
pub mod wm;
pub mod wm_law;
