//! Input on macOS: accessibility text, key and pointer plans, what processes drop,
//! and how focus is borrowed and given back.

pub mod ax;
pub mod gesture_law;
pub mod input;
pub mod look_law;
pub mod process;
pub mod skylight;
