//! Input on Windows: what posted events reach, how displays lie, which window has
//! the focus, and how controls are pressed.

pub mod ax;
pub mod delivery;
pub mod delivery_law;
pub mod geometry;
pub mod look_law;
pub mod window;
