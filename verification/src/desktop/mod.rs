//! Desktop input: the decisions and plans behind each platform's delivery. The
//! platforms' own calls stay outside.

pub mod keys;
pub mod libei;
pub mod libei_law;
pub mod macos;
pub mod win32;
pub mod x11;
