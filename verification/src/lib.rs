//! The verified core of `ram`, a memory overview: what the figures that the
//! system reports mean, and which processes are shown.

pub mod bytes;
pub mod groups;
pub mod layout;
pub mod linux;
pub mod macos;
pub mod procfs;
pub mod snapshot;
pub mod text;
pub mod windows;
