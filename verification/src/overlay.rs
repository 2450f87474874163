//! The overlay: what is framed and selected, and how gestures and keys change it.

pub mod controls;
pub mod copying;
pub mod drawing;
pub mod laws;
pub mod selection;
pub mod state;
