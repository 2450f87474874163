//! Wayfrost reads the text of the screen: a picture of the screen is shown, a region of it is
//! framed, and the words found in it are selected and copied.
//!
//! The library holds what is decided and computed on the way. Floating-point numbers stand in it
//! by their bits: [`float`] has the arithmetic of IEEE 754, and what a function computes is
//! stated to the last bit.

pub mod accuracy;
pub mod ai_manager;
pub mod big;
pub mod capture;
pub mod constants;
pub mod datum;
pub mod decimal;
pub mod exact;
pub mod float;
pub mod ocr;
pub mod overlay;
pub mod picture;
pub mod png;
pub mod rounding;
pub mod sorting;
pub mod text;
pub mod writing;
