//! Recognition of text in pictures.

pub mod boxes;
pub mod detection;
pub mod engine;
pub mod independence;
pub mod layout;
pub mod lines;
pub mod model_manager;
pub mod pages;
pub mod pipeline;
pub mod preparation;
pub mod proportions;
pub mod readings;
pub mod recognition;
pub mod rows;
pub mod sizing;
pub mod tables;
pub mod tesseract;
pub mod words;
