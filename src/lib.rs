pub mod error;
pub mod models;
pub mod nesting;
pub mod parser;
pub mod render;
pub mod stitcher;
pub mod text;
pub mod unwrap;
pub mod views;
pub mod xml;
