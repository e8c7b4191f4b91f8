//! Finds the stretches of a video in which people appear and plans their
//! export as separate clips.
pub mod config;
pub mod detection;
pub mod segment;
pub mod merger;
pub mod text;
pub mod exporter;
pub mod process;
pub mod reader;
