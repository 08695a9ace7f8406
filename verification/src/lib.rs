//! Pixel Paint: the editing model of a small grid-based drawing program.
//!
//! Documents hold tabs, tabs hold strokes of grid cells; drawing, erasing,
//! flood erasing and undo/redo operate on that model.
pub mod domain;
pub mod text;
pub mod ui;
pub mod app;
pub mod localization;
pub mod icon;
pub mod persistence;
