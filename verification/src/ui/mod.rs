pub mod canvas;
pub mod export_png;
pub mod render_core;
pub mod shortcuts;
pub mod tabs;
