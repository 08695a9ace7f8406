pub mod flood;
pub mod input;
pub mod laws;
pub mod picture;
pub mod strokes;

pub use input::{apply_draw_redo, apply_draw_undo};
pub use strokes::{add_draw_stroke, erase_at_cell};
