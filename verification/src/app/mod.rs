pub mod editor_state;
pub mod session;

pub use editor_state::{EditorState, PaintTool};
