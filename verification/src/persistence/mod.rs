pub mod session;

pub use session::{DrawPrimitiveDto, EditorSession, PaintToolDto};
