pub mod document;
pub mod history;
pub mod stroke;
pub mod tab;

pub use document::PaintDocument;
pub use history::{DrawHistoryAction, PendingDrawAction, StyledCell};
pub use stroke::{DrawPrimitive, DrawStroke};
pub use tab::PaintTab;
