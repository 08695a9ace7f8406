use crate::app::editor_state::{EditorState, EditorView, PaintTool};
use crate::domain::history::{PendingDrawAction, PendingView};
use crate::domain::stroke::DrawPrimitive;
use crate::ui::canvas::input::clamp_size;
use vstd::prelude::*;

verus! {

/// The stored form of a tool.
#[derive(Debug, Clone, Copy, PartialEq, Eq, Structural)]
pub enum PaintToolDto {
    Draw,
    Erase,
}

/// The stored form of a primitive.
#[derive(Debug, Clone, Copy, PartialEq, Eq, Structural)]
pub enum DrawPrimitiveDto {
    Line,
    Point,
}

/// The drawing settings an editing session keeps from one run to the next.
#[derive(Debug, Clone, Copy, PartialEq, Eq, Structural)]
pub struct EditorSession {
    pub tool: PaintToolDto,
    pub primitive: DrawPrimitiveDto,
    pub size_index: u8,
    pub color_index: u8,
}

/// The stored form of a tool.
pub open spec fn tool_dto(t: PaintTool) -> PaintToolDto {
    match t {
        PaintTool::Draw => PaintToolDto::Draw,
        PaintTool::Erase => PaintToolDto::Erase,
    }
}

/// The tool a stored form stands for.
pub open spec fn tool_of(t: PaintToolDto) -> PaintTool {
    match t {
        PaintToolDto::Draw => PaintTool::Draw,
        PaintToolDto::Erase => PaintTool::Erase,
    }
}

/// The stored form of a primitive.
pub open spec fn primitive_dto(p: DrawPrimitive) -> DrawPrimitiveDto {
    match p {
        DrawPrimitive::Line => DrawPrimitiveDto::Line,
        DrawPrimitive::Point => DrawPrimitiveDto::Point,
    }
}

/// The primitive a stored form stands for.
pub open spec fn primitive_of(p: DrawPrimitiveDto) -> DrawPrimitive {
    match p {
        DrawPrimitiveDto::Line => DrawPrimitive::Line,
        DrawPrimitiveDto::Point => DrawPrimitive::Point,
    }
}

impl EditorSession {
    /// The settings of an editing session, for storing.
    pub fn from_editor(value: &EditorState) -> (r: EditorSession)
        ensures
            r == (EditorSession {
                tool: tool_dto(value.tool),
                primitive: primitive_dto(value.primitive),
                size_index: value.size_index,
                color_index: value.color_index,
            }),
    {
        EditorSession {
            tool: match value.tool {
                PaintTool::Draw => PaintToolDto::Draw,
                PaintTool::Erase => PaintToolDto::Erase,
            },
            primitive: match value.primitive {
                DrawPrimitive::Line => DrawPrimitiveDto::Line,
                DrawPrimitive::Point => DrawPrimitiveDto::Point,
            },
            size_index: value.size_index,
            color_index: value.color_index,
        }
    }

    /// A fresh editing session with the stored settings; the size is limited to
    /// the four sizes there are.
    pub fn into_editor_state(self) -> (r: EditorState)
        ensures
            r@ == (EditorView {
                tool: tool_of(self.tool),
                primitive: primitive_of(self.primitive),
                size_index: clamp_size(self.size_index),
                color_index: self.color_index,
                last_paint_cell: None,
                undo: Seq::empty(),
                redo: Seq::empty(),
                pending: PendingView::Idle,
                renaming_tab_id: None,
                renaming_tab_just_started: false,
                tab_title_buffer: Seq::empty(),
            }),
    {
        let mut r = EditorState::default();
        r.tool = match self.tool {
            PaintToolDto::Draw => PaintTool::Draw,
            PaintToolDto::Erase => PaintTool::Erase,
        };
        r.primitive = match self.primitive {
            DrawPrimitiveDto::Line => DrawPrimitive::Line,
            DrawPrimitiveDto::Point => DrawPrimitive::Point,
        };
        r.size_index = if self.size_index <= 3 {
            self.size_index
        } else {
            3
        };
        r.color_index = self.color_index;
        r
    }
}

/// Storing the settings of a session and starting a new one from them keeps the
/// tool, the primitive and the color, and the size when it is one of the four
/// there are.
pub proof fn lemma_session_round_trip(e: EditorView)
    ensures
        tool_of(tool_dto(e.tool)) == e.tool,
        primitive_of(primitive_dto(e.primitive)) == e.primitive,
        e.size_index <= 3 ==> clamp_size(e.size_index) == e.size_index,
{
}

} // verus!
