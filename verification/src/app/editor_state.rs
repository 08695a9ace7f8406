use crate::domain::history::{DrawHistoryAction, HistoryView, PendingDrawAction, PendingView};
use crate::domain::stroke::{Cell, DrawPrimitive};
use vstd::prelude::*;

verus! {

/// What the primary button does on the canvas.
#[derive(Debug, Clone, Copy, PartialEq, Eq, Structural)]
pub enum PaintTool {
    Draw,
    Erase,
}

impl Default for PaintTool {
    fn default() -> (r: Self)
        ensures
            r == PaintTool::Draw,
    {
        PaintTool::Draw
    }
}

/// The editing session around a document: the chosen tool and style, the gesture
/// in progress, the undo and redo history, and tab renaming.
#[derive(Debug, Clone)]
pub struct EditorState {
    pub tool: PaintTool,
    pub primitive: DrawPrimitive,
    pub size_index: u8,
    pub color_index: u8,
    pub last_paint_cell: Option<Cell>,
    pub draw_undo_stack: Vec<DrawHistoryAction>,
    pub draw_redo_stack: Vec<DrawHistoryAction>,
    pub pending_draw_action: PendingDrawAction,
    pub renaming_tab_id: Option<u64>,
    pub renaming_tab_just_started: bool,
    pub tab_title_buffer: String,
}

/// The mathematical content of an editing session.
pub struct EditorView {
    pub tool: PaintTool,
    pub primitive: DrawPrimitive,
    pub size_index: u8,
    pub color_index: u8,
    pub last_paint_cell: Option<Cell>,
    pub undo: Seq<HistoryView>,
    pub redo: Seq<HistoryView>,
    pub pending: PendingView,
    pub renaming_tab_id: Option<u64>,
    pub renaming_tab_just_started: bool,
    pub tab_title_buffer: Seq<char>,
}

/// The views of a list of history actions.
pub open spec fn actions_view(v: Seq<DrawHistoryAction>) -> Seq<HistoryView> {
    v.map_values(|a: DrawHistoryAction| a@)
}

impl View for EditorState {
    type V = EditorView;

    open spec fn view(&self) -> EditorView {
        EditorView {
            tool: self.tool,
            primitive: self.primitive,
            size_index: self.size_index,
            color_index: self.color_index,
            last_paint_cell: self.last_paint_cell,
            undo: actions_view(self.draw_undo_stack@),
            redo: actions_view(self.draw_redo_stack@),
            pending: self.pending_draw_action@,
            renaming_tab_id: self.renaming_tab_id,
            renaming_tab_just_started: self.renaming_tab_just_started,
            tab_title_buffer: self.tab_title_buffer@,
        }
    }
}

impl Default for EditorState {
    /// Drawing lines of the first size and color, with empty history.
    fn default() -> (r: Self)
        ensures
            r@ == (EditorView {
                tool: PaintTool::Draw,
                primitive: DrawPrimitive::Line,
                size_index: 0,
                color_index: 0,
                last_paint_cell: None,
                undo: Seq::empty(),
                redo: Seq::empty(),
                pending: PendingView::Idle,
                renaming_tab_id: None,
                renaming_tab_just_started: false,
                tab_title_buffer: Seq::empty(),
            }),
    {
        let r = EditorState {
            tool: PaintTool::Draw,
            primitive: DrawPrimitive::Line,
            size_index: 0,
            color_index: 0,
            last_paint_cell: None,
            draw_undo_stack: Vec::new(),
            draw_redo_stack: Vec::new(),
            pending_draw_action: PendingDrawAction::Idle,
            renaming_tab_id: None,
            renaming_tab_just_started: false,
            tab_title_buffer: String::new(),
        };
        assert(actions_view(r.draw_undo_stack@) =~= Seq::<HistoryView>::empty());
        assert(actions_view(r.draw_redo_stack@) =~= Seq::<HistoryView>::empty());
        r
    }
}

} // verus!
