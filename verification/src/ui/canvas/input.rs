use super::flood::{erase_connected_color_at_cell, spec_erase_connected};
use super::strokes::{
    add_draw_stroke, erase_at_cell, remove_styled_cells, restore_styled_cells, spec_add_draw_stroke,
    spec_erase_at_cell, spec_remove_styled, spec_restore_styled,
};
use crate::app::editor_state::{actions_view, EditorState, EditorView, PaintTool};
use crate::domain::document::{DocView, PaintDocument};
use crate::domain::history::{contains_styled, DrawHistoryAction, HistoryView, PendingDrawAction, PendingView, StyledCell};
use crate::domain::stroke::{cell_eq, contains_cell, copy_cells, Cell, DrawPrimitive};
use super::laws::{lemma_apply_action_ok, lemma_draw_mode_ok, lemma_revert_action_ok, lemma_strokes_edit_wf};
use vstd::prelude::*;

verus! {

/// The most actions the undo history keeps.
pub const UNDO_HISTORY_LIMIT: usize = 100;

/// The styled cells of a drawing action.
pub open spec fn draw_styled(
    primitive: DrawPrimitive,
    size_index: u8,
    color_index: u8,
    cells: Seq<Cell>,
) -> Seq<StyledCell> {
    cells.map_values(|cell: Cell| StyledCell { primitive, size_index, color_index, cell })
}

/// The document after doing an action again: a drawing is drawn on its tab, an
/// erasure erases its cells from its tab. The active tab stays as it was.
pub open spec fn spec_apply_action(d: DocView, a: HistoryView) -> DocView {
    match a {
        HistoryView::Draw { tab_id, primitive, size_index, color_index, cells } => DocView {
            active_tab_id: d.active_tab_id,
            ..spec_add_draw_stroke(
                DocView { active_tab_id: tab_id, ..d },
                primitive,
                size_index,
                color_index,
                cells,
            ).0
        },
        HistoryView::Erase { tab_id, cells } => spec_remove_styled(d, tab_id, cells),
    }
}

/// The document after taking an action back: a drawing's cells are erased in its
/// style, an erasure's cells are drawn back.
pub open spec fn spec_revert_action(d: DocView, a: HistoryView) -> DocView {
    match a {
        HistoryView::Draw { tab_id, primitive, size_index, color_index, cells } => spec_remove_styled(
            d,
            tab_id,
            draw_styled(primitive, size_index, color_index, cells),
        ),
        HistoryView::Erase { tab_id, cells } => spec_restore_styled(d, tab_id, cells),
    }
}

/// Does an action again on the document.
pub fn apply_history_action(document: &mut PaintDocument, action: &DrawHistoryAction)
    ensures
        final(document)@ == spec_apply_action(old(document)@, action@),
{
    match action {
        DrawHistoryAction::Draw { tab_id, primitive, size_index, color_index, cells } => {
            let saved_active = document.active_tab_id;
            document.active_tab_id = *tab_id;
            let _ = add_draw_stroke(document, *primitive, *size_index, *color_index, copy_cells(cells));
            document.active_tab_id = saved_active;
        },
        DrawHistoryAction::Erase { tab_id, cells } => {
            remove_styled_cells(document, *tab_id, cells.as_slice());
        },
    }
}

/// Takes an action back on the document.
pub fn apply_history_action_inverse(document: &mut PaintDocument, action: &DrawHistoryAction)
    ensures
        final(document)@ == spec_revert_action(old(document)@, action@),
{
    match action {
        DrawHistoryAction::Draw { tab_id, primitive, size_index, color_index, cells } => {
            let mut styled_cells: Vec<StyledCell> = Vec::new();
            let mut i: usize = 0;
            while i < cells.len()
                invariant
                    i <= cells@.len(),
                    styled_cells@ == draw_styled(*primitive, *size_index, *color_index, cells@.take(i as int)),
                decreases cells@.len() - i,
            {
                styled_cells.push(
                    StyledCell {
                        primitive: *primitive,
                        size_index: *size_index,
                        color_index: *color_index,
                        cell: cells[i],
                    },
                );
                i += 1;
                assert(styled_cells@ =~= draw_styled(*primitive, *size_index, *color_index, cells@.take(i as int)));
            }
            assert(cells@.take(i as int) =~= cells@);
            remove_styled_cells(document, *tab_id, styled_cells.as_slice());
        },
        DrawHistoryAction::Erase { tab_id, cells } => {
            restore_styled_cells(document, *tab_id, cells.as_slice());
        },
    }
}

/// The session after an undo: the latest action moves from the undo history
/// to the redo history.
pub open spec fn spec_undo_editor(e: EditorView) -> EditorView {
    EditorView { undo: e.undo.drop_last(), redo: e.redo.push(e.undo.last()), ..e }
}

/// The session after a redo: the latest undone action moves back to the undo
/// history.
pub open spec fn spec_redo_editor(e: EditorView) -> EditorView {
    EditorView { redo: e.redo.drop_last(), undo: e.undo.push(e.redo.last()), ..e }
}

/// Takes back the latest action of the undo history and moves it to the redo
/// history; nothing happens when the undo history is empty.
pub fn apply_draw_undo(document: &mut PaintDocument, editor: &mut EditorState)
    ensures
        old(editor)@.undo.len() == 0 ==> final(document)@ == old(document)@ && final(editor)@ == old(editor)@,
        old(editor)@.undo.len() > 0 ==> final(document)@ == spec_revert_action(
            old(document)@,
            old(editor)@.undo.last(),
        ) && final(editor)@ == spec_undo_editor(old(editor)@),
        old(document)@.wf() ==> final(document)@.wf(),
{
    let action = match editor.draw_undo_stack.pop() {
        Some(a) => a,
        None => {
            return ;
        },
    };
    apply_history_action_inverse(document, &action);
    proof {
        if old(document)@.wf() {
            lemma_revert_action_ok(old(document)@, action@);
            lemma_strokes_edit_wf(old(document)@, document@);
        }
    }
    editor.draw_redo_stack.push(action);
    assert(editor@.undo =~= old(editor)@.undo.drop_last());
    assert(editor@.redo =~= old(editor)@.redo.push(old(editor)@.undo.last()));
}

/// Does the latest action of the redo history again and moves it back to the
/// undo history; nothing happens when the redo history is empty.
pub fn apply_draw_redo(document: &mut PaintDocument, editor: &mut EditorState)
    ensures
        old(editor)@.redo.len() == 0 ==> final(document)@ == old(document)@ && final(editor)@ == old(editor)@,
        old(editor)@.redo.len() > 0 ==> final(document)@ == spec_apply_action(
            old(document)@,
            old(editor)@.redo.last(),
        ) && final(editor)@ == spec_redo_editor(old(editor)@),
        old(document)@.wf() ==> final(document)@.wf(),
{
    let action = match editor.draw_redo_stack.pop() {
        Some(a) => a,
        None => {
            return ;
        },
    };
    apply_history_action(document, &action);
    proof {
        if old(document)@.wf() {
            lemma_apply_action_ok(old(document)@, action@);
            lemma_strokes_edit_wf(old(document)@, document@);
        }
    }
    editor.draw_undo_stack.push(action);
    assert(editor@.redo =~= old(editor)@.redo.drop_last());
    assert(editor@.undo =~= old(editor)@.undo.push(old(editor)@.redo.last()));
}

/// The pending gesture after a cell was drawn: a drawing gesture gains the cell
/// once; any other gesture is unchanged.
pub open spec fn spec_push_draw_cell(p: PendingView, cell: Cell) -> PendingView {
    match p {
        PendingView::Draw { primitive, size_index, color_index, cells } => PendingView::Draw {
            primitive,
            size_index,
            color_index,
            cells: if cells.contains(cell) {
                cells
            } else {
                cells.push(cell)
            },
        },
        _ => p,
    }
}

/// The list after adding, in turn, each styled cell it does not hold yet.
pub open spec fn add_new_styled(cells: Seq<StyledCell>, removed: Seq<StyledCell>) -> Seq<StyledCell>
    decreases removed.len(),
{
    if removed.len() == 0 {
        cells
    } else {
        let before = add_new_styled(cells, removed.drop_last());
        if before.contains(removed.last()) {
            before
        } else {
            before.push(removed.last())
        }
    }
}

/// The pending gesture after cells were erased: an erasing gesture gains each
/// erased cell it does not hold yet; any other gesture is unchanged.
pub open spec fn spec_push_erased_cells(p: PendingView, removed: Seq<StyledCell>) -> PendingView {
    match p {
        PendingView::Erase { cells } => PendingView::Erase { cells: add_new_styled(cells, removed) },
        _ => p,
    }
}

/// Records a drawn cell in a drawing gesture.
pub fn push_draw_cell(pending_action: &mut PendingDrawAction, cell: Cell)
    ensures
        final(pending_action)@ == spec_push_draw_cell(old(pending_action)@, cell),
{
    if let PendingDrawAction::Draw { cells, .. } = pending_action {
        if !contains_cell(cells, cell) {
            cells.push(cell);
        }
    }
}

/// Records erased cells in an erasing gesture.
pub fn push_erased_cells(pending_action: &mut PendingDrawAction, removed_cells: Vec<StyledCell>)
    ensures
        final(pending_action)@ == spec_push_erased_cells(old(pending_action)@, removed_cells@),
{
    if let PendingDrawAction::Erase { cells } = pending_action {
        let ghost start = cells@;
        let mut i: usize = 0;
        while i < removed_cells.len()
            invariant
                i <= removed_cells@.len(),
                cells@ == add_new_styled(start, removed_cells@.take(i as int)),
            decreases removed_cells@.len() - i,
        {
            assert(removed_cells@.take(i + 1).drop_last() =~= removed_cells@.take(i as int));
            let removed = removed_cells[i];
            if !contains_styled(cells.as_slice(), removed) {
                cells.push(removed);
            }
            i += 1;
        }
        assert(removed_cells@.take(i as int) =~= removed_cells@);
    }
}

/// The action a finished gesture leaves for the history, if it changed anything,
/// and the gesture afterwards (its cells handed over).
pub open spec fn spec_finalize(tab_id: u64, p: PendingView) -> (PendingView, Option<HistoryView>) {
    match p {
        PendingView::Draw { primitive, size_index, color_index, cells } => if cells.len() > 0 {
            (
                PendingView::Draw { primitive, size_index, color_index, cells: Seq::empty() },
                Some(HistoryView::Draw { tab_id, primitive, size_index, color_index, cells }),
            )
        } else {
            (p, None)
        },
        PendingView::Erase { cells } => if cells.len() > 0 {
            (PendingView::Erase { cells: Seq::empty() }, Some(HistoryView::Erase { tab_id, cells }))
        } else {
            (p, None)
        },
        PendingView::Idle => (p, None),
    }
}

/// Turns the finished gesture into a history action, if it changed anything.
pub fn finalize_pending_action(tab_id: u64, pending_action: &mut PendingDrawAction) -> (r: Option<
    DrawHistoryAction,
>)
    ensures
        (final(pending_action)@, match r {
            Some(a) => Some(a@),
            None => None,
        }) == spec_finalize(tab_id, old(pending_action)@),
{
    match pending_action {
        PendingDrawAction::Draw { primitive, size_index, color_index, cells } => {
            if cells.len() > 0 {
                let mut taken: Vec<Cell> = Vec::new();
                std::mem::swap(&mut taken, cells);
                Some(
                    DrawHistoryAction::Draw {
                        tab_id,
                        primitive: *primitive,
                        size_index: *size_index,
                        color_index: *color_index,
                        cells: taken,
                    },
                )
            } else {
                None
            }
        },
        PendingDrawAction::Erase { cells } => {
            if cells.len() > 0 {
                let mut taken: Vec<StyledCell> = Vec::new();
                std::mem::swap(&mut taken, cells);
                Some(DrawHistoryAction::Erase { tab_id, cells: taken })
            } else {
                None
            }
        },
        PendingDrawAction::Idle => None,
    }
}

/// A size index limited to the four sizes there are.
pub open spec fn clamp_size(size_index: u8) -> u8 {
    if size_index <= 3 {
        size_index
    } else {
        3
    }
}

/// The gesture the current tool starts when the button goes down.
pub open spec fn begin_pending(e: EditorView) -> PendingView {
    match e.tool {
        PaintTool::Draw => PendingView::Draw {
            primitive: e.primitive,
            size_index: clamp_size(e.size_index),
            color_index: e.color_index,
            cells: Seq::empty(),
        },
        PaintTool::Erase => PendingView::Erase { cells: Seq::empty() },
    }
}

/// The undo history after recording an action: the redo history is dropped and
/// only the latest `UNDO_HISTORY_LIMIT` actions are kept.
pub open spec fn record_action(e: EditorView, a: HistoryView) -> EditorView {
    let u = e.undo.push(a);
    EditorView {
        undo: if u.len() > UNDO_HISTORY_LIMIT {
            u.drop_first()
        } else {
            u
        },
        redo: Seq::empty(),
        ..e
    }
}

/// The document, the session and whether anything changed, after one frame of
/// pointer input: `pointer_cell` is the grid cell under the pointer when the
/// pointer is over the canvas, `primary_down` whether the primary button is held
/// and `ctrl` whether the control key is. A held button starts a gesture of the
/// current tool, paints or erases the cell under the pointer once per cell
/// entered (with control, erasing takes the whole connected area of one color),
/// and a released button turns the gesture into an undo step.
pub open spec fn spec_draw_mode(
    d: DocView,
    e: EditorView,
    pointer_cell: Option<Cell>,
    primary_down: bool,
    ctrl: bool,
) -> (DocView, EditorView, bool) {
    let e1 = if primary_down && e.pending is Idle {
        EditorView { pending: begin_pending(e), ..e }
    } else {
        e
    };
    let (d2, e2, changed) = if primary_down && pointer_cell is Some {
        let cell = pointer_cell.unwrap();
        if e1.last_paint_cell == Some(cell) {
            (d, e1, false)
        } else {
            let e1b = EditorView { last_paint_cell: Some(cell), ..e1 };
            match e.tool {
                PaintTool::Erase => {
                    let (dd, removed) = if ctrl {
                        spec_erase_connected(d, cell)
                    } else {
                        spec_erase_at_cell(d, cell)
                    };
                    if removed.len() > 0 {
                        (dd, EditorView { pending: spec_push_erased_cells(e1b.pending, removed), ..e1b }, true)
                    } else {
                        (dd, e1b, false)
                    }
                },
                PaintTool::Draw => {
                    let (dd, r) = spec_add_draw_stroke(
                        d,
                        e.primitive,
                        clamp_size(e.size_index),
                        e.color_index,
                        seq![cell],
                    );
                    if r is Some {
                        (dd, EditorView { pending: spec_push_draw_cell(e1b.pending, cell), ..e1b }, true)
                    } else {
                        (dd, e1b, false)
                    }
                },
            }
        }
    } else if !primary_down {
        (d, EditorView { last_paint_cell: None, ..e1 }, false)
    } else {
        (d, e1, false)
    };
    let e3 = if !primary_down {
        match spec_finalize(d2.active_tab_id, e2.pending).1 {
            Some(a) => EditorView { pending: PendingView::Idle, ..record_action(e2, a) },
            None => EditorView { pending: PendingView::Idle, ..e2 },
        }
    } else {
        e2
    };
    (d2, e3, changed)
}

/// Handles one frame of pointer input on the canvas; see `spec_draw_mode`.
/// Returns whether the document changed.
pub fn handle_draw_mode(
    document: &mut PaintDocument,
    editor: &mut EditorState,
    pointer_cell: Option<Cell>,
    primary_down: bool,
    ctrl: bool,
) -> (r: bool)
    ensures
        (final(document)@, final(editor)@, r) == spec_draw_mode(
            old(document)@,
            old(editor)@,
            pointer_cell,
            primary_down,
            ctrl,
        ),
        old(document)@.wf() ==> final(document)@.wf(),
{
    let mut changed = false;
    let idle = match editor.pending_draw_action {
        PendingDrawAction::Idle => true,
        _ => false,
    };
    if primary_down && idle {
        editor.pending_draw_action = match editor.tool {
            PaintTool::Draw => PendingDrawAction::Draw {
                primitive: editor.primitive,
                size_index: if editor.size_index <= 3 {
                    editor.size_index
                } else {
                    3
                },
                color_index: editor.color_index,
                cells: Vec::new(),
            },
            PaintTool::Erase => PendingDrawAction::Erase { cells: Vec::new() },
        };
    }
    if primary_down && pointer_cell.is_some() {
        let cell = pointer_cell.unwrap();
        let same = match editor.last_paint_cell {
            Some(last) => cell_eq(last, cell),
            None => false,
        };
        if !same {
            editor.last_paint_cell = Some(cell);
            match editor.tool {
                PaintTool::Erase => {
                    let removed = if ctrl {
                        erase_connected_color_at_cell(document, cell[0], cell[1])
                    } else {
                        erase_at_cell(document, cell[0], cell[1])
                    };
                    proof {
                        crate::domain::stroke::lemma_cell_eq(cell, [cell[0], cell[1]]);
                    }
                    if removed.len() > 0 {
                        push_erased_cells(&mut editor.pending_draw_action, removed);
                        changed = true;
                    }
                },
                PaintTool::Draw => {
                    let mut one: Vec<Cell> = Vec::new();
                    one.push(cell);
                    assert(one@ =~= seq![cell]);
                    let size = if editor.size_index <= 3 {
                        editor.size_index
                    } else {
                        3
                    };
                    let stroke_added = add_draw_stroke(
                        document,
                        editor.primitive,
                        size,
                        editor.color_index,
                        one,
                    ).is_some();
                    if stroke_added {
                        push_draw_cell(&mut editor.pending_draw_action, cell);
                        changed = true;
                    }
                },
            }
        }
    } else if !primary_down {
        editor.last_paint_cell = None;
    }
    let ghost e2 = editor@;
    if !primary_down {
        let tab_id = document.active_tab_id;
        if let Some(action) = finalize_pending_action(tab_id, &mut editor.pending_draw_action) {
            editor.draw_undo_stack.push(action);
            if editor.draw_undo_stack.len() > UNDO_HISTORY_LIMIT {
                let _ = editor.draw_undo_stack.remove(0);
            }
            editor.draw_redo_stack.clear();
        }
        editor.pending_draw_action = PendingDrawAction::Idle;
        proof {
            let a = spec_finalize(tab_id, e2.pending).1;
            if a is Some {
                let u = e2.undo.push(a.unwrap());
                if u.len() > UNDO_HISTORY_LIMIT {
                    assert(editor@.undo =~= u.drop_first());
                } else {
                    assert(editor@.undo =~= u);
                }
                assert(editor@.redo =~= Seq::<HistoryView>::empty());
                assert(editor@ == EditorView { pending: PendingView::Idle, ..record_action(e2, a.unwrap()) });
            } else {
                assert(editor@ == EditorView { pending: PendingView::Idle, ..e2 });
            }
        }
    }
    proof {
        if old(document)@.wf() {
            assert(document@ == spec_draw_mode(old(document)@, old(editor)@, pointer_cell, primary_down, ctrl).0);
            lemma_draw_mode_ok(old(document)@, old(editor)@, pointer_cell, primary_down, ctrl);
            lemma_strokes_edit_wf(old(document)@, document@);
        }
    }
    changed
}

} // verus!
