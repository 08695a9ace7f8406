use super::flood::spec_erase_connected;
use super::input::{
    add_new_styled, draw_styled, record_action, spec_apply_action, spec_draw_mode, spec_finalize,
    spec_push_draw_cell, spec_push_erased_cells, spec_redo_editor, spec_revert_action, spec_undo_editor,
    UNDO_HISTORY_LIMIT,
};
use super::strokes::{cells_without, erase_strokes, erased_cells};
use crate::domain::history::PendingView;
use super::strokes::{
    cells_kept, drop_empty, fresh_stroke_id, same_style, spec_add_draw_stroke, spec_erase_at_cell,
    spec_remove_styled, spec_restore, spec_restore_styled, strip_strokes, strokes_after_add,
    styled_of,
};
use crate::app::editor_state::EditorView;
use crate::domain::document::{
    has_tab, lemma_same_ids, lemma_update_strokes_ok, no_empty_strokes, same_ids, tab_pos, DocView,
};
use crate::domain::history::{HistoryView, StyledCell};
use crate::domain::stroke::{Cell, DrawPrimitive, StrokeView};
use super::picture::{action_cells, action_tab, lemma_apply_picture, lemma_revert_picture};
use vstd::prelude::*;

verus! {

/// `r` came from `d` by changing strokes only: the tabs stay consistent, keep
/// their ids and order, and the active tab and the tab counter stay.
pub open spec fn strokes_edit(d: DocView, r: DocView) -> bool {
    &&& r.tabs_ok()
    &&& same_ids(d.tabs, r.tabs)
    &&& r.active_tab_id == d.active_tab_id
    &&& r.next_tab_id == d.next_tab_id
}

/// A consistent document stays consistent under an edit of its strokes.
pub proof fn lemma_strokes_edit_wf(d: DocView, r: DocView)
    requires
        d.wf(),
        strokes_edit(d, r),
    ensures
        r.wf(),
{
    lemma_same_ids(d.tabs, r.tabs, d.active_tab_id);
}

/// Dropping empty strokes leaves no empty stroke and only strokes there were.
pub proof fn lemma_drop_empty(st: Seq<StrokeView>)
    ensures
        no_empty_strokes(drop_empty(st)),
        forall|k: int| 0 <= k < drop_empty(st).len() ==> st.contains(#[trigger] drop_empty(st)[k]),
    decreases st.len(),
{
    if st.len() > 0 {
        let init = st.drop_last();
        lemma_drop_empty(init);
        let rest = drop_empty(init);
        let r = drop_empty(st);
        assert forall|k: int| 0 <= k < r.len() implies st.contains(#[trigger] r[k]) by {
            if k < rest.len() {
                assert(r[k] == rest[k]);
                let m = choose|m: int| 0 <= m < init.len() && init[m] == rest[k];
                assert(st[m] == init[m]);
            } else {
                assert(r[k] == st.last());
                assert(st[st.len() - 1] == st.last());
            }
        }
        assert forall|k: int| 0 <= k < r.len() implies #[trigger] r[k].cells.len() > 0 by {
            if k < rest.len() {
                assert(r[k] == rest[k]);
            }
        }
    }
}

/// Adding cells keeps every stroke non-empty.
pub proof fn lemma_strokes_after_add_ok(
    st: Seq<StrokeView>,
    id: u64,
    primitive: DrawPrimitive,
    size_index: u8,
    color_index: u8,
    cells: Seq<Cell>,
)
    requires
        no_empty_strokes(st),
        cells.len() > 0,
    ensures
        no_empty_strokes(strokes_after_add(st, id, primitive, size_index, color_index, cells).0),
{
    let ns = strokes_after_add(st, id, primitive, size_index, color_index, cells).0;
    assert forall|k: int| 0 <= k < ns.len() implies #[trigger] ns[k].cells.len() > 0 by {
        if k < st.len() {
            if k == st.len() - 1 {
                assert(st[k].cells.len() > 0);
            } else {
                assert(ns[k] == st[k]);
            }
        }
    }
}

/// Drawing only edits strokes.
pub proof fn lemma_add_draw_stroke_ok(
    d: DocView,
    primitive: DrawPrimitive,
    size_index: u8,
    color_index: u8,
    cells: Seq<Cell>,
)
    requires
        d.tabs_ok(),
    ensures
        strokes_edit(d, spec_add_draw_stroke(d, primitive, size_index, color_index, cells).0),
{
    let r = spec_add_draw_stroke(d, primitive, size_index, color_index, cells).0;
    if cells.len() > 0 {
        match d.active_pos() {
            Some(i) => {
                assert(d.tabs[i] == d.tabs[i]);
                let ns = strokes_after_add(d.tabs[i].strokes, super::strokes::fresh_stroke_id(d), primitive, size_index, color_index, cells).0;
                lemma_strokes_after_add_ok(d.tabs[i].strokes, super::strokes::fresh_stroke_id(d), primitive, size_index, color_index, cells);
                lemma_update_strokes_ok(d, i, ns, r.next_stroke_id);
            },
            None => {
                assert(same_ids(d.tabs, r.tabs));
            },
        }
    } else {
        assert(same_ids(d.tabs, r.tabs));
    }
}

/// Erasing a cell only edits strokes.
pub proof fn lemma_erase_at_cell_ok(d: DocView, c: Cell)
    requires
        d.tabs_ok(),
    ensures
        strokes_edit(d, spec_erase_at_cell(d, c).0),
{
    let r = spec_erase_at_cell(d, c).0;
    match d.active_pos() {
        Some(i) => {
            let ns = drop_empty(super::strokes::erase_strokes(d.tabs[i].strokes, c));
            lemma_drop_empty(super::strokes::erase_strokes(d.tabs[i].strokes, c));
            lemma_update_strokes_ok(d, i, ns, d.next_stroke_id);
        },
        None => {
            assert(same_ids(d.tabs, r.tabs));
        },
    }
}

/// Flood erasing only edits strokes.
pub proof fn lemma_erase_connected_ok(d: DocView, c: Cell)
    requires
        d.tabs_ok(),
    ensures
        strokes_edit(d, spec_erase_connected(d, c).0),
{
    let r = spec_erase_connected(d, c).0;
    if r == d {
        assert(same_ids(d.tabs, r.tabs));
    } else {
        let i = d.active_pos().unwrap();
        let st = d.tabs[i].strokes;
        let k = super::flood::seed_pos(st, c).unwrap();
        let p = st[k].primitive;
        let sz = st[k].size_index;
        let col = st[k].color_index;
        let area = super::flood::style_cells(st, p, sz, col);
        let fs = super::flood::flood_strokes(st, p, sz, col, area, c);
        lemma_drop_empty(fs);
        lemma_update_strokes_ok(d, i, drop_empty(fs), d.next_stroke_id);
    }
}

/// Removing styled cells only edits strokes.
pub proof fn lemma_remove_styled_ok(d: DocView, tab_id: u64, styled: Seq<StyledCell>)
    requires
        d.tabs_ok(),
    ensures
        strokes_edit(d, spec_remove_styled(d, tab_id, styled)),
{
    let r = spec_remove_styled(d, tab_id, styled);
    match crate::domain::document::tab_pos(d.tabs, tab_id) {
        Some(i) => {
            let ss = super::strokes::strip_strokes(d.tabs[i].strokes, styled);
            lemma_drop_empty(ss);
            lemma_update_strokes_ok(d, i, drop_empty(ss), d.next_stroke_id);
        },
        None => {
            assert(same_ids(d.tabs, r.tabs));
        },
    }
}

/// Drawing styled cells back one by one only edits strokes.
pub proof fn lemma_restore_ok(d: DocView, styled: Seq<StyledCell>)
    requires
        d.tabs_ok(),
    ensures
        strokes_edit(d, spec_restore(d, styled)),
    decreases styled.len(),
{
    if styled.len() == 0 {
        assert(same_ids(d.tabs, d.tabs));
    } else {
        lemma_restore_ok(d, styled.drop_last());
        let d0 = spec_restore(d, styled.drop_last());
        let sc = styled.last();
        lemma_add_draw_stroke_ok(d0, sc.primitive, sc.size_index, sc.color_index, seq![sc.cell]);
    }
}

/// Doing an action again only edits strokes.
pub proof fn lemma_apply_action_ok(d: DocView, a: HistoryView)
    requires
        d.tabs_ok(),
    ensures
        strokes_edit(d, spec_apply_action(d, a)),
{
    match a {
        HistoryView::Draw { tab_id, primitive, size_index, color_index, cells } => {
            let d1 = DocView { active_tab_id: tab_id, ..d };
            lemma_add_draw_stroke_ok(d1, primitive, size_index, color_index, cells);
        },
        HistoryView::Erase { tab_id, cells } => {
            lemma_remove_styled_ok(d, tab_id, cells);
        },
    }
}

/// Taking an action back only edits strokes.
pub proof fn lemma_revert_action_ok(d: DocView, a: HistoryView)
    requires
        d.tabs_ok(),
    ensures
        strokes_edit(d, spec_revert_action(d, a)),
{
    match a {
        HistoryView::Draw { tab_id, primitive, size_index, color_index, cells } => {
            lemma_remove_styled_ok(d, tab_id, draw_styled(primitive, size_index, color_index, cells));
        },
        HistoryView::Erase { tab_id, cells } => {
            let d1 = DocView { active_tab_id: tab_id, ..d };
            lemma_restore_ok(d1, cells);
        },
    }
}

/// Pointer input on the canvas only edits strokes.
pub proof fn lemma_draw_mode_ok(
    d: DocView,
    e: EditorView,
    pointer_cell: Option<Cell>,
    primary_down: bool,
    ctrl: bool,
)
    requires
        d.tabs_ok(),
    ensures
        strokes_edit(d, spec_draw_mode(d, e, pointer_cell, primary_down, ctrl).0),
{
    assert(same_ids(d.tabs, d.tabs));
    if primary_down && pointer_cell is Some {
        let cell = pointer_cell.unwrap();
        lemma_erase_at_cell_ok(d, cell);
        lemma_erase_connected_ok(d, cell);
        lemma_add_draw_stroke_ok(d, e.primitive, super::input::clamp_size(e.size_index), e.color_index, seq![cell]);
    }
}

/// Some stroke of the list holds the cell in the cell's style.
pub open spec fn painted(strokes: Seq<StrokeView>, sc: StyledCell) -> bool {
    exists|k: int|
        0 <= k < strokes.len() && same_style(strokes[k], sc.primitive, sc.size_index, sc.color_index)
            && #[trigger] strokes[k].cells.contains(sc.cell)
}

/// The first tab with the given id holds the cell in the cell's style.
pub open spec fn tab_painted(d: DocView, tab_id: u64, sc: StyledCell) -> bool {
    match tab_pos(d.tabs, tab_id) {
        Some(i) => painted(d.tabs[i].strokes, sc),
        None => false,
    }
}

/// Drawing keeps the tabs' ids and the active tab.
pub proof fn lemma_add_keeps_ids(
    d: DocView,
    primitive: DrawPrimitive,
    size_index: u8,
    color_index: u8,
    cells: Seq<Cell>,
)
    ensures
        same_ids(d.tabs, spec_add_draw_stroke(d, primitive, size_index, color_index, cells).0.tabs),
        spec_add_draw_stroke(d, primitive, size_index, color_index, cells).0.active_tab_id
            == d.active_tab_id,
{
    let r = spec_add_draw_stroke(d, primitive, size_index, color_index, cells).0;
    assert forall|j: int| 0 <= j < d.tabs.len() implies #[trigger] d.tabs[j].id == r.tabs[j].id by {}
}

/// Drawing styled cells back keeps the tabs' ids and the active tab.
pub proof fn lemma_restore_keeps_ids(d: DocView, styled: Seq<StyledCell>)
    ensures
        same_ids(d.tabs, spec_restore(d, styled).tabs),
        spec_restore(d, styled).active_tab_id == d.active_tab_id,
    decreases styled.len(),
{
    if styled.len() == 0 {
        assert(same_ids(d.tabs, d.tabs));
    } else {
        lemma_restore_keeps_ids(d, styled.drop_last());
        let d0 = spec_restore(d, styled.drop_last());
        let sc = styled.last();
        lemma_add_keeps_ids(d0, sc.primitive, sc.size_index, sc.color_index, seq![sc.cell]);
    }
}

/// Drawing never takes a painted cell away, on any tab.
pub proof fn lemma_add_keeps_painted(
    d: DocView,
    primitive: DrawPrimitive,
    size_index: u8,
    color_index: u8,
    cells: Seq<Cell>,
    tab_id: u64,
    sc: StyledCell,
)
    requires
        tab_painted(d, tab_id, sc),
    ensures
        tab_painted(spec_add_draw_stroke(d, primitive, size_index, color_index, cells).0, tab_id, sc),
{
    let r = spec_add_draw_stroke(d, primitive, size_index, color_index, cells).0;
    lemma_add_keeps_ids(d, primitive, size_index, color_index, cells);
    lemma_same_ids(d.tabs, r.tabs, tab_id);
    let t = tab_pos(d.tabs, tab_id).unwrap();
    if cells.len() > 0 && d.active_pos() is Some && d.active_pos().unwrap() == t {
        let st = d.tabs[t].strokes;
        let ns = strokes_after_add(st, fresh_stroke_id(d), primitive, size_index, color_index, cells).0;
        assert(r.tabs[t].strokes == ns);
        let k = choose|k: int|
            0 <= k < st.len() && same_style(st[k], sc.primitive, sc.size_index, sc.color_index)
                && #[trigger] st[k].cells.contains(sc.cell);
        if k == st.len() - 1 && st.len() > 0 && same_style(st.last(), primitive, size_index, color_index)
            && cells.len() == 1 {
            let m = choose|m: int| 0 <= m < st[k].cells.len() && st[k].cells[m] == sc.cell;
            if !st.last().cells.contains(cells[0]) {
                assert(ns[k].cells[m] == sc.cell);
            }
            assert(ns[k].cells.contains(sc.cell));
        } else {
            assert(ns[k] == st[k]);
        }
    }
}

/// Drawing cells on the active tab paints each of them in the given style.
pub proof fn lemma_add_paints(
    d: DocView,
    primitive: DrawPrimitive,
    size_index: u8,
    color_index: u8,
    cells: Seq<Cell>,
    cell: Cell,
)
    requires
        d.active_pos() is Some,
        cells.contains(cell),
    ensures
        tab_painted(
            spec_add_draw_stroke(d, primitive, size_index, color_index, cells).0,
            d.active_tab_id,
            StyledCell { primitive, size_index, color_index, cell },
        ),
{
    let r = spec_add_draw_stroke(d, primitive, size_index, color_index, cells).0;
    lemma_add_keeps_ids(d, primitive, size_index, color_index, cells);
    lemma_same_ids(d.tabs, r.tabs, d.active_tab_id);
    let i = d.active_pos().unwrap();
    let st = d.tabs[i].strokes;
    let ns = strokes_after_add(st, fresh_stroke_id(d), primitive, size_index, color_index, cells).0;
    assert(r.tabs[i].strokes == ns);
    if st.len() > 0 && same_style(st.last(), primitive, size_index, color_index) && cells.len() == 1 {
        let k = st.len() - 1;
        assert(cells[0] == cell);
        if !st.last().cells.contains(cells[0]) {
            assert(ns[k].cells[ns[k].cells.len() - 1] == cell);
        }
        assert(ns[k].cells.contains(cell));
        let sc = StyledCell { primitive, size_index, color_index, cell };
        assert(same_style(ns[k], sc.primitive, sc.size_index, sc.color_index));
        assert(ns[k].cells.contains(sc.cell));
        assert(painted(ns, sc));
    } else {
        let k = st.len() as int;
        assert(ns[k].cells == cells);
        assert(ns[k].cells.contains(cell));
        let sc = StyledCell { primitive, size_index, color_index, cell };
        assert(same_style(ns[k], sc.primitive, sc.size_index, sc.color_index));
        assert(ns[k].cells.contains(sc.cell));
        assert(painted(ns, sc));
    }
}

/// A kept cell is not listed in its stroke's style.
proof fn lemma_cells_kept(cells: Seq<Cell>, s: StrokeView, styled: Seq<StyledCell>, c: Cell)
    requires
        cells_kept(cells, s, styled).contains(c),
    ensures
        !styled.contains(styled_of(s, c)),
    decreases cells.len(),
{
    if cells.len() > 0 {
        let rest = cells_kept(cells.drop_last(), s, styled);
        if rest.contains(c) {
            lemma_cells_kept(cells.drop_last(), s, styled, c);
        } else {
            let r = cells_kept(cells, s, styled);
            let m = choose|m: int| 0 <= m < r.len() && r[m] == c;
            if m < rest.len() {
                assert(rest[m] == c);
            }
        }
    }
}

/// Stroke `k` after stripping is stroke `k` with its listed cells taken out.
proof fn lemma_strip_strokes_index(st: Seq<StrokeView>, styled: Seq<StyledCell>, k: int)
    requires
        0 <= k < st.len(),
    ensures
        strip_strokes(st, styled).len() == st.len(),
        strip_strokes(st, styled)[k] == (StrokeView { cells: cells_kept(st[k].cells, st[k], styled), ..st[k] }),
    decreases st.len(),
{
    super::strokes::lemma_strip_strokes_len(st, styled);
    if k < st.len() - 1 {
        lemma_strip_strokes_index(st.drop_last(), styled, k);
    }
}

/// After styled cells are taken out of a tab, none of them is painted there.
pub proof fn lemma_remove_styled_clears(d: DocView, tab_id: u64, styled: Seq<StyledCell>, sc: StyledCell)
    requires
        styled.contains(sc),
    ensures
        !tab_painted(spec_remove_styled(d, tab_id, styled), tab_id, sc),
{
    let r = spec_remove_styled(d, tab_id, styled);
    match tab_pos(d.tabs, tab_id) {
        None => {},
        Some(i) => {
            assert forall|j: int| 0 <= j < d.tabs.len() implies #[trigger] d.tabs[j].id == r.tabs[j].id by {}
            lemma_same_ids(d.tabs, r.tabs, tab_id);
            let ss = strip_strokes(d.tabs[i].strokes, styled);
            super::strokes::lemma_strip_strokes_len(d.tabs[i].strokes, styled);
            lemma_drop_empty(ss);
            let ns = drop_empty(ss);
            assert(r.tabs[i].strokes == ns);
            if painted(ns, sc) {
                let k = choose|k: int|
                    0 <= k < ns.len() && same_style(ns[k], sc.primitive, sc.size_index, sc.color_index)
                        && #[trigger] ns[k].cells.contains(sc.cell);
                assert(ss.contains(ns[k]));
                let m = choose|m: int| 0 <= m < ss.len() && ss[m] == ns[k];
                lemma_strip_strokes_index(d.tabs[i].strokes, styled, m);
                let s = d.tabs[i].strokes[m];
                lemma_cells_kept(s.cells, s, styled, sc.cell);
                assert(styled_of(s, sc.cell) == sc);
            }
        },
    }
}

/// Drawing styled cells back, one by one on the active tab, paints all of them.
pub proof fn lemma_restore_paints(d: DocView, styled: Seq<StyledCell>, sc: StyledCell)
    requires
        d.active_pos() is Some,
        styled.contains(sc),
    ensures
        tab_painted(spec_restore(d, styled), d.active_tab_id, sc),
    decreases styled.len(),
{
    let init = styled.drop_last();
    let d0 = spec_restore(d, init);
    let last = styled.last();
    lemma_restore_keeps_ids(d, init);
    lemma_same_ids(d.tabs, d0.tabs, d.active_tab_id);
    if init.contains(sc) {
        lemma_restore_paints(d, init, sc);
        lemma_add_keeps_painted(d0, last.primitive, last.size_index, last.color_index, seq![last.cell], d.active_tab_id, sc);
    } else {
        let m = choose|m: int| 0 <= m < styled.len() && styled[m] == sc;
        if m < init.len() {
            assert(init[m] == sc);
        }
        assert(sc == last);
        assert(seq![last.cell].contains(last.cell)) by {
            assert(seq![last.cell][0] == last.cell);
        }
        lemma_add_paints(d0, last.primitive, last.size_index, last.color_index, seq![last.cell], last.cell);
    }
}

/// Undoing a drawing: none of its cells is left painted in its style on its tab.
pub proof fn lemma_undo_draw_clears(d: DocView, a: HistoryView, cell: Cell)
    requires
        a is Draw,
        a->Draw_cells.contains(cell),
    ensures
        !tab_painted(
            spec_revert_action(d, a),
            a->Draw_tab_id,
            StyledCell {
                primitive: a->Draw_primitive,
                size_index: a->Draw_size_index,
                color_index: a->Draw_color_index,
                cell,
            },
        ),
{
    match a {
        HistoryView::Draw { tab_id, primitive, size_index, color_index, cells } => {
            let styled = draw_styled(primitive, size_index, color_index, cells);
            let m = choose|m: int| 0 <= m < cells.len() && cells[m] == cell;
            assert(styled[m] == StyledCell { primitive, size_index, color_index, cell });
            lemma_remove_styled_clears(d, tab_id, styled, StyledCell { primitive, size_index, color_index, cell });
        },
        _ => {},
    }
}

/// Redoing a drawing on an existing tab: each of its cells is painted in its style.
pub proof fn lemma_redo_draw_paints(d: DocView, a: HistoryView, cell: Cell)
    requires
        a is Draw,
        has_tab(d.tabs, a->Draw_tab_id),
        a->Draw_cells.contains(cell),
    ensures
        tab_painted(
            spec_apply_action(d, a),
            a->Draw_tab_id,
            StyledCell {
                primitive: a->Draw_primitive,
                size_index: a->Draw_size_index,
                color_index: a->Draw_color_index,
                cell,
            },
        ),
{
    match a {
        HistoryView::Draw { tab_id, primitive, size_index, color_index, cells } => {
            let d1 = DocView { active_tab_id: tab_id, ..d };
            crate::domain::document::lemma_has_tab_pos(d.tabs, tab_id);
            lemma_add_paints(d1, primitive, size_index, color_index, cells, cell);
        },
        _ => {},
    }
}

/// Undoing an erasure on an existing tab: each erased cell is painted again in
/// its style.
pub proof fn lemma_undo_erase_restores(d: DocView, a: HistoryView, sc: StyledCell)
    requires
        a is Erase,
        has_tab(d.tabs, a->Erase_tab_id),
        a->Erase_cells.contains(sc),
    ensures
        tab_painted(spec_revert_action(d, a), a->Erase_tab_id, sc),
{
    match a {
        HistoryView::Erase { tab_id, cells } => {
            let d1 = DocView { active_tab_id: tab_id, ..d };
            crate::domain::document::lemma_has_tab_pos(d.tabs, tab_id);
            lemma_restore_paints(d1, cells, sc);
        },
        _ => {},
    }
}

/// Redoing an erasure: none of the erased cells is left painted in its style.
pub proof fn lemma_redo_erase_clears(d: DocView, a: HistoryView, sc: StyledCell)
    requires
        a is Erase,
        a->Erase_cells.contains(sc),
    ensures
        !tab_painted(spec_apply_action(d, a), a->Erase_tab_id, sc),
{
    match a {
        HistoryView::Erase { tab_id, cells } => {
            lemma_remove_styled_clears(d, tab_id, cells, sc);
        },
        _ => {},
    }
}

/// Undo then redo leaves the undo and redo histories as they were.
pub proof fn lemma_undo_then_redo(e: EditorView)
    requires
        e.undo.len() > 0,
    ensures
        spec_redo_editor(spec_undo_editor(e)) == e,
{
    assert(e.undo.drop_last().push(e.undo.last()) =~= e.undo);
    assert(e.redo.push(e.undo.last()).drop_last() =~= e.redo);
}

/// Redo then undo leaves the undo and redo histories as they were.
pub proof fn lemma_redo_then_undo(e: EditorView)
    requires
        e.redo.len() > 0,
    ensures
        spec_undo_editor(spec_redo_editor(e)) == e,
{
    assert(e.redo.drop_last().push(e.redo.last()) =~= e.redo);
    assert(e.undo.push(e.redo.last()).drop_last() =~= e.undo);
}

/// Pointer input never lets the undo history grow past its limit, and a
/// finished gesture that changed something empties the redo history.
pub proof fn lemma_draw_mode_history(
    d: DocView,
    e: EditorView,
    pointer_cell: Option<Cell>,
    primary_down: bool,
    ctrl: bool,
)
    requires
        e.undo.len() <= UNDO_HISTORY_LIMIT,
    ensures
        spec_draw_mode(d, e, pointer_cell, primary_down, ctrl).1.undo.len() <= UNDO_HISTORY_LIMIT,
        !primary_down ==> spec_draw_mode(d, e, pointer_cell, primary_down, ctrl).1.pending
            == PendingView::Idle,
        !primary_down ==> spec_draw_mode(d, e, pointer_cell, primary_down, ctrl).1.last_paint_cell
            is None,
{
}

/// `c` is gone from the cells, and only `c` was taken out.
proof fn lemma_cells_without(cells: Seq<Cell>, c: Cell)
    ensures
        !cells_without(cells, c).contains(c),
    decreases cells.len(),
{
    if cells.len() > 0 {
        lemma_cells_without(cells.drop_last(), c);
        let rest = cells_without(cells.drop_last(), c);
        if cells.last() != c {
            assert forall|m: int| 0 <= m < rest.len() + 1 implies rest.push(cells.last())[m] != c by {
                if m < rest.len() {
                    assert(rest.push(cells.last())[m] == rest[m]);
                }
            }
        }
    }
}

/// Stroke `k` after erasing is stroke `k` without `c`.
pub(crate) proof fn lemma_erase_strokes_index(st: Seq<StrokeView>, c: Cell, k: int)
    requires
        0 <= k < st.len(),
    ensures
        erase_strokes(st, c)[k] == (StrokeView { cells: cells_without(st[k].cells, c), ..st[k] }),
    decreases st.len(),
{
    super::strokes::lemma_erase_strokes_len(st, c);
    if k < st.len() - 1 {
        lemma_erase_strokes_index(st.drop_last(), c, k);
        super::strokes::lemma_erase_strokes_len(st.drop_last(), c);
    }
}

/// Every erased entry is the erased cell.
proof fn lemma_erased_cells(st: Seq<StrokeView>, c: Cell)
    ensures
        forall|m: int| 0 <= m < erased_cells(st, c).len() ==> (#[trigger] erased_cells(st, c)[m]).cell == c,
    decreases st.len(),
{
    if st.len() > 0 {
        lemma_erased_cells(st.drop_last(), c);
        let rest = erased_cells(st.drop_last(), c);
        let tail = Seq::new(super::strokes::count_cell(st.last().cells, c), |k: int| styled_of(st.last(), c));
        assert forall|m: int| 0 <= m < erased_cells(st, c).len() implies (#[trigger] erased_cells(st, c)[m]).cell == c by {
            if m < rest.len() {
                assert(erased_cells(st, c)[m] == rest[m]);
            } else {
                assert(erased_cells(st, c)[m] == tail[m - rest.len()]);
            }
        }
    }
}

/// After erasing a cell, no stroke of the active tab holds it, and every erased
/// entry is that cell.
pub proof fn lemma_erase_at_cell_clears(d: DocView, c: Cell)
    ensures
        forall|m: int|
            0 <= m < spec_erase_at_cell(d, c).1.len() ==> (#[trigger] spec_erase_at_cell(d, c).1[m]).cell
                == c,
        d.active_pos() is Some ==> {
            let r = spec_erase_at_cell(d, c).0;
            let i = d.active_pos().unwrap();
            forall|k: int|
                0 <= k < r.tabs[i].strokes.len() ==> !(#[trigger] r.tabs[i].strokes[k]).cells.contains(c)
        },
{
    match d.active_pos() {
        None => {},
        Some(i) => {
            let st = d.tabs[i].strokes;
            let es = erase_strokes(st, c);
            lemma_erased_cells(st, c);
            lemma_drop_empty(es);
            super::strokes::lemma_erase_strokes_len(st, c);
            let r = spec_erase_at_cell(d, c).0;
            assert forall|k: int| 0 <= k < r.tabs[i].strokes.len() implies !(#[trigger] r.tabs[i].strokes[k]).cells.contains(c) by {
                let s = r.tabs[i].strokes[k];
                assert(es.contains(s));
                let m = choose|m: int| 0 <= m < es.len() && es[m] == s;
                lemma_erase_strokes_index(st, c, m);
                lemma_cells_without(st[m].cells, c);
            }
        },
    }
}

/// Drawing a cell into a gesture keeps its cells distinct.
pub proof fn lemma_push_draw_cell_distinct(p: PendingView, cell: Cell)
    requires
        p matches PendingView::Draw { cells, .. } ==> cells.no_duplicates(),
    ensures
        spec_push_draw_cell(p, cell) matches PendingView::Draw { cells, .. } ==> cells.no_duplicates(),
{
}

/// Adding erased cells to a gesture keeps its cells distinct.
pub proof fn lemma_add_new_styled_distinct(cells: Seq<StyledCell>, removed: Seq<StyledCell>)
    requires
        cells.no_duplicates(),
    ensures
        add_new_styled(cells, removed).no_duplicates(),
        forall|m: int| 0 <= m < removed.len() ==> add_new_styled(cells, removed).contains(#[trigger] removed[m]),
    decreases removed.len(),
{
    if removed.len() > 0 {
        let init = removed.drop_last();
        lemma_add_new_styled_distinct(cells, init);
        let before = add_new_styled(cells, init);
        let after = add_new_styled(cells, removed);
        assert forall|m: int| 0 <= m < removed.len() implies after.contains(#[trigger] removed[m]) by {
            if m < init.len() {
                assert(init[m] == removed[m]);
                assert(before.contains(init[m]));
                let j = choose|j: int| 0 <= j < before.len() && before[j] == init[m];
                if !before.contains(removed.last()) {
                    assert(after[j] == before[j]);
                }
            } else {
                if !before.contains(removed.last()) {
                    assert(after[before.len() as int] == removed.last());
                }
            }
        }
    }
}

/// Cells kept by flood erasing are not connected to the start.
proof fn lemma_cells_apart(cells: Seq<Cell>, area: Seq<Cell>, from: Cell, x: Cell)
    requires
        super::flood::cells_apart(cells, area, from).contains(x),
    ensures
        !super::flood::connected(area, from, x),
    decreases cells.len(),
{
    if cells.len() > 0 {
        let rest = super::flood::cells_apart(cells.drop_last(), area, from);
        if rest.contains(x) {
            lemma_cells_apart(cells.drop_last(), area, from, x);
        } else {
            let r = super::flood::cells_apart(cells, area, from);
            let m = choose|m: int| 0 <= m < r.len() && r[m] == x;
            if m < rest.len() {
                assert(rest[m] == x);
            }
        }
    }
}

/// Stroke `k` after flood erasing: strokes of the style lose the connected cells,
/// others stay.
pub(crate) proof fn lemma_flood_strokes_index(
    st: Seq<StrokeView>,
    primitive: DrawPrimitive,
    size_index: u8,
    color_index: u8,
    area: Seq<Cell>,
    from: Cell,
    k: int,
)
    requires
        0 <= k < st.len(),
    ensures
        super::flood::flood_strokes(st, primitive, size_index, color_index, area, from)[k] == (if same_style(
            st[k],
            primitive,
            size_index,
            color_index,
        ) {
            StrokeView { cells: super::flood::cells_apart(st[k].cells, area, from), ..st[k] }
        } else {
            st[k]
        }),
    decreases st.len(),
{
    super::flood::lemma_flood_strokes_len(st, primitive, size_index, color_index, area, from);
    if k < st.len() - 1 {
        lemma_flood_strokes_index(st.drop_last(), primitive, size_index, color_index, area, from, k);
        super::flood::lemma_flood_strokes_len(st.drop_last(), primitive, size_index, color_index, area, from);
    }
}

/// After flood erasing from `c`, no stroke of the active tab in the erased style
/// holds a cell that was connected to `c` (`c` itself included).
pub proof fn lemma_erase_connected_clears(d: DocView, c: Cell)
    ensures
        ({
            let r = spec_erase_connected(d, c).0;
            match d.active_pos() {
                Some(i) => match super::flood::seed_pos(d.tabs[i].strokes, c) {
                    Some(k) => {
                        let st = d.tabs[i].strokes;
                        let area = super::flood::style_cells(st, st[k].primitive, st[k].size_index, st[k].color_index);
                        forall|j: int, x: Cell|
                            0 <= j < r.tabs[i].strokes.len() && same_style(
                                r.tabs[i].strokes[j],
                                st[k].primitive,
                                st[k].size_index,
                                st[k].color_index,
                            ) && #[trigger] r.tabs[i].strokes[j].cells.contains(x) ==> !super::flood::connected(
                                area,
                                c,
                                x,
                            )
                    },
                    None => r == d,
                },
                None => r == d,
            }
        }),
{
    let r = spec_erase_connected(d, c).0;
    match d.active_pos() {
        Some(i) => match super::flood::seed_pos(d.tabs[i].strokes, c) {
            Some(k) => {
                let st = d.tabs[i].strokes;
                let p = st[k].primitive;
                let sz = st[k].size_index;
                let col = st[k].color_index;
                let area = super::flood::style_cells(st, p, sz, col);
                if area.contains(c) {
                    let fs = super::flood::flood_strokes(st, p, sz, col, area, c);
                    lemma_drop_empty(fs);
                    super::flood::lemma_flood_strokes_len(st, p, sz, col, area, c);
                    assert forall|j: int, x: Cell|
                        0 <= j < r.tabs[i].strokes.len() && same_style(r.tabs[i].strokes[j], p, sz, col)
                            && #[trigger] r.tabs[i].strokes[j].cells.contains(x) implies !super::flood::connected(
                        area,
                        c,
                        x,
                    ) by {
                        let s = r.tabs[i].strokes[j];
                        assert(fs.contains(s));
                        let m = choose|m: int| 0 <= m < fs.len() && fs[m] == s;
                        lemma_flood_strokes_index(st, p, sz, col, area, c, m);
                        lemma_cells_apart(st[m].cells, area, c, x);
                    }
                } else {
                    lemma_seed_pos_holds(st, c);
                    lemma_seed_in_area(st, c, k);
                }
            },
            None => {},
        },
        None => {},
    }
}

/// The cells of a stroke are among the cells of its style.
proof fn lemma_seed_in_area(st: Seq<StrokeView>, c: Cell, k: int)
    requires
        0 <= k < st.len(),
        st[k].cells.contains(c),
    ensures
        super::flood::style_cells(st, st[k].primitive, st[k].size_index, st[k].color_index).contains(c),
    decreases st.len(),
{
    let p = st[k].primitive;
    let sz = st[k].size_index;
    let col = st[k].color_index;
    let rest = super::flood::style_cells(st.drop_last(), p, sz, col);
    if k < st.len() - 1 {
        lemma_seed_in_area(st.drop_last(), c, k);
        let m = choose|m: int| 0 <= m < rest.len() && rest[m] == c;
        if same_style(st.last(), p, sz, col) {
            assert((rest + st.last().cells)[m] == c);
        }
    } else {
        let m = choose|m: int| 0 <= m < st[k].cells.len() && st[k].cells[m] == c;
        assert((rest + st.last().cells)[rest.len() + m] == c);
    }
}

/// The stroke `seed_pos` names holds the cell.
proof fn lemma_seed_pos_holds(st: Seq<StrokeView>, c: Cell)
    requires
        super::flood::seed_pos(st, c) is Some,
    ensures
        0 <= super::flood::seed_pos(st, c).unwrap() < st.len(),
        st[super::flood::seed_pos(st, c).unwrap()].cells.contains(c),
    decreases st.len(),
{
    if !st.last().cells.contains(c) {
        lemma_seed_pos_holds(st.drop_last(), c);
        let k = super::flood::seed_pos(st.drop_last(), c).unwrap();
        assert(st.drop_last()[k] == st[k]);
    }
}

/// An action's cells are as the action left them on its tab: a drawing's cells
/// are painted, an erasure's cells are not.
pub open spec fn action_in_effect(d: DocView, a: HistoryView) -> bool {
    &&& a is Draw ==> forall|x: StyledCell| action_cells(a).contains(x) ==> tab_painted(d, action_tab(a), x)
    &&& a is Erase ==> forall|x: StyledCell| action_cells(a).contains(x) ==> !tab_painted(d, action_tab(a), x)
}

/// An action's cells are as before the action: a drawing's cells are not painted
/// on its tab, an erasure's cells are.
pub open spec fn action_undone(d: DocView, a: HistoryView) -> bool {
    &&& a is Draw ==> forall|x: StyledCell| action_cells(a).contains(x) ==> !tab_painted(d, action_tab(a), x)
    &&& a is Erase ==> forall|x: StyledCell| action_cells(a).contains(x) ==> tab_painted(d, action_tab(a), x)
}

/// A painted cell lies on an existing tab.
proof fn lemma_painted_has_tab(d: DocView, t: u64, sc: StyledCell)
    requires
        tab_painted(d, t, sc),
    ensures
        has_tab(d.tabs, t),
{
    let i = tab_pos(d.tabs, t).unwrap();
    assert(0 <= i < d.tabs.len() && d.tabs[i].id == t);
}

/// Undo followed by redo (as `apply_draw_undo` then `apply_draw_redo` do them)
/// gives the undo and redo histories back, keeps the active tab, and leaves every
/// tab painting exactly the cells it painted before, provided the latest action's
/// cells were as the action left them.
pub proof fn lemma_undo_then_redo_document(d: DocView, e: EditorView, t: u64, sc: StyledCell)
    requires
        e.undo.len() > 0,
        action_in_effect(d, e.undo.last()),
    ensures
        ({
            let a = e.undo.last();
            let d1 = spec_revert_action(d, a);
            let e1 = spec_undo_editor(e);
            let d2 = spec_apply_action(d1, e1.redo.last());
            let e2 = spec_redo_editor(e1);
            &&& e1.redo.len() > 0
            &&& e2 == e
            &&& d2.active_tab_id == d.active_tab_id
            &&& tab_painted(d2, t, sc) == tab_painted(d, t, sc)
        }),
{
    let a = e.undo.last();
    let d1 = spec_revert_action(d, a);
    let e1 = spec_undo_editor(e);
    assert(e1.redo.last() == a);
    lemma_undo_then_redo(e);
    lemma_revert_picture(d, a, t, sc);
    lemma_same_ids(d.tabs, d1.tabs, action_tab(a));
    lemma_apply_picture(d1, a, t, sc);
    if t == action_tab(a) && action_cells(a).contains(sc) {
        lemma_revert_picture(d, a, action_tab(a), sc);
        if a is Draw {
            lemma_painted_has_tab(d, action_tab(a), sc);
        }
    }
}

/// Redo followed by undo (as `apply_draw_redo` then `apply_draw_undo` do them)
/// gives the undo and redo histories back, keeps the active tab, and leaves every
/// tab painting exactly the cells it painted before, provided the latest undone
/// action's cells were as before the action.
pub proof fn lemma_redo_then_undo_document(d: DocView, e: EditorView, t: u64, sc: StyledCell)
    requires
        e.redo.len() > 0,
        action_undone(d, e.redo.last()),
    ensures
        ({
            let a = e.redo.last();
            let d1 = spec_apply_action(d, a);
            let e1 = spec_redo_editor(e);
            let d2 = spec_revert_action(d1, e1.undo.last());
            let e2 = spec_undo_editor(e1);
            &&& e1.undo.len() > 0
            &&& e2 == e
            &&& d2.active_tab_id == d.active_tab_id
            &&& tab_painted(d2, t, sc) == tab_painted(d, t, sc)
        }),
{
    let a = e.redo.last();
    let d1 = spec_apply_action(d, a);
    let e1 = spec_redo_editor(e);
    assert(e1.undo.last() == a);
    lemma_redo_then_undo(e);
    lemma_apply_picture(d, a, t, sc);
    lemma_same_ids(d.tabs, d1.tabs, action_tab(a));
    lemma_revert_picture(d1, a, t, sc);
    if t == action_tab(a) && action_cells(a).contains(sc) {
        lemma_apply_picture(d, a, action_tab(a), sc);
        if a is Erase {
            lemma_painted_has_tab(d, action_tab(a), sc);
        }
    }
}

} // verus!
