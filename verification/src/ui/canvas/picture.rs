use super::laws::{
    lemma_add_keeps_ids, lemma_add_keeps_painted, lemma_add_paints, lemma_drop_empty,
    lemma_erase_strokes_index, lemma_flood_strokes_index, lemma_restore_keeps_ids, painted,
    tab_painted,
};
use super::flood::{
    cells_apart, connected, flood_removed, flood_strokes, seed_pos, spec_erase_connected, style_cells,
    styled_within,
};
use super::strokes::{
    cells_kept, cells_without, count_cell, drop_empty, erase_strokes, erased_cells, fresh_stroke_id,
    spec_erase_at_cell, same_style, spec_add_draw_stroke, spec_remove_styled,
    spec_restore, spec_restore_styled, strip_strokes, strokes_after_add, styled_of,
};
use super::input::{clamp_size, draw_styled, spec_apply_action, spec_draw_mode, spec_revert_action};
use crate::app::editor_state::{EditorView, PaintTool};
use crate::domain::document::{has_tab, lemma_has_tab_pos, lemma_same_ids, same_ids, tab_pos, DocView};
use crate::domain::history::{HistoryView, StyledCell};
use crate::domain::stroke::{Cell, DrawPrimitive, StrokeView};
use crate::domain::tab::TabView;
use vstd::prelude::*;

verus! {

/// Dropping empty strokes keeps every stroke that holds a cell.
proof fn lemma_drop_empty_keeps(st: Seq<StrokeView>, k: int)
    requires
        0 <= k < st.len(),
        st[k].cells.len() > 0,
    ensures
        drop_empty(st).contains(st[k]),
    decreases st.len(),
{
    let init = st.drop_last();
    let rest = drop_empty(init);
    if k < st.len() - 1 {
        assert(init[k] == st[k]);
        lemma_drop_empty_keeps(init, k);
        let m = choose|m: int| 0 <= m < rest.len() && rest[m] == st[k];
        if st.last().cells.len() > 0 {
            assert(rest.push(st.last())[m] == st[k]);
        }
    } else {
        assert(rest.push(st.last())[rest.len() as int] == st[k]);
    }
}

/// Dropping empty strokes changes no painted cell.
proof fn lemma_drop_empty_painted(st: Seq<StrokeView>, sc: StyledCell)
    ensures
        painted(drop_empty(st), sc) == painted(st, sc),
{
    let de = drop_empty(st);
    lemma_drop_empty(st);
    if painted(de, sc) {
        let k = choose|k: int|
            0 <= k < de.len() && same_style(de[k], sc.primitive, sc.size_index, sc.color_index)
                && #[trigger] de[k].cells.contains(sc.cell);
        let m = choose|m: int| 0 <= m < st.len() && st[m] == de[k];
        assert(st[m].cells.contains(sc.cell));
    }
    if painted(st, sc) {
        let k = choose|k: int|
            0 <= k < st.len() && same_style(st[k], sc.primitive, sc.size_index, sc.color_index)
                && #[trigger] st[k].cells.contains(sc.cell);
        lemma_drop_empty_keeps(st, k);
        let m = choose|m: int| 0 <= m < de.len() && de[m] == st[k];
        assert(de[m].cells.contains(sc.cell));
    }
}

/// The kept cells are the cells whose styled form is not listed.
proof fn lemma_cells_kept_iff(cells: Seq<Cell>, s: StrokeView, styled: Seq<StyledCell>, c: Cell)
    ensures
        cells_kept(cells, s, styled).contains(c) == (cells.contains(c) && !styled.contains(
            styled_of(s, c),
        )),
    decreases cells.len(),
{
    if cells.len() > 0 {
        let init = cells.drop_last();
        let rest = cells_kept(init, s, styled);
        let r = cells_kept(cells, s, styled);
        lemma_cells_kept_iff(init, s, styled, c);
        if r.contains(c) {
            let m = choose|m: int| 0 <= m < r.len() && r[m] == c;
            if m < rest.len() {
                assert(rest[m] == c);
                let j = choose|j: int| 0 <= j < init.len() && init[j] == c;
                assert(cells[j] == c);
            } else {
                assert(cells[cells.len() - 1] == c);
            }
        }
        if cells.contains(c) && !styled.contains(styled_of(s, c)) {
            let j = choose|j: int| 0 <= j < cells.len() && cells[j] == c;
            if j < init.len() {
                assert(init[j] == c);
                let m = choose|m: int| 0 <= m < rest.len() && rest[m] == c;
                if !styled.contains(styled_of(s, cells.last())) {
                    assert(r[m] == c);
                }
            } else {
                assert(r[rest.len() as int] == c);
            }
        }
    }
}

/// Stroke `k` after stripping is stroke `k` with its listed cells taken out.
proof fn lemma_strip_index(st: Seq<StrokeView>, styled: Seq<StyledCell>, k: int)
    requires
        0 <= k < st.len(),
    ensures
        strip_strokes(st, styled).len() == st.len(),
        strip_strokes(st, styled)[k] == (StrokeView {
            cells: cells_kept(st[k].cells, st[k], styled),
            ..st[k]
        }),
    decreases st.len(),
{
    super::strokes::lemma_strip_strokes_len(st, styled);
    if k < st.len() - 1 {
        lemma_strip_index(st.drop_last(), styled, k);
    }
}

/// After the listed cells are stripped, a cell is painted exactly when it was
/// painted and is not listed.
proof fn lemma_strip_painted(st: Seq<StrokeView>, styled: Seq<StyledCell>, sc: StyledCell)
    ensures
        painted(strip_strokes(st, styled), sc) == (painted(st, sc) && !styled.contains(sc)),
{
    let ss = strip_strokes(st, styled);
    super::strokes::lemma_strip_strokes_len(st, styled);
    if painted(ss, sc) {
        let k = choose|k: int|
            0 <= k < ss.len() && same_style(ss[k], sc.primitive, sc.size_index, sc.color_index)
                && #[trigger] ss[k].cells.contains(sc.cell);
        lemma_strip_index(st, styled, k);
        lemma_cells_kept_iff(st[k].cells, st[k], styled, sc.cell);
        assert(styled_of(st[k], sc.cell) == sc);
        assert(st[k].cells.contains(sc.cell));
    }
    if painted(st, sc) && !styled.contains(sc) {
        let k = choose|k: int|
            0 <= k < st.len() && same_style(st[k], sc.primitive, sc.size_index, sc.color_index)
                && #[trigger] st[k].cells.contains(sc.cell);
        lemma_strip_index(st, styled, k);
        assert(styled_of(st[k], sc.cell) == sc);
        lemma_cells_kept_iff(st[k].cells, st[k], styled, sc.cell);
        assert(ss[k].cells.contains(sc.cell));
    }
}

/// The first tab with an id carries that id.
proof fn lemma_tab_pos_id(tabs: Seq<TabView>, id: u64)
    requires
        tab_pos(tabs, id) is Some,
    ensures
        0 <= tab_pos(tabs, id).unwrap() < tabs.len(),
        tabs[tab_pos(tabs, id).unwrap()].id == id,
{
}

/// Taking listed cells out of a tab: on that tab a cell stays painted exactly when
/// it was painted and is not listed; other tabs keep their cells.
pub proof fn lemma_remove_styled_picture(
    d: DocView,
    tab_id: u64,
    styled: Seq<StyledCell>,
    t: u64,
    sc: StyledCell,
)
    ensures
        same_ids(d.tabs, spec_remove_styled(d, tab_id, styled).tabs),
        tab_painted(spec_remove_styled(d, tab_id, styled), t, sc) == (tab_painted(d, t, sc) && !(t
            == tab_id && styled.contains(sc))),
{
    let r = spec_remove_styled(d, tab_id, styled);
    match tab_pos(d.tabs, tab_id) {
        None => {
            assert(same_ids(d.tabs, r.tabs));
        },
        Some(i) => {
            assert forall|j: int| 0 <= j < d.tabs.len() implies #[trigger] d.tabs[j].id
                == r.tabs[j].id by {}
            lemma_same_ids(d.tabs, r.tabs, t);
            lemma_tab_pos_id(d.tabs, tab_id);
            match tab_pos(d.tabs, t) {
                None => {},
                Some(j) => {
                    lemma_tab_pos_id(d.tabs, t);
                    if j == i {
                        let ss = strip_strokes(d.tabs[i].strokes, styled);
                        lemma_drop_empty_painted(ss, sc);
                        lemma_strip_painted(d.tabs[i].strokes, styled, sc);
                    } else {
                        assert(r.tabs[j] == d.tabs[j]);
                    }
                },
            }
        },
    }
}

/// The cell is drawn by drawing `cells` in the given style on the active tab.
pub open spec fn adds_cell(
    d: DocView,
    primitive: DrawPrimitive,
    size_index: u8,
    color_index: u8,
    cells: Seq<Cell>,
    t: u64,
    sc: StyledCell,
) -> bool {
    &&& t == d.active_tab_id
    &&& d.active_pos() is Some
    &&& sc.primitive == primitive
    &&& sc.size_index == size_index
    &&& sc.color_index == color_index
    &&& cells.contains(sc.cell)
}

/// What the new strokes paint after cells were added: what the old ones painted,
/// and the added cells in their style.
proof fn lemma_strokes_after_add_painted(
    st: Seq<StrokeView>,
    id: u64,
    primitive: DrawPrimitive,
    size_index: u8,
    color_index: u8,
    cells: Seq<Cell>,
    sc: StyledCell,
)
    requires
        painted(strokes_after_add(st, id, primitive, size_index, color_index, cells).0, sc),
    ensures
        painted(st, sc) || (sc.primitive == primitive && sc.size_index == size_index
            && sc.color_index == color_index && cells.contains(sc.cell)),
{
    let ns = strokes_after_add(st, id, primitive, size_index, color_index, cells).0;
    let k = choose|k: int|
        0 <= k < ns.len() && same_style(ns[k], sc.primitive, sc.size_index, sc.color_index)
            && #[trigger] ns[k].cells.contains(sc.cell);
    if st.len() > 0 && same_style(st.last(), primitive, size_index, color_index) && cells.len() == 1 {
        let last = st.len() - 1;
        if k < last {
            assert(ns[k] == st[k]);
            assert(st[k].cells.contains(sc.cell));
        } else {
            let m = choose|m: int| 0 <= m < ns[k].cells.len() && ns[k].cells[m] == sc.cell;
            if m < st[last].cells.len() {
                assert(st[last].cells[m] == sc.cell);
                assert(st[last].cells.contains(sc.cell));
            } else {
                assert(sc.cell == cells[0]);
                assert(cells.contains(sc.cell));
            }
        }
    } else {
        if k < st.len() {
            assert(ns[k] == st[k]);
            assert(st[k].cells.contains(sc.cell));
        } else {
            assert(ns[k].cells == cells);
        }
    }
}

/// Drawing cells on the active tab: a cell is painted afterwards exactly when it
/// was painted before or is one of the drawn cells in the drawn style.
pub proof fn lemma_add_picture(
    d: DocView,
    primitive: DrawPrimitive,
    size_index: u8,
    color_index: u8,
    cells: Seq<Cell>,
    t: u64,
    sc: StyledCell,
)
    ensures
        tab_painted(spec_add_draw_stroke(d, primitive, size_index, color_index, cells).0, t, sc)
            == (tab_painted(d, t, sc) || adds_cell(
            d,
            primitive,
            size_index,
            color_index,
            cells,
            t,
            sc,
        )),
{
    let r = spec_add_draw_stroke(d, primitive, size_index, color_index, cells).0;
    lemma_add_keeps_ids(d, primitive, size_index, color_index, cells);
    lemma_same_ids(d.tabs, r.tabs, t);
    if tab_painted(d, t, sc) {
        lemma_add_keeps_painted(d, primitive, size_index, color_index, cells, t, sc);
    }
    if adds_cell(d, primitive, size_index, color_index, cells, t, sc) {
        lemma_add_paints(d, primitive, size_index, color_index, cells, sc.cell);
    }
    if tab_painted(r, t, sc) && !tab_painted(d, t, sc) {
        let j = tab_pos(d.tabs, t).unwrap();
        lemma_tab_pos_id(d.tabs, t);
        if cells.len() > 0 && d.active_pos() is Some {
            let i = d.active_pos().unwrap();
            lemma_tab_pos_id(d.tabs, d.active_tab_id);
            let st = d.tabs[i].strokes;
            if j == i {
                lemma_strokes_after_add_painted(
                    st,
                    fresh_stroke_id(d),
                    primitive,
                    size_index,
                    color_index,
                    cells,
                    sc,
                );
            } else {
                assert(r.tabs[j] == d.tabs[j]);
            }
        } else {
            assert(r.tabs == d.tabs);
        }
    }
}

/// Drawing styled cells back one by one on the active tab: a cell is painted
/// afterwards exactly when it was painted before or is one of them (when there is
/// an active tab).
pub proof fn lemma_restore_picture(d: DocView, styled: Seq<StyledCell>, t: u64, sc: StyledCell)
    ensures
        tab_painted(spec_restore(d, styled), t, sc) == (tab_painted(d, t, sc) || (t
            == d.active_tab_id && d.active_pos() is Some && styled.contains(sc))),
    decreases styled.len(),
{
    if styled.len() > 0 {
        let init = styled.drop_last();
        let last = styled.last();
        let d0 = spec_restore(d, init);
        lemma_restore_picture(d, init, t, sc);
        lemma_restore_keeps_ids(d, init);
        lemma_same_ids(d.tabs, d0.tabs, d.active_tab_id);
        lemma_add_picture(d0, last.primitive, last.size_index, last.color_index, seq![last.cell], t, sc);
        assert(seq![last.cell].contains(sc.cell) == (sc.cell == last.cell)) by {
            if seq![last.cell].contains(sc.cell) {
                let m = choose|m: int| 0 <= m < 1 && seq![last.cell][m] == sc.cell;
            }
            if sc.cell == last.cell {
                assert(seq![last.cell][0] == sc.cell);
            }
        }
        assert(styled.contains(sc) == (init.contains(sc) || sc == last)) by {
            if styled.contains(sc) {
                let m = choose|m: int| 0 <= m < styled.len() && styled[m] == sc;
                if m < init.len() {
                    assert(init[m] == sc);
                }
            }
            if init.contains(sc) {
                let m = choose|m: int| 0 <= m < init.len() && init[m] == sc;
                assert(styled[m] == sc);
            }
            if sc == last {
                assert(styled[styled.len() - 1] == sc);
            }
        }
    }
}

/// The styled cells an action draws or erases.
pub open spec fn action_cells(a: HistoryView) -> Seq<StyledCell> {
    match a {
        HistoryView::Draw { primitive, size_index, color_index, cells, .. } => draw_styled(
            primitive,
            size_index,
            color_index,
            cells,
        ),
        HistoryView::Erase { cells, .. } => cells,
    }
}

/// The tab an action was taken on.
pub open spec fn action_tab(a: HistoryView) -> u64 {
    match a {
        HistoryView::Draw { tab_id, .. } => tab_id,
        HistoryView::Erase { tab_id, .. } => tab_id,
    }
}

/// A drawing's styled cells are its cells in its style.
proof fn lemma_draw_styled_contains(
    primitive: DrawPrimitive,
    size_index: u8,
    color_index: u8,
    cells: Seq<Cell>,
    sc: StyledCell,
)
    ensures
        draw_styled(primitive, size_index, color_index, cells).contains(sc) == (sc.primitive
            == primitive && sc.size_index == size_index && sc.color_index == color_index
            && cells.contains(sc.cell)),
{
    let ds = draw_styled(primitive, size_index, color_index, cells);
    if ds.contains(sc) {
        let m = choose|m: int| 0 <= m < ds.len() && ds[m] == sc;
        assert(cells[m] == sc.cell);
    }
    if sc.primitive == primitive && sc.size_index == size_index && sc.color_index == color_index
        && cells.contains(sc.cell) {
        let m = choose|m: int| 0 <= m < cells.len() && cells[m] == sc.cell;
        assert(ds[m] == sc);
    }
}

/// The active tab exists exactly when some tab carries its id.
proof fn lemma_active_pos_has_tab(d: DocView)
    ensures
        (d.active_pos() is Some) == has_tab(d.tabs, d.active_tab_id),
{
    if has_tab(d.tabs, d.active_tab_id) {
        lemma_has_tab_pos(d.tabs, d.active_tab_id);
    }
    if d.active_pos() is Some {
        lemma_tab_pos_id(d.tabs, d.active_tab_id);
    }
}

/// Doing an action again: a drawing paints its cells on its tab (when the tab
/// exists), an erasure takes its cells off its tab; nothing else changes.
pub proof fn lemma_apply_picture(d: DocView, a: HistoryView, t: u64, sc: StyledCell)
    ensures
        same_ids(d.tabs, spec_apply_action(d, a).tabs),
        tab_painted(spec_apply_action(d, a), t, sc) == (match a {
            HistoryView::Draw { .. } => tab_painted(d, t, sc) || (t == action_tab(a) && has_tab(
                d.tabs,
                action_tab(a),
            ) && action_cells(a).contains(sc)),
            HistoryView::Erase { .. } => tab_painted(d, t, sc) && !(t == action_tab(a)
                && action_cells(a).contains(sc)),
        }),
{
    match a {
        HistoryView::Draw { tab_id, primitive, size_index, color_index, cells } => {
            let d1 = DocView { active_tab_id: tab_id, ..d };
            lemma_add_picture(d1, primitive, size_index, color_index, cells, t, sc);
            lemma_add_keeps_ids(d1, primitive, size_index, color_index, cells);
            lemma_active_pos_has_tab(d1);
            lemma_draw_styled_contains(primitive, size_index, color_index, cells, sc);
        },
        HistoryView::Erase { tab_id, cells } => {
            lemma_remove_styled_picture(d, tab_id, cells, t, sc);
        },
    }
}

/// Taking an action back: a drawing's cells come off its tab, an erasure's cells
/// are painted on its tab again (when the tab exists); nothing else changes.
pub proof fn lemma_revert_picture(d: DocView, a: HistoryView, t: u64, sc: StyledCell)
    ensures
        same_ids(d.tabs, spec_revert_action(d, a).tabs),
        tab_painted(spec_revert_action(d, a), t, sc) == (match a {
            HistoryView::Draw { .. } => tab_painted(d, t, sc) && !(t == action_tab(a)
                && action_cells(a).contains(sc)),
            HistoryView::Erase { .. } => tab_painted(d, t, sc) || (t == action_tab(a) && has_tab(
                d.tabs,
                action_tab(a),
            ) && action_cells(a).contains(sc)),
        }),
{
    match a {
        HistoryView::Draw { tab_id, primitive, size_index, color_index, cells } => {
            lemma_remove_styled_picture(
                d,
                tab_id,
                draw_styled(primitive, size_index, color_index, cells),
                t,
                sc,
            );
        },
        HistoryView::Erase { tab_id, cells } => {
            let d1 = DocView { active_tab_id: tab_id, ..d };
            lemma_restore_picture(d1, cells, t, sc);
            lemma_restore_keeps_ids(d1, cells);
            lemma_active_pos_has_tab(d1);
        },
    }
}

/// Undo followed by redo gives the picture back: every tab paints the same cells
/// as before, provided the action's cells were as the action left them (a
/// drawing's cells painted, an erasure's cells not painted) on its existing tab.
pub proof fn lemma_undo_then_redo_picture(d: DocView, a: HistoryView, t: u64, sc: StyledCell)
    requires
        has_tab(d.tabs, action_tab(a)),
        a is Draw ==> forall|x: StyledCell|
            action_cells(a).contains(x) ==> tab_painted(d, action_tab(a), x),
        a is Erase ==> forall|x: StyledCell|
            action_cells(a).contains(x) ==> !tab_painted(d, action_tab(a), x),
    ensures
        tab_painted(spec_apply_action(spec_revert_action(d, a), a), t, sc) == tab_painted(d, t, sc),
{
    let u = spec_revert_action(d, a);
    lemma_revert_picture(d, a, t, sc);
    lemma_same_ids(d.tabs, u.tabs, action_tab(a));
    lemma_apply_picture(u, a, t, sc);
    if t == action_tab(a) && action_cells(a).contains(sc) {
        lemma_revert_picture(d, a, action_tab(a), sc);
    }
}

/// Redo followed by undo gives the picture back: every tab paints the same cells
/// as before, provided the action's cells were as before the action (a
/// drawing's cells not painted, an erasure's cells painted) on its existing tab.
pub proof fn lemma_redo_then_undo_picture(d: DocView, a: HistoryView, t: u64, sc: StyledCell)
    requires
        has_tab(d.tabs, action_tab(a)),
        a is Draw ==> forall|x: StyledCell|
            action_cells(a).contains(x) ==> !tab_painted(d, action_tab(a), x),
        a is Erase ==> forall|x: StyledCell|
            action_cells(a).contains(x) ==> tab_painted(d, action_tab(a), x),
    ensures
        tab_painted(spec_revert_action(spec_apply_action(d, a), a), t, sc) == tab_painted(d, t, sc),
{
    let u = spec_apply_action(d, a);
    lemma_apply_picture(d, a, t, sc);
    lemma_same_ids(d.tabs, u.tabs, action_tab(a));
    lemma_revert_picture(u, a, t, sc);
}

/// Taking a cell out of a list keeps exactly the other cells.
proof fn lemma_cells_without_iff(cells: Seq<Cell>, c: Cell, x: Cell)
    ensures
        cells_without(cells, c).contains(x) == (cells.contains(x) && x != c),
    decreases cells.len(),
{
    if cells.len() > 0 {
        let init = cells.drop_last();
        let rest = cells_without(init, c);
        let r = cells_without(cells, c);
        lemma_cells_without_iff(init, c, x);
        if r.contains(x) {
            let m = choose|m: int| 0 <= m < r.len() && r[m] == x;
            if m < rest.len() {
                assert(rest[m] == x);
                let j = choose|j: int| 0 <= j < init.len() && init[j] == x;
                assert(cells[j] == x);
            } else {
                assert(cells[cells.len() - 1] == x);
            }
        }
        if cells.contains(x) && x != c {
            let j = choose|j: int| 0 <= j < cells.len() && cells[j] == x;
            if j < init.len() {
                assert(init[j] == x);
                let m = choose|m: int| 0 <= m < rest.len() && rest[m] == x;
                if cells.last() != c {
                    assert(r[m] == x);
                }
            } else {
                assert(r[rest.len() as int] == x);
            }
        }
    }
}

/// A cell occurs in a list exactly when it is counted there.
proof fn lemma_count_cell_pos(cells: Seq<Cell>, c: Cell)
    ensures
        (count_cell(cells, c) > 0) == cells.contains(c),
    decreases cells.len(),
{
    if cells.len() > 0 {
        let init = cells.drop_last();
        lemma_count_cell_pos(init, c);
        if init.contains(c) {
            let j = choose|j: int| 0 <= j < init.len() && init[j] == c;
            assert(cells[j] == c);
        }
        if cells.contains(c) && cells.last() != c {
            let j = choose|j: int| 0 <= j < cells.len() && cells[j] == c;
            assert(init[j] == c);
        }
        if cells.last() == c {
            assert(cells[cells.len() - 1] == c);
        }
    }
}

/// The erased entries are the styled cells painted at the erased cell.
proof fn lemma_erased_cells_iff(st: Seq<StrokeView>, c: Cell, sc: StyledCell)
    ensures
        erased_cells(st, c).contains(sc) == (painted(st, sc) && sc.cell == c),
    decreases st.len(),
{
    if st.len() > 0 {
        let init = st.drop_last();
        let s = st.last();
        let rest = erased_cells(init, c);
        let n = count_cell(s.cells, c);
        let tail = Seq::new(n, |k: int| styled_of(s, c));
        let all = erased_cells(st, c);
        assert(all == rest + tail);
        lemma_erased_cells_iff(init, c, sc);
        lemma_count_cell_pos(s.cells, c);
        if all.contains(sc) {
            let m = choose|m: int| 0 <= m < all.len() && all[m] == sc;
            if m < rest.len() {
                assert(rest[m] == sc);
                let k = choose|k: int|
                    0 <= k < init.len() && same_style(init[k], sc.primitive, sc.size_index, sc.color_index)
                        && #[trigger] init[k].cells.contains(sc.cell);
                assert(st[k] == init[k]);
            } else {
                assert(tail[m - rest.len()] == sc);
                let last = st.len() - 1;
                assert(st[last] == s);
                assert(st[last].cells.contains(sc.cell));
            }
        }
        if painted(st, sc) && sc.cell == c {
            let k = choose|k: int|
                0 <= k < st.len() && same_style(st[k], sc.primitive, sc.size_index, sc.color_index)
                    && #[trigger] st[k].cells.contains(sc.cell);
            if k < init.len() {
                assert(init[k] == st[k]);
                assert(init[k].cells.contains(sc.cell));
                let m = choose|m: int| 0 <= m < rest.len() && rest[m] == sc;
                assert(all[m] == sc);
            } else {
                assert(styled_of(s, c) == sc);
                assert(all[rest.len() as int] == tail[0]);
            }
        }
    }
}

/// After a cell is erased from every stroke, a styled cell is painted exactly
/// when it was painted and is another cell.
proof fn lemma_erase_strokes_painted(st: Seq<StrokeView>, c: Cell, sc: StyledCell)
    ensures
        painted(erase_strokes(st, c), sc) == (painted(st, sc) && sc.cell != c),
{
    let es = erase_strokes(st, c);
    super::strokes::lemma_erase_strokes_len(st, c);
    if painted(es, sc) {
        let k = choose|k: int|
            0 <= k < es.len() && same_style(es[k], sc.primitive, sc.size_index, sc.color_index)
                && #[trigger] es[k].cells.contains(sc.cell);
        lemma_erase_strokes_index(st, c, k);
        lemma_cells_without_iff(st[k].cells, c, sc.cell);
        assert(st[k].cells.contains(sc.cell));
    }
    if painted(st, sc) && sc.cell != c {
        let k = choose|k: int|
            0 <= k < st.len() && same_style(st[k], sc.primitive, sc.size_index, sc.color_index)
                && #[trigger] st[k].cells.contains(sc.cell);
        lemma_erase_strokes_index(st, c, k);
        lemma_cells_without_iff(st[k].cells, c, sc.cell);
        assert(es[k].cells.contains(sc.cell));
    }
}

/// Erasing the cell `c` on the active tab takes exactly the styled cells painted
/// at `c` off that tab, and reports exactly those; other cells and tabs stay.
pub proof fn lemma_erase_at_cell_picture(d: DocView, c: Cell, t: u64, sc: StyledCell)
    ensures
        tab_painted(spec_erase_at_cell(d, c).0, t, sc) == (tab_painted(d, t, sc) && !(t
            == d.active_tab_id && sc.cell == c)),
        spec_erase_at_cell(d, c).1.contains(sc) == (tab_painted(d, d.active_tab_id, sc)
            && sc.cell == c),
{
    let r = spec_erase_at_cell(d, c).0;
    match d.active_pos() {
        None => {
            if t == d.active_tab_id {
                assert(!tab_painted(d, t, sc));
            }
        },
        Some(i) => {
            let st = d.tabs[i].strokes;
            lemma_tab_pos_id(d.tabs, d.active_tab_id);
            assert forall|j: int| 0 <= j < d.tabs.len() implies #[trigger] d.tabs[j].id
                == r.tabs[j].id by {}
            lemma_same_ids(d.tabs, r.tabs, t);
            lemma_erased_cells_iff(st, c, sc);
            match tab_pos(d.tabs, t) {
                None => {},
                Some(j) => {
                    lemma_tab_pos_id(d.tabs, t);
                    if j == i {
                        lemma_drop_empty_painted(erase_strokes(st, c), sc);
                        lemma_erase_strokes_painted(st, c, sc);
                    } else {
                        assert(r.tabs[j] == d.tabs[j]);
                    }
                },
            }
        },
    }
}

/// Flood erasing keeps exactly the cells not connected to the start.
proof fn lemma_cells_apart_iff(cells: Seq<Cell>, area: Seq<Cell>, from: Cell, x: Cell)
    ensures
        cells_apart(cells, area, from).contains(x) == (cells.contains(x) && !connected(area, from, x)),
    decreases cells.len(),
{
    if cells.len() > 0 {
        let init = cells.drop_last();
        let rest = cells_apart(init, area, from);
        let r = cells_apart(cells, area, from);
        lemma_cells_apart_iff(init, area, from, x);
        if r.contains(x) {
            let m = choose|m: int| 0 <= m < r.len() && r[m] == x;
            if m < rest.len() {
                assert(rest[m] == x);
                let j = choose|j: int| 0 <= j < init.len() && init[j] == x;
                assert(cells[j] == x);
            } else {
                assert(cells[cells.len() - 1] == x);
            }
        }
        if cells.contains(x) && !connected(area, from, x) {
            let j = choose|j: int| 0 <= j < cells.len() && cells[j] == x;
            if j < init.len() {
                assert(init[j] == x);
                let m = choose|m: int| 0 <= m < rest.len() && rest[m] == x;
                if !connected(area, from, cells.last()) {
                    assert(r[m] == x);
                }
            } else {
                assert(r[rest.len() as int] == x);
            }
        }
    }
}

/// Flood erasing reports, for a stroke, exactly its cells connected to the start.
proof fn lemma_styled_within_iff(cells: Seq<Cell>, st: StrokeView, area: Seq<Cell>, from: Cell, sc: StyledCell)
    ensures
        styled_within(cells, st, area, from).contains(sc) == (cells.contains(sc.cell) && connected(
            area,
            from,
            sc.cell,
        ) && styled_of(st, sc.cell) == sc),
    decreases cells.len(),
{
    if cells.len() > 0 {
        let init = cells.drop_last();
        let rest = styled_within(init, st, area, from);
        let r = styled_within(cells, st, area, from);
        lemma_styled_within_iff(init, st, area, from, sc);
        if r.contains(sc) {
            let m = choose|m: int| 0 <= m < r.len() && r[m] == sc;
            if m < rest.len() {
                assert(rest[m] == sc);
                let j = choose|j: int| 0 <= j < init.len() && init[j] == sc.cell;
                assert(cells[j] == sc.cell);
            } else {
                assert(cells[cells.len() - 1] == sc.cell);
            }
        }
        if cells.contains(sc.cell) && connected(area, from, sc.cell) && styled_of(st, sc.cell) == sc {
            let j = choose|j: int| 0 <= j < cells.len() && cells[j] == sc.cell;
            if j < init.len() {
                assert(init[j] == sc.cell);
                let m = choose|m: int| 0 <= m < rest.len() && rest[m] == sc;
                if connected(area, from, cells.last()) {
                    assert(r[m] == sc);
                }
            } else {
                assert(r[rest.len() as int] == sc);
            }
        }
    }
}

/// The style of a styled cell is the given one.
pub open spec fn has_style(sc: StyledCell, primitive: DrawPrimitive, size_index: u8, color_index: u8) -> bool {
    sc.primitive == primitive && sc.size_index == size_index && sc.color_index == color_index
}

/// Flood erasing reports exactly the painted cells of the style connected to the start.
proof fn lemma_flood_removed_iff(
    st: Seq<StrokeView>,
    primitive: DrawPrimitive,
    size_index: u8,
    color_index: u8,
    area: Seq<Cell>,
    from: Cell,
    sc: StyledCell,
)
    ensures
        flood_removed(st, primitive, size_index, color_index, area, from).contains(sc) == (painted(
            st,
            sc,
        ) && has_style(sc, primitive, size_index, color_index) && connected(area, from, sc.cell)),
    decreases st.len(),
{
    if st.len() > 0 {
        let init = st.drop_last();
        let s = st.last();
        let last = st.len() - 1;
        assert(st[last] == s);
        let rest = flood_removed(init, primitive, size_index, color_index, area, from);
        let all = flood_removed(st, primitive, size_index, color_index, area, from);
        lemma_flood_removed_iff(init, primitive, size_index, color_index, area, from, sc);
        if same_style(s, primitive, size_index, color_index) {
            let tail = styled_within(s.cells, s, area, from);
            assert(all == rest + tail);
            lemma_styled_within_iff(s.cells, s, area, from, sc);
            if all.contains(sc) {
                let m = choose|m: int| 0 <= m < all.len() && all[m] == sc;
                if m < rest.len() {
                    assert(rest[m] == sc);
                    let k = choose|k: int|
                        0 <= k < init.len() && same_style(init[k], sc.primitive, sc.size_index, sc.color_index)
                            && #[trigger] init[k].cells.contains(sc.cell);
                    assert(st[k] == init[k]);
                } else {
                    assert(tail[m - rest.len()] == sc);
                    assert(st[last].cells.contains(sc.cell));
                }
            }
            if painted(st, sc) && has_style(sc, primitive, size_index, color_index) && connected(area, from, sc.cell) {
                let k = choose|k: int|
                    0 <= k < st.len() && same_style(st[k], sc.primitive, sc.size_index, sc.color_index)
                        && #[trigger] st[k].cells.contains(sc.cell);
                if k < init.len() {
                    assert(init[k] == st[k]);
                    assert(init[k].cells.contains(sc.cell));
                    let m = choose|m: int| 0 <= m < rest.len() && rest[m] == sc;
                    assert(all[m] == sc);
                } else {
                    let m = choose|m: int| 0 <= m < tail.len() && tail[m] == sc;
                    assert(all[rest.len() + m] == sc);
                }
            }
        } else {
            assert(all == rest);
            if painted(st, sc) && has_style(sc, primitive, size_index, color_index) {
                let k = choose|k: int|
                    0 <= k < st.len() && same_style(st[k], sc.primitive, sc.size_index, sc.color_index)
                        && #[trigger] st[k].cells.contains(sc.cell);
                assert(k != last);
                assert(init[k] == st[k]);
                assert(init[k].cells.contains(sc.cell));
            }
            if rest.contains(sc) {
                let k = choose|k: int|
                    0 <= k < init.len() && same_style(init[k], sc.primitive, sc.size_index, sc.color_index)
                        && #[trigger] init[k].cells.contains(sc.cell);
                assert(st[k] == init[k]);
            }
        }
    }
}

/// After flood erasing, a styled cell is painted exactly when it was painted and
/// is not a cell of the style connected to the start.
proof fn lemma_flood_strokes_painted(
    st: Seq<StrokeView>,
    primitive: DrawPrimitive,
    size_index: u8,
    color_index: u8,
    area: Seq<Cell>,
    from: Cell,
    sc: StyledCell,
)
    ensures
        painted(flood_strokes(st, primitive, size_index, color_index, area, from), sc) == (painted(
            st,
            sc,
        ) && !(has_style(sc, primitive, size_index, color_index) && connected(area, from, sc.cell))),
{
    let fs = flood_strokes(st, primitive, size_index, color_index, area, from);
    super::flood::lemma_flood_strokes_len(st, primitive, size_index, color_index, area, from);
    if painted(fs, sc) {
        let k = choose|k: int|
            0 <= k < fs.len() && same_style(fs[k], sc.primitive, sc.size_index, sc.color_index)
                && #[trigger] fs[k].cells.contains(sc.cell);
        lemma_flood_strokes_index(st, primitive, size_index, color_index, area, from, k);
        if same_style(st[k], primitive, size_index, color_index) {
            lemma_cells_apart_iff(st[k].cells, area, from, sc.cell);
        }
        assert(st[k].cells.contains(sc.cell));
    }
    if painted(st, sc) && !(has_style(sc, primitive, size_index, color_index) && connected(area, from, sc.cell)) {
        let k = choose|k: int|
            0 <= k < st.len() && same_style(st[k], sc.primitive, sc.size_index, sc.color_index)
                && #[trigger] st[k].cells.contains(sc.cell);
        lemma_flood_strokes_index(st, primitive, size_index, color_index, area, from, k);
        if same_style(st[k], primitive, size_index, color_index) {
            lemma_cells_apart_iff(st[k].cells, area, from, sc.cell);
        }
        assert(fs[k].cells.contains(sc.cell));
    }
}

/// Flood erasing from `c` on the active tab takes the styled cell `sc` off tab `t`:
/// `t` is the active tab, the last stroke holding `c` has `sc`'s style, `c` is a
/// cell of that style, and `sc`'s cell is connected to `c` through cells of that
/// style.
pub open spec fn flood_takes(d: DocView, c: Cell, t: u64, sc: StyledCell) -> bool {
    match d.active_pos() {
        None => false,
        Some(i) => {
            let st = d.tabs[i].strokes;
            match seed_pos(st, c) {
                None => false,
                Some(k) => {
                    let area = style_cells(st, st[k].primitive, st[k].size_index, st[k].color_index);
                    &&& t == d.active_tab_id
                    &&& area.contains(c)
                    &&& has_style(sc, st[k].primitive, st[k].size_index, st[k].color_index)
                    &&& connected(area, c, sc.cell)
                },
            }
        },
    }
}

/// Flood erasing takes exactly the connected cells of one style off the active
/// tab and reports exactly the painted ones among them; everything else stays.
pub proof fn lemma_erase_connected_picture(d: DocView, c: Cell, t: u64, sc: StyledCell)
    ensures
        tab_painted(spec_erase_connected(d, c).0, t, sc) == (tab_painted(d, t, sc) && !flood_takes(
            d,
            c,
            t,
            sc,
        )),
        spec_erase_connected(d, c).1.contains(sc) == (tab_painted(d, d.active_tab_id, sc)
            && flood_takes(d, c, d.active_tab_id, sc)),
{
    let r = spec_erase_connected(d, c).0;
    match d.active_pos() {
        None => {},
        Some(i) => {
            let st = d.tabs[i].strokes;
            lemma_tab_pos_id(d.tabs, d.active_tab_id);
            match seed_pos(st, c) {
                None => {},
                Some(k) => {
                    let p = st[k].primitive;
                    let sz = st[k].size_index;
                    let col = st[k].color_index;
                    let area = style_cells(st, p, sz, col);
                    if area.contains(c) {
                        assert forall|j: int| 0 <= j < d.tabs.len() implies #[trigger] d.tabs[j].id
                            == r.tabs[j].id by {}
                        lemma_same_ids(d.tabs, r.tabs, t);
                        lemma_flood_removed_iff(st, p, sz, col, area, c, sc);
                        match tab_pos(d.tabs, t) {
                            None => {},
                            Some(j) => {
                                lemma_tab_pos_id(d.tabs, t);
                                if j == i {
                                    lemma_drop_empty_painted(flood_strokes(st, p, sz, col, area, c), sc);
                                    lemma_flood_strokes_painted(st, p, sz, col, area, c, sc);
                                } else {
                                    assert(r.tabs[j] == d.tabs[j]);
                                }
                            },
                        }
                    }
                },
            }
        },
    }
}

/// What one frame of pointer input does to the picture: with the button held
/// over a cell not painted on in the previous frame, drawing paints that cell in
/// the editor's style (size limited to 3) on the active tab, erasing takes off the
/// styled cells at it, or with control the connected area of one style; nothing
/// else changes, and nothing changes in any other frame.
pub proof fn lemma_draw_mode_picture(
    d: DocView,
    e: EditorView,
    pointer_cell: Option<Cell>,
    primary_down: bool,
    ctrl: bool,
    t: u64,
    sc: StyledCell,
)
    ensures
        tab_painted(spec_draw_mode(d, e, pointer_cell, primary_down, ctrl).0, t, sc) == (
        if primary_down && pointer_cell is Some && e.last_paint_cell != pointer_cell {
            let cell = pointer_cell.unwrap();
            match e.tool {
                PaintTool::Draw => tab_painted(d, t, sc) || adds_cell(
                    d,
                    e.primitive,
                    clamp_size(e.size_index),
                    e.color_index,
                    seq![cell],
                    t,
                    sc,
                ),
                PaintTool::Erase => if ctrl {
                    tab_painted(d, t, sc) && !flood_takes(d, cell, t, sc)
                } else {
                    tab_painted(d, t, sc) && !(t == d.active_tab_id && sc.cell == cell)
                },
            }
        } else {
            tab_painted(d, t, sc)
        }),
{
    if primary_down && pointer_cell is Some && e.last_paint_cell != pointer_cell {
        let cell = pointer_cell.unwrap();
        match e.tool {
            PaintTool::Draw => {
                lemma_add_picture(
                    d,
                    e.primitive,
                    clamp_size(e.size_index),
                    e.color_index,
                    seq![cell],
                    t,
                    sc,
                );
            },
            PaintTool::Erase => {
                lemma_erase_connected_picture(d, cell, t, sc);
                lemma_erase_at_cell_picture(d, cell, t, sc);
            },
        }
    }
}

} // verus!
