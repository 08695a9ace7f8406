use crate::domain::document::{tab_pos, DocView, PaintDocument};
use crate::domain::history::{contains_styled, StyledCell};
use crate::domain::stroke::{contains_cell, cell_eq, Cell, DrawPrimitive, DrawStroke, StrokeView};
use crate::domain::tab::{strokes_view, TabView};
use vstd::prelude::*;

verus! {

/// The stroke has the given style.
pub open spec fn same_style(s: StrokeView, primitive: DrawPrimitive, size_index: u8, color_index: u8) -> bool {
    s.primitive == primitive && s.size_index == size_index && s.color_index == color_index
}

/// A cell of the stroke, tagged with the stroke's style.
pub open spec fn styled_of(s: StrokeView, cell: Cell) -> StyledCell {
    StyledCell {
        primitive: s.primitive,
        size_index: s.size_index,
        color_index: s.color_index,
        cell,
    }
}

/// The strokes that still hold a cell, in order.
pub open spec fn drop_empty(strokes: Seq<StrokeView>) -> Seq<StrokeView>
    decreases strokes.len(),
{
    if strokes.len() == 0 {
        strokes
    } else {
        let rest = drop_empty(strokes.drop_last());
        if strokes.last().cells.len() > 0 {
            rest.push(strokes.last())
        } else {
            rest
        }
    }
}

/// The strokes after the stroke list gained cells of a style: a single cell of the
/// style of the last stroke joins that stroke (if it is not there yet), anything
/// else becomes a new stroke with the given id. Also gives the id of the stroke
/// that received the cells.
pub open spec fn strokes_after_add(
    strokes: Seq<StrokeView>,
    id: u64,
    primitive: DrawPrimitive,
    size_index: u8,
    color_index: u8,
    cells: Seq<Cell>,
) -> (Seq<StrokeView>, u64) {
    if strokes.len() > 0 && same_style(strokes.last(), primitive, size_index, color_index)
        && cells.len() == 1 {
        let last = strokes.last();
        let new_cells = if last.cells.contains(cells[0]) {
            last.cells
        } else {
            last.cells.push(cells[0])
        };
        (strokes.update(strokes.len() - 1, StrokeView { cells: new_cells, ..last }), last.id)
    } else {
        (strokes.push(StrokeView { id, primitive, size_index, color_index, cells }), id)
    }
}

/// The id a new stroke receives: `next_stroke_id`, but at least 1.
pub open spec fn fresh_stroke_id(d: DocView) -> u64 {
    if d.next_stroke_id >= 1 {
        d.next_stroke_id
    } else {
        1
    }
}

/// The document after drawing `cells` in the given style on the active tab, and
/// the id of the stroke that received them. Nothing is drawn for no cells; the
/// stroke counter moves on even when there is no active tab.
pub open spec fn spec_add_draw_stroke(
    d: DocView,
    primitive: DrawPrimitive,
    size_index: u8,
    color_index: u8,
    cells: Seq<Cell>,
) -> (DocView, Option<u64>) {
    if cells.len() == 0 {
        (d, None)
    } else {
        let id = fresh_stroke_id(d);
        let d1 = DocView {
            next_stroke_id: if id < u64::MAX {
                (id + 1) as u64
            } else {
                u64::MAX
            },
            ..d
        };
        match d.active_pos() {
            None => (d1, None),
            Some(i) => {
                let (ns, rid) = strokes_after_add(
                    d.tabs[i].strokes,
                    id,
                    primitive,
                    size_index,
                    color_index,
                    cells,
                );
                (DocView { tabs: d.tabs.update(i, TabView { strokes: ns, ..d.tabs[i] }), ..d1 }, Some(rid))
            },
        }
    }
}

/// Keeps the strokes that still hold a cell.
pub fn drop_empty_strokes(strokes: &mut Vec<DrawStroke>)
    ensures
        strokes_view(final(strokes)@) == drop_empty(strokes_view(old(strokes)@)),
{
    let ghost old_s = strokes_view(old(strokes)@);
    let mut i: usize = 0;
    let ghost mut k: int = 0;
    while i < strokes.len()
        invariant
            0 <= k <= old_s.len(),
            old_s == strokes_view(old(strokes)@),
            strokes_view(strokes@) == drop_empty(old_s.take(k)) + old_s.skip(k),
            i == drop_empty(old_s.take(k)).len(),
        decreases old_s.len() - k,
    {
        let ghost pre = strokes_view(strokes@);
        assert(old_s.take(k + 1).drop_last() =~= old_s.take(k));
        assert(pre[i as int] == old_s[k]);
        assert(old_s.skip(k).drop_first() =~= old_s.skip(k + 1));
        if strokes[i].cells.len() == 0 {
            strokes.remove(i);
            assert(strokes_view(strokes@) =~= pre.remove(i as int));
            assert(strokes_view(strokes@) =~= drop_empty(old_s.take(k + 1)) + old_s.skip(k + 1));
        } else {
            i += 1;
            assert(strokes_view(strokes@) =~= drop_empty(old_s.take(k + 1)) + old_s.skip(k + 1));
        }
        proof {
            k = k + 1;
        }
    }
    proof {
        if k < old_s.len() {
            assert(strokes_view(strokes@).len() > i);
        }
        assert(old_s.take(k) =~= old_s);
        assert(strokes_view(strokes@) =~= drop_empty(old_s));
    }
}

/// Draws `cells` in the given style on the active tab. A single cell of the same
/// style as the tab's last stroke joins that stroke; otherwise a new stroke is
/// started. Returns the id of the stroke that received the cells.
pub fn add_draw_stroke(
    document: &mut PaintDocument,
    primitive: DrawPrimitive,
    size_index: u8,
    color_index: u8,
    cells: Vec<Cell>,
) -> (r: Option<u64>)
    ensures
        (final(document)@, r) == spec_add_draw_stroke(
            old(document)@,
            primitive,
            size_index,
            color_index,
            cells@,
        ),
{
    if cells.len() == 0 {
        return None;
    }
    let id = if document.next_stroke_id >= 1 {
        document.next_stroke_id
    } else {
        1
    };
    document.next_stroke_id = id.saturating_add(1);
    let i = match document.tab_index(document.active_tab_id) {
        Some(i) => i,
        None => {
            return None;
        },
    };
    let ghost st = old(document)@.tabs[i as int].strokes;
    let ghost ns = strokes_after_add(st, id, primitive, size_index, color_index, cells@).0;
    let n = document.tabs[i].draw_strokes.len();
    let mut rid = id;
    if n > 0 && document.tabs[i].draw_strokes[n - 1].primitive == primitive
        && document.tabs[i].draw_strokes[n - 1].size_index == size_index
        && document.tabs[i].draw_strokes[n - 1].color_index == color_index && cells.len() == 1 {
        let cell = cells[0];
        if !contains_cell(&document.tabs[i].draw_strokes[n - 1].cells, cell) {
            document.tabs[i].draw_strokes[n - 1].cells.push(cell);
        }
        rid = document.tabs[i].draw_strokes[n - 1].id;
    } else {
        document.tabs[i].draw_strokes.push(DrawStroke { id, primitive, size_index, color_index, cells });
    }
    proof {
        assert(strokes_view(document.tabs@[i as int].draw_strokes@) =~= ns);
        assert(document@.tabs =~= old(document)@.tabs.update(
            i as int,
            TabView { strokes: ns, ..old(document)@.tabs[i as int] },
        ));
    }
    Some(rid)
}

/// The cells other than `c`, in order.
pub open spec fn cells_without(cells: Seq<Cell>, c: Cell) -> Seq<Cell>
    decreases cells.len(),
{
    if cells.len() == 0 {
        cells
    } else {
        let rest = cells_without(cells.drop_last(), c);
        if cells.last() == c {
            rest
        } else {
            rest.push(cells.last())
        }
    }
}

/// How often `c` occurs among the cells.
pub open spec fn count_cell(cells: Seq<Cell>, c: Cell) -> nat
    decreases cells.len(),
{
    if cells.len() == 0 {
        0
    } else {
        count_cell(cells.drop_last(), c) + if cells.last() == c {
            1nat
        } else {
            0nat
        }
    }
}

/// Every stroke with each occurrence of `c` taken out.
pub open spec fn erase_strokes(strokes: Seq<StrokeView>, c: Cell) -> Seq<StrokeView>
    decreases strokes.len(),
{
    if strokes.len() == 0 {
        strokes
    } else {
        erase_strokes(strokes.drop_last(), c).push(
            StrokeView { cells: cells_without(strokes.last().cells, c), ..strokes.last() },
        )
    }
}

/// Erasing keeps the number of strokes.
pub proof fn lemma_erase_strokes_len(strokes: Seq<StrokeView>, c: Cell)
    ensures
        erase_strokes(strokes, c).len() == strokes.len(),
    decreases strokes.len(),
{
    if strokes.len() > 0 {
        lemma_erase_strokes_len(strokes.drop_last(), c);
    }
}

/// One styled cell for each occurrence of `c` in the strokes, stroke by stroke.
pub open spec fn erased_cells(strokes: Seq<StrokeView>, c: Cell) -> Seq<StyledCell>
    decreases strokes.len(),
{
    if strokes.len() == 0 {
        Seq::empty()
    } else {
        erased_cells(strokes.drop_last(), c) + Seq::new(
            count_cell(strokes.last().cells, c),
            |k: int| styled_of(strokes.last(), c),
        )
    }
}

/// The document after erasing cell `c` on the active tab, and the styled cells
/// that were taken out.
pub open spec fn spec_erase_at_cell(d: DocView, c: Cell) -> (DocView, Seq<StyledCell>) {
    match d.active_pos() {
        None => (d, Seq::empty()),
        Some(i) => {
            let st = d.tabs[i].strokes;
            (
                DocView {
                    tabs: d.tabs.update(
                        i,
                        TabView { strokes: drop_empty(erase_strokes(st, c)), ..d.tabs[i] },
                    ),
                    ..d
                },
                erased_cells(st, c),
            )
        },
    }
}

/// The cells other than `c`, and how many were equal to `c`.
pub fn cells_without_exec(cells: &Vec<Cell>, c: Cell) -> (r: (Vec<Cell>, usize))
    ensures
        r.0@ == cells_without(cells@, c),
        r.1 == count_cell(cells@, c),
{
    let mut out: Vec<Cell> = Vec::new();
    let mut n: usize = 0;
    let mut i: usize = 0;
    while i < cells.len()
        invariant
            i <= cells.len(),
            out@ == cells_without(cells@.take(i as int), c),
            n == count_cell(cells@.take(i as int), c),
            n <= i,
        decreases cells.len() - i,
    {
        assert(cells@.take(i + 1).drop_last() =~= cells@.take(i as int));
        if cell_eq(cells[i], c) {
            n += 1;
        } else {
            out.push(cells[i]);
        }
        i += 1;
    }
    assert(cells@.take(cells.len() as int) =~= cells@);
    (out, n)
}

/// Erases every occurrence of `c` from the strokes, dropping strokes left empty;
/// returns the erased cells with their styles.
pub fn erase_cell_in_strokes(strokes: &mut Vec<DrawStroke>, c: Cell) -> (r: Vec<StyledCell>)
    ensures
        strokes_view(final(strokes)@) == drop_empty(erase_strokes(strokes_view(old(strokes)@), c)),
        r@ == erased_cells(strokes_view(old(strokes)@), c),
{
    let ghost st = strokes_view(old(strokes)@);
    let mut removed: Vec<StyledCell> = Vec::new();
    let m = strokes.len();
    let mut j: usize = 0;
    while j < m
        invariant
            m == st.len(),
            strokes@.len() == m,
            j <= m,
            st == strokes_view(old(strokes)@),
            strokes_view(strokes@) == erase_strokes(st.take(j as int), c) + st.skip(j as int),
            removed@ == erased_cells(st.take(j as int), c),
        decreases m - j,
    {
        let ghost pre = strokes_view(strokes@);
        proof {
            lemma_erase_strokes_len(st.take(j as int), c);
        }
        assert(st.take(j + 1).drop_last() =~= st.take(j as int));
        assert(pre[j as int] == st[j as int]);
        let (kept, cnt) = cells_without_exec(&strokes[j].cells, c);
        let styled = StyledCell {
            primitive: strokes[j].primitive,
            size_index: strokes[j].size_index,
            color_index: strokes[j].color_index,
            cell: c,
        };
        let ghost before = removed@;
        let mut t: usize = 0;
        while t < cnt
            invariant
                t <= cnt,
                removed@ == before + Seq::new(t as nat, |k: int| styled),
            decreases cnt - t,
        {
            removed.push(styled);
            t += 1;
            assert(removed@ =~= before + Seq::new(t as nat, |k: int| styled));
        }
        strokes[j].cells = kept;
        j += 1;
        proof {
            assert(styled == styled_of(st[j - 1], c));
            assert(removed@ =~= erased_cells(st.take(j as int), c));
            assert(st.skip(j - 1).drop_first() =~= st.skip(j as int));
            let ns = StrokeView { cells: cells_without(st[j - 1].cells, c), ..st[j - 1] };
            assert(strokes_view(strokes@) =~= pre.update(j - 1, ns));
            assert(erase_strokes(st.take(j as int), c) == erase_strokes(st.take(j - 1), c).push(ns));
            assert(strokes_view(strokes@) =~= erase_strokes(st.take(j as int), c) + st.skip(j as int));
        }
    }
    assert(st.take(m as int) =~= st);
    assert(strokes_view(strokes@) =~= erase_strokes(st, c));
    drop_empty_strokes(strokes);
    removed
}

/// Erases cell `[cx, cy]` from every stroke of the active tab, dropping strokes
/// left empty; returns the erased cells with their styles, stroke by stroke.
pub fn erase_at_cell(document: &mut PaintDocument, cx: i32, cy: i32) -> (r: Vec<StyledCell>)
    ensures
        (final(document)@, r@) == spec_erase_at_cell(old(document)@, [cx, cy]),
{
    let i = match document.tab_index(document.active_tab_id) {
        Some(i) => i,
        None => {
            return Vec::new();
        },
    };
    let removed = erase_cell_in_strokes(&mut document.tabs[i].draw_strokes, [cx, cy]);
    proof {
        let st = old(document)@.tabs[i as int].strokes;
        assert(document@.tabs =~= old(document)@.tabs.update(
            i as int,
            TabView { strokes: drop_empty(erase_strokes(st, [cx, cy])), ..old(document)@.tabs[i as int] },
        ));
    }
    removed
}

/// The cells of stroke `s` whose styled form is not listed, in order.
pub open spec fn cells_kept(cells: Seq<Cell>, s: StrokeView, styled: Seq<StyledCell>) -> Seq<Cell>
    decreases cells.len(),
{
    if cells.len() == 0 {
        cells
    } else {
        let rest = cells_kept(cells.drop_last(), s, styled);
        if styled.contains(styled_of(s, cells.last())) {
            rest
        } else {
            rest.push(cells.last())
        }
    }
}

/// Every stroke without the cells that are listed in its style.
pub open spec fn strip_strokes(strokes: Seq<StrokeView>, styled: Seq<StyledCell>) -> Seq<StrokeView>
    decreases strokes.len(),
{
    if strokes.len() == 0 {
        strokes
    } else {
        strip_strokes(strokes.drop_last(), styled).push(
            StrokeView {
                cells: cells_kept(strokes.last().cells, strokes.last(), styled),
                ..strokes.last()
            },
        )
    }
}

/// The document after taking the listed styled cells out of the first tab with
/// the given id (strokes left empty go); unchanged without such a tab.
pub open spec fn spec_remove_styled(d: DocView, tab_id: u64, styled: Seq<StyledCell>) -> DocView {
    match tab_pos(d.tabs, tab_id) {
        None => d,
        Some(i) => DocView {
            tabs: d.tabs.update(
                i,
                TabView { strokes: drop_empty(strip_strokes(d.tabs[i].strokes, styled)), ..d.tabs[i] },
            ),
            ..d
        },
    }
}

/// Drawing each styled cell in turn, one cell at a time, on the active tab.
pub open spec fn spec_restore(d: DocView, styled: Seq<StyledCell>) -> DocView
    decreases styled.len(),
{
    if styled.len() == 0 {
        d
    } else {
        let sc = styled.last();
        spec_add_draw_stroke(
            spec_restore(d, styled.drop_last()),
            sc.primitive,
            sc.size_index,
            sc.color_index,
            seq![sc.cell],
        ).0
    }
}

/// The document after drawing the styled cells back onto the tab with the given
/// id; the active tab stays as it was.
pub open spec fn spec_restore_styled(d: DocView, tab_id: u64, styled: Seq<StyledCell>) -> DocView {
    DocView {
        active_tab_id: d.active_tab_id,
        ..spec_restore(DocView { active_tab_id: tab_id, ..d }, styled)
    }
}

/// Erasing strokes keeps their number.
pub proof fn lemma_strip_strokes_len(strokes: Seq<StrokeView>, styled: Seq<StyledCell>)
    ensures
        strip_strokes(strokes, styled).len() == strokes.len(),
    decreases strokes.len(),
{
    if strokes.len() > 0 {
        lemma_strip_strokes_len(strokes.drop_last(), styled);
    }
}

/// The cells of the stroke whose styled form is not listed.
pub fn cells_kept_exec(stroke: &DrawStroke, styled: &[StyledCell]) -> (r: Vec<Cell>)
    ensures
        r@ == cells_kept(stroke@.cells, stroke@, styled@),
{
    let mut out: Vec<Cell> = Vec::new();
    let mut i: usize = 0;
    while i < stroke.cells.len()
        invariant
            i <= stroke.cells.len(),
            out@ == cells_kept(stroke@.cells.take(i as int), stroke@, styled@),
        decreases stroke.cells.len() - i,
    {
        assert(stroke@.cells.take(i + 1).drop_last() =~= stroke@.cells.take(i as int));
        let sc = StyledCell {
            primitive: stroke.primitive,
            size_index: stroke.size_index,
            color_index: stroke.color_index,
            cell: stroke.cells[i],
        };
        if !contains_styled(styled, sc) {
            out.push(stroke.cells[i]);
        }
        i += 1;
    }
    assert(stroke@.cells.take(stroke.cells.len() as int) =~= stroke@.cells);
    out
}

/// Takes the listed styled cells out of the strokes and drops strokes left empty.
pub fn strip_styled_in_strokes(strokes: &mut Vec<DrawStroke>, styled: &[StyledCell])
    ensures
        strokes_view(final(strokes)@) == drop_empty(strip_strokes(strokes_view(old(strokes)@), styled@)),
{
    let ghost st = strokes_view(old(strokes)@);
    let m = strokes.len();
    let mut j: usize = 0;
    while j < m
        invariant
            m == st.len(),
            strokes@.len() == m,
            j <= m,
            st == strokes_view(old(strokes)@),
            strokes_view(strokes@) == strip_strokes(st.take(j as int), styled@) + st.skip(j as int),
        decreases m - j,
    {
        let ghost pre = strokes_view(strokes@);
        proof {
            lemma_strip_strokes_len(st.take(j as int), styled@);
        }
        assert(st.take(j + 1).drop_last() =~= st.take(j as int));
        assert(pre[j as int] == st[j as int]);
        let kept = cells_kept_exec(&strokes[j], styled);
        strokes[j].cells = kept;
        j += 1;
        proof {
            assert(st.skip(j - 1).drop_first() =~= st.skip(j as int));
            let ns = StrokeView { cells: cells_kept(st[j - 1].cells, st[j - 1], styled@), ..st[j - 1] };
            assert(strokes_view(strokes@) =~= pre.update(j - 1, ns));
            assert(strip_strokes(st.take(j as int), styled@) == strip_strokes(st.take(j - 1), styled@).push(ns));
            assert(strokes_view(strokes@) =~= strip_strokes(st.take(j as int), styled@) + st.skip(j as int));
        }
    }
    assert(st.take(m as int) =~= st);
    assert(strokes_view(strokes@) =~= strip_strokes(st, styled@));
    drop_empty_strokes(strokes);
}

/// Takes the listed styled cells out of the tab with the given id.
pub fn remove_styled_cells(document: &mut PaintDocument, tab_id: u64, styled_cells: &[StyledCell])
    ensures
        final(document)@ == spec_remove_styled(old(document)@, tab_id, styled_cells@),
{
    let i = match document.tab_index(tab_id) {
        Some(i) => i,
        None => {
            return ;
        },
    };
    strip_styled_in_strokes(&mut document.tabs[i].draw_strokes, styled_cells);
    proof {
        let st = old(document)@.tabs[i as int].strokes;
        assert(document@.tabs =~= old(document)@.tabs.update(
            i as int,
            TabView { strokes: drop_empty(strip_strokes(st, styled_cells@)), ..old(document)@.tabs[i as int] },
        ));
    }
}

/// Draws the styled cells back, one at a time, onto the tab with the given id.
pub fn restore_styled_cells(document: &mut PaintDocument, tab_id: u64, styled_cells: &[StyledCell])
    ensures
        final(document)@ == spec_restore_styled(old(document)@, tab_id, styled_cells@),
{
    let saved_active = document.active_tab_id;
    document.active_tab_id = tab_id;
    let ghost start = document@;
    let mut i: usize = 0;
    while i < styled_cells.len()
        invariant
            i <= styled_cells@.len(),
            start == (DocView { active_tab_id: tab_id, ..old(document)@ }),
            document@ == spec_restore(start, styled_cells@.take(i as int)),
        decreases styled_cells@.len() - i,
    {
        let sc = styled_cells[i];
        let mut one: Vec<Cell> = Vec::new();
        one.push(sc.cell);
        assert(one@ =~= seq![sc.cell]);
        let _ = add_draw_stroke(document, sc.primitive, sc.size_index, sc.color_index, one);
        assert(styled_cells@.take(i + 1).drop_last() =~= styled_cells@.take(i as int));
        i += 1;
    }
    assert(styled_cells@.take(styled_cells@.len() as int) =~= styled_cells@);
    document.active_tab_id = saved_active;
}

} // verus!
