use super::strokes::{drop_empty, drop_empty_strokes, same_style, styled_of};
use crate::domain::document::{DocView, PaintDocument};
use crate::domain::history::StyledCell;
use crate::domain::stroke::{cell_eq, contains_cell, lemma_cell_eq, Cell, DrawPrimitive, DrawStroke, StrokeView};
use crate::domain::tab::{strokes_view, TabView};
use vstd::prelude::*;

verus! {

/// Two distinct cells that touch at a side or a corner.
pub open spec fn adjacent(a: Cell, b: Cell) -> bool {
    a != b && -1 <= a[0] - b[0] <= 1 && -1 <= a[1] - b[1] <= 1
}

/// A walk through `area`: one or more cells of the area, each touching the next.
pub open spec fn is_walk(area: Seq<Cell>, w: Seq<Cell>) -> bool {
    &&& w.len() >= 1
    &&& forall|i: int| 0 <= i < w.len() ==> area.contains(#[trigger] w[i])
    &&& forall|i: int| 0 <= i < w.len() - 1 ==> adjacent(#[trigger] w[i], w[i + 1])
}

/// `to` can be reached from `from` by a walk through `area`.
pub open spec fn connected(area: Seq<Cell>, from: Cell, to: Cell) -> bool {
    exists|w: Seq<Cell>| is_walk(area, w) && w[0] == from && w.last() == to
}

/// The cells of all strokes of the given style, stroke after stroke.
pub open spec fn style_cells(
    strokes: Seq<StrokeView>,
    primitive: DrawPrimitive,
    size_index: u8,
    color_index: u8,
) -> Seq<Cell>
    decreases strokes.len(),
{
    if strokes.len() == 0 {
        Seq::empty()
    } else {
        let rest = style_cells(strokes.drop_last(), primitive, size_index, color_index);
        if same_style(strokes.last(), primitive, size_index, color_index) {
            rest + strokes.last().cells
        } else {
            rest
        }
    }
}

/// The position of the last stroke holding cell `c`.
pub open spec fn seed_pos(strokes: Seq<StrokeView>, c: Cell) -> Option<int>
    decreases strokes.len(),
{
    if strokes.len() == 0 {
        None
    } else if strokes.last().cells.contains(c) {
        Some(strokes.len() - 1)
    } else {
        seed_pos(strokes.drop_last(), c)
    }
}

/// The cells not reachable from `from` through `area`, in order.
pub open spec fn cells_apart(cells: Seq<Cell>, area: Seq<Cell>, from: Cell) -> Seq<Cell>
    decreases cells.len(),
{
    if cells.len() == 0 {
        cells
    } else {
        let rest = cells_apart(cells.drop_last(), area, from);
        if connected(area, from, cells.last()) {
            rest
        } else {
            rest.push(cells.last())
        }
    }
}

/// The cells of stroke `s` reachable from `from` through `area`, with the stroke's
/// style, in order.
pub open spec fn styled_within(cells: Seq<Cell>, s: StrokeView, area: Seq<Cell>, from: Cell) -> Seq<
    StyledCell,
>
    decreases cells.len(),
{
    if cells.len() == 0 {
        Seq::empty()
    } else {
        let rest = styled_within(cells.drop_last(), s, area, from);
        if connected(area, from, cells.last()) {
            rest.push(styled_of(s, cells.last()))
        } else {
            rest
        }
    }
}

/// The strokes of the given style without the cells reachable from `from`.
pub open spec fn flood_strokes(
    strokes: Seq<StrokeView>,
    primitive: DrawPrimitive,
    size_index: u8,
    color_index: u8,
    area: Seq<Cell>,
    from: Cell,
) -> Seq<StrokeView>
    decreases strokes.len(),
{
    if strokes.len() == 0 {
        strokes
    } else {
        let rest = flood_strokes(strokes.drop_last(), primitive, size_index, color_index, area, from);
        let s = strokes.last();
        if same_style(s, primitive, size_index, color_index) {
            rest.push(StrokeView { cells: cells_apart(s.cells, area, from), ..s })
        } else {
            rest.push(s)
        }
    }
}

/// The styled cells that flood erasing takes out, stroke by stroke.
pub open spec fn flood_removed(
    strokes: Seq<StrokeView>,
    primitive: DrawPrimitive,
    size_index: u8,
    color_index: u8,
    area: Seq<Cell>,
    from: Cell,
) -> Seq<StyledCell>
    decreases strokes.len(),
{
    if strokes.len() == 0 {
        Seq::empty()
    } else {
        let rest = flood_removed(strokes.drop_last(), primitive, size_index, color_index, area, from);
        let s = strokes.last();
        if same_style(s, primitive, size_index, color_index) {
            rest + styled_within(s.cells, s, area, from)
        } else {
            rest
        }
    }
}

/// The document after flood erasing from cell `c` on the active tab, and the
/// styled cells taken out. The style is that of the last stroke holding `c`; every
/// cell of that style connected to `c` (through cells of that style, touching at
/// sides or corners) goes.
pub open spec fn spec_erase_connected(d: DocView, c: Cell) -> (DocView, Seq<StyledCell>) {
    match d.active_pos() {
        None => (d, Seq::empty()),
        Some(i) => {
            let st = d.tabs[i].strokes;
            match seed_pos(st, c) {
                None => (d, Seq::empty()),
                Some(k) => {
                    let p = st[k].primitive;
                    let sz = st[k].size_index;
                    let col = st[k].color_index;
                    let area = style_cells(st, p, sz, col);
                    if !area.contains(c) {
                        (d, Seq::empty())
                    } else {
                        (
                            DocView {
                                tabs: d.tabs.update(
                                    i,
                                    TabView {
                                        strokes: drop_empty(flood_strokes(st, p, sz, col, area, c)),
                                        ..d.tabs[i]
                                    },
                                ),
                                ..d
                            },
                            flood_removed(st, p, sz, col, area, c),
                        )
                    }
                },
            }
        },
    }
}

/// The offset of the `k`-th neighbour, in the order left, right, up, down, then
/// the four corners.
pub open spec fn offset_x(k: int) -> int {
    if k == 0 || k == 4 || k == 5 {
        -1
    } else if k == 1 || k == 6 || k == 7 {
        1
    } else {
        0
    }
}

/// See `offset_x`.
pub open spec fn offset_y(k: int) -> int {
    if k == 2 || k == 4 || k == 6 {
        -1
    } else if k == 3 || k == 5 || k == 7 {
        1
    } else {
        0
    }
}

/// `nb` is the `k`-th neighbour of `x`.
pub open spec fn shifted(x: Cell, k: int, nb: Cell) -> bool {
    nb[0] == x[0] + offset_x(k) && nb[1] == x[1] + offset_y(k)
}

fn neighbor_offset(k: usize) -> (r: (i32, i32))
    requires
        k < 8,
    ensures
        r.0 == offset_x(k as int),
        r.1 == offset_y(k as int),
{
    match k {
        0 => (-1, 0),
        1 => (1, 0),
        2 => (0, -1),
        3 => (0, 1),
        4 => (-1, -1),
        5 => (-1, 1),
        6 => (1, -1),
        _ => (1, 1),
    }
}

/// Every neighbour is one of the eight offsets.
proof fn lemma_adjacent_offset(x: Cell, nb: Cell) -> (k: int)
    requires
        adjacent(x, nb),
    ensures
        0 <= k < 8,
        shifted(x, k, nb),
{
    lemma_cell_eq(x, nb);
    let dx = nb[0] - x[0];
    let dy = nb[1] - x[1];
    if dx == -1 && dy == 0 {
        0
    } else if dx == 1 && dy == 0 {
        1
    } else if dx == 0 && dy == -1 {
        2
    } else if dx == 0 && dy == 1 {
        3
    } else if dx == -1 && dy == -1 {
        4
    } else if dx == -1 && dy == 1 {
        5
    } else if dx == 1 && dy == -1 {
        6
    } else {
        7
    }
}

/// Every offset gives a neighbour.
proof fn lemma_offset_adjacent(x: Cell, k: int, nb: Cell)
    requires
        0 <= k < 8,
        shifted(x, k, nb),
    ensures
        adjacent(x, nb),
{
    lemma_cell_eq(x, nb);
}

/// A walk may go on to a neighbour in the area.
proof fn lemma_walk_push(area: Seq<Cell>, w: Seq<Cell>, nb: Cell)
    requires
        is_walk(area, w),
        adjacent(w.last(), nb),
        area.contains(nb),
    ensures
        is_walk(area, w.push(nb)),
        w.push(nb)[0] == w[0],
        w.push(nb).last() == nb,
{
    let w2 = w.push(nb);
    assert forall|i: int| 0 <= i < w2.len() - 1 implies adjacent(#[trigger] w2[i], w2[i + 1]) by {
        if i < w.len() - 1 {
            assert(w2[i] == w[i] && w2[i + 1] == w[i + 1]);
        }
    }
    assert forall|i: int| 0 <= i < w2.len() implies area.contains(#[trigger] w2[i]) by {
        if i < w.len() {
            assert(w2[i] == w[i]);
        }
    }
}

/// A set of cells that holds the start and every area neighbour of its cells
/// holds the end of every walk from the start.
proof fn lemma_closed_walk(area: Seq<Cell>, region: Seq<Cell>, w: Seq<Cell>)
    requires
        is_walk(area, w),
        region.contains(w[0]),
        forall|i: int, nb: Cell|
            0 <= i < region.len() && #[trigger] adjacent(region[i], nb) && area.contains(nb)
                ==> region.contains(nb),
    ensures
        region.contains(w.last()),
    decreases w.len(),
{
    if w.len() > 1 {
        let w0 = w.drop_last();
        assert forall|i: int| 0 <= i < w0.len() - 1 implies adjacent(#[trigger] w0[i], w0[i + 1]) by {
            assert(w0[i] == w[i] && w0[i + 1] == w[i + 1]);
        }
        assert forall|i: int| 0 <= i < w0.len() implies area.contains(#[trigger] w0[i]) by {
            assert(w0[i] == w[i]);
        }
        lemma_closed_walk(area, region, w0);
        let j = choose|j: int| 0 <= j < region.len() && region[j] == w0.last();
        assert(adjacent(w[w.len() - 2], w[w.len() - 1]));
        assert(adjacent(region[j], w.last()));
        assert(area.contains(w[w.len() - 1]));
    }
}

/// A duplicate-free list inside the area is no longer than the area.
proof fn lemma_region_bound(area: Seq<Cell>, region: Seq<Cell>)
    requires
        region.no_duplicates(),
        forall|i: int| 0 <= i < region.len() ==> area.contains(#[trigger] region[i]),
    ensures
        region.len() <= area.len(),
{
    broadcast use vstd::seq_lib::seq_to_set_is_finite;

    region.unique_seq_to_set();
    area.lemma_cardinality_of_set();
    assert(region.to_set().subset_of(area.to_set())) by {
        assert forall|x: Cell| region.to_set().contains(x) implies area.to_set().contains(x) by {
            let i = choose|i: int| 0 <= i < region.len() && region[i] == x;
            assert(area.contains(region[i]));
        }
    }
    vstd::set_lib::lemma_len_subset(region.to_set(), area.to_set());
}

/// The cells reachable from `start` through `area`, found breadth first.
pub fn flood_region(area: &Vec<Cell>, start: Cell) -> (region: Vec<Cell>)
    requires
        area@.contains(start),
    ensures
        region@.no_duplicates(),
        forall|x: Cell| region@.contains(x) <==> connected(area@, start, x),
{
    let mut region: Vec<Cell> = Vec::new();
    region.push(start);
    proof {
        let w = seq![start];
        assert(is_walk(area@, w));
        assert(w[0] == start && w.last() == start);
        assert(region@[0] == start);
        assert(connected(area@, start, start));
        lemma_region_bound(area@, region@);
    }
    let mut head: usize = 0;
    while head < region.len()
        invariant
            0 < region@.len() <= area@.len(),
            head <= region@.len(),
            region@.no_duplicates(),
            region@[0] == start,
            forall|i: int|
                0 <= i < region@.len() ==> area@.contains(#[trigger] region@[i]) && connected(
                    area@,
                    start,
                    region@[i],
                ),
            forall|i: int, nb: Cell|
                0 <= i < head && #[trigger] adjacent(region@[i], nb) && area@.contains(nb)
                    ==> region@.contains(nb),
        decreases area@.len() - head,
    {
        let x = region[head];
        let mut k: usize = 0;
        while k < 8
            invariant
                0 < region@.len() <= area@.len(),
                head < region@.len(),
                k <= 8,
                x == region@[head as int],
                region@.no_duplicates(),
                region@[0] == start,
                forall|i: int|
                    0 <= i < region@.len() ==> area@.contains(#[trigger] region@[i]) && connected(
                        area@,
                        start,
                        region@[i],
                    ),
                forall|i: int, nb: Cell|
                    0 <= i < head && #[trigger] adjacent(region@[i], nb) && area@.contains(nb)
                        ==> region@.contains(nb),
                forall|j: int, nb: Cell|
                    0 <= j < k && #[trigger] shifted(x, j, nb) && area@.contains(nb)
                        ==> region@.contains(nb),
            decreases 8 - k,
        {
            let (dx, dy) = neighbor_offset(k);
            let ghost pre = region@;
            match (x[0].checked_add(dx), x[1].checked_add(dy)) {
                (Some(nx), Some(ny)) => {
                    let nb: Cell = [nx, ny];
                    if contains_cell(area, nb) && !contains_cell(&region, nb) {
                        region.push(nb);
                        proof {
                            lemma_offset_adjacent(x, k as int, nb);
                            let w = choose|w: Seq<Cell>|
                                is_walk(area@, w) && w[0] == start && w.last() == x;
                            lemma_walk_push(area@, w, nb);
                            assert(connected(area@, start, nb));
                            assert forall|i: int|
                                0 <= i < region@.len() implies area@.contains(#[trigger] region@[i])
                                && connected(area@, start, region@[i]) by {
                                if i < pre.len() {
                                    assert(region@[i] == pre[i]);
                                }
                            }
                            assert(region@.no_duplicates()) by {
                                assert forall|a: int, b: int|
                                    0 <= a < region@.len() && 0 <= b < region@.len() && a
                                        != b implies region@[a] != region@[b] by {
                                    if a < pre.len() && b < pre.len() {
                                        assert(region@[a] == pre[a] && region@[b] == pre[b]);
                                    } else if a < pre.len() {
                                        assert(region@[a] == pre[a]);
                                        assert(pre.contains(pre[a]));
                                    } else {
                                        assert(region@[b] == pre[b]);
                                        assert(pre.contains(pre[b]));
                                    }
                                }
                            }
                            lemma_region_bound(area@, region@);
                            assert forall|i: int, nb2: Cell|
                                0 <= i < head && #[trigger] adjacent(region@[i], nb2) && area@.contains(
                                    nb2,
                                ) implies region@.contains(nb2) by {
                                assert(region@[i] == pre[i]);
                                assert(pre.contains(nb2));
                                let m = choose|m: int| 0 <= m < pre.len() && pre[m] == nb2;
                                assert(region@[m] == nb2);
                            }
                            assert forall|j: int, nb2: Cell|
                                0 <= j < k + 1 && #[trigger] shifted(x, j, nb2) && area@.contains(
                                    nb2,
                                ) implies region@.contains(nb2) by {
                                if j < k {
                                    assert(pre.contains(nb2));
                                    let m = choose|m: int| 0 <= m < pre.len() && pre[m] == nb2;
                                    assert(region@[m] == nb2);
                                } else {
                                    lemma_cell_eq(nb, nb2);
                                    assert(region@[pre.len() as int] == nb);
                                }
                            }
                        }
                    } else {
                        proof {
                            assert forall|j: int, nb2: Cell|
                                0 <= j < k + 1 && #[trigger] shifted(x, j, nb2) && area@.contains(
                                    nb2,
                                ) implies region@.contains(nb2) by {
                                if j == k {
                                    lemma_cell_eq(nb, nb2);
                                }
                            }
                        }
                    }
                },
                _ => {
                    proof {
                        assert forall|j: int, nb2: Cell|
                            0 <= j < k + 1 && #[trigger] shifted(x, j, nb2) && area@.contains(nb2)
                                implies region@.contains(nb2) by {
                            if j == k {
                                assert(false);
                            }
                        }
                    }
                },
            }
            k += 1;
        }
        proof {
            assert forall|i: int, nb: Cell|
                0 <= i < head + 1 && #[trigger] adjacent(region@[i], nb) && area@.contains(nb)
                    implies region@.contains(nb) by {
                if i == head {
                    let j = lemma_adjacent_offset(x, nb);
                }
            }
        }
        head += 1;
    }
    proof {
        assert forall|x: Cell| region@.contains(x) <==> connected(area@, start, x) by {
            if connected(area@, start, x) {
                let w = choose|w: Seq<Cell>| is_walk(area@, w) && w[0] == start && w.last() == x;
                assert(region@[0] == start);
                lemma_closed_walk(area@, region@, w);
            }
            if region@.contains(x) {
                let i = choose|i: int| 0 <= i < region@.len() && region@[i] == x;
            }
        }
    }
    region
}

/// The last stroke holding `c` is the one `seed_pos` names.
proof fn lemma_seed_pos(st: Seq<StrokeView>, c: Cell, j: int)
    requires
        0 <= j < st.len(),
        st[j].cells.contains(c),
        forall|m: int| j < m < st.len() ==> !(#[trigger] st[m]).cells.contains(c),
    ensures
        seed_pos(st, c) == Some(j),
    decreases st.len(),
{
    if j < st.len() - 1 {
        let init = st.drop_last();
        assert forall|m: int| j < m < init.len() implies !(#[trigger] init[m]).cells.contains(c) by {
            assert(init[m] == st[m]);
        }
        lemma_seed_pos(init, c, j);
    }
}

/// Without a stroke holding `c`, `seed_pos` is `None`.
proof fn lemma_seed_pos_none(st: Seq<StrokeView>, c: Cell)
    requires
        forall|m: int| 0 <= m < st.len() ==> !(#[trigger] st[m]).cells.contains(c),
    ensures
        seed_pos(st, c) is None,
    decreases st.len(),
{
    if st.len() > 0 {
        let init = st.drop_last();
        assert forall|m: int| 0 <= m < init.len() implies !(#[trigger] init[m]).cells.contains(c) by {
            assert(init[m] == st[m]);
        }
        lemma_seed_pos_none(init, c);
    }
}

/// Collects the cells of all strokes of the given style.
fn collect_style_cells(
    strokes: &Vec<DrawStroke>,
    primitive: DrawPrimitive,
    size_index: u8,
    color_index: u8,
) -> (r: Vec<Cell>)
    ensures
        r@ == style_cells(strokes_view(strokes@), primitive, size_index, color_index),
{
    let ghost st = strokes_view(strokes@);
    let mut out: Vec<Cell> = Vec::new();
    let mut j: usize = 0;
    while j < strokes.len()
        invariant
            j <= strokes@.len(),
            st == strokes_view(strokes@),
            out@ == style_cells(st.take(j as int), primitive, size_index, color_index),
        decreases strokes@.len() - j,
    {
        assert(st.take(j + 1).drop_last() =~= st.take(j as int));
        assert(st[j as int] == strokes@[j as int]@);
        if strokes[j].primitive == primitive && strokes[j].size_index == size_index
            && strokes[j].color_index == color_index {
            let ghost before = out@;
            let mut t: usize = 0;
            while t < strokes[j].cells.len()
                invariant
                    j < strokes@.len(),
                    t <= strokes@[j as int].cells@.len(),
                    out@ == before + strokes@[j as int].cells@.take(t as int),
                decreases strokes@[j as int].cells@.len() - t,
            {
                out.push(strokes[j].cells[t]);
                t += 1;
                assert(out@ =~= before + strokes@[j as int].cells@.take(t as int));
            }
            assert(strokes@[j as int].cells@.take(t as int) =~= strokes@[j as int].cells@);
        }
        j += 1;
    }
    assert(st.take(j as int) =~= st);
    out
}

/// Splits the cells of a stroke into those outside the region and, styled,
/// those inside it.
fn split_by_region(
    stroke: &DrawStroke,
    region: &Vec<Cell>,
    Ghost(area): Ghost<Seq<Cell>>,
    Ghost(from): Ghost<Cell>,
) -> (r: (Vec<Cell>, Vec<StyledCell>))
    requires
        forall|x: Cell| region@.contains(x) <==> connected(area, from, x),
    ensures
        r.0@ == cells_apart(stroke@.cells, area, from),
        r.1@ == styled_within(stroke@.cells, stroke@, area, from),
{
    let mut kept: Vec<Cell> = Vec::new();
    let mut removed: Vec<StyledCell> = Vec::new();
    let mut i: usize = 0;
    while i < stroke.cells.len()
        invariant
            i <= stroke.cells@.len(),
            forall|x: Cell| region@.contains(x) <==> connected(area, from, x),
            kept@ == cells_apart(stroke@.cells.take(i as int), area, from),
            removed@ == styled_within(stroke@.cells.take(i as int), stroke@, area, from),
        decreases stroke.cells@.len() - i,
    {
        assert(stroke@.cells.take(i + 1).drop_last() =~= stroke@.cells.take(i as int));
        let cell = stroke.cells[i];
        if contains_cell(region, cell) {
            removed.push(
                StyledCell {
                    primitive: stroke.primitive,
                    size_index: stroke.size_index,
                    color_index: stroke.color_index,
                    cell,
                },
            );
        } else {
            kept.push(cell);
        }
        i += 1;
    }
    assert(stroke@.cells.take(i as int) =~= stroke@.cells);
    (kept, removed)
}

/// Takes the region's cells out of the strokes of the given style, drops strokes
/// left empty, and returns the cells taken out.
fn strip_region(
    strokes: &mut Vec<DrawStroke>,
    primitive: DrawPrimitive,
    size_index: u8,
    color_index: u8,
    region: &Vec<Cell>,
    Ghost(area): Ghost<Seq<Cell>>,
    Ghost(from): Ghost<Cell>,
) -> (r: Vec<StyledCell>)
    requires
        forall|x: Cell| region@.contains(x) <==> connected(area, from, x),
    ensures
        strokes_view(final(strokes)@) == drop_empty(
            flood_strokes(strokes_view(old(strokes)@), primitive, size_index, color_index, area, from),
        ),
        r@ == flood_removed(strokes_view(old(strokes)@), primitive, size_index, color_index, area, from),
{
    let ghost st = strokes_view(old(strokes)@);
    let mut removed: Vec<StyledCell> = Vec::new();
    let m = strokes.len();
    let mut j: usize = 0;
    while j < m
        invariant
            m == st.len(),
            strokes@.len() == m,
            j <= m,
            st == strokes_view(old(strokes)@),
            forall|x: Cell| region@.contains(x) <==> connected(area, from, x),
            strokes_view(strokes@) == flood_strokes(
                st.take(j as int),
                primitive,
                size_index,
                color_index,
                area,
                from,
            ) + st.skip(j as int),
            removed@ == flood_removed(st.take(j as int), primitive, size_index, color_index, area, from),
        decreases m - j,
    {
        let ghost pre = strokes_view(strokes@);
        proof {
            lemma_flood_strokes_len(st.take(j as int), primitive, size_index, color_index, area, from);
        }
        assert(st.take(j + 1).drop_last() =~= st.take(j as int));
        assert(pre[j as int] == st[j as int]);
        assert(st.skip(j as int).drop_first() =~= st.skip(j + 1));
        if strokes[j].primitive == primitive && strokes[j].size_index == size_index
            && strokes[j].color_index == color_index {
            let (kept, out) = split_by_region(&strokes[j], region, Ghost(area), Ghost(from));
            let mut t: usize = 0;
            let ghost before = removed@;
            while t < out.len()
                invariant
                    t <= out@.len(),
                    removed@ == before + out@.take(t as int),
                decreases out@.len() - t,
            {
                removed.push(out[t]);
                t += 1;
                assert(removed@ =~= before + out@.take(t as int));
            }
            assert(out@.take(t as int) =~= out@);
            strokes[j].cells = kept;
            proof {
                let ns = StrokeView { cells: cells_apart(st[j as int].cells, area, from), ..st[j as int] };
                assert(strokes_view(strokes@) =~= pre.update(j as int, ns));
            }
        } else {
            assert(strokes_view(strokes@) =~= pre);
        }
        j += 1;
        assert(strokes_view(strokes@) =~= flood_strokes(
            st.take(j as int),
            primitive,
            size_index,
            color_index,
            area,
            from,
        ) + st.skip(j as int));
    }
    assert(st.take(m as int) =~= st);
    assert(strokes_view(strokes@) =~= flood_strokes(st, primitive, size_index, color_index, area, from));
    drop_empty_strokes(strokes);
    removed
}

/// Flood erasing keeps the number of strokes.
pub proof fn lemma_flood_strokes_len(
    strokes: Seq<StrokeView>,
    primitive: DrawPrimitive,
    size_index: u8,
    color_index: u8,
    area: Seq<Cell>,
    from: Cell,
)
    ensures
        flood_strokes(strokes, primitive, size_index, color_index, area, from).len() == strokes.len(),
    decreases strokes.len(),
{
    if strokes.len() > 0 {
        lemma_flood_strokes_len(strokes.drop_last(), primitive, size_index, color_index, area, from);
    }
}

/// Erases, on the active tab, every cell connected to `[cx, cy]` in the style of
/// the last stroke holding it; returns the erased cells with their styles.
pub fn erase_connected_color_at_cell(document: &mut PaintDocument, cx: i32, cy: i32) -> (r: Vec<
    StyledCell,
>)
    ensures
        (final(document)@, r@) == spec_erase_connected(old(document)@, [cx, cy]),
{
    let c: Cell = [cx, cy];
    let i = match document.tab_index(document.active_tab_id) {
        Some(i) => i,
        None => {
            return Vec::new();
        },
    };
    let ghost st = old(document)@.tabs[i as int].strokes;
    let n = document.tabs[i].draw_strokes.len();
    let mut k: usize = n;
    let mut seed: Option<usize> = None;
    while k > 0
        invariant_except_break
            seed is None,
            forall|m: int| k <= m < n ==> !(#[trigger] st[m]).cells.contains(c),
        invariant
            k <= n,
            n == st.len(),
            document@ == old(document)@,
            st == old(document)@.tabs[i as int].strokes,
            i < old(document)@.tabs.len(),
        ensures
            seed is None ==> forall|m: int| 0 <= m < n ==> !(#[trigger] st[m]).cells.contains(c),
            seed matches Some(j) ==> j < n && st[j as int].cells.contains(c) && forall|m: int|
                j < m < n ==> !(#[trigger] st[m]).cells.contains(c),
        decreases k,
    {
        k -= 1;
        assert(st[k as int] == document.tabs@[i as int].draw_strokes@[k as int]@);
        if contains_cell(&document.tabs[i].draw_strokes[k].cells, c) {
            seed = Some(k);
            break;
        }
    }
    let k = match seed {
        Some(k) => k,
        None => {
            proof {
                lemma_seed_pos_none(st, c);
            }
            return Vec::new();
        },
    };
    proof {
        lemma_seed_pos(st, c, k as int);
    }
    let primitive = document.tabs[i].draw_strokes[k].primitive;
    let size_index = document.tabs[i].draw_strokes[k].size_index;
    let color_index = document.tabs[i].draw_strokes[k].color_index;
    let area = collect_style_cells(&document.tabs[i].draw_strokes, primitive, size_index, color_index);
    if !contains_cell(&area, c) {
        return Vec::new();
    }
    let region = flood_region(&area, c);
    let removed = strip_region(
        &mut document.tabs[i].draw_strokes,
        primitive,
        size_index,
        color_index,
        &region,
        Ghost(area@),
        Ghost(c),
    );
    proof {
        assert(document@.tabs =~= old(document)@.tabs.update(
            i as int,
            TabView {
                strokes: drop_empty(flood_strokes(st, primitive, size_index, color_index, area@, c)),
                ..old(document)@.tabs[i as int]
            },
        ));
    }
    removed
}

} // verus!
