use crate::domain::stroke::{contains_cell, Cell, DrawPrimitive, DrawStroke, StrokeView};
use crate::domain::tab::strokes_view;
use vstd::prelude::*;

verus! {

/// The style strokes are grouped by when they are rendered.
#[derive(Debug, Clone, Copy, PartialEq, Eq, Structural)]
pub struct StrokeStyle {
    pub primitive: DrawPrimitive,
    pub size_index: u8,
    pub color_index: u8,
}

/// The distinct cells of one style, in the order they first appear.
#[derive(Debug, Clone)]
pub struct StyleGroup {
    pub style: StrokeStyle,
    pub cells: Vec<Cell>,
}

/// The mathematical content of a style group.
pub struct GroupView {
    pub style: StrokeStyle,
    pub cells: Seq<Cell>,
}

impl View for StyleGroup {
    type V = GroupView;

    open spec fn view(&self) -> GroupView {
        GroupView { style: self.style, cells: self.cells@ }
    }
}

/// The views of a list of groups.
pub open spec fn groups_view(groups: Seq<StyleGroup>) -> Seq<GroupView> {
    groups.map_values(|g: StyleGroup| g@)
}

/// What the renderer draws, in grid cells: the dot at a cell of a line, the
/// segment between two neighbouring cells of a line, or the square of a point.
#[derive(Debug, Clone, Copy, PartialEq, Eq)]
pub enum RenderCommand {
    LinePoint { cell: Cell, size_index: u8, color_index: u8 },
    LineSegment { from: Cell, to: Cell, size_index: u8, color_index: u8 },
    PointRect { cell: Cell, size_index: u8, color_index: u8 },
}

/// The list after adding, in turn, each cell it does not hold yet.
pub open spec fn add_new_cells(cells: Seq<Cell>, added: Seq<Cell>) -> Seq<Cell>
    decreases added.len(),
{
    if added.len() == 0 {
        cells
    } else {
        let before = add_new_cells(cells, added.drop_last());
        if before.contains(added.last()) {
            before
        } else {
            before.push(added.last())
        }
    }
}

/// The group's style matches the stroke's (the group keeps a size limited to 3,
/// and the match compares it with the stroke's own size).
pub open spec fn group_matches(g: GroupView, s: StrokeView) -> bool {
    g.style.primitive == s.primitive && g.style.size_index == s.size_index && g.style.color_index
        == s.color_index
}

/// `i` is the first group matching the stroke.
pub open spec fn is_first_match(groups: Seq<GroupView>, s: StrokeView, i: int) -> bool {
    0 <= i < groups.len() && group_matches(groups[i], s) && forall|j: int|
        0 <= j < i ==> !group_matches(groups[j], s)
}

/// The size index limited to the four sizes there are.
pub open spec fn clamp_size_index(size_index: u8) -> u8 {
    if size_index <= 3 {
        size_index
    } else {
        3
    }
}

/// The groups after a stroke: its cells join the first matching group, or a
/// new group of its style is started.
pub open spec fn add_stroke_to_groups(groups: Seq<GroupView>, s: StrokeView) -> Seq<GroupView> {
    if exists|i: int| is_first_match(groups, s, i) {
        let i = choose|i: int| is_first_match(groups, s, i);
        groups.update(i, GroupView { cells: add_new_cells(groups[i].cells, s.cells), ..groups[i] })
    } else {
        groups.push(
            GroupView {
                style: StrokeStyle {
                    primitive: s.primitive,
                    size_index: clamp_size_index(s.size_index),
                    color_index: s.color_index,
                },
                cells: add_new_cells(Seq::empty(), s.cells),
            },
        )
    }
}

/// The style groups of a list of strokes, in the order the styles first appear.
pub open spec fn group_strokes_spec(strokes: Seq<StrokeView>) -> Seq<GroupView>
    decreases strokes.len(),
{
    if strokes.len() == 0 {
        Seq::empty()
    } else {
        add_stroke_to_groups(group_strokes_spec(strokes.drop_last()), strokes.last())
    }
}

/// The groups of the given size, in order.
pub open spec fn groups_of_size(groups: Seq<GroupView>, size_index: u8) -> Seq<GroupView>
    decreases groups.len(),
{
    if groups.len() == 0 {
        groups
    } else {
        let rest = groups_of_size(groups.drop_last(), size_index);
        if groups.last().style.size_index == size_index {
            rest.push(groups.last())
        } else {
            rest
        }
    }
}

/// The groups ordered by falling size, groups of one size keeping their order.
pub open spec fn sort_groups_spec(groups: Seq<GroupView>) -> Seq<GroupView> {
    groups_of_size(groups, 3) + groups_of_size(groups, 2) + groups_of_size(groups, 1)
        + groups_of_size(groups, 0)
}

/// Appends the cells to the list, skipping those it already holds.
fn add_cells(cells: &mut Vec<Cell>, added: &Vec<Cell>)
    ensures
        final(cells)@ == add_new_cells(old(cells)@, added@),
{
    let ghost start = cells@;
    let mut i: usize = 0;
    while i < added.len()
        invariant
            i <= added@.len(),
            cells@ == add_new_cells(start, added@.take(i as int)),
            start == old(cells)@,
        decreases added@.len() - i,
    {
        assert(added@.take(i + 1).drop_last() =~= added@.take(i as int));
        if !contains_cell(cells, added[i]) {
            cells.push(added[i]);
        }
        i += 1;
    }
    assert(added@.take(i as int) =~= added@);
}

/// Groups the strokes by style: each group holds the distinct cells of the
/// strokes of its style.
pub fn group_strokes(strokes: &[DrawStroke]) -> (r: Vec<StyleGroup>)
    ensures
        groups_view(r@) == group_strokes_spec(strokes_view(strokes@)),
{
    let ghost st = strokes_view(strokes@);
    let mut groups: Vec<StyleGroup> = Vec::new();
    let mut j: usize = 0;
    while j < strokes.len()
        invariant
            j <= strokes@.len(),
            st == strokes_view(strokes@),
            groups_view(groups@) == group_strokes_spec(st.take(j as int)),
        decreases strokes@.len() - j,
    {
        assert(st.take(j + 1).drop_last() =~= st.take(j as int));
        let ghost gv = groups_view(groups@);
        let s = &strokes[j];
        assert(st[j as int] == s@);
        let mut found: Option<usize> = None;
        let mut i: usize = 0;
        while i < groups.len()
            invariant_except_break
                found is None,
            invariant
                i <= groups@.len(),
                gv == groups_view(groups@),
                forall|m: int| 0 <= m < i ==> !group_matches(gv[m], s@),
            ensures
                found is None ==> forall|m: int| 0 <= m < gv.len() ==> !group_matches(gv[m], s@),
                found matches Some(k) ==> is_first_match(gv, s@, k as int),
            decreases groups@.len() - i,
        {
            if groups[i].style.primitive == s.primitive && groups[i].style.size_index == s.size_index
                && groups[i].style.color_index == s.color_index {
                found = Some(i);
                break;
            }
            i += 1;
        }
        match found {
            Some(k) => {
                proof {
                    let c = choose|c: int| is_first_match(gv, s@, c);
                    if c < k {
                        assert(!group_matches(gv[c], s@));
                    }
                    if k < c {
                        assert(!group_matches(gv[k as int], s@));
                    }
                }
                add_cells(&mut groups[k].cells, &s.cells);
                assert(groups_view(groups@) =~= add_stroke_to_groups(gv, s@));
            },
            None => {
                let mut cells: Vec<Cell> = Vec::new();
                add_cells(&mut cells, &s.cells);
                groups.push(
                    StyleGroup {
                        style: StrokeStyle {
                            primitive: s.primitive,
                            size_index: if s.size_index <= 3 {
                                s.size_index
                            } else {
                                3
                            },
                            color_index: s.color_index,
                        },
                        cells,
                    },
                );
                assert(groups_view(groups@) =~= add_stroke_to_groups(gv, s@));
            },
        }
        j += 1;
    }
    assert(st.take(j as int) =~= st);
    groups
}

/// The cell one column to the right, when there is one.
pub open spec fn right_of(c: Cell) -> Option<Cell> {
    if c[0] < i32::MAX {
        Some([(c[0] + 1) as i32, c[1]])
    } else {
        None
    }
}

/// The cell one row further down, when there is one.
pub open spec fn below(c: Cell) -> Option<Cell> {
    if c[1] < i32::MAX {
        Some([c[0], (c[1] + 1) as i32])
    } else {
        None
    }
}

/// A segment from `c` to `nb` when `nb` exists and is a cell of the group.
pub open spec fn segment_to(g: GroupView, c: Cell, nb: Option<Cell>) -> Seq<RenderCommand> {
    match nb {
        Some(n) => if g.cells.contains(n) {
            seq![
                RenderCommand::LineSegment {
                    from: c,
                    to: n,
                    size_index: g.style.size_index,
                    color_index: g.style.color_index,
                },
            ]
        } else {
            Seq::empty()
        },
        None => Seq::empty(),
    }
}

/// What one cell of a group draws: for a line its dot and the segments to its
/// right and lower neighbours in the group, for points its square.
pub open spec fn cell_commands(g: GroupView, c: Cell) -> Seq<RenderCommand> {
    match g.style.primitive {
        DrawPrimitive::Line => seq![
            RenderCommand::LinePoint {
                cell: c,
                size_index: g.style.size_index,
                color_index: g.style.color_index,
            },
        ] + segment_to(g, c, right_of(c)) + segment_to(g, c, below(c)),
        DrawPrimitive::Point => seq![
            RenderCommand::PointRect {
                cell: c,
                size_index: g.style.size_index,
                color_index: g.style.color_index,
            },
        ],
    }
}

/// What the first `cells` of a group draw, cell by cell.
pub open spec fn cells_commands(g: GroupView, cells: Seq<Cell>) -> Seq<RenderCommand>
    decreases cells.len(),
{
    if cells.len() == 0 {
        Seq::empty()
    } else {
        cells_commands(g, cells.drop_last()) + cell_commands(g, cells.last())
    }
}

/// What the groups draw, group by group.
pub open spec fn groups_commands(groups: Seq<GroupView>) -> Seq<RenderCommand>
    decreases groups.len(),
{
    if groups.len() == 0 {
        Seq::empty()
    } else {
        groups_commands(groups.drop_last()) + cells_commands(groups.last(), groups.last().cells)
    }
}

/// What drawing the strokes amounts to: their style groups, largest size first,
/// each drawn cell by cell.
pub open spec fn plan_strokes_spec(strokes: Seq<StrokeView>) -> Seq<RenderCommand> {
    groups_commands(sort_groups_spec(group_strokes_spec(strokes)))
}

/// Drawing a concatenation draws one part after the other.
pub proof fn lemma_groups_commands_add(a: Seq<GroupView>, b: Seq<GroupView>)
    ensures
        groups_commands(a + b) == groups_commands(a) + groups_commands(b),
    decreases b.len(),
{
    if b.len() == 0 {
        assert(a + b =~= a);
        assert(groups_commands(a) + groups_commands(b) =~= groups_commands(a));
    } else {
        lemma_groups_commands_add(a, b.drop_last());
        assert((a + b).drop_last() =~= a + b.drop_last());
        assert((a + b).last() == b.last());
        assert(groups_commands(a + b) =~= groups_commands(a) + groups_commands(b));
    }
}

/// The commands of one group.
fn group_commands(g: &StyleGroup, out: &mut Vec<RenderCommand>)
    ensures
        final(out)@ == old(out)@ + cells_commands(g@, g@.cells),
{
    let ghost start = out@;
    let mut i: usize = 0;
    while i < g.cells.len()
        invariant
            i <= g.cells@.len(),
            out@ == start + cells_commands(g@, g@.cells.take(i as int)),
            start == old(out)@,
        decreases g.cells@.len() - i,
    {
        assert(g@.cells.take(i + 1).drop_last() =~= g@.cells.take(i as int));
        let c = g.cells[i];
        let ghost before = out@;
        match g.style.primitive {
            DrawPrimitive::Line => {
                out.push(
                    RenderCommand::LinePoint {
                        cell: c,
                        size_index: g.style.size_index,
                        color_index: g.style.color_index,
                    },
                );
                if let Some(nx) = c[0].checked_add(1) {
                    let r: Cell = [nx, c[1]];
                    if contains_cell(&g.cells, r) {
                        out.push(
                            RenderCommand::LineSegment {
                                from: c,
                                to: r,
                                size_index: g.style.size_index,
                                color_index: g.style.color_index,
                            },
                        );
                    }
                }
                if let Some(ny) = c[1].checked_add(1) {
                    let d: Cell = [c[0], ny];
                    if contains_cell(&g.cells, d) {
                        out.push(
                            RenderCommand::LineSegment {
                                from: c,
                                to: d,
                                size_index: g.style.size_index,
                                color_index: g.style.color_index,
                            },
                        );
                    }
                }
            },
            DrawPrimitive::Point => {
                out.push(
                    RenderCommand::PointRect {
                        cell: c,
                        size_index: g.style.size_index,
                        color_index: g.style.color_index,
                    },
                );
            },
        }
        assert(out@ =~= before + cell_commands(g@, c));
        i += 1;
    }
    assert(g@.cells.take(i as int) =~= g@.cells);
}

/// What to draw for the strokes: they are grouped by style (each group holding
/// its distinct cells), the groups are taken largest size first, and each group
/// draws, per cell, a dot and the segments to its right and lower neighbours
/// (lines) or a square (points).
pub fn plan_strokes(strokes: &[DrawStroke]) -> (r: Vec<RenderCommand>)
    ensures
        r@ == plan_strokes_spec(strokes_view(strokes@)),
{
    let groups = group_strokes(strokes);
    let ghost gv = groups_view(groups@);
    let mut out: Vec<RenderCommand> = Vec::new();
    let mut pass: usize = 0;
    let ghost mut done: Seq<GroupView> = Seq::empty();
    while pass < 4
        invariant
            pass <= 4,
            gv == groups_view(groups@),
            done == (if pass == 0 {
                Seq::empty()
            } else if pass == 1 {
                groups_of_size(gv, 3)
            } else if pass == 2 {
                groups_of_size(gv, 3) + groups_of_size(gv, 2)
            } else if pass == 3 {
                groups_of_size(gv, 3) + groups_of_size(gv, 2) + groups_of_size(gv, 1)
            } else {
                sort_groups_spec(gv)
            }),
            out@ == groups_commands(done),
        decreases 4 - pass,
    {
        let size: u8 = (3 - pass) as u8;
        let ghost base = out@;
        let mut i: usize = 0;
        while i < groups.len()
            invariant
                i <= groups@.len(),
                gv == groups_view(groups@),
                out@ == base + groups_commands(groups_of_size(gv.take(i as int), size)),
            decreases groups@.len() - i,
        {
            assert(gv.take(i + 1).drop_last() =~= gv.take(i as int));
            assert(gv[i as int] == groups@[i as int]@);
            let ghost prev = groups_of_size(gv.take(i as int), size);
            if groups[i].style.size_index == size {
                group_commands(&groups[i], &mut out);
                assert(prev.push(gv[i as int]).drop_last() =~= prev);
                assert(out@ =~= base + groups_commands(prev.push(gv[i as int])));
            }
            i += 1;
        }
        proof {
            assert(gv.take(i as int) =~= gv);
            lemma_groups_commands_add(done, groups_of_size(gv, size));
            done = done + groups_of_size(gv, size);
        }
        pass += 1;
    }
    out
}

/// Adding cells keeps the list's cells and its distinctness, and adds the new ones.
pub proof fn lemma_add_new_cells(cells: Seq<Cell>, added: Seq<Cell>)
    ensures
        cells.no_duplicates() ==> add_new_cells(cells, added).no_duplicates(),
        forall|m: int| 0 <= m < added.len() ==> add_new_cells(cells, added).contains(#[trigger] added[m]),
        forall|c: Cell| cells.contains(c) ==> add_new_cells(cells, added).contains(c),
    decreases added.len(),
{
    if added.len() > 0 {
        let init = added.drop_last();
        lemma_add_new_cells(cells, init);
        let before = add_new_cells(cells, init);
        let after = add_new_cells(cells, added);
        assert forall|c: Cell| before.contains(c) implies after.contains(c) by {
            let j = choose|j: int| 0 <= j < before.len() && before[j] == c;
            if !before.contains(added.last()) {
                assert(after[j] == before[j]);
            }
        }
        assert forall|m: int| 0 <= m < added.len() implies after.contains(#[trigger] added[m]) by {
            if m < init.len() {
                assert(init[m] == added[m]);
                assert(before.contains(init[m]));
            } else if !before.contains(added.last()) {
                assert(after[before.len() as int] == added.last());
            }
        }
    }
}

/// Every group holds distinct cells and a size of at most 3, and every cell of
/// every stroke lies in a group of the stroke's color, primitive and size
/// (limited to 3).
pub open spec fn groups_cover(groups: Seq<GroupView>, strokes: Seq<StrokeView>) -> bool {
    &&& forall|g: int| 0 <= g < groups.len() ==> (#[trigger] groups[g]).cells.no_duplicates()
        && groups[g].style.size_index <= 3
    &&& forall|k: int, c: Cell|
        0 <= k < strokes.len() && #[trigger] strokes[k].cells.contains(c) ==> exists|g: int|
            0 <= g < groups.len() && (#[trigger] groups[g]).style == (StrokeStyle {
                primitive: strokes[k].primitive,
                size_index: clamp_size_index(strokes[k].size_index),
                color_index: strokes[k].color_index,
            }) && groups[g].cells.contains(c)
}

/// Grouping loses no cell and keeps each group's cells distinct.
pub proof fn lemma_group_strokes_cover(strokes: Seq<StrokeView>)
    ensures
        groups_cover(group_strokes_spec(strokes), strokes),
    decreases strokes.len(),
{
    if strokes.len() > 0 {
        let init = strokes.drop_last();
        let s = strokes.last();
        lemma_group_strokes_cover(init);
        let gs = group_strokes_spec(init);
        let r = group_strokes_spec(strokes);
        assert(r == add_stroke_to_groups(gs, s));
        if exists|i: int| is_first_match(gs, s, i) {
            let i = choose|i: int| is_first_match(gs, s, i);
            lemma_add_new_cells(gs[i].cells, s.cells);
            assert forall|g: int| 0 <= g < r.len() implies (#[trigger] r[g]).cells.no_duplicates()
                && r[g].style.size_index <= 3 by {
                assert(gs[g].cells.no_duplicates());
            }
            assert forall|k: int, c: Cell|
                0 <= k < strokes.len() && #[trigger] strokes[k].cells.contains(c) implies exists|g: int|
                0 <= g < r.len() && (#[trigger] r[g]).style == (StrokeStyle {
                    primitive: strokes[k].primitive,
                    size_index: clamp_size_index(strokes[k].size_index),
                    color_index: strokes[k].color_index,
                }) && r[g].cells.contains(c) by {
                if k < init.len() {
                    assert(init[k] == strokes[k]);
                    assert(init[k].cells.contains(c));
                    let g = choose|g: int|
                        0 <= g < gs.len() && (#[trigger] gs[g]).style == (StrokeStyle {
                            primitive: init[k].primitive,
                            size_index: clamp_size_index(init[k].size_index),
                            color_index: init[k].color_index,
                        }) && gs[g].cells.contains(c);
                    assert(r[g].cells.contains(c));
                } else {
                    let m = choose|m: int| 0 <= m < s.cells.len() && s.cells[m] == c;
                    assert(r[i].cells.contains(s.cells[m]));
                    assert(gs[i].style.size_index <= 3);
                    assert(r[i].style == (StrokeStyle {
                        primitive: strokes[k].primitive,
                        size_index: clamp_size_index(strokes[k].size_index),
                        color_index: strokes[k].color_index,
                    }));
                }
            }
        } else {
            lemma_add_new_cells(Seq::empty(), s.cells);
            assert forall|g: int| 0 <= g < r.len() implies (#[trigger] r[g]).cells.no_duplicates()
                && r[g].style.size_index <= 3 by {
                if g < gs.len() {
                    assert(r[g] == gs[g]);
                }
            }
            assert forall|k: int, c: Cell|
                0 <= k < strokes.len() && #[trigger] strokes[k].cells.contains(c) implies exists|g: int|
                0 <= g < r.len() && (#[trigger] r[g]).style == (StrokeStyle {
                    primitive: strokes[k].primitive,
                    size_index: clamp_size_index(strokes[k].size_index),
                    color_index: strokes[k].color_index,
                }) && r[g].cells.contains(c) by {
                if k < init.len() {
                    assert(init[k] == strokes[k]);
                    assert(init[k].cells.contains(c));
                    let g = choose|g: int|
                        0 <= g < gs.len() && (#[trigger] gs[g]).style == (StrokeStyle {
                            primitive: init[k].primitive,
                            size_index: clamp_size_index(init[k].size_index),
                            color_index: init[k].color_index,
                        }) && gs[g].cells.contains(c);
                    assert(r[g] == gs[g]);
                } else {
                    let m = choose|m: int| 0 <= m < s.cells.len() && s.cells[m] == c;
                    let g = gs.len() as int;
                    assert(r[g].cells.contains(s.cells[m]));
                }
            }
        }
    }
}

/// Ordering by size keeps every group whose size is at most 3.
pub proof fn lemma_sort_keeps(groups: Seq<GroupView>, g: int)
    requires
        0 <= g < groups.len(),
        groups[g].style.size_index <= 3,
    ensures
        sort_groups_spec(groups).contains(groups[g]),
{
    let sz = groups[g].style.size_index;
    lemma_groups_of_size_contains(groups, sz, g);
    let a = groups_of_size(groups, 3);
    let b = groups_of_size(groups, 2);
    let c = groups_of_size(groups, 1);
    let d = groups_of_size(groups, 0);
    let sorted = sort_groups_spec(groups);
    let part = groups_of_size(groups, sz);
    let m = choose|m: int| 0 <= m < part.len() && part[m] == groups[g];
    if sz == 3 {
        assert(sorted[m] == groups[g]);
    } else if sz == 2 {
        assert(sorted[a.len() + m] == groups[g]);
    } else if sz == 1 {
        assert(sorted[a.len() + b.len() + m] == groups[g]);
    } else {
        assert(sorted[a.len() + b.len() + c.len() + m] == groups[g]);
    }
}

proof fn lemma_groups_of_size_contains(groups: Seq<GroupView>, size_index: u8, g: int)
    requires
        0 <= g < groups.len(),
        groups[g].style.size_index == size_index,
    ensures
        groups_of_size(groups, size_index).contains(groups[g]),
    decreases groups.len(),
{
    let rest = groups_of_size(groups.drop_last(), size_index);
    if g < groups.len() - 1 {
        assert(groups.drop_last()[g] == groups[g]);
        lemma_groups_of_size_contains(groups.drop_last(), size_index, g);
        let m = choose|m: int| 0 <= m < rest.len() && rest[m] == groups[g];
        if groups.last().style.size_index == size_index {
            assert(rest.push(groups.last())[m] == groups[g]);
        }
    } else {
        assert(rest.push(groups.last())[rest.len() as int] == groups[g]);
    }
}

/// What marks cell `c` of a stroke on screen: the dot of a line or the square of a
/// point, in the stroke's color and size (limited to 3).
pub open spec fn cell_mark(s: StrokeView, c: Cell) -> RenderCommand {
    match s.primitive {
        DrawPrimitive::Line => RenderCommand::LinePoint {
            cell: c,
            size_index: clamp_size_index(s.size_index),
            color_index: s.color_index,
        },
        DrawPrimitive::Point => RenderCommand::PointRect {
            cell: c,
            size_index: clamp_size_index(s.size_index),
            color_index: s.color_index,
        },
    }
}

/// Drawing a group's cells draws, for each of them, its dot or square first.
proof fn lemma_cells_commands_mark(g: GroupView, cells: Seq<Cell>, c: Cell)
    requires
        cells.contains(c),
    ensures
        cells_commands(g, cells).contains(cell_commands(g, c)[0]),
    decreases cells.len(),
{
    let init = cells.drop_last();
    let before = cells_commands(g, init);
    let own = cell_commands(g, cells.last());
    assert(cells_commands(g, cells) == before + own);
    if cells.last() == c {
        assert((before + own)[before.len() as int] == own[0]);
    } else {
        let m = choose|m: int| 0 <= m < cells.len() && cells[m] == c;
        assert(init[m] == c);
        lemma_cells_commands_mark(g, init, c);
        let n = choose|n: int| 0 <= n < before.len() && before[n] == cell_commands(g, c)[0];
        assert((before + own)[n] == before[n]);
    }
}

/// Drawing the groups draws everything each group draws.
proof fn lemma_groups_commands_keep(groups: Seq<GroupView>, j: int, x: RenderCommand)
    requires
        0 <= j < groups.len(),
        cells_commands(groups[j], groups[j].cells).contains(x),
    ensures
        groups_commands(groups).contains(x),
    decreases groups.len(),
{
    let init = groups.drop_last();
    let before = groups_commands(init);
    let own = cells_commands(groups.last(), groups.last().cells);
    assert(groups_commands(groups) == before + own);
    if j == groups.len() - 1 {
        let n = choose|n: int| 0 <= n < own.len() && own[n] == x;
        assert((before + own)[before.len() + n] == x);
    } else {
        assert(init[j] == groups[j]);
        lemma_groups_commands_keep(init, j, x);
        let n = choose|n: int| 0 <= n < before.len() && before[n] == x;
        assert((before + own)[n] == x);
    }
}

/// Every cell of every stroke is drawn: the plan holds the cell's dot (for a
/// line) or square (for a point) in the stroke's color and size.
pub proof fn lemma_plan_draws_every_cell(strokes: Seq<StrokeView>, k: int, c: Cell)
    requires
        0 <= k < strokes.len(),
        strokes[k].cells.contains(c),
    ensures
        plan_strokes_spec(strokes).contains(cell_mark(strokes[k], c)),
{
    let gs = group_strokes_spec(strokes);
    lemma_group_strokes_cover(strokes);
    let g = choose|g: int|
        0 <= g < gs.len() && (#[trigger] gs[g]).style == (StrokeStyle {
            primitive: strokes[k].primitive,
            size_index: clamp_size_index(strokes[k].size_index),
            color_index: strokes[k].color_index,
        }) && gs[g].cells.contains(c);
    lemma_sort_keeps(gs, g);
    let sorted = sort_groups_spec(gs);
    let j = choose|j: int| 0 <= j < sorted.len() && sorted[j] == gs[g];
    lemma_cells_commands_mark(gs[g], gs[g].cells, c);
    assert(cell_commands(gs[g], c)[0] == cell_mark(strokes[k], c));
    lemma_groups_commands_keep(sorted, j, cell_mark(strokes[k], c));
}

/// A stroke of the given primitive and color holds cell `c`.
pub open spec fn stroke_holds(strokes: Seq<StrokeView>, primitive: DrawPrimitive, color_index: u8, c: Cell) -> bool {
    exists|k: int|
        0 <= k < strokes.len() && (#[trigger] strokes[k]).cells.contains(c) && strokes[k].primitive
            == primitive && strokes[k].color_index == color_index
}

/// The command draws only cells of strokes of its kind and color, and a segment
/// joins a cell to its right or lower neighbour.
pub open spec fn drawn_from_strokes(strokes: Seq<StrokeView>, x: RenderCommand) -> bool {
    match x {
        RenderCommand::LinePoint { cell, color_index, .. } => stroke_holds(
            strokes,
            DrawPrimitive::Line,
            color_index,
            cell,
        ),
        RenderCommand::LineSegment { from, to, color_index, .. } => stroke_holds(
            strokes,
            DrawPrimitive::Line,
            color_index,
            from,
        ) && stroke_holds(strokes, DrawPrimitive::Line, color_index, to) && (right_of(from)
            == Some(to) || below(from) == Some(to)),
        RenderCommand::PointRect { cell, color_index, .. } => stroke_holds(
            strokes,
            DrawPrimitive::Point,
            color_index,
            cell,
        ),
    }
}

/// Every cell of every group is held by a stroke of the group's kind and color.
pub open spec fn groups_sound(groups: Seq<GroupView>, strokes: Seq<StrokeView>) -> bool {
    forall|g: int, c: Cell|
        0 <= g < groups.len() && #[trigger] groups[g].cells.contains(c) ==> stroke_holds(
            strokes,
            groups[g].style.primitive,
            groups[g].style.color_index,
            c,
        )
}

/// Adding cells adds nothing but the list's cells and the added ones.
proof fn lemma_add_new_cells_from(cells: Seq<Cell>, added: Seq<Cell>, c: Cell)
    requires
        add_new_cells(cells, added).contains(c),
    ensures
        cells.contains(c) || added.contains(c),
    decreases added.len(),
{
    if added.len() > 0 {
        let init = added.drop_last();
        let before = add_new_cells(cells, init);
        if before.contains(c) {
            lemma_add_new_cells_from(cells, init, c);
            if init.contains(c) {
                let m = choose|m: int| 0 <= m < init.len() && init[m] == c;
                assert(added[m] == c);
            }
        } else {
            let after = add_new_cells(cells, added);
            let m = choose|m: int| 0 <= m < after.len() && after[m] == c;
            if !before.contains(added.last()) {
                if m < before.len() {
                    assert(before[m] == c);
                }
            }
            assert(added[added.len() - 1] == c);
        }
    }
}

/// A stroke held in a shorter list is held in the longer one.
proof fn lemma_stroke_holds_prefix(strokes: Seq<StrokeView>, primitive: DrawPrimitive, color_index: u8, c: Cell)
    requires
        strokes.len() > 0,
        stroke_holds(strokes.drop_last(), primitive, color_index, c),
    ensures
        stroke_holds(strokes, primitive, color_index, c),
{
    let init = strokes.drop_last();
    let k = choose|k: int|
        0 <= k < init.len() && (#[trigger] init[k]).cells.contains(c) && init[k].primitive
            == primitive && init[k].color_index == color_index;
    assert(strokes[k] == init[k]);
}

/// Grouping puts no cell in a group that no stroke of the group's kind and color holds.
proof fn lemma_group_strokes_sound(strokes: Seq<StrokeView>)
    ensures
        groups_sound(group_strokes_spec(strokes), strokes),
    decreases strokes.len(),
{
    if strokes.len() > 0 {
        let init = strokes.drop_last();
        let s = strokes.last();
        lemma_group_strokes_sound(init);
        let gs = group_strokes_spec(init);
        let r = group_strokes_spec(strokes);
        assert(r == add_stroke_to_groups(gs, s));
        let last = strokes.len() - 1;
        assert(strokes[last] == s);
        if exists|i: int| is_first_match(gs, s, i) {
            let i = choose|i: int| is_first_match(gs, s, i);
            assert forall|g: int, c: Cell|
                0 <= g < r.len() && #[trigger] r[g].cells.contains(c) implies stroke_holds(
                strokes,
                r[g].style.primitive,
                r[g].style.color_index,
                c,
            ) by {
                if g == i {
                    lemma_add_new_cells_from(gs[i].cells, s.cells, c);
                    if gs[i].cells.contains(c) {
                        lemma_stroke_holds_prefix(strokes, gs[i].style.primitive, gs[i].style.color_index, c);
                    } else {
                        assert(strokes[last].cells.contains(c));
                    }
                } else {
                    assert(r[g] == gs[g]);
                    lemma_stroke_holds_prefix(strokes, gs[g].style.primitive, gs[g].style.color_index, c);
                }
            }
        } else {
            assert forall|g: int, c: Cell|
                0 <= g < r.len() && #[trigger] r[g].cells.contains(c) implies stroke_holds(
                strokes,
                r[g].style.primitive,
                r[g].style.color_index,
                c,
            ) by {
                if g < gs.len() {
                    assert(r[g] == gs[g]);
                    lemma_stroke_holds_prefix(strokes, gs[g].style.primitive, gs[g].style.color_index, c);
                } else {
                    lemma_add_new_cells_from(Seq::empty(), s.cells, c);
                    assert(strokes[last].cells.contains(c));
                }
            }
        }
    }
}

/// The groups of one size are groups of the list.
proof fn lemma_groups_of_size_from(groups: Seq<GroupView>, size_index: u8, m: int)
    requires
        0 <= m < groups_of_size(groups, size_index).len(),
    ensures
        groups.contains(groups_of_size(groups, size_index)[m]),
    decreases groups.len(),
{
    let init = groups.drop_last();
    let rest = groups_of_size(init, size_index);
    if m < rest.len() {
        lemma_groups_of_size_from(init, size_index, m);
        let g = choose|g: int| 0 <= g < init.len() && init[g] == rest[m];
        assert(groups[g] == init[g]);
    } else {
        assert(groups[groups.len() - 1] == groups.last());
    }
}

/// Ordering by size brings in no group that was not there.
proof fn lemma_sort_from(groups: Seq<GroupView>, j: int)
    requires
        0 <= j < sort_groups_spec(groups).len(),
    ensures
        groups.contains(sort_groups_spec(groups)[j]),
{
    let a = groups_of_size(groups, 3);
    let b = groups_of_size(groups, 2);
    let c = groups_of_size(groups, 1);
    let d = groups_of_size(groups, 0);
    let sorted = sort_groups_spec(groups);
    if j < a.len() {
        assert(sorted[j] == a[j]);
        lemma_groups_of_size_from(groups, 3, j);
    } else if j < a.len() + b.len() {
        assert(sorted[j] == b[j - a.len()]);
        lemma_groups_of_size_from(groups, 2, j - a.len());
    } else if j < a.len() + b.len() + c.len() {
        assert(sorted[j] == c[j - a.len() - b.len()]);
        lemma_groups_of_size_from(groups, 1, j - a.len() - b.len());
    } else {
        assert(sorted[j] == d[j - a.len() - b.len() - c.len()]);
        lemma_groups_of_size_from(groups, 0, j - a.len() - b.len() - c.len());
    }
}

/// Each command of a group's cells comes from one of its cells.
proof fn lemma_cells_commands_from(g: GroupView, cells: Seq<Cell>, x: RenderCommand)
    requires
        cells_commands(g, cells).contains(x),
    ensures
        exists|c: Cell| cells.contains(c) && (#[trigger] cell_commands(g, c)).contains(x),
    decreases cells.len(),
{
    let init = cells.drop_last();
    let before = cells_commands(g, init);
    let own = cell_commands(g, cells.last());
    assert(cells_commands(g, cells) == before + own);
    let n = choose|n: int| 0 <= n < before.len() + own.len() && (before + own)[n] == x;
    if n < before.len() {
        assert(before[n] == x);
        lemma_cells_commands_from(g, init, x);
        let c = choose|c: Cell| init.contains(c) && (#[trigger] cell_commands(g, c)).contains(x);
        let m = choose|m: int| 0 <= m < init.len() && init[m] == c;
        assert(cells[m] == c);
    } else {
        assert(own[n - before.len()] == x);
        assert(cells[cells.len() - 1] == cells.last());
        assert(cell_commands(g, cells.last()).contains(x));
    }
}

/// Each command of the groups comes from one cell of one group.
proof fn lemma_groups_commands_from(groups: Seq<GroupView>, x: RenderCommand)
    requires
        groups_commands(groups).contains(x),
    ensures
        exists|j: int, c: Cell|
            0 <= j < groups.len() && groups[j].cells.contains(c) && (#[trigger] cell_commands(
                groups[j],
                c,
            )).contains(x),
    decreases groups.len(),
{
    let init = groups.drop_last();
    let before = groups_commands(init);
    let own = cells_commands(groups.last(), groups.last().cells);
    assert(groups_commands(groups) == before + own);
    let n = choose|n: int| 0 <= n < before.len() + own.len() && (before + own)[n] == x;
    if n < before.len() {
        assert(before[n] == x);
        lemma_groups_commands_from(init, x);
        let (j, c) = choose|j: int, c: Cell|
            0 <= j < init.len() && init[j].cells.contains(c) && (#[trigger] cell_commands(init[j], c)).contains(x);
        assert(groups[j] == init[j]);
    } else {
        assert(own[n - before.len()] == x);
        lemma_cells_commands_from(groups.last(), groups.last().cells, x);
        let c = choose|c: Cell| groups.last().cells.contains(c) && (#[trigger] cell_commands(groups.last(), c)).contains(x);
        let j = groups.len() - 1;
        assert(groups[j] == groups.last());
    }
}

/// Nothing is drawn but the cells of the strokes: every command of the plan marks
/// or joins cells that strokes of its kind and color hold, and segments join
/// neighbouring cells only.
pub proof fn lemma_plan_draws_only_stroke_cells(strokes: Seq<StrokeView>, x: RenderCommand)
    requires
        plan_strokes_spec(strokes).contains(x),
    ensures
        drawn_from_strokes(strokes, x),
{
    let gs = group_strokes_spec(strokes);
    let sorted = sort_groups_spec(gs);
    lemma_group_strokes_sound(strokes);
    lemma_groups_commands_from(sorted, x);
    let (j, c) = choose|j: int, c: Cell|
        0 <= j < sorted.len() && sorted[j].cells.contains(c) && (#[trigger] cell_commands(sorted[j], c)).contains(x);
    lemma_sort_from(gs, j);
    let g = choose|g: int| 0 <= g < gs.len() && gs[g] == sorted[j];
    let grp = gs[g];
    assert(grp.cells.contains(c));
    assert(stroke_holds(strokes, grp.style.primitive, grp.style.color_index, c));
    let cmds = cell_commands(grp, c);
    let n = choose|n: int| 0 <= n < cmds.len() && cmds[n] == x;
    match grp.style.primitive {
        DrawPrimitive::Line => {
            let p = seq![
                RenderCommand::LinePoint {
                    cell: c,
                    size_index: grp.style.size_index,
                    color_index: grp.style.color_index,
                },
            ];
            let sr = segment_to(grp, c, right_of(c));
            let sb = segment_to(grp, c, below(c));
            assert(cmds == p + sr + sb);
            if n >= 1 && n < 1 + sr.len() {
                let to = right_of(c).unwrap();
                assert(grp.cells.contains(to));
                assert(stroke_holds(strokes, grp.style.primitive, grp.style.color_index, to));
            } else if n >= 1 + sr.len() {
                let to = below(c).unwrap();
                assert((p + sr + sb)[n] == sb[n - 1 - sr.len()]);
                assert(grp.cells.contains(to));
                assert(stroke_holds(strokes, grp.style.primitive, grp.style.color_index, to));
            }
        },
        DrawPrimitive::Point => {},
    }
}

/// A stroke of the given style (its size limited to 3) holds cell `c`.
pub open spec fn holds_cell(
    strokes: Seq<StrokeView>,
    primitive: DrawPrimitive,
    size_index: u8,
    color_index: u8,
    c: Cell,
) -> bool {
    exists|k: int|
        0 <= k < strokes.len() && (#[trigger] strokes[k]).cells.contains(c) && strokes[k].primitive
            == primitive && clamp_size_index(strokes[k].size_index) == size_index
            && strokes[k].color_index == color_index
}

/// Whether the plan of strokes holding these styled cells holds the command:
/// the dot of a line cell, the square of a point cell, or the segment from a
/// line cell to its right or lower neighbour in the same style.
pub open spec fn planned(strokes: Seq<StrokeView>, x: RenderCommand) -> bool {
    match x {
        RenderCommand::LinePoint { cell, size_index, color_index } => holds_cell(
            strokes,
            DrawPrimitive::Line,
            size_index,
            color_index,
            cell,
        ),
        RenderCommand::PointRect { cell, size_index, color_index } => holds_cell(
            strokes,
            DrawPrimitive::Point,
            size_index,
            color_index,
            cell,
        ),
        RenderCommand::LineSegment { from, to, size_index, color_index } => holds_cell(
            strokes,
            DrawPrimitive::Line,
            size_index,
            color_index,
            from,
        ) && holds_cell(strokes, DrawPrimitive::Line, size_index, color_index, to) && (right_of(from)
            == Some(to) || below(from) == Some(to)),
    }
}

/// No stroke has a size beyond the four there are.
pub open spec fn sizes_in_range(strokes: Seq<StrokeView>) -> bool {
    forall|k: int| 0 <= k < strokes.len() ==> (#[trigger] strokes[k]).size_index <= 3
}

/// Every cell of every group is held by a stroke of the group's style.
pub open spec fn groups_sound_sized(groups: Seq<GroupView>, strokes: Seq<StrokeView>) -> bool {
    forall|g: int, c: Cell|
        0 <= g < groups.len() && #[trigger] groups[g].cells.contains(c) ==> holds_cell(
            strokes,
            groups[g].style.primitive,
            groups[g].style.size_index,
            groups[g].style.color_index,
            c,
        )
}

/// A cell held in a shorter list is held in the longer one.
proof fn lemma_holds_cell_prefix(
    strokes: Seq<StrokeView>,
    primitive: DrawPrimitive,
    size_index: u8,
    color_index: u8,
    c: Cell,
)
    requires
        strokes.len() > 0,
        holds_cell(strokes.drop_last(), primitive, size_index, color_index, c),
    ensures
        holds_cell(strokes, primitive, size_index, color_index, c),
{
    let init = strokes.drop_last();
    let k = choose|k: int|
        0 <= k < init.len() && (#[trigger] init[k]).cells.contains(c) && init[k].primitive == primitive
            && clamp_size_index(init[k].size_index) == size_index && init[k].color_index == color_index;
    assert(strokes[k] == init[k]);
}

/// Grouping puts no cell in a group that no stroke of the group's style holds.
proof fn lemma_group_strokes_sound_sized(strokes: Seq<StrokeView>)
    ensures
        groups_sound_sized(group_strokes_spec(strokes), strokes),
    decreases strokes.len(),
{
    if strokes.len() > 0 {
        let init = strokes.drop_last();
        let s = strokes.last();
        lemma_group_strokes_sound_sized(init);
        lemma_group_strokes_cover(init);
        let gs = group_strokes_spec(init);
        let r = group_strokes_spec(strokes);
        assert(r == add_stroke_to_groups(gs, s));
        let last = strokes.len() - 1;
        assert(strokes[last] == s);
        if exists|i: int| is_first_match(gs, s, i) {
            let i = choose|i: int| is_first_match(gs, s, i);
            assert(gs[i].style.size_index <= 3);
            assert forall|g: int, c: Cell|
                0 <= g < r.len() && #[trigger] r[g].cells.contains(c) implies holds_cell(
                strokes,
                r[g].style.primitive,
                r[g].style.size_index,
                r[g].style.color_index,
                c,
            ) by {
                if g == i {
                    lemma_add_new_cells_from(gs[i].cells, s.cells, c);
                    if gs[i].cells.contains(c) {
                        lemma_holds_cell_prefix(strokes, gs[i].style.primitive, gs[i].style.size_index, gs[i].style.color_index, c);
                    } else {
                        assert(strokes[last].cells.contains(c));
                    }
                } else {
                    assert(r[g] == gs[g]);
                    lemma_holds_cell_prefix(strokes, gs[g].style.primitive, gs[g].style.size_index, gs[g].style.color_index, c);
                }
            }
        } else {
            assert forall|g: int, c: Cell|
                0 <= g < r.len() && #[trigger] r[g].cells.contains(c) implies holds_cell(
                strokes,
                r[g].style.primitive,
                r[g].style.size_index,
                r[g].style.color_index,
                c,
            ) by {
                if g < gs.len() {
                    assert(r[g] == gs[g]);
                    lemma_holds_cell_prefix(strokes, gs[g].style.primitive, gs[g].style.size_index, gs[g].style.color_index, c);
                } else {
                    lemma_add_new_cells_from(Seq::empty(), s.cells, c);
                    assert(strokes[last].cells.contains(c));
                }
            }
        }
    }
}

/// A matching group means there is a first matching group.
proof fn lemma_first_match_exists(groups: Seq<GroupView>, s: StrokeView, i: int)
    requires
        0 <= i < groups.len(),
        group_matches(groups[i], s),
    ensures
        exists|j: int| is_first_match(groups, s, j),
    decreases i,
{
    if forall|j: int| 0 <= j < i ==> !group_matches(groups[j], s) {
        assert(is_first_match(groups, s, i));
    } else {
        let j = choose|j: int| 0 <= j < i && group_matches(groups[j], s);
        lemma_first_match_exists(groups, s, j);
    }
}

/// With sizes in range, no two groups share a style.
proof fn lemma_group_styles_distinct(strokes: Seq<StrokeView>)
    requires
        sizes_in_range(strokes),
    ensures
        forall|i: int, j: int|
            0 <= i < j < group_strokes_spec(strokes).len() ==> (#[trigger] group_strokes_spec(
                strokes,
            )[i]).style != (#[trigger] group_strokes_spec(strokes)[j]).style,
    decreases strokes.len(),
{
    if strokes.len() > 0 {
        let init = strokes.drop_last();
        let s = strokes.last();
        assert(s == strokes[strokes.len() - 1]);
        assert forall|k: int| 0 <= k < init.len() implies (#[trigger] init[k]).size_index <= 3 by {
            assert(init[k] == strokes[k]);
        }
        lemma_group_styles_distinct(init);
        let gs = group_strokes_spec(init);
        let r = group_strokes_spec(strokes);
        assert(r == add_stroke_to_groups(gs, s));
        if exists|i: int| is_first_match(gs, s, i) {
            let m = choose|i: int| is_first_match(gs, s, i);
            assert forall|i: int, j: int| 0 <= i < j < r.len() implies (#[trigger] r[i]).style
                != (#[trigger] r[j]).style by {
                assert(r[i].style == gs[i].style);
                assert(r[j].style == gs[j].style);
            }
        } else {
            assert forall|i: int, j: int| 0 <= i < j < r.len() implies (#[trigger] r[i]).style
                != (#[trigger] r[j]).style by {
                if j == gs.len() {
                    assert(r[i] == gs[i]);
                    if r[i].style == r[j].style {
                        assert(group_matches(gs[i], s));
                        lemma_first_match_exists(gs, s, i);
                    }
                } else {
                    assert(r[i] == gs[i]);
                    assert(r[j] == gs[j]);
                }
            }
        }
    }
}

/// Drawing a group's cells draws everything each of its cells draws.
proof fn lemma_cells_commands_has(g: GroupView, cells: Seq<Cell>, c: Cell, n: int)
    requires
        cells.contains(c),
        0 <= n < cell_commands(g, c).len(),
    ensures
        cells_commands(g, cells).contains(cell_commands(g, c)[n]),
    decreases cells.len(),
{
    let init = cells.drop_last();
    let before = cells_commands(g, init);
    let own = cell_commands(g, cells.last());
    assert(cells_commands(g, cells) == before + own);
    if cells.last() == c {
        assert((before + own)[before.len() + n] == own[n]);
    } else {
        let m = choose|m: int| 0 <= m < cells.len() && cells[m] == c;
        assert(init[m] == c);
        lemma_cells_commands_has(g, init, c, n);
        let k = choose|k: int| 0 <= k < before.len() && before[k] == cell_commands(g, c)[n];
        assert((before + own)[k] == before[k]);
    }
}

/// The plan of strokes with sizes in range holds exactly the planned commands.
pub proof fn lemma_plan_contains(strokes: Seq<StrokeView>, x: RenderCommand)
    requires
        sizes_in_range(strokes),
    ensures
        plan_strokes_spec(strokes).contains(x) == planned(strokes, x),
{
    let gs = group_strokes_spec(strokes);
    let sorted = sort_groups_spec(gs);
    lemma_group_strokes_cover(strokes);
    if plan_strokes_spec(strokes).contains(x) {
        lemma_group_strokes_sound_sized(strokes);
        lemma_groups_commands_from(sorted, x);
        let (j, c) = choose|j: int, c: Cell|
            0 <= j < sorted.len() && sorted[j].cells.contains(c) && (#[trigger] cell_commands(sorted[j], c)).contains(x);
        lemma_sort_from(gs, j);
        let g = choose|g: int| 0 <= g < gs.len() && gs[g] == sorted[j];
        let grp = gs[g];
        assert(grp.cells.contains(c));
        let cmds = cell_commands(grp, c);
        let n = choose|n: int| 0 <= n < cmds.len() && cmds[n] == x;
        match grp.style.primitive {
            DrawPrimitive::Line => {
                let p = seq![
                    RenderCommand::LinePoint {
                        cell: c,
                        size_index: grp.style.size_index,
                        color_index: grp.style.color_index,
                    },
                ];
                let sr = segment_to(grp, c, right_of(c));
                let sb = segment_to(grp, c, below(c));
                assert(cmds == p + sr + sb);
                if n >= 1 && n < 1 + sr.len() {
                    let to = right_of(c).unwrap();
                    assert(grp.cells.contains(to));
                } else if n >= 1 + sr.len() {
                    let to = below(c).unwrap();
                    assert((p + sr + sb)[n] == sb[n - 1 - sr.len()]);
                    assert(grp.cells.contains(to));
                }
            },
            DrawPrimitive::Point => {},
        }
    }
    if planned(strokes, x) {
        match x {
            RenderCommand::LinePoint { cell, size_index, color_index } => {
                let k = choose|k: int|
                    0 <= k < strokes.len() && (#[trigger] strokes[k]).cells.contains(cell)
                        && strokes[k].primitive == DrawPrimitive::Line && clamp_size_index(strokes[k].size_index)
                        == size_index && strokes[k].color_index == color_index;
                lemma_plan_draws_every_cell(strokes, k, cell);
            },
            RenderCommand::PointRect { cell, size_index, color_index } => {
                let k = choose|k: int|
                    0 <= k < strokes.len() && (#[trigger] strokes[k]).cells.contains(cell)
                        && strokes[k].primitive == DrawPrimitive::Point && clamp_size_index(strokes[k].size_index)
                        == size_index && strokes[k].color_index == color_index;
                lemma_plan_draws_every_cell(strokes, k, cell);
            },
            RenderCommand::LineSegment { from, to, size_index, color_index } => {
                let style = StrokeStyle { primitive: DrawPrimitive::Line, size_index, color_index };
                let k1 = choose|k: int|
                    0 <= k < strokes.len() && (#[trigger] strokes[k]).cells.contains(from)
                        && strokes[k].primitive == DrawPrimitive::Line && clamp_size_index(strokes[k].size_index)
                        == size_index && strokes[k].color_index == color_index;
                let k2 = choose|k: int|
                    0 <= k < strokes.len() && (#[trigger] strokes[k]).cells.contains(to)
                        && strokes[k].primitive == DrawPrimitive::Line && clamp_size_index(strokes[k].size_index)
                        == size_index && strokes[k].color_index == color_index;
                assert(strokes[k1].cells.contains(from));
                assert(strokes[k2].cells.contains(to));
                let g1 = choose|g: int|
                    0 <= g < gs.len() && (#[trigger] gs[g]).style == (StrokeStyle {
                        primitive: strokes[k1].primitive,
                        size_index: clamp_size_index(strokes[k1].size_index),
                        color_index: strokes[k1].color_index,
                    }) && gs[g].cells.contains(from);
                let g2 = choose|g: int|
                    0 <= g < gs.len() && (#[trigger] gs[g]).style == (StrokeStyle {
                        primitive: strokes[k2].primitive,
                        size_index: clamp_size_index(strokes[k2].size_index),
                        color_index: strokes[k2].color_index,
                    }) && gs[g].cells.contains(to);
                lemma_group_styles_distinct(strokes);
                assert(gs[g1].style == style);
                assert(gs[g2].style == style);
                if g1 < g2 {
                    assert(gs[g1].style != gs[g2].style);
                } else if g2 < g1 {
                    assert(gs[g2].style != gs[g1].style);
                }
                assert(g1 == g2);
                let grp = gs[g1];
                lemma_sort_keeps(gs, g1);
                let j = choose|j: int| 0 <= j < sorted.len() && sorted[j] == grp;
                let cmds = cell_commands(grp, from);
                let p = seq![
                    RenderCommand::LinePoint {
                        cell: from,
                        size_index: grp.style.size_index,
                        color_index: grp.style.color_index,
                    },
                ];
                let sr = segment_to(grp, from, right_of(from));
                let sb = segment_to(grp, from, below(from));
                assert(cmds == p + sr + sb);
                if right_of(from) == Some(to) {
                    assert(sr.len() == 1);
                    assert(cmds[1] == x);
                    lemma_cells_commands_has(grp, grp.cells, from, 1);
                } else {
                    assert(below(from) == Some(to));
                    assert(sb.len() == 1);
                    assert(cmds[1 + sr.len() as int] == x);
                    lemma_cells_commands_has(grp, grp.cells, from, 1 + sr.len() as int);
                }
                lemma_groups_commands_keep(sorted, j, x);
            },
        }
    }
}

/// Drawing does not depend on how the cells are split into strokes: strokes
/// (with sizes in range) that hold the same cells in the same styles, whatever
/// their ids, order, grouping into strokes or repeated cells, give plans with the
/// same commands.
pub proof fn lemma_plan_depends_on_cells_only(s1: Seq<StrokeView>, s2: Seq<StrokeView>)
    requires
        sizes_in_range(s1),
        sizes_in_range(s2),
        forall|p: DrawPrimitive, sz: u8, col: u8, c: Cell|
            #[trigger] holds_cell(s1, p, sz, col, c) == holds_cell(s2, p, sz, col, c),
    ensures
        forall|x: RenderCommand|
            #[trigger] plan_strokes_spec(s1).contains(x) == plan_strokes_spec(s2).contains(x),
{
    assert forall|x: RenderCommand| #[trigger] plan_strokes_spec(s1).contains(x)
        == plan_strokes_spec(s2).contains(x) by {
        lemma_plan_contains(s1, x);
        lemma_plan_contains(s2, x);
    }
}

/// The style a command is drawn in.
pub open spec fn command_style(x: RenderCommand) -> StrokeStyle {
    match x {
        RenderCommand::LinePoint { size_index, color_index, .. } => StrokeStyle {
            primitive: DrawPrimitive::Line,
            size_index,
            color_index,
        },
        RenderCommand::LineSegment { size_index, color_index, .. } => StrokeStyle {
            primitive: DrawPrimitive::Line,
            size_index,
            color_index,
        },
        RenderCommand::PointRect { size_index, color_index, .. } => StrokeStyle {
            primitive: DrawPrimitive::Point,
            size_index,
            color_index,
        },
    }
}

/// The cell a command belongs to: its dot's or square's cell, or a segment's start.
pub open spec fn command_cell(x: RenderCommand) -> Cell {
    match x {
        RenderCommand::LinePoint { cell, .. } => cell,
        RenderCommand::LineSegment { from, .. } => from,
        RenderCommand::PointRect { cell, .. } => cell,
    }
}

/// Two lists without repeats and without a common element join without repeats.
proof fn lemma_concat_no_duplicates(a: Seq<RenderCommand>, b: Seq<RenderCommand>)
    requires
        a.no_duplicates(),
        b.no_duplicates(),
        forall|i: int, j: int| 0 <= i < a.len() && 0 <= j < b.len() ==> a[i] != b[j],
    ensures
        (a + b).no_duplicates(),
{
    let ab = a + b;
    assert forall|i: int, j: int| 0 <= i < ab.len() && 0 <= j < ab.len() && i != j implies ab[i]
        != ab[j] by {
        if i < a.len() && j < a.len() {
        } else if i >= a.len() && j >= a.len() {
            assert(ab[i] == b[i - a.len()] && ab[j] == b[j - a.len()]);
        } else if i < a.len() {
            assert(ab[j] == b[j - a.len()]);
        } else {
            assert(ab[i] == b[i - a.len()]);
        }
    }
}

/// What one cell draws is in the group's style, belongs to the cell, and has no repeats.
proof fn lemma_cell_commands_props(g: GroupView, c: Cell)
    ensures
        cell_commands(g, c).no_duplicates(),
        forall|n: int|
            0 <= n < cell_commands(g, c).len() ==> command_style(#[trigger] cell_commands(g, c)[n])
                == g.style && command_cell(cell_commands(g, c)[n]) == c,
{
    let cmds = cell_commands(g, c);
    match g.style.primitive {
        DrawPrimitive::Line => {
            let p = seq![
                RenderCommand::LinePoint {
                    cell: c,
                    size_index: g.style.size_index,
                    color_index: g.style.color_index,
                },
            ];
            let sr = segment_to(g, c, right_of(c));
            let sb = segment_to(g, c, below(c));
            assert(cmds == p + sr + sb);
            assert(forall|n: int| 0 <= n < sr.len() ==> sr[n] == RenderCommand::LineSegment {
                from: c,
                to: right_of(c).unwrap(),
                size_index: g.style.size_index,
                color_index: g.style.color_index,
            });
            assert(forall|n: int| 0 <= n < sb.len() ==> sb[n] == RenderCommand::LineSegment {
                from: c,
                to: below(c).unwrap(),
                size_index: g.style.size_index,
                color_index: g.style.color_index,
            });
            if sr.len() == 1 && sb.len() == 1 {
                assert(right_of(c).unwrap() != below(c).unwrap());
            }
            lemma_concat_no_duplicates(p, sr);
            lemma_concat_no_duplicates(p + sr, sb);
            assert forall|n: int| 0 <= n < cmds.len() implies command_style(#[trigger] cmds[n])
                == g.style && command_cell(cmds[n]) == c by {
                if n == 0 {
                } else if n < 1 + sr.len() {
                    assert(cmds[n] == sr[n - 1]);
                } else {
                    assert(cmds[n] == sb[n - 1 - sr.len()]);
                }
            }
        },
        DrawPrimitive::Point => {},
    }
}

/// What a group's distinct cells draw is in the group's style, belongs to its
/// cells, and has no repeats.
proof fn lemma_cells_commands_props(g: GroupView, cells: Seq<Cell>)
    requires
        cells.no_duplicates(),
    ensures
        cells_commands(g, cells).no_duplicates(),
        forall|n: int|
            0 <= n < cells_commands(g, cells).len() ==> command_style(
                #[trigger] cells_commands(g, cells)[n],
            ) == g.style && cells.contains(command_cell(cells_commands(g, cells)[n])),
    decreases cells.len(),
{
    if cells.len() > 0 {
        let init = cells.drop_last();
        let last = cells.last();
        assert forall|i: int, j: int| 0 <= i < init.len() && 0 <= j < init.len() && i != j implies init[i]
            != init[j] by {
            assert(init[i] == cells[i] && init[j] == cells[j]);
        }
        lemma_cells_commands_props(g, init);
        lemma_cell_commands_props(g, last);
        let before = cells_commands(g, init);
        let own = cell_commands(g, last);
        assert(cells_commands(g, cells) == before + own);
        assert forall|i: int, j: int| 0 <= i < before.len() && 0 <= j < own.len() implies before[i]
            != own[j] by {
            let c = command_cell(before[i]);
            let m = choose|m: int| 0 <= m < init.len() && init[m] == c;
            assert(cells[m] == c);
            assert(m != cells.len() - 1);
            assert(command_cell(own[j]) == last);
        }
        lemma_concat_no_duplicates(before, own);
        let all = before + own;
        assert forall|n: int| 0 <= n < all.len() implies command_style(#[trigger] all[n]) == g.style
            && cells.contains(command_cell(all[n])) by {
            if n < before.len() {
                let c = command_cell(before[n]);
                let m = choose|m: int| 0 <= m < init.len() && init[m] == c;
                assert(cells[m] == c);
            } else {
                assert(all[n] == own[n - before.len()]);
                assert(cells[cells.len() - 1] == last);
            }
        }
    }
}

/// Groups of distinct styles, each with distinct cells, draw without repeats,
/// each command in the style of one of the groups.
proof fn lemma_groups_commands_props(groups: Seq<GroupView>)
    requires
        forall|i: int, j: int|
            0 <= i < j < groups.len() ==> (#[trigger] groups[i]).style != (#[trigger] groups[j]).style,
        forall|g: int| 0 <= g < groups.len() ==> (#[trigger] groups[g]).cells.no_duplicates(),
    ensures
        groups_commands(groups).no_duplicates(),
        forall|n: int|
            0 <= n < groups_commands(groups).len() ==> exists|g: int|
                0 <= g < groups.len() && command_style(#[trigger] groups_commands(groups)[n])
                    == groups[g].style,
    decreases groups.len(),
{
    if groups.len() > 0 {
        let init = groups.drop_last();
        let last = groups.last();
        let lg = groups.len() - 1;
        assert(groups[lg] == last);
        assert forall|i: int, j: int| 0 <= i < j < init.len() implies (#[trigger] init[i]).style
            != (#[trigger] init[j]).style by {
            assert(init[i] == groups[i] && init[j] == groups[j]);
        }
        assert forall|g: int| 0 <= g < init.len() implies (#[trigger] init[g]).cells.no_duplicates() by {
            assert(init[g] == groups[g]);
        }
        lemma_groups_commands_props(init);
        lemma_cells_commands_props(last, last.cells);
        let before = groups_commands(init);
        let own = cells_commands(last, last.cells);
        assert(groups_commands(groups) == before + own);
        assert forall|i: int, j: int| 0 <= i < before.len() && 0 <= j < own.len() implies before[i]
            != own[j] by {
            let g = choose|g: int| 0 <= g < init.len() && command_style(before[i]) == init[g].style;
            assert(init[g] == groups[g]);
            assert(groups[g].style != groups[lg].style);
        }
        lemma_concat_no_duplicates(before, own);
        let all = before + own;
        assert forall|n: int| 0 <= n < all.len() implies exists|g: int|
            0 <= g < groups.len() && command_style(#[trigger] all[n]) == groups[g].style by {
            if n < before.len() {
                let g = choose|g: int| 0 <= g < init.len() && command_style(before[n]) == init[g].style;
                assert(init[g] == groups[g]);
            } else {
                assert(all[n] == own[n - before.len()]);
            }
        }
    }
}

/// The groups of one size have that size, and keep distinct styles and cells.
proof fn lemma_groups_of_size_props(groups: Seq<GroupView>, size_index: u8)
    requires
        forall|i: int, j: int|
            0 <= i < j < groups.len() ==> (#[trigger] groups[i]).style != (#[trigger] groups[j]).style,
        forall|g: int| 0 <= g < groups.len() ==> (#[trigger] groups[g]).cells.no_duplicates(),
    ensures
        forall|i: int, j: int|
            0 <= i < j < groups_of_size(groups, size_index).len() ==> (#[trigger] groups_of_size(
                groups,
                size_index,
            )[i]).style != (#[trigger] groups_of_size(groups, size_index)[j]).style,
        forall|g: int|
            0 <= g < groups_of_size(groups, size_index).len() ==> (#[trigger] groups_of_size(
                groups,
                size_index,
            )[g]).cells.no_duplicates() && groups_of_size(groups, size_index)[g].style.size_index
                == size_index,
    decreases groups.len(),
{
    if groups.len() > 0 {
        let init = groups.drop_last();
        let last = groups.last();
        let lg = groups.len() - 1;
        assert(groups[lg] == last);
        assert forall|i: int, j: int| 0 <= i < j < init.len() implies (#[trigger] init[i]).style
            != (#[trigger] init[j]).style by {
            assert(init[i] == groups[i] && init[j] == groups[j]);
        }
        assert forall|g: int| 0 <= g < init.len() implies (#[trigger] init[g]).cells.no_duplicates() by {
            assert(init[g] == groups[g]);
        }
        lemma_groups_of_size_props(init, size_index);
        let rest = groups_of_size(init, size_index);
        let r = groups_of_size(groups, size_index);
        if last.style.size_index == size_index {
            assert(r == rest.push(last));
            assert forall|i: int, j: int| 0 <= i < j < r.len() implies (#[trigger] r[i]).style
                != (#[trigger] r[j]).style by {
                if j == rest.len() {
                    assert(r[i] == rest[i]);
                    lemma_groups_of_size_from(init, size_index, i);
                    let g = choose|g: int| 0 <= g < init.len() && init[g] == rest[i];
                    assert(init[g] == groups[g]);
                } else {
                    assert(r[i] == rest[i] && r[j] == rest[j]);
                }
            }
            assert forall|g: int| 0 <= g < r.len() implies (#[trigger] r[g]).cells.no_duplicates()
                && r[g].style.size_index == size_index by {
                if g < rest.len() {
                    assert(r[g] == rest[g]);
                }
            }
        }
    }
}

/// The sorted groups keep distinct styles and distinct cells.
proof fn lemma_sort_props(groups: Seq<GroupView>)
    requires
        forall|i: int, j: int|
            0 <= i < j < groups.len() ==> (#[trigger] groups[i]).style != (#[trigger] groups[j]).style,
        forall|g: int| 0 <= g < groups.len() ==> (#[trigger] groups[g]).cells.no_duplicates(),
    ensures
        forall|i: int, j: int|
            0 <= i < j < sort_groups_spec(groups).len() ==> (#[trigger] sort_groups_spec(groups)[i]).style
                != (#[trigger] sort_groups_spec(groups)[j]).style,
        forall|g: int|
            0 <= g < sort_groups_spec(groups).len() ==> (#[trigger] sort_groups_spec(
                groups,
            )[g]).cells.no_duplicates(),
{
    let a = groups_of_size(groups, 3);
    let b = groups_of_size(groups, 2);
    let c = groups_of_size(groups, 1);
    let d = groups_of_size(groups, 0);
    lemma_groups_of_size_props(groups, 3);
    lemma_groups_of_size_props(groups, 2);
    lemma_groups_of_size_props(groups, 1);
    lemma_groups_of_size_props(groups, 0);
    let sorted = sort_groups_spec(groups);
    assert(sorted == a + b + c + d);
    let la = a.len() as int;
    let lb = b.len() as int;
    let lc = c.len() as int;
    assert forall|g: int| 0 <= g < sorted.len() implies (#[trigger] sorted[g]).cells.no_duplicates()
        && sorted[g].style.size_index <= 3 by {
        if g < la {
            assert(sorted[g] == a[g]);
        } else if g < la + lb {
            assert(sorted[g] == b[g - la]);
        } else if g < la + lb + lc {
            assert(sorted[g] == c[g - la - lb]);
        } else {
            assert(sorted[g] == d[g - la - lb - lc]);
        }
    }
    assert forall|i: int, j: int| 0 <= i < j < sorted.len() implies (#[trigger] sorted[i]).style
        != (#[trigger] sorted[j]).style by {
        if j < la {
            assert(sorted[i] == a[i] && sorted[j] == a[j]);
        } else if i >= la && j < la + lb {
            assert(sorted[i] == b[i - la] && sorted[j] == b[j - la]);
        } else if i >= la + lb && j < la + lb + lc {
            assert(sorted[i] == c[i - la - lb] && sorted[j] == c[j - la - lb]);
        } else if i >= la + lb + lc {
            assert(sorted[i] == d[i - la - lb - lc] && sorted[j] == d[j - la - lb - lc]);
        } else {
            let si = if i < la { 3u8 } else if i < la + lb { 2u8 } else if i < la + lb + lc { 1u8 } else { 0u8 };
            let sj = if j < la { 3u8 } else if j < la + lb { 2u8 } else if j < la + lb + lc { 1u8 } else { 0u8 };
            if i < la {
                assert(sorted[i] == a[i]);
            } else if i < la + lb {
                assert(sorted[i] == b[i - la]);
            } else if i < la + lb + lc {
                assert(sorted[i] == c[i - la - lb]);
            } else {
                assert(sorted[i] == d[i - la - lb - lc]);
            }
            if j < la {
                assert(sorted[j] == a[j]);
            } else if j < la + lb {
                assert(sorted[j] == b[j - la]);
            } else if j < la + lb + lc {
                assert(sorted[j] == c[j - la - lb]);
            } else {
                assert(sorted[j] == d[j - la - lb - lc]);
            }
            assert(sorted[i].style.size_index == si);
            assert(sorted[j].style.size_index == sj);
            assert(si != sj);
        }
    }
}

/// The plan of strokes with sizes in range repeats no command.
pub proof fn lemma_plan_no_duplicates(strokes: Seq<StrokeView>)
    requires
        sizes_in_range(strokes),
    ensures
        plan_strokes_spec(strokes).no_duplicates(),
{
    let gs = group_strokes_spec(strokes);
    lemma_group_strokes_cover(strokes);
    lemma_group_styles_distinct(strokes);
    lemma_sort_props(gs);
    lemma_groups_commands_props(sort_groups_spec(gs));
}

/// Drawing does not depend on how the cells are split into strokes: strokes with
/// sizes in range that hold the same cells in the same styles, whatever their
/// ids, order, grouping into strokes or repeated cells, give plans with the same
/// commands, each drawn once.
pub proof fn lemma_plan_multiset_depends_on_cells_only(s1: Seq<StrokeView>, s2: Seq<StrokeView>)
    requires
        sizes_in_range(s1),
        sizes_in_range(s2),
        forall|p: DrawPrimitive, sz: u8, col: u8, c: Cell|
            #[trigger] holds_cell(s1, p, sz, col, c) == holds_cell(s2, p, sz, col, c),
    ensures
        plan_strokes_spec(s1).to_multiset() == plan_strokes_spec(s2).to_multiset(),
{
    let p1 = plan_strokes_spec(s1);
    let p2 = plan_strokes_spec(s2);
    lemma_plan_depends_on_cells_only(s1, s2);
    lemma_plan_no_duplicates(s1);
    lemma_plan_no_duplicates(s2);
    p1.lemma_multiset_has_no_duplicates();
    p2.lemma_multiset_has_no_duplicates();
    assert forall|x: RenderCommand| p1.to_multiset().count(x) == p2.to_multiset().count(x) by {
        vstd::seq_lib::to_multiset_contains(p1, x);
        vstd::seq_lib::to_multiset_contains(p2, x);
        assert(p1.contains(x) == p2.contains(x));
    }
    assert(p1.to_multiset() =~= p2.to_multiset());
}

} // verus!
