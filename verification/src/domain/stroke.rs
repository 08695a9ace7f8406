use vstd::prelude::*;

verus! {

/// A grid cell, as `[x, y]`.
pub type Cell = [i32; 2];

/// The way a stroke is rendered: as a connected line or as separate points.
#[derive(Debug, Clone, Copy, PartialEq, Eq, Hash, Structural)]
pub enum DrawPrimitive {
    Line,
    Point,
}

impl Default for DrawPrimitive {
    fn default() -> (r: Self)
        ensures
            r == DrawPrimitive::Line,
    {
        DrawPrimitive::Line
    }
}

/// A set of cells drawn with one style.
#[derive(Debug, Clone)]
pub struct DrawStroke {
    pub id: u64,
    pub primitive: DrawPrimitive,
    pub size_index: u8,
    pub color_index: u8,
    pub cells: Vec<Cell>,
}

/// The mathematical content of a stroke.
pub struct StrokeView {
    pub id: u64,
    pub primitive: DrawPrimitive,
    pub size_index: u8,
    pub color_index: u8,
    pub cells: Seq<Cell>,
}

impl View for DrawStroke {
    type V = StrokeView;

    open spec fn view(&self) -> StrokeView {
        StrokeView {
            id: self.id,
            primitive: self.primitive,
            size_index: self.size_index,
            color_index: self.color_index,
            cells: self.cells@,
        }
    }
}

/// Two cells are the same exactly when both coordinates agree.
pub proof fn lemma_cell_eq(a: Cell, b: Cell)
    ensures
        (a == b) <==> (a[0] == b[0] && a[1] == b[1]),
{
    broadcast use vstd::array::group_array_axioms;

    if a[0] == b[0] && a[1] == b[1] {
        assert(a@ =~= b@);
        assert(a =~= b);
    }
}

/// Compares two cells.
pub fn cell_eq(a: Cell, b: Cell) -> (r: bool)
    ensures
        r == (a == b),
{
    proof {
        lemma_cell_eq(a, b);
    }
    a[0] == b[0] && a[1] == b[1]
}

/// Whether `cells` holds `cell`.
pub fn contains_cell(cells: &Vec<Cell>, cell: Cell) -> (r: bool)
    ensures
        r == cells@.contains(cell),
{
    let mut i: usize = 0;
    while i < cells.len()
        invariant
            i <= cells.len(),
            forall|j: int| 0 <= j < i ==> cells@[j] != cell,
        decreases cells.len() - i,
    {
        if cell_eq(cells[i], cell) {
            return true;
        }
        i += 1;
    }
    false
}

/// A copy of a list of cells.
pub fn copy_cells(cells: &Vec<Cell>) -> (r: Vec<Cell>)
    ensures
        r@ == cells@,
{
    let mut out: Vec<Cell> = Vec::new();
    let mut i: usize = 0;
    while i < cells.len()
        invariant
            i <= cells.len(),
            out@ == cells@.take(i as int),
        decreases cells.len() - i,
    {
        out.push(cells[i]);
        i += 1;
        assert(out@ =~= cells@.take(i as int));
    }
    assert(cells@.take(cells.len() as int) =~= cells@);
    out
}

impl DrawStroke {
    /// A copy of the stroke.
    pub fn duplicate(&self) -> (r: DrawStroke)
        ensures
            r@ == self@,
    {
        DrawStroke {
            id: self.id,
            primitive: self.primitive,
            size_index: self.size_index,
            color_index: self.color_index,
            cells: copy_cells(&self.cells),
        }
    }
}

} // verus!
