use super::stroke::{cell_eq, Cell, DrawPrimitive};
use vstd::prelude::*;

verus! {

/// One cell together with the style it was drawn in.
#[derive(Debug, Clone, Copy, PartialEq, Eq, Hash)]
pub struct StyledCell {
    pub primitive: DrawPrimitive,
    pub size_index: u8,
    pub color_index: u8,
    pub cell: Cell,
}

/// Compares two styled cells field by field.
pub fn styled_eq(a: StyledCell, b: StyledCell) -> (r: bool)
    ensures
        r == (a == b),
{
    a.primitive == b.primitive && a.size_index == b.size_index && a.color_index == b.color_index
        && cell_eq(a.cell, b.cell)
}

/// Whether `cells` holds `styled`.
pub fn contains_styled(cells: &[StyledCell], styled: StyledCell) -> (r: bool)
    ensures
        r == cells@.contains(styled),
{
    let mut i: usize = 0;
    while i < cells.len()
        invariant
            i <= cells.len(),
            forall|j: int| 0 <= j < i ==> cells@[j] != styled,
        decreases cells.len() - i,
    {
        if styled_eq(cells[i], styled) {
            return true;
        }
        i += 1;
    }
    false
}

/// A finished drawing or erasing gesture, as recorded for undo and redo.
#[derive(Debug, Clone)]
pub enum DrawHistoryAction {
    Draw {
        tab_id: u64,
        primitive: DrawPrimitive,
        size_index: u8,
        color_index: u8,
        cells: Vec<Cell>,
    },
    Erase { tab_id: u64, cells: Vec<StyledCell> },
}

/// The mathematical content of a history action.
pub enum HistoryView {
    Draw {
        tab_id: u64,
        primitive: DrawPrimitive,
        size_index: u8,
        color_index: u8,
        cells: Seq<Cell>,
    },
    Erase { tab_id: u64, cells: Seq<StyledCell> },
}

impl View for DrawHistoryAction {
    type V = HistoryView;

    open spec fn view(&self) -> HistoryView {
        match self {
            DrawHistoryAction::Draw { tab_id, primitive, size_index, color_index, cells } =>
                HistoryView::Draw {
                tab_id: *tab_id,
                primitive: *primitive,
                size_index: *size_index,
                color_index: *color_index,
                cells: cells@,
            },
            DrawHistoryAction::Erase { tab_id, cells } => HistoryView::Erase {
                tab_id: *tab_id,
                cells: cells@,
            },
        }
    }
}

/// A gesture in progress: what has been drawn or erased since the button went down.
#[derive(Debug, Clone)]
pub enum PendingDrawAction {
    Idle,
    Draw { primitive: DrawPrimitive, size_index: u8, color_index: u8, cells: Vec<Cell> },
    Erase { cells: Vec<StyledCell> },
}

/// The mathematical content of a pending gesture.
pub enum PendingView {
    Idle,
    Draw { primitive: DrawPrimitive, size_index: u8, color_index: u8, cells: Seq<Cell> },
    Erase { cells: Seq<StyledCell> },
}

impl View for PendingDrawAction {
    type V = PendingView;

    open spec fn view(&self) -> PendingView {
        match self {
            PendingDrawAction::Idle => PendingView::Idle,
            PendingDrawAction::Draw { primitive, size_index, color_index, cells } =>
                PendingView::Draw {
                primitive: *primitive,
                size_index: *size_index,
                color_index: *color_index,
                cells: cells@,
            },
            PendingDrawAction::Erase { cells } => PendingView::Erase { cells: cells@ },
        }
    }
}

impl Default for PendingDrawAction {
    fn default() -> (r: Self)
        ensures
            r@ == PendingView::Idle,
    {
        PendingDrawAction::Idle
    }
}

} // verus!
