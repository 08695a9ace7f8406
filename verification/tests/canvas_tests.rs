use pixel_paint_rs::app::editor_state::{EditorState, PaintTool};
use pixel_paint_rs::domain::document::PaintDocument;
use pixel_paint_rs::domain::history::{DrawHistoryAction, PendingDrawAction, StyledCell};
use pixel_paint_rs::domain::stroke::{Cell, DrawPrimitive, DrawStroke};
use pixel_paint_rs::ui::canvas::flood::{erase_connected_color_at_cell, flood_region};
use pixel_paint_rs::ui::canvas::input::{
    apply_draw_redo, apply_draw_undo, apply_history_action, apply_history_action_inverse,
    finalize_pending_action, handle_draw_mode, push_draw_cell, push_erased_cells,
    UNDO_HISTORY_LIMIT,
};
use pixel_paint_rs::ui::canvas::strokes::{
    add_draw_stroke, erase_at_cell, remove_styled_cells, restore_styled_cells,
};

fn doc() -> PaintDocument {
    PaintDocument::new_with_title("Sheet 1".to_string())
}

fn strokes(d: &PaintDocument) -> &Vec<DrawStroke> {
    &d.tabs[0].draw_strokes
}

fn all_cells(d: &PaintDocument) -> Vec<Cell> {
    let mut out = Vec::new();
    for s in strokes(d) {
        out.extend(s.cells.iter().copied());
    }
    out
}

fn styled(primitive: DrawPrimitive, size: u8, color: u8, cell: Cell) -> StyledCell {
    StyledCell { primitive, size_index: size, color_index: color, cell }
}

#[test]
fn add_draw_stroke_starts_and_extends_strokes() {
    let mut d = doc();
    assert_eq!(add_draw_stroke(&mut d, DrawPrimitive::Line, 0, 1, vec![[0, 0]]), Some(1));
    assert_eq!(d.next_stroke_id, 2);
    // a single cell of the same style joins the last stroke
    assert_eq!(add_draw_stroke(&mut d, DrawPrimitive::Line, 0, 1, vec![[1, 0]]), Some(1));
    // a cell already there is not added twice
    assert_eq!(add_draw_stroke(&mut d, DrawPrimitive::Line, 0, 1, vec![[1, 0]]), Some(1));
    assert_eq!(strokes(&d).len(), 1);
    assert_eq!(strokes(&d)[0].cells, vec![[0, 0], [1, 0]]);
    // another style starts a new stroke
    assert_eq!(add_draw_stroke(&mut d, DrawPrimitive::Point, 2, 1, vec![[5, 5]]), Some(4));
    assert_eq!(strokes(&d).len(), 2);
    assert_eq!(strokes(&d)[1].id, 4);
    assert_eq!(d.next_stroke_id, 5);
    // several cells always start a new stroke
    assert_eq!(
        add_draw_stroke(&mut d, DrawPrimitive::Point, 2, 1, vec![[6, 6], [7, 7]]),
        Some(5)
    );
    assert_eq!(strokes(&d).len(), 3);
}

#[test]
fn add_draw_stroke_without_cells_does_nothing() {
    let mut d = doc();
    assert_eq!(add_draw_stroke(&mut d, DrawPrimitive::Line, 0, 0, vec![]), None);
    assert_eq!(d.next_stroke_id, 1);
    assert!(strokes(&d).is_empty());
}

#[test]
fn add_draw_stroke_without_active_tab_only_counts() {
    let mut d = doc();
    d.active_tab_id = 9;
    assert_eq!(add_draw_stroke(&mut d, DrawPrimitive::Line, 0, 0, vec![[0, 0]]), None);
    assert_eq!(d.next_stroke_id, 2);
    assert!(strokes(&d).is_empty());
}

#[test]
fn erase_at_cell_removes_cell_from_every_stroke() {
    let mut d = doc();
    add_draw_stroke(&mut d, DrawPrimitive::Line, 0, 1, vec![[0, 0], [1, 0]]);
    add_draw_stroke(&mut d, DrawPrimitive::Point, 1, 2, vec![[1, 0]]);
    let removed = erase_at_cell(&mut d, 1, 0);
    assert_eq!(
        removed,
        vec![
            styled(DrawPrimitive::Line, 0, 1, [1, 0]),
            styled(DrawPrimitive::Point, 1, 2, [1, 0]),
        ]
    );
    // the point stroke became empty and is gone
    assert_eq!(strokes(&d).len(), 1);
    assert_eq!(strokes(&d)[0].cells, vec![[0, 0]]);
    assert!(erase_at_cell(&mut d, 9, 9).is_empty());
}

#[test]
fn erase_connected_takes_whole_area_of_one_color() {
    let mut d = doc();
    add_draw_stroke(&mut d, DrawPrimitive::Line, 0, 3, vec![[0, 0], [1, 0], [2, 0]]);
    add_draw_stroke(&mut d, DrawPrimitive::Line, 0, 3, vec![[5, 0], [6, 0]]);
    add_draw_stroke(&mut d, DrawPrimitive::Line, 0, 4, vec![[3, 0]]);
    let removed = erase_connected_color_at_cell(&mut d, 1, 0);
    let mut removed_cells: Vec<Cell> = removed.iter().map(|s| s.cell).collect();
    removed_cells.sort();
    assert_eq!(removed_cells, vec![[0, 0], [1, 0], [2, 0]]);
    assert!(removed.iter().all(|s| s.color_index == 3));
    let mut left = all_cells(&d);
    left.sort();
    assert_eq!(left, vec![[3, 0], [5, 0], [6, 0]]);
}

#[test]
fn erase_connected_on_empty_cell_does_nothing() {
    let mut d = doc();
    add_draw_stroke(&mut d, DrawPrimitive::Line, 0, 3, vec![[0, 0]]);
    assert!(erase_connected_color_at_cell(&mut d, 4, 4).is_empty());
    assert_eq!(all_cells(&d), vec![[0, 0]]);
}

#[test]
fn flood_region_follows_eight_neighbours() {
    let area: Vec<Cell> = vec![[0, 0], [1, 0], [1, 1], [3, 3], [2, 2], [5, 5]];
    let mut region = flood_region(&area, [0, 0]);
    region.sort();
    assert_eq!(region, vec![[0, 0], [1, 0], [1, 1], [2, 2], [3, 3]]);
    assert_eq!(flood_region(&area, [5, 5]), vec![[5, 5]]);
}

#[test]
fn remove_and_restore_styled_cells_round_trip() {
    let mut d = doc();
    add_draw_stroke(&mut d, DrawPrimitive::Line, 1, 2, vec![[0, 0], [0, 1]]);
    let sc = vec![styled(DrawPrimitive::Line, 1, 2, [0, 1])];
    remove_styled_cells(&mut d, 1, &sc);
    assert_eq!(all_cells(&d), vec![[0, 0]]);
    // a cell of another style is left alone
    remove_styled_cells(&mut d, 1, &[styled(DrawPrimitive::Point, 1, 2, [0, 0])]);
    assert_eq!(all_cells(&d), vec![[0, 0]]);
    restore_styled_cells(&mut d, 1, &sc);
    let mut cells = all_cells(&d);
    cells.sort();
    assert_eq!(cells, vec![[0, 0], [0, 1]]);
}

#[test]
fn pending_actions_collect_distinct_cells() {
    let mut p = PendingDrawAction::Draw {
        primitive: DrawPrimitive::Line,
        size_index: 0,
        color_index: 0,
        cells: vec![],
    };
    push_draw_cell(&mut p, [1, 1]);
    push_draw_cell(&mut p, [1, 1]);
    push_draw_cell(&mut p, [2, 1]);
    match &p {
        PendingDrawAction::Draw { cells, .. } => assert_eq!(cells, &vec![[1, 1], [2, 1]]),
        _ => panic!("drawing gesture expected"),
    }
    let mut e = PendingDrawAction::Erase { cells: vec![] };
    let a = styled(DrawPrimitive::Line, 0, 0, [0, 0]);
    let b = styled(DrawPrimitive::Point, 0, 0, [0, 0]);
    push_erased_cells(&mut e, vec![a, b, a]);
    push_erased_cells(&mut e, vec![b]);
    match &e {
        PendingDrawAction::Erase { cells } => assert_eq!(cells, &vec![a, b]),
        _ => panic!("erasing gesture expected"),
    }
    // other gestures do not change
    let mut idle = PendingDrawAction::Idle;
    push_draw_cell(&mut idle, [0, 0]);
    push_erased_cells(&mut idle, vec![a]);
    assert!(matches!(idle, PendingDrawAction::Idle));
}

#[test]
fn finalize_turns_gesture_into_history_action() {
    let mut p = PendingDrawAction::Draw {
        primitive: DrawPrimitive::Point,
        size_index: 2,
        color_index: 5,
        cells: vec![[3, 4]],
    };
    match finalize_pending_action(7, &mut p) {
        Some(DrawHistoryAction::Draw { tab_id, primitive, size_index, color_index, cells }) => {
            assert_eq!(tab_id, 7);
            assert_eq!(primitive, DrawPrimitive::Point);
            assert_eq!(size_index, 2);
            assert_eq!(color_index, 5);
            assert_eq!(cells, vec![[3, 4]]);
        }
        _ => panic!("drawing action expected"),
    }
    let mut empty = PendingDrawAction::Erase { cells: vec![] };
    assert!(finalize_pending_action(7, &mut empty).is_none());
    let mut idle = PendingDrawAction::Idle;
    assert!(finalize_pending_action(7, &mut idle).is_none());
}

#[test]
fn history_action_and_inverse() {
    let mut d = doc();
    let action = DrawHistoryAction::Draw {
        tab_id: 1,
        primitive: DrawPrimitive::Line,
        size_index: 0,
        color_index: 2,
        cells: vec![[0, 0], [1, 0]],
    };
    apply_history_action(&mut d, &action);
    assert_eq!(all_cells(&d), vec![[0, 0], [1, 0]]);
    apply_history_action_inverse(&mut d, &action);
    assert!(all_cells(&d).is_empty());
    let erase = DrawHistoryAction::Erase {
        tab_id: 1,
        cells: vec![styled(DrawPrimitive::Line, 0, 2, [4, 4])],
    };
    apply_history_action_inverse(&mut d, &erase);
    assert_eq!(all_cells(&d), vec![[4, 4]]);
    apply_history_action(&mut d, &erase);
    assert!(all_cells(&d).is_empty());
}

#[test]
fn drawing_gesture_then_undo_and_redo() {
    let mut d = doc();
    let mut e = EditorState::default();
    assert!(handle_draw_mode(&mut d, &mut e, Some([0, 0]), true, false));
    // staying on the same cell paints nothing new
    assert!(!handle_draw_mode(&mut d, &mut e, Some([0, 0]), true, false));
    assert!(handle_draw_mode(&mut d, &mut e, Some([1, 0]), true, false));
    assert!(!handle_draw_mode(&mut d, &mut e, None, false, false));
    assert_eq!(e.last_paint_cell, None);
    assert!(matches!(e.pending_draw_action, PendingDrawAction::Idle));
    assert_eq!(e.draw_undo_stack.len(), 1);
    assert!(e.draw_redo_stack.is_empty());
    assert_eq!(all_cells(&d), vec![[0, 0], [1, 0]]);

    apply_draw_undo(&mut d, &mut e);
    assert!(all_cells(&d).is_empty());
    assert_eq!(e.draw_undo_stack.len(), 0);
    assert_eq!(e.draw_redo_stack.len(), 1);

    apply_draw_redo(&mut d, &mut e);
    assert_eq!(all_cells(&d), vec![[0, 0], [1, 0]]);
    assert_eq!(e.draw_undo_stack.len(), 1);
    assert!(e.draw_redo_stack.is_empty());

    // with nothing to undo or redo nothing happens
    let mut e2 = EditorState::default();
    apply_draw_redo(&mut d, &mut e2);
    apply_draw_undo(&mut d, &mut e2);
    assert_eq!(all_cells(&d), vec![[0, 0], [1, 0]]);
}

#[test]
fn erasing_gesture_is_undone_by_restoring() {
    let mut d = doc();
    add_draw_stroke(&mut d, DrawPrimitive::Line, 1, 3, vec![[0, 0], [1, 0]]);
    let mut e = EditorState::default();
    e.tool = PaintTool::Erase;
    assert!(handle_draw_mode(&mut d, &mut e, Some([1, 0]), true, false));
    assert!(!handle_draw_mode(&mut d, &mut e, Some([5, 5]), true, false));
    handle_draw_mode(&mut d, &mut e, None, false, false);
    assert_eq!(all_cells(&d), vec![[0, 0]]);
    match e.draw_undo_stack.last() {
        Some(DrawHistoryAction::Erase { tab_id, cells }) => {
            assert_eq!(*tab_id, 1);
            assert_eq!(cells, &vec![styled(DrawPrimitive::Line, 1, 3, [1, 0])]);
        }
        _ => panic!("erase action expected"),
    }
    apply_draw_undo(&mut d, &mut e);
    let mut cells = all_cells(&d);
    cells.sort();
    assert_eq!(cells, vec![[0, 0], [1, 0]]);
}

#[test]
fn control_erase_takes_connected_area() {
    let mut d = doc();
    add_draw_stroke(&mut d, DrawPrimitive::Line, 0, 1, vec![[0, 0], [0, 1], [0, 2]]);
    let mut e = EditorState::default();
    e.tool = PaintTool::Erase;
    assert!(handle_draw_mode(&mut d, &mut e, Some([0, 1]), true, true));
    assert!(all_cells(&d).is_empty());
}

#[test]
fn new_action_drops_redo_history() {
    let mut d = doc();
    let mut e = EditorState::default();
    handle_draw_mode(&mut d, &mut e, Some([0, 0]), true, false);
    handle_draw_mode(&mut d, &mut e, None, false, false);
    apply_draw_undo(&mut d, &mut e);
    assert_eq!(e.draw_redo_stack.len(), 1);
    handle_draw_mode(&mut d, &mut e, Some([2, 2]), true, false);
    handle_draw_mode(&mut d, &mut e, None, false, false);
    assert!(e.draw_redo_stack.is_empty());
    assert_eq!(e.draw_undo_stack.len(), 1);
}

#[test]
fn undo_history_keeps_the_latest_hundred() {
    let mut d = doc();
    let mut e = EditorState::default();
    for i in 0..(UNDO_HISTORY_LIMIT as i32 + 5) {
        handle_draw_mode(&mut d, &mut e, Some([i, 0]), true, false);
        handle_draw_mode(&mut d, &mut e, None, false, false);
    }
    assert_eq!(UNDO_HISTORY_LIMIT, 100);
    assert_eq!(e.draw_undo_stack.len(), 100);
    match e.draw_undo_stack.first() {
        Some(DrawHistoryAction::Draw { cells, .. }) => assert_eq!(cells, &vec![[5, 0]]),
        _ => panic!("drawing action expected"),
    }
}

#[test]
fn pointer_outside_canvas_paints_nothing() {
    let mut d = doc();
    let mut e = EditorState::default();
    assert!(!handle_draw_mode(&mut d, &mut e, None, true, false));
    assert!(all_cells(&d).is_empty());
    handle_draw_mode(&mut d, &mut e, None, false, false);
    assert!(e.draw_undo_stack.is_empty());
}

#[test]
fn size_index_is_limited_to_four_sizes() {
    let mut d = doc();
    let mut e = EditorState::default();
    e.size_index = 9;
    handle_draw_mode(&mut d, &mut e, Some([0, 0]), true, false);
    assert_eq!(strokes(&d)[0].size_index, 3);
}

#[test]
fn undo_redo_round_trips_keep_the_picture() {
    let mut d = doc();
    add_draw_stroke(&mut d, DrawPrimitive::Point, 0, 4, vec![[9, 9]]);
    let mut e = EditorState::default();
    handle_draw_mode(&mut d, &mut e, Some([0, 0]), true, false);
    handle_draw_mode(&mut d, &mut e, Some([0, 1]), true, false);
    handle_draw_mode(&mut d, &mut e, None, false, false);
    let mut painted = all_cells(&d);
    painted.sort();
    assert_eq!(painted, vec![[0, 0], [0, 1], [9, 9]]);

    // undo then redo
    apply_draw_undo(&mut d, &mut e);
    apply_draw_redo(&mut d, &mut e);
    let mut after = all_cells(&d);
    after.sort();
    assert_eq!(after, painted);

    // redo then undo, starting from the undone state
    apply_draw_undo(&mut d, &mut e);
    let mut undone = all_cells(&d);
    undone.sort();
    assert_eq!(undone, vec![[9, 9]]);
    apply_draw_redo(&mut d, &mut e);
    apply_draw_undo(&mut d, &mut e);
    let mut again = all_cells(&d);
    again.sort();
    assert_eq!(again, undone);
}

#[test]
fn flood_erase_leaves_other_styles_at_the_same_cells() {
    let mut d = doc();
    add_draw_stroke(&mut d, DrawPrimitive::Line, 0, 3, vec![[0, 0], [1, 1]]);
    add_draw_stroke(&mut d, DrawPrimitive::Point, 0, 3, vec![[1, 1], [2, 2]]);
    let removed = erase_connected_color_at_cell(&mut d, 0, 0);
    assert_eq!(
        removed,
        vec![
            styled(DrawPrimitive::Line, 0, 3, [0, 0]),
            styled(DrawPrimitive::Line, 0, 3, [1, 1]),
        ]
    );
    assert_eq!(strokes(&d).len(), 1);
    assert_eq!(strokes(&d)[0].primitive, DrawPrimitive::Point);
    assert_eq!(strokes(&d)[0].cells, vec![[1, 1], [2, 2]]);
}

#[test]
fn flood_erase_uses_the_last_stroke_at_the_cell() {
    let mut d = doc();
    add_draw_stroke(&mut d, DrawPrimitive::Line, 0, 3, vec![[0, 0], [1, 0]]);
    add_draw_stroke(&mut d, DrawPrimitive::Point, 1, 5, vec![[1, 0], [2, 0]]);
    let removed = erase_connected_color_at_cell(&mut d, 1, 0);
    assert_eq!(
        removed,
        vec![
            styled(DrawPrimitive::Point, 1, 5, [1, 0]),
            styled(DrawPrimitive::Point, 1, 5, [2, 0]),
        ]
    );
    assert_eq!(all_cells(&d), vec![[0, 0], [1, 0]]);
}

#[test]
fn undo_then_redo_gives_back_histories_and_tabs() {
    let mut d = doc();
    d.add_tab_with_title("Other".to_string());
    add_draw_stroke(&mut d, DrawPrimitive::Line, 0, 1, vec![[3, 3]]);
    d.set_active_tab(1);
    let mut e = EditorState::default();
    e.tool = PaintTool::Erase;
    handle_draw_mode(&mut d, &mut e, Some([0, 0]), true, false);
    handle_draw_mode(&mut d, &mut e, None, false, false);
    e.tool = PaintTool::Draw;
    handle_draw_mode(&mut d, &mut e, Some([5, 5]), true, false);
    handle_draw_mode(&mut d, &mut e, None, false, false);
    let cells_of = |d: &PaintDocument, i: usize| {
        let mut v: Vec<Cell> = d.tabs[i].draw_strokes.iter().flat_map(|s| s.cells.clone()).collect();
        v.sort();
        v
    };
    let before = (cells_of(&d, 0), cells_of(&d, 1), d.active_tab_id);
    let (u, r) = (e.draw_undo_stack.len(), e.draw_redo_stack.len());
    apply_draw_undo(&mut d, &mut e);
    apply_draw_redo(&mut d, &mut e);
    assert_eq!((cells_of(&d, 0), cells_of(&d, 1), d.active_tab_id), before);
    assert_eq!((e.draw_undo_stack.len(), e.draw_redo_stack.len()), (u, r));
    assert_eq!(before.1, vec![[3, 3]]);
}
