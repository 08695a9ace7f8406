use pixel_paint_rs::domain::stroke::{DrawPrimitive, DrawStroke};
use pixel_paint_rs::ui::render_core::{group_strokes, plan_strokes, RenderCommand, StrokeStyle};

fn stroke(id: u64, primitive: DrawPrimitive, size: u8, color: u8, cells: Vec<[i32; 2]>) -> DrawStroke {
    DrawStroke { id, primitive, size_index: size, color_index: color, cells }
}

#[test]
fn strokes_of_one_style_share_a_group() {
    let strokes = vec![
        stroke(1, DrawPrimitive::Line, 0, 1, vec![[0, 0], [1, 0]]),
        stroke(2, DrawPrimitive::Point, 2, 1, vec![[4, 4]]),
        stroke(3, DrawPrimitive::Line, 0, 1, vec![[1, 0], [2, 0]]),
    ];
    let groups = group_strokes(&strokes);
    assert_eq!(groups.len(), 2);
    assert_eq!(
        groups[0].style,
        StrokeStyle { primitive: DrawPrimitive::Line, size_index: 0, color_index: 1 }
    );
    assert_eq!(groups[0].cells, vec![[0, 0], [1, 0], [2, 0]]);
    assert_eq!(groups[1].cells, vec![[4, 4]]);
}

#[test]
fn oversized_groups_are_drawn_at_the_largest_size() {
    let strokes = vec![stroke(1, DrawPrimitive::Point, 9, 0, vec![[0, 0]])];
    let groups = group_strokes(&strokes);
    assert_eq!(groups[0].style.size_index, 3);
}

#[test]
fn plan_draws_larger_sizes_first() {
    let strokes = vec![
        stroke(1, DrawPrimitive::Line, 0, 1, vec![[0, 0], [1, 0]]),
        stroke(2, DrawPrimitive::Point, 2, 2, vec![[5, 5]]),
    ];
    let plan = plan_strokes(&strokes);
    assert_eq!(
        plan,
        vec![
            RenderCommand::PointRect { cell: [5, 5], size_index: 2, color_index: 2 },
            RenderCommand::LinePoint { cell: [0, 0], size_index: 0, color_index: 1 },
            RenderCommand::LineSegment { from: [0, 0], to: [1, 0], size_index: 0, color_index: 1 },
            RenderCommand::LinePoint { cell: [1, 0], size_index: 0, color_index: 1 },
        ]
    );
}

#[test]
fn line_cells_join_right_and_lower_neighbours() {
    let strokes = vec![stroke(1, DrawPrimitive::Line, 1, 0, vec![[0, 0], [0, 1], [1, 1]])];
    let plan = plan_strokes(&strokes);
    assert_eq!(
        plan,
        vec![
            RenderCommand::LinePoint { cell: [0, 0], size_index: 1, color_index: 0 },
            RenderCommand::LineSegment { from: [0, 0], to: [0, 1], size_index: 1, color_index: 0 },
            RenderCommand::LinePoint { cell: [0, 1], size_index: 1, color_index: 0 },
            RenderCommand::LineSegment { from: [0, 1], to: [1, 1], size_index: 1, color_index: 0 },
            RenderCommand::LinePoint { cell: [1, 1], size_index: 1, color_index: 0 },
        ]
    );
}

#[test]
fn no_strokes_no_commands() {
    assert!(plan_strokes(&[]).is_empty());
}

fn same_commands(a: &[RenderCommand], b: &[RenderCommand]) -> bool {
    a.len() == b.len()
        && a.iter().all(|x| {
            a.iter().filter(|y| *y == x).count() == b.iter().filter(|y| *y == x).count()
        })
}

#[test]
fn plan_does_not_depend_on_how_cells_are_split() {
    let one = vec![
        stroke(1, DrawPrimitive::Line, 1, 2, vec![[0, 0], [1, 0], [1, 1]]),
        stroke(2, DrawPrimitive::Point, 3, 0, vec![[4, 4]]),
    ];
    let split = vec![
        stroke(7, DrawPrimitive::Point, 3, 0, vec![[4, 4], [4, 4]]),
        stroke(9, DrawPrimitive::Line, 1, 2, vec![[1, 1], [1, 0]]),
        stroke(3, DrawPrimitive::Line, 1, 2, vec![[0, 0], [1, 1]]),
    ];
    let a = plan_strokes(&one);
    let b = plan_strokes(&split);
    assert!(same_commands(&a, &b));
    assert_eq!(a.len(), 6);
}
