use sgf_renderer::scene::{plan_scene, DrawOp};
use sgf_renderer::types::Color;

#[test]
fn small_board_scene() {
    let (layout, ops) = plan_scene(b"(;SZ[2];B[aa];W[bb])", true, None, 800);
    assert_eq!((layout.pitch, layout.margin_x, layout.margin_y), (200, 300, 300));
    assert_eq!(
        ops,
        vec![
            DrawOp::Line { from: (300, 300), to: (500, 300) },
            DrawOp::Line { from: (300, 500), to: (500, 500) },
            DrawOp::Line { from: (300, 300), to: (300, 500) },
            DrawOp::Line { from: (500, 300), to: (500, 500) },
            DrawOp::Stone { center: (300, 300), radius: 100, color: Color::Black, label: Some(1) },
            DrawOp::Stone { center: (500, 500), radius: 100, color: Color::White, label: Some(2) },
        ]
    );
}

#[test]
fn empty_standard_board_scene() {
    let (_, ops) = plan_scene(b"(;GM[1])", false, None, 800);
    assert_eq!(ops.len(), 19 + 19 + 9);
    assert_eq!(ops[38], DrawOp::StarPoint { center: (58 + 3 * 38, 58 + 3 * 38) });
    assert_eq!(ops[0], DrawOp::Line { from: (58, 58), to: (742, 58) });
}

#[test]
fn history_scene_keeps_captured_stone_with_its_number() {
    let text = b"(;SZ[5];W[aa];B[ab];B[ba])";
    let (_, history) = plan_scene(text, true, None, 800);
    let (_, live) = plan_scene(text, false, None, 800);
    let stones = |ops: &Vec<DrawOp>| {
        ops.iter()
            .filter_map(|op| match op {
                DrawOp::Stone { center, label, color, .. } => Some((*center, *color, *label)),
                _ => None,
            })
            .collect::<Vec<_>>()
    };
    // Layout of a 5 by 5 board on 800 pixels: pitch 114, margins 172.
    assert_eq!(
        stones(&history),
        vec![
            ((172, 172), Color::White, Some(1)),
            ((286, 172), Color::Black, Some(2)),
            ((172, 286), Color::Black, Some(3)),
        ]
    );
    assert_eq!(
        stones(&live),
        vec![((286, 172), Color::Black, None), ((172, 286), Color::Black, None)]
    );
}

#[test]
fn scene_respects_move_limit() {
    let (_, ops) = plan_scene(b"(;SZ[5];W[aa];B[ab];B[ba])", false, Some(2), 800);
    let count = ops.iter().filter(|op| matches!(op, DrawOp::Stone { .. })).count();
    assert_eq!(count, 2);
}
