use vstd::prelude::*;
use crate::board::{
    is_numbered, lemma_live_stones_member, lemma_on_board_member, lemma_replay_gone, on_board,
    replay_spec, shown_stones, stones_to_draw,
};
use crate::layout::{compute_layout, layout_spec, star_points, star_points_spec, Layout};
use crate::notation::{
    declared_size, get_board_position, initial_scan, lemma_placements_len, limited, record_moves,
};
use crate::types::{BoardSize, Color, Move};

verus! {

/// One drawing instruction, in canvas pixels.
#[derive(Clone, Copy, Debug, PartialEq, Eq)]
pub enum DrawOp {
    /// A grid line.
    Line { from: (u32, u32), to: (u32, u32) },
    /// A star point marker.
    StarPoint { center: (u32, u32) },
    /// A stone, with the one-based number of its move when move numbers are shown.
    Stone { center: (u32, u32), radius: u32, color: Color, label: Option<usize> },
}

/// Canvas position of the intersection at column `x`, row `y`.
pub open spec fn pt(l: Layout, x: int, y: int) -> (u32, u32) {
    ((l.margin_x + x * l.pitch) as u32, (l.margin_y + y * l.pitch) as u32)
}

/// The horizontal grid lines, top to bottom.
pub open spec fn row_lines(l: Layout) -> Seq<DrawOp> {
    Seq::new(l.size.height as nat, |y: int| DrawOp::Line { from: pt(l, 0, y), to: pt(l, l.size.width - 1, y) })
}

/// The vertical grid lines, left to right.
pub open spec fn column_lines(l: Layout) -> Seq<DrawOp> {
    Seq::new(l.size.width as nat, |x: int| DrawOp::Line { from: pt(l, x, 0), to: pt(l, x, l.size.height - 1) })
}

/// The star point markers.
pub open spec fn star_ops(l: Layout) -> Seq<DrawOp> {
    let pts = star_points_spec(l.size);
    Seq::new(pts.len(), |k: int| DrawOp::StarPoint { center: pt(l, pts[k].0 as int, pts[k].1 as int) })
}

pub open spec fn stone_op(l: Layout, m: Move, history: bool) -> DrawOp {
    DrawOp::Stone {
        center: pt(l, m.x as int, m.y as int),
        radius: l.pitch / 2,
        color: m.color,
        label: if history { Some((m.sequence_index + 1) as usize) } else { None },
    }
}

/// The stones, in the order given.
pub open spec fn stone_ops(l: Layout, stones: Seq<Move>, history: bool) -> Seq<DrawOp> {
    Seq::new(stones.len(), |k: int| stone_op(l, stones[k], history))
}

/// What is drawn for a record: the grid lines, then the star points, then the
/// stones that the mode shows (see `shown_stones`), each numbered from 1 in
/// move-history mode.
pub open spec fn scene_spec(s: Seq<u8>, history: bool, limit: Option<usize>, canvas: u32) -> Seq<DrawOp> {
    let size = declared_size(s);
    let l = layout_spec(size, canvas as int);
    row_lines(l) + column_lines(l) + star_ops(l)
        + stone_ops(l, shown_stones(size, limited(record_moves(s), limit), history), history)
}

proof fn lemma_shown_are_moves(size: BoardSize, moves: Seq<Move>, history: bool)
    requires
        size.valid(),
        is_numbered(moves),
    ensures
        forall|m: Move| #[trigger] shown_stones(size, moves, history).contains(m) ==> moves.contains(m),
{
    lemma_on_board_member(size, moves);
    if !history {
        let cells = replay_spec(size, moves).0;
        lemma_replay_gone(size, moves);
        lemma_live_stones_member(cells);
        assert forall|m: Move| #[trigger] shown_stones(size, moves, history).contains(m) implies moves.contains(m) by {
            let q = choose|q: int| 0 <= q < cells.len() && cells[q] == Some(m);
            assert(cells[q] is Some);
            assert(on_board(size, moves).contains(m));
        }
    }
}

/// The drawing of a record on a square canvas of side `canvas`: the layout
/// used, and the instructions in drawing order.
pub fn plan_scene(notation: &[u8], history: bool, limit: Option<usize>, canvas: u32) -> (r: (Layout, Vec<DrawOp>))
    ensures
        r.0 == layout_spec(declared_size(notation@), canvas as int),
        r.1@ == scene_spec(notation@, history, limit, canvas),
{
    let (size, moves) = get_board_position(notation, limit);
    let l = compute_layout(size, canvas);
    let nlen = notation.len();
    proof {
        lemma_placements_len(notation@, 0, initial_scan());
        assert forall|i: int| 0 <= i < moves@.len() implies #[trigger] moves@[i].sequence_index == i by {
            assert(moves@[i] == record_moves(notation@)[i]);
        }
        lemma_shown_are_moves(size, moves@, history);
    }
    let w = size.width;
    let h = size.height;
    let mut ops: Vec<DrawOp> = Vec::new();
    let mut y: usize = 0;
    while y < h
        invariant
            l.wf(),
            l.size == size,
            w == size.width,
            h == size.height,
            y <= h,
            ops@ == row_lines(l).take(y as int),
        decreases h - y,
    {
        let op = DrawOp::Line { from: l.point(0, y), to: l.point(w - 1, y) };
        ops.push(op);
        assert(ops@ =~= row_lines(l).take(y + 1));
        y = y + 1;
    }
    assert(row_lines(l).take(h as int) =~= row_lines(l));
    let ghost before = ops@;
    let mut x: usize = 0;
    while x < w
        invariant
            l.wf(),
            l.size == size,
            w == size.width,
            h == size.height,
            x <= w,
            ops@ == before + column_lines(l).take(x as int),
        decreases w - x,
    {
        let op = DrawOp::Line { from: l.point(x, 0), to: l.point(x, h - 1) };
        ops.push(op);
        assert(ops@ =~= before + column_lines(l).take(x + 1));
        x = x + 1;
    }
    assert(column_lines(l).take(w as int) =~= column_lines(l));
    let ghost before = ops@;
    let pts = star_points(size);
    let mut k: usize = 0;
    while k < pts.len()
        invariant
            l.wf(),
            l.size == size,
            pts@ == star_points_spec(size),
            k <= pts@.len(),
            ops@ == before + star_ops(l).take(k as int),
        decreases pts@.len() - k,
    {
        let (px, py) = pts[k];
        let op = DrawOp::StarPoint { center: l.point(px, py) };
        ops.push(op);
        assert(ops@ =~= before + star_ops(l).take(k + 1));
        k = k + 1;
    }
    assert(star_ops(l).take(pts@.len() as int) =~= star_ops(l));
    let ghost before = ops@;
    let stones = stones_to_draw(size, &moves, history);
    let radius = l.stone_radius();
    let mut i: usize = 0;
    while i < stones.len()
        invariant
            l.wf(),
            l.size == size,
            radius == l.pitch / 2,
            stones@ == shown_stones(size, moves@, history),
            forall|m: Move| #[trigger] stones@.contains(m) ==> moves@.contains(m),
            moves@.len() <= nlen,
            is_numbered(moves@),
            i <= stones@.len(),
            ops@ == before + stone_ops(l, stones@, history).take(i as int),
        decreases stones@.len() - i,
    {
        let m = stones[i];
        proof {
            assert(stones@.contains(m));
            let j = choose|j: int| 0 <= j < moves@.len() && moves@[j] == m;
            assert(moves@[j].sequence_index == j);
            assert(m.x < size.width && m.y < size.height) by {
                lemma_on_board_member(size, moves@);
                if !history {
                    let cells = replay_spec(size, moves@).0;
                    lemma_replay_gone(size, moves@);
                    lemma_live_stones_member(cells);
                    let q = choose|q: int| 0 <= q < cells.len() && cells[q] == Some(m);
                    assert(cells[q] is Some);
                }
            }
        }
        let label = if history { Some(m.sequence_index + 1) } else { None };
        let op = DrawOp::Stone { center: l.point(m.x, m.y), radius, color: m.color, label };
        ops.push(op);
        assert(ops@ =~= before + stone_ops(l, stones@, history).take(i + 1));
        i = i + 1;
    }
    assert(stone_ops(l, stones@, history).take(stones@.len() as int) =~= stone_ops(l, stones@, history));
    (l, ops)
}

} // verus!
