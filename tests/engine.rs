use sgf_renderer::board::{replay, stones_to_draw, Board};
use sgf_renderer::notation::get_board_position;
use sgf_renderer::types::{BoardSize, Color, Move};

fn five() -> BoardSize {
    BoardSize { width: 5, height: 5 }
}

fn seq(list: &[(Color, usize, usize)]) -> Vec<Move> {
    list.iter()
        .enumerate()
        .map(|(i, &(color, x, y))| Move { color, x, y, sequence_index: i })
        .collect()
}

use Color::{Black as B, White as W};

#[test]
fn empty_replay_is_empty() {
    let (board, caught) = replay(five(), &Vec::new());
    assert_eq!(board.cells.len(), 25);
    assert!(board.cells.iter().all(|c| c.is_none()));
    assert!(caught.is_empty());
    assert!(board.stones().is_empty());
}

#[test]
fn surrounded_stone_is_captured() {
    let moves = seq(&[(W, 1, 2), (B, 1, 1), (B, 0, 2), (B, 2, 2), (B, 1, 3)]);
    let (board, caught) = replay(five(), &moves);
    assert_eq!(board.stone_at(1, 2), None);
    assert_eq!(caught, vec![moves[0]]);
    assert_eq!(caught[0].sequence_index, 0);
    assert_eq!(board.stones().len(), 4);
}

#[test]
fn stone_played_into_surrounded_point_stays() {
    let moves = seq(&[(B, 1, 1), (B, 0, 2), (B, 2, 2), (B, 1, 3), (W, 1, 2)]);
    let (board, caught) = replay(five(), &moves);
    assert_eq!(board.stone_at(1, 2), Some(moves[4]));
    assert!(caught.is_empty());
    assert_eq!(board.stones().len(), 5);
}

#[test]
fn corner_self_atari_stays() {
    let moves = seq(&[(B, 1, 0), (B, 0, 1), (W, 0, 0)]);
    let (board, caught) = replay(five(), &moves);
    assert_eq!(board.stone_at(0, 0), Some(moves[2]));
    assert!(caught.is_empty());
}

#[test]
fn replay_is_deterministic() {
    let moves = seq(&[(B, 1, 0), (W, 0, 0), (B, 0, 1), (W, 2, 2), (B, 3, 3), (W, 2, 3)]);
    let (b1, c1) = replay(five(), &moves);
    let (b2, c2) = replay(five(), &moves);
    assert_eq!(b1.cells, b2.cells);
    assert_eq!(c1, c2);
}

#[test]
fn corner_capture() {
    let moves = seq(&[(W, 0, 0), (B, 1, 0), (B, 0, 1)]);
    let (board, caught) = replay(five(), &moves);
    assert_eq!(board.stone_at(0, 0), None);
    assert_eq!(caught, vec![moves[0]]);
}

#[test]
fn group_of_two_is_captured_in_cell_order() {
    // White pair at (1,0) and (2,0), surrounded along the top edge.
    let moves = seq(&[(W, 2, 0), (W, 1, 0), (B, 0, 0), (B, 3, 0), (B, 1, 1), (B, 2, 1)]);
    let (board, caught) = replay(five(), &moves);
    assert_eq!(caught, vec![moves[1], moves[0]]);
    assert_eq!(board.stone_at(1, 0), None);
    assert_eq!(board.stone_at(2, 0), None);
    assert_eq!(board.stones().len(), 4);
}

#[test]
fn group_with_liberty_survives() {
    let moves = seq(&[(W, 1, 0), (W, 2, 0), (B, 0, 0), (B, 1, 1), (B, 2, 1)]);
    let (board, caught) = replay(five(), &moves);
    assert!(caught.is_empty());
    assert_eq!(board.stone_at(1, 0), Some(moves[0]));
}

#[test]
fn one_move_captures_two_groups() {
    // White at (0,0) and (2,0); Black closes both with (1,0).
    let moves = seq(&[(W, 0, 0), (W, 2, 0), (B, 0, 1), (B, 2, 1), (B, 3, 0), (B, 1, 0)]);
    let (board, caught) = replay(five(), &moves);
    assert_eq!(caught, vec![moves[0], moves[1]]);
    assert_eq!(board.stone_at(1, 0), Some(moves[5]));
    assert_eq!(board.stones().len(), 4);
}

#[test]
fn capture_on_rectangular_board_respects_row_ends() {
    // 3 wide, 2 high: (2,0) and (0,1) are adjacent cells in memory, not on the board.
    let size = BoardSize { width: 3, height: 2 };
    let moves = seq(&[(W, 2, 0), (B, 0, 1), (B, 1, 0)]);
    let (board, caught) = replay(size, &moves);
    assert_eq!(board.stone_at(2, 0), Some(moves[0]));
    assert!(caught.is_empty());
    let moves = seq(&[(W, 2, 0), (B, 1, 0), (B, 2, 1)]);
    let (board, caught) = replay(size, &moves);
    assert_eq!(board.stone_at(2, 0), None);
    assert_eq!(caught, vec![moves[0]]);
}

#[test]
fn off_board_moves_are_dropped() {
    let moves = seq(&[(B, 5, 0), (W, 0, 7), (B, 4, 4)]);
    let (board, caught) = replay(five(), &moves);
    assert_eq!(board.stones(), vec![moves[2]]);
    assert!(caught.is_empty());
    assert_eq!(board.stone_at(5, 0), None);
}

#[test]
fn play_on_occupied_cell_overwrites() {
    let moves = seq(&[(B, 2, 2), (W, 2, 2)]);
    let (board, _) = replay(five(), &moves);
    assert_eq!(board.stone_at(2, 2), Some(moves[1]));
    assert_eq!(board.stones(), vec![moves[1]]);
}

#[test]
fn play_returns_captures() {
    let mut board = Board::new(five());
    let moves = seq(&[(W, 0, 0), (B, 1, 0), (B, 0, 1)]);
    assert!(board.play(moves[0]).is_empty());
    assert!(board.play(moves[1]).is_empty());
    assert_eq!(board.play(moves[2]), vec![moves[0]]);
}

#[test]
fn history_mode_shows_captured_stones() {
    let moves = seq(&[(W, 0, 0), (B, 1, 0), (B, 0, 1), (B, 9, 9)]);
    let history = stones_to_draw(five(), &moves, true);
    assert_eq!(history, vec![moves[0], moves[1], moves[2]]);
    assert_eq!(history[0].sequence_index, 0);
    let live = stones_to_draw(five(), &moves, false);
    assert_eq!(live, vec![moves[1], moves[2]]);
}

#[test]
fn record_to_board() {
    let text = b"(;SZ[5];W[cb];B[bb];B[ca];B[db];B[cc])";
    let (size, moves) = get_board_position(text, None);
    let (board, caught) = replay(size, &moves);
    assert_eq!(caught.len(), 1);
    assert_eq!((caught[0].x, caught[0].y, caught[0].sequence_index), (1, 2, 0));
    assert_eq!(board.stones().len(), 4);
    let (board, caught) = replay(size, &get_board_position(text, Some(4)).1);
    assert!(caught.is_empty());
    assert_eq!(board.stone_at(1, 2).map(|m| m.color), Some(Color::White));
}
