use sgf_renderer::notation::{get_board_position, parse_board_size, parse_moves};
use sgf_renderer::types::{BoardSize, Color, Move};

fn size(w: usize, h: usize) -> BoardSize {
    BoardSize { width: w, height: h }
}

fn mv(color: Color, x: usize, y: usize, sequence_index: usize) -> Move {
    Move { color, x, y, sequence_index }
}

#[test]
fn square_size_is_read() {
    assert_eq!(parse_board_size(b"(;SZ[19])"), size(19, 19));
    assert_eq!(parse_board_size(b"(;GM[1]FF[4]SZ[9];B[aa])"), size(9, 9));
}

#[test]
fn rectangular_size_is_read() {
    assert_eq!(parse_board_size(b"(;SZ[15:10])"), size(15, 10));
    assert_eq!(parse_board_size(b"(;SZ[2:25])"), size(2, 25));
}

#[test]
fn every_square_side_in_range_is_read() {
    for n in 0..40usize {
        let text = format!("(;SZ[{}];B[aa])", n);
        let expected = if (2..=25).contains(&n) { size(n, n) } else { size(19, 19) };
        assert_eq!(parse_board_size(text.as_bytes()), expected, "side {}", n);
    }
}

#[test]
fn every_rectangular_size_in_range_is_read() {
    for w in 0..28usize {
        for h in [0usize, 1, 2, 7, 25, 26, 100] {
            let text = format!("(;SZ[{}:{}])", w, h);
            let ok = (2..=25).contains(&w) && (2..=25).contains(&h);
            let expected = if ok { size(w, h) } else { size(19, 19) };
            assert_eq!(parse_board_size(text.as_bytes()), expected, "{}:{}", w, h);
        }
    }
}

#[test]
fn size_edges_fall_back_to_default() {
    assert_eq!(parse_board_size(b"(;SZ[1])"), size(19, 19));
    assert_eq!(parse_board_size(b"(;SZ[26])"), size(19, 19));
    assert_eq!(parse_board_size(b"(;SZ[2])"), size(2, 2));
    assert_eq!(parse_board_size(b"(;SZ[25])"), size(25, 25));
    assert_eq!(parse_board_size(b"(;SZ[99999999999999999999999])"), size(19, 19));
    assert_eq!(parse_board_size(b"(;SZ[013])"), size(13, 13));
}

#[test]
fn malformed_size_falls_back_to_default() {
    assert_eq!(parse_board_size(b"(;B[aa])"), size(19, 19));
    assert_eq!(parse_board_size(b""), size(19, 19));
    assert_eq!(parse_board_size(b"(;SZ[13"), size(19, 19));
    assert_eq!(parse_board_size(b"(;SZ[])"), size(19, 19));
    assert_eq!(parse_board_size(b"(;SZ[ab])"), size(19, 19));
    assert_eq!(parse_board_size(b"(;SZ[5:30])"), size(19, 19));
    assert_eq!(parse_board_size(b"(;SZ[5:5:5])"), size(19, 19));
    assert_eq!(parse_board_size(b"(;SZ[:9])"), size(19, 19));
    assert_eq!(parse_board_size(b"(;SZ[9:])"), size(19, 19));
    assert_eq!(parse_board_size(b"(;SZ[ 9])"), size(19, 19));
}

#[test]
fn first_size_declaration_wins() {
    assert_eq!(parse_board_size(b"(;SZ[9]SZ[13])"), size(9, 9));
    assert_eq!(parse_board_size(b"(;SZ[40]SZ[13])"), size(19, 19));
}

#[test]
fn moves_are_read_in_order_with_axes_swapped() {
    let moves = parse_moves(b"(;SZ[5];B[ab];W[cd])", None);
    assert_eq!(moves, vec![mv(Color::Black, 1, 0, 0), mv(Color::White, 3, 2, 1)]);
}

#[test]
fn malformed_moves_are_dropped_and_parsing_goes_on() {
    let moves = parse_moves(b"(;B[abc];W[a];B[];W[A1];B[bb];W[tt])", None);
    assert_eq!(moves, vec![mv(Color::Black, 1, 1, 0), mv(Color::White, 19, 19, 1)]);
}

#[test]
fn property_values_are_opaque() {
    let moves = parse_moves(b"(;C[a note B[aa] inside]PB[ab]AB[cc]AW[dd]B[bb])", None);
    assert_eq!(moves, vec![mv(Color::Black, 1, 1, 0)]);
}

#[test]
fn nested_variation_moves_are_dropped() {
    let moves = parse_moves(b"(;SZ[9];B[aa](;W[bb];B[cc])(;W[dd](;B[ee])))", None);
    assert_eq!(moves, vec![mv(Color::Black, 0, 0, 0)]);
}

#[test]
fn main_line_after_variation_is_kept() {
    let moves = parse_moves(b"(;B[aa](;W[bb]);W[cc])", None);
    assert_eq!(moves, vec![mv(Color::Black, 0, 0, 0), mv(Color::White, 2, 2, 1)]);
}

#[test]
fn move_limit_truncates() {
    let text = b"(;B[aa];W[bb];B[cc];W[dd])";
    let all = parse_moves(text, None);
    assert_eq!(all.len(), 4);
    assert_eq!(parse_moves(text, Some(2)), all[..2].to_vec());
    assert_eq!(parse_moves(text, Some(0)), Vec::<Move>::new());
    assert_eq!(parse_moves(text, Some(4)), all);
    assert_eq!(parse_moves(text, Some(10)), all);
}

#[test]
fn move_limit_matches_cut_record() {
    let text = b"(;B[aa];W[bb];B[cc];W[dd])";
    let cut = b"(;B[aa];W[bb];";
    assert_eq!(parse_moves(text, Some(2)), parse_moves(cut, None));
}

#[test]
fn board_position_combines_size_and_moves() {
    let (s, moves) = get_board_position(b"(;SZ[7:5];B[ba];W[ab];B[cc])", Some(2));
    assert_eq!(s, size(7, 5));
    assert_eq!(moves, vec![mv(Color::Black, 0, 1, 0), mv(Color::White, 1, 0, 1)]);
}
