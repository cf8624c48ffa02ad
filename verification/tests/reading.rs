use lib::parser::{
    parse_anfield_header, parse_grid_row, parse_piece_header, parse_piece_row, parse_player_number,
    try_parse_size,
};
use lib::protocol::{Action, Phase, Reader};
use lib::strategy::{answer_turn, find_best_placement, ragged_answer_within};
use lib::text::{chars_of, parse_usize, split_words, trimmed};

fn chars(s: &str) -> Vec<char> {
    s.chars().collect()
}

#[test]
fn size_lines() {
    assert_eq!(try_parse_size("Anfield 20 15:"), Some((20, 15)));
    assert_eq!(try_parse_size("  Anfield   3\t7:  "), Some((3, 7)));
    assert_eq!(try_parse_size("Piece +4 2::"), Some((4, 2)));
    assert_eq!(try_parse_size("Piece 007 2"), Some((7, 2)));
    assert_eq!(try_parse_size("Anfield 20"), None);
    assert_eq!(try_parse_size("Anfield x 15:"), None);
    assert_eq!(try_parse_size("Piece -4 2:"), None);
    assert_eq!(try_parse_size("Piece 4 :"), None);
    assert_eq!(try_parse_size("Piece + 2:"), None);
    assert_eq!(try_parse_size("Piece 99999999999999999999 2:"), None);
}

#[test]
fn player_number_edge_cases() {
    assert_eq!(parse_player_number("$$$ exec p1"), 1);
    assert_eq!(parse_player_number("$$$ exec"), 2);
    assert_eq!(parse_player_number("$$$ exec p10"), 2);
    assert_eq!(parse_player_number("$$$\u{3000}exec\u{3000}p1"), 1);
    assert_eq!(parse_player_number(""), 2);
}

#[test]
fn grid_rows_are_always_cols_wide() {
    assert_eq!(parse_grid_row("no-space-here", 3), vec!['.', '.', '.']);
    assert_eq!(parse_grid_row("000 .@..\n", 2), vec!['.', '@']);
    assert_eq!(parse_grid_row("000 .@  \r\n", 5), vec!['.', '@', '.', '.', '.']);
    assert_eq!(parse_grid_row("000 a b", 4), vec!['a', ' ', 'b', '.']);
    assert_eq!(parse_grid_row("", 0), Vec::<char>::new());
}

#[test]
fn piece_rows_lose_trailing_space() {
    assert_eq!(parse_piece_row(".O.\r\n"), vec!['.', 'O', '.']);
    assert_eq!(parse_piece_row("  O"), vec![' ', ' ', 'O']);
}

#[test]
fn numbers_read_like_str_parse() {
    assert_eq!(parse_usize(&chars("+0012")), Some(12));
    assert_eq!(parse_usize(&chars("0")), Some(0));
    assert_eq!(parse_usize(&chars("")), None);
    assert_eq!(parse_usize(&chars("+")), None);
    assert_eq!(parse_usize(&chars("1_000")), None);
    assert_eq!(parse_usize(&chars("99999999999999999999")), None);
}

#[test]
fn words_and_trimming() {
    let w = split_words(&chars("  a bc\u{2003}d  "));
    assert_eq!(w, vec![vec!['a'], vec!['b', 'c'], vec!['d']]);
    assert_eq!(trimmed(&chars(" \t x y \n")), vec!['x', ' ', 'y']);
    assert_eq!(chars_of("héllo"), vec!['h', 'é', 'l', 'l', 'o']);
}

#[test]
fn a_whole_turn_is_read_and_answered() {
    let mut reader = Reader::new();
    assert!(matches!(reader.feed("$$$ exec p1 : [robots/bender]\n"), Action::ReadMore));
    assert!(matches!(reader.feed("$$$ exec p2 : [robots/terminator]\n"), Action::ReadMore));
    assert_eq!(reader.player_num, 1);
    assert!(matches!(reader.feed("\n"), Action::ReadMore));
    assert!(matches!(reader.feed("Anfield 5 2:\n"), Action::ReadMore));
    assert!(matches!(reader.phase, Phase::ColumnHeader));
    assert!(matches!(reader.feed("    01234\n"), Action::ReadMore));
    assert!(matches!(reader.feed("000 ...@.\n"), Action::ReadMore));
    assert!(matches!(reader.feed("001 .....\n"), Action::ReadMore));
    assert!(matches!(reader.feed("some noise\n"), Action::ReadMore));
    assert!(matches!(reader.feed("Piece 1 1:\n"), Action::ReadMore));
    match reader.feed("O\n") {
        Action::Ready(mut state) => {
            assert_eq!(state.my_chars, ['@', 'a']);
            assert_eq!(state.opp_chars, ['$', 's']);
            assert_eq!(state.rows, 2);
            assert_eq!(state.cols, 5);
            assert_eq!(state.grid[0], vec!['.', '.', '.', '@', '.']);
            assert_eq!(state.piece, vec![vec!['O']]);
            assert_eq!(state.turn, 1);
            assert_eq!(find_best_placement(&mut state), (3, 0));
        }
        _ => panic!("the turn should be complete"),
    }
    assert!(matches!(reader.phase, Phase::SeekBoard));
    assert!(matches!(reader.end_of_input(), Action::Stop));
}

#[test]
fn input_ending_mid_board_reads_empty_rows() {
    let mut reader = Reader::new();
    assert!(matches!(reader.feed("Anfield 3 2:\n"), Action::ReadMore));
    assert_eq!(reader.player_num, 2);
    assert!(matches!(reader.feed("    012\n"), Action::ReadMore));
    assert!(matches!(reader.feed("000 $..\n"), Action::ReadMore));
    assert!(matches!(reader.end_of_input(), Action::ReadMore));
    assert_eq!(reader.grid, vec![vec!['$', '.', '.'], vec!['.', '.', '.']]);
    assert!(matches!(reader.end_of_input(), Action::Stop));
}

#[test]
fn bad_size_line_is_malformed() {
    let mut reader = Reader::new();
    assert!(matches!(reader.feed("Anfield x 2:\n"), Action::Malformed));
    let mut reader2 = Reader::new();
    assert!(matches!(reader2.feed("Anfield 2 1:\n"), Action::ReadMore));
    assert!(matches!(reader2.feed("    01\n"), Action::ReadMore));
    assert!(matches!(reader2.feed("000 $.\n"), Action::ReadMore));
    assert!(matches!(reader2.feed("Piece 2 1:\n"), Action::ReadMore));
    // A piece narrower than its header is handed out; the legal move at
    // (0, 0) cannot be scored over the header's width, so no answer.
    match reader2.feed("O\n") {
        Action::Ready(mut state) => assert_eq!(answer_turn(&mut state), None),
        _ => panic!("the turn should be complete"),
    }
}

fn turn_with(board: &[&str], piece_header: &str, piece: &[&str]) -> lib::parser::GameState {
    let mut reader = Reader::new();
    assert!(matches!(reader.feed("$$$ exec p1 : [robots/bender]\n"), Action::ReadMore));
    let cols = board[0].len();
    assert!(matches!(reader.feed(&format!("Anfield {} {}:\n", cols, board.len())), Action::ReadMore));
    assert!(matches!(reader.feed("    0123456789\n"), Action::ReadMore));
    for (i, row) in board.iter().enumerate() {
        assert!(matches!(reader.feed(&format!("{:03} {}\n", i, row)), Action::ReadMore));
    }
    let mut last = reader.feed(&format!("{}\n", piece_header));
    for row in piece {
        last = reader.feed(&format!("{}\n", row));
    }
    match last {
        Action::Ready(state) => state,
        _ => panic!("the turn should be complete"),
    }
}

#[test]
fn narrow_piece_without_legal_move_answers_origin() {
    let mut state = turn_with(&["...", "..."], "Piece 2 1:", &["O"]);
    assert_eq!(answer_turn(&mut state), Some((0, 0)));
    assert_eq!(ragged_answer_within(&state, usize::MAX), Some((0, 0)));
}

#[test]
fn short_later_row_stops_the_check() {
    let mut state = turn_with(&["@..", "...", "..."], "Piece 2 2:", &["OO", "O"]);
    assert_eq!(answer_turn(&mut state), None);
    assert_eq!(ragged_answer_within(&state, 1), None);
    assert_eq!(ragged_answer_within(&state, 0), Some((0, 0)));
}

#[test]
fn opponent_cell_ends_the_check_before_a_short_row() {
    let mut state = turn_with(&["$$$", "$$$", "..."], "Piece 2 2:", &["OO", "O"]);
    assert_eq!(answer_turn(&mut state), Some((0, 0)));
}

#[test]
fn empty_piece_row_at_end_of_input() {
    let mut reader = Reader::new();
    assert!(matches!(reader.feed("Anfield 3 1:\n"), Action::ReadMore));
    assert!(matches!(reader.feed("    012\n"), Action::ReadMore));
    assert!(matches!(reader.feed("000 $..\n"), Action::ReadMore));
    assert!(matches!(reader.feed("Piece 2 2:\n"), Action::ReadMore));
    assert!(matches!(reader.feed("OO\n"), Action::ReadMore));
    match reader.end_of_input() {
        Action::Ready(mut state) => {
            assert_eq!(state.piece, vec![vec!['O', 'O'], vec![]]);
            assert_eq!(answer_turn(&mut state), Some((0, 0)));
        }
        _ => panic!("the turn should be complete"),
    }
}

#[test]
fn empty_input_stops() {
    let mut reader = Reader::new();
    assert!(matches!(reader.end_of_input(), Action::Stop));
}

#[test]
fn printed_size_lines_read_back() {
    for &(c, r) in &[(0usize, 0usize), (20, 15), (7, 123456), (usize::MAX, 1)] {
        assert_eq!(try_parse_size(&format!("Anfield {} {}:", c, r)), Some((c, r)));
        assert_eq!(try_parse_size(&format!("Piece {} {}:", c, r)), Some((c, r)));
    }
}

#[test]
fn piece_rows_wider_than_the_header_are_accepted() {
    let mut reader = Reader::new();
    assert!(matches!(reader.feed("$$$ exec p1 : [robots/bender]\n"), Action::ReadMore));
    assert!(matches!(reader.feed("Anfield 5 2:\n"), Action::ReadMore));
    assert!(matches!(reader.feed("    01234\n"), Action::ReadMore));
    assert!(matches!(reader.feed("000 ...@.\n"), Action::ReadMore));
    assert!(matches!(reader.feed("001 .....\n"), Action::ReadMore));
    assert!(matches!(reader.feed("Piece 1 1:\n"), Action::ReadMore));
    match reader.feed("OO\n") {
        Action::Ready(mut state) => {
            assert_eq!(state.piece, vec![vec!['O', 'O']]);
            assert_eq!(state.piece_rows, 1);
            assert_eq!(state.piece_cols, 1);
            let mv = find_best_placement(&mut state);
            assert!(mv == (2, 0) || mv == (3, 0));
        }
        _ => panic!("the turn should be complete"),
    }
}

#[test]
fn both_header_readers_agree() {
    for line in ["Anfield 20 15:", "Piece 4 2:", "  Piece +3\t07::  ", "x 1 2"] {
        assert_eq!(parse_anfield_header(line), parse_piece_header(line));
    }
    assert_eq!(parse_piece_header("Anfield 17 3:"), (17, 3));
    assert_eq!(parse_anfield_header("Piece 2 5:"), (2, 5));
}
