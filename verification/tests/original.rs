use lib::board::{flood_fill_count, is_valid_placement};
use lib::parser::{
    parse_anfield_header, parse_grid_row, parse_piece_header, parse_piece_row,
    parse_player_number, GameState,
};
use lib::strategy::find_best_placement;

fn make_grid(rows: &[&str]) -> Vec<Vec<char>> {
    rows.iter().map(|r| r.chars().collect()).collect()
}

fn make_piece(rows: &[&str]) -> Vec<Vec<char>> {
    rows.iter().map(|r| r.chars().collect()).collect()
}

const P1_MY: [char; 2] = ['@', 'a'];
const P1_OPP: [char; 2] = ['$', 's'];

#[test]
fn parse_player_number_p1() {
    assert_eq!(parse_player_number("$$$ exec p1 : [robots/bender]"), 1);
}

#[test]
fn parse_player_number_p2() {
    assert_eq!(parse_player_number("$$$ exec p2 : [robots/bender]"), 2);
}

#[test]
fn parse_anfield_dimensions() {
    let (cols, rows) = parse_anfield_header("Anfield 20 15:");
    assert_eq!(cols, 20);
    assert_eq!(rows, 15);
}

#[test]
fn parse_anfield_grid_strips_prefix() {
    let row = parse_grid_row("000 .@..", 4);
    assert_eq!(row, vec!['.', '@', '.', '.']);
}

#[test]
fn parse_anfield_skips_header() {
    let header = "Anfield 5 2:";
    let col_header = "    01234";
    let grid_lines = ["000 ..@..", "001 ....."];

    let (cols, rows) = parse_anfield_header(header);
    let _ = col_header;
    let grid: Vec<Vec<char>> = grid_lines.iter().map(|l| parse_grid_row(l, cols)).collect();

    assert_eq!(rows, 2);
    assert_eq!(grid.len(), 2, "column header must not appear as a grid row");
    assert_eq!(cols, 5);
}

#[test]
fn parse_piece_dimensions() {
    let (cols, rows) = parse_piece_header("Piece 4 2:");
    assert_eq!(cols, 4);
    assert_eq!(rows, 2);
}

#[test]
fn parse_piece_shape() {
    let row = parse_piece_row("OO.");
    assert_eq!(row.len(), 3);
    assert_eq!(row[0], 'O');
    assert_eq!(row[1], 'O');
    assert_eq!(row[2], '.');
}

#[test]
fn valid_one_overlap() {
    let grid = make_grid(&["..@..", "....."]);
    let piece = make_piece(&["OO"]);
    assert!(is_valid_placement(&grid, &piece, 1, 0, &P1_MY, &P1_OPP));
}

#[test]
fn invalid_zero_overlap() {
    let grid = make_grid(&[".....", "@...."]);
    let piece = make_piece(&["O"]);
    assert!(!is_valid_placement(&grid, &piece, 0, 0, &P1_MY, &P1_OPP));
}

#[test]
fn invalid_two_overlaps() {
    let grid = make_grid(&["@@..."]);
    let piece = make_piece(&["OO"]);
    assert!(!is_valid_placement(&grid, &piece, 0, 0, &P1_MY, &P1_OPP));
}

#[test]
fn invalid_hits_opponent_territory() {
    let grid = make_grid(&["$@..."]);
    let piece = make_piece(&["OO"]);
    assert!(!is_valid_placement(&grid, &piece, 0, 0, &P1_MY, &P1_OPP));
}

#[test]
fn invalid_hits_opponent_last_piece() {
    let grid = make_grid(&["s@..."]);
    let piece = make_piece(&["OO"]);
    assert!(!is_valid_placement(&grid, &piece, 0, 0, &P1_MY, &P1_OPP));

    let grid2 = make_grid(&["a...."]);
    let piece2 = make_piece(&["O"]);
    assert!(is_valid_placement(&grid2, &piece2, 0, 0, &P1_MY, &P1_OPP));
}

#[test]
fn invalid_out_of_bounds_right() {
    let grid = make_grid(&["..@"]);
    let piece = make_piece(&["OO"]);
    assert!(!is_valid_placement(&grid, &piece, 2, 0, &P1_MY, &P1_OPP));
}

#[test]
fn invalid_out_of_bounds_bottom() {
    let grid = make_grid(&["...", "..@"]);
    let piece = make_piece(&["O", "O"]);
    assert!(!is_valid_placement(&grid, &piece, 2, 1, &P1_MY, &P1_OPP));
}

#[test]
fn invalid_at_position_zero_zero_no_overlap() {
    let grid = make_grid(&["....@", "....."]);
    let piece = make_piece(&["O"]);
    assert!(!is_valid_placement(&grid, &piece, 0, 0, &P1_MY, &P1_OPP));
}

#[test]
fn parse_anfield_grid_strips_two_digit_prefix() {
    let row = parse_grid_row("00 .@..", 4);
    assert_eq!(row, vec!['.', '@', '.', '.']);
}

#[test]
fn piece_hash_char_recognized_as_filled() {
    let grid = make_grid(&["@...."]);
    let piece = make_piece(&["#"]);
    assert!(is_valid_placement(&grid, &piece, 0, 0, &P1_MY, &P1_OPP));
}

#[test]
fn all_four_territory_chars_recognized() {
    let my_chars: [char; 2] = ['@', 'a'];
    let opp_chars: [char; 2] = ['$', 's'];

    let grid = make_grid(&["a...."]);
    let piece = make_piece(&["O"]);
    assert!(is_valid_placement(&grid, &piece, 0, 0, &my_chars, &opp_chars));

    let grid2 = make_grid(&["s...."]);
    assert!(!is_valid_placement(&grid2, &piece, 0, 0, &my_chars, &opp_chars));
}

#[test]
fn output_is_x_then_y() {
    let grid = make_grid(&["...@.", "....."]);
    let piece = make_piece(&["O"]);
    let mut state = GameState {
        player_num: 1,
        my_chars: P1_MY,
        opp_chars: P1_OPP,
        rows: 2,
        cols: 5,
        grid,
        piece,
        piece_rows: 1,
        piece_cols: 1,
        turn: 1,
    };
    let (x, y) = find_best_placement(&mut state);
    assert_eq!(x, 3, "x must be the column index");
    assert_eq!(y, 0, "y must be the row index");
    assert_eq!(format!("{} {}", x, y), "3 0");
}

#[test]
fn flood_fill_basic() {
    let grid = make_grid(&["@@@@@", ".....", "$$$$$", ".....", "....."]);
    let starts: Vec<(usize, usize)> = (0..5).map(|c| (0usize, c)).collect();
    let blocked = vec!['$', 's'];

    let count = flood_fill_count(&grid, starts, &blocked);

    assert_eq!(count, 5);
}
