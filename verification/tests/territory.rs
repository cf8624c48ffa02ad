use lib::board::{check_reads_past_row, flood_fill_count, is_valid_placement};
use lib::parser::GameState;
use lib::strategy::{
    best_placement_within, bfs_distance, collect_opp_cells, count_empty_covered,
    find_best_placement, min_opp_dist, voronoi_diff, UNREACHED, WALL,
};

fn rows_of(lines: &[&str]) -> Vec<Vec<char>> {
    lines.iter().map(|r| r.chars().collect()).collect()
}

fn state_of(grid: &[&str], piece: &[&str], player: u8) -> GameState {
    let grid = rows_of(grid);
    let piece = rows_of(piece);
    let (my_chars, opp_chars) = if player == 1 {
        (['@', 'a'], ['$', 's'])
    } else {
        (['$', 's'], ['@', 'a'])
    };
    GameState {
        player_num: player,
        my_chars,
        opp_chars,
        rows: grid.len(),
        cols: grid[0].len(),
        piece_rows: piece.len(),
        piece_cols: piece[0].len(),
        grid,
        piece,
        turn: 1,
    }
}

const MY: [char; 2] = ['@', 'a'];
const OPP: [char; 2] = ['$', 's'];

#[test]
fn bfs_distances_are_shortest_with_walls() {
    let grid = rows_of(&["@..", ".$.", "..."]);
    let mine = bfs_distance(&grid, 3, 3, &MY, &OPP);
    assert_eq!(mine, vec![0, 1, 2, 1, WALL, 3, 2, 3, 4]);
    let theirs = bfs_distance(&grid, 3, 3, &OPP, &MY);
    assert_eq!(theirs, vec![WALL, 1, 2, 1, 0, 1, 2, 1, 2]);
}

#[test]
fn bfs_marks_cells_behind_a_wall_unreached() {
    let grid = rows_of(&["@$."]);
    let mine = bfs_distance(&grid, 1, 3, &MY, &OPP);
    assert_eq!(mine, vec![0, WALL, UNREACHED]);
}

#[test]
fn bfs_without_sources_reaches_nothing() {
    let grid = rows_of(&["...", "..."]);
    let mine = bfs_distance(&grid, 2, 3, &MY, &OPP);
    assert_eq!(mine, vec![UNREACHED; 6]);
}

#[test]
fn voronoi_counts_who_arrives_first() {
    let grid = rows_of(&["@..", ".$.", "..."]);
    assert_eq!(voronoi_diff(&grid, 3, 3, &MY, &OPP), -3);
}

#[test]
fn voronoi_is_zero_sum() {
    let grid = rows_of(&["@..", ".$.", "..."]);
    let a = voronoi_diff(&grid, 3, 3, &MY, &OPP);
    let b = voronoi_diff(&grid, 3, 3, &OPP, &MY);
    assert_eq!(a, -b);
    let grid2 = rows_of(&["..@..$"]);
    assert_eq!(voronoi_diff(&grid2, 1, 6, &MY, &OPP), -voronoi_diff(&grid2, 1, 6, &OPP, &MY));
}

#[test]
fn flood_fill_ignores_starts_off_the_board() {
    let grid = rows_of(&["@.", ".."]);
    assert_eq!(flood_fill_count(&grid, vec![(0, 0), (9, 9)], &['$']), 3);
}

#[test]
fn flood_fill_expands_a_start_on_any_cell() {
    let grid = rows_of(&["$.."]);
    assert_eq!(flood_fill_count(&grid, vec![(0, 0)], &['$']), 2);
}

#[test]
fn flood_fill_with_dot_blocked_counts_nothing() {
    let grid = rows_of(&["@..", "..."]);
    assert_eq!(flood_fill_count(&grid, vec![(0, 0)], &['.']), 0);
}

#[test]
fn flood_fill_on_empty_board_is_zero() {
    let grid: Vec<Vec<char>> = Vec::new();
    assert_eq!(flood_fill_count(&grid, vec![(0, 0)], &['$']), 0);
}

#[test]
fn counts_empty_cells_under_the_piece() {
    let state = state_of(&["..@", "..."], &["OO", "O."], 1);
    assert_eq!(count_empty_covered(&state, 1, 0), 2);
    assert_eq!(count_empty_covered(&state, 0, 0), 3);
}

#[test]
fn collects_opponent_cells_in_row_major_order() {
    let state = state_of(&["$.s", "..$"], &["O"], 1);
    assert_eq!(collect_opp_cells(&state), vec![(0, 0), (0, 2), (1, 2)]);
}

#[test]
fn nearest_opponent_from_piece_centre() {
    let state = state_of(&["$.s", "..$"], &["OO", "OO"], 1);
    let cells = collect_opp_cells(&state);
    assert_eq!(min_opp_dist(&state, 0, 0, &cells), 1);
    assert_eq!(min_opp_dist(&state, 0, 0, &[]), 0);
}

#[test]
fn no_move_found_gives_origin() {
    let state = state_of(&["...@.", "....."], &["O"], 1);
    assert_eq!(best_placement_within(&state, 0, 0), (0, 0));
    assert_eq!(best_placement_within(&state, 3, 10), (0, 0));
    assert_eq!(best_placement_within(&state, 4, 0), (3, 0));
    assert_eq!(best_placement_within(&state, 100, 100), (3, 0));
}

#[test]
fn board_without_legal_move_gives_origin() {
    let mut state = state_of(&["$$", "$$"], &["O"], 1);
    assert_eq!(best_placement_within(&state, 100, 100), (0, 0));
    assert_eq!(find_best_placement(&mut state), (0, 0));
}

#[test]
fn highest_score_wins_once_scored() {
    // x = 1 scores 10 + 3 - 3 = 10, x = 2 scores 20 + 3 - 2 = 21.
    let state = state_of(&["..@..$"], &["OO"], 1);
    assert_eq!(best_placement_within(&state, 100, 100), (2, 0));
    assert_eq!(best_placement_within(&state, 100, 1), (1, 0));
    assert_eq!(best_placement_within(&state, 100, 0), (1, 0));
    assert_eq!(best_placement_within(&state, 2, 100), (1, 0));
}

#[test]
fn ties_go_to_the_first_move_found() {
    let state = state_of(&["....", ".@..", "...."], &["OO"], 1);
    assert_eq!(best_placement_within(&state, 100, 100), (0, 1));
}

#[test]
fn chosen_move_is_legal() {
    let state = state_of(&["..@..$"], &["OO"], 1);
    let (x, y) = best_placement_within(&state, 100, 100);
    assert!(lib::board::is_valid_placement(
        &state.grid,
        &state.piece,
        x,
        y,
        &state.my_chars,
        &state.opp_chars
    ));
}

#[test]
fn timed_search_finds_the_best_on_a_small_board() {
    let mut state = state_of(&["..@..$"], &["OO"], 1);
    let before = state.grid.clone();
    assert_eq!(find_best_placement(&mut state), (2, 0));
    assert_eq!(state.grid, before);
}

#[test]
fn player_two_plays_dollar() {
    let state = state_of(&["$..@"], &["O"], 2);
    assert_eq!(best_placement_within(&state, 100, 100), (0, 0));
    // x = 1 scores 10 + 3 - 2 = 11, x = 2 scores 0 + 3 - 3 = 0.
    let state2 = state_of(&["@.$."], &["OO"], 2);
    assert_eq!(best_placement_within(&state2, 100, 100), (1, 0));
}

#[test]
fn no_opponent_means_distance_zero_anywhere() {
    let state = state_of(&["@..", "..."], &["OOO", "OOO"], 1);
    assert_eq!(min_opp_dist(&state, usize::MAX, usize::MAX, &[]), 0);
    assert_eq!(min_opp_dist(&state, 7, 3, &[]), 0);
}

#[test]
fn flood_fill_depends_on_starts_only_as_a_set() {
    let grid = rows_of(&["@.$..", ".....", "..$.."]);
    let once = flood_fill_count(&grid, vec![(0, 0), (2, 4)], &['$']);
    let again = flood_fill_count(&grid, vec![(2, 4), (0, 0), (2, 4), (0, 0)], &['$']);
    assert_eq!(once, again);
    assert_eq!(once, 11);
}

#[test]
fn blocking_a_cell_never_raises_the_flood_count() {
    let grid = rows_of(&["@..", "...", "..."]);
    let before = flood_fill_count(&grid, vec![(0, 0)], &['$']);
    assert_eq!(before, 8);
    for r in 0..3 {
        for c in 0..3 {
            let mut blocked_grid = grid.clone();
            blocked_grid[r][c] = '$';
            let after = flood_fill_count(&blocked_grid, vec![(0, 0)], &['$']);
            assert!(after <= before);
        }
    }
    let mut wall = grid.clone();
    wall[0][1] = '$';
    wall[1][0] = '$';
    assert_eq!(flood_fill_count(&wall, vec![(0, 0)], &['$']), 0);
}

#[test]
fn opponent_cell_before_a_short_piece_row_makes_the_move_illegal() {
    let grid = rows_of(&["$..", "...", "..."]);
    let piece = rows_of(&["OO", "O"]);
    assert!(!is_valid_placement(&grid, &piece, 0, 0, &MY, &OPP));
    assert!(!check_reads_past_row(&grid, &piece, 0, 0, &MY, &OPP));
    assert!(check_reads_past_row(&grid, &piece, 1, 0, &MY, &OPP));
    assert!(!check_reads_past_row(&grid, &piece, 2, 0, &MY, &OPP));
}

#[test]
fn rows_longer_than_the_board_width_are_read_only_that_far() {
    let mut state = state_of(&["$.", ".$"], &["OO", "O."], 1);
    state.grid[0].push('s');
    state.grid[1].push('.');
    state.piece[1].push('O');
    assert_eq!(collect_opp_cells(&state), vec![(0, 0), (1, 1)]);
    assert_eq!(count_empty_covered(&state, 0, 0), 2);
}
