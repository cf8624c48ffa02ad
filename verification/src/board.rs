//! Placement legality and flood-fill reachability on the board.
use vstd::prelude::*;
use std::collections::VecDeque;
use vstd::set_lib::{lemma_int_range, lemma_len_subset, set_int_range};
use crate::reach::{
    all_neighbors, board_cells, in_bounds, flat, lemma_board_cells_finite, lemma_closure,
    lemma_within_pass_mono, adjacent, lemma_within_pred, lemma_within_zero, lemma_directions, lemma_flat_bounds,
    lemma_flat_injective, lemma_step, lemma_src_within, neighbor, reached, step_c, step_r, within,
};
use crate::grid::{
    cells_where, count_in_rect, count_in_row, filled, is_filled, is_rect, lemma_count_in_rect_cells, rows_cover_width, side_contains, side_has,
    slice_contains, view_grid, width,
};

verus! {

/// The board cell under piece cell `(pr, pc)` when the piece's top-left
/// corner is at column `x`, row `y`.
pub open spec fn under(g: Seq<Seq<char>>, x: int, y: int, pr: int, pc: int) -> char {
    g[y + pr][x + pc]
}

/// Piece cell `(pr, pc)` is filled and lands on one of my cells.
pub open spec fn covers_mine(
    g: Seq<Seq<char>>,
    p: Seq<Seq<char>>,
    x: int,
    y: int,
    my: Seq<char>,
    pr: int,
    pc: int,
) -> bool {
    is_filled(p[pr][pc]) && side_has(my, under(g, x, y, pr, pc))
}

/// Piece cell `(pr, pc)` is filled and lands on an opponent cell that is not also mine.
pub open spec fn covers_opponent(
    g: Seq<Seq<char>>,
    p: Seq<Seq<char>>,
    x: int,
    y: int,
    my: Seq<char>,
    opp: Seq<char>,
    pr: int,
    pc: int,
) -> bool {
    is_filled(p[pr][pc]) && !side_has(my, under(g, x, y, pr, pc)) && side_has(
        opp,
        under(g, x, y, pr, pc),
    )
}

/// The piece cells at `(pr, pc)` that cover one of my cells.
pub open spec fn mine_pred(
    g: Seq<Seq<char>>,
    p: Seq<Seq<char>>,
    x: int,
    y: int,
    my: Seq<char>,
) -> spec_fn(int, int) -> bool {
    |pr: int, pc: int| covers_mine(g, p, x, y, my, pr, pc)
}

/// The piece, placed with its top-left corner at column `x`, row `y`, lies inside the board.
pub open spec fn fits(g: Seq<Seq<char>>, p: Seq<Seq<char>>, x: int, y: int) -> bool {
    &&& g.len() > 0
    &&& p.len() > 0
    &&& x + width(p) <= width(g)
    &&& y + p.len() <= g.len()
}

/// The cells that the legality check of a piece put at column `x`, row `y`
/// reads exist: it does not run past the end of a piece row narrower than
/// the first (see `reads_past_row`), and every board row under the piece
/// reaches past its right edge.
pub open spec fn rows_readable(
    g: Seq<Seq<char>>,
    p: Seq<Seq<char>>,
    x: int,
    y: int,
    my: Seq<char>,
    opp: Seq<char>,
) -> bool {
    &&& !reads_past_row(g, p, x, y, my, opp)
    &&& forall|r: int| y <= r < y + p.len() ==> #[trigger] g[r].len() >= x + width(p)
}

/// A legal move: the piece fits, no filled cell lands on the opponent,
/// and exactly one filled cell lands on my territory.
pub open spec fn valid_placement(
    g: Seq<Seq<char>>,
    p: Seq<Seq<char>>,
    x: int,
    y: int,
    my: Seq<char>,
    opp: Seq<char>,
) -> bool {
    &&& fits(g, p, x, y)
    &&& forall|pr: int, pc: int|
        0 <= pr < p.len() && 0 <= pc < width(p) ==> !#[trigger] covers_opponent(
            g,
            p,
            x,
            y,
            my,
            opp,
            pr,
            pc,
        )
    &&& count_in_rect(mine_pred(g, p, x, y, my), p.len() as int, width(p)) == 1
}

/// What makes a move legal, in terms of the board's characters: the piece
/// (as wide as its first row) lies inside the board, no filled piece cell
/// ('O' or '#') lands on an opponent cell that is not also mine, and exactly
/// one filled piece cell lands on one of my two characters.
pub proof fn lemma_valid_placement_rule(
    g: Seq<Seq<char>>,
    p: Seq<Seq<char>>,
    x: int,
    y: int,
    my: Seq<char>,
    opp: Seq<char>,
)
    ensures
        valid_placement(g, p, x, y, my, opp) <==> {
            &&& g.len() > 0 && p.len() > 0
            &&& x + p[0].len() <= g[0].len()
            &&& y + p.len() <= g.len()
            &&& forall|i: int, j: int|
                0 <= i < p.len() && 0 <= j < p[0].len() && (p[i][j] == 'O' || p[i][j] == '#') ==> {
                    let b = #[trigger] g[y + i][x + j];
                    b == my[0] || b == my[1] || (b != opp[0] && b != opp[1])
                }
            &&& Set::new(
                |ij: (int, int)|
                    0 <= ij.0 < p.len() && 0 <= ij.1 < p[0].len() && (p[ij.0][ij.1] == 'O' || p[ij.0][ij.1]
                        == '#') && (g[y + ij.0][x + ij.1] == my[0] || g[y + ij.0][x + ij.1] == my[1]),
            ).len() == 1
        },
{
    let pred = mine_pred(g, p, x, y, my);
    if p.len() > 0 {
        lemma_count_in_rect_cells(pred, p.len() as int, width(p));
        assert(cells_where(pred, p.len() as int, width(p)) =~= Set::new(
            |ij: (int, int)|
                0 <= ij.0 < p.len() && 0 <= ij.1 < p[0].len() && (p[ij.0][ij.1] == 'O' || p[ij.0][ij.1]
                    == '#') && (g[y + ij.0][x + ij.1] == my[0] || g[y + ij.0][x + ij.1] == my[1]),
        ));
        if g.len() > 0 {
            assert((forall|i: int, j: int|
                0 <= i < p.len() && 0 <= j < width(p) ==> !#[trigger] covers_opponent(g, p, x, y, my, opp, i, j))
                <==> (forall|i: int, j: int|
                0 <= i < p.len() && 0 <= j < p[0].len() && (p[i][j] == 'O' || p[i][j] == '#') ==> {
                    let b = #[trigger] g[y + i][x + j];
                    b == my[0] || b == my[1] || (b != opp[0] && b != opp[1])
                })) by {
                if forall|i: int, j: int|
                    0 <= i < p.len() && 0 <= j < width(p) ==> !#[trigger] covers_opponent(g, p, x, y, my, opp, i, j) {
                    assert forall|i: int, j: int|
                        0 <= i < p.len() && 0 <= j < p[0].len() && (p[i][j] == 'O' || p[i][j] == '#') implies {
                            let b = #[trigger] g[y + i][x + j];
                            b == my[0] || b == my[1] || (b != opp[0] && b != opp[1])
                        } by {
                        assert(!covers_opponent(g, p, x, y, my, opp, i, j));
                    }
                }
                if forall|i: int, j: int|
                    0 <= i < p.len() && 0 <= j < p[0].len() && (p[i][j] == 'O' || p[i][j] == '#') ==> {
                        let b = #[trigger] g[y + i][x + j];
                        b == my[0] || b == my[1] || (b != opp[0] && b != opp[1])
                    } {
                    assert forall|i: int, j: int|
                        0 <= i < p.len() && 0 <= j < width(p) implies !#[trigger] covers_opponent(
                        g,
                        p,
                        x,
                        y,
                        my,
                        opp,
                        i,
                        j,
                    ) by {
                        if is_filled(p[i][j]) {
                            let b = g[y + i][x + j];
                            assert(b == my[0] || b == my[1] || (b != opp[0] && b != opp[1]));
                        }
                    }
                }
            }
        }
    }
}

/// `a`, capped at 2: all a count of overlaps needs to tell 1 from more.
pub open spec fn min2(a: int) -> int {
    if a < 2 {
        a
    } else {
        2
    }
}

/// Returns true iff placing `piece` at board position (x=col, y=row) is legal:
/// exactly 1 filled piece cell overlaps `my_chars`, 0 overlap `opp_chars`,
/// and the piece fits entirely within the grid bounds.
pub fn is_valid_placement(
    grid: &[Vec<char>],
    piece: &[Vec<char>],
    x: usize,
    y: usize,
    my_chars: &[char; 2],
    opp_chars: &[char; 2],
) -> (res: bool)
    requires
        fits(view_grid(grid@), view_grid(piece@), x as int, y as int) ==> rows_readable(
            view_grid(grid@),
            view_grid(piece@),
            x as int,
            y as int,
            my_chars@,
            opp_chars@,
        ),
    ensures
        res == valid_placement(
            view_grid(grid@),
            view_grid(piece@),
            x as int,
            y as int,
            my_chars@,
            opp_chars@,
        ),
{
    let ghost g = view_grid(grid@);
    let ghost p = view_grid(piece@);
    let board_rows = grid.len();
    if board_rows == 0 {
        return false;
    }
    let board_cols = grid[0].len();
    let piece_rows = piece.len();
    if piece_rows == 0 {
        return false;
    }
    let piece_cols = piece[0].len();
    assert(g[0].len() == board_cols && p[0].len() == piece_cols);

    if piece_cols > board_cols || x > board_cols - piece_cols || piece_rows > board_rows || y
        > board_rows - piece_rows {
        return false;
    }
    let mut my_overlap: usize = 0;
    let mut pr: usize = 0;
    while pr < piece_rows
        invariant
            g == view_grid(grid@),
            p == view_grid(piece@),
            rows_readable(g, p, x as int, y as int, my_chars@, opp_chars@),
            forall|j: int| 0 <= j < pr ==> !#[trigger] short_row(p, j),
            board_rows == g.len(),
            piece_rows == p.len(),
            board_cols == width(g),
            piece_cols == width(p),
            fits(g, p, x as int, y as int),
            pr <= piece_rows,
            forall|i: int, j: int|
                0 <= i < pr && 0 <= j < piece_cols ==> !#[trigger] covers_opponent(
                    g,
                    p,
                    x as int,
                    y as int,
                    my_chars@,
                    opp_chars@,
                    i,
                    j,
                ),
            my_overlap == min2(
                count_in_rect(mine_pred(g, p, x as int, y as int, my_chars@), pr as int, piece_cols as int),
            ),
        decreases piece_rows - pr,
    {
        let mut pc: usize = 0;
        assert(g[y + pr].len() >= x + piece_cols);
        while pc < piece_cols
            invariant
                g == view_grid(grid@),
                p == view_grid(piece@),
                rows_readable(g, p, x as int, y as int, my_chars@, opp_chars@),
                forall|j: int| 0 <= j < pr ==> !#[trigger] short_row(p, j),
                pc <= p[pr as int].len(),
                board_rows == g.len(),
                piece_rows == p.len(),
                board_cols == width(g),
                piece_cols == width(p),
                fits(g, p, x as int, y as int),
                pr < piece_rows,
                g[y + pr].len() >= x + piece_cols,
                pc <= piece_cols,
                forall|i: int, j: int|
                    (0 <= i < pr && 0 <= j < piece_cols) || (i == pr && 0 <= j < pc)
                        ==> !#[trigger] covers_opponent(
                        g,
                        p,
                        x as int,
                        y as int,
                        my_chars@,
                        opp_chars@,
                        i,
                        j,
                    ),
                my_overlap == min2(
                    count_in_rect(mine_pred(g, p, x as int, y as int, my_chars@), pr as int, piece_cols as int)
                        + count_in_row(mine_pred(g, p, x as int, y as int, my_chars@), pr as int, pc as int),
                ),
            decreases piece_cols - pc,
        {
            proof {
                // Reaching the end of a row narrower than the first, with no
                // opponent cell met so far, would be reading past that row.
                if pc >= p[pr as int].len() {
                    assert(is_first_short(p, pr as int));
                    assert forall|i: int, j: int| read_before(p, pr as int, i, j) implies !#[trigger] covers_opponent(
                        g,
                        p,
                        x as int,
                        y as int,
                        my_chars@,
                        opp_chars@,
                        i,
                        j,
                    ) by {}
                    assert(reads_past_row(g, p, x as int, y as int, my_chars@, opp_chars@));
                }
            }
            let piece_cell = piece[pr][pc];
            if filled(piece_cell) {
                let board_cell = grid[y + pr][x + pc];
                assert(board_cell == under(g, x as int, y as int, pr as int, pc as int));
                if side_contains(my_chars, board_cell) {
                    if my_overlap < 2 {
                        my_overlap += 1;
                    }
                } else if side_contains(opp_chars, board_cell) {
                    assert(covers_opponent(
                        g,
                        p,
                        x as int,
                        y as int,
                        my_chars@,
                        opp_chars@,
                        pr as int,
                        pc as int,
                    ));
                    return false;
                }
            }
            pc += 1;
        }
        assert(!short_row(p, pr as int));
        pr += 1;
    }
    my_overlap == 1
}

/// Piece row `i` is narrower than the piece's first row.
pub open spec fn short_row(p: Seq<Seq<char>>, i: int) -> bool {
    p[i].len() < width(p)
}

/// Piece row `i` is the first row narrower than the piece's first row.
pub open spec fn is_first_short(p: Seq<Seq<char>>, i: int) -> bool {
    &&& 0 <= i < p.len()
    &&& short_row(p, i)
    &&& forall|j: int| 0 <= j < i ==> !#[trigger] short_row(p, j)
}

/// Piece cell `(pr, pc)` is read, in row-major order over the first row's
/// width, before the end of row `i`.
pub open spec fn read_before(p: Seq<Seq<char>>, i: int, pr: int, pc: int) -> bool {
    ||| (0 <= pr < i && 0 <= pc < width(p))
    ||| (pr == i && 0 <= pc < p[i].len())
}

/// The legality check, reading the piece row by row as wide as its first
/// row, runs past the end of a narrower row when the piece is put at column
/// `x`, row `y`: the piece fits, it has a row narrower than its first, and no
/// filled cell read before the end of the first such row lands on the
/// opponent (which would have ended the check first).
pub open spec fn reads_past_row(
    g: Seq<Seq<char>>,
    p: Seq<Seq<char>>,
    x: int,
    y: int,
    my: Seq<char>,
    opp: Seq<char>,
) -> bool {
    &&& fits(g, p, x, y)
    &&& exists|i: int|
        #[trigger] is_first_short(p, i) && forall|pr: int, pc: int|
            read_before(p, i, pr, pc) ==> !#[trigger] covers_opponent(g, p, x, y, my, opp, pr, pc)
}

/// Whether the legality check of `piece` at column `x`, row `y` would run
/// past the end of a piece row narrower than the first (see `reads_past_row`).
pub fn check_reads_past_row(
    grid: &[Vec<char>],
    piece: &[Vec<char>],
    x: usize,
    y: usize,
    my_chars: &[char; 2],
    opp_chars: &[char; 2],
) -> (res: bool)
    requires
        is_rect(view_grid(grid@), grid@.len() as int, width(view_grid(grid@))),
    ensures
        res == reads_past_row(view_grid(grid@), view_grid(piece@), x as int, y as int, my_chars@, opp_chars@),
{
    let ghost g = view_grid(grid@);
    let ghost p = view_grid(piece@);
    let board_rows = grid.len();
    if board_rows == 0 {
        return false;
    }
    let board_cols = grid[0].len();
    let piece_rows = piece.len();
    if piece_rows == 0 {
        return false;
    }
    let piece_cols = piece[0].len();
    assert(g[0].len() == board_cols && p[0].len() == piece_cols);
    if piece_cols > board_cols || x > board_cols - piece_cols || piece_rows > board_rows || y
        > board_rows - piece_rows {
        return false;
    }
    let mut pr: usize = 0;
    while pr < piece_rows
        invariant
            g == view_grid(grid@),
            p == view_grid(piece@),
            is_rect(g, g.len() as int, width(g)),
            board_rows == g.len(),
            piece_rows == p.len(),
            board_cols == width(g),
            piece_cols == width(p),
            fits(g, p, x as int, y as int),
            pr <= piece_rows,
            forall|j: int| 0 <= j < pr ==> !#[trigger] short_row(p, j),
            forall|i: int, j: int|
                0 <= i < pr && 0 <= j < piece_cols ==> !#[trigger] covers_opponent(
                    g,
                    p,
                    x as int,
                    y as int,
                    my_chars@,
                    opp_chars@,
                    i,
                    j,
                ),
        decreases piece_rows - pr,
    {
        let mut pc: usize = 0;
        while pc < piece_cols
            invariant
                g == view_grid(grid@),
                p == view_grid(piece@),
                is_rect(g, g.len() as int, width(g)),
                board_rows == g.len(),
                piece_rows == p.len(),
                board_cols == width(g),
                piece_cols == width(p),
                fits(g, p, x as int, y as int),
                pr < piece_rows,
                pc <= piece_cols,
                pc <= p[pr as int].len(),
                forall|j: int| 0 <= j < pr ==> !#[trigger] short_row(p, j),
                forall|i: int, j: int|
                    (0 <= i < pr && 0 <= j < piece_cols) || (i == pr && 0 <= j < pc)
                        ==> !#[trigger] covers_opponent(
                        g,
                        p,
                        x as int,
                        y as int,
                        my_chars@,
                        opp_chars@,
                        i,
                        j,
                    ),
            decreases piece_cols - pc,
        {
            if pc >= piece[pr].len() {
                proof {
                    assert(is_first_short(p, pr as int));
                    assert forall|i: int, j: int| read_before(p, pr as int, i, j) implies !#[trigger] covers_opponent(
                        g,
                        p,
                        x as int,
                        y as int,
                        my_chars@,
                        opp_chars@,
                        i,
                        j,
                    ) by {}
                }
                return true;
            }
            let piece_cell = piece[pr][pc];
            if filled(piece_cell) {
                assert(g[y + pr].len() == board_cols);
                let board_cell = grid[y + pr][x + pc];
                assert(board_cell == under(g, x as int, y as int, pr as int, pc as int));
                if !side_contains(my_chars, board_cell) && side_contains(opp_chars, board_cell) {
                    proof {
                        assert(covers_opponent(
                            g,
                            p,
                            x as int,
                            y as int,
                            my_chars@,
                            opp_chars@,
                            pr as int,
                            pc as int,
                        ));
                        assert forall|i: int| #[trigger] is_first_short(p, i) implies !(forall|
                            a: int,
                            b: int,
                        | read_before(p, i, a, b) ==> !#[trigger] covers_opponent(
                            g,
                            p,
                            x as int,
                            y as int,
                            my_chars@,
                            opp_chars@,
                            a,
                            b,
                        )) by {
                            assert(i >= pr);
                            assert(read_before(p, i, pr as int, pc as int));
                        }
                    }
                    return false;
                }
            }
            pc += 1;
        }
        assert(!short_row(p, pr as int));
        pr += 1;
    }
    proof {
        assert forall|i: int| !#[trigger] is_first_short(p, i) by {
            if 0 <= i < p.len() {
                assert(!short_row(p, i));
            }
        }
    }
    false
}

/// A floodable cell: an empty '.' that is not one of the blocking characters.
pub open spec fn is_open(g: Seq<Seq<char>>, blocked: Seq<char>, r: int, c: int) -> bool {
    g[r][c] == '.' && !blocked.contains(g[r][c])
}

/// `(r, c)` is one of the given start positions.
pub open spec fn is_start_pos(starts: Seq<(usize, usize)>, r: int, c: int) -> bool {
    exists|i: int| 0 <= i < starts.len() && #[trigger] starts[i] == (r as usize, c as usize) && r >= 0 && c >= 0
}

pub open spec fn flood_src(starts: Seq<(usize, usize)>) -> spec_fn(int, int) -> bool {
    |r: int, c: int| is_start_pos(starts, r, c)
}

pub open spec fn flood_pass(g: Seq<Seq<char>>, blocked: Seq<char>) -> spec_fn(int, int) -> bool {
    |r: int, c: int| is_open(g, blocked, r, c)
}

/// The cells that a flood from `starts` counts: open cells, other than the
/// starts themselves, joined to a start through open cells.
pub open spec fn flood_region(
    g: Seq<Seq<char>>,
    starts: Seq<(usize, usize)>,
    blocked: Seq<char>,
) -> Set<(int, int)> {
    Set::new(
        |rc: (int, int)|
            in_bounds(g.len() as int, width(g), rc.0, rc.1) && is_open(g, blocked, rc.0, rc.1)
                && !is_start_pos(starts, rc.0, rc.1) && reached(
                flood_src(starts),
                flood_pass(g, blocked),
                g.len() as int,
                width(g),
                rc.0,
                rc.1,
            ),
    )
}

/// The flood depends on its start positions only as a set: two lists that
/// hold the same positions, in any order and with any repetition, flood the
/// same region.
pub proof fn lemma_flood_same_starts(
    g: Seq<Seq<char>>,
    s1: Seq<(usize, usize)>,
    s2: Seq<(usize, usize)>,
    blocked: Seq<char>,
)
    requires
        s1.to_set() == s2.to_set(),
    ensures
        flood_region(g, s1, blocked) == flood_region(g, s2, blocked),
        flood_region(g, s1, blocked).len() == flood_region(g, s2, blocked).len(),
{
    assert forall|r: int, c: int| is_start_pos(s1, r, c) == is_start_pos(s2, r, c) by {
        let p = (r as usize, c as usize);
        if is_start_pos(s1, r, c) {
            let i = choose|i: int| 0 <= i < s1.len() && #[trigger] s1[i] == p && r >= 0 && c >= 0;
            assert(s1.to_set().contains(s1[i]));
            assert(s2.contains(p));
            let j = choose|j: int| 0 <= j < s2.len() && s2[j] == p;
            assert(s2[j] == p);
        }
        if is_start_pos(s2, r, c) {
            let j = choose|j: int| 0 <= j < s2.len() && #[trigger] s2[j] == p && r >= 0 && c >= 0;
            assert(s2.to_set().contains(s2[j]));
            assert(s1.contains(p));
            let i = choose|i: int| 0 <= i < s1.len() && s1[i] == p;
            assert(s1[i] == p);
        }
    }
    assert(flood_src(s1) =~= flood_src(s2));
    assert(flood_region(g, s1, blocked) =~= flood_region(g, s2, blocked));
}

/// Turning one cell into a blocking character never lets the flood reach
/// more: the region flooded afterwards lies inside the one flooded before,
/// so its count is no larger.
pub proof fn lemma_flood_blocking_shrinks(
    g: Seq<Seq<char>>,
    starts: Seq<(usize, usize)>,
    blocked: Seq<char>,
    r0: int,
    c0: int,
    b: char,
)
    requires
        rows_cover_width(g),
        0 <= r0 < g.len(),
        0 <= c0 < g[r0].len(),
        blocked.contains(b),
    ensures
        flood_region(g.update(r0, g[r0].update(c0, b)), starts, blocked).subset_of(
            flood_region(g, starts, blocked),
        ),
        flood_region(g.update(r0, g[r0].update(c0, b)), starts, blocked).len() <= flood_region(
            g,
            starts,
            blocked,
        ).len(),
{
    let g2 = g.update(r0, g[r0].update(c0, b));
    let rows = g.len() as int;
    let cols = width(g);
    assert(g2.len() == g.len());
    assert(width(g2) == cols);
    let pass1 = flood_pass(g, blocked);
    let pass2 = flood_pass(g2, blocked);
    assert forall|i: int, j: int| in_bounds(rows, cols, i, j) && #[trigger] pass2(i, j) implies pass1(
        i,
        j,
    ) by {
        assert(g[i].len() >= cols);
        if i == r0 && j == c0 {
            assert(g2[i][j] == b);
        } else {
            assert(g2[i][j] == g[i][j]);
        }
    }
    let region1 = flood_region(g, starts, blocked);
    let region2 = flood_region(g2, starts, blocked);
    assert forall|rc: (int, int)| region2.contains(rc) implies region1.contains(rc) by {
        assert(pass2(rc.0, rc.1));
        let k = choose|k: nat|
            #[trigger] within(flood_src(starts), pass2, rows, cols, rc.0, rc.1, k);
        lemma_within_pass_mono(flood_src(starts), pass1, pass2, rows, cols, rc.0, rc.1, k);
        assert(pass1(rc.0, rc.1));
    }
    lemma_board_cells_finite(rows, cols);
    assert(region1.subset_of(board_cells(rows, cols)));
    lemma_len_subset(region1, board_cells(rows, cols));
    lemma_len_subset(region2, region1);
}

/// The flood counts only empty '.' cells, and none holding a blocking
/// character: every cell of the region holds '.', is on the board and is
/// not a start.
pub proof fn lemma_flood_counts_empty_cells(
    g: Seq<Seq<char>>,
    starts: Seq<(usize, usize)>,
    blocked: Seq<char>,
    r: int,
    c: int,
)
    requires
        flood_region(g, starts, blocked).contains((r, c)),
    ensures
        g[r][c] == '.',
        !blocked.contains(g[r][c]),
        in_bounds(g.len() as int, width(g), r, c),
        forall|i: int| 0 <= i < starts.len() ==> starts[i] != (r as usize, c as usize),
{
    assert forall|i: int| 0 <= i < starts.len() implies starts[i] != (r as usize, c as usize) by {
        if starts[i] == (r as usize, c as usize) {
            assert(is_start_pos(starts, r, c));
        }
    }
}

/// Every counted cell is joined to the starts: it has an orthogonal
/// neighbour on the board that is a start position or is counted itself.
pub proof fn lemma_flood_joined(
    g: Seq<Seq<char>>,
    starts: Seq<(usize, usize)>,
    blocked: Seq<char>,
    r: int,
    c: int,
) -> (n: (int, int))
    requires
        flood_region(g, starts, blocked).contains((r, c)),
    ensures
        adjacent(r, c, n.0, n.1),
        in_bounds(g.len() as int, width(g), n.0, n.1),
        (exists|i: int| 0 <= i < starts.len() && starts[i] == (n.0 as usize, n.1 as usize))
            || flood_region(g, starts, blocked).contains(n),
{
    let rows = g.len() as int;
    let cols = width(g);
    let src = flood_src(starts);
    let pass = flood_pass(g, blocked);
    let k0 = choose|k: nat| #[trigger] within(src, pass, rows, cols, r, c, k);
    let k = lemma_first_within(src, pass, rows, cols, r, c, k0);
    assert(!src(r, c));
    if k == 0 {
        lemma_within_zero(src, pass, rows, cols, r, c);
    }
    let kp = (k - 1) as nat;
    let n = lemma_within_pred(src, pass, rows, cols, r, c, kp);
    if !src(n.0, n.1) {
        assert(reached(src, pass, rows, cols, n.0, n.1));
        if kp == 0 {
            lemma_within_zero(src, pass, rows, cols, n.0, n.1);
        }
        let m = lemma_first_within(src, pass, rows, cols, n.0, n.1, kp);
        if m == 0 {
            lemma_within_zero(src, pass, rows, cols, n.0, n.1);
        }
        lemma_within_pred(src, pass, rows, cols, n.0, n.1, (m - 1) as nat);
        assert(pass(n.0, n.1));
        assert(flood_region(g, starts, blocked).contains(n));
    } else {
        let i = choose|i: int| 0 <= i < starts.len() && #[trigger] starts[i] == (n.0 as usize, n.1 as usize) && n.0 >= 0 && n.1 >= 0;
        assert(starts[i] == (n.0 as usize, n.1 as usize));
    }
    n
}

/// The least number of steps within which a reached cell is reached.
proof fn lemma_first_within(
    src: spec_fn(int, int) -> bool,
    pass: spec_fn(int, int) -> bool,
    rows: int,
    cols: int,
    r: int,
    c: int,
    k: nat,
) -> (m: nat)
    requires
        within(src, pass, rows, cols, r, c, k),
    ensures
        m <= k,
        within(src, pass, rows, cols, r, c, m),
        m > 0 ==> !within(src, pass, rows, cols, r, c, (m - 1) as nat),
    decreases k,
{
    if k > 0 && within(src, pass, rows, cols, r, c, (k - 1) as nat) {
        lemma_first_within(src, pass, rows, cols, r, c, (k - 1) as nat)
    } else {
        k
    }
}

/// The flood spreads to every empty cell next to a counted cell or to a
/// start on the board: such a cell, unless it is a start itself, is counted.
pub proof fn lemma_flood_spreads(
    g: Seq<Seq<char>>,
    starts: Seq<(usize, usize)>,
    blocked: Seq<char>,
    r: int,
    c: int,
    r2: int,
    c2: int,
)
    requires
        in_bounds(g.len() as int, width(g), r, c),
        flood_region(g, starts, blocked).contains((r, c)) || exists|i: int|
            0 <= i < starts.len() && starts[i] == (r as usize, c as usize),
        adjacent(r, c, r2, c2),
        in_bounds(g.len() as int, width(g), r2, c2),
        g[r2][c2] == '.',
        !blocked.contains('.'),
        forall|i: int| 0 <= i < starts.len() ==> starts[i] != (r2 as usize, c2 as usize),
    ensures
        flood_region(g, starts, blocked).contains((r2, c2)),
{
    let rows = g.len() as int;
    let cols = width(g);
    let src = flood_src(starts);
    let pass = flood_pass(g, blocked);
    let k: nat = if flood_region(g, starts, blocked).contains((r, c)) {
        choose|k: nat| #[trigger] within(src, pass, rows, cols, r, c, k)
    } else {
        let i = choose|i: int| 0 <= i < starts.len() && starts[i] == (r as usize, c as usize);
        assert(is_start_pos(starts, r, c));
        lemma_src_within(src, pass, rows, cols, r, c, 0);
        0
    };
    assert(within(src, pass, rows, cols, r, c, k));
    assert(pass(r2, c2));
    lemma_step(src, pass, rows, cols, r, c, r2, c2, k);
    assert(reached(src, pass, rows, cols, r2, c2));
    assert(!is_start_pos(starts, r2, c2)) by {
        if is_start_pos(starts, r2, c2) {
            let i = choose|i: int| 0 <= i < starts.len() && #[trigger] starts[i] == (r2 as usize, c2 as usize) && r2 >= 0 && c2 >= 0;
            assert(starts[i] != (r2 as usize, c2 as usize));
        }
    }
}

/// A cell holding anything but '.' is neither counted nor flooded through:
/// changing it into any other character that is not '.' leaves the flooded
/// region as it was.
pub proof fn lemma_flood_ignores_filled(
    g: Seq<Seq<char>>,
    starts: Seq<(usize, usize)>,
    blocked: Seq<char>,
    r0: int,
    c0: int,
    b: char,
)
    requires
        rows_cover_width(g),
        0 <= r0 < g.len(),
        0 <= c0 < g[r0].len(),
        g[r0][c0] != '.',
        b != '.',
    ensures
        flood_region(g.update(r0, g[r0].update(c0, b)), starts, blocked) == flood_region(g, starts, blocked),
{
    let g2 = g.update(r0, g[r0].update(c0, b));
    let rows = g.len() as int;
    let cols = width(g);
    assert(g2.len() == g.len());
    assert(width(g2) == cols);
    let pass1 = flood_pass(g, blocked);
    let pass2 = flood_pass(g2, blocked);
    assert forall|i: int, j: int| in_bounds(rows, cols, i, j) implies pass1(i, j) == pass2(i, j) by {
        assert(g[i].len() >= cols);
        if i == r0 && j == c0 {
            assert(g2[i][j] == b);
        } else {
            assert(g2[i][j] == g[i][j]);
        }
    }
    assert forall|i: int, j: int| in_bounds(rows, cols, i, j) && #[trigger] pass2(i, j) implies pass1(i, j) by {
        assert(pass1(i, j) == pass2(i, j));
    }
    assert forall|i: int, j: int| in_bounds(rows, cols, i, j) && #[trigger] pass1(i, j) implies pass2(i, j) by {
        assert(pass1(i, j) == pass2(i, j));
    }
    let region1 = flood_region(g, starts, blocked);
    let region2 = flood_region(g2, starts, blocked);
    assert forall|rc: (int, int)| region2.contains(rc) implies region1.contains(rc) by {
        assert(pass2(rc.0, rc.1));
        let k = choose|k: nat| #[trigger] within(flood_src(starts), pass2, rows, cols, rc.0, rc.1, k);
        lemma_within_pass_mono(flood_src(starts), pass1, pass2, rows, cols, rc.0, rc.1, k);
        assert(pass1(rc.0, rc.1));
    }
    assert forall|rc: (int, int)| region1.contains(rc) implies region2.contains(rc) by {
        assert(pass1(rc.0, rc.1));
        let k = choose|k: nat| #[trigger] within(flood_src(starts), pass1, rows, cols, rc.0, rc.1, k);
        lemma_within_pass_mono(flood_src(starts), pass2, pass1, rows, cols, rc.0, rc.1, k);
        assert(pass2(rc.0, rc.1));
    }
    assert(region1 =~= region2);
}

fn false_grid(rows: usize, cols: usize) -> (res: Vec<Vec<bool>>)
    ensures
        res@.len() == rows,
        forall|r: int| 0 <= r < rows ==> (#[trigger] res@[r])@.len() == cols,
        forall|r: int, c: int| 0 <= r < rows && 0 <= c < cols ==> !(#[trigger] res@[r]@[c]),
{
    let mut res: Vec<Vec<bool>> = Vec::new();
    let mut r: usize = 0;
    while r < rows
        invariant
            r <= rows,
            res@.len() == r,
            forall|i: int| 0 <= i < r ==> (#[trigger] res@[i])@.len() == cols,
            forall|i: int, j: int| 0 <= i < r && 0 <= j < cols ==> !(#[trigger] res@[i]@[j]),
        decreases rows - r,
    {
        let mut row: Vec<bool> = Vec::new();
        let mut c: usize = 0;
        while c < cols
            invariant
                c <= cols,
                row@.len() == c,
                forall|j: int| 0 <= j < c ==> !(#[trigger] row@[j]),
            decreases cols - c,
        {
            row.push(false);
            c += 1;
        }
        res.push(row);
        r += 1;
    }
    res
}

/// Multi-source BFS from all `start_positions` simultaneously.
/// Counts reachable '.' cells. Expansion is blocked by any cell containing
/// a char in `blocked_chars`; blocked cells are not counted and not expanded.
pub fn flood_fill_count(
    grid: &[Vec<char>],
    start_positions: Vec<(usize, usize)>,
    blocked_chars: &[char],
) -> (count: usize)
    requires
        rows_cover_width(view_grid(grid@)),
        grid@.len() * width(view_grid(grid@)) <= usize::MAX,
    ensures
        count == flood_region(view_grid(grid@), start_positions@, blocked_chars@).len(),
        count <= grid@.len() * width(view_grid(grid@)),
{
    let ghost g = view_grid(grid@);
    let ghost starts = start_positions@;
    let ghost blocked = blocked_chars@;
    let ghost src = flood_src(starts);
    let ghost pass = flood_pass(g, blocked);
    let rows = grid.len();
    if rows == 0 {
        assert(flood_region(g, starts, blocked) =~= Set::empty());
        return 0;
    }
    let cols = grid[0].len();
    let ghost n = rows * cols;
    proof {
        lemma_int_range(0, n as int);
    }

    let mut visited = false_grid(rows, cols);
    let mut queue: VecDeque<(usize, usize)> = VecDeque::new();
    let mut count: usize = 0;
    let ghost mut order: Seq<(usize, usize)> = Seq::empty();
    let ghost mut seen: Set<int> = Set::empty();
    let ghost mut counted: Set<(int, int)> = Set::empty();

    let mut i: usize = 0;
    while i < start_positions.len()
        invariant
            g == view_grid(grid@),
            rows == g.len(),
            cols == width(g),
            n == rows * cols,
            n <= usize::MAX,
            set_int_range(0, n as int).finite(),
            set_int_range(0, n as int).len() == n,
            starts == start_positions@,
            src == flood_src(starts),
            i <= starts.len(),
            visited@.len() == rows,
            forall|r: int| 0 <= r < rows ==> (#[trigger] visited@[r])@.len() == cols,
            forall|r: int, c: int|
                in_bounds(rows as int, cols as int, r, c) ==> (#[trigger] visited@[r]@[c]
                    <==> exists|j: int| 0 <= j < i && #[trigger] starts[j] == (r as usize, c as usize)),
            queue@ == order,
            forall|j: int|
                0 <= j < order.len() ==> in_bounds(rows as int, cols as int, (#[trigger] order[j]).0 as int, order[j].1 as int)
                    && visited@[order[j].0 as int]@[order[j].1 as int] && src(order[j].0 as int, order[j].1 as int),
            forall|r: int, c: int|
                in_bounds(rows as int, cols as int, r, c) && #[trigger] visited@[r]@[c] ==> order.contains((r as usize, c as usize)),
            forall|r: int, c: int|
                in_bounds(rows as int, cols as int, r, c) ==> (#[trigger] visited@[r]@[c] <==> seen.contains(flat(cols as int, r, c))),
            seen.subset_of(set_int_range(0, n as int)),
            seen.finite(),
        decreases starts.len() - i,
    {
        let (r, c) = start_positions[i];
        if r < rows && c < cols && !visited[r][c] {
            visited[r][c] = true;
            queue.push_back((r, c));
            proof {
                lemma_flat_bounds(rows as int, cols as int, r as int, c as int);
                assert forall|r2: int, c2: int|
                    in_bounds(rows as int, cols as int, r2, c2) && flat(cols as int, r2, c2)
                        == flat(cols as int, r as int, c as int) implies r2 == r && c2 == c by {
                    lemma_flat_injective(cols as int, r2, c2, r as int, c as int);
                }
                seen = seen.insert(flat(cols as int, r as int, c as int));
                let ghost old_order = order;
                order = order.push((r, c));
                assert forall|r2: int, c2: int|
                    in_bounds(rows as int, cols as int, r2, c2) && #[trigger] visited@[r2]@[c2]
                        implies order.contains((r2 as usize, c2 as usize)) by {
                    if r2 == r && c2 == c {
                        assert(order[order.len() - 1] == (r2 as usize, c2 as usize));
                    } else {
                        assert(old_order.contains((r2 as usize, c2 as usize)));
                        let j = choose|j: int|
                            0 <= j < old_order.len() && old_order[j] == (r2 as usize, c2 as usize);
                        assert(order[j] == old_order[j]);
                    }
                }
            }
            assert(starts[i as int] == (r, c));
        }
        i += 1;
    }

    let ghost mut head: int = 0;
    proof {
        assert forall|r: int, c: int|
            in_bounds(rows as int, cols as int, r, c) && #[trigger] src(r, c) implies visited@[r]@[c] by {
            let j = choose|j: int|
                0 <= j < starts.len() && #[trigger] starts[j] == (r as usize, c as usize) && r >= 0
                    && c >= 0;
        }
        assert forall|j: int| 0 <= j < order.len() implies reached(
            src,
            pass,
            rows as int,
            cols as int,
            (#[trigger] order[j]).0 as int,
            order[j].1 as int,
        ) by {
            lemma_src_within(src, pass, rows as int, cols as int, order[j].0 as int, order[j].1 as int, 0);
        }
        lemma_len_subset(seen, set_int_range(0, n as int));
        assert(queue@ == order.subrange(head, order.len() as int));
    }
    while queue.len() > 0
        invariant
            g == view_grid(grid@),
            blocked == blocked_chars@,
            rows == g.len(),
            cols == width(g),
            n == rows * cols,
            n <= usize::MAX,
            set_int_range(0, n as int).finite(),
            set_int_range(0, n as int).len() == n,
            src == flood_src(starts),
            pass == flood_pass(g, blocked),
            rows_cover_width(g),
            visited@.len() == rows,
            forall|r: int| 0 <= r < rows ==> (#[trigger] visited@[r])@.len() == cols,
            0 <= head <= order.len(),
            queue@ == order.subrange(head, order.len() as int),
            forall|j: int|
                0 <= j < order.len() ==> in_bounds(
                    rows as int,
                    cols as int,
                    (#[trigger] order[j]).0 as int,
                    order[j].1 as int,
                ) && visited@[order[j].0 as int]@[order[j].1 as int] && (src(
                    order[j].0 as int,
                    order[j].1 as int,
                ) || pass(order[j].0 as int, order[j].1 as int)) && reached(
                    src,
                    pass,
                    rows as int,
                    cols as int,
                    order[j].0 as int,
                    order[j].1 as int,
                ),
            forall|r: int, c: int|
                in_bounds(rows as int, cols as int, r, c) && #[trigger] visited@[r]@[c] && (src(r, c)
                    || pass(r, c)) ==> order.contains((r as usize, c as usize)),
            forall|r: int, c: int|
                in_bounds(rows as int, cols as int, r, c) && #[trigger] src(r, c) ==> visited@[r]@[c],
            forall|j: int|
                0 <= j < head ==> all_neighbors(
                    |a: int, b: int| visited@[a]@[b],
                    rows as int,
                    cols as int,
                    (#[trigger] order[j]).0 as int,
                    order[j].1 as int,
                ),
            forall|r: int, c: int|
                in_bounds(rows as int, cols as int, r, c) ==> (#[trigger] counted.contains((r, c))
                    <==> visited@[r]@[c] && pass(r, c) && !src(r, c)),
            forall|rc: (int, int)|
                #[trigger] counted.contains(rc) ==> in_bounds(rows as int, cols as int, rc.0, rc.1),
            counted.finite(),
            count == counted.len(),
            count <= seen.len(),
            forall|r: int, c: int|
                in_bounds(rows as int, cols as int, r, c) ==> (#[trigger] visited@[r]@[c]
                    <==> seen.contains(flat(cols as int, r, c))),
            seen.subset_of(set_int_range(0, n as int)),
            seen.finite(),
            seen.len() <= n,
        decreases n - seen.len(), queue@.len(),
    {
        let front = queue.pop_front();
        let (r, c) = match front {
            Some(rc) => rc,
            None => (0, 0),
        };
        proof {
            assert(order[head] == (r, c));
            head = head + 1;
        }
        let ghost seen_before = seen;
        let ghost queue_before = queue@;
        let mut dir: usize = 0;
        while dir < 4
            invariant
                g == view_grid(grid@),
                blocked == blocked_chars@,
                rows == g.len(),
                cols == width(g),
                n == rows * cols,
                n <= usize::MAX,
                set_int_range(0, n as int).finite(),
                set_int_range(0, n as int).len() == n,
                src == flood_src(starts),
                pass == flood_pass(g, blocked),
                rows_cover_width(g),
                visited@.len() == rows,
                forall|r: int| 0 <= r < rows ==> (#[trigger] visited@[r])@.len() == cols,
                1 <= head <= order.len(),
                order[head - 1] == (r, c),
                dir <= 4,
                queue@ == order.subrange(head, order.len() as int),
                forall|j: int|
                    0 <= j < order.len() ==> in_bounds(
                        rows as int,
                        cols as int,
                        (#[trigger] order[j]).0 as int,
                        order[j].1 as int,
                    ) && visited@[order[j].0 as int]@[order[j].1 as int] && (src(
                        order[j].0 as int,
                        order[j].1 as int,
                    ) || pass(order[j].0 as int, order[j].1 as int)) && reached(
                        src,
                        pass,
                        rows as int,
                        cols as int,
                        order[j].0 as int,
                        order[j].1 as int,
                    ),
                forall|r: int, c: int|
                    in_bounds(rows as int, cols as int, r, c) && #[trigger] visited@[r]@[c] && (src(
                        r,
                        c,
                    ) || pass(r, c)) ==> order.contains((r as usize, c as usize)),
                forall|r: int, c: int|
                    in_bounds(rows as int, cols as int, r, c) && #[trigger] src(r, c)
                        ==> visited@[r]@[c],
                forall|j: int|
                    0 <= j < head - 1 ==> all_neighbors(
                        |a: int, b: int| visited@[a]@[b],
                        rows as int,
                        cols as int,
                        (#[trigger] order[j]).0 as int,
                        order[j].1 as int,
                    ),
                forall|d: int|
                    0 <= d < dir && in_bounds(
                        rows as int,
                        cols as int,
                        step_r(r as int, d),
                        step_c(c as int, d),
                    ) ==> #[trigger] visited@[step_r(r as int, d)]@[step_c(c as int, d)],
                forall|r: int, c: int|
                    in_bounds(rows as int, cols as int, r, c) ==> (#[trigger] counted.contains(
                        (r, c),
                    ) <==> visited@[r]@[c] && pass(r, c) && !src(r, c)),
                forall|rc: (int, int)|
                    #[trigger] counted.contains(rc) ==> in_bounds(
                        rows as int,
                        cols as int,
                        rc.0,
                        rc.1,
                    ),
                counted.finite(),
                count == counted.len(),
                count <= seen.len(),
                forall|r: int, c: int|
                    in_bounds(rows as int, cols as int, r, c) ==> (#[trigger] visited@[r]@[c]
                        <==> seen.contains(flat(cols as int, r, c))),
                seen.subset_of(set_int_range(0, n as int)),
                seen.finite(),
                seen.len() <= n,
                seen.len() >= seen_before.len(),
                seen.len() == seen_before.len() ==> queue@ == queue_before,
            decreases 4 - dir,
        {
            if let Some((nr, nc)) = neighbor(r, c, dir, rows, cols) {
                if !visited[nr][nc] {
                    visited[nr][nc] = true;
                    proof {
                        lemma_flat_bounds(rows as int, cols as int, nr as int, nc as int);
                        assert forall|r2: int, c2: int|
                            in_bounds(rows as int, cols as int, r2, c2) && flat(cols as int, r2, c2)
                                == flat(cols as int, nr as int, nc as int) implies r2 == nr && c2
                            == nc by {
                            lemma_flat_injective(cols as int, r2, c2, nr as int, nc as int);
                        }
                        seen = seen.insert(flat(cols as int, nr as int, nc as int));
                        lemma_len_subset(seen, set_int_range(0, n as int));
                        assert(!src(nr as int, nc as int));
                    }
                    assert(g[nr as int].len() >= cols);
                    let cell = grid[nr][nc];
                    assert(cell == g[nr as int][nc as int]);
                    if slice_contains(blocked_chars, cell) {
                    } else if cell == '.' {
                        proof {
                            let k = choose|k: nat|
                                #[trigger] within(src, pass, rows as int, cols as int, r as int, c as int, k);
                            lemma_step(
                                src,
                                pass,
                                rows as int,
                                cols as int,
                                r as int,
                                c as int,
                                nr as int,
                                nc as int,
                                k,
                            );
                            assert(!counted.contains((nr as int, nc as int)));
                            counted = counted.insert((nr as int, nc as int));
                            let ghost old_order = order;
                            order = order.push((nr, nc));
                            assert forall|r2: int, c2: int|
                                in_bounds(rows as int, cols as int, r2, c2) && #[trigger] visited@[r2]@[c2]
                                    && (src(r2, c2) || pass(r2, c2)) implies order.contains(
                                (r2 as usize, c2 as usize),
                            ) by {
                                if r2 == nr && c2 == nc {
                                    assert(order[order.len() - 1] == (r2 as usize, c2 as usize));
                                } else {
                                    assert(old_order.contains((r2 as usize, c2 as usize)));
                                    let j = choose|j: int|
                                        0 <= j < old_order.len() && old_order[j] == (
                                            r2 as usize,
                                            c2 as usize,
                                        );
                                    assert(order[j] == old_order[j]);
                                }
                            }
                        }
                        count += 1;
                        queue.push_back((nr, nc));
                        assert(queue@ =~= order.subrange(head, order.len() as int));
                    }
                }
            }
            dir += 1;
        }
        proof {
            lemma_directions(|a: int, b: int| visited@[a]@[b], rows as int, cols as int, r as int, c as int);
        }
    }
    proof {
        let mark = |a: int, b: int| visited@[a]@[b];
        let done = |a: int, b: int| order.contains((a as usize, b as usize));
        assert forall|i: int, j: int|
            in_bounds(rows as int, cols as int, i, j) && #[trigger] done(i, j) implies all_neighbors(
            mark,
            rows as int,
            cols as int,
            i,
            j,
        ) by {
            let idx = choose|idx: int| 0 <= idx < order.len() && order[idx] == (i as usize, j as usize);
            assert(order[idx].0 as int == i && order[idx].1 as int == j);
        }
        let region = flood_region(g, starts, blocked);
        assert forall|rc: (int, int)| region.contains(rc) implies counted.contains(rc) by {
            let k = choose|k: nat| #[trigger] within(src, pass, rows as int, cols as int, rc.0, rc.1, k);
            lemma_closure(src, pass, rows as int, cols as int, mark, done, rc.0, rc.1, k);
        }
        assert forall|rc: (int, int)| counted.contains(rc) implies region.contains(rc) by {
            assert(in_bounds(rows as int, cols as int, rc.0, rc.1));
            assert(order.contains((rc.0 as usize, rc.1 as usize)));
            let idx = choose|idx: int|
                0 <= idx < order.len() && order[idx] == (rc.0 as usize, rc.1 as usize);
            assert(order[idx].0 as int == rc.0 && order[idx].1 as int == rc.1);
        }
        assert(counted =~= region);
    }
    count
}

} // verus!
