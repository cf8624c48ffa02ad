//! Reachability on a rectangular board: which cells a multi-source
//! breadth-first search can reach, and in how many steps.
//!
//! A search starts from every in-bounds cell satisfying `src` and may step
//! to an orthogonal neighbour only when that neighbour satisfies `pass`.
use vstd::prelude::*;

verus! {

pub open spec fn in_bounds(rows: int, cols: int, r: int, c: int) -> bool {
    0 <= r < rows && 0 <= c < cols
}

/// Row-major position of `(r, c)` on a board `cols` cells wide.
pub open spec fn flat(cols: int, r: int, c: int) -> int {
    r * cols + c
}

/// `p` holds of every in-bounds orthogonal neighbour of `(r, c)`.
pub open spec fn all_neighbors(p: spec_fn(int, int) -> bool, rows: int, cols: int, r: int, c: int) -> bool {
    &&& (in_bounds(rows, cols, r - 1, c) ==> p(r - 1, c))
    &&& (in_bounds(rows, cols, r + 1, c) ==> p(r + 1, c))
    &&& (in_bounds(rows, cols, r, c - 1) ==> p(r, c - 1))
    &&& (in_bounds(rows, cols, r, c + 1) ==> p(r, c + 1))
}

/// `(r2, c2)` is one of the four orthogonal neighbours of `(r1, c1)`.
pub open spec fn adjacent(r1: int, c1: int, r2: int, c2: int) -> bool {
    ||| r2 == r1 - 1 && c2 == c1
    ||| r2 == r1 + 1 && c2 == c1
    ||| r2 == r1 && c2 == c1 - 1
    ||| r2 == r1 && c2 == c1 + 1
}

/// `(r, c)` lies on the board and is reached in at most `k` steps.
#[verifier::opaque]
pub open spec fn within(
    src: spec_fn(int, int) -> bool,
    pass: spec_fn(int, int) -> bool,
    rows: int,
    cols: int,
    r: int,
    c: int,
    k: nat,
) -> bool
    decreases k,
{
    in_bounds(rows, cols, r, c) && (src(r, c) || (k > 0 && (within(
        src,
        pass,
        rows,
        cols,
        r,
        c,
        (k - 1) as nat,
    ) || (pass(r, c) && (within(src, pass, rows, cols, r - 1, c, (k - 1) as nat) || within(
        src,
        pass,
        rows,
        cols,
        r + 1,
        c,
        (k - 1) as nat,
    ) || within(src, pass, rows, cols, r, c - 1, (k - 1) as nat) || within(
        src,
        pass,
        rows,
        cols,
        r,
        c + 1,
        (k - 1) as nat,
    ))))))
}

/// `(r, c)` is reached in some number of steps.
pub open spec fn reached(
    src: spec_fn(int, int) -> bool,
    pass: spec_fn(int, int) -> bool,
    rows: int,
    cols: int,
    r: int,
    c: int,
) -> bool {
    exists|k: nat| #[trigger] within(src, pass, rows, cols, r, c, k)
}

/// `k` is the least number of steps in which `(r, c)` is reached.
pub open spec fn is_level(
    src: spec_fn(int, int) -> bool,
    pass: spec_fn(int, int) -> bool,
    rows: int,
    cols: int,
    r: int,
    c: int,
    k: nat,
) -> bool {
    within(src, pass, rows, cols, r, c, k) && (k == 0 || !within(
        src,
        pass,
        rows,
        cols,
        r,
        c,
        (k - 1) as nat,
    ))
}

/// The breadth-first distance of a reached cell.
pub open spec fn level(
    src: spec_fn(int, int) -> bool,
    pass: spec_fn(int, int) -> bool,
    rows: int,
    cols: int,
    r: int,
    c: int,
) -> nat {
    choose|k: nat| is_level(src, pass, rows, cols, r, c, k)
}

/// A reached neighbour of `(r, c)` exists.
pub open spec fn touches_reached(
    src: spec_fn(int, int) -> bool,
    pass: spec_fn(int, int) -> bool,
    rows: int,
    cols: int,
    r: int,
    c: int,
) -> bool {
    ||| reached(src, pass, rows, cols, r - 1, c)
    ||| reached(src, pass, rows, cols, r + 1, c)
    ||| reached(src, pass, rows, cols, r, c - 1)
    ||| reached(src, pass, rows, cols, r, c + 1)
}

pub proof fn lemma_within_mono(
    src: spec_fn(int, int) -> bool,
    pass: spec_fn(int, int) -> bool,
    rows: int,
    cols: int,
    r: int,
    c: int,
    k1: nat,
    k2: nat,
)
    requires
        k1 <= k2,
        within(src, pass, rows, cols, r, c, k1),
    ensures
        within(src, pass, rows, cols, r, c, k2),
    decreases k2 - k1,
{
    reveal(within);
    if k1 < k2 {
        lemma_within_mono(src, pass, rows, cols, r, c, k1, (k2 - 1) as nat);
    }
}

pub proof fn lemma_level_unique(
    src: spec_fn(int, int) -> bool,
    pass: spec_fn(int, int) -> bool,
    rows: int,
    cols: int,
    r: int,
    c: int,
    k1: nat,
    k2: nat,
)
    requires
        is_level(src, pass, rows, cols, r, c, k1),
        is_level(src, pass, rows, cols, r, c, k2),
    ensures
        k1 == k2,
{
    reveal(within);
    if k1 < k2 {
        lemma_within_mono(src, pass, rows, cols, r, c, k1, (k2 - 1) as nat);
    } else if k2 < k1 {
        lemma_within_mono(src, pass, rows, cols, r, c, k2, (k1 - 1) as nat);
    }
}

proof fn lemma_some_level(
    src: spec_fn(int, int) -> bool,
    pass: spec_fn(int, int) -> bool,
    rows: int,
    cols: int,
    r: int,
    c: int,
    k: nat,
) -> (m: nat)
    requires
        within(src, pass, rows, cols, r, c, k),
    ensures
        m <= k,
        is_level(src, pass, rows, cols, r, c, m),
    decreases k,
{
    reveal(within);
    if k > 0 && within(src, pass, rows, cols, r, c, (k - 1) as nat) {
        lemma_some_level(src, pass, rows, cols, r, c, (k - 1) as nat)
    } else {
        k
    }
}

/// A cell reached within `k` steps has a level, and it is at most `k`.
pub proof fn lemma_level(
    src: spec_fn(int, int) -> bool,
    pass: spec_fn(int, int) -> bool,
    rows: int,
    cols: int,
    r: int,
    c: int,
    k: nat,
)
    requires
        within(src, pass, rows, cols, r, c, k),
    ensures
        is_level(src, pass, rows, cols, r, c, level(src, pass, rows, cols, r, c)),
        level(src, pass, rows, cols, r, c) <= k,
{
    let m = lemma_some_level(src, pass, rows, cols, r, c, k);
    let l = level(src, pass, rows, cols, r, c);
    assert(is_level(src, pass, rows, cols, r, c, l));
    lemma_level_unique(src, pass, rows, cols, r, c, m, l);
}

/// A source on the board is reached in any number of steps.
pub proof fn lemma_src_within(
    src: spec_fn(int, int) -> bool,
    pass: spec_fn(int, int) -> bool,
    rows: int,
    cols: int,
    r: int,
    c: int,
    k: nat,
)
    requires
        in_bounds(rows, cols, r, c),
        src(r, c),
    ensures
        within(src, pass, rows, cols, r, c, k),
{
    reveal(within);
}

/// A cell reached within `k + 1` steps, but not within `k`, is passable and
/// has a neighbour reached within `k`.
pub proof fn lemma_within_pred(
    src: spec_fn(int, int) -> bool,
    pass: spec_fn(int, int) -> bool,
    rows: int,
    cols: int,
    r: int,
    c: int,
    k: nat,
) -> (p: (int, int))
    requires
        within(src, pass, rows, cols, r, c, k + 1),
        !within(src, pass, rows, cols, r, c, k),
    ensures
        !src(r, c),
        pass(r, c),
        in_bounds(rows, cols, r, c),
        in_bounds(rows, cols, p.0, p.1),
        adjacent(r, c, p.0, p.1),
        within(src, pass, rows, cols, p.0, p.1, k),
{
    reveal(within);
    assert((k + 1 - 1) as nat == k);
    if src(r, c) {
        assert(within(src, pass, rows, cols, r, c, k));
    }
    let p = if within(src, pass, rows, cols, r - 1, c, k) {
        (r - 1, c)
    } else if within(src, pass, rows, cols, r + 1, c, k) {
        (r + 1, c)
    } else if within(src, pass, rows, cols, r, c - 1, k) {
        (r, c - 1)
    } else {
        (r, c + 1)
    };
    assert(within(src, pass, rows, cols, p.0, p.1, k));
    lemma_within_in_bounds(src, pass, rows, cols, p.0, p.1, k);
    p
}

/// A cell reached in zero steps is a source on the board.
pub proof fn lemma_within_zero(
    src: spec_fn(int, int) -> bool,
    pass: spec_fn(int, int) -> bool,
    rows: int,
    cols: int,
    r: int,
    c: int,
)
    requires
        within(src, pass, rows, cols, r, c, 0),
    ensures
        in_bounds(rows, cols, r, c),
        src(r, c),
{
    reveal(within);
}

/// A reached cell lies on the board.
pub proof fn lemma_within_in_bounds(
    src: spec_fn(int, int) -> bool,
    pass: spec_fn(int, int) -> bool,
    rows: int,
    cols: int,
    r: int,
    c: int,
    k: nat,
)
    requires
        within(src, pass, rows, cols, r, c, k),
    ensures
        in_bounds(rows, cols, r, c),
{
    reveal(within);
}

/// One step from a cell reached within `k` steps into a passable neighbour.
pub proof fn lemma_step(
    src: spec_fn(int, int) -> bool,
    pass: spec_fn(int, int) -> bool,
    rows: int,
    cols: int,
    pr: int,
    pc: int,
    r: int,
    c: int,
    k: nat,
)
    requires
        within(src, pass, rows, cols, pr, pc, k),
        in_bounds(rows, cols, r, c),
        pass(r, c),
        adjacent(pr, pc, r, c),
    ensures
        within(src, pass, rows, cols, r, c, k + 1),
{
    reveal(within);
    assert((k + 1 - 1) as nat == k);
}

/// A cell that is neither a source nor passable is never reached.
pub proof fn lemma_unreachable(
    src: spec_fn(int, int) -> bool,
    pass: spec_fn(int, int) -> bool,
    rows: int,
    cols: int,
    r: int,
    c: int,
    k: nat,
)
    requires
        !src(r, c),
        !pass(r, c),
    ensures
        !within(src, pass, rows, cols, r, c, k),
    decreases k,
{
    reveal(within);
    if k > 0 {
        lemma_unreachable(src, pass, rows, cols, r, c, (k - 1) as nat);
    }
}

/// A marking closed under the search's steps covers every reached cell:
/// sources are marked and processed, processed cells have their
/// neighbours marked, and marked passable cells are processed.
pub proof fn lemma_closure(
    src: spec_fn(int, int) -> bool,
    pass: spec_fn(int, int) -> bool,
    rows: int,
    cols: int,
    mark: spec_fn(int, int) -> bool,
    done: spec_fn(int, int) -> bool,
    r: int,
    c: int,
    k: nat,
)
    requires
        forall|i: int, j: int|
            in_bounds(rows, cols, i, j) && #[trigger] src(i, j) ==> mark(i, j) && done(i, j),
        forall|i: int, j: int|
            in_bounds(rows, cols, i, j) && #[trigger] done(i, j) ==> all_neighbors(
                mark,
                rows,
                cols,
                i,
                j,
            ),
        forall|i: int, j: int|
            in_bounds(rows, cols, i, j) && #[trigger] mark(i, j) && pass(i, j) ==> done(i, j),
        within(src, pass, rows, cols, r, c, k),
    ensures
        mark(r, c) && done(r, c),
    decreases k,
{
    reveal(within);
    if src(r, c) {
    } else if within(src, pass, rows, cols, r, c, (k - 1) as nat) {
        lemma_closure(src, pass, rows, cols, mark, done, r, c, (k - 1) as nat);
    } else {
        assert(pass(r, c));
        let (pr, pc) = if within(src, pass, rows, cols, r - 1, c, (k - 1) as nat) {
            (r - 1, c)
        } else if within(src, pass, rows, cols, r + 1, c, (k - 1) as nat) {
            (r + 1, c)
        } else if within(src, pass, rows, cols, r, c - 1, (k - 1) as nat) {
            (r, c - 1)
        } else {
            (r, c + 1)
        };
        lemma_closure(src, pass, rows, cols, mark, done, pr, pc, (k - 1) as nat);
        assert(in_bounds(rows, cols, pr, pc));
        assert(done(pr, pc));
        assert(all_neighbors(mark, rows, cols, pr, pc));
        assert(mark(r, c));
    }
}

/// A search whose passable cells are fewer reaches no more: what `pass2`
/// reaches within `k` steps, `pass1` reaches too when every on-board cell
/// passable under `pass2` is passable under `pass1`.
pub proof fn lemma_within_pass_mono(
    src: spec_fn(int, int) -> bool,
    pass1: spec_fn(int, int) -> bool,
    pass2: spec_fn(int, int) -> bool,
    rows: int,
    cols: int,
    r: int,
    c: int,
    k: nat,
)
    requires
        forall|i: int, j: int| in_bounds(rows, cols, i, j) && #[trigger] pass2(i, j) ==> pass1(i, j),
        within(src, pass2, rows, cols, r, c, k),
    ensures
        within(src, pass1, rows, cols, r, c, k),
    decreases k,
{
    reveal(within);
    if src(r, c) {
    } else if within(src, pass2, rows, cols, r, c, (k - 1) as nat) {
        lemma_within_pass_mono(src, pass1, pass2, rows, cols, r, c, (k - 1) as nat);
    } else {
        assert(pass2(r, c));
        let (pr, pc) = if within(src, pass2, rows, cols, r - 1, c, (k - 1) as nat) {
            (r - 1, c)
        } else if within(src, pass2, rows, cols, r + 1, c, (k - 1) as nat) {
            (r + 1, c)
        } else if within(src, pass2, rows, cols, r, c - 1, (k - 1) as nat) {
            (r, c - 1)
        } else {
            (r, c + 1)
        };
        lemma_within_pass_mono(src, pass1, pass2, rows, cols, pr, pc, (k - 1) as nat);
        assert(pass1(r, c));
    }
}

/// The cells of row `r` in columns `0..n`.
pub open spec fn row_cells(r: int, n: int) -> Set<(int, int)> {
    Set::new(|rc: (int, int)| rc.0 == r && 0 <= rc.1 < n)
}

/// The cells of a board of `rows` rows and `cols` columns.
pub open spec fn board_cells(rows: int, cols: int) -> Set<(int, int)> {
    Set::new(|rc: (int, int)| in_bounds(rows, cols, rc.0, rc.1))
}

proof fn lemma_row_cells_finite(r: int, n: int)
    ensures
        row_cells(r, n).finite(),
    decreases n,
{
    if n > 0 {
        lemma_row_cells_finite(r, n - 1);
        assert(row_cells(r, n) =~= row_cells(r, n - 1).insert((r, n - 1)));
    } else {
        assert(row_cells(r, n) =~= Set::<(int, int)>::empty());
    }
}

/// A board has finitely many cells.
pub proof fn lemma_board_cells_finite(rows: int, cols: int)
    ensures
        board_cells(rows, cols).finite(),
    decreases rows,
{
    if rows > 0 {
        lemma_board_cells_finite(rows - 1, cols);
        lemma_row_cells_finite(rows - 1, cols);
        assert(board_cells(rows, cols) =~= board_cells(rows - 1, cols).union(
            row_cells(rows - 1, cols),
        ));
    } else {
        assert(board_cells(rows, cols) =~= Set::<(int, int)>::empty());
    }
}

pub proof fn lemma_flat_bounds(rows: int, cols: int, r: int, c: int)
    requires
        in_bounds(rows, cols, r, c),
    ensures
        0 <= flat(cols, r, c) < rows * cols,
        flat(cols, r, c) + 1 <= rows * cols,
{
    assert(0 <= r * cols + c < rows * cols) by (nonlinear_arith)
        requires
            0 <= r < rows,
            0 <= c < cols,
    ;
}

/// Every cell of the board has its row-major position inside the board.
pub proof fn lemma_flat_bounds_all(rows: int, cols: int)
    ensures
        forall|i: int, j: int|
            in_bounds(rows, cols, i, j) ==> 0 <= #[trigger] flat(cols, i, j) < rows * cols,
{
    assert forall|i: int, j: int| in_bounds(rows, cols, i, j) implies 0 <= #[trigger] flat(
        cols,
        i,
        j,
    ) < rows * cols by {
        lemma_flat_bounds(rows, cols, i, j);
    }
}

pub proof fn lemma_flat_injective(cols: int, r1: int, c1: int, r2: int, c2: int)
    requires
        0 <= c1 < cols,
        0 <= c2 < cols,
        flat(cols, r1, c1) == flat(cols, r2, c2),
    ensures
        r1 == r2,
        c1 == c2,
{
    assert(r1 == r2) by (nonlinear_arith)
        requires
            0 <= c1 < cols,
            0 <= c2 < cols,
            r1 * cols + c1 == r2 * cols + c2,
    {
        if r1 < r2 {
            assert(r1 * cols + cols <= r2 * cols);
        } else if r2 < r1 {
            assert(r2 * cols + cols <= r1 * cols);
        }
    }
}

/// Row of the neighbour of `(r, c)` in direction `dir` (up, down, left, right).
pub open spec fn step_r(r: int, dir: int) -> int {
    if dir == 0 {
        r - 1
    } else if dir == 1 {
        r + 1
    } else {
        r
    }
}

/// Column of the neighbour of `(r, c)` in direction `dir` (up, down, left, right).
pub open spec fn step_c(c: int, dir: int) -> int {
    if dir == 2 {
        c - 1
    } else if dir == 3 {
        c + 1
    } else {
        c
    }
}

/// The neighbour of `(r, c)` in direction `dir`, when it lies on the board.
pub fn neighbor(r: usize, c: usize, dir: usize, rows: usize, cols: usize) -> (res: Option<
    (usize, usize),
>)
    requires
        dir < 4,
        r < rows,
        c < cols,
    ensures
        match res {
            Some((nr, nc)) => nr == step_r(r as int, dir as int) && nc == step_c(c as int, dir as int)
                && in_bounds(rows as int, cols as int, nr as int, nc as int),
            None => !in_bounds(
                rows as int,
                cols as int,
                step_r(r as int, dir as int),
                step_c(c as int, dir as int),
            ),
        },
{
    if dir == 0 {
        if r == 0 {
            None
        } else {
            Some((r - 1, c))
        }
    } else if dir == 1 {
        if r + 1 >= rows {
            None
        } else {
            Some((r + 1, c))
        }
    } else if dir == 2 {
        if c == 0 {
            None
        } else {
            Some((r, c - 1))
        }
    } else {
        if c + 1 >= cols {
            None
        } else {
            Some((r, c + 1))
        }
    }
}

/// The four directions cover exactly the orthogonal neighbours.
pub proof fn lemma_directions(p: spec_fn(int, int) -> bool, rows: int, cols: int, r: int, c: int)
    requires
        forall|d: int|
            0 <= d < 4 && in_bounds(rows, cols, step_r(r, d), step_c(c, d)) ==> #[trigger] p(
                step_r(r, d),
                step_c(c, d),
            ),
    ensures
        all_neighbors(p, rows, cols, r, c),
{
    assert(step_r(r, 0) == r - 1 && step_c(c, 0) == c);
    assert(step_r(r, 1) == r + 1 && step_c(c, 1) == c);
    assert(step_r(r, 2) == r && step_c(c, 2) == c - 1);
    assert(step_r(r, 3) == r && step_c(c, 3) == c + 1);
}

} // verus!
