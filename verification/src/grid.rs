//! Boards and pieces as rows of characters, and the characters that mark them.
use vstd::prelude::*;

verus! {

/// The rows of a board or piece, each row as its sequence of characters.
pub open spec fn view_grid(g: Seq<Vec<char>>) -> Seq<Seq<char>> {
    Seq::new(g.len(), |i: int| g[i]@)
}

/// Width of a board: the length of its first row, or 0 when it has none.
pub open spec fn width(g: Seq<Seq<char>>) -> int {
    if g.len() > 0 {
        g[0].len() as int
    } else {
        0
    }
}

/// Every row is at least as long as the first row.
pub open spec fn rows_cover_width(g: Seq<Seq<char>>) -> bool {
    forall|i: int| 0 <= i < g.len() ==> #[trigger] g[i].len() >= width(g)
}

/// Every one of the first `rows` rows holds exactly `cols` characters.
pub open spec fn is_rect(g: Seq<Seq<char>>, rows: int, cols: int) -> bool {
    &&& g.len() == rows
    &&& forall|i: int| 0 <= i < rows ==> #[trigger] g[i].len() == cols
}

/// `ch` is one of the two characters of a side (its territory and its last piece).
pub open spec fn side_has(side: Seq<char>, ch: char) -> bool {
    ch == side[0] || ch == side[1]
}

/// A piece cell that takes up room on the board.
pub open spec fn is_filled(ch: char) -> bool {
    ch == 'O' || ch == '#'
}

pub fn side_contains(side: &[char; 2], ch: char) -> (res: bool)
    ensures
        res == side_has(side@, ch),
{
    ch == side[0] || ch == side[1]
}

pub fn filled(ch: char) -> (res: bool)
    ensures
        res == is_filled(ch),
{
    ch == 'O' || ch == '#'
}

pub fn slice_contains(chars: &[char], ch: char) -> (res: bool)
    ensures
        res == chars@.contains(ch),
{
    let mut i: usize = 0;
    while i < chars.len()
        invariant
            i <= chars@.len(),
            forall|j: int| 0 <= j < i ==> chars@[j] != ch,
        decreases chars@.len() - i,
    {
        if chars[i] == ch {
            return true;
        }
        i += 1;
    }
    false
}

/// How many of the cells `(r, 0) .. (r, n - 1)` satisfy `pred`.
pub open spec fn count_in_row(pred: spec_fn(int, int) -> bool, r: int, n: int) -> int
    decreases n,
{
    if n <= 0 {
        0
    } else {
        count_in_row(pred, r, n - 1) + if pred(r, n - 1) {
            1int
        } else {
            0int
        }
    }
}

/// How many cells of the first `m` rows, each `w` wide, satisfy `pred`.
pub open spec fn count_in_rect(pred: spec_fn(int, int) -> bool, m: int, w: int) -> int
    decreases m,
{
    if m <= 0 {
        0
    } else {
        count_in_rect(pred, m - 1, w) + count_in_row(pred, m - 1, w)
    }
}

pub proof fn lemma_count_in_row_bounds(pred: spec_fn(int, int) -> bool, r: int, n: int)
    requires
        n >= 0,
    ensures
        0 <= count_in_row(pred, r, n) <= n,
    decreases n,
{
    if n > 0 {
        lemma_count_in_row_bounds(pred, r, n - 1);
    }
}

pub proof fn lemma_count_in_rect_bounds(pred: spec_fn(int, int) -> bool, m: int, w: int)
    requires
        m >= 0,
        w >= 0,
    ensures
        0 <= count_in_rect(pred, m, w) <= m * w,
    decreases m,
{
    if m > 0 {
        lemma_count_in_rect_bounds(pred, m - 1, w);
        lemma_count_in_row_bounds(pred, m - 1, w);
        assert((m - 1) * w + w == m * w) by (nonlinear_arith);
    }
}

/// The cells `(i, j)` with `0 <= i < m` and `0 <= j < w` that satisfy `pred`.
pub open spec fn cells_where(pred: spec_fn(int, int) -> bool, m: int, w: int) -> Set<(int, int)> {
    Set::new(|ij: (int, int)| 0 <= ij.0 < m && 0 <= ij.1 < w && pred(ij.0, ij.1))
}

proof fn lemma_count_in_row_cells(pred: spec_fn(int, int) -> bool, r: int, n: int)
    requires
        n >= 0,
    ensures
        Set::new(|ij: (int, int)| ij.0 == r && 0 <= ij.1 < n && pred(ij.0, ij.1)).finite(),
        count_in_row(pred, r, n) == Set::new(
            |ij: (int, int)| ij.0 == r && 0 <= ij.1 < n && pred(ij.0, ij.1),
        ).len(),
    decreases n,
{
    let cur = Set::new(|ij: (int, int)| ij.0 == r && 0 <= ij.1 < n && pred(ij.0, ij.1));
    if n == 0 {
        assert(cur =~= Set::<(int, int)>::empty());
    } else {
        lemma_count_in_row_cells(pred, r, n - 1);
        let prev = Set::new(|ij: (int, int)| ij.0 == r && 0 <= ij.1 < n - 1 && pred(ij.0, ij.1));
        if pred(r, n - 1) {
            assert(cur =~= prev.insert((r, n - 1)));
        } else {
            assert(cur =~= prev);
        }
    }
}

/// `count_in_rect` counts cells: it is the number of cells `(i, j)` in the
/// first `m` rows and `w` columns that satisfy `pred`.
pub proof fn lemma_count_in_rect_cells(pred: spec_fn(int, int) -> bool, m: int, w: int)
    requires
        m >= 0,
        w >= 0,
    ensures
        cells_where(pred, m, w).finite(),
        count_in_rect(pred, m, w) == cells_where(pred, m, w).len(),
    decreases m,
{
    if m == 0 {
        assert(cells_where(pred, m, w) =~= Set::<(int, int)>::empty());
    } else {
        lemma_count_in_rect_cells(pred, m - 1, w);
        lemma_count_in_row_cells(pred, m - 1, w);
        let row = Set::new(|ij: (int, int)| ij.0 == m - 1 && 0 <= ij.1 < w && pred(ij.0, ij.1));
        assert(cells_where(pred, m, w) =~= cells_where(pred, m - 1, w).union(row));
        assert(cells_where(pred, m - 1, w).disjoint(row));
        vstd::set_lib::lemma_set_disjoint_lens(cells_where(pred, m - 1, w), row);
    }
}

} // verus!
