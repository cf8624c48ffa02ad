//! Choosing where to put the piece: territory scoring by competing
//! breadth-first searches, and the greedy tie-breakers.
use vstd::prelude::*;
use vstd::arithmetic::div_mod::lemma_fundamental_div_mod;
use std::time::{Duration, Instant};
use std::collections::VecDeque;
use vstd::set_lib::{lemma_int_range, lemma_len_subset, set_int_range};
use crate::grid::{
    count_in_rect, count_in_row, filled, is_filled, lemma_count_in_rect_bounds,
    lemma_count_in_row_bounds, lemma_count_in_rect_cells, cells_where, rows_cover_width, side_contains, side_has, view_grid, width,
};
use crate::parser::GameState;
use crate::board::{check_reads_past_row, is_valid_placement, reads_past_row, valid_placement};
use crate::reach::{
    adjacent, all_neighbors, flat, in_bounds, is_level, lemma_closure, lemma_directions,
    lemma_flat_bounds, lemma_flat_bounds_all, lemma_flat_injective, lemma_level,
    lemma_level_unique, lemma_src_within, lemma_step, lemma_unreachable, lemma_within_in_bounds,
    lemma_within_mono, lemma_within_pred, lemma_within_zero, level, neighbor, reached, step_c,
    step_r, touches_reached, within,
};

verus! {

/// Distance given to a cell that no search reached.
pub const UNREACHED: u32 = 0xffff_ffffu32;

/// Distance given to a blocked cell next to the searched region.
pub const WALL: u32 = 0xffff_fffeu32;

/// The search starts from every cell holding one of `start`'s characters.
pub open spec fn bfs_src(g: Seq<Seq<char>>, start: Seq<char>) -> spec_fn(int, int) -> bool {
    |r: int, c: int| side_has(start, g[r][c])
}

/// The search may enter every cell not holding one of `blocked`'s characters.
pub open spec fn bfs_pass(g: Seq<Seq<char>>, blocked: Seq<char>) -> spec_fn(int, int) -> bool {
    |r: int, c: int| !side_has(blocked, g[r][c])
}

/// The distance that the search from `start` gives cell `(r, c)`: its
/// breadth-first distance when reached, `WALL` for a blocked cell next to
/// a reached one, and `UNREACHED` otherwise.
pub open spec fn bfs_dist(
    g: Seq<Seq<char>>,
    rows: int,
    cols: int,
    start: Seq<char>,
    blocked: Seq<char>,
    r: int,
    c: int,
) -> int {
    let src = bfs_src(g, start);
    let pass = bfs_pass(g, blocked);
    if reached(src, pass, rows, cols, r, c) {
        level(src, pass, rows, cols, r, c) as int
    } else if !pass(r, c) && touches_reached(src, pass, rows, cols, r, c) {
        WALL as int
    } else {
        UNREACHED as int
    }
}

/// The first `rows` rows of the board each hold at least `cols` cells.
pub open spec fn covers(g: Seq<Seq<char>>, rows: int, cols: int) -> bool {
    &&& g.len() >= rows
    &&& forall|i: int| 0 <= i < rows ==> #[trigger] g[i].len() >= cols
}

pub open spec fn dist_of(dist: Seq<u32>, cols: int, rc: (usize, usize)) -> int {
    dist[flat(cols, rc.0 as int, rc.1 as int)] as int
}

/// Once every cell of the current level has had its neighbours looked at,
/// every cell up to the level of the next queued cell has been discovered.
proof fn lemma_next_frontier(
    src: spec_fn(int, int) -> bool,
    pass: spec_fn(int, int) -> bool,
    ri: int,
    ci: int,
    dist: Seq<u32>,
    order: Seq<(usize, usize)>,
    head: int,
    d: int,
)
    requires
        1 <= head < order.len(),
        ri <= usize::MAX,
        ci <= usize::MAX,
        forall|i: int, j: int| in_bounds(ri, ci, i, j) ==> 0 <= #[trigger] flat(ci, i, j) < dist.len(),
        forall|j: int|
            0 <= j < order.len() ==> {
                let rc = #[trigger] order[j];
                &&& in_bounds(ri, ci, rc.0 as int, rc.1 as int)
                &&& dist_of(dist, ci, rc) < WALL
                &&& is_level(src, pass, ri, ci, rc.0 as int, rc.1 as int, dist_of(dist, ci, rc) as nat)
            },
        forall|j1: int, j2: int|
            0 <= j1 <= j2 < order.len() ==> dist_of(dist, ci, #[trigger] order[j1]) <= dist_of(
                dist,
                ci,
                #[trigger] order[j2],
            ),
        forall|i: int, j: int|
            in_bounds(ri, ci, i, j) && #[trigger] dist[flat(ci, i, j)] < WALL ==> order.contains(
                (i as usize, j as usize),
            ),
        forall|i: int, j: int|
            in_bounds(ri, ci, i, j) && #[trigger] dist[flat(ci, i, j)] == WALL ==> !pass(i, j)
                && !src(i, j),
        forall|j: int|
            0 <= j < head ==> all_neighbors(
                |a: int, b: int| dist[flat(ci, a, b)] != UNREACHED,
                ri,
                ci,
                (#[trigger] order[j]).0 as int,
                order[j].1 as int,
            ),
        forall|i: int, j: int, k: nat|
            in_bounds(ri, ci, i, j) && #[trigger] within(src, pass, ri, ci, i, j, k) && k <= d ==> dist[flat(ci, i, j)]
                != UNREACHED,
        dist_of(dist, ci, order[head - 1]) == d,
        dist_of(dist, ci, order[order.len() - 1]) <= d + 1,
    ensures
        forall|i: int, j: int, k: nat|
            in_bounds(ri, ci, i, j) && #[trigger] within(src, pass, ri, ci, i, j, k) && k <= dist_of(dist, ci, order[head])
                ==> dist[flat(ci, i, j)] != UNREACHED,
{
    let next = dist_of(dist, ci, order[head]);
    assert(next <= d + 1);
    assert forall|i: int, j: int, k: nat|
        in_bounds(ri, ci, i, j) && #[trigger] within(src, pass, ri, ci, i, j, k) && k <= next implies dist[flat(ci, i, j)]
        != UNREACHED by {
        if k <= d {
        } else if within(src, pass, ri, ci, i, j, d as nat) {
        } else {
            // (i, j) is first reached in exactly d + 1 steps, through a neighbour reached in d.
            assert(k == d + 1);
            let kp = (k - 1) as nat;
            assert(kp == d);
            let (pi, pj) = lemma_within_pred(src, pass, ri, ci, i, j, kp);
            assert(within(src, pass, ri, ci, pi, pj, kp));
            assert(in_bounds(ri, ci, pi, pj));
            assert(dist[flat(ci, pi, pj)] != UNREACHED);
            if dist[flat(ci, pi, pj)] == WALL {
                lemma_unreachable(src, pass, ri, ci, pi, pj, kp);
            }
            assert(order.contains((pi as usize, pj as usize)));
            let jp = choose|jp: int| 0 <= jp < order.len() && order[jp] == (pi as usize, pj as usize);
            let lp = dist_of(dist, ci, order[jp]);
            let rcp = order[jp];
            assert(rcp.0 as int == pi && rcp.1 as int == pj);
            assert(is_level(src, pass, ri, ci, rcp.0 as int, rcp.1 as int, lp as nat));
            if lp > d {
                lemma_within_mono(src, pass, ri, ci, pi, pj, kp, (lp - 1) as nat);
            }
            assert(lp <= d);
            if jp >= head {
                assert(dist_of(dist, ci, order[head]) <= dist_of(dist, ci, order[jp]));
            }
            assert(jp < head);
            assert(all_neighbors(
                |a: int, b: int| dist[flat(ci, a, b)] != UNREACHED,
                ri,
                ci,
                order[jp].0 as int,
                order[jp].1 as int,
            ));
        }
    }
}

/// When nothing is left to expand, every cell holds the distance `bfs_dist` describes.
proof fn lemma_bfs_done(
    src: spec_fn(int, int) -> bool,
    pass: spec_fn(int, int) -> bool,
    ri: int,
    ci: int,
    dist: Seq<u32>,
    order: Seq<(usize, usize)>,
    r: int,
    c: int,
)
    requires
        ri <= usize::MAX,
        ci <= usize::MAX,
        in_bounds(ri, ci, r, c),
        forall|i: int, j: int| in_bounds(ri, ci, i, j) ==> 0 <= #[trigger] flat(ci, i, j) < dist.len(),
        forall|j: int|
            0 <= j < order.len() ==> {
                let rc = #[trigger] order[j];
                &&& in_bounds(ri, ci, rc.0 as int, rc.1 as int)
                &&& dist_of(dist, ci, rc) < WALL
                &&& is_level(src, pass, ri, ci, rc.0 as int, rc.1 as int, dist_of(dist, ci, rc) as nat)
            },
        forall|i: int, j: int|
            in_bounds(ri, ci, i, j) && #[trigger] dist[flat(ci, i, j)] < WALL ==> order.contains(
                (i as usize, j as usize),
            ),
        forall|i: int, j: int|
            in_bounds(ri, ci, i, j) && #[trigger] dist[flat(ci, i, j)] == WALL ==> !pass(i, j)
                && !src(i, j) && touches_reached(src, pass, ri, ci, i, j),
        forall|i: int, j: int|
            in_bounds(ri, ci, i, j) && #[trigger] src(i, j) ==> dist[flat(ci, i, j)] < WALL,
        forall|j: int|
            0 <= j < order.len() ==> all_neighbors(
                |a: int, b: int| dist[flat(ci, a, b)] != UNREACHED,
                ri,
                ci,
                (#[trigger] order[j]).0 as int,
                order[j].1 as int,
            ),
    ensures
        dist[flat(ci, r, c)] as int == if reached(src, pass, ri, ci, r, c) {
            level(src, pass, ri, ci, r, c) as int
        } else if !pass(r, c) && touches_reached(src, pass, ri, ci, r, c) {
            WALL as int
        } else {
            UNREACHED as int
        },
{
    let mark = |a: int, b: int| dist[flat(ci, a, b)] != UNREACHED;
    let done = |a: int, b: int| dist[flat(ci, a, b)] < WALL;
    assert forall|i: int, j: int|
        in_bounds(ri, ci, i, j) && #[trigger] done(i, j) implies all_neighbors(mark, ri, ci, i, j) by {
        assert(order.contains((i as usize, j as usize)));
        let idx = choose|idx: int| 0 <= idx < order.len() && order[idx] == (i as usize, j as usize);
        assert(order[idx].0 as int == i && order[idx].1 as int == j);
    }
    assert forall|i: int, j: int|
        in_bounds(ri, ci, i, j) && #[trigger] mark(i, j) && pass(i, j) implies done(i, j) by {
    }
    let v = dist[flat(ci, r, c)];
    if reached(src, pass, ri, ci, r, c) {
        let k = choose|k: nat| #[trigger] within(src, pass, ri, ci, r, c, k);
        lemma_closure(src, pass, ri, ci, mark, done, r, c, k);
        assert(order.contains((r as usize, c as usize)));
        let idx = choose|idx: int| 0 <= idx < order.len() && order[idx] == (r as usize, c as usize);
        let rc = order[idx];
        assert(rc.0 as int == r && rc.1 as int == c);
        assert(is_level(src, pass, ri, ci, rc.0 as int, rc.1 as int, dist_of(dist, ci, rc) as nat));
        lemma_level(src, pass, ri, ci, r, c, k);
        lemma_level_unique(
            src,
            pass,
            ri,
            ci,
            r,
            c,
            v as nat,
            level(src, pass, ri, ci, r, c),
        );
    } else {
        if v < WALL {
            assert(order.contains((r as usize, c as usize)));
            let idx = choose|idx: int| 0 <= idx < order.len() && order[idx] == (r as usize, c as usize);
            let rc = order[idx];
            assert(rc.0 as int == r && rc.1 as int == c);
            assert(within(src, pass, ri, ci, r, c, v as nat));
        } else if v == UNREACHED {
            if !pass(r, c) && touches_reached(src, pass, ri, ci, r, c) {
                let (pi, pj) = if reached(src, pass, ri, ci, r - 1, c) {
                    (r - 1, c)
                } else if reached(src, pass, ri, ci, r + 1, c) {
                    (r + 1, c)
                } else if reached(src, pass, ri, ci, r, c - 1) {
                    (r, c - 1)
                } else {
                    (r, c + 1)
                };
                let k = choose|k: nat| #[trigger] within(src, pass, ri, ci, pi, pj, k);
                lemma_within_in_bounds(src, pass, ri, ci, pi, pj, k);
                lemma_closure(src, pass, ri, ci, mark, done, pi, pj, k);
                assert(all_neighbors(mark, ri, ci, pi, pj));
                assert(mark(r, c));
            }
        }
    }
}

/// Multi-source BFS from all `start_chars` territory cells.
pub fn bfs_distance(
    grid: &[Vec<char>],
    rows: usize,
    cols: usize,
    start_chars: &[char; 2],
    blocked_chars: &[char; 2],
) -> (dist: Vec<u32>)
    requires
        covers(view_grid(grid@), rows as int, cols as int),
        rows * cols + 2 <= u32::MAX,
    ensures
        dist@.len() == rows * cols,
        forall|r: int, c: int|
            in_bounds(rows as int, cols as int, r, c) ==> #[trigger] dist@[flat(cols as int, r, c)] as int
                == bfs_dist(view_grid(grid@), rows as int, cols as int, start_chars@, blocked_chars@, r, c),
{
    let ghost g = view_grid(grid@);
    let ghost src = bfs_src(g, start_chars@);
    let ghost pass = bfs_pass(g, blocked_chars@);
    let ghost ri = rows as int;
    let ghost ci = cols as int;
    let n = rows * cols;
    proof {
        lemma_int_range(0, n as int);
        lemma_flat_bounds_all(ri, ci);
    }
    let mut dist: Vec<u32> = Vec::new();
    while dist.len() < n
        invariant
            dist@.len() <= n,
            forall|i: int| 0 <= i < dist@.len() ==> dist@[i] == UNREACHED,
        decreases n - dist@.len(),
    {
        dist.push(UNREACHED);
    }
    let mut queue: VecDeque<(usize, usize)> = VecDeque::new();
    let ghost mut order: Seq<(usize, usize)> = Seq::empty();
    let ghost mut assigned: Set<int> = Set::empty();

    let mut r: usize = 0;
    while r < rows
        invariant
            g == view_grid(grid@),
            src == bfs_src(g, start_chars@),
            covers(g, ri, ci),
            ri == rows,
            ci == cols,
            n == rows * cols,
            n + 2 <= u32::MAX,
            forall|i: int, j: int| in_bounds(ri, ci, i, j) ==> 0 <= #[trigger] flat(ci, i, j) < n,
            set_int_range(0, n as int).finite(),
            set_int_range(0, n as int).len() == n,
            r <= rows,
            dist@.len() == n,
            forall|i: int, j: int|
                in_bounds(ri, ci, i, j) ==> #[trigger] dist@[flat(ci, i, j)] == if i < r && src(i, j) {
                    0u32
                } else {
                    UNREACHED
                },
            queue@ == order,
            forall|j: int|
                0 <= j < order.len() ==> in_bounds(ri, ci, (#[trigger] order[j]).0 as int, order[j].1 as int)
                    && src(order[j].0 as int, order[j].1 as int) && (order[j].0 as int) < r,
            forall|i: int, j: int|
                in_bounds(ri, ci, i, j) && i < r && #[trigger] src(i, j) ==> order.contains((i as usize, j as usize)),
            forall|i: int, j: int|
                in_bounds(ri, ci, i, j) ==> (#[trigger] assigned.contains(flat(ci, i, j)) <==> dist@[flat(ci, i, j)] < WALL),
            assigned.subset_of(set_int_range(0, n as int)),
            assigned.finite(),
            assigned.len() == order.len(),
        decreases rows - r,
    {
        let mut c: usize = 0;
        assert(g[r as int].len() >= cols);
        while c < cols
            invariant
                g == view_grid(grid@),
                src == bfs_src(g, start_chars@),
                covers(g, ri, ci),
                ri == rows,
                ci == cols,
                n == rows * cols,
                n + 2 <= u32::MAX,
                forall|i: int, j: int| in_bounds(ri, ci, i, j) ==> 0 <= #[trigger] flat(ci, i, j) < n,
                set_int_range(0, n as int).finite(),
                set_int_range(0, n as int).len() == n,
                r < rows,
                c <= cols,
                g[r as int].len() >= cols,
                dist@.len() == n,
                forall|i: int, j: int|
                    in_bounds(ri, ci, i, j) ==> #[trigger] dist@[flat(ci, i, j)] == if (i < r || (i == r
                        && j < c)) && src(i, j) {
                        0u32
                    } else {
                        UNREACHED
                    },
                queue@ == order,
                forall|j: int|
                    0 <= j < order.len() ==> in_bounds(ri, ci, (#[trigger] order[j]).0 as int, order[j].1 as int)
                        && src(order[j].0 as int, order[j].1 as int) && (order[j].0 as int) <= r,
                forall|i: int, j: int|
                    in_bounds(ri, ci, i, j) && (i < r || (i == r && j < c)) && #[trigger] src(i, j)
                        ==> order.contains((i as usize, j as usize)),
                forall|i: int, j: int|
                    in_bounds(ri, ci, i, j) ==> (#[trigger] assigned.contains(flat(ci, i, j))
                        <==> dist@[flat(ci, i, j)] < WALL),
                assigned.subset_of(set_int_range(0, n as int)),
                assigned.finite(),
                assigned.len() == order.len(),
            decreases cols - c,
        {
            proof {
                lemma_flat_bounds(ri, ci, r as int, c as int);
            }
            let ch = grid[r][c];
            assert(ch == g[r as int][c as int]);
            if side_contains(start_chars, ch) {
                let idx = r * cols + c;
                dist.set(idx, 0);
                queue.push_back((r, c));
                proof {
                    assert forall|i: int, j: int|
                        in_bounds(ri, ci, i, j) && flat(ci, i, j) == flat(ci, r as int, c as int)
                            implies i == r && j == c by {
                        lemma_flat_injective(ci, i, j, r as int, c as int);
                    }
                    assert(!assigned.contains(flat(ci, r as int, c as int)));
                    assigned = assigned.insert(flat(ci, r as int, c as int));
                    let ghost old_order = order;
                    order = order.push((r, c));
                    assert forall|i: int, j: int|
                        in_bounds(ri, ci, i, j) && (i < r || (i == r && j < c + 1)) && #[trigger] src(
                            i,
                            j,
                        ) implies order.contains((i as usize, j as usize)) by {
                        if i == r && j == c {
                            assert(order[order.len() - 1] == (i as usize, j as usize));
                        } else {
                            assert(old_order.contains((i as usize, j as usize)));
                            let k = choose|k: int|
                                0 <= k < old_order.len() && old_order[k] == (i as usize, j as usize);
                            assert(order[k] == old_order[k]);
                        }
                    }
                }
            }
            c += 1;
        }
        r += 1;
    }
    let ghost mut head: int = 0;
    proof {
        assert forall|j: int| 0 <= j < order.len() implies is_level(
            src,
            pass,
            ri,
            ci,
            (#[trigger] order[j]).0 as int,
            order[j].1 as int,
            dist_of(dist@, ci, order[j]) as nat,
        ) by {
            lemma_src_within(src, pass, ri, ci, order[j].0 as int, order[j].1 as int, 0);
        }
        assert forall|i: int, j: int, k: nat|
            in_bounds(ri, ci, i, j) && #[trigger] within(src, pass, ri, ci, i, j, k) && k <= 0
                implies dist@[flat(ci, i, j)] != UNREACHED by {
            lemma_within_zero(src, pass, ri, ci, i, j);
        }
        assert(queue@ == order.subrange(head, order.len() as int));
        lemma_len_subset(assigned, set_int_range(0, n as int));
    }
    while queue.len() > 0
        invariant
            g == view_grid(grid@),
            src == bfs_src(g, start_chars@),
            pass == bfs_pass(g, blocked_chars@),
            covers(g, ri, ci),
            ri == rows,
            ci == cols,
            n == rows * cols,
            n + 2 <= u32::MAX,
            forall|i: int, j: int| in_bounds(ri, ci, i, j) ==> 0 <= #[trigger] flat(ci, i, j) < n,
            set_int_range(0, n as int).finite(),
            set_int_range(0, n as int).len() == n,
            dist@.len() == n,
            forall|j: int|
                0 <= j < order.len() ==> {
                    let rc = #[trigger] order[j];
                    &&& in_bounds(ri, ci, rc.0 as int, rc.1 as int)
                    &&& dist_of(dist@, ci, rc) < WALL
                    &&& is_level(src, pass, ri, ci, rc.0 as int, rc.1 as int, dist_of(dist@, ci, rc) as nat)
                    &&& (src(rc.0 as int, rc.1 as int) || pass(rc.0 as int, rc.1 as int))
                    &&& dist_of(dist@, ci, rc) <= j
                },
            forall|j1: int, j2: int|
                0 <= j1 <= j2 < order.len() ==> dist_of(dist@, ci, #[trigger] order[j1]) <= dist_of(
                    dist@,
                    ci,
                    #[trigger] order[j2],
                ),
            forall|i: int, j: int|
                in_bounds(ri, ci, i, j) && #[trigger] dist@[flat(ci, i, j)] < WALL ==> order.contains(
                    (i as usize, j as usize),
                ),
            forall|i: int, j: int|
                in_bounds(ri, ci, i, j) && #[trigger] dist@[flat(ci, i, j)] == WALL ==> !pass(i, j)
                    && !src(i, j) && touches_reached(src, pass, ri, ci, i, j),
            forall|i: int, j: int|
                in_bounds(ri, ci, i, j) && #[trigger] src(i, j) ==> dist@[flat(ci, i, j)] < WALL,
            forall|i: int, j: int|
                in_bounds(ri, ci, i, j) ==> (#[trigger] assigned.contains(flat(ci, i, j))
                    <==> dist@[flat(ci, i, j)] < WALL),
            assigned.subset_of(set_int_range(0, n as int)),
            assigned.finite(),
            assigned.len() == order.len(),
            assigned.len() <= n,
            0 <= head <= order.len(),
            queue@ == order.subrange(head, order.len() as int),
            head < order.len() ==> dist_of(dist@, ci, order[order.len() - 1]) <= dist_of(
                dist@,
                ci,
                order[head],
            ) + 1,
            forall|j: int|
                0 <= j < head ==> all_neighbors(
                    |a: int, b: int| dist@[flat(ci, a, b)] != UNREACHED,
                    ri,
                    ci,
                    (#[trigger] order[j]).0 as int,
                    order[j].1 as int,
                ),
            head < order.len() ==> forall|i: int, j: int, k: nat|
                in_bounds(ri, ci, i, j) && #[trigger] within(src, pass, ri, ci, i, j, k) && k <= dist_of(dist@, ci, order[head])
                    ==> dist@[flat(ci, i, j)] != UNREACHED,
        decreases n - assigned.len(), queue@.len(),
    {
        let front = queue.pop_front();
        let (r, c) = match front {
            Some(rc) => rc,
            None => (0, 0),
        };
        proof {
            assert(order[head] == (r, c));
            head = head + 1;
            lemma_flat_bounds(ri, ci, r as int, c as int);
        }
        let d = dist[r * cols + c];
        let ghost assigned_before = assigned;
        let ghost queue_before = queue@;
        let mut dir: usize = 0;
        while dir < 4
            invariant
                g == view_grid(grid@),
                src == bfs_src(g, start_chars@),
                pass == bfs_pass(g, blocked_chars@),
                covers(g, ri, ci),
                ri == rows,
                ci == cols,
                n == rows * cols,
                n + 2 <= u32::MAX,
                forall|i: int, j: int| in_bounds(ri, ci, i, j) ==> 0 <= #[trigger] flat(ci, i, j) < n,
                set_int_range(0, n as int).finite(),
                set_int_range(0, n as int).len() == n,
                dist@.len() == n,
                forall|j: int|
                    0 <= j < order.len() ==> {
                        let rc = #[trigger] order[j];
                        &&& in_bounds(ri, ci, rc.0 as int, rc.1 as int)
                        &&& dist_of(dist@, ci, rc) < WALL
                        &&& is_level(src, pass, ri, ci, rc.0 as int, rc.1 as int, dist_of(dist@, ci, rc) as nat)
                        &&& (src(rc.0 as int, rc.1 as int) || pass(rc.0 as int, rc.1 as int))
                        &&& dist_of(dist@, ci, rc) <= j
                    },
                forall|j1: int, j2: int|
                    0 <= j1 <= j2 < order.len() ==> dist_of(dist@, ci, #[trigger] order[j1]) <= dist_of(
                        dist@,
                        ci,
                        #[trigger] order[j2],
                    ),
                forall|i: int, j: int|
                    in_bounds(ri, ci, i, j) && #[trigger] dist@[flat(ci, i, j)] < WALL ==> order.contains(
                        (i as usize, j as usize),
                    ),
                forall|i: int, j: int|
                    in_bounds(ri, ci, i, j) && #[trigger] dist@[flat(ci, i, j)] == WALL ==> !pass(i, j)
                        && !src(i, j) && touches_reached(src, pass, ri, ci, i, j),
                forall|i: int, j: int|
                    in_bounds(ri, ci, i, j) && #[trigger] src(i, j) ==> dist@[flat(ci, i, j)] < WALL,
                forall|i: int, j: int|
                    in_bounds(ri, ci, i, j) ==> (#[trigger] assigned.contains(flat(ci, i, j))
                        <==> dist@[flat(ci, i, j)] < WALL),
                assigned.subset_of(set_int_range(0, n as int)),
                assigned.finite(),
                assigned.len() == order.len(),
                assigned.len() <= n,
                1 <= head <= order.len(),
                order[head - 1] == (r, c),
                d as int == dist_of(dist@, ci, (r, c)),
                dir <= 4,
                queue@ == order.subrange(head, order.len() as int),
                dist_of(dist@, ci, order[order.len() - 1]) <= d + 1,
                forall|j: int|
                    0 <= j < head - 1 ==> all_neighbors(
                        |a: int, b: int| dist@[flat(ci, a, b)] != UNREACHED,
                        ri,
                        ci,
                        (#[trigger] order[j]).0 as int,
                        order[j].1 as int,
                    ),
                forall|dd: int|
                    0 <= dd < dir && in_bounds(ri, ci, step_r(r as int, dd), step_c(c as int, dd))
                        ==> #[trigger] dist@[flat(ci, step_r(r as int, dd), step_c(c as int, dd))]
                        != UNREACHED,
                forall|i: int, j: int, k: nat|
                    in_bounds(ri, ci, i, j) && #[trigger] within(src, pass, ri, ci, i, j, k) && k <= d ==> dist@[flat(ci, i, j)]
                        != UNREACHED,
                assigned.len() >= assigned_before.len(),
                assigned.len() == assigned_before.len() ==> queue@ == queue_before,
            decreases 4 - dir,
        {
            if let Some((nr, nc)) = neighbor(r, c, dir, rows, cols) {
                proof {
                    lemma_flat_bounds(ri, ci, nr as int, nc as int);
                }
                let idx = nr * cols + nc;
                if dist[idx] == UNREACHED {
                    proof {
                        assert forall|i: int, j: int|
                            in_bounds(ri, ci, i, j) && flat(ci, i, j) == flat(ci, nr as int, nc as int)
                                implies i == nr && j == nc by {
                            lemma_flat_injective(ci, i, j, nr as int, nc as int);
                        }
                        assert(!src(nr as int, nc as int));
                        assert(adjacent(r as int, c as int, nr as int, nc as int));
                    }
                    assert(g[nr as int].len() >= cols);
                    let ch = grid[nr][nc];
                    assert(ch == g[nr as int][nc as int]);
                    if side_contains(blocked_chars, ch) {
                        dist.set(idx, WALL);
                        proof {
                            assert(within(src, pass, ri, ci, r as int, c as int, d as nat));
                            assert(reached(src, pass, ri, ci, r as int, c as int));
                            assert(touches_reached(src, pass, ri, ci, nr as int, nc as int));
                        }
                    } else {
                        proof {
                            assert(pass(nr as int, nc as int));
                            lemma_step(src, pass, ri, ci, r as int, c as int, nr as int, nc as int, d as nat);
                            if within(src, pass, ri, ci, nr as int, nc as int, d as nat) {
                                assert(false);
                            }
                            assert(!assigned.contains(flat(ci, nr as int, nc as int)));
                            assigned = assigned.insert(flat(ci, nr as int, nc as int));
                            lemma_len_subset(assigned, set_int_range(0, n as int));
                            assert(order.len() + 1 <= n);
                        }
                        dist.set(idx, d + 1);
                        queue.push_back((nr, nc));
                        proof {
                            let ghost old_order = order;
                            order = order.push((nr, nc));
                            assert forall|i: int, j: int|
                                in_bounds(ri, ci, i, j) && #[trigger] dist@[flat(ci, i, j)] < WALL
                                    implies order.contains((i as usize, j as usize)) by {
                                if i == nr && j == nc {
                                    assert(order[order.len() - 1] == (i as usize, j as usize));
                                } else {
                                    assert(old_order.contains((i as usize, j as usize)));
                                    let k = choose|k: int|
                                        0 <= k < old_order.len() && old_order[k] == (
                                            i as usize,
                                            j as usize,
                                        );
                                    assert(order[k] == old_order[k]);
                                }
                            }
                            assert(queue@ =~= order.subrange(head, order.len() as int));
                        }
                    }
                }
            }
            dir += 1;
        }
        proof {
            lemma_directions(
                |a: int, b: int| dist@[flat(ci, a, b)] != UNREACHED,
                ri,
                ci,
                r as int,
                c as int,
            );
            if head < order.len() {
                lemma_next_frontier(src, pass, ri, ci, dist@, order, head, d as int);
            }
        }
    }
    proof {
        assert forall|r: int, c: int| in_bounds(ri, ci, r, c) implies dist@[flat(ci, r, c)] as int
            == bfs_dist(g, ri, ci, start_chars@, blocked_chars@, r, c) by {
            lemma_bfs_done(src, pass, ri, ci, dist@, order, r, c);
        }
    }
    dist
}

/// What an empty cell adds to my territory score: 1 when my search
/// reaches it strictly first, -1 when the opponent's does, 0 on a tie;
/// cells other than '.' add nothing.
pub open spec fn cell_vote(
    g: Seq<Seq<char>>,
    rows: int,
    cols: int,
    my: Seq<char>,
    opp: Seq<char>,
    r: int,
    c: int,
) -> int {
    if g[r][c] != '.' {
        0
    } else {
        let mine = bfs_dist(g, rows, cols, my, opp, r, c);
        let theirs = bfs_dist(g, rows, cols, opp, my, r, c);
        if mine < theirs {
            1
        } else if mine > theirs {
            -1
        } else {
            0
        }
    }
}

/// The sum of `cell_vote` over the first `n` cells of row `r`.
pub open spec fn votes_in_row(
    g: Seq<Seq<char>>,
    rows: int,
    cols: int,
    my: Seq<char>,
    opp: Seq<char>,
    r: int,
    n: int,
) -> int
    decreases n,
{
    if n <= 0 {
        0
    } else {
        votes_in_row(g, rows, cols, my, opp, r, n - 1) + cell_vote(g, rows, cols, my, opp, r, n - 1)
    }
}

/// The sum of `cell_vote` over the first `m` rows.
pub open spec fn votes_in_rows(
    g: Seq<Seq<char>>,
    rows: int,
    cols: int,
    my: Seq<char>,
    opp: Seq<char>,
    m: int,
) -> int
    decreases m,
{
    if m <= 0 {
        0
    } else {
        votes_in_rows(g, rows, cols, my, opp, m - 1) + votes_in_row(g, rows, cols, my, opp, m - 1, cols)
    }
}

/// Cells reached by `my` first minus cells reached by `opp` first, over all empty cells.
pub open spec fn territory(g: Seq<Seq<char>>, rows: int, cols: int, my: Seq<char>, opp: Seq<char>) -> int {
    votes_in_rows(g, rows, cols, my, opp, rows)
}

proof fn lemma_votes_in_row_swap(
    g: Seq<Seq<char>>,
    rows: int,
    cols: int,
    my: Seq<char>,
    opp: Seq<char>,
    r: int,
    n: int,
)
    ensures
        votes_in_row(g, rows, cols, my, opp, r, n) == -votes_in_row(g, rows, cols, opp, my, r, n),
    decreases n,
{
    if n > 0 {
        lemma_votes_in_row_swap(g, rows, cols, my, opp, r, n - 1);
    }
}

proof fn lemma_votes_in_rows_swap(
    g: Seq<Seq<char>>,
    rows: int,
    cols: int,
    my: Seq<char>,
    opp: Seq<char>,
    m: int,
)
    ensures
        votes_in_rows(g, rows, cols, my, opp, m) == -votes_in_rows(g, rows, cols, opp, my, m),
    decreases m,
{
    if m > 0 {
        lemma_votes_in_rows_swap(g, rows, cols, my, opp, m - 1);
        lemma_votes_in_row_swap(g, rows, cols, my, opp, m - 1, cols);
    }
}

/// Territory is zero-sum: what one side scores, the other side scores negated.
pub proof fn lemma_territory_antisymmetric(
    g: Seq<Seq<char>>,
    rows: int,
    cols: int,
    my: Seq<char>,
    opp: Seq<char>,
)
    ensures
        territory(g, rows, cols, my, opp) == -territory(g, rows, cols, opp, my),
{
    lemma_votes_in_rows_swap(g, rows, cols, my, opp, rows);
}

proof fn lemma_votes_in_row_bound(
    g: Seq<Seq<char>>,
    rows: int,
    cols: int,
    my: Seq<char>,
    opp: Seq<char>,
    r: int,
    n: int,
)
    requires
        n >= 0,
    ensures
        -n <= votes_in_row(g, rows, cols, my, opp, r, n) <= n,
    decreases n,
{
    if n > 0 {
        lemma_votes_in_row_bound(g, rows, cols, my, opp, r, n - 1);
    }
}

proof fn lemma_votes_in_rows_bound(
    g: Seq<Seq<char>>,
    rows: int,
    cols: int,
    my: Seq<char>,
    opp: Seq<char>,
    m: int,
)
    requires
        m >= 0,
        cols >= 0,
    ensures
        -(m * cols) <= votes_in_rows(g, rows, cols, my, opp, m) <= m * cols,
    decreases m,
{
    if m > 0 {
        lemma_votes_in_rows_bound(g, rows, cols, my, opp, m - 1);
        lemma_votes_in_row_bound(g, rows, cols, my, opp, m - 1, cols);
        assert((m - 1) * cols + cols == m * cols) by (nonlinear_arith);
    }
}

/// Distance 0 is given exactly to the cells holding one of the starting
/// side's two characters: every such cell on the board is a source of the
/// search, and no other cell is.
pub proof fn lemma_bfs_sources(
    g: Seq<Seq<char>>,
    rows: int,
    cols: int,
    start: Seq<char>,
    blocked: Seq<char>,
    r: int,
    c: int,
)
    requires
        in_bounds(rows, cols, r, c),
    ensures
        (bfs_dist(g, rows, cols, start, blocked, r, c) == 0) <==> (g[r][c] == start[0] || g[r][c]
            == start[1]),
{
    let src = bfs_src(g, start);
    let pass = bfs_pass(g, blocked);
    if g[r][c] == start[0] || g[r][c] == start[1] {
        assert(src(r, c));
        lemma_src_within(src, pass, rows, cols, r, c, 0);
        assert(reached(src, pass, rows, cols, r, c));
        lemma_level(src, pass, rows, cols, r, c, 0);
    } else if reached(src, pass, rows, cols, r, c) {
        let k = choose|k: nat| #[trigger] within(src, pass, rows, cols, r, c, k);
        lemma_level(src, pass, rows, cols, r, c, k);
        let l = level(src, pass, rows, cols, r, c);
        if l == 0 {
            lemma_within_zero(src, pass, rows, cols, r, c);
            assert(src(r, c));
        }
    }
}

/// A cell holding one of the blocking side's characters (and not one of the
/// starting side's) is never reached: its distance is `WALL` or `UNREACHED`.
pub proof fn lemma_bfs_blocked(
    g: Seq<Seq<char>>,
    rows: int,
    cols: int,
    start: Seq<char>,
    blocked: Seq<char>,
    r: int,
    c: int,
)
    requires
        g[r][c] != start[0],
        g[r][c] != start[1],
        g[r][c] == blocked[0] || g[r][c] == blocked[1],
    ensures
        bfs_dist(g, rows, cols, start, blocked, r, c) >= WALL,
{
    let src = bfs_src(g, start);
    let pass = bfs_pass(g, blocked);
    assert forall|k: nat| !#[trigger] within(src, pass, rows, cols, r, c, k) by {
        lemma_unreachable(src, pass, rows, cols, r, c, k);
    }
}

/// One step of the search: a cell next to a reached cell, and not holding a
/// blocking character, is at most one step farther.
pub proof fn lemma_bfs_step(
    g: Seq<Seq<char>>,
    rows: int,
    cols: int,
    start: Seq<char>,
    blocked: Seq<char>,
    r: int,
    c: int,
    r2: int,
    c2: int,
)
    requires
        in_bounds(rows, cols, r2, c2),
        adjacent(r, c, r2, c2),
        bfs_dist(g, rows, cols, start, blocked, r, c) < WALL,
        g[r2][c2] != blocked[0],
        g[r2][c2] != blocked[1],
    ensures
        bfs_dist(g, rows, cols, start, blocked, r2, c2) <= bfs_dist(g, rows, cols, start, blocked, r, c) + 1,
{
    let src = bfs_src(g, start);
    let pass = bfs_pass(g, blocked);
    assert(reached(src, pass, rows, cols, r, c));
    let k = choose|k: nat| #[trigger] within(src, pass, rows, cols, r, c, k);
    lemma_level(src, pass, rows, cols, r, c, k);
    let d = level(src, pass, rows, cols, r, c);
    assert(pass(r2, c2));
    lemma_step(src, pass, rows, cols, r, c, r2, c2, d);
    lemma_level(src, pass, rows, cols, r2, c2, d + 1);
}

/// Every reached cell at distance `d > 0` has a neighbour on the board at
/// distance exactly `d - 1`; so distances are shortest numbers of steps
/// from the starting side.
pub proof fn lemma_bfs_back_step(
    g: Seq<Seq<char>>,
    rows: int,
    cols: int,
    start: Seq<char>,
    blocked: Seq<char>,
    r: int,
    c: int,
) -> (n: (int, int))
    requires
        0 < bfs_dist(g, rows, cols, start, blocked, r, c) < WALL,
    ensures
        in_bounds(rows, cols, n.0, n.1),
        adjacent(r, c, n.0, n.1),
        bfs_dist(g, rows, cols, start, blocked, n.0, n.1) == bfs_dist(g, rows, cols, start, blocked, r, c) - 1,
{
    let src = bfs_src(g, start);
    let pass = bfs_pass(g, blocked);
    assert(reached(src, pass, rows, cols, r, c));
    let k = choose|k: nat| #[trigger] within(src, pass, rows, cols, r, c, k);
    lemma_level(src, pass, rows, cols, r, c, k);
    let d = level(src, pass, rows, cols, r, c);
    assert(d > 0);
    assert((d - 1 + 1) as nat == d);
    let n = lemma_within_pred(src, pass, rows, cols, r, c, (d - 1) as nat);
    lemma_level(src, pass, rows, cols, n.0, n.1, (d - 1) as nat);
    let l = level(src, pass, rows, cols, n.0, n.1);
    if l < d - 1 {
        lemma_step(src, pass, rows, cols, n.0, n.1, r, c, l);
        lemma_within_mono(src, pass, rows, cols, r, c, l + 1, (d - 1) as nat);
    }
    n
}

/// How one empty cell counts towards my territory: +1 when my search
/// reaches it in strictly fewer steps than the opponent's, -1 when the
/// opponent's reaches it in strictly fewer, and 0 only on an exact tie.
/// Cells holding anything but '.' count 0.
pub proof fn lemma_cell_vote(
    g: Seq<Seq<char>>,
    rows: int,
    cols: int,
    my: Seq<char>,
    opp: Seq<char>,
    r: int,
    c: int,
)
    ensures
        g[r][c] == '.' && bfs_dist(g, rows, cols, my, opp, r, c) < bfs_dist(g, rows, cols, opp, my, r, c)
            ==> cell_vote(g, rows, cols, my, opp, r, c) == 1,
        g[r][c] == '.' && bfs_dist(g, rows, cols, my, opp, r, c) > bfs_dist(g, rows, cols, opp, my, r, c)
            ==> cell_vote(g, rows, cols, my, opp, r, c) == -1,
        g[r][c] == '.' && bfs_dist(g, rows, cols, my, opp, r, c) == bfs_dist(g, rows, cols, opp, my, r, c)
            ==> cell_vote(g, rows, cols, my, opp, r, c) == 0,
        g[r][c] != '.' ==> cell_vote(g, rows, cols, my, opp, r, c) == 0,
{
}

/// The empty cells on the board that `my`'s search reaches in strictly
/// fewer steps than `opp`'s.
pub open spec fn won_cells(g: Seq<Seq<char>>, rows: int, cols: int, my: Seq<char>, opp: Seq<char>) -> Set<
    (int, int),
> {
    Set::new(
        |rc: (int, int)|
            in_bounds(rows, cols, rc.0, rc.1) && g[rc.0][rc.1] == '.' && bfs_dist(g, rows, cols, my, opp, rc.0, rc.1)
                < bfs_dist(g, rows, cols, opp, my, rc.0, rc.1),
    )
}

/// `won_cells` among the first `n` cells of row `r`.
spec fn won_in_row(
    g: Seq<Seq<char>>,
    rows: int,
    cols: int,
    my: Seq<char>,
    opp: Seq<char>,
    r: int,
    n: int,
) -> Set<(int, int)> {
    won_cells(g, rows, cols, my, opp).filter(|rc: (int, int)| rc.0 == r && rc.1 < n)
}

/// `won_cells` among the first `m` rows.
spec fn won_in_rows(g: Seq<Seq<char>>, rows: int, cols: int, my: Seq<char>, opp: Seq<char>, m: int) -> Set<
    (int, int),
> {
    won_cells(g, rows, cols, my, opp).filter(|rc: (int, int)| rc.0 < m)
}

proof fn lemma_votes_in_row_count(
    g: Seq<Seq<char>>,
    rows: int,
    cols: int,
    my: Seq<char>,
    opp: Seq<char>,
    r: int,
    n: int,
)
    requires
        0 <= r < rows,
        0 <= n <= cols,
    ensures
        won_in_row(g, rows, cols, my, opp, r, n).finite(),
        won_in_row(g, rows, cols, opp, my, r, n).finite(),
        votes_in_row(g, rows, cols, my, opp, r, n) == won_in_row(g, rows, cols, my, opp, r, n).len()
            - won_in_row(g, rows, cols, opp, my, r, n).len(),
    decreases n,
{
    let a = won_in_row(g, rows, cols, my, opp, r, n);
    let b = won_in_row(g, rows, cols, opp, my, r, n);
    if n == 0 {
        assert(a =~= Set::<(int, int)>::empty());
        assert(b =~= Set::<(int, int)>::empty());
    } else {
        lemma_votes_in_row_count(g, rows, cols, my, opp, r, n - 1);
        let a0 = won_in_row(g, rows, cols, my, opp, r, n - 1);
        let b0 = won_in_row(g, rows, cols, opp, my, r, n - 1);
        let cell = (r, n - 1);
        let mine = bfs_dist(g, rows, cols, my, opp, r, n - 1);
        let theirs = bfs_dist(g, rows, cols, opp, my, r, n - 1);
        if g[r][n - 1] == '.' && mine < theirs {
            assert(a =~= a0.insert(cell));
            assert(b =~= b0);
        } else if g[r][n - 1] == '.' && mine > theirs {
            assert(a =~= a0);
            assert(b =~= b0.insert(cell));
        } else {
            assert(a =~= a0);
            assert(b =~= b0);
        }
    }
}

proof fn lemma_votes_in_rows_count(
    g: Seq<Seq<char>>,
    rows: int,
    cols: int,
    my: Seq<char>,
    opp: Seq<char>,
    m: int,
)
    requires
        0 <= m <= rows,
        0 <= cols,
    ensures
        won_in_rows(g, rows, cols, my, opp, m).finite(),
        won_in_rows(g, rows, cols, opp, my, m).finite(),
        votes_in_rows(g, rows, cols, my, opp, m) == won_in_rows(g, rows, cols, my, opp, m).len()
            - won_in_rows(g, rows, cols, opp, my, m).len(),
    decreases m,
{
    let a = won_in_rows(g, rows, cols, my, opp, m);
    let b = won_in_rows(g, rows, cols, opp, my, m);
    if m == 0 {
        assert(a =~= Set::<(int, int)>::empty());
        assert(b =~= Set::<(int, int)>::empty());
    } else {
        lemma_votes_in_rows_count(g, rows, cols, my, opp, m - 1);
        lemma_votes_in_row_count(g, rows, cols, my, opp, m - 1, cols);
        let a0 = won_in_rows(g, rows, cols, my, opp, m - 1);
        let b0 = won_in_rows(g, rows, cols, opp, my, m - 1);
        let ar = won_in_row(g, rows, cols, my, opp, m - 1, cols);
        let br = won_in_row(g, rows, cols, opp, my, m - 1, cols);
        assert(a =~= a0.union(ar));
        assert(b =~= b0.union(br));
        assert(a0.disjoint(ar));
        assert(b0.disjoint(br));
        vstd::set_lib::lemma_set_disjoint_lens(a0, ar);
        vstd::set_lib::lemma_set_disjoint_lens(b0, br);
    }
}

/// The territory of a board is the number of empty cells my side reaches
/// in strictly fewer steps than the opponent, minus the number the
/// opponent reaches in strictly fewer steps than me.
pub proof fn lemma_territory_counts(g: Seq<Seq<char>>, rows: int, cols: int, my: Seq<char>, opp: Seq<char>)
    requires
        0 <= rows,
        0 <= cols,
    ensures
        won_cells(g, rows, cols, my, opp).finite(),
        won_cells(g, rows, cols, opp, my).finite(),
        territory(g, rows, cols, my, opp) == won_cells(g, rows, cols, my, opp).len() - won_cells(
            g,
            rows,
            cols,
            opp,
            my,
        ).len(),
{
    lemma_votes_in_rows_count(g, rows, cols, my, opp, rows);
    assert(won_in_rows(g, rows, cols, my, opp, rows) =~= won_cells(g, rows, cols, my, opp));
    assert(won_in_rows(g, rows, cols, opp, my, rows) =~= won_cells(g, rows, cols, opp, my));
}

/// Returns (cells reachable by `my_chars` first) − (cells reachable by
/// `opp_chars` first) over all empty '.' cells in the grid.
///
/// Each side does a multi-source BFS from its territory.  For each empty cell
/// the side that arrives with a shorter BFS distance "owns" it; ties are
/// split evenly (counted as 0 for both).
pub fn voronoi_diff(
    grid: &[Vec<char>],
    rows: usize,
    cols: usize,
    my_chars: &[char; 2],
    opp_chars: &[char; 2],
) -> (score: i64)
    requires
        covers(view_grid(grid@), rows as int, cols as int),
        rows * cols + 2 <= u32::MAX,
    ensures
        score == territory(view_grid(grid@), rows as int, cols as int, my_chars@, opp_chars@),
{
    let ghost g = view_grid(grid@);
    let ghost ri = rows as int;
    let ghost ci = cols as int;
    let my_dist = bfs_distance(grid, rows, cols, my_chars, opp_chars);
    let opp_dist = bfs_distance(grid, rows, cols, opp_chars, my_chars);

    let mut score: i64 = 0;
    let mut r: usize = 0;
    while r < rows
        invariant
            g == view_grid(grid@),
            covers(g, ri, ci),
            ri == rows,
            ci == cols,
            rows * cols + 2 <= u32::MAX,
            r <= rows,
            my_dist@.len() == rows * cols,
            opp_dist@.len() == rows * cols,
            forall|i: int, j: int|
                in_bounds(ri, ci, i, j) ==> #[trigger] my_dist@[flat(ci, i, j)] as int == bfs_dist(
                    g,
                    ri,
                    ci,
                    my_chars@,
                    opp_chars@,
                    i,
                    j,
                ),
            forall|i: int, j: int|
                in_bounds(ri, ci, i, j) ==> #[trigger] opp_dist@[flat(ci, i, j)] as int == bfs_dist(
                    g,
                    ri,
                    ci,
                    opp_chars@,
                    my_chars@,
                    i,
                    j,
                ),
            score == votes_in_rows(g, ri, ci, my_chars@, opp_chars@, r as int),
        decreases rows - r,
    {
        proof {
            lemma_votes_in_rows_bound(g, ri, ci, my_chars@, opp_chars@, r as int);
            assert(r * cols <= rows * cols) by (nonlinear_arith)
                requires
                    r < rows,
            ;
        }
        assert(g[r as int].len() >= cols);
        let mut c: usize = 0;
        while c < cols
            invariant
                g == view_grid(grid@),
                covers(g, ri, ci),
                ri == rows,
                ci == cols,
                rows * cols + 2 <= u32::MAX,
                r < rows,
                c <= cols,
                g[r as int].len() >= cols,
                r * cols <= rows * cols,
                -(r * cols) <= votes_in_rows(g, ri, ci, my_chars@, opp_chars@, r as int) <= r * cols,
                my_dist@.len() == rows * cols,
                opp_dist@.len() == rows * cols,
                forall|i: int, j: int|
                    in_bounds(ri, ci, i, j) ==> #[trigger] my_dist@[flat(ci, i, j)] as int == bfs_dist(
                        g,
                        ri,
                        ci,
                        my_chars@,
                        opp_chars@,
                        i,
                        j,
                    ),
                forall|i: int, j: int|
                    in_bounds(ri, ci, i, j) ==> #[trigger] opp_dist@[flat(ci, i, j)] as int == bfs_dist(
                        g,
                        ri,
                        ci,
                        opp_chars@,
                        my_chars@,
                        i,
                        j,
                    ),
                score == votes_in_rows(g, ri, ci, my_chars@, opp_chars@, r as int) + votes_in_row(
                    g,
                    ri,
                    ci,
                    my_chars@,
                    opp_chars@,
                    r as int,
                    c as int,
                ),
            decreases cols - c,
        {
            proof {
                lemma_votes_in_row_bound(g, ri, ci, my_chars@, opp_chars@, r as int, c as int);
                lemma_flat_bounds(ri, ci, r as int, c as int);
            }
            let ch = grid[r][c];
            assert(ch == g[r as int][c as int]);
            if ch == '.' {
                let idx = r * cols + c;
                let mine = my_dist[idx];
                let theirs = opp_dist[idx];
                assert(idx as int == flat(ci, r as int, c as int));
                assert(mine as int == bfs_dist(g, ri, ci, my_chars@, opp_chars@, r as int, c as int));
                assert(theirs as int == bfs_dist(g, ri, ci, opp_chars@, my_chars@, r as int, c as int));
                if mine < theirs {
                    score += 1;
                } else if mine > theirs {
                    score -= 1;
                }
            }
            c += 1;
        }
        r += 1;
    }
    score
}

/// Piece cells that are filled and land on an empty '.' board cell.
pub open spec fn empty_under(g: Seq<Seq<char>>, p: Seq<Seq<char>>, x: int, y: int) -> spec_fn(
    int,
    int,
) -> bool {
    |pr: int, pc: int| is_filled(p[pr][pc]) && g[y + pr][x + pc] == '.'
}

/// The number of empty board cells the piece would take at column `x`, row `y`.
pub open spec fn empty_covered(s: GameState, x: int, y: int) -> int {
    count_in_rect(empty_under(s.board(), s.shape(), x, y), s.piece_rows as int, s.piece_cols as int)
}

/// The piece, put at column `x`, row `y`, lies within the board.
pub open spec fn piece_inside(s: GameState, x: int, y: int) -> bool {
    x + s.piece_cols <= s.cols && y + s.piece_rows <= s.rows
}

pub fn count_empty_covered(state: &GameState, x: usize, y: usize) -> (count: usize)
    requires
        covers(state.board(), state.rows as int, state.cols as int),
        covers(state.shape(), state.piece_rows as int, state.piece_cols as int),
        piece_inside(*state, x as int, y as int),
        state.piece_rows * state.piece_cols <= usize::MAX,
    ensures
        count == empty_covered(*state, x as int, y as int),
        count <= state.piece_rows * state.piece_cols,
{
    let ghost g = state.board();
    let ghost p = state.shape();
    let ghost pred = empty_under(g, p, x as int, y as int);
    let ghost w = state.piece_cols as int;
    let mut count: usize = 0;
    let mut pr: usize = 0;
    while pr < state.piece_rows
        invariant
            covers(state.board(), state.rows as int, state.cols as int),
            covers(state.shape(), state.piece_rows as int, state.piece_cols as int),
            piece_inside(*state, x as int, y as int),
            g == state.board(),
            p == state.shape(),
            pred == empty_under(g, p, x as int, y as int),
            w == state.piece_cols,
            state.piece_rows * state.piece_cols <= usize::MAX,
            pr <= state.piece_rows,
            count == count_in_rect(pred, pr as int, w),
        decreases state.piece_rows - pr,
    {
        proof {
            lemma_count_in_rect_bounds(pred, pr as int, w);
            assert(pr * w + w <= state.piece_rows * w) by (nonlinear_arith)
                requires
                    pr < state.piece_rows,
                    w >= 0,
            ;
        }
        assert(p[pr as int].len() >= w);
        assert(g[y + pr].len() >= state.cols);
        let mut pc: usize = 0;
        while pc < state.piece_cols
            invariant
                covers(state.board(), state.rows as int, state.cols as int),
                covers(state.shape(), state.piece_rows as int, state.piece_cols as int),
                piece_inside(*state, x as int, y as int),
                g == state.board(),
                p == state.shape(),
                pred == empty_under(g, p, x as int, y as int),
                w == state.piece_cols,
                state.piece_rows * state.piece_cols <= usize::MAX,
                pr < state.piece_rows,
                pc <= state.piece_cols,
                p[pr as int].len() >= w,
                g[y + pr].len() >= state.cols,
                count_in_rect(pred, pr as int, w) <= pr * w,
                pr * w + w <= state.piece_rows * w,
                count == count_in_rect(pred, pr as int, w) + count_in_row(pred, pr as int, pc as int),
            decreases state.piece_cols - pc,
        {
            proof {
                lemma_count_in_row_bounds(pred, pr as int, pc as int);
            }
            let cell = state.piece[pr][pc];
            if filled(cell) && state.grid[y + pr][x + pc] == '.' {
                count += 1;
            }
            pc += 1;
        }
        pr += 1;
    }
    proof {
        lemma_count_in_rect_bounds(pred, state.piece_rows as int, w);
    }
    count
}

/// The opponent cells among the first `n` cells of row `r`, left to right.
pub open spec fn opp_in_row(g: Seq<Seq<char>>, opp: Seq<char>, r: int, n: int) -> Seq<(usize, usize)>
    decreases n,
{
    if n <= 0 {
        Seq::empty()
    } else {
        let before = opp_in_row(g, opp, r, n - 1);
        if side_has(opp, g[r][n - 1]) {
            before.push((r as usize, (n - 1) as usize))
        } else {
            before
        }
    }
}

/// The opponent cells among the first `m` rows, in row-major order.
pub open spec fn opp_in_rows(g: Seq<Seq<char>>, opp: Seq<char>, m: int, cols: int) -> Seq<
    (usize, usize),
>
    decreases m,
{
    if m <= 0 {
        Seq::empty()
    } else {
        opp_in_rows(g, opp, m - 1, cols) + opp_in_row(g, opp, m - 1, cols)
    }
}

/// Every cell of the board holding one of the opponent's characters, in row-major order.
pub open spec fn opp_cells(s: GameState) -> Seq<(usize, usize)> {
    opp_in_rows(s.board(), s.opp_chars@, s.rows as int, s.cols as int)
}

proof fn lemma_opp_in_row_inside(g: Seq<Seq<char>>, opp: Seq<char>, r: int, n: int, rows: int, cols: int)
    requires
        0 <= r < rows,
        n <= cols,
        rows <= usize::MAX,
        cols <= usize::MAX,
    ensures
        forall|i: int|
            0 <= i < opp_in_row(g, opp, r, n).len() ==> (#[trigger] opp_in_row(g, opp, r, n)[i]).0
                < rows && opp_in_row(g, opp, r, n)[i].1 < cols,
    decreases n,
{
    if n > 0 {
        lemma_opp_in_row_inside(g, opp, r, n - 1, rows, cols);
        let before = opp_in_row(g, opp, r, n - 1);
        if side_has(opp, g[r][n - 1]) {
            let after = before.push((r as usize, (n - 1) as usize));
            assert forall|i: int| 0 <= i < after.len() implies (#[trigger] after[i]).0 < rows
                && after[i].1 < cols by {
                if i < before.len() {
                    assert(after[i] == before[i]);
                }
            }
        }
    }
}

proof fn lemma_opp_in_rows_inside(g: Seq<Seq<char>>, opp: Seq<char>, m: int, rows: int, cols: int)
    requires
        m <= rows,
        rows <= usize::MAX,
        cols <= usize::MAX,
    ensures
        forall|i: int|
            0 <= i < opp_in_rows(g, opp, m, cols).len() ==> (#[trigger] opp_in_rows(
                g,
                opp,
                m,
                cols,
            )[i]).0 < rows && opp_in_rows(g, opp, m, cols)[i].1 < cols,
    decreases m,
{
    if m > 0 {
        lemma_opp_in_rows_inside(g, opp, m - 1, rows, cols);
        lemma_opp_in_row_inside(g, opp, m - 1, cols, rows, cols);
        let a = opp_in_rows(g, opp, m - 1, cols);
        let b = opp_in_row(g, opp, m - 1, cols);
        assert forall|i: int| 0 <= i < (a + b).len() implies (#[trigger] (a + b)[i]).0 < rows && (a
            + b)[i].1 < cols by {
            if i < a.len() {
                assert((a + b)[i] == a[i]);
            } else {
                assert((a + b)[i] == b[i - a.len()]);
            }
        }
    }
}

/// Every opponent cell lies on the board.
pub proof fn lemma_opp_cells_inside(s: GameState)
    ensures
        forall|i: int|
            0 <= i < opp_cells(s).len() ==> (#[trigger] opp_cells(s)[i]).0 < s.rows && opp_cells(
                s,
            )[i].1 < s.cols,
{
    lemma_opp_in_rows_inside(s.board(), s.opp_chars@, s.rows as int, s.rows as int, s.cols as int);
}

proof fn lemma_opp_in_row_exact(g: Seq<Seq<char>>, opp: Seq<char>, r: int, n: int)
    requires
        0 <= r <= usize::MAX,
        n <= usize::MAX,
    ensures
        forall|i: int|
            0 <= i < opp_in_row(g, opp, r, n).len() ==> {
                let rc = #[trigger] opp_in_row(g, opp, r, n)[i];
                &&& rc.0 == r
                &&& 0 <= rc.1 < n
                &&& (g[r][rc.1 as int] == opp[0] || g[r][rc.1 as int] == opp[1])
            },
        forall|c: int|
            0 <= c < n && (g[r][c] == opp[0] || g[r][c] == opp[1]) ==> #[trigger] opp_in_row(g, opp, r, n).contains(
                (r as usize, c as usize),
            ),
    decreases n,
{
    if n > 0 {
        lemma_opp_in_row_exact(g, opp, r, n - 1);
        let before = opp_in_row(g, opp, r, n - 1);
        let after = opp_in_row(g, opp, r, n);
        assert forall|i: int| 0 <= i < after.len() implies {
            let rc = #[trigger] after[i];
            &&& rc.0 == r
            &&& 0 <= rc.1 < n
            &&& (g[r][rc.1 as int] == opp[0] || g[r][rc.1 as int] == opp[1])
        } by {
            if i < before.len() {
                assert(after[i] == before[i]);
            }
        }
        assert forall|c: int|
            0 <= c < n && (g[r][c] == opp[0] || g[r][c] == opp[1]) implies #[trigger] after.contains(
            (r as usize, c as usize),
        ) by {
            if c < n - 1 {
                assert(before.contains((r as usize, c as usize)));
                let i = choose|i: int| 0 <= i < before.len() && before[i] == (r as usize, c as usize);
                assert(after[i] == before[i]);
            } else {
                assert(after[after.len() - 1] == (r as usize, c as usize));
            }
        }
    }
}

proof fn lemma_opp_in_rows_exact(g: Seq<Seq<char>>, opp: Seq<char>, m: int, cols: int)
    requires
        m <= usize::MAX,
        0 <= cols <= usize::MAX,
    ensures
        forall|i: int|
            0 <= i < opp_in_rows(g, opp, m, cols).len() ==> {
                let rc = #[trigger] opp_in_rows(g, opp, m, cols)[i];
                &&& 0 <= rc.0 < m
                &&& 0 <= rc.1 < cols
                &&& (g[rc.0 as int][rc.1 as int] == opp[0] || g[rc.0 as int][rc.1 as int] == opp[1])
            },
        forall|r: int, c: int|
            0 <= r < m && 0 <= c < cols && (g[r][c] == opp[0] || g[r][c] == opp[1])
                ==> #[trigger] opp_in_rows(g, opp, m, cols).contains((r as usize, c as usize)),
    decreases m,
{
    if m > 0 {
        lemma_opp_in_rows_exact(g, opp, m - 1, cols);
        lemma_opp_in_row_exact(g, opp, m - 1, cols);
        let a = opp_in_rows(g, opp, m - 1, cols);
        let b = opp_in_row(g, opp, m - 1, cols);
        assert forall|i: int| 0 <= i < (a + b).len() implies {
            let rc = #[trigger] (a + b)[i];
            &&& 0 <= rc.0 < m
            &&& 0 <= rc.1 < cols
            &&& (g[rc.0 as int][rc.1 as int] == opp[0] || g[rc.0 as int][rc.1 as int] == opp[1])
        } by {
            if i < a.len() {
                assert((a + b)[i] == a[i]);
            } else {
                assert((a + b)[i] == b[i - a.len()]);
            }
        }
        assert forall|r: int, c: int|
            0 <= r < m && 0 <= c < cols && (g[r][c] == opp[0] || g[r][c] == opp[1]) implies #[trigger] (a
            + b).contains((r as usize, c as usize)) by {
            if r < m - 1 {
                assert(a.contains((r as usize, c as usize)));
                let i = choose|i: int| 0 <= i < a.len() && a[i] == (r as usize, c as usize);
                assert((a + b)[i] == a[i]);
            } else {
                assert(b.contains((r as usize, c as usize)));
                let i = choose|i: int| 0 <= i < b.len() && b[i] == (r as usize, c as usize);
                assert((a + b)[a.len() + i] == b[i]);
            }
        }
    }
}

/// The opponent cells are exactly the board cells holding one of the
/// opponent's two characters: each listed cell is on the board and holds
/// one, and each board cell holding one is listed.
pub proof fn lemma_opp_cells_exact(s: GameState)
    ensures
        forall|i: int|
            0 <= i < opp_cells(s).len() ==> {
                let rc = #[trigger] opp_cells(s)[i];
                &&& rc.0 < s.rows
                &&& rc.1 < s.cols
                &&& (s.board()[rc.0 as int][rc.1 as int] == s.opp_chars[0] || s.board()[rc.0 as int][rc.1 as int]
                    == s.opp_chars[1])
            },
        forall|r: int, c: int|
            0 <= r < s.rows && 0 <= c < s.cols && (s.board()[r][c] == s.opp_chars[0] || s.board()[r][c]
                == s.opp_chars[1]) ==> #[trigger] opp_cells(s).contains((r as usize, c as usize)),
{
    lemma_opp_in_rows_exact(s.board(), s.opp_chars@, s.rows as int, s.cols as int);
}

pub fn collect_opp_cells(state: &GameState) -> (cells: Vec<(usize, usize)>)
    requires
        covers(state.board(), state.rows as int, state.cols as int),
    ensures
        cells@ == opp_cells(*state),
{
    let ghost g = state.board();
    let mut cells: Vec<(usize, usize)> = Vec::new();
    let mut r: usize = 0;
    while r < state.rows
        invariant
            covers(state.board(), state.rows as int, state.cols as int),
            g == state.board(),
            r <= state.rows,
            cells@ == opp_in_rows(g, state.opp_chars@, r as int, state.cols as int),
        decreases state.rows - r,
    {
        assert(g[r as int].len() >= state.cols);
        let mut c: usize = 0;
        while c < state.cols
            invariant
                covers(state.board(), state.rows as int, state.cols as int),
                g == state.board(),
                r < state.rows,
                c <= state.cols,
                g[r as int].len() >= state.cols,
                cells@ == opp_in_rows(g, state.opp_chars@, r as int, state.cols as int) + opp_in_row(
                    g,
                    state.opp_chars@,
                    r as int,
                    c as int,
                ),
            decreases state.cols - c,
        {
            let ch = state.grid[r][c];
            assert(ch == g[r as int][c as int]);
            if side_contains(&state.opp_chars, ch) {
                cells.push((r, c));
            }
            proof {
                let a = opp_in_rows(g, state.opp_chars@, r as int, state.cols as int);
                let b = opp_in_row(g, state.opp_chars@, r as int, c as int);
                assert((a + b).push((r, c)) =~= a + b.push((r, c)));
            }
            c += 1;
        }
        r += 1;
    }
    cells
}

pub open spec fn abs_diff(a: int, b: int) -> int {
    if a >= b {
        a - b
    } else {
        b - a
    }
}

/// Manhattan distance from `(pr, pc)` to the cell `rc`.
pub open spec fn manhattan(pr: int, pc: int, rc: (usize, usize)) -> int {
    abs_diff(pr, rc.0 as int) + abs_diff(pc, rc.1 as int)
}

/// The smallest Manhattan distance from `(pr, pc)` to a cell of `cells`, 0 when there is none.
pub open spec fn nearest(pr: int, pc: int, cells: Seq<(usize, usize)>) -> int
    decreases cells.len(),
{
    if cells.len() == 0 {
        0
    } else if cells.len() == 1 {
        manhattan(pr, pc, cells[0])
    } else {
        let rest = nearest(pr, pc, cells.drop_last());
        let last = manhattan(pr, pc, cells.last());
        if last < rest {
            last
        } else {
            rest
        }
    }
}

proof fn lemma_nearest(pr: int, pc: int, cells: Seq<(usize, usize)>)
    requires
        cells.len() > 0,
    ensures
        forall|i: int| 0 <= i < cells.len() ==> nearest(pr, pc, cells) <= manhattan(pr, pc, #[trigger] cells[i]),
        exists|i: int| 0 <= i < cells.len() && nearest(pr, pc, cells) == manhattan(pr, pc, #[trigger] cells[i]),
    decreases cells.len(),
{
    if cells.len() == 1 {
        assert(nearest(pr, pc, cells) == manhattan(pr, pc, cells[0]));
    } else {
        let rest = cells.drop_last();
        lemma_nearest(pr, pc, rest);
        assert forall|i: int| 0 <= i < cells.len() implies nearest(pr, pc, cells) <= manhattan(
            pr,
            pc,
            #[trigger] cells[i],
        ) by {
            if i < rest.len() {
                assert(cells[i] == rest[i]);
            }
        }
        if manhattan(pr, pc, cells.last()) < nearest(pr, pc, rest) {
            assert(nearest(pr, pc, cells) == manhattan(pr, pc, cells[cells.len() - 1]));
        } else {
            let i = choose|i: int| 0 <= i < rest.len() && nearest(pr, pc, rest) == manhattan(pr, pc, #[trigger] rest[i]);
            assert(cells[i] == rest[i]);
        }
    }
}

/// The piece's centre cell when its top-left corner is at column `x`, row `y`.
pub open spec fn piece_centre(s: GameState, x: int, y: int) -> (int, int) {
    (y + s.piece_rows / 2, x + s.piece_cols / 2)
}

fn usize_abs_diff(a: usize, b: usize) -> (d: usize)
    ensures
        d == abs_diff(a as int, b as int),
{
    if a >= b {
        a - b
    } else {
        b - a
    }
}

pub fn min_opp_dist(state: &GameState, x: usize, y: usize, opp_cells: &[(usize, usize)]) -> (d: usize)
    requires
        opp_cells@.len() > 0 ==> y + state.piece_rows / 2 <= usize::MAX,
        opp_cells@.len() > 0 ==> x + state.piece_cols / 2 <= usize::MAX,
        forall|i: int|
            0 <= i < opp_cells@.len() ==> manhattan(
                piece_centre(*state, x as int, y as int).0,
                piece_centre(*state, x as int, y as int).1,
                #[trigger] opp_cells@[i],
            ) <= usize::MAX,
    ensures
        d == nearest(
            piece_centre(*state, x as int, y as int).0,
            piece_centre(*state, x as int, y as int).1,
            opp_cells@,
        ),
        opp_cells@.len() == 0 ==> d == 0,
        forall|i: int|
            0 <= i < opp_cells@.len() ==> d <= manhattan(
                piece_centre(*state, x as int, y as int).0,
                piece_centre(*state, x as int, y as int).1,
                #[trigger] opp_cells@[i],
            ),
        opp_cells@.len() > 0 ==> exists|i: int|
            0 <= i < opp_cells@.len() && d == manhattan(
                piece_centre(*state, x as int, y as int).0,
                piece_centre(*state, x as int, y as int).1,
                #[trigger] opp_cells@[i],
            ),
{
    if opp_cells.len() == 0 {
        return 0;
    }
    let pr = y + state.piece_rows / 2;
    let pc = x + state.piece_cols / 2;
    let ghost cells = opp_cells@;
    let mut best = usize_abs_diff(pr, opp_cells[0].0) + usize_abs_diff(pc, opp_cells[0].1);
    let mut i: usize = 1;
    assert(cells.take(1).drop_last() =~= Seq::<(usize, usize)>::empty());
    while i < opp_cells.len()
        invariant
            1 <= i <= cells.len(),
            cells == opp_cells@,
            pr == piece_centre(*state, x as int, y as int).0,
            pc == piece_centre(*state, x as int, y as int).1,
            forall|j: int| 0 <= j < cells.len() ==> manhattan(pr as int, pc as int, #[trigger] cells[j]) <= usize::MAX,
            best == nearest(pr as int, pc as int, cells.take(i as int)),
        decreases cells.len() - i,
    {
        let here = usize_abs_diff(pr, opp_cells[i].0) + usize_abs_diff(pc, opp_cells[i].1);
        assert(cells.take(i + 1).drop_last() =~= cells.take(i as int));
        if here < best {
            best = here;
        }
        i += 1;
    }
    proof {
        assert(cells.take(cells.len() as int) =~= cells);
        lemma_nearest(pr as int, pc as int, cells);
    }
    best
}

/// The board after my piece is put at column `x`, row `y`: every cell
/// under a filled piece cell now holds `ch`.
pub open spec fn placed(
    g: Seq<Seq<char>>,
    p: Seq<Seq<char>>,
    x: int,
    y: int,
    prows: int,
    pcols: int,
    ch: char,
) -> Seq<Seq<char>> {
    Seq::new(
        g.len(),
        |r: int|
            Seq::new(
                g[r].len(),
                |c: int|
                    if y <= r < y + prows && x <= c < x + pcols && is_filled(p[r - y][c - x]) {
                        ch
                    } else {
                        g[r][c]
                    },
            ),
    )
}

/// The board of `s` with my piece put at column `x`, row `y`, marked with my last-piece character.
pub open spec fn board_after(s: GameState, x: int, y: int) -> Seq<Seq<char>> {
    placed(
        s.board(),
        s.shape(),
        x,
        y,
        s.piece_rows as int,
        s.piece_cols as int,
        s.my_chars@[1],
    )
}

/// The board after a move: each cell under a filled piece cell ('O' or '#')
/// holds my last-piece character; every other cell is as it was, and the
/// board keeps its shape.
pub proof fn lemma_board_after(s: GameState, x: int, y: int, r: int, c: int)
    requires
        0 <= r < s.board().len(),
        0 <= c < s.board()[r].len(),
    ensures
        board_after(s, x, y).len() == s.board().len(),
        board_after(s, x, y)[r].len() == s.board()[r].len(),
        board_after(s, x, y)[r][c] == if y <= r < y + s.piece_rows && x <= c < x + s.piece_cols && (s.shape()[r
            - y][c - x] == 'O' || s.shape()[r - y][c - x] == '#') {
            s.my_chars[1]
        } else {
            s.board()[r][c]
        },
{
}

/// The empty cells a move takes: the number of piece cells, within the
/// header's rows and columns, that are filled ('O' or '#') and land on a
/// board cell holding '.'.
pub proof fn lemma_empty_covered_counts(s: GameState, x: int, y: int)
    ensures
        empty_covered(s, x, y) == Set::new(
            |ij: (int, int)|
                0 <= ij.0 < s.piece_rows && 0 <= ij.1 < s.piece_cols && (s.shape()[ij.0][ij.1] == 'O'
                    || s.shape()[ij.0][ij.1] == '#') && s.board()[y + ij.0][x + ij.1] == '.',
        ).len(),
{
    let pred = empty_under(s.board(), s.shape(), x, y);
    lemma_count_in_rect_cells(pred, s.piece_rows as int, s.piece_cols as int);
    assert(cells_where(pred, s.piece_rows as int, s.piece_cols as int) =~= Set::new(
        |ij: (int, int)|
            0 <= ij.0 < s.piece_rows && 0 <= ij.1 < s.piece_cols && (s.shape()[ij.0][ij.1] == 'O'
                || s.shape()[ij.0][ij.1] == '#') && s.board()[y + ij.0][x + ij.1] == '.',
    ));
}

fn place_piece(state: &GameState, x: usize, y: usize) -> (g2: Vec<Vec<char>>)
    requires
        state.well_formed(),
        piece_inside(*state, x as int, y as int),
    ensures
        view_grid(g2@) == board_after(*state, x as int, y as int),
{
    let ghost g = state.board();
    let ghost target = board_after(*state, x as int, y as int);
    let ch = state.my_chars[1];
    let mut g2: Vec<Vec<char>> = Vec::new();
    let mut r: usize = 0;
    while r < state.rows
        invariant
            state.well_formed(),
            piece_inside(*state, x as int, y as int),
            g == state.board(),
            target == board_after(*state, x as int, y as int),
            ch == state.my_chars@[1],
            r <= state.rows,
            g2@.len() == r,
            forall|i: int| 0 <= i < r ==> (#[trigger] g2@[i])@ == target[i],
        decreases state.rows - r,
    {
        assert(g[r as int].len() == state.cols);
        let mut row: Vec<char> = Vec::new();
        let mut c: usize = 0;
        while c < state.cols
            invariant
                state.well_formed(),
                piece_inside(*state, x as int, y as int),
                g == state.board(),
                target == board_after(*state, x as int, y as int),
                ch == state.my_chars@[1],
                r < state.rows,
                c <= state.cols,
                g[r as int].len() == state.cols,
                row@ == target[r as int].take(c as int),
            decreases state.cols - c,
        {
            let under_piece = r >= y && r < y + state.piece_rows && c >= x && c < x
                + state.piece_cols;
            let v = if under_piece && filled(state.piece[r - y][c - x]) {
                ch
            } else {
                state.grid[r][c]
            };
            row.push(v);
            assert(row@ =~= target[r as int].take(c + 1));
            c += 1;
        }
        assert(row@ =~= target[r as int]);
        g2.push(row);
        r += 1;
    }
    assert(view_grid(g2@) =~~= target);
    g2
}

/// The score of putting the piece at column `x`, row `y`, taking `cells`
/// empty cells: ten times the territory after the move, plus three per
/// empty cell taken, minus the distance from the piece's centre to the
/// nearest opponent cell.
pub open spec fn placement_score(s: GameState, x: int, y: int, cells: int) -> int {
    let centre = piece_centre(s, x, y);
    territory(board_after(s, x, y), s.rows as int, s.cols as int, s.my_chars@, s.opp_chars@) * 10
        + cells * 3 - nearest(centre.0, centre.1, opp_cells(s))
}

/// The distance to the nearest opponent cell is the least Manhattan
/// distance to any of the cells: no cell is nearer, and one is that near.
pub proof fn lemma_nearest_is_least(pr: int, pc: int, cells: Seq<(usize, usize)>)
    requires
        cells.len() > 0,
    ensures
        forall|i: int| 0 <= i < cells.len() ==> nearest(pr, pc, cells) <= manhattan(pr, pc, #[trigger] cells[i]),
        exists|i: int| 0 <= i < cells.len() && nearest(pr, pc, cells) == manhattan(pr, pc, #[trigger] cells[i]),
{
    lemma_nearest(pr, pc, cells);
}

/// How a move's score is made up: ten per point of territory after the
/// move, three per empty cell taken, and one off per step from the piece's
/// centre to the nearest opponent cell. So between two moves, the score
/// differs by exactly those amounts; with the same territory and cells
/// taken, the move whose centre is strictly nearer the opponent scores
/// strictly higher; and with the same territory and distance, the move
/// taking more empty cells scores strictly higher.
pub proof fn lemma_score_parts(s: GameState, x1: int, y1: int, c1: int, x2: int, y2: int, c2: int)
    ensures
        ({
            let t1 = territory(board_after(s, x1, y1), s.rows as int, s.cols as int, s.my_chars@, s.opp_chars@);
            let t2 = territory(board_after(s, x2, y2), s.rows as int, s.cols as int, s.my_chars@, s.opp_chars@);
            let d1 = nearest(y1 + s.piece_rows / 2, x1 + s.piece_cols / 2, opp_cells(s));
            let d2 = nearest(y2 + s.piece_rows / 2, x2 + s.piece_cols / 2, opp_cells(s));
            &&& placement_score(s, x1, y1, c1) == 10 * t1 + 3 * c1 - d1
            &&& placement_score(s, x1, y1, c1) - placement_score(s, x2, y2, c2) == 10 * (t1 - t2) + 3 * (c1
                - c2) - (d1 - d2)
            &&& (t1 == t2 && c1 == c2 && d1 < d2 ==> placement_score(s, x1, y1, c1) > placement_score(
                s,
                x2,
                y2,
                c2,
            ))
            &&& (t1 == t2 && d1 == d2 && c1 > c2 ==> placement_score(s, x1, y1, c1) > placement_score(
                s,
                x2,
                y2,
                c2,
            ))
        }),
{
}

fn score_placement(
    state: &GameState,
    x: usize,
    y: usize,
    cells: usize,
    opp: &Vec<(usize, usize)>,
) -> (score: i64)
    requires
        state.well_formed(),
        piece_inside(*state, x as int, y as int),
        opp@ == opp_cells(*state),
        cells <= state.piece_rows * state.piece_cols,
    ensures
        score == placement_score(*state, x as int, y as int, cells as int),
        score > i64::MIN,
{
    let ghost s = *state;
    let g2 = place_piece(state, x, y);
    let ghost b = board_after(s, x as int, y as int);
    assert(covers(view_grid(g2@), state.rows as int, state.cols as int)) by {
        assert forall|i: int| 0 <= i < state.rows implies #[trigger] view_grid(g2@)[i].len() >= state.cols by {
            assert(view_grid(g2@)[i] == b[i]);
        }
    }
    let voro = voronoi_diff(&g2, state.rows, state.cols, &state.my_chars, &state.opp_chars);
    proof {
        lemma_votes_in_rows_bound(b, s.rows as int, s.cols as int, s.my_chars@, s.opp_chars@, s.rows as int);
        lemma_opp_cells_inside(s);
        assert(state.piece_rows * state.piece_cols <= state.rows * state.cols) by (nonlinear_arith)
            requires
                state.piece_rows <= state.rows,
                state.piece_cols <= state.cols,
        ;
        assert forall|i: int| 0 <= i < opp@.len() implies manhattan(
            piece_centre(s, x as int, y as int).0,
            piece_centre(s, x as int, y as int).1,
            #[trigger] opp@[i],
        ) <= state.rows + state.cols by {
        }
        if opp@.len() > 0 {
            assert(opp@[0].0 < state.rows && opp@[0].1 < state.cols);
            assert(state.rows + state.cols <= state.rows * state.cols + 1) by (nonlinear_arith)
                requires
                    state.rows >= 1,
                    state.cols >= 1,
            ;
        }
    }
    let d = min_opp_dist(state, x, y, opp);
    proof {
        if opp@.len() > 0 {
            assert(d <= manhattan(
                piece_centre(s, x as int, y as int).0,
                piece_centre(s, x as int, y as int).1,
                opp@[0],
            ));
        }
    }
    voro * 10 + cells as i64 * 3 - d as i64
}

/// A legal move for `s`'s piece at column `x`, row `y`.
pub open spec fn is_candidate(s: GameState, x: int, y: int) -> bool {
    valid_placement(s.board(), s.shape(), x, y, s.my_chars@, s.opp_chars@)
}

/// The legal moves among the first `p` board positions in row-major order
/// (row by row, left to right), each with the empty cells it takes.
pub open spec fn scan(s: GameState, p: int) -> Seq<(usize, usize, usize)>
    decreases p,
{
    if p <= 0 || s.cols == 0 {
        Seq::empty()
    } else {
        let before = scan(s, p - 1);
        let x = (p - 1) % (s.cols as int);
        let y = (p - 1) / (s.cols as int);
        if is_candidate(s, x, y) {
            before.push((x as usize, y as usize, empty_covered(s, x, y) as usize))
        } else {
            before
        }
    }
}

/// The legal moves found when at most `k` positions are examined.
pub open spec fn candidates(s: GameState, k: int) -> Seq<(usize, usize, usize)> {
    let n = s.rows * s.cols;
    scan(s, if k < n { k } else { n as int })
}

/// The scores of the moves in `cands`.
pub open spec fn scores(s: GameState, cands: Seq<(usize, usize, usize)>) -> Seq<int> {
    Seq::new(
        cands.len(),
        |i: int| placement_score(s, cands[i].0 as int, cands[i].1 as int, cands[i].2 as int),
    )
}

/// `i` is the first index, among the first `m`, with the highest score.
pub open spec fn is_first_best(sc: Seq<int>, m: int, i: int) -> bool {
    &&& 0 <= i < m
    &&& forall|j: int| 0 <= j < m ==> sc[j] <= sc[i]
    &&& forall|j: int| 0 <= j < i ==> sc[j] < sc[i]
}

/// The first index of a highest score among the first `m`, or 0 when `m` is 0.
pub open spec fn first_best(sc: Seq<int>, m: int) -> int {
    if m <= 0 {
        0
    } else {
        choose|i: int| is_first_best(sc, m, i)
    }
}

pub proof fn lemma_first_best(sc: Seq<int>, m: int, i: int)
    requires
        is_first_best(sc, m, i),
    ensures
        first_best(sc, m) == i,
{
    let j = first_best(sc, m);
    assert(is_first_best(sc, m, j));
    if j < i {
        assert(sc[j] < sc[i]);
    } else if i < j {
        assert(sc[i] < sc[j]);
    }
}

/// The move chosen when at most `scan_limit` positions are examined and at
/// most `score_limit` of the legal moves found are scored: (0, 0) when no
/// legal move was found, else the first best-scoring of the scored moves
/// (the first move found when none was scored).
pub open spec fn chosen_placement(s: GameState, scan_limit: int, score_limit: int) -> (usize, usize) {
    let cands = candidates(s, scan_limit);
    if cands.len() == 0 {
        (0, 0)
    } else {
        let m = if score_limit < cands.len() { score_limit } else { cands.len() as int };
        let i = first_best(scores(s, cands), m);
        (cands[i].0, cands[i].1)
    }
}

proof fn lemma_position(cols: int, p: int)
    requires
        cols > 0,
        p >= 0,
    ensures
        p == (p / cols) * cols + p % cols,
        0 <= p % cols < cols,
        p / cols >= 0,
{
    lemma_fundamental_div_mod(p, cols);
    assert(p / cols >= 0) by (nonlinear_arith)
        requires
            p >= 0,
            cols > 0,
            p == cols * (p / cols) + p % cols,
            0 <= p % cols < cols,
    ;
    assert(cols * (p / cols) == (p / cols) * cols) by (nonlinear_arith);
}

/// Examines position `p` (column `p % cols`, row `p / cols`) and records it when it is a legal move.
fn scan_position(state: &GameState, p: usize, cands: &mut Vec<(usize, usize, usize)>)
    requires
        state.well_formed(),
        p < state.rows * state.cols,
        old(cands)@ == scan(*state, p as int),
    ensures
        final(cands)@ == scan(*state, p + 1),
{
    let ghost s = *state;
    proof {
        assert(state.cols > 0) by (nonlinear_arith)
            requires
                p < state.rows * state.cols,
        ;
        lemma_position(s.cols as int, p as int);
        assert((p / state.cols) < state.rows) by (nonlinear_arith)
            requires
                p < state.rows * state.cols,
                p == (p / state.cols) * state.cols + p % state.cols,
                0 <= p % state.cols,
        ;
    }
    let x = p % state.cols;
    let y = p / state.cols;
    assert(((p + 1) - 1) as int == p as int);
    if is_valid_placement(&state.grid, &state.piece, x, y, &state.my_chars, &state.opp_chars) {
        assert(piece_inside(s, x as int, y as int));
        assert(state.piece_rows * state.piece_cols <= state.rows * state.cols) by (nonlinear_arith)
            requires
                state.piece_rows <= state.rows,
                state.piece_cols <= state.cols,
        ;
        let cells = count_empty_covered(state, x, y);
        cands.push((x, y, cells));
    }
}

/// Whether every move of `cands` is legal for `s` with its empty-cell count,
/// as `scan` records them.
pub open spec fn recorded_moves(s: GameState, cands: Seq<(usize, usize, usize)>) -> bool {
    forall|i: int|
        0 <= i < cands.len() ==> piece_inside(s, (#[trigger] cands[i]).0 as int, cands[i].1 as int)
            && cands[i].2 <= s.piece_rows * s.piece_cols && is_candidate(
            s,
            cands[i].0 as int,
            cands[i].1 as int,
        ) && cands[i].2 as int == empty_covered(s, cands[i].0 as int, cands[i].1 as int)
}

/// Every move that `scan` records is legal.
pub proof fn lemma_scan_moves(s: GameState, p: int)
    requires
        s.well_formed(),
        p <= s.rows * s.cols,
    ensures
        recorded_moves(s, scan(s, p)),
    decreases p,
{
    if p > 0 && s.cols > 0 {
        lemma_scan_moves(s, p - 1);
        let x = (p - 1) % (s.cols as int);
        let y = (p - 1) / (s.cols as int);
        lemma_position(s.cols as int, p - 1);
        assert(y < s.rows) by (nonlinear_arith)
            requires
                p - 1 < s.rows * s.cols,
                p - 1 == y * s.cols + x,
                0 <= x,
        ;
        if is_candidate(s, x, y) {
            assert(piece_inside(s, x, y));
            assert(s.piece_rows * s.piece_cols <= s.rows * s.cols) by (nonlinear_arith)
                requires
                    s.piece_rows <= s.rows,
                    s.piece_cols <= s.cols,
            ;
            lemma_count_in_rect_bounds(
                empty_under(s.board(), s.shape(), x, y),
                s.piece_rows as int,
                s.piece_cols as int,
            );
            let before = scan(s, p - 1);
            let after = before.push((x as usize, y as usize, empty_covered(s, x, y) as usize));
            assert forall|i: int| 0 <= i < after.len() implies piece_inside(
                s,
                (#[trigger] after[i]).0 as int,
                after[i].1 as int,
            ) && after[i].2 <= s.piece_rows * s.piece_cols && is_candidate(
                s,
                after[i].0 as int,
                after[i].1 as int,
            ) && after[i].2 as int == empty_covered(s, after[i].0 as int, after[i].1 as int) by {
                if i < before.len() {
                    assert(after[i] == before[i]);
                }
            }
        }
    }
}

/// Scores candidate `i` and keeps it when it beats the best so far.
fn rank_candidate(
    state: &GameState,
    cands: &Vec<(usize, usize, usize)>,
    opp: &Vec<(usize, usize)>,
    i: usize,
    best_score: &mut i64,
    best: &mut usize,
)
    requires
        state.well_formed(),
        recorded_moves(*state, cands@),
        opp@ == opp_cells(*state),
        i < cands@.len(),
        i == 0 ==> *old(best) == 0 && *old(best_score) == i64::MIN,
        i > 0 ==> is_first_best(scores(*state, cands@), i as int, *old(best) as int) && *old(best_score)
            == scores(*state, cands@)[*old(best) as int],
    ensures
        is_first_best(scores(*state, cands@), i + 1, *final(best) as int),
        *final(best_score) == scores(*state, cands@)[*final(best) as int],
{
    let ghost sc = scores(*state, cands@);
    let (x, y, cells) = cands[i];
    let score = score_placement(state, x, y, cells, opp);
    assert(score == sc[i as int]);
    if score > *best_score {
        *best_score = score;
        *best = i;
    }
}

/// The search behind both public entry points: examines at most
/// `scan_limit` board positions in row-major order, then scores at most
/// `score_limit` of the legal moves found. Given a clock, it also stops each
/// phase once `TIMEOUT_SECS` have passed since the clock's reading. It
/// returns the move and, as ghost values, the limits it actually ran to.
fn search(state: &GameState, scan_limit: usize, score_limit: usize, clock: Option<&Instant>) -> (res: (
    (usize, usize),
    Ghost<(int, int)>,
))
    requires
        state.well_formed(),
    ensures
        0 <= res.1@.0 <= scan_limit,
        0 <= res.1@.1 <= score_limit,
        res.0 == chosen_placement(*state, res.1@.0, res.1@.1),
        clock is None ==> res.0 == chosen_placement(*state, scan_limit as int, score_limit as int),
{
    let ghost s = *state;
    let n = state.rows * state.cols;
    let mut cands: Vec<(usize, usize, usize)> = Vec::new();
    let mut p: usize = 0;
    while p < n && p < scan_limit
        invariant
            state.well_formed(),
            *state == s,
            n == state.rows * state.cols,
            p <= n,
            p <= scan_limit,
            cands@ == scan(s, p as int),
        ensures
            clock is None ==> p == n || p == scan_limit,
        decreases n - p,
    {
        if let Some(start) = clock {
            if timed_out(start) {
                break;
            }
        }
        scan_position(state, p, &mut cands);
        p += 1;
    }
    assert(cands@ == candidates(s, p as int));
    assert(clock is None ==> cands@ == candidates(s, scan_limit as int));
    proof {
        lemma_scan_moves(s, p as int);
    }
    if cands.len() == 0 {
        return ((0, 0), Ghost((p as int, 0)));
    }
    if cands.len() == 1 {
        proof {
            let m: int = if score_limit < 1 { score_limit as int } else { 1 };
            if m == 1 {
                lemma_first_best(scores(s, cands@), 1, 0);
            }
        }
        return ((cands[0].0, cands[0].1), Ghost((p as int, 0)));
    }
    let opp = collect_opp_cells(state);
    let mut best_score: i64 = i64::MIN;
    let mut best: usize = 0;
    let mut i: usize = 0;
    while i < cands.len() && i < score_limit
        invariant
            state.well_formed(),
            *state == s,
            recorded_moves(s, cands@),
            opp@ == opp_cells(s),
            i <= cands@.len(),
            i <= score_limit,
            i == 0 ==> best == 0 && best_score == i64::MIN,
            i > 0 ==> is_first_best(scores(s, cands@), i as int, best as int) && best_score == scores(
                s,
                cands@,
            )[best as int],
        ensures
            clock is None ==> i == cands@.len() || i == score_limit,
        decreases cands@.len() - i,
    {
        if let Some(start) = clock {
            if timed_out(start) {
                break;
            }
        }
        rank_candidate(state, &cands, &opp, i, &mut best_score, &mut best);
        i += 1;
    }
    proof {
        if i > 0 {
            lemma_first_best(scores(s, cands@), i as int, best as int);
        }
    }
    ((cands[best].0, cands[best].1), Ghost((p as int, i as int)))
}

/// Returns (x=col, y=row) of the best placement found when at most
/// `scan_limit` board positions are examined and at most `score_limit` of
/// the legal placements found are scored; (0, 0) if none was found.
pub fn best_placement_within(state: &GameState, scan_limit: usize, score_limit: usize) -> (pos: (
    usize,
    usize,
))
    requires
        state.well_formed(),
    ensures
        pos == chosen_placement(*state, scan_limit as int, score_limit as int),
{
    search(state, scan_limit, score_limit, None).0
}

/// The number of whole seconds after which the search stops and answers
/// with the best move found so far.
pub const TIMEOUT_SECS: u64 = 5;

#[verifier::external_type_specification]
#[verifier::external_body]
pub struct ExInstant(Instant);

/// Calls `std::time::Instant::now`. The reading depends on the machine's
/// clock, so nothing is stated of it.
#[verifier::external_body]
fn clock_now() -> Instant {
    Instant::now()
}

/// Calls `std::time::Instant::elapsed`. The time that has passed depends on
/// the machine's clock, so nothing is stated of it.
#[verifier::external_body]
fn time_since(start: &Instant) -> Duration {
    start.elapsed()
}

/// Calls `std::time::Duration::as_secs`. `Duration` is opaque here, so
/// nothing is stated of the whole seconds it holds.
#[verifier::external_body]
fn whole_secs(d: &Duration) -> u64 {
    d.as_secs()
}

/// Whether at least `TIMEOUT_SECS` whole seconds have passed since `start`.
/// The answer rests on the machine's clock alone (through `time_since` and
/// `whole_secs`), so no contract ties it to anything the caller knows; the
/// searches that ask it are proved correct whatever it answers.
fn timed_out(start: &Instant) -> bool {
    let elapsed = time_since(start);
    whole_secs(&elapsed) >= TIMEOUT_SECS
}

/// Returns (x=col, y=row) of the best placement, or (0, 0) if none exists.
///
/// Algorithm:
///   1. Collect all valid placements.
///   2. For each placement: clone the grid, apply the piece, compute Voronoi
///      territorial score (cells reachable by me first minus cells reachable by
///      opponent first).  Greedy heuristics break ties.
///   3. Return the highest-scoring placement.
///
/// Both phases stop once five seconds have passed; how far they get depends
/// on the clock, so the answer is `chosen_placement` for some pair of limits.
pub fn find_best_placement(state: &mut GameState) -> (pos: (usize, usize))
    requires
        old(state).well_formed(),
    ensures
        *final(state) == *old(state),
        exists|scan_limit: int, score_limit: int|
            0 <= scan_limit && 0 <= score_limit && pos == #[trigger] chosen_placement(
                *old(state),
                scan_limit,
                score_limit,
            ),
        pos == (0usize, 0usize) || is_candidate(*old(state), pos.0 as int, pos.1 as int),
{
    let start = clock_now();
    let (pos, Ghost(limits)) = search(state, usize::MAX, usize::MAX, Some(&start));
    proof {
        lemma_chosen_is_legal(*state, limits.0, limits.1);
    }
    pos
}

/// Whether every row of `piece` is at least as wide as its first row.
fn rows_cover(piece: &Vec<Vec<char>>) -> (ok: bool)
    ensures
        ok == rows_cover_width(view_grid(piece@)),
{
    let ghost p = view_grid(piece@);
    if piece.len() == 0 {
        return true;
    }
    let first = piece[0].len();
    assert(first == width(p));
    let mut i: usize = 0;
    while i < piece.len()
        invariant
            p == view_grid(piece@),
            piece@.len() > 0,
            first == width(p),
            i <= piece@.len(),
            forall|j: int| 0 <= j < i ==> #[trigger] p[j].len() >= width(p),
        decreases piece@.len() - i,
    {
        if piece[i].len() < first {
            assert(p[i as int].len() < width(p));
            return false;
        }
        i += 1;
    }
    true
}

/// Whether the piece of a turn as read is as its header gives (`piece_ok`).
pub fn piece_matches_header(state: &GameState) -> (ok: bool)
    requires
        state.turn_read(),
    ensures
        ok == state.piece_ok(),
{
    let ghost p = state.shape();
    if !rows_cover(&state.piece) {
        return false;
    }
    if state.piece_rows > 0 {
        assert(p[0] == state.piece@[0]@);
        state.piece_cols <= state.piece[0].len()
    } else {
        true
    }
}

/// For a turn whose piece is not as its header gives: checking position
/// (column `x`, row `y`) stops the search by reading past the end of a piece
/// row. When every row is at least as wide as the first (so the first is
/// narrower than the header's width), that happens at every legal move,
/// whose empty cells are then counted over the header's width; otherwise it
/// happens where the legality check itself runs past a narrower row.
pub open spec fn ragged_fails_at(s: GameState, x: int, y: int) -> bool {
    if rows_cover_width(s.shape()) {
        is_candidate(s, x, y)
    } else {
        reads_past_row(s.board(), s.shape(), x, y, s.my_chars@, s.opp_chars@)
    }
}

/// `ragged_fails_at` at position `q` in row-major order.
pub open spec fn ragged_fails_pos(s: GameState, q: int) -> bool {
    ragged_fails_at(s, q % (s.cols as int), q / (s.cols as int))
}

/// The answer for a turn whose piece is not as its header gives, when at
/// most `k` board positions are examined in row-major order: `None` when one
/// of them stops the search by reading past the end of a piece row (no move
/// can be given), else (0, 0), since no legal move can be scored.
pub open spec fn ragged_answer(s: GameState, k: int) -> Option<(usize, usize)> {
    let n = s.rows * s.cols;
    let m = if k < n { k } else { n as int };
    if exists|q: int| 0 <= q < m && #[trigger] ragged_fails_pos(s, q) {
        None
    } else {
        Some((0usize, 0usize))
    }
}

/// The search for a turn whose piece is not as its header gives: examines
/// at most `scan_limit` positions in row-major order, stopping early, given
/// a clock, once `TIMEOUT_SECS` have passed. Returns the answer and, as a
/// ghost value, the number of positions it ran to.
fn ragged_search(state: &GameState, scan_limit: usize, clock: Option<&Instant>) -> (res: (
    Option<(usize, usize)>,
    Ghost<int>,
))
    requires
        state.turn_read(),
        !state.piece_ok(),
    ensures
        0 <= res.1@ <= scan_limit,
        res.0 == ragged_answer(*state, res.1@),
        clock is None ==> res.0 == ragged_answer(*state, scan_limit as int),
{
    let ghost s = *state;
    let covers = rows_cover(&state.piece);
    let n = state.rows * state.cols;
    proof {
        if state.rows > 0 {
            assert(s.board()[0].len() == state.cols);
        }
    }
    let mut p: usize = 0;
    while p < n && p < scan_limit
        invariant
            state.turn_read(),
            *state == s,
            covers == rows_cover_width(s.shape()),
            n == state.rows * state.cols,
            p <= n,
            p <= scan_limit,
            state.rows > 0 ==> width(s.board()) == state.cols,
            forall|q: int| 0 <= q < p ==> !#[trigger] ragged_fails_pos(s, q),
        ensures
            clock is None ==> p == n || p == scan_limit,
        decreases n - p,
    {
        if let Some(start) = clock {
            if timed_out(start) {
                break;
            }
        }
        proof {
            assert(state.cols > 0) by (nonlinear_arith)
                requires
                    p < state.rows * state.cols,
            ;
        }
        let x = p % state.cols;
        let y = p / state.cols;
        let fails = if covers {
            is_valid_placement(&state.grid, &state.piece, x, y, &state.my_chars, &state.opp_chars)
        } else {
            check_reads_past_row(&state.grid, &state.piece, x, y, &state.my_chars, &state.opp_chars)
        };
        assert(fails == ragged_fails_pos(s, p as int));
        if fails {
            return (None, Ghost(p + 1));
        }
        p += 1;
    }
    (Some((0, 0)), Ghost(p as int))
}

/// The answer, when at most `scan_limit` positions are examined, for a turn
/// whose piece is not as its header gives: `None` when the search would
/// read past the end of a piece row, else (0, 0).
pub fn ragged_answer_within(state: &GameState, scan_limit: usize) -> (res: Option<(usize, usize)>)
    requires
        state.turn_read(),
        !state.piece_ok(),
    ensures
        res == ragged_answer(*state, scan_limit as int),
{
    ragged_search(state, scan_limit, None).0
}

/// Answers a turn as the reader hands it out. When the piece is as its
/// header gives, this is `find_best_placement`. Otherwise no legal move can
/// be scored: the answer is (0, 0), or `None` when the search reaches a
/// position where it would read past the end of a piece row, so that no
/// answer can be given. Both searches stop once five seconds have passed.
pub fn answer_turn(state: &mut GameState) -> (res: Option<(usize, usize)>)
    requires
        old(state).turn_read(),
    ensures
        *final(state) == *old(state),
        old(state).piece_ok() ==> (res matches Some(pos) && (exists|scan_limit: int, score_limit: int|
            0 <= scan_limit && 0 <= score_limit && pos == #[trigger] chosen_placement(
                *old(state),
                scan_limit,
                score_limit,
            )) && (pos == (0usize, 0usize) || is_candidate(*old(state), pos.0 as int, pos.1 as int))),
        !old(state).piece_ok() ==> exists|k: int| 0 <= k && res == #[trigger] ragged_answer(*old(state), k),
{
    if piece_matches_header(state) {
        let pos = find_best_placement(state);
        Some(pos)
    } else {
        let start = clock_now();
        let (res, Ghost(k)) = ragged_search(state, usize::MAX, Some(&start));
        res
    }
}

/// Every legal move at a position before `p` in row-major order is recorded by `scan`.
proof fn lemma_scan_complete(s: GameState, p: int, x: int, y: int)
    requires
        s.cols > 0,
        0 <= x < s.cols,
        0 <= y < s.rows,
        y * s.cols + x < p,
        is_candidate(s, x, y),
    ensures
        exists|i: int|
            0 <= i < scan(s, p).len() && (#[trigger] scan(s, p)[i]).0 == x && scan(s, p)[i].1 == y
                && scan(s, p)[i].2 == empty_covered(s, x, y) as usize,
    decreases p,
{
    let before = scan(s, p - 1);
    let q = p - 1;
    lemma_position(s.cols as int, q);
    if y * s.cols + x < q {
        lemma_scan_complete(s, q, x, y);
        let i = choose|i: int|
            0 <= i < before.len() && (#[trigger] before[i]).0 == x && before[i].1 == y && before[i].2
                == empty_covered(s, x, y) as usize;
        assert(scan(s, p)[i] == before[i]);
    } else {
        assert(q == y * s.cols + x);
        vstd::arithmetic::div_mod::lemma_fundamental_div_mod_converse(q, s.cols as int, y, x);
        assert(scan(s, p) =~= before.push((x as usize, y as usize, empty_covered(s, x, y) as usize)));
        let last = scan(s, p)[before.len() as int];
        assert(last.0 == x && last.1 == y && last.2 == empty_covered(s, x, y) as usize);
    }
}

/// The chosen move is (0, 0) exactly when no legal move was found, and
/// otherwise it is a legal move; so when the board offers no legal move at
/// all, the answer is (0, 0).
pub proof fn lemma_chosen_is_legal(s: GameState, scan_limit: int, score_limit: int)
    requires
        s.well_formed(),
    ensures
        candidates(s, scan_limit).len() == 0 ==> chosen_placement(s, scan_limit, score_limit) == (
            0usize,
            0usize,
        ),
        candidates(s, scan_limit).len() > 0 ==> is_candidate(
            s,
            chosen_placement(s, scan_limit, score_limit).0 as int,
            chosen_placement(s, scan_limit, score_limit).1 as int,
        ),
        (forall|x: int, y: int| !#[trigger] is_candidate(s, x, y)) ==> chosen_placement(
            s,
            scan_limit,
            score_limit,
        ) == (0usize, 0usize),
{
    let n = s.rows * s.cols;
    let k = if scan_limit < n {
        scan_limit
    } else {
        n as int
    };
    let cands = candidates(s, scan_limit);
    if k >= 0 {
        lemma_scan_moves(s, k);
    } else {
        assert(cands =~= Seq::<(usize, usize, usize)>::empty());
    }
    if cands.len() > 0 {
        let m = if score_limit < cands.len() {
            score_limit
        } else {
            cands.len() as int
        };
        let i = first_best(scores(s, cands), m);
        if m > 0 {
            lemma_first_best_exists(scores(s, cands), m);
        }
        assert(0 <= i < cands.len());
        assert(is_candidate(s, cands[i].0 as int, cands[i].1 as int));
    }
}

/// Among the first `m` scores, a first highest one exists.
pub proof fn lemma_first_best_exists(sc: Seq<int>, m: int)
    requires
        0 < m <= sc.len(),
    ensures
        is_first_best(sc, m, first_best(sc, m)),
    decreases m,
{
    if m == 1 {
        assert(is_first_best(sc, 1, 0));
    } else {
        lemma_first_best_exists(sc, m - 1);
        let b = first_best(sc, m - 1);
        if sc[m - 1] > sc[b] {
            assert(is_first_best(sc, m, m - 1));
        } else {
            assert(is_first_best(sc, m, b));
        }
    }
}

/// Given time to examine every position and score every legal move, the
/// chosen move scores at least as well as any legal move on the board.
pub proof fn lemma_full_search_is_best(s: GameState, x: int, y: int)
    requires
        s.well_formed(),
        0 <= x < s.cols,
        0 <= y < s.rows,
        is_candidate(s, x, y),
    ensures
        ({
            let n = (s.rows * s.cols) as int;
            let pos = chosen_placement(s, n, n);
            &&& is_candidate(s, pos.0 as int, pos.1 as int)
            &&& placement_score(s, pos.0 as int, pos.1 as int, empty_covered(s, pos.0 as int, pos.1 as int))
                >= placement_score(s, x, y, empty_covered(s, x, y))
        }),
{
    let n = (s.rows * s.cols) as int;
    assert(y * s.cols + x < n) by (nonlinear_arith)
        requires
            0 <= x < s.cols,
            0 <= y < s.rows,
            n == s.rows * s.cols,
    ;
    let cands = candidates(s, n);
    assert(cands == scan(s, n));
    lemma_scan_complete(s, n, x, y);
    lemma_scan_moves(s, n);
    lemma_scan_len(s, n);
    let j = choose|j: int|
        0 <= j < cands.len() && (#[trigger] cands[j]).0 == x && cands[j].1 == y && cands[j].2
            == empty_covered(s, x, y) as usize;
    let sc = scores(s, cands);
    let m = cands.len() as int;
    lemma_first_best_exists(sc, m);
    let i = first_best(sc, m);
    assert(sc[j] <= sc[i]);
    lemma_chosen_is_legal(s, n, n);
}

proof fn lemma_scan_len(s: GameState, p: int)
    requires
        p >= 0,
    ensures
        scan(s, p).len() <= p,
    decreases p,
{
    if p > 0 {
        lemma_scan_len(s, p - 1);
    }
}

} // verus!
