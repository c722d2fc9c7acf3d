use vstd::prelude::*;
use crate::heuristic::{abs_diff, indicator, lemma_coords, taxicab, tiles_match};
use crate::puzzle::{inversion_cells, inversion_rows, inversions, rank_seq, solvable};
use crate::search::is_solution_path;
use crate::state::{
    blank_of, can_move, is_grid, is_move, is_walk, lemma_index_of, lemma_move_in_grid,
    move_target, moved, slide, Direction,
};
use crate::sums::{lemma_sum_bounds, lemma_sum_one_change, lemma_sum_two_changes};

verus! {

/// `r` with the values at `p` and `q` exchanged.
pub open spec fn swap(r: Seq<int>, p: int, q: int) -> Seq<int> {
    r.update(p, r[q]).update(q, r[p])
}

/// No value occurs twice in `r`.
pub open spec fn all_distinct(r: Seq<int>) -> bool {
    forall|i: int, j: int| 0 <= i < r.len() && 0 <= j < r.len() && i != j ==> r[i] != r[j]
}

/// Exchanging two neighbouring values changes the number of inversions by one.
proof fn lemma_adjacent_swap(r: Seq<int>, k: int)
    requires
        0 <= k,
        k + 1 < r.len(),
        all_distinct(r),
    ensures
        inversions(swap(r, k, k + 1)) - inversions(r) == indicator(r[k + 1] > r[k]) - indicator(
            r[k] > r[k + 1],
        ),
{
    let s = swap(r, k, k + 1);
    let n = r.len() as int;
    assert(s.len() == n);
    // Rows other than `k` and `k + 1` keep their count.
    assert forall|i: int| 0 <= i < n && i != k && i != k + 1 implies #[trigger] inversion_rows(s)(
        i,
    ) == inversion_rows(r)(i) by {
        let f = inversion_cells(s, i);
        let g = inversion_cells(r, i);
        assert forall|j: int| 0 <= j < n && j != k && j != k + 1 implies #[trigger] f(j) == g(
            j,
        ) by {
            assert(s[j] == r[j]);
            assert(s[i] == r[i]);
        }
        lemma_sum_two_changes(f, g, n, k, k + 1);
        assert(s[i] == r[i]);
    }
    // Row `k` of `s` is row `k + 1` of `r`, plus the pair of the two exchanged values.
    let fk = inversion_cells(s, k);
    let gk1 = inversion_cells(r, k + 1);
    assert forall|j: int| 0 <= j < n && j != k + 1 implies #[trigger] fk(j) == gk1(j) by {
        if j > k + 1 {
            assert(s[j] == r[j]);
        }
    }
    lemma_sum_one_change(fk, gk1, n, k + 1);
    // Row `k + 1` of `s` is row `k` of `r`, less that pair.
    let fk1 = inversion_cells(s, k + 1);
    let gk = inversion_cells(r, k);
    assert forall|j: int| 0 <= j < n && j != k + 1 implies #[trigger] fk1(j) == gk(j) by {
        if j > k + 1 {
            assert(s[j] == r[j]);
        }
    }
    lemma_sum_one_change(fk1, gk, n, k + 1);
    lemma_sum_two_changes(inversion_rows(s), inversion_rows(r), n, k, k + 1);
}

/// Exchanging two values of a sequence without repeats changes the parity of its
/// inversions.
pub proof fn lemma_swap_parity(r: Seq<int>, p: int, q: int)
    requires
        0 <= p < q < r.len(),
        all_distinct(r),
    ensures
        inversions(swap(r, p, q)) % 2 != inversions(r) % 2,
        all_distinct(swap(r, p, q)),
    decreases q - p,
{
    let s = swap(r, p, q);
    assert forall|i: int, j: int| 0 <= i < s.len() && 0 <= j < s.len() && i != j implies s[i]
        != s[j] by {
        let ii = if i == p {
            q
        } else if i == q {
            p
        } else {
            i
        };
        let jj = if j == p {
            q
        } else if j == q {
            p
        } else {
            j
        };
        assert(s[i] == r[ii]);
        assert(s[j] == r[jj]);
    }
    if q == p + 1 {
        lemma_adjacent_swap(r, p);
        assert(r[p] != r[p + 1]);
    } else {
        let r1 = swap(r, q - 1, q);
        lemma_swap_parity(r, q - 1, q);
        let r2 = swap(r1, p, q - 1);
        lemma_swap_parity(r1, p, q - 1);
        let r3 = swap(r2, q - 1, q);
        lemma_swap_parity(r2, q - 1, q);
        assert(r3 =~= s);
    }
}

/// `s` and `goal` are grids of side `size` that hold the same cells, none twice.
pub open spec fn is_arrangement(size: int, s: Seq<i32>, goal: Seq<i32>) -> bool {
    &&& is_grid(size, s)
    &&& is_grid(size, goal)
    &&& tiles_match(size, s, goal)
    &&& goal.contains(0)
    &&& forall|i: int, j: int| 0 <= i < s.len() && 0 <= j < s.len() && i != j ==> s[i] != s[j]
    &&& forall|i: int, j: int|
        0 <= i < goal.len() && 0 <= j < goal.len() && i != j ==> goal[i] != goal[j]
}

/// `s` with the cells at `p` and `q` exchanged.
pub open spec fn swap_cells(s: Seq<i32>, p: int, q: int) -> Seq<i32> {
    s.update(p, s[q]).update(q, s[p])
}

/// The places in `goal` of the cells of an arrangement are all different.
proof fn lemma_ranks(size: int, s: Seq<i32>, goal: Seq<i32>)
    requires
        is_arrangement(size, s, goal),
    ensures
        all_distinct(rank_seq(s, goal)),
        forall|i: int|
            0 <= i < s.len() ==> 0 <= #[trigger] rank_seq(s, goal)[i] < goal.len() && goal[rank_seq(
                s,
                goal,
            )[i]] == s[i],
{
    let r = rank_seq(s, goal);
    assert forall|i: int| 0 <= i < s.len() implies 0 <= #[trigger] r[i] < goal.len() && goal[r[i]]
        == s[i] by {
        if s[i] != 0 {
            assert(goal.contains(s[i]));
        }
        let w = choose|w: int| 0 <= w < goal.len() && goal[w] == s[i];
        lemma_index_of(goal, s[i], w);
    }
}

/// The blank of an arrangement is its only `0`.
proof fn lemma_blank(size: int, s: Seq<i32>, goal: Seq<i32>, b: int)
    requires
        is_arrangement(size, s, goal),
        0 <= b < s.len(),
        s[b] == 0,
    ensures
        blank_of(s) == b,
{
    lemma_index_of(s, 0, b);
}

/// One slide of the blank moves it to a neighbouring cell: one row or one column away.
pub proof fn lemma_slide_distance(size: int, b: int, d: Direction, g: int)
    requires
        1 <= size,
        0 <= b < size * size,
        0 <= move_target(size, b, d) < size * size,
        can_move(size, b, d),
        0 <= g < size * size,
    ensures
        abs_diff(taxicab(size, move_target(size, b, d), g), taxicab(size, b, g)) == 1,
{
    let n = size;
    let t = move_target(size, b, d);
    lemma_coords(n, b);
    lemma_coords(n, g);
    let q = b / n;
    let r = b % n;
    match d {
        Direction::Left => {
            vstd::arithmetic::div_mod::lemma_fundamental_div_mod_converse(t, n, q, r - 1);
        },
        Direction::Right => {
            if r + 1 == n {
                assert(b + 1 == (q + 1) * n) by (nonlinear_arith)
                    requires
                        b == q * n + r,
                        r + 1 == n,
                ;
                vstd::arithmetic::div_mod::lemma_mod_multiples_basic(q + 1, n);
            }
            vstd::arithmetic::div_mod::lemma_fundamental_div_mod_converse(t, n, q, r + 1);
        },
        Direction::Down => {
            assert(t == (q + 1) * n + r) by (nonlinear_arith)
                requires
                    b == q * n + r,
                    t == b + n,
            ;
            vstd::arithmetic::div_mod::lemma_fundamental_div_mod_converse(t, n, q + 1, r);
        },
        Direction::Up => {
            assert(t == (q - 1) * n + r) by (nonlinear_arith)
                requires
                    b == q * n + r,
                    t == b - n,
            ;
            vstd::arithmetic::div_mod::lemma_fundamental_div_mod_converse(t, n, q - 1, r);
        },
    }
}

/// A legal slide keeps an arrangement an arrangement, with the blank at the cell it moved to.
pub proof fn lemma_move_keeps_arrangement(size: int, s: Seq<i32>, goal: Seq<i32>, d: Direction)
    requires
        is_arrangement(size, s, goal),
        moved(size, s, d) is Some,
    ensures
        is_arrangement(size, moved(size, s, d)->0, goal),
        blank_of(moved(size, s, d)->0) == move_target(size, blank_of(s), d),
        rank_seq(moved(size, s, d)->0, goal) == swap(
            rank_seq(s, goal),
            blank_of(s),
            move_target(size, blank_of(s), d),
        ),
{
    lemma_move_in_grid(size, s, d);
    let b = blank_of(s);
    let t = move_target(size, b, d);
    let m = slide(s, b, t);
    assert(m =~= swap_cells(s, b, t));
    lemma_cells_swap(size, s, goal, b, t);
    assert(m[t] == 0);
    lemma_blank(size, m, goal, t);
}

/// Exchanging two cells keeps an arrangement an arrangement and exchanges their places.
pub proof fn lemma_cells_swap(size: int, s: Seq<i32>, goal: Seq<i32>, p: int, q: int)
    requires
        is_arrangement(size, s, goal),
        0 <= p < s.len(),
        0 <= q < s.len(),
    ensures
        is_arrangement(size, swap_cells(s, p, q), goal),
        rank_seq(swap_cells(s, p, q), goal) == swap(rank_seq(s, goal), p, q),
{
    let m = swap_cells(s, p, q);
    assert forall|i: int, j: int| 0 <= i < m.len() && 0 <= j < m.len() && i != j implies m[i]
        != m[j] by {
        let ii = if i == p {
            q
        } else if i == q {
            p
        } else {
            i
        };
        let jj = if j == p {
            q
        } else if j == q {
            p
        } else {
            j
        };
        assert(m[i] == s[ii]);
        assert(m[j] == s[jj]);
    }
    assert forall|i: int| 0 <= i < m.len() && m[i] != 0 implies goal.contains(#[trigger] m[i]) by {
        if i == p {
            assert(goal.contains(s[q]));
        } else if i == q {
            assert(goal.contains(s[p]));
        } else {
            assert(goal.contains(s[i]));
        }
    }
    let b = choose|b: int| 0 <= b < s.len() && s[b] == 0;
    let bb = if b == p {
        q
    } else if b == q {
        p
    } else {
        b
    };
    assert(m[bb] == 0);
    assert(rank_seq(m, goal) =~= swap(rank_seq(s, goal), p, q));
}

/// A goal is solvable from itself: no inversions, and the blank does not move.
pub proof fn lemma_goal_is_solvable(size: int, goal: Seq<i32>)
    requires
        is_arrangement(size, goal, goal),
    ensures
        solvable(size, goal, goal),
{
    let r = rank_seq(goal, goal);
    lemma_ranks(size, goal, goal);
    assert forall|i: int| 0 <= i < r.len() implies #[trigger] r[i] == i by {
        if r[i] != i {
            assert(goal[r[i]] == goal[i]);
        }
    }
    assert forall|i: int| 0 <= i < r.len() implies 0 <= #[trigger] inversion_rows(r)(i) <= 0 by {
        lemma_sum_bounds(inversion_cells(r, i), r.len() as int, 0);
    }
    lemma_sum_bounds(inversion_rows(r), r.len() as int, 0);
}

/// One legal slide of the blank keeps the answer of the parity test: the inversions and
/// the distance of the blank both change parity.
pub proof fn lemma_move_keeps_solvability(size: int, s: Seq<i32>, goal: Seq<i32>, d: Direction)
    requires
        is_arrangement(size, s, goal),
        moved(size, s, d) is Some,
    ensures
        solvable(size, moved(size, s, d)->0, goal) == solvable(size, s, goal),
{
    lemma_move_in_grid(size, s, d);
    lemma_move_keeps_arrangement(size, s, goal, d);
    lemma_ranks(size, s, goal);
    let b = blank_of(s);
    let t = move_target(size, b, d);
    let r = rank_seq(s, goal);
    if b < t {
        lemma_swap_parity(r, b, t);
    } else {
        lemma_swap_parity(r, t, b);
        assert(swap(r, t, b) =~= swap(r, b, t));
    }
    let gb = choose|w: int| 0 <= w < goal.len() && goal[w] == 0;
    lemma_index_of(goal, 0, gb);
    lemma_slide_distance(size, b, d, blank_of(goal));
}

/// Exchanging two tiles, the blank left in place, changes the answer of the parity test.
pub proof fn lemma_tile_swap_flips_solvability(
    size: int,
    s: Seq<i32>,
    goal: Seq<i32>,
    p: int,
    q: int,
)
    requires
        is_arrangement(size, s, goal),
        0 <= p < s.len(),
        0 <= q < s.len(),
        p != q,
        s[p] != 0,
        s[q] != 0,
    ensures
        solvable(size, swap_cells(s, p, q), goal) != solvable(size, s, goal),
{
    lemma_cells_swap(size, s, goal, p, q);
    lemma_ranks(size, s, goal);
    let r = rank_seq(s, goal);
    if p < q {
        lemma_swap_parity(r, p, q);
    } else {
        lemma_swap_parity(r, q, p);
        assert(swap(r, q, p) =~= swap(r, p, q));
    }
    let b = choose|b: int| 0 <= b < s.len() && s[b] == 0;
    lemma_blank(size, s, goal, b);
    let m = swap_cells(s, p, q);
    assert(m[b] == 0);
    lemma_blank(size, m, goal, b);
}

/// Every state of a walk from an arrangement is an arrangement with the same answer to the
/// parity test.
proof fn lemma_walk_keeps_solvability(size: int, path: Seq<Seq<i32>>, goal: Seq<i32>, i: int)
    requires
        path.len() >= 1,
        is_walk(size, path),
        is_arrangement(size, path[0], goal),
        0 <= i < path.len(),
    ensures
        is_arrangement(size, path[i], goal),
        solvable(size, path[i], goal) == solvable(size, path[0], goal),
    decreases i,
{
    if i > 0 {
        lemma_walk_keeps_solvability(size, path, goal, i - 1);
        assert(is_move(size, path[i - 1], path[i]));
        let d = choose|d: Direction| #[trigger] moved(size, path[i - 1], d) == Some(path[i]);
        lemma_move_keeps_arrangement(size, path[i - 1], goal, d);
        lemma_move_keeps_solvability(size, path[i - 1], goal, d);
    }
}

/// A start that fails the parity test has no path to the goal.
pub proof fn lemma_unsolvable_has_no_path(
    size: int,
    start: Seq<i32>,
    goal: Seq<i32>,
    steps: Seq<Seq<i32>>,
)
    requires
        is_arrangement(size, start, goal),
        !solvable(size, start, goal),
    ensures
        !is_solution_path(size, start, goal, steps),
{
    if is_solution_path(size, start, goal, steps) {
        lemma_walk_keeps_solvability(size, steps, goal, steps.len() - 1);
        lemma_goal_is_solvable(size, goal);
    }
}

} // verus!
