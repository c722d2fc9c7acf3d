use vstd::prelude::*;
use crate::parity::lemma_slide_distance;
use crate::state::{
    blank_of, find_cell, index_of, is_grid, lemma_index_of, lemma_move_in_grid, move_target,
    moved, slide, Direction,
};
use crate::sums::{lemma_sum_bounds, lemma_sum_two_changes, sum_to};

verus! {

/// `node` and `goal` are grids of side `size` and every tile of `node` has a place in `goal`.
pub open spec fn tiles_match(size: int, node: Seq<i32>, goal: Seq<i32>) -> bool {
    &&& 1 <= size
    &&& size * size <= i32::MAX
    &&& node.len() == size * size
    &&& goal.len() == size * size
    &&& forall|i: int| 0 <= i < node.len() && node[i] != 0 ==> goal.contains(#[trigger] node[i])
}

pub open spec fn abs_diff(a: int, b: int) -> int {
    if a >= b {
        a - b
    } else {
        b - a
    }
}

/// Rows plus columns between the flat indices `a` and `b`.
pub open spec fn taxicab(size: int, a: int, b: int) -> int {
    abs_diff(a % size, b % size) + abs_diff(a / size, b / size)
}

/// Squared straight-line distance between the flat indices `a` and `b`.
pub open spec fn squared_distance(size: int, a: int, b: int) -> int {
    abs_diff(a % size, b % size) * abs_diff(a % size, b % size) + abs_diff(a / size, b / size)
        * abs_diff(a / size, b / size)
}

/// Whether the tile at `i` is out of place: `1` or `0`.
pub open spec fn hamming_term(node: Seq<i32>, goal: Seq<i32>, i: int) -> int {
    if node[i] != 0 && node[i] != goal[i] {
        1
    } else {
        0
    }
}

pub open spec fn hamming_terms(node: Seq<i32>, goal: Seq<i32>) -> spec_fn(int) -> int {
    |i: int| hamming_term(node, goal, i)
}

/// Number of tiles, the blank aside, that are not where `goal` has them.
pub open spec fn hamming_spec(node: Seq<i32>, goal: Seq<i32>) -> int {
    sum_to(hamming_terms(node, goal), node.len() as int)
}

/// Distance from the tile at `i` to its place in `goal`; `0` for the blank.
pub open spec fn manhattan_term(size: int, node: Seq<i32>, goal: Seq<i32>, i: int) -> int {
    if node[i] != 0 {
        taxicab(size, i, index_of(goal, node[i]))
    } else {
        0
    }
}

pub open spec fn manhattan_terms(size: int, node: Seq<i32>, goal: Seq<i32>) -> spec_fn(int) -> int {
    |i: int| manhattan_term(size, node, goal, i)
}

/// Sum over the tiles of the rows and columns that separate each from its place in `goal`.
pub open spec fn manhattan_spec(size: int, node: Seq<i32>, goal: Seq<i32>) -> int {
    sum_to(manhattan_terms(size, node, goal), node.len() as int)
}

pub open spec fn euclidean_term(size: int, node: Seq<i32>, goal: Seq<i32>, i: int) -> int {
    if node[i] != 0 {
        squared_distance(size, i, index_of(goal, node[i]))
    } else {
        0
    }
}

pub open spec fn euclidean_terms(size: int, node: Seq<i32>, goal: Seq<i32>) -> spec_fn(int) -> int {
    |i: int| euclidean_term(size, node, goal, i)
}

/// Sum over the tiles of the squared per-axis distances to their places in `goal`.
pub open spec fn euclidean_squared_spec(size: int, node: Seq<i32>, goal: Seq<i32>) -> int {
    sum_to(euclidean_terms(size, node, goal), node.len() as int)
}

/// The tiles at `k` and `j` (`k` before `j`, on one line of the grid) both belong to
/// the goal row of `j`, which is the row that `j` stands in, and `k` belongs after `j`.
pub open spec fn row_conflict(size: int, node: Seq<i32>, goal: Seq<i32>, k: int, j: int) -> bool {
    &&& node[k] != 0
    &&& node[j] != 0
    &&& index_of(goal, node[j]) / size == j / size
    &&& index_of(goal, node[k]) / size == index_of(goal, node[j]) / size
    &&& index_of(goal, node[k]) >= index_of(goal, node[j])
}

/// The same as `row_conflict` for the column of `j` and a tile `k` above it.
pub open spec fn column_conflict(size: int, node: Seq<i32>, goal: Seq<i32>, k: int, j: int) -> bool {
    &&& node[k] != 0
    &&& node[j] != 0
    &&& index_of(goal, node[j]) % size == j % size
    &&& index_of(goal, node[k]) % size == index_of(goal, node[j]) % size
    &&& index_of(goal, node[k]) >= index_of(goal, node[j])
}

pub open spec fn indicator(b: bool) -> int {
    if b {
        1
    } else {
        0
    }
}

pub open spec fn row_conflict_terms(size: int, node: Seq<i32>, goal: Seq<i32>, j: int) -> spec_fn(
    int,
) -> int {
    |c: int| indicator(row_conflict(size, node, goal, (j / size) * size + c, j))
}

pub open spec fn column_conflict_terms(
    size: int,
    node: Seq<i32>,
    goal: Seq<i32>,
    j: int,
) -> spec_fn(int) -> int {
    |r: int| indicator(column_conflict(size, node, goal, r * size + j % size, j))
}

/// Conflicts of the tile at `j` with the tiles to its left in its row.
pub open spec fn row_conflicts_of(size: int, node: Seq<i32>, goal: Seq<i32>, j: int) -> int {
    sum_to(row_conflict_terms(size, node, goal, j), j % size)
}

/// Conflicts of the tile at `j` with the tiles above it in its column.
pub open spec fn column_conflicts_of(size: int, node: Seq<i32>, goal: Seq<i32>, j: int) -> int {
    sum_to(column_conflict_terms(size, node, goal, j), j / size)
}

pub open spec fn conflict_terms(size: int, node: Seq<i32>, goal: Seq<i32>) -> spec_fn(int) -> int {
    |j: int| row_conflicts_of(size, node, goal, j) + column_conflicts_of(size, node, goal, j)
}

/// Number of linear conflicts, counted once per pair of tiles.
pub open spec fn conflicts_spec(size: int, node: Seq<i32>, goal: Seq<i32>) -> int {
    sum_to(conflict_terms(size, node, goal), node.len() as int)
}

/// Manhattan distance plus two moves for each linear conflict.
pub open spec fn linear_conflicts_spec(size: int, node: Seq<i32>, goal: Seq<i32>) -> int {
    manhattan_spec(size, node, goal) + 2 * conflicts_spec(size, node, goal)
}

/// Row and column of a flat index of the grid lie inside the grid.
pub proof fn lemma_coords(size: int, a: int)
    requires
        1 <= size,
        0 <= a < size * size,
    ensures
        0 <= a % size < size,
        0 <= a / size < size,
        a == (a / size) * size + a % size,
{
    vstd::arithmetic::div_mod::lemma_mod_pos_bound(a, size);
    vstd::arithmetic::div_mod::lemma_div_pos_is_pos(a, size);
    vstd::arithmetic::div_mod::lemma_fundamental_div_mod(a, size);
    let q = a / size;
    let r = a % size;
    assert(q < size) by (nonlinear_arith)
        requires
            a == size * q + r,
            0 <= r,
            a < size * size,
            1 <= size,
    ;
    assert(a == q * size + r) by (nonlinear_arith)
        requires
            a == size * q + r,
    ;
}

/// A side whose square fits an `i32` is at most 46341.
pub proof fn lemma_side_bound(size: int)
    requires
        1 <= size,
        size * size <= i32::MAX,
    ensures
        size <= 46341,
{
    if size > 46341 {
        assert(size * size > i32::MAX) by (nonlinear_arith)
            requires
                size > 46341,
        ;
    }
}

proof fn lemma_taxicab_bound(size: int, a: int, b: int)
    requires
        1 <= size,
        0 <= a < size * size,
        0 <= b < size * size,
    ensures
        0 <= taxicab(size, a, b) <= 2 * size,
        0 <= squared_distance(size, a, b) <= 2 * size * size,
{
    lemma_coords(size, a);
    lemma_coords(size, b);
    let dx = abs_diff(a % size, b % size);
    let dy = abs_diff(a / size, b / size);
    assert(dx * dx + dy * dy <= 2 * size * size) by (nonlinear_arith)
        requires
            0 <= dx < size,
            0 <= dy < size,
    ;
    assert(0 <= dx * dx + dy * dy) by (nonlinear_arith);
}

/// Rows plus columns between the flat indices `index` and `goal` of a grid of side `size`.
pub fn manhattan_distance(size: i32, index: usize, goal: usize) -> (r: u64)
    requires
        1 <= size,
        index < size * size,
        goal < size * size,
    ensures
        r == taxicab(size as int, index as int, goal as int),
        r <= 2 * size,
{
    proof {
        lemma_taxicab_bound(size as int, index as int, goal as int);
        lemma_coords(size as int, index as int);
        lemma_coords(size as int, goal as int);
    }
    let sz = size as usize;
    let (x_n, y_n) = (index % sz, index / sz);
    let (x_g, y_g) = (goal % sz, goal / sz);
    let dx = if x_n >= x_g {
        x_n - x_g
    } else {
        x_g - x_n
    };
    let dy = if y_n >= y_g {
        y_n - y_g
    } else {
        y_g - y_n
    };
    (dx + dy) as u64
}

fn squared_cell_distance(size: i32, index: usize, goal: usize) -> (r: u64)
    requires
        1 <= size,
        size * size <= i32::MAX,
        index < size * size,
        goal < size * size,
    ensures
        r == squared_distance(size as int, index as int, goal as int),
{
    proof {
        lemma_taxicab_bound(size as int, index as int, goal as int);
        lemma_coords(size as int, index as int);
        lemma_coords(size as int, goal as int);
        lemma_side_bound(size as int);
    }
    let sz = size as u64;
    let (x_n, y_n) = (index as u64 % sz, index as u64 / sz);
    let (x_g, y_g) = (goal as u64 % sz, goal as u64 / sz);
    let dx = if x_n >= x_g {
        x_n - x_g
    } else {
        x_g - x_n
    };
    let dy = if y_n >= y_g {
        y_n - y_g
    } else {
        y_g - y_n
    };
    proof {
        assert(dx * dx <= 46341 * 46341) by (nonlinear_arith)
            requires
                dx <= 46341,
        ;
        assert(dy * dy <= 46341 * 46341) by (nonlinear_arith)
            requires
                dy <= 46341,
        ;
    }
    dx * dx + dy * dy
}

/// Where the tile at `i` of `node` belongs in `goal`.
fn goal_index(node: &[i32], goal: &[i32], i: usize) -> (r: usize)
    requires
        i < node@.len(),
        goal@.contains(node@[i as int]),
    ensures
        r as int == index_of(goal@, node@[i as int]),
        r < goal@.len(),
        goal@[r as int] == node@[i as int],
{
    match find_cell(goal, node[i]) {
        Some(g) => g,
        None => {
            proof {
                assert(false);
            }
            0
        },
    }
}

/// Number of tiles, the blank aside, that stand elsewhere than in `goal`.
pub fn hamming(size: i32, node: &[i32], goal: &[i32]) -> (r: u64)
    requires
        tiles_match(size as int, node@, goal@),
    ensures
        r == hamming_spec(node@, goal@),
{
    let ghost f = hamming_terms(node@, goal@);
    let mut total: u64 = 0;
    let mut i: usize = 0;
    while i < node.len()
        invariant
            tiles_match(size as int, node@, goal@),
            f == hamming_terms(node@, goal@),
            i <= node@.len(),
            total == sum_to(f, i as int),
            total <= i,
        decreases node@.len() - i,
    {
        if node[i] != 0 && node[i] != goal[i] {
            total = total + 1;
        }
        i += 1;
    }
    total
}

/// Sum over the tiles, the blank aside, of the rows and columns that separate each
/// from its place in `goal`.
pub fn manhattan(size: i32, node: &[i32], goal: &[i32]) -> (r: u64)
    requires
        tiles_match(size as int, node@, goal@),
    ensures
        r == manhattan_spec(size as int, node@, goal@),
        r <= node@.len() * (2 * size),
{
    let ghost f = manhattan_terms(size as int, node@, goal@);
    proof {
        lemma_side_bound(size as int);
    }
    let mut total: u64 = 0;
    let mut i: usize = 0;
    while i < node.len()
        invariant
            tiles_match(size as int, node@, goal@),
            size <= 46341,
            f == manhattan_terms(size as int, node@, goal@),
            i <= node@.len(),
            total == sum_to(f, i as int),
            total <= i * (2 * size),
        decreases node@.len() - i,
    {
        if node[i] != 0 {
            let g = goal_index(node, goal, i);
            let d = manhattan_distance(size, i, g);
            proof {
                assert(i * (2 * size) + 2 * size == (i + 1) * (2 * size)) by (nonlinear_arith);
                assert((i + 1) * (2 * size) <= 2147483647 * (2 * 46341)) by (nonlinear_arith)
                    requires
                        i + 1 <= 2147483647,
                        size <= 46341,
                ;
            }
            total = total + d;
        } else {
            proof {
                assert(i * (2 * size) <= (i + 1) * (2 * size)) by (nonlinear_arith)
                    requires
                        size >= 1,
                ;
            }
        }
        i += 1;
    }
    total
}

/// Sum over the tiles, the blank aside, of the squared per-axis distances to their
/// places in `goal`: the square of the straight-line estimate.
pub fn euclidean_distance_squared(size: i32, node: &[i32], goal: &[i32]) -> (r: u64)
    requires
        tiles_match(size as int, node@, goal@),
    ensures
        r == euclidean_squared_spec(size as int, node@, goal@),
{
    let ghost f = euclidean_terms(size as int, node@, goal@);
    let ghost n = size as int;
    proof {
        lemma_side_bound(n);
    }
    let mut total: u64 = 0;
    let mut i: usize = 0;
    while i < node.len()
        invariant
            tiles_match(n, node@, goal@),
            n == size,
            n <= 46341,
            f == euclidean_terms(n, node@, goal@),
            i <= node@.len(),
            total == sum_to(f, i as int),
            total <= i * (2 * n * n),
        decreases node@.len() - i,
    {
        if node[i] != 0 {
            let g = goal_index(node, goal, i);
            proof {
                lemma_taxicab_bound(n, i as int, g as int);
            }
            let d = squared_cell_distance(size, i, g);
            proof {
                assert(i * (2 * n * n) + 2 * n * n == (i + 1) * (2 * n * n)) by (nonlinear_arith);
                assert((i + 1) * (2 * n * n) <= (n * n) * (2 * n * n)) by (nonlinear_arith)
                    requires
                        i + 1 <= n * n,
                        n >= 1,
                ;
                assert((n * n) * (2 * n * n) <= 2147483647 * (2 * 2147483647)) by (nonlinear_arith)
                    requires
                        n * n <= 2147483647,
                        n >= 1,
                ;
            }
            total = total + d;
        } else {
            proof {
                assert(i * (2 * n * n) <= (i + 1) * (2 * n * n)) by (nonlinear_arith)
                    requires
                        n >= 1,
                ;
            }
        }
        i += 1;
    }
    total
}

/// The largest `r` with `r * r <= s`.
pub fn floor_sqrt(s: u64) -> (r: u64)
    ensures
        r * r <= s,
        s < (r + 1) * (r + 1),
{
    let mut r: u64 = 0;
    loop
        invariant
            r * r <= s,
            r < 0x1_0000_0000,
        decreases s - r,
    {
        let next: u64 = r + 1;
        let wide: u128 = next as u128;
        proof {
            assert(wide * wide <= 0x1_0000_0000 * 0x1_0000_0000) by (nonlinear_arith)
                requires
                    wide <= 0x1_0000_0000,
                    wide >= 0,
            ;
        }
        if wide * wide > s as u128 {
            return r;
        }
        proof {
            assert(next <= next * next) by (nonlinear_arith)
                requires
                    next >= 1,
            ;
            assert(next < 0x1_0000_0000) by (nonlinear_arith)
                requires
                    next * next <= s,
                    s < 0x1_0000_0000_0000_0000,
            ;
        }
        r = next;
    }
}

/// Where each tile of `node` belongs in `goal`; `0` for the blank.
fn goal_indices(size: i32, node: &[i32], goal: &[i32]) -> (r: Vec<usize>)
    requires
        tiles_match(size as int, node@, goal@),
    ensures
        r@.len() == node@.len(),
        forall|i: int|
            0 <= i < node@.len() && node@[i] != 0 ==> #[trigger] r@[i] as int == index_of(
                goal@,
                node@[i],
            ),
        forall|i: int| 0 <= i < node@.len() ==> #[trigger] r@[i] < goal@.len(),
{
    let mut r: Vec<usize> = Vec::new();
    let mut i: usize = 0;
    while i < node.len()
        invariant
            tiles_match(size as int, node@, goal@),
            i <= node@.len(),
            r@.len() == i,
            forall|k: int|
                0 <= k < i && node@[k] != 0 ==> #[trigger] r@[k] as int == index_of(goal@, node@[k]),
            forall|k: int| 0 <= k < i ==> #[trigger] r@[k] < goal@.len(),
        decreases node@.len() - i,
    {
        if node[i] != 0 {
            let g = goal_index(node, goal, i);
            r.push(g);
        } else {
            r.push(0);
        }
        i += 1;
    }
    r
}

/// Linear conflicts of the tile at `j` with the tiles to its left and above it.
fn conflicts_of_cell(
    size: i32,
    node: &[i32],
    goal: &[i32],
    places: &Vec<usize>,
    j: usize,
) -> (r: u64)
    requires
        tiles_match(size as int, node@, goal@),
        j < node@.len(),
        places@.len() == node@.len(),
        forall|i: int|
            0 <= i < node@.len() && node@[i] != 0 ==> #[trigger] places@[i] as int == index_of(
                goal@,
                node@[i],
            ),
    ensures
        r == row_conflicts_of(size as int, node@, goal@, j as int) + column_conflicts_of(
            size as int,
            node@,
            goal@,
            j as int,
        ),
        r <= 2 * size,
{
    let ghost n = size as int;
    let ghost fr = row_conflict_terms(n, node@, goal@, j as int);
    let ghost fc = column_conflict_terms(n, node@, goal@, j as int);
    proof {
        lemma_coords(n, j as int);
    }
    let sz = size as usize;
    let line = j / sz;
    let column = j % sz;
    if node[j] == 0 {
        proof {
            lemma_sum_bounds(fr, column as int, 0);
            lemma_sum_bounds(fc, line as int, 0);
        }
        return 0;
    }
    let gj = places[j];
    let mut in_row: u64 = 0;
    let mut c: usize = 0;
    while c < column
        invariant
            tiles_match(n, node@, goal@),
            n == size,
            sz == size,
            j < node@.len(),
            line as int == j as int / n,
            column as int == j as int % n,
            j as int == line as int * n + column as int,
            node@[j as int] != 0,
            gj as int == index_of(goal@, node@[j as int]),
            places@.len() == node@.len(),
            forall|i: int|
                0 <= i < node@.len() && node@[i] != 0 ==> #[trigger] places@[i] as int == index_of(
                    goal@,
                    node@[i],
                ),
            fr == row_conflict_terms(n, node@, goal@, j as int),
            c <= column,
            in_row == sum_to(fr, c as int),
            in_row <= c,
        decreases column - c,
    {
        let k = line * sz + c;
        if node[k] != 0 && gj / sz == line && places[k] / sz == gj / sz && places[k] >= gj {
            in_row = in_row + 1;
        }
        c += 1;
    }
    let mut in_column: u64 = 0;
    let mut r: usize = 0;
    while r < line
        invariant
            tiles_match(n, node@, goal@),
            n == size,
            sz == size,
            1 <= n,
            j < node@.len(),
            line as int == j as int / n,
            column as int == j as int % n,
            j as int == line as int * n + column as int,
            node@[j as int] != 0,
            gj as int == index_of(goal@, node@[j as int]),
            places@.len() == node@.len(),
            forall|i: int|
                0 <= i < node@.len() && node@[i] != 0 ==> #[trigger] places@[i] as int == index_of(
                    goal@,
                    node@[i],
                ),
            fc == column_conflict_terms(n, node@, goal@, j as int),
            r <= line,
            in_column == sum_to(fc, r as int),
            in_column <= r,
        decreases line - r,
    {
        proof {
            assert(r * n + column < j) by (nonlinear_arith)
                requires
                    r < line,
                    j as int == line as int * n + column as int,
                    1 <= n,
            ;
        }
        let k = r * sz + column;
        if node[k] != 0 && gj % sz == column && places[k] % sz == gj % sz && places[k] >= gj {
            in_column = in_column + 1;
        }
        r += 1;
    }
    in_row + in_column
}

/// Manhattan distance plus two moves for each pair of tiles that stand in their goal
/// row (or column) in the reverse of their goal order.
pub fn linear_conflicts(size: i32, node: &[i32], goal: &[i32]) -> (r: u64)
    requires
        tiles_match(size as int, node@, goal@),
    ensures
        r == linear_conflicts_spec(size as int, node@, goal@),
{
    let manhattan_distance = manhattan(size, node, goal);
    let places = goal_indices(size, node, goal);
    let ghost n = size as int;
    let ghost f = conflict_terms(n, node@, goal@);
    proof {
        lemma_side_bound(n);
    }
    let mut conflicts: u64 = 0;
    let mut j: usize = 0;
    while j < node.len()
        invariant
            tiles_match(n, node@, goal@),
            n == size,
            n <= 46341,
            places@.len() == node@.len(),
            forall|i: int|
                0 <= i < node@.len() && node@[i] != 0 ==> #[trigger] places@[i] as int == index_of(
                    goal@,
                    node@[i],
                ),
            f == conflict_terms(n, node@, goal@),
            j <= node@.len(),
            conflicts == sum_to(f, j as int),
            conflicts <= j * (2 * n),
        decreases node@.len() - j,
    {
        let t = conflicts_of_cell(size, node, goal, &places, j);
        proof {
            assert(j * (2 * n) + 2 * n == (j + 1) * (2 * n)) by (nonlinear_arith);
            assert((j + 1) * (2 * n) <= 2147483647 * (2 * 46341)) by (nonlinear_arith)
                requires
                    j + 1 <= 2147483647,
                    n <= 46341,
            ;
        }
        conflicts = conflicts + t;
        j += 1;
    }
    proof {
        assert(node@.len() * (2 * n) <= 2147483647 * (2 * 46341)) by (nonlinear_arith)
            requires
                node@.len() <= 2147483647,
                n <= 46341,
        ;
    }
    manhattan_distance + 2 * conflicts
}

/// In a goal whose cells are all different, each cell's place is its own index.
pub proof fn lemma_own_place(goal: Seq<i32>, i: int)
    requires
        0 <= i < goal.len(),
        forall|a: int, b: int|
            0 <= a < goal.len() && 0 <= b < goal.len() && a != b ==> goal[a] != goal[b],
    ensures
        index_of(goal, goal[i]) == i,
{
    lemma_index_of(goal, goal[i], i);
}

/// Manhattan distance, Hamming distance, the squared straight-line distance and the linear
/// conflicts are all zero from a goal to itself.
pub proof fn lemma_estimates_zero_at_goal(size: int, goal: Seq<i32>)
    requires
        tiles_match(size, goal, goal),
        forall|a: int, b: int|
            0 <= a < goal.len() && 0 <= b < goal.len() && a != b ==> goal[a] != goal[b],
    ensures
        hamming_spec(goal, goal) == 0,
        manhattan_spec(size, goal, goal) == 0,
        euclidean_squared_spec(size, goal, goal) == 0,
        linear_conflicts_spec(size, goal, goal) == 0,
{
    let n = goal.len() as int;
    assert forall|i: int| 0 <= i < n implies #[trigger] index_of(goal, goal[i]) == i by {
        lemma_own_place(goal, i);
    }
    assert forall|i: int| 0 <= i < n implies 0 <= #[trigger] hamming_terms(goal, goal)(i) <= 0 by {}
    lemma_sum_bounds(hamming_terms(goal, goal), n, 0);
    assert forall|i: int| 0 <= i < n implies 0 <= #[trigger] manhattan_terms(size, goal, goal)(i)
        <= 0 by {
        let _ = index_of(goal, goal[i]);
    }
    lemma_sum_bounds(manhattan_terms(size, goal, goal), n, 0);
    assert forall|i: int| 0 <= i < n implies 0 <= #[trigger] euclidean_terms(size, goal, goal)(i)
        <= 0 by {
        let _ = index_of(goal, goal[i]);
        assert(abs_diff(i % size, i % size) == 0);
        assert(abs_diff(i / size, i / size) == 0);
        assert(squared_distance(size, i, i) == 0);
    }
    lemma_sum_bounds(euclidean_terms(size, goal, goal), n, 0);
    assert forall|j: int| 0 <= j < n implies 0 <= #[trigger] conflict_terms(size, goal, goal)(j)
        <= 0 by {
        lemma_coords(size, j);
        let fr = row_conflict_terms(size, goal, goal, j);
        let fc = column_conflict_terms(size, goal, goal, j);
        assert forall|c: int| 0 <= c < j % size implies 0 <= #[trigger] fr(c) <= 0 by {
            let k = (j / size) * size + c;
            let _ = index_of(goal, goal[k]);
            let _ = index_of(goal, goal[j]);
        }
        assert forall|r: int| 0 <= r < j / size implies 0 <= #[trigger] fc(r) <= 0 by {
            let k = r * size + j % size;
            assert(k < j) by (nonlinear_arith)
                requires
                    r < j / size,
                    k == r * size + j % size,
                    j == (j / size) * size + j % size,
                    1 <= size,
            ;
            assert(0 <= k) by (nonlinear_arith)
                requires
                    0 <= r,
                    k == r * size + j % size,
                    0 <= j % size,
                    1 <= size,
            ;
            let _ = index_of(goal, goal[k]);
            let _ = index_of(goal, goal[j]);
        }
        lemma_sum_bounds(fr, j % size, 0);
        lemma_sum_bounds(fc, j / size, 0);
    }
    lemma_sum_bounds(conflict_terms(size, goal, goal), n, 0);
}

/// One legal slide of the blank changes the Manhattan distance and the Hamming distance
/// to the goal by at most one: only the tile that moves changes its term.
pub proof fn lemma_one_move_changes_estimate_by_one(
    size: int,
    s: Seq<i32>,
    goal: Seq<i32>,
    d: Direction,
)
    requires
        is_grid(size, s),
        tiles_match(size, s, goal),
        moved(size, s, d) is Some,
    ensures
        abs_diff(
            manhattan_spec(size, moved(size, s, d)->0, goal),
            manhattan_spec(size, s, goal),
        ) <= 1,
        abs_diff(hamming_spec(moved(size, s, d)->0, goal), hamming_spec(s, goal)) <= 1,
{
    lemma_move_in_grid(size, s, d);
    let b = blank_of(s);
    let t = move_target(size, b, d);
    let m = slide(s, b, t);
    let n = s.len() as int;
    let fm = manhattan_terms(size, m, goal);
    let fs = manhattan_terms(size, s, goal);
    assert forall|i: int| 0 <= i < n && i != b && i != t implies #[trigger] fm(i) == fs(i) by {
        assert(m[i] == s[i]);
    }
    lemma_sum_two_changes(fm, fs, n, b, t);
    let hm = hamming_terms(m, goal);
    let hs = hamming_terms(s, goal);
    assert forall|i: int| 0 <= i < n && i != b && i != t implies #[trigger] hm(i) == hs(i) by {
        assert(m[i] == s[i]);
    }
    lemma_sum_two_changes(hm, hs, n, b, t);
    if s[t] != 0 {
        assert(goal.contains(s[t]));
        let w = choose|w: int| 0 <= w < goal.len() && goal[w] == s[t];
        lemma_index_of(goal, s[t], w);
        lemma_slide_distance(size, b, d, index_of(goal, s[t]));
    }
}

} // verus!
