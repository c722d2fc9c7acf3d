use vstd::prelude::*;
use rand::seq::SliceRandom;
use vstd::string::StringSliceAdditionalSpecFns;
use crate::goal::{goal_layout, is_tile_set, GoalError};
use crate::heuristic::{indicator, manhattan_distance, taxicab, tiles_match};
use crate::parity::{
    is_arrangement, lemma_cells_swap, lemma_tile_swap_flips_solvability, swap_cells,
};
use crate::parse::{byte_views, line_values, lines_of, parse_line, split_lines};
use crate::state::{blank_of, find_cell, index_of, is_grid, Node};
use crate::sums::sum_to;

verus! {

/// A puzzle to solve: the side of the grid, the start state and the goal state.
pub struct Puzzle {
    pub size: i32,
    pub map: Node,
    pub goal: Node,
}

impl Puzzle {
    /// Both states are grids of side `size` and every tile of the start has a place in
    /// the goal.
    pub open spec fn is_well_formed(&self) -> bool {
        cells_in_goal(self.size as int, self.map@, self.goal@)
    }
}

/// The place in `goal` of each cell of `map`.
pub open spec fn rank_seq(map: Seq<i32>, goal: Seq<i32>) -> Seq<int> {
    Seq::new(map.len(), |i: int| index_of(goal, map[i]))
}

pub open spec fn inversion_cells(r: Seq<int>, i: int) -> spec_fn(int) -> int {
    |j: int| indicator(i < j && r[i] > r[j])
}

pub open spec fn inversion_rows(r: Seq<int>) -> spec_fn(int) -> int {
    |i: int| sum_to(inversion_cells(r, i), r.len() as int)
}

/// Number of pairs of positions whose values stand in decreasing order.
pub open spec fn inversions(r: Seq<int>) -> int {
    sum_to(inversion_rows(r), r.len() as int)
}

/// The parity test: the pairs of cells of `map` (blank included) that stand in the
/// reverse of their order in `goal`, and the rows plus columns between the blank of `map`
/// and that of `goal`, are both even or both odd.
pub open spec fn solvable(size: int, map: Seq<i32>, goal: Seq<i32>) -> bool {
    inversions(rank_seq(map, goal)) % 2 == taxicab(size, blank_of(map), blank_of(goal)) % 2
}

/// Every cell of `map` has a place in `goal`, the blank included.
pub open spec fn cells_in_goal(size: int, map: Seq<i32>, goal: Seq<i32>) -> bool {
    &&& is_grid(size, map)
    &&& is_grid(size, goal)
    &&& tiles_match(size, map, goal)
}

impl Puzzle {
    /// Rows plus columns between the blank of `map` and the blank of `goal`.
    fn taxicab_distance(size: i32, map: &Node, goal: &Node) -> (r: u64)
        requires
            is_grid(size as int, map@),
            is_grid(size as int, goal@),
        ensures
            r == taxicab(size as int, blank_of(map@), blank_of(goal@)),
    {
        let current = match find_cell(map.as_slice(), 0) {
            Some(i) => i,
            None => {
                proof {
                    assert(false);
                }
                0
            },
        };
        let target = match find_cell(goal.as_slice(), 0) {
            Some(i) => i,
            None => {
                proof {
                    assert(false);
                }
                0
            },
        };
        manhattan_distance(size, current, target)
    }

    /// Whether `map` can be brought to `goal`, by the parity test.
    pub fn is_map_solvable(size: i32, map: &Node, goal: &Node) -> (r: bool)
        requires
            cells_in_goal(size as int, map@, goal@),
        ensures
            r == solvable(size as int, map@, goal@),
    {
        let ghost n = map@.len() as int;
        let ghost rs = rank_seq(map@, goal@);
        let mut ranks: Vec<usize> = Vec::new();
        let mut i: usize = 0;
        while i < map.len()
            invariant
                cells_in_goal(size as int, map@, goal@),
                rs == rank_seq(map@, goal@),
                i <= map@.len(),
                ranks@.len() == i,
                forall|k: int| 0 <= k < i ==> #[trigger] ranks@[k] as int == rs[k],
            decreases map@.len() - i,
        {
            let v = map[i];
            proof {
                if v != 0 {
                    assert(goal@.contains(map@[i as int]));
                }
            }
            match find_cell(goal.as_slice(), v) {
                Some(g) => {
                    ranks.push(g);
                },
                None => {
                    proof {
                        assert(false);
                    }
                    ranks.push(0);
                },
            }
            i += 1;
        }
        proof {
            assert(n <= i32::MAX);
        }
        let mut inversions: u64 = 0;
        let mut a: usize = 0;
        while a < map.len()
            invariant
                n == map@.len(),
                n <= i32::MAX,
                rs == rank_seq(map@, goal@),
                ranks@.len() == n,
                forall|k: int| 0 <= k < n ==> #[trigger] ranks@[k] as int == rs[k],
                a <= n,
                inversions == sum_to(inversion_rows(rs), a as int),
                inversions <= a * n,
            decreases n - a,
        {
            let ghost cells = inversion_cells(rs, a as int);
            let mut row: u64 = 0;
            let mut b: usize = 0;
            while b < map.len()
                invariant
                    n == map@.len(),
                    n <= i32::MAX,
                    ranks@.len() == n,
                    forall|k: int| 0 <= k < n ==> #[trigger] ranks@[k] as int == rs[k],
                    a < n,
                    b <= n,
                    cells == inversion_cells(rs, a as int),
                    row == sum_to(cells, b as int),
                    row <= b,
                decreases n - b,
            {
                if a < b && ranks[a] > ranks[b] {
                    row = row + 1;
                }
                b += 1;
            }
            proof {
                assert(a * n + n == (a + 1) * n) by (nonlinear_arith);
                assert((a + 1) * n <= 2147483647 * 2147483647) by (nonlinear_arith)
                    requires
                        a + 1 <= n,
                        n <= 2147483647,
                ;
            }
            inversions = inversions + row;
            a += 1;
        }
        let taxicab = Puzzle::taxicab_distance(size, map, goal);
        inversions % 2 == taxicab % 2
    }

    /// Whether the start of this puzzle can be brought to its goal, by the parity test.
    pub fn is_solvable(&self) -> (r: bool)
        requires
            self.is_well_formed(),
        ensures
            r == solvable(self.size as int, self.map@, self.goal@),
    {
        Puzzle::is_map_solvable(self.size, &self.map, &self.goal)
    }
}

/// Relies on rand's `SliceRandom::shuffle` over the thread-local generator of
/// `rand::thread_rng`: the cells come back in some order, each as often as before.
#[verifier::external_body]
fn shuffle_cells(map: &mut Vec<i32>)
    ensures
        final(map)@.to_multiset() == old(map)@.to_multiset(),
{
    map.shuffle(&mut rand::thread_rng());
}

/// A rearrangement of a tile set is a tile set.
proof fn lemma_rearranged_tile_set(n: int, a: Seq<i32>, b: Seq<i32>)
    requires
        0 <= n * n <= i32::MAX,
        is_tile_set(n, a),
        a.to_multiset() == b.to_multiset(),
    ensures
        is_tile_set(n, b),
{
    a.to_multiset_ensures();
    b.to_multiset_ensures();
    assert(b.len() == b.to_multiset().len());
    assert(a.len() == a.to_multiset().len());
    assert forall|i: int| 0 <= i < b.len() implies 0 <= #[trigger] b[i] < n * n by {
        assert(b.contains(b[i]));
        assert(b.to_multiset().count(b[i]) > 0);
        assert(a.to_multiset().count(b[i]) > 0);
        assert(a.contains(b[i]));
        let j = choose|j: int| 0 <= j < a.len() && a[j] == b[i];
        assert(0 <= a[j] < n * n);
    }
    assert forall|v: i32| 0 <= v < n * n implies #[trigger] b.contains(v) by {
        assert(a.contains(v));
        assert(a.to_multiset().count(v) > 0);
        assert(b.to_multiset().count(v) > 0);
    }
    a.lemma_multiset_has_no_duplicates();
    b.lemma_multiset_has_no_duplicates_conv();
}

impl Puzzle {
    /// A puzzle with the goal layout named `solution_type` and a start drawn at random
    /// among the arrangements of its tiles that pass the parity test when `solvable`, or
    /// among those that fail it otherwise. The start is shuffled once; if the parity test
    /// disagrees with `solvable`, two tiles are exchanged, which changes its answer.
    pub fn generate(solvable: bool, size: i32, solution_type: &str) -> (r: Result<Puzzle, GoalError>)
        requires
            size <= 46340,
        ensures
            size < 3 ==> r == Err::<Puzzle, GoalError>(GoalError::InvalidSize(size)),
            size >= 3 ==> match goal_layout(size as int, solution_type@) {
                Some(g) => r matches Ok(p) && p.size == size && p.goal@ == g && p.is_well_formed()
                    && is_arrangement(size as int, p.map@, p.goal@) && crate::puzzle::solvable(
                    size as int,
                    p.map@,
                    p.goal@,
                ) == solvable,
                None => r == Err::<Puzzle, GoalError>(GoalError::UnknownSolutionType),
            },
    {
        let goal = match crate::goal::generate(size, solution_type) {
            Ok(g) => g,
            Err(e) => {
                return Err(e);
            },
        };
        let ghost n = size as int;
        proof {
            assert(n * n <= 46340 * 46340) by (nonlinear_arith)
                requires
                    3 <= n <= 46340,
            ;
        }
        let cells = size * size;
        let mut map: Node = Vec::new();
        let mut v: i32 = 0;
        while v < cells
            invariant
                cells == n * n,
                0 <= v <= cells,
                map@.len() == v,
                forall|i: int| 0 <= i < v ==> #[trigger] map@[i] == i,
            decreases cells - v,
        {
            map.push(v);
            v = v + 1;
        }
        proof {
            assert forall|a: int, b: int|
                0 <= a < map@.len() && 0 <= b < map@.len() && a != b implies map@[a] != map@[b] by {}
            assert forall|w: i32| 0 <= w < n * n implies #[trigger] map@.contains(w) by {
                assert(map@[w as int] == w);
            }
        }
        let ghost ordered = map@;
        shuffle_cells(&mut map);
        proof {
            lemma_rearranged_tile_set(n, ordered, map@);
            assert forall|i: int| 0 <= i < map@.len() && map@[i] != 0 implies goal@.contains(
                #[trigger] map@[i],
            ) by {
                assert(0 <= map@[i] < n * n);
                assert(goal@.contains(map@[i]));
            }
            assert(n * n >= 9) by (nonlinear_arith)
                requires
                    n >= 3,
            ;
            assert(map@.contains(0i32));
            assert(goal@.contains(0i32));
            assert(is_arrangement(n, map@, goal@));
        }
        if Puzzle::is_map_solvable(size, &map, &goal) != solvable {
            let p: usize = if map[0] == 0 {
                1
            } else {
                0
            };
            let q: usize = if map[0] == 0 || map[1] == 0 {
                2
            } else {
                1
            };
            proof {
                lemma_tile_swap_flips_solvability(n, map@, goal@, p as int, q as int);
                lemma_cells_swap(n, map@, goal@, p as int, q as int);
            }
            let ghost before = map@;
            let a = map[p];
            let b = map[q];
            map.set(p, b);
            map.set(q, a);
            proof {
                assert(map@ =~= swap_cells(before, p as int, q as int));
            }
        }
        Ok(Puzzle { size, map, goal })
    }
}

/// Why a puzzle file was refused.
#[derive(PartialEq, Eq, Debug)]
pub enum PuzzleError {
    /// A word before any `#` is not an integer.
    InvalidNumber,
    /// The first line with values holds more than one.
    SizeLine,
    /// A row holds a number of cells other than the size.
    RowLength,
    /// A second empty cell.
    SeveralBlanks,
    /// The rows hold a number of cells other than the square of the size.
    CellCount(usize),
    /// The size is too large for the solver's arithmetic.
    SizeTooLarge(i32),
    /// A value outside `0 .. size * size`.
    InvalidCell(i32),
    /// A value met twice.
    DuplicateCell(i32),
    /// Some value of `0 .. size * size` is not there.
    MissingCells,
    /// No goal can be made for this size and layout name.
    Goal(GoalError),
}

/// What the lines read so far gave: the size (`0` until a line gives it), whether an
/// empty cell was met, and the cells.
pub open spec fn read_lines(lines: Seq<Seq<u8>>) -> Result<(int, bool, Seq<i32>), PuzzleError>
    decreases lines.len(),
{
    if lines.len() == 0 {
        Ok((0, false, Seq::<i32>::empty()))
    } else {
        match read_lines(lines.drop_last()) {
            Err(e) => Err(e),
            Ok((size, seen, cells)) => match line_values(lines.last()) {
                None => Err(PuzzleError::InvalidNumber),
                Some(vs) => if vs.len() == 0 {
                    Ok((size, seen, cells))
                } else if size == 0 {
                    if vs.len() != 1 {
                        Err(PuzzleError::SizeLine)
                    } else {
                        Ok((vs[0] as int, seen, cells))
                    }
                } else if vs.len() != size {
                    Err(PuzzleError::RowLength)
                } else if blanks(vs) > 1 || (seen && blanks(vs) > 0) {
                    Err(PuzzleError::SeveralBlanks)
                } else {
                    Ok((size, seen || blanks(vs) > 0, cells + vs))
                },
            },
        }
    }
}

/// Number of `0` in `vs`.
pub open spec fn blanks(vs: Seq<i32>) -> int
    decreases vs.len(),
{
    if vs.len() == 0 {
        0
    } else {
        blanks(vs.drop_last()) + if vs.last() == 0 {
            1int
        } else {
            0
        }
    }
}

/// The size and the cells that a puzzle file gives: a first line with the size, then
/// rows of cells, `#` starting a comment.
pub open spec fn content_spec(content: Seq<u8>) -> Result<(int, Seq<i32>), PuzzleError> {
    match read_lines(split_lines(content)) {
        Err(e) => Err(e),
        Ok((size, _, cells)) => if cells.len() != size * size {
            Err(PuzzleError::CellCount(cells.len() as usize))
        } else {
            Ok((size, cells))
        },
    }
}

/// Counts the `0` of `vs`.
fn count_blanks(vs: &Vec<i32>) -> (r: usize)
    ensures
        r == blanks(vs@),
        r <= vs@.len(),
{
    let mut count: usize = 0;
    let mut i: usize = 0;
    while i < vs.len()
        invariant
            i <= vs@.len(),
            count == blanks(vs@.subrange(0, i as int)),
            count <= i,
        decreases vs@.len() - i,
    {
        proof {
            assert(vs@.subrange(0, i + 1).drop_last() =~= vs@.subrange(0, i as int));
        }
        if vs[i] == 0 {
            count += 1;
        }
        i += 1;
    }
    proof {
        assert(vs@.subrange(0, vs@.len() as int) =~= vs@);
    }
    count
}

/// The first `i` values of `map` are valid and distinct, and `seen` records them.
pub open spec fn checked_prefix(size: int, map: Seq<i32>, seen: Seq<bool>, i: int) -> bool {
    &&& forall|k: int| 0 <= k < i ==> 0 <= #[trigger] map[k] < size * size
    &&& forall|a: int, b: int| 0 <= a < b < i ==> map[a] != map[b]
    &&& forall|v: int|
        0 <= v < size * size ==> (#[trigger] seen[v] <==> exists|k: int|
            0 <= k < i && map[k] == v)
}

/// The first value of `map` that is out of range or repeated, with its error.
pub open spec fn first_bad(size: int, map: Seq<i32>, i: int) -> Option<PuzzleError>
    decreases i,
{
    if i <= 0 {
        None
    } else {
        match first_bad(size, map, i - 1) {
            Some(e) => Some(e),
            None => {
                let v = map[i - 1];
                if v > size * size - 1 || v < 0 {
                    Some(PuzzleError::InvalidCell(v))
                } else if exists|k: int| 0 <= k < i - 1 && map[k] == v {
                    Some(PuzzleError::DuplicateCell(v))
                } else {
                    None
                }
            },
        }
    }
}

impl Puzzle {
    /// The values of a line of a puzzle file, as `parse_line` of the parse module gives.
    pub fn parse_line(line: &[u8]) -> (r: Result<Option<Vec<i32>>, PuzzleError>)
        ensures
            match line_values(line@) {
                None => r == Err::<Option<Vec<i32>>, PuzzleError>(PuzzleError::InvalidNumber),
                Some(vs) => if vs.len() == 0 {
                    r == Ok::<Option<Vec<i32>>, PuzzleError>(None)
                } else {
                    r matches Ok(Some(v)) && v@ == vs
                },
            },
    {
        match parse_line(line) {
            Ok(v) => Ok(v),
            Err(_) => Err(PuzzleError::InvalidNumber),
        }
    }

    /// The size and the cells of a puzzle file.
    pub fn parse_content(content: &[u8]) -> (r: Result<(i32, Node), PuzzleError>)
        ensures
            match content_spec(content@) {
                Err(e) => r == Err::<(i32, Node), PuzzleError>(e),
                Ok((size, cells)) => r matches Ok((s, m)) && s == size && m@ == cells,
            },
    {
        let lines = lines_of(content);
        let ghost all = byte_views(lines@);
        let mut size: i32 = 0;
        let mut seen_blank = false;
        let mut map: Node = Vec::new();
        let mut i: usize = 0;
        while i < lines.len()
            invariant
                i <= lines@.len(),
                all == byte_views(lines@),
                all == split_lines(content@),
                read_lines(all.subrange(0, i as int)) == Ok::<
                    (int, bool, Seq<i32>),
                    PuzzleError,
                >((size as int, seen_blank, map@)),
            decreases lines@.len() - i,
        {
            proof {
                assert(all.subrange(0, i + 1).drop_last() =~= all.subrange(0, i as int));
                assert(all.subrange(0, i + 1).last() == lines@[i as int]@);
            }
            let parsed = Puzzle::parse_line(lines[i].as_slice());
            match parsed {
                Err(e) => {
                    proof {
                        lemma_read_lines_error(all, i as int + 1, e);
                    }
                    return Err(e);
                },
                Ok(None) => {},
                Ok(Some(cols)) => {
                    if size == 0 {
                        if cols.len() != 1 {
                            proof {
                                lemma_read_lines_error(all, i as int + 1, PuzzleError::SizeLine);
                            }
                            return Err(PuzzleError::SizeLine);
                        }
                        size = cols[0];
                    } else {
                        if size < 0 || cols.len() != size as usize {
                            proof {
                                lemma_read_lines_error(all, i as int + 1, PuzzleError::RowLength);
                            }
                            return Err(PuzzleError::RowLength);
                        }
                        let zeros = count_blanks(&cols);
                        if zeros > 1 || (seen_blank && zeros > 0) {
                            proof {
                                lemma_read_lines_error(
                                    all,
                                    i as int + 1,
                                    PuzzleError::SeveralBlanks,
                                );
                            }
                            return Err(PuzzleError::SeveralBlanks);
                        }
                        if zeros > 0 {
                            seen_blank = true;
                        }
                        let mut k: usize = 0;
                        let ghost base = map@;
                        while k < cols.len()
                            invariant
                                k <= cols@.len(),
                                map@ == base + cols@.subrange(0, k as int),
                            decreases cols@.len() - k,
                        {
                            map.push(cols[k]);
                            proof {
                                assert(base + cols@.subrange(0, k + 1) =~= (base + cols@.subrange(
                                    0,
                                    k as int,
                                )).push(cols@[k as int]));
                            }
                            k += 1;
                        }
                        proof {
                            assert(cols@.subrange(0, cols@.len() as int) =~= cols@);
                        }
                    }
                },
            }
            i += 1;
        }
        proof {
            assert(all.subrange(0, all.len() as int) =~= all);
        }
        proof {
            assert((size as int) * (size as int) <= 0x4000_0000_0000_0000) by (nonlinear_arith)
                requires
                    -0x8000_0000 <= size <= 0x8000_0000,
            ;
            assert((size as int) * (size as int) >= 0) by (nonlinear_arith);
        }
        let square: i64 = (size as i64) * (size as i64);
        if map.len() as u128 != square as u128 {
            return Err(PuzzleError::CellCount(map.len()));
        }
        Ok((size, map))
    }

    /// Whether `map` holds each value of `0 .. size * size` once: the first value out of
    /// range or repeated is the error, and a value missing after that.
    pub fn check_validity(size: i32, map: &Node) -> (r: Result<(), PuzzleError>)
        requires
            1 <= size <= 46340,
            map@.len() == size * size,
        ensures
            match first_bad(size as int, map@, map@.len() as int) {
                Some(e) => r == Err::<(), PuzzleError>(e),
                None => if forall|t: i32| 0 <= t < size * size ==> #[trigger] map@.contains(t) {
                    r == Ok::<(), PuzzleError>(())
                } else {
                    r == Err::<(), PuzzleError>(PuzzleError::MissingCells)
                },
            },
            r is Ok ==> is_tile_set(size as int, map@),
    {
        proof {
            assert(size * size <= 46340 * 46340) by (nonlinear_arith)
                requires
                    1 <= size <= 46340,
            ;
        }
        let max_size = (size * size) - 1;
        let mut seen: Vec<bool> = Vec::new();
        let mut v: i32 = 0;
        while v <= max_size
            invariant
                max_size == size * size - 1,
                max_size < i32::MAX,
                0 <= v <= max_size + 1,
                seen@.len() == v,
                forall|k: int| 0 <= k < v ==> !#[trigger] seen@[k],
            decreases max_size + 1 - v,
        {
            seen.push(false);
            v = v + 1;
        }
        let mut i: usize = 0;
        while i < map.len()
            invariant
                max_size == size * size - 1,
                i <= map@.len(),
                seen@.len() == size * size,
                checked_prefix(size as int, map@, seen@, i as int),
                first_bad(size as int, map@, i as int) is None,
            decreases map@.len() - i,
        {
            let value = map[i];
            if value > max_size || value < 0 {
                proof {
                    lemma_first_bad_stays(size as int, map@, i as int + 1, map@.len() as int);
                }
                return Err(PuzzleError::InvalidCell(value));
            }
            let index = value as usize;
            if seen[index] {
                proof {
                    lemma_first_bad_stays(size as int, map@, i as int + 1, map@.len() as int);
                }
                return Err(PuzzleError::DuplicateCell(value));
            }
            proof {
                assert(!exists|k: int| 0 <= k < i && map@[k] == value);
            }
            seen.set(index, true);
            i += 1;
        }
        let mut w: usize = 0;
        while w < seen.len()
            invariant
                w <= seen@.len(),
                seen@.len() == size * size,
                size * size <= 46340 * 46340,
                map@.len() == size * size,
                first_bad(size as int, map@, map@.len() as int) is None,
                checked_prefix(size as int, map@, seen@, map@.len() as int),
                forall|k: int| 0 <= k < w ==> #[trigger] seen@[k],
            decreases seen@.len() - w,
        {
            if !seen[w] {
                proof {
                    assert(!seen@[w as int]);
                    if map@.contains(w as i32) {
                        let k = choose|k: int| 0 <= k < map@.len() && map@[k] == w as i32;
                        assert(map@[k] == w as int);
                    }
                    assert(!map@.contains(w as i32));
                }
                return Err(PuzzleError::MissingCells);
            }
            w += 1;
        }
        proof {
            assert forall|t: i32| 0 <= t < size * size implies #[trigger] map@.contains(t) by {
                assert(seen@[t as int]);
            }
            assert(map@.no_duplicates()) by {
                assert forall|a: int, b: int|
                    0 <= a < map@.len() && 0 <= b < map@.len() && a != b implies map@[a]
                    != map@[b] by {
                    if a > b {
                        assert(map@[b] != map@[a]);
                    }
                }
            }
        }
        Ok(())
    }
}

/// Once a line is refused, so is the whole file.
proof fn lemma_read_lines_error(all: Seq<Seq<u8>>, k: int, e: PuzzleError)
    requires
        0 < k <= all.len(),
        read_lines(all.subrange(0, k)) == Err::<(int, bool, Seq<i32>), PuzzleError>(e),
    ensures
        read_lines(all) == Err::<(int, bool, Seq<i32>), PuzzleError>(e),
    decreases all.len() - k,
{
    if k < all.len() {
        assert(all.subrange(0, k + 1).drop_last() =~= all.subrange(0, k));
        lemma_read_lines_error(all, k + 1, e);
    } else {
        assert(all.subrange(0, k) =~= all);
    }
}

/// Once a value is refused, the check ends on it.
proof fn lemma_first_bad_stays(size: int, map: Seq<i32>, k: int, n: int)
    requires
        0 < k <= n,
        first_bad(size, map, k) is Some,
    ensures
        first_bad(size, map, n) == first_bad(size, map, k),
    decreases n - k,
{
    if k < n {
        lemma_first_bad_stays(size, map, k, n - 1);
    }
}

/// Values in range without repeats pass the check.
proof fn lemma_no_bad_value(size: int, map: Seq<i32>, k: int)
    requires
        0 <= k <= map.len(),
        forall|i: int| 0 <= i < map.len() ==> 0 <= #[trigger] map[i] < size * size,
        map.no_duplicates(),
    ensures
        first_bad(size, map, k) is None,
    decreases k,
{
    if k > 0 {
        lemma_no_bad_value(size, map, k - 1);
        assert(!exists|j: int| 0 <= j < k - 1 && #[trigger] map[j] == map[k - 1]);
    }
}

/// Two tile sets of one side are arrangements of each other.
proof fn lemma_tile_sets_arrange(n: int, map: Seq<i32>, goal: Seq<i32>)
    requires
        1 <= n <= 46340,
        is_tile_set(n, map),
        is_tile_set(n, goal),
    ensures
        is_arrangement(n, map, goal),
{
    assert(n * n <= 46340 * 46340) by (nonlinear_arith)
        requires
            1 <= n <= 46340,
    ;
    assert(n * n >= 1) by (nonlinear_arith)
        requires
            1 <= n,
    ;
    assert(map.contains(0i32));
    assert(goal.contains(0i32));
    assert forall|i: int| 0 <= i < map.len() && map[i] != 0 implies goal.contains(
        #[trigger] map[i],
    ) by {
        assert(0 <= map[i] < n * n);
    }
}

impl Puzzle {
    /// The puzzle that a puzzle file describes, with the goal layout named
    /// `solution_type`. It is made when the file reads, its size lies in `3 ..= 46340`,
    /// its cells hold each value of `0 .. size * size` once, and the layout name is known.
    pub fn parse(content: &str, solution_type: &str) -> (r: Result<Puzzle, PuzzleError>)
        ensures
            content_spec(content.spec_bytes()) matches Err(e) ==> r == Err::<Puzzle, PuzzleError>(
                e,
            ),
            r matches Ok(p) ==> content_spec(content.spec_bytes()) == Ok::<
                (int, Seq<i32>),
                PuzzleError,
            >((p.size as int, p.map@)) && 3 <= p.size <= 46340 && is_tile_set(
                p.size as int,
                p.map@,
            ) && goal_layout(p.size as int, solution_type@) == Some(p.goal@)
                && p.is_well_formed() && is_arrangement(p.size as int, p.map@, p.goal@),
            (content_spec(content.spec_bytes()) matches Ok((size, cells)) && 3 <= size <= 46340
                && is_tile_set(size, cells) && goal_layout(size, solution_type@) is Some)
                ==> r is Ok,
    {
        let (size, map) = match Puzzle::parse_content(content.as_bytes()) {
            Ok(parsed) => parsed,
            Err(e) => {
                return Err(e);
            },
        };
        if size > 46340 {
            return Err(PuzzleError::SizeTooLarge(size));
        }
        if size >= 1 {
            match Puzzle::check_validity(size, &map) {
                Ok(()) => {},
                Err(e) => {
                    proof {
                        if is_tile_set(size as int, map@) {
                            lemma_no_bad_value(size as int, map@, map@.len() as int);
                        }
                    }
                    return Err(e);
                },
            }
        }
        let goal = match crate::goal::generate(size, solution_type) {
            Ok(g) => g,
            Err(e) => {
                return Err(PuzzleError::Goal(e));
            },
        };
        proof {
            lemma_tile_sets_arrange(size as int, map@, goal@);
        }
        Ok(Puzzle { size, map, goal })
    }
}

} // verus!
