use vstd::prelude::*;
use crate::snail::{cell_number, lemma_cell_number, SnailIterator};
use crate::state::Node;
use crate::text::text_equal;

verus! {

/// Why no goal layout was made.
#[derive(PartialEq, Eq, Debug)]
pub enum GoalError {
    /// The side is below 3.
    InvalidSize(i32),
    /// The layout name is not one of `snail`, `first`, `last`.
    UnknownSolutionType,
}

/// The cell at flat index `p` of the snail goal of side `n`: its number along the
/// clockwise spiral from the top-left corner, and `0` for the last cell of the spiral.
pub open spec fn snail_cell(n: int, p: int) -> int {
    let v = cell_number(n, p % n, p / n);
    if v == n * n {
        0
    } else {
        v
    }
}

/// `s` holds each of `0 .. n * n` exactly once.
pub open spec fn is_tile_set(n: int, s: Seq<i32>) -> bool {
    &&& s.len() == n * n
    &&& s.no_duplicates()
    &&& forall|i: int| 0 <= i < s.len() ==> 0 <= #[trigger] s[i] < n * n
    &&& forall|v: i32| 0 <= v < n * n ==> #[trigger] s.contains(v)
}

/// Some cell of the grid of side `n` gets the number `w` on the spiral.
pub open spec fn numbered(n: int, w: int) -> bool {
    exists|p: int| 0 <= p < n * n && #[trigger] cell_number(n, p % n, p / n) == w
}

/// The goal layout of side `n` named `name`, if the name is known.
pub open spec fn goal_layout(n: int, name: Seq<char>) -> Option<Seq<i32>> {
    if name == "snail"@ {
        Some(snail_goal(n))
    } else if name == "first"@ {
        Some(first_goal(n))
    } else if name == "last"@ {
        Some(last_goal(n))
    } else {
        None
    }
}

/// The snail goal of side `n`.
pub open spec fn snail_goal(n: int) -> Seq<i32> {
    Seq::new((n * n) as nat, |p: int| snail_cell(n, p) as i32)
}

/// The goal of side `n` with the blank first, then the tiles in order.
pub open spec fn first_goal(n: int) -> Seq<i32> {
    Seq::new((n * n) as nat, |p: int| p as i32)
}

/// The goal of side `n` with the tiles in order, then the blank.
pub open spec fn last_goal(n: int) -> Seq<i32> {
    Seq::new(
        (n * n) as nat,
        |p: int|
            if p == n * n - 1 {
                0
            } else {
                (p + 1) as i32
            },
    )
}

/// The snail goal: tiles numbered along a clockwise spiral from the top-left corner, the
/// blank where the spiral ends.
pub fn generate_snail(size: i32) -> (r: Node)
    requires
        1 <= size,
        size * size <= i32::MAX,
    ensures
        r@ == snail_goal(size as int),
        is_tile_set(size as int, r@),
{
    let ghost n = size as int;
    let puzzle_size = size * size;
    let mut solution: Node = Vec::new();
    let mut i: usize = 0;
    while i < puzzle_size as usize
        invariant
            n == size,
            puzzle_size == n * n,
            n * n <= i32::MAX,
            i <= puzzle_size,
            solution@.len() == i,
        decreases puzzle_size - i,
    {
        solution.push((i + 1) as i32);
        i = i + 1;
    }
    let mut iterator = SnailIterator::new(size);
    proof {
        assert(n * n >= 1) by (nonlinear_arith)
            requires
                n >= 1,
        ;
        assert forall|p: int| 0 <= p < n * n implies #[trigger] cell_number(n, p % n, p / n)
            >= 1 by {
            crate::heuristic::lemma_coords(n, p);
            lemma_cell_number(n, p % n, p / n, 0, 0);
        }
    }
    loop
        invariant
            n == size,
            1 <= n,
            n * n <= i32::MAX,
            solution@.len() == n * n,
            iterator.wf(),
            iterator.side() == n,
            forall|p: int|
                0 <= p < n * n && #[trigger] cell_number(n, p % n, p / n) < iterator.value()
                    ==> solution@[p] == cell_number(n, p % n, p / n),
            forall|w: int| 1 <= w < iterator.value() ==> #[trigger] numbered(n, w),
        ensures
            solution@.len() == n * n,
            iterator.wf(),
            iterator.side() == n,
            iterator.value() >= n * n,
            forall|p: int|
                0 <= p < n * n && #[trigger] cell_number(n, p % n, p / n) < iterator.value()
                    ==> solution@[p] == cell_number(n, p % n, p / n),
            forall|w: int| 1 <= w < iterator.value() ==> #[trigger] numbered(n, w),
        decreases n * n - iterator.value(),
    {
        proof {
            iterator.lemma_cursor();
        }
        let ghost x = iterator.column();
        let ghost y = iterator.row();
        let ghost before = iterator.value();
        match iterator.next() {
            Some((index, value)) => {
                proof {
                    assert(0 <= x + y * n < n * n) by (nonlinear_arith)
                        requires
                            0 <= x < n,
                            0 <= y < n,
                    ;
                    assert(index == x + y * n);
                    vstd::arithmetic::div_mod::lemma_fundamental_div_mod_converse(
                        index as int,
                        n,
                        y,
                        x,
                    );
                }
                solution.set(index, value);
                proof {
                    assert forall|p: int|
                        0 <= p < n * n && #[trigger] cell_number(n, p % n, p / n)
                            < iterator.value() implies solution@[p] == cell_number(
                        n,
                        p % n,
                        p / n,
                    ) by {
                        crate::heuristic::lemma_coords(n, p);
                        lemma_cell_number(n, p % n, p / n, x, y);
                    }
                    let pos = index as int;
                    assert(cell_number(n, pos % n, pos / n) == before);
                    assert forall|w: int| 1 <= w < iterator.value() implies #[trigger] numbered(
                        n,
                        w,
                    ) by {
                        if w == before {
                            assert(0 <= pos < n * n && cell_number(n, pos % n, pos / n) == w);
                        }
                    }
                }
            },
            None => {
                break ;
            },
        }
    }
    proof {
        iterator.lemma_cursor();
    }
    let last = iterator.position();
    let ghost filled = solution@;
    solution.set(last, 0);
    proof {
        let x = iterator.column();
        let y = iterator.row();
        vstd::arithmetic::div_mod::lemma_fundamental_div_mod_converse(last as int, n, y, x);
        lemma_cell_number(n, x, y, x, y);
        assert(iterator.value() == n * n);
        assert forall|p: int| 0 <= p < n * n implies #[trigger] solution@[p] == snail_goal(n)[p] by {
            crate::heuristic::lemma_coords(n, p);
            lemma_cell_number(n, p % n, p / n, x, y);
            let c = cell_number(n, p % n, p / n);
            if p == last {
                assert(c == n * n);
                assert(solution@[p] == 0);
            } else {
                assert(c != n * n);
                assert(c < iterator.value());
                assert(filled[p] == c);
                assert(solution@[p] == filled[p]);
            }
        }
        assert(solution@ =~= snail_goal(n));
        assert forall|i: int, j: int|
            0 <= i < solution@.len() && 0 <= j < solution@.len() && i != j implies solution@[i]
            != solution@[j] by {
            crate::heuristic::lemma_coords(n, i);
            crate::heuristic::lemma_coords(n, j);
            lemma_cell_number(n, i % n, i / n, j % n, j / n);
            lemma_cell_number(n, j % n, j / n, j % n, j / n);
            assert(solution@[i] == snail_goal(n)[i]);
            assert(solution@[j] == snail_goal(n)[j]);
        }
        assert forall|i: int| 0 <= i < solution@.len() implies 0 <= #[trigger] solution@[i] < n
            * n by {
            crate::heuristic::lemma_coords(n, i);
            lemma_cell_number(n, i % n, i / n, i % n, i / n);
            assert(solution@[i] == snail_goal(n)[i]);
        }
        assert(solution@.no_duplicates());
        assert forall|v: i32| 0 <= v < n * n implies #[trigger] solution@.contains(v) by {
            if v == 0 {
                assert(solution@[last as int] == 0);
            } else {
                assert(numbered(n, v as int));
                let p = choose|p: int|
                    0 <= p < n * n && #[trigger] cell_number(n, p % n, p / n) == v as int;
                assert(solution@[p] == snail_goal(n)[p]);
            }
        }
    }
    solution
}

/// The goal with the blank first, then the tiles in order.
pub fn generate_first(size: i32) -> (r: Node)
    requires
        1 <= size,
        size * size <= i32::MAX,
    ensures
        r@ == first_goal(size as int),
        is_tile_set(size as int, r@),
{
    let puzzle_size = size * size;
    proof {
        assert(size * size >= 1) by (nonlinear_arith)
            requires
                size >= 1,
        ;
    }
    let mut solution: Node = Vec::new();
    let mut v: i32 = 1;
    while v < puzzle_size
        invariant
            puzzle_size == size * size,
            1 <= v <= puzzle_size,
            solution@.len() == v - 1,
            forall|p: int| 0 <= p < v - 1 ==> solution@[p] == p + 1,
        decreases puzzle_size - v,
    {
        solution.push(v);
        v = v + 1;
    }
    solution.insert(0, 0);
    assert(solution@ =~= first_goal(size as int));
    assert forall|v: i32| 0 <= v < size * size implies #[trigger] solution@.contains(v) by {
        assert(solution@[v as int] == v);
    }
    solution
}

/// The goal with the tiles in order, then the blank.
pub fn generate_last(size: i32) -> (r: Node)
    requires
        1 <= size,
        size * size <= i32::MAX,
    ensures
        r@ == last_goal(size as int),
        is_tile_set(size as int, r@),
{
    let puzzle_size = size * size;
    proof {
        assert(size * size >= 1) by (nonlinear_arith)
            requires
                size >= 1,
        ;
    }
    let mut solution: Node = Vec::new();
    let mut v: i32 = 1;
    while v < puzzle_size
        invariant
            puzzle_size == size * size,
            1 <= v <= puzzle_size,
            solution@.len() == v - 1,
            forall|p: int| 0 <= p < v - 1 ==> solution@[p] == p + 1,
        decreases puzzle_size - v,
    {
        solution.push(v);
        v = v + 1;
    }
    solution.push(0);
    assert(solution@ =~= last_goal(size as int));
    assert forall|v: i32| 0 <= v < size * size implies #[trigger] solution@.contains(v) by {
        if v == 0 {
            assert(solution@[size * size - 1] == 0);
        } else {
            assert(solution@[v - 1] == v);
        }
    }
    solution
}

/// The goal layout named `solution_type` (`snail`, `first` or `last`) for a grid of side
/// `size`, which must be at least 3.
pub fn generate(size: i32, solution_type: &str) -> (r: Result<Node, GoalError>)
    requires
        size <= 46340,
    ensures
        size < 3 ==> r == Err::<Node, GoalError>(GoalError::InvalidSize(size)),
        size >= 3 ==> match goal_layout(size as int, solution_type@) {
            Some(g) => r matches Ok(v) && v@ == g && is_tile_set(size as int, g),
            None => r == Err::<Node, GoalError>(GoalError::UnknownSolutionType),
        },
{
    proof {
        reveal_strlit("snail");
        reveal_strlit("first");
        reveal_strlit("last");
        assert("snail"@[0] != "first"@[0]);
        assert("snail"@[0] != "last"@[0]);
        assert("first"@[0] != "last"@[0]);
    }
    if size < 3 {
        return Err(GoalError::InvalidSize(size));
    }
    proof {
        assert(size * size <= 46340 * 46340) by (nonlinear_arith)
            requires
                3 <= size <= 46340,
        ;
    }
    if text_equal(solution_type, "snail") {
        return Ok(generate_snail(size));
    } else if text_equal(solution_type, "first") {
        return Ok(generate_first(size));
    } else if text_equal(solution_type, "last") {
        return Ok(generate_last(size));
    }
    Err(GoalError::UnknownSolutionType)
}

} // verus!
