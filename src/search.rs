use vstd::prelude::*;
use crate::text::text_equal;
use crate::heuristic::{
    lemma_one_move_changes_estimate_by_one,
    euclidean_distance_squared, euclidean_squared_spec, floor_sqrt, hamming, hamming_spec,
    lemma_estimates_zero_at_goal, linear_conflicts, linear_conflicts_spec, manhattan,
    manhattan_spec, tiles_match,
};
use crate::state::{
    blank_of, is_grid, is_walk, lemma_move_in_grid, move_target, moved, slide, Direction, Node,
};

verus! {

/// How the search ranks the states it has still to expand.
#[derive(Clone, Copy, Debug, PartialEq, Eq)]
pub enum Mode {
    /// Moves so far plus the heuristic estimate.
    Normal,
    /// The heuristic estimate alone.
    Greedy,
    /// Moves so far alone.
    Uniform,
}

/// The estimates that can guide a search.
#[derive(Clone, Copy, Debug, PartialEq, Eq)]
pub enum Heuristic {
    Hamming,
    Manhattan,
    Euclidean,
    LinearConflicts,
}

/// `r` is the integer square root of `s`, rounded down.
pub open spec fn is_floor_sqrt(r: int, s: int) -> bool {
    0 <= r && r * r <= s < (r + 1) * (r + 1)
}

/// The value that the heuristic `h` gives to `node` on the way to `goal`.
pub open spec fn heuristic_value(h: Heuristic, size: int, node: Seq<i32>, goal: Seq<i32>) -> int {
    match h {
        Heuristic::Hamming => hamming_spec(node, goal),
        Heuristic::Manhattan => manhattan_spec(size, node, goal),
        Heuristic::Euclidean => choose|r: int| is_floor_sqrt(r, euclidean_squared_spec(size, node, goal)),
        Heuristic::LinearConflicts => linear_conflicts_spec(size, node, goal),
    }
}

/// The rank of a state that is `g` moves from the start and estimated `h` moves from
/// the goal; a sum too large for `u64` stays at `u64::MAX`.
pub open spec fn priority(mode: Mode, g: int, h: int) -> int {
    match mode {
        Mode::Normal => if g + h > u64::MAX {
            u64::MAX as int
        } else {
            g + h
        },
        Mode::Greedy => h,
        Mode::Uniform => g,
    }
}

proof fn lemma_floor_sqrt_unique(r1: int, r2: int, s: int)
    requires
        is_floor_sqrt(r1, s),
        is_floor_sqrt(r2, s),
    ensures
        r1 == r2,
{
    if r1 < r2 {
        assert((r1 + 1) * (r1 + 1) <= r2 * r2) by (nonlinear_arith)
            requires
                0 <= r1 + 1 <= r2,
        ;
    }
    if r2 < r1 {
        assert((r2 + 1) * (r2 + 1) <= r1 * r1) by (nonlinear_arith)
            requires
                0 <= r2 + 1 <= r1,
        ;
    }
}

/// Every heuristic estimates zero moves from a goal to itself.
pub proof fn lemma_heuristic_zero_at_goal(h: Heuristic, size: int, goal: Seq<i32>)
    requires
        tiles_match(size, goal, goal),
        forall|a: int, b: int|
            0 <= a < goal.len() && 0 <= b < goal.len() && a != b ==> goal[a] != goal[b],
    ensures
        heuristic_value(h, size, goal, goal) == 0,
{
    lemma_estimates_zero_at_goal(size, goal);
    if h == Heuristic::Euclidean {
        let c = choose|c: int| is_floor_sqrt(c, euclidean_squared_spec(size, goal, goal));
        assert(is_floor_sqrt(0, 0));
        lemma_floor_sqrt_unique(c, 0, 0);
    }
}

impl Heuristic {
    /// The estimate of the moves from `node` to `goal`; the straight-line distance is
    /// rounded down to an integer.
    pub fn evaluate(&self, size: i32, node: &[i32], goal: &[i32]) -> (r: u64)
        requires
            tiles_match(size as int, node@, goal@),
        ensures
            r == heuristic_value(*self, size as int, node@, goal@),
    {
        match self {
            Heuristic::Hamming => hamming(size, node, goal),
            Heuristic::Manhattan => manhattan(size, node, goal),
            Heuristic::Euclidean => {
                let s = euclidean_distance_squared(size, node, goal);
                let r = floor_sqrt(s);
                proof {
                    let c = choose|c: int| is_floor_sqrt(c, s as int);
                    assert(is_floor_sqrt(r as int, s as int));
                    lemma_floor_sqrt_unique(c, r as int, s as int);
                }
                r
            },
            Heuristic::LinearConflicts => linear_conflicts(size, node, goal),
        }
    }
}

/// The rank of a state `g` moves from the start with estimate `h`.
pub fn rank(mode: &Mode, g: u64, h: u64) -> (r: u64)
    ensures
        r == priority(*mode, g as int, h as int),
{
    match mode {
        Mode::Normal => g.saturating_add(h),
        Mode::Greedy => h,
        Mode::Uniform => g,
    }
}

/// The rank of a state that is `g` moves from the start and estimated `h` moves from
/// the goal, without any rounding.
pub open spec fn exact_priority(mode: Mode, g: int, h: int) -> int {
    match mode {
        Mode::Normal => g + h,
        Mode::Greedy => h,
        Mode::Uniform => g,
    }
}

/// The exact rank of a state `g` moves from the start with estimate `h`.
pub fn exact_rank(mode: &Mode, g: u64, h: u64) -> (r: u128)
    ensures
        r == exact_priority(*mode, g as int, h as int),
{
    match mode {
        Mode::Normal => g as u128 + h as u128,
        Mode::Greedy => h as u128,
        Mode::Uniform => g as u128,
    }
}

/// A path found by a search, with what the search spent on it.
pub struct Solution {
    /// How many states the search took up for evaluation.
    pub total_used_states: u64,
    /// The most states the search held at once.
    pub biggest_state: usize,
    /// The states from the start to the goal, both included.
    pub steps: Vec<Node>,
}

/// Why a search returned no path.
#[derive(PartialEq, Eq, Debug)]
pub enum SolveError {
    /// No path leads from the start to the goal.
    NoSolution,
}

pub open spec fn steps_view(steps: Seq<Node>) -> Seq<Seq<i32>> {
    steps.map_values(|s: Node| s@)
}

/// `steps` leads from `start` to `goal` by legal slides of the blank.
pub open spec fn is_solution_path(
    size: int,
    start: Seq<i32>,
    goal: Seq<i32>,
    steps: Seq<Seq<i32>>,
) -> bool {
    &&& steps.len() >= 1
    &&& steps[0] == start
    &&& steps[steps.len() - 1] == goal
    &&& is_walk(size, steps)
}

/// The state reached by a legal slide is again a grid whose tiles have places in `goal`.
pub proof fn lemma_moved_well_formed(size: int, s: Seq<i32>, goal: Seq<i32>, d: Direction)
    requires
        is_grid(size, s),
        tiles_match(size, s, goal),
        moved(size, s, d) is Some,
    ensures
        is_grid(size, moved(size, s, d)->0),
        tiles_match(size, moved(size, s, d)->0, goal),
{
    lemma_move_in_grid(size, s, d);
    let b = blank_of(s);
    let t = move_target(size, b, d);
    let m = slide(s, b, t);
    assert(m[t] == 0);
    assert forall|i: int| 0 <= i < m.len() && m[i] != 0 implies goal.contains(#[trigger] m[i]) by {
        if i == b {
            assert(goal.contains(s[t]));
        } else {
            assert(goal.contains(s[i]));
        }
    }
}

/// Whether `a` and `b` hold the same cells.
pub fn same_state(a: &[i32], b: &[i32]) -> (r: bool)
    ensures
        r == (a@ == b@),
{
    if a.len() != b.len() {
        return false;
    }
    let mut i: usize = 0;
    while i < a.len()
        invariant
            a@.len() == b@.len(),
            i <= a@.len(),
            forall|k: int| 0 <= k < i ==> a@[k] == b@[k],
        decreases a@.len() - i,
    {
        if a[i] != b[i] {
            return false;
        }
        i += 1;
    }
    assert(a@ =~= b@);
    true
}

/// A copy of the cells of `s`.
pub fn copy_state(s: &[i32]) -> (r: Node)
    ensures
        r@ == s@,
{
    vstd::slice::slice_to_vec(s)
}

impl Mode {
    /// The mode named `name`: `greedy`, `uniform`, and normal for any other name.
    pub fn from_name(name: &str) -> (r: Mode)
        ensures
            r == (if name@ == "greedy"@ {
                Mode::Greedy
            } else if name@ == "uniform"@ {
                Mode::Uniform
            } else {
                Mode::Normal
            }),
    {
        if text_equal(name, "greedy") {
            Mode::Greedy
        } else if text_equal(name, "uniform") {
            Mode::Uniform
        } else {
            Mode::Normal
        }
    }
}

impl Heuristic {
    /// The heuristic named `name`: `manhattan`, `euclidean`, `hamming` or
    /// `linear-conflicts`.
    pub fn from_name(name: &str) -> (r: Option<Heuristic>)
        ensures
            r == (if name@ == "manhattan"@ {
                Some(Heuristic::Manhattan)
            } else if name@ == "euclidean"@ {
                Some(Heuristic::Euclidean)
            } else if name@ == "hamming"@ {
                Some(Heuristic::Hamming)
            } else if name@ == "linear-conflicts"@ {
                Some(Heuristic::LinearConflicts)
            } else {
                None
            }),
    {
        if text_equal(name, "manhattan") {
            Some(Heuristic::Manhattan)
        } else if text_equal(name, "euclidean") {
            Some(Heuristic::Euclidean)
        } else if text_equal(name, "hamming") {
            Some(Heuristic::Hamming)
        } else if text_equal(name, "linear-conflicts") {
            Some(Heuristic::LinearConflicts)
        } else {
            None
        }
    }
}

/// The two search engines.
#[derive(Clone, Copy, Debug, PartialEq, Eq)]
pub enum Variant {
    /// Iterative deepening, holding only the current branch.
    IdaStar,
    /// Best-first search over every state met.
    AStar,
}

impl Variant {
    /// The engine named `name`: `ida*` or `a*`.
    pub fn from_name(name: &str) -> (r: Option<Variant>)
        ensures
            r == (if name@ == "ida*"@ {
                Some(Variant::IdaStar)
            } else if name@ == "a*"@ {
                Some(Variant::AStar)
            } else {
                None
            }),
    {
        if text_equal(name, "ida*") {
            Some(Variant::IdaStar)
        } else if text_equal(name, "a*") {
            Some(Variant::AStar)
        } else {
            None
        }
    }

    /// Runs this engine on `puzzle`.
    pub fn solve(&self, puzzle: &crate::puzzle::Puzzle, mode: Mode, heuristic: Heuristic) -> (r:
        Result<Solution, SolveError>)
        requires
            puzzle.is_well_formed(),
        ensures
            r matches Ok(sol) ==> is_solution_path(
                puzzle.size as int,
                puzzle.map@,
                puzzle.goal@,
                steps_view(sol.steps@),
            ) && sol.total_used_states >= 1 && sol.biggest_state >= 1,
            r matches Ok(sol) ==> forall|a: int, b: int|
                0 <= a < sol.steps@.len() && 0 <= b < sol.steps@.len() && a != b
                    ==> #[trigger] sol.steps@[a]@ != #[trigger] sol.steps@[b]@,
            puzzle.map@ == puzzle.goal@ ==> (r matches Ok(sol) && sol.steps@.len() == 1
                && sol.total_used_states == 1),
            crate::parity::is_arrangement(puzzle.size as int, puzzle.map@, puzzle.goal@)
                && !crate::puzzle::solvable(puzzle.size as int, puzzle.map@, puzzle.goal@)
                ==> r is Err,
            r matches Err(SolveError::NoSolution) ==> forall|steps: Seq<Seq<i32>>|
                !#[trigger] is_solution_path(puzzle.size as int, puzzle.map@, puzzle.goal@, steps),
            r is Ok <==> exists|steps: Seq<Seq<i32>>|
                #[trigger] is_solution_path(puzzle.size as int, puzzle.map@, puzzle.goal@, steps),
            *self == Variant::AStar && never_overestimates(mode, heuristic) ==> (r matches Ok(sol)
                ==> forall|
                steps: Seq<Seq<i32>>,
            |
                #[trigger] is_solution_path(puzzle.size as int, puzzle.map@, puzzle.goal@, steps)
                    ==> sol.steps@.len() <= steps.len()),
            *self == Variant::IdaStar && never_overestimates(mode, heuristic)
                && crate::parity::is_arrangement(puzzle.size as int, puzzle.map@, puzzle.goal@)
                ==> (r matches Ok(sol) ==> forall|steps: Seq<Seq<i32>>|
                #[trigger] is_solution_path(puzzle.size as int, puzzle.map@, puzzle.goal@, steps)
                    ==> sol.steps@.len() <= steps.len()),
    {
        match self {
            Variant::IdaStar => crate::ida_star::solve(puzzle, mode, heuristic),
            Variant::AStar => crate::a_star::solve(puzzle, mode, heuristic),
        }
    }
}

/// The mode and estimate rank no state above the moves it still needs: uniform mode, or
/// normal mode with the Manhattan or Hamming distance.
pub open spec fn never_overestimates(mode: Mode, heuristic: Heuristic) -> bool {
    mode == Mode::Uniform || (mode == Mode::Normal && (heuristic == Heuristic::Manhattan
        || heuristic == Heuristic::Hamming))
}

/// The states of a walk from a well-formed grid are well-formed grids.
pub proof fn lemma_walk_well_formed(size: int, goal: Seq<i32>, w: Seq<Seq<i32>>, k: int)
    requires
        w.len() >= 1,
        is_walk(size, w),
        is_grid(size, w[0]),
        tiles_match(size, w[0], goal),
        0 <= k < w.len(),
    ensures
        is_grid(size, w[k]),
        tiles_match(size, w[k], goal),
    decreases k,
{
    if k > 0 {
        lemma_walk_well_formed(size, goal, w, k - 1);
        assert(crate::state::is_move(size, w[k - 1], w[k]));
        let d = choose|d: Direction| #[trigger] moved(size, w[k - 1], d) == Some(w[k]);
        lemma_moved_well_formed(size, w[k - 1], goal, d);
    }
}

/// The Manhattan and Hamming distances of a state on a walk that ends at the goal are no
/// more than the moves left on that walk.
pub proof fn lemma_estimate_admissible(
    heuristic: Heuristic,
    size: int,
    goal: Seq<i32>,
    w: Seq<Seq<i32>>,
    k: int,
)
    requires
        heuristic == Heuristic::Manhattan || heuristic == Heuristic::Hamming,
        w.len() >= 1,
        is_walk(size, w),
        is_grid(size, w[0]),
        tiles_match(size, w[0], goal),
        w[w.len() - 1] == goal,
        forall|a: int, b: int|
            0 <= a < goal.len() && 0 <= b < goal.len() && a != b ==> goal[a] != goal[b],
        0 <= k < w.len(),
    ensures
        heuristic_value(heuristic, size, w[k], goal) <= w.len() - 1 - k,
    decreases w.len() - k,
{
    lemma_walk_well_formed(size, goal, w, k);
    if k == w.len() - 1 {
        lemma_heuristic_zero_at_goal(heuristic, size, goal);
    } else {
        lemma_estimate_admissible(heuristic, size, goal, w, k + 1);
        assert(crate::state::is_move(size, w[k], w[k + 1]));
        let d = choose|d: Direction| #[trigger] moved(size, w[k], d) == Some(w[k + 1]);
        lemma_one_move_changes_estimate_by_one(size, w[k], goal, d);
    }
}

/// Along a walk to the goal, each state ranks no higher than the length of the walk, when
/// the mode and estimate never overestimate.
pub proof fn lemma_rank_within_length(
    mode: Mode,
    heuristic: Heuristic,
    size: int,
    goal: Seq<i32>,
    w: Seq<Seq<i32>>,
    k: int,
)
    requires
        never_overestimates(mode, heuristic),
        w.len() >= 1,
        is_walk(size, w),
        is_grid(size, w[0]),
        tiles_match(size, w[0], goal),
        w[w.len() - 1] == goal,
        forall|a: int, b: int|
            0 <= a < goal.len() && 0 <= b < goal.len() && a != b ==> goal[a] != goal[b],
        0 <= k < w.len(),
    ensures
        priority(mode, k, heuristic_value(heuristic, size, w[k], goal)) <= w.len() - 1,
{
    if mode == Mode::Normal {
        lemma_estimate_admissible(heuristic, size, goal, w, k);
    }
}

/// Two paths from `start` to `goal`, each no longer than any other, have the same length:
/// where both engines return shortest paths, their paths agree in length.
pub proof fn lemma_shortest_paths_agree(
    size: int,
    start: Seq<i32>,
    goal: Seq<i32>,
    a: Seq<Seq<i32>>,
    b: Seq<Seq<i32>>,
)
    requires
        is_solution_path(size, start, goal, a),
        is_solution_path(size, start, goal, b),
        forall|steps: Seq<Seq<i32>>|
            #[trigger] is_solution_path(size, start, goal, steps) ==> a.len() <= steps.len(),
        forall|steps: Seq<Seq<i32>>|
            #[trigger] is_solution_path(size, start, goal, steps) ==> b.len() <= steps.len(),
    ensures
        a.len() == b.len(),
{
}

} // verus!
