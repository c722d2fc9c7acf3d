use vstd::prelude::*;
use vstd::arithmetic::power::pow;
use crate::count::{lemma_distinct_states_bound, placed};
use crate::heuristic::tiles_match;
use crate::parity::{is_arrangement, lemma_unsolvable_has_no_path};
use crate::puzzle::{solvable, Puzzle};
use crate::search::{
    lemma_heuristic_zero_at_goal, lemma_rank_within_length, never_overestimates,
    copy_state, heuristic_value, is_solution_path, lemma_moved_well_formed, priority, rank,
    same_state, steps_view, Heuristic, Mode, Solution, SolveError,
};
use crate::state::{
    direction_rank, is_grid, is_move, is_walk, moved, neighbors, opt_view, Direction, Node,
};

verus! {

/// What a search has spent so far.
pub struct Summary {
    /// How many states were taken up for evaluation.
    pub total_used_states: u64,
    /// The longest branch held at once.
    pub biggest_state: usize,
}

/// The branch under exploration: the states from the start to the current one, the
/// number of moves it holds, and the rank beyond which no state is expanded.
pub struct Branch {
    pub path: Vec<Node>,
    pub depth: u64,
    pub bound: u64,
}

/// What the exploration of a branch gave.
pub struct BranchResult {
    /// The least rank met beyond the bound, or `None` if no state exceeded it.
    pub score: Option<u64>,
    /// The goal, when the branch reached it.
    pub result: Option<Node>,
}

/// `path` starts at `start`, goes by legal slides, never holds a state twice, and holds
/// grids whose tiles have places in `goal`.
pub open spec fn is_branch(size: int, start: Seq<i32>, goal: Seq<i32>, path: Seq<Node>) -> bool {
    &&& path.len() >= 1
    &&& forall|a: int, b: int|
        0 <= a < path.len() && 0 <= b < path.len() && a != b ==> #[trigger] path[a]@
            != #[trigger] path[b]@
    &&& path[0]@ == start
    &&& is_walk(size, steps_view(path))
    &&& forall|i: int|
        0 <= i < path.len() ==> is_grid(size, #[trigger] path[i]@) && tiles_match(
            size,
            path[i]@,
            goal,
        )
}

/// `w` extends `path` by legal slides and never holds a state twice.
pub open spec fn simple_extension(size: int, path: Seq<Seq<i32>>, w: Seq<Seq<i32>>) -> bool {
    &&& w.len() >= path.len()
    &&& w.subrange(0, path.len() as int) == path
    &&& is_walk(size, w)
    &&& forall|a: int, b: int|
        0 <= a < w.len() && 0 <= b < w.len() && a != b ==> #[trigger] w[a] != #[trigger] w[b]
}

/// Every path from `start` to `goal` can be cut down to one that never repeats a state.
pub proof fn lemma_simple_path(
    size: int,
    start: Seq<i32>,
    goal: Seq<i32>,
    steps: Seq<Seq<i32>>,
) -> (w: Seq<Seq<i32>>)
    requires
        is_solution_path(size, start, goal, steps),
    ensures
        is_solution_path(size, start, goal, w),
        w.len() <= steps.len(),
        forall|a: int, b: int|
            0 <= a < w.len() && 0 <= b < w.len() && a != b ==> #[trigger] w[a] != #[trigger] w[b],
    decreases steps.len(),
{
    if forall|a: int, b: int|
        0 <= a < steps.len() && 0 <= b < steps.len() && a != b ==> #[trigger] steps[a]
            != #[trigger] steps[b] {
        steps
    } else {
        let (a, b) = choose|a: int, b: int|
            0 <= a < steps.len() && 0 <= b < steps.len() && a != b && #[trigger] steps[a]
                == #[trigger] steps[b];
        let i = if a < b {
            a
        } else {
            b
        };
        let j = if a < b {
            b
        } else {
            a
        };
        let n = steps.len() as int;
        let cut = steps.subrange(0, i + 1) + steps.subrange(j + 1, n);
        assert(cut.len() == n - (j - i));
        assert(cut[0] == steps[0]);
        assert(cut[cut.len() - 1] == goal) by {
            if j == n - 1 {
                assert(cut[cut.len() - 1] == steps[i]);
            } else {
                assert(cut[cut.len() - 1] == steps[n - 1]);
            }
        }
        assert forall|k: int| 0 <= k < cut.len() - 1 implies is_move(
            size,
            #[trigger] cut[k],
            cut[k + 1],
        ) by {
            if k < i {
                assert(cut[k] == steps[k]);
                assert(cut[k + 1] == steps[k + 1]);
            } else if k == i {
                assert(cut[k] == steps[j]);
                assert(cut[k + 1] == steps[j + 1]);
            } else {
                assert(cut[k] == steps[k - i + j]);
                assert(cut[k + 1] == steps[k - i + j + 1]);
            }
        }
        lemma_simple_path(size, start, goal, cut)
    }
}

/// Every state of `w` from position `from` on ranks within `bound`, its depth being its
/// position.
pub open spec fn within_bound(
    mode: Mode,
    heuristic: Heuristic,
    size: int,
    goal: Seq<i32>,
    bound: int,
    w: Seq<Seq<i32>>,
    from: int,
) -> bool {
    forall|k: int|
        from <= k < w.len() ==> priority(
            mode,
            k,
            heuristic_value(heuristic, size, #[trigger] w[k], goal),
        ) <= bound
}

/// A branch never holds more states than there are grids of its side over the cells of
/// the goal.
proof fn lemma_branch_bound(puzzle: &Puzzle, path: Seq<Node>)
    requires
        puzzle.is_well_formed(),
        is_branch(puzzle.size as int, puzzle.map@, puzzle.goal@, path),
    ensures
        path.len() <= pow(
            puzzle.size * puzzle.size,
            (puzzle.size * puzzle.size) as nat,
        ),
{
    let n = puzzle.size as int;
    let states = steps_view(path);
    let goal = puzzle.goal@;
    assert forall|i: int| 0 <= i < states.len() implies #[trigger] states[i].len() == (n
        * n) as nat && placed(goal, states[i]) by {
        assert(states[i] == path[i]@);
        assert forall|k: int| 0 <= k < states[i].len() implies goal.contains(
            #[trigger] states[i][k],
        ) by {
            if states[i][k] == 0 {
                assert(goal.contains(0i32));
            }
        }
    }
    assert forall|a: int, b: int|
        0 <= a < states.len() && 0 <= b < states.len() && a != b implies #[trigger] states[a]
        != #[trigger] states[b] by {
        assert(states[a] == path[a]@);
        assert(states[b] == path[b]@);
    }
    lemma_distinct_states_bound(goal, states, (n * n) as nat);
}

/// Whether one of the states of `path` is `s`.
fn path_contains(path: &Vec<Node>, s: &[i32]) -> (r: bool)
    ensures
        r == exists|i: int| 0 <= i < path@.len() && path@[i]@ == s@,
{
    let mut i: usize = 0;
    while i < path.len()
        invariant
            i <= path@.len(),
            forall|k: int| 0 <= k < i ==> path@[k]@ != s@,
        decreases path@.len() - i,
    {
        if same_state(path[i].as_slice(), s) {
            return true;
        }
        i += 1;
    }
    false
}

proof fn lemma_branch_push(size: int, start: Seq<i32>, goal: Seq<i32>, path: Seq<Node>, nb: Node)
    requires
        is_branch(size, start, goal, path),
        is_move(size, path[path.len() - 1]@, nb@),
        is_grid(size, nb@),
        tiles_match(size, nb@, goal),
        forall|i: int| 0 <= i < path.len() ==> path[i]@ != nb@,
    ensures
        is_branch(size, start, goal, path.push(nb)),
{
    let p = path.push(nb);
    let v = steps_view(p);
    let w = steps_view(path);
    assert forall|i: int| 0 <= i < v.len() - 1 implies is_move(size, #[trigger] v[i], v[i + 1]) by {
        if i < path.len() - 1 {
            assert(v[i] == w[i]);
            assert(v[i + 1] == w[i + 1]);
        }
    }
    assert forall|a: int, b: int|
        0 <= a < p.len() && 0 <= b < p.len() && a != b implies #[trigger] p[a]@ != #[trigger] p[b]@ by {
        if a < path.len() {
            assert(p[a] == path[a]);
        }
        if b < path.len() {
            assert(p[b] == path[b]);
        }
    }
    assert forall|i: int| 0 <= i < p.len() implies is_grid(size, #[trigger] p[i]@) && tiles_match(
        size,
        p[i]@,
        goal,
    ) by {
        if i < path.len() {
            assert(p[i] == path[i]);
        }
    }
}

/// Depth-first exploration of the branch ending at the last state of `branch.path`: a
/// state ranked beyond `branch.bound` ends it, the goal ends the whole search, and
/// otherwise each neighbour that is not already on the branch is explored in turn.
///
/// When the goal is reached the path is left leading to it; otherwise the branch comes
/// back as it was and no extension that stays within the bound reaches the goal. A score
/// exceeds the bound and is no higher than the highest rank along any extension that
/// reaches the goal without repeating a state; it is `None` only when no such extension
/// exists.
pub fn evaluate_branch(
    puzzle: &Puzzle,
    summary: &mut Summary,
    branch: &mut Branch,
    heuristic: &Heuristic,
    mode: &Mode,
) -> (r: BranchResult)
    requires
        puzzle.is_well_formed(),
        is_branch(puzzle.size as int, puzzle.map@, puzzle.goal@, old(branch).path@),
        old(branch).depth == old(branch).path@.len() - 1,
        old(summary).biggest_state >= old(branch).path@.len(),
    ensures
        final(branch).bound == old(branch).bound,
        final(summary).biggest_state >= final(branch).path@.len(),
        r.result is Some ==> {
            &&& r.result->0@ == puzzle.goal@
            &&& is_branch(puzzle.size as int, puzzle.map@, puzzle.goal@, final(branch).path@)
            &&& final(branch).path@.len() >= old(branch).path@.len()
            &&& forall|i: int|
                0 <= i < old(branch).path@.len() ==> #[trigger] final(branch).path@[i]
                    == old(branch).path@[i]
        },
        ({
            let last = old(branch).path@[old(branch).path@.len() - 1]@;
            let f = priority(
                *mode,
                old(branch).depth as int,
                heuristic_value(*heuristic, puzzle.size as int, last, puzzle.goal@),
            );
            f > old(branch).bound && old(summary).total_used_states < u64::MAX ==> r.score == Some(
                f as u64,
            ) && r.result is None && final(summary).total_used_states == old(
                summary,
            ).total_used_states + 1
        }),
        r.result is None ==> forall|w: Seq<Seq<i32>>|
            #[trigger] simple_extension(puzzle.size as int, steps_view(old(branch).path@), w)
                && within_bound(
                *mode,
                *heuristic,
                puzzle.size as int,
                puzzle.goal@,
                old(branch).bound as int,
                w,
                old(branch).path@.len() - 1,
            ) ==> w[w.len() - 1] != puzzle.goal@,
        r.result is Some ==> priority(
            *mode,
            final(branch).path@.len() - 1,
            heuristic_value(
                *heuristic,
                puzzle.size as int,
                final(branch).path@[final(branch).path@.len() - 1]@,
                puzzle.goal@,
            ),
        ) <= old(branch).bound,
        r.result is None ==> forall|w: Seq<Seq<i32>>, c: int|
            #[trigger] simple_extension(puzzle.size as int, steps_view(old(branch).path@), w)
                && w[w.len() - 1] == puzzle.goal@ && #[trigger] within_bound(
                *mode,
                *heuristic,
                puzzle.size as int,
                puzzle.goal@,
                c,
                w,
                old(branch).path@.len() - 1,
            ) ==> r.score is Some && r.score->0 <= c,
        r.result is None && r.score is None ==> forall|w: Seq<Seq<i32>>|
            #[trigger] simple_extension(puzzle.size as int, steps_view(old(branch).path@), w)
                ==> w[w.len() - 1] != puzzle.goal@,
        final(summary).total_used_states >= old(summary).total_used_states,
        final(summary).biggest_state >= old(summary).biggest_state,
        old(summary).total_used_states < u64::MAX ==> final(summary).total_used_states > old(
            summary,
        ).total_used_states,
        r.result is Some ==> is_solution_path(
            puzzle.size as int,
            puzzle.map@,
            puzzle.goal@,
            steps_view(final(branch).path@),
        ),
        r.result is None ==> final(branch).path@ == old(branch).path@ && final(branch).depth == old(
            branch,
        ).depth,
        r.result is None && r.score is Some ==> r.score->0 > old(branch).bound,
        ({
            let last = old(branch).path@[old(branch).path@.len() - 1]@;
            let h = heuristic_value(*heuristic, puzzle.size as int, last, puzzle.goal@);
            last == puzzle.goal@ && priority(*mode, old(branch).depth as int, h) <= old(
                branch,
            ).bound && old(summary).total_used_states < u64::MAX ==> r.result is Some
                && final(branch).path@ == old(branch).path@ && final(summary).total_used_states
                == old(summary).total_used_states + 1
        }),
    decreases pow(puzzle.size * puzzle.size, (puzzle.size * puzzle.size) as nat) - old(
        branch,
    ).path@.len(),
{
    let ghost size = puzzle.size as int;
    proof {
        lemma_branch_bound(puzzle, branch.path@);
    }
    summary.total_used_states = summary.total_used_states.saturating_add(1);
    let last = branch.path.len() - 1;
    let node = copy_state(branch.path[last].as_slice());
    proof {
        let _ = branch.path@[last as int];
    }
    let h = heuristic.evaluate(puzzle.size, node.as_slice(), puzzle.goal.as_slice());
    let f = rank(mode, branch.depth, h);
    if f > branch.bound {
        proof {
            assert forall|w: Seq<Seq<i32>>|
                #[trigger] simple_extension(size, steps_view(old(branch).path@), w) && within_bound(
                    *mode,
                    *heuristic,
                    size,
                    puzzle.goal@,
                    old(branch).bound as int,
                    w,
                    old(branch).path@.len() - 1,
                ) implies w[w.len() - 1] != puzzle.goal@ by {
                let from = old(branch).path@.len() - 1;
                assert(w[from] == w.subrange(0, old(branch).path@.len() as int)[from]);
                assert(w[from] == node@);
            }
            assert forall|w: Seq<Seq<i32>>, c: int|
                #[trigger] simple_extension(size, steps_view(old(branch).path@), w) && w[w.len()
                    - 1] == puzzle.goal@ && #[trigger] within_bound(
                    *mode,
                    *heuristic,
                    size,
                    puzzle.goal@,
                    c,
                    w,
                    old(branch).path@.len() - 1,
                ) implies f <= c by {
                let from = old(branch).path@.len() - 1;
                assert(w[from] == w.subrange(0, old(branch).path@.len() as int)[from]);
                assert(w[from] == node@);
            }
        }
        return BranchResult { score: Some(f), result: None };
    }
    if same_state(node.as_slice(), puzzle.goal.as_slice()) {
        proof {
            let v = steps_view(branch.path@);
            assert(v[v.len() - 1] == node@);
        }
        return BranchResult { score: Some(f), result: Some(node) };
    }
    let nbrs = neighbors(puzzle.size, node.as_slice());
    let ghost start_path = branch.path@;
    let mut min: Option<u64> = None;
    let mut k: usize = 0;
    while k < 4
        invariant
            puzzle.is_well_formed(),
            size == puzzle.size,
            branch.path@ == start_path,
            branch.path@ == old(branch).path@,
            branch.depth == old(branch).depth,
            branch.bound == old(branch).bound,
            branch.depth == branch.path@.len() - 1,
            is_branch(size, puzzle.map@, puzzle.goal@, branch.path@),
            node@ == branch.path@[branch.path@.len() - 1]@,
            node@ != puzzle.goal@,
            summary.biggest_state >= old(summary).biggest_state,
            is_grid(size, node@),
            tiles_match(size, node@, puzzle.goal@),
            opt_view(nbrs@[0]) == moved(size, node@, Direction::Left),
            opt_view(nbrs@[1]) == moved(size, node@, Direction::Right),
            opt_view(nbrs@[2]) == moved(size, node@, Direction::Down),
            opt_view(nbrs@[3]) == moved(size, node@, Direction::Up),
            old(summary).total_used_states < u64::MAX ==> summary.total_used_states > old(
                summary,
            ).total_used_states,
            summary.total_used_states >= old(summary).total_used_states,
            summary.biggest_state >= branch.path@.len(),
            priority(
                *mode,
                old(branch).depth as int,
                heuristic_value(*heuristic, size, node@, puzzle.goal@),
            ) <= old(branch).bound,
            min is Some ==> min->0 > branch.bound,
            k <= 4,
            forall|dd: Direction, w: Seq<Seq<i32>>|
                direction_rank(dd) < k && moved(size, node@, dd) is Some && !steps_view(
                    start_path,
                ).contains(moved(size, node@, dd)->0) && #[trigger] simple_extension(
                    size,
                    steps_view(start_path).push(moved(size, node@, dd)->0),
                    w,
                ) && within_bound(
                    *mode,
                    *heuristic,
                    size,
                    puzzle.goal@,
                    old(branch).bound as int,
                    w,
                    start_path.len() as int,
                ) ==> w[w.len() - 1] != puzzle.goal@,
            forall|dd: Direction, w: Seq<Seq<i32>>, c: int|
                direction_rank(dd) < k && moved(size, node@, dd) is Some && !steps_view(
                    start_path,
                ).contains(moved(size, node@, dd)->0) && #[trigger] simple_extension(
                    size,
                    steps_view(start_path).push(moved(size, node@, dd)->0),
                    w,
                ) && w[w.len() - 1] == puzzle.goal@ && #[trigger] within_bound(
                    *mode,
                    *heuristic,
                    size,
                    puzzle.goal@,
                    c,
                    w,
                    start_path.len() as int,
                ) ==> min is Some && min->0 <= c,
            min is None ==> forall|dd: Direction, w: Seq<Seq<i32>>|
                direction_rank(dd) < k && moved(size, node@, dd) is Some && !steps_view(
                    start_path,
                ).contains(moved(size, node@, dd)->0) && #[trigger] simple_extension(
                    size,
                    steps_view(start_path).push(moved(size, node@, dd)->0),
                    w,
                ) ==> w[w.len() - 1] != puzzle.goal@,
        decreases 4 - k,
    {
        let ghost d = if k == 0 {
            Direction::Left
        } else if k == 1 {
            Direction::Right
        } else if k == 2 {
            Direction::Down
        } else {
            Direction::Up
        };
        let ghost min_before = min;
        match &nbrs[k] {
            Some(nb) => {
                proof {
                    assert(opt_view(nbrs@[k as int]) == moved(size, node@, d));
                    lemma_moved_well_formed(size, node@, puzzle.goal@, d);
                    assert(is_move(size, node@, nb@));
                }
                let inside = path_contains(&branch.path, nb.as_slice());
                proof {
                    if inside {
                        let i = choose|i: int| 0 <= i < branch.path@.len() && branch.path@[i]@ == nb@;
                        assert(steps_view(start_path)[i] == nb@);
                    } else {
                        assert forall|i: int| 0 <= i < steps_view(start_path).len() implies steps_view(
                            start_path,
                        )[i] != nb@ by {
                            assert(steps_view(start_path)[i] == start_path[i]@);
                        }
                    }
                }
                if !inside {
                    let child = copy_state(nb.as_slice());
                    proof {
                        lemma_branch_push(size, puzzle.map@, puzzle.goal@, branch.path@, child);
                    }
                    branch.path.push(child);
                    if branch.path.len() > summary.biggest_state {
                        summary.biggest_state = branch.path.len();
                    }
                    branch.depth = branch.depth + 1;
                    proof {
                        assert(steps_view(branch.path@) =~= steps_view(start_path).push(nb@));
                        lemma_branch_bound(puzzle, branch.path@);
                    }
                    let res = evaluate_branch(puzzle, summary, branch, heuristic, mode);
                    if res.result.is_some() {
                        proof {
                            assert forall|i: int|
                                0 <= i < old(branch).path@.len() implies #[trigger] branch.path@[i]
                                == old(branch).path@[i] by {
                                assert(start_path.push(child)[i] == start_path[i]);
                            }
                        }
                        return res;
                    }
                    min = match (min, res.score) {
                        (Some(a), Some(b)) => if b < a {
                            Some(b)
                        } else {
                            Some(a)
                        },
                        (None, s) => s,
                        (m, None) => m,
                    };
                    branch.path.pop();
                    branch.depth = branch.depth - 1;
                    proof {
                        assert(branch.path@ =~= start_path);
                    }
                }
            },
            None => {},
        }
        proof {
            assert forall|dd: Direction, w: Seq<Seq<i32>>, c: int|
                direction_rank(dd) < k + 1 && moved(size, node@, dd) is Some && !steps_view(
                    start_path,
                ).contains(moved(size, node@, dd)->0) && #[trigger] simple_extension(
                    size,
                    steps_view(start_path).push(moved(size, node@, dd)->0),
                    w,
                ) && w[w.len() - 1] == puzzle.goal@ && #[trigger] within_bound(
                    *mode,
                    *heuristic,
                    size,
                    puzzle.goal@,
                    c,
                    w,
                    start_path.len() as int,
                ) implies min is Some && min->0 <= c by {
                if direction_rank(dd) == k {
                    assert(dd == d);
                } else {
                    assert(min_before is Some && min_before->0 <= c);
                }
            }
            assert forall|dd: Direction, w: Seq<Seq<i32>>|
                direction_rank(dd) < k + 1 && moved(size, node@, dd) is Some && !steps_view(
                    start_path,
                ).contains(moved(size, node@, dd)->0) && #[trigger] simple_extension(
                    size,
                    steps_view(start_path).push(moved(size, node@, dd)->0),
                    w,
                ) && within_bound(
                    *mode,
                    *heuristic,
                    size,
                    puzzle.goal@,
                    old(branch).bound as int,
                    w,
                    start_path.len() as int,
                ) implies w[w.len() - 1] != puzzle.goal@ by {
                if direction_rank(dd) == k {
                    assert(dd == d);
                }
            }
            assert forall|dd: Direction, w: Seq<Seq<i32>>|
                min is None && direction_rank(dd) < k + 1 && moved(size, node@, dd) is Some
                    && !steps_view(start_path).contains(moved(size, node@, dd)->0)
                    && #[trigger] simple_extension(
                    size,
                    steps_view(start_path).push(moved(size, node@, dd)->0),
                    w,
                ) implies w[w.len() - 1] != puzzle.goal@ by {
                if direction_rank(dd) == k {
                    assert(dd == d);
                    assert(min_before is None);
                }
            }
        }
        k += 1;
    }
    proof {
        let sp = steps_view(start_path);
        assert forall|w: Seq<Seq<i32>>|
            #[trigger] simple_extension(size, sp, w) && within_bound(
                *mode,
                *heuristic,
                size,
                puzzle.goal@,
                old(branch).bound as int,
                w,
                sp.len() - 1,
            ) implies w[w.len() - 1] != puzzle.goal@ by {
            let p = sp.len() as int;
            if w.len() == p {
                assert(w =~= w.subrange(0, p));
                assert(sp[p - 1] == node@);
            } else {
                assert(w[p - 1] == sp[p - 1]);
                assert(sp[p - 1] == node@);
                assert(is_move(size, w[p - 1], w[p]));
                let dd = choose|dd: Direction| #[trigger] moved(size, w[p - 1], dd) == Some(w[p]);
                assert(direction_rank(dd) < 4);
                if sp.contains(w[p]) {
                    let i = choose|i: int| 0 <= i < sp.len() && sp[i] == w[p];
                    assert(w[i] == sp[i]);
                }
                assert(w.subrange(0, p + 1) =~= sp.push(w[p]));
                assert(simple_extension(size, sp.push(moved(size, node@, dd)->0), w));
                assert(within_bound(
                    *mode,
                    *heuristic,
                    size,
                    puzzle.goal@,
                    old(branch).bound as int,
                    w,
                    start_path.len() as int,
                ));
            }
        }
        assert forall|w: Seq<Seq<i32>>, c: int|
            #[trigger] simple_extension(size, sp, w) && w[w.len() - 1] == puzzle.goal@
                && #[trigger] within_bound(
                *mode,
                *heuristic,
                size,
                puzzle.goal@,
                c,
                w,
                sp.len() - 1,
            ) implies min is Some && min->0 <= c by {
            let p = sp.len() as int;
            if w.len() == p {
                assert(w =~= w.subrange(0, p));
                assert(sp[p - 1] == node@);
            } else {
                assert(w[p - 1] == sp[p - 1]);
                assert(sp[p - 1] == node@);
                assert(is_move(size, w[p - 1], w[p]));
                let dd = choose|dd: Direction| #[trigger] moved(size, w[p - 1], dd) == Some(w[p]);
                assert(direction_rank(dd) < 4);
                if sp.contains(w[p]) {
                    let i = choose|i: int| 0 <= i < sp.len() && sp[i] == w[p];
                    assert(w[i] == sp[i]);
                }
                assert(w.subrange(0, p + 1) =~= sp.push(w[p]));
                assert(simple_extension(size, sp.push(moved(size, node@, dd)->0), w));
                assert(within_bound(
                    *mode,
                    *heuristic,
                    size,
                    puzzle.goal@,
                    c,
                    w,
                    start_path.len() as int,
                ));
            }
        }
        assert forall|w: Seq<Seq<i32>>| min is None && #[trigger] simple_extension(size, sp, w)
            implies w[w.len() - 1] != puzzle.goal@ by {
            let p = sp.len() as int;
            if w.len() == p {
                assert(w =~= w.subrange(0, p));
                assert(sp[p - 1] == node@);
            } else {
                assert(w[p - 1] == sp[p - 1]);
                assert(sp[p - 1] == node@);
                assert(is_move(size, w[p - 1], w[p]));
                let dd = choose|dd: Direction| #[trigger] moved(size, w[p - 1], dd) == Some(w[p]);
                assert(direction_rank(dd) < 4);
                if sp.contains(w[p]) {
                    let i = choose|i: int| 0 <= i < sp.len() && sp[i] == w[p];
                    assert(w[i] == sp[i]);
                }
                assert(w.subrange(0, p + 1) =~= sp.push(w[p]));
                assert(simple_extension(size, sp.push(moved(size, node@, dd)->0), w));
            }
        }
    }
    BranchResult { score: min, result: None }
}

/// Iterative deepening from the start of `puzzle`: each round explores depth first every
/// branch whose states rank within the bound, and the next round raises the bound to the
/// least rank that exceeded it. States are ranked as `mode` says, with `heuristic` as the
/// estimate; the first bound is the estimate of the start, or 1 in uniform mode.
///
/// The result is a path exactly when one leads from the start to the goal; it never
/// repeats a state, and when the start is the goal it is that single state, found at the
/// first examination. In uniform mode, and in normal mode with the Manhattan or Hamming
/// distance, no path to the goal is shorter.
pub fn solve(puzzle: &Puzzle, mode: Mode, heuristic: Heuristic) -> (r: Result<Solution, SolveError>)
    requires
        puzzle.is_well_formed(),
    ensures
        r matches Ok(sol) ==> is_solution_path(
            puzzle.size as int,
            puzzle.map@,
            puzzle.goal@,
            steps_view(sol.steps@),
        ) && sol.total_used_states >= 1 && sol.biggest_state >= 1,
        puzzle.map@ == puzzle.goal@ ==> (r matches Ok(sol) && sol.steps@.len() == 1
            && sol.total_used_states == 1),
        is_arrangement(puzzle.size as int, puzzle.map@, puzzle.goal@) && !solvable(
            puzzle.size as int,
            puzzle.map@,
            puzzle.goal@,
        ) ==> r is Err,
        r matches Ok(sol) ==> sol.biggest_state >= sol.steps@.len() && forall|a: int, b: int|
            0 <= a < sol.steps@.len() && 0 <= b < sol.steps@.len() && a != b
                ==> #[trigger] sol.steps@[a]@ != #[trigger] sol.steps@[b]@,
        r matches Err(SolveError::NoSolution) ==> forall|steps: Seq<Seq<i32>>|
            !#[trigger] is_solution_path(puzzle.size as int, puzzle.map@, puzzle.goal@, steps),
        r matches Err(e) ==> e == SolveError::NoSolution,
        r is Ok <==> exists|steps: Seq<Seq<i32>>|
            #[trigger] is_solution_path(puzzle.size as int, puzzle.map@, puzzle.goal@, steps),
        never_overestimates(mode, heuristic) && is_arrangement(
            puzzle.size as int,
            puzzle.map@,
            puzzle.goal@,
        ) ==> (r matches Ok(sol) ==> forall|steps: Seq<Seq<i32>>|
            #[trigger] is_solution_path(puzzle.size as int, puzzle.map@, puzzle.goal@, steps)
                ==> sol.steps@.len() <= steps.len()),
{
    let mut summary = Summary { total_used_states: 0, biggest_state: 1 };
    let mut bound: u64 = match mode {
        Mode::Uniform => 1,
        _ => heuristic.evaluate(puzzle.size, puzzle.map.as_slice(), puzzle.goal.as_slice()),
    };
    let mut path: Vec<Node> = Vec::new();
    path.push(copy_state(puzzle.map.as_slice()));
    proof {
        let v = steps_view(path@);
        assert(v[0] == puzzle.map@);
    }
    proof {
        if puzzle.map@ != puzzle.goal@ && never_overestimates(mode, heuristic) && is_arrangement(
            puzzle.size as int,
            puzzle.map@,
            puzzle.goal@,
        ) {
            assert forall|steps: Seq<Seq<i32>>|
                #[trigger] is_solution_path(
                    puzzle.size as int,
                    puzzle.map@,
                    puzzle.goal@,
                    steps,
                ) implies bound <= steps.len() - 1 by {
                if steps.len() == 1 {
                    assert(steps[0] == puzzle.map@);
                }
                lemma_rank_within_length(
                    mode,
                    heuristic,
                    puzzle.size as int,
                    puzzle.goal@,
                    steps,
                    0,
                );
            }
        }
    }
    let mut branch = Branch { path, depth: 0, bound };
    loop
        invariant
            puzzle.is_well_formed(),
            is_branch(puzzle.size as int, puzzle.map@, puzzle.goal@, branch.path@),
            branch.path@.len() == 1,
            branch.depth == 0,
            summary.biggest_state >= 1,
            branch.path@[0]@ == puzzle.map@,
            summary.total_used_states == 0 ==> bound == match mode {
                Mode::Uniform => 1,
                _ => heuristic_value(heuristic, puzzle.size as int, puzzle.map@, puzzle.goal@),
            },
            puzzle.map@ == puzzle.goal@ ==> summary.total_used_states == 0,
            puzzle.map@ != puzzle.goal@ && never_overestimates(mode, heuristic) && is_arrangement(
                puzzle.size as int,
                puzzle.map@,
                puzzle.goal@,
            ) ==> forall|steps: Seq<Seq<i32>>|
                #[trigger] is_solution_path(puzzle.size as int, puzzle.map@, puzzle.goal@, steps)
                    ==> bound <= steps.len() - 1,
        decreases u64::MAX - bound,
    {
        branch.bound = bound;
        let result = evaluate_branch(puzzle, &mut summary, &mut branch, &heuristic, &mode);
        if result.result.is_some() {
            let steps = branch.path;
            proof {
                if never_overestimates(mode, heuristic) && is_arrangement(
                    puzzle.size as int,
                    puzzle.map@,
                    puzzle.goal@,
                ) && puzzle.map@ != puzzle.goal@ {
                    let n = steps@.len() as int;
                    assert(steps_view(steps@)[n - 1] == puzzle.goal@);
                    lemma_heuristic_zero_at_goal(heuristic, puzzle.size as int, puzzle.goal@);
                    assert(n - 1 <= bound);
                }
                if is_arrangement(puzzle.size as int, puzzle.map@, puzzle.goal@) && !solvable(
                    puzzle.size as int,
                    puzzle.map@,
                    puzzle.goal@,
                ) {
                    lemma_unsolvable_has_no_path(
                        puzzle.size as int,
                        puzzle.map@,
                        puzzle.goal@,
                        steps_view(steps@),
                    );
                }
            }
            return Ok(
                Solution {
                    total_used_states: summary.total_used_states,
                    biggest_state: summary.biggest_state,
                    steps,
                },
            );
        }
        match result.score {
            None => {
                proof {
                    let sp = steps_view(branch.path@);
                    assert(sp =~= seq![puzzle.map@]);
                    assert forall|steps: Seq<Seq<i32>>|
                        !#[trigger] is_solution_path(
                            puzzle.size as int,
                            puzzle.map@,
                            puzzle.goal@,
                            steps,
                        ) by {
                        if is_solution_path(puzzle.size as int, puzzle.map@, puzzle.goal@, steps) {
                            let w = lemma_simple_path(
                                puzzle.size as int,
                                puzzle.map@,
                                puzzle.goal@,
                                steps,
                            );
                            assert(w.subrange(0, 1) =~= sp);
                            assert(simple_extension(puzzle.size as int, sp, w));
                        }
                    }
                }
                return Err(SolveError::NoSolution);
            },
            Some(s) => {
                proof {
                    if puzzle.map@ != puzzle.goal@ && never_overestimates(mode, heuristic)
                        && is_arrangement(puzzle.size as int, puzzle.map@, puzzle.goal@) {
                        let sp = steps_view(branch.path@);
                        assert(sp =~= seq![puzzle.map@]);
                        assert forall|steps: Seq<Seq<i32>>|
                            #[trigger] is_solution_path(
                                puzzle.size as int,
                                puzzle.map@,
                                puzzle.goal@,
                                steps,
                            ) implies s <= steps.len() - 1 by {
                            let w = lemma_simple_path(
                                puzzle.size as int,
                                puzzle.map@,
                                puzzle.goal@,
                                steps,
                            );
                            assert(w.subrange(0, 1) =~= sp);
                            assert(simple_extension(puzzle.size as int, sp, w));
                            let c = w.len() - 1;
                            assert forall|k: int| 0 <= k < w.len() implies priority(
                                mode,
                                k,
                                heuristic_value(heuristic, puzzle.size as int, #[trigger] w[k], puzzle.goal@),
                            ) <= c by {
                                lemma_rank_within_length(
                                    mode,
                                    heuristic,
                                    puzzle.size as int,
                                    puzzle.goal@,
                                    w,
                                    k,
                                );
                            }
                            assert(within_bound(
                                mode,
                                heuristic,
                                puzzle.size as int,
                                puzzle.goal@,
                                c,
                                w,
                                0,
                            ));
                        }
                    }
                }
                bound = s;
            },
        }
    }
}

} // verus!
