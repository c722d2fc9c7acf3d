use npuzzle::puzzle::Puzzle;
use npuzzle::{a_star, ida_star, neighbors, Heuristic, Mode, SolveError};
use std::collections::{HashSet, VecDeque};

const SNAIL: [i32; 9] = [1, 2, 3, 8, 0, 4, 7, 6, 5];

fn puzzle(size: i32, map: &[i32], goal: &[i32]) -> Puzzle {
    Puzzle { size, map: map.to_vec(), goal: goal.to_vec() }
}

fn is_one_move(size: i32, a: &[i32], b: &[i32]) -> bool {
    neighbors(size, a).iter().flatten().any(|n| n.as_slice() == b)
}

/// Fewest moves from `start` to `goal`, found by breadth-first search.
fn fewest_moves(size: i32, start: &[i32], goal: &[i32]) -> Option<usize> {
    let mut seen: HashSet<Vec<i32>> = HashSet::new();
    let mut queue = VecDeque::new();
    seen.insert(start.to_vec());
    queue.push_back((start.to_vec(), 0usize));
    while let Some((state, depth)) = queue.pop_front() {
        if state == goal {
            return Some(depth);
        }
        for n in neighbors(size, &state).into_iter().flatten() {
            if seen.insert(n.clone()) {
                queue.push_back((n, depth + 1));
            }
        }
    }
    None
}

fn check_path(size: i32, start: &[i32], goal: &[i32], steps: &[Vec<i32>]) {
    assert_eq!(steps.first().unwrap().as_slice(), start);
    assert_eq!(steps.last().unwrap().as_slice(), goal);
    for w in steps.windows(2) {
        assert!(is_one_move(size, &w[0], &w[1]));
    }
}

const BATTERY: [[i32; 9]; 5] = [
    [1, 2, 3, 8, 4, 0, 7, 6, 5],
    [1, 2, 3, 0, 8, 4, 7, 6, 5],
    [2, 8, 3, 1, 0, 4, 7, 6, 5],
    [1, 3, 4, 8, 2, 0, 7, 6, 5],
    [2, 3, 4, 1, 8, 5, 7, 0, 6],
];

#[test]
fn a_star_one_move() {
    let start = [1, 2, 3, 8, 4, 0, 7, 6, 5];
    let solution = a_star::solve(&puzzle(3, &start, &SNAIL), Mode::Normal, Heuristic::Manhattan)
        .unwrap();
    assert_eq!(solution.steps.len(), 2);
    check_path(3, &start, &SNAIL, &solution.steps);
}

#[test]
fn a_star_is_optimal() {
    for start in BATTERY.iter() {
        let best = fewest_moves(3, start, &SNAIL).unwrap();
        for h in [Heuristic::Manhattan, Heuristic::LinearConflicts] {
            let solution = a_star::solve(&puzzle(3, start, &SNAIL), Mode::Normal, h).unwrap();
            assert_eq!(solution.steps.len() - 1, best);
            check_path(3, start, &SNAIL, &solution.steps);
        }
    }
}

#[test]
fn a_star_and_ida_star_agree() {
    for start in BATTERY.iter() {
        let p = puzzle(3, start, &SNAIL);
        let a = a_star::solve(&p, Mode::Normal, Heuristic::Manhattan).unwrap();
        let b = ida_star::solve(&p, Mode::Normal, Heuristic::Manhattan).unwrap();
        assert_eq!(a.steps.len(), b.steps.len());
        check_path(3, start, &SNAIL, &b.steps);
    }
}

#[test]
fn other_modes_find_paths() {
    let start = BATTERY[4];
    let p = puzzle(3, &start, &SNAIL);
    for mode in [Mode::Greedy, Mode::Uniform] {
        let a = a_star::solve(&p, mode, Heuristic::Hamming).unwrap();
        check_path(3, &start, &SNAIL, &a.steps);
    }
    let uniform = a_star::solve(&p, Mode::Uniform, Heuristic::Euclidean).unwrap();
    assert_eq!(uniform.steps.len() - 1, fewest_moves(3, &start, &SNAIL).unwrap());
    let greedy = ida_star::solve(&p, Mode::Greedy, Heuristic::Manhattan).unwrap();
    check_path(3, &start, &SNAIL, &greedy.steps);
    let uniform = ida_star::solve(&p, Mode::Uniform, Heuristic::Manhattan).unwrap();
    check_path(3, &start, &SNAIL, &uniform.steps);
}

#[test]
fn start_at_goal() {
    let p = puzzle(3, &SNAIL, &SNAIL);
    for solution in [
        a_star::solve(&p, Mode::Normal, Heuristic::LinearConflicts).unwrap(),
        ida_star::solve(&p, Mode::Normal, Heuristic::LinearConflicts).unwrap(),
    ] {
        assert_eq!(solution.steps, vec![SNAIL.to_vec()]);
        assert_eq!(solution.total_used_states, 1);
        assert_eq!(solution.biggest_state, 1);
    }
}

#[test]
fn unsolvable_two_by_two() {
    let goal = [1, 2, 3, 0];
    let start = [2, 1, 3, 0];
    let p = puzzle(2, &start, &goal);
    assert!(!p.is_solvable());
    assert_eq!(
        a_star::solve(&p, Mode::Normal, Heuristic::Manhattan).err(),
        Some(SolveError::NoSolution)
    );
    assert_eq!(
        ida_star::solve(&p, Mode::Normal, Heuristic::Manhattan).err(),
        Some(SolveError::NoSolution)
    );
}

#[test]
fn solvability_parity() {
    assert!(puzzle(3, &SNAIL, &SNAIL).is_solvable());
    for start in BATTERY.iter() {
        assert!(puzzle(3, start, &SNAIL).is_solvable());
    }
    let neighbor = [1, 2, 3, 0, 8, 4, 7, 6, 5];
    assert!(puzzle(3, &neighbor, &SNAIL).is_solvable());
    let swapped = [2, 1, 3, 8, 0, 4, 7, 6, 5];
    assert!(!puzzle(3, &swapped, &SNAIL).is_solvable());
    let four = [1, 2, 3, 4, 12, 13, 14, 5, 11, 0, 15, 6, 10, 9, 8, 7];
    let mut moved = four;
    moved.swap(9, 10);
    assert!(puzzle(4, &moved, &four).is_solvable());
    moved.swap(0, 1);
    assert!(!puzzle(4, &moved, &four).is_solvable());
}

#[test]
fn one_move_changes_estimates_by_at_most_one() {
    let start = [2, 3, 4, 1, 8, 5, 7, 0, 6];
    let h0 = npuzzle::heuristic::manhattan(3, &start, &SNAIL) as i64;
    let g0 = npuzzle::heuristic::hamming(3, &start, &SNAIL) as i64;
    for n in neighbors(3, &start).into_iter().flatten() {
        let h1 = npuzzle::heuristic::manhattan(3, &n, &SNAIL) as i64;
        let g1 = npuzzle::heuristic::hamming(3, &n, &SNAIL) as i64;
        assert_eq!((h1 - h0).abs(), 1);
        assert!((g1 - g0).abs() <= 1);
    }
}

#[test]
fn a_star_deep_instance() {
    let start = [8, 6, 7, 2, 5, 4, 3, 0, 1];
    let goal = [1, 2, 3, 4, 5, 6, 7, 8, 0];
    let p = puzzle(3, &start, &goal);
    assert!(p.is_solvable());
    let best = fewest_moves(3, &start, &goal).unwrap();
    let solution = a_star::solve(&p, Mode::Normal, Heuristic::LinearConflicts).unwrap();
    assert_eq!(solution.steps.len() - 1, best);
    check_path(3, &start, &goal, &solution.steps);
}

#[test]
fn a_star_exhausts_unsolvable_three_by_three() {
    let swapped = [2, 1, 3, 8, 0, 4, 7, 6, 5];
    let p = puzzle(3, &swapped, &SNAIL);
    assert!(!p.is_solvable());
    assert_eq!(
        a_star::solve(&p, Mode::Normal, Heuristic::Hamming).err(),
        Some(SolveError::NoSolution)
    );
}

#[test]
fn ida_star_is_optimal_when_estimates_never_overestimate() {
    for start in BATTERY.iter() {
        let best = fewest_moves(3, start, &SNAIL).unwrap();
        let p = puzzle(3, start, &SNAIL);
        for (mode, h) in [
            (Mode::Normal, Heuristic::Manhattan),
            (Mode::Normal, Heuristic::Hamming),
            (Mode::Uniform, Heuristic::Manhattan),
        ] {
            let solution = ida_star::solve(&p, mode, h).unwrap();
            assert_eq!(solution.steps.len() - 1, best);
            assert!(solution.biggest_state >= solution.steps.len());
            check_path(3, start, &SNAIL, &solution.steps);
        }
    }
}

#[test]
fn returned_paths_never_repeat_a_state() {
    let start = BATTERY[4];
    let p = puzzle(3, &start, &SNAIL);
    for mode in [Mode::Normal, Mode::Greedy, Mode::Uniform] {
        let a = a_star::solve(&p, mode, Heuristic::Manhattan).unwrap();
        let b = ida_star::solve(&p, mode, Heuristic::Manhattan).unwrap();
        for steps in [&a.steps, &b.steps] {
            for i in 0..steps.len() {
                for j in (i + 1)..steps.len() {
                    assert_ne!(steps[i], steps[j]);
                }
            }
        }
    }
}

#[test]
fn a_star_uniform_is_optimal() {
    for start in BATTERY.iter() {
        let best = fewest_moves(3, start, &SNAIL).unwrap();
        for h in [Heuristic::Hamming, Heuristic::Euclidean, Heuristic::LinearConflicts] {
            let solution = a_star::solve(&puzzle(3, start, &SNAIL), Mode::Uniform, h).unwrap();
            assert_eq!(solution.steps.len() - 1, best);
        }
    }
}
