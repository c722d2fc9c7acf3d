use npuzzle::heuristic::{
    euclidean_distance_squared, floor_sqrt, hamming, linear_conflicts, manhattan,
    manhattan_distance,
};
use npuzzle::Heuristic;

fn euclidean_distance(size: i32, node: &[i32], goal: &[i32]) -> f64 {
    (euclidean_distance_squared(size, node, goal) as f64).sqrt()
}

#[test]
fn hamming_one() {
    let left = vec![1, 2, 3, 4, 5, 6, 7, 8, 0];
    let right = vec![1, 2, 3, 4, 5, 6, 7, 0, 8];
    assert_eq!(hamming(3, &left, &right), 1)
}

#[test]
fn hamming_two() {
    let left = vec![18, 8, 7, 4, 9, 6, 12, 24, 11];
    let right = vec![12, 24, 18, 8, 7, 4, 11, 9, 6];
    assert_eq!(hamming(3, &left, &right), 9)
}

#[test]
fn manhattan_one() {
    let left = vec![1, 2, 3, 4, 5, 6, 7, 8, 0];
    let right = vec![1, 2, 3, 4, 5, 6, 7, 0, 8];
    assert_eq!(manhattan(3, &left, &right), 1)
}

#[test]
fn manhattan_two() {
    let left = vec![18, 8, 7, 4, 9, 6, 12, 24, 11];
    let right = vec![12, 24, 18, 8, 7, 4, 11, 9, 6];
    assert_eq!(manhattan(3, &left, &right), 16)
}

#[test]
fn manhattan_three() {
    let left = vec![7, 2, 4, 5, 0, 6, 8, 3, 1];
    let right = vec![1, 2, 3, 8, 0, 4, 7, 6, 5];
    assert_eq!(manhattan(3, &left, &right), 16)
}

#[test]
fn euclidean_distance_one() {
    let left = vec![1, 2, 3, 4, 5, 6, 7, 8, 0];
    let right = vec![1, 2, 3, 4, 5, 6, 7, 0, 8];
    assert_eq!(euclidean_distance(3, &left, &right), 1.)
}

#[test]
fn euclidean_distance_two() {
    let left = vec![18, 8, 7, 4, 9, 6, 12, 24, 11];
    let right = vec![12, 24, 18, 8, 7, 4, 11, 9, 6];
    assert_eq!(euclidean_distance(3, &left, &right), 5.0990195135927845)
}

#[test]
fn linear_conflicts_one() {
    let left = vec![1, 2, 3, 4, 5, 6, 7, 8, 0];
    let right = vec![1, 2, 3, 4, 5, 6, 7, 0, 8];
    assert_eq!(linear_conflicts(3, &left, &right), 1)
}

#[test]
fn linear_conflicts_two() {
    let left = vec![18, 8, 7, 4, 9, 6, 12, 24, 11];
    let right = vec![12, 24, 18, 8, 7, 4, 11, 9, 6];
    // Manhattan 16, plus one column conflict: 9 stands above 24 in column 1, where the goal
    // has 24 above 9.
    assert_eq!(linear_conflicts(3, &left, &right), 18)
}

#[test]
fn linear_conflicts_three() {
    let left = vec![2, 1, 3, 8, 0, 4, 7, 6, 5];
    let right = vec![1, 2, 3, 8, 0, 4, 7, 6, 5];
    assert_eq!(linear_conflicts(3, &left, &right), 4)
}

#[test]
fn linear_conflicts_four() {
    let left = vec![8, 2, 3, 1, 0, 4, 7, 6, 5];
    let right = vec![1, 2, 3, 8, 0, 4, 7, 6, 5];
    assert_eq!(linear_conflicts(3, &left, &right), 4)
}

#[test]
fn manhattan_distance_corners() {
    assert_eq!(manhattan_distance(3, 0, 8), 4);
    assert_eq!(manhattan_distance(4, 5, 5), 0);
    assert_eq!(manhattan_distance(4, 3, 12), 6);
}

#[test]
fn floor_sqrt_values() {
    assert_eq!(floor_sqrt(0), 0);
    assert_eq!(floor_sqrt(26), 5);
    assert_eq!(floor_sqrt(25), 5);
    assert_eq!(floor_sqrt(24), 4);
}

#[test]
fn heuristics_are_zero_at_goal() {
    let goal = vec![1, 2, 3, 8, 0, 4, 7, 6, 5];
    for h in [
        Heuristic::Hamming,
        Heuristic::Manhattan,
        Heuristic::Euclidean,
        Heuristic::LinearConflicts,
    ] {
        assert_eq!(h.evaluate(3, &goal, &goal), 0);
    }
}

#[test]
fn evaluate_rounds_euclidean_down() {
    let left = vec![18, 8, 7, 4, 9, 6, 12, 24, 11];
    let right = vec![12, 24, 18, 8, 7, 4, 11, 9, 6];
    assert_eq!(Heuristic::Euclidean.evaluate(3, &left, &right), 5);
    assert_eq!(Heuristic::LinearConflicts.evaluate(3, &left, &right), 18);
}
