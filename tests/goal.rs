use npuzzle::goal::{generate, generate_first, generate_last, GoalError};

#[test]
fn snail_generate_goal_2() {
    let solution = generate(2, &String::from("snail"));
    assert!(solution.is_err())
}

#[test]
fn snail_generate_goal_3() {
    let solution = generate(3, &String::from("snail"));
    assert_eq!(solution, Ok(vec![1, 2, 3, 8, 0, 4, 7, 6, 5]))
}

#[test]
fn snail_generate_goal_4() {
    let solution = generate(4, &String::from("snail"));
    assert_eq!(
        solution,
        Ok(vec![1, 2, 3, 4, 12, 13, 14, 5, 11, 0, 15, 6, 10, 9, 8, 7])
    )
}

#[test]
fn snail_generate_goal_5() {
    let solution = generate(5, &String::from("snail"));
    assert_eq!(
        solution,
        Ok(vec![
            1, 2, 3, 4, 5, 16, 17, 18, 19, 6, 15, 24, 0, 20, 7, 14, 23, 22, 21, 8, 13, 12, 11, 10,
            9
        ])
    )
}

#[test]
fn first_and_last_goals() {
    assert_eq!(generate(3, "first"), Ok(vec![0, 1, 2, 3, 4, 5, 6, 7, 8]));
    assert_eq!(generate(3, "last"), Ok(vec![1, 2, 3, 4, 5, 6, 7, 8, 0]));
    assert_eq!(generate_first(4)[0], 0);
    assert_eq!(generate_last(4)[15], 0);
}

#[test]
fn goal_errors() {
    assert_eq!(generate(2, "first"), Err(GoalError::InvalidSize(2)));
    assert_eq!(generate(3, "spiral"), Err(GoalError::UnknownSolutionType));
}
