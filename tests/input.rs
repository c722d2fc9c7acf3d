use npuzzle::config::{Config, ConfigError};
use npuzzle::goal::GoalError;
use npuzzle::parse::{parse_i32, parse_u32};
use npuzzle::puzzle::{Puzzle, PuzzleError};
use npuzzle::search::Variant;
use npuzzle::{Heuristic, Mode};

fn args(list: &[&str]) -> Vec<String> {
    list.iter().map(|s| s.to_string()).collect()
}

#[test]
fn integers_read_as_std_does() {
    for text in ["0", "42", "-7", "+15", "2147483647", "-2147483648", "007"] {
        assert_eq!(parse_i32(text.as_bytes()), text.parse::<i32>().ok());
    }
    for text in ["", "-", "+", "2147483648", "-2147483649", "1a", " 1", "--1", "99999999999"] {
        assert_eq!(parse_i32(text.as_bytes()), None);
    }
    for text in ["0", "+3", "4294967295"] {
        assert_eq!(parse_u32(text.as_bytes()), text.parse::<u32>().ok());
    }
    for text in ["-0", "-1", "4294967296", "x"] {
        assert_eq!(parse_u32(text.as_bytes()), None);
    }
}

#[test]
fn parse_lines() {
    assert_eq!(Puzzle::parse_line(b"  1 2\t3 "), Ok(Some(vec![1, 2, 3])));
    assert_eq!(Puzzle::parse_line(b"# comment"), Ok(None));
    assert_eq!(Puzzle::parse_line(b"   "), Ok(None));
    assert_eq!(Puzzle::parse_line(b"4 5 # six"), Ok(Some(vec![4, 5])));
    assert_eq!(Puzzle::parse_line(b"4 x"), Err(PuzzleError::InvalidNumber));
}

#[test]
fn parse_puzzle_file() {
    let content = "# This puzzle is solvable\n3\n1 2 3 # top\n8 0 4\n7 6 5\n";
    let puzzle = Puzzle::parse(content, "snail").unwrap();
    assert_eq!(puzzle.size, 3);
    assert_eq!(puzzle.map, vec![1, 2, 3, 8, 0, 4, 7, 6, 5]);
    assert_eq!(puzzle.goal, vec![1, 2, 3, 8, 0, 4, 7, 6, 5]);
    assert!(puzzle.is_solvable());
}

#[test]
fn parse_puzzle_errors() {
    assert_eq!(Puzzle::parse("3 3\n", "snail").err(), Some(PuzzleError::SizeLine));
    assert_eq!(Puzzle::parse("3\n1 2\n", "snail").err(), Some(PuzzleError::RowLength));
    assert_eq!(
        Puzzle::parse("3\n1 0 2\n0 3 4\n5 6 7\n", "snail").err(),
        Some(PuzzleError::SeveralBlanks)
    );
    assert_eq!(Puzzle::parse("3\n1 2 3\n", "snail").err(), Some(PuzzleError::CellCount(3)));
    assert_eq!(
        Puzzle::parse("3\n1 2 3\n4 9 0\n5 6 7\n", "snail").err(),
        Some(PuzzleError::InvalidCell(9))
    );
    assert_eq!(
        Puzzle::parse("3\n1 2 3\n4 2 0\n5 6 7\n", "snail").err(),
        Some(PuzzleError::DuplicateCell(2))
    );
    assert_eq!(
        Puzzle::parse("2\n1 2\n3 0\n", "snail").err(),
        Some(PuzzleError::Goal(GoalError::InvalidSize(2)))
    );
    assert_eq!(
        Puzzle::parse("3\n1 2 3\n8 0 4\n7 6 5\n", "spiral").err(),
        Some(PuzzleError::Goal(GoalError::UnknownSolutionType))
    );
    assert_eq!(Puzzle::parse("3\n1 2 x\n", "snail").err(), Some(PuzzleError::InvalidNumber));
}

#[test]
fn check_validity_reports_first_problem() {
    assert_eq!(Puzzle::check_validity(2, &vec![0, 1, 2, 3]), Ok(()));
    assert_eq!(Puzzle::check_validity(2, &vec![0, 1, 1, 5]), Err(PuzzleError::DuplicateCell(1)));
    assert_eq!(Puzzle::check_validity(2, &vec![0, 7, 1, 1]), Err(PuzzleError::InvalidCell(7)));
}

#[test]
fn generated_puzzles_follow_the_request() {
    for size in [3, 4] {
        for solvable in [true, false] {
            let puzzle = Puzzle::generate(solvable, size, "snail").unwrap();
            assert_eq!(puzzle.is_solvable(), solvable);
            let mut cells = puzzle.map.clone();
            cells.sort();
            assert_eq!(cells, (0..size * size).collect::<Vec<i32>>());
        }
    }
    assert_eq!(Puzzle::generate(true, 2, "snail").err(), Some(GoalError::InvalidSize(2)));
    assert_eq!(
        Puzzle::generate(true, 3, "zigzag").err(),
        Some(GoalError::UnknownSolutionType)
    );
}

#[test]
fn config_defaults_and_options() {
    let config = Config::new(&args(&[])).unwrap();
    assert_eq!(config.variant, "ida*");
    assert_eq!(config.heuristic_name, "linear-conflicts");
    assert_eq!(config.solution_type, "snail");
    assert_eq!(config.mode, "normal");
    assert!(config.files.is_empty());
    assert!(config.solvable);
    assert_eq!((config.amount, config.size), (1, 3));

    let config = Config::new(&args(&[
        "--variant=a*",
        "--heuristic=manhattan",
        "--mode=greedy",
        "--solution-type=last",
        "--unsolvable=yes",
        "--amount=5",
        "--size=4",
        "--other=x",
        "board.txt",
        "--size=9",
    ]))
    .unwrap();
    assert_eq!(config.variant, "a*");
    assert_eq!(config.heuristic_name, "manhattan");
    assert_eq!(config.mode, "greedy");
    assert_eq!(config.solution_type, "last");
    assert!(!config.solvable);
    assert_eq!((config.amount, config.size), (5, 4));
    assert_eq!(config.files, args(&["board.txt", "--size=9"]));
    assert_eq!(config.check(), Ok(()));
}

#[test]
fn config_errors() {
    assert_eq!(Config::new(&args(&["--size"])).err(), Some(ConfigError::Malformed(0)));
    assert_eq!(
        Config::new(&args(&["--mode=normal", "--amount=x"])).err(),
        Some(ConfigError::InvalidAmount(1))
    );
    assert_eq!(Config::new(&args(&["--size=abc"])).err(), Some(ConfigError::InvalidSize(0)));
    assert_eq!(Config::new(&args(&["--size=2"])).err(), Some(ConfigError::SizeTooSmall(0)));
    let mut config = Config::new(&args(&["--variant=bfs"])).unwrap();
    assert_eq!(config.check(), Err(ConfigError::UnknownVariant));
    config.variant = "a*".to_string();
    config.solution_type = "spiral".to_string();
    assert_eq!(config.check(), Err(ConfigError::UnknownSolutionType));
    config.solution_type = "first".to_string();
    config.mode = "fast".to_string();
    assert_eq!(config.check(), Err(ConfigError::UnknownMode));
}

#[test]
fn names() {
    assert_eq!(Mode::from_name("greedy"), Mode::Greedy);
    assert_eq!(Mode::from_name("uniform"), Mode::Uniform);
    assert_eq!(Mode::from_name("anything"), Mode::Normal);
    assert_eq!(Heuristic::from_name("manhattan"), Some(Heuristic::Manhattan));
    assert_eq!(Heuristic::from_name("euclidean"), Some(Heuristic::Euclidean));
    assert_eq!(Heuristic::from_name("hamming"), Some(Heuristic::Hamming));
    assert_eq!(Heuristic::from_name("linear-conflicts"), Some(Heuristic::LinearConflicts));
    assert_eq!(Heuristic::from_name("chebyshev"), None);
    assert_eq!(Variant::from_name("ida*"), Some(Variant::IdaStar));
    assert_eq!(Variant::from_name("a*"), Some(Variant::AStar));
    assert_eq!(Variant::from_name("dfs"), None);
}

#[test]
fn generated_starts_are_shuffled() {
    let ordered: Vec<i32> = (0..16).collect();
    let mut swapped = ordered.clone();
    swapped.swap(1, 2);
    let starts: Vec<Vec<i32>> = (0..6)
        .map(|_| Puzzle::generate(true, 4, "first").unwrap().map)
        .collect();
    assert!(starts.iter().any(|m| *m != ordered && *m != swapped));
}
