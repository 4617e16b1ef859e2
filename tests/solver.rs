use sudoku_solver::algorithms::{solve, solve_counted};
use sudoku_solver::sudoku::{candidate_set, format_string, from_string, index, point, FormatError, Point, Sudoku};

const EASY: &str = "530070000600195000098000060800060003400803001700020006060000280000419005000080079";
const EASY_SOLUTION: &str = "534678912672195348198342567859761423426853791713924856961537284287419635345286179";
const HARD: &str = "800000000003600000070090200050007000000045700000100030001000068008500010090000400";

fn grid(s: &str) -> Sudoku {
    Sudoku::new(from_string(s).unwrap())
}

fn with_blank(s: &str, i: usize) -> String {
    let mut chars: Vec<char> = s.chars().collect();
    chars[i] = '0';
    chars.into_iter().collect()
}

#[test]
fn complete_grid_is_solved_at_once() {
    let mut s = grid(EASY_SOLUTION);
    assert!(s.complete());
    assert!(solve(&mut s));
    assert!(s.complete());
    assert_eq!(s.progress(), 0);
    assert_eq!(s.to_string(), EASY_SOLUTION);
}

#[test]
fn single_blank_is_filled_from_its_row() {
    let input = with_blank(EASY_SOLUTION, 4);
    let mut s = grid(&input);
    assert!(!s.complete());
    assert_eq!(s.view(4), 0);
    assert!(solve(&mut s));
    assert_eq!(s.view(4), 7);
    assert_eq!(s.to_string(), EASY_SOLUTION);
}

#[test]
fn easy_puzzle_is_solved_by_singles() {
    let mut s = grid(EASY);
    assert!(solve(&mut s));
    assert!(s.complete());
    assert_eq!(s.to_string(), EASY_SOLUTION);
}

#[test]
fn hard_puzzle_stalls() {
    let mut s = grid(HARD);
    assert!(!solve(&mut s));
    assert!(!s.complete());
    let out = s.to_string();
    assert_eq!(out.len(), 81);
    assert!(out.contains('0'));
    for (i, c) in HARD.chars().enumerate() {
        if c != '0' {
            assert_eq!(out.chars().nth(i), Some(c));
        }
    }
    let before = s.progress();
    assert!(!solve(&mut s));
    assert_eq!(s.progress(), before);
}

#[test]
fn empty_grid_stalls_without_changes() {
    let zeros = "0".repeat(81);
    let mut s = grid(&zeros);
    assert!(!solve(&mut s));
    assert_eq!(s.progress(), 0);
    assert_eq!(s.to_string(), zeros);
}

#[test]
fn wrong_length_is_rejected() {
    assert!(matches!(from_string(&EASY[..80]), Err(FormatError::WrongLength)));
    let long = format!("{}0", EASY);
    assert!(matches!(from_string(&long), Err(FormatError::WrongLength)));
    assert!(matches!(from_string(""), Err(FormatError::WrongLength)));
}

#[test]
fn non_digit_is_rejected() {
    let bad = format!("{}x", &EASY[..80]);
    assert!(matches!(from_string(&bad), Err(FormatError::NotADigit)));
    let dotted = EASY.replace('0', ".");
    assert!(matches!(from_string(&dotted), Err(FormatError::NotADigit)));
}

#[test]
fn new_counts_blanks_and_opens_all_candidates() {
    let s = grid(EASY);
    assert_eq!(EASY.chars().filter(|c| *c == '0').count(), 51);
    assert_eq!(s.view(0), 5);
    assert_eq!(s.view(2), 0);
    for v in 1..=9 {
        assert!(s.is_candidate(2, v));
        assert_eq!(s.is_candidate(0, v), v == 5);
    }
    assert!(!s.is_candidate(2, 0));
    assert!(!s.is_candidate(2, 10));
    assert_eq!(s.progress(), 0);
    assert!(!s.complete());
}

#[test]
fn eliminate_removes_once_and_resolves_last_candidate() {
    let mut s = grid(EASY);
    s.eliminate(2, 3);
    assert!(!s.is_candidate(2, 3));
    assert_eq!(s.progress(), 1);
    s.eliminate(2, 3);
    assert_eq!(s.progress(), 1);
    for v in [1, 2, 5, 6, 7, 8, 9] {
        s.eliminate(2, v);
    }
    assert_eq!(s.view(2), 4);
    assert_eq!(s.progress(), 8);
    s.eliminate(2, 4);
    assert_eq!(s.view(2), 4);
    assert!(s.is_candidate(2, 4));
    assert_eq!(s.progress(), 8);
}

#[test]
fn eliminate_leaves_given_cells() {
    let mut s = grid(EASY);
    s.eliminate(0, 5);
    assert_eq!(s.view(0), 5);
    assert!(s.is_candidate(0, 5));
    assert_eq!(s.progress(), 0);
}

#[test]
fn fill_resolves_open_cell_once() {
    let mut s = grid(&with_blank(EASY_SOLUTION, 10));
    assert!(!s.complete());
    s.fill(10, 7);
    assert_eq!(s.view(10), 7);
    assert!(s.complete());
    assert_eq!(s.progress(), 1);
    s.fill(10, 3);
    assert_eq!(s.view(10), 7);
    assert!(s.complete());
    assert_eq!(s.progress(), 1);
    s.fill(0, 1);
    assert_eq!(s.view(0), 5);
    assert_eq!(s.progress(), 1);
}

#[test]
fn index_and_point_agree() {
    assert_eq!(index(&Point::new(0, 0)), 0);
    assert_eq!(index(&Point::new(8, 0)), 8);
    assert_eq!(index(&Point::new(2, 3)), 29);
    assert_eq!(index(&Point::new(8, 8)), 80);
    assert_eq!(point(29), (2, 3));
    assert_eq!(point(80), (8, 8));
    for i in 0..81 {
        let (x, y) = point(i);
        assert_eq!(index(&Point::new(x, y)), i);
    }
}

#[test]
fn candidate_set_is_one_to_nine() {
    let set = candidate_set();
    assert_eq!(set.len(), 9);
    for v in 1..=9 {
        assert!(set.contains(&v));
    }
    assert!(!set.contains(&0));
    assert!(!set.contains(&10));
}

#[test]
fn format_string_breaks_rows() {
    let out = format_string(EASY_SOLUTION);
    let lines: Vec<&str> = out.split('\n').collect();
    assert_eq!(lines.len(), 10);
    assert_eq!(lines[0], "534678912");
    assert_eq!(lines[8], "345286179");
    assert_eq!(lines[9], "");
    assert_eq!(out.len(), 90);
}

#[test]
fn sweep_counts_stay_within_bound() {
    let mut done = grid(EASY_SOLUTION);
    assert_eq!(solve_counted(&mut done), (true, 1));

    let mut one = grid(&with_blank(EASY_SOLUTION, 4));
    assert_eq!(solve_counted(&mut one), (true, 1));

    let mut blank = grid(&"0".repeat(81));
    assert_eq!(solve_counted(&mut blank), (false, 1));

    let mut easy = grid(EASY);
    let (solved, rounds) = solve_counted(&mut easy);
    assert!(solved);
    assert!(rounds >= 1 && rounds <= 52);

    let mut hard = grid(HARD);
    let (solved, rounds) = solve_counted(&mut hard);
    assert!(!solved);
    assert!(rounds >= 2 && rounds <= 81);
}

#[test]
fn progress_only_grows_and_resolved_cells_stay() {
    let mut s = grid(HARD);
    let givens: Vec<u32> = (0..81).map(|i| s.view(i)).collect();
    let before = s.progress();
    solve(&mut s);
    assert!(s.progress() > before);
    for i in 0..81 {
        if givens[i] != 0 {
            assert_eq!(s.view(i), givens[i]);
        }
    }
}

const GRID_ONE: &str = "003020600900305001001806400008102900700000008006708200002609500800203009005010300";
const GRID_ONE_SOLUTION: &str = "483921657967345821251876493548132976729564138136798245372689514814253769695417382";
const HARD_SOLUTION: &str = "812753649943682175675491283154237896369845721287169534521974368438526917796318452";

#[test]
fn first_cell_blank_gets_the_missing_digit() {
    let mut s = grid("083921657967345821251876493548132976729564138136798245372689514814253769695417382");
    assert_eq!(solve_counted(&mut s), (true, 1));
    assert_eq!(s.view(0), 4);
    assert_eq!(s.to_string(), GRID_ONE_SOLUTION);
}

#[test]
fn singles_puzzle_reaches_its_unique_solution() {
    let mut s = grid(GRID_ONE);
    assert!(solve(&mut s));
    assert!(s.complete());
    assert_eq!(s.to_string(), GRID_ONE_SOLUTION);
}

#[test]
fn stalled_hard_puzzle_agrees_with_its_solution() {
    let mut s = grid(HARD);
    assert!(!solve(&mut s));
    let out = s.to_string();
    for (c, d) in out.chars().zip(HARD_SOLUTION.chars()) {
        assert!(c == '0' || c == d);
    }
}
