use sudoku_ai::Puzzle;

fn values_of(p: &Puzzle, d: usize) -> Vec<usize> {
    let mut out = Vec::new();
    for y in 0..d {
        for x in 0..d {
            out.push(p.get(x, y).unwrap().value);
        }
    }
    out
}

#[test]
fn solved_grid_is_valid_and_solved() {
    let puzzle = Puzzle::read_from_string("1 2 3 4 3 4 1 2 2 1 4 3 4 3 2 1");
    assert!(puzzle.is_valid());
    assert!(puzzle.is_solved());
}

#[test]
fn solve_keeps_solved_grid_unchanged() {
    let mut puzzle = Puzzle::read_from_string("1 2 3 4 3 4 1 2 2 1 4 3 4 3 2 1");
    let before = values_of(&puzzle, 4);
    assert_eq!(puzzle.solve(), Ok(()));
    assert_eq!(values_of(&puzzle, 4), before);
    assert!(puzzle.is_solved());
}

#[test]
fn solve_fills_nearly_complete_grid() {
    let mut puzzle = Puzzle::read_from_string("1 2 0 0 3 4 1 2 2 1 4 3 4 3 2 1");
    assert_eq!(puzzle.solve(), Ok(()));
    assert!(puzzle.is_solved());
    assert_eq!(values_of(&puzzle, 4), vec![1, 2, 3, 4, 3, 4, 1, 2, 2, 1, 4, 3, 4, 3, 2, 1]);
}

#[test]
fn unsolved_grid_is_valid_but_not_solved() {
    let puzzle = Puzzle::read_from_string("1 2 3 4 0 4 1 2 2 1 4 3 4 3 2 1");
    assert!(puzzle.is_valid());
    assert!(!puzzle.is_solved());
}

#[test]
fn duplicate_in_row_is_invalid() {
    let puzzle = Puzzle::read_from_string("1 2 4 4 0 4 1 2 2 1 4 3 4 3 2 1");
    assert!(!puzzle.is_valid());
}

#[test]
fn duplicate_in_row_fails_to_solve() {
    let mut puzzle = Puzzle::read_from_string("1 2 4 4 0 4 1 2 2 1 4 3 4 3 2 1");
    assert_eq!(puzzle.solve(), Err("The sudoku puzzle is invalid"));
}

#[test]
fn duplicate_in_column_is_invalid() {
    let puzzle = Puzzle::read_from_string("1 2 3 4 1 0 0 0 0 0 0 0 0 0 0 0");
    assert!(!puzzle.is_valid());
}

#[test]
fn duplicate_in_block_is_invalid() {
    // Positions (0,0) and (1,1) share the top-left 2x2 block.
    let puzzle = Puzzle::read_from_string("1 0 0 0 0 1 0 0 0 0 0 0 0 0 0 0");
    assert!(!puzzle.is_valid());
}

#[test]
fn contradictory_grid_fails_to_solve() {
    let mut puzzle = Puzzle::read_from_string("1 2 3 3 0 4 1 2 2 1 4 3 4 3 2 1");
    assert_eq!(puzzle.solve(), Err("The sudoku puzzle is invalid"));
}

#[test]
fn solve_nine_by_nine() {
    let text = "0 4 0 0 6 0 1 2 5 2 6 0 0 4 7 0 0 0 0 0 8 5 3 0 0 0 7 6 0 0 0 5 1 7 3 0 0 7 1 \
                0 0 8 9 0 0 9 0 2 6 0 4 0 0 8 0 5 9 2 0 0 0 0 0 3 1 0 0 8 5 0 0 4 8 0 7 0 9 0 \
                6 0 1";
    let mut puzzle = Puzzle::read_from_string(text);
    assert!(puzzle.is_valid());
    assert!(!puzzle.is_solved());
    assert_eq!(puzzle.solve(), Ok(()));
    assert!(puzzle.is_solved());
}

#[test]
fn solve_empty_four_by_four_by_search() {
    let mut puzzle = Puzzle::read_from_string("0 0 0 0 0 0 0 0 0 0 0 0 0 0 0 0");
    assert_eq!(puzzle.solve(), Ok(()));
    assert!(puzzle.is_solved());
}

#[test]
fn solve_keeps_given_values() {
    let mut puzzle = Puzzle::read_from_string("0 4 0 0 6 0 1 2 5 2 6 0 0 4 7 0 0 0 0 0 8 5 3 0 \
                                               0 0 7 6 0 0 0 5 1 7 3 0 0 7 1 0 0 8 9 0 0 9 0 2 \
                                               6 0 4 0 0 8 0 5 9 2 0 0 0 0 0 3 1 0 0 8 5 0 0 4 \
                                               8 0 7 0 9 0 6 0 1");
    let given = values_of(&puzzle, 9);
    assert_eq!(puzzle.solve(), Ok(()));
    let solved = values_of(&puzzle, 9);
    for i in 0..81 {
        if given[i] != 0 {
            assert_eq!(solved[i], given[i]);
        }
    }
}

#[test]
fn token_count_must_be_a_perfect_square_of_a_square() {
    // Five tokens: no 2x2 grid; the puzzle is rejected as invalid.
    let mut puzzle = Puzzle::read_from_string("1 2 3 4 5");
    assert!(!puzzle.is_valid());
    assert_eq!(puzzle.solve(), Err("The sudoku puzzle is invalid"));
}

#[test]
fn dimension_must_be_a_perfect_square() {
    // Four tokens give a 2x2 grid, whose side is not a perfect square.
    let puzzle = Puzzle::read_from_string("1 2 2 1");
    assert!(!puzzle.is_valid());
}

#[test]
fn empty_text_gives_empty_grid() {
    let puzzle = Puzzle::read_from_string("");
    assert!(puzzle.is_valid());
    assert!(puzzle.get(0, 0).is_none());
}
