use sudoku_ai::Puzzle;
use sudoku_ai::Square;

#[test]
fn parsing_skips_malformed_tokens() {
    // The word and the oversized number are dropped; sixteen values remain.
    let puzzle = Puzzle::read_from_string("1 x 2 3 4 3 4 1 2 2 1 4 3 4 3 2 1 9999999999999999999999");
    assert!(puzzle.is_solved());
    assert_eq!(puzzle.get(0, 0).unwrap().value, 1);
    assert_eq!(puzzle.get(3, 3).unwrap().value, 1);
}

#[test]
fn parsing_accepts_any_whitespace() {
    let puzzle = Puzzle::read_from_string("1 2 3 4\n3 4 1 2\n\t2 1 4 3\r\n4 3 2 1\n");
    assert!(puzzle.is_solved());
}

#[test]
fn render_lays_out_rows() {
    let puzzle = Puzzle::read_from_string("1 2 3 4 3 4 1 2 2 1 4 3 4 3 2 1");
    assert_eq!(puzzle.render(), "1 2 3 4 \n3 4 1 2 \n2 1 4 3 \n4 3 2 1 \n\n");
}

#[test]
fn render_keeps_zeros_visible() {
    let puzzle = Puzzle::read_from_string("1 2 3 4 0 4 1 2 2 1 4 3 4 3 2 1");
    assert_eq!(puzzle.render(), "1 2 3 4 \n0 4 1 2 \n2 1 4 3 \n4 3 2 1 \n\n");
}

#[test]
fn render_then_read_round_trips() {
    let mut puzzle = Puzzle::read_from_string("1 2 0 0 3 4 1 2 2 1 4 3 4 3 2 1");
    assert_eq!(puzzle.solve(), Ok(()));
    let text = puzzle.render();
    let again = Puzzle::read_from_string(&text);
    assert_eq!(again.render(), text);
    for y in 0..4 {
        for x in 0..4 {
            assert_eq!(again.get(x, y).unwrap().value, puzzle.get(x, y).unwrap().value);
        }
    }
}

#[test]
fn get_row_collects_nonzero_values() {
    let puzzle = Puzzle::read_from_string("1 0 3 4 3 4 1 2 2 1 4 3 4 3 2 1");
    assert_eq!(puzzle.get_row(0), vec![1, 3, 4]);
    assert_eq!(puzzle.get_row(1), vec![3, 4, 1, 2]);
}

#[test]
fn get_column_collects_nonzero_values() {
    let puzzle = Puzzle::read_from_string("1 2 3 4 0 4 1 2 2 1 4 3 4 3 2 1");
    assert_eq!(puzzle.get_column(0), vec![1, 2, 4]);
    assert_eq!(puzzle.get_column(1), vec![2, 4, 1, 3]);
}

#[test]
fn get_group_collects_block_values() {
    let puzzle = Puzzle::read_from_string("1 2 3 4 3 4 1 2 2 1 4 3 4 3 2 1");
    assert_eq!(puzzle.get_group(0, 0), vec![1, 2, 3, 4]);
    assert_eq!(puzzle.get_group(2, 2), vec![4, 3, 2, 1]);
    // Any position inside a block names the same block.
    assert_eq!(puzzle.get_group(3, 3), vec![4, 3, 2, 1]);
}

#[test]
fn find_next_empty_square_scans_in_order() {
    let puzzle = Puzzle::read_from_string("1 2 0 0 3 4 1 2 2 1 4 3 4 3 2 1");
    assert_eq!(puzzle.find_next_empty_square(), Some(2));
    let solved = Puzzle::read_from_string("1 2 3 4 3 4 1 2 2 1 4 3 4 3 2 1");
    assert_eq!(solved.find_next_empty_square(), None);
}

#[test]
fn update_domains_clears_fixed_and_trims_empty() {
    let mut puzzle = Puzzle::read_from_string("1 2 0 0 3 4 1 2 2 1 4 3 4 3 2 1");
    puzzle.update_domains();
    // Fixed squares carry no candidates.
    assert_eq!(puzzle.get(0, 0).unwrap().get_domain_size(), 0);
    // Position (2,0) can only hold 3, position (3,0) only 4.
    assert_eq!(puzzle.get(2, 0).unwrap().get_domain_size(), 1);
    let mut probe = puzzle.get(2, 0).unwrap().clone();
    assert!(probe.remove_from_domain(&3));
    let mut probe = puzzle.get(3, 0).unwrap().clone();
    assert!(probe.remove_from_domain(&4));
    assert!(!probe.remove_from_domain(&4));
}

#[test]
fn update_domains_is_idempotent() {
    let text = "0 4 0 0 6 0 1 2 5 2 6 0 0 4 7 0 0 0 0 0 8 5 3 0 0 0 7 6 0 0 0 5 1 7 3 0 0 7 1 \
                0 0 8 9 0 0 9 0 2 6 0 4 0 0 8 0 5 9 2 0 0 0 0 0 3 1 0 0 8 5 0 0 4 8 0 7 0 9 0 \
                6 0 1";
    let mut puzzle = Puzzle::read_from_string(text);
    puzzle.update_domains();
    let mut first: Vec<Vec<bool>> = Vec::new();
    for y in 0..9 {
        for x in 0..9 {
            let sq = puzzle.get(x, y).unwrap();
            first.push((1..=9).map(|v| sq.clone().remove_from_domain(&v)).collect());
        }
    }
    puzzle.update_domains();
    for y in 0..9 {
        for x in 0..9 {
            let sq = puzzle.get(x, y).unwrap();
            let again: Vec<bool> = (1..=9).map(|v| sq.clone().remove_from_domain(&v)).collect();
            assert_eq!(again, first[y * 9 + x]);
        }
    }
}

#[test]
fn square_reset_fills_the_range() {
    let mut sq = Square::new(0);
    assert_eq!(sq.get_domain_size(), 0);
    sq.reset(4);
    assert_eq!(sq.get_domain_size(), 4);
    assert!(sq.is_valid(4));
}

#[test]
fn square_remove_reports_membership() {
    let mut sq = Square::new(0);
    sq.reset(4);
    assert!(sq.remove_from_domain(&3));
    assert!(!sq.remove_from_domain(&3));
    assert!(!sq.remove_from_domain(&0));
    assert!(!sq.remove_from_domain(&5));
    assert_eq!(sq.get_domain_size(), 3);
}

#[test]
fn square_clear_domain_empties_it() {
    let mut sq = Square::new(7);
    sq.reset(9);
    sq.clear_domain();
    assert_eq!(sq.get_domain_size(), 0);
    assert!(sq.is_valid(9));
    assert!(!sq.is_valid(5));
}

#[test]
fn square_takes_smallest_candidate() {
    let mut sq = Square::new(0);
    sq.reset(4);
    assert!(sq.remove_from_domain(&1));
    sq.set_value_from_domain();
    assert_eq!(sq.value, 2);
    assert_eq!(sq.get_domain_size(), 0);
}

#[test]
fn square_with_one_candidate_takes_it() {
    let mut sq = Square::new(0);
    sq.reset(2);
    assert!(sq.remove_from_domain(&1));
    assert_eq!(sq.get_domain_size(), 1);
    sq.set_value_from_domain();
    assert_eq!(sq.value, 2);
}

#[test]
fn square_without_candidates_keeps_its_value() {
    let mut sq = Square::new(0);
    sq.set_value_from_domain();
    assert_eq!(sq.value, 0);
}
