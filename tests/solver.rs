use futoshiki::matrix::{GridError, Matrix, Outcome, Policy};
use futoshiki::puzzle::{solve_puzzle, OrderConstraint};
use futoshiki::relation::Relation;

const CEILING: u64 = 1_000_000;

fn is_latin(n: usize, g: &[u32]) -> bool {
    if g.len() != n * n {
        return false;
    }
    for r in 0..n {
        let mut row: Vec<u32> = (0..n).map(|c| g[c + r * n]).collect();
        row.sort();
        if row != (1..=n as u32).collect::<Vec<u32>>() {
            return false;
        }
    }
    for c in 0..n {
        let mut col: Vec<u32> = (0..n).map(|r| g[c + r * n]).collect();
        col.sort();
        if col != (1..=n as u32).collect::<Vec<u32>>() {
            return false;
        }
    }
    true
}

fn meets(n: usize, g: &[u32], cs: &[OrderConstraint]) -> bool {
    cs.iter().all(|oc| {
        let a = g[oc.col_a + oc.row_a * n];
        let b = g[oc.col_b + oc.row_b * n];
        match oc.relation {
            Relation::GreaterThan => a > b,
            Relation::LessThan => a < b,
        }
    })
}

fn oc(row_a: usize, col_a: usize, row_b: usize, col_b: usize, relation: Relation) -> OrderConstraint {
    OrderConstraint { row_a, col_a, row_b, col_b, relation }
}

fn solved(outcome: Outcome) -> Vec<u32> {
    match outcome {
        Outcome::Solved(g) => g,
        other => panic!("expected a solved grid, got {:?}", other),
    }
}

#[test]
fn empty_four_by_four_is_a_latin_square() {
    for policy in [Policy::MinimumRemaining, Policy::Naive] {
        let g = solved(solve_puzzle(4, vec![0; 16], &vec![], policy, CEILING));
        assert!(is_latin(4, &g));
    }
}

#[test]
fn two_by_two_with_one_constraint_has_one_answer() {
    let cs = vec![oc(0, 0, 0, 1, Relation::GreaterThan)];
    for policy in [Policy::MinimumRemaining, Policy::Naive] {
        let g = solved(solve_puzzle(2, vec![0; 4], &cs, policy, CEILING));
        assert_eq!(g, vec![2, 1, 1, 2]);
    }
}

#[test]
fn less_than_is_read_from_the_first_cell() {
    let cs = vec![oc(0, 0, 0, 1, Relation::LessThan)];
    let g = solved(solve_puzzle(2, vec![0; 4], &cs, Policy::MinimumRemaining, CEILING));
    assert_eq!(g, vec![1, 2, 2, 1]);
}

#[test]
fn constraints_from_either_cell_hold_in_the_result() {
    // A chain down the first column and along the first row.
    let cs = vec![
        oc(0, 0, 1, 0, Relation::GreaterThan),
        oc(1, 0, 2, 0, Relation::GreaterThan),
        oc(2, 0, 3, 0, Relation::GreaterThan),
        oc(0, 1, 0, 2, Relation::LessThan),
        oc(0, 3, 0, 2, Relation::GreaterThan),
    ];
    for policy in [Policy::MinimumRemaining, Policy::Naive] {
        let g = solved(solve_puzzle(4, vec![0; 16], &cs, policy, CEILING));
        assert!(is_latin(4, &g));
        assert!(meets(4, &g, &cs));
        assert_eq!(g[0], 4);
        assert_eq!(g[12], 1);
    }
}

#[test]
fn five_by_five_puzzle_is_solved() {
    let grid = vec![
        0, 0, 0, 0, 0,
        0, 0, 0, 0, 0,
        0, 0, 3, 0, 0,
        0, 0, 0, 0, 0,
        0, 0, 0, 0, 1,
    ];
    let cs = vec![
        oc(0, 0, 0, 1, Relation::LessThan),
        oc(0, 3, 1, 3, Relation::GreaterThan),
        oc(1, 1, 1, 2, Relation::GreaterThan),
        oc(2, 0, 3, 0, Relation::LessThan),
        oc(3, 2, 3, 3, Relation::LessThan),
        oc(3, 4, 4, 4, Relation::GreaterThan),
        oc(4, 1, 4, 2, Relation::GreaterThan),
    ];
    for policy in [Policy::MinimumRemaining, Policy::Naive] {
        let g = solved(solve_puzzle(5, grid.clone(), &cs, policy, CEILING));
        assert!(is_latin(5, &g));
        assert!(meets(5, &g, &cs));
        for i in 0..25 {
            if grid[i] != 0 {
                assert_eq!(g[i], grid[i]);
            }
        }
    }
}

#[test]
fn constraint_across_rows_and_columns_without_solution_is_unsolvable() {
    // Both 2x2 Latin squares put equal values at (0,0) and (1,1).
    let cs = vec![oc(0, 0, 1, 1, Relation::GreaterThan)];
    for policy in [Policy::MinimumRemaining, Policy::Naive] {
        assert_eq!(solve_puzzle(2, vec![0; 4], &cs, policy, CEILING), Outcome::Unsolvable);
    }
}

#[test]
fn constraint_across_rows_and_columns_holds_in_the_result() {
    let cs = vec![oc(0, 0, 1, 1, Relation::GreaterThan), oc(2, 0, 0, 1, Relation::LessThan)];
    for policy in [Policy::MinimumRemaining, Policy::Naive] {
        let g = solved(solve_puzzle(3, vec![0; 9], &cs, policy, CEILING));
        assert!(is_latin(3, &g));
        assert!(meets(3, &g, &cs));
    }
}

#[test]
fn disagreeing_constraints_on_one_pair_are_unsolvable() {
    let cs = vec![oc(0, 0, 0, 1, Relation::GreaterThan), oc(0, 0, 0, 1, Relation::LessThan)];
    for policy in [Policy::MinimumRemaining, Policy::Naive] {
        assert_eq!(solve_puzzle(3, vec![0; 9], &cs, policy, CEILING), Outcome::Unsolvable);
    }
}

#[test]
fn constraint_of_a_cell_on_itself_is_unsolvable() {
    let cs = vec![oc(1, 1, 1, 1, Relation::LessThan)];
    for policy in [Policy::MinimumRemaining, Policy::Naive] {
        assert_eq!(solve_puzzle(3, vec![0; 9], &cs, policy, CEILING), Outcome::Unsolvable);
    }
}

#[test]
fn solving_a_solved_grid_returns_it_unchanged() {
    let cs = vec![oc(0, 0, 0, 1, Relation::GreaterThan), oc(1, 2, 2, 2, Relation::LessThan)];
    let first = solved(solve_puzzle(3, vec![0; 9], &cs, Policy::MinimumRemaining, CEILING));
    let second = solved(solve_puzzle(3, first.clone(), &cs, Policy::MinimumRemaining, CEILING));
    assert_eq!(first, second);
    let third = solved(solve_puzzle(3, first.clone(), &cs, Policy::Naive, 0));
    assert_eq!(first, third);
}

#[test]
fn repeated_value_in_a_row_is_unsolvable() {
    let grid = vec![1, 1, 0, 0, 0, 0, 0, 0, 0];
    assert_eq!(solve_puzzle(3, grid, &vec![], Policy::MinimumRemaining, CEILING), Outcome::Unsolvable);
}

#[test]
fn repeated_value_in_a_column_is_unsolvable() {
    let grid = vec![0, 2, 0, 0, 0, 0, 0, 2, 0];
    assert_eq!(solve_puzzle(3, grid, &vec![], Policy::Naive, CEILING), Outcome::Unsolvable);
}

#[test]
fn violated_constraint_between_given_cells_is_unsolvable() {
    let grid = vec![1, 2, 0, 0, 0, 0, 0, 0, 0];
    let cs = vec![oc(0, 0, 0, 1, Relation::GreaterThan)];
    assert_eq!(solve_puzzle(3, grid, &cs, Policy::MinimumRemaining, CEILING), Outcome::Unsolvable);
}

#[test]
fn violated_constraint_between_distant_given_cells_is_unsolvable() {
    let grid = vec![1, 0, 0, 0, 0, 0, 0, 0, 3];
    let cs = vec![oc(0, 0, 2, 2, Relation::GreaterThan)];
    assert_eq!(solve_puzzle(3, grid, &cs, Policy::MinimumRemaining, CEILING), Outcome::Unsolvable);
}

#[test]
fn full_grid_that_breaks_a_constraint_is_unsolvable() {
    let grid = vec![1, 2, 2, 1];
    let cs = vec![oc(0, 0, 0, 1, Relation::GreaterThan)];
    assert_eq!(solve_puzzle(2, grid, &cs, Policy::MinimumRemaining, CEILING), Outcome::Unsolvable);
}

#[test]
fn impossible_constraint_is_unsolvable() {
    // The first cell holds 1, and the cell beside it must be smaller.
    let grid = vec![1, 0, 0, 0, 0, 0, 0, 0, 0];
    let cs = vec![oc(0, 1, 0, 0, Relation::LessThan)];
    for policy in [Policy::MinimumRemaining, Policy::Naive] {
        assert_eq!(solve_puzzle(3, grid.clone(), &cs, policy, CEILING), Outcome::Unsolvable);
    }
}

#[test]
fn cycle_of_constraints_is_unsolvable() {
    let cs = vec![
        oc(0, 0, 0, 1, Relation::GreaterThan),
        oc(0, 1, 0, 2, Relation::GreaterThan),
        oc(0, 2, 0, 0, Relation::GreaterThan),
    ];
    for policy in [Policy::MinimumRemaining, Policy::Naive] {
        assert_eq!(solve_puzzle(3, vec![0; 9], &cs, policy, CEILING), Outcome::Unsolvable);
    }
}

#[test]
fn forward_check_forces_backtracking() {
    // Cell (1,1) can only take 2 once the constraint is loaded; placing 2 elsewhere in
    // its row or column must be refused, never produce a clash.
    let cs = vec![oc(1, 1, 1, 2, Relation::LessThan), oc(1, 1, 2, 1, Relation::GreaterThan)];
    let grid = vec![0, 0, 0, 0, 0, 3, 0, 1, 0];
    for policy in [Policy::MinimumRemaining, Policy::Naive] {
        let g = solved(solve_puzzle(3, grid.clone(), &cs, policy, CEILING));
        assert!(is_latin(3, &g));
        assert!(meets(3, &g, &cs));
        assert_eq!(g[4], 2);
    }
}

#[test]
fn singleton_domain_refuses_its_value_to_neighbours() {
    // Loading the constraint leaves cell (1,0) only the value 1, so 1 cannot go to
    // (0,0); the one solution starts with 2.
    let cs = vec![oc(1, 1, 1, 0, Relation::GreaterThan)];
    for policy in [Policy::Naive, Policy::MinimumRemaining] {
        let g = solved(solve_puzzle(2, vec![0; 4], &cs, policy, CEILING));
        assert_eq!(g, vec![2, 1, 1, 2]);
    }
    // Assigning 1 at (0,0) narrows (0,1) to {2, 3} and (1,0) to {2}; a value 2 placed
    // next to (1,0) must then be turned away.
    let cs = vec![oc(1, 0, 1, 1, Relation::LessThan), oc(1, 0, 2, 0, Relation::LessThan)];
    let grid = vec![1, 0, 0, 0, 0, 0, 0, 0, 0];
    for policy in [Policy::Naive, Policy::MinimumRemaining] {
        let g = solved(solve_puzzle(3, grid.clone(), &cs, policy, CEILING));
        assert!(is_latin(3, &g));
        assert!(meets(3, &g, &cs));
        assert_eq!(g[3], 2);
    }
}

#[test]
fn zero_ceiling_gives_up_on_a_puzzle_with_an_empty_cell() {
    for policy in [Policy::MinimumRemaining, Policy::Naive] {
        assert_eq!(solve_puzzle(3, vec![0; 9], &vec![], policy, 0), Outcome::EffortExceeded);
        let grid = vec![1, 2, 2, 0];
        assert_eq!(solve_puzzle(2, grid, &vec![], policy, 0), Outcome::EffortExceeded);
        // No solution exists here, but the given cells do not clash.
        let cs = vec![oc(0, 1, 0, 0, Relation::LessThan)];
        assert_eq!(solve_puzzle(2, vec![1, 0, 0, 0], &cs, policy, 0), Outcome::EffortExceeded);
        assert_eq!(solve_puzzle(2, vec![1, 0, 0, 0], &cs, policy, CEILING), Outcome::Unsolvable);
    }
}

#[test]
fn small_ceiling_gives_up_before_completion() {
    assert_eq!(solve_puzzle(4, vec![0; 16], &vec![], Policy::Naive, 15), Outcome::EffortExceeded);
    let g = solved(solve_puzzle(4, vec![0; 16], &vec![], Policy::MinimumRemaining, 16));
    assert!(is_latin(4, &g));
}

#[test]
fn matrix_get_and_set() {
    let mut m = Matrix::new(3);
    assert_eq!(m.dimension(), 3);
    assert_eq!(m.get(1, 2), Ok(0));
    m.set(1, 2, 3);
    assert_eq!(m.get(1, 2), Ok(3));
    assert_eq!(m.attempt_count(), 1);
    m.set(1, 2, 0);
    assert_eq!(m.get(1, 2), Ok(0));
    assert_eq!(m.attempt_count(), 1);
    assert_eq!(m.get(3, 0), Err(GridError::OutOfBounds));
    assert_eq!(m.get(0, 3), Err(GridError::OutOfBounds));
}

#[test]
fn matrix_solve_fills_the_board_in_place() {
    let mut m = Matrix::new(3);
    m.set(0, 0, 2);
    m.add_constraint(1, 2, Relation::GreaterThan);
    let g = solved(m.solve(Policy::MinimumRemaining, CEILING));
    assert!(is_latin(3, &g));
    assert_eq!(g[0], 2);
    assert!(g[1] > g[2]);
    for r in 0..3 {
        for c in 0..3 {
            assert_eq!(m.get(r, c), Ok(g[c + r * 3]));
        }
    }
    assert!(m.attempt_count() >= 8);
}

#[test]
fn matrix_unsolvable_leaves_the_grid_as_given() {
    let mut m = Matrix::new(2);
    m.set(0, 0, 1);
    m.add_constraint(0, 1, Relation::GreaterThan);
    assert_eq!(m.solve(Policy::MinimumRemaining, CEILING), Outcome::Unsolvable);
    assert_eq!(m.get(0, 0), Ok(1));
    assert_eq!(m.get(0, 1), Ok(0));
    assert_eq!(m.get(1, 0), Ok(0));
    assert_eq!(m.get(1, 1), Ok(0));
}

#[test]
fn with_grid_keeps_the_given_cells() {
    let m = Matrix::with_grid(2, vec![0, 2, 1, 0]);
    assert_eq!(m.get(0, 1), Ok(2));
    assert_eq!(m.get(1, 0), Ok(1));
    assert_eq!(m.attempt_count(), 0);
}
