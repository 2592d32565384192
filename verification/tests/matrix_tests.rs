use gf2_solver::echelon::{add_row, back_propagate, leading_column, row_eschelon_form, swap_rows};
use gf2_solver::error::SolveError;
use gf2_solver::matrix::{lengths_match, make_matrix};
use gf2_solver::solve::extract_solution;

#[test]
fn make_matrix_of_no_vectors_holds_the_target_alone() {
    let vecs: Vec<Vec<u8>> = Vec::new();
    let target = vec![1, 0];
    assert_eq!(make_matrix(&vecs, &target), Ok(vec![vec![1], vec![0]]));
}

#[test]
fn make_matrix_of_empty_target_has_no_rows() {
    let vecs: Vec<Vec<u8>> = vec![vec![], vec![]];
    let target: Vec<u8> = vec![];
    assert_eq!(make_matrix(&vecs, &target), Ok(Vec::<Vec<u8>>::new()));
}

#[test]
fn make_matrix_rejects_a_long_vector() {
    let vecs = vec![vec![0, 1], vec![1, 1, 1]];
    let target = vec![1, 0];
    assert_eq!(make_matrix(&vecs, &target), Err(SolveError::DimensionMismatch));
}

#[test]
fn lengths_match_compares_each_vector_with_the_target() {
    assert!(lengths_match(&vec![vec![0, 1], vec![1, 1]], &vec![1, 0]));
    assert!(!lengths_match(&vec![vec![0, 1], vec![1]], &vec![1, 0]));
    assert!(!lengths_match(&vec![vec![0, 1], vec![1, 1]], &vec![1, 0, 0]));
    assert!(lengths_match(&Vec::new(), &vec![1, 0, 0]));
}

#[test]
fn make_matrix_wide_system() {
    let vecs = vec![vec![1, 0], vec![1, 1], vec![0, 1], vec![1, 1]];
    let target = vec![0, 1];
    assert_eq!(make_matrix(&vecs, &target), Ok(vec![vec![1, 1, 0, 1, 0], vec![0, 1, 1, 1, 1]]));
}

#[test]
fn swap_rows_exchanges_two_rows() {
    let mut matrix = vec![vec![1, 0, 0], vec![0, 1, 0], vec![0, 0, 1]];
    swap_rows(&mut matrix, 0, 2);
    assert_eq!(matrix, vec![vec![0, 0, 1], vec![0, 1, 0], vec![1, 0, 0]]);
    swap_rows(&mut matrix, 1, 1);
    assert_eq!(matrix, vec![vec![0, 0, 1], vec![0, 1, 0], vec![1, 0, 0]]);
}

#[test]
fn add_row_adds_the_source_to_the_row() {
    let mut matrix = vec![vec![1, 1, 0], vec![0, 1, 1]];
    add_row(&mut matrix, 0, 1);
    assert_eq!(matrix, vec![vec![1, 0, 1], vec![0, 1, 1]]);
}

#[test]
fn leading_column_finds_the_first_one() {
    assert_eq!(leading_column(&vec![0, 0, 1, 1, 1], 4), 2);
    assert_eq!(leading_column(&vec![0, 0, 0, 0, 1], 4), 4);
    assert_eq!(leading_column(&vec![1], 0), 0);
}

#[test]
fn row_echelon_skips_a_column_without_a_one() {
    // No row has a one in column 1 below the first pivot row.
    let mut matrix = vec![vec![1, 1, 0, 1], vec![1, 1, 1, 0], vec![0, 0, 1, 1]];
    row_eschelon_form(&mut matrix);
    assert_eq!(matrix, vec![vec![1, 1, 0, 1], vec![0, 0, 1, 1], vec![0, 0, 0, 0]]);
}

#[test]
fn row_echelon_takes_the_first_row_with_a_one() {
    let mut matrix = vec![vec![0, 1, 1], vec![1, 0, 1], vec![1, 1, 0]];
    row_eschelon_form(&mut matrix);
    assert_eq!(matrix, vec![vec![1, 0, 1], vec![0, 1, 1], vec![0, 0, 0]]);
}

#[test]
fn row_echelon_of_a_wide_matrix_stops_when_rows_run_out() {
    let mut matrix = vec![vec![1, 1, 0, 1, 0], vec![1, 0, 1, 1, 1]];
    row_eschelon_form(&mut matrix);
    assert_eq!(matrix, vec![vec![1, 1, 0, 1, 0], vec![0, 1, 1, 0, 1]]);
}

#[test]
fn row_echelon_of_a_tall_matrix() {
    let mut matrix = vec![vec![0, 1], vec![1, 0], vec![1, 1], vec![1, 1]];
    row_eschelon_form(&mut matrix);
    assert_eq!(matrix, vec![vec![1, 0], vec![0, 1], vec![0, 1], vec![0, 1]]);
}

#[test]
fn row_echelon_of_an_empty_matrix_is_empty() {
    let mut matrix: Vec<Vec<u8>> = Vec::new();
    row_eschelon_form(&mut matrix);
    assert_eq!(matrix, Vec::<Vec<u8>>::new());
    back_propagate(&mut matrix);
    assert_eq!(matrix, Vec::<Vec<u8>>::new());
    assert_eq!(extract_solution(&matrix), Ok(Vec::new()));
}

#[test]
fn back_propagate_clears_above_each_leading_one() {
    let mut matrix = vec![vec![1, 1, 1, 0], vec![0, 1, 1, 1], vec![0, 0, 1, 1]];
    back_propagate(&mut matrix);
    assert_eq!(matrix, vec![vec![1, 0, 0, 1], vec![0, 1, 0, 0], vec![0, 0, 1, 1]]);
}

#[test]
fn back_propagate_passes_over_rows_without_a_leading_one() {
    let mut matrix = vec![vec![1, 1, 0, 1], vec![0, 0, 1, 1], vec![0, 0, 0, 0]];
    back_propagate(&mut matrix);
    assert_eq!(matrix, vec![vec![1, 1, 0, 1], vec![0, 0, 1, 1], vec![0, 0, 0, 0]]);
}

#[test]
fn extract_reads_leading_columns_with_a_one_on_the_right() {
    let matrix = vec![vec![1, 1, 0, 0, 1], vec![0, 0, 1, 0, 0], vec![0, 0, 0, 1, 1]];
    assert_eq!(extract_solution(&matrix), Ok(vec![0, 3]));
}

#[test]
fn extract_reports_a_row_that_states_zero_is_one() {
    let matrix = vec![vec![1, 0, 1], vec![0, 1, 0], vec![0, 0, 1]];
    assert_eq!(extract_solution(&matrix), Err(SolveError::Inconsistent));
}

#[test]
fn extract_reports_inconsistency_before_it_collects() {
    let matrix = vec![vec![0, 0, 1], vec![1, 0, 1]];
    assert_eq!(extract_solution(&matrix), Err(SolveError::Inconsistent));
}
