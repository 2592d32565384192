use gf2_solver::error::SolveError;
use gf2_solver::solve::{combine, same_bytes, solve, verify_solution};
use gf2_solver::vector;

fn add_up(vecs: &Vec<Vec<u8>>, picks: &Vec<usize>, len: usize) -> Vec<u8> {
    let mut sum = vec![0u8; len];
    for &pick in picks {
        sum = vector::add(&sum, &vecs[pick]);
    }
    sum
}

#[test]
fn three_vectors_reach_the_target() {
    let vecs = vec![vec![0, 1, 0], vec![1, 1, 0], vec![0, 0, 1]];
    let target = vec![1, 0, 1];
    let picks = solve(&vecs, &target).unwrap();
    assert_eq!(add_up(&vecs, &picks, 3), target);
    assert_eq!(picks, vec![0, 1, 2]);
    assert_eq!(combine(&vecs, &picks, 3), Ok(target.clone()));
    assert_eq!(verify_solution(&vecs, &target, &picks), Ok(()));
}

#[test]
fn first_two_vectors_reach_their_sum() {
    let vecs = vec![vec![0, 1, 0], vec![1, 1, 0], vec![0, 0, 1]];
    let target = vec![1, 0, 0];
    assert_eq!(solve(&vecs, &target), Ok(vec![0, 1]));
}

#[test]
fn full_rank_square_system_has_its_one_solution() {
    let vecs = vec![vec![1, 1, 0, 0], vec![0, 1, 1, 0], vec![0, 0, 1, 1], vec![0, 0, 0, 1]];
    // Every target has exactly one list of picks.
    for code in 0u8..16 {
        let target: Vec<u8> = (0..4).map(|bit| (code >> bit) & 1).collect();
        let picks = solve(&vecs, &target).unwrap();
        assert_eq!(add_up(&vecs, &picks, 4), target);
        let mut matching = 0;
        for subset in 0u8..16 {
            let candidate: Vec<usize> = (0..4).filter(|c| (subset >> c) & 1 == 1).collect();
            if add_up(&vecs, &candidate, 4) == target {
                assert_eq!(candidate, picks);
                matching += 1;
            }
        }
        assert_eq!(matching, 1);
    }
}

#[test]
fn target_outside_the_span_is_inconsistent() {
    let vecs = vec![vec![1, 0, 0], vec![0, 1, 0]];
    let target = vec![0, 0, 1];
    assert_eq!(solve(&vecs, &target), Err(SolveError::Inconsistent));
}

#[test]
fn zero_target_takes_nothing() {
    let vecs = vec![vec![1, 0, 1], vec![0, 1, 1], vec![1, 1, 0], vec![1, 1, 1]];
    let target = vec![0, 0, 0];
    assert_eq!(solve(&vecs, &target), Ok(Vec::new()));
    assert_eq!(verify_solution(&vecs, &target, &Vec::new()), Ok(()));
}

#[test]
fn solve_twice_gives_one_answer() {
    let vecs = vec![
        vec![1, 0, 1, 1],
        vec![0, 1, 1, 0],
        vec![1, 1, 0, 1],
        vec![1, 1, 1, 0],
        vec![0, 0, 0, 1],
    ];
    let target = vec![1, 1, 1, 1];
    let first = solve(&vecs, &target);
    let second = solve(&vecs, &target);
    assert_eq!(first, second);
    assert_eq!(first, Ok(vec![3, 4]));
}

#[test]
fn vectors_that_repeat_earlier_ones_stay_out() {
    // The third vector is the sum of the first two, the fourth equals the first.
    let vecs = vec![vec![1, 0, 0], vec![0, 1, 0], vec![1, 1, 0], vec![1, 0, 0], vec![0, 0, 1]];
    assert_eq!(solve(&vecs, &vec![1, 1, 0]), Ok(vec![0, 1]));
    assert_eq!(solve(&vecs, &vec![1, 0, 1]), Ok(vec![0, 4]));
}

#[test]
fn zero_vectors_are_never_picked() {
    let vecs = vec![vec![0, 0], vec![1, 1], vec![0, 0], vec![0, 1]];
    assert_eq!(solve(&vecs, &vec![1, 0]), Ok(vec![1, 3]));
}

#[test]
fn solve_rejects_mismatched_lengths() {
    let vecs = vec![vec![1, 0, 0], vec![0, 1]];
    assert_eq!(solve(&vecs, &vec![1, 1, 0]), Err(SolveError::DimensionMismatch));
    let vecs = vec![vec![1, 0, 0], vec![0, 1, 0]];
    assert_eq!(solve(&vecs, &vec![1, 1]), Err(SolveError::DimensionMismatch));
}

#[test]
fn solve_without_vectors() {
    let vecs: Vec<Vec<u8>> = Vec::new();
    assert_eq!(solve(&vecs, &vec![0, 0]), Ok(Vec::new()));
    assert_eq!(solve(&vecs, &vec![0, 1]), Err(SolveError::Inconsistent));
}

#[test]
fn solve_with_empty_target() {
    let vecs: Vec<Vec<u8>> = vec![vec![], vec![]];
    assert_eq!(solve(&vecs, &Vec::new()), Ok(Vec::new()));
}

#[test]
fn solve_wide_system_prefers_early_vectors() {
    let vecs = vec![vec![1, 0], vec![1, 1], vec![0, 1], vec![1, 1]];
    assert_eq!(solve(&vecs, &vec![0, 1]), Ok(vec![0, 1]));
}

#[test]
fn combine_adds_a_vector_twice_to_nothing() {
    let vecs = vec![vec![1, 0, 1], vec![0, 1, 1]];
    assert_eq!(combine(&vecs, &vec![0, 1, 0], 3), Ok(vec![0, 1, 1]));
    assert_eq!(combine(&vecs, &Vec::new(), 3), Ok(vec![0, 0, 0]));
}

#[test]
fn combine_rejects_what_it_cannot_add() {
    let vecs = vec![vec![1, 0, 1], vec![0, 1]];
    assert_eq!(combine(&vecs, &vec![2], 3), Err(SolveError::DimensionMismatch));
    assert_eq!(combine(&vecs, &vec![0, 1], 3), Err(SolveError::DimensionMismatch));
}

#[test]
fn wrong_picks_fail_verification() {
    let vecs = vec![vec![0, 1, 0], vec![1, 1, 0], vec![0, 0, 1]];
    let target = vec![1, 0, 1];
    assert_eq!(
        verify_solution(&vecs, &target, &vec![0, 1]),
        Err(SolveError::InternalVerificationFailure)
    );
    assert_eq!(
        verify_solution(&vecs, &target, &vec![7]),
        Err(SolveError::InternalVerificationFailure)
    );
}

#[test]
fn verification_checks_lengths_first() {
    let vecs = vec![vec![0, 1, 0], vec![1, 1]];
    assert_eq!(
        verify_solution(&vecs, &vec![1, 0, 1], &vec![0]),
        Err(SolveError::DimensionMismatch)
    );
}

#[test]
fn same_bytes_compares_length_and_content() {
    assert!(same_bytes(&[1, 2, 3], &[1, 2, 3]));
    assert!(!same_bytes(&[1, 2, 3], &[1, 2, 4]));
    assert!(!same_bytes(&[1, 2, 3], &[1, 2]));
    assert!(same_bytes(&[], &[]));
}
