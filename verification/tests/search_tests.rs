use gf2_solver::error::SolveError;
use gf2_solver::search::{
    find_solution_shuffled, random_order, rearrange, search_minimal, solve_in_order,
    solve_shuffled, Search,
};
use gf2_solver::solve::solve;
use gf2_solver::solve::verify_solution;
use gf2_solver::words::verify_words;

fn over_complete() -> Vec<Vec<u8>> {
    vec![
        vec![1, 1, 1, 0],
        vec![0, 1, 1, 1],
        vec![1, 0, 1, 1],
        vec![1, 1, 0, 1],
        vec![1, 0, 0, 0],
        vec![0, 1, 0, 0],
        vec![0, 0, 1, 0],
        vec![0, 0, 0, 1],
        vec![1, 1, 1, 1],
        vec![1, 1, 0, 0],
    ]
}

#[test]
fn random_order_holds_each_position_once() {
    let order = random_order(50);
    let mut sorted = order.clone();
    sorted.sort();
    assert_eq!(sorted, (0..50).collect::<Vec<usize>>());
    assert_eq!(random_order(0), Vec::<usize>::new());
    assert_eq!(random_order(1), vec![0]);
}

#[test]
fn random_order_moves_positions() {
    let order = random_order(200);
    assert_ne!(order, (0..200).collect::<Vec<usize>>());
}

#[test]
fn rearrange_follows_the_order() {
    let vecs = vec![vec![1, 0], vec![0, 1], vec![1, 1]];
    assert_eq!(rearrange(&vecs, &vec![2, 0, 1]), vec![vec![1, 1], vec![1, 0], vec![0, 1]]);
    assert_eq!(rearrange(&vecs, &Vec::new()), Vec::<Vec<u8>>::new());
}

#[test]
fn solve_in_order_prefers_what_the_order_puts_first() {
    let vecs = vec![vec![1, 0], vec![1, 1], vec![0, 1], vec![1, 1]];
    let target = vec![0, 1];
    assert_eq!(solve_in_order(&vecs, &target, &vec![0, 1, 2, 3]), Ok(vec![0, 1]));
    assert_eq!(solve_in_order(&vecs, &target, &vec![2, 0, 1, 3]), Ok(vec![2]));
    assert_eq!(solve_in_order(&vecs, &target, &vec![3, 1, 2, 0]), Ok(vec![2]));
    assert_eq!(solve_in_order(&vecs, &target, &vec![1, 0, 2, 3]), Ok(vec![1, 0]));
}

#[test]
fn solve_in_order_with_the_order_as_it_stands_is_solve() {
    let vecs = over_complete();
    let order: Vec<usize> = (0..vecs.len()).collect();
    for code in 0u8..16 {
        let target: Vec<u8> = (0..4).map(|bit| (code >> bit) & 1).collect();
        assert_eq!(solve_in_order(&vecs, &target, &order), solve(&vecs, &target));
    }
}

#[test]
fn solve_in_order_fails_in_every_order() {
    let vecs = vec![vec![1, 0, 0], vec![0, 1, 0]];
    assert_eq!(solve_in_order(&vecs, &vec![0, 0, 1], &vec![1, 0]), Err(SolveError::Inconsistent));
    assert_eq!(solve_in_order(&vecs, &vec![0, 1], &vec![1, 0]), Err(SolveError::DimensionMismatch));
}

#[test]
fn solve_shuffled_gives_a_solution_in_terms_of_the_input() {
    let vecs = over_complete();
    let target = vec![1, 0, 1, 0];
    for _ in 0..50 {
        let picks = solve_shuffled(&vecs, &target).unwrap();
        assert!(picks.len() <= vecs.len());
        assert_eq!(verify_solution(&vecs, &target, &picks), Ok(()));
        let mut sorted = picks.clone();
        sorted.sort();
        sorted.dedup();
        assert_eq!(sorted.len(), picks.len());
    }
}

#[test]
fn solve_shuffled_fails_as_solve_does() {
    let vecs = vec![vec![1, 0, 0], vec![0, 1, 0]];
    assert_eq!(solve_shuffled(&vecs, &vec![0, 0, 1]), Err(SolveError::Inconsistent));
    assert_eq!(solve_shuffled(&vecs, &vec![0, 1]), Err(SolveError::DimensionMismatch));
}

#[test]
fn search_starts_without_a_best_length() {
    let search = Search::new();
    assert_eq!(search.best, None);
}

#[test]
fn search_keeps_the_shortest_length() {
    let mut search = Search::new();
    assert!(search.observe(7));
    assert_eq!(search.best, Some(7));
    assert!(!search.observe(7));
    assert!(!search.observe(9));
    assert_eq!(search.best, Some(7));
    assert!(search.observe(3));
    assert_eq!(search.best, Some(3));
    assert!(search.observe(0));
    assert!(!search.observe(0));
    assert_eq!(search.best, Some(0));
}

#[test]
fn search_minimal_reports_shorter_and_shorter_solutions() {
    let vecs = over_complete();
    let target = vec![1, 0, 1, 0];
    let found = search_minimal(&vecs, &target, 200).unwrap();
    assert!(!found.is_empty());
    assert!(found.len() <= 200);
    for picks in &found {
        assert!(picks.len() <= vecs.len());
        assert_eq!(verify_solution(&vecs, &target, picks), Ok(()));
    }
    for pair in found.windows(2) {
        assert!(pair[1].len() < pair[0].len());
    }
}

#[test]
fn search_minimal_without_trials_finds_nothing() {
    let vecs = over_complete();
    assert_eq!(search_minimal(&vecs, &vec![1, 0, 1, 0], 0), Ok(Vec::new()));
    assert_eq!(search_minimal(&vecs, &vec![1, 1, 1, 1], 0), Ok(Vec::new()));
    assert_eq!(search_minimal(&vecs, &vec![1, 0], 0), Err(SolveError::DimensionMismatch));
}

#[test]
fn search_minimal_ends_with_the_failure_of_a_trial() {
    let vecs = vec![vec![1, 0, 0], vec![0, 1, 0]];
    assert_eq!(search_minimal(&vecs, &vec![0, 0, 1], 5), Err(SolveError::Inconsistent));
    assert_eq!(search_minimal(&vecs, &vec![0, 1], 5), Err(SolveError::DimensionMismatch));
}

#[test]
fn search_minimal_for_zero_target_finds_the_empty_solution_at_once() {
    let vecs = over_complete();
    assert_eq!(search_minimal(&vecs, &vec![0, 0, 0, 0], 20), Ok(vec![Vec::new()]));
}

#[test]
fn find_solution_shuffled_keeps_the_words() {
    let owned: Vec<String> = (0..400).map(|i| format!("word{}", i)).collect();
    let mut words: Vec<&str> = owned.iter().map(|w| w.as_str()).collect();
    let before = words.clone();
    let found = find_solution_shuffled("hello world", &mut words).unwrap();
    assert_ne!(words, before);
    let mut sorted = words.clone();
    sorted.sort();
    let mut expected = before.clone();
    expected.sort();
    assert_eq!(sorted, expected);
    assert_eq!(verify_words("hello world", &found), Ok(()));
}

#[test]
fn find_solution_shuffled_reports_a_target_out_of_reach() {
    let mut words = vec!["alpha", "beta", "gamma"];
    assert_eq!(find_solution_shuffled("delta", &mut words), Err(SolveError::Inconsistent));
}
