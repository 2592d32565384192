use gf2_solver::vector;

#[test]
fn test_add() {
    let a = [0, 1, 0];
    let b = [1, 1, 0];
    let c = [1, 0, 0];
    assert_eq!(vector::add(&a, &b), c);
}

#[test]
fn add_is_its_own_inverse() {
    let a: [u8; 5] = [0, 1, 1, 0, 1];
    let b: [u8; 5] = [1, 1, 0, 0, 1];
    let once = vector::add(&a, &b);
    assert_eq!(once, vec![1, 0, 1, 0, 0]);
    let twice = vector::add(&once, &b);
    assert_eq!(twice, a);
}

#[test]
fn add_of_empty_vectors_is_empty() {
    let a: [u8; 0] = [];
    let b: [u8; 0] = [];
    assert_eq!(vector::add(&a, &b), Vec::<u8>::new());
}

#[test]
fn add_reduces_bytes_modulo_two() {
    let a: [u8; 3] = [255, 2, 3];
    let b: [u8; 3] = [255, 1, 0];
    assert_eq!(vector::add(&a, &b), vec![0, 1, 1]);
}
