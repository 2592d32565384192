use vstd::prelude::*;
use crate::echelon::{back_propagate, leading_column, row_eschelon_form};
use crate::error::SolveError;
use crate::linear::within;
use crate::matrix::{
    are_bit_vectors, contents, dimensions_match, is_augmented_matrix, lemma_augmented_is_matrix,
    lengths_match, make_matrix, unknowns, width,
};
use crate::reduced::{has_contradiction, is_contradiction, lemma_reduced_decides, selected};
use crate::solution::{
    independent, indices, is_solution, is_solve_outcome, lemma_empty_system, outcome_of, xor_sum,
};
use crate::vector::{is_bit_vector, zeros};

verus! {

/// Reads a solution off an augmented matrix. A row without a one among its
/// coefficients and with a one in the augmented column ends the attempt:
/// the system has no solution. Otherwise each row with a leading one and a
/// one in the augmented column selects the column of its leading one; the
/// other columns stay out.
pub fn extract_solution(matrix: &Vec<Vec<u8>>) -> (result: Result<Vec<usize>, SolveError>)
    requires
        is_augmented_matrix(contents(matrix@)),
    ensures
        has_contradiction(contents(matrix@)) ==> result == Err::<Vec<usize>, SolveError>(
            SolveError::Inconsistent,
        ),
        !has_contradiction(contents(matrix@)) ==> result is Ok && indices((result->Ok_0)@)
            == selected(contents(matrix@), matrix@.len()),
{
    let ghost m = contents(matrix@);
    let rows: usize = matrix.len();
    if rows == 0 {
        let none: Vec<usize> = Vec::new();
        assert(indices(none@) =~= selected(m, 0));
        return Ok(none);
    }
    assert(m[0].len() == width(m));
    let cols: usize = matrix[0].len() - 1;
    let mut row: usize = 0;
    while row < rows
        invariant
            rows == matrix@.len(),
            m == contents(matrix@),
            is_augmented_matrix(m),
            cols == unknowns(m),
            row <= rows,
            forall|r: int| 0 <= r < row ==> !is_contradiction(m, r),
        decreases rows - row,
    {
        assert(m[row as int].len() == width(m));
        if matrix[row][cols] == 1 && leading_column(&matrix[row], cols) == cols {
            assert(is_contradiction(m, row as int));
            return Err(SolveError::Inconsistent);
        }
        row += 1;
    }
    // Collect the results.
    let mut picks: Vec<usize> = Vec::new();
    let mut row: usize = 0;
    assert(indices(picks@) =~= selected(m, 0));
    while row < rows
        invariant
            rows == matrix@.len(),
            m == contents(matrix@),
            is_augmented_matrix(m),
            cols == unknowns(m),
            row <= rows,
            indices(picks@) == selected(m, row as nat),
        decreases rows - row,
    {
        assert(m[row as int].len() == width(m));
        let col: usize = leading_column(&matrix[row], cols);
        if col < cols && matrix[row][cols] == 1 {
            let ghost before = picks@;
            picks.push(col);
            assert(indices(picks@) =~= indices(before).push(col as int));
        }
        row += 1;
    }
    Ok(picks)
}

/// Finds which of `vectors` add up to `target` over GF(2).
///
/// The attempt fails with `DimensionMismatch` where a vector and the target
/// differ in length, and with `Inconsistent` where no list of vectors adds
/// up to the target. Otherwise the result is the canonical solution: the
/// positions of the vectors to add, in rising order, none of them a sum of
/// vectors before it.
pub fn solve(vectors: &Vec<Vec<u8>>, target: &Vec<u8>) -> (result: Result<Vec<usize>, SolveError>)
    requires
        are_bit_vectors(contents(vectors@)),
        is_bit_vector(target@),
    ensures
        is_solve_outcome(contents(vectors@), target@, outcome_of(result)),
        dimensions_match(contents(vectors@), target@) && independent(contents(vectors@))
            && vectors@.len() == target@.len() ==> result is Ok,
{
    let mut matrix = match make_matrix(vectors, target) {
        Ok(matrix) => matrix,
        Err(e) => {
            return Err(e);
        },
    };
    proof {
        lemma_augmented_is_matrix(contents(vectors@), target@);
    }
    row_eschelon_form(&mut matrix);
    back_propagate(&mut matrix);
    let result = extract_solution(&matrix);
    proof {
        if target@.len() == 0 {
            lemma_empty_system(contents(vectors@), target@);
            assert(selected(contents(matrix@), 0) =~= Seq::<int>::empty());
        } else {
            lemma_reduced_decides(contents(vectors@), target@, contents(matrix@));
        }
    }
    result
}

/// Whether two slices hold the same bytes.
pub fn same_bytes(a: &[u8], b: &[u8]) -> (same: bool)
    ensures
        same == (a@ == b@),
{
    if a.len() != b.len() {
        return false;
    }
    let n: usize = a.len();
    let mut i: usize = 0;
    while i < n
        invariant
            n == a@.len(),
            n == b@.len(),
            i <= n,
            forall|j: int| 0 <= j < i ==> a@[j] == b@[j],
        decreases n - i,
    {
        if a[i] != b[i] {
            return false;
        }
        i += 1;
    }
    assert(a@ =~= b@);
    true
}

/// Adds up the vectors at the positions `picks`, starting from `len` zeros.
/// Fails with `DimensionMismatch` where a position lies outside `vectors` or
/// a listed vector is not `len` long.
pub fn combine(vectors: &Vec<Vec<u8>>, picks: &Vec<usize>, len: usize) -> (result: Result<
    Vec<u8>,
    SolveError,
>)
    ensures
        result is Ok <==> (forall|k: int|
            0 <= k < picks@.len() ==> #[trigger] picks@[k] < vectors@.len()
                && contents(vectors@)[picks@[k] as int].len() == len),
        result is Ok ==> (result->Ok_0)@ == xor_sum(contents(vectors@), indices(picks@), len as nat),
        result is Err ==> result == Err::<Vec<u8>, SolveError>(SolveError::DimensionMismatch),
{
    let mut sum: Vec<u8> = Vec::new();
    let mut i: usize = 0;
    while i < len
        invariant
            i <= len,
            sum@.len() == i,
            forall|j: int| 0 <= j < i ==> sum@[j] == 0,
        decreases len - i,
    {
        sum.push(0);
        i += 1;
    }
    assert(sum@ =~= zeros(len as nat));
    let count: usize = picks.len();
    let mut k: usize = 0;
    assert(indices(picks@).take(0) =~= Seq::<int>::empty());
    while k < count
        invariant
            count == picks@.len(),
            k <= count,
            sum@.len() == len,
            forall|j: int|
                0 <= j < k ==> #[trigger] picks@[j] < vectors@.len() && contents(
                    vectors@,
                )[picks@[j] as int].len() == len,
            sum@ == xor_sum(contents(vectors@), indices(picks@).take(k as int), len as nat),
        decreases count - k,
    {
        let pick: usize = picks[k];
        if pick >= vectors.len() {
            return Err(SolveError::DimensionMismatch);
        }
        if vectors[pick].len() != len {
            return Err(SolveError::DimensionMismatch);
        }
        sum = crate::vector::add(sum.as_slice(), vectors[pick].as_slice());
        proof {
            let all = indices(picks@);
            assert(all.take(k + 1).drop_last() =~= all.take(k as int));
            assert(all.take(k + 1).last() == pick as int);
        }
        k += 1;
    }
    assert(indices(picks@).take(count as int) =~= indices(picks@));
    Ok(sum)
}

/// Checks a proposed solution by adding up the vectors it lists: `Ok` where
/// they add up to the target, `InternalVerificationFailure` where they do
/// not or a position lies outside `vectors`, `DimensionMismatch` where a
/// vector and the target differ in length.
pub fn verify_solution(vectors: &Vec<Vec<u8>>, target: &Vec<u8>, picks: &Vec<usize>) -> (result:
    Result<(), SolveError>)
    ensures
        !dimensions_match(contents(vectors@), target@) ==> result == Err::<(), SolveError>(
            SolveError::DimensionMismatch,
        ),
        dimensions_match(contents(vectors@), target@) && !is_solution(
            contents(vectors@),
            target@,
            indices(picks@),
        ) ==> result == Err::<(), SolveError>(SolveError::InternalVerificationFailure),
        dimensions_match(contents(vectors@), target@) && is_solution(
            contents(vectors@),
            target@,
            indices(picks@),
        ) ==> result == Ok::<(), SolveError>(()),
{
    if !lengths_match(vectors, target) {
        return Err(SolveError::DimensionMismatch);
    }
    let len: usize = target.len();
    match combine(vectors, picks, len) {
        Ok(sum) => {
            if same_bytes(sum.as_slice(), target.as_slice()) {
                proof {
                    assert forall|k: int| 0 <= k < indices(picks@).len() implies 0
                        <= #[trigger] indices(picks@)[k] < vectors@.len() by {
                        assert(picks@[k] < vectors@.len());
                    }
                }
                Ok(())
            } else {
                Err(SolveError::InternalVerificationFailure)
            }
        },
        Err(_) => {
            proof {
                let k = choose|k: int|
                    0 <= k < picks@.len() && !(#[trigger] picks@[k] < vectors@.len() && contents(
                        vectors@,
                    )[picks@[k] as int].len() == len);
                assert(contents(vectors@)[picks@[k] as int].len() == len || picks@[k]
                    >= vectors@.len());
                assert(indices(picks@)[k] == picks@[k]);
                assert(!within(indices(picks@), vectors@.len() as int));
            }
            Err(SolveError::InternalVerificationFailure)
        },
    }
}

} // verus!
