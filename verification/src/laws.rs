use vstd::prelude::*;
use crate::echelon::reduced_form;
use crate::elimination::lemma_reduced_form;
use crate::error::SolveError;
use crate::linear::increasing;
use crate::matrix::{are_bit_vectors, augmented, dimensions_match, lemma_augmented_is_matrix};
use crate::reduced::{has_contradiction, lemma_reduced_decides};
use crate::solution::{
    independent, indices, is_canonical_solution, is_solution, is_solve_outcome,
    lemma_empty_system, outcome_of, solvable,
};
use crate::unique::{lemma_independent_vectors_lead, lemma_leading_picks_unique};
use crate::vector::{is_bit_vector, zeros};

verus! {

/// Solving one system twice gives one result: what a solver owes for a
/// system is a single outcome.
pub proof fn lemma_solve_deterministic(
    vectors: Seq<Seq<u8>>,
    target: Seq<u8>,
    first: Result<Seq<int>, SolveError>,
    second: Result<Seq<int>, SolveError>,
)
    requires
        are_bit_vectors(vectors),
        is_solve_outcome(vectors, target, first),
        is_solve_outcome(vectors, target, second),
    ensures
        first == second,
{
    if dimensions_match(vectors, target) && solvable(vectors, target) {
        assert(dimensions_match(vectors, zeros(target.len())));
        lemma_leading_picks_unique(vectors, target.len(), first->Ok_0, second->Ok_0);
    }
}

/// Two results of `solve` for one system are the same failure, or list the
/// same positions.
pub proof fn lemma_solve_twice(
    vectors: Seq<Seq<u8>>,
    target: Seq<u8>,
    first: Result<Vec<usize>, SolveError>,
    second: Result<Vec<usize>, SolveError>,
)
    requires
        are_bit_vectors(vectors),
        is_solve_outcome(vectors, target, outcome_of(first)),
        is_solve_outcome(vectors, target, outcome_of(second)),
    ensures
        first is Ok <==> second is Ok,
        first is Ok ==> (first->Ok_0)@ == (second->Ok_0)@,
        first is Err ==> first->Err_0 == second->Err_0,
{
    lemma_solve_deterministic(vectors, target, outcome_of(first), outcome_of(second));
    if first is Ok {
        let a = (first->Ok_0)@;
        let b = (second->Ok_0)@;
        assert(indices(a) == indices(b));
        assert(a.len() == indices(a).len());
        assert(b.len() == indices(b).len());
        assert forall|k: int| 0 <= k < a.len() implies a[k] == b[k] by {
            assert(indices(a)[k] == a[k] as int);
            assert(indices(b)[k] == b[k] as int);
        }
        assert(a =~= b);
    }
}

/// A system has a solution exactly when the reduced row-echelon form of its
/// augmented matrix has no row that states `0 = 1`.
pub proof fn lemma_solvable_iff_no_contradiction(vectors: Seq<Seq<u8>>, target: Seq<u8>)
    requires
        dimensions_match(vectors, target),
        are_bit_vectors(vectors),
        is_bit_vector(target),
        target.len() > 0,
    ensures
        solvable(vectors, target) == !has_contradiction(
            reduced_form(augmented(vectors, target)),
        ),
{
    let m = augmented(vectors, target);
    lemma_augmented_is_matrix(vectors, target);
    lemma_reduced_form(m);
    lemma_reduced_decides(vectors, target, reduced_form(m));
}

/// As many independent vectors as they have entries reach every target:
/// each system over them has a solution.
pub proof fn lemma_full_rank_solvable(vectors: Seq<Seq<u8>>, target: Seq<u8>)
    requires
        dimensions_match(vectors, target),
        are_bit_vectors(vectors),
        is_bit_vector(target),
        independent(vectors),
        vectors.len() == target.len(),
    ensures
        solvable(vectors, target),
{
    if target.len() == 0 {
        lemma_empty_system(vectors, target);
    } else {
        let m = augmented(vectors, target);
        lemma_augmented_is_matrix(vectors, target);
        lemma_reduced_form(m);
        lemma_reduced_decides(vectors, target, reduced_form(m));
    }
}

/// A system of independent vectors has at most one solution: two lists in
/// rising order that both add up to the target are the same list.
pub proof fn lemma_full_rank_unique(
    vectors: Seq<Seq<u8>>,
    target: Seq<u8>,
    first: Seq<int>,
    second: Seq<int>,
)
    requires
        dimensions_match(vectors, target),
        are_bit_vectors(vectors),
        independent(vectors),
        is_solution(vectors, target, first),
        is_solution(vectors, target, second),
        increasing(first),
        increasing(second),
    ensures
        first == second,
{
    lemma_independent_vectors_lead(vectors, first);
    lemma_independent_vectors_lead(vectors, second);
    assert(dimensions_match(vectors, zeros(target.len())));
    lemma_leading_picks_unique(vectors, target.len(), first, second);
}

/// The empty list adds up to the vector of zeros.
pub proof fn lemma_nothing_solves_zero(vectors: Seq<Seq<u8>>, len: nat)
    ensures
        is_solution(vectors, zeros(len), Seq::<int>::empty()),
        is_canonical_solution(vectors, zeros(len), Seq::<int>::empty()),
{
    assert(zeros(len).len() == len);
}

/// For the target of zeros every solver hands out the empty list.
pub proof fn lemma_zero_target_outcome(
    vectors: Seq<Seq<u8>>,
    len: nat,
    outcome: Result<Seq<int>, SolveError>,
)
    requires
        are_bit_vectors(vectors),
        dimensions_match(vectors, zeros(len)),
        is_solve_outcome(vectors, zeros(len), outcome),
    ensures
        outcome == Ok::<Seq<int>, SolveError>(Seq::<int>::empty()),
{
    lemma_nothing_solves_zero(vectors, len);
    lemma_solve_deterministic(
        vectors,
        zeros(len),
        outcome,
        Ok::<Seq<int>, SolveError>(Seq::<int>::empty()),
    );
}

} // verus!
