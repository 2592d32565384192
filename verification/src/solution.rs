use vstd::prelude::*;
use crate::error::SolveError;
use crate::linear::{annihilates, increasing, lemma_parity_push, parity, within};
use crate::matrix::{are_bit_vectors, augmented, dimensions_match};
use crate::vector::{is_bit, is_bit_vector, xor, zeros};

verus! {

/// A list of positions in a vector of vectors, as mathematical integers.
pub open spec fn indices(picks: Seq<usize>) -> Seq<int> {
    picks.map_values(|p: usize| p as int)
}

/// The sum over GF(2) of the vectors listed in `picks`, each of length `len`.
/// A vector listed twice is added twice, and so cancels.
pub open spec fn xor_sum(vectors: Seq<Seq<u8>>, picks: Seq<int>, len: nat) -> Seq<u8>
    decreases picks.len(),
{
    if picks.len() == 0 {
        zeros(len)
    } else {
        xor(xor_sum(vectors, picks.drop_last(), len), vectors[picks.last()])
    }
}

/// The vectors listed in `picks` add up to `target`.
pub open spec fn is_solution(vectors: Seq<Seq<u8>>, target: Seq<u8>, picks: Seq<int>) -> bool {
    within(picks, vectors.len() as int) && xor_sum(vectors, picks, target.len()) == target
}

/// Some of the vectors add up to `target`: the target lies in their span.
pub open spec fn solvable(vectors: Seq<Seq<u8>>, target: Seq<u8>) -> bool {
    exists|picks: Seq<int>| is_solution(vectors, target, picks)
}

/// Vector `c` is a sum of vectors that stand before it.
pub open spec fn depends_on_earlier(vectors: Seq<Seq<u8>>, c: int) -> bool {
    exists|picks: Seq<int>|
        within(picks, c) && #[trigger] xor_sum(vectors, picks, vectors[c].len()) == vectors[c]
}

/// None of the vectors listed in `picks` is a sum of vectors before it.
pub open spec fn picks_lead(vectors: Seq<Seq<u8>>, picks: Seq<int>) -> bool {
    forall|k: int| 0 <= k < picks.len() ==> !depends_on_earlier(vectors, #[trigger] picks[k])
}

/// The one solution that the solver hands out: it lists its vectors in
/// rising order and uses none that is a sum of vectors before it. Vectors
/// that add nothing to the span of their predecessors stay out.
pub open spec fn is_canonical_solution(
    vectors: Seq<Seq<u8>>,
    target: Seq<u8>,
    picks: Seq<int>,
) -> bool {
    &&& is_solution(vectors, target, picks)
    &&& increasing(picks)
    &&& picks_lead(vectors, picks)
}

/// The canonical solution of a system that has one.
pub open spec fn canonical_solution(vectors: Seq<Seq<u8>>, target: Seq<u8>) -> Seq<int> {
    choose|picks: Seq<int>| is_canonical_solution(vectors, target, picks)
}

/// Linear independence: none of the vectors is a sum of others.
pub open spec fn independent(vectors: Seq<Seq<u8>>) -> bool {
    forall|c: int, picks: Seq<int>|
        0 <= c < vectors.len() && within(picks, vectors.len() as int) && !picks.contains(c)
            ==> #[trigger] xor_sum(vectors, picks, vectors[c].len()) != vectors[c]
}

/// What a solver owes for a system: the mismatch of lengths where there is
/// one, else the canonical solution where the target lies in the span of the
/// vectors, else the report that it does not.
pub open spec fn is_solve_outcome(
    vectors: Seq<Seq<u8>>,
    target: Seq<u8>,
    outcome: Result<Seq<int>, SolveError>,
) -> bool {
    if !dimensions_match(vectors, target) {
        outcome == Err::<Seq<int>, SolveError>(SolveError::DimensionMismatch)
    } else if !solvable(vectors, target) {
        outcome == Err::<Seq<int>, SolveError>(SolveError::Inconsistent)
    } else {
        outcome is Ok && is_canonical_solution(vectors, target, outcome->Ok_0)
    }
}

/// The result of a solver with its list of positions as integers.
pub open spec fn outcome_of(result: Result<Vec<usize>, SolveError>) -> Result<
    Seq<int>,
    SolveError,
> {
    match result {
        Ok(picks) => Ok(indices(picks@)),
        Err(e) => Err(e),
    }
}

/// A sum of vectors is a bit vector of the length asked for.
pub proof fn lemma_xor_sum_len(vectors: Seq<Seq<u8>>, picks: Seq<int>, len: nat)
    ensures
        xor_sum(vectors, picks, len).len() == len,
        is_bit_vector(xor_sum(vectors, picks, len)),
    decreases picks.len(),
{
    if picks.len() > 0 {
        lemma_xor_sum_len(vectors, picks.drop_last(), len);
    }
}

/// Entry `r` of a sum of vectors is the parity of row `r` of their matrix
/// over the columns that were added.
pub proof fn lemma_xor_sum_entry(
    vectors: Seq<Seq<u8>>,
    target: Seq<u8>,
    picks: Seq<int>,
    r: int,
)
    requires
        dimensions_match(vectors, target),
        are_bit_vectors(vectors),
        within(picks, vectors.len() as int),
        0 <= r < target.len(),
    ensures
        xor_sum(vectors, picks, target.len())[r] == (if parity(
            augmented(vectors, target)[r],
            picks,
        ) {
            1u8
        } else {
            0u8
        }),
    decreases picks.len(),
{
    lemma_xor_sum_len(vectors, picks, target.len());
    if picks.len() > 0 {
        let c = picks.last();
        assert(c == picks[picks.len() - 1]);
        assert(within(picks.drop_last(), vectors.len() as int)) by {
            assert forall|k: int| 0 <= k < picks.drop_last().len() implies 0
                <= #[trigger] picks.drop_last()[k] < vectors.len() by {
                assert(picks.drop_last()[k] == picks[k]);
            }
        }
        lemma_xor_sum_entry(vectors, target, picks.drop_last(), r);
        lemma_xor_sum_len(vectors, picks.drop_last(), target.len());
        assert(vectors[c].len() == target.len());
        assert(is_bit_vector(vectors[c]));
        assert(is_bit(vectors[c][r]));
        assert(augmented(vectors, target)[r][c] == vectors[c][r]);
    }
}

/// Column `c` of the augmented matrix of a system: vector `c`, or the target
/// where `c` is the number of vectors.
pub open spec fn column(vectors: Seq<Seq<u8>>, target: Seq<u8>, c: int) -> Seq<u8> {
    if c < vectors.len() {
        vectors[c]
    } else {
        target
    }
}

/// Some vectors add up to a column of the augmented matrix exactly when
/// their columns and that column add up to zero in every row.
pub proof fn lemma_sum_is_column(
    vectors: Seq<Seq<u8>>,
    target: Seq<u8>,
    picks: Seq<int>,
    c: int,
)
    requires
        dimensions_match(vectors, target),
        are_bit_vectors(vectors),
        is_bit_vector(target),
        within(picks, vectors.len() as int),
        0 <= c <= vectors.len(),
    ensures
        (xor_sum(vectors, picks, target.len()) == column(vectors, target, c)) == annihilates(
            augmented(vectors, target),
            picks.push(c),
        ),
{
    let m = augmented(vectors, target);
    let sum = xor_sum(vectors, picks, target.len());
    let goal = column(vectors, target, c);
    lemma_xor_sum_len(vectors, picks, target.len());
    if c < vectors.len() {
        assert(vectors[c].len() == target.len());
        assert(is_bit_vector(vectors[c]));
    }
    assert(goal.len() == target.len());
    assert(is_bit_vector(goal));
    assert forall|r: int| 0 <= r < target.len() implies (sum[r] == goal[r]) == !#[trigger] parity(
        m[r],
        picks.push(c),
    ) by {
        lemma_xor_sum_entry(vectors, target, picks, r);
        lemma_parity_push(m[r], picks, c);
        assert(m[r][c] == goal[r]);
        assert(is_bit(goal[r]));
    }
    if sum == goal {
        assert(annihilates(m, picks.push(c)));
    }
    if annihilates(m, picks.push(c)) {
        assert forall|r: int| 0 <= r < target.len() implies sum[r] == goal[r] by {
            assert(!parity(m[r], picks.push(c)));
        }
        assert(sum =~= goal);
    }
}

/// A system without entries is solved by adding nothing.
pub proof fn lemma_empty_system(vectors: Seq<Seq<u8>>, target: Seq<u8>)
    requires
        target.len() == 0,
    ensures
        is_canonical_solution(vectors, target, Seq::<int>::empty()),
{
    assert(xor_sum(vectors, Seq::<int>::empty(), 0) =~= target);
}

} // verus!
