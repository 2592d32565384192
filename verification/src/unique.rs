use vstd::prelude::*;
use crate::linear::{increasing, lemma_parity_concat, parity, within};
use crate::matrix::{are_bit_vectors, augmented, dimensions_match};
use crate::solution::{
    canonical_solution, depends_on_earlier, independent, is_canonical_solution,
    lemma_xor_sum_entry, lemma_xor_sum_len, picks_lead, xor_sum,
};
use crate::vector::{is_bit, is_bit_vector, zeros};

verus! {

/// Parts of a list that goes upwards and leads go upwards and lead.
pub proof fn lemma_drop_last_keeps(vectors: Seq<Seq<u8>>, picks: Seq<int>, bound: int)
    requires
        picks.len() > 0,
        within(picks, bound),
        increasing(picks),
        picks_lead(vectors, picks),
    ensures
        within(picks.drop_last(), bound),
        within(picks.drop_last(), picks.last()),
        increasing(picks.drop_last()),
        picks_lead(vectors, picks.drop_last()),
        0 <= picks.last() < bound,
        !depends_on_earlier(vectors, picks.last()),
{
    let front = picks.drop_last();
    assert(picks.last() == picks[picks.len() - 1]);
    assert forall|k: int| 0 <= k < front.len() implies 0 <= #[trigger] front[k] < bound
        && front[k] < picks.last() by {
        assert(front[k] == picks[k]);
    }
    assert forall|j: int, k: int| 0 <= j < k < front.len() implies front[j] < front[k] by {
        assert(front[j] == picks[j] && front[k] == picks[k]);
    }
    assert forall|k: int| 0 <= k < front.len() implies !depends_on_earlier(
        vectors,
        #[trigger] front[k],
    ) by {
        assert(front[k] == picks[k]);
    }
}

/// Two lists of vectors have the same sum exactly when they have the same
/// parity in every row of the matrix of the vectors.
pub proof fn lemma_sums_by_parity(
    vectors: Seq<Seq<u8>>,
    len: nat,
    first: Seq<int>,
    second: Seq<int>,
)
    requires
        dimensions_match(vectors, zeros(len)),
        are_bit_vectors(vectors),
        within(first, vectors.len() as int),
        within(second, vectors.len() as int),
    ensures
        (xor_sum(vectors, first, len) == xor_sum(vectors, second, len)) == (forall|r: int|
            0 <= r < len ==> parity(#[trigger] augmented(vectors, zeros(len))[r], first) == parity(
                augmented(vectors, zeros(len))[r],
                second,
            )),
{
    let t = zeros(len);
    let m = augmented(vectors, t);
    lemma_xor_sum_len(vectors, first, len);
    lemma_xor_sum_len(vectors, second, len);
    assert forall|r: int| 0 <= r < len implies (xor_sum(vectors, first, len)[r] == xor_sum(
        vectors,
        second,
        len,
    )[r]) == (parity(#[trigger] m[r], first) == parity(m[r], second)) by {
        lemma_xor_sum_entry(vectors, t, first, r);
        lemma_xor_sum_entry(vectors, t, second, r);
    }
    if forall|r: int| 0 <= r < len ==> parity(#[trigger] m[r], first) == parity(m[r], second) {
        assert forall|r: int| 0 <= r < len implies xor_sum(vectors, first, len)[r] == xor_sum(
            vectors,
            second,
            len,
        )[r] by {
            assert(parity(m[r], first) == parity(m[r], second));
        }
        assert(xor_sum(vectors, first, len) =~= xor_sum(vectors, second, len));
    }
}

/// A vector that is the last of a list going upwards, while the rest of the
/// list and a second list below it add up to it, is a sum of vectors before it.
proof fn lemma_last_depends(
    vectors: Seq<Seq<u8>>,
    len: nat,
    longer: Seq<int>,
    other: Seq<int>,
)
    requires
        dimensions_match(vectors, zeros(len)),
        are_bit_vectors(vectors),
        longer.len() > 0,
        within(longer, vectors.len() as int),
        increasing(longer),
        within(other, longer.last()),
        xor_sum(vectors, longer, len) == xor_sum(vectors, other, len),
    ensures
        depends_on_earlier(vectors, longer.last()),
{
    let t = zeros(len);
    let m = augmented(vectors, t);
    let c = longer.last();
    let front = longer.drop_last();
    let dep = front + other;
    assert(c == longer[longer.len() - 1]);
    assert(vectors[c].len() == len);
    assert(is_bit_vector(vectors[c]));
    assert forall|k: int| 0 <= k < front.len() implies 0 <= #[trigger] front[k] < c by {
        assert(front[k] == longer[k]);
    }
    assert forall|k: int| 0 <= k < dep.len() implies 0 <= #[trigger] dep[k] < c by {
        if k < front.len() {
            assert(dep[k] == front[k]);
        } else {
            assert(dep[k] == other[k - front.len()]);
        }
    }
    assert(within(dep, c));
    assert(within(dep, vectors.len() as int));
    assert(within(other, vectors.len() as int));
    lemma_sums_by_parity(vectors, len, longer, other);
    lemma_xor_sum_len(vectors, dep, len);
    assert forall|r: int| 0 <= r < len implies xor_sum(vectors, dep, len)[r] == vectors[c][r] by {
        lemma_xor_sum_entry(vectors, t, dep, r);
        lemma_parity_concat(m[r], front, other);
        assert(parity(m[r], longer) == parity(m[r], other));
        assert(m[r][c] == vectors[c][r]);
        assert(is_bit(vectors[c][r]));
    }
    assert(xor_sum(vectors, dep, len) =~= vectors[c]);
}

/// Two lists that go upwards, lead, and have the same sum are one list.
pub proof fn lemma_leading_picks_unique(
    vectors: Seq<Seq<u8>>,
    len: nat,
    first: Seq<int>,
    second: Seq<int>,
)
    requires
        dimensions_match(vectors, zeros(len)),
        are_bit_vectors(vectors),
        within(first, vectors.len() as int),
        within(second, vectors.len() as int),
        increasing(first),
        increasing(second),
        picks_lead(vectors, first),
        picks_lead(vectors, second),
        xor_sum(vectors, first, len) == xor_sum(vectors, second, len),
    ensures
        first == second,
    decreases first.len() + second.len(),
{
    let t = zeros(len);
    let m = augmented(vectors, t);
    let bound = vectors.len() as int;
    if first.len() == 0 && second.len() == 0 {
        assert(first =~= second);
    } else if first.len() == 0 {
        lemma_drop_last_keeps(vectors, second, bound);
        assert(within(first, second.last()));
        lemma_last_depends(vectors, len, second, first);
    } else if second.len() == 0 {
        lemma_drop_last_keeps(vectors, first, bound);
        assert(within(second, first.last()));
        lemma_last_depends(vectors, len, first, second);
    } else {
        lemma_drop_last_keeps(vectors, first, bound);
        lemma_drop_last_keeps(vectors, second, bound);
        let a = first.last();
        let b = second.last();
        if a == b {
            lemma_sums_by_parity(vectors, len, first, second);
            assert forall|r: int| 0 <= r < len implies parity(
                #[trigger] m[r],
                first.drop_last(),
            ) == parity(m[r], second.drop_last()) by {
                assert(parity(m[r], first) == parity(m[r], second));
            }
            lemma_sums_by_parity(vectors, len, first.drop_last(), second.drop_last());
            lemma_leading_picks_unique(vectors, len, first.drop_last(), second.drop_last());
            assert(first =~= first.drop_last().push(a));
            assert(second =~= second.drop_last().push(b));
        } else if a > b {
            assert forall|k: int| 0 <= k < second.len() implies 0 <= #[trigger] second[k] < a by {
                if k < second.len() - 1 {
                    assert(second[k] < second[second.len() - 1]);
                }
            }
            lemma_last_depends(vectors, len, first, second);
        } else {
            assert forall|k: int| 0 <= k < first.len() implies 0 <= #[trigger] first[k] < b by {
                if k < first.len() - 1 {
                    assert(first[k] < first[first.len() - 1]);
                }
            }
            lemma_last_depends(vectors, len, second, first);
        }
    }
}

/// A system has one canonical solution at most.
pub proof fn lemma_canonical_solution_is(
    vectors: Seq<Seq<u8>>,
    target: Seq<u8>,
    picks: Seq<int>,
)
    requires
        dimensions_match(vectors, target),
        are_bit_vectors(vectors),
        is_canonical_solution(vectors, target, picks),
    ensures
        canonical_solution(vectors, target) == picks,
{
    assert(dimensions_match(vectors, zeros(target.len())));
    lemma_leading_picks_unique(
        vectors,
        target.len(),
        canonical_solution(vectors, target),
        picks,
    );
}

/// Among independent vectors no vector is a sum of vectors before it.
pub proof fn lemma_independent_vectors_lead(vectors: Seq<Seq<u8>>, picks: Seq<int>)
    requires
        independent(vectors),
        within(picks, vectors.len() as int),
    ensures
        picks_lead(vectors, picks),
{
    assert forall|k: int| 0 <= k < picks.len() implies !depends_on_earlier(
        vectors,
        #[trigger] picks[k],
    ) by {
        let c = picks[k];
        if depends_on_earlier(vectors, c) {
            let dep = choose|dep: Seq<int>|
                within(dep, c) && #[trigger] xor_sum(vectors, dep, vectors[c].len()) == vectors[c];
            assert(within(dep, vectors.len() as int)) by {
                assert forall|j: int| 0 <= j < dep.len() implies 0 <= #[trigger] dep[j]
                    < vectors.len() by {}
            }
            assert(!dep.contains(c)) by {
                if dep.contains(c) {
                    let j = choose|j: int| 0 <= j < dep.len() && dep[j] == c;
                    assert(dep[j] < c);
                }
            }
        }
    }
}

} // verus!
