use vstd::prelude::*;
use crate::echelon::{is_reduced_row_echelon, is_row_echelon, lemma_leading_one, pivot};
use crate::linear::{
    annihilates, bit_at, increasing, lemma_parity_of_zeros, lemma_parity_push, parity,
    same_kernel, within,
};
use crate::matrix::{are_bit_vectors, augmented, dimensions_match, same_shape, unknowns};
use crate::solution::{
    depends_on_earlier, independent, is_canonical_solution, is_solution, lemma_sum_is_column,
    solvable, xor_sum,
};
use crate::vector::is_bit_vector;

verus! {

/// A row that states `0 = 1`: no one among its coefficients, a one in the
/// augmented column.
pub open spec fn is_contradiction(m: Seq<Seq<u8>>, r: int) -> bool {
    pivot(m, r) == unknowns(m) && bit_at(m[r], unknowns(m) as int)
}

/// Some row of `m` states `0 = 1`.
pub open spec fn has_contradiction(m: Seq<Seq<u8>>) -> bool {
    exists|r: int| 0 <= r < m.len() && is_contradiction(m, r)
}

/// The columns that the first `n` rows of `m` pin to one: the column of the
/// leading one of each row that has one and has a one in the augmented
/// column, in the order of the rows.
pub open spec fn selected(m: Seq<Seq<u8>>, n: nat) -> Seq<int>
    decreases n,
{
    if n == 0 {
        Seq::empty()
    } else {
        let before = selected(m, (n - 1) as nat);
        if pivot(m, n - 1) < unknowns(m) && bit_at(m[n - 1], unknowns(m) as int) {
            before.push(pivot(m, n - 1) as int)
        } else {
            before
        }
    }
}

/// Column `c` holds the leading one of one of the first `n` rows of `m`.
pub open spec fn is_pivot_below(m: Seq<Seq<u8>>, c: int, n: int) -> bool {
    exists|r: int| 0 <= r < n && #[trigger] pivot(m, r) == c
}

/// In reduced row-echelon form the column of a leading one holds a one in
/// its own row and nowhere else.
pub proof fn lemma_pivot_column(m: Seq<Seq<u8>>, r: int, q: int)
    requires
        is_reduced_row_echelon(m),
        0 <= r < m.len(),
        0 <= q < m.len(),
        pivot(m, r) < unknowns(m),
    ensures
        bit_at(m[q], pivot(m, r) as int) == (q == r),
{
    lemma_leading_one(m[r], unknowns(m));
}

/// What the selected columns of a matrix in reduced row-echelon form are:
/// leading columns in rising order, whose parity in a row is the augmented
/// bit of that row where the row has a leading one.
pub proof fn lemma_selected(m: Seq<Seq<u8>>, n: nat)
    requires
        is_reduced_row_echelon(m),
        n <= m.len(),
    ensures
        within(selected(m, n), unknowns(m) as int),
        increasing(selected(m, n)),
        forall|k: int|
            0 <= k < selected(m, n).len() ==> is_pivot_below(
                m,
                #[trigger] selected(m, n)[k],
                n as int,
            ),
        forall|q: int|
            0 <= q < m.len() ==> #[trigger] parity(m[q], selected(m, n)) == (q < n && pivot(m, q)
                < unknowns(m) && bit_at(m[q], unknowns(m) as int)),
    decreases n,
{
    if n > 0 {
        let r = (n - 1) as int;
        let before = selected(m, (n - 1) as nat);
        lemma_selected(m, (n - 1) as nat);
        assert forall|k: int| 0 <= k < before.len() implies is_pivot_below(
            m,
            #[trigger] before[k],
            n as int,
        ) by {
            assert(is_pivot_below(m, before[k], r));
            let w = choose|w: int| 0 <= w < r && #[trigger] pivot(m, w) == before[k];
            assert(0 <= w < n && pivot(m, w) == before[k]);
        }
        if pivot(m, r) < unknowns(m) && bit_at(m[r], unknowns(m) as int) {
            let p = pivot(m, r) as int;
            let now = before.push(p);
            assert(selected(m, n) == now);
            assert forall|j: int, k: int| 0 <= j < k < now.len() implies now[j] < now[k] by {
                if k < before.len() {
                    assert(before[j] < before[k]);
                } else {
                    assert(is_pivot_below(m, before[j], r));
                    let w = choose|w: int| 0 <= w < r && #[trigger] pivot(m, w) == before[j];
                    assert(pivot(m, w) < pivot(m, r) || pivot(m, r) == unknowns(m));
                }
            }
            assert forall|k: int| 0 <= k < now.len() implies is_pivot_below(
                m,
                #[trigger] now[k],
                n as int,
            ) by {
                if k < before.len() {
                    assert(now[k] == before[k]);
                } else {
                    assert(0 <= r < n && pivot(m, r) == now[k]);
                }
            }
            assert forall|q: int| 0 <= q < m.len() implies #[trigger] parity(m[q], now) == (q < n
                && pivot(m, q) < unknowns(m) && bit_at(m[q], unknowns(m) as int)) by {
                lemma_parity_push(m[q], before, p);
                lemma_pivot_column(m, r, q);
                assert(parity(m[q], before) == (q < r && pivot(m, q) < unknowns(m) && bit_at(
                    m[q],
                    unknowns(m) as int,
                )));
            }
        } else {
            assert(selected(m, n) == before);
            assert forall|q: int| 0 <= q < m.len() implies #[trigger] parity(m[q], before) == (q
                < n && pivot(m, q) < unknowns(m) && bit_at(m[q], unknowns(m) as int)) by {
                assert(parity(m[q], before) == (q < r && pivot(m, q) < unknowns(m) && bit_at(
                    m[q],
                    unknowns(m) as int,
                )));
            }
        }
    }
}

/// Without a row that states `0 = 1`, the selected columns of a matrix in
/// reduced row-echelon form and the augmented column add up to zero.
pub proof fn lemma_selected_solves(m: Seq<Seq<u8>>)
    requires
        is_reduced_row_echelon(m),
        !has_contradiction(m),
    ensures
        annihilates(m, selected(m, m.len()).push(unknowns(m) as int)),
{
    let picks = selected(m, m.len());
    lemma_selected(m, m.len());
    assert forall|r: int| 0 <= r < m.len() implies !#[trigger] parity(
        m[r],
        picks.push(unknowns(m) as int),
    ) by {
        lemma_parity_push(m[r], picks, unknowns(m) as int);
        assert(parity(m[r], picks) == (r < m.len() && pivot(m, r) < unknowns(m) && bit_at(
            m[r],
            unknowns(m) as int,
        )));
        lemma_leading_one(m[r], unknowns(m));
        if pivot(m, r) == unknowns(m) {
            assert(!is_contradiction(m, r));
        }
    }
}

/// A row that states `0 = 1` lets no list of coefficient columns add up to
/// the augmented column.
pub proof fn lemma_contradiction_blocks(m: Seq<Seq<u8>>, picks: Seq<int>)
    requires
        has_contradiction(m),
        within(picks, unknowns(m) as int),
    ensures
        !annihilates(m, picks.push(unknowns(m) as int)),
{
    let r = choose|r: int| 0 <= r < m.len() && is_contradiction(m, r);
    lemma_leading_one(m[r], unknowns(m));
    lemma_parity_of_zeros(m[r], picks);
    lemma_parity_push(m[r], picks, unknowns(m) as int);
    assert(parity(m[r], picks.push(unknowns(m) as int)));
}

/// The column of a leading one is no sum of columns before it.
pub proof fn lemma_pivot_column_leads(m: Seq<Seq<u8>>, r: int, picks: Seq<int>)
    requires
        0 <= r < m.len(),
        pivot(m, r) < unknowns(m),
        within(picks, pivot(m, r) as int),
    ensures
        !annihilates(m, picks.push(pivot(m, r) as int)),
{
    lemma_leading_one(m[r], unknowns(m));
    lemma_parity_of_zeros(m[r], picks);
    lemma_parity_push(m[r], picks, pivot(m, r) as int);
    assert(parity(m[r], picks.push(pivot(m, r) as int)));
}

/// The leading columns of the first `n` rows that have a one in column `c`.
pub open spec fn support(m: Seq<Seq<u8>>, c: int, n: nat) -> Seq<int>
    decreases n,
{
    if n == 0 {
        Seq::empty()
    } else {
        let before = support(m, c, (n - 1) as nat);
        if bit_at(m[n - 1], c) {
            before.push(pivot(m, n - 1) as int)
        } else {
            before
        }
    }
}

/// In reduced row-echelon form a column without a leading one is the sum of
/// the leading columns of the rows in which it holds a one, and these stand
/// before it.
pub proof fn lemma_free_column_depends(m: Seq<Seq<u8>>, c: int, n: nat)
    requires
        is_reduced_row_echelon(m),
        0 <= c < unknowns(m),
        !is_pivot_below(m, c, m.len() as int),
        n <= m.len(),
    ensures
        within(support(m, c, n), c),
        forall|q: int|
            0 <= q < m.len() ==> #[trigger] parity(m[q], support(m, c, n)) == (q < n && bit_at(
                m[q],
                c,
            )),
    decreases n,
{
    if n > 0 {
        let r = (n - 1) as int;
        let before = support(m, c, (n - 1) as nat);
        lemma_free_column_depends(m, c, (n - 1) as nat);
        if bit_at(m[r], c) {
            let p = pivot(m, r) as int;
            lemma_leading_one(m[r], unknowns(m));
            assert(pivot(m, r) != c);
            assert(p < c);
            let now = before.push(p);
            assert forall|q: int| 0 <= q < m.len() implies #[trigger] parity(m[q], now) == (q < n
                && bit_at(m[q], c)) by {
                lemma_parity_push(m[q], before, p);
                lemma_pivot_column(m, r, q);
                assert(parity(m[q], before) == (q < r && bit_at(m[q], c)));
            }
        } else {
            assert forall|q: int| 0 <= q < m.len() implies #[trigger] parity(m[q], before) == (q
                < n && bit_at(m[q], c)) by {
                assert(parity(m[q], before) == (q < r && bit_at(m[q], c)));
            }
        }
    }
}

/// The first row from `from` on whose leading one does not stand on the diagonal.
pub proof fn lemma_first_gap(m: Seq<Seq<u8>>, from: int, last: int) -> (gap: int)
    requires
        0 <= from <= last < m.len(),
        pivot(m, last) != last,
        forall|r: int| 0 <= r < from ==> #[trigger] pivot(m, r) == r,
    ensures
        from <= gap <= last,
        pivot(m, gap) != gap,
        forall|r: int| 0 <= r < gap ==> #[trigger] pivot(m, r) == r,
    decreases last - from,
{
    if pivot(m, from) != from {
        from
    } else {
        lemma_first_gap(m, from + 1, last)
    }
}

/// A matrix in row-echelon form with no more rows than coefficient columns
/// and a row without a leading one has a column without a leading one.
pub proof fn lemma_zero_row_frees_column(m: Seq<Seq<u8>>, zero_row: int) -> (c: int)
    requires
        is_row_echelon(m),
        m.len() <= unknowns(m),
        0 <= zero_row < m.len(),
        pivot(m, zero_row) == unknowns(m),
    ensures
        0 <= c < unknowns(m),
        !is_pivot_below(m, c, m.len() as int),
{
    let gap = lemma_first_gap(m, 0, zero_row);
    assert forall|r: int| 0 <= r < m.len() implies #[trigger] pivot(m, r) != gap by {
        if r < gap {
            assert(pivot(m, r) == r);
        } else if r == gap {
        } else {
            assert(pivot(m, gap) < pivot(m, r) || pivot(m, r) == unknowns(m));
            if gap > 0 {
                assert(pivot(m, gap - 1) == gap - 1);
                assert(pivot(m, gap - 1) < pivot(m, gap) || pivot(m, gap) == unknowns(m));
            }
        }
    }
    gap
}

/// What the reduced row-echelon form of the augmented matrix of a system
/// says of the system: a row that states `0 = 1` shows that the target is
/// out of the span of the vectors; without one the selected columns are the
/// canonical solution; and as many independent vectors as they have entries
/// leave no such row.
pub proof fn lemma_reduced_decides(vectors: Seq<Seq<u8>>, target: Seq<u8>, m: Seq<Seq<u8>>)
    requires
        dimensions_match(vectors, target),
        are_bit_vectors(vectors),
        is_bit_vector(target),
        target.len() > 0,
        is_reduced_row_echelon(m),
        same_shape(m, augmented(vectors, target)),
        same_kernel(m, augmented(vectors, target)),
    ensures
        has_contradiction(m) ==> !solvable(vectors, target),
        !has_contradiction(m) ==> is_canonical_solution(vectors, target, selected(m, m.len())),
        independent(vectors) && vectors.len() == target.len() ==> !has_contradiction(m),
{
    let m0 = augmented(vectors, target);
    let count = vectors.len() as int;
    assert(m0[0].len() == count + 1);
    assert(unknowns(m) == count);
    if has_contradiction(m) {
        assert forall|picks: Seq<int>| !is_solution(vectors, target, picks) by {
            if is_solution(vectors, target, picks) {
                lemma_sum_is_column(vectors, target, picks, count);
                assert(annihilates(m, picks.push(count)) == annihilates(m0, picks.push(count)));
                lemma_contradiction_blocks(m, picks);
            }
        }
        if independent(vectors) && vectors.len() == target.len() {
            let zero_row = choose|r: int| 0 <= r < m.len() && is_contradiction(m, r);
            let c = lemma_zero_row_frees_column(m, zero_row);
            let dep = support(m, c, m.len());
            lemma_free_column_depends(m, c, m.len());
            assert forall|r: int| 0 <= r < m.len() implies !#[trigger] parity(
                m[r],
                dep.push(c),
            ) by {
                lemma_parity_push(m[r], dep, c);
                assert(parity(m[r], dep) == (r < m.len() && bit_at(m[r], c)));
            }
            assert(annihilates(m, dep.push(c)) == annihilates(m0, dep.push(c)));
            assert(within(dep, count)) by {
                assert forall|k: int| 0 <= k < dep.len() implies 0 <= #[trigger] dep[k]
                    < count by {}
            }
            lemma_sum_is_column(vectors, target, dep, c);
            assert(vectors[c].len() == target.len());
            assert(!dep.contains(c)) by {
                if dep.contains(c) {
                    let k = choose|k: int| 0 <= k < dep.len() && dep[k] == c;
                    assert(dep[k] < c);
                }
            }
            assert(xor_sum(vectors, dep, vectors[c].len()) == vectors[c]);
            assert(false);
        }
    } else {
        let picks = selected(m, m.len());
        lemma_selected(m, m.len());
        lemma_selected_solves(m);
        assert(annihilates(m, picks.push(count)) == annihilates(m0, picks.push(count)));
        lemma_sum_is_column(vectors, target, picks, count);
        assert(is_solution(vectors, target, picks));
        assert forall|k: int| 0 <= k < picks.len() implies !depends_on_earlier(
            vectors,
            #[trigger] picks[k],
        ) by {
            let c = picks[k];
            assert(is_pivot_below(m, c, m.len() as int));
            let r = choose|r: int| 0 <= r < m.len() && #[trigger] pivot(m, r) == c;
            assert(vectors[c].len() == target.len());
            if depends_on_earlier(vectors, c) {
                let dep = choose|dep: Seq<int>|
                    within(dep, c) && #[trigger] xor_sum(vectors, dep, vectors[c].len())
                        == vectors[c];
                assert(within(dep, count)) by {
                    assert forall|j: int| 0 <= j < dep.len() implies 0 <= #[trigger] dep[j]
                        < count by {}
                }
                lemma_sum_is_column(vectors, target, dep, c);
                assert(annihilates(m, dep.push(c)) == annihilates(m0, dep.push(c)));
                lemma_pivot_column_leads(m, r, dep);
            }
        }
    }
}

} // verus!
