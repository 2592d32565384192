use vstd::prelude::*;
use crate::matrix::{is_augmented_matrix, same_shape, width};
use crate::vector::{is_bit_vector, xor};

verus! {

/// Whether position `i` of `row` holds a one. There is none outside the row.
pub open spec fn bit_at(row: Seq<u8>, i: int) -> bool {
    0 <= i < row.len() && row[i] == 1
}

/// Whether `row` holds an odd number of ones at the positions listed in
/// `picks`. A position listed twice counts twice.
pub open spec fn parity(row: Seq<u8>, picks: Seq<int>) -> bool
    decreases picks.len(),
{
    if picks.len() == 0 {
        false
    } else {
        parity(row, picks.drop_last()) != bit_at(row, picks.last())
    }
}

/// The columns listed in `picks` add up to zero in every row of `m`.
pub open spec fn annihilates(m: Seq<Seq<u8>>, picks: Seq<int>) -> bool {
    forall|r: int| 0 <= r < m.len() ==> !#[trigger] parity(m[r], picks)
}

/// The same lists of columns add up to zero in `a` and in `b`: the two
/// matrices have the same linear relations among their columns.
pub open spec fn same_kernel(a: Seq<Seq<u8>>, b: Seq<Seq<u8>>) -> bool {
    forall|picks: Seq<int>| #[trigger] annihilates(a, picks) == annihilates(b, picks)
}

/// Every position listed in `picks` lies in `0..bound`.
pub open spec fn within(picks: Seq<int>, bound: int) -> bool {
    forall|k: int| 0 <= k < picks.len() ==> 0 <= #[trigger] picks[k] < bound
}

/// The list goes strictly upwards.
pub open spec fn increasing(picks: Seq<int>) -> bool {
    forall|j: int, k: int| 0 <= j < k < picks.len() ==> picks[j] < picks[k]
}

/// One more position listed adds the bit at that position to the parity.
pub proof fn lemma_parity_push(row: Seq<u8>, picks: Seq<int>, p: int)
    ensures
        parity(row, picks.push(p)) == (parity(row, picks) != bit_at(row, p)),
{
    assert(picks.push(p).drop_last() =~= picks);
}

/// The parity of a sum of two rows is the sum of their parities.
pub proof fn lemma_parity_xor(a: Seq<u8>, b: Seq<u8>, picks: Seq<int>)
    requires
        a.len() == b.len(),
        is_bit_vector(a),
        is_bit_vector(b),
    ensures
        parity(xor(a, b), picks) == (parity(a, picks) != parity(b, picks)),
    decreases picks.len(),
{
    if picks.len() > 0 {
        lemma_parity_xor(a, b, picks.drop_last());
        let i = picks.last();
        if 0 <= i < a.len() {
            assert(crate::vector::is_bit(a[i]));
            assert(crate::vector::is_bit(b[i]));
        }
    }
}

/// A row without a one at any listed position has even parity there.
pub proof fn lemma_parity_of_zeros(row: Seq<u8>, picks: Seq<int>)
    requires
        forall|k: int| 0 <= k < picks.len() ==> !bit_at(row, #[trigger] picks[k]),
    ensures
        !parity(row, picks),
    decreases picks.len(),
{
    if picks.len() > 0 {
        lemma_parity_of_zeros(row, picks.drop_last());
    }
}

/// The parity over two lists joined is the sum of the parities over each.
pub proof fn lemma_parity_concat(row: Seq<u8>, first: Seq<int>, second: Seq<int>)
    ensures
        parity(row, first + second) == (parity(row, first) != parity(row, second)),
    decreases second.len(),
{
    if second.len() == 0 {
        assert(first + second =~= first);
    } else {
        lemma_parity_concat(row, first, second.drop_last());
        assert((first + second).drop_last() =~= first + second.drop_last());
    }
}

/// Matrices with the same relations as a third have the same relations.
pub proof fn lemma_same_kernel_transitive(a: Seq<Seq<u8>>, b: Seq<Seq<u8>>, c: Seq<Seq<u8>>)
    requires
        same_kernel(a, b),
        same_kernel(b, c),
    ensures
        same_kernel(a, c),
{
    assert forall|picks: Seq<int>| #[trigger] annihilates(a, picks) == annihilates(c, picks) by {
        assert(annihilates(a, picks) == annihilates(b, picks));
        assert(annihilates(b, picks) == annihilates(c, picks));
    }
}

/// Exchanging two rows changes no relation among the columns.
pub proof fn lemma_swap_keeps_kernel(m: Seq<Seq<u8>>, i: int, j: int)
    requires
        0 <= i < m.len(),
        0 <= j < m.len(),
    ensures
        same_kernel(m.update(i, m[j]).update(j, m[i]), m),
{
    let n = m.update(i, m[j]).update(j, m[i]);
    assert forall|picks: Seq<int>| #[trigger] annihilates(n, picks) == annihilates(m, picks) by {
        if annihilates(m, picks) {
            assert forall|r: int| 0 <= r < n.len() implies !#[trigger] parity(n[r], picks) by {
                if r == j {
                    assert(!parity(m[i], picks));
                } else if r == i {
                    assert(!parity(m[j], picks));
                } else {
                    assert(!parity(m[r], picks));
                }
            }
        }
        if annihilates(n, picks) {
            assert forall|r: int| 0 <= r < m.len() implies !#[trigger] parity(m[r], picks) by {
                if r == j {
                    assert(!parity(n[i], picks));
                } else if r == i {
                    assert(!parity(n[j], picks));
                } else {
                    assert(!parity(n[r], picks));
                }
            }
        }
    }
}

/// Adding one row to another changes no relation among the columns.
pub proof fn lemma_row_addition_keeps_kernel(m: Seq<Seq<u8>>, i: int, j: int)
    requires
        is_augmented_matrix(m),
        0 <= i < m.len(),
        0 <= j < m.len(),
        i != j,
    ensures
        same_kernel(m.update(i, xor(m[i], m[j])), m),
        is_augmented_matrix(m.update(i, xor(m[i], m[j]))),
        same_shape(m.update(i, xor(m[i], m[j])), m),
{
    let n = m.update(i, xor(m[i], m[j]));
    assert(is_bit_vector(m[i]));
    assert(is_bit_vector(m[j]));
    assert(m[i].len() == width(m));
    assert(m[j].len() == width(m));
    assert forall|picks: Seq<int>| #[trigger] annihilates(n, picks) == annihilates(m, picks) by {
        lemma_parity_xor(m[i], m[j], picks);
        if annihilates(m, picks) {
            assert forall|r: int| 0 <= r < n.len() implies !#[trigger] parity(n[r], picks) by {
                assert(!parity(m[i], picks));
                assert(!parity(m[j], picks));
                assert(!parity(m[r], picks));
            }
        }
        if annihilates(n, picks) {
            assert forall|r: int| 0 <= r < m.len() implies !#[trigger] parity(m[r], picks) by {
                assert(!parity(n[i], picks));
                assert(!parity(n[j], picks));
                assert(!parity(n[r], picks));
            }
        }
    }
    assert forall|r: int| 0 <= r < n.len() implies is_bit_vector(#[trigger] n[r]) by {
        if r != i {
            assert(is_bit_vector(m[r]));
        }
    }
    assert forall|r: int| 0 <= r < n.len() implies (#[trigger] n[r]).len() == width(n) by {
        assert(m[r].len() == width(m));
        assert(m[0].len() == width(m));
    }
}

} // verus!
