use vstd::prelude::*;
use crate::echelon::{
    back_propagated, back_propagated_from, cleared_above, cleared_between, eliminated, exchanged,
    first_row_with_one, forward_eliminated, is_reduced_row_echelon, is_row_echelon,
    lemma_leading_one, lemma_leading_one_is, pivot, propagated_row, reduced_form,
};
use crate::linear::{
    bit_at, lemma_row_addition_keeps_kernel, lemma_same_kernel_transitive,
    lemma_swap_keeps_kernel, same_kernel,
};
use crate::matrix::{is_augmented_matrix, same_shape, unknowns, width};
use crate::vector::{is_bit, is_bit_vector, xor};

verus! {

/// Rows that share their entries and their width share their pivot.
pub proof fn lemma_pivot_of_same_row(m: Seq<Seq<u8>>, n: Seq<Seq<u8>>, r: int, q: int)
    requires
        m[r] == n[q],
        unknowns(m) == unknowns(n),
    ensures
        pivot(m, r) == pivot(n, q),
{
}

/// State of the forward elimination before it looks at column `col`: the
/// first `k` rows have their leading ones before `col`, each to the right of
/// the one above, and the other rows hold no one before `col`.
pub open spec fn settled(m: Seq<Seq<u8>>, k: int, col: int) -> bool {
    &&& forall|r: int| 0 <= r < k ==> #[trigger] pivot(m, r) < col
    &&& forall|r1: int, r2: int|
        0 <= r1 < r2 < k ==> #[trigger] pivot(m, r1) < #[trigger] pivot(m, r2)
    &&& forall|r: int, j: int| k <= r < m.len() && 0 <= j < col ==> !#[trigger] bit_at(m[r], j)
}

/// State of the forward elimination while it clears column `col` below row
/// `k`: row `k` has its leading one at `col`, and the rows from `k + 1` up to
/// `done` hold no one at `col` any more.
pub open spec fn clearing(m: Seq<Seq<u8>>, k: int, col: int, done: int) -> bool {
    &&& settled(m, k, col)
    &&& pivot(m, k) == col
    &&& forall|r: int| k < r < done ==> !bit_at(#[trigger] m[r], col)
}

/// A column without a one from row `k` on needs no pivot.
pub proof fn lemma_settled_skip(m: Seq<Seq<u8>>, k: int, col: int)
    requires
        settled(m, k, col),
        forall|r: int| k <= r < m.len() ==> !bit_at(#[trigger] m[r], col),
    ensures
        settled(m, k, col + 1),
{
    assert forall|r: int, j: int| k <= r < m.len() && 0 <= j < col + 1 implies !#[trigger] bit_at(
        m[r],
        j,
    ) by {
        if j < col {
            assert(!bit_at(m[r], j));
        }
    }
}

/// Bringing a row with a one at `col` up to row `k` makes `col` its pivot.
pub proof fn lemma_settled_swap(m: Seq<Seq<u8>>, k: int, col: int, found: int)
    requires
        is_augmented_matrix(m),
        settled(m, k, col),
        0 <= k <= found < m.len(),
        0 <= col < unknowns(m),
        bit_at(m[found], col),
    ensures
        ({
            let n = m.update(k, m[found]).update(found, m[k]);
            &&& is_augmented_matrix(n)
            &&& same_shape(n, m)
            &&& same_kernel(n, m)
            &&& clearing(n, k, col, k + 1)
        }),
{
    let n = m.update(k, m[found]).update(found, m[k]);
    lemma_swap_keeps_kernel(m, k, found);
    assert(m[0].len() == width(m));
    assert(m[k].len() == width(m));
    assert(m[found].len() == width(m));
    assert(width(n) == width(m));
    assert forall|r: int| 0 <= r < n.len() implies (#[trigger] n[r]).len() == width(n)
        && is_bit_vector(n[r]) by {
        assert(m[r].len() == width(m));
        assert(is_bit_vector(m[r]));
        assert(is_bit_vector(m[k]));
        assert(is_bit_vector(m[found]));
    }
    assert forall|r: int| 0 <= r < k implies #[trigger] pivot(n, r) == pivot(m, r) by {
        lemma_pivot_of_same_row(n, m, r, r);
    }
    assert forall|r: int, j: int| k <= r < n.len() && 0 <= j < col implies !#[trigger] bit_at(
        n[r],
        j,
    ) by {
        if r == k {
            assert(!bit_at(m[found], j));
        } else if r == found {
            assert(!bit_at(m[k], j));
        } else {
            assert(!bit_at(m[r], j));
        }
    }
    assert(n[k] == m[found]);
    assert forall|j: int| 0 <= j < col implies !bit_at(n[k], j) by {
        assert(!bit_at(m[found], j));
    }
    lemma_leading_one_is(n[k], unknowns(n), col as nat);
    assert forall|r: int| 0 <= r < k implies #[trigger] pivot(n, r) < col by {
        assert(pivot(m, r) < col);
    }
    assert forall|r1: int, r2: int| 0 <= r1 < r2 < k implies #[trigger] pivot(n, r1)
        < #[trigger] pivot(n, r2) by {
        assert(pivot(m, r1) < pivot(m, r2));
    }
}

/// Adding row `k` to a row below it that has a one at `col` clears that one
/// and touches nothing before `col`.
pub proof fn lemma_clearing_step(m: Seq<Seq<u8>>, k: int, col: int, row: int)
    requires
        is_augmented_matrix(m),
        clearing(m, k, col, row),
        0 <= k < row < m.len(),
        0 <= col < unknowns(m),
        bit_at(m[row], col),
    ensures
        ({
            let n = m.update(row, xor(m[row], m[k]));
            &&& is_augmented_matrix(n)
            &&& same_shape(n, m)
            &&& same_kernel(n, m)
            &&& clearing(n, k, col, row + 1)
        }),
{
    let n = m.update(row, xor(m[row], m[k]));
    lemma_row_addition_keeps_kernel(m, row, k);
    lemma_leading_one(m[k], unknowns(m));
    assert(m[row].len() == width(m));
    assert(m[k].len() == width(m));
    assert(is_bit_vector(m[row]));
    assert(is_bit_vector(m[k]));
    assert(bit_at(m[k], col));
    assert forall|r: int| 0 <= r <= k implies #[trigger] pivot(n, r) == pivot(m, r) by {
        lemma_pivot_of_same_row(n, m, r, r);
    }
    assert forall|r: int, j: int| k <= r < n.len() && 0 <= j < col implies !#[trigger] bit_at(
        n[r],
        j,
    ) by {
        if r == row {
            assert(!bit_at(m[row], j));
            assert(!bit_at(m[k], j));
            assert(is_bit(m[row][j]));
            assert(is_bit(m[k][j]));
        } else {
            assert(!bit_at(m[r], j));
        }
    }
    assert forall|r: int| k < r < row + 1 implies !bit_at(#[trigger] n[r], col) by {
        if r == row {
            assert(is_bit(m[row][col]));
            assert(is_bit(m[k][col]));
        } else {
            assert(!bit_at(m[r], col));
        }
    }
    assert forall|r: int| 0 <= r < k implies #[trigger] pivot(n, r) < col by {
        assert(pivot(m, r) < col);
    }
    assert forall|r1: int, r2: int| 0 <= r1 < r2 < k implies #[trigger] pivot(n, r1)
        < #[trigger] pivot(n, r2) by {
        assert(pivot(m, r1) < pivot(m, r2));
    }
}

/// Once column `col` is clear below row `k`, that row is settled.
pub proof fn lemma_clearing_done(m: Seq<Seq<u8>>, k: int, col: int)
    requires
        clearing(m, k, col, m.len() as int),
        0 <= k < m.len(),
    ensures
        settled(m, k + 1, col + 1),
{
    assert forall|r: int| 0 <= r < k + 1 implies #[trigger] pivot(m, r) < col + 1 by {
        if r < k {
            assert(pivot(m, r) < col);
        }
    }
    assert forall|r1: int, r2: int| 0 <= r1 < r2 < k + 1 implies #[trigger] pivot(m, r1)
        < #[trigger] pivot(m, r2) by {
        if r2 < k {
            assert(pivot(m, r1) < pivot(m, r2));
        } else {
            assert(pivot(m, r1) < col);
        }
    }
    assert forall|r: int, j: int|
        k + 1 <= r < m.len() && 0 <= j < col + 1 implies !#[trigger] bit_at(m[r], j) by {
        if j < col {
            assert(!bit_at(m[r], j));
        } else {
            assert(!bit_at(m[r], col));
        }
    }
}

/// When the columns or the rows have run out, the matrix is in row-echelon form.
pub proof fn lemma_settled_is_row_echelon(m: Seq<Seq<u8>>, k: int, col: int)
    requires
        settled(m, k, col),
        0 <= k <= m.len(),
        0 <= col <= unknowns(m),
        k == m.len() || col == unknowns(m),
    ensures
        is_row_echelon(m),
{
    assert forall|r1: int, r2: int| 0 <= r1 < r2 < m.len() implies #[trigger] pivot(m, r1)
        < #[trigger] pivot(m, r2) || pivot(m, r2) == unknowns(m) by {
        if r2 < k {
            assert(pivot(m, r1) < pivot(m, r2));
        } else {
            assert forall|j: int| 0 <= j < unknowns(m) implies !bit_at(m[r2], j) by {
                assert(!bit_at(m[r2], j));
            }
            lemma_leading_one_is(m[r2], unknowns(m), unknowns(m));
        }
    }
}

/// What `first_row_with_one` finds: a row from `from` on with a one in the
/// column, with no such row between `from` and it, or the number of rows.
pub proof fn lemma_first_row_with_one(m: Seq<Seq<u8>>, from: int, col: int)
    requires
        0 <= from <= m.len(),
    ensures
        from <= first_row_with_one(m, from, col) <= m.len(),
        first_row_with_one(m, from, col) < m.len() ==> bit_at(
            m[first_row_with_one(m, from, col)],
            col,
        ),
        forall|r: int| from <= r < first_row_with_one(m, from, col) ==> !bit_at(#[trigger] m[r], col),
    decreases m.len() - from,
{
    if from < m.len() && !bit_at(m[from], col) {
        lemma_first_row_with_one(m, from + 1, col);
    }
}

/// Clearing a column below a pivot row keeps the shape and the relations of
/// the matrix, and leaves no one in the column below the pivot row.
pub proof fn lemma_cleared_between(m: Seq<Seq<u8>>, k: int, col: int, done: int)
    requires
        is_augmented_matrix(m),
        clearing(m, k, col, k + 1),
        0 <= k < done <= m.len(),
        0 <= col < unknowns(m),
    ensures
        is_augmented_matrix(cleared_between(m, k, col, done)),
        same_shape(cleared_between(m, k, col, done), m),
        same_kernel(cleared_between(m, k, col, done), m),
        clearing(cleared_between(m, k, col, done), k, col, done),
    decreases done,
{
    let now = cleared_between(m, k, col, done);
    if done == k + 1 {
        assert(now =~= m);
    } else {
        let row = done - 1;
        let prev = cleared_between(m, k, col, row);
        lemma_cleared_between(m, k, col, row);
        assert(prev[row] == m[row]);
        assert(prev[k] == m[k]);
        if bit_at(m[row], col) {
            lemma_clearing_step(prev, k, col, row);
            assert(now =~= prev.update(row, xor(prev[row], prev[k])));
            lemma_same_kernel_transitive(now, prev, m);
        } else {
            assert(now =~= prev);
        }
    }
}

/// Forward elimination from a settled state keeps the shape and the
/// relations of the matrix and ends in row-echelon form.
pub proof fn lemma_eliminated(m: Seq<Seq<u8>>, k: int, col: int)
    requires
        is_augmented_matrix(m),
        settled(m, k, col),
        0 <= k <= m.len(),
        0 <= col <= unknowns(m),
    ensures
        is_augmented_matrix(eliminated(m, k, col, unknowns(m) as int)),
        same_shape(eliminated(m, k, col, unknowns(m) as int), m),
        same_kernel(eliminated(m, k, col, unknowns(m) as int), m),
        is_row_echelon(eliminated(m, k, col, unknowns(m) as int)),
    decreases unknowns(m) - col,
{
    let cols = unknowns(m) as int;
    if col >= cols || k >= m.len() {
        lemma_settled_is_row_echelon(m, k, col);
    } else {
        let found = first_row_with_one(m, k, col);
        lemma_first_row_with_one(m, k, col);
        if found < m.len() {
            let pivoted = exchanged(m, k, found);
            lemma_settled_swap(m, k, col, found);
            let cleared = cleared_between(pivoted, k, col, m.len() as int);
            lemma_cleared_between(pivoted, k, col, m.len() as int);
            lemma_clearing_done(cleared, k, col);
            lemma_same_kernel_transitive(cleared, pivoted, m);
            lemma_eliminated(cleared, k + 1, col + 1);
            lemma_same_kernel_transitive(eliminated(cleared, k + 1, col + 1, cols), cleared, m);
        } else {
            lemma_settled_skip(m, k, col);
            lemma_eliminated(m, k, col + 1);
        }
    }
}

/// Forward elimination brings a matrix to row-echelon form and keeps its
/// shape and the relations among its columns.
pub proof fn lemma_forward_eliminated(m: Seq<Seq<u8>>)
    requires
        is_augmented_matrix(m),
    ensures
        is_augmented_matrix(forward_eliminated(m)),
        same_shape(forward_eliminated(m), m),
        same_kernel(forward_eliminated(m), m),
        is_row_echelon(forward_eliminated(m)),
{
    lemma_eliminated(m, 0, 0);
}

/// State of the back-propagation when the rows from `t` on are done: the
/// matrix is in row-echelon form, and the leading one of each of those rows is
/// the only one of its column.
pub open spec fn propagated(m: Seq<Seq<u8>>, t: int) -> bool {
    &&& is_row_echelon(m)
    &&& forall|r: int, q: int|
        t <= r < m.len() && 0 <= q < m.len() && q != r && #[trigger] pivot(m, r) < unknowns(m)
            ==> !bit_at(#[trigger] m[q], pivot(m, r) as int)
}

/// State of the back-propagation while it clears the column `col` of the
/// leading one of row `t` in the rows above: the rows before `done` hold no
/// one at `col` any more.
pub open spec fn propagating(m: Seq<Seq<u8>>, t: int, col: int, done: int) -> bool {
    &&& propagated(m, t + 1)
    &&& pivot(m, t) == col
    &&& col < unknowns(m)
    &&& forall|q: int| 0 <= q < done ==> !bit_at(#[trigger] m[q], col)
}

/// A row without a leading one asks for no work.
pub proof fn lemma_propagated_zero_row(m: Seq<Seq<u8>>, t: int)
    requires
        propagated(m, t + 1),
        pivot(m, t) == unknowns(m),
    ensures
        propagated(m, t),
{
    assert forall|r: int, q: int|
        t <= r < m.len() && 0 <= q < m.len() && q != r && #[trigger] pivot(m, r) < unknowns(
            m,
        ) implies !bit_at(#[trigger] m[q], pivot(m, r) as int) by {
        if r > t {
            assert(!bit_at(m[q], pivot(m, r) as int));
        }
    }
}

/// Adding row `t` to a row above it that has a one at the column of the
/// leading one of row `t` clears that one and moves no leading one.
pub proof fn lemma_propagating_step(m: Seq<Seq<u8>>, t: int, col: int, q: int)
    requires
        is_augmented_matrix(m),
        propagating(m, t, col, q),
        0 <= q < t < m.len(),
        bit_at(m[q], col),
    ensures
        propagating(m.update(q, xor(m[q], m[t])), t, col, q + 1),
{
    let n = m.update(q, xor(m[q], m[t]));
    let c = unknowns(m);
    assert(m[0].len() == width(m));
    assert(m[q].len() == width(m));
    assert(m[t].len() == width(m));
    assert(is_bit_vector(m[q]));
    assert(is_bit_vector(m[t]));
    assert(unknowns(n) == c);
    lemma_leading_one(m[t], c);
    lemma_leading_one(m[q], c);
    // the leading one of row q stands before col
    assert(pivot(m, q) < pivot(m, t) || pivot(m, t) == c);
    let p = pivot(m, q);
    assert(p < col);
    assert forall|j: int| 0 <= j < col implies bit_at(n[q], j) == bit_at(m[q], j) by {
        assert(!bit_at(m[t], j));
        assert(is_bit(m[q][j]));
        assert(is_bit(m[t][j]));
    }
    assert forall|j: int| 0 <= j < p implies !bit_at(n[q], j) by {
        assert(!bit_at(m[q], j));
    }
    assert(bit_at(n[q], p as int));
    lemma_leading_one_is(n[q], c, p);
    assert forall|r: int| 0 <= r < m.len() implies #[trigger] pivot(n, r) == pivot(m, r) by {
        if r != q {
            lemma_pivot_of_same_row(n, m, r, r);
        }
    }
    assert forall|r1: int, r2: int| 0 <= r1 < r2 < n.len() implies #[trigger] pivot(n, r1)
        < #[trigger] pivot(n, r2) || pivot(n, r2) == unknowns(n) by {
        assert(pivot(m, r1) < pivot(m, r2) || pivot(m, r2) == c);
    }
    assert forall|r: int, o: int|
        t + 1 <= r < n.len() && 0 <= o < n.len() && o != r && #[trigger] pivot(n, r) < unknowns(
            n,
        ) implies !bit_at(#[trigger] n[o], pivot(n, r) as int) by {
        let pr = pivot(m, r) as int;
        assert(pivot(m, r) < c);
        if o == q {
            assert(!bit_at(m[q], pr));
            assert(!bit_at(m[t], pr));
            assert(is_bit(m[q][pr]));
            assert(is_bit(m[t][pr]));
        } else {
            assert(!bit_at(m[o], pr));
        }
    }
    assert forall|o: int| 0 <= o < q + 1 implies !bit_at(#[trigger] n[o], col) by {
        if o == q {
            assert(bit_at(m[t], col));
            assert(is_bit(m[q][col]));
            assert(is_bit(m[t][col]));
        } else {
            assert(!bit_at(m[o], col));
        }
    }
}

/// Once the column of the leading one of row `t` is clear above it, the row is done.
pub proof fn lemma_propagating_done(m: Seq<Seq<u8>>, t: int, col: int)
    requires
        propagating(m, t, col, t),
        0 <= t < m.len(),
    ensures
        propagated(m, t),
{
    let c = unknowns(m);
    assert forall|r: int, q: int|
        t <= r < m.len() && 0 <= q < m.len() && q != r && #[trigger] pivot(m, r) < unknowns(
            m,
        ) implies !bit_at(#[trigger] m[q], pivot(m, r) as int) by {
        if r > t {
            assert(!bit_at(m[q], pivot(m, r) as int));
        } else if q < t {
            assert(!bit_at(m[q], col));
        } else {
            assert(pivot(m, t) < pivot(m, q) || pivot(m, q) == c);
            lemma_leading_one(m[q], c);
        }
    }
}

/// Clearing the column of a leading one above its row keeps the shape and
/// the relations of the matrix. In row-echelon form it moves no leading one
/// and leaves no one in the column above the row.
pub proof fn lemma_cleared_above(m: Seq<Seq<u8>>, t: int, col: int, done: int)
    requires
        is_augmented_matrix(m),
        0 <= done <= t < m.len(),
        col == pivot(m, t),
        col < unknowns(m),
    ensures
        is_augmented_matrix(cleared_above(m, t, col, done)),
        same_shape(cleared_above(m, t, col, done), m),
        same_kernel(cleared_above(m, t, col, done), m),
        propagated(m, t + 1) ==> propagating(cleared_above(m, t, col, done), t, col, done),
    decreases done,
{
    let now = cleared_above(m, t, col, done);
    if done == 0 {
        assert(now =~= m);
    } else {
        let row = done - 1;
        let prev = cleared_above(m, t, col, row);
        lemma_cleared_above(m, t, col, row);
        assert(prev[row] == m[row]);
        assert(prev[t] == m[t]);
        if bit_at(m[row], col) {
            lemma_row_addition_keeps_kernel(prev, row, t);
            assert(now =~= prev.update(row, xor(prev[row], prev[t])));
            lemma_same_kernel_transitive(now, prev, m);
            if propagated(m, t + 1) {
                lemma_propagating_step(prev, t, col, row);
            }
        } else {
            assert(now =~= prev);
        }
    }
}

/// Back-propagation of the rows before `t` keeps the shape and the relations
/// of the matrix; where the rows from `t` on are done, all rows are done after it.
pub proof fn lemma_back_propagated_from(m: Seq<Seq<u8>>, t: int)
    requires
        is_augmented_matrix(m),
        0 <= t <= m.len(),
    ensures
        is_augmented_matrix(back_propagated_from(m, t)),
        same_shape(back_propagated_from(m, t), m),
        same_kernel(back_propagated_from(m, t), m),
        propagated(m, t) ==> propagated(back_propagated_from(m, t), 0),
    decreases t,
{
    if t > 0 {
        let row = t - 1;
        let next = propagated_row(m, row);
        lemma_leading_one(m[row], unknowns(m));
        if pivot(m, row) < unknowns(m) {
            lemma_cleared_above(m, row, pivot(m, row) as int, row);
            if propagated(m, t) {
                lemma_propagating_done(next, row, pivot(m, row) as int);
            }
        } else {
            if propagated(m, t) {
                lemma_propagated_zero_row(m, row);
            }
        }
        lemma_back_propagated_from(next, row);
        lemma_same_kernel_transitive(back_propagated_from(next, row), next, m);
    }
}

/// Back-propagation keeps the shape of a matrix and the relations among its
/// columns, and brings row-echelon form to reduced row-echelon form.
pub proof fn lemma_back_propagated(m: Seq<Seq<u8>>)
    requires
        is_augmented_matrix(m),
    ensures
        is_augmented_matrix(back_propagated(m)),
        same_shape(back_propagated(m), m),
        same_kernel(back_propagated(m), m),
        is_row_echelon(m) ==> is_reduced_row_echelon(back_propagated(m)),
{
    lemma_back_propagated_from(m, m.len() as int);
}

/// Forward elimination and back-propagation bring a matrix to reduced
/// row-echelon form and keep its shape and the relations among its columns.
pub proof fn lemma_reduced_form(m: Seq<Seq<u8>>)
    requires
        is_augmented_matrix(m),
    ensures
        is_augmented_matrix(reduced_form(m)),
        same_shape(reduced_form(m), m),
        same_kernel(reduced_form(m), m),
        is_reduced_row_echelon(reduced_form(m)),
{
    lemma_forward_eliminated(m);
    lemma_back_propagated(forward_eliminated(m));
    lemma_same_kernel_transitive(reduced_form(m), forward_eliminated(m), m);
}

} // verus!
