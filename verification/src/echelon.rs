use vstd::prelude::*;
use crate::elimination::{lemma_back_propagated, lemma_forward_eliminated};
use crate::linear::{bit_at, same_kernel};
use crate::matrix::{contents, is_augmented_matrix, same_shape, unknowns, width};
use crate::vector::xor;

verus! {

/// Position of the first one among the first `n` entries of `row`, or `n`
/// where there is none.
pub open spec fn leading_one(row: Seq<u8>, n: nat) -> nat
    decreases n,
{
    if n == 0 {
        0
    } else {
        let p = leading_one(row, (n - 1) as nat);
        if p < n - 1 {
            p
        } else if bit_at(row, n - 1) {
            (n - 1) as nat
        } else {
            n
        }
    }
}

/// The column of the leading one of row `r` among the coefficient columns of
/// `m`, or the number of coefficient columns where the row has none.
pub open spec fn pivot(m: Seq<Seq<u8>>, r: int) -> nat {
    leading_one(m[r], unknowns(m))
}

/// Row-echelon form: the leading one of each row stands strictly to the right
/// of those of the rows above it, and rows without one come last.
pub open spec fn is_row_echelon(m: Seq<Seq<u8>>) -> bool {
    forall|r1: int, r2: int|
        0 <= r1 < r2 < m.len() ==> #[trigger] pivot(m, r1) < #[trigger] pivot(m, r2) || pivot(
            m,
            r2,
        ) == unknowns(m)
}

/// Reduced row-echelon form: row-echelon form in which a leading one is the
/// only one of its column.
pub open spec fn is_reduced_row_echelon(m: Seq<Seq<u8>>) -> bool {
    &&& is_row_echelon(m)
    &&& forall|r: int, q: int|
        0 <= r < m.len() && 0 <= q < m.len() && q != r && #[trigger] pivot(m, r) < unknowns(m)
            ==> !bit_at(#[trigger] m[q], pivot(m, r) as int)
}

/// What `leading_one` finds: no one before it, and a one at it unless it is `n`.
pub proof fn lemma_leading_one(row: Seq<u8>, n: nat)
    ensures
        leading_one(row, n) <= n,
        forall|j: int| 0 <= j < leading_one(row, n) ==> !bit_at(row, j),
        leading_one(row, n) < n ==> bit_at(row, leading_one(row, n) as int),
    decreases n,
{
    if n > 0 {
        lemma_leading_one(row, (n - 1) as nat);
    }
}

/// Only one position is the first one of a row.
pub proof fn lemma_leading_one_is(row: Seq<u8>, n: nat, p: nat)
    requires
        p <= n,
        forall|j: int| 0 <= j < p ==> !bit_at(row, j),
        p < n ==> bit_at(row, p as int),
    ensures
        leading_one(row, n) == p,
{
    lemma_leading_one(row, n);
    let q = leading_one(row, n);
    if q < p {
        assert(bit_at(row, q as int));
    } else if p < q {
        assert(!bit_at(row, p as int));
    }
}

/// The first row from `from` on with a one in column `col`, or the number
/// of rows where there is none.
pub open spec fn first_row_with_one(m: Seq<Seq<u8>>, from: int, col: int) -> int
    decreases m.len() - from,
{
    if from >= m.len() {
        m.len() as int
    } else if bit_at(m[from], col) {
        from
    } else {
        first_row_with_one(m, from + 1, col)
    }
}

/// The matrix with rows `a` and `b` exchanged.
pub open spec fn exchanged(m: Seq<Seq<u8>>, a: int, b: int) -> Seq<Seq<u8>> {
    m.update(a, m[b]).update(b, m[a])
}

/// The matrix with row `k` added to each row between `k` and `done` that has
/// a one in column `col`.
pub open spec fn cleared_between(m: Seq<Seq<u8>>, k: int, col: int, done: int) -> Seq<Seq<u8>> {
    Seq::new(
        m.len(),
        |r: int|
            if k < r < done && bit_at(m[r], col) {
                xor(m[r], m[k])
            } else {
                m[r]
            },
    )
}

/// Forward elimination from column `col` on, with `k` pivot rows in place,
/// over `cols` coefficient columns: the first row from `k` on with a one in
/// the column comes up to row `k` and is added to the rows below that have a
/// one there; a column without such a row is passed over.
pub open spec fn eliminated(m: Seq<Seq<u8>>, k: int, col: int, cols: int) -> Seq<Seq<u8>>
    decreases cols - col,
{
    if col >= cols || k >= m.len() {
        m
    } else {
        let found = first_row_with_one(m, k, col);
        if found < m.len() {
            eliminated(
                cleared_between(exchanged(m, k, found), k, col, m.len() as int),
                k + 1,
                col + 1,
                cols,
            )
        } else {
            eliminated(m, k, col + 1, cols)
        }
    }
}

/// The row-echelon form that forward elimination gives a matrix.
pub open spec fn forward_eliminated(m: Seq<Seq<u8>>) -> Seq<Seq<u8>> {
    eliminated(m, 0, 0, unknowns(m) as int)
}

/// The matrix with row `t` added to each row before `done` that has a one
/// in column `col`.
pub open spec fn cleared_above(m: Seq<Seq<u8>>, t: int, col: int, done: int) -> Seq<Seq<u8>> {
    Seq::new(
        m.len(),
        |r: int|
            if r < done && bit_at(m[r], col) {
                xor(m[r], m[t])
            } else {
                m[r]
            },
    )
}

/// One step of back-propagation: row `t` added to each row above it that has
/// a one in the column of the leading one of row `t`, if the row has one.
pub open spec fn propagated_row(m: Seq<Seq<u8>>, t: int) -> Seq<Seq<u8>> {
    if pivot(m, t) < unknowns(m) {
        cleared_above(m, t, pivot(m, t) as int, t)
    } else {
        m
    }
}

/// Back-propagation of the rows before `t`, from the last of them to the first.
pub open spec fn back_propagated_from(m: Seq<Seq<u8>>, t: int) -> Seq<Seq<u8>>
    decreases t,
{
    if t <= 0 {
        m
    } else {
        back_propagated_from(propagated_row(m, t - 1), t - 1)
    }
}

/// The matrix that back-propagation makes of a matrix.
pub open spec fn back_propagated(m: Seq<Seq<u8>>) -> Seq<Seq<u8>> {
    back_propagated_from(m, m.len() as int)
}

/// The reduced row-echelon form that forward elimination and
/// back-propagation give a matrix.
pub open spec fn reduced_form(m: Seq<Seq<u8>>) -> Seq<Seq<u8>> {
    back_propagated(forward_eliminated(m))
}

/// Finds the first one among the first `cols` entries of a row; `cols` where
/// there is none.
pub fn leading_column(row: &Vec<u8>, cols: usize) -> (col: usize)
    requires
        cols <= row@.len(),
    ensures
        col == leading_one(row@, cols as nat),
{
    let mut col: usize = 0;
    while col < cols && row[col] != 1
        invariant
            cols <= row@.len(),
            col <= cols,
            forall|j: int| 0 <= j < col ==> !bit_at(row@, j),
        decreases cols - col,
    {
        col += 1;
    }
    proof {
        lemma_leading_one_is(row@, cols as nat, col as nat);
    }
    col
}

/// Exchanges two rows of a matrix.
pub fn swap_rows(matrix: &mut Vec<Vec<u8>>, a: usize, b: usize)
    requires
        a < old(matrix)@.len(),
        b < old(matrix)@.len(),
    ensures
        contents(final(matrix)@) == contents(old(matrix)@).update(
            a as int,
            contents(old(matrix)@)[b as int],
        ).update(b as int, contents(old(matrix)@)[a as int]),
{
    if a != b {
        let mut held: Vec<u8> = Vec::new();
        core::mem::swap(&mut matrix[a], &mut held);
        core::mem::swap(&mut matrix[b], &mut held);
        core::mem::swap(&mut matrix[a], &mut held);
    }
    assert(contents(matrix@) =~= contents(old(matrix)@).update(
        a as int,
        contents(old(matrix)@)[b as int],
    ).update(b as int, contents(old(matrix)@)[a as int]));
}

/// Adds row `source` to row `row` over GF(2).
pub fn add_row(matrix: &mut Vec<Vec<u8>>, row: usize, source: usize)
    requires
        row < old(matrix)@.len(),
        source < old(matrix)@.len(),
        old(matrix)@[row as int]@.len() == old(matrix)@[source as int]@.len(),
    ensures
        contents(final(matrix)@) == contents(old(matrix)@).update(
            row as int,
            xor(contents(old(matrix)@)[row as int], contents(old(matrix)@)[source as int]),
        ),
{
    let sum = crate::vector::add(matrix[row].as_slice(), matrix[source].as_slice());
    matrix[row] = sum;
    assert(contents(matrix@) =~= contents(old(matrix)@).update(
        row as int,
        xor(contents(old(matrix)@)[row as int], contents(old(matrix)@)[source as int]),
    ));
}

/// Every row of the matrix has `len` entries.
pub open spec fn rows_have_length(m: Seq<Seq<u8>>, len: int) -> bool {
    forall|r: int| 0 <= r < m.len() ==> (#[trigger] m[r]).len() == len
}

/// Forward elimination: brings an augmented matrix to row-echelon form by
/// exchanging rows and adding rows to rows below them. For each coefficient
/// column in turn, the first row at or below the cursor with a one there
/// becomes the next pivot row; a column without such a row is passed over.
/// The relations among the columns stay as they are, and with them the
/// solutions of the system.
pub fn row_eschelon_form(matrix: &mut Vec<Vec<u8>>)
    requires
        is_augmented_matrix(contents(old(matrix)@)),
    ensures
        contents(final(matrix)@) == forward_eliminated(contents(old(matrix)@)),
        is_augmented_matrix(contents(final(matrix)@)),
        same_shape(contents(final(matrix)@), contents(old(matrix)@)),
        same_kernel(contents(final(matrix)@), contents(old(matrix)@)),
        is_row_echelon(contents(final(matrix)@)),
{
    let rows: usize = matrix.len();
    let ghost start = contents(matrix@);
    proof {
        lemma_forward_eliminated(start);
    }
    if rows == 0 {
        return ;
    }
    assert(start[0].len() == width(start));
    let cols: usize = matrix[0].len() - 1;
    let mut current_row: usize = 0;
    let mut col: usize = 0;
    while col < cols && current_row < rows
        invariant
            rows == matrix@.len(),
            cols == unknowns(start),
            rows_have_length(contents(matrix@), cols + 1),
            current_row <= rows,
            col <= cols,
            eliminated(contents(matrix@), current_row as int, col as int, cols as int)
                == forward_eliminated(start),
        decreases cols - col,
    {
        // Find a row at or below the current one with this column set.
        let ghost before = contents(matrix@);
        let mut found_row: usize = current_row;
        while found_row < rows && matrix[found_row][col] != 1
            invariant
                rows == matrix@.len(),
                before == contents(matrix@),
                rows_have_length(before, cols + 1),
                col < cols,
                current_row <= found_row <= rows,
                first_row_with_one(before, current_row as int, col as int) == first_row_with_one(
                    before,
                    found_row as int,
                    col as int,
                ),
            decreases rows - found_row,
        {
            assert(before[found_row as int].len() == cols + 1);
            found_row += 1;
        }
        // If we did find a row, swap it with the current one. If we didn't, keep the
        // current row and go on to the next column.
        if found_row < rows {
            assert(before[found_row as int].len() == cols + 1);
            swap_rows(matrix, current_row, found_row);
            let ghost pivoted = contents(matrix@);
            assert(pivoted == exchanged(before, current_row as int, found_row as int));
            assert(rows_have_length(pivoted, cols + 1)) by {
                assert forall|r: int| 0 <= r < pivoted.len() implies (#[trigger] pivoted[r]).len()
                    == cols + 1 by {
                    assert(before[r].len() == cols + 1);
                    assert(before[current_row as int].len() == cols + 1);
                }
            }
            // Eliminate this column from all rows below.
            let mut row: usize = current_row + 1;
            assert(pivoted =~= cleared_between(pivoted, current_row as int, col as int, row as int));
            while row < rows
                invariant
                    rows == matrix@.len(),
                    rows == pivoted.len(),
                    rows_have_length(pivoted, cols + 1),
                    col < cols,
                    current_row < row <= rows,
                    contents(matrix@) == cleared_between(
                        pivoted,
                        current_row as int,
                        col as int,
                        row as int,
                    ),
                decreases rows - row,
            {
                assert(contents(matrix@)[row as int] == pivoted[row as int]);
                assert(contents(matrix@)[current_row as int] == pivoted[current_row as int]);
                assert(pivoted[row as int].len() == cols + 1);
                assert(pivoted[current_row as int].len() == cols + 1);
                if matrix[row][col] == 1 {
                    add_row(matrix, row, current_row);
                }
                assert(contents(matrix@) =~= cleared_between(
                    pivoted,
                    current_row as int,
                    col as int,
                    row + 1,
                ));
                row += 1;
            }
            assert(rows_have_length(contents(matrix@), cols + 1)) by {
                assert forall|r: int| 0 <= r < rows implies (#[trigger] contents(matrix@)[r]).len()
                    == cols + 1 by {
                    assert(pivoted[r].len() == cols + 1);
                }
            }
            current_row += 1;
        }
        col += 1;
    }
}

/// Back-propagation: brings a matrix in row-echelon form to reduced
/// row-echelon form. From the last row to the first, the row is added to each
/// row above it that has a one in the column of its leading one. A row
/// without a leading one is passed over. The relations among the columns
/// stay as they are, and with them the solutions of the system.
pub fn back_propagate(matrix: &mut Vec<Vec<u8>>)
    requires
        is_augmented_matrix(contents(old(matrix)@)),
    ensures
        contents(final(matrix)@) == back_propagated(contents(old(matrix)@)),
        is_augmented_matrix(contents(final(matrix)@)),
        same_shape(contents(final(matrix)@), contents(old(matrix)@)),
        same_kernel(contents(final(matrix)@), contents(old(matrix)@)),
        is_row_echelon(contents(old(matrix)@)) ==> is_reduced_row_echelon(
            contents(final(matrix)@),
        ),
{
    let rows: usize = matrix.len();
    let ghost start = contents(matrix@);
    proof {
        lemma_back_propagated(start);
    }
    if rows == 0 {
        return ;
    }
    assert(start[0].len() == width(start));
    let cols: usize = matrix[0].len() - 1;
    let mut this_row: usize = rows;
    while this_row > 0
        invariant
            rows == matrix@.len(),
            rows > 0,
            rows_have_length(contents(matrix@), cols + 1),
            this_row <= rows,
            back_propagated_from(contents(matrix@), this_row as int) == back_propagated(start),
        decreases this_row,
    {
        let ghost before = contents(matrix@);
        this_row -= 1;
        assert(before[this_row as int].len() == cols + 1);
        assert(before[0].len() == cols + 1);
        let col: usize = leading_column(&matrix[this_row], cols);
        if col < cols {
            let mut other_row: usize = 0;
            assert(before =~= cleared_above(before, this_row as int, col as int, 0));
            while other_row < this_row
                invariant
                    rows == matrix@.len(),
                    rows == before.len(),
                    rows_have_length(before, cols + 1),
                    this_row < rows,
                    col < cols,
                    other_row <= this_row,
                    contents(matrix@) == cleared_above(
                        before,
                        this_row as int,
                        col as int,
                        other_row as int,
                    ),
                decreases this_row - other_row,
            {
                assert(contents(matrix@)[other_row as int] == before[other_row as int]);
                assert(contents(matrix@)[this_row as int] == before[this_row as int]);
                assert(before[other_row as int].len() == cols + 1);
                assert(before[this_row as int].len() == cols + 1);
                if matrix[other_row][col] == 1 {
                    add_row(matrix, other_row, this_row);
                }
                assert(contents(matrix@) =~= cleared_above(
                    before,
                    this_row as int,
                    col as int,
                    other_row + 1,
                ));
                other_row += 1;
            }
            assert(rows_have_length(contents(matrix@), cols + 1)) by {
                assert forall|r: int| 0 <= r < rows implies (#[trigger] contents(matrix@)[r]).len()
                    == cols + 1 by {
                    assert(before[r].len() == cols + 1);
                }
            }
        }
    }
}

} // verus!
