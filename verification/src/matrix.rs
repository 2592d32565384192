use vstd::prelude::*;
use crate::error::SolveError;
use crate::vector::is_bit_vector;

verus! {

/// What a vector of vectors holds, as a sequence of sequences.
pub open spec fn contents(v: Seq<Vec<u8>>) -> Seq<Seq<u8>> {
    Seq::new(v.len(), |r: int| v[r]@)
}

/// Every one of `vectors` is as long as `target`.
pub open spec fn dimensions_match(vectors: Seq<Seq<u8>>, target: Seq<u8>) -> bool {
    forall|c: int| 0 <= c < vectors.len() ==> (#[trigger] vectors[c]).len() == target.len()
}

/// Every one of `vectors` is a bit vector.
pub open spec fn are_bit_vectors(vectors: Seq<Seq<u8>>) -> bool {
    forall|c: int| 0 <= c < vectors.len() ==> is_bit_vector(#[trigger] vectors[c])
}

/// The augmented matrix of the system "which of `vectors` add up to `target`":
/// one row for each position of the target. Row `r` holds position `r` of each
/// vector in turn, and position `r` of the target in its last column.
pub open spec fn augmented(vectors: Seq<Seq<u8>>, target: Seq<u8>) -> Seq<Seq<u8>> {
    Seq::new(
        target.len(),
        |r: int|
            Seq::new(
                vectors.len() + 1,
                |c: int|
                    if c < vectors.len() {
                        vectors[c][r]
                    } else {
                        target[r]
                    },
            ),
    )
}

/// Number of columns of a matrix, the augmented one included. An empty matrix has one.
pub open spec fn width(m: Seq<Seq<u8>>) -> nat {
    if m.len() == 0 {
        1
    } else {
        m[0].len()
    }
}

/// Number of coefficient columns: all but the last.
pub open spec fn unknowns(m: Seq<Seq<u8>>) -> nat {
    (width(m) - 1) as nat
}

/// A matrix of bits whose rows all have the same length, at least one.
pub open spec fn is_augmented_matrix(m: Seq<Seq<u8>>) -> bool {
    &&& width(m) >= 1
    &&& forall|r: int| 0 <= r < m.len() ==> (#[trigger] m[r]).len() == width(m)
    &&& forall|r: int| 0 <= r < m.len() ==> is_bit_vector(#[trigger] m[r])
}

/// Two matrices with as many rows and as many columns.
pub open spec fn same_shape(a: Seq<Seq<u8>>, b: Seq<Seq<u8>>) -> bool {
    a.len() == b.len() && width(a) == width(b)
}

/// The augmented matrix of bit vectors is a matrix of bits.
pub proof fn lemma_augmented_is_matrix(vectors: Seq<Seq<u8>>, target: Seq<u8>)
    requires
        dimensions_match(vectors, target),
        are_bit_vectors(vectors),
        is_bit_vector(target),
    ensures
        is_augmented_matrix(augmented(vectors, target)),
        augmented(vectors, target).len() == target.len(),
        target.len() > 0 ==> unknowns(augmented(vectors, target)) == vectors.len(),
{
    let m = augmented(vectors, target);
    assert forall|r: int| 0 <= r < m.len() implies is_bit_vector(#[trigger] m[r]) by {
        assert forall|c: int| 0 <= c < m[r].len() implies crate::vector::is_bit(
            #[trigger] m[r][c],
        ) by {
            if c < vectors.len() {
                assert(is_bit_vector(vectors[c]));
            }
        }
    }
}

/// Whether every vector is as long as the target.
pub fn lengths_match(vecs: &Vec<Vec<u8>>, target: &Vec<u8>) -> (ok: bool)
    ensures
        ok == dimensions_match(contents(vecs@), target@),
{
    let count: usize = vecs.len();
    let len: usize = target.len();
    let mut c: usize = 0;
    while c < count
        invariant
            count == vecs@.len(),
            len == target@.len(),
            c <= count,
            forall|k: int| 0 <= k < c ==> (#[trigger] contents(vecs@)[k]).len() == len,
        decreases count - c,
    {
        if vecs[c].len() != len {
            assert(contents(vecs@)[c as int].len() != target@.len());
            return false;
        }
        c += 1;
    }
    true
}

/// Builds the augmented matrix of a system from its vectors and its target.
/// Fails when a vector and the target differ in length.
pub fn make_matrix(vecs: &Vec<Vec<u8>>, target: &Vec<u8>) -> (result: Result<
    Vec<Vec<u8>>,
    SolveError,
>)
    ensures
        result is Ok <==> dimensions_match(contents(vecs@), target@),
        result is Err ==> result == Err::<Vec<Vec<u8>>, SolveError>(SolveError::DimensionMismatch),
        result is Ok ==> contents((result->Ok_0)@) == augmented(contents(vecs@), target@),
{
    if !lengths_match(vecs, target) {
        return Err(SolveError::DimensionMismatch);
    }
    let count: usize = vecs.len();
    let len: usize = target.len();
    let mut matrix: Vec<Vec<u8>> = Vec::new();
    let mut row: usize = 0;
    while row < len
        invariant
            count == vecs@.len(),
            len == target@.len(),
            row <= len,
            dimensions_match(contents(vecs@), target@),
            matrix@.len() == row,
            forall|r: int|
                0 <= r < row ==> (#[trigger] matrix@[r])@ == augmented(contents(vecs@), target@)[r],
        decreases len - row,
    {
        let mut line: Vec<u8> = Vec::new();
        let mut col: usize = 0;
        while col < count
            invariant
                count == vecs@.len(),
                len == target@.len(),
                row < len,
                col <= count,
                dimensions_match(contents(vecs@), target@),
                line@.len() == col,
                forall|k: int| 0 <= k < col ==> line@[k] == (#[trigger] contents(vecs@)[k])[row as int],
            decreases count - col,
        {
            assert(contents(vecs@)[col as int].len() == len);
            line.push(vecs[col][row]);
            col += 1;
        }
        line.push(target[row]);
        assert(line@ =~= augmented(contents(vecs@), target@)[row as int]);
        matrix.push(line);
        row += 1;
    }
    assert(contents(matrix@) =~= augmented(contents(vecs@), target@));
    Ok(matrix)
}

} // verus!
