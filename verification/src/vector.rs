use vstd::prelude::*;

verus! {

/// A bit is a byte that holds zero or one.
pub open spec fn is_bit(x: u8) -> bool {
    x == 0 || x == 1
}

/// A bit vector is a sequence of bits.
pub open spec fn is_bit_vector(v: Seq<u8>) -> bool {
    forall|i: int| 0 <= i < v.len() ==> is_bit(#[trigger] v[i])
}

/// The sum of two bytes modulo two.
pub open spec fn xor_bit(a: u8, b: u8) -> u8 {
    ((a + b) % 2) as u8
}

/// The elementwise sum modulo two of `a` and `b`, as long as `a`.
pub open spec fn xor(a: Seq<u8>, b: Seq<u8>) -> Seq<u8> {
    Seq::new(a.len(), |i: int| xor_bit(a[i], b[i]))
}

/// The vector of `len` zeros.
pub open spec fn zeros(len: nat) -> Seq<u8> {
    Seq::new(len, |i: int| 0u8)
}

/// Adds two vectors of one length over GF(2).
pub fn add(a: &[u8], b: &[u8]) -> (c: Vec<u8>)
    requires
        a@.len() == b@.len(),
    ensures
        c@ == xor(a@, b@),
{
    let n: usize = a.len();
    let mut c: Vec<u8> = Vec::new();
    let mut i: usize = 0;
    while i < n
        invariant
            n == a@.len(),
            n == b@.len(),
            i <= n,
            c@.len() == i,
            forall|j: int| 0 <= j < i ==> c@[j] == xor_bit(a@[j], b@[j]),
        decreases n - i,
    {
        c.push((a[i] % 2 + b[i] % 2) % 2);
        i += 1;
    }
    assert(c@ =~= xor(a@, b@));
    c
}

/// Adding the same vector twice gives back the bit vector one started from.
pub proof fn lemma_xor_self_inverse(a: Seq<u8>, b: Seq<u8>)
    requires
        a.len() == b.len(),
        is_bit_vector(a),
    ensures
        xor(xor(a, b), b) == a,
{
    assert(xor(xor(a, b), b) =~= a);
}

} // verus!
