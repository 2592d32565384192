use vstd::prelude::*;
use vstd::string::StringSliceAdditionalSpecFns;
use crate::vector::{is_bit, is_bit_vector, xor, zeros};

verus! {

/// Number of bytes of a digest.
pub const DIGEST_BYTES: usize = 32;

/// Number of bits of a digest: the length of the vector made from a string.
pub const LEN: usize = 256;

/// The BLAKE3 digest of a sequence of bytes.
pub uninterp spec fn blake3_hash(input: Seq<u8>) -> Seq<u8>;

/// Calls `blake3::hash` and hands out the 32 bytes of the `Hash` it returns.
/// Not proved: that the digest depends on the bytes of the input alone, so
/// that equal inputs have equal digests.
#[verifier::external_body]
pub(crate) fn hash_bytes(input: &[u8]) -> (digest: [u8; 32])
    ensures
        digest@ == blake3_hash(input@),
{
    *blake3::hash(input).as_bytes()
}

/// Bit `k` of a byte, counted from the least significant one.
pub open spec fn bit_of(byte: u8, k: u8) -> u8 {
    (byte >> k) & 1
}

/// The bits of a sequence of bytes, eight for each byte, the least
/// significant bit of a byte first.
pub open spec fn bits_of(bytes: Seq<u8>) -> Seq<u8> {
    Seq::new(8 * bytes.len(), |i: int| bit_of(bytes[i / 8], (i % 8) as u8))
}

/// The vector that stands for a string: the bits of its digest.
pub open spec fn hash_vector(text: &str) -> Seq<u8> {
    bits_of(blake3_hash(text.spec_bytes()))
}

/// A bit of a byte is zero or one.
proof fn lemma_bit_of_is_bit(byte: u8, k: u8)
    requires
        k < 8,
    ensures
        is_bit(bit_of(byte, k)),
{
    assert((byte >> k) & 1 == 0 || (byte >> k) & 1 == 1) by (bit_vector)
        requires
            k < 8,
    ;
}

/// The bits of bytes are a bit vector.
pub proof fn lemma_bits_of_is_bit_vector(bytes: Seq<u8>)
    ensures
        is_bit_vector(bits_of(bytes)),
        bits_of(bytes).len() == 8 * bytes.len(),
{
    assert forall|i: int| 0 <= i < bits_of(bytes).len() implies is_bit(
        #[trigger] bits_of(bytes)[i],
    ) by {
        lemma_bit_of_is_bit(bytes[i / 8], (i % 8) as u8);
    }
}

/// Spreads bytes out into their bits.
pub fn bits_from_bytes(bytes: &[u8]) -> (bits: Vec<u8>)
    ensures
        bits@ == bits_of(bytes@),
{
    let n: usize = bytes.len();
    let mut bits: Vec<u8> = Vec::new();
    let mut byte_index: usize = 0;
    while byte_index < n
        invariant
            n == bytes@.len(),
            byte_index <= n,
            bits@.len() == 8 * byte_index,
            forall|i: int| 0 <= i < bits@.len() ==> bits@[i] == bits_of(bytes@)[i],
        decreases n - byte_index,
    {
        let byte: u8 = bytes[byte_index];
        let mut bit_index: u8 = 0;
        while bit_index < 8
            invariant
                n == bytes@.len(),
                byte_index < n,
                byte == bytes@[byte_index as int],
                bit_index <= 8,
                bits@.len() == 8 * byte_index + bit_index,
                forall|i: int| 0 <= i < bits@.len() ==> bits@[i] == bits_of(bytes@)[i],
            decreases 8 - bit_index,
        {
            proof {
                let i = 8 * byte_index + bit_index;
                assert(i / 8 == byte_index as int);
                assert(i % 8 == bit_index as int);
            }
            bits.push((byte >> bit_index) & 1);
            bit_index += 1;
        }
        byte_index += 1;
    }
    assert(bits@ =~= bits_of(bytes@));
    bits
}

/// Makes the vector of a string: the 256 bits of its BLAKE3 digest.
pub fn vec_from_str(s: &str) -> (v: Vec<u8>)
    ensures
        v@ == hash_vector(s),
        v@.len() == LEN,
        is_bit_vector(v@),
{
    let hash = hash_bytes(s.as_bytes());
    proof {
        lemma_bits_of_is_bit_vector(hash@);
    }
    bits_from_bytes(hash.as_slice())
}

/// The bytewise XOR of `a` and `b`, as long as `a`.
pub open spec fn xor_bytes(a: Seq<u8>, b: Seq<u8>) -> Seq<u8> {
    Seq::new(a.len(), |i: int| a[i] ^ b[i])
}

/// The bytewise XOR of the digests of `texts`, starting from 32 zero bytes.
pub open spec fn digest_xor(texts: Seq<&str>) -> Seq<u8>
    decreases texts.len(),
{
    if texts.len() == 0 {
        Seq::new(DIGEST_BYTES as nat, |i: int| 0u8)
    } else {
        xor_bytes(digest_xor(texts.drop_last()), blake3_hash(texts.last().spec_bytes()))
    }
}

/// A bit of the XOR of two bytes is the sum over GF(2) of their bits.
proof fn lemma_bit_of_xor(x: u8, y: u8, k: u8)
    requires
        k < 8,
    ensures
        bit_of(x ^ y, k) == crate::vector::xor_bit(bit_of(x, k), bit_of(y, k)),
{
    let a = bit_of(x, k);
    let b = bit_of(y, k);
    let c = bit_of(x ^ y, k);
    assert(((x ^ y) >> k) & 1 == ((x >> k) & 1) ^ ((y >> k) & 1)) by (bit_vector)
        requires
            k < 8,
    ;
    lemma_bit_of_is_bit(x, k);
    lemma_bit_of_is_bit(y, k);
    assert(0u8 ^ 0u8 == 0u8 && 0u8 ^ 1u8 == 1u8 && 1u8 ^ 0u8 == 1u8 && 1u8 ^ 1u8 == 0u8)
        by (bit_vector);
}

/// The bits of a bytewise XOR are the sum over GF(2) of the bits.
pub proof fn lemma_bits_of_xor(a: Seq<u8>, b: Seq<u8>)
    requires
        a.len() == b.len(),
    ensures
        bits_of(xor_bytes(a, b)) == xor(bits_of(a), bits_of(b)),
{
    assert forall|i: int| 0 <= i < 8 * a.len() implies bits_of(xor_bytes(a, b))[i] == xor(
        bits_of(a),
        bits_of(b),
    )[i] by {
        lemma_bit_of_xor(a[i / 8], b[i / 8], (i % 8) as u8);
    }
    assert(bits_of(xor_bytes(a, b)) =~= xor(bits_of(a), bits_of(b)));
}

/// Bytes with the same eight bits are the same byte.
proof fn lemma_byte_from_bits(x: u8, y: u8)
    requires
        forall|k: u8| k < 8 ==> bit_of(x, k) == bit_of(y, k),
    ensures
        x == y,
{
    assert(bit_of(x, 0) == bit_of(y, 0));
    assert(bit_of(x, 1) == bit_of(y, 1));
    assert(bit_of(x, 2) == bit_of(y, 2));
    assert(bit_of(x, 3) == bit_of(y, 3));
    assert(bit_of(x, 4) == bit_of(y, 4));
    assert(bit_of(x, 5) == bit_of(y, 5));
    assert(bit_of(x, 6) == bit_of(y, 6));
    assert(bit_of(x, 7) == bit_of(y, 7));
    assert(x == y) by (bit_vector)
        requires
            (x >> 0u8) & 1 == (y >> 0u8) & 1,
            (x >> 1u8) & 1 == (y >> 1u8) & 1,
            (x >> 2u8) & 1 == (y >> 2u8) & 1,
            (x >> 3u8) & 1 == (y >> 3u8) & 1,
            (x >> 4u8) & 1 == (y >> 4u8) & 1,
            (x >> 5u8) & 1 == (y >> 5u8) & 1,
            (x >> 6u8) & 1 == (y >> 6u8) & 1,
            (x >> 7u8) & 1 == (y >> 7u8) & 1,
    ;
}

/// Bytes with the same bits are the same bytes.
pub proof fn lemma_bits_of_injective(a: Seq<u8>, b: Seq<u8>)
    requires
        bits_of(a) == bits_of(b),
    ensures
        a == b,
{
    assert(bits_of(a).len() == 8 * a.len());
    assert(bits_of(b).len() == 8 * b.len());
    assert(a.len() == b.len());
    assert forall|j: int| 0 <= j < a.len() implies a[j] == b[j] by {
        assert forall|k: u8| k < 8 implies bit_of(a[j], k) == bit_of(b[j], k) by {
            let i = 8 * j + k;
            assert(i / 8 == j);
            assert(i % 8 == k as int);
            assert(bits_of(a)[i] == bit_of(a[j], k));
            assert(bits_of(b)[i] == bit_of(b[j], k));
        }
        lemma_byte_from_bits(a[j], b[j]);
    }
    assert(a =~= b);
}

/// Zero bytes have zero bits.
pub proof fn lemma_bits_of_zeros(len: nat)
    ensures
        bits_of(Seq::new(len, |i: int| 0u8)) == zeros(8 * len),
{
    assert forall|k: u8| k < 8 implies bit_of(0u8, k) == 0u8 by {
        assert((0u8 >> k) & 1 == 0u8) by (bit_vector);
    }
    assert(bits_of(Seq::new(len, |i: int| 0u8)) =~= zeros(8 * len));
}

/// XORs a digest into a running sum, byte by byte.
pub fn xor_digest(sum: &mut [u8; 32], digest: &[u8; 32])
    ensures
        final(sum)@ == xor_bytes(old(sum)@, digest@),
{
    let ghost before = sum@;
    let mut i: usize = 0;
    while i < 32
        invariant
            i <= 32,
            forall|j: int| 0 <= j < i ==> sum@[j] == before[j] ^ digest@[j],
            forall|j: int| i <= j < 32 ==> sum@[j] == before[j],
        decreases 32 - i,
    {
        sum[i] = sum[i] ^ digest[i];
        i += 1;
    }
    assert(sum@ =~= xor_bytes(before, digest@));
}

/// XORs the digests of the given strings together, byte by byte.
pub fn digest_sum(texts: &[&str]) -> (sum: [u8; 32])
    ensures
        sum@ == digest_xor(texts@),
{
    let mut sum: [u8; 32] = [0u8; 32];
    assert(sum@ =~= digest_xor(texts@.take(0)));
    let count: usize = texts.len();
    let mut k: usize = 0;
    while k < count
        invariant
            count == texts@.len(),
            k <= count,
            sum@ == digest_xor(texts@.take(k as int)),
        decreases count - k,
    {
        let digest = hash_bytes(texts[k].as_bytes());
        xor_digest(&mut sum, &digest);
        proof {
            assert(texts@.take(k + 1).drop_last() =~= texts@.take(k as int));
            assert(texts@.take(k + 1).last() == texts@[k as int]);
        }
        k += 1;
    }
    assert(texts@.take(count as int) =~= texts@);
    sum
}

} // verus!
