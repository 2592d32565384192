use vstd::prelude::*;
use vstd::string::StringSliceAdditionalSpecFns;
use crate::digest::{
    bits_of, blake3_hash, DIGEST_BYTES, digest_sum, digest_xor, hash_bytes, hash_vector,
    lemma_bits_of_injective, lemma_bits_of_is_bit_vector, lemma_bits_of_xor, lemma_bits_of_zeros,
    LEN, vec_from_str,
};
use crate::error::SolveError;
use crate::linear::within;
use crate::matrix::contents;
use crate::solution::{canonical_solution, indices, solvable, xor_sum};
use crate::solve::{same_bytes, solve};
use crate::unique::lemma_canonical_solution_is;
use crate::vector::is_bit_vector;

verus! {

/// The vectors that stand for a list of strings.
pub open spec fn hash_vectors(words: Seq<&str>) -> Seq<Seq<u8>> {
    Seq::new(words.len(), |i: int| hash_vector(words[i]))
}

/// The strings at the positions `picks` of `words`.
pub open spec fn labels<'a>(words: Seq<&'a str>, picks: Seq<int>) -> Seq<&'a str> {
    Seq::new(picks.len(), |k: int| words[picks[k]])
}

/// Every digest of `words` has 32 bytes.
pub open spec fn digests_are_whole(words: Seq<&str>) -> bool {
    forall|i: int|
        0 <= i < words.len() ==> blake3_hash((#[trigger] words[i]).spec_bytes()).len()
            == DIGEST_BYTES
}

/// The bits of the XOR of the digests of some of the words are the sum of
/// the vectors of those words.
pub proof fn lemma_digest_xor_bits(words: Seq<&str>, picks: Seq<int>)
    requires
        digests_are_whole(words),
        within(picks, words.len() as int),
    ensures
        digest_xor(labels(words, picks)).len() == DIGEST_BYTES,
        bits_of(digest_xor(labels(words, picks))) == xor_sum(
            hash_vectors(words),
            picks,
            LEN as nat,
        ),
    decreases picks.len(),
{
    let chosen = labels(words, picks);
    if picks.len() == 0 {
        lemma_bits_of_zeros(DIGEST_BYTES as nat);
    } else {
        let front = picks.drop_last();
        let last = picks.last();
        assert(last == picks[picks.len() - 1]);
        assert forall|k: int| 0 <= k < front.len() implies 0 <= #[trigger] front[k]
            < words.len() by {
            assert(front[k] == picks[k]);
        }
        lemma_digest_xor_bits(words, front);
        assert(chosen.drop_last() =~= labels(words, front));
        assert(chosen.last() == words[last]);
        let digest = blake3_hash(words[last].spec_bytes());
        assert(digest.len() == DIGEST_BYTES);
        lemma_bits_of_xor(digest_xor(labels(words, front)), digest);
        assert(hash_vectors(words)[last] == bits_of(digest));
    }
}

/// Checks that the digests of `words` XOR to the digest of `target_str`.
pub fn verify_words(target_str: &str, words: &[&str]) -> (result: Result<(), SolveError>)
    ensures
        digest_xor(words@) == blake3_hash(target_str.spec_bytes()) ==> result == Ok::<
            (),
            SolveError,
        >(()),
        digest_xor(words@) != blake3_hash(target_str.spec_bytes()) ==> result == Err::<
            (),
            SolveError,
        >(SolveError::InternalVerificationFailure),
{
    let target_hash = hash_bytes(target_str.as_bytes());
    let sum = digest_sum(words);
    if same_bytes(sum.as_slice(), target_hash.as_slice()) {
        Ok(())
    } else {
        Err(SolveError::InternalVerificationFailure)
    }
}

/// Finds words whose digests XOR to the digest of `target_str`.
///
/// Each word and the target stand for the 256 bits of their BLAKE3 digest.
/// Where no list of words will do, the attempt fails with `Inconsistent`.
/// Otherwise the result lists the words of the canonical solution of that
/// system, in the order in which `words` holds them. Before it is handed
/// out, the digests of the words found are XORed together and compared with
/// the digest of the target; this never fails.
pub fn find_solution<'a>(target_str: &str, words: &[&'a str]) -> (result: Result<
    Vec<&'a str>,
    SolveError,
>)
    ensures
        !solvable(hash_vectors(words@), hash_vector(target_str)) ==> result == Err::<
            Vec<&'a str>,
            SolveError,
        >(SolveError::Inconsistent),
        solvable(hash_vectors(words@), hash_vector(target_str)) ==> result is Ok && (
        result->Ok_0)@ == labels(
            words@,
            canonical_solution(hash_vectors(words@), hash_vector(target_str)),
        ),
        result is Ok ==> digest_xor((result->Ok_0)@) == blake3_hash(target_str.spec_bytes()),
{
    let count: usize = words.len();
    let mut vecs: Vec<Vec<u8>> = Vec::new();
    let mut i: usize = 0;
    while i < count
        invariant
            count == words@.len(),
            i <= count,
            vecs@.len() == i,
            forall|j: int| 0 <= j < i ==> (#[trigger] vecs@[j])@ == hash_vector(words@[j]),
            forall|j: int| 0 <= j < i ==> (#[trigger] vecs@[j])@.len() == LEN,
            forall|j: int| 0 <= j < i ==> is_bit_vector((#[trigger] vecs@[j])@),
            forall|j: int|
                0 <= j < i ==> blake3_hash((#[trigger] words@[j]).spec_bytes()).len()
                    == DIGEST_BYTES,
        decreases count - i,
    {
        let v = vec_from_str(words[i]);
        proof {
            lemma_bits_of_is_bit_vector(blake3_hash(words@[i as int].spec_bytes()));
        }
        vecs.push(v);
        i += 1;
    }
    let target = vec_from_str(target_str);
    let target_hash = hash_bytes(target_str.as_bytes());
    let ghost vectors = hash_vectors(words@);
    proof {
        assert(contents(vecs@) =~= vectors);
        assert forall|c: int| 0 <= c < vectors.len() implies (#[trigger] vectors[c]).len()
            == target@.len() && is_bit_vector(vectors[c]) by {
            assert(vecs@[c]@ == vectors[c]);
        }
    }
    let picks = match solve(&vecs, &target) {
        Ok(picks) => picks,
        Err(e) => {
            return Err(e);
        },
    };
    let ghost chosen = indices(picks@);
    proof {
        lemma_canonical_solution_is(vectors, target@, chosen);
    }
    let mut result_words: Vec<&'a str> = Vec::new();
    let mut k: usize = 0;
    while k < picks.len()
        invariant
            count == words@.len(),
            chosen == indices(picks@),
            within(chosen, count as int),
            k <= picks@.len(),
            result_words@.len() == k,
            forall|j: int| 0 <= j < k ==> result_words@[j] == words@[chosen[j]],
        decreases picks@.len() - k,
    {
        assert(0 <= chosen[k as int] < count);
        result_words.push(words[picks[k]]);
        k += 1;
    }
    proof {
        assert(result_words@ =~= labels(words@, chosen));
        lemma_digest_xor_bits(words@, chosen);
        lemma_bits_of_injective(digest_xor(result_words@), target_hash@);
    }
    // Check that the results are correct.
    let sum = digest_sum(result_words.as_slice());
    if !same_bytes(sum.as_slice(), target_hash.as_slice()) {
        return Err(SolveError::InternalVerificationFailure);
    }
    Ok(result_words)
}

} // verus!
