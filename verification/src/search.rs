use rand::seq::SliceRandom;
use vstd::prelude::*;
use vstd::string::StringSliceAdditionalSpecFns;
use crate::digest::{blake3_hash, digest_xor, hash_vector};
use crate::error::SolveError;
use crate::linear::{increasing, within};
use crate::matrix::{are_bit_vectors, contents, dimensions_match, lengths_match};
use crate::solution::{canonical_solution, indices, is_solution, solvable, xor_sum};
use crate::solve::solve;
use crate::unique::lemma_canonical_solution_is;
use crate::vector::is_bit_vector;
use crate::words::{find_solution, hash_vectors, labels};

verus! {

/// Shuffles a vector in place with `SliceRandom::shuffle` of the `rand` crate,
/// drawing from `rand::thread_rng()`. The shuffle only exchanges items, so
/// whatever is drawn the vector holds the same items as before, each as
/// often as before. Not stated, because it is not so of every outcome:
/// which order comes out. The generator panics where the system gives it no
/// seed.
#[verifier::external_body]
fn shuffle<T>(items: &mut Vec<T>)
    ensures
        final(items)@.to_multiset() == old(items)@.to_multiset(),
{
    items.shuffle(&mut rand::thread_rng());
}

/// The positions `0..count` in their own order.
pub open spec fn identity_order(count: nat) -> Seq<usize> {
    Seq::new(count, |i: int| i as usize)
}

/// A rearrangement of the positions `0..count`: each of them once.
pub open spec fn is_order(order: Seq<usize>, count: nat) -> bool {
    &&& order.len() == count
    &&& forall|i: int| 0 <= i < order.len() ==> #[trigger] order[i] < count
    &&& order.no_duplicates()
    &&& forall|c: usize| c < count ==> order.contains(c)
}

/// A sequence with the items of the identity order is a rearrangement.
pub proof fn lemma_shuffled_identity_is_order(order: Seq<usize>, count: nat)
    requires
        count <= usize::MAX,
        order.to_multiset() == identity_order(count).to_multiset(),
    ensures
        is_order(order, count),
{
    let id = identity_order(count);
    order.to_multiset_ensures();
    id.to_multiset_ensures();
    assert(id.no_duplicates());
    id.lemma_multiset_has_no_duplicates();
    order.lemma_multiset_has_no_duplicates_conv();
    assert forall|i: int| 0 <= i < order.len() implies #[trigger] order[i] < count by {
        assert(order.contains(order[i]));
        assert(id.to_multiset().count(order[i]) > 0);
        assert(id.contains(order[i]));
        let j = choose|j: int| 0 <= j < id.len() && id[j] == order[i];
        assert(id[j] == j);
    }
    assert forall|c: usize| c < count implies order.contains(c) by {
        assert(id[c as int] == c);
        assert(id.contains(c));
        assert(order.to_multiset().count(c) > 0);
    }
}

/// Draws a random rearrangement of the positions `0..count`.
pub fn random_order(count: usize) -> (order: Vec<usize>)
    ensures
        is_order(order@, count as nat),
{
    let mut order: Vec<usize> = Vec::new();
    let mut i: usize = 0;
    while i < count
        invariant
            i <= count,
            order@.len() == i,
            forall|j: int| 0 <= j < i ==> order@[j] == j,
        decreases count - i,
    {
        order.push(i);
        i += 1;
    }
    assert(order@ =~= identity_order(count as nat));
    shuffle(&mut order);
    proof {
        lemma_shuffled_identity_is_order(order@, count as nat);
    }
    order
}

/// The vectors in the order that `order` gives: the vector at position `i`
/// is the one that stood at `order[i]`.
pub open spec fn rearranged(vectors: Seq<Seq<u8>>, order: Seq<usize>) -> Seq<Seq<u8>> {
    Seq::new(order.len(), |i: int| vectors[order[i] as int])
}

/// Positions among rearranged vectors, as positions among the vectors.
pub open spec fn positions_before(order: Seq<usize>, picks: Seq<int>) -> Seq<int> {
    Seq::new(picks.len(), |k: int| order[picks[k]] as int)
}

/// Adding up rearranged vectors is adding up the vectors they stand for.
pub proof fn lemma_xor_sum_rearranged(
    vectors: Seq<Seq<u8>>,
    order: Seq<usize>,
    picks: Seq<int>,
    len: nat,
)
    requires
        within(picks, order.len() as int),
    ensures
        xor_sum(rearranged(vectors, order), picks, len) == xor_sum(
            vectors,
            positions_before(order, picks),
            len,
        ),
    decreases picks.len(),
{
    if picks.len() > 0 {
        let front = picks.drop_last();
        assert(picks.last() == picks[picks.len() - 1]);
        assert forall|k: int| 0 <= k < front.len() implies 0 <= #[trigger] front[k]
            < order.len() by {
            assert(front[k] == picks[k]);
        }
        lemma_xor_sum_rearranged(vectors, order, front, len);
        assert(positions_before(order, picks).drop_last() =~= positions_before(order, front));
    }
}

/// A list that goes strictly upwards below `bound` has `bound` items at most.
pub proof fn lemma_increasing_is_short(picks: Seq<int>, bound: int)
    requires
        within(picks, bound),
        increasing(picks),
    ensures
        picks.len() <= bound || picks.len() == 0,
        forall|k: int| 0 <= k < picks.len() ==> k <= #[trigger] picks[k],
    decreases picks.len(),
{
    if picks.len() > 0 {
        let front = picks.drop_last();
        assert forall|k: int| 0 <= k < front.len() implies 0 <= #[trigger] front[k] < bound by {
            assert(front[k] == picks[k]);
        }
        assert forall|j: int, k: int| 0 <= j < k < front.len() implies front[j] < front[k] by {
            assert(front[j] == picks[j] && front[k] == picks[k]);
        }
        lemma_increasing_is_short(front, bound);
        assert forall|k: int| 0 <= k < picks.len() implies k <= #[trigger] picks[k] by {
            if k < front.len() {
                assert(front[k] == picks[k]);
            } else if k > 0 {
                assert(front[k - 1] == picks[k - 1]);
                assert(picks[k - 1] < picks[k]);
            }
        }
        assert(picks[picks.len() - 1] < bound);
    }
}

/// A rearrangement changes neither whether the lengths match nor whether a
/// solution exists.
pub proof fn lemma_rearranged_system(vectors: Seq<Seq<u8>>, target: Seq<u8>, order: Seq<usize>)
    requires
        vectors.len() <= usize::MAX,
        is_order(order, vectors.len()),
    ensures
        dimensions_match(rearranged(vectors, order), target) == dimensions_match(vectors, target),
        are_bit_vectors(vectors) ==> are_bit_vectors(rearranged(vectors, order)),
        solvable(rearranged(vectors, order), target) == solvable(vectors, target),
{
    let moved = rearranged(vectors, order);
    if dimensions_match(vectors, target) {
        assert forall|c: int| 0 <= c < moved.len() implies (#[trigger] moved[c]).len()
            == target.len() by {
            assert(order[c] < vectors.len());
            assert(vectors[order[c] as int].len() == target.len());
        }
    }
    if dimensions_match(moved, target) {
        assert forall|c: int| 0 <= c < vectors.len() implies (#[trigger] vectors[c]).len()
            == target.len() by {
            assert(order.contains(c as usize));
            let i = choose|i: int| 0 <= i < order.len() && order[i] == c as usize;
            assert(moved[i].len() == target.len());
        }
    }
    if are_bit_vectors(vectors) {
        assert forall|c: int| 0 <= c < moved.len() implies is_bit_vector(#[trigger] moved[c]) by {
            assert(order[c] < vectors.len());
            assert(is_bit_vector(vectors[order[c] as int]));
        }
    }
    if solvable(moved, target) {
        let picks = choose|picks: Seq<int>| is_solution(moved, target, picks);
        lemma_xor_sum_rearranged(vectors, order, picks, target.len());
        let back = positions_before(order, picks);
        assert forall|k: int| 0 <= k < back.len() implies 0 <= #[trigger] back[k]
            < vectors.len() by {
            assert(0 <= picks[k] < order.len());
            assert(order[picks[k]] < vectors.len());
        }
        assert(is_solution(vectors, target, back));
    }
    if solvable(vectors, target) {
        let picks = choose|picks: Seq<int>| is_solution(vectors, target, picks);
        let there = Seq::new(
            picks.len(),
            |k: int| choose|i: int| 0 <= i < order.len() && order[i] == picks[k] as usize,
        );
        assert forall|k: int| 0 <= k < there.len() implies 0 <= #[trigger] there[k] < order.len()
            && order[there[k]] == picks[k] by {
            assert(0 <= picks[k] < vectors.len());
            assert(order.contains(picks[k] as usize));
        }
        lemma_xor_sum_rearranged(vectors, order, there, target.len());
        assert(positions_before(order, there) =~= picks);
        assert(is_solution(moved, target, there));
    }
}

/// Copies the vectors out in the order that `order` gives.
pub fn rearrange(vectors: &Vec<Vec<u8>>, order: &Vec<usize>) -> (moved: Vec<Vec<u8>>)
    requires
        forall|i: int| 0 <= i < order@.len() ==> #[trigger] order@[i] < vectors@.len(),
    ensures
        contents(moved@) == rearranged(contents(vectors@), order@),
{
    let count: usize = order.len();
    let mut moved: Vec<Vec<u8>> = Vec::new();
    let mut i: usize = 0;
    while i < count
        invariant
            count == order@.len(),
            i <= count,
            moved@.len() == i,
            forall|j: int| 0 <= j < order@.len() ==> #[trigger] order@[j] < vectors@.len(),
            forall|j: int| 0 <= j < i ==> (#[trigger] moved@[j])@ == vectors@[order@[j] as int]@,
        decreases count - i,
    {
        let copy = vstd::slice::slice_to_vec(vectors[order[i]].as_slice());
        moved.push(copy);
        i += 1;
    }
    assert(contents(moved@) =~= rearranged(contents(vectors@), order@));
    moved
}

/// Solves the system with its vectors taken in the order that `order`
/// gives, and hands out the solution as positions among `vectors` as they
/// stand. Which vectors lead, and so which solution is found, depends on the
/// order; whether there is a solution does not.
pub fn solve_in_order(vectors: &Vec<Vec<u8>>, target: &Vec<u8>, order: &Vec<usize>) -> (result:
    Result<Vec<usize>, SolveError>)
    requires
        are_bit_vectors(contents(vectors@)),
        is_bit_vector(target@),
        is_order(order@, vectors@.len()),
    ensures
        !dimensions_match(contents(vectors@), target@) ==> result == Err::<Vec<usize>, SolveError>(
            SolveError::DimensionMismatch,
        ),
        dimensions_match(contents(vectors@), target@) && !solvable(contents(vectors@), target@)
            ==> result == Err::<Vec<usize>, SolveError>(SolveError::Inconsistent),
        dimensions_match(contents(vectors@), target@) && solvable(contents(vectors@), target@)
            ==> result is Ok && indices((result->Ok_0)@) == positions_before(
            order@,
            canonical_solution(rearranged(contents(vectors@), order@), target@),
        ),
        result is Ok ==> is_solution(contents(vectors@), target@, indices((result->Ok_0)@)),
        result is Ok ==> (result->Ok_0)@.no_duplicates(),
        result is Ok ==> (result->Ok_0)@.len() <= vectors@.len(),
{
    let moved = rearrange(vectors, order);
    proof {
        assert(vectors.len() == vectors@.len());
        lemma_rearranged_system(contents(vectors@), target@, order@);
    }
    let picks = match solve(&moved, target) {
        Ok(picks) => picks,
        Err(e) => {
            return Err(e);
        },
    };
    let ghost chosen = indices(picks@);
    proof {
        lemma_increasing_is_short(chosen, order@.len() as int);
        lemma_canonical_solution_is(rearranged(contents(vectors@), order@), target@, chosen);
    }
    let mut found: Vec<usize> = Vec::new();
    let mut k: usize = 0;
    while k < picks.len()
        invariant
            chosen == indices(picks@),
            within(chosen, order@.len() as int),
            k <= picks@.len(),
            found@.len() == k,
            forall|j: int| 0 <= j < k ==> found@[j] == order@[chosen[j]],
        decreases picks@.len() - k,
    {
        assert(0 <= chosen[k as int] < order@.len());
        found.push(order[picks[k]]);
        k += 1;
    }
    proof {
        lemma_xor_sum_rearranged(contents(vectors@), order@, chosen, target@.len());
        assert(indices(found@) =~= positions_before(order@, chosen));
        assert forall|j: int| 0 <= j < indices(found@).len() implies 0 <= #[trigger] indices(
            found@,
        )[j] < vectors@.len() by {
            assert(order@[chosen[j]] < vectors@.len());
        }
        assert forall|i: int, j: int|
            0 <= i < found@.len() && 0 <= j < found@.len() && i != j implies found@[i]
            != found@[j] by {
            assert(chosen[i] != chosen[j]) by {
                if i < j {
                    assert(chosen[i] < chosen[j]);
                } else {
                    assert(chosen[j] < chosen[i]);
                }
            }
        }
    }
    Ok(found)
}

/// One trial of the search: solves the system with its vectors in a random
/// order. Trials may differ in the solution they find. Whatever order is
/// drawn, the result is the solution that `solve_in_order` gives for it: it
/// lists positions among `vectors` as they stand, no position twice, and
/// the vectors at them add up to the target. The failures are those of
/// `solve`.
pub fn solve_shuffled(vectors: &Vec<Vec<u8>>, target: &Vec<u8>) -> (result: Result<
    Vec<usize>,
    SolveError,
>)
    requires
        are_bit_vectors(contents(vectors@)),
        is_bit_vector(target@),
    ensures
        !dimensions_match(contents(vectors@), target@) ==> result == Err::<Vec<usize>, SolveError>(
            SolveError::DimensionMismatch,
        ),
        dimensions_match(contents(vectors@), target@) && !solvable(contents(vectors@), target@)
            ==> result == Err::<Vec<usize>, SolveError>(SolveError::Inconsistent),
        dimensions_match(contents(vectors@), target@) && solvable(contents(vectors@), target@)
            ==> result is Ok && exists|order: Seq<usize>|
            is_order(order, vectors@.len()) && indices((result->Ok_0)@)
                == #[trigger] positions_before(
                order,
                canonical_solution(rearranged(contents(vectors@), order), target@),
            ),
        result is Ok ==> is_solution(contents(vectors@), target@, indices((result->Ok_0)@)),
        result is Ok ==> (result->Ok_0)@.no_duplicates(),
        result is Ok ==> (result->Ok_0)@.len() <= vectors@.len(),
{
    let order = random_order(vectors.len());
    solve_in_order(vectors, target, &order)
}

/// What a search knows between trials: the length of the shortest solution
/// it has seen, if it has seen one.
pub struct Search {
    pub best: Option<usize>,
}

impl Search {
    /// A search that has seen no solution yet.
    pub fn new() -> (search: Search)
        ensures
            search.best is None,
    {
        Search { best: None }
    }

    /// Whether a solution of `length` items would be shorter than every
    /// solution seen so far.
    pub open spec fn improves(self, length: usize) -> bool {
        match self.best {
            None => true,
            Some(best) => length < best,
        }
    }

    /// Takes note of a solution of `length` items and tells whether it is
    /// shorter than every solution seen before, in which case it is the new
    /// best. The best length never goes up.
    pub fn observe(&mut self, length: usize) -> (improved: bool)
        ensures
            improved == old(self).improves(length),
            improved ==> final(self).best == Some(length),
            !improved ==> final(self).best == old(self).best,
            final(self).best is Some,
            old(self).best is Some ==> final(self).best->Some_0 <= old(self).best->Some_0,
            final(self).best->Some_0 <= length,
    {
        let improved = match self.best {
            None => true,
            Some(best) => length < best,
        };
        if improved {
            self.best = Some(length);
        }
        improved
    }
}

/// What a vector of lists holds, as a sequence of sequences.
pub open spec fn lists(found: Seq<Vec<usize>>) -> Seq<Seq<usize>> {
    Seq::new(found.len(), |i: int| found[i]@)
}

/// A solution that a trial may find: the vectors at the positions add up to
/// the target, and no position is listed twice.
pub open spec fn is_trial_solution(
    vectors: Seq<Seq<u8>>,
    target: Seq<u8>,
    picks: Seq<usize>,
) -> bool {
    &&& is_solution(vectors, target, indices(picks))
    &&& picks.no_duplicates()
    &&& picks.len() <= vectors.len()
}

/// The records among the solutions seen: each solution that is shorter than
/// all that came before it, in the order in which they came.
pub open spec fn records(seen: Seq<Seq<usize>>) -> Seq<Seq<usize>>
    decreases seen.len(),
{
    if seen.len() == 0 {
        Seq::empty()
    } else {
        let before = records(seen.drop_last());
        if before.len() == 0 || seen.last().len() < before.last().len() {
            before.push(seen.last())
        } else {
            before
        }
    }
}

/// Each of `found` is a solution that a trial may find, and is shorter than
/// the one before it.
pub open spec fn is_improving(
    vectors: Seq<Seq<u8>>,
    target: Seq<u8>,
    found: Seq<Seq<usize>>,
) -> bool {
    &&& forall|i: int|
        0 <= i < found.len() ==> is_trial_solution(vectors, target, #[trigger] found[i])
    &&& forall|i: int, j: int|
        0 <= i < j < found.len() ==> (#[trigger] found[j]).len() < (#[trigger] found[i]).len()
}

/// The records among solutions come from among them and get shorter and shorter.
pub proof fn lemma_records_improve(vectors: Seq<Seq<u8>>, target: Seq<u8>, seen: Seq<Seq<usize>>)
    requires
        forall|i: int| 0 <= i < seen.len() ==> is_trial_solution(vectors, target, #[trigger] seen[i]),
    ensures
        is_improving(vectors, target, records(seen)),
        records(seen).len() <= seen.len(),
        seen.len() > 0 ==> records(seen).len() >= 1,
    decreases seen.len(),
{
    if seen.len() > 0 {
        let front = seen.drop_last();
        assert forall|i: int| 0 <= i < front.len() implies is_trial_solution(
            vectors,
            target,
            #[trigger] front[i],
        ) by {
            assert(front[i] == seen[i]);
        }
        lemma_records_improve(vectors, target, front);
        let before = records(front);
        let now = records(seen);
        assert(seen.last() == seen[seen.len() - 1]);
        if before.len() == 0 || seen.last().len() < before.last().len() {
            assert forall|i: int, j: int| 0 <= i < j < now.len() implies (#[trigger] now[j]).len()
                < (#[trigger] now[i]).len() by {
                if j < before.len() {
                    assert(now[i] == before[i] && now[j] == before[j]);
                } else if i < before.len() - 1 {
                    assert(now[i] == before[i]);
                    assert(before[before.len() - 1].len() < before[i].len());
                } else {
                    assert(now[i] == before[before.len() - 1]);
                }
            }
            assert forall|i: int| 0 <= i < now.len() implies is_trial_solution(
                vectors,
                target,
                #[trigger] now[i],
            ) by {
                if i < before.len() {
                    assert(now[i] == before[i]);
                }
            }
        }
    }
}

/// Searches for short solutions: solves the system `trials` times, each time
/// with its vectors in a random order, and hands out the records: each
/// solution that is shorter than all before it, in the order in which they
/// were found. A system that has no solution, or whose lengths do not
/// match, has none in any order: the search then ends with that failure.
pub fn search_minimal(vectors: &Vec<Vec<u8>>, target: &Vec<u8>, trials: usize) -> (result: Result<
    Vec<Vec<usize>>,
    SolveError,
>)
    requires
        are_bit_vectors(contents(vectors@)),
        is_bit_vector(target@),
    ensures
        !dimensions_match(contents(vectors@), target@) ==> result == Err::<
            Vec<Vec<usize>>,
            SolveError,
        >(SolveError::DimensionMismatch),
        trials > 0 && dimensions_match(contents(vectors@), target@) && !solvable(
            contents(vectors@),
            target@,
        ) ==> result == Err::<Vec<Vec<usize>>, SolveError>(SolveError::Inconsistent),
        dimensions_match(contents(vectors@), target@) && (trials == 0 || solvable(
            contents(vectors@),
            target@,
        )) ==> result is Ok && exists|seen: Seq<Seq<usize>>|
            seen.len() == trials && (forall|i: int|
                0 <= i < seen.len() ==> is_trial_solution(
                    contents(vectors@),
                    target@,
                    #[trigger] seen[i],
                )) && lists((result->Ok_0)@) == #[trigger] records(seen),
        result is Ok ==> is_improving(contents(vectors@), target@, lists((result->Ok_0)@)),
        result is Ok ==> (result->Ok_0)@.len() <= trials,
        result is Ok && trials > 0 ==> (result->Ok_0)@.len() >= 1,
{
    if !lengths_match(vectors, target) {
        return Err(SolveError::DimensionMismatch);
    }
    let mut search = Search::new();
    let mut found: Vec<Vec<usize>> = Vec::new();
    let mut trial: usize = 0;
    let ghost mut seen: Seq<Seq<usize>> = Seq::empty();
    assert(lists(found@) =~= records(seen));
    while trial < trials
        invariant
            trial <= trials,
            dimensions_match(contents(vectors@), target@),
            are_bit_vectors(contents(vectors@)),
            is_bit_vector(target@),
            seen.len() == trial,
            forall|i: int|
                0 <= i < seen.len() ==> is_trial_solution(
                    contents(vectors@),
                    target@,
                    #[trigger] seen[i],
                ),
            lists(found@) == records(seen),
            trial > 0 ==> solvable(contents(vectors@), target@),
            found@.len() == 0 <==> search.best is None,
            found@.len() > 0 ==> search.best->Some_0 == found@[found@.len() - 1]@.len(),
        decreases trials - trial,
    {
        let picks = match solve_shuffled(vectors, target) {
            Ok(picks) => picks,
            Err(e) => {
                return Err(e);
            },
        };
        proof {
            let ghost front = seen;
            seen = seen.push(picks@);
            assert(seen.drop_last() =~= front);
            assert(seen.last() == picks@);
            if found@.len() > 0 {
                assert(lists(found@).last() == found@[found@.len() - 1]@);
            }
        }
        if search.observe(picks.len()) {
            let ghost before = found@;
            found.push(picks);
            assert(lists(found@) =~= lists(before).push(seen.last()));
        }
        trial += 1;
    }
    proof {
        lemma_records_improve(contents(vectors@), target@, seen);
    }
    Ok(found)
}

/// One round of the search over words: shuffles `words`, then finds words
/// whose digests XOR to the digest of `target_str`, as `find_solution` does
/// for the words in their new order.
pub fn find_solution_shuffled<'a>(target_str: &str, words: &mut Vec<&'a str>) -> (result: Result<
    Vec<&'a str>,
    SolveError,
>)
    ensures
        final(words)@.to_multiset() == old(words)@.to_multiset(),
        !solvable(hash_vectors(final(words)@), hash_vector(target_str)) ==> result == Err::<
            Vec<&'a str>,
            SolveError,
        >(SolveError::Inconsistent),
        solvable(hash_vectors(final(words)@), hash_vector(target_str)) ==> result is Ok && (
        result->Ok_0)@ == labels(
            final(words)@,
            canonical_solution(hash_vectors(final(words)@), hash_vector(target_str)),
        ),
        result is Ok ==> digest_xor((result->Ok_0)@) == blake3_hash(target_str.spec_bytes()),
{
    shuffle(words);
    find_solution(target_str, words.as_slice())
}

} // verus!
