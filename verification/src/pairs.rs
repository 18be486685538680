//! Opening with two guesses: which pairs of guesses, played one after the
//! other whatever the first hint, leave the fewest candidates together.

use itertools::Itertools;
use vstd::prelude::*;
use crate::adversarial::{first_largest, is_least_key, lemma_first_largest, min_set_by_first};
use crate::hint::{calculate_hint, same_hint, score};
use crate::model::{Craft, Hint, Material};

verus! {

/// The candidates that earn the same two hints as `like` does, the first hint
/// from `first` and the second from `second`.
pub open spec fn joint_group(first: Seq<Material>, second: Seq<Material>, answers: Seq<Craft>, like: Craft) -> Seq<
    Craft,
> {
    answers.filter(
        |a: Craft| score(a@, first) == score(like@, first) && score(a@, second) == score(like@, second),
    )
}

/// For each candidate, the number of candidates that earn the same two hints.
pub open spec fn joint_sizes(first: Seq<Material>, second: Seq<Material>, answers: Seq<Craft>) -> Seq<nat> {
    answers.map_values(|like: Craft| joint_group(first, second, answers, like).len())
}

/// The largest number of candidates that two guesses leave together, and
/// zero without candidates.
pub open spec fn joint_worst(first: Seq<Material>, second: Seq<Material>, answers: Seq<Craft>) -> nat {
    let sizes = joint_sizes(first, second, answers);
    if sizes.len() == 0 {
        0
    } else {
        sizes[first_largest(sizes, sizes.len() as int)]
    }
}

/// The pairs of positions below `count`, as [`Itertools::combinations`]
/// yields them.
pub uninterp spec fn pair_combinations(count: nat) -> Seq<(usize, usize)>;

/// Whether `pairs` holds every pair of positions below `count`, the smaller
/// first, once, and nothing else.
pub open spec fn lists_pairs(pairs: Seq<(usize, usize)>, count: nat) -> bool {
    &&& forall|k: int| 0 <= k < pairs.len() ==> (#[trigger] pairs[k]).0 < pairs[k].1 < count
    &&& pairs.no_duplicates()
    &&& forall|i: usize, j: usize| i < j < count ==> pairs.contains((i, j))
}

/// Calls [`Itertools::combinations`] for the pairs of the positions
/// `0..count`. Its documentation promises all combinations of two, in a
/// reliable order that it does not state. The result is named, and stated
/// to hold every pair of two different positions below `count` once, the
/// smaller first.
#[verifier::external_body]
fn index_combinations(count: usize) -> (pairs: Vec<(usize, usize)>)
    ensures
        pairs@ == pair_combinations(count as nat),
        lists_pairs(pairs@, count as nat),
{
    (0..count).combinations(2).map(|pair| (pair[0], pair[1])).collect()
}

/// The largest number of candidates that earn the same two hints from
/// `first` and `second`.
pub fn pair_worst_size(first: &Craft, second: &Craft, answers: &Vec<Craft>) -> (size: usize)
    ensures
        size == joint_worst(first@, second@, answers@),
{
    let ghost sizes = joint_sizes(first@, second@, answers@);
    let mut once: Vec<Hint> = Vec::new();
    let mut twice: Vec<Hint> = Vec::new();
    let mut n: usize = 0;
    while n < answers.len()
        invariant
            n <= answers.len(),
            once.len() == n,
            twice.len() == n,
            forall|k: int| 0 <= k < n ==> (#[trigger] once[k])@ == score(answers[k]@, first@),
            forall|k: int| 0 <= k < n ==> (#[trigger] twice[k])@ == score(answers[k]@, second@),
        decreases answers.len() - n,
    {
        once.push(calculate_hint(&answers[n], first));
        twice.push(calculate_hint(&answers[n], second));
        n += 1;
    }
    let mut size: usize = 0;
    let mut at: usize = 0;
    let mut i: usize = 0;
    while i < answers.len()
        invariant
            i <= answers.len(),
            once.len() == answers.len(),
            twice.len() == answers.len(),
            sizes == joint_sizes(first@, second@, answers@),
            forall|k: int| 0 <= k < answers.len() ==> (#[trigger] once[k])@ == score(answers[k]@, first@),
            forall|k: int| 0 <= k < answers.len() ==> (#[trigger] twice[k])@ == score(answers[k]@, second@),
            i == 0 ==> size == 0 && at == 0,
            i > 0 ==> at == first_largest(sizes, i as int) && at < i && size == sizes[at as int],
        decreases answers.len() - i,
    {
        let ghost like = answers[i as int];
        let ghost alike = |a: Craft|
            score(a@, first@) == score(like@, first@) && score(a@, second@) == score(like@, second@);
        let mut count: usize = 0;
        let mut j: usize = 0;
        assert(answers@.take(0).filter(alike) =~= Seq::<Craft>::empty()) by {
            reveal(Seq::filter);
        }
        while j < answers.len()
            invariant
                j <= answers.len(),
                i < answers.len(),
                once.len() == answers.len(),
                twice.len() == answers.len(),
                like == answers[i as int],
                alike == |a: Craft|
                    score(a@, first@) == score(like@, first@) && score(a@, second@) == score(like@, second@),
                forall|k: int| 0 <= k < answers.len() ==> (#[trigger] once[k])@ == score(answers[k]@, first@),
                forall|k: int| 0 <= k < answers.len() ==> (#[trigger] twice[k])@ == score(answers[k]@, second@),
                count == answers@.take(j as int).filter(alike).len(),
                count <= j,
            decreases answers.len() - j,
        {
            proof {
                assert(answers@.take(j + 1) =~= answers@.take(j as int).push(answers[j as int]));
                answers@.take(j as int).lemma_filter_push(answers[j as int], alike);
            }
            if same_hint(&once[j], &once[i]) && same_hint(&twice[j], &twice[i]) {
                count += 1;
            }
            j += 1;
        }
        assert(answers@.take(j as int) =~= answers@);
        assert(sizes[i as int] == count);
        if i == 0 || count > size {
            size = count;
            at = i;
        }
        i += 1;
    }
    size
}

/// For each pair of guesses, the largest number of candidates that the
/// pair leaves together, with the position of the pair.
pub open spec fn pair_keys(answers: Seq<Craft>, guesses: Seq<Craft>) -> Seq<(usize, usize)> {
    let pairs = pair_combinations(guesses.len());
    Seq::new(
        pairs.len(),
        |k: int| (joint_worst(guesses[pairs[k].0 as int]@, guesses[pairs[k].1 as int]@, answers) as usize, k as usize),
    )
}

/// The pairs of guesses that leave the fewest candidates together: that
/// number, and the positions of the two guesses.
pub open spec fn least_pairs(answers: Seq<Craft>, guesses: Seq<Craft>) -> Seq<(usize, (usize, usize))> {
    let keys = pair_keys(answers, guesses);
    keys.filter(|key: (usize, usize)| is_least_key(keys, key.0)).map_values(
        |key: (usize, usize)| (key.0, pair_combinations(guesses.len())[key.1 as int]),
    )
}

/// Finds the best openings of two guesses: every pair of guesses for which
/// the largest number of candidates that earn the same two hints is
/// smallest, with that number.
pub fn best_pairs(answers: &Vec<Craft>, guesses: &Vec<Craft>) -> (best: Vec<(usize, (usize, usize))>)
    ensures
        best@ == least_pairs(answers@, guesses@),
        forall|k: int| 0 <= k < best.len() ==> (#[trigger] best[k]).1.0 < best[k].1.1 < guesses.len(),
{
    let pairs = index_combinations(guesses.len());
    let ghost wanted = pair_keys(answers@, guesses@);
    let mut keys: Vec<(usize, usize)> = Vec::new();
    let mut k: usize = 0;
    while k < pairs.len()
        invariant
            k <= pairs.len(),
            keys.len() == k,
            pairs@ == pair_combinations(guesses.len() as nat),
            forall|p: int| 0 <= p < pairs.len() ==> (#[trigger] pairs[p]).0 < pairs[p].1 < guesses.len(),
            forall|p: int|
                0 <= p < k ==> #[trigger] keys[p] == (
                    joint_worst(guesses[pairs[p].0 as int]@, guesses[pairs[p].1 as int]@, answers@) as usize,
                    p as usize,
                ),
        decreases pairs.len() - k,
    {
        let size = pair_worst_size(&guesses[pairs[k].0], &guesses[pairs[k].1], answers);
        keys.push((size, k));
        k += 1;
    }
    assert(keys@ =~= wanted);
    let least = min_set_by_first(keys);
    let ghost kept = least@;
    let ghost name = |key: (usize, usize)| (key.0, pair_combinations(guesses@.len())[key.1 as int]);
    proof {
        broadcast use vstd::seq_lib::group_filter_ensures;
        assert forall|p: int| 0 <= p < kept.len() implies (#[trigger] kept[p]).1 < pairs.len() by {
            assert(kept.contains(kept[p]));
            wanted.lemma_filter_contains_rev(|key: (usize, usize)| is_least_key(wanted, key.0), kept[p]);
        }
    }
    let mut best: Vec<(usize, (usize, usize))> = Vec::new();
    let mut b: usize = 0;
    while b < least.len()
        invariant
            b <= least.len(),
            best.len() == b,
            kept == least@,
            pairs@ == pair_combinations(guesses.len() as nat),
            forall|p: int| 0 <= p < kept.len() ==> (#[trigger] kept[p]).1 < pairs.len(),
            forall|p: int| 0 <= p < pairs.len() ==> (#[trigger] pairs[p]).0 < pairs[p].1 < guesses.len(),
            forall|p: int| 0 <= p < b ==> #[trigger] best[p] == (kept[p].0, pairs[kept[p].1 as int]),
        decreases least.len() - b,
    {
        best.push((least[b].0, pairs[least[b].1]));
        b += 1;
    }
    assert(best@ =~= kept.map_values(name));
    best
}

} // verus!
