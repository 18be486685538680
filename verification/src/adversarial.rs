//! The worst-case search: each round commits to the guess whose largest pool
//! is smallest, and an adversary answers with that largest pool. Among
//! equally large pools the adversary never takes the one of the green hint
//! while there is another: it does not give the secret away.

use itertools::Itertools;
use vstd::prelude::*;
use crate::hint::{all_green, is_all_green, same_craft, score};
use crate::model::{Color, Craft, Material};
use crate::pools::{assemble_pools, distinct_hints, group, lemma_group_empty, partitions, Pool};
use crate::sequences::{lemma_filter_first, lemma_first_occurrences};

verus! {

/// The sizes of the pools, in the pools' order.
pub open spec fn pool_sizes(pools: Seq<Pool>) -> Seq<nat> {
    pools.map_values(|p: Pool| p.answers@.len())
}

/// The sizes of the groups into which `guess` splits the candidates, in the
/// order in which their hints first occur.
pub open spec fn group_sizes(guess: Seq<Material>, answers: Seq<Craft>) -> Seq<nat> {
    distinct_hints(guess, answers).map_values(|h: Seq<Color>| group(guess, answers, h).len())
}

/// The position of the first largest among the first `n` sizes.
pub open spec fn first_largest(sizes: Seq<nat>, n: int) -> int
    decreases n,
{
    if n <= 1 {
        0
    } else {
        let before = first_largest(sizes, n - 1);
        if sizes[n - 1] > sizes[before] {
            n - 1
        } else {
            before
        }
    }
}

/// The position of the first smallest among the first `n` keys.
pub open spec fn first_least(keys: Seq<nat>, n: int) -> int
    decreases n,
{
    if n <= 1 {
        0
    } else {
        let before = first_least(keys, n - 1);
        if keys[n - 1] < keys[before] {
            n - 1
        } else {
            before
        }
    }
}

/// No size is larger than the first largest, and every size before it is
/// smaller.
pub proof fn lemma_first_largest(sizes: Seq<nat>, n: int)
    requires
        1 <= n <= sizes.len(),
    ensures
        0 <= first_largest(sizes, n) < n,
        forall|j: int| 0 <= j < n ==> #[trigger] sizes[j] <= sizes[first_largest(sizes, n)],
        forall|j: int| 0 <= j < first_largest(sizes, n) ==> #[trigger] sizes[j] < sizes[first_largest(sizes, n)],
    decreases n,
{
    if n > 1 {
        lemma_first_largest(sizes, n - 1);
    }
}

/// No key is smaller than the first least, and every key before it is larger.
pub proof fn lemma_first_least(keys: Seq<nat>, n: int)
    requires
        1 <= n <= keys.len(),
    ensures
        0 <= first_least(keys, n) < n,
        forall|j: int| 0 <= j < n ==> keys[first_least(keys, n)] <= #[trigger] keys[j],
        forall|j: int| 0 <= j < first_least(keys, n) ==> keys[first_least(keys, n)] < #[trigger] keys[j],
    decreases n,
{
    if n > 1 {
        lemma_first_least(keys, n - 1);
    }
}

/// The hints of the pools, in the pools' order.
pub open spec fn pool_hints(pools: Seq<Pool>) -> Seq<Seq<Color>> {
    pools.map_values(|p: Pool| p.hint@)
}

/// The position of the group that the adversary answers with, among the
/// first `n`: a largest group, and among equally large groups one whose hint
/// is not green throughout where there is one, the first of them.
pub open spec fn adversary_choice(hints: Seq<Seq<Color>>, sizes: Seq<nat>, n: int) -> int
    decreases n,
{
    if n <= 1 {
        0
    } else {
        let before = adversary_choice(hints, sizes, n - 1);
        if sizes[n - 1] > sizes[before] || (sizes[n - 1] == sizes[before] && hints[before] == all_green()) {
            n - 1
        } else {
            before
        }
    }
}

/// No group is larger than the adversary's choice, and the choice is the
/// group of the green hint only where every other group is smaller.
pub proof fn lemma_adversary_choice(hints: Seq<Seq<Color>>, sizes: Seq<nat>, n: int)
    requires
        1 <= n <= sizes.len(),
        sizes.len() == hints.len(),
        hints.no_duplicates(),
    ensures
        0 <= adversary_choice(hints, sizes, n) < n,
        forall|j: int| 0 <= j < n ==> #[trigger] sizes[j] <= sizes[adversary_choice(hints, sizes, n)],
        hints[adversary_choice(hints, sizes, n)] == all_green() ==> forall|j: int|
            0 <= j < n && j != adversary_choice(hints, sizes, n) ==> #[trigger] sizes[j] < sizes[adversary_choice(
                hints,
                sizes,
                n,
            )],
    decreases n,
{
    if n > 1 {
        lemma_adversary_choice(hints, sizes, n - 1);
    }
}

/// The hint that the adversary answers `guess` with: that of the largest
/// group into which `guess` splits the candidates. Among equally large groups
/// it is a hint other than green throughout where there is one, and of those
/// the one that occurs first.
pub open spec fn worst_hint(guess: Seq<Material>, answers: Seq<Craft>) -> Seq<Color> {
    let sizes = group_sizes(guess, answers);
    distinct_hints(guess, answers)[adversary_choice(distinct_hints(guess, answers), sizes, sizes.len() as int)]
}

/// The candidates that remain when the adversary answers `guess` with the
/// hint of the largest group.
pub open spec fn worst_group(guess: Seq<Material>, answers: Seq<Craft>) -> Seq<Craft> {
    group(guess, answers, worst_hint(guess, answers))
}

/// The size of the largest group into which `guess` splits the candidates.
pub open spec fn worst_size(guess: Seq<Material>, answers: Seq<Craft>) -> nat {
    worst_group(guess, answers).len()
}

/// For each guess, the size of its largest group.
pub open spec fn worst_sizes(answers: Seq<Craft>, guesses: Seq<Craft>) -> Seq<nat> {
    guesses.map_values(|g: Craft| worst_size(g@, answers))
}

/// The position of the guess that the search commits to: the first among
/// the guesses whose largest group is smallest.
pub open spec fn best_guess(answers: Seq<Craft>, guesses: Seq<Craft>) -> int {
    first_least(worst_sizes(answers, guesses), guesses.len() as int)
}

/// The number of rounds the search needs against an adversary, or `None`
/// where it cannot go on: a round whose best guess leaves all of two or more
/// candidates together would repeat itself without end.
///
/// A round that leaves one candidate ends the search: that candidate was the
/// guess itself, which happens with a single candidate only, or it takes one
/// more round to guess it.
pub open spec fn worst_case_rounds(answers: Seq<Craft>, guesses: Seq<Craft>) -> Option<nat>
    decreases answers.len(),
{
    if answers.len() == 0 || guesses.len() == 0 {
        None
    } else {
        let guess = guesses[best_guess(answers, guesses)];
        let rest = worst_group(guess@, answers);
        if rest.len() == 1 {
            if rest[0] == guess {
                Some(1)
            } else {
                Some(2)
            }
        } else if rest.len() < answers.len() {
            match worst_case_rounds(rest, guesses) {
                Some(rounds) => Some(rounds + 1),
                None => None,
            }
        } else {
            None
        }
    }
}

/// The largest group of a guess is never empty and never larger than the
/// candidate set.
pub proof fn lemma_worst_group_size(guess: Seq<Material>, answers: Seq<Craft>)
    requires
        answers.len() > 0,
    ensures
        0 < worst_size(guess, answers) <= answers.len(),
{
    let hints = distinct_hints(guess, answers);
    let sizes = group_sizes(guess, answers);
    lemma_first_occurrences(crate::pools::hints_of(guess, answers));
    lemma_adversary_choice(hints, sizes, sizes.len() as int);
    let k = adversary_choice(hints, sizes, sizes.len() as int);
    assert(hints.contains(hints[k]));
    lemma_group_empty(guess, answers, hints[k]);
}

/// The search ends within as many rounds as there are candidates, or within
/// two rounds where there is a single candidate; and whenever a round hands
/// on more than one candidate, it hands on fewer than it was given.
pub proof fn lemma_worst_case_bounded(answers: Seq<Craft>, guesses: Seq<Craft>)
    ensures
        match worst_case_rounds(answers, guesses) {
            Some(rounds) => 1 <= rounds && (rounds <= answers.len() || rounds == 2 && answers.len() == 1),
            None => true,
        },
    decreases answers.len(),
{
    if answers.len() > 0 && guesses.len() > 0 {
        let guess = guesses[best_guess(answers, guesses)];
        let rest = worst_group(guess@, answers);
        lemma_worst_group_size(guess@, answers);
        if 1 < rest.len() < answers.len() {
            lemma_worst_case_bounded(rest, guesses);
        }
    }
}

/// Whether every candidate is different from the others and is itself one of
/// the guesses.
pub open spec fn candidates_guessable(answers: Seq<Craft>, guesses: Seq<Craft>) -> bool {
    &&& answers.no_duplicates()
    &&& forall|i: int| 0 <= i < answers.len() ==> guesses.contains(#[trigger] answers[i])
}

/// Guessing one of two or more different candidates never leaves them all
/// together, whatever the hint.
pub proof fn lemma_candidate_splits(answers: Seq<Craft>, i: int, hint: Seq<Color>)
    requires
        answers.len() >= 2,
        answers.no_duplicates(),
        0 <= i < answers.len(),
    ensures
        group(answers[i]@, answers, hint).len() < answers.len(),
{
    let guess = answers[i];
    let earns = |a: Craft| score(a@, guess@) == hint;
    if hint == crate::hint::all_green() {
        let other = if i == 0 { 1int } else { 0int };
        crate::hint::lemma_all_green_only_same(answers[other]@, guess@);
        if answers[other]@ == guess@ {
            assert(answers[other] =~= guess);
        }
        assert(!earns(answers[other]));
        crate::sequences::lemma_filter_shorter(answers, earns, other);
    } else {
        assert(!earns(answers[i]));
        crate::sequences::lemma_filter_shorter(answers, earns, i);
    }
}

/// Whether some guess earns different hints against two of the candidates.
pub open spec fn tells_apart(candidates: Seq<Craft>, guesses: Seq<Craft>) -> bool {
    exists|k: int, i: int, j: int|
        0 <= k < guesses.len() && 0 <= i < candidates.len() && 0 <= j < candidates.len() && #[trigger] score(
            candidates[i]@,
            guesses[k]@,
        ) != #[trigger] score(candidates[j]@, guesses[k]@)
}

/// Whether, of every two or more candidates that may remain, some guess
/// tells two apart. What may remain is what a choice among the candidates
/// keeps.
pub open spec fn always_tells_apart(answers: Seq<Craft>, guesses: Seq<Craft>) -> bool {
    forall|keep: spec_fn(Craft) -> bool|
        (#[trigger] answers.filter(keep)).len() >= 2 ==> tells_apart(answers.filter(keep), guesses)
}

/// The search finds an answer whenever, of every two or more candidates
/// that may remain, some guess tells two apart.
pub proof fn lemma_worst_case_ends(answers: Seq<Craft>, guesses: Seq<Craft>)
    requires
        answers.len() > 0,
        guesses.len() > 0,
        always_tells_apart(answers, guesses),
    ensures
        worst_case_rounds(answers, guesses) is Some,
    decreases answers.len(),
{
    let at = best_guess(answers, guesses);
    let guess = guesses[at];
    let hint = worst_hint(guess@, answers);
    let rest = worst_group(guess@, answers);
    let keys = worst_sizes(answers, guesses);
    let earns = |a: Craft| score(a@, guess@) == hint;
    lemma_first_least(keys, guesses.len() as int);
    lemma_worst_group_size(guess@, answers);
    if rest.len() > 1 {
        let all = |a: Craft| true;
        crate::sequences::lemma_filter_all(answers, all);
        assert(tells_apart(answers.filter(all), guesses));
        let (k, i, j) = choose|k: int, i: int, j: int|
            0 <= k < guesses.len() && 0 <= i < answers.len() && 0 <= j < answers.len() && #[trigger] score(
                answers[i]@,
                guesses[k]@,
            ) != #[trigger] score(answers[j]@, guesses[k]@);
        let other = guesses[k];
        let reply = worst_hint(other@, answers);
        let replied = |a: Craft| score(a@, other@) == reply;
        if replied(answers[i]) {
            crate::sequences::lemma_filter_shorter(answers, replied, j);
        } else {
            crate::sequences::lemma_filter_shorter(answers, replied, i);
        }
        assert(keys[at] <= keys[k]);
        assert forall|keep: spec_fn(Craft) -> bool| (#[trigger] rest.filter(keep)).len() >= 2 implies tells_apart(
            rest.filter(keep),
            guesses,
        ) by {
            crate::sequences::lemma_filter_twice(answers, earns, keep);
            let both = |a: Craft| earns(a) && keep(a);
            assert(answers.filter(both).len() >= 2);
        }
        lemma_worst_case_ends(rest, guesses);
    }
}

/// Candidates that differ from each other and are all among the guesses can
/// always be told apart.
pub proof fn lemma_guessable_tells_apart(answers: Seq<Craft>, guesses: Seq<Craft>)
    requires
        candidates_guessable(answers, guesses),
    ensures
        always_tells_apart(answers, guesses),
{
    assert forall|keep: spec_fn(Craft) -> bool| (#[trigger] answers.filter(keep)).len() >= 2 implies tells_apart(
        answers.filter(keep),
        guesses,
    ) by {
        let kept = answers.filter(keep);
        crate::sequences::lemma_filter_no_duplicates(answers, keep);
        assert(kept.contains(kept[0]));
        answers.lemma_filter_contains_rev(keep, kept[0]);
        let at = choose|at: int| 0 <= at < answers.len() && answers[at] == kept[0];
        assert(guesses.contains(answers[at]));
        let k = choose|k: int| 0 <= k < guesses.len() && guesses[k] == kept[0];
        crate::hint::lemma_all_green_only_same(kept[1]@, kept[0]@);
        if kept[1]@ == kept[0]@ {
            assert(kept[1] =~= kept[0]);
        }
        assert(score(kept[0]@, guesses[k]@) != score(kept[1]@, guesses[k]@));
    }
}

/// The search finds an answer whenever the candidates differ from each
/// other and each of them may be guessed.
pub proof fn lemma_worst_case_succeeds(answers: Seq<Craft>, guesses: Seq<Craft>)
    requires
        answers.len() > 0,
        candidates_guessable(answers, guesses),
    ensures
        worst_case_rounds(answers, guesses) is Some,
{
    assert(guesses.contains(answers[0]));
    lemma_guessable_tells_apart(answers, guesses);
    lemma_worst_case_ends(answers, guesses);
}

/// One round is enough only for a single candidate that is itself the guess
/// of the round.
pub proof fn lemma_one_round_only_for_one(answers: Seq<Craft>, guesses: Seq<Craft>)
    requires
        worst_case_rounds(answers, guesses) == Some(1nat),
    ensures
        answers.len() == 1,
        answers[0] == guesses[best_guess(answers, guesses)],
{
    let guess = guesses[best_guess(answers, guesses)];
    let hints = distinct_hints(guess@, answers);
    let sizes = group_sizes(guess@, answers);
    let hint = worst_hint(guess@, answers);
    let earns = |a: Craft| score(a@, guess@) == hint;
    let rest = worst_group(guess@, answers);
    lemma_worst_group_size(guess@, answers);
    lemma_first_occurrences(crate::pools::hints_of(guess@, answers));
    lemma_adversary_choice(hints, sizes, sizes.len() as int);
    let at = adversary_choice(hints, sizes, sizes.len() as int);
    if 1 < rest.len() < answers.len() {
        lemma_worst_case_bounded(rest, guesses);
    }
    assert(rest.len() == 1 && rest[0] == guess);
    answers.lemma_filter_pred(earns, 0);
    assert(hint == all_green());
    assert forall|i: int| 0 <= i < answers.len() implies earns(#[trigger] answers[i]) by {
        let other = score(answers[i]@, guess@);
        assert(crate::pools::hints_of(guess@, answers)[i] == other);
        assert(hints.contains(other));
        let k = choose|k: int| 0 <= k < hints.len() && hints[k] == other;
        lemma_group_empty(guess@, answers, other);
        assert(sizes[k] == group(guess@, answers, other).len());
        assert(sizes[at] == 1);
    }
    crate::sequences::lemma_filter_all(answers, earns);
}

/// Two candidates that some guess tells apart take exactly two rounds.
pub proof fn lemma_two_candidates(answers: Seq<Craft>, guesses: Seq<Craft>, k: int)
    requires
        answers.len() == 2,
        0 <= k < guesses.len(),
        score(answers[0]@, guesses[k]@) != score(answers[1]@, guesses[k]@),
    ensures
        worst_case_rounds(answers, guesses) == Some(2nat),
{
    let keys = worst_sizes(answers, guesses);
    let at = best_guess(answers, guesses);
    let splitting = guesses[k];
    let hint = worst_hint(splitting@, answers);
    let earns = |a: Craft| score(a@, splitting@) == hint;
    if earns(answers[0]) {
        crate::sequences::lemma_filter_shorter(answers, earns, 1);
    } else {
        crate::sequences::lemma_filter_shorter(answers, earns, 0);
    }
    lemma_worst_group_size(splitting@, answers);
    assert(keys[k] == 1);
    lemma_first_least(keys, guesses.len() as int);
    assert(keys[at] <= keys[k]);
    lemma_worst_group_size(guesses[at]@, answers);
    if worst_case_rounds(answers, guesses) == Some(1nat) {
        lemma_one_round_only_for_one(answers, guesses);
    }
}

/// A single candidate that is also the only guess is found in one round.
pub proof fn lemma_last_candidate(craft: Craft)
    ensures
        worst_case_rounds(seq![craft], seq![craft]) == Some(1nat),
{
    let answers = seq![craft];
    lemma_worst_group_size(craft@, answers);
    assert(best_guess(answers, answers) == 0);
    let rest = worst_group(craft@, answers);
    broadcast use vstd::seq_lib::group_filter_ensures;
    assert(rest.len() == 1);
    assert(rest.contains(rest[0]));
    answers.lemma_filter_contains_rev(|a: Craft| score(a@, craft@) == worst_hint(craft@, answers), rest[0]);
}

/// The position of the pool that the adversary answers with: a largest
/// pool, and among equally large pools one whose hint is not green throughout
/// where there is one, the first of them.
pub fn largest_pool(pools: &Vec<Pool>) -> (at: usize)
    requires
        pools.len() > 0,
    ensures
        at == adversary_choice(pool_hints(pools@), pool_sizes(pools@), pools.len() as int),
        at < pools.len(),
{
    let mut at: usize = 0;
    let mut k: usize = 1;
    while k < pools.len()
        invariant
            1 <= k <= pools.len(),
            at < k,
            at == adversary_choice(pool_hints(pools@), pool_sizes(pools@), k as int),
        decreases pools.len() - k,
    {
        let size = pools[k].answers.len();
        let held = pools[at].answers.len();
        if size > held || (size == held && is_all_green(&pools[at].hint)) {
            at = k;
        }
        k += 1;
    }
    at
}

/// The pools of a partition have the sizes and the hints of the groups.
proof fn lemma_pool_sizes(pools: Seq<Pool>, guess: Seq<Material>, answers: Seq<Craft>)
    requires
        partitions(pools, guess, answers),
    ensures
        pool_sizes(pools) == group_sizes(guess, answers),
        pool_hints(pools) == distinct_hints(guess, answers),
{
    assert(pool_sizes(pools) =~= group_sizes(guess, answers));
    assert(pool_hints(pools) =~= distinct_hints(guess, answers));
}

/// The candidates that the adversary leaves after `guess`: its largest pool,
/// chosen among equally large pools as [`largest_pool`] says.
pub fn worst_pool(guess: &Craft, answers: &Vec<Craft>) -> (rest: Vec<Craft>)
    requires
        answers.len() > 0,
    ensures
        rest@ == worst_group(guess@, answers@),
        0 < rest.len() <= answers.len(),
{
    let mut pools = assemble_pools(guess, answers);
    proof {
        lemma_first_occurrences(crate::pools::hints_of(guess@, answers@));
        lemma_pool_sizes(pools@, guess@, answers@);
        lemma_worst_group_size(guess@, answers@);
    }
    let at = largest_pool(&pools);
    let pool = pools.swap_remove(at);
    pool.answers
}

/// Whether no pair has a smaller first component than `key`.
pub open spec fn is_least_key(pairs: Seq<(usize, usize)>, key: usize) -> bool {
    forall|i: int| 0 <= i < pairs.len() ==> key <= (#[trigger] pairs[i]).0
}

/// Calls [`Itertools::min_set_by_key`] with the first component as the key.
/// The contract states what its documentation promises: the result holds
/// every pair whose key is the least, and no other, in the order given.
#[verifier::external_body]
pub(crate) fn min_set_by_first(pairs: Vec<(usize, usize)>) -> (least: Vec<(usize, usize)>)
    ensures
        least@ == pairs@.filter(|p: (usize, usize)| is_least_key(pairs@, p.0)),
{
    pairs.into_iter().min_set_by_key(|p| p.0)
}

/// The position of the guess to commit to: the first guess whose largest
/// pool is smallest.
pub fn adversarial_guess(answers: &Vec<Craft>, guesses: &Vec<Craft>) -> (at: usize)
    requires
        answers.len() > 0,
        guesses.len() > 0,
    ensures
        at == best_guess(answers@, guesses@),
        at < guesses.len(),
{
    let mut pairs: Vec<(usize, usize)> = Vec::new();
    let mut i: usize = 0;
    while i < guesses.len()
        invariant
            i <= guesses.len(),
            answers.len() > 0,
            pairs.len() == i,
            forall|k: int|
                0 <= k < i ==> (#[trigger] pairs[k]).0 == worst_size(guesses[k]@, answers@) && pairs[k].1 == k,
        decreases guesses.len() - i,
    {
        let rest = worst_pool(&guesses[i], answers);
        pairs.push((rest.len(), i));
        i += 1;
    }
    let ghost keys = worst_sizes(answers@, guesses@);
    let ghost best = best_guess(answers@, guesses@);
    let ghost given = pairs@;
    proof {
        lemma_first_least(keys, guesses.len() as int);
        let least_key = |p: (usize, usize)| is_least_key(given, p.0);
        assert forall|k: int| 0 <= k < given.len() implies (#[trigger] given[k]).0 == keys[k] by {}
        assert(is_least_key(given, given[best].0)) by {
            assert forall|k: int| 0 <= k < given.len() implies given[best].0 <= (#[trigger] given[k]).0 by {
                assert(keys[best] <= keys[k]);
            }
        }
        assert forall|k: int| 0 <= k < best implies !least_key(#[trigger] given[k]) by {
            assert(keys[best] < keys[k]);
            assert(given[best].0 < given[k].0);
        }
        lemma_filter_first(given, least_key, best);
    }
    let least = min_set_by_first(pairs);
    least[0].1
}

/// Plays the worst case: each round commits to the guess whose largest pool
/// is smallest and goes on with that pool, until one candidate is left.
///
/// Returns the number of rounds that are enough whatever the secret is, and
/// `None` where no guess tells the remaining candidates apart.
pub fn greedy_adversarial(answers: &Vec<Craft>, guesses: &Vec<Craft>) -> (rounds: Option<usize>)
    requires
        answers.len() > 0,
        guesses.len() > 0,
    ensures
        match rounds {
            Some(r) => worst_case_rounds(answers@, guesses@) == Some(r as nat),
            None => worst_case_rounds(answers@, guesses@) is None,
        },
    decreases answers.len(),
{
    let at = adversarial_guess(answers, guesses);
    let guess = &guesses[at];
    let rest = worst_pool(guess, answers);
    if rest.len() == 1 {
        proof {
            if rest[0]@ == guess@ {
                assert(rest[0] =~= *guess);
            }
        }
        if same_craft(&rest[0], guess) {
            Some(1)
        } else {
            Some(2)
        }
    } else if rest.len() < answers.len() {
        proof {
            lemma_worst_case_bounded(rest@, guesses@);
        }
        match greedy_adversarial(&rest, guesses) {
            Some(r) => Some(r + 1),
            None => None,
        }
    } else {
        None
    }
}

/// One round of the worst case: how many candidates there were, the guess,
/// and how many candidates the adversary left.
#[derive(Debug, Clone, Copy, PartialEq, Eq)]
pub struct Round {
    pub candidates: usize,
    pub guess: Craft,
    pub left: usize,
}

/// The rounds of the worst case, one after the other. Where a single
/// candidate is left that was not the guess, a last round guesses it.
pub open spec fn worst_case_trace(answers: Seq<Craft>, guesses: Seq<Craft>) -> Seq<Round>
    decreases answers.len(),
{
    if answers.len() == 0 || guesses.len() == 0 {
        Seq::empty()
    } else {
        let guess = guesses[best_guess(answers, guesses)];
        let rest = worst_group(guess@, answers);
        let round = Round { candidates: answers.len() as usize, guess, left: rest.len() as usize };
        if rest.len() == 1 {
            if rest[0] == guess {
                seq![round]
            } else {
                seq![round, Round { candidates: 1, guess: rest[0], left: 1 }]
            }
        } else if rest.len() < answers.len() {
            seq![round] + worst_case_trace(rest, guesses)
        } else {
            seq![round]
        }
    }
}

/// Where the search finds an answer, it takes as many rounds as the trace
/// holds; each round leaves a single candidate or fewer than it was given,
/// and the next round starts from what was left.
pub proof fn lemma_trace_narrows(answers: Seq<Craft>, guesses: Seq<Craft>)
    requires
        answers.len() <= usize::MAX,
        worst_case_rounds(answers, guesses) is Some,
    ensures
        worst_case_trace(answers, guesses).len() == worst_case_rounds(answers, guesses).unwrap(),
        worst_case_trace(answers, guesses)[0].candidates == answers.len(),
        forall|i: int|
            0 <= i < worst_case_trace(answers, guesses).len() ==> {
                let round = #[trigger] worst_case_trace(answers, guesses)[i];
                0 < round.left && (round.left == 1 || round.left < round.candidates)
            },
        forall|i: int|
            0 <= i < worst_case_trace(answers, guesses).len() - 1 ==> (#[trigger] worst_case_trace(
                answers,
                guesses,
            )[i]).left == worst_case_trace(answers, guesses)[i + 1].candidates,
    decreases answers.len(),
{
    let guess = guesses[best_guess(answers, guesses)];
    let rest = worst_group(guess@, answers);
    let trace = worst_case_trace(answers, guesses);
    lemma_worst_group_size(guess@, answers);
    if 1 < rest.len() < answers.len() {
        lemma_trace_narrows(rest, guesses);
        let later = worst_case_trace(rest, guesses);
        assert forall|i: int| 0 <= i < trace.len() implies {
            let round = #[trigger] trace[i];
            0 < round.left && (round.left == 1 || round.left < round.candidates)
        } by {
            if i > 0 {
                assert(trace[i] == later[i - 1]);
            }
        }
        assert forall|i: int| 0 <= i < trace.len() - 1 implies (#[trigger] trace[i]).left == trace[i + 1].candidates by {
            if i > 0 {
                assert(trace[i] == later[i - 1]);
                assert(trace[i + 1] == later[i]);
            } else {
                assert(trace[1] == later[0]);
            }
        }
    }
}

/// Plays the worst case as [`greedy_adversarial`] does and records each
/// round.
pub fn adversarial_trace(answers: &Vec<Craft>, guesses: &Vec<Craft>) -> (trace: Option<Vec<Round>>)
    requires
        answers.len() > 0,
        guesses.len() > 0,
    ensures
        match trace {
            Some(rounds) => worst_case_rounds(answers@, guesses@) == Some(rounds.len() as nat) && rounds@
                == worst_case_trace(answers@, guesses@),
            None => worst_case_rounds(answers@, guesses@) is None,
        },
    decreases answers.len(),
{
    let at = adversarial_guess(answers, guesses);
    let guess = guesses[at];
    let rest = worst_pool(&guess, answers);
    let round = Round { candidates: answers.len(), guess, left: rest.len() };
    let mut rounds: Vec<Round> = Vec::new();
    rounds.push(round);
    if rest.len() == 1 {
        proof {
            if rest[0]@ == guess@ {
                assert(rest[0] =~= guess);
            }
        }
        if !same_craft(&rest[0], &guess) {
            rounds.push(Round { candidates: 1, guess: rest[0], left: 1 });
        }
        assert(rounds@ =~= worst_case_trace(answers@, guesses@));
        Some(rounds)
    } else if rest.len() < answers.len() {
        match adversarial_trace(&rest, guesses) {
            Some(mut later) => {
                let ghost tail = later@;
                rounds.append(&mut later);
                assert(rounds@ =~= seq![round] + tail);
                Some(rounds)
            },
            None => None,
        }
    } else {
        None
    }
}

} // verus!
