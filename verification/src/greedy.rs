//! The greedy search: each round takes the guess that splits the candidates
//! most evenly, as far as the sizes of its pools tell.

use itertools::Itertools;
use vstd::prelude::*;
use vstd::relations::{sorted_by, total_ordering};
use vstd::seq_lib::lemma_sorted_unique;
use vstd::slice::slice_subrange;
use crate::adversarial::{candidates_guessable, group_sizes, lemma_candidate_splits};
use crate::hint::{all_green, calculate_hint, is_all_green, score};
use crate::model::{Color, Craft, Hint, Material};
use crate::pools::{assemble_pools, find_pool, group, lemma_group_empty, partitions, distinct_hints};

verus! {

/// The order from large to small.
pub open spec fn descending() -> spec_fn(usize, usize) -> bool {
    |a: usize, b: usize| a >= b
}

/// The sizes of the groups into which `guess` splits the candidates, from the
/// largest to the smallest.
pub open spec fn profile(guess: Seq<Material>, answers: Seq<Craft>) -> Seq<usize> {
    group_sizes(guess, answers).map_values(|size: nat| size as usize).sort_by(descending())
}

/// The entry of a profile at a position, and zero past its end.
pub open spec fn entry(profile: Seq<usize>, at: int) -> int {
    if 0 <= at < profile.len() {
        profile[at] as int
    } else {
        0
    }
}

/// Whether profile `a` is no worse than `b` from position `from` on: at the
/// first position where they differ, `a` has the smaller entry.
pub open spec fn no_worse_from(a: Seq<usize>, b: Seq<usize>, from: int) -> bool
    decreases a.len() + b.len() - from,
{
    if from < 0 || (from >= a.len() && from >= b.len()) {
        true
    } else if entry(a, from) < entry(b, from) {
        true
    } else if entry(a, from) > entry(b, from) {
        false
    } else {
        no_worse_from(a, b, from + 1)
    }
}

/// Whether profile `a` is no worse than `b`: they are compared entry by
/// entry, and the first difference decides for the smaller entry.
pub open spec fn no_worse(a: Seq<usize>, b: Seq<usize>) -> bool {
    no_worse_from(a, b, 0)
}

/// Of two profiles one is no worse than the other.
pub proof fn lemma_no_worse_total(a: Seq<usize>, b: Seq<usize>, from: int)
    requires
        from >= 0,
    ensures
        no_worse_from(a, b, from) || no_worse_from(b, a, from),
    decreases a.len() + b.len() - from,
{
    if !(from >= a.len() && from >= b.len()) && entry(a, from) == entry(b, from) {
        lemma_no_worse_total(a, b, from + 1);
    }
}

/// Being no worse carries over a profile in between.
pub proof fn lemma_no_worse_transitive(a: Seq<usize>, b: Seq<usize>, c: Seq<usize>, from: int)
    requires
        from >= 0,
        no_worse_from(a, b, from),
        no_worse_from(b, c, from),
    ensures
        no_worse_from(a, c, from),
    decreases a.len() + b.len() + c.len() - from,
{
    if !(from >= a.len() && from >= b.len() && from >= c.len()) {
        if entry(a, from) == entry(b, from) && entry(b, from) == entry(c, from) {
            lemma_no_worse_transitive(a, b, c, from + 1);
        }
    }
}

/// Whether no guess has a better profile than `guess`.
pub open spec fn is_most_informative(answers: Seq<Craft>, guesses: Seq<Craft>, guess: Craft) -> bool {
    forall|k: int|
        0 <= k < guesses.len() ==> no_worse(profile(guess@, answers), profile((#[trigger] guesses[k])@, answers))
}

/// The guesses with the best profile, in the order given.
pub open spec fn most_informative(answers: Seq<Craft>, guesses: Seq<Craft>) -> Seq<Craft> {
    guesses.filter(|guess: Craft| is_most_informative(answers, guesses, guess))
}

/// Calls [`Itertools::sorted`] on the sizes. As documented, the result holds
/// the same sizes in ascending order.
#[verifier::external_body]
fn sorted_sizes(sizes: Vec<usize>) -> (sorted: Vec<usize>)
    ensures
        sorted@.to_multiset() == sizes@.to_multiset(),
        forall|i: int, j: int| 0 <= i <= j < sorted.len() ==> sorted[i] <= sorted[j],
{
    sizes.into_iter().sorted().collect()
}

/// The sizes of the pools of `guess`, from the largest to the smallest.
pub fn profile_of(guess: &Craft, answers: &Vec<Craft>) -> (sizes: Vec<usize>)
    ensures
        sizes@ == profile(guess@, answers@),
{
    let pools = assemble_pools(guess, answers);
    let ghost wanted = group_sizes(guess@, answers@).map_values(|size: nat| size as usize);
    let mut sizes: Vec<usize> = Vec::new();
    let mut k: usize = 0;
    while k < pools.len()
        invariant
            k <= pools.len(),
            sizes.len() == k,
            forall|j: int| 0 <= j < k ==> #[trigger] sizes[j] == pools[j].answers.len(),
        decreases pools.len() - k,
    {
        sizes.push(pools[k].answers.len());
        k += 1;
    }
    assert(sizes@ =~= wanted);
    let ascending = sorted_sizes(sizes);
    let mut ordered: Vec<usize> = Vec::new();
    let mut i: usize = ascending.len();
    while i > 0
        invariant
            i <= ascending.len(),
            ordered.len() == ascending.len() - i,
            forall|j: int| 0 <= j < ordered.len() ==> #[trigger] ordered[j] == ascending[ascending.len() - 1 - j],
        decreases i,
    {
        i -= 1;
        ordered.push(ascending[i]);
    }
    proof {
        assert(ordered@ =~= ascending@.reverse());
        ascending@.lemma_reverse_to_multiset();
        assert(sorted_by(ordered@, descending()));
        assert(total_ordering(descending()));
        wanted.lemma_sort_by_ensures(descending());
        lemma_sorted_unique(ordered@, wanted.sort_by(descending()), descending());
    }
    ordered
}

/// Whether profile `a` is no worse than profile `b`.
pub fn profile_no_worse(a: &Vec<usize>, b: &Vec<usize>) -> (holds: bool)
    ensures
        holds == no_worse(a@, b@),
{
    let mut at: usize = 0;
    while at < a.len() || at < b.len()
        invariant
            no_worse(a@, b@) == no_worse_from(a@, b@, at as int),
        decreases a.len() + b.len() - at,
    {
        let left = if at < a.len() { a[at] } else { 0 };
        let right = if at < b.len() { b[at] } else { 0 };
        if left < right {
            return true;
        }
        if left > right {
            return false;
        }
        at += 1;
    }
    true
}

/// The guesses that tell the most about the candidates, each with its
/// profile: those whose profile no other guess betters, in the order given.
pub fn most_information(answers: &Vec<Craft>, guesses: &Vec<Craft>) -> (best: Vec<(Vec<usize>, Craft)>)
    requires
        answers.len() > 0,
    ensures
        best.len() == most_informative(answers@, guesses@).len(),
        forall|k: int|
            0 <= k < best.len() ==> (#[trigger] best[k]).1 == most_informative(answers@, guesses@)[k]
                && best[k].0@ == profile(best[k].1@, answers@),
        guesses.len() > 0 ==> best.len() > 0,
{
    let ghost chosen = |guess: Craft| is_most_informative(answers@, guesses@, guess);
    let mut best: Vec<(Vec<usize>, Craft)> = Vec::new();
    if guesses.len() == 0 {
        assert(guesses@.filter(chosen) =~= Seq::<Craft>::empty()) by {
            reveal(Seq::filter);
        }
        return best;
    }
    let mut profiles: Vec<Vec<usize>> = Vec::new();
    let mut i: usize = 0;
    while i < guesses.len()
        invariant
            i <= guesses.len(),
            profiles.len() == i,
            forall|k: int| 0 <= k < i ==> (#[trigger] profiles[k])@ == profile(guesses[k]@, answers@),
        decreases guesses.len() - i,
    {
        profiles.push(profile_of(&guesses[i], answers));
        i += 1;
    }
    let mut least: usize = 0;
    let mut n: usize = 1;
    proof {
        lemma_no_worse_total(profiles[0]@, profiles[0]@, 0);
    }
    while n < guesses.len()
        invariant
            1 <= n <= guesses.len(),
            least < n,
            profiles.len() == guesses.len(),
            forall|k: int| 0 <= k < n ==> no_worse(profiles[least as int]@, (#[trigger] profiles[k])@),
        decreases guesses.len() - n,
    {
        if !profile_no_worse(&profiles[least], &profiles[n]) {
            proof {
                lemma_no_worse_total(profiles[least as int]@, profiles[n as int]@, 0);
                assert forall|k: int| 0 <= k < n + 1 implies no_worse(profiles[n as int]@, (#[trigger] profiles[k])@) by {
                    if k < n {
                        lemma_no_worse_transitive(profiles[n as int]@, profiles[least as int]@, profiles[k]@, 0);
                    } else {
                        lemma_no_worse_total(profiles[n as int]@, profiles[n as int]@, 0);
                    }
                }
            }
            least = n;
        }
        n += 1;
    }
    proof {
        assert forall|k: int| 0 <= k < guesses.len() implies chosen(#[trigger] guesses[k]) == no_worse(
            profiles[k]@,
            profiles[least as int]@,
        ) by {
            if no_worse(profiles[k]@, profiles[least as int]@) {
                assert forall|j: int| 0 <= j < guesses.len() implies no_worse(
                    profile(guesses[k]@, answers@),
                    profile((#[trigger] guesses[j])@, answers@),
                ) by {
                    lemma_no_worse_transitive(profiles[k]@, profiles[least as int]@, profiles[j]@, 0);
                }
            }
            if chosen(guesses[k]) {
                assert(no_worse(profile(guesses[k]@, answers@), profile(guesses[least as int]@, answers@)));
            }
        }
        assert(guesses@.take(0).filter(chosen) =~= Seq::<Craft>::empty()) by {
            reveal(Seq::filter);
        }
    }
    let mut m: usize = 0;
    while m < guesses.len()
        invariant
            m <= guesses.len(),
            least < guesses.len(),
            profiles.len() == guesses.len(),
            chosen == |guess: Craft| is_most_informative(answers@, guesses@, guess),
            forall|k: int| 0 <= k < guesses.len() ==> (#[trigger] profiles[k])@ == profile(guesses[k]@, answers@),
            forall|k: int|
                0 <= k < guesses.len() ==> chosen(#[trigger] guesses[k]) == no_worse(
                    profiles[k]@,
                    profiles[least as int]@,
                ),
            best.len() == guesses@.take(m as int).filter(chosen).len(),
            forall|k: int|
                0 <= k < best.len() ==> (#[trigger] best[k]).1 == guesses@.take(m as int).filter(chosen)[k]
                    && best[k].0@ == profile(best[k].1@, answers@),
            m > least ==> best.len() > 0,
        decreases guesses.len() - m,
    {
        proof {
            assert(guesses@.take(m + 1) =~= guesses@.take(m as int).push(guesses[m as int]));
            guesses@.take(m as int).lemma_filter_push(guesses[m as int], chosen);
            if m == least {
                lemma_no_worse_total(profiles[m as int]@, profiles[m as int]@, 0);
            }
        }
        if profile_no_worse(&profiles[m], &profiles[least]) {
            best.push((profiles[m].clone(), guesses[m]));
        }
        m += 1;
    }
    assert(guesses@.take(m as int) =~= guesses@);
    best
}

/// What the hint of a round leaves of the candidates.
pub enum Narrowing {
    /// The hint is green throughout: the guess was the secret.
    Solved,
    /// The candidates that earn the hint, of which there is at least one.
    Remaining(Vec<Craft>),
    /// No candidate earns the hint.
    Impossible,
}

/// Keeps the candidates against which `guess` earns `hint`.
pub fn narrow(answers: &Vec<Craft>, guess: &Craft, hint: &Hint) -> (left: Narrowing)
    ensures
        match left {
            Narrowing::Solved => hint@ == all_green(),
            Narrowing::Remaining(rest) => hint@ != all_green() && rest@ == group(guess@, answers@, hint@)
                && 0 < rest.len() <= answers.len(),
            Narrowing::Impossible => hint@ != all_green() && group(guess@, answers@, hint@).len() == 0,
        },
{
    if is_all_green(hint) {
        return Narrowing::Solved;
    }
    let mut pools = assemble_pools(guess, answers);
    proof {
        lemma_group_empty(guess@, answers@, hint@);
    }
    match find_pool(&pools, hint) {
        Some(k) => {
            proof {
                assert(distinct_hints(guess@, answers@)[k as int] == hint@);
            }
            let pool = pools.swap_remove(k);
            Narrowing::Remaining(pool.answers)
        },
        None => {
            proof {
                if distinct_hints(guess@, answers@).contains(hint@) {
                    let k = choose|k: int| 0 <= k < pools.len() && distinct_hints(guess@, answers@)[k] == hint@;
                    assert(pools[k].hint@ == hint@);
                }
            }
            Narrowing::Impossible
        },
    }
}

/// The guess of a round: the next of the guesses fixed beforehand while
/// there are any, and then the first of the most informative guesses.
pub open spec fn greedy_pick(answers: Seq<Craft>, guesses: Seq<Craft>, hardcoded: Seq<Craft>) -> Craft {
    if hardcoded.len() > 0 {
        hardcoded[0]
    } else {
        most_informative(answers, guesses)[0]
    }
}

/// The guesses fixed beforehand that are left after a round.
pub open spec fn later_guesses(hardcoded: Seq<Craft>) -> Seq<Craft> {
    if hardcoded.len() > 0 {
        hardcoded.drop_first()
    } else {
        hardcoded
    }
}

/// The number of rounds the greedy search takes to name `secret`, the last
/// of them the one that guesses it: the round whose hint is green throughout,
/// or the round after the one that leaves a single candidate.
///
/// There is no number where a hint fits no candidate, and where a round
/// that is free to choose its guess leaves all of two or more candidates
/// together and so would repeat itself without end.
pub open spec fn greedy_rounds(
    answers: Seq<Craft>,
    guesses: Seq<Craft>,
    hardcoded: Seq<Craft>,
    secret: Seq<Material>,
) -> Option<nat>
    decreases answers.len() + hardcoded.len(),
{
    if answers.len() == 0 || guesses.len() == 0 {
        None
    } else {
        let guess = greedy_pick(answers, guesses, hardcoded);
        let hint = score(secret, guess@);
        let rest = group(guess@, answers, hint);
        if hint == all_green() {
            Some(1)
        } else if rest.len() == 0 {
            None
        } else if rest.len() == 1 {
            Some(2)
        } else if rest.len() < answers.len() || (hardcoded.len() > 0 && rest.len() == answers.len()) {
            match greedy_rounds(rest, guesses, later_guesses(hardcoded), secret) {
                Some(rounds) => Some(rounds + 1),
                None => None,
            }
        } else {
            None
        }
    }
}

/// The search names the secret within one round more than there are
/// candidates and guesses fixed beforehand.
pub proof fn lemma_greedy_rounds_bounded(
    answers: Seq<Craft>,
    guesses: Seq<Craft>,
    hardcoded: Seq<Craft>,
    secret: Seq<Material>,
)
    ensures
        match greedy_rounds(answers, guesses, hardcoded, secret) {
            Some(rounds) => 1 <= rounds <= answers.len() + hardcoded.len() + 1,
            None => true,
        },
    decreases answers.len() + hardcoded.len(),
{
    if answers.len() > 0 && guesses.len() > 0 {
        let guess = greedy_pick(answers, guesses, hardcoded);
        let hint = score(secret, guess@);
        let rest = group(guess@, answers, hint);
        if hint != all_green() && rest.len() > 1 && (rest.len() < answers.len() || (hardcoded.len() > 0
            && rest.len() == answers.len())) {
            lemma_greedy_rounds_bounded(rest, guesses, later_guesses(hardcoded), secret);
        }
    }
}

/// Among the first `n` guesses there is one whose profile none of them
/// betters.
proof fn lemma_least_profile(answers: Seq<Craft>, guesses: Seq<Craft>, n: int) -> (least: int)
    requires
        1 <= n <= guesses.len(),
    ensures
        0 <= least < n,
        forall|k: int|
            0 <= k < n ==> no_worse(profile(guesses[least]@, answers), profile((#[trigger] guesses[k])@, answers)),
    decreases n,
{
    let last = profile(guesses[n - 1]@, answers);
    lemma_no_worse_total(last, last, 0);
    if n == 1 {
        0
    } else {
        let before = lemma_least_profile(answers, guesses, n - 1);
        let held = profile(guesses[before]@, answers);
        lemma_no_worse_total(held, last, 0);
        if no_worse(held, last) {
            before
        } else {
            assert forall|k: int| 0 <= k < n implies no_worse(last, profile((#[trigger] guesses[k])@, answers)) by {
                if k < n - 1 {
                    lemma_no_worse_transitive(last, held, profile(guesses[k]@, answers), 0);
                }
            }
            n - 1
        }
    }
}

/// Where there are guesses, the first of the most informative is one of
/// them, and no guess has a better profile.
pub proof fn lemma_most_informative_first(answers: Seq<Craft>, guesses: Seq<Craft>)
    requires
        guesses.len() > 0,
    ensures
        most_informative(answers, guesses).len() > 0,
        guesses.contains(most_informative(answers, guesses)[0]),
        is_most_informative(answers, guesses, most_informative(answers, guesses)[0]),
{
    let chosen = |guess: Craft| is_most_informative(answers, guesses, guess);
    let least = lemma_least_profile(answers, guesses, guesses.len() as int);
    assert(chosen(guesses[least]));
    guesses.lemma_filter_contains(chosen, least);
    let best = guesses.filter(chosen);
    assert(best.contains(best[0]));
    guesses.lemma_filter_contains_rev(chosen, best[0]);
    guesses.lemma_filter_pred(chosen, 0);
}

/// The first entry of a profile is the size of a group, and no group is
/// larger.
pub proof fn lemma_profile_first(guess: Seq<Material>, answers: Seq<Craft>, hint: Seq<Color>)
    requires
        0 < answers.len() <= usize::MAX,
    ensures
        profile(guess, answers).len() > 0,
        group(guess, answers, hint).len() <= profile(guess, answers)[0],
        exists|other: Seq<Color>| #[trigger] group(guess, answers, other).len() == profile(guess, answers)[0],
{
    broadcast use vstd::seq_lib::group_to_multiset_ensures;
    let hints = distinct_hints(guess, answers);
    let sizes = group_sizes(guess, answers).map_values(|size: nat| size as usize);
    let sorted = profile(guess, answers);
    sizes.lemma_sort_by_ensures(descending());
    crate::sequences::lemma_first_occurrences(crate::pools::hints_of(guess, answers));
    assert(sorted.len() == sizes.len()) by {
        assert(sorted.to_multiset().len() == sizes.to_multiset().len());
    }
    assert forall|k: int| 0 <= k < hints.len() implies #[trigger] sizes[k] == group(guess, answers, hints[k]).len() by {
        lemma_group_empty(guess, answers, hints[k]);
    }
    assert(sizes.contains(sorted[0])) by {
        assert(sorted.to_multiset().count(sorted[0]) > 0);
    }
    let k = choose|k: int| 0 <= k < sizes.len() && sizes[k] == sorted[0];
    assert(group(guess, answers, hints[k]).len() == sorted[0]);
    lemma_group_empty(guess, answers, hint);
    if group(guess, answers, hint).len() > 0 {
        let at = choose|at: int| 0 <= at < hints.len() && hints[at] == hint;
        assert(sizes[at] == group(guess, answers, hint).len());
        assert(sizes.to_multiset().count(sizes[at]) > 0);
        assert(sorted.contains(sizes[at]));
        let i = choose|i: int| 0 <= i < sorted.len() && sorted[i] == sizes[at];
        if i > 0 {
            assert(descending()(sorted[0], sorted[i]));
        }
    }
}

/// The greedy search names the secret whenever the candidates differ from
/// each other, each of them may be guessed, and the secret is one of them.
pub proof fn lemma_greedy_succeeds(
    answers: Seq<Craft>,
    guesses: Seq<Craft>,
    hardcoded: Seq<Craft>,
    secret: Craft,
)
    requires
        answers.len() <= usize::MAX,
        candidates_guessable(answers, guesses),
        answers.contains(secret),
    ensures
        greedy_rounds(answers, guesses, hardcoded, secret@) is Some,
    decreases answers.len() + hardcoded.len(),
{
    let guess = greedy_pick(answers, guesses, hardcoded);
    let hint = score(secret@, guess@);
    let earns = |a: Craft| score(a@, guess@) == hint;
    let rest = group(guess@, answers, hint);
    let at = choose|at: int| 0 <= at < answers.len() && answers[at] == secret;
    assert(guesses.contains(answers[at]));
    assert(earns(answers[at]));
    answers.lemma_filter_contains(earns, at);
    answers.lemma_filter_len(earns);
    if hint != all_green() && rest.len() > 1 {
        if hardcoded.len() == 0 {
            lemma_most_informative_first(answers, guesses);
            let j = choose|j: int| 0 <= j < guesses.len() && guesses[j] == answers[0];
            let mine = profile(guess@, answers);
            let other = profile(answers[0]@, answers);
            assert(no_worse(mine, other));
            lemma_profile_first(guess@, answers, hint);
            lemma_profile_first(answers[0]@, answers, hint);
            let largest = choose|largest: Seq<Color>| #[trigger] group(answers[0]@, answers, largest).len() == other[0];
            lemma_candidate_splits(answers, 0, largest);
        }
        crate::sequences::lemma_filter_no_duplicates(answers, earns);
        assert forall|i: int| 0 <= i < rest.len() implies guesses.contains(#[trigger] rest[i]) by {
            assert(rest.contains(rest[i]));
            answers.lemma_filter_contains_rev(earns, rest[i]);
        }
        lemma_greedy_succeeds(rest, guesses, later_guesses(hardcoded), secret);
    }
}

/// Chooses the guess of a round: the next of the guesses fixed beforehand
/// while there are any, and then the first of the most informative guesses.
pub fn greedy_guess(answers: &Vec<Craft>, guesses: &Vec<Craft>, hardcoded: &[Craft]) -> (guess: Craft)
    requires
        answers.len() > 0,
        guesses.len() > 0,
    ensures
        guess == greedy_pick(answers@, guesses@, hardcoded@),
{
    if hardcoded.len() > 0 {
        hardcoded[0]
    } else {
        let best = most_information(answers, guesses);
        best[0].1
    }
}

/// The guesses fixed beforehand without the first, if there is one.
fn rest_of(hardcoded: &[Craft]) -> (later: &[Craft])
    ensures
        later@ == later_guesses(hardcoded@),
{
    if hardcoded.len() > 0 {
        slice_subrange(hardcoded, 1, hardcoded.len())
    } else {
        hardcoded
    }
}

/// Whether `try_guess` answers every guess with the hint that the guess
/// earns against `secret`.
pub open spec fn answers_for<F: Fn(&Craft) -> Hint>(try_guess: F, secret: Seq<Material>) -> bool {
    forall|guess: &Craft, hint: Hint| #[trigger] call_ensures(try_guess, (guess,), hint) ==> hint@ == score(secret, guess@)
}

/// Whether `rounds` is the number of rounds that the search takes to name
/// `secret`, or tells that there is none.
pub open spec fn rounds_for(
    rounds: Option<usize>,
    answers: Seq<Craft>,
    guesses: Seq<Craft>,
    hardcoded: Seq<Craft>,
    secret: Seq<Material>,
) -> bool {
    match rounds {
        Some(r) => greedy_rounds(answers, guesses, hardcoded, secret) == Some(r as nat),
        None => greedy_rounds(answers, guesses, hardcoded, secret) is None,
    }
}

/// The number of rounds as a natural number.
pub open spec fn counted(rounds: Option<usize>) -> Option<nat> {
    match rounds {
        Some(r) => Some(r as nat),
        None => None,
    }
}

/// Whether a game against `try_guess` can end with `rounds`: each round
/// hands the guess of [`greedy_pick`] to `try_guess`, and some reply that
/// `try_guess` may give leads on to `rounds` as [`plays_on`] says.
pub open spec fn plays<F: Fn(&Craft) -> Hint>(
    try_guess: F,
    answers: Seq<Craft>,
    guesses: Seq<Craft>,
    hardcoded: Seq<Craft>,
    rounds: Option<nat>,
) -> bool
    decreases answers.len() + hardcoded.len(), 1nat,
{
    if answers.len() == 0 || guesses.len() == 0 {
        rounds is None
    } else {
        exists|hint: Hint| #[trigger]
            call_ensures(try_guess, (&greedy_pick(answers, guesses, hardcoded),), hint) && plays_on(
                try_guess,
                answers,
                guesses,
                hardcoded,
                hint,
                rounds,
            )
    }
}

/// Whether a game whose first guess is answered with `hint` can end with
/// `rounds`. A green hint ends it in one round. A hint that no candidate
/// earns ends it without a number. A hint that leaves one candidate ends it
/// in two rounds. Any other hint leads to a round on the candidates that
/// earn it, unless a round that was free in its guess leaves all candidates
/// together, which ends the game without a number.
pub open spec fn plays_on<F: Fn(&Craft) -> Hint>(
    try_guess: F,
    answers: Seq<Craft>,
    guesses: Seq<Craft>,
    hardcoded: Seq<Craft>,
    hint: Hint,
    rounds: Option<nat>,
) -> bool
    decreases answers.len() + hardcoded.len(), 0nat,
{
    let guess = greedy_pick(answers, guesses, hardcoded);
    let rest = group(guess@, answers, hint@);
    if hint@ == all_green() {
        rounds == Some(1nat)
    } else if rest.len() == 0 {
        rounds is None
    } else if rest.len() == 1 {
        rounds == Some(2nat)
    } else if rest.len() < answers.len() || (hardcoded.len() > 0 && rest.len() == answers.len()) {
        match rounds {
            Some(r) => r >= 1 && plays(try_guess, rest, guesses, later_guesses(hardcoded), Some((r - 1) as nat)),
            None => plays(try_guess, rest, guesses, later_guesses(hardcoded), None),
        }
    } else {
        rounds is None
    }
}

/// Whether `try_guess` answers `guess` with nothing but green throughout.
pub open spec fn first_reply_green<F: Fn(&Craft) -> Hint>(try_guess: F, guess: Craft) -> bool {
    forall|hint: Hint| #[trigger] call_ensures(try_guess, (&guess,), hint) ==> hint@ == all_green()
}

/// Whether `try_guess` answers `guess` with nothing but hints that are not
/// green throughout and that no candidate earns.
pub open spec fn first_reply_unfit<F: Fn(&Craft) -> Hint>(try_guess: F, guess: Craft, answers: Seq<Craft>) -> bool {
    forall|hint: Hint| #[trigger]
        call_ensures(try_guess, (&guess,), hint) ==> hint@ != all_green() && group(guess@, answers, hint@).len() == 0
}

/// Whether `try_guess` has one reply to each guess.
pub open spec fn replies_fixed<F: Fn(&Craft) -> Hint>(try_guess: F) -> bool {
    forall|guess: &Craft, one: Hint, other: Hint|
        #[trigger] call_ensures(try_guess, (guess,), one) && #[trigger] call_ensures(try_guess, (guess,), other)
            ==> one@ == other@
}

/// Against a reply function with one reply to each guess, a game has one
/// outcome.
pub proof fn lemma_plays_once<F: Fn(&Craft) -> Hint>(
    try_guess: F,
    answers: Seq<Craft>,
    guesses: Seq<Craft>,
    hardcoded: Seq<Craft>,
    one: Option<nat>,
    other: Option<nat>,
)
    requires
        replies_fixed(try_guess),
        plays(try_guess, answers, guesses, hardcoded, one),
        plays(try_guess, answers, guesses, hardcoded, other),
    ensures
        one == other,
    decreases answers.len() + hardcoded.len(),
{
    if answers.len() > 0 && guesses.len() > 0 {
        let guess = greedy_pick(answers, guesses, hardcoded);
        let first = choose|hint: Hint| #[trigger]
            call_ensures(try_guess, (&guess,), hint) && plays_on(try_guess, answers, guesses, hardcoded, hint, one);
        let second = choose|hint: Hint| #[trigger]
            call_ensures(try_guess, (&guess,), hint) && plays_on(
                try_guess,
                answers,
                guesses,
                hardcoded,
                hint,
                other,
            );
        assert(first@ == second@);
        let rest = group(guess@, answers, first@);
        if first@ != all_green() && rest.len() > 1 && (rest.len() < answers.len() || (hardcoded.len() > 0
            && rest.len() == answers.len())) {
            let later = later_guesses(hardcoded);
            match (one, other) {
                (Some(r), Some(q)) => {
                    lemma_plays_once(try_guess, rest, guesses, later, Some((r - 1) as nat), Some((q - 1) as nat));
                },
                (Some(r), None) => {
                    lemma_plays_once(try_guess, rest, guesses, later, Some((r - 1) as nat), None);
                },
                (None, Some(q)) => {
                    lemma_plays_once(try_guess, rest, guesses, later, None, Some((q - 1) as nat));
                },
                (None, None) => {},
            }
        }
    }
}

/// Against a reply function that answers for a secret, a game ends as
/// [`greedy_rounds`] says for that secret.
pub proof fn lemma_plays_for_secret<F: Fn(&Craft) -> Hint>(
    try_guess: F,
    answers: Seq<Craft>,
    guesses: Seq<Craft>,
    hardcoded: Seq<Craft>,
    rounds: Option<nat>,
    secret: Seq<Material>,
)
    requires
        answers_for(try_guess, secret),
        plays(try_guess, answers, guesses, hardcoded, rounds),
    ensures
        rounds == greedy_rounds(answers, guesses, hardcoded, secret),
    decreases answers.len() + hardcoded.len(),
{
    if answers.len() > 0 && guesses.len() > 0 {
        let guess = greedy_pick(answers, guesses, hardcoded);
        let hint = choose|hint: Hint| #[trigger]
            call_ensures(try_guess, (&guess,), hint) && plays_on(try_guess, answers, guesses, hardcoded, hint, rounds);
        assert(hint@ == score(secret, guess@));
        let rest = group(guess@, answers, hint@);
        if hint@ != all_green() && rest.len() > 1 && (rest.len() < answers.len() || (hardcoded.len() > 0
            && rest.len() == answers.len())) {
            let later = later_guesses(hardcoded);
            match rounds {
                Some(r) => {
                    lemma_plays_for_secret(try_guess, rest, guesses, later, Some((r - 1) as nat), secret);
                },
                None => {
                    lemma_plays_for_secret(try_guess, rest, guesses, later, None, secret);
                },
            }
        }
    }
}

/// Plays the greedy search against whoever answers `try_guess`, the first
/// guesses being those of `hardcoded`, and counts the rounds up to the one
/// that guesses the secret: the round that is answered green throughout, or
/// the round after the one that leaves a single candidate.
///
/// Each round hands [`greedy_guess`] to `try_guess` and its reply to
/// [`narrow`]. Returns `None` where a reply fits no candidate, and where a
/// round that is free to choose its guess leaves all of two or more
/// candidates together.
pub fn modified_greedy<F: Fn(&Craft) -> Hint>(
    answers: &Vec<Craft>,
    guesses: &Vec<Craft>,
    hardcoded: &[Craft],
    try_guess: F,
) -> (rounds: Option<usize>)
    requires
        answers.len() > 0,
        guesses.len() > 0,
        answers.len() + hardcoded@.len() < usize::MAX,
        forall|guess: &Craft| call_requires(try_guess, (guess,)),
    ensures
        plays(try_guess, answers@, guesses@, hardcoded@, counted(rounds)),
        first_reply_green(try_guess, greedy_pick(answers@, guesses@, hardcoded@)) ==> rounds == Some(1usize),
        first_reply_unfit(try_guess, greedy_pick(answers@, guesses@, hardcoded@), answers@) ==> rounds is None,
        match rounds {
            Some(r) => 1 <= r <= answers.len() + hardcoded@.len() + 1,
            None => true,
        },
    decreases answers.len() + hardcoded@.len(),
{
    let guess = greedy_guess(answers, guesses, hardcoded);
    let hint = try_guess(&guess);
    assert(call_ensures(try_guess, (&guess,), hint));
    let rounds = match narrow(answers, &guess, &hint) {
        Narrowing::Solved => Some(1),
        Narrowing::Impossible => None,
        Narrowing::Remaining(rest) => {
            if rest.len() == 1 {
                Some(2)
            } else if rest.len() < answers.len() || hardcoded.len() > 0 {
                match modified_greedy(&rest, guesses, rest_of(hardcoded), try_guess) {
                    Some(r) => Some(r + 1),
                    None => None,
                }
            } else {
                None
            }
        },
    };
    assert(plays_on(try_guess, answers@, guesses@, hardcoded@, hint, counted(rounds)));
    rounds
}

/// Plays the greedy search against whoever answers `try_guess`, as
/// [`modified_greedy`] does without guesses fixed beforehand.
pub fn greedy_algorithm_against<F: Fn(&Craft) -> Hint>(answers: &Vec<Craft>, guesses: &Vec<Craft>, try_guess: F) -> (rounds: Option<usize>)
    requires
        answers.len() > 0,
        guesses.len() > 0,
        answers.len() < usize::MAX,
        forall|guess: &Craft| call_requires(try_guess, (guess,)),
    ensures
        plays(try_guess, answers@, guesses@, Seq::empty(), counted(rounds)),
        first_reply_green(try_guess, greedy_pick(answers@, guesses@, Seq::empty())) ==> rounds == Some(1usize),
        first_reply_unfit(try_guess, greedy_pick(answers@, guesses@, Seq::empty()), answers@) ==> rounds is None,
        match rounds {
            Some(r) => 1 <= r <= answers.len() + 1,
            None => true,
        },
{
    let none: Vec<Craft> = Vec::new();
    assert(none@ =~= Seq::<Craft>::empty());
    modified_greedy(answers, guesses, none.as_slice(), try_guess)
}

/// Plays the greedy search against a known secret, the first guesses being
/// those of `hardcoded`, and counts the rounds up to the one that guesses the
/// secret.
///
/// Returns `None` where a hint fits no candidate, which cannot happen with a
/// secret among the candidates, and where no guess tells the remaining
/// candidates apart.
pub fn modified_greedy_against_answer(
    answers: &Vec<Craft>,
    guesses: &Vec<Craft>,
    hardcoded: &[Craft],
    answer: &Craft,
) -> (rounds: Option<usize>)
    requires
        answers.len() > 0,
        guesses.len() > 0,
        answers.len() + hardcoded@.len() < usize::MAX,
    ensures
        rounds_for(rounds, answers@, guesses@, hardcoded@, answer@),
{
    let try_guess = |guess: &Craft| -> (hint: Hint)
        ensures
            hint@ == score(answer@, guess@),
        { calculate_hint(answer, guess) };
    assert(answers_for(try_guess, answer@));
    let rounds = modified_greedy(answers, guesses, hardcoded, try_guess);
    proof {
        lemma_plays_for_secret(try_guess, answers@, guesses@, hardcoded@, counted(rounds), answer@);
    }
    rounds
}

/// Plays the greedy search against a known secret and counts the rounds up
/// to the one that guesses the secret.
pub fn greedy_algorithm_against_answer(answers: &Vec<Craft>, guesses: &Vec<Craft>, answer: &Craft) -> (rounds: Option<usize>)
    requires
        answers.len() > 0,
        guesses.len() > 0,
        answers.len() < usize::MAX,
    ensures
        rounds_for(rounds, answers@, guesses@, Seq::empty(), answer@),
{
    let try_guess = |guess: &Craft| -> (hint: Hint)
        ensures
            hint@ == score(answer@, guess@),
        { calculate_hint(answer, guess) };
    assert(answers_for(try_guess, answer@));
    let rounds = greedy_algorithm_against(answers, guesses, try_guess);
    proof {
        lemma_plays_for_secret(try_guess, answers@, guesses@, Seq::empty(), counted(rounds), answer@);
    }
    rounds
}

} // verus!
