//! Grouping candidate answers by the hint that a guess earns against them.

use vstd::prelude::*;
use crate::hint::{calculate_hint, same_hint, score};
use crate::model::{Color, Craft, Hint, Material};
use crate::sequences::{first_occurrences, lemma_first_occurrences, lemma_first_occurrences_push};

verus! {

/// One group of a partition: a hint, and the candidates against which the
/// guess earns it.
pub struct Pool {
    pub hint: Hint,
    pub answers: Vec<Craft>,
}

/// The hint of the guess against each candidate, in the candidates' order.
pub open spec fn hints_of(guess: Seq<Material>, answers: Seq<Craft>) -> Seq<Seq<Color>> {
    answers.map_values(|a: Craft| score(a@, guess))
}

/// The hints that occur, each once, in the order in which the candidates
/// first earn them.
pub open spec fn distinct_hints(guess: Seq<Material>, answers: Seq<Craft>) -> Seq<Seq<Color>> {
    first_occurrences(hints_of(guess, answers))
}

/// The candidates against which the guess earns `hint`, in their order.
pub open spec fn group(guess: Seq<Material>, answers: Seq<Craft>, hint: Seq<Color>) -> Seq<Craft> {
    answers.filter(|a: Craft| score(a@, guess) == hint)
}

/// Whether `pools` is the partition of `answers` by the hint of `guess`: one
/// pool for each hint that occurs, in the order of first occurrence, holding
/// exactly the candidates with that hint.
pub open spec fn partitions(pools: Seq<Pool>, guess: Seq<Material>, answers: Seq<Craft>) -> bool {
    &&& pools.len() == distinct_hints(guess, answers).len()
    &&& forall|k: int|
        0 <= k < pools.len() ==> {
            &&& (#[trigger] pools[k]).hint@ == distinct_hints(guess, answers)[k]
            &&& pools[k].answers@ == group(guess, answers, pools[k].hint@)
        }
}

/// A hint that no candidate earns has an empty group, and any other hint a
/// group with a member.
pub proof fn lemma_group_empty(guess: Seq<Material>, answers: Seq<Craft>, hint: Seq<Color>)
    ensures
        distinct_hints(guess, answers).contains(hint) <==> group(guess, answers, hint).len() > 0,
        group(guess, answers, hint).len() <= answers.len(),
    decreases answers.len(),
{
    let pred = |a: Craft| score(a@, guess) == hint;
    reveal(Seq::filter);
    lemma_first_occurrences(hints_of(guess, answers));
    if answers.len() > 0 {
        let front = answers.drop_last();
        lemma_group_empty(guess, front, hint);
        lemma_first_occurrences(hints_of(guess, front));
        assert(hints_of(guess, answers).drop_last() =~= hints_of(guess, front));
        assert(answers =~= front.push(answers.last()));
        lemma_first_occurrences_push(hints_of(guess, front), score(answers.last()@, guess));
        assert(hints_of(guess, answers) =~= hints_of(guess, front).push(score(answers.last()@, guess)));
        if pred(answers.last()) {
            assert(hints_of(guess, answers)[answers.len() - 1] == hint);
        } else if hints_of(guess, answers).contains(hint) {
            let i = choose|i: int| 0 <= i < answers.len() && hints_of(guess, answers)[i] == hint;
            assert(hints_of(guess, front)[i] == hint);
        }
    }
}

/// The groups of a partition are pairwise disjoint and together hold
/// exactly the candidates: each candidate lies in the pool of its own hint and
/// in no other, and a pool holds nothing but candidates.
pub proof fn lemma_pools_disjoint_cover(pools: Seq<Pool>, guess: Seq<Material>, answers: Seq<Craft>)
    requires
        partitions(pools, guess, answers),
    ensures
        forall|i: int|
            0 <= i < answers.len() ==> exists|k: int|
                0 <= k < pools.len() && pools[k].hint@ == score((#[trigger] answers[i])@, guess)
                    && pools[k].answers@.contains(answers[i]),
        forall|k: int, a: Craft|
            0 <= k < pools.len() && #[trigger] pools[k].answers@.contains(a) ==> answers.contains(a)
                && score(a@, guess) == pools[k].hint@,
        forall|j: int, k: int, a: Craft|
            0 <= j < pools.len() && 0 <= k < pools.len() && j != k ==> !(#[trigger] pools[j].answers@.contains(a)
                && #[trigger] pools[k].answers@.contains(a)),
        forall|j: int, k: int|
            0 <= j < pools.len() && 0 <= k < pools.len() && j != k ==> (#[trigger] pools[j]).hint@ != (#[trigger] pools[k]).hint@,
        forall|k: int| 0 <= k < pools.len() ==> 0 < (#[trigger] pools[k]).answers@.len() <= answers.len(),
{
    broadcast use vstd::seq_lib::group_filter_ensures;
    let hints = distinct_hints(guess, answers);
    lemma_first_occurrences(hints_of(guess, answers));
    assert forall|i: int| 0 <= i < answers.len() implies exists|k: int|
        0 <= k < pools.len() && pools[k].hint@ == score((#[trigger] answers[i])@, guess)
            && pools[k].answers@.contains(answers[i])
    by {
        let h = score(answers[i]@, guess);
        assert(hints_of(guess, answers)[i] == h);
        assert(hints.contains(h));
        let k = choose|k: int| 0 <= k < hints.len() && hints[k] == h;
        assert(pools[k].hint@ == h);
        let pred = |a: Craft| score(a@, guess) == h;
        assert(pred(answers[i]));
        answers.lemma_filter_contains(pred, i);
    }
    assert forall|k: int, a: Craft|
        0 <= k < pools.len() && #[trigger] pools[k].answers@.contains(a) implies answers.contains(a)
            && score(a@, guess) == pools[k].hint@
    by {
        let h = pools[k].hint@;
        let pred = |a: Craft| score(a@, guess) == h;
        let i = choose|i: int| 0 <= i < pools[k].answers@.len() && pools[k].answers@[i] == a;
        answers.lemma_filter_pred(pred, i);
        answers.lemma_filter_contains_rev(pred, a);
    }
    assert forall|k: int| 0 <= k < pools.len() implies 0 < (#[trigger] pools[k]).answers@.len() <= answers.len() by {
        assert(hints.contains(pools[k].hint@)) by {
            assert(hints[k] == pools[k].hint@);
        }
        lemma_group_empty(guess, answers, pools[k].hint@);
    }
}

/// The position of the pool that carries `hint`, if there is one.
pub fn find_pool(pools: &Vec<Pool>, hint: &Hint) -> (found: Option<usize>)
    ensures
        match found {
            Some(k) => k < pools.len() && pools[k as int].hint@ == hint@ && forall|j: int|
                0 <= j < k ==> (#[trigger] pools[j]).hint@ != hint@,
            None => forall|j: int| 0 <= j < pools.len() ==> (#[trigger] pools[j]).hint@ != hint@,
        },
{
    let mut k: usize = 0;
    while k < pools.len()
        invariant
            k <= pools.len(),
            forall|j: int| 0 <= j < k ==> (#[trigger] pools[j]).hint@ != hint@,
        decreases pools.len() - k,
    {
        if same_hint(&pools[k].hint, hint) {
            return Some(k);
        }
        k += 1;
    }
    None
}

/// Scores every candidate against `guess` and groups the candidates by the
/// hint, keeping the order of the candidates within a group and the order in
/// which the hints first occur among the groups.
pub fn assemble_pools(guess: &Craft, answers: &Vec<Craft>) -> (pools: Vec<Pool>)
    ensures
        partitions(pools@, guess@, answers@),
{
    let mut pools: Vec<Pool> = Vec::new();
    let mut n: usize = 0;
    assert(answers@.take(0) =~= Seq::<Craft>::empty());
    assert(hints_of(guess@, Seq::<Craft>::empty()) =~= Seq::empty());
    while n < answers.len()
        invariant
            n <= answers.len(),
            partitions(pools@, guess@, answers@.take(n as int)),
        decreases answers.len() - n,
    {
        let answer = answers[n];
        let hint = calculate_hint(&answer, guess);
        let ghost seen = answers@.take(n as int);
        let ghost old_pools = pools@;
        proof {
            assert(answers@.take(n + 1) =~= seen.push(answer));
            assert(hints_of(guess@, seen.push(answer)) =~= hints_of(guess@, seen).push(hint@));
            lemma_first_occurrences_push(hints_of(guess@, seen), hint@);
            lemma_first_occurrences(hints_of(guess@, seen));
            lemma_group_empty(guess@, seen, hint@);
            assert forall|h: Seq<Color>| #[trigger] group(guess@, seen.push(answer), h) == if h == hint@ {
                group(guess@, seen, h).push(answer)
            } else {
                group(guess@, seen, h)
            } by {
                seen.lemma_filter_push(answer, |a: Craft| score(a@, guess@) == h);
            }
        }
        match find_pool(&pools, &hint) {
            Some(k) => {
                proof {
                    assert(distinct_hints(guess@, seen)[k as int] == hint@);
                }
                pools[k].answers.push(answer);
            },
            None => {
                proof {
                    if distinct_hints(guess@, seen).contains(hint@) {
                        let k = choose|k: int| 0 <= k < old_pools.len() && distinct_hints(guess@, seen)[k] == hint@;
                        assert(old_pools[k].hint@ == hint@);
                    }
                    assert(group(guess@, seen, hint@) =~= Seq::empty());
                }
                let mut members: Vec<Craft> = Vec::new();
                members.push(answer);
                pools.push(Pool { hint, answers: members });
            },
        }
        n += 1;
    }
    assert(answers@.take(n as int) =~= answers@);
    pools
}

} // verus!
