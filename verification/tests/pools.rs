use craftle_solver::adversarial::{
    adversarial_guess, adversarial_trace, greedy_adversarial, largest_pool, worst_pool, Round,
};
use craftle_solver::hint::calculate_hint;
use craftle_solver::model::{Craft, Material};
use craftle_solver::pools::{assemble_pools, find_pool};

use Material::{Air, Planks, Stick, Stone};

fn single(slot: usize, item: Material) -> Craft {
    let mut craft = [Air; 9];
    craft[slot] = item;
    craft
}

#[test]
fn pools_are_disjoint_and_cover_the_candidates() {
    let answers = vec![
        single(0, Planks),
        single(1, Planks),
        single(2, Stick),
        single(0, Stone),
        single(4, Planks),
    ];
    let guess = single(0, Planks);
    let pools = assemble_pools(&guess, &answers);
    let total: usize = pools.iter().map(|p| p.answers.len()).sum();
    assert_eq!(total, answers.len());
    for answer in &answers {
        let holding = pools.iter().filter(|p| p.answers.contains(answer)).count();
        assert_eq!(holding, 1);
    }
    for pool in &pools {
        for answer in &pool.answers {
            assert_eq!(calculate_hint(answer, &guess), pool.hint);
        }
    }
}

#[test]
fn pools_keep_the_order_of_first_occurrence() {
    let answers = vec![single(1, Planks), single(0, Planks), single(4, Planks), single(2, Stick)];
    let guess = single(0, Planks);
    let pools = assemble_pools(&guess, &answers);
    assert_eq!(pools.len(), 3);
    assert_eq!(pools[0].answers, vec![single(1, Planks), single(4, Planks)]);
    assert_eq!(pools[1].answers, vec![single(0, Planks)]);
    assert_eq!(pools[2].answers, vec![single(2, Stick)]);
    assert_eq!(find_pool(&pools, &pools[1].hint), Some(1));
    assert_eq!(find_pool(&pools, &calculate_hint(&single(0, Planks), &single(0, Planks))), Some(1));
    assert_eq!(largest_pool(&pools), 0);
    assert_eq!(worst_pool(&guess, &answers), vec![single(1, Planks), single(4, Planks)]);
}

#[test]
fn no_pool_for_a_hint_that_no_candidate_earns() {
    let answers = vec![single(1, Planks), single(2, Planks)];
    let guess = single(0, Stick);
    let pools = assemble_pools(&guess, &answers);
    assert_eq!(pools.len(), 1);
    assert_eq!(find_pool(&pools, &calculate_hint(&guess, &guess)), None);
}

#[test]
fn two_candidates_that_a_guess_tells_apart_take_two_rounds() {
    let answers = vec![single(0, Planks), single(1, Stick)];
    let guesses = vec![single(4, Planks)];
    assert_eq!(greedy_adversarial(&answers, &guesses), Some(2));
}

#[test]
fn a_single_candidate_that_is_guessed_takes_one_round() {
    let answers = vec![single(0, Planks)];
    assert_eq!(greedy_adversarial(&answers, &answers), Some(1));
}

#[test]
fn a_single_candidate_that_is_not_a_guess_takes_two_rounds() {
    let answers = vec![single(0, Planks)];
    let guesses = vec![single(1, Stone)];
    assert_eq!(greedy_adversarial(&answers, &guesses), Some(2));
}

#[test]
fn candidates_that_no_guess_tells_apart_have_no_answer() {
    let answers = vec![single(0, Planks), single(1, Planks)];
    let guesses = vec![single(4, Stone)];
    assert_eq!(greedy_adversarial(&answers, &guesses), None);
}

#[test]
fn the_first_of_equally_good_guesses_is_chosen() {
    let answers = vec![single(0, Planks), single(1, Planks), single(2, Planks)];
    let guesses = vec![single(4, Stone), single(1, Planks), single(0, Planks)];
    // The first guess leaves all three together; the other two leave two.
    assert_eq!(adversarial_guess(&answers, &guesses), 1);
    // Two are left; the next guess is one of them and the adversary leaves
    // the other, which takes a third round.
    assert_eq!(greedy_adversarial(&answers, &guesses), Some(3));
}

#[test]
fn trace_records_each_round() {
    let answers = vec![single(0, Planks), single(1, Planks), single(2, Planks)];
    let guesses = vec![single(4, Stone), single(1, Planks), single(0, Planks)];
    let trace = adversarial_trace(&answers, &guesses).unwrap();
    assert_eq!(
        trace,
        vec![
            Round { candidates: 3, guess: single(1, Planks), left: 2 },
            Round { candidates: 2, guess: single(0, Planks), left: 1 },
            Round { candidates: 1, guess: single(2, Planks), left: 1 },
        ]
    );
    assert_eq!(greedy_adversarial(&answers, &guesses), Some(trace.len()));
}

#[test]
fn trace_ends_with_the_guess_of_the_last_candidate() {
    let answers = vec![single(0, Planks), single(1, Stick)];
    let guesses = vec![single(4, Planks)];
    assert_eq!(
        adversarial_trace(&answers, &guesses),
        Some(vec![
            Round { candidates: 2, guess: single(4, Planks), left: 1 },
            Round { candidates: 1, guess: single(0, Planks), left: 1 },
        ])
    );
}

#[test]
fn trace_of_a_search_that_cannot_go_on() {
    let answers = vec![single(0, Planks), single(1, Planks)];
    let guesses = vec![single(4, Stone)];
    assert_eq!(adversarial_trace(&answers, &guesses), None);
}

#[test]
fn sizes_of_a_trace_fall_until_one_is_left() {
    let mut answers = Vec::new();
    for slot in 0..9 {
        answers.push(single(slot, Planks));
        answers.push(single(slot, Stick));
    }
    let trace = adversarial_trace(&answers, &answers).unwrap();
    assert!(trace.len() <= answers.len());
    assert_eq!(trace[0].candidates, answers.len());
    for (i, round) in trace.iter().enumerate() {
        assert!(round.left == 1 || round.left < round.candidates);
        if i + 1 < trace.len() {
            assert_eq!(trace[i + 1].candidates, round.left);
        }
    }
    assert_eq!(greedy_adversarial(&answers, &answers), Some(trace.len()));
}

#[test]
fn guessing_one_of_two_candidates_takes_two_rounds() {
    let answers = vec![single(0, Planks), single(1, Stick)];
    let guesses = vec![single(0, Planks)];
    // Both pools hold one candidate; the adversary leaves the one that was
    // not guessed.
    assert_eq!(worst_pool(&guesses[0], &answers), vec![single(1, Stick)]);
    assert_eq!(greedy_adversarial(&answers, &guesses), Some(2));
    assert_eq!(greedy_adversarial(&answers, &answers), Some(2));
    let swapped = vec![single(1, Stick), single(0, Planks)];
    assert_eq!(greedy_adversarial(&swapped, &guesses), Some(2));
}

#[test]
fn among_equally_large_pools_the_green_one_is_not_left() {
    let answers = vec![single(0, Planks), single(1, Planks), single(2, Stick)];
    let pools = assemble_pools(&single(0, Planks), &answers);
    // Green, yellow and gray, one candidate each: the first that is not green.
    assert_eq!(largest_pool(&pools), 1);
    // A larger green pool is still the largest.
    let twice = vec![single(0, Planks), single(0, Planks), single(1, Planks)];
    let pools = assemble_pools(&single(0, Planks), &twice);
    assert_eq!(largest_pool(&pools), 0);
}
