use craftle_solver::greedy::{
    greedy_algorithm_against, greedy_algorithm_against_answer, greedy_guess, modified_greedy,
    modified_greedy_against_answer, most_information, narrow, profile_no_worse, profile_of,
    Narrowing,
};
use craftle_solver::hint::{calculate_hint, hint_from_text};
use craftle_solver::model::{Color, Craft, Material};

use Color::{Gray, Green, Yellow};
use Material::{Air, Planks, Stick, Stone};

fn single(slot: usize, item: Material) -> Craft {
    let mut craft = [Air; 9];
    craft[slot] = item;
    craft
}

fn candidates() -> Vec<Craft> {
    vec![
        single(0, Planks),
        single(1, Planks),
        single(2, Planks),
        single(0, Stick),
        single(1, Stick),
        single(4, Stone),
    ]
}

#[test]
fn profile_lists_pool_sizes_from_large_to_small() {
    let answers = candidates();
    // Planks at slot 0: itself green, two planks elsewhere yellow, three gray.
    assert_eq!(profile_of(&single(0, Planks), &answers), vec![3, 2, 1]);
    // Stone at slot 4: itself green, everything else gray.
    assert_eq!(profile_of(&single(4, Stone), &answers), vec![5, 1]);
    // A guess that matches nothing leaves all together.
    assert_eq!(profile_of(&single(8, Material::Coal), &answers), vec![6]);
}

#[test]
fn profiles_compare_entry_by_entry() {
    assert!(profile_no_worse(&vec![3, 2, 1], &vec![3, 2, 1]));
    assert!(profile_no_worse(&vec![3, 2, 1], &vec![5, 1]));
    assert!(!profile_no_worse(&vec![5, 1], &vec![3, 2, 1]));
    assert!(profile_no_worse(&vec![3, 1, 1, 1], &vec![3, 2, 1]));
    assert!(!profile_no_worse(&vec![3, 2, 1], &vec![3, 1, 1, 1]));
    // A missing entry counts as zero.
    assert!(profile_no_worse(&vec![3], &vec![3, 1]));
    assert!(!profile_no_worse(&vec![3, 1], &vec![3]));
    assert!(profile_no_worse(&vec![], &vec![]));
}

#[test]
fn most_information_keeps_every_best_guess_in_order() {
    let answers = candidates();
    let guesses = vec![
        single(4, Stone),
        single(1, Planks),
        single(8, Material::Coal),
        single(0, Planks),
        single(0, Stick),
    ];
    let best = most_information(&answers, &guesses);
    // Planks guesses split into 3, 2, 1; the stick guess into 4, 1, 1.
    assert_eq!(
        best,
        vec![(vec![3, 2, 1], single(1, Planks)), (vec![3, 2, 1], single(0, Planks))]
    );
    assert_eq!(greedy_guess(&answers, &guesses, &[]), single(1, Planks));
    assert_eq!(greedy_guess(&answers, &guesses, &[single(4, Stone)]), single(4, Stone));
}

#[test]
fn most_information_of_no_guesses_is_empty() {
    assert!(most_information(&candidates(), &Vec::new()).is_empty());
}

#[test]
fn narrow_keeps_the_candidates_of_the_hint() {
    let answers = candidates();
    let guess = single(0, Planks);
    match narrow(&answers, &guess, &[Yellow, Gray, Gray, Gray, Gray, Gray, Gray, Gray, Gray]) {
        Narrowing::Remaining(rest) => assert_eq!(rest, vec![single(1, Planks), single(2, Planks)]),
        _ => panic!("two candidates earn this hint"),
    }
    assert!(matches!(narrow(&answers, &guess, &[Green; 9]), Narrowing::Solved));
    assert!(matches!(
        narrow(&answers, &guess, &[Gray, Green, Gray, Gray, Gray, Gray, Gray, Gray, Gray]),
        Narrowing::Impossible
    ));
}

#[test]
fn greedy_rounds_against_each_secret() {
    let answers = candidates();
    let guesses = candidates();
    // The first round guesses planks at slot 0.
    assert_eq!(greedy_algorithm_against_answer(&answers, &guesses, &single(0, Planks)), Some(1));
    // Yellow leaves planks at slots 1 and 2; the next guess is the first of them.
    assert_eq!(greedy_algorithm_against_answer(&answers, &guesses, &single(1, Planks)), Some(2));
    assert_eq!(greedy_algorithm_against_answer(&answers, &guesses, &single(2, Planks)), Some(3));
    // Gray leaves both sticks and the stone.
    assert_eq!(greedy_algorithm_against_answer(&answers, &guesses, &single(0, Stick)), Some(2));
    assert_eq!(greedy_algorithm_against_answer(&answers, &guesses, &single(1, Stick)), Some(3));
    assert_eq!(greedy_algorithm_against_answer(&answers, &guesses, &single(4, Stone)), Some(3));
}

#[test]
fn a_secret_outside_the_candidates_may_fit_no_pool() {
    let answers = vec![single(0, Planks), single(1, Planks)];
    let guesses = answers.clone();
    assert_eq!(greedy_algorithm_against_answer(&answers, &guesses, &single(4, Stone)), None);
}

#[test]
fn candidates_that_no_guess_tells_apart_stop_the_greedy_search() {
    let answers = vec![single(0, Planks), single(1, Planks)];
    let guesses = vec![single(4, Stone)];
    assert_eq!(greedy_algorithm_against_answer(&answers, &guesses, &single(0, Planks)), None);
}

#[test]
fn fixed_opening_guesses_are_played_first() {
    let answers = candidates();
    let guesses = candidates();
    let opening = [single(4, Stone), single(7, Stone)];
    // The stone is guessed at once.
    assert_eq!(modified_greedy_against_answer(&answers, &guesses, &opening, &single(4, Stone)), Some(1));
    // Neither opening guess narrows the five others; then planks at slot 0
    // is guessed in the third round.
    assert_eq!(modified_greedy_against_answer(&answers, &guesses, &opening, &single(0, Planks)), Some(3));
    assert_eq!(modified_greedy_against_answer(&answers, &guesses, &opening, &single(2, Planks)), Some(5));
    assert_eq!(
        modified_greedy_against_answer(&answers, &guesses, &[], &single(2, Planks)),
        greedy_algorithm_against_answer(&answers, &guesses, &single(2, Planks))
    );
}

#[test]
fn an_oracle_plays_like_the_secret_it_answers_for() {
    let answers = candidates();
    let guesses = candidates();
    for secret in candidates() {
        let by_oracle = greedy_algorithm_against(&answers, &guesses, |guess| calculate_hint(&secret, guess));
        assert_eq!(by_oracle, greedy_algorithm_against_answer(&answers, &guesses, &secret));
        let opening = [single(4, Stone)];
        let with_opening = modified_greedy(&answers, &guesses, &opening, |guess| calculate_hint(&secret, guess));
        assert_eq!(with_opening, modified_greedy_against_answer(&answers, &guesses, &opening, &secret));
    }
}

#[test]
fn an_oracle_that_answers_green_ends_the_search_at_once() {
    let answers = candidates();
    assert_eq!(greedy_algorithm_against(&answers, &answers, |_| [Green; 9]), Some(1));
}

#[test]
fn hint_is_read_from_letters() {
    assert_eq!(
        hint_from_text("GY-GYxGY.\n"),
        [Green, Yellow, Gray, Green, Yellow, Gray, Green, Yellow, Gray]
    );
    assert_eq!(hint_from_text("GG\n"), [Green, Green, Gray, Gray, Gray, Gray, Gray, Gray, Gray]);
    assert_eq!(hint_from_text(""), [Gray; 9]);
    assert_eq!(hint_from_text("gyGYGYGYGYGYGY"), [Gray, Gray, Green, Yellow, Green, Yellow, Green, Yellow, Green]);
}

#[test]
fn a_reply_that_no_candidate_earns_ends_the_search_without_a_number() {
    let answers = candidates();
    // Green in a slot where no candidate holds anything.
    let unfit = [Gray, Gray, Gray, Gray, Gray, Gray, Gray, Gray, Green];
    assert_eq!(greedy_algorithm_against(&answers, &answers, |_| unfit), None);
    assert_eq!(modified_greedy(&answers, &answers, &[single(4, Stone)], |_| unfit), None);
}

#[test]
fn without_fixed_guesses_both_searches_play_alike() {
    let answers = candidates();
    let guesses = candidates();
    // A reply function that is no secret's scorer: yellow wherever the guess
    // holds planks in the first row.
    let reply = |guess: &Craft| {
        let mut hint = [Gray; 9];
        for slot in 0..3 {
            if guess[slot] == Planks {
                hint[slot] = Yellow;
            }
        }
        hint
    };
    let plain = greedy_algorithm_against(&answers, &guesses, reply);
    let modified = modified_greedy(&answers, &guesses, &[], reply);
    assert_eq!(plain, modified);
    // The first guess holds planks at slot 0; yellow there leaves the planks
    // at slots 1 and 2. The next guess holds planks at slot 1; yellow there
    // leaves the planks at slot 2, which a third round guesses.
    assert_eq!(plain, Some(3));
}

#[test]
fn the_search_stops_at_the_first_green_reply() {
    let answers = candidates();
    let asked = std::cell::Cell::new(0);
    let rounds = greedy_algorithm_against(&answers, &answers, |guess| {
        asked.set(asked.get() + 1);
        assert!(answers.contains(guess));
        [Green; 9]
    });
    assert_eq!(rounds, Some(1));
    assert_eq!(asked.get(), 1);
}
