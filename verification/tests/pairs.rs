use craftle_solver::model::{Craft, Material};
use craftle_solver::pairs::{best_pairs, pair_worst_size};

use Material::{Air, Planks, Stick, Stone};

fn single(slot: usize, item: Material) -> Craft {
    let mut craft = [Air; 9];
    craft[slot] = item;
    craft
}

fn candidates() -> Vec<Craft> {
    vec![
        single(0, Planks),
        single(1, Planks),
        single(2, Planks),
        single(0, Stick),
        single(1, Stick),
        single(4, Stone),
    ]
}

#[test]
fn two_guesses_split_further_than_one() {
    let answers = candidates();
    // Planks at 0 alone leaves the two sticks and the stone together; a stick
    // at 0 tells them apart, and the two other planks stay together.
    assert_eq!(pair_worst_size(&single(0, Planks), &single(0, Planks), &answers), 3);
    assert_eq!(pair_worst_size(&single(0, Planks), &single(0, Stick), &answers), 2);
    assert_eq!(pair_worst_size(&single(0, Planks), &single(1, Planks), &answers), 3);
    assert_eq!(pair_worst_size(&single(2, Planks), &single(1, Stick), &answers), 2);
    assert_eq!(pair_worst_size(&single(8, Stone), &single(7, Stone), &answers), 5);
    assert_eq!(pair_worst_size(&single(0, Planks), &single(0, Stick), &Vec::new()), 0);
}

#[test]
fn best_pairs_are_all_pairs_with_the_least_worst_size() {
    let answers = candidates();
    let guesses = vec![single(0, Planks), single(8, Stone), single(1, Planks), single(0, Stick)];
    let best = best_pairs(&answers, &guesses);
    assert_eq!(best, vec![(2, (0, 1)), (2, (0, 3)), (2, (1, 2)), (2, (2, 3))]);
    for (size, (i, j)) in &best {
        assert_eq!(*size, pair_worst_size(&guesses[*i], &guesses[*j], &answers));
    }
}

#[test]
fn ties_keep_every_pair_in_order() {
    let answers = vec![single(0, Planks), single(1, Planks)];
    let guesses = vec![single(0, Planks), single(1, Planks), single(4, Stone)];
    assert_eq!(best_pairs(&answers, &guesses), vec![(1, (0, 1)), (1, (0, 2)), (1, (1, 2))]);
}

#[test]
fn fewer_than_two_guesses_have_no_pairs() {
    let answers = candidates();
    assert!(best_pairs(&answers, &vec![single(0, Planks)]).is_empty());
    assert!(best_pairs(&answers, &Vec::new()).is_empty());
}
