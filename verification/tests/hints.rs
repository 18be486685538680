use craftle_solver::hint::{calculate_hint, is_all_green, same_craft, same_hint};
use craftle_solver::model::{Color, Craft, Material};

use Color::{Gray, Green, Yellow};
use Material::{Air, Planks, Stick, Stone};

fn with(items: &[(usize, Material)]) -> Craft {
    let mut craft = [Air; 9];
    for (slot, item) in items {
        craft[*slot] = *item;
    }
    craft
}

#[test]
fn misplaced_item_is_yellow() {
    let answer = with(&[(0, Planks)]);
    let guess = with(&[(1, Planks)]);
    assert_eq!(
        calculate_hint(&answer, &guess),
        [Gray, Yellow, Gray, Gray, Gray, Gray, Gray, Gray, Gray]
    );
}

#[test]
fn same_craft_is_all_green() {
    let craft = [Planks, Air, Stick, Stone, Air, Planks, Stick, Stick, Air];
    assert_eq!(calculate_hint(&craft, &craft), [Green; 9]);
    assert!(is_all_green(&calculate_hint(&craft, &craft)));
}

#[test]
fn empty_craft_against_itself_is_all_green() {
    let craft = [Air; 9];
    assert_eq!(calculate_hint(&craft, &craft), [Green; 9]);
}

#[test]
fn shared_empty_slots_stay_gray_when_crafts_differ() {
    let answer = with(&[(0, Planks)]);
    let guess = with(&[(0, Stick)]);
    assert_eq!(calculate_hint(&answer, &guess), [Gray; 9]);
}

#[test]
fn exact_match_is_green_and_uses_up_the_item() {
    // The answer's only plank is matched exactly; the second plank of the
    // guess finds nothing left.
    let answer = with(&[(0, Planks)]);
    let guess = with(&[(0, Planks), (1, Planks)]);
    assert_eq!(
        calculate_hint(&answer, &guess),
        [Green, Gray, Gray, Gray, Gray, Gray, Gray, Gray, Gray]
    );
}

#[test]
fn yellows_go_to_the_leftmost_free_slots() {
    // Two misplaced planks in the answer, three in the guess: the first two
    // from the left turn yellow.
    let answer = with(&[(6, Planks), (7, Planks)]);
    let guess = with(&[(0, Planks), (2, Planks), (4, Planks)]);
    assert_eq!(
        calculate_hint(&answer, &guess),
        [Yellow, Gray, Yellow, Gray, Gray, Gray, Gray, Gray, Gray]
    );
}

#[test]
fn green_is_found_before_yellow() {
    // The plank at slot 4 is an exact match even though a plank further left
    // could have taken the answer's plank.
    let answer = with(&[(4, Planks), (8, Stick)]);
    let guess = with(&[(0, Planks), (4, Planks), (5, Stick)]);
    assert_eq!(
        calculate_hint(&answer, &guess),
        [Gray, Gray, Gray, Gray, Green, Yellow, Gray, Gray, Gray]
    );
}

#[test]
fn coloured_slots_never_exceed_the_occurrences() {
    let answer = [Planks, Planks, Stick, Air, Stone, Air, Planks, Air, Air];
    let guess = [Planks, Stick, Planks, Planks, Planks, Stone, Stone, Air, Planks];
    let hint = calculate_hint(&answer, &guess);
    assert_eq!(hint, [Green, Yellow, Yellow, Yellow, Gray, Yellow, Gray, Gray, Gray]);
    for item in [Planks, Stick, Stone] {
        let in_answer = answer.iter().filter(|m| **m == item).count();
        let in_guess = guess.iter().filter(|m| **m == item).count();
        let coloured = (0..9).filter(|i| guess[*i] == item && hint[*i] != Gray).count();
        assert!(coloured <= in_answer.min(in_guess));
    }
}

#[test]
fn crafts_and_hints_compare_slot_by_slot() {
    let a = with(&[(3, Stone)]);
    let b = with(&[(3, Stone)]);
    let c = with(&[(3, Stick)]);
    assert!(same_craft(&a, &b));
    assert!(!same_craft(&a, &c));
    assert!(same_hint(&[Gray; 9], &[Gray; 9]));
    assert!(!same_hint(&[Gray; 9], &calculate_hint(&a, &b)));
    assert!(!is_all_green(&calculate_hint(&a, &c)));
}
