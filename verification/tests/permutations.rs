use craftle_solver::model::{get_shaped_offset, Craft, Material, Recipe};
use craftle_solver::parse::material_from_str;
use craftle_solver::permutations::{
    arrange, grid_size, permutations_answer, permutations_guess, permutations_shaped,
    permutations_shaped_for, permutations_shapeless, place, shapeless_picks, sort_items,
};

use Material::{Air, Coal, Planks, Stick, Stone};

fn single(slot: usize, item: Material) -> Craft {
    let mut craft = [Air; 9];
    craft[slot] = item;
    craft
}

fn has_repetitions(crafts: &[Craft]) -> bool {
    (0..crafts.len()).any(|i| crafts[..i].contains(&crafts[i]))
}

#[test]
fn two_equal_ingredients_give_thirty_six_crafts() {
    let recipe = Recipe::Shapeless(vec![vec![Stone], vec![Stone]]);
    let crafts = permutations_guess(&recipe);
    assert_eq!(crafts.len(), 36);
    assert!(!has_repetitions(&crafts));
    for craft in &crafts {
        assert_eq!(craft.iter().filter(|m| **m == Stone).count(), 2);
        assert_eq!(craft.iter().filter(|m| **m == Air).count(), 7);
    }
}

#[test]
fn one_item_pattern_is_answered_in_the_centre_and_guessed_everywhere() {
    let recipe = Recipe::Shaped(vec![vec![vec![Stick]]]);
    let answers = permutations_answer(&recipe, get_shaped_offset);
    assert_eq!(answers, vec![single(4, Stick)]);
    let guesses = permutations_guess(&recipe);
    assert_eq!(guesses.len(), 9);
    for slot in 0..9 {
        assert!(guesses.contains(&single(slot, Stick)));
    }
}

#[test]
fn offsets_are_taken_column_by_column() {
    let grid = vec![vec![vec![Stick]]];
    let guesses = permutations_shaped(&grid);
    let slots: Vec<usize> =
        guesses.iter().map(|c| c.iter().position(|m| *m == Stick).unwrap()).collect();
    assert_eq!(slots, vec![0, 3, 6, 1, 4, 7, 2, 5, 8]);
}

#[test]
fn shapeless_recipe_has_no_answers_of_its_own() {
    let recipe = Recipe::Shapeless(vec![vec![Stone]]);
    assert_eq!(permutations_answer(&recipe, get_shaped_offset), Vec::<Craft>::new());
}

#[test]
fn column_pattern_is_answered_in_the_leftmost_column() {
    let recipe = Recipe::Shaped(vec![vec![vec![Planks]], vec![vec![Stick]]]);
    let answers = permutations_answer(&recipe, get_shaped_offset);
    assert_eq!(answers, vec![[Planks, Air, Air, Stick, Air, Air, Air, Air, Air]]);
    assert_eq!(permutations_guess(&recipe).len(), 6);
}

#[test]
fn canonical_offsets() {
    assert_eq!(get_shaped_offset((1, 1)), (1, 1));
    assert_eq!(get_shaped_offset((1, 2)), (0, 0));
    assert_eq!(get_shaped_offset((1, 3)), (0, 0));
    for width in 2..=3 {
        for height in 1..=3 {
            assert_eq!(get_shaped_offset((width, height)), (0, 0));
        }
    }
}

#[test]
fn interchangeable_items_multiply_the_crafts() {
    let grid = vec![vec![vec![Planks, Stone], vec![Stick]]];
    let crafts = permutations_shaped_for(&grid, (1, 2));
    assert_eq!(
        crafts,
        vec![
            [Air, Air, Air, Air, Air, Air, Air, Planks, Stick],
            [Air, Air, Air, Air, Air, Air, Air, Stone, Stick],
        ]
    );
    assert_eq!(permutations_shaped(&grid).len(), 2 * 3 * 2);
}

#[test]
fn repeated_items_of_a_group_give_one_craft() {
    let grid = vec![vec![vec![Coal, Coal]]];
    assert_eq!(permutations_shaped_for(&grid, (0, 0)), vec![single(0, Coal)]);
}

#[test]
fn width_is_the_shortest_row() {
    let grid = vec![vec![vec![Planks], vec![Stone]], vec![vec![Stick]]];
    assert_eq!(grid_size(&grid), (1, 2));
    assert_eq!(grid_size(&Vec::new()), (0, 0));
    // Items are taken from the positions row by row, `width` to a row.
    assert_eq!(
        permutations_shaped_for(&grid, (0, 0)),
        vec![[Planks, Air, Air, Stone, Air, Air, Air, Air, Air]]
    );
}

#[test]
fn an_ingredient_without_items_gives_no_crafts() {
    let shaped = Recipe::Shaped(vec![vec![vec![Planks], vec![]]]);
    assert!(permutations_guess(&shaped).is_empty());
    let shapeless = Recipe::Shapeless(vec![vec![Planks], vec![]]);
    assert!(permutations_guess(&shapeless).is_empty());
}

#[test]
fn no_ingredients_give_the_empty_craft() {
    assert_eq!(permutations_shapeless(&Vec::new()), vec![[Air; 9]]);
}

#[test]
fn more_than_nine_ingredients_give_no_crafts() {
    let ingredients = vec![vec![Stone]; 10];
    assert!(permutations_shapeless(&ingredients).is_empty());
}

#[test]
fn shapeless_choices_are_sorted_before_they_are_placed() {
    // Both orders of picking give the same sorted choice, so each pair of
    // slots is filled in both directions once.
    let ingredients = vec![vec![Stick, Planks], vec![Planks, Stick]];
    let crafts = permutations_shapeless(&ingredients);
    assert!(!has_repetitions(&crafts));
    // Planks twice: 36, sticks twice: 36, one of each: 72.
    assert_eq!(crafts.len(), 36 + 36 + 72);
    assert_eq!(crafts[0], [Planks, Stick, Air, Air, Air, Air, Air, Air, Air]);
}

#[test]
fn items_sort_by_their_order_of_declaration() {
    assert_eq!(sort_items(&vec![Stick, Air, Stone, Planks, Stone]), vec![Air, Planks, Stone, Stone, Stick]);
    assert_eq!(sort_items(&Vec::new()), Vec::<Material>::new());
    let mut all = vec![Material::Leather, Material::String, Material::Quartz, Coal, Air];
    all.sort();
    assert_eq!(sort_items(&vec![Material::Quartz, Air, Material::Leather, Coal, Material::String]), all);
}

#[test]
fn place_and_arrange_fill_the_named_slots() {
    assert_eq!(
        place(&vec![Planks, Stick], &vec![8, 0]),
        [Stick, Air, Air, Air, Air, Air, Air, Air, Planks]
    );
    assert_eq!(
        arrange(&vec![Planks, Stick, Stone, Coal], (2, 2), (1, 1)),
        [Air, Air, Air, Air, Planks, Stick, Air, Stone, Coal]
    );
}

#[test]
fn names_of_the_vocabulary() {
    assert_eq!(material_from_str("minecraft:air"), Some(Air));
    assert_eq!(material_from_str("minecraft:oak_planks"), Some(Planks));
    assert_eq!(material_from_str("minecraft:cobblestone"), Some(Material::Cobblestone));
    assert_eq!(material_from_str("minecraft:stone"), Some(Stone));
    assert_eq!(material_from_str("minecraft:glass"), Some(Material::Glass));
    assert_eq!(material_from_str("minecraft:white_wool"), Some(Material::Wool));
    assert_eq!(material_from_str("minecraft:stick"), Some(Stick));
    assert_eq!(material_from_str("minecraft:coal"), Some(Coal));
    assert_eq!(material_from_str("minecraft:diamond"), Some(Material::Diamond));
    assert_eq!(material_from_str("minecraft:gold_ingot"), Some(Material::GoldIngot));
    assert_eq!(material_from_str("minecraft:iron_ingot"), Some(Material::IronIngot));
    assert_eq!(material_from_str("minecraft:redstone"), Some(Material::Redstone));
    assert_eq!(material_from_str("minecraft:quartz"), Some(Material::Quartz));
    assert_eq!(material_from_str("minecraft:oak_slab"), Some(Material::Slab));
    assert_eq!(material_from_str("minecraft:oak_log"), Some(Material::Log));
    assert_eq!(material_from_str("minecraft:iron_nugget"), Some(Material::IronNugget));
    assert_eq!(material_from_str("minecraft:redstone_torch"), Some(Material::RedstoneTorch));
    assert_eq!(material_from_str("minecraft:string"), Some(Material::String));
    assert_eq!(material_from_str("minecraft:leather"), Some(Material::Leather));
}

#[test]
fn names_outside_the_vocabulary() {
    assert_eq!(material_from_str("minecraft:birch_planks"), None);
    assert_eq!(material_from_str("stick"), None);
    assert_eq!(material_from_str(""), None);
    assert_eq!(material_from_str("minecraft:Stick"), None);
}

#[test]
fn default_item_is_the_unfilled_slot() {
    assert_eq!(Material::default(), Air);
    assert_eq!(Air.index(), 0);
    assert_eq!(Material::Leather.index(), 18);
}

#[test]
fn shapeless_picks_are_sorted_and_distinct() {
    let ingredients = vec![vec![Stick, Planks], vec![Planks, Stick]];
    // Stick and planks, in either order of picking, is one choice.
    assert_eq!(
        shapeless_picks(&ingredients),
        vec![vec![Planks, Stick], vec![Stick, Stick], vec![Planks, Planks]]
    );
    assert_eq!(shapeless_picks(&Vec::new()), vec![Vec::<Material>::new()]);
    assert!(shapeless_picks(&vec![vec![Stone], vec![]]).is_empty());
}

fn ways_to_pick(n: usize, k: usize) -> usize {
    if k > n {
        return 0;
    }
    (0..k).fold(1, |ways, i| ways * (n - i) / (i + 1))
}

#[test]
fn equal_ingredients_fill_each_choice_of_slots_once() {
    for count in 0..=6 {
        let crafts = permutations_shapeless(&vec![vec![Coal]; count]);
        assert_eq!(crafts.len(), ways_to_pick(9, count));
        assert!(!has_repetitions(&crafts));
        for craft in &crafts {
            assert_eq!(craft.iter().filter(|m| **m == Coal).count(), count);
            assert_eq!(craft.iter().filter(|m| **m == Air).count(), 9 - count);
        }
    }
}

#[test]
fn nine_equal_ingredients_fill_the_grid() {
    assert_eq!(permutations_shapeless(&vec![vec![Coal]; 9]), vec![[Coal; 9]]);
}
