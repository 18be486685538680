//! Expanding a recipe into the crafts it can be guessed or answered as.

use itertools::Itertools;
use vstd::prelude::*;
use vstd::relations::{sorted_by, total_ordering};
use vstd::seq_lib::lemma_sorted_unique;
use crate::fillings::{holds_fillings, lemma_equal_ingredients, same_groups};
use crate::model::{Craft, Ingredient, Material, Recipe};
use crate::sequences::first_occurrences;

verus! {

/// The order of items by rank.
pub open spec fn rank_order() -> spec_fn(Material, Material) -> bool {
    |a: Material, b: Material| a.rank() <= b.rank()
}

/// The items in ascending order of rank.
pub open spec fn sorted_items(items: Seq<Material>) -> Seq<Material> {
    items.sort_by(rank_order())
}

/// Sorts the items by rank, ascending.
pub fn sort_items(items: &Vec<Material>) -> (sorted: Vec<Material>)
    ensures
        sorted@ == sorted_items(items@),
        sorted.len() == items.len(),
{
    let mut sorted: Vec<Material> = Vec::new();
    let mut n: usize = 0;
    assert(items@.take(0) =~= Seq::<Material>::empty());
    while n < items.len()
        invariant
            n <= items.len(),
            sorted.len() == n,
            sorted@.to_multiset() == items@.take(n as int).to_multiset(),
            sorted_by(sorted@, rank_order()),
        decreases items.len() - n,
    {
        let item = items[n];
        let mut at: usize = 0;
        while at < sorted.len() && sorted[at].index() <= item.index()
            invariant
                at <= sorted.len(),
                forall|k: int| 0 <= k < at ==> (#[trigger] sorted@[k]).rank() <= item.rank(),
            decreases sorted.len() - at,
        {
            at += 1;
        }
        let ghost before = sorted@;
        sorted.insert(at, item);
        proof {
            assert(items@.take(n + 1) =~= items@.take(n as int).push(item));
            vstd::seq_lib::to_multiset_build(items@.take(n as int), item);
            vstd::seq_lib::to_multiset_insert(before, at as int, item);
            assert(sorted@ == before.insert(at as int, item));
            assert forall|i: int, j: int| 0 <= i < j < sorted@.len() implies rank_order()(sorted@[i], sorted@[j]) by {
                if i < at && j > at {
                    assert(rank_order()(before[i], before[j - 1]));
                } else if i > at {
                    assert(rank_order()(before[i - 1], before[j - 1]));
                } else if j < at {
                    assert(rank_order()(before[i], before[j]));
                } else if i == at {
                    assert(rank_order()(before[at as int], before[j - 1]));
                }
            }
        }
        n += 1;
    }
    proof {
        assert(items@.take(n as int) =~= items@);
        assert(total_ordering(rank_order()));
        items@.lemma_sort_by_ensures(rank_order());
        lemma_sorted_unique(sorted@, sorted_items(items@), rank_order());
    }
    sorted
}

/// Every way to pick one item from each group, in the order in which the
/// picks from the last group change fastest. No group gives one empty pick.
pub open spec fn product(groups: Seq<Seq<Material>>) -> Seq<Seq<Material>>
    decreases groups.len(),
{
    if groups.len() == 0 {
        seq![Seq::empty()]
    } else {
        let tails = product(groups.drop_first());
        groups.first().flat_map(|head: Material| tails.map_values(|tail: Seq<Material>| seq![head] + tail))
    }
}

/// The selections of `count` of the slots `0..slots`, in the order in which
/// [`Itertools::permutations`] yields them.
pub uninterp spec fn slot_permutations(slots: nat, count: nat) -> Seq<Seq<usize>>;

/// Whether `selection` names `count` different slots below `slots`, in some
/// order.
pub open spec fn is_selection(selection: Seq<usize>, slots: nat, count: nat) -> bool {
    &&& selection.len() == count
    &&& selection.no_duplicates()
    &&& forall|j: int| 0 <= j < selection.len() ==> #[trigger] selection[j] < slots
}

/// Whether `orders` holds every selection of `count` different slots below
/// `slots` once, and nothing else.
pub open spec fn lists_selections(orders: Seq<Seq<usize>>, slots: nat, count: nat) -> bool {
    &&& forall|i: int| 0 <= i < orders.len() ==> is_selection(#[trigger] orders[i], slots, count)
    &&& orders.no_duplicates()
    &&& forall|selection: Seq<usize>| is_selection(selection, slots, count) ==> orders.contains(selection)
}

/// The craft that holds the first `n` items, each in its slot, and is
/// unfilled elsewhere.
pub open spec fn placed_upto(items: Seq<Material>, slots: Seq<usize>, n: int) -> Seq<Material>
    decreases n,
{
    if n <= 0 {
        Seq::new(9, |slot: int| Material::Air)
    } else {
        placed_upto(items, slots, n - 1).update(slots[n - 1] as int, items[n - 1])
    }
}

/// The craft that holds each item in its slot and is unfilled elsewhere.
pub open spec fn placed(items: Seq<Material>, slots: Seq<usize>) -> Seq<Material> {
    placed_upto(items, slots, items.len() as int)
}

/// The crafts that hold `items` in each of the `orders`.
pub open spec fn placements(items: Seq<Material>, orders: Seq<Seq<usize>>) -> Seq<Seq<Material>> {
    orders.map_values(|slots: Seq<usize>| placed(items, slots))
}

/// The distinct choices of one item per ingredient, each sorted, in the
/// order in which they first occur.
pub open spec fn shapeless_choices(groups: Seq<Seq<Material>>) -> Seq<Seq<Material>> {
    first_occurrences(product(groups).map_values(|pick: Seq<Material>| sorted_items(pick)))
}

/// The crafts of a recipe whose ingredients may go into any slots: every
/// distinct choice of one item per ingredient, sorted, in every choice of
/// slots, without repetitions.
pub open spec fn shapeless_crafts(groups: Seq<Seq<Material>>) -> Seq<Seq<Material>> {
    let picks = shapeless_choices(groups);
    let orders = slot_permutations(9, groups.len());
    first_occurrences(picks.flat_map(|pick: Seq<Material>| placements(pick, orders)))
}

/// Calls [`Itertools::multi_cartesian_product`] on the groups. The contract
/// states what its documentation shows: every pick of one item per group, the
/// last group changing fastest, and a single empty pick for no groups.
#[verifier::external_body]
fn item_combinations(groups: &Vec<&Ingredient>) -> (picks: Vec<Vec<Material>>)
    ensures
        picks.deep_view() == product(groups.deep_view()),
{
    groups.iter().map(|group| group.iter().copied()).multi_cartesian_product().collect()
}

/// Calls [`Itertools::permutations`] on the slot numbers `0..slots`. Its
/// documentation promises all selections of `count` of them, each of that
/// length and none with a slot twice, without fixing their order. The result
/// is named, and stated to hold every selection of `count` different slots
/// once: the slots of the range differ, so no selection comes twice. More
/// slots than a grid has are left out, as their selections would not fit
/// into memory.
#[verifier::external_body]
fn slot_orders(slots: usize, count: usize) -> (orders: Vec<Vec<usize>>)
    requires
        slots <= 9,
    ensures
        orders.deep_view() == slot_permutations(slots as nat, count as nat),
        lists_selections(orders.deep_view(), slots as nat, count as nat),
{
    (0..slots).permutations(count).collect()
}

/// Calls [`Itertools::unique`] on lists of items, which compares them item by
/// item. As documented, each list stays where it occurs first and later
/// repetitions are dropped.
#[verifier::external_body]
fn distinct_picks(picks: Vec<Vec<Material>>) -> (kept: Vec<Vec<Material>>)
    ensures
        kept.deep_view() == first_occurrences(picks.deep_view()),
{
    picks.into_iter().unique().collect()
}

/// Calls [`Itertools::unique`] on crafts, which compares them slot by slot.
/// As documented, each craft stays where it occurs first and later
/// repetitions are dropped.
#[verifier::external_body]
fn distinct_crafts(crafts: Vec<Craft>) -> (kept: Vec<Craft>)
    ensures
        kept.deep_view() == first_occurrences(crafts.deep_view()),
{
    crafts.into_iter().unique().collect()
}

/// The flattened sequence holds exactly the members of the rows.
pub proof fn lemma_flatten_members<T>(rows: Seq<Seq<T>>)
    ensures
        forall|x: T|
            #[trigger] rows.flatten().contains(x) <==> exists|r: int|
                0 <= r < rows.len() && (#[trigger] rows[r]).contains(x),
    decreases rows.len(),
{
    if rows.len() > 0 {
        let first = rows.first();
        let rest = rows.drop_first();
        let flat = rows.flatten();
        lemma_flatten_members(rest);
        assert(flat == first + rest.flatten());
        assert forall|x: T| #[trigger] flat.contains(x) <==> exists|r: int|
            0 <= r < rows.len() && (#[trigger] rows[r]).contains(x)
        by {
            if flat.contains(x) {
                let i = choose|i: int| 0 <= i < flat.len() && flat[i] == x;
                if i < first.len() {
                    assert(first[i] == x);
                    assert(rows[0].contains(x));
                } else {
                    assert(rest.flatten()[i - first.len()] == x);
                    assert(rest.flatten().contains(x));
                    let r = choose|r: int| 0 <= r < rest.len() && (#[trigger] rest[r]).contains(x);
                    assert(rows[r + 1] == rest[r]);
                    assert(rows[r + 1].contains(x));
                }
            }
            if exists|r: int| 0 <= r < rows.len() && (#[trigger] rows[r]).contains(x) {
                let r = choose|r: int| 0 <= r < rows.len() && (#[trigger] rows[r]).contains(x);
                if r == 0 {
                    let c = choose|c: int| 0 <= c < first.len() && first[c] == x;
                    assert(flat[c] == x);
                } else {
                    assert(rest[r - 1] == rows[r]);
                    assert(rest[r - 1].contains(x));
                    assert(rest.flatten().contains(x));
                    let i = choose|i: int| 0 <= i < rest.flatten().len() && rest.flatten()[i] == x;
                    assert(flat[first.len() + i] == x);
                }
            }
        }
    }
}

/// A pick holds one item from each group, in the groups' order.
pub proof fn lemma_product_members(groups: Seq<Seq<Material>>, pick: Seq<Material>)
    ensures
        product(groups).contains(pick) <==> pick.len() == groups.len() && forall|g: int|
            0 <= g < groups.len() ==> (#[trigger] groups[g]).contains(pick[g]),
    decreases groups.len(),
{
    if groups.len() == 0 {
        assert(product(groups)[0] == Seq::<Material>::empty());
        if pick.len() == 0 {
            assert(pick =~= Seq::<Material>::empty());
        }
    } else {
        let rest = groups.drop_first();
        let tails = product(rest);
        let extend = |head: Material| tails.map_values(|tail: Seq<Material>| seq![head] + tail);
        let rows = groups.first().map_values(extend);
        lemma_flatten_members(rows);
        let fits = pick.len() == groups.len() && forall|g: int|
            0 <= g < groups.len() ==> (#[trigger] groups[g]).contains(pick[g]);
        if product(groups).contains(pick) {
            let r = choose|r: int| 0 <= r < rows.len() && (#[trigger] rows[r]).contains(pick);
            let c = choose|c: int| 0 <= c < rows[r].len() && rows[r][c] == pick;
            let tail = tails[c];
            assert(tails.contains(tail));
            lemma_product_members(rest, tail);
            assert(pick == seq![groups[0][r]] + tail);
            assert forall|g: int| 0 <= g < groups.len() implies (#[trigger] groups[g]).contains(pick[g]) by {
                if g > 0 {
                    assert(rest[g - 1] == groups[g]);
                    assert(pick[g] == tail[g - 1]);
                } else {
                    assert(groups[0][r] == pick[0]);
                }
            }
        }
        if fits {
            let tail = pick.drop_first();
            lemma_product_members(rest, tail);
            assert forall|g: int| 0 <= g < rest.len() implies (#[trigger] rest[g]).contains(tail[g]) by {
                assert(rest[g] == groups[g + 1]);
                assert(tail[g] == pick[g + 1]);
            }
            assert(tails.contains(tail));
            let c = choose|c: int| 0 <= c < tails.len() && tails[c] == tail;
            let r = choose|r: int| 0 <= r < groups[0].len() && groups[0][r] == pick[0];
            assert(pick =~= seq![pick[0]] + tail);
            assert(rows[r][c] == pick);
            assert(rows[r].contains(pick));
        }
    }
}

/// Puts each item into its slot of an otherwise unfilled craft.
pub fn place(items: &Vec<Material>, slots: &Vec<usize>) -> (craft: Craft)
    requires
        items.len() == slots.len(),
        forall|j: int| 0 <= j < slots.len() ==> #[trigger] slots[j] < 9,
    ensures
        craft@ == placed(items@, slots@),
{
    let mut craft = [Material::Air; 9];
    assert(craft@ =~= placed_upto(items@, slots@, 0));
    let mut n: usize = 0;
    while n < items.len()
        invariant
            n <= items.len(),
            items.len() == slots.len(),
            forall|j: int| 0 <= j < slots.len() ==> #[trigger] slots[j] < 9,
            craft@ == placed_upto(items@, slots@, n as int),
        decreases items.len() - n,
    {
        craft[slots[n]] = items[n];
        n += 1;
    }
    craft
}

/// A list of items is its own deep view.
pub proof fn lemma_items_deep_view(items: Vec<Material>)
    ensures
        items.deep_view() == items@,
{
    assert(items.deep_view() =~= items@);
}

/// The slots of a craft are its own deep view.
pub proof fn lemma_craft_deep_view(craft: Craft)
    ensures
        craft.deep_view() == craft@,
{
    assert(craft.deep_view() =~= craft@);
}

/// The distinct choices of one item per ingredient: every choice is sorted,
/// and a choice that occurred before is dropped.
pub fn shapeless_picks(ingredients: &Vec<Ingredient>) -> (kept: Vec<Vec<Material>>)
    ensures
        kept.deep_view() == shapeless_choices(ingredients.deep_view()),
        forall|k: int| 0 <= k < kept.len() ==> (#[trigger] kept[k]).len() == ingredients.len(),
{
    let ghost groups = ingredients.deep_view();
    let mut borrowed: Vec<&Ingredient> = Vec::new();
    let mut g: usize = 0;
    while g < ingredients.len()
        invariant
            g <= ingredients.len(),
            borrowed.len() == g,
            forall|k: int| 0 <= k < g ==> *(#[trigger] borrowed[k]) == ingredients[k],
        decreases ingredients.len() - g,
    {
        borrowed.push(&ingredients[g]);
        g += 1;
    }
    assert(borrowed.deep_view() =~= groups);
    let picks = item_combinations(&borrowed);

    let ghost sort = |pick: Seq<Material>| sorted_items(pick);
    let mut sorted: Vec<Vec<Material>> = Vec::new();
    let mut p: usize = 0;
    while p < picks.len()
        invariant
            p <= picks.len(),
            sorted.len() == p,
            picks.deep_view() == product(groups),
            groups.len() == ingredients.len(),
            forall|k: int| 0 <= k < p ==> (#[trigger] sorted[k])@ == sorted_items(picks[k]@),
            forall|k: int| 0 <= k < p ==> (#[trigger] sorted[k]).len() == ingredients.len(),
        decreases picks.len() - p,
    {
        proof {
            lemma_items_deep_view(picks[p as int]);
            assert(product(groups)[p as int] == picks[p as int]@);
            assert(product(groups).contains(picks[p as int]@));
            lemma_product_members(groups, picks[p as int]@);
        }
        let ordered = sort_items(&picks[p]);
        sorted.push(ordered);
        p += 1;
    }
    proof {
        assert forall|k: int| 0 <= k < sorted.len() implies #[trigger] sorted.deep_view()[k] == sort(product(groups)[k]) by {
            lemma_items_deep_view(sorted[k]);
            lemma_items_deep_view(picks[k]);
            assert(product(groups)[k] == picks.deep_view()[k]);
        }
        assert(sorted.deep_view() =~= product(groups).map_values(sort));
    }
    let ghost all_sorted = sorted.deep_view();
    let ghost sorted_lists = sorted@;
    let kept = distinct_picks(sorted);
    let ghost chosen = kept.deep_view();
    proof {
        crate::sequences::lemma_first_occurrences(all_sorted);
        assert forall|k: int| 0 <= k < kept.len() implies (#[trigger] kept[k]).len() == ingredients.len() by {
            lemma_items_deep_view(kept[k]);
            assert(chosen[k] == kept[k]@);
            assert(chosen.contains(chosen[k]));
            assert(all_sorted.contains(chosen[k]));
            let at = choose|at: int| 0 <= at < all_sorted.len() && all_sorted[at] == chosen[k];
            lemma_items_deep_view(sorted_lists[at]);
            assert(all_sorted[at] == sorted_lists[at]@);
        }
    }
    kept
}

/// The crafts of a recipe whose ingredients may go into any slots.
///
/// Every choice of one item per ingredient is sorted and the repeated
/// choices are dropped; each remaining choice is placed into every selection
/// of as many slots, and repeated crafts are dropped.
///
/// Where every ingredient admits one and the same item, the crafts are the
/// fillings of as many slots with that item, one for each choice of the
/// slots.
pub fn permutations_shapeless(ingredients: &Vec<Ingredient>) -> (crafts: Vec<Craft>)
    ensures
        crafts.deep_view() == shapeless_crafts(ingredients.deep_view()),
        forall|item: Material|
            item != Material::Air && ingredients.deep_view() == #[trigger] same_groups(
                item,
                ingredients.len() as nat,
            ) ==> holds_fillings(crafts.deep_view(), item, ingredients.len() as nat),
{
    let orders = slot_orders(9, ingredients.len());
    proof {
        assert forall|k: int| 0 <= k < orders.len() implies (#[trigger] orders[k]).len() == ingredients.len() by {
            assert(is_selection(orders.deep_view()[k], 9, ingredients.len() as nat));
        }
        assert forall|k: int, j: int| 0 <= k < orders.len() && 0 <= j < orders[k].len() implies #[trigger] orders[k][j]
            < 9 by {
            assert(is_selection(orders.deep_view()[k], 9, ingredients.len() as nat));
            assert(orders.deep_view()[k][j] == orders[k][j]);
        }
    }
    let kept = shapeless_picks(ingredients);
    let ghost chosen = kept.deep_view();
    let ghost ways = orders.deep_view();
    let ghost spread = |pick: Seq<Material>| placements(pick, ways);

    let mut crafts: Vec<Craft> = Vec::new();
    let mut i: usize = 0;
    assert(chosen.take(0).flat_map(spread) =~= Seq::<Seq<Material>>::empty());
    assert(crafts.deep_view() =~= Seq::<Seq<Material>>::empty());
    while i < kept.len()
        invariant
            i <= kept.len(),
            chosen == kept.deep_view(),
            ways == orders.deep_view(),
            spread == |pick: Seq<Material>| placements(pick, ways),
            forall|k: int| 0 <= k < kept.len() ==> (#[trigger] kept[k]).len() == ingredients.len(),
            forall|k: int| 0 <= k < orders.len() ==> (#[trigger] orders[k]).len() == ingredients.len(),
            forall|k: int, j: int| 0 <= k < orders.len() && 0 <= j < orders[k].len() ==> #[trigger] orders[k][j] < 9,
            crafts.deep_view() == chosen.take(i as int).flat_map(spread),
        decreases kept.len() - i,
    {
        let ghost done = crafts.deep_view();
        let ghost pick = chosen[i as int];
        let mut j: usize = 0;
        assert(ways.take(0) =~= Seq::<Seq<usize>>::empty());
        assert(done + placements(pick, ways.take(0)) =~= done);
        while j < orders.len()
            invariant
                j <= orders.len(),
                i < kept.len(),
                chosen == kept.deep_view(),
                ways == orders.deep_view(),
                pick == chosen[i as int],
                kept[i as int].len() == ingredients.len(),
                forall|k: int| 0 <= k < orders.len() ==> (#[trigger] orders[k]).len() == ingredients.len(),
                forall|k: int, j: int| 0 <= k < orders.len() && 0 <= j < orders[k].len() ==> #[trigger] orders[k][j] < 9,
                crafts.deep_view() == done + placements(pick, ways.take(j as int)),
            decreases orders.len() - j,
        {
            let ghost before = crafts.deep_view();
            let craft = place(&kept[i], &orders[j]);
            crafts.push(craft);
            proof {
                lemma_items_deep_view(kept[i as int]);
                lemma_craft_deep_view(craft);
                assert(orders[j as int].deep_view() =~= orders[j as int]@);
                assert(ways.take(j + 1) =~= ways.take(j as int).push(ways[j as int]));
                assert(placements(pick, ways.take(j + 1)) =~= placements(pick, ways.take(j as int)).push(craft@));
                assert(crafts.deep_view() =~= before.push(craft@));
                assert(crafts.deep_view() =~= done + placements(pick, ways.take(j + 1)));
            }
            j += 1;
        }
        proof {
            assert(ways.take(j as int) =~= ways);
            chosen.lemma_flat_map_take_append(spread, i as int);
        }
        i += 1;
    }
    assert(chosen.take(i as int) =~= chosen);
    proof {
        assert forall|item: Material|
            item != Material::Air && ingredients.deep_view() == #[trigger] same_groups(
                item,
                ingredients.len() as nat,
            ) implies holds_fillings(shapeless_crafts(ingredients.deep_view()), item, ingredients.len() as nat) by {
            lemma_equal_ingredients(item, ingredients.len() as nat);
        }
    }
    distinct_crafts(crafts)
}

/// The width of a pattern: the length of its shortest row, and zero for a
/// pattern without rows.
pub open spec fn grid_width(grid: Seq<Seq<Seq<Material>>>) -> nat
    decreases grid.len(),
{
    if grid.len() == 0 {
        0
    } else if grid.len() == 1 {
        grid[0].len()
    } else {
        let above = grid_width(grid.drop_last());
        if grid.last().len() < above {
            grid.last().len()
        } else {
            above
        }
    }
}

/// No row is shorter than the width.
pub proof fn lemma_grid_width(grid: Seq<Seq<Seq<Material>>>)
    ensures
        forall|r: int| 0 <= r < grid.len() ==> grid_width(grid) <= (#[trigger] grid[r]).len(),
    decreases grid.len(),
{
    if grid.len() > 1 {
        lemma_grid_width(grid.drop_last());
        assert forall|r: int| 0 <= r < grid.len() implies grid_width(grid) <= (#[trigger] grid[r]).len() by {
            if r < grid.len() - 1 {
                assert(grid.drop_last()[r] == grid[r]);
            }
        }
    }
}

/// Rows of at least `width` members hold at least `width` members per row
/// when flattened.
proof fn lemma_flatten_covers<T>(rows: Seq<Seq<T>>, width: nat)
    requires
        forall|r: int| 0 <= r < rows.len() ==> width <= (#[trigger] rows[r]).len(),
    ensures
        width * rows.len() <= rows.flatten().len(),
    decreases rows.len(),
{
    if rows.len() > 0 {
        let rest = rows.drop_first();
        assert forall|r: int| 0 <= r < rest.len() implies width <= (#[trigger] rest[r]).len() by {
            assert(rest[r] == rows[r + 1]);
        }
        lemma_flatten_covers(rest, width);
        assert(width <= rows[0].len());
        assert(width * rows.len() == width * rest.len() + width) by (nonlinear_arith)
            requires
                rows.len() == rest.len() + 1,
        ;
    } else {
        assert(width * rows.len() == 0) by (nonlinear_arith)
            requires
                rows.len() == 0,
        ;
    }
}

/// The craft of a pattern of the given `(width, height)` whose top-left
/// corner stands at `offset`, a `(column, row)`: the slot of column `x` and
/// row `y` of the pattern holds item `x + y * width`, and the slots outside
/// the pattern are unfilled.
pub open spec fn shaped_craft(items: Seq<Material>, size: (int, int), offset: (int, int)) -> Seq<Material> {
    Seq::new(
        9,
        |slot: int|
            {
                let x = slot % 3 - offset.0;
                let y = slot / 3 - offset.1;
                if 0 <= x < size.0 && 0 <= y < size.1 {
                    items[x + y * size.0]
                } else {
                    Material::Air
                }
            },
    )
}

/// The crafts of a pattern at one offset: one for every choice of an item
/// for each position of the pattern, without repetitions.
pub open spec fn shaped_crafts(grid: Seq<Seq<Seq<Material>>>, offset: (int, int)) -> Seq<Seq<Material>> {
    let size = (grid_width(grid) as int, grid.len() as int);
    first_occurrences(
        product(grid.flatten()).map_values(|pick: Seq<Material>| shaped_craft(pick, size, offset)),
    )
}

/// The pairs `(x, y)` with `x` below `columns` and `y` below `rows`, the
/// second changing fastest.
pub open spec fn grid_points(columns: nat, rows: nat) -> Seq<(usize, usize)> {
    Seq::new(columns * rows, |k: int| ((k / rows as int) as usize, (k % rows as int) as usize))
}

/// The crafts of a pattern at every offset at which it fits into the grid,
/// without repetitions.
pub open spec fn shaped_guesses(grid: Seq<Seq<Seq<Material>>>) -> Seq<Seq<Material>> {
    let offsets = grid_points((4 - grid_width(grid)) as nat, (4 - grid.len()) as nat);
    first_occurrences(
        offsets.flat_map(|offset: (usize, usize)| shaped_crafts(grid, (offset.0 as int, offset.1 as int))),
    )
}

/// Calls [`Itertools::cartesian_product`] on the ranges `0..columns` and
/// `0..rows`. As its documentation shows, the pairs come with the second
/// component changing fastest.
#[verifier::external_body]
fn index_pairs(columns: usize, rows: usize) -> (pairs: Vec<(usize, usize)>)
    requires
        columns * rows <= usize::MAX,
    ensures
        pairs@ == grid_points(columns as nat, rows as nat),
{
    Itertools::cartesian_product(0..columns, 0..rows).collect()
}

/// The `(width, height)` of a pattern: the length of its shortest row and the
/// number of its rows.
pub fn grid_size(grid: &Vec<Vec<Ingredient>>) -> (size: (usize, usize))
    ensures
        size.0 == grid_width(grid.deep_view()),
        size.1 == grid.len(),
{
    if grid.len() == 0 {
        return (0, 0);
    }
    let ghost rows = grid.deep_view();
    let mut width = grid[0].len();
    let mut r: usize = 1;
    assert(rows.take(1)[0].len() == grid[0].len());
    while r < grid.len()
        invariant
            1 <= r <= grid.len(),
            rows == grid.deep_view(),
            width == grid_width(rows.take(r as int)),
        decreases grid.len() - r,
    {
        proof {
            assert(rows.take(r + 1).drop_last() =~= rows.take(r as int));
            assert(rows.take(r + 1).last().len() == grid[r as int].len());
        }
        if grid[r].len() < width {
            width = grid[r].len();
        }
        r += 1;
    }
    assert(rows.take(r as int) =~= rows);
    (width, grid.len())
}

/// The positions of a pattern, row by row.
fn pattern_cells(grid: &Vec<Vec<Ingredient>>) -> (cells: Vec<&Ingredient>)
    ensures
        cells.deep_view() == grid.deep_view().flatten(),
{
    let ghost rows = grid.deep_view();
    let mut cells: Vec<&Ingredient> = Vec::new();
    let mut r: usize = 0;
    assert(rows.take(0).flatten() =~= Seq::<Seq<Material>>::empty());
    assert(cells.deep_view() =~= Seq::<Seq<Material>>::empty());
    while r < grid.len()
        invariant
            r <= grid.len(),
            rows == grid.deep_view(),
            cells.deep_view() == rows.take(r as int).flatten(),
        decreases grid.len() - r,
    {
        let ghost done = cells.deep_view();
        let row = &grid[r];
        let mut c: usize = 0;
        assert(done + rows[r as int].take(0) =~= done);
        while c < row.len()
            invariant
                c <= row.len(),
                r < grid.len(),
                rows == grid.deep_view(),
                row == grid[r as int],
                cells.deep_view() == done + rows[r as int].take(c as int),
            decreases row.len() - c,
        {
            let ghost before = cells.deep_view();
            cells.push(&row[c]);
            proof {
                assert(cells.deep_view() =~= before.push(row[c as int].deep_view()));
                assert(rows[r as int].take(c + 1) =~= rows[r as int].take(c as int).push(row[c as int].deep_view()));
            }
            c += 1;
        }
        proof {
            assert(rows[r as int].take(c as int) =~= rows[r as int]);
            assert(rows.take(r + 1) =~= rows.take(r as int).push(rows[r as int]));
            rows.take(r as int).lemma_flatten_push(rows[r as int]);
        }
        r += 1;
    }
    assert(rows.take(r as int) =~= rows);
    cells
}

/// Lays the items of a pattern out on the grid, the pattern's top-left
/// corner at `offset`.
pub fn arrange(items: &Vec<Material>, size: (usize, usize), offset: (usize, usize)) -> (craft: Craft)
    requires
        size.0 * size.1 <= items.len(),
        offset.0 + size.0 <= 3,
        offset.1 + size.1 <= 3,
    ensures
        craft@ == shaped_craft(items@, (size.0 as int, size.1 as int), (offset.0 as int, offset.1 as int)),
{
    let ghost wanted = shaped_craft(items@, (size.0 as int, size.1 as int), (offset.0 as int, offset.1 as int));
    let mut craft = [Material::Air; 9];
    let mut slot: usize = 0;
    while slot < 9
        invariant
            slot <= 9,
            size.0 * size.1 <= items.len(),
            offset.0 + size.0 <= 3,
            offset.1 + size.1 <= 3,
            wanted == shaped_craft(items@, (size.0 as int, size.1 as int), (offset.0 as int, offset.1 as int)),
            forall|k: int| 0 <= k < slot ==> craft@[k] == wanted[k],
            forall|k: int| slot <= k < 9 ==> craft@[k] == Material::Air,
        decreases 9 - slot,
    {
        let column = slot % 3;
        let row = slot / 3;
        if column >= offset.0 && column - offset.0 < size.0 && row >= offset.1 && row - offset.1 < size.1 {
            let x = column - offset.0;
            let y = row - offset.1;
            assert(x + y * size.0 < size.0 * size.1) by (nonlinear_arith)
                requires
                    0 <= x < size.0,
                    0 <= y < size.1,
            ;
            assert(y * size.0 <= 6) by (nonlinear_arith)
                requires
                    0 <= y <= 2,
                    0 <= size.0 <= 3,
            ;
            craft[slot] = items[x + y * size.0];
        }
        slot += 1;
    }
    assert(craft@ =~= wanted);
    craft
}

/// The crafts of a pattern whose top-left corner stands at `offset`, a
/// `(column, row)`: one for every choice of an item for each position of the
/// pattern, without repetitions.
pub fn permutations_shaped_for(grid: &Vec<Vec<Ingredient>>, offset: (usize, usize)) -> (crafts: Vec<Craft>)
    requires
        offset.0 + grid_width(grid.deep_view()) <= 3,
        offset.1 + grid.len() <= 3,
    ensures
        crafts.deep_view() == shaped_crafts(grid.deep_view(), (offset.0 as int, offset.1 as int)),
{
    let ghost rows = grid.deep_view();
    let size = grid_size(grid);
    let cells = pattern_cells(grid);
    let picks = item_combinations(&cells);
    let ghost lay = |pick: Seq<Material>| shaped_craft(pick, (size.0 as int, size.1 as int), (offset.0 as int, offset.1 as int));
    proof {
        lemma_grid_width(rows);
        lemma_flatten_covers(rows, size.0 as nat);
    }
    let mut crafts: Vec<Craft> = Vec::new();
    let mut p: usize = 0;
    while p < picks.len()
        invariant
            p <= picks.len(),
            crafts.len() == p,
            picks.deep_view() == product(rows.flatten()),
            size.0 * size.1 <= rows.flatten().len(),
            offset.0 + size.0 <= 3,
            offset.1 + size.1 <= 3,
            lay == |pick: Seq<Material>| shaped_craft(pick, (size.0 as int, size.1 as int), (offset.0 as int, offset.1 as int)),
            forall|k: int| 0 <= k < p ==> (#[trigger] crafts[k])@ == lay(picks[k]@),
        decreases picks.len() - p,
    {
        proof {
            lemma_items_deep_view(picks[p as int]);
            assert(product(rows.flatten())[p as int] == picks[p as int]@);
            assert(product(rows.flatten()).contains(picks[p as int]@));
            lemma_product_members(rows.flatten(), picks[p as int]@);
        }
        let craft = arrange(&picks[p], size, offset);
        crafts.push(craft);
        p += 1;
    }
    proof {
        assert forall|k: int| 0 <= k < crafts.len() implies #[trigger] crafts.deep_view()[k] == lay(product(rows.flatten())[k]) by {
            lemma_craft_deep_view(crafts[k]);
            lemma_items_deep_view(picks[k]);
            assert(product(rows.flatten())[k] == picks.deep_view()[k]);
        }
        assert(crafts.deep_view() =~= product(rows.flatten()).map_values(lay));
    }
    distinct_crafts(crafts)
}

/// The crafts of a pattern at every offset at which it fits into the grid,
/// the offsets taken column by column, without repetitions.
pub fn permutations_shaped(grid: &Vec<Vec<Ingredient>>) -> (crafts: Vec<Craft>)
    requires
        grid_width(grid.deep_view()) <= 3,
        grid.len() <= 3,
    ensures
        crafts.deep_view() == shaped_guesses(grid.deep_view()),
{
    let ghost rows = grid.deep_view();
    let size = grid_size(grid);
    let columns = 4 - size.0;
    let lines = 4 - size.1;
    assert(columns * lines <= 16) by (nonlinear_arith)
        requires
            0 <= columns <= 4,
            0 <= lines <= 4,
    ;
    let offsets = index_pairs(columns, lines);
    let ghost at = |offset: (usize, usize)| shaped_crafts(rows, (offset.0 as int, offset.1 as int));
    let mut crafts: Vec<Craft> = Vec::new();
    let mut k: usize = 0;
    assert(offsets@.take(0).flat_map(at) =~= Seq::<Seq<Material>>::empty());
    assert(crafts.deep_view() =~= Seq::<Seq<Material>>::empty());
    while k < offsets.len()
        invariant
            k <= offsets.len(),
            rows == grid.deep_view(),
            offsets@ == grid_points(columns as nat, lines as nat),
            columns == 4 - grid_width(rows),
            lines == 4 - grid.len(),
            1 <= columns <= 4,
            1 <= lines <= 4,
            at == |offset: (usize, usize)| shaped_crafts(rows, (offset.0 as int, offset.1 as int)),
            crafts.deep_view() == offsets@.take(k as int).flat_map(at),
        decreases offsets.len() - k,
    {
        let offset = offsets[k];
        proof {
            vstd::arithmetic::div_mod::lemma_multiply_divide_lt(k as int, lines as int, columns as int);
            assert(columns as nat * lines as nat == lines * columns) by (nonlinear_arith);
        }
        let ghost before = crafts.deep_view();
        let mut more = permutations_shaped_for(grid, offset);
        let ghost added = more.deep_view();
        crafts.append(&mut more);
        proof {
            assert(crafts.deep_view() =~= before + added);
            offsets@.lemma_flat_map_take_append(at, k as int);
        }
        k += 1;
    }
    assert(offsets@.take(k as int) =~= offsets@);
    distinct_crafts(crafts)
}

/// The crafts that a recipe can be guessed as.
pub open spec fn guess_crafts(recipe: Recipe) -> Seq<Seq<Material>> {
    match recipe {
        Recipe::Shaped(grid) => shaped_guesses(grid.deep_view()),
        Recipe::Shapeless(ingredients) => shapeless_crafts(ingredients.deep_view()),
    }
}

/// Whether a recipe fits into the grid: a pattern is at most three wide and
/// three high.
pub open spec fn fits_grid(recipe: Recipe) -> bool {
    match recipe {
        Recipe::Shaped(grid) => grid_width(grid.deep_view()) <= 3 && grid.len() <= 3,
        Recipe::Shapeless(_) => true,
    }
}

/// The crafts that a recipe can be guessed as: a pattern at every offset at
/// which it fits, a list of ingredients in every choice of slots.
pub fn permutations_guess(recipe: &Recipe) -> (crafts: Vec<Craft>)
    requires
        fits_grid(*recipe),
    ensures
        crafts.deep_view() == guess_crafts(*recipe),
        forall|item: Material|
            item != Material::Air && *recipe is Shapeless && recipe->Shapeless_0.deep_view() == #[trigger] same_groups(
                item,
                recipe->Shapeless_0.len() as nat,
            ) ==> holds_fillings(crafts.deep_view(), item, recipe->Shapeless_0.len() as nat),
{
    match recipe {
        Recipe::Shaped(grid) => permutations_shaped(grid),
        Recipe::Shapeless(ingredients) => permutations_shapeless(ingredients),
    }
}

/// The crafts that a pattern can be the secret as: those at the one offset
/// that `location` gives for the pattern's `(width, height)`. A list of
/// ingredients has none here; its crafts are those of
/// [`permutations_shapeless`].
pub fn permutations_answer<F: Fn((usize, usize)) -> (usize, usize)>(recipe: &Recipe, location: F) -> (crafts: Vec<Craft>)
    requires
        match *recipe {
            Recipe::Shaped(grid) => {
                let size = (grid_width(grid.deep_view()) as usize, grid.len());
                &&& grid_width(grid.deep_view()) <= usize::MAX
                &&& call_requires(location, (size,))
                &&& forall|offset: (usize, usize)| #[trigger]
                    call_ensures(location, (size,), offset) ==> offset.0 + size.0 <= 3 && offset.1 + size.1 <= 3
            },
            Recipe::Shapeless(_) => true,
        },
    ensures
        match *recipe {
            Recipe::Shaped(grid) => exists|offset: (usize, usize)|
                {
                    &&& #[trigger] call_ensures(location, ((grid_width(grid.deep_view()) as usize, grid.len()),), offset)
                    &&& crafts.deep_view() == shaped_crafts(grid.deep_view(), (offset.0 as int, offset.1 as int))
                },
            Recipe::Shapeless(_) => crafts@ == Seq::<Craft>::empty(),
        },
{
    match recipe {
        Recipe::Shaped(grid) => {
            let offset = location(grid_size(grid));
            permutations_shaped_for(grid, offset)
        },
        Recipe::Shapeless(_) => Vec::new(),
    }
}

} // verus!
