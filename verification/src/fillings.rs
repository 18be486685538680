//! Recipes whose ingredients are all the same single item: their crafts are
//! the ways to fill as many slots of the grid with that item.

use vstd::prelude::*;
use vstd::relations::{sorted_by, total_ordering};
use vstd::seq_lib::lemma_sorted_unique;
use crate::hint::occurrences;
use crate::model::Material;
use crate::permutations::{
    is_selection, lists_selections, placed, placed_upto, placements, product, rank_order, shapeless_choices,
    shapeless_crafts, slot_permutations, sorted_items,
};
use crate::sequences::{first_occurrences, lemma_first_occurrences};

verus! {

/// The item, `count` times.
pub open spec fn copies(item: Material, count: nat) -> Seq<Material> {
    Seq::new(count, |i: int| item)
}

/// `count` ingredients that each admit the one item.
pub open spec fn same_groups(item: Material, count: nat) -> Seq<Seq<Material>> {
    Seq::new(count, |i: int| seq![item])
}

/// Ingredients that each admit one and the same item leave one choice.
pub proof fn lemma_product_of_copies(item: Material, count: nat)
    ensures
        product(same_groups(item, count)) == seq![copies(item, count)],
    decreases count,
{
    let groups = same_groups(item, count);
    if count == 0 {
        assert(copies(item, 0) =~= Seq::<Material>::empty());
    } else {
        lemma_product_of_copies(item, (count - 1) as nat);
        assert(groups.drop_first() =~= same_groups(item, (count - 1) as nat));
        let tails = product(groups.drop_first());
        let extend = |head: Material| tails.map_values(|tail: Seq<Material>| seq![head] + tail);
        assert(groups.first() =~= seq![item]);
        seq![item].lemma_flat_map_singleton(extend);
        assert(seq![item] + copies(item, (count - 1) as nat) =~= copies(item, count));
        assert(extend(item) =~= seq![copies(item, count)]);
    }
}

/// Copies of one item are in order.
pub proof fn lemma_copies_sorted(item: Material, count: nat)
    ensures
        sorted_items(copies(item, count)) == copies(item, count),
{
    let same = copies(item, count);
    assert(total_ordering(rank_order()));
    assert(sorted_by(same, rank_order()));
    same.lemma_sort_by_ensures(rank_order());
    lemma_sorted_unique(same, sorted_items(same), rank_order());
}

/// The crafts of ingredients that each admit one and the same item are the
/// placements of that many copies, without repetitions.
pub proof fn lemma_crafts_of_copies(item: Material, count: nat)
    ensures
        shapeless_crafts(same_groups(item, count)) == first_occurrences(
            placements(copies(item, count), slot_permutations(9, count)),
        ),
{
    let groups = same_groups(item, count);
    let same = copies(item, count);
    let orders = slot_permutations(9, count);
    lemma_product_of_copies(item, count);
    lemma_copies_sorted(item, count);
    let sort = |pick: Seq<Material>| sorted_items(pick);
    assert(seq![same].map_values(sort) =~= seq![same]);
    assert(first_occurrences(seq![same]) =~= seq![same]) by {
        assert(seq![same].drop_last() =~= Seq::<Seq<Material>>::empty());
        assert(first_occurrences(Seq::<Seq<Material>>::empty()) =~= Seq::<Seq<Material>>::empty());
    }
    assert(shapeless_choices(groups) == seq![same]);
    let spread = |pick: Seq<Material>| placements(pick, orders);
    seq![same].lemma_flat_map_singleton(spread);
}

/// The craft that holds the item in the given slots and is unfilled
/// elsewhere.
pub open spec fn filled(item: Material, slots: Seq<usize>) -> Seq<Material> {
    Seq::new(9, |slot: int| if slots.contains(slot as usize) { item } else { Material::Air })
}

/// Whether a row of `n` slots holds the item in exactly `count` slots and is
/// unfilled elsewhere.
pub open spec fn is_partial(row: Seq<Material>, item: Material, n: nat, count: nat) -> bool {
    &&& row.len() == n
    &&& forall|slot: int| 0 <= slot < n ==> #[trigger] row[slot] == item || row[slot] == Material::Air
    &&& occurrences(row, item, n as int) == count
}

/// Whether a craft holds the item in exactly `count` slots and is unfilled
/// elsewhere.
pub open spec fn is_filling(craft: Seq<Material>, item: Material, count: nat) -> bool {
    is_partial(craft, item, 9, count)
}

/// Placing copies of an item fills the slots that are named.
proof fn lemma_placed_copies(item: Material, slots: Seq<usize>, n: int)
    requires
        0 <= n <= slots.len(),
        forall|j: int| 0 <= j < slots.len() ==> #[trigger] slots[j] < 9,
    ensures
        placed_upto(copies(item, slots.len()), slots, n) == filled(item, slots.take(n)),
    decreases n,
{
    let items = copies(item, slots.len());
    if n > 0 {
        lemma_placed_copies(item, slots, n - 1);
        let before = slots.take(n - 1);
        let now = slots.take(n);
        assert(now =~= before.push(slots[n - 1]));
        assert forall|slot: int| 0 <= slot < 9 implies #[trigger] placed_upto(items, slots, n)[slot] == filled(
            item,
            now,
        )[slot] by {
            if before.contains(slot as usize) {
                let j = choose|j: int| 0 <= j < before.len() && before[j] == slot as usize;
                assert(now[j] == slot as usize);
            }
            if slot == slots[n - 1] as int {
                assert(now[n - 1] == slot as usize);
            }
            if now.contains(slot as usize) && slot != slots[n - 1] as int {
                let j = choose|j: int| 0 <= j < now.len() && now[j] == slot as usize;
                assert(before[j] == slot as usize);
            }
        }
        assert(placed_upto(items, slots, n) =~= filled(item, now));
    } else {
        assert(slots.take(0) =~= Seq::<usize>::empty());
        assert(placed_upto(items, slots, 0) =~= filled(item, slots.take(0)));
    }
}

/// Filling one more slot that did not hold the item adds one occurrence.
proof fn lemma_occurrences_update(craft: Seq<Material>, slot: int, item: Material, n: int)
    requires
        craft.len() == 9,
        0 <= slot < 9,
        0 <= n <= 9,
        craft[slot] != item,
    ensures
        occurrences(craft.update(slot, item), item, n) == occurrences(craft, item, n) + if slot < n { 1nat } else { 0nat },
    decreases n,
{
    if n > 0 {
        lemma_occurrences_update(craft, slot, item, n - 1);
    }
}

/// A craft without the item has no occurrence of it.
proof fn lemma_occurrences_none(craft: Seq<Material>, item: Material, n: int)
    requires
        0 <= n <= craft.len(),
        forall|slot: int| 0 <= slot < craft.len() ==> #[trigger] craft[slot] != item,
    ensures
        occurrences(craft, item, n) == 0,
    decreases n,
{
    if n > 0 {
        lemma_occurrences_none(craft, item, n - 1);
    }
}

/// Filling the first `n` of different slots gives `n` occurrences.
proof fn lemma_filled_count(item: Material, slots: Seq<usize>, n: int)
    requires
        item != Material::Air,
        0 <= n <= slots.len(),
        slots.no_duplicates(),
        forall|j: int| 0 <= j < slots.len() ==> #[trigger] slots[j] < 9,
    ensures
        occurrences(filled(item, slots.take(n)), item, 9) == n,
    decreases n,
{
    if n > 0 {
        lemma_filled_count(item, slots, n - 1);
        let before = slots.take(n - 1);
        let now = slots.take(n);
        let slot = slots[n - 1] as int;
        if before.contains(slots[n - 1]) {
            let j = choose|j: int| 0 <= j < before.len() && before[j] == slots[n - 1];
            assert(slots[j] == slots[n - 1]);
        }
        assert(filled(item, before)[slot] == Material::Air);
        assert(filled(item, now) =~= filled(item, before).update(slot, item)) by {
            assert(now =~= before.push(slots[n - 1]));
            assert forall|other: int| 0 <= other < 9 implies #[trigger] filled(item, now)[other] == filled(
                item,
                before,
            ).update(slot, item)[other] by {
                if before.contains(other as usize) {
                    let j = choose|j: int| 0 <= j < before.len() && before[j] == other as usize;
                    assert(now[j] == other as usize);
                }
                if other == slot {
                    assert(now[n - 1] == other as usize);
                }
                if now.contains(other as usize) && other != slot {
                    let j = choose|j: int| 0 <= j < now.len() && now[j] == other as usize;
                    assert(before[j] == other as usize);
                }
            }
        }
        lemma_occurrences_update(filled(item, before), slot, item, 9);
    } else {
        assert(slots.take(0) =~= Seq::<usize>::empty());
        lemma_occurrences_none(filled(item, slots.take(0)), item, 9);
    }
}

/// Placing copies of an item into a selection of slots fills that many
/// slots.
pub proof fn lemma_placement_is_filling(item: Material, slots: Seq<usize>)
    requires
        item != Material::Air,
        is_selection(slots, 9, slots.len()),
    ensures
        placed(copies(item, slots.len()), slots) == filled(item, slots),
        is_filling(filled(item, slots), item, slots.len()),
{
    lemma_placed_copies(item, slots, slots.len() as int);
    lemma_filled_count(item, slots, slots.len() as int);
    assert(slots.take(slots.len() as int) =~= slots);
}

/// The slots below `n` that hold the item, in ascending order.
pub open spec fn positions(craft: Seq<Material>, item: Material, n: int) -> Seq<usize>
    decreases n,
{
    if n <= 0 {
        Seq::empty()
    } else if craft[n - 1] == item {
        positions(craft, item, n - 1).push((n - 1) as usize)
    } else {
        positions(craft, item, n - 1)
    }
}

/// The positions of an item are as many as its occurrences, ascend, and are
/// the slots that hold it.
proof fn lemma_positions(craft: Seq<Material>, item: Material, n: int)
    requires
        0 <= n <= 9,
        craft.len() == 9,
    ensures
        positions(craft, item, n).len() == occurrences(craft, item, n),
        forall|j: int| 0 <= j < positions(craft, item, n).len() ==> #[trigger] positions(craft, item, n)[j] < n,
        forall|i: int, j: int|
            0 <= i < j < positions(craft, item, n).len() ==> positions(craft, item, n)[i] < positions(
                craft,
                item,
                n,
            )[j],
        forall|slot: usize|
            #[trigger] positions(craft, item, n).contains(slot) <==> slot < n && craft[slot as int] == item,
    decreases n,
{
    if n > 0 {
        lemma_positions(craft, item, n - 1);
        let before = positions(craft, item, n - 1);
        let now = positions(craft, item, n);
        assert forall|slot: usize| #[trigger] now.contains(slot) <==> slot < n && craft[slot as int] == item by {
            if now.contains(slot) {
                let j = choose|j: int| 0 <= j < now.len() && now[j] == slot;
                if j < before.len() {
                    assert(before[j] == slot);
                    assert(before.contains(slot));
                }
            }
            if slot < n && craft[slot as int] == item {
                if slot < n - 1 {
                    assert(before.contains(slot));
                    let j = choose|j: int| 0 <= j < before.len() && before[j] == slot;
                    assert(now[j] == slot);
                } else {
                    assert(now[now.len() - 1] == slot);
                }
            }
        }
    }
}

/// A craft that holds an item in some slots and is unfilled elsewhere is
/// the placement of copies of the item into those slots.
pub proof fn lemma_filling_is_placement(craft: Seq<Material>, item: Material, count: nat)
    requires
        item != Material::Air,
        is_filling(craft, item, count),
    ensures
        is_selection(positions(craft, item, 9), 9, count),
        placed(copies(item, count), positions(craft, item, 9)) == craft,
{
    let slots = positions(craft, item, 9);
    lemma_positions(craft, item, 9);
    assert(slots.no_duplicates());
    lemma_placement_is_filling(item, slots);
    assert(filled(item, slots) =~= craft) by {
        assert forall|slot: int| 0 <= slot < 9 implies #[trigger] filled(item, slots)[slot] == craft[slot] by {
            assert(slots.contains(slot as usize) <==> craft[slot] == item);
        }
    }
}

/// The number of ways to choose `count` of `n` slots.
pub open spec fn choices(n: nat, count: nat) -> nat
    decreases n,
{
    if n == 0 {
        if count == 0 {
            1
        } else {
            0
        }
    } else {
        choices((n - 1) as nat, count) + if count > 0 {
            choices((n - 1) as nat, (count - 1) as nat)
        } else {
            0
        }
    }
}

/// Every row of `n` slots that holds the item in exactly `count` slots and
/// is unfilled elsewhere: first the rows whose last slot is unfilled.
pub open spec fn all_fillings(item: Material, n: nat, count: nat) -> Seq<Seq<Material>>
    decreases n,
{
    if n == 0 {
        if count == 0 {
            seq![Seq::empty()]
        } else {
            Seq::empty()
        }
    } else {
        let unfilled = all_fillings(item, (n - 1) as nat, count).map_values(
            |row: Seq<Material>| row.push(Material::Air),
        );
        let taken = if count > 0 {
            all_fillings(item, (n - 1) as nat, (count - 1) as nat).map_values(|row: Seq<Material>| row.push(item))
        } else {
            Seq::empty()
        };
        unfilled + taken
    }
}

/// The occurrences among the first `n` slots depend on those slots only.
proof fn lemma_occurrences_agree(one: Seq<Material>, other: Seq<Material>, item: Material, n: int)
    requires
        0 <= n <= one.len(),
        n <= other.len(),
        forall|slot: int| 0 <= slot < n ==> one[slot] == other[slot],
    ensures
        occurrences(one, item, n) == occurrences(other, item, n),
    decreases n,
{
    if n > 0 {
        lemma_occurrences_agree(one, other, item, n - 1);
    }
}

/// The rows of [`all_fillings`] are as many as there are choices of slots,
/// differ from each other, and are exactly the rows that hold the item in
/// `count` slots and are unfilled elsewhere.
pub proof fn lemma_all_fillings(item: Material, n: nat, count: nat)
    requires
        item != Material::Air,
    ensures
        all_fillings(item, n, count).len() == choices(n, count),
        all_fillings(item, n, count).no_duplicates(),
        forall|row: Seq<Material>|
            #[trigger] all_fillings(item, n, count).contains(row) <==> is_partial(row, item, n, count),
    decreases n,
{
    let all = all_fillings(item, n, count);
    if n == 0 {
        assert forall|row: Seq<Material>| #[trigger] all.contains(row) <==> is_partial(row, item, n, count) by {
            if is_partial(row, item, n, count) {
                assert(row =~= Seq::<Material>::empty());
                assert(all[0] == row);
            }
        }
    } else {
        let less = (n - 1) as nat;
        let short = all_fillings(item, less, count);
        lemma_all_fillings(item, less, count);
        let unfilled = short.map_values(|row: Seq<Material>| row.push(Material::Air));
        let fewer = if count > 0 { all_fillings(item, less, (count - 1) as nat) } else { Seq::empty() };
        if count > 0 {
            lemma_all_fillings(item, less, (count - 1) as nat);
        }
        let taken = if count > 0 { fewer.map_values(|row: Seq<Material>| row.push(item)) } else { Seq::empty() };
        assert(all == unfilled + taken);
        assert forall|i: int| 0 <= i < unfilled.len() implies (#[trigger] unfilled[i]).drop_last() == short[i]
            && unfilled[i].last() == Material::Air by {
            assert(short[i].push(Material::Air).drop_last() =~= short[i]);
        }
        assert forall|i: int| 0 <= i < taken.len() implies (#[trigger] taken[i]).drop_last() == fewer[i]
            && taken[i].last() == item by {
            assert(fewer[i].push(item).drop_last() =~= fewer[i]);
        }
        assert forall|i: int, j: int| 0 <= i < all.len() && 0 <= j < all.len() && i != j implies all[i] != all[j] by {
            if i < unfilled.len() && j < unfilled.len() {
                assert(unfilled[i].drop_last() != unfilled[j].drop_last());
            } else if i >= unfilled.len() && j >= unfilled.len() {
                assert(taken[i - unfilled.len()].drop_last() != taken[j - unfilled.len()].drop_last());
            } else if i < unfilled.len() {
                assert(unfilled[i].last() != taken[j - unfilled.len()].last());
            } else {
                assert(unfilled[j].last() != taken[i - unfilled.len()].last());
            }
        }
        assert forall|row: Seq<Material>| #[trigger] all.contains(row) <==> is_partial(row, item, n, count) by {
            if all.contains(row) {
                let i = choose|i: int| 0 <= i < all.len() && all[i] == row;
                let front = row.drop_last();
                if i < unfilled.len() {
                    assert(row == unfilled[i]);
                    assert(short.contains(short[i]));
                } else {
                    assert(row == taken[i - unfilled.len()]);
                    assert(fewer.contains(fewer[i - unfilled.len()]));
                }
                lemma_occurrences_agree(row, front, item, less as int);
            }
            if is_partial(row, item, n, count) {
                let front = row.drop_last();
                lemma_occurrences_agree(row, front, item, less as int);
                assert(front.push(row.last()) =~= row);
                if row.last() == item {
                    assert(is_partial(front, item, less, (count - 1) as nat));
                    assert(fewer.contains(front));
                    let i = choose|i: int| 0 <= i < fewer.len() && fewer[i] == front;
                    assert(taken[i] == row);
                    assert(all[unfilled.len() + i] == row);
                } else {
                    assert(is_partial(front, item, less, count));
                    assert(short.contains(front));
                    let i = choose|i: int| 0 <= i < short.len() && short[i] == front;
                    assert(unfilled[i] == row);
                    assert(all[i] == row);
                }
            }
        }
    }
}

/// Whether `crafts` are the fillings of `count` slots with the item: as many
/// as there are choices of the slots, all different, and each with the item
/// in exactly `count` slots and unfilled elsewhere.
pub open spec fn holds_fillings(crafts: Seq<Seq<Material>>, item: Material, count: nat) -> bool {
    &&& crafts.len() == choices(9, count)
    &&& crafts.no_duplicates()
    &&& forall|craft: Seq<Material>| #[trigger] crafts.contains(craft) <==> is_filling(craft, item, count)
}

/// A recipe of `count` ingredients that each admit the one item, which is
/// not the unfilled slot, has as many crafts as there are choices of `count`
/// of the nine slots: the fillings of `count` slots with the item. This
/// rests on the slot orders holding every selection of that many slots.
pub proof fn lemma_equal_ingredients(item: Material, count: nat)
    requires
        item != Material::Air,
        lists_selections(slot_permutations(9, count), 9, count),
    ensures
        holds_fillings(shapeless_crafts(same_groups(item, count)), item, count),
{
    let orders = slot_permutations(9, count);
    let same = copies(item, count);
    let placed_all = placements(same, orders);
    let crafts = shapeless_crafts(same_groups(item, count));
    let all = all_fillings(item, 9, count);
    lemma_crafts_of_copies(item, count);
    lemma_first_occurrences(placed_all);
    lemma_all_fillings(item, 9, count);
    assert forall|craft: Seq<Material>| #[trigger] crafts.contains(craft) <==> is_filling(craft, item, count) by {
        if crafts.contains(craft) {
            assert(placed_all.contains(craft));
            let i = choose|i: int| 0 <= i < placed_all.len() && placed_all[i] == craft;
            assert(is_selection(orders[i], 9, count));
            lemma_placement_is_filling(item, orders[i]);
        }
        if is_filling(craft, item, count) {
            lemma_filling_is_placement(craft, item, count);
            let slots = positions(craft, item, 9);
            assert(orders.contains(slots));
            let i = choose|i: int| 0 <= i < orders.len() && orders[i] == slots;
            assert(placed_all[i] == craft);
            assert(placed_all.contains(craft));
        }
    }
    assert(crafts.to_set() =~= all.to_set());
    crafts.unique_seq_to_set();
    all.unique_seq_to_set();
}

/// Two of nine slots can be chosen in 36 ways.
pub proof fn lemma_two_of_nine()
    ensures
        choices(9, 2) == 36,
{
    reveal_with_fuel(choices, 10);
}

} // verus!
