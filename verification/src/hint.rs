//! Scoring a guess against an answer.
//!
//! A slot is green when both crafts hold the same item there. The items of the
//! answer that found no green slot are then handed out, each to the leftmost
//! slot of the guess that holds the same item and has no colour yet, which
//! turns yellow. Unfilled slots are never scored, unless the two crafts are
//! the same craft, which is green throughout.

use vstd::prelude::*;
use crate::model::{Color, Craft, Hint, Material, empty_item};

verus! {

/// The hint of a guess that is the answer.
pub open spec fn all_green() -> Seq<Color> {
    Seq::new(9, |i: int| Color::Green)
}

/// How many of the first `n` slots hold `item` in `holder` and something else
/// in `other`: the occurrences of `item` that found no green slot.
pub open spec fn misplaced(holder: Seq<Material>, other: Seq<Material>, item: Material, n: int) -> nat
    decreases n,
{
    if n <= 0 {
        0
    } else {
        let here: nat = if holder[n - 1] == item && other[n - 1] != item { 1 } else { 0 };
        misplaced(holder, other, item, n - 1) + here
    }
}

/// The colour of slot `i` of the guess when the crafts differ: green on an
/// exact match, yellow while the answer still has a misplaced copy of the item
/// for this slot, counting the misplaced copies of the guess from the left.
pub open spec fn slot_color(answer: Seq<Material>, guess: Seq<Material>, i: int) -> Color {
    let item = guess[i];
    if item == empty_item() {
        Color::Gray
    } else if answer[i] == item {
        Color::Green
    } else if misplaced(guess, answer, item, i) < misplaced(answer, guess, item, 9) {
        Color::Yellow
    } else {
        Color::Gray
    }
}

/// The hint that `guess` earns against `answer`.
pub open spec fn score(answer: Seq<Material>, guess: Seq<Material>) -> Seq<Color> {
    if answer == guess {
        all_green()
    } else {
        Seq::new(9, |i: int| slot_color(answer, guess, i))
    }
}

/// Counting further slots never lowers the count.
pub proof fn lemma_misplaced_grows(holder: Seq<Material>, other: Seq<Material>, item: Material, m: int, n: int)
    requires
        m <= n,
    ensures
        misplaced(holder, other, item, m) <= misplaced(holder, other, item, n),
    decreases n - m,
{
    if m < n {
        lemma_misplaced_grows(holder, other, item, m, n - 1);
    }
}

/// A positive count has a slot that was counted last.
proof fn lemma_misplaced_last(holder: Seq<Material>, other: Seq<Material>, item: Material, n: int)
    requires
        misplaced(holder, other, item, n) > 0,
    ensures
        exists|k: int|
            0 <= k < n && holder[k] == item && other[k] != item
            && #[trigger] misplaced(holder, other, item, k) + 1 == misplaced(holder, other, item, n),
    decreases n,
{
    if n > 0 {
        if holder[n - 1] == item && other[n - 1] != item {
            assert(misplaced(holder, other, item, n - 1) + 1 == misplaced(holder, other, item, n));
        } else {
            lemma_misplaced_last(holder, other, item, n - 1);
        }
    }
}

/// How many of the first `n` slots of `craft` hold `item`.
pub open spec fn occurrences(craft: Seq<Material>, item: Material, n: int) -> nat
    decreases n,
{
    if n <= 0 {
        0
    } else {
        let here: nat = if craft[n - 1] == item { 1 } else { 0 };
        occurrences(craft, item, n - 1) + here
    }
}

/// How many of the first `n` slots of the guess hold `item` and earn a colour
/// other than gray against `answer`.
pub open spec fn colored(answer: Seq<Material>, guess: Seq<Material>, item: Material, n: int) -> nat
    decreases n,
{
    if n <= 0 {
        0
    } else {
        let here: nat = if guess[n - 1] == item && score(answer, guess)[n - 1] != Color::Gray { 1 } else { 0 };
        colored(answer, guess, item, n - 1) + here
    }
}

/// How many of the first `n` slots hold `item` in both crafts.
spec fn matched(answer: Seq<Material>, guess: Seq<Material>, item: Material, n: int) -> nat
    decreases n,
{
    if n <= 0 {
        0
    } else {
        let here: nat = if guess[n - 1] == item && answer[n - 1] == item { 1 } else { 0 };
        matched(answer, guess, item, n - 1) + here
    }
}

spec fn least(a: nat, b: nat) -> nat {
    if a <= b {
        a
    } else {
        b
    }
}

/// Among the first `n` slots, the coloured slots of an item are its exact
/// matches and as many misplaced copies as the answer has to give.
proof fn lemma_colored_counts(answer: Seq<Material>, guess: Seq<Material>, item: Material, n: int)
    requires
        answer.len() == 9,
        guess.len() == 9,
        item != empty_item(),
        0 <= n <= 9,
    ensures
        occurrences(answer, item, n) == matched(answer, guess, item, n) + misplaced(answer, guess, item, n),
        occurrences(guess, item, n) == matched(answer, guess, item, n) + misplaced(guess, answer, item, n),
        answer == guess ==> colored(answer, guess, item, n) == occurrences(guess, item, n),
        answer != guess ==> colored(answer, guess, item, n) == matched(answer, guess, item, n) + least(
            misplaced(guess, answer, item, n),
            misplaced(answer, guess, item, 9),
        ),
    decreases n,
{
    if n > 0 {
        lemma_colored_counts(answer, guess, item, n - 1);
    }
}

/// A craft scored against itself is green in every slot.
pub proof fn lemma_same_craft_all_green(craft: Seq<Material>)
    ensures
        score(craft, craft) == all_green(),
{
}

/// A guess is green in every slot only against itself.
pub proof fn lemma_all_green_only_same(answer: Seq<Material>, guess: Seq<Material>)
    requires
        answer.len() == 9,
        guess.len() == 9,
    ensures
        score(answer, guess) == all_green() <==> answer == guess,
{
    if answer != guess {
        if forall|i: int| 0 <= i < 9 ==> answer[i] == guess[i] {
            assert(answer =~= guess);
        }
        let i = choose|i: int| 0 <= i < 9 && answer[i] != guess[i];
        assert(score(answer, guess)[i] == slot_color(answer, guess, i));
        assert(all_green()[i] == Color::Green);
    }
}

/// No item other than the unfilled slot earns more coloured slots in a guess
/// than it has occurrences in the answer, or in the guess.
pub proof fn lemma_colored_bounded(answer: Seq<Material>, guess: Seq<Material>, item: Material)
    requires
        answer.len() == 9,
        guess.len() == 9,
        item != empty_item(),
    ensures
        colored(answer, guess, item, 9) <= occurrences(answer, item, 9),
        colored(answer, guess, item, 9) <= occurrences(guess, item, 9),
{
    lemma_colored_counts(answer, guess, item, 9);
}

/// Whether two crafts hold the same items slot by slot.
pub fn same_craft(a: &Craft, b: &Craft) -> (same: bool)
    ensures
        same == (a@ == b@),
{
    let mut i: usize = 0;
    while i < 9
        invariant
            i <= 9,
            forall|k: int| 0 <= k < i ==> a@[k] == b@[k],
        decreases 9 - i,
    {
        if a[i] != b[i] {
            return false;
        }
        i += 1;
    }
    assert(a@ =~= b@);
    true
}

/// Whether two hints show the same colours slot by slot.
pub fn same_hint(a: &Hint, b: &Hint) -> (same: bool)
    ensures
        same == (a@ == b@),
{
    let mut i: usize = 0;
    while i < 9
        invariant
            i <= 9,
            forall|k: int| 0 <= k < i ==> a@[k] == b@[k],
        decreases 9 - i,
    {
        if a[i] != b[i] {
            return false;
        }
        i += 1;
    }
    assert(a@ =~= b@);
    true
}

/// Whether a hint is green in every slot.
pub fn is_all_green(hint: &Hint) -> (green: bool)
    ensures
        green == (hint@ == all_green()),
{
    let mut i: usize = 0;
    while i < 9
        invariant
            i <= 9,
            forall|k: int| 0 <= k < i ==> hint@[k] == Color::Green,
        decreases 9 - i,
    {
        if hint[i] != Color::Green {
            assert(all_green()[i as int] == Color::Green);
            return false;
        }
        i += 1;
    }
    assert(hint@ =~= all_green());
    true
}

/// The state of the second pass once the first `j` slots of the answer have
/// handed out their items.
spec fn handed_out(
    answer: Seq<Material>,
    guess: Seq<Material>,
    hint: Seq<Color>,
    used: Seq<bool>,
    j: int,
) -> bool {
    forall|i: int|
        #![trigger used[i]]
        #![trigger hint[i]]
        0 <= i < 9 ==> {
            let item = guess[i];
            let yellow = misplaced(guess, answer, item, i) < misplaced(answer, guess, item, j);
            &&& used[i] == (item != empty_item() && (answer[i] == item || yellow))
            &&& hint[i] == if item == empty_item() {
                Color::Gray
            } else if answer[i] == item {
                Color::Green
            } else if yellow {
                Color::Yellow
            } else {
                Color::Gray
            }
        }
}

/// Scores `guess` against `answer`.
///
/// The same craft is green throughout. Otherwise exact matches of filled
/// slots turn green first, and then each remaining item of the answer, in
/// slot order, turns the leftmost uncoloured slot of the guess that holds it
/// yellow.
pub fn calculate_hint(answer: &Craft, guess: &Craft) -> (hint: Hint)
    ensures
        hint@ == score(answer@, guess@),
        answer@ == guess@ ==> hint@ == all_green(),
{
    if same_craft(answer, guess) {
        let green = [Color::Green; 9];
        assert(green@ =~= all_green());
        return green;
    }
    let mut hint = [Color::Gray; 9];
    let mut used = [false; 9];

    // Greens: the same item in the same slot.
    let mut i: usize = 0;
    while i < 9
        invariant
            i <= 9,
            forall|k: int| 0 <= k < i ==> #[trigger] used@[k] == (answer@[k] == guess@[k] && guess@[k] != empty_item()),
            forall|k: int| 0 <= k < i ==> #[trigger] hint@[k] == if used@[k] { Color::Green } else { Color::Gray },
            forall|k: int| i <= k < 9 ==> !(#[trigger] used@[k]),
            forall|k: int| i <= k < 9 ==> #[trigger] hint@[k] == Color::Gray,
        decreases 9 - i,
    {
        if answer[i] == guess[i] && answer[i] != Material::Air {
            hint[i] = Color::Green;
            used[i] = true;
        }
        i += 1;
    }
    assert(handed_out(answer@, guess@, hint@, used@, 0));

    // Yellows: each item of the answer without a green slot takes the leftmost
    // free slot of the guess that holds it.
    let mut j: usize = 0;
    while j < 9
        invariant
            j <= 9,
            handed_out(answer@, guess@, hint@, used@, j as int),
        decreases 9 - j,
    {
        let item = answer[j];
        if item != guess[j] && item != Material::Air {
            let ghost before_hint = hint@;
            let ghost before_used = used@;
            let ghost given = misplaced(answer@, guess@, item, j as int);
            let mut i: usize = 0;
            let mut found = false;
            while i < 9 && !found
                invariant
                    i <= 9,
                    j < 9,
                    item == answer@[j as int],
                    item != guess@[j as int],
                    item != empty_item(),
                    given == misplaced(answer@, guess@, item, j as int),
                    handed_out(answer@, guess@, before_hint, before_used, j as int),
                    !found ==> hint@ == before_hint && used@ == before_used,
                    !found ==> forall|k: int| 0 <= k < i && guess@[k] == item ==> #[trigger] used@[k],
                    found ==> handed_out(answer@, guess@, hint@, used@, j + 1),
                decreases 9 - i, if found { 0int } else { 1int },
            {
                if !used[i] && guess[i] == item {
                    proof {
                        let at = i as int;
                        let rank = misplaced(guess@, answer@, item, at);
                        assert(answer@[at] != item);
                        assert(rank >= given);
                        if rank > 0 {
                            lemma_misplaced_last(guess@, answer@, item, at);
                            let k = choose|k: int|
                                0 <= k < at && guess@[k] == item && answer@[k] != item
                                && #[trigger] misplaced(guess@, answer@, item, k) + 1 == rank;
                            assert(used@[k]);
                        }
                        assert(rank == given);
                        assert forall|k: int| 0 <= k < 9 && guess@[k] == item && answer@[k] != item && k != at implies
                            (misplaced(guess@, answer@, item, k) < given) == (misplaced(guess@, answer@, item, k) < given + 1)
                        by {
                            if k > at {
                                lemma_misplaced_grows(guess@, answer@, item, at + 1, k);
                            } else {
                                assert(used@[k]);
                            }
                        }
                    }
                    hint[i] = Color::Yellow;
                    used[i] = true;
                    found = true;
                } else {
                    i += 1;
                }
            }
            proof {
                if !found {
                    assert forall|k: int| 0 <= k < 9 && guess@[k] == item && answer@[k] != item implies
                        (misplaced(guess@, answer@, item, k) < given) == (misplaced(guess@, answer@, item, k) < given + 1)
                    by {
                        assert(used@[k]);
                    }
                }
            }
        }
        j += 1;
    }
    assert(hint@ =~= score(answer@, guess@));
    hint
}

/// The colour that a letter stands for: `G` for green, `Y` for yellow, and
/// anything else for gray.
pub open spec fn letter_color(letter: char) -> Color {
    if letter == 'G' {
        Color::Green
    } else if letter == 'Y' {
        Color::Yellow
    } else {
        Color::Gray
    }
}

/// The hint that a line of letters spells: the first nine letters give the
/// colours of the slots, and a slot without a letter is gray.
pub open spec fn spelled_hint(text: Seq<char>) -> Seq<Color> {
    Seq::new(9, |i: int| if i < text.len() { letter_color(text[i]) } else { Color::Gray })
}

/// Reads a hint from a line of letters, `G` for green and `Y` for yellow.
pub fn hint_from_text(text: &str) -> (hint: Hint)
    ensures
        hint@ == spelled_hint(text@),
{
    let mut hint = [Color::Gray; 9];
    let letters = text.unicode_len();
    let mut i: usize = 0;
    while i < 9 && i < letters
        invariant
            i <= 9,
            i <= letters,
            letters == text@.len(),
            forall|k: int| 0 <= k < i ==> #[trigger] hint@[k] == letter_color(text@[k]),
            forall|k: int| i <= k < 9 ==> #[trigger] hint@[k] == Color::Gray,
        decreases 9 - i,
    {
        let letter = text.get_char(i);
        hint[i] = if letter == 'G' {
            Color::Green
        } else if letter == 'Y' {
            Color::Yellow
        } else {
            Color::Gray
        };
        i += 1;
    }
    assert(hint@ =~= spelled_hint(text@));
    hint
}

} // verus!
