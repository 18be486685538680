//! Facts about sequences that several modules share.

use vstd::prelude::*;

verus! {

/// The sequence without its repetitions: each value stays where it occurs
/// first.
pub open spec fn first_occurrences<T>(s: Seq<T>) -> Seq<T>
    decreases s.len(),
{
    if s.len() == 0 {
        Seq::empty()
    } else {
        let front = first_occurrences(s.drop_last());
        if front.contains(s.last()) {
            front
        } else {
            front.push(s.last())
        }
    }
}

/// Appending a value keeps the first occurrences and adds the value if it is
/// new.
pub proof fn lemma_first_occurrences_push<T>(s: Seq<T>, x: T)
    ensures
        first_occurrences(s.push(x)) == if first_occurrences(s).contains(x) {
            first_occurrences(s)
        } else {
            first_occurrences(s).push(x)
        },
{
    assert(s.push(x).drop_last() =~= s);
}

/// Removing repetitions neither loses nor invents a value, leaves no value
/// twice and never lengthens the sequence.
pub proof fn lemma_first_occurrences<T>(s: Seq<T>)
    ensures
        forall|x: T| #[trigger] first_occurrences(s).contains(x) <==> s.contains(x),
        first_occurrences(s).no_duplicates(),
        first_occurrences(s).len() <= s.len(),
        s.len() > 0 ==> first_occurrences(s).len() > 0 && first_occurrences(s)[0] == s[0],
    decreases s.len(),
{
    if s.len() > 0 {
        let front = s.drop_last();
        lemma_first_occurrences(front);
        let kept = first_occurrences(front);
        assert forall|x: T| #[trigger] first_occurrences(s).contains(x) <==> s.contains(x) by {
            if s.contains(x) {
                let i = choose|i: int| 0 <= i < s.len() && s[i] == x;
                if i < s.len() - 1 {
                    assert(front[i] == x);
                    assert(kept.contains(x));
                    let k = choose|k: int| 0 <= k < kept.len() && kept[k] == x;
                    assert(first_occurrences(s)[k] == x);
                } else if !kept.contains(x) {
                    assert(first_occurrences(s)[kept.len() as int] == x);
                }
            }
            if first_occurrences(s).contains(x) {
                let k = choose|k: int| 0 <= k < first_occurrences(s).len() && first_occurrences(s)[k] == x;
                if k < kept.len() {
                    assert(kept.contains(x));
                    let i = choose|i: int| 0 <= i < front.len() && front[i] == x;
                    assert(s[i] == x);
                } else {
                    assert(s[s.len() - 1] == x);
                }
            }
        }
        if front.len() == 0 {
            assert(kept.len() == 0);
        }
    }
}

/// The first value that a filter keeps is the first value of the sequence
/// that meets the condition.
pub proof fn lemma_filter_first<T>(s: Seq<T>, pred: spec_fn(T) -> bool, j: int)
    requires
        0 <= j < s.len(),
        pred(s[j]),
        forall|i: int| 0 <= i < j ==> !pred(#[trigger] s[i]),
    ensures
        s.filter(pred).len() > 0,
        s.filter(pred)[0] == s[j],
    decreases s.len(),
{
    reveal(Seq::filter);
    let front = s.drop_last();
    if j < s.len() - 1 {
        lemma_filter_first(front, pred, j);
    } else {
        assert forall|i: int| 0 <= i < front.len() implies !pred(#[trigger] front[i]) by {
            assert(front[i] == s[i]);
        }
        assert(front.all(|x: T| !pred(x)));
        front.lemma_all_neg_filter_empty(pred);
    }
}

/// A filter that every value passes keeps the sequence as it is.
pub proof fn lemma_filter_all<T>(s: Seq<T>, pred: spec_fn(T) -> bool)
    requires
        forall|i: int| 0 <= i < s.len() ==> pred(#[trigger] s[i]),
    ensures
        s.filter(pred) == s,
    decreases s.len(),
{
    reveal(Seq::filter);
    if s.len() > 0 {
        let front = s.drop_last();
        assert forall|i: int| 0 <= i < front.len() implies pred(#[trigger] front[i]) by {
            assert(front[i] == s[i]);
        }
        lemma_filter_all(front, pred);
        assert(front.push(s.last()) =~= s);
    } else {
        assert(s.filter(pred) =~= s);
    }
}

/// Filtering twice keeps what passes both filters.
pub proof fn lemma_filter_twice<T>(s: Seq<T>, first: spec_fn(T) -> bool, second: spec_fn(T) -> bool)
    ensures
        s.filter(first).filter(second) == s.filter(|x: T| first(x) && second(x)),
    decreases s.len(),
{
    let both = |x: T| first(x) && second(x);
    reveal(Seq::filter);
    if s.len() > 0 {
        let front = s.drop_last();
        lemma_filter_twice(front, first, second);
        assert(front.push(s.last()) =~= s);
        front.lemma_filter_push(s.last(), first);
        front.lemma_filter_push(s.last(), both);
        front.filter(first).lemma_filter_push(s.last(), second);
    } else {
        assert(s.filter(first) =~= s);
        assert(s.filter(both) =~= s);
    }
}

/// A filter that drops a value yields a shorter sequence.
pub proof fn lemma_filter_shorter<T>(s: Seq<T>, pred: spec_fn(T) -> bool, i: int)
    requires
        0 <= i < s.len(),
        !pred(s[i]),
    ensures
        s.filter(pred).len() < s.len(),
    decreases s.len(),
{
    reveal(Seq::filter);
    let front = s.drop_last();
    if i < s.len() - 1 {
        assert(front[i] == s[i]);
        lemma_filter_shorter(front, pred, i);
    } else {
        front.lemma_filter_len(pred);
    }
}

/// A filter of a sequence without repetitions has no repetitions.
pub proof fn lemma_filter_no_duplicates<T>(s: Seq<T>, pred: spec_fn(T) -> bool)
    requires
        s.no_duplicates(),
    ensures
        s.filter(pred).no_duplicates(),
    decreases s.len(),
{
    reveal(Seq::filter);
    if s.len() > 0 {
        let front = s.drop_last();
        assert forall|i: int, j: int| 0 <= i < front.len() && 0 <= j < front.len() && i != j implies front[i]
            != front[j] by {
            assert(front[i] == s[i] && front[j] == s[j]);
        }
        lemma_filter_no_duplicates(front, pred);
        if pred(s.last()) {
            let kept = front.filter(pred);
            if kept.contains(s.last()) {
                front.lemma_filter_contains_rev(pred, s.last());
                let i = choose|i: int| 0 <= i < front.len() && front[i] == s.last();
                assert(s[i] == s[s.len() - 1]);
            }
            assert forall|i: int, j: int|
                0 <= i < kept.push(s.last()).len() && 0 <= j < kept.push(s.last()).len() && i != j implies kept.push(
                s.last(),
            )[i] != kept.push(s.last())[j] by {
                if i == kept.len() {
                    if kept[j] == s.last() {
                        assert(kept.contains(s.last()));
                    }
                } else if j == kept.len() {
                    if kept[i] == s.last() {
                        assert(kept.contains(s.last()));
                    }
                }
            }
        }
    }
}

} // verus!
