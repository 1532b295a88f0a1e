//! Choosing among the items of a sequence by one yes-or-no answer per item.
//!
//! Every filtered operation of a room asks its condition once per member, in
//! order, and then acts on the answers. The answers are a sequence of flags;
//! what is chosen, and what is left, are functions of the flags alone.

use vstd::prelude::*;

verus! {

/// `flags` holds, item by item, an answer that `condition` may give.
pub open spec fn answers<T, F: Fn(&T) -> bool>(condition: F, items: Seq<T>, flags: Seq<bool>) -> bool {
    &&& flags.len() == items.len()
    &&& forall|i: int|
        0 <= i < items.len() ==> call_ensures(condition, (&items[i],), #[trigger] flags[i])
}

/// The positions whose flag is `want`, ascending.
pub open spec fn positions(flags: Seq<bool>, want: bool) -> Seq<usize>
    decreases flags.len(),
{
    if flags.len() == 0 {
        Seq::empty()
    } else {
        let before = positions(flags.drop_last(), want);
        if flags.last() == want {
            before.push((flags.len() - 1) as usize)
        } else {
            before
        }
    }
}

/// The items whose flag is `want`, in their order. An item without a flag is
/// not chosen.
pub open spec fn chosen<T>(items: Seq<T>, flags: Seq<bool>, want: bool) -> Seq<T>
    decreases items.len(),
{
    if items.len() == 0 {
        Seq::empty()
    } else {
        let before = chosen(items.drop_last(), flags, want);
        if items.len() <= flags.len() && flags[items.len() - 1] == want {
            before.push(items.last())
        } else {
            before
        }
    }
}

/// The flags that a predicate gives the items of a sequence.
pub open spec fn flags_of<T>(items: Seq<T>, p: spec_fn(T) -> bool) -> Seq<bool> {
    Seq::new(items.len(), |i: int| p(items[i]))
}

/// Every position, ascending.
pub open spec fn all_positions(len: nat) -> Seq<usize> {
    Seq::new(len, |i: int| i as usize)
}

/// Choosing by the flags of a predicate is filtering by it.
pub proof fn lemma_chosen_is_filter<T>(items: Seq<T>, flags: Seq<bool>, want: bool, p: spec_fn(T) -> bool)
    requires
        flags.len() == items.len(),
        forall|i: int| 0 <= i < items.len() ==> ((#[trigger] flags[i] == want) <==> p(items[i])),
    ensures
        chosen(items, flags, want) == items.filter(p),
    decreases items.len(),
{
    reveal(Seq::filter);
    if items.len() > 0 {
        let shorter = items.drop_last();
        assert(chosen(shorter, flags, want) == chosen(shorter, flags.drop_last(), want)) by {
            lemma_chosen_ignores_tail(shorter, flags, flags.drop_last(), want);
        }
        lemma_chosen_is_filter(shorter, flags.drop_last(), want, p);
        assert((flags[items.len() - 1] == want) <==> p(items.last()));
    }
}

/// Flags beyond the last item do not matter.
pub proof fn lemma_chosen_ignores_tail<T>(items: Seq<T>, a: Seq<bool>, b: Seq<bool>, want: bool)
    requires
        items.len() <= a.len(),
        items.len() <= b.len(),
        forall|i: int| 0 <= i < items.len() ==> a[i] == b[i],
    ensures
        chosen(items, a, want) == chosen(items, b, want),
    decreases items.len(),
{
    if items.len() > 0 {
        lemma_chosen_ignores_tail(items.drop_last(), a, b, want);
    }
}

/// Choosing commutes with mapping each item.
pub proof fn lemma_chosen_maps<T, U>(items: Seq<T>, flags: Seq<bool>, want: bool, f: spec_fn(T) -> U)
    ensures
        chosen(items.map_values(f), flags, want) == chosen(items, flags, want).map_values(f),
    decreases items.len(),
{
    let mapped = items.map_values(f);
    if items.len() == 0 {
        assert(chosen(items, flags, want).map_values(f) =~= Seq::<U>::empty());
    } else {
        lemma_chosen_maps(items.drop_last(), flags, want, f);
        assert(mapped.drop_last() =~= items.drop_last().map_values(f));
        let before = chosen(items.drop_last(), flags, want);
        assert(before.push(items.last()).map_values(f) =~= before.map_values(f).push(f(items.last())));
    }
}

/// Every chosen item is one of the items, and what holds of every two items
/// in their order holds of every two chosen items in theirs.
pub proof fn lemma_chosen_keeps<T>(items: Seq<T>, flags: Seq<bool>, want: bool, holds: spec_fn(T, T) -> bool)
    requires
        forall|i: int, j: int| 0 <= i < j < items.len() ==> #[trigger] holds(items[i], items[j]),
    ensures
        forall|k: int|
            0 <= k < chosen(items, flags, want).len() ==> items.contains(
                #[trigger] chosen(items, flags, want)[k],
            ),
        forall|k: int, l: int|
            0 <= k < l < chosen(items, flags, want).len() ==> #[trigger] holds(
                chosen(items, flags, want)[k],
                chosen(items, flags, want)[l],
            ),
    decreases items.len(),
{
    if items.len() > 0 {
        let shorter = items.drop_last();
        let before = chosen(shorter, flags, want);
        let all = chosen(items, flags, want);
        lemma_chosen_keeps(shorter, flags, want, holds);
        assert forall|k: int| 0 <= k < all.len() implies items.contains(#[trigger] all[k]) by {
            if k < before.len() {
                assert(shorter.contains(before[k]));
                let i = choose|i: int| 0 <= i < shorter.len() && shorter[i] == before[k];
                assert(items[i] == all[k]);
            } else {
                assert(items[items.len() - 1] == all[k]);
            }
        }
        assert forall|k: int, l: int| 0 <= k < l < all.len() implies #[trigger] holds(
            all[k],
            all[l],
        ) by {
            if l >= before.len() {
                assert(shorter.contains(before[k]));
                let i = choose|i: int| 0 <= i < shorter.len() && shorter[i] == before[k];
                assert(holds(items[i], items[items.len() - 1]));
            }
        }
    }
}

/// Every flagged item is chosen or left: the two parts are as many as the
/// items.
pub proof fn lemma_chosen_counts<T>(items: Seq<T>, flags: Seq<bool>, want: bool)
    requires
        flags.len() == items.len(),
    ensures
        chosen(items, flags, want).len() + chosen(items, flags, !want).len() == items.len(),
    decreases items.len(),
{
    if items.len() > 0 {
        lemma_chosen_ignores_tail(items.drop_last(), flags, flags.drop_last(), want);
        lemma_chosen_ignores_tail(items.drop_last(), flags, flags.drop_last(), !want);
        lemma_chosen_counts(items.drop_last(), flags.drop_last(), want);
    }
}

/// About every chosen item the condition gave the answer `want`.
pub proof fn lemma_chosen_answered<T, F: Fn(&T) -> bool>(
    condition: F,
    items: Seq<T>,
    flags: Seq<bool>,
    want: bool,
)
    requires
        answers(condition, items, flags),
    ensures
        forall|k: int|
            0 <= k < chosen(items, flags, want).len() ==> call_ensures(
                condition,
                (&#[trigger] chosen(items, flags, want)[k],),
                want,
            ),
    decreases items.len(),
{
    if items.len() > 0 {
        let shorter = items.drop_last();
        let fewer = flags.drop_last();
        assert(answers(condition, shorter, fewer)) by {
            assert forall|i: int| 0 <= i < shorter.len() implies call_ensures(
                condition,
                (&shorter[i],),
                #[trigger] fewer[i],
            ) by {
                assert(fewer[i] == flags[i]);
            }
        }
        lemma_chosen_answered(condition, shorter, fewer, want);
        lemma_chosen_ignores_tail(shorter, flags, fewer, want);
        let before = chosen(shorter, flags, want);
        let all = chosen(items, flags, want);
        assert forall|k: int| 0 <= k < all.len() implies call_ensures(
            condition,
            (&#[trigger] all[k],),
            want,
        ) by {
            if k < before.len() {
                assert(all[k] == before[k]);
            } else {
                assert(all[k] == items[items.len() - 1]);
                assert(flags[items.len() - 1] == want);
            }
        }
    }
}

/// Filtering by what holds of every item changes nothing.
pub proof fn lemma_filter_all<T>(items: Seq<T>, p: spec_fn(T) -> bool)
    requires
        forall|i: int| 0 <= i < items.len() ==> p(#[trigger] items[i]),
    ensures
        items.filter(p) == items,
    decreases items.len(),
{
    reveal(Seq::filter);
    if items.len() > 0 {
        lemma_filter_all(items.drop_last(), p);
        assert(items.drop_last().push(items.last()) =~= items);
    }
}

/// Filtering by what holds of no item leaves nothing.
pub proof fn lemma_filter_none<T>(items: Seq<T>, p: spec_fn(T) -> bool)
    requires
        forall|i: int| 0 <= i < items.len() ==> !p(#[trigger] items[i]),
    ensures
        items.filter(p) == Seq::<T>::empty(),
    decreases items.len(),
{
    reveal(Seq::filter);
    if items.len() > 0 {
        lemma_filter_none(items.drop_last(), p);
    }
}

/// Filtering by what holds of every item but the one at `k` removes that one.
pub proof fn lemma_filter_all_but<T>(items: Seq<T>, p: spec_fn(T) -> bool, k: int)
    requires
        0 <= k < items.len(),
        forall|i: int| 0 <= i < items.len() ==> (p(#[trigger] items[i]) <==> i != k),
    ensures
        items.filter(p) == items.remove(k),
    decreases items.len(),
{
    reveal(Seq::filter);
    let shorter = items.drop_last();
    if k == items.len() - 1 {
        lemma_filter_all(shorter, p);
        assert(items.remove(k) =~= shorter);
    } else {
        assert forall|i: int| 0 <= i < shorter.len() implies (p(#[trigger] shorter[i]) <==> i != k) by {
            assert(shorter[i] == items[i]);
        }
        lemma_filter_all_but(shorter, p, k);
        assert(shorter.remove(k).push(items.last()) =~= items.remove(k));
    }
}

/// Filtering by what holds of the item at `k` alone leaves that one.
pub proof fn lemma_filter_only<T>(items: Seq<T>, p: spec_fn(T) -> bool, k: int)
    requires
        0 <= k < items.len(),
        forall|i: int| 0 <= i < items.len() ==> (p(#[trigger] items[i]) <==> i == k),
    ensures
        items.filter(p) == seq![items[k]],
    decreases items.len(),
{
    reveal(Seq::filter);
    let shorter = items.drop_last();
    if k == items.len() - 1 {
        lemma_filter_none(shorter, p);
        assert(Seq::<T>::empty().push(items.last()) =~= seq![items[k]]);
    } else {
        assert forall|i: int| 0 <= i < shorter.len() implies (p(#[trigger] shorter[i]) <==> i == k) by {
            assert(shorter[i] == items[i]);
        }
        lemma_filter_only(shorter, p, k);
        assert(shorter[k] == items[k]);
    }
}

/// Every item that passes a filter is one of the items, and what holds of
/// every two items in their order holds of every two that pass.
pub proof fn lemma_filter_keeps<T>(items: Seq<T>, p: spec_fn(T) -> bool, holds: spec_fn(T, T) -> bool)
    requires
        forall|i: int, j: int| 0 <= i < j < items.len() ==> #[trigger] holds(items[i], items[j]),
    ensures
        forall|k: int| 0 <= k < items.filter(p).len() ==> items.contains(#[trigger] items.filter(p)[k]),
        forall|k: int, l: int|
            0 <= k < l < items.filter(p).len() ==> #[trigger] holds(
                items.filter(p)[k],
                items.filter(p)[l],
            ),
{
    let flags = flags_of(items, p);
    lemma_chosen_is_filter(items, flags, true, p);
    lemma_chosen_keeps(items, flags, true, holds);
}

/// The positions are in range and strictly ascending, and a position is among
/// them exactly when its flag is `want`.
pub proof fn lemma_positions(flags: Seq<bool>, want: bool)
    requires
        flags.len() <= usize::MAX,
    ensures
        positions(flags, want).len() <= flags.len(),
        forall|j: int|
            0 <= j < positions(flags, want).len() ==> {
                &&& (#[trigger] positions(flags, want)[j]) < flags.len()
                &&& flags[positions(flags, want)[j] as int] == want
            },
        forall|j: int, k: int|
            0 <= j < k < positions(flags, want).len() ==> positions(flags, want)[j] < positions(
                flags,
                want,
            )[k],
        forall|i: int|
            0 <= i < flags.len() && flags[i] == want ==> positions(flags, want).contains(i as usize),
    decreases flags.len(),
{
    if flags.len() > 0 {
        let shorter = flags.drop_last();
        lemma_positions(shorter, want);
        let before = positions(shorter, want);
        let all = positions(flags, want);
        assert forall|i: int| 0 <= i < flags.len() && flags[i] == want implies all.contains(
            i as usize,
        ) by {
            if i < shorter.len() {
                assert(shorter[i] == want);
                let j = choose|j: int| 0 <= j < before.len() && before[j] == i as usize;
                assert(all[j] == i as usize);
            } else {
                assert(all[all.len() - 1] == i as usize);
            }
        }
    }
}

/// With every flag `want`, every position is chosen.
pub proof fn lemma_positions_all(flags: Seq<bool>, want: bool)
    requires
        forall|i: int| 0 <= i < flags.len() ==> flags[i] == want,
        flags.len() <= usize::MAX,
    ensures
        positions(flags, want) == all_positions(flags.len()),
    decreases flags.len(),
{
    if flags.len() > 0 {
        lemma_positions_all(flags.drop_last(), want);
    }
    assert(positions(flags, want) =~= all_positions(flags.len()));
}

/// Among the naturals with a property there is a least one.
pub proof fn lemma_least(p: spec_fn(int) -> bool, k: int) -> (least: int)
    requires
        0 <= k,
        p(k),
    ensures
        0 <= least <= k,
        p(least),
        forall|j: int| 0 <= j < least ==> !#[trigger] p(j),
    decreases k,
{
    if exists|j: int| 0 <= j < k && #[trigger] p(j) {
        let j = choose|j: int| 0 <= j < k && #[trigger] p(j);
        lemma_least(p, j)
    } else {
        k
    }
}

/// Asks `condition` about each item once, in order.
pub(crate) fn ask<T, F: Fn(&T) -> bool>(items: &Vec<T>, condition: F) -> (flags: Vec<bool>)
    requires
        forall|i: int| 0 <= i < items.len() ==> call_requires(condition, (&#[trigger] items@[i],)),
    ensures
        answers(condition, items@, flags@),
{
    let mut flags: Vec<bool> = Vec::new();
    let mut i: usize = 0;
    while i < items.len()
        invariant
            i <= items.len(),
            flags.len() == i,
            forall|j: int| 0 <= j < items.len() ==> call_requires(condition, (&#[trigger] items@[j],)),
            forall|j: int| 0 <= j < i ==> call_ensures(condition, (&items@[j],), #[trigger] flags@[j]),
        decreases items.len() - i,
    {
        let flag = condition(&items[i]);
        flags.push(flag);
        i += 1;
    }
    flags
}

/// Lists the positions whose flag is `want`.
pub(crate) fn find(flags: &Vec<bool>, want: bool) -> (found: Vec<usize>)
    ensures
        found@ == positions(flags@, want),
{
    let mut found: Vec<usize> = Vec::new();
    let mut i: usize = 0;
    while i < flags.len()
        invariant
            i <= flags.len(),
            found@ == positions(flags@.take(i as int), want),
        decreases flags.len() - i,
    {
        assert(flags@.take(i + 1).drop_last() =~= flags@.take(i as int));
        if flags[i] == want {
            found.push(i);
        }
        i += 1;
    }
    assert(flags@.take(i as int) =~= flags@);
    found
}

/// Parts `items` by their flags: first those whose flag is not `want`, then
/// those whose flag is, each part in the order of `items`.
pub(crate) fn divide<T>(items: Vec<T>, flags: &Vec<bool>, want: bool) -> (parts: (Vec<T>, Vec<T>))
    requires
        flags.len() == items.len(),
    ensures
        parts.0@ == chosen(items@, flags@, !want),
        parts.1@ == chosen(items@, flags@, want),
{
    let mut rest: Vec<T> = Vec::new();
    let mut picked: Vec<T> = Vec::new();
    let mut i: usize = 0;
    for item in it: items
        invariant
            i == it.index(),
            flags.len() == items.len(),
            rest@ == chosen(items@.take(i as int), flags@, !want),
            picked@ == chosen(items@.take(i as int), flags@, want),
    {
        assert(items@.take(i + 1).drop_last() =~= items@.take(i as int));
        if flags[i] == want {
            picked.push(item);
        } else {
            rest.push(item);
        }
        i += 1;
    }
    assert(items@.take(i as int) =~= items@);
    (rest, picked)
}

} // verus!
