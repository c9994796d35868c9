//! Rows of items in the order of their last use.
use vstd::prelude::*;

verus! {

/// The first place of an item, from the place `from` on.
pub open spec fn place_in<T>(order: Seq<T>, item: T, from: int) -> Option<int>
    decreases order.len() - from,
{
    if from < 0 || from >= order.len() {
        None
    } else if order[from] == item {
        Some(from)
    } else {
        place_in(order, item, from + 1)
    }
}

/// A row whose item was just used: it comes first. An item that is not there changes nothing.
pub open spec fn promoted<T>(order: Seq<T>, item: T) -> Seq<T> {
    match place_in(order, item, 0) {
        Some(at) => seq![item] + order.remove(at),
        None => order,
    }
}

/// The place of an item is the first that has it.
pub proof fn lemma_place_in<T>(order: Seq<T>, item: T, from: int)
    requires
        0 <= from,
    ensures
        match place_in(order, item, from) {
            Some(at) => from <= at < order.len() && order[at] == item && forall|k: int|
                from <= k < at ==> order[k] != item,
            None => forall|k: int| from <= k < order.len() ==> order[k] != item,
        },
    decreases order.len() - from,
{
    if from < order.len() && order[from] != item {
        lemma_place_in(order, item, from + 1);
    }
}

/// Use of an item brings it to the front, loses nothing, and adds nothing.
pub proof fn lemma_promoted<T>(order: Seq<T>, item: T)
    requires
        order.contains(item),
        order.no_duplicates(),
    ensures
        promoted(order, item).len() == order.len(),
        promoted(order, item)[0] == item,
        promoted(order, item).no_duplicates(),
        forall|other: T| #[trigger]
            promoted(order, item).contains(other) == order.contains(other),
{
    lemma_place_in(order, item, 0);
    let k = choose|k: int| 0 <= k < order.len() && order[k] == item;
    let at = place_in(order, item, 0)->0;
    let rest = order.remove(at);
    let after = promoted(order, item);
    assert forall|i: int| 0 <= i < rest.len() implies rest[i] == order[if i < at {
        i
    } else {
        i + 1
    }] by {
    }
    assert forall|i: int| 0 < i < after.len() implies after[i] == rest[i - 1] by {
    }
    assert forall|other: T| #[trigger] after.contains(other) == order.contains(other) by {
        if after.contains(other) {
            let i = choose|i: int| 0 <= i < after.len() && after[i] == other;
            if i == 0 {
                assert(order[at] == other);
            } else {
                let j = if i - 1 < at { i - 1 } else { i };
                assert(order[j] == other);
            }
        }
        if order.contains(other) {
            let j = choose|j: int| 0 <= j < order.len() && order[j] == other;
            if j == at {
                assert(after[0] == other);
            } else {
                let i = if j < at { j + 1 } else { j };
                assert(after[i] == rest[i - 1]);
                assert(after[i] == other);
            }
        }
    }
    assert forall|i: int, j: int| 0 <= i < j < after.len() implies after[i] != after[j] by {
        let b = if j - 1 < at { j - 1 } else { j };
        assert(after[j] == order[b]);
        if i == 0 {
            assert(b != at);
        } else {
            let a = if i - 1 < at { i - 1 } else { i };
            assert(after[i] == order[a]);
            assert(a != b);
        }
    }
}

/// Whether an item stands in front of another one.
pub open spec fn stands_before<T>(order: Seq<T>, a: T, b: T) -> bool {
    exists|i: int, j: int|
        0 <= i < j < order.len() && #[trigger] order[i] == a && #[trigger] order[j] == b
}

/// Use of an item changes nothing about which of two others was used later; of an item that is not
/// there, nothing at all.
pub proof fn lemma_promoted_keeps_the_others_in_turn<T>(order: Seq<T>, item: T, a: T, b: T)
    requires
        a != item,
        b != item,
    ensures
        stands_before(promoted(order, item), a, b) == stands_before(order, a, b),
        !order.contains(item) ==> promoted(order, item) == order,
{
    lemma_place_in(order, item, 0);
    let after = promoted(order, item);
    if let Some(at) = place_in(order, item, 0) {
        assert(order.contains(item));
        if stands_before(order, a, b) {
            let (i, j) = choose|i: int, j: int|
                0 <= i < j < order.len() && #[trigger] order[i] == a && #[trigger] order[j] == b;
            let x = if i < at { i + 1 } else { i };
            let y = if j < at { j + 1 } else { j };
            assert(after[x] == a && after[y] == b);
        }
        if stands_before(after, a, b) {
            let (i, j) = choose|i: int, j: int|
                0 <= i < j < after.len() && #[trigger] after[i] == a && #[trigger] after[j] == b;
            let x = if i - 1 < at { i - 1 } else { i };
            let y = if j - 1 < at { j - 1 } else { j };
            assert(order[x] == a && order[y] == b);
        }
    }
}

} // verus!
