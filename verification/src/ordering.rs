//! Stable ordering of vectors by an integer key.
use std::collections::VecDeque;
use vstd::prelude::*;

verus! {

/// A value that is ordered by an integer key.
pub trait Keyed: Sized {
    /// The key by which the value is ordered.
    spec fn order_key(&self) -> u64;

    /// Returns the key by which the value is ordered.
    fn key(&self) -> (key: u64)
        ensures
            key == self.order_key(),
    ;
}

/// The keys of `items` never decrease.
pub open spec fn in_key_order<T: Keyed>(items: Seq<T>) -> bool {
    forall|i: int, j: int|
        0 <= i < j < items.len() ==> (#[trigger] items[i]).order_key() <= (
        #[trigger] items[j]).order_key()
}

/// The number of leading items of `items` that stay in front of an item with key `key`: everything
/// up to the last item whose key does not exceed it.
pub open spec fn place_after<T: Keyed>(items: Seq<T>, key: u64) -> int
    decreases items.len(),
{
    if items.len() == 0 || items.last().order_key() <= key {
        items.len() as int
    } else {
        place_after(items.drop_last(), key)
    }
}

/// `items` in key order, items with equal keys in the order in which they came.
pub open spec fn stably_ordered<T: Keyed>(items: Seq<T>) -> Seq<T>
    decreases items.len(),
{
    if items.len() == 0 {
        items
    } else {
        let front = stably_ordered(items.drop_last());
        front.insert(place_after(front, items.last().order_key()), items.last())
    }
}

proof fn lemma_place_after<T: Keyed>(items: Seq<T>, key: u64)
    ensures
        0 <= place_after(items, key) <= items.len(),
        forall|i: int|
            place_after(items, key) <= i < items.len() ==> (#[trigger] items[i]).order_key() > key,
        place_after(items, key) > 0 ==> items[place_after(items, key) - 1].order_key() <= key,
    decreases items.len(),
{
    if items.len() == 0 || items.last().order_key() <= key {
    } else {
        lemma_place_after(items.drop_last(), key);
        assert forall|i: int| place_after(items, key) <= i < items.len() implies (
        #[trigger] items[i]).order_key() > key by {
            if i < items.len() - 1 {
                assert(items[i] == items.drop_last()[i]);
            }
        }
    }
}

/// Ordering moves items and does nothing else: the result is in key order and holds every item as
/// often as before.
pub proof fn lemma_stably_ordered<T: Keyed>(items: Seq<T>)
    ensures
        in_key_order(stably_ordered(items)),
        stably_ordered(items).to_multiset() == items.to_multiset(),
        stably_ordered(items).len() == items.len(),
    decreases items.len(),
{
    broadcast use vstd::seq_lib::group_to_multiset_ensures;

    if items.len() > 0 {
        let front = stably_ordered(items.drop_last());
        let last = items.last();
        let at = place_after(front, last.order_key());
        lemma_stably_ordered(items.drop_last());
        lemma_place_after(front, last.order_key());
        let all = front.insert(at, last);
        assert forall|i: int, j: int| 0 <= i < j < all.len() implies (
        #[trigger] all[i]).order_key() <= (#[trigger] all[j]).order_key() by {
            if at > 0 {
                let k = at - 1;
                assert(front[k].order_key() <= last.order_key());
                if i < k {
                    assert(front[i].order_key() <= front[k].order_key());
                }
            }
        }
        assert(all.to_multiset() == front.to_multiset().insert(last));
        assert(items == items.drop_last().push(last));
        assert(items.to_multiset() == items.drop_last().to_multiset().insert(last));
    }
}

/// A sequence that is in key order already keeps its order.
pub proof fn lemma_ordered_stays<T: Keyed>(items: Seq<T>)
    requires
        in_key_order(items),
    ensures
        stably_ordered(items) == items,
    decreases items.len(),
{
    if items.len() > 0 {
        let front = items.drop_last();
        assert(in_key_order(front)) by {
            assert forall|i: int, j: int| 0 <= i < j < front.len() implies (
            #[trigger] front[i]).order_key() <= (#[trigger] front[j]).order_key() by {
                assert(items[i].order_key() <= items[j].order_key());
            }
        }
        lemma_ordered_stays(front);
        if front.len() > 0 {
            assert(items[items.len() - 2].order_key() <= items[items.len() - 1].order_key());
        }
        assert(front.insert(front.len() as int, items.last()) == items);
    }
}

/// Puts `items` in key order; items with equal keys keep their order.
pub fn order_by_key<T: Keyed>(items: &mut Vec<T>)
    ensures
        final(items)@ == stably_ordered(old(items)@),
        in_key_order(final(items)@),
        final(items)@.to_multiset() == old(items)@.to_multiset(),
{
    let ghost before = items@;
    let len: usize = items.len();
    let mut done: usize = 0;
    proof {
        assert(before.take(0) == Seq::<T>::empty());
        assert(items@ == stably_ordered(before.take(0)) + before.skip(0));
    }
    while done < len
        invariant
            done <= len,
            len == before.len(),
            items@ == stably_ordered(before.take(done as int)) + before.skip(done as int),
            stably_ordered(before.take(done as int)).len() == done,
        decreases len - done,
    {
        let ghost front = stably_ordered(before.take(done as int));
        let ghost next = before.take(done + 1);
        proof {
            assert(next.drop_last() == before.take(done as int));
            assert(next.last() == before[done as int]);
            assert(items@[done as int] == before[done as int]);
            lemma_stably_ordered(next);
        }
        let key = items[done].key();
        let mut at: usize = done;
        proof {
            assert(items@.take(done as int) == front);
            assert(front.take(done as int) == front);
        }
        while at > 0 && items[at - 1].key() > key
            invariant
                at <= done < items.len(),
                items@.take(done as int) == front,
                place_after(front, key) == place_after(front.take(at as int), key),
            decreases at,
        {
            proof {
                let shown = front.take(at as int);
                assert(shown.last() == items@[at - 1]);
                assert(shown.drop_last() == front.take(at - 1));
            }
            at = at - 1;
        }
        proof {
            let shown = front.take(at as int);
            if at > 0 {
                assert(shown.last() == items@[at - 1]);
            }
            assert(place_after(front, key) == at);
        }
        let item = items.remove(done);
        items.insert(at, item);
        proof {
            assert(items@ == front.insert(at as int, item) + before.skip(done + 1));
        }
        done = done + 1;
    }
    proof {
        assert(before.take(len as int) == before);
        assert(before.skip(len as int) == Seq::<T>::empty());
        assert(items@ == stably_ordered(before));
        lemma_stably_ordered(before);
    }
}

/// Turns a vector into a queue with the same items in the same order.
pub fn into_queue<T>(items: Vec<T>) -> (queue: VecDeque<T>)
    ensures
        queue@ == items@,
{
    let mut items = items;
    let ghost whole = items@;
    let mut queue: VecDeque<T> = VecDeque::with_capacity(items.len());
    while items.len() > 0
        invariant
            items@ + queue@ == whole,
        decreases items.len(),
    {
        let ghost before = items@;
        if let Some(last) = items.pop() {
            let ghost tail = queue@;
            queue.push_front(last);
            assert(before == items@.push(last));
            assert(queue@ == seq![last] + tail);
            assert(items@ + queue@ == before + tail);
        }
    }
    assert(queue@ == whole);
    queue
}

/// Items with the same key keep the order in which they came.
pub proof fn lemma_equal_keys_keep_their_order<T: Keyed>(items: Seq<T>, key: u64)
    ensures
        stably_ordered(items).filter(|item: T| item.order_key() == key) == items.filter(
            |item: T| item.order_key() == key,
        ),
    decreases items.len(),
{
    let has_key = |item: T| item.order_key() == key;
    if items.len() > 0 {
        let rest = items.drop_last();
        let last = items.last();
        let front = stably_ordered(rest);
        let at = place_after(front, last.order_key());
        lemma_equal_keys_keep_their_order(rest, key);
        lemma_place_after(front, last.order_key());
        let (a, b) = (front.take(at), front.skip(at));
        let one = seq![last];
        assert(items =~= rest + one);
        assert(front =~= a + b);
        assert(stably_ordered(items) =~= a + one + b);
        Seq::filter_distributes_over_add(rest, one, has_key);
        Seq::filter_distributes_over_add(a, b, has_key);
        Seq::filter_distributes_over_add(a, one, has_key);
        Seq::filter_distributes_over_add(a + one, b, has_key);
        if last.order_key() == key {
            assert forall|i: int| 0 <= i < b.len() implies !has_key(#[trigger] b[i]) by {
                assert(b[i] == front[at + i]);
            }
            lemma_nothing_passes(b, has_key);
            assert(a.filter(has_key) + one.filter(has_key) + b.filter(has_key) =~= a.filter(has_key)
                + b.filter(has_key) + one.filter(has_key));
        } else {
            assert forall|i: int| 0 <= i < one.len() implies !has_key(#[trigger] one[i]) by {}
            lemma_nothing_passes(one, has_key);
            assert(a.filter(has_key) + one.filter(has_key) + b.filter(has_key) =~= a.filter(has_key)
                + b.filter(has_key) + one.filter(has_key));
        }
    }
}

proof fn lemma_nothing_passes<T>(items: Seq<T>, passes: spec_fn(T) -> bool)
    requires
        forall|i: int| 0 <= i < items.len() ==> !passes(#[trigger] items[i]),
    ensures
        items.filter(passes) == Seq::<T>::empty(),
    decreases items.len(),
{
    reveal(Seq::filter);
    if items.len() > 0 {
        assert(!passes(items[items.len() - 1]));
        assert forall|i: int| 0 <= i < items.len() - 1 implies !passes(
            #[trigger] items.drop_last()[i],
        ) by {
            assert(items.drop_last()[i] == items[i]);
        }
        lemma_nothing_passes(items.drop_last(), passes);
    }
}

} // verus!
