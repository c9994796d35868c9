//! Maps with texts as their keys, which list their entries in the order of the keys.
use crate::byte_text::lemma_encode_injective;
use vstd::prelude::*;
use vstd::utf8::*;

verus! {

/// Whether one row of bytes comes before another: it is smaller at the first place where they
/// differ, or it is the beginning of the other.
pub open spec fn bytes_before(a: Seq<u8>, b: Seq<u8>) -> bool
    decreases a.len(),
{
    if b.len() == 0 {
        false
    } else if a.len() == 0 {
        true
    } else if a[0] != b[0] {
        a[0] < b[0]
    } else {
        bytes_before(a.drop_first(), b.drop_first())
    }
}

/// Whether one text comes before another, by their bytes.
pub open spec fn text_before(a: Seq<char>, b: Seq<char>) -> bool {
    bytes_before(encode_utf8(a), encode_utf8(b))
}

/// Nothing comes before itself.
proof fn lemma_before_irreflexive(a: Seq<u8>)
    ensures
        !bytes_before(a, a),
    decreases a.len(),
{
    if a.len() > 0 {
        lemma_before_irreflexive(a.drop_first());
    }
}

/// What comes before something comes before all that follows it.
pub proof fn lemma_before_transitive(a: Seq<u8>, b: Seq<u8>, c: Seq<u8>)
    requires
        bytes_before(a, b),
        bytes_before(b, c),
    ensures
        bytes_before(a, c),
    decreases a.len(),
{
    if a.len() > 0 && a[0] == b[0] && b[0] == c[0] {
        lemma_before_transitive(a.drop_first(), b.drop_first(), c.drop_first());
    }
}

/// Of two different rows of bytes one comes first.
proof fn lemma_before_total(a: Seq<u8>, b: Seq<u8>)
    ensures
        a == b || bytes_before(a, b) || bytes_before(b, a),
    decreases a.len(),
{
    if a.len() > 0 && b.len() > 0 && a[0] == b[0] {
        lemma_before_total(a.drop_first(), b.drop_first());
        if a.drop_first() == b.drop_first() {
            assert(a =~= seq![a[0]] + a.drop_first());
            assert(b =~= seq![b[0]] + b.drop_first());
        }
    } else if a.len() == 0 && b.len() == 0 {
        assert(a =~= b);
    }
}

/// Of two texts exactly one comes first, unless they are the same.
pub proof fn lemma_text_order(a: Seq<char>, b: Seq<char>)
    ensures
        a == b <==> !text_before(a, b) && !text_before(b, a),
        !(text_before(a, b) && text_before(b, a)),
{
    lemma_before_irreflexive(encode_utf8(a));
    lemma_before_total(encode_utf8(a), encode_utf8(b));
    if encode_utf8(a) == encode_utf8(b) {
        lemma_encode_injective(a, b);
    }
    if text_before(a, b) && text_before(b, a) {
        lemma_before_transitive(encode_utf8(a), encode_utf8(b), encode_utf8(a));
    }
}

/// How two texts are ordered.
#[derive(Debug, Clone, Copy, PartialEq, Eq, Structural)]
pub enum TextOrder {
    Before,
    Same,
    After,
}

/// Tells how two texts are ordered.
pub fn text_order(a: &str, b: &str) -> (order: TextOrder)
    ensures
        (order == TextOrder::Before) == text_before(a@, b@),
        (order == TextOrder::Same) == (a@ == b@),
        (order == TextOrder::After) == text_before(b@, a@),
{
    let left = a.as_bytes();
    let right = b.as_bytes();
    proof {
        lemma_text_order(a@, b@);
        assert(left@.skip(0) =~= left@);
        assert(right@.skip(0) =~= right@);
    }
    let mut at: usize = 0;
    while at < left.len() && at < right.len()
        invariant
            left@ == encode_utf8(a@),
            right@ == encode_utf8(b@),
            at <= left.len(),
            at <= right.len(),
            bytes_before(left@, right@) == bytes_before(
                left@.skip(at as int),
                right@.skip(at as int),
            ),
            bytes_before(right@, left@) == bytes_before(
                right@.skip(at as int),
                left@.skip(at as int),
            ),
            a@ == b@ <==> !text_before(a@, b@) && !text_before(b@, a@),
        decreases left.len() - at,
    {
        let x: u8 = left[at];
        let y: u8 = right[at];
        proof {
            assert(left@.skip(at as int)[0] == x);
            assert(right@.skip(at as int)[0] == y);
            assert(left@.skip(at as int).drop_first() =~= left@.skip(at + 1));
            assert(right@.skip(at as int).drop_first() =~= right@.skip(at + 1));
        }
        if x < y {
            return TextOrder::Before;
        }
        if y < x {
            return TextOrder::After;
        }
        at = at + 1;
    }
    if at < right.len() {
        TextOrder::Before
    } else if at < left.len() {
        TextOrder::After
    } else {
        TextOrder::Same
    }
}

/// Whether entries come in the order of their keys, each key once.
pub open spec fn in_text_order<V>(entries: Seq<(String, V)>) -> bool {
    forall|i: int, j: int|
        0 <= i < j < entries.len() ==> text_before(
            (#[trigger] entries[i]).0@,
            (#[trigger] entries[j]).0@,
        )
}

/// Whether a key is one of those of some entries.
pub open spec fn has_key<V>(entries: Seq<(String, V)>, key: Seq<char>) -> bool {
    exists|i: int| 0 <= i < entries.len() && (#[trigger] entries[i]).0@ == key
}

/// What stands under a key.
pub open spec fn value_under<V>(entries: Seq<(String, V)>, key: Seq<char>) -> V {
    entries[choose|i: int| 0 <= i < entries.len() && (#[trigger] entries[i]).0@ == key].1
}

/// The map that entries make up.
pub open spec fn map_of<V>(entries: Seq<(String, V)>) -> Map<Seq<char>, V> {
    Map::new(|key: Seq<char>| has_key(entries, key), |key: Seq<char>| value_under(entries, key))
}

/// Whether entries are those of a map, in the order of their keys. A map has one such list.
pub open spec fn lists<V>(entries: Seq<(String, V)>, map: Map<Seq<char>, V>) -> bool {
    &&& in_text_order(entries)
    &&& map == map_of(entries)
}

/// In ordered entries, a place is found by its key.
pub proof fn lemma_value_at<V>(entries: Seq<(String, V)>, at: int)
    requires
        in_text_order(entries),
        0 <= at < entries.len(),
    ensures
        has_key(entries, entries[at].0@),
        value_under(entries, entries[at].0@) == entries[at].1,
        map_of(entries).dom().contains(entries[at].0@),
        map_of(entries)[entries[at].0@] == entries[at].1,
{
    let key = entries[at].0@;
    assert(has_key(entries, key));
    let found = choose|i: int| 0 <= i < entries.len() && (#[trigger] entries[i]).0@ == key;
    lemma_text_order(key, key);
    if found < at {
        assert(text_before(entries[found].0@, entries[at].0@));
    } else if at < found {
        assert(text_before(entries[at].0@, entries[found].0@));
    }
}

/// The entries of a map come in one order only.
pub proof fn lemma_listed_once<V>(a: Seq<(String, V)>, b: Seq<(String, V)>, map: Map<Seq<char>, V>)
    requires
        lists(a, map),
        lists(b, map),
    ensures
        a.len() == b.len(),
        forall|i: int|
            0 <= i < a.len() ==> (#[trigger] a[i]).0@ == b[i].0@ && a[i].1 == b[i].1,
    decreases a.len(),
{
    if a.len() == 0 {
        if b.len() > 0 {
            lemma_value_at(b, 0);
            assert(map.dom().contains(b[0].0@));
            assert(has_key(a, b[0].0@));
        }
    } else if b.len() == 0 {
        lemma_value_at(a, 0);
        assert(map.dom().contains(a[0].0@));
        assert(has_key(b, a[0].0@));
    } else {
        let x = a[a.len() - 1].0@;
        let y = b[b.len() - 1].0@;
        lemma_value_at(a, a.len() - 1);
        lemma_value_at(b, b.len() - 1);
        assert(has_key(b, x) && has_key(a, y)) by {
            assert(map.dom().contains(x) && map.dom().contains(y));
        }
        let i = choose|i: int| 0 <= i < b.len() && (#[trigger] b[i]).0@ == x;
        let j = choose|j: int| 0 <= j < a.len() && (#[trigger] a[j]).0@ == y;
        lemma_text_order(x, y);
        if x != y {
            assert(text_before(b[i].0@, b[b.len() - 1].0@));
            assert(text_before(a[j].0@, a[a.len() - 1].0@));
        }
        lemma_without_last(a);
        lemma_without_last(b);
        lemma_listed_once(a.drop_last(), b.drop_last(), map.remove(x));
        assert forall|k: int| 0 <= k < a.len() implies (#[trigger] a[k]).0@ == b[k].0@ && a[k].1
            == b[k].1 by {
            if k < a.len() - 1 {
                assert(a.drop_last()[k] == a[k]);
                assert(b.drop_last()[k] == b[k]);
            }
        }
    }
}

/// Without their last entry, ordered entries make up a map without its key.
proof fn lemma_without_last<V>(entries: Seq<(String, V)>)
    requires
        in_text_order(entries),
        entries.len() > 0,
    ensures
        lists(entries.drop_last(), map_of(entries).remove(entries.last().0@)),
{
    let front = entries.drop_last();
    let last = entries.last().0@;
    assert(in_text_order(front)) by {
        assert forall|i: int, j: int| 0 <= i < j < front.len() implies text_before(
            (#[trigger] front[i]).0@,
            (#[trigger] front[j]).0@,
        ) by {
            assert(text_before(entries[i].0@, entries[j].0@));
        }
    }
    assert(map_of(front) =~= map_of(entries).remove(last)) by {
        assert forall|key: Seq<char>| has_key(front, key) == (has_key(entries, key) && key
            != last) by {
            lemma_text_order(key, last);
            if has_key(front, key) {
                let i = choose|i: int| 0 <= i < front.len() && (#[trigger] front[i]).0@ == key;
                assert(entries[i].0@ == key);
                assert(text_before(entries[i].0@, entries[entries.len() - 1].0@));
            }
            if has_key(entries, key) && key != last {
                let i = choose|i: int| 0 <= i < entries.len() && (#[trigger] entries[i]).0@ == key;
                assert(front[i].0@ == key);
            }
        }
        assert forall|key: Seq<char>| has_key(front, key) implies value_under(front, key)
            == value_under(entries, key) by {
            let i = choose|i: int| 0 <= i < front.len() && (#[trigger] front[i]).0@ == key;
            lemma_value_at(front, i);
            lemma_value_at(entries, i);
        }
    }
}

/// A map with texts as its keys.
#[derive(Debug, PartialEq, Eq)]
pub struct TextMap<V> {
    entries: Vec<(String, V)>,
}

impl<V> View for TextMap<V> {
    type V = Map<Seq<char>, V>;

    closed spec fn view(&self) -> Map<Seq<char>, V> {
        map_of(self.entries@)
    }
}

impl<V> TextMap<V> {
    #[verifier::type_invariant]
    spec fn is_ordered(&self) -> bool {
        in_text_order(self.entries@)
    }

    /// A map without entries.
    pub fn new() -> (map: Self)
        ensures
            map@ == Map::<Seq<char>, V>::empty(),
    {
        let map = TextMap { entries: Vec::new() };
        assert(map@ =~= Map::<Seq<char>, V>::empty());
        map
    }

    /// The entries in the order of their keys.
    pub fn entries(&self) -> (entries: &Vec<(String, V)>)
        ensures
            lists(entries@, self@),
    {
        proof {
            use_type_invariant(self);
        }
        &self.entries
    }

    /// The number of entries.
    pub fn len(&self) -> (len: usize)
        ensures
            forall|entries: Seq<(String, V)>| #[trigger]
                lists(entries, self@) ==> entries.len() == len,
    {
        proof {
            use_type_invariant(self);
            assert forall|entries: Seq<(String, V)>| #[trigger]
                lists(entries, self@) implies entries.len() == self.entries@.len() by {
                lemma_listed_once(entries, self.entries@, self@);
            }
        }
        self.entries.len()
    }

    /// Finds the first entry whose key does not come before a key, and whether it has that key.
    fn place_of(&self, key: &str) -> (place: (usize, bool))
        ensures
            place.0 <= self.entries.len(),
            forall|i: int|
                0 <= i < place.0 ==> text_before((#[trigger] self.entries@[i]).0@, key@),
            place.1 ==> place.0 < self.entries.len() && self.entries@[place.0 as int].0@ == key@,
            !place.1 ==> !has_key(self.entries@, key@) && forall|i: int|
                place.0 <= i < self.entries.len() ==> text_before(
                    key@,
                    (#[trigger] self.entries@[i]).0@,
                ),
    {
        proof {
            use_type_invariant(self);
        }
        let mut at: usize = 0;
        while at < self.entries.len()
            invariant
                in_text_order(self.entries@),
                at <= self.entries.len(),
                forall|i: int|
                    0 <= i < at ==> text_before((#[trigger] self.entries@[i]).0@, key@),
            decreases self.entries.len() - at,
        {
            match text_order(&self.entries[at].0, key) {
                TextOrder::Before => {},
                TextOrder::Same => return (at, true),
                TextOrder::After => {
                    proof {
                        let entries = self.entries@;
                        assert forall|i: int| at <= i < entries.len() implies text_before(
                            key@,
                            (#[trigger] entries[i]).0@,
                        ) by {
                            if at < i {
                                assert(text_before(entries[at as int].0@, entries[i].0@));
                                lemma_before_transitive(
                                    encode_utf8(key@),
                                    encode_utf8(entries[at as int].0@),
                                    encode_utf8(entries[i].0@),
                                );
                            }
                        }
                        assert forall|i: int| 0 <= i < entries.len() implies (
                        #[trigger] entries[i]).0@ != key@ by {
                            lemma_text_order(entries[i].0@, key@);
                        }
                    }
                    return (at, false);
                },
            }
            at = at + 1;
        }
        proof {
            let entries = self.entries@;
            assert forall|i: int| 0 <= i < entries.len() implies (#[trigger] entries[i]).0@
                != key@ by {
                lemma_text_order(entries[i].0@, key@);
            }
        }
        (at, false)
    }

    /// Finds what stands under a key.
    pub fn get(&self, key: &str) -> (value: Option<&V>)
        ensures
            match value {
                Some(value) => self@.dom().contains(key@) && self@[key@] == *value,
                None => !self@.dom().contains(key@),
            },
    {
        proof {
            use_type_invariant(self);
        }
        let (at, found) = self.place_of(key);
        if found {
            proof {
                lemma_value_at(self.entries@, at as int);
            }
            Some(&self.entries[at].1)
        } else {
            None
        }
    }

    /// Tells whether something stands under a key.
    pub fn contains_key(&self, key: &str) -> (contained: bool)
        ensures
            contained == self@.dom().contains(key@),
    {
        self.get(key).is_some()
    }

    /// Puts a value under a key, and returns what stood there before.
    pub fn insert(&mut self, key: String, value: V) -> (before: Option<V>)
        ensures
            final(self)@ == old(self)@.insert(key@, value),
            match before {
                Some(before) => old(self)@.dom().contains(key@) && old(self)@[key@] == before,
                None => !old(self)@.dom().contains(key@),
            },
    {
        proof {
            use_type_invariant(&*self);
        }
        let (at, found) = self.place_of(&key);
        let mut entries: Vec<(String, V)> = Vec::new();
        std::mem::swap(&mut entries, &mut self.entries);
        let ghost given = entries@;
        let ghost kept = key@;
        let mut before: Option<V> = None;
        if found {
            proof {
                lemma_value_at(given, at as int);
            }
            let (same, last) = entries.remove(at);
            before = Some(last);
            entries.insert(at, (same, value));
            assert(entries@ =~= given.update(at as int, (same, value)));
        } else {
            entries.insert(at, (key, value));
            assert(entries@ =~= given.insert(at as int, (key, value)));
        }
        proof {
            let after = entries@;
            assert(after[at as int].0@ == kept && after[at as int].1 == value);
            assert(in_text_order(after)) by {
                assert forall|i: int, j: int| 0 <= i < j < after.len() implies text_before(
                    (#[trigger] after[i]).0@,
                    (#[trigger] after[j]).0@,
                ) by {
                    lemma_order_kept(given, after, at as int, found, i, j);
                }
            }
            lemma_inserted(given, after, at as int, found);
        }
        self.entries = entries;
        before
    }
}

impl<V: Clone> Clone for TextMap<V> {
    fn clone(&self) -> (copy: Self)
        ensures
            copy@.dom() == self@.dom(),
            forall|key: Seq<char>| #[trigger]
                copy@.dom().contains(key) ==> cloned::<V>(self@[key], copy@[key]),
    {
        proof {
            use_type_invariant(self);
        }
        let mut entries: Vec<(String, V)> = Vec::with_capacity(self.entries.len());
        for i in 0..self.entries.len()
            invariant
                entries.len() == i,
                forall|k: int|
                    0 <= k < i ==> (#[trigger] entries@[k]).0 == self.entries@[k].0 && cloned::<V>(
                        self.entries@[k].1,
                        entries@[k].1,
                    ),
        {
            entries.push((self.entries[i].0.clone(), self.entries[i].1.clone()));
        }
        proof {
            let given = self.entries@;
            let after = entries@;
            assert(in_text_order(after)) by {
                assert forall|i: int, j: int| 0 <= i < j < after.len() implies text_before(
                    (#[trigger] after[i]).0@,
                    (#[trigger] after[j]).0@,
                ) by {
                    assert(text_before(given[i].0@, given[j].0@));
                }
            }
            assert forall|key: Seq<char>| has_key(after, key) == has_key(given, key) by {
                if has_key(after, key) {
                    let i = choose|i: int| 0 <= i < after.len() && (#[trigger] after[i]).0@ == key;
                    assert(given[i].0@ == key);
                }
                if has_key(given, key) {
                    let i = choose|i: int| 0 <= i < given.len() && (#[trigger] given[i]).0@ == key;
                    assert(after[i].0@ == key);
                }
            }
            assert(map_of(after).dom() =~= map_of(given).dom());
            assert forall|key: Seq<char>| #[trigger]
                map_of(after).dom().contains(key) implies cloned::<V>(
                map_of(given)[key],
                map_of(after)[key],
            ) by {
                let i = choose|i: int| 0 <= i < after.len() && (#[trigger] after[i]).0@ == key;
                lemma_value_at(after, i);
                lemma_value_at(given, i);
            }
        }
        TextMap { entries }
    }
}

/// What stands at a place of entries of which one was replaced or put in at `at`.
spec fn moved<V>(given: Seq<(String, V)>, at: int, found: bool, i: int) -> (String, V) {
    if i < at || found {
        given[i]
    } else {
        given[i - 1]
    }
}

/// An entry that is replaced or put in at its place keeps the entries in order.
proof fn lemma_order_kept<V>(
    given: Seq<(String, V)>,
    after: Seq<(String, V)>,
    at: int,
    found: bool,
    i: int,
    j: int,
)
    requires
        in_text_order(given),
        0 <= i < j < after.len(),
        0 <= at < after.len(),
        after.len() == given.len() + if found { 0int } else { 1 },
        forall|k: int|
            0 <= k < after.len() && k != at ==> #[trigger] after[k] == moved(given, at, found, k),
        found ==> after[at].0@ == given[at].0@,
        forall|k: int| 0 <= k < at ==> text_before((#[trigger] given[k]).0@, after[at].0@),
        !found ==> forall|k: int|
            at <= k < given.len() ==> text_before(after[at].0@, (#[trigger] given[k]).0@),
    ensures
        text_before(after[i].0@, after[j].0@),
{
    if found {
        assert(text_before(given[i].0@, given[j].0@));
    } else if i == at {
        assert(after[j] == given[j - 1]);
    } else if j == at {
        assert(after[i] == given[i]);
    } else {
        let a = if i < at { i } else { i - 1 };
        let b = if j < at { j } else { j - 1 };
        assert(text_before(given[a].0@, given[b].0@));
        assert(after[i] == given[a] && after[j] == given[b]);
    }
}

/// An entry that is replaced or put in at its place is put into the map.
proof fn lemma_inserted<V>(
    given: Seq<(String, V)>,
    after: Seq<(String, V)>,
    at: int,
    found: bool,
)
    requires
        in_text_order(given),
        in_text_order(after),
        0 <= at < after.len(),
        after.len() == given.len() + if found { 0int } else { 1 },
        forall|k: int|
            0 <= k < after.len() && k != at ==> #[trigger] after[k] == moved(given, at, found, k),
        found ==> after[at].0@ == given[at].0@,
    ensures
        map_of(after) == map_of(given).insert(after[at].0@, after[at].1),
{
    let key = after[at].0@;
    let a = map_of(after);
    let b = map_of(given).insert(key, after[at].1);
    lemma_value_at(after, at);
    assert forall|other: Seq<char>| #[trigger] a.dom().contains(other) implies b.dom().contains(
        other,
    ) && a[other] == b[other] by {
        let i = choose|i: int| 0 <= i < after.len() && (#[trigger] after[i]).0@ == other;
        lemma_value_at(after, i);
        if i != at {
            let k = if i < at || found { i } else { i - 1 };
            assert(after[i] == given[k]);
            lemma_value_at(given, k);
            if other == key {
                lemma_text_order(other, other);
                if i < at {
                    assert(text_before(after[i].0@, after[at].0@));
                } else {
                    assert(text_before(after[at].0@, after[i].0@));
                }
            }
        }
    }
    assert forall|other: Seq<char>| #[trigger] b.dom().contains(other) implies a.dom().contains(
        other,
    ) by {
        if other != key {
            let k = choose|k: int| 0 <= k < given.len() && (#[trigger] given[k]).0@ == other;
            let i = if k < at || found { k } else { k + 1 };
            assert(i != at);
            assert(after[i] == given[k]);
            lemma_value_at(after, i);
        }
    }
    assert(a =~= b);
}

} // verus!
