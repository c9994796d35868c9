//! The syntax trees of documents, and which of them serves a viewport best.
use crate::mru::{
    lemma_place_in, lemma_promoted, lemma_promoted_keeps_the_others_in_turn, place_in, promoted,
    stands_before,
};
use crate::rope::{rope_clone, rope_eq, rope_text};
use crate::types::copy_range;
use ropey::Rope;
use std::collections::{HashMap, VecDeque};
use std::ops::Range;
use vstd::prelude::*;

verus! {

broadcast use vstd::std_specs::hash::group_hash_axioms;

/// How many trees a document remembers by its texts.
pub const FULL_TREE_MEMORY_CAP: usize = 8;

/// How many viewports a document keeps trees for unless it is told otherwise.
pub const VIEWPORT_CAP: usize = 4;

/// A document.
#[derive(Debug, Clone, Copy, PartialEq, Eq, Structural, Hash)]
pub struct DocumentId(pub u64);

/// A viewport of a document.
#[derive(Debug, Clone, Copy, PartialEq, Eq, Structural, Hash)]
pub struct ViewportKey(pub u32);

/// The tree of a whole document.
#[derive(Debug)]
pub struct InstalledSyntax<T> {
    pub syntax: T,
    pub doc_version: u64,
    pub tree_id: u64,
}

/// The tree of a part of a document.
#[derive(Debug)]
pub struct ViewportSyntax<T> {
    pub syntax: T,
    pub doc_version: u64,
    pub tree_id: u64,
    /// The bytes that the tree covers.
    pub coverage: Range<u32>,
}

/// The trees of a viewport: a quick one, and an enriched one.
#[derive(Debug)]
pub struct ViewportEntry<T> {
    pub stage_a: Option<ViewportSyntax<T>>,
    pub stage_b: Option<ViewportSyntax<T>>,
}

/// A viewport without trees.
pub open spec fn no_trees<T>() -> ViewportEntry<T> {
    ViewportEntry { stage_a: None, stage_b: None }
}

impl<T> Default for ViewportEntry<T> {
    fn default() -> (entry: Self)
        ensures
            entry == no_trees::<T>(),
    {
        ViewportEntry { stage_a: None, stage_b: None }
    }
}

/// The larger of two numbers, if they are there.
pub open spec fn latest(a: Option<u64>, b: Option<u64>) -> Option<u64> {
    match a {
        Some(first) => match b {
            Some(second) => Some(
                if second > first {
                    second
                } else {
                    first
                },
            ),
            None => a,
        },
        None => b,
    }
}

/// The version of the document that a tree was made for.
pub open spec fn version_of<T>(tree: Option<ViewportSyntax<T>>) -> Option<u64> {
    match tree {
        Some(tree) => Some(tree.doc_version),
        None => None,
    }
}

/// Finds the larger of two numbers, if they are there.
fn later(a: Option<u64>, b: Option<u64>) -> (most: Option<u64>)
    ensures
        most == latest(a, b),
{
    match a {
        Some(first) => match b {
            Some(second) => if second > first {
                Some(second)
            } else {
                Some(first)
            },
            None => a,
        },
        None => b,
    }
}

impl<T> ViewportEntry<T> {
    /// Whether there is a tree.
    pub open spec fn is_in_use(self) -> bool {
        self.stage_a is Some || self.stage_b is Some
    }

    /// The latest version of the document that a tree was made for.
    pub open spec fn version(self) -> Option<u64> {
        latest(version_of(self.stage_a), version_of(self.stage_b))
    }

    /// Tells whether there is a tree.
    pub fn has_any(&self) -> (any: bool)
        ensures
            any == self.is_in_use(),
    {
        self.stage_a.is_some() || self.stage_b.is_some()
    }

    /// Finds the latest version of the document that a tree was made for.
    pub fn best_doc_version(&self) -> (version: Option<u64>)
        ensures
            version == self.version(),
    {
        let a = match &self.stage_a {
            Some(tree) => Some(tree.doc_version),
            None => None,
        };
        let b = match &self.stage_b {
            Some(tree) => Some(tree.doc_version),
            None => None,
        };
        later(a, b)
    }
}

/// The trees of the viewports of a document, in the order of their last use.
#[derive(Debug)]
pub struct ViewportCache<T> {
    pub cap: usize,
    pub order: VecDeque<ViewportKey>,
    pub map: HashMap<u32, ViewportEntry<T>>,
}

/// What a cache of viewports holds.
#[verifier::ext_equal]
pub struct CacheView<T> {
    pub cap: usize,
    pub order: Seq<ViewportKey>,
    pub map: Map<u32, ViewportEntry<T>>,
}

impl<T> View for ViewportCache<T> {
    type V = CacheView<T>;

    open spec fn view(&self) -> CacheView<T> {
        CacheView { cap: self.cap, order: self.order@, map: self.map@ }
    }
}

/// The latest version among those of some viewports.
pub open spec fn latest_in<T>(order: Seq<ViewportKey>, map: Map<u32, ViewportEntry<T>>) -> Option<
    u64,
>
    decreases order.len(),
{
    if order.len() == 0 {
        None
    } else {
        latest(latest_in(order.drop_last(), map), map[order.last().0].version())
    }
}

/// A cache without viewports.
pub open spec fn empty_viewports<T>(cap: usize) -> CacheView<T> {
    CacheView { cap, order: Seq::empty(), map: Map::empty() }
}

impl<T> CacheView<T> {
    /// Whether each viewport was used at some time, and there are no more than there may be.
    pub open spec fn is_valid(self) -> bool {
        &&& self.order.no_duplicates()
        &&& forall|key: u32| #[trigger]
            self.map.dom().contains(key) <==> self.order.contains(ViewportKey(key))
        &&& self.order.len() <= self.cap || self.order.len() <= 1
    }

    /// Whether there is a tree.
    pub open spec fn is_in_use(self) -> bool {
        exists|i: int|
            0 <= i < self.order.len() && (#[trigger] self.map[self.order[i].0]).is_in_use()
    }

    /// The latest version of the document that a tree was made for.
    pub open spec fn version(self) -> Option<u64> {
        latest_in(self.order, self.map)
    }

    /// The cache once a viewport was asked for. If it is full and the viewport is new, the one
    /// whose last use was the longest ago makes room.
    pub open spec fn opened(self, key: ViewportKey) -> CacheView<T> {
        if self.order.contains(key) {
            CacheView { order: promoted(self.order, key), ..self }
        } else if self.order.len() >= self.cap && self.order.len() > 0 {
            CacheView {
                order: seq![key] + self.order.drop_last(),
                map: self.map.remove(self.order.last().0).insert(key.0, no_trees()),
                ..self
            }
        } else {
            CacheView {
                order: seq![key] + self.order,
                map: self.map.insert(key.0, no_trees()),
                ..self
            }
        }
    }

    /// The cache with other trees for a viewport.
    pub open spec fn with(self, key: ViewportKey, entry: ViewportEntry<T>) -> CacheView<T> {
        CacheView { map: self.map.insert(key.0, entry), ..self }
    }
}

proof fn lemma_contained<T>(order: Seq<ViewportKey>, key: ViewportKey)
    ensures
        order.contains(key) == (place_in(order, key, 0) is Some),
{
    lemma_place_in(order, key, 0);
    if order.contains(key) {
        let k = choose|k: int| 0 <= k < order.len() && order[k] == key;
    }
}

/// Asking for a viewport keeps the cache in order, and that viewport comes first.
pub proof fn lemma_opened<T>(cache: CacheView<T>, key: ViewportKey)
    requires
        cache.is_valid(),
    ensures
        cache.opened(key).is_valid(),
        cache.opened(key).order.len() > 0,
        cache.opened(key).order[0] == key,
        cache.opened(key).map.dom().contains(key.0),
        forall|entry: ViewportEntry<T>| #[trigger] cache.opened(key).with(key, entry).is_valid(),
{
    let after = cache.opened(key);
    if cache.order.contains(key) {
        lemma_promoted(cache.order, key);
        assert(cache.map.dom().contains(key.0));
    } else {
        let evicts = cache.order.len() >= cache.cap && cache.order.len() > 0;
        let rest = if evicts {
            cache.order.drop_last()
        } else {
            cache.order
        };
        assert(after.order == seq![key] + rest);
        assert forall|other: ViewportKey| rest.contains(other) implies cache.order.contains(
            other,
        ) by {
            let i = choose|i: int| 0 <= i < rest.len() && rest[i] == other;
            assert(cache.order[i] == other);
        }
        assert(after.order.no_duplicates()) by {
            assert forall|i: int, j: int|
                0 <= i < after.order.len() && 0 <= j < after.order.len() && i
                    != j implies after.order[i] != after.order[j] by {
                if i == 0 {
                    assert(rest.contains(rest[j - 1]));
                } else if j == 0 {
                    assert(rest.contains(rest[i - 1]));
                } else {
                    assert(after.order[i] == cache.order[i - 1]);
                    assert(after.order[j] == cache.order[j - 1]);
                }
            }
        }
        assert forall|other: u32| #[trigger]
            after.map.dom().contains(other) <==> after.order.contains(ViewportKey(other)) by {
            let wanted = ViewportKey(other);
            if after.map.dom().contains(other) {
                if other == key.0 {
                    assert(after.order[0] == wanted);
                } else {
                    assert(cache.map.dom().contains(other));
                    let i = choose|i: int| 0 <= i < cache.order.len() && cache.order[i] == wanted;
                    assert(!evicts || i != cache.order.len() - 1);
                    assert(rest[i] == wanted);
                    assert(after.order[i + 1] == wanted);
                }
            }
            if after.order.contains(wanted) {
                let i = choose|i: int| 0 <= i < after.order.len() && after.order[i] == wanted;
                if i > 0 {
                    assert(cache.order[i - 1] == wanted);
                    assert(cache.order.contains(wanted));
                    assert(cache.map.dom().contains(other));
                    if evicts {
                        assert(cache.order[i - 1] != cache.order[cache.order.len() - 1]);
                    }
                }
            }
        }
    }
    assert forall|entry: ViewportEntry<T>| #[trigger] after.with(key, entry).is_valid() by {
        assert(after.map.insert(key.0, entry).dom() =~= after.map.dom());
    }
}

impl<T> Default for ViewportCache<T> {
    fn default() -> (cache: Self)
        ensures
            cache@ == empty_viewports::<T>(VIEWPORT_CAP),
            cache@.is_valid(),
    {
        ViewportCache::new(VIEWPORT_CAP)
    }
}

impl<T> ViewportCache<T> {
    /// A cache for at most `cap` viewports; one of them is always kept.
    pub fn new(cap: usize) -> (cache: Self)
        ensures
            cache@ == empty_viewports::<T>(cap),
            cache@.is_valid(),
    {
        let cache = ViewportCache { cap, order: VecDeque::new(), map: HashMap::new() };
        assert(cache@ =~= empty_viewports::<T>(cap));
        cache
    }

    /// The viewports in the order of their last use.
    pub fn iter_keys_mru(&self) -> (keys: &VecDeque<ViewportKey>)
        ensures
            keys@ == self@.order,
    {
        &self.order
    }

    /// Brings a viewport to the front, if it is there.
    fn promote(&mut self, key: ViewportKey) -> (found: bool)
        ensures
            found == old(self)@.order.contains(key),
            final(self)@ == (CacheView { order: promoted(old(self)@.order, key), ..old(self)@ }),
    {
        let ghost order = self.order@;
        let count: usize = self.order.len();
        proof {
            lemma_contained::<T>(order, key);
        }
        for i in 0..count
            invariant
                self@ == old(self)@,
                order == self.order@,
                count == order.len(),
                order.contains(key) == (place_in(order, key, 0) is Some),
                place_in(order, key, 0) == place_in(order, key, i as int),
        {
            if self.order[i] == key {
                let _same = self.order.remove(i);
                self.order.push_front(key);
                assert(self@ =~= (CacheView { order: promoted(order, key), ..old(self)@ }));
                return true;
            }
        }
        false
    }

    /// The trees of a viewport, which is added if it is new.
    pub fn get_mut_or_insert(&mut self, key: ViewportKey) -> (entry: &mut ViewportEntry<T>)
        requires
            old(self)@.is_valid(),
        ensures
            *entry == old(self)@.opened(key).map[key.0],
            final(self)@ == old(self)@.opened(key).with(key, *final(entry)),
            final(self)@.is_valid(),
    {
        let ghost before = self@;
        proof {
            lemma_opened(before, key);
        }
        if !self.promote(key) {
            proof {
                lemma_contained::<T>(before.order, key);
            }
            if self.order.len() >= self.cap {
                if let Some(evicted) = self.order.pop_back() {
                    let _gone = self.map.remove(&evicted.0);
                    assert(self.order@ =~= before.order.drop_last());
                }
            }
            self.order.push_front(key);
            assert(!before.map.dom().contains(key.0));
        }
        let ghost now = self@;
        assert(now.order =~= before.opened(key).order);
        self.map.entry(key.0).or_insert(ViewportEntry::default())
    }

    /// Takes note that a viewport was used.
    pub fn touch(&mut self, key: ViewportKey)
        requires
            old(self)@.is_valid(),
        ensures
            final(self)@ == (CacheView { order: promoted(old(self)@.order, key), ..old(self)@ }),
            final(self)@.is_valid(),
    {
        proof {
            lemma_contained::<T>(self@.order, key);
            if self@.order.contains(key) {
                lemma_promoted(self@.order, key);
            }
        }
        let _found = self.promote(key);
    }

    /// The trees of the viewports in the order of their last use.
    pub fn entries_mru(&self) -> (entries: Vec<&ViewportEntry<T>>)
        requires
            self@.is_valid(),
        ensures
            entries.len() == self@.order.len(),
            forall|i: int|
                0 <= i < entries.len() ==> *(#[trigger] entries@[i])
                    == self@.map[self@.order[i].0],
    {
        let mut entries: Vec<&ViewportEntry<T>> = Vec::with_capacity(self.order.len());
        for i in 0..self.order.len()
            invariant
                self@.is_valid(),
                entries.len() == i,
                forall|k: int|
                    0 <= k < i ==> *(#[trigger] entries@[k]) == self@.map[self@.order[k].0],
        {
            let key = self.order[i];
            assert(self@.order.contains(key)) by {
                assert(self@.order[i as int] == key);
            }
            assert(self@.map.dom().contains(key.0));
            if let Some(entry) = self.map.get(&key.0) {
                entries.push(entry);
            }
        }
        entries
    }

    /// Removes all viewports.
    pub fn clear(&mut self)
        ensures
            final(self)@ == empty_viewports::<T>(old(self)@.cap),
            final(self)@.is_valid(),
    {
        self.order.clear();
        self.map.clear();
        assert(self@ =~= empty_viewports::<T>(old(self)@.cap));
    }

    /// Tells whether there is a tree.
    pub fn has_any(&self) -> (any: bool)
        requires
            self@.is_valid(),
        ensures
            any == self@.is_in_use(),
    {
        let entries = self.entries_mru();
        for i in 0..entries.len()
            invariant
                entries.len() == self@.order.len(),
                forall|k: int|
                    0 <= k < entries.len() ==> *(#[trigger] entries@[k])
                        == self@.map[self@.order[k].0],
                forall|k: int|
                    0 <= k < i ==> !(#[trigger] self@.map[self@.order[k].0]).is_in_use(),
        {
            if entries[i].has_any() {
                assert(self@.map[self@.order[i as int].0].is_in_use());
                return true;
            }
        }
        false
    }

    /// Finds the latest version of the document that a tree was made for.
    pub fn best_doc_version(&self) -> (version: Option<u64>)
        requires
            self@.is_valid(),
        ensures
            version == self@.version(),
    {
        let entries = self.entries_mru();
        let mut version: Option<u64> = None;
        let ghost order = self@.order;
        assert(order.take(0) =~= Seq::empty());
        for i in 0..entries.len()
            invariant
                order == self@.order,
                entries.len() == order.len(),
                forall|k: int|
                    0 <= k < entries.len() ==> *(#[trigger] entries@[k])
                        == self@.map[order[k].0],
                version == latest_in(order.take(i as int), self@.map),
        {
            assert(order.take(i + 1).drop_last() =~= order.take(i as int));
            assert(order.take(i + 1).last() == order[i as int]);
            version = later(version, entries[i].best_doc_version());
        }
        assert(order.take(order.len() as int) =~= order);
        version
    }
}

/// A tree that is remembered for a text.
#[derive(Debug)]
pub struct FullTreeMemoryEntry<T> {
    pub content: Rope,
    pub syntax: T,
}

/// What is remembered: texts and their trees, in the order of their last use.
pub open spec fn memory_view<T>(memory: Seq<FullTreeMemoryEntry<T>>) -> Seq<(Seq<char>, T)> {
    Seq::new(memory.len(), |i: int| (rope_text(memory[i].content), memory[i].syntax))
}

/// The place of a text in memory, from the place `from` on.
pub open spec fn recalled<T>(memory: Seq<(Seq<char>, T)>, content: Seq<char>, from: int) -> Option<
    int,
>
    decreases memory.len() - from,
{
    if from < 0 || from >= memory.len() {
        None
    } else if memory[from].0 == content {
        Some(from)
    } else {
        recalled(memory, content, from + 1)
    }
}

/// Whether no two trees are remembered for the same text.
pub open spec fn are_texts_distinct<T>(memory: Seq<(Seq<char>, T)>) -> bool {
    forall|i: int, j: int|
        0 <= i < j < memory.len() ==> (#[trigger] memory[i]).0 != (#[trigger] memory[j]).0
}

/// The memory once a tree was remembered for a text that does not come first.
pub open spec fn remembered<T>(
    memory: Seq<(Seq<char>, T)>,
    content: Seq<char>,
    syntax: T,
) -> Seq<(Seq<char>, T)> {
    let others = match recalled(memory, content, 0) {
        Some(at) => memory.remove(at),
        None => memory,
    };
    let kept = if others.len() >= FULL_TREE_MEMORY_CAP {
        others.drop_last()
    } else {
        others
    };
    seq![(content, syntax)] + kept
}

/// The syntax trees of a document.
#[derive(Debug)]
pub struct SyntaxSlot<T> {
    pub full: Option<InstalledSyntax<T>>,
    pub viewport_cache: ViewportCache<T>,
    pub dirty: bool,
    pub updated: bool,
    pub change_id: u64,
    pub next_tree_id: u64,
    pub full_tree_memory: VecDeque<FullTreeMemoryEntry<T>>,
}

/// What is known of a document's trees.
#[verifier::ext_equal]
pub struct DocumentView<T> {
    pub full: Option<InstalledSyntax<T>>,
    pub viewports: CacheView<T>,
    pub dirty: bool,
    pub updated: bool,
    pub change_id: u64,
    pub next_tree_id: u64,
    pub memory: Seq<(Seq<char>, T)>,
}

impl<T> View for SyntaxSlot<T> {
    type V = DocumentView<T>;

    open spec fn view(&self) -> DocumentView<T> {
        DocumentView {
            full: self.full,
            viewports: self.viewport_cache@,
            dirty: self.dirty,
            updated: self.updated,
            change_id: self.change_id,
            next_tree_id: self.next_tree_id,
            memory: memory_view(self.full_tree_memory@),
        }
    }
}

/// A document without trees.
pub open spec fn no_document<T>() -> DocumentView<T> {
    DocumentView {
        full: None,
        viewports: empty_viewports(VIEWPORT_CAP),
        dirty: false,
        updated: false,
        change_id: 0,
        next_tree_id: 0,
        memory: Seq::empty(),
    }
}

impl<T> DocumentView<T> {
    /// Whether the viewports are in order, not too much is remembered, and nothing twice.
    pub open spec fn is_valid(self) -> bool {
        &&& self.viewports.is_valid()
        &&& are_texts_distinct(self.memory)
        &&& self.memory.len() <= FULL_TREE_MEMORY_CAP
    }

    /// Whether there is a tree.
    pub open spec fn is_in_use(self) -> bool {
        self.full is Some || self.viewports.is_in_use()
    }

    /// The latest version of the document that a tree was made for.
    pub open spec fn version(self) -> Option<u64> {
        latest(
            match self.full {
                Some(full) => Some(full.doc_version),
                None => None,
            },
            self.viewports.version(),
        )
    }

    /// The document with a tree for all of it. Trees are numbered.
    pub open spec fn with_full(self, syntax: T, doc_version: u64) -> DocumentView<T> {
        DocumentView {
            full: Some(InstalledSyntax { syntax, doc_version, tree_id: self.next_tree_id }),
            next_tree_id: self.next_tree_id.wrapping_add(1),
            updated: true,
            change_id: self.change_id.wrapping_add(1),
            ..self
        }
    }

    /// The document once a tree for all of it was offered. One for an older version is not taken.
    pub open spec fn offered_full(self, syntax: T, doc_version: u64) -> DocumentView<T> {
        if self.full matches Some(current) && current.doc_version > doc_version {
            self
        } else {
            DocumentView { dirty: false, ..self.with_full(syntax, doc_version) }
        }
    }

    /// The document once a tree for a viewport was offered. One for an older version than that of
    /// any other tree is not taken.
    pub open spec fn offered_viewport(
        self,
        key: ViewportKey,
        syntax: T,
        coverage: Range<u32>,
        doc_version: u64,
        enriched: bool,
    ) -> DocumentView<T> {
        let tree = ViewportSyntax {
            syntax,
            doc_version,
            tree_id: self.next_tree_id,
            coverage,
        };
        let opened = self.viewports.opened(key);
        let before = opened.map[key.0];
        let entry = if enriched {
            ViewportEntry { stage_a: before.stage_a, stage_b: Some(tree) }
        } else {
            ViewportEntry { stage_a: Some(tree), stage_b: before.stage_b }
        };
        if self.version() matches Some(current) && current > doc_version {
            self
        } else {
            DocumentView {
                viewports: opened.with(key, entry),
                next_tree_id: self.next_tree_id.wrapping_add(1),
                updated: true,
                change_id: self.change_id.wrapping_add(1),
                ..self
            }
        }
    }

    /// The document without a tree for all of it.
    pub open spec fn without_full(self) -> DocumentView<T> {
        DocumentView { full: None, memory: Seq::empty(), ..self }
    }

    /// The document without viewports.
    pub open spec fn without_viewports(self) -> DocumentView<T> {
        DocumentView { viewports: empty_viewports(self.viewports.cap), ..self }
    }
}

/// Whether `after` is what comes of remembering the tree of a document for a text.
pub open spec fn is_remembered<T: Clone>(
    before: DocumentView<T>,
    after: DocumentView<T>,
    content: Seq<char>,
) -> bool {
    match before.full {
        None => after == before,
        Some(full) => if before.memory.len() > 0 && before.memory[0].0 == content {
            after == before
        } else {
            exists|copy: T| #[trigger]
                cloned::<T>(full.syntax, copy) && after == (DocumentView {
                    memory: remembered(before.memory, content, copy),
                    ..before
                })
        },
    }
}

/// Whether `after` is what comes of taking back the tree that is remembered for a text.
pub open spec fn is_restored<T: Clone>(
    before: DocumentView<T>,
    after: DocumentView<T>,
    content: Seq<char>,
    doc_version: u64,
) -> bool {
    match recalled(before.memory, content, 0) {
        None => after == before,
        Some(at) => exists|copy: T| #[trigger]
            cloned::<T>(before.memory[at].1, copy) && after == (DocumentView {
                memory: seq![before.memory[at]] + before.memory.remove(at),
                ..before.with_full(copy, doc_version)
            }),
    }
}

proof fn lemma_recalled<T>(memory: Seq<(Seq<char>, T)>, content: Seq<char>, from: int)
    requires
        0 <= from,
    ensures
        recalled(memory, content, from) matches Some(at) ==> from <= at < memory.len()
            && memory[at].0 == content,
    decreases memory.len() - from,
{
    if from < memory.len() {
        lemma_recalled(memory, content, from + 1);
    }
}

proof fn lemma_not_recalled<T>(memory: Seq<(Seq<char>, T)>, content: Seq<char>, from: int)
    requires
        0 <= from,
        recalled(memory, content, from) is None,
    ensures
        forall|i: int| from <= i < memory.len() ==> (#[trigger] memory[i]).0 != content,
    decreases memory.len() - from,
{
    if from < memory.len() {
        lemma_not_recalled(memory, content, from + 1);
    }
}

/// Remembering a tree for a text leaves no two trees for the same text.
proof fn lemma_remembered_is_distinct<T>(
    memory: Seq<(Seq<char>, T)>,
    content: Seq<char>,
    syntax: T,
)
    requires
        are_texts_distinct(memory),
        memory.len() <= FULL_TREE_MEMORY_CAP,
    ensures
        are_texts_distinct(remembered(memory, content, syntax)),
        remembered(memory, content, syntax).len() <= FULL_TREE_MEMORY_CAP,
{
    lemma_recalled(memory, content, 0);
    let after = remembered(memory, content, syntax);
    let was = recalled(memory, content, 0);
    if was is None {
        lemma_not_recalled(memory, content, 0);
    }
    assert forall|i: int, j: int| 0 <= i < j < after.len() implies (#[trigger] after[i]).0 != (
    #[trigger] after[j]).0 by {
        let b = if was is Some && was->0 <= j - 1 {
            j
        } else {
            j - 1
        };
        assert(after[j] == memory[b]);
        if i == 0 {
            if was is Some {
                assert(memory[was->0].0 == content);
                if b < was->0 {
                    assert(memory[b].0 != memory[was->0].0);
                } else {
                    assert(memory[was->0].0 != memory[b].0);
                }
            }
        } else {
            let a = if was is Some && was->0 <= i - 1 {
                i
            } else {
                i - 1
            };
            assert(after[i] == memory[a]);
            assert(memory[a].0 != memory[b].0);
        }
    }
}

/// Moving what is remembered to the front leaves no two trees for the same text.
proof fn lemma_moved_is_distinct<T>(memory: Seq<(Seq<char>, T)>, was: int)
    requires
        are_texts_distinct(memory),
        0 <= was < memory.len(),
    ensures
        are_texts_distinct(seq![memory[was]] + memory.remove(was)),
{
    let after = seq![memory[was]] + memory.remove(was);
    assert forall|i: int, j: int| 0 <= i < j < after.len() implies (#[trigger] after[i]).0 != (
    #[trigger] after[j]).0 by {
        let b = if was <= j - 1 {
            j
        } else {
            j - 1
        };
        assert(after[j] == memory[b]);
        if i == 0 {
            if b < was {
                assert(memory[b].0 != memory[was].0);
            } else {
                assert(memory[was].0 != memory[b].0);
            }
        } else {
            let a = if was <= i - 1 {
                i
            } else {
                i - 1
            };
            assert(after[i] == memory[a]);
            assert(memory[a].0 != memory[b].0);
        }
    }
}

impl<T> Default for SyntaxSlot<T> {
    fn default() -> (slot: Self)
        ensures
            slot@ == no_document::<T>(),
            slot@.is_valid(),
    {
        let slot = SyntaxSlot {
            full: None,
            viewport_cache: ViewportCache::default(),
            dirty: false,
            updated: false,
            change_id: 0,
            next_tree_id: 0,
            full_tree_memory: VecDeque::new(),
        };
        assert(slot@ =~= no_document::<T>());
        slot
    }
}

impl<T> SyntaxSlot<T> {
    /// Tells whether there was a change since this was last asked.
    pub fn take_updated(&mut self) -> (updated: bool)
        ensures
            updated == old(self)@.updated,
            final(self)@ == (DocumentView { updated: false, ..old(self)@ }),
    {
        let updated = self.updated;
        self.updated = false;
        updated
    }

    /// Hands out the number of a tree.
    pub fn alloc_tree_id(&mut self) -> (id: u64)
        ensures
            id == old(self)@.next_tree_id,
            final(self)@ == (DocumentView {
                next_tree_id: old(self)@.next_tree_id.wrapping_add(1),
                ..old(self)@
            }),
    {
        let id = self.next_tree_id;
        self.next_tree_id = self.next_tree_id.wrapping_add(1);
        id
    }

    /// Tells whether there is a tree.
    pub fn has_any_tree(&self) -> (any: bool)
        requires
            self@.is_valid(),
        ensures
            any == self@.is_in_use(),
    {
        self.full.is_some() || self.viewport_cache.has_any()
    }

    /// Finds the latest version of the document that a tree was made for.
    pub fn best_doc_version(&self) -> (version: Option<u64>)
        requires
            self@.is_valid(),
        ensures
            version == self@.version(),
    {
        let full = match &self.full {
            Some(tree) => Some(tree.doc_version),
            None => None,
        };
        later(full, self.viewport_cache.best_doc_version())
    }

    /// Drops the tree of the whole document, and those that are remembered.
    pub fn drop_full(&mut self)
        ensures
            final(self)@ == old(self)@.without_full(),
    {
        self.full = None;
        self.full_tree_memory.clear();
        assert(self@ =~= old(self)@.without_full());
    }

    /// Drops the trees of the viewports.
    pub fn drop_viewports(&mut self)
        ensures
            final(self)@ == old(self)@.without_viewports(),
            old(self)@.is_valid() ==> final(self)@.is_valid(),
    {
        self.viewport_cache.clear();
    }

    /// Drops all trees.
    pub fn drop_all_trees(&mut self)
        ensures
            final(self)@ == old(self)@.without_full().without_viewports(),
    {
        self.drop_full();
        self.drop_viewports();
    }

    /// Finds the tree that is remembered for a text.
    fn recall(&self, content: &Rope) -> (at: Option<usize>)
        ensures
            match at {
                Some(at) => recalled(self@.memory, rope_text(*content), 0) == Some(at as int) && at
                    < self.full_tree_memory.len(),
                None => recalled(self@.memory, rope_text(*content), 0) is None,
            },
    {
        for i in 0..self.full_tree_memory.len()
            invariant
                recalled(self@.memory, rope_text(*content), 0) == recalled(
                    self@.memory,
                    rope_text(*content),
                    i as int,
                ),
        {
            if rope_eq(&self.full_tree_memory[i].content, content) {
                return Some(i);
            }
        }
        None
    }

    /// Remembers the tree of the whole document for a text.
    pub fn remember_full_tree_for_content(&mut self, content: &Rope) where T: Clone
        requires
            old(self)@.is_valid(),
        ensures
            is_remembered(old(self)@, final(self)@, rope_text(*content)),
            final(self)@.is_valid(),
    {
        let ghost before = self@;
        let ghost text = rope_text(*content);
        let syntax = match &self.full {
            Some(full) => {
                if self.full_tree_memory.len() > 0 && rope_eq(
                    &self.full_tree_memory[0].content,
                    content,
                ) {
                    assert(before.memory[0].0 == text);
                    return;
                }
                full.syntax.clone()
            },
            None => return,
        };
        assert(cloned::<T>(before.full->0.syntax, syntax));
        proof {
            lemma_recalled(before.memory, text, 0);
            if before.memory.len() > 0 {
                assert(before.memory[0].0 != text);
            }
        }
        proof {
            lemma_remembered_is_distinct(before.memory, text, syntax);
        }
        let ghost all = self.full_tree_memory@;
        if let Some(at) = self.recall(content) {
            let _same = self.full_tree_memory.remove(at);
            assert(memory_view(self.full_tree_memory@) =~= before.memory.remove(at as int));
        }
        let ghost others = memory_view(self.full_tree_memory@);
        if self.full_tree_memory.len() >= FULL_TREE_MEMORY_CAP {
            let _oldest = self.full_tree_memory.pop_back();
            assert(memory_view(self.full_tree_memory@) =~= others.drop_last());
        }
        let ghost kept = memory_view(self.full_tree_memory@);
        self.full_tree_memory.push_front(
            FullTreeMemoryEntry { content: rope_clone(content), syntax },
        );
        assert(memory_view(self.full_tree_memory@) =~= seq![(text, syntax)] + kept);
        assert(self@ =~= (DocumentView {
            memory: remembered(before.memory, text, syntax),
            ..before
        }));
    }

    /// Takes back the tree that is remembered for a text, and tells whether there is one.
    pub fn restore_full_tree_for_content(&mut self, content: &Rope, doc_version: u64) -> (found:
        bool) where T: Clone
        requires
            old(self)@.is_valid(),
        ensures
            found == (recalled(old(self)@.memory, rope_text(*content), 0) is Some),
            is_restored(old(self)@, final(self)@, rope_text(*content), doc_version),
            final(self)@.is_valid(),
    {
        let ghost before = self@;
        let at = match self.recall(content) {
            Some(at) => at,
            None => return false,
        };
        proof {
            lemma_moved_is_distinct(before.memory, at as int);
        }
        let ghost all = self.full_tree_memory@;
        if let Some(entry) = self.full_tree_memory.remove(at) {
            assert(memory_view(self.full_tree_memory@) =~= before.memory.remove(at as int));
            let tree_id = self.alloc_tree_id();
            let syntax = entry.syntax.clone();
            assert(cloned::<T>(before.memory[at as int].1, syntax));
            self.full = Some(InstalledSyntax { syntax, doc_version, tree_id });
            let ghost rest = memory_view(self.full_tree_memory@);
            self.full_tree_memory.push_front(entry);
            assert(memory_view(self.full_tree_memory@) =~= seq![before.memory[at as int]] + rest);
            self.updated = true;
            self.change_id = self.change_id.wrapping_add(1);
            assert(self@ =~= (DocumentView {
                memory: seq![before.memory[at as int]] + before.memory.remove(at as int),
                ..before.with_full(syntax, doc_version)
            }));
        }
        true
    }

    /// Takes a tree for the whole document, unless it has one for a later version.
    pub fn install_full(&mut self, syntax: T, doc_version: u64) -> (change_id: u64)
        requires
            old(self)@.is_valid(),
        ensures
            final(self)@ == old(self)@.offered_full(syntax, doc_version),
            change_id == final(self)@.change_id,
            final(self)@.is_valid(),
    {
        let stale = match &self.full {
            Some(current) => current.doc_version > doc_version,
            None => false,
        };
        if stale {
            return self.change_id;
        }
        let tree_id = self.alloc_tree_id();
        self.full = Some(InstalledSyntax { syntax, doc_version, tree_id });
        self.dirty = false;
        self.updated = true;
        self.change_id = self.change_id.wrapping_add(1);
        self.change_id
    }

    /// Takes a tree for a viewport, unless there is one for a later version.
    pub fn install_viewport(
        &mut self,
        key: ViewportKey,
        syntax: T,
        coverage: Range<u32>,
        doc_version: u64,
        enriched: bool,
    ) -> (change_id: u64)
        requires
            old(self)@.is_valid(),
        ensures
            final(self)@ == old(self)@.offered_viewport(
                key,
                syntax,
                coverage,
                doc_version,
                enriched,
            ),
            change_id == final(self)@.change_id,
            final(self)@.is_valid(),
    {
        let stale = match self.best_doc_version() {
            Some(current) => current > doc_version,
            None => false,
        };
        if stale {
            return self.change_id;
        }
        let tree_id = self.alloc_tree_id();
        let tree = Some(ViewportSyntax { syntax, doc_version, tree_id, coverage });
        let entry = self.viewport_cache.get_mut_or_insert(key);
        if enriched {
            entry.stage_b = tree;
        } else {
            entry.stage_a = tree;
        }
        self.updated = true;
        self.change_id = self.change_id.wrapping_add(1);
        self.change_id
    }
}

/// How well a tree serves.
#[derive(Debug, Clone, Copy, PartialEq, Eq, PartialOrd, Ord, Structural)]
pub struct CandidateScore {
    pub matches_doc_version: bool,
    pub is_full: bool,
    pub enriched: bool,
    pub tree_doc_version: u64,
}

/// Whether a tree serves better than another: one for the version of the document comes first, then
/// one for the whole document, then an enriched one, then the later one.
pub open spec fn serves_better(a: CandidateScore, b: CandidateScore) -> bool {
    if a.matches_doc_version != b.matches_doc_version {
        a.matches_doc_version
    } else if a.is_full != b.is_full {
        a.is_full
    } else if a.enriched != b.enriched {
        a.enriched
    } else {
        a.tree_doc_version > b.tree_doc_version
    }
}

impl CandidateScore {
    /// How well a tree serves for a version of the document.
    pub fn new(tree_doc_version: u64, is_full: bool, enriched: bool, doc_version: u64) -> (score:
        Self)
        ensures
            score == score_of(tree_doc_version, is_full, enriched, doc_version),
    {
        CandidateScore {
            matches_doc_version: tree_doc_version == doc_version,
            is_full,
            enriched,
            tree_doc_version,
        }
    }

    /// Tells whether a tree serves better than another.
    pub fn beats(self, other: CandidateScore) -> (better: bool)
        ensures
            better == serves_better(self, other),
    {
        if self.matches_doc_version != other.matches_doc_version {
            self.matches_doc_version
        } else if self.is_full != other.is_full {
            self.is_full
        } else if self.enriched != other.enriched {
            self.enriched
        } else {
            self.tree_doc_version > other.tree_doc_version
        }
    }
}

/// How well a tree serves for a version of the document.
pub open spec fn score_of(
    tree_doc_version: u64,
    is_full: bool,
    enriched: bool,
    doc_version: u64,
) -> CandidateScore {
    CandidateScore {
        matches_doc_version: tree_doc_version == doc_version,
        is_full,
        enriched,
        tree_doc_version,
    }
}

/// Whether a tree covers a part of a viewport. One for the whole document does.
pub open spec fn is_over(coverage: Option<Range<u32>>, viewport: Range<u32>) -> bool {
    match coverage {
        None => true,
        Some(coverage) => viewport.start < coverage.end && viewport.end > coverage.start,
    }
}

/// Tells whether a tree covers a part of a viewport.
pub fn overlaps(coverage: Option<&Range<u32>>, viewport: &Range<u32>) -> (over: bool)
    ensures
        over == is_over(
            match coverage {
                Some(coverage) => Some(*coverage),
                None => None,
            },
            *viewport,
        ),
{
    match coverage {
        None => true,
        Some(coverage) => viewport.start < coverage.end && viewport.end > coverage.start,
    }
}

/// A tree that may serve.
#[verifier::ext_equal]
pub struct Candidate<T> {
    pub syntax: T,
    pub tree_id: u64,
    pub tree_doc_version: u64,
    pub coverage: Option<Range<u32>>,
    pub enriched: bool,
}

impl<T> Candidate<T> {
    /// How well the tree serves.
    pub open spec fn score(self, doc_version: u64) -> CandidateScore {
        score_of(self.tree_doc_version, self.coverage is None, self.enriched, doc_version)
    }
}

/// The tree of a viewport as one that may serve.
pub open spec fn viewport_candidate<T>(tree: ViewportSyntax<T>, enriched: bool) -> Candidate<T> {
    Candidate {
        syntax: tree.syntax,
        tree_id: tree.tree_id,
        tree_doc_version: tree.doc_version,
        coverage: Some(tree.coverage),
        enriched,
    }
}

/// The trees of a viewport, the enriched one first.
pub open spec fn stage_candidates<T>(entry: ViewportEntry<T>) -> Seq<Candidate<T>> {
    let enriched = match entry.stage_b {
        Some(tree) => seq![viewport_candidate(tree, true)],
        None => Seq::empty(),
    };
    let quick = match entry.stage_a {
        Some(tree) => seq![viewport_candidate(tree, false)],
        None => Seq::empty(),
    };
    enriched + quick
}

/// The trees of some viewports.
pub open spec fn viewport_candidates<T>(
    order: Seq<ViewportKey>,
    map: Map<u32, ViewportEntry<T>>,
) -> Seq<Candidate<T>>
    decreases order.len(),
{
    if order.len() == 0 {
        Seq::empty()
    } else {
        viewport_candidates(order.drop_last(), map) + stage_candidates(map[order.last().0])
    }
}

impl<T> DocumentView<T> {
    /// The tree of the whole document as one that may serve.
    pub open spec fn full_candidate(self) -> Seq<Candidate<T>> {
        match self.full {
            Some(full) => seq![
                Candidate {
                    syntax: full.syntax,
                    tree_id: full.tree_id,
                    tree_doc_version: full.doc_version,
                    coverage: None,
                    enriched: false,
                },
            ],
            None => Seq::empty(),
        }
    }

    /// All trees that may serve: that of the whole document, then those of the viewports in the
    /// order of their last use.
    pub open spec fn candidates(self) -> Seq<Candidate<T>> {
        self.full_candidate() + viewport_candidates(self.viewports.order, self.viewports.map)
    }
}

/// The best tree so far, and one more.
pub open spec fn better_of<T>(
    best: Option<Candidate<T>>,
    next: Candidate<T>,
    doc_version: u64,
) -> Option<Candidate<T>> {
    match best {
        Some(best) => if serves_better(next.score(doc_version), best.score(doc_version)) {
            Some(next)
        } else {
            Some(best)
        },
        None => Some(next),
    }
}

/// The best tree over a viewport, and the best one elsewhere. Of equals the first counts.
pub open spec fn best_of<T>(
    candidates: Seq<Candidate<T>>,
    doc_version: u64,
    viewport: Range<u32>,
) -> (Option<Candidate<T>>, Option<Candidate<T>>)
    decreases candidates.len(),
{
    if candidates.len() == 0 {
        (None, None)
    } else {
        let (over, elsewhere) = best_of(candidates.drop_last(), doc_version, viewport);
        let next = candidates.last();
        if is_over(next.coverage, viewport) {
            (better_of(over, next, doc_version), elsewhere)
        } else {
            (over, better_of(elsewhere, next, doc_version))
        }
    }
}

/// The tree that serves a viewport best. One that lies over it is preferred to all others.
pub open spec fn chosen<T>(
    candidates: Seq<Candidate<T>>,
    doc_version: u64,
    viewport: Range<u32>,
) -> Option<Candidate<T>> {
    let (over, elsewhere) = best_of(candidates, doc_version, viewport);
    if over is Some {
        over
    } else {
        elsewhere
    }
}

/// A tree that was chosen.
#[derive(Debug)]
pub struct SyntaxSelection<'a, T> {
    pub syntax: &'a T,
    pub tree_id: u64,
    pub tree_doc_version: u64,
    /// The bytes that the tree covers, unless it covers the whole document.
    pub coverage: Option<Range<u32>>,
}

impl<'a, T> SyntaxSelection<'a, T> {
    /// Whether this is a tree that may serve.
    pub open spec fn is_of(self, candidate: Candidate<T>) -> bool {
        &&& *self.syntax == candidate.syntax
        &&& self.tree_id == candidate.tree_id
        &&& self.tree_doc_version == candidate.tree_doc_version
        &&& self.coverage == candidate.coverage
    }
}

/// A tree that may serve, by reference.
struct CandidateSelection<'a, T> {
    syntax: &'a T,
    tree_id: u64,
    tree_doc_version: u64,
    coverage: Option<&'a Range<u32>>,
    score: CandidateScore,
}

impl<'a, T> CandidateSelection<'a, T> {
    spec fn stands_for(self, candidate: Candidate<T>, doc_version: u64) -> bool {
        &&& *self.syntax == candidate.syntax
        &&& self.tree_id == candidate.tree_id
        &&& self.tree_doc_version == candidate.tree_doc_version
        &&& candidate.coverage == match self.coverage {
            Some(coverage) => Some(*coverage),
            None => None,
        }
        &&& self.score == candidate.score(doc_version)
    }

    /// Takes the tree as the one that was chosen.
    fn into_selection(self) -> (selection: SyntaxSelection<'a, T>)
        ensures
            forall|candidate: Candidate<T>, doc_version: u64| #[trigger]
                self.stands_for(candidate, doc_version) ==> selection.is_of(candidate),
    {
        SyntaxSelection {
            syntax: self.syntax,
            tree_id: self.tree_id,
            tree_doc_version: self.tree_doc_version,
            coverage: match self.coverage {
                Some(coverage) => Some(copy_range(coverage)),
                None => None,
            },
        }
    }
}

/// Whether an option is what it should be.
spec fn both_stand<T>(
    found: Option<CandidateSelection<'_, T>>,
    expected: Option<Candidate<T>>,
    doc_version: u64,
) -> bool {
    match found {
        Some(found) => expected matches Some(candidate) && found.stands_for(candidate, doc_version),
        None => expected is None,
    }
}

/// Takes a tree into account.
fn consider_candidate<'a, T>(
    best_overlapping: &mut Option<CandidateSelection<'a, T>>,
    best_any: &mut Option<CandidateSelection<'a, T>>,
    selection: CandidateSelection<'a, T>,
    viewport: &Range<u32>,
    Ghost(doc_version): Ghost<u64>,
    Ghost(seen): Ghost<Seq<Candidate<T>>>,
    Ghost(next): Ghost<Candidate<T>>,
)
    requires
        selection.stands_for(next, doc_version),
        both_stand(*old(best_overlapping), best_of(seen, doc_version, *viewport).0, doc_version),
        both_stand(*old(best_any), best_of(seen, doc_version, *viewport).1, doc_version),
    ensures
        both_stand(
            *final(best_overlapping),
            best_of(seen.push(next), doc_version, *viewport).0,
            doc_version,
        ),
        both_stand(
            *final(best_any),
            best_of(seen.push(next), doc_version, *viewport).1,
            doc_version,
        ),
{
    assert(seen.push(next).drop_last() =~= seen);
    if overlaps(selection.coverage, viewport) {
        let better = match best_overlapping {
            Some(best) => selection.score.beats(best.score),
            None => true,
        };
        if better {
            *best_overlapping = Some(selection);
        }
    } else {
        let better = match best_any {
            Some(best) => selection.score.beats(best.score),
            None => true,
        };
        if better {
            *best_any = Some(selection);
        }
    }
}

impl<T> SyntaxSlot<T> {
    /// Finds the tree that serves a viewport best.
    pub fn syntax_for_viewport(&self, doc_version: u64, viewport: Range<u32>) -> (selection: Option<
        SyntaxSelection<'_, T>,
    >)
        requires
            self@.is_valid(),
        ensures
            match selection {
                Some(selection) => chosen(self@.candidates(), doc_version, viewport) matches Some(
                    candidate,
                ) && selection.is_of(candidate),
                None => chosen(self@.candidates(), doc_version, viewport) is None,
            },
    {
        let mut best_overlapping: Option<CandidateSelection<'_, T>> = None;
        let mut best_any: Option<CandidateSelection<'_, T>> = None;
        let ghost mut seen = Seq::<Candidate<T>>::empty();
        if let Some(full) = &self.full {
            let ghost next = self@.full_candidate()[0];
            consider_candidate(
                &mut best_overlapping,
                &mut best_any,
                CandidateSelection {
                    syntax: &full.syntax,
                    tree_id: full.tree_id,
                    tree_doc_version: full.doc_version,
                    coverage: None,
                    score: CandidateScore::new(full.doc_version, true, false, doc_version),
                },
                &viewport,
                Ghost(doc_version),
                Ghost(seen),
                Ghost(next),
            );
            proof {
                seen = seen.push(next);
            }
        }
        let ghost order = self@.viewports.order;
        let ghost map = self@.viewports.map;
        let ghost first = self@.full_candidate();
        let entries = self.viewport_cache.entries_mru();
        assert(order.take(0) =~= Seq::empty());
        assert(seen =~= first + viewport_candidates(order.take(0), map));
        for i in 0..entries.len()
            invariant
                order == self@.viewports.order,
                map == self@.viewports.map,
                first == self@.full_candidate(),
                entries.len() == order.len(),
                forall|k: int|
                    0 <= k < entries.len() ==> *(#[trigger] entries@[k]) == map[order[k].0],
                seen == first + viewport_candidates(order.take(i as int), map),
                both_stand(
                    best_overlapping,
                    best_of(seen, doc_version, viewport).0,
                    doc_version,
                ),
                both_stand(best_any, best_of(seen, doc_version, viewport).1, doc_version),
        {
            let entry = entries[i];
            let ghost before = seen;
            proof {
                assert(order.take(i + 1).drop_last() =~= order.take(i as int));
                assert(order.take(i + 1).last() == order[i as int]);
            }
            if let Some(tree) = &entry.stage_b {
                let ghost next = viewport_candidate(*tree, true);
                consider_candidate(
                    &mut best_overlapping,
                    &mut best_any,
                    CandidateSelection {
                        syntax: &tree.syntax,
                        tree_id: tree.tree_id,
                        tree_doc_version: tree.doc_version,
                        coverage: Some(&tree.coverage),
                        score: CandidateScore::new(tree.doc_version, false, true, doc_version),
                    },
                    &viewport,
                    Ghost(doc_version),
                    Ghost(seen),
                    Ghost(next),
                );
                proof {
                    seen = seen.push(next);
                }
            }
            if let Some(tree) = &entry.stage_a {
                let ghost next = viewport_candidate(*tree, false);
                consider_candidate(
                    &mut best_overlapping,
                    &mut best_any,
                    CandidateSelection {
                        syntax: &tree.syntax,
                        tree_id: tree.tree_id,
                        tree_doc_version: tree.doc_version,
                        coverage: Some(&tree.coverage),
                        score: CandidateScore::new(tree.doc_version, false, false, doc_version),
                    },
                    &viewport,
                    Ghost(doc_version),
                    Ghost(seen),
                    Ghost(next),
                );
                proof {
                    seen = seen.push(next);
                }
            }
            assert(seen =~= before + stage_candidates(*entry));
            assert(seen =~= first + viewport_candidates(order.take(i + 1), map));
        }
        assert(order.take(order.len() as int) =~= order);
        match best_overlapping {
            Some(best) => Some(best.into_selection()),
            None => match best_any {
                Some(best) => Some(best.into_selection()),
                None => None,
            },
        }
    }

    /// Finds the tree of the whole document, or else the first one of the viewports in the order of
    /// their last use, an enriched one first.
    pub fn best_syntax(&self) -> (selection: Option<SyntaxSelection<'_, T>>)
        requires
            self@.is_valid(),
        ensures
            match selection {
                Some(selection) => self@.candidates().len() > 0 && selection.is_of(
                    self@.candidates()[0],
                ),
                None => self@.candidates().len() == 0,
            },
    {
        if let Some(full) = &self.full {
            return Some(
                SyntaxSelection {
                    syntax: &full.syntax,
                    tree_id: full.tree_id,
                    tree_doc_version: full.doc_version,
                    coverage: None,
                },
            );
        }
        let ghost order = self@.viewports.order;
        let ghost map = self@.viewports.map;
        let entries = self.viewport_cache.entries_mru();
        assert(order.take(0) =~= Seq::empty());
        assert(order.take(order.len() as int) =~= order);
        for i in 0..entries.len()
            invariant
                self@.full is None,
                order == self@.viewports.order,
                map == self@.viewports.map,
                entries.len() == order.len(),
                order.take(order.len() as int) == order,
                forall|k: int|
                    0 <= k < entries.len() ==> *(#[trigger] entries@[k]) == map[order[k].0],
                viewport_candidates(order.take(i as int), map).len() == 0,
        {
            let entry = entries[i];
            proof {
                assert(order.take(i + 1).drop_last() =~= order.take(i as int));
                assert(order.take(i + 1).last() == order[i as int]);
                lemma_first_candidate(order, map, i + 1);
                assert(self@.candidates() =~= viewport_candidates(order, map));
                assert(viewport_candidates(order.take(i + 1), map) =~= stage_candidates(*entry));
            }
            if let Some(tree) = &entry.stage_b {
                assert(stage_candidates(*entry)[0] == viewport_candidate(*tree, true));
                assert(viewport_candidates(order.take(i + 1), map)[0] == viewport_candidate(
                    *tree,
                    true,
                ));
                return Some(
                    SyntaxSelection {
                        syntax: &tree.syntax,
                        tree_id: tree.tree_id,
                        tree_doc_version: tree.doc_version,
                        coverage: Some(copy_range(&tree.coverage)),
                    },
                );
            }
            if let Some(tree) = &entry.stage_a {
                assert(stage_candidates(*entry)[0] == viewport_candidate(*tree, false));
                assert(viewport_candidates(order.take(i + 1), map)[0] == viewport_candidate(
                    *tree,
                    false,
                ));
                return Some(
                    SyntaxSelection {
                        syntax: &tree.syntax,
                        tree_id: tree.tree_id,
                        tree_doc_version: tree.doc_version,
                        coverage: Some(copy_range(&tree.coverage)),
                    },
                );
            }
        }
        None
    }
}

/// The trees of the first viewports come first.
proof fn lemma_first_candidate<T>(
    order: Seq<ViewportKey>,
    map: Map<u32, ViewportEntry<T>>,
    count: int,
)
    requires
        0 <= count <= order.len(),
    ensures
        viewport_candidates(order.take(count), map).len() <= viewport_candidates(order, map).len(),
        forall|i: int|
            0 <= i < viewport_candidates(order.take(count), map).len()
                ==> #[trigger] viewport_candidates(order.take(count), map)[i]
                == viewport_candidates(order, map)[i],
    decreases order.len(),
{
    if count < order.len() {
        assert(order.drop_last().take(count) =~= order.take(count));
        lemma_first_candidate(order.drop_last(), map, count);
    } else {
        assert(order.take(count) =~= order);
    }
}

/// The syntax trees of all documents.
#[derive(Debug)]
pub struct SyntaxManager<T> {
    entries: HashMap<u64, SyntaxSlot<T>>,
}

/// What is known of documents.
pub open spec fn documents_in<T>(entries: Map<u64, SyntaxSlot<T>>) -> Map<u64, DocumentView<T>> {
    entries.map_values(|slot: SyntaxSlot<T>| slot@)
}

/// What is known of a document. Nothing is known of one that was never heard of.
pub open spec fn known<T>(documents: Map<u64, DocumentView<T>>, doc_id: DocumentId) -> DocumentView<
    T,
> {
    if documents.dom().contains(doc_id.0) {
        documents[doc_id.0]
    } else {
        no_document()
    }
}

/// Whether what is known of each document is in order.
pub open spec fn all_valid<T>(documents: Map<u64, DocumentView<T>>) -> bool {
    forall|id: u64| #[trigger] documents.dom().contains(id) ==> documents[id].is_valid()
}

/// What is known of documents once one of them has changed. Nothing changes if it was never heard
/// of.
pub open spec fn changed<T>(
    documents: Map<u64, DocumentView<T>>,
    doc_id: DocumentId,
    document: DocumentView<T>,
) -> Map<u64, DocumentView<T>> {
    if documents.dom().contains(doc_id.0) {
        documents.insert(doc_id.0, document)
    } else {
        documents
    }
}

impl<T> View for SyntaxManager<T> {
    type V = Map<u64, DocumentView<T>>;

    closed spec fn view(&self) -> Map<u64, DocumentView<T>> {
        documents_in(self.entries@)
    }
}

impl<T> Default for SyntaxManager<T> {
    fn default() -> (manager: Self)
        ensures
            manager@ == Map::<u64, DocumentView<T>>::empty(),
    {
        let manager = SyntaxManager { entries: HashMap::new() };
        assert(manager@ =~= Map::<u64, DocumentView<T>>::empty());
        manager
    }
}

impl<T> SyntaxManager<T> {
    /// A manager that has not heard of any document.
    pub fn new() -> (manager: Self)
        ensures
            manager@ == Map::<u64, DocumentView<T>>::empty(),
    {
        SyntaxManager::default()
    }

    /// The trees of a document.
    pub fn document(&self, doc_id: DocumentId) -> (slot: Option<&SyntaxSlot<T>>)
        ensures
            match slot {
                Some(slot) => self@.dom().contains(doc_id.0) && self@[doc_id.0] == slot@,
                None => !self@.dom().contains(doc_id.0),
            },
    {
        self.entries.get(&doc_id.0)
    }

    /// The trees of a document, which is added if it was never heard of.
    pub fn document_mut(&mut self, doc_id: DocumentId) -> (slot: &mut SyntaxSlot<T>)
        ensures
            slot@ == known(old(self)@, doc_id),
            final(self)@ == old(self)@.insert(doc_id.0, final(slot)@),
    {
        broadcast use lemma_documents_insert;

        self.entries.entry(doc_id.0).or_insert(SyntaxSlot::default())
    }

    /// Forgets a document, and tells whether it was known.
    pub fn remove_document(&mut self, doc_id: DocumentId) -> (known: bool)
        ensures
            known == old(self)@.dom().contains(doc_id.0),
            final(self)@ == old(self)@.remove(doc_id.0),
    {
        let ghost before = self.entries@;
        let removed = self.entries.remove(&doc_id.0);
        assert(documents_in(self.entries@) =~= documents_in(before).remove(doc_id.0));
        removed.is_some()
    }

    /// Tells whether there is a tree for a document.
    pub fn has_syntax(&self, doc_id: DocumentId) -> (any: bool)
        requires
            all_valid(self@),
        ensures
            any == (self@.dom().contains(doc_id.0) && self@[doc_id.0].is_in_use()),
    {
        match self.document(doc_id) {
            Some(slot) => slot.has_any_tree(),
            None => false,
        }
    }

    /// Tells whether a document has changed since it was last parsed.
    pub fn is_dirty(&self, doc_id: DocumentId) -> (dirty: bool)
        ensures
            dirty == known(self@, doc_id).dirty,
    {
        match self.document(doc_id) {
            Some(slot) => slot.dirty,
            None => false,
        }
    }

    /// Counts the changes of the trees of a document.
    pub fn syntax_version(&self, doc_id: DocumentId) -> (version: u64)
        ensures
            version == known(self@, doc_id).change_id,
    {
        match self.document(doc_id) {
            Some(slot) => slot.change_id,
            None => 0,
        }
    }

    /// Puts back the trees of a document that were taken out.
    fn put_back(&mut self, doc_id: DocumentId, slot: SyntaxSlot<T>)
        ensures
            final(self)@ == old(self)@.insert(doc_id.0, slot@),
    {
        let ghost before = self.entries@;
        let _none = self.entries.insert(doc_id.0, slot);
        assert(documents_in(self.entries@) =~= documents_in(before).insert(doc_id.0, slot@));
    }

    /// Takes out the trees of a document.
    fn take_out(&mut self, doc_id: DocumentId) -> (slot: Option<SyntaxSlot<T>>)
        ensures
            match slot {
                Some(slot) => old(self)@.dom().contains(doc_id.0) && old(self)@[doc_id.0] == slot@
                    && final(self)@ == old(self)@.remove(doc_id.0),
                None => !old(self)@.dom().contains(doc_id.0) && final(self)@ == old(self)@,
            },
    {
        let ghost before = self.entries@;
        let slot = self.entries.remove(&doc_id.0);
        assert(documents_in(self.entries@) =~= documents_in(before).remove(doc_id.0));
        assert(slot is None ==> self@ =~= documents_in(before));
        slot
    }

    /// Takes note that a document has changed.
    pub fn mark_dirty(&mut self, doc_id: DocumentId)
        ensures
            final(self)@ == changed(
                old(self)@,
                doc_id,
                (DocumentView { dirty: true, ..known(old(self)@, doc_id) }),
            ),
    {
        if let Some(mut slot) = self.take_out(doc_id) {
            slot.dirty = true;
            self.put_back(doc_id, slot);
            assert(self@ =~= old(self)@.insert(doc_id.0, slot@));
        }
    }

    /// Tells whether the trees of a document have changed since this was last asked.
    pub fn take_updated(&mut self, doc_id: DocumentId) -> (updated: bool)
        ensures
            updated == known(old(self)@, doc_id).updated,
            final(self)@ == changed(
                old(self)@,
                doc_id,
                (DocumentView { updated: false, ..known(old(self)@, doc_id) }),
            ),
    {
        let mut updated = false;
        if let Some(mut slot) = self.take_out(doc_id) {
            updated = slot.take_updated();
            self.put_back(doc_id, slot);
            assert(self@ =~= old(self)@.insert(doc_id.0, slot@));
        }
        updated
    }

    /// Drops the tree of a whole document, and those that it remembers.
    pub fn drop_full(&mut self, doc_id: DocumentId)
        ensures
            final(self)@ == changed(
                old(self)@,
                doc_id,
                known(old(self)@, doc_id).without_full(),
            ),
    {
        if let Some(mut slot) = self.take_out(doc_id) {
            slot.drop_full();
            self.put_back(doc_id, slot);
            assert(self@ =~= old(self)@.insert(doc_id.0, slot@));
        }
    }

    /// Drops the trees of the viewports of a document.
    pub fn drop_viewports(&mut self, doc_id: DocumentId)
        ensures
            final(self)@ == changed(
                old(self)@,
                doc_id,
                known(old(self)@, doc_id).without_viewports(),
            ),
    {
        if let Some(mut slot) = self.take_out(doc_id) {
            slot.drop_viewports();
            self.put_back(doc_id, slot);
            assert(self@ =~= old(self)@.insert(doc_id.0, slot@));
        }
    }

    /// Drops all trees of a document.
    pub fn drop_all_trees(&mut self, doc_id: DocumentId)
        ensures
            final(self)@ == changed(
                old(self)@,
                doc_id,
                known(old(self)@, doc_id).without_full().without_viewports(),
            ),
    {
        if let Some(mut slot) = self.take_out(doc_id) {
            slot.drop_all_trees();
            self.put_back(doc_id, slot);
            assert(self@ =~= old(self)@.insert(doc_id.0, slot@));
        }
    }

    /// Remembers the tree of a whole document for a text.
    pub fn remember_full_tree_for_content(&mut self, doc_id: DocumentId, content: &Rope) where
        T: Clone,

        requires
            all_valid(old(self)@),
        ensures
            all_valid(final(self)@),
            final(self)@ == changed(old(self)@, doc_id, known(final(self)@, doc_id)),
            old(self)@.dom().contains(doc_id.0) ==> is_remembered(
                old(self)@[doc_id.0],
                final(self)@[doc_id.0],
                rope_text(*content),
            ),
    {
        if let Some(mut slot) = self.take_out(doc_id) {
            slot.remember_full_tree_for_content(content);
            self.put_back(doc_id, slot);
            assert(self@ =~= old(self)@.insert(doc_id.0, slot@));
        }
    }

    /// Takes back the tree that a document remembers for a text, and tells whether there is one.
    pub fn restore_full_tree_for_content(
        &mut self,
        doc_id: DocumentId,
        content: &Rope,
        doc_version: u64,
    ) -> (found: bool) where T: Clone
        requires
            all_valid(old(self)@),
        ensures
            all_valid(final(self)@),
            found == (recalled(known(old(self)@, doc_id).memory, rope_text(*content), 0) is Some),
            final(self)@ == changed(old(self)@, doc_id, known(final(self)@, doc_id)),
            old(self)@.dom().contains(doc_id.0) ==> is_restored(
                old(self)@[doc_id.0],
                final(self)@[doc_id.0],
                rope_text(*content),
                doc_version,
            ),
    {
        let mut found = false;
        if let Some(mut slot) = self.take_out(doc_id) {
            found = slot.restore_full_tree_for_content(content, doc_version);
            self.put_back(doc_id, slot);
            assert(self@ =~= old(self)@.insert(doc_id.0, slot@));
        }
        found
    }

    /// Finds the tree of a whole document.
    pub fn full_syntax_for_doc(&self, doc_id: DocumentId) -> (syntax: Option<&T>)
        ensures
            match syntax {
                Some(syntax) => known(self@, doc_id).full matches Some(full) && full.syntax
                    == *syntax,
                None => known(self@, doc_id).full is None,
            },
    {
        match self.document(doc_id) {
            Some(slot) => match &slot.full {
                Some(full) => Some(&full.syntax),
                None => None,
            },
            None => None,
        }
    }

    /// Finds the tree of a whole document, or else the first one of its viewports.
    pub fn best_syntax_for_doc(&self, doc_id: DocumentId) -> (selection: Option<
        SyntaxSelection<'_, T>,
    >)
        requires
            all_valid(self@),
        ensures
            match selection {
                Some(selection) => known(self@, doc_id).candidates().len() > 0 && selection.is_of(
                    known(self@, doc_id).candidates()[0],
                ),
                None => known(self@, doc_id).candidates().len() == 0,
            },
    {
        match self.document(doc_id) {
            Some(slot) => slot.best_syntax(),
            None => None,
        }
    }

    /// Finds the tree of a whole document, or else the first one of its viewports.
    pub fn syntax_for_doc(&self, doc_id: DocumentId) -> (syntax: Option<&T>)
        requires
            all_valid(self@),
        ensures
            match syntax {
                Some(syntax) => known(self@, doc_id).candidates().len() > 0 && known(
                    self@,
                    doc_id,
                ).candidates()[0].syntax == *syntax,
                None => known(self@, doc_id).candidates().len() == 0,
            },
    {
        match self.best_syntax_for_doc(doc_id) {
            Some(selection) => Some(selection.syntax),
            None => None,
        }
    }

    /// Finds the tree that serves a viewport of a document best.
    pub fn syntax_for_viewport(
        &self,
        doc_id: DocumentId,
        doc_version: u64,
        viewport: Range<u32>,
    ) -> (selection: Option<SyntaxSelection<'_, T>>)
        requires
            all_valid(self@),
        ensures
            match selection {
                Some(selection) => chosen(
                    known(self@, doc_id).candidates(),
                    doc_version,
                    viewport,
                ) matches Some(candidate) && selection.is_of(candidate),
                None => chosen(known(self@, doc_id).candidates(), doc_version, viewport) is None,
            },
    {
        match self.document(doc_id) {
            Some(slot) => slot.syntax_for_viewport(doc_version, viewport),
            None => None,
        }
    }

    /// Takes a tree for a whole document, unless it has one for a later version. Returns how often
    /// the trees of the document have changed.
    pub fn install_full(&mut self, doc_id: DocumentId, syntax: T, doc_version: u64) -> (change_id:
        u64)
        requires
            all_valid(old(self)@),
        ensures
            all_valid(final(self)@),
            final(self)@ == old(self)@.insert(
                doc_id.0,
                known(old(self)@, doc_id).offered_full(syntax, doc_version),
            ),
            change_id == final(self)@[doc_id.0].change_id,
    {
        self.document_mut(doc_id).install_full(syntax, doc_version)
    }

    /// Takes a quick tree for a viewport of a document, unless there is one for a later version.
    pub fn install_viewport_stage_a(
        &mut self,
        doc_id: DocumentId,
        key: ViewportKey,
        syntax: T,
        coverage: Range<u32>,
        doc_version: u64,
    ) -> (change_id: u64)
        requires
            all_valid(old(self)@),
        ensures
            all_valid(final(self)@),
            final(self)@ == old(self)@.insert(
                doc_id.0,
                known(old(self)@, doc_id).offered_viewport(
                    key,
                    syntax,
                    coverage,
                    doc_version,
                    false,
                ),
            ),
            change_id == final(self)@[doc_id.0].change_id,
    {
        self.document_mut(doc_id).install_viewport(key, syntax, coverage, doc_version, false)
    }

    /// Takes an enriched tree for a viewport of a document, unless there is one for a later
    /// version.
    pub fn install_viewport_stage_b(
        &mut self,
        doc_id: DocumentId,
        key: ViewportKey,
        syntax: T,
        coverage: Range<u32>,
        doc_version: u64,
    ) -> (change_id: u64)
        requires
            all_valid(old(self)@),
        ensures
            all_valid(final(self)@),
            final(self)@ == old(self)@.insert(
                doc_id.0,
                known(old(self)@, doc_id).offered_viewport(
                    key,
                    syntax,
                    coverage,
                    doc_version,
                    true,
                ),
            ),
            change_id == final(self)@[doc_id.0].change_id,
    {
        self.document_mut(doc_id).install_viewport(key, syntax, coverage, doc_version, true)
    }
}

broadcast proof fn lemma_documents_insert<T>(
    entries: Map<u64, SyntaxSlot<T>>,
    id: u64,
    slot: SyntaxSlot<T>,
)
    ensures
        #[trigger] documents_in(entries.insert(id, slot)) == documents_in(entries).insert(
            id,
            slot@,
        ),
{
    assert(documents_in(entries.insert(id, slot)) =~= documents_in(entries).insert(id, slot@));
}

proof fn lemma_serves_better_is_an_order(a: CandidateScore, b: CandidateScore, c: CandidateScore)
    ensures
        !serves_better(a, a),
        serves_better(a, b) && serves_better(b, c) ==> serves_better(a, c),
        !serves_better(b, a) && serves_better(b, c) ==> serves_better(a, c),
        !serves_better(a, b) && !serves_better(b, a) ==> a == b,
{
}

/// Whether no tree of those over a viewport, or of those elsewhere, serves better.
pub open spec fn is_best<T>(
    best: Option<Candidate<T>>,
    candidates: Seq<Candidate<T>>,
    doc_version: u64,
    viewport: Range<u32>,
    over: bool,
) -> bool {
    &&& best is None <==> forall|i: int|
        0 <= i < candidates.len() ==> is_over((#[trigger] candidates[i]).coverage, viewport)
            != over
    &&& best matches Some(best) ==> {
        &&& candidates.contains(best)
        &&& is_over(best.coverage, viewport) == over
        &&& forall|i: int|
            0 <= i < candidates.len() && is_over((#[trigger] candidates[i]).coverage, viewport)
                == over ==> !serves_better(
                candidates[i].score(doc_version),
                best.score(doc_version),
            )
    }
}

/// No tree over a viewport serves better than the one that is found there, and none elsewhere than
/// the one that is found elsewhere.
pub proof fn lemma_best_of_is_best<T>(
    candidates: Seq<Candidate<T>>,
    doc_version: u64,
    viewport: Range<u32>,
)
    ensures
        is_best(
            best_of(candidates, doc_version, viewport).0,
            candidates,
            doc_version,
            viewport,
            true,
        ),
        is_best(
            best_of(candidates, doc_version, viewport).1,
            candidates,
            doc_version,
            viewport,
            false,
        ),
    decreases candidates.len(),
{
    if candidates.len() > 0 {
        let front = candidates.drop_last();
        lemma_best_of_is_best(front, doc_version, viewport);
        let (over, elsewhere) = best_of(front, doc_version, viewport);
        let (now_over, now_elsewhere) = best_of(candidates, doc_version, viewport);
        lemma_better_is_best(over, now_over, candidates, doc_version, viewport, true);
        lemma_better_is_best(elsewhere, now_elsewhere, candidates, doc_version, viewport, false);
    }
}

proof fn lemma_better_is_best<T>(
    before: Option<Candidate<T>>,
    after: Option<Candidate<T>>,
    candidates: Seq<Candidate<T>>,
    doc_version: u64,
    viewport: Range<u32>,
    over: bool,
)
    requires
        candidates.len() > 0,
        is_best(before, candidates.drop_last(), doc_version, viewport, over),
        after == if is_over(candidates.last().coverage, viewport) == over {
            better_of(before, candidates.last(), doc_version)
        } else {
            before
        },
    ensures
        is_best(after, candidates, doc_version, viewport, over),
{
    let front = candidates.drop_last();
    let next = candidates.last();
    let last = candidates.len() - 1;
    assert(candidates[last] == next);
    assert forall|i: int| 0 <= i < last implies candidates[i] == #[trigger] front[i] by {
    }
    if let Some(best) = after {
        assert(candidates.contains(best)) by {
            if best != next {
                assert(front.contains(best));
                let i = choose|i: int| 0 <= i < front.len() && front[i] == best;
                assert(candidates[i] == best);
            }
        }
        assert forall|i: int|
            0 <= i < candidates.len() && is_over((#[trigger] candidates[i]).coverage, viewport)
                == over implies !serves_better(
            candidates[i].score(doc_version),
            best.score(doc_version),
        ) by {
            if i < last {
                assert(front[i] == candidates[i]);
                if let Some(former) = before {
                    assert(!serves_better(front[i].score(doc_version), former.score(doc_version)));
                    lemma_serves_better_is_an_order(
                        front[i].score(doc_version),
                        former.score(doc_version),
                        best.score(doc_version),
                    );
                    lemma_serves_better_is_an_order(
                        best.score(doc_version),
                        former.score(doc_version),
                        front[i].score(doc_version),
                    );
                    lemma_serves_better_is_an_order(
                        former.score(doc_version),
                        front[i].score(doc_version),
                        best.score(doc_version),
                    );
                }
            } else {
                lemma_serves_better_is_an_order(
                    next.score(doc_version),
                    best.score(doc_version),
                    best.score(doc_version),
                );
                if let Some(former) = before {
                    lemma_serves_better_is_an_order(
                        next.score(doc_version),
                        former.score(doc_version),
                        best.score(doc_version),
                    );
                }
            }
        }
        if is_over(next.coverage, viewport) != over {
            assert(before is Some);
            let i = choose|i: int| 0 <= i < front.len() && front[i] == best;
            assert(candidates[i] == best);
        }
    } else {
        assert forall|i: int| 0 <= i < candidates.len() implies is_over(
            (#[trigger] candidates[i]).coverage,
            viewport,
        ) != over by {
            if i < last {
                assert(front[i] == candidates[i]);
            }
        }
    }
}

/// A tree for an older version of the document than that of another tree changes nothing.
pub proof fn lemma_stale_trees_are_not_taken<T>(
    document: DocumentView<T>,
    key: ViewportKey,
    syntax: T,
    coverage: Range<u32>,
    doc_version: u64,
    enriched: bool,
)
    requires
        document.version() matches Some(current) && current > doc_version,
    ensures
        document.offered_viewport(key, syntax, coverage, doc_version, enriched) == document,
{
}

/// What is done with the trees that a document remembers.
pub enum MemoryUse {
    /// Its tree is remembered for a text.
    Remember { content: Seq<char> },
    /// The tree that is remembered for a text is taken back.
    Restore { content: Seq<char>, doc_version: u64 },
    /// Nothing.
    Leave,
}

/// Whether `after` is what comes of a document when something is done with the trees that it
/// remembers.
pub open spec fn is_used<T: Clone>(
    before: DocumentView<T>,
    after: DocumentView<T>,
    done: MemoryUse,
) -> bool {
    match done {
        MemoryUse::Remember { content } => is_remembered(before, after, content),
        MemoryUse::Restore { content, doc_version } => is_restored(
            before,
            after,
            content,
            doc_version,
        ),
        MemoryUse::Leave => after.memory == before.memory,
    }
}

/// The texts other than one that something is done with.
pub open spec fn others_used(uses: Seq<MemoryUse>, content: Seq<char>) -> Set<Seq<char>>
    decreases uses.len(),
{
    if uses.len() == 0 {
        Set::empty()
    } else {
        let front = others_used(uses.drop_last(), content);
        match uses.last() {
            MemoryUse::Remember { content: used } | MemoryUse::Restore { content: used, .. } => {
                if used == content {
                    front
                } else {
                    front.insert(used)
                }
            },
            MemoryUse::Leave => front,
        }
    }
}

/// Whether a tree is remembered for a text, and only some other texts were used later.
spec fn is_kept<T>(
    memory: Seq<(Seq<char>, T)>,
    content: Seq<char>,
    syntax: T,
    used: Set<Seq<char>>,
) -> bool {
    &&& memory.len() <= FULL_TREE_MEMORY_CAP
    &&& are_texts_distinct(memory)
    &&& used.finite()
    &&& !used.contains(content)
    &&& exists|at: int|
        0 <= at < memory.len() && #[trigger] memory[at] == (content, syntax) && forall|k: int|
            0 <= k < at ==> used.contains((#[trigger] memory[k]).0)
}

/// The place of a text in a memory without repeats.
proof fn lemma_recalled_at<T>(
    memory: Seq<(Seq<char>, T)>,
    content: Seq<char>,
    at: int,
    from: int,
)
    requires
        are_texts_distinct(memory),
        0 <= from <= at < memory.len(),
        memory[at].0 == content,
    ensures
        recalled(memory, content, from) == Some(at),
    decreases at - from,
{
    if from < at {
        assert(memory[from].0 != memory[at].0);
        lemma_recalled_at(memory, content, at, from + 1);
    }
}

/// A text stands behind no more texts than were used.
proof fn lemma_kept_in_front<T>(
    memory: Seq<(Seq<char>, T)>,
    at: int,
    used: Set<Seq<char>>,
)
    requires
        are_texts_distinct(memory),
        used.finite(),
        0 <= at <= memory.len(),
        forall|k: int| 0 <= k < at ==> used.contains((#[trigger] memory[k]).0),
    ensures
        at <= used.len(),
    decreases at,
{
    if at > 0 {
        let last = memory[at - 1].0;
        assert(used.contains(last));
        assert forall|k: int| 0 <= k < at - 1 implies used.remove(last).contains(
            (#[trigger] memory[k]).0,
        ) by {
            assert(memory[k].0 != memory[at - 1].0);
        }
        lemma_kept_in_front(memory, at - 1, used.remove(last));
    }
}

proof fn lemma_kept_when_used<T: Clone>(
    before: DocumentView<T>,
    after: DocumentView<T>,
    done: MemoryUse,
    content: Seq<char>,
    syntax: T,
    used: Set<Seq<char>>,
)
    requires
        is_used(before, after, done),
        is_kept(before.memory, content, syntax, used),
        done != (MemoryUse::Remember { content }),
        done matches MemoryUse::Remember { content: other } ==> used.insert(other).len()
            < FULL_TREE_MEMORY_CAP,
    ensures
        is_kept(
            after.memory,
            content,
            syntax,
            match done {
                MemoryUse::Remember { content: other } | MemoryUse::Restore { content: other, .. } => {
                    if other == content {
                        used
                    } else {
                        used.insert(other)
                    }
                },
                MemoryUse::Leave => used,
            },
        ),
{
    let memory = before.memory;
    let at = choose|at: int|
        0 <= at < memory.len() && #[trigger] memory[at] == (content, syntax) && forall|k: int|
            0 <= k < at ==> used.contains((#[trigger] memory[k]).0);
    match done {
        MemoryUse::Leave => {},
        MemoryUse::Remember { content: other } => {
            assert(after.memory[at] == after.memory[at]);
            if after.memory != memory {
                let copy = choose|copy: T| #[trigger]
                    cloned::<T>(before.full->0.syntax, copy) && after == (DocumentView {
                        memory: remembered(memory, other, copy),
                        ..before
                    });
                lemma_recalled(memory, other, 0);
                lemma_remembered_is_distinct(memory, other, copy);
                let place = if let Some(was) = recalled(memory, other, 0) {
                    assert(was != at);
                    if was < at {
                        at
                    } else {
                        at + 1
                    }
                } else {
                    assert forall|k: int| 0 <= k < at implies used.contains(
                        (#[trigger] memory[k]).0,
                    ) by {}
                    lemma_not_recalled(memory, other, 0);
                    assert forall|k: int| 0 <= k < at implies used.insert(other).remove(
                        other,
                    ).contains((#[trigger] memory[k]).0) by {}
                    lemma_kept_in_front(memory, at, used.insert(other).remove(other));
                    at + 1
                };
                assert(after.memory[place] == (content, syntax));
                assert forall|k: int| 0 <= k < place implies used.insert(other).contains(
                    (#[trigger] after.memory[k]).0,
                ) by {
                    if k > 0 {
                        let was = recalled(memory, other, 0);
                        let source = if was is Some && was->0 <= k - 1 {
                            k
                        } else {
                            k - 1
                        };
                        assert(after.memory[k] == memory[source]);
                    }
                }
            } else {
                assert(after.memory[at] == (content, syntax));
            }
        },
        MemoryUse::Restore { content: other, doc_version } => {
            lemma_recalled(memory, other, 0);
            if let Some(was) = recalled(memory, other, 0) {
                lemma_moved_is_distinct(memory, was);
                let place = if was == at {
                    0
                } else if was < at {
                    at
                } else {
                    at + 1
                };
                assert(after.memory[place] == (content, syntax));
                if other == content {
                    lemma_recalled_at(memory, content, at, 0);
                }
                assert forall|k: int| 0 <= k < place implies used.insert(other).contains(
                    (#[trigger] after.memory[k]).0,
                ) by {
                    if k > 0 {
                        let source = if was <= k - 1 {
                            k
                        } else {
                            k - 1
                        };
                        assert(after.memory[k] == memory[source]);
                    }
                }
            } else {
                assert(after.memory[at] == (content, syntax));
            }
        },
    }
}

/// A tree that a document has remembered for a text comes back for that text, with the next number,
/// and will come back again, as long as its memory is not dropped, no other tree is remembered for
/// the text, and fewer other texts than the memory has room for were used since.
pub proof fn lemma_remembered_tree_comes_back<T: Clone>(
    before: DocumentView<T>,
    documents: Seq<DocumentView<T>>,
    uses: Seq<MemoryUse>,
    content: Seq<char>,
    after: DocumentView<T>,
    doc_version: u64,
)
    requires
        before.is_valid(),
        before.full is Some,
        recalled(before.memory, content, 0) is None,
        documents.len() == uses.len() + 1,
        is_remembered(before, documents[0], content),
        forall|i: int|
            #![trigger uses[i]]
            0 <= i < uses.len() ==> is_used(documents[i], documents[i + 1], uses[i]) && uses[i] != (
            MemoryUse::Remember { content }),
        others_used(uses, content).len() < FULL_TREE_MEMORY_CAP,
        is_restored(documents.last(), after, content, doc_version),
    ensures
        recalled(documents.last().memory, content, 0) is Some,
        after.full matches Some(full) && {
            &&& full.doc_version == doc_version
            &&& full.tree_id == documents.last().next_tree_id
            &&& exists|copy: T| #[trigger]
                cloned::<T>(before.full->0.syntax, copy) && cloned::<T>(copy, full.syntax)
        },
        after.updated,
        after.change_id == documents.last().change_id.wrapping_add(1),
        recalled(after.memory, content, 0) == Some(0int),
{
    lemma_not_recalled(before.memory, content, 0);
    assert(before.memory.len() > 0 ==> before.memory[0].0 != content);
    let copy = choose|copy: T| #[trigger]
        cloned::<T>(before.full->0.syntax, copy) && documents[0] == (DocumentView {
            memory: remembered(before.memory, content, copy),
            ..before
        });
    lemma_remembered_is_distinct(before.memory, content, copy);
    assert(documents[0].memory[0] == (content, copy));
    assert(is_kept(documents[0].memory, content, copy, others_used(uses.take(0), content))) by {
        assert(uses.take(0) =~= Seq::empty());
    }
    lemma_kept_through(documents, uses, content, copy, uses.len() as int);
    assert(uses.take(uses.len() as int) =~= uses);
    let memory = documents.last().memory;
    let at = choose|at: int|
        0 <= at < memory.len() && #[trigger] memory[at] == (content, copy) && forall|k: int|
            0 <= k < at ==> others_used(uses, content).contains((#[trigger] memory[k]).0);
    lemma_recalled_at(memory, content, at, 0);
    assert(after.memory[0].0 == content);
}

proof fn lemma_kept_through<T: Clone>(
    documents: Seq<DocumentView<T>>,
    uses: Seq<MemoryUse>,
    content: Seq<char>,
    syntax: T,
    count: int,
)
    requires
        documents.len() == uses.len() + 1,
        0 <= count <= uses.len(),
        forall|i: int|
            #![trigger uses[i]]
            0 <= i < uses.len() ==> is_used(documents[i], documents[i + 1], uses[i]) && uses[i] != (
            MemoryUse::Remember { content }),
        is_kept(documents[0].memory, content, syntax, others_used(uses.take(0), content)),
        others_used(uses, content).len() < FULL_TREE_MEMORY_CAP,
    ensures
        is_kept(documents[count].memory, content, syntax, others_used(uses.take(count), content)),
    decreases count,
{
    if count > 0 {
        lemma_kept_through(documents, uses, content, syntax, count - 1);
        let some = uses.take(count);
        assert(some.drop_last() =~= uses.take(count - 1));
        assert(some.last() == uses[count - 1]);
        lemma_others_used_grow(uses, content, count);
        lemma_kept_when_used(
            documents[count - 1],
            documents[count],
            uses[count - 1],
            content,
            syntax,
            others_used(uses.take(count - 1), content),
        );
    }
}

proof fn lemma_others_used_grow(uses: Seq<MemoryUse>, content: Seq<char>, count: int)
    requires
        0 <= count <= uses.len(),
    ensures
        others_used(uses, content).finite(),
        others_used(uses.take(count), content).subset_of(others_used(uses, content)),
        others_used(uses.take(count), content).len() <= others_used(uses, content).len(),
    decreases uses.len(),
{
    if count < uses.len() {
        lemma_others_used_grow(uses.drop_last(), content, count);
        assert(uses.drop_last().take(count) =~= uses.take(count));
        vstd::set_lib::lemma_len_subset(
            others_used(uses.take(count), content),
            others_used(uses, content),
        );
    } else {
        assert(uses.take(count) =~= uses);
        if uses.len() > 0 {
            lemma_others_used_grow(uses.drop_last(), content, count - 1);
        }
    }
}

/// A tree over some bytes lies over a viewport exactly where some byte lies in both. One for the
/// whole document lies over every viewport.
pub proof fn lemma_overlapping_shares_a_byte(coverage: Range<u32>, viewport: Range<u32>)
    requires
        coverage.start < coverage.end,
        viewport.start < viewport.end,
    ensures
        is_over(Some(coverage), viewport) <==> exists|byte: int| #[trigger]
            lies_in(coverage, byte) && lies_in(viewport, byte),
        is_over(None, viewport),
{
    let first = if coverage.start < viewport.start {
        viewport.start as int
    } else {
        coverage.start as int
    };
    if first < coverage.end && first < viewport.end {
        assert(lies_in(coverage, first) && lies_in(viewport, first));
    }
}

/// Whether a byte lies in a range.
pub open spec fn lies_in(range: Range<u32>, byte: int) -> bool {
    range.start <= byte < range.end
}

/// Whether one of two trees is to be preferred to the other for a version of the document: the one
/// for that version, then the one for the whole document, then an enriched one, then the one for
/// the later version.
pub open spec fn is_preferred<T>(a: Candidate<T>, b: Candidate<T>, doc_version: u64) -> bool {
    let (a_fits, b_fits) = (
        a.tree_doc_version == doc_version,
        b.tree_doc_version == doc_version,
    );
    let (a_full, b_full) = (a.coverage is None, b.coverage is None);
    ||| a_fits && !b_fits
    ||| a_fits == b_fits && a_full && !b_full
    ||| a_fits == b_fits && a_full == b_full && a.enriched && !b.enriched
    ||| a_fits == b_fits && a_full == b_full && a.enriched == b.enriched && a.tree_doc_version
        > b.tree_doc_version
}

/// The tree that is chosen for a viewport is one of those that are there. If any of them is for the
/// whole document or has a byte of the viewport, so is or has the chosen one; and among those that
/// do, or else among all, none is preferred to it. There is one as soon as there is any tree.
pub proof fn lemma_chosen_serves_best<T>(
    candidates: Seq<Candidate<T>>,
    doc_version: u64,
    viewport: Range<u32>,
)
    requires
        viewport.start < viewport.end,
        forall|i: int|
            0 <= i < candidates.len() ==> ((#[trigger] candidates[i]).coverage matches Some(coverage)
                ==> coverage.start < coverage.end),
    ensures
        chosen(candidates, doc_version, viewport) is None <==> candidates.len() == 0,
        chosen(candidates, doc_version, viewport) matches Some(best) ==> {
            &&& candidates.contains(best)
            &&& forall|i: int|
                0 <= i < candidates.len() && shows(#[trigger] candidates[i], viewport) ==> shows(
                    best,
                    viewport,
                )
            &&& forall|i: int|
                0 <= i < candidates.len() && shows(#[trigger] candidates[i], viewport) == shows(
                    best,
                    viewport,
                ) ==> !is_preferred(candidates[i], best, doc_version)
        },
{
    lemma_best_of_is_best(candidates, doc_version, viewport);
    assert forall|i: int| 0 <= i < candidates.len() implies shows(
        #[trigger] candidates[i],
        viewport,
    ) == is_over(candidates[i].coverage, viewport) by {
        if let Some(coverage) = candidates[i].coverage {
            lemma_overlapping_shares_a_byte(coverage, viewport);
        }
    }
    if candidates.len() > 0 {
        assert(candidates[0] == candidates[0]);
    }
    if let Some(best) = chosen(candidates, doc_version, viewport) {
        let k = choose|k: int| 0 <= k < candidates.len() && candidates[k] == best;
        assert(shows(candidates[k], viewport) == is_over(candidates[k].coverage, viewport));
    }
}

/// Whether a tree is for the whole document or has a byte of a viewport.
pub open spec fn shows<T>(candidate: Candidate<T>, viewport: Range<u32>) -> bool {
    match candidate.coverage {
        Some(coverage) => exists|byte: int| #[trigger]
            lies_in(coverage, byte) && lies_in(viewport, byte),
        None => true,
    }
}

/// Whether a tree that may serve is one of those of a document: that of the whole document, the
/// quick one of a viewport, or the enriched one.
pub open spec fn is_tree_of<T>(candidate: Candidate<T>, document: DocumentView<T>) -> bool {
    ||| document.full matches Some(full) && candidate.syntax == full.syntax && candidate.tree_id
        == full.tree_id && candidate.tree_doc_version == full.doc_version && candidate.coverage
        is None && !candidate.enriched
    ||| exists|key: u32| #[trigger]
        document.viewports.map.dom().contains(key) && {
            let entry = document.viewports.map[key];
            ||| entry.stage_a matches Some(tree) && is_viewport_tree(candidate, tree)
                && !candidate.enriched
            ||| entry.stage_b matches Some(tree) && is_viewport_tree(candidate, tree)
                && candidate.enriched
        }
}

/// Whether a tree that may serve is that of a viewport.
pub open spec fn is_viewport_tree<T>(candidate: Candidate<T>, tree: ViewportSyntax<T>) -> bool {
    &&& candidate.syntax == tree.syntax
    &&& candidate.tree_id == tree.tree_id
    &&& candidate.tree_doc_version == tree.doc_version
    &&& candidate.coverage == Some(tree.coverage)
}

/// The trees that may serve are those of the document, and no others.
pub proof fn lemma_candidates_are_the_trees<T>(document: DocumentView<T>, candidate: Candidate<T>)
    requires
        document.is_valid(),
    ensures
        document.candidates().contains(candidate) <==> is_tree_of(candidate, document),
{
    let (order, map) = (document.viewports.order, document.viewports.map);
    let own = document.full_candidate();
    let others = viewport_candidates(order, map);
    let all = document.candidates();
    lemma_viewport_candidates(order, map, candidate);
    if own.contains(candidate) {
        assert(all[0] == own[0]);
    }
    if document.full is Some && is_tree_of(candidate, document) && candidate.coverage is None {
        if !others.contains(candidate) {
            assert(own[0] == candidate);
            assert(own.contains(candidate));
            assert(all[0] == candidate);
        }
    }
    if others.contains(candidate) {
        let i = choose|i: int| 0 <= i < others.len() && others[i] == candidate;
        assert(all[own.len() + i] == candidate);
        let at = choose|at: int|
            0 <= at < order.len() && stage_candidates(map[(#[trigger] order[at]).0]).contains(
                candidate,
            );
        lemma_stage_candidates(map[order[at].0], candidate);
        assert(order.contains(ViewportKey(order[at].0)));
        assert(map.dom().contains(order[at].0));
    }
    if all.contains(candidate) {
        let i = choose|i: int| 0 <= i < all.len() && all[i] == candidate;
        if i < own.len() {
            assert(own[i] == candidate);
        } else {
            assert(others[i - own.len()] == candidate);
        }
    }
    if exists|key: u32| #[trigger]
        map.dom().contains(key) && {
            let entry = map[key];
            ||| entry.stage_a matches Some(tree) && is_viewport_tree(candidate, tree)
                && !candidate.enriched
            ||| entry.stage_b matches Some(tree) && is_viewport_tree(candidate, tree)
                && candidate.enriched
        } {
        let key = choose|key: u32| #[trigger]
            map.dom().contains(key) && {
                let entry = map[key];
                ||| entry.stage_a matches Some(tree) && is_viewport_tree(candidate, tree)
                    && !candidate.enriched
                ||| entry.stage_b matches Some(tree) && is_viewport_tree(candidate, tree)
                    && candidate.enriched
            };
        lemma_stage_candidates(map[key], candidate);
        assert(order.contains(ViewportKey(key)));
        let at = choose|at: int| 0 <= at < order.len() && order[at] == ViewportKey(key);
        assert(stage_candidates(map[order[at].0]).contains(candidate));
    }
}

proof fn lemma_stage_candidates<T>(entry: ViewportEntry<T>, candidate: Candidate<T>)
    ensures
        stage_candidates(entry).contains(candidate) <==> {
            ||| entry.stage_a matches Some(tree) && is_viewport_tree(candidate, tree)
                && !candidate.enriched
            ||| entry.stage_b matches Some(tree) && is_viewport_tree(candidate, tree)
                && candidate.enriched
        },
{
    let all = stage_candidates(entry);
    if let Some(tree) = entry.stage_b {
        assert(all[0] == viewport_candidate(tree, true));
    }
    if let Some(tree) = entry.stage_a {
        assert(all[all.len() - 1] == viewport_candidate(tree, false));
    }
}

proof fn lemma_viewport_candidates<T>(
    order: Seq<ViewportKey>,
    map: Map<u32, ViewportEntry<T>>,
    candidate: Candidate<T>,
)
    ensures
        viewport_candidates(order, map).contains(candidate) <==> exists|at: int|
            0 <= at < order.len() && stage_candidates(map[(#[trigger] order[at]).0]).contains(
                candidate,
            ),
    decreases order.len(),
{
    if order.len() > 0 {
        let front = order.drop_last();
        lemma_viewport_candidates(front, map, candidate);
        let before = viewport_candidates(front, map);
        let last = stage_candidates(map[order.last().0]);
        let all = viewport_candidates(order, map);
        if all.contains(candidate) {
            let i = choose|i: int| 0 <= i < all.len() && all[i] == candidate;
            if i < before.len() {
                assert(before[i] == candidate);
                let at = choose|at: int|
                    0 <= at < front.len() && stage_candidates(
                        map[(#[trigger] front[at]).0],
                    ).contains(candidate);
                assert(order[at] == front[at]);
            } else {
                assert(last[i - before.len()] == candidate);
                assert(order[order.len() - 1] == order.last());
            }
        }
        if exists|at: int|
            0 <= at < order.len() && stage_candidates(map[(#[trigger] order[at]).0]).contains(
                candidate,
            ) {
            let at = choose|at: int|
                0 <= at < order.len() && stage_candidates(map[(#[trigger] order[at]).0]).contains(
                    candidate,
                );
            if at < front.len() {
                assert(front[at] == order[at]);
                let i = choose|i: int| 0 <= i < before.len() && before[i] == candidate;
                assert(all[i] == candidate);
            } else {
                let i = choose|i: int| 0 <= i < last.len() && last[i] == candidate;
                assert(all[before.len() + i] == candidate);
            }
        }
    }
}

/// The tree of a document, where no viewport is asked for, is that of the whole document; without
/// one, that of the viewport used last that has any, the enriched one before the quick one.
pub proof fn lemma_first_tree<T>(document: DocumentView<T>, at: int)
    ensures
        document.full matches Some(full) ==> document.candidates().len() > 0
            && document.candidates()[0].syntax == full.syntax && document.candidates()[0].coverage
            is None,
        document.full is None && 0 <= at < document.viewports.order.len() && (forall|i: int|
            0 <= i < at ==> {
                let entry = document.viewports.map[(#[trigger] document.viewports.order[i]).0];
                entry.stage_a is None && entry.stage_b is None
            }) ==> {
            let entry = document.viewports.map[document.viewports.order[at].0];
            let first = document.candidates()[0];
            match (entry.stage_b, entry.stage_a) {
                (Some(tree), _) => document.candidates().len() > 0 && is_viewport_tree(first, tree)
                    && first.enriched,
                (None, Some(tree)) => document.candidates().len() > 0 && is_viewport_tree(
                    first,
                    tree,
                ) && !first.enriched,
                (None, None) => true,
            }
        },
{
    let (order, map) = (document.viewports.order, document.viewports.map);
    if document.full is None && 0 <= at < order.len() && (forall|i: int|
        0 <= i < at ==> {
            let entry = map[(#[trigger] order[i]).0];
            entry.stage_a is None && entry.stage_b is None
        }) {
        lemma_no_candidates(order, map, at);
        assert(order.take(at + 1).drop_last() =~= order.take(at));
        assert(order.take(at + 1).last() == order[at]);
        let own = stage_candidates(map[order[at].0]);
        assert(viewport_candidates(order.take(at + 1), map) =~= own);
        lemma_first_candidate(order, map, at + 1);
        assert(document.candidates() =~= viewport_candidates(order, map));
        if own.len() > 0 {
            assert(viewport_candidates(order.take(at + 1), map)[0] == own[0]);
        }
    }
}

proof fn lemma_no_candidates<T>(
    order: Seq<ViewportKey>,
    map: Map<u32, ViewportEntry<T>>,
    count: int,
)
    requires
        0 <= count <= order.len(),
        forall|i: int|
            0 <= i < count ==> {
                let entry = map[(#[trigger] order[i]).0];
                entry.stage_a is None && entry.stage_b is None
            },
    ensures
        viewport_candidates(order.take(count), map).len() == 0,
    decreases count,
{
    if count > 0 {
        lemma_no_candidates(order, map, count - 1);
        assert(order.take(count).drop_last() =~= order.take(count - 1));
        assert(order.take(count).last() == order[count - 1]);
    }
}

/// Whether a document has a tree for some version of it.
pub open spec fn has_tree_for<T>(document: DocumentView<T>, version: u64) -> bool {
    ||| document.full matches Some(full) && full.doc_version == version
    ||| exists|key: u32| #[trigger]
        document.viewports.map.dom().contains(key) && {
            let entry = document.viewports.map[key];
            ||| entry.stage_a matches Some(tree) && tree.doc_version == version
            ||| entry.stage_b matches Some(tree) && tree.doc_version == version
        }
}

/// The version of a document's trees is the latest that it has a tree for; it has none exactly
/// where there is no tree.
pub proof fn lemma_version_is_the_latest<T>(document: DocumentView<T>)
    requires
        document.is_valid(),
    ensures
        match document.version() {
            Some(latest) => has_tree_for(document, latest) && forall|version: u64| #[trigger]
                has_tree_for(document, version) ==> version <= latest,
            None => forall|version: u64| !(#[trigger] has_tree_for(document, version)),
        },
        document.is_in_use() == (document.version() is Some),
{
    let (order, map) = (document.viewports.order, document.viewports.map);
    lemma_latest_in(order, map);
    assert forall|version: u64| #[trigger] has_tree_for(document, version) == ((
    document.full matches Some(full) && full.doc_version == version) || (exists|i: int|
        0 <= i < order.len() && entry_has(map[(#[trigger] order[i]).0], version))) by {
        if exists|key: u32| #[trigger] map.dom().contains(key) && entry_has(map[key], version) {
            let key = choose|key: u32| #[trigger]
                map.dom().contains(key) && entry_has(map[key], version);
            assert(order.contains(ViewportKey(key)));
            let i = choose|i: int| 0 <= i < order.len() && order[i] == ViewportKey(key);
            assert(entry_has(map[order[i].0], version));
        }
        if exists|i: int| 0 <= i < order.len() && entry_has(map[(#[trigger] order[i]).0], version) {
            let i = choose|i: int|
                0 <= i < order.len() && entry_has(map[(#[trigger] order[i]).0], version);
            assert(order.contains(ViewportKey(order[i].0)));
            assert(map.dom().contains(order[i].0));
        }
    }
    if let Some(latest) = document.version() {
        assert(has_tree_for(document, latest));
    }
    if document.viewports.is_in_use() {
        let i = choose|i: int|
            0 <= i < order.len() && (#[trigger] map[order[i].0]).is_in_use();
        let entry = map[order[i].0];
        if let Some(tree) = entry.stage_a {
            assert(entry_has(map[order[i].0], tree.doc_version));
        } else if let Some(tree) = entry.stage_b {
            assert(entry_has(map[order[i].0], tree.doc_version));
        }
    }
    if let Some(version) = document.viewports.version() {
        let i = choose|i: int|
            0 <= i < order.len() && entry_has(map[(#[trigger] order[i]).0], version);
        assert(map[order[i].0].is_in_use());
    }
}

/// Whether a viewport has a tree for some version of the document.
pub open spec fn entry_has<T>(entry: ViewportEntry<T>, version: u64) -> bool {
    ||| entry.stage_a matches Some(tree) && tree.doc_version == version
    ||| entry.stage_b matches Some(tree) && tree.doc_version == version
}

proof fn lemma_latest_in<T>(order: Seq<ViewportKey>, map: Map<u32, ViewportEntry<T>>)
    ensures
        match latest_in(order, map) {
            Some(latest) => (exists|i: int|
                0 <= i < order.len() && entry_has(map[(#[trigger] order[i]).0], latest)) && forall|
                i: int,
                version: u64,
            |
                0 <= i < order.len() && #[trigger] entry_has(map[order[i].0], version)
                    ==> version <= latest,
            None => forall|i: int, version: u64|
                0 <= i < order.len() ==> !#[trigger] entry_has(map[order[i].0], version),
        },
    decreases order.len(),
{
    if order.len() > 0 {
        let front = order.drop_last();
        lemma_latest_in(front, map);
        let last = map[order.last().0];
        let at = order.len() - 1;
        assert(order[at] == order.last());
        if let Some(before) = latest_in(front, map) {
            let i = choose|i: int|
                0 <= i < front.len() && entry_has(map[(#[trigger] front[i]).0], before);
            assert(order[i] == front[i]);
            assert(entry_has(map[order[i].0], before));
        }
        if let Some(own) = last.version() {
            assert(entry_has(map[order[at].0], own));
        }
        assert forall|i: int, version: u64|
            0 <= i < order.len() && #[trigger] entry_has(
                map[order[i].0],
                version,
            ) implies latest_in(order, map) matches Some(latest) && version <= latest by {
            if i < at {
                assert(front[i] == order[i]);
                assert(entry_has(map[front[i].0], version));
            }
        }
    }
}

/// A tree for the whole document is not taken where there is one for a later version: the document
/// stays as it is, its change number too. Else it takes the place of the one before, with the next
/// number, and the document is clean and has changed. So the version of that tree never goes back,
/// and neither viewports nor what is remembered are touched.
pub proof fn lemma_full_tree_never_goes_back<T>(
    document: DocumentView<T>,
    syntax: T,
    doc_version: u64,
)
    ensures
        ({
            let after = document.offered_full(syntax, doc_version);
            let stale = document.full is Some && (document.full->0).doc_version > doc_version;
            &&& stale ==> after == document
            &&& !stale ==> {
                &&& after.full matches Some(full) && full.syntax == syntax && full.doc_version
                    == doc_version && full.tree_id == document.next_tree_id
                &&& !after.dirty
                &&& after.updated
                &&& after.change_id == document.change_id.wrapping_add(1)
                &&& after.next_tree_id == document.next_tree_id.wrapping_add(1)
            }
            &&& after.viewports == document.viewports
            &&& after.memory == document.memory
            &&& document.full is Some ==> after.full is Some && (after.full->0).doc_version
                >= (document.full->0).doc_version
            &&& after.full matches Some(now) && now.doc_version >= doc_version
        }),
{
}

/// A tree for a viewport is not taken where the document has any tree for a later version: the
/// document stays as it is. Else it becomes the quick or the enriched tree of its viewport, which
/// was used last then; the other tree of the viewport stays, if the viewport was there, and so does
/// what else the document has, but that the viewport used longest ago may have to make room.
pub proof fn lemma_viewport_tree_never_goes_back<T>(
    document: DocumentView<T>,
    key: ViewportKey,
    syntax: T,
    coverage: Range<u32>,
    doc_version: u64,
    enriched: bool,
)
    requires
        document.is_valid(),
    ensures
        ({
            let after = document.offered_viewport(key, syntax, coverage, doc_version, enriched);
            let stale = exists|later: u64| #[trigger]
                has_tree_for(document, later) && later > doc_version;
            &&& stale ==> after == document
            &&& !stale ==> {
                let entry = after.viewports.map[key.0];
                let (taken, other) = if enriched {
                    (entry.stage_b, entry.stage_a)
                } else {
                    (entry.stage_a, entry.stage_b)
                };
                &&& after.viewports.map.dom().contains(key.0)
                &&& after.viewports.order.len() > 0 && after.viewports.order[0] == key
                &&& taken matches Some(tree) && tree.syntax == syntax && tree.doc_version
                    == doc_version && tree.tree_id == document.next_tree_id && tree.coverage
                    == coverage
                &&& other == if !document.viewports.map.dom().contains(key.0) {
                    None
                } else if enriched {
                    document.viewports.map[key.0].stage_a
                } else {
                    document.viewports.map[key.0].stage_b
                }
                &&& after.full == document.full
                &&& after.memory == document.memory
                &&& after.dirty == document.dirty
                &&& after.updated
                &&& after.change_id == document.change_id.wrapping_add(1)
                &&& after.next_tree_id == document.next_tree_id.wrapping_add(1)
                &&& forall|id: u32|
                    id != key.0 && #[trigger] after.viewports.map.dom().contains(id)
                        ==> document.viewports.map.dom().contains(id) && after.viewports.map[id]
                        == document.viewports.map[id]
                &&& forall|id: u32| #[trigger]
                    document.viewports.map.dom().contains(id)
                        && !after.viewports.map.dom().contains(id) ==> {
                        &&& !document.viewports.map.dom().contains(key.0)
                        &&& document.viewports.order.len() >= document.viewports.cap
                        &&& document.viewports.order.last() == ViewportKey(id)
                    }
            }
        }),
{
    lemma_version_is_the_latest(document);
    lemma_opened(document.viewports, key);
    lemma_opened_keeps_the_others(document.viewports, key);
    if let Some(latest) = document.version() {
        assert(has_tree_for(document, latest));
    }
}

/// Asking for a viewport that is there keeps all of them and their trees. One that is new has no
/// trees; it costs another one its place only where there are as many as there may be, and then the
/// one used longest ago.
pub proof fn lemma_opened_keeps_the_others<T>(cache: CacheView<T>, key: ViewportKey)
    requires
        cache.is_valid(),
    ensures
        ({
            let after = cache.opened(key);
            &&& after.cap == cache.cap
            &&& cache.map.dom().contains(key.0) ==> after.map == cache.map
            &&& !cache.map.dom().contains(key.0) ==> after.map[key.0].stage_a is None
                && after.map[key.0].stage_b is None
            &&& forall|id: u32|
                id != key.0 && #[trigger] after.map.dom().contains(id) ==> cache.map.dom().contains(
                    id,
                ) && after.map[id] == cache.map[id]
            &&& forall|id: u32| #[trigger]
                cache.map.dom().contains(id) && !after.map.dom().contains(id) ==> {
                    &&& !cache.map.dom().contains(key.0)
                    &&& cache.order.len() >= cache.cap
                    &&& cache.order.last() == ViewportKey(id)
                }
            &&& forall|a: ViewportKey, b: ViewportKey|
                a != key && b != key && after.map.dom().contains(a.0) && after.map.dom().contains(
                    b.0,
                ) ==> #[trigger] stands_before(after.order, a, b) == stands_before(
                    cache.order,
                    a,
                    b,
                )
        }),
{
    let after = cache.opened(key);
    assert(cache.map.dom().contains(key.0) <==> cache.order.contains(ViewportKey(key.0)));
    assert forall|a: ViewportKey, b: ViewportKey|
        a != key && b != key && after.map.dom().contains(a.0) && after.map.dom().contains(
            b.0,
        ) implies #[trigger] stands_before(after.order, a, b) == stands_before(
        cache.order,
        a,
        b,
    ) by {
        if cache.order.contains(key) {
            lemma_promoted_keeps_the_others_in_turn(cache.order, key, a, b);
        } else {
            if stands_before(after.order, a, b) {
                let (i, j) = choose|i: int, j: int|
                    0 <= i < j < after.order.len() && #[trigger] after.order[i] == a
                        && #[trigger] after.order[j] == b;
                assert(cache.order[i - 1] == a && cache.order[j - 1] == b);
            }
            if stands_before(cache.order, a, b) {
                let (i, j) = choose|i: int, j: int|
                    0 <= i < j < cache.order.len() && #[trigger] cache.order[i] == a
                        && #[trigger] cache.order[j] == b;
                if j + 1 >= after.order.len() {
                    assert(cache.order.last() == b);
                    assert(false);
                }
                assert(after.order[i + 1] == a && after.order[j + 1] == b);
            }
        }
    }
}

/// Without the tree of the whole document nothing is remembered either, and viewports stay; without
/// viewports the tree of the whole document and what is remembered stay.
pub proof fn lemma_what_is_dropped<T>(document: DocumentView<T>, content: Seq<char>)
    ensures
        document.without_full().full is None,
        recalled(document.without_full().memory, content, 0) is None,
        document.without_full().viewports == document.viewports,
        document.without_viewports().full == document.full,
        document.without_viewports().memory == document.memory,
        forall|key: u32| !(#[trigger] document.without_viewports().viewports.map.dom().contains(key)),
        document.without_viewports().viewports.order.len() == 0,
        document.without_viewports().viewports.cap == document.viewports.cap,
        document.without_full().change_id == document.change_id,
        document.without_viewports().change_id == document.change_id,
        document.without_full().dirty == document.dirty,
        document.without_viewports().dirty == document.dirty,
        document.without_full().updated == document.updated,
        document.without_viewports().updated == document.updated,
        document.without_full().next_tree_id == document.next_tree_id,
        document.without_viewports().next_tree_id == document.next_tree_id,
{
}

/// What happens to a document changes nothing about another one.
pub proof fn lemma_documents_are_apart<T>(
    documents: Map<u64, DocumentView<T>>,
    doc_id: DocumentId,
    document: DocumentView<T>,
    other: DocumentId,
)
    requires
        other != doc_id,
    ensures
        known(changed(documents, doc_id, document), other) == known(documents, other),
        known(documents.insert(doc_id.0, document), other) == known(documents, other),
        documents.dom().contains(doc_id.0) ==> known(
            changed(documents, doc_id, document),
            doc_id,
        ) == document,
        !documents.dom().contains(doc_id.0) ==> changed(documents, doc_id, document) == documents
            && known(documents, doc_id).full is None && !known(documents, doc_id).is_in_use()
            && known(documents, doc_id).change_id == 0 && !known(documents, doc_id).dirty,
{
}

/// A viewport without bytes lies under a tree that has bytes both before it and behind it, and a
/// tree without bytes lies over a viewport of that kind.
pub proof fn lemma_overlapping_without_bytes(coverage: Range<u32>, viewport: Range<u32>)
    ensures
        viewport.start == viewport.end ==> (is_over(Some(coverage), viewport) <==> coverage.start
            < viewport.start < coverage.end),
        coverage.start == coverage.end ==> (is_over(Some(coverage), viewport) <==> viewport.start
            < coverage.start < viewport.end),
        is_over(Some(coverage), viewport) == is_over(Some(viewport), coverage),
{
}

/// In a memory without repeats, leaving out a text leaves all others in their order.
proof fn lemma_without_text<T>(memory: Seq<(Seq<char>, T)>, content: Seq<char>)
    requires
        are_texts_distinct(memory),
    ensures
        match recalled(memory, content, 0) {
            Some(at) => memory.remove(at),
            None => memory,
        } == memory.filter(|entry: (Seq<char>, T)| entry.0 != content),
    decreases memory.len(),
{
    let is_other = |entry: (Seq<char>, T)| entry.0 != content;
    reveal(Seq::filter);
    lemma_recalled(memory, content, 0);
    if memory.len() > 0 {
        let front = memory.drop_last();
        let last = memory.len() - 1;
        lemma_without_text(front, content);
        lemma_recalled(front, content, 0);
        assert forall|i: int| 0 <= i < last implies #[trigger] front[i] == memory[i] by {}
        if memory[last].0 == content {
            lemma_recalled_at(memory, content, last, 0);
            if let Some(at) = recalled(front, content, 0) {
                assert(memory[at].0 != memory[last].0);
            }
            assert(memory.remove(last) =~= front);
        } else {
            match recalled(front, content, 0) {
                Some(at) => {
                    assert(memory[at].0 == content);
                    lemma_recalled_at(memory, content, at, 0);
                    assert(memory.remove(at) =~= front.remove(at).push(memory[last]));
                },
                None => {
                    lemma_not_recalled(front, content, 0);
                    if let Some(at) = recalled(memory, content, 0) {
                        assert(front[at].0 == content);
                    }
                    assert(memory =~= front.push(memory[last]));
                },
            }
        }
    } else {
        assert(memory.filter(is_other) =~= memory);
    }
}

/// A tree that is remembered comes first. Behind it come the trees of all other texts, in the order
/// in which they were used, and the last of them is forgotten where there would be more than eight.
pub proof fn lemma_what_is_remembered<T>(
    memory: Seq<(Seq<char>, T)>,
    content: Seq<char>,
    syntax: T,
)
    requires
        are_texts_distinct(memory),
        memory.len() <= 8,
    ensures
        ({
            let others = memory.filter(|entry: (Seq<char>, T)| entry.0 != content);
            let after = remembered(memory, content, syntax);
            &&& after[0] == (content, syntax)
            &&& others.len() < 8 ==> after.skip(1) == others
            &&& others.len() >= 8 ==> after.skip(1) == others.take(7)
            &&& after.len() <= 8
        }),
{
    let others = memory.filter(|entry: (Seq<char>, T)| entry.0 != content);
    let after = remembered(memory, content, syntax);
    lemma_without_text(memory, content);
    memory.lemma_filter_len(|entry: (Seq<char>, T)| entry.0 != content);
    if others.len() < 8 {
        assert(after.skip(1) =~= others);
    } else {
        assert(after.skip(1) =~= others.take(7));
    }
}

/// A tree that is taken back for a text is one that was remembered for it, and is remembered
/// further, as the one that was used last. The other texts stay in their order, and so do the
/// viewports and whether the document is dirty. Where nothing is remembered for the text, nothing
/// happens.
pub proof fn lemma_what_is_restored<T: Clone>(
    before: DocumentView<T>,
    after: DocumentView<T>,
    content: Seq<char>,
    doc_version: u64,
)
    requires
        are_texts_distinct(before.memory),
        is_restored(before, after, content, doc_version),
    ensures
        (forall|i: int| 0 <= i < before.memory.len() ==> (#[trigger] before.memory[i]).0 != content)
            ==> after == before,
        forall|i: int|
            #![trigger before.memory[i]]
            0 <= i < before.memory.len() && before.memory[i].0 == content ==> {
                &&& after.full is Some && cloned::<T>(before.memory[i].1, (after.full->0).syntax)
                &&& (after.full->0).doc_version == doc_version
                &&& (after.full->0).tree_id == before.next_tree_id
                &&& after.memory == seq![before.memory[i]] + before.memory.filter(
                    |entry: (Seq<char>, T)| entry.0 != content,
                )
                &&& after.viewports == before.viewports
                &&& after.dirty == before.dirty
                &&& after.updated
                &&& after.change_id == before.change_id.wrapping_add(1)
                &&& after.next_tree_id == before.next_tree_id.wrapping_add(1)
            },
{
    lemma_without_text(before.memory, content);
    lemma_recalled(before.memory, content, 0);
    assert forall|i: int|
        #![trigger before.memory[i]]
        0 <= i < before.memory.len() && before.memory[i].0 == content implies recalled(
        before.memory,
        content,
        0,
    ) == Some(i) by {
        lemma_recalled_at(before.memory, content, i, 0);
    }
}

/// A document that is not known yet has no trees, nothing to be done, and room for four viewports.
pub proof fn lemma_new_document<T>()
    ensures
        ({
            let document = no_document::<T>();
            &&& document.full is None
            &&& document.viewports.order.len() == 0
            &&& document.viewports.map == Map::<u32, ViewportEntry<T>>::empty()
            &&& document.viewports.cap == 4
            &&& document.memory.len() == 0
            &&& !document.dirty && !document.updated
            &&& document.change_id == 0
            &&& document.next_tree_id == 0
            &&& document.version() is None
        }),
{
}

/// A tree is handed out with its own number, the version that it was made for, and the bytes that it
/// covers.
pub proof fn lemma_what_is_handed_out<T>(selection: SyntaxSelection<'_, T>, candidate: Candidate<T>)
    requires
        selection.is_of(candidate),
    ensures
        *selection.syntax == candidate.syntax,
        selection.tree_id == candidate.tree_id,
        selection.tree_doc_version == candidate.tree_doc_version,
        selection.coverage == candidate.coverage,
{
}

} // verus!
