//! A cache of highlighted parts of documents.
use crate::byte_text::byte_len;
use crate::manager::DocumentId;
use crate::mru::{lemma_place_in, lemma_promoted, place_in, promoted};
use crate::rope::{
    line_count, line_start, rope_len_bytes, rope_len_lines, rope_line_to_byte, rope_text,
};
use crate::types::Highlight;
use ropey::Rope;
use std::collections::VecDeque;
use vstd::prelude::*;

verus! {

/// The number of lines of a tile.
pub const TILE_SIZE: usize = 128;

/// How many tiles a cache holds unless it is told otherwise.
pub const MAX_TILES: usize = 16;

/// What a tile was made for. Tiles of different trees of one document do not stand for each other.
#[derive(Debug, Clone, Copy, PartialEq, Eq, Structural, Hash)]
pub struct HighlightKey {
    /// The version of the document's syntax.
    pub syntax_version: u64,
    /// The tree that the highlights were read from.
    pub tree_id: u64,
    /// The version of the styles.
    pub theme_epoch: u64,
    /// Which tile of the document this is.
    pub tile_idx: usize,
}

/// A highlighted part of a document.
#[derive(Debug, Clone, Copy, PartialEq, Eq, Structural)]
pub struct HighlightSpan {
    pub start: u32,
    pub end: u32,
    pub highlight: Highlight,
}

/// The highlights of some lines, with their styles.
#[derive(Debug)]
pub struct HighlightTile<S> {
    pub key: HighlightKey,
    pub spans: Vec<(HighlightSpan, S)>,
}

/// What a tile says.
#[verifier::ext_equal]
pub struct TileView<S> {
    pub key: HighlightKey,
    pub spans: Seq<(HighlightSpan, S)>,
}

impl<S> View for HighlightTile<S> {
    type V = TileView<S>;

    open spec fn view(&self) -> TileView<S> {
        TileView { key: self.key, spans: self.spans@ }
    }
}

/// A tile and the document that it belongs to.
#[verifier::ext_equal]
pub struct SlotView<S> {
    pub doc_id: DocumentId,
    pub tile: TileView<S>,
}

/// What a cache holds.
#[verifier::ext_equal]
pub struct TilesView<S> {
    pub slots: Seq<SlotView<S>>,
    /// The slots in the order of their last use.
    pub order: Seq<usize>,
    pub max_tiles: usize,
    pub theme_epoch: u64,
}

/// Whether a slot is the place of a tile of a document and a tree.
pub open spec fn is_slot_for<S>(
    slot: SlotView<S>,
    doc_id: DocumentId,
    tree_id: u64,
    tile_idx: usize,
) -> bool {
    &&& slot.doc_id == doc_id
    &&& slot.tile.key.tree_id == tree_id
    &&& slot.tile.key.tile_idx == tile_idx
}

/// The slot of a tile of a document and a tree, from the slot `from` on.
pub open spec fn slot_for<S>(
    slots: Seq<SlotView<S>>,
    doc_id: DocumentId,
    tree_id: u64,
    tile_idx: usize,
    from: int,
) -> Option<int>
    decreases slots.len() - from,
{
    if from < 0 || from >= slots.len() {
        None
    } else if is_slot_for(slots[from], doc_id, tree_id, tile_idx) {
        Some(from)
    } else {
        slot_for(slots, doc_id, tree_id, tile_idx, from + 1)
    }
}

/// Whether two slots are the places of different tiles.
pub open spec fn differ<S>(a: SlotView<S>, b: SlotView<S>) -> bool {
    !is_slot_for(a, b.doc_id, b.tile.key.tree_id, b.tile.key.tile_idx)
}

impl<S> TilesView<S> {
    /// Whether each slot was used at some time, none is there for a tile that another one holds,
    /// and there are no more than there may be.
    pub open spec fn is_valid(self) -> bool {
        &&& self.max_tiles > 0
        &&& self.slots.len() <= self.max_tiles
        &&& self.order.no_duplicates()
        &&& forall|slot: usize| #[trigger]
            self.order.contains(slot) <==> slot < self.slots.len()
        &&& forall|i: int, j: int|
            0 <= i < j < self.slots.len() ==> differ(
                #[trigger] self.slots[i],
                #[trigger] self.slots[j],
            )
    }

    /// The slot of a tile.
    pub open spec fn find(self, doc_id: DocumentId, tree_id: u64, tile_idx: usize) -> Option<int> {
        slot_for(self.slots, doc_id, tree_id, tile_idx, 0)
    }

    /// The cache once a slot was used.
    pub open spec fn touched(self, slot: usize) -> TilesView<S> {
        TilesView { order: promoted(self.order, slot), ..self }
    }

    /// The slot that a tile is put into: its own, if it has one; else a new one, or, if the cache
    /// is full, the one whose last use was the longest ago.
    pub open spec fn slot_to_fill(self, slot: SlotView<S>) -> usize {
        match self.find(slot.doc_id, slot.tile.key.tree_id, slot.tile.key.tile_idx) {
            Some(at) => at as usize,
            None => if self.slots.len() == self.max_tiles {
                self.order.last()
            } else {
                self.slots.len() as usize
            },
        }
    }

    /// The cache once a tile was put in.
    pub open spec fn inserted(self, slot: SlotView<S>) -> TilesView<S> {
        let at = self.slot_to_fill(slot);
        if at < self.slots.len() {
            TilesView {
                slots: self.slots.update(at as int, slot),
                order: promoted(self.order, at),
                ..self
            }
        } else {
            TilesView { slots: self.slots.push(slot), order: seq![at] + self.order, ..self }
        }
    }

    /// The cache without tiles.
    pub open spec fn cleared(self) -> TilesView<S> {
        TilesView { slots: Seq::empty(), order: Seq::empty(), ..self }
    }
}

/// The slots that stay.
pub open spec fn kept_slots<S>(slots: Seq<SlotView<S>>, removed: Seq<bool>) -> Seq<SlotView<S>>
    decreases slots.len(),
{
    if slots.len() == 0 {
        Seq::empty()
    } else {
        let front = kept_slots(slots.drop_last(), removed);
        if removed[slots.len() - 1] {
            front
        } else {
            front.push(slots.last())
        }
    }
}

/// How many of the first `count` slots stay.
pub open spec fn kept_before(removed: Seq<bool>, count: int) -> int
    decreases count,
{
    if count <= 0 {
        0
    } else {
        kept_before(removed, count - 1) + if removed[count - 1] {
            0int
        } else {
            1
        }
    }
}

/// The slots that stay, by their new places, in the order of their last use.
pub open spec fn kept_order(order: Seq<usize>, removed: Seq<bool>) -> Seq<usize>
    decreases order.len(),
{
    if order.len() == 0 {
        Seq::empty()
    } else {
        let front = kept_order(order.drop_last(), removed);
        if removed[order.last() as int] {
            front
        } else {
            front.push(kept_before(removed, order.last() as int) as usize)
        }
    }
}

/// Which slots hold tiles of a document.
pub open spec fn slots_of<S>(slots: Seq<SlotView<S>>, doc_id: DocumentId) -> Seq<bool> {
    Seq::new(slots.len(), |i: int| slots[i].doc_id == doc_id)
}

impl<S> TilesView<S> {
    /// The cache without some slots.
    pub open spec fn compacted(self, removed: Seq<bool>) -> TilesView<S> {
        TilesView {
            slots: kept_slots(self.slots, removed),
            order: kept_order(self.order, removed),
            ..self
        }
    }

    /// The cache without the tiles of a document.
    pub open spec fn without(self, doc_id: DocumentId) -> TilesView<S> {
        self.compacted(slots_of(self.slots, doc_id))
    }
}

proof fn lemma_slot_for<S>(
    slots: Seq<SlotView<S>>,
    doc_id: DocumentId,
    tree_id: u64,
    tile_idx: usize,
    from: int,
)
    requires
        0 <= from,
    ensures
        match slot_for(slots, doc_id, tree_id, tile_idx, from) {
            Some(at) => from <= at < slots.len() && is_slot_for(
                slots[at],
                doc_id,
                tree_id,
                tile_idx,
            ),
            None => forall|k: int|
                from <= k < slots.len() ==> !is_slot_for(
                    #[trigger] slots[k],
                    doc_id,
                    tree_id,
                    tile_idx,
                ),
        },
    decreases slots.len() - from,
{
    if from < slots.len() && !is_slot_for(slots[from], doc_id, tree_id, tile_idx) {
        lemma_slot_for(slots, doc_id, tree_id, tile_idx, from + 1);
    }
}

/// Use of a slot keeps a cache in order.
pub proof fn lemma_touched_is_valid<S>(cache: TilesView<S>, slot: usize)
    requires
        cache.is_valid(),
    ensures
        cache.touched(slot).is_valid(),
{
    if cache.order.contains(slot) {
        lemma_promoted(cache.order, slot);
    } else {
        lemma_place_in(cache.order, slot, 0);
        if let Some(at) = place_in(cache.order, slot, 0) {
            assert(cache.order[at] == slot);
        }
    }
}

/// A tile that is put into a cache keeps it in order, and is found in the slot that was used last;
/// no other tile moves.
pub proof fn lemma_inserted_tile_is_found<S>(cache: TilesView<S>, slot: SlotView<S>)
    requires
        cache.is_valid(),
    ensures
        cache.inserted(slot).is_valid(),
        cache.slot_to_fill(slot) < cache.inserted(slot).slots.len(),
        cache.inserted(slot).slots[cache.slot_to_fill(slot) as int] == slot,
        cache.inserted(slot).find(slot.doc_id, slot.tile.key.tree_id, slot.tile.key.tile_idx)
            == Some(cache.slot_to_fill(slot) as int),
        cache.inserted(slot).order[0] == cache.slot_to_fill(slot),
        forall|i: int|
            0 <= i < cache.slots.len() && i != cache.slot_to_fill(slot)
                ==> #[trigger] cache.inserted(slot).slots[i] == cache.slots[i],
{
    let key = slot.tile.key;
    let at = cache.slot_to_fill(slot);
    let after = cache.inserted(slot);
    lemma_slot_for(cache.slots, slot.doc_id, key.tree_id, key.tile_idx, 0);
    if cache.slots.len() == cache.max_tiles {
        assert(cache.order.contains(0));
        assert(cache.order.contains(cache.order.last()));
    }
    if at < cache.slots.len() {
        assert(cache.order.contains(at));
        lemma_promoted(cache.order, at);
    } else {
        assert forall|other: usize| #[trigger]
            after.order.contains(other) <==> other < after.slots.len() by {
            if after.order.contains(other) {
                let i = choose|i: int| 0 <= i < after.order.len() && after.order[i] == other;
                if i > 0 {
                    assert(cache.order[i - 1] == other);
                    assert(cache.order.contains(other));
                }
            }
            if other < after.slots.len() {
                if other == at {
                    assert(after.order[0] == other);
                } else {
                    assert(cache.order.contains(other));
                    let i = choose|i: int| 0 <= i < cache.order.len() && cache.order[i] == other;
                    assert(after.order[i + 1] == other);
                }
            }
        }
        assert(after.order.no_duplicates()) by {
            assert forall|i: int, j: int|
                0 <= i < after.order.len() && 0 <= j < after.order.len() && i
                    != j implies after.order[i] != after.order[j] by {
                if i == 0 {
                    assert(after.order[j] == cache.order[j - 1]);
                    assert(cache.order.contains(cache.order[j - 1]));
                } else if j == 0 {
                    assert(after.order[i] == cache.order[i - 1]);
                    assert(cache.order.contains(cache.order[i - 1]));
                } else {
                    assert(after.order[i] == cache.order[i - 1]);
                    assert(after.order[j] == cache.order[j - 1]);
                }
            }
        }
    }
    assert forall|i: int, j: int| 0 <= i < j < after.slots.len() implies differ(
        #[trigger] after.slots[i],
        #[trigger] after.slots[j],
    ) by {
        if i != at && j != at {
            assert(differ(cache.slots[i], cache.slots[j]));
        } else {
            let k = if i == at { j } else { i };
            assert(after.slots[k] == cache.slots[k]);
            if at < cache.slots.len() && is_slot_for(
                cache.slots[at as int],
                slot.doc_id,
                key.tree_id,
                key.tile_idx,
            ) {
                if k < at {
                    assert(differ(cache.slots[k], cache.slots[at as int]));
                } else {
                    assert(differ(cache.slots[at as int], cache.slots[k]));
                }
            } else {
                assert(!is_slot_for(cache.slots[k], slot.doc_id, key.tree_id, key.tile_idx));
            }
        }
    }
    lemma_slot_for(after.slots, slot.doc_id, key.tree_id, key.tile_idx, 0);
    assert(is_slot_for(after.slots[at as int], slot.doc_id, key.tree_id, key.tile_idx));
    let found = after.find(slot.doc_id, key.tree_id, key.tile_idx)->0;
    if found < at {
        assert(differ(after.slots[found], after.slots[at as int]));
    } else if at < found {
        assert(differ(after.slots[at as int], after.slots[found]));
    }
}

/// When a cache is full, the tile whose last use was the longest ago is the only one that is lost.
pub proof fn lemma_oldest_tile_makes_room<S>(cache: TilesView<S>, slot: SlotView<S>)
    requires
        cache.is_valid(),
        cache.slots.len() == cache.max_tiles,
        cache.find(slot.doc_id, slot.tile.key.tree_id, slot.tile.key.tile_idx) is None,
    ensures
        cache.order.len() > 0,
        cache.slot_to_fill(slot) == cache.order.last(),
        cache.inserted(slot).slots == cache.slots.update(cache.order.last() as int, slot),
{
    assert(cache.order.contains(0));
    assert(cache.order.contains(cache.order.last()));
}

/// Whether a slot stays, and stands at place `r` afterwards.
spec fn stays_at<S>(slots: Seq<SlotView<S>>, removed: Seq<bool>, i: int, r: int) -> bool {
    &&& 0 <= i < slots.len()
    &&& !removed[i]
    &&& kept_before(removed, i) == r
    &&& kept_slots(slots, removed)[r] == slots[i]
}

/// Whether a slot stays.
spec fn stays<S>(slots: Seq<SlotView<S>>, removed: Seq<bool>, i: int) -> bool {
    let r = kept_before(removed, i);
    0 <= r < kept_slots(slots, removed).len() && stays_at(slots, removed, i, r)
}

/// Whether some slot stands at place `r` afterwards.
spec fn is_reached<S>(slots: Seq<SlotView<S>>, removed: Seq<bool>, r: int) -> bool {
    exists|i: int| #[trigger] stays_at(slots, removed, i, r)
}

proof fn lemma_kept<S>(slots: Seq<SlotView<S>>, removed: Seq<bool>)
    requires
        slots.len() <= removed.len(),
    ensures
        kept_slots(slots, removed).len() == kept_before(removed, slots.len() as int),
        forall|i: int|
            0 <= i < slots.len() && !removed[i] ==> #[trigger] stays(slots, removed, i),
        forall|r: int|
            0 <= r < kept_slots(slots, removed).len() ==> #[trigger] is_reached(
                slots,
                removed,
                r,
            ),
    decreases slots.len(),
{
    if slots.len() > 0 {
        let front = slots.drop_last();
        let last = slots.len() - 1;
        lemma_kept(front, removed);
        let before = kept_slots(front, removed);
        let after = kept_slots(slots, removed);
        lemma_kept_before(removed, 0, last);
        assert forall|i: int| 0 <= i < slots.len() && !removed[i] implies #[trigger] stays(
            slots,
            removed,
            i,
        ) by {
            if i < last {
                assert(stays(front, removed, i));
                assert(front[i] == slots[i]);
            }
        }
        assert forall|r: int| 0 <= r < after.len() implies #[trigger] is_reached(
            slots,
            removed,
            r,
        ) by {
            if r < before.len() {
                assert(is_reached(front, removed, r));
                let i = choose|i: int| #[trigger] stays_at(front, removed, i, r);
                assert(front[i] == slots[i]);
                assert(stays_at(slots, removed, i, r));
            } else {
                assert(stays_at(slots, removed, last, r));
            }
        }
    }
}

proof fn lemma_kept_before(removed: Seq<bool>, i: int, j: int)
    requires
        0 <= i <= j,
    ensures
        0 <= kept_before(removed, i) <= kept_before(removed, j) <= j,
        i < j && !removed[i] ==> kept_before(removed, i) < kept_before(removed, j),
    decreases j,
{
    if i < j {
        lemma_kept_before(removed, i, j - 1);
    } else if j > 0 {
        lemma_kept_before(removed, i - 1, j - 1);
    }
}

proof fn lemma_kept_order(order: Seq<usize>, removed: Seq<bool>)
    requires
        order.no_duplicates(),
        forall|i: int| 0 <= i < order.len() ==> (#[trigger] order[i]) < removed.len(),
        removed.len() <= usize::MAX,
    ensures
        kept_order(order, removed).no_duplicates(),
        forall|p: int|
            0 <= p < order.len() && !removed[(#[trigger] order[p]) as int] ==> kept_order(
                order,
                removed,
            ).contains(kept_before(removed, order[p] as int) as usize),
        forall|r: usize| #[trigger]
            kept_order(order, removed).contains(r) ==> exists|p: int|
                0 <= p < order.len() && !removed[(#[trigger] order[p]) as int] && r
                    == kept_before(removed, order[p] as int),
    decreases order.len(),
{
    if order.len() > 0 {
        let front = order.drop_last();
        let last = order.last();
        assert forall|i: int| 0 <= i < front.len() implies (#[trigger] front[i])
            < removed.len() by {
            assert(front[i] == order[i]);
        }
        assert(order[order.len() - 1] == last);
        lemma_kept_order(front, removed);
        let before = kept_order(front, removed);
        let after = kept_order(order, removed);
        lemma_kept_before(removed, 0, last as int);
        let rank = kept_before(removed, last as int) as usize;
        if !removed[last as int] {
            assert(after == before.push(rank));
            assert(!before.contains(rank)) by {
                if before.contains(rank) {
                    let p = choose|p: int|
                        0 <= p < front.len() && !removed[(#[trigger] front[p]) as int] && rank
                            == kept_before(removed, front[p] as int);
                    assert(front[p] == order[p]);
                    assert(order[p] != order[order.len() - 1]);
                    if front[p] < last {
                        lemma_kept_before(removed, front[p] as int, last as int);
                    } else {
                        lemma_kept_before(removed, last as int, front[p] as int);
                    }
                }
            }
            assert(after.no_duplicates()) by {
                assert forall|i: int, j: int|
                    0 <= i < after.len() && 0 <= j < after.len() && i != j implies after[i]
                    != after[j] by {
                    if i == before.len() {
                        assert(before.contains(before[j]));
                    } else if j == before.len() {
                        assert(before.contains(before[i]));
                    }
                }
            }
        }
        assert forall|p: int|
            0 <= p < order.len() && !removed[(#[trigger] order[p]) as int] implies after.contains(
            kept_before(removed, order[p] as int) as usize,
        ) by {
            if p < front.len() {
                assert(front[p] == order[p]);
                let r = kept_before(removed, order[p] as int) as usize;
                assert(before.contains(r));
                let k = choose|k: int| 0 <= k < before.len() && before[k] == r;
                assert(after[k] == r);
            } else {
                assert(after[before.len() as int] == rank);
            }
        }
        assert forall|r: usize| #[trigger] after.contains(r) implies exists|p: int|
            0 <= p < order.len() && !removed[(#[trigger] order[p]) as int] && r == kept_before(
                removed,
                order[p] as int,
            ) by {
            let k = choose|k: int| 0 <= k < after.len() && after[k] == r;
            if k < before.len() {
                assert(before.contains(r)) by {
                    assert(before[k] == r);
                }
                let p = choose|p: int|
                    0 <= p < front.len() && !removed[(#[trigger] front[p]) as int] && r
                        == kept_before(removed, front[p] as int);
                assert(front[p] == order[p]);
            } else {
                assert(order[order.len() - 1] == last);
            }
        }
    }
}

/// A cache without some of its slots is in order.
pub proof fn lemma_compacted_is_valid<S>(cache: TilesView<S>, removed: Seq<bool>)
    requires
        cache.is_valid(),
        removed.len() == cache.slots.len(),
    ensures
        cache.compacted(removed).is_valid(),
{
    let after = cache.compacted(removed);
    let count = cache.slots.len() as int;
    lemma_kept(cache.slots, removed);
    lemma_kept_before(removed, 0, count);
    assert forall|i: int| 0 <= i < cache.order.len() implies (#[trigger] cache.order[i])
        < removed.len() by {
        assert(cache.order.contains(cache.order[i]));
    }
    lemma_kept_order(cache.order, removed);
    assert forall|slot: usize| #[trigger]
        after.order.contains(slot) <==> slot < after.slots.len() by {
        if after.order.contains(slot) {
            let p = choose|p: int|
                0 <= p < cache.order.len() && !removed[(#[trigger] cache.order[p]) as int] && slot
                    == kept_before(removed, cache.order[p] as int);
            assert(cache.order.contains(cache.order[p]));
            lemma_kept_before(removed, cache.order[p] as int, count);
        }
        if slot < after.slots.len() {
            assert(is_reached(cache.slots, removed, slot as int));
            let i = choose|i: int| #[trigger] stays_at(cache.slots, removed, i, slot as int);
            assert(cache.order.contains(i as usize));
            let p = choose|p: int| 0 <= p < cache.order.len() && cache.order[p] == i as usize;
            assert(!removed[cache.order[p] as int]);
        }
    }
    assert forall|a: int, b: int| 0 <= a < b < after.slots.len() implies differ(
        #[trigger] after.slots[a],
        #[trigger] after.slots[b],
    ) by {
        assert(is_reached(cache.slots, removed, a) && is_reached(cache.slots, removed, b));
        let i = choose|i: int| #[trigger] stays_at(cache.slots, removed, i, a);
        let j = choose|j: int| #[trigger] stays_at(cache.slots, removed, j, b);
        if i < j {
            assert(differ(cache.slots[i], cache.slots[j]));
        } else if j < i {
            lemma_kept_before(removed, j, i);
        }
    }
}

/// Without the tiles of a document, a cache holds none of these, and all the others.
pub proof fn lemma_only_the_document_is_lost<S>(cache: TilesView<S>, doc_id: DocumentId)
    requires
        cache.is_valid(),
    ensures
        cache.without(doc_id).is_valid(),
        forall|r: int|
            0 <= r < cache.without(doc_id).slots.len() ==> (
            #[trigger] cache.without(doc_id).slots[r]).doc_id != doc_id,
        forall|i: int|
            0 <= i < cache.slots.len() && (#[trigger] cache.slots[i]).doc_id != doc_id
                ==> cache.without(doc_id).slots.contains(cache.slots[i]),
{
    let removed = slots_of(cache.slots, doc_id);
    let after = cache.without(doc_id);
    lemma_compacted_is_valid(cache, removed);
    lemma_kept(cache.slots, removed);
    assert forall|r: int| 0 <= r < after.slots.len() implies (#[trigger] after.slots[r]).doc_id
        != doc_id by {
        assert(is_reached(cache.slots, removed, r));
        let i = choose|i: int| #[trigger] stays_at(cache.slots, removed, i, r);
        assert(!removed[i]);
    }
    assert forall|i: int|
        0 <= i < cache.slots.len() && (#[trigger] cache.slots[i]).doc_id
            != doc_id implies after.slots.contains(cache.slots[i]) by {
        assert(stays(cache.slots, removed, i));
        assert(after.slots[kept_before(removed, i)] == cache.slots[i]);
    }
}

/// A cache of tiles. When it is full, the tile whose last use was the longest ago makes room.
#[derive(Debug)]
pub struct HighlightTiles<S> {
    /// The tiles, each with the document that it belongs to.
    tiles: Vec<(DocumentId, HighlightTile<S>)>,
    mru_order: VecDeque<usize>,
    max_tiles: usize,
    theme_epoch: u64,
}

/// What slots say.
spec fn slot_views<S>(tiles: Seq<(DocumentId, HighlightTile<S>)>) -> Seq<SlotView<S>> {
    Seq::new(tiles.len(), |i: int| SlotView { doc_id: tiles[i].0, tile: tiles[i].1@ })
}

impl<S> View for HighlightTiles<S> {
    type V = TilesView<S>;

    closed spec fn view(&self) -> TilesView<S> {
        TilesView {
            slots: slot_views(self.tiles@),
            order: self.mru_order@,
            max_tiles: self.max_tiles,
            theme_epoch: self.theme_epoch,
        }
    }
}

impl<S> Default for HighlightTiles<S> {
    fn default() -> (cache: Self)
        ensures
            cache@.is_valid(),
            cache@ == empty_cache::<S>(MAX_TILES),
    {
        HighlightTiles::with_capacity(MAX_TILES)
    }
}

/// A cache without tiles.
pub open spec fn empty_cache<S>(max_tiles: usize) -> TilesView<S> {
    TilesView { slots: Seq::empty(), order: Seq::empty(), max_tiles, theme_epoch: 0 }
}

impl<S> HighlightTiles<S> {
    /// A cache for the usual number of tiles.
    pub fn new() -> (cache: Self)
        ensures
            cache@.is_valid(),
            cache@ == empty_cache::<S>(MAX_TILES),
    {
        HighlightTiles::with_capacity(MAX_TILES)
    }

    /// A cache for at most `max_tiles` tiles.
    pub fn with_capacity(max_tiles: usize) -> (cache: Self)
        requires
            max_tiles > 0,
        ensures
            cache@.is_valid(),
            cache@ == empty_cache::<S>(max_tiles),
    {
        let cache = HighlightTiles {
            tiles: Vec::new(),
            mru_order: VecDeque::new(),
            max_tiles,
            theme_epoch: 0,
        };
        assert(cache@ =~= empty_cache::<S>(max_tiles));
        cache
    }

    /// The version of the styles.
    pub fn theme_epoch(&self) -> (epoch: u64)
        ensures
            epoch == self@.theme_epoch,
    {
        self.theme_epoch
    }

    /// The number of tiles.
    pub fn len(&self) -> (len: usize)
        ensures
            len == self@.slots.len(),
    {
        self.tiles.len()
    }

    /// The slots in the order of their last use.
    pub fn mru_order(&self) -> (order: &VecDeque<usize>)
        ensures
            order@ == self@.order,
    {
        &self.mru_order
    }

    /// The tile in a slot, and the document that it belongs to.
    pub fn tile(&self, slot: usize) -> (tile: Option<(DocumentId, &HighlightTile<S>)>)
        ensures
            match tile {
                Some((doc_id, tile)) => slot < self@.slots.len() && self@.slots[slot as int] == (
                SlotView { doc_id, tile: tile@ }),
                None => slot >= self@.slots.len(),
            },
    {
        if slot < self.tiles.len() {
            Some((self.tiles[slot].0, &self.tiles[slot].1))
        } else {
            None
        }
    }

    /// Changes the version of the styles. Tiles of another version are of no use.
    pub fn set_theme_epoch(&mut self, epoch: u64)
        requires
            old(self)@.is_valid(),
        ensures
            final(self)@.is_valid(),
            final(self)@ == if epoch == old(self)@.theme_epoch {
                old(self)@
            } else {
                (TilesView { theme_epoch: epoch, ..old(self)@.cleared() })
            },
    {
        if epoch != self.theme_epoch {
            self.theme_epoch = epoch;
            self.clear();
        }
    }

    /// Removes all tiles.
    pub fn clear(&mut self)
        requires
            old(self)@.max_tiles > 0,
        ensures
            final(self)@.is_valid(),
            final(self)@ == old(self)@.cleared(),
    {
        self.tiles.clear();
        self.mru_order.clear();
        assert(self@ =~= old(self)@.cleared());
    }

    /// Finds the slot of a tile.
    pub fn find_slot(&self, doc_id: DocumentId, tree_id: u64, tile_idx: usize) -> (slot: Option<
        usize,
    >)
        ensures
            match slot {
                Some(slot) => self@.find(doc_id, tree_id, tile_idx) == Some(slot as int) && slot
                    < self@.slots.len(),
                None => self@.find(doc_id, tree_id, tile_idx) is None,
            },
    {
        for i in 0..self.tiles.len()
            invariant
                self@.find(doc_id, tree_id, tile_idx) == slot_for(
                    self@.slots,
                    doc_id,
                    tree_id,
                    tile_idx,
                    i as int,
                ),
        {
            let key = self.tiles[i].1.key;
            if self.tiles[i].0 == doc_id && key.tree_id == tree_id && key.tile_idx == tile_idx {
                return Some(i);
            }
        }
        None
    }

    /// Takes note that a slot was used.
    pub fn touch(&mut self, slot: usize)
        requires
            old(self)@.is_valid(),
        ensures
            final(self)@.is_valid(),
            final(self)@ == old(self)@.touched(slot),
    {
        proof {
            lemma_touched_is_valid(self@, slot);
        }
        self.refresh(slot);
    }

    /// Puts a tile into the cache, and returns its slot.
    pub fn insert_tile(&mut self, doc_id: DocumentId, tile: HighlightTile<S>) -> (slot: usize)
        requires
            old(self)@.is_valid(),
        ensures
            final(self)@.is_valid(),
            final(self)@ == old(self)@.inserted((SlotView { doc_id, tile: tile@ })),
            slot == old(self)@.slot_to_fill((SlotView { doc_id, tile: tile@ })),
            slot < final(self)@.slots.len(),
            final(self)@.slots[slot as int] == (SlotView { doc_id, tile: tile@ }),
    {
        let ghost new = SlotView { doc_id, tile: tile@ };
        let ghost before = self@;
        proof {
            lemma_inserted_tile_is_found(before, new);
        }
        if let Some(slot) = self.find_slot(doc_id, tile.key.tree_id, tile.key.tile_idx) {
            self.tiles.set(slot, (doc_id, tile));
            assert(self@.slots =~= before.slots.update(slot as int, new));
            self.refresh(slot);
            return slot;
        }
        if self.tiles.len() == self.max_tiles {
            assert(before.order.contains(0));
            assert(before.order.contains(before.order.last()));
            let slot: usize = self.mru_order[self.mru_order.len() - 1];
            self.tiles.set(slot, (doc_id, tile));
            assert(self@.slots =~= before.slots.update(slot as int, new));
            self.refresh(slot);
            return slot;
        }
        let slot: usize = self.tiles.len();
        self.tiles.push((doc_id, tile));
        self.mru_order.push_front(slot);
        assert(self@ =~= before.inserted(new));
        slot
    }

    /// Brings a slot to the front.
    fn refresh(&mut self, slot: usize)
        ensures
            final(self)@ == (TilesView { order: promoted(old(self)@.order, slot), ..old(self)@ }),
    {
        let ghost order = self.mru_order@;
        let count: usize = self.mru_order.len();
        for i in 0..count
            invariant
                self@ == old(self)@,
                order == self.mru_order@,
                count == order.len(),
                place_in(order, slot, 0) == place_in(order, slot, i as int),
        {
            if self.mru_order[i] == slot {
                let _same = self.mru_order.remove(i);
                self.mru_order.push_front(slot);
                assert(self@ =~= (TilesView { order: promoted(order, slot), ..old(self)@ }));
                return;
            }
        }
    }

    /// Removes slots, and closes the gaps that they leave.
    pub fn compact_tiles(&mut self, removed: &Vec<bool>)
        requires
            old(self)@.is_valid(),
            removed.len() == old(self)@.slots.len(),
        ensures
            final(self)@.is_valid(),
            final(self)@ == old(self)@.compacted(removed@),
    {
        let ghost before = self@;
        let ghost all = self.tiles@;
        let ghost order = self.mru_order@;
        proof {
            lemma_compacted_is_valid(before, removed@);
        }
        let count: usize = self.tiles.len();
        let mut given: Vec<(DocumentId, HighlightTile<S>)> = Vec::new();
        std::mem::swap(&mut given, &mut self.tiles);
        let mut tiles: Vec<(DocumentId, HighlightTile<S>)> = Vec::new();
        let mut remap: Vec<usize> = Vec::new();
        assert(all.skip(0) =~= all);
        assert(slot_views(tiles@) =~= kept_slots(before.slots.take(0), removed@));
        for i in 0..count
            invariant
                count == all.len(),
                removed.len() == count,
                before.slots == slot_views(all),
                given@ == all.skip(i as int),
                slot_views(tiles@) == kept_slots(before.slots.take(i as int), removed@),
                tiles.len() == kept_before(removed@, i as int),
                tiles.len() <= i,
                remap.len() == i,
                forall|k: int|
                    0 <= k < i ==> #[trigger] remap@[k] == kept_before(removed@, k),
        {
            let ghost some = before.slots.take(i + 1);
            let ghost kept = tiles@;
            assert(some.drop_last() =~= before.slots.take(i as int));
            let tile = given.remove(0);
            assert(given@ =~= all.skip(i + 1));
            remap.push(tiles.len());
            if !removed[i] {
                tiles.push(tile);
                assert(slot_views(tiles@) =~= slot_views(kept).push(before.slots[i as int]));
            }
        }
        assert(before.slots.take(count as int) =~= before.slots);
        let mut mru_order: VecDeque<usize> = VecDeque::new();
        assert forall|k: int| 0 <= k < order.len() implies (#[trigger] order[k]) < count by {
            assert(before.order.contains(order[k]));
        }
        assert(order.take(0) =~= Seq::empty());
        for i in 0..self.mru_order.len()
            invariant
                order == self.mru_order@,
                removed.len() == count,
                remap.len() == count,
                forall|k: int|
                    0 <= k < count ==> #[trigger] remap@[k] == kept_before(removed@, k),
                forall|k: int| 0 <= k < order.len() ==> (#[trigger] order[k]) < count,
                mru_order@ == kept_order(order.take(i as int), removed@),
        {
            assert(order.take(i + 1).drop_last() =~= order.take(i as int));
            assert(order.take(i + 1).last() == order[i as int]);
            let slot: usize = self.mru_order[i];
            assert(order[i as int] == slot);
            if !removed[slot] {
                mru_order.push_back(remap[slot]);
            }
        }
        assert(order.take(order.len() as int) =~= order);
        self.tiles = tiles;
        self.mru_order = mru_order;
        assert(self@ =~= before.compacted(removed@));
    }

    /// Removes the tiles of a document.
    pub fn invalidate_document(&mut self, doc_id: DocumentId)
        requires
            old(self)@.is_valid(),
        ensures
            final(self)@.is_valid(),
            final(self)@ == old(self)@.without(doc_id),
    {
        let mut removed: Vec<bool> = Vec::with_capacity(self.tiles.len());
        for i in 0..self.tiles.len()
            invariant
                removed.len() == i,
                forall|k: int|
                    0 <= k < i ==> #[trigger] removed@[k] == (self.tiles@[k].0 == doc_id),
        {
            removed.push(self.tiles[i].0 == doc_id);
        }
        assert(removed@ =~= slots_of(self@.slots, doc_id));
        self.compact_tiles(&removed);
    }
}

/// A request for the highlights of some lines of a document.
pub struct HighlightSpanQuery<'a, Spans, Resolve> {
    pub doc_id: DocumentId,
    /// The version of the document's syntax.
    pub syntax_version: u64,
    /// The text of the document.
    pub rope: &'a Rope,
    /// The tree that the highlights are read from.
    pub tree_id: u64,
    /// The byte at which that tree ends.
    pub root_end_byte: u32,
    /// Reads the highlights between two bytes from that tree.
    pub highlight_spans: Spans,
    /// Finds the style of a highlight.
    pub style_resolver: Resolve,
    /// The first line.
    pub start_line: usize,
    /// The line behind the last.
    pub end_line: usize,
}

/// A request with what its functions answer.
pub struct RequestView<S> {
    pub doc_id: DocumentId,
    pub syntax_version: u64,
    pub text: Seq<char>,
    pub tree_id: u64,
    pub root_end_byte: u32,
    pub spans: spec_fn(u32, u32) -> Seq<HighlightSpan>,
    pub styles: spec_fn(Highlight) -> S,
    pub start_line: usize,
    pub end_line: usize,
}

impl<'a, Spans, Resolve> HighlightSpanQuery<'a, Spans, Resolve> {
    /// The request, if its functions answer so.
    pub open spec fn with<S>(
        &self,
        spans: spec_fn(u32, u32) -> Seq<HighlightSpan>,
        styles: spec_fn(Highlight) -> S,
    ) -> RequestView<S> {
        RequestView {
            doc_id: self.doc_id,
            syntax_version: self.syntax_version,
            text: rope_text(*self.rope),
            tree_id: self.tree_id,
            root_end_byte: self.root_end_byte,
            spans,
            styles,
            start_line: self.start_line,
            end_line: self.end_line,
        }
    }

    /// Whether the functions of the request answer so.
    pub open spec fn answers_by<S>(
        &self,
        spans: spec_fn(u32, u32) -> Seq<HighlightSpan>,
        styles: spec_fn(Highlight) -> S,
    ) -> bool where
        Spans: Fn(u32, u32) -> Vec<HighlightSpan>,
        Resolve: Fn(Highlight) -> S,
     {
        &&& forall|start: u32, end: u32, found: Vec<HighlightSpan>| #[trigger]
            call_ensures(self.highlight_spans, (start, end), found) ==> found@ == spans(start, end)
        &&& forall|highlight: Highlight, style: S| #[trigger]
            call_ensures(self.style_resolver, (highlight,), style) ==> style == styles(highlight)
    }

    /// Whether the request can be met: its functions take all that they may be asked, the document
    /// is not too large, and its lines can be counted.
    pub open spec fn can_be_met<S>(&self) -> bool where
        Spans: Fn(u32, u32) -> Vec<HighlightSpan>,
        Resolve: Fn(Highlight) -> S,
     {
        &&& forall|start: u32, end: u32| #[trigger]
            call_requires(self.highlight_spans, (start, end))
        &&& forall|highlight: Highlight| #[trigger] call_requires(self.style_resolver, (highlight,))
        &&& byte_len(rope_text(*self.rope)) <= u32::MAX
        &&& self.start_line < self.end_line ==> self.end_line - 1 <= usize::MAX - TILE_SIZE
    }
}

/// The smaller of two numbers.
pub open spec fn smaller(a: u32, b: u32) -> u32 {
    if a < b {
        a
    } else {
        b
    }
}

/// The larger of two numbers.
pub open spec fn larger(a: u32, b: u32) -> u32 {
    if a > b {
        a
    } else {
        b
    }
}

/// Whether highlighted parts lie between two bytes, and none is empty.
pub open spec fn lie_between<S>(spans: Seq<(HighlightSpan, S)>, start: int, end: int) -> bool {
    forall|i: int|
        0 <= i < spans.len() ==> start <= (#[trigger] spans[i]).0.start < spans[i].0.end <= end
}

/// The parts of highlighted parts that lie between two bytes.
pub open spec fn clipped<S>(spans: Seq<(HighlightSpan, S)>, start: u32, end: u32) -> Seq<
    (HighlightSpan, S),
>
    decreases spans.len(),
{
    if spans.len() == 0 {
        Seq::empty()
    } else {
        let front = clipped(spans.drop_last(), start, end);
        let (span, style) = spans.last();
        let cut = HighlightSpan {
            start: larger(span.start, start),
            end: smaller(span.end, end),
            highlight: span.highlight,
        };
        if cut.start < cut.end {
            front.push((cut, style))
        } else {
            front
        }
    }
}

/// Highlighted parts, moved between two bytes, with their styles. Nothing is left of a part that
/// lies elsewhere.
pub open spec fn styled<S>(
    spans: Seq<HighlightSpan>,
    styles: spec_fn(Highlight) -> S,
    start: u32,
    end: u32,
) -> Seq<(HighlightSpan, S)>
    decreases spans.len(),
{
    if spans.len() == 0 {
        Seq::empty()
    } else {
        let front = styled(spans.drop_last(), styles, start, end);
        let span = spans.last();
        let cut = HighlightSpan {
            start: smaller(larger(span.start, start), end),
            end: smaller(larger(span.end, start), end),
            highlight: span.highlight,
        };
        if cut.start < cut.end {
            front.push((cut, styles(span.highlight)))
        } else {
            front
        }
    }
}

impl<S> RequestView<S> {
    /// What a tile was made for.
    pub open spec fn key(self, theme_epoch: u64, tile_idx: usize) -> HighlightKey {
        HighlightKey {
            syntax_version: self.syntax_version,
            tree_id: self.tree_id,
            theme_epoch,
            tile_idx,
        }
    }

    /// The highlights of some lines. A tree that does not fit the text has none.
    pub open spec fn line_spans(self, start_line: int, end_line: int) -> Seq<(HighlightSpan, S)> {
        let start = line_start(self.text, start_line) as u32;
        let end = line_start(self.text, end_line) as u32;
        if self.root_end_byte > byte_len(self.text) {
            Seq::empty()
        } else {
            styled((self.spans)(start, end), self.styles, start, end)
        }
    }

    /// The highlights of a tile.
    pub open spec fn tile_spans(self, tile_idx: usize) -> Seq<(HighlightSpan, S)> {
        let start = tile_idx * TILE_SIZE;
        let end = (tile_idx + 1) * TILE_SIZE;
        self.line_spans(
            start,
            if end < line_count(self.text) {
                end
            } else {
                line_count(self.text)
            },
        )
    }

    /// The slot of a tile, if it is there and of use.
    pub open spec fn usable(self, cache: TilesView<S>, tile_idx: usize) -> Option<usize> {
        match cache.find(self.doc_id, self.tree_id, tile_idx) {
            Some(at) => if cache.slots[at].tile.key == self.key(cache.theme_epoch, tile_idx) {
                Some(at as usize)
            } else {
                None
            },
            None => None,
        }
    }

    /// A tile that is made anew.
    pub open spec fn new_slot(self, theme_epoch: u64, tile_idx: usize) -> SlotView<S> {
        SlotView {
            doc_id: self.doc_id,
            tile: TileView {
                key: self.key(theme_epoch, tile_idx),
                spans: self.tile_spans(tile_idx),
            },
        }
    }

    /// The cache once a tile was asked for, and the slot of that tile.
    pub open spec fn with_tile(self, cache: TilesView<S>, tile_idx: usize) -> (TilesView<S>, usize) {
        match self.usable(cache, tile_idx) {
            Some(slot) => (cache.touched(slot), slot),
            None => {
                let new = self.new_slot(cache.theme_epoch, tile_idx);
                (cache.inserted(new), cache.slot_to_fill(new))
            },
        }
    }

    /// The first byte of the lines.
    pub open spec fn start_byte(self) -> u32 {
        line_start(self.text, self.start_line as int) as u32
    }

    /// The byte behind the lines.
    pub open spec fn end_byte(self) -> u32 {
        line_start(self.text, self.end_line as int) as u32
    }

    /// The cache once `count` tiles from one on were asked for, and their highlights within the
    /// lines.
    pub open spec fn tiles_from(self, cache: TilesView<S>, from: usize, count: nat) -> (
        TilesView<S>,
        Seq<(HighlightSpan, S)>,
    )
        decreases count,
    {
        if count == 0 {
            (cache, Seq::empty())
        } else {
            let (before, spans) = self.tiles_from(cache, from, (count - 1) as nat);
            let (after, slot) = self.with_tile(before, (from + count - 1) as usize);
            (
                after,
                spans + clipped(
                    after.slots[slot as int].tile.spans,
                    self.start_byte(),
                    self.end_byte(),
                ),
            )
        }
    }

    /// The cache once the highlights of the lines were asked for, and these.
    pub open spec fn met(self, cache: TilesView<S>) -> (TilesView<S>, Seq<(HighlightSpan, S)>) {
        if self.start_line >= self.end_line {
            (cache, Seq::empty())
        } else {
            let first = self.start_line / TILE_SIZE;
            let last = ((self.end_line - 1) / TILE_SIZE as int) as usize;
            self.tiles_from(cache, first, (last - first + 1) as nat)
        }
    }
}

/// Finds the byte at which a line begins; behind the last line, the end of the text.
pub fn line_to_byte_or_eof(rope: &Rope, line: usize) -> (byte: u32)
    requires
        byte_len(rope_text(*rope)) <= u32::MAX,
    ensures
        byte == line_start(rope_text(*rope), line as int),
        byte <= byte_len(rope_text(*rope)),
{
    proof {
        crate::rope::lemma_line_start(rope_text(*rope), line as int);
    }
    if line < rope_len_lines(rope) {
        rope_line_to_byte(rope, line) as u32
    } else {
        rope_len_bytes(rope) as u32
    }
}

/// Finds the smaller of two numbers.
fn min_of(a: u32, b: u32) -> (least: u32)
    ensures
        least == smaller(a, b),
{
    if a < b {
        a
    } else {
        b
    }
}

/// Finds the larger of two numbers.
fn max_of(a: u32, b: u32) -> (most: u32)
    ensures
        most == larger(a, b),
{
    if a > b {
        a
    } else {
        b
    }
}

/// Reads the highlights of some lines, and finds their styles.
pub fn build_tile_spans<S, Spans, Resolve>(
    q: &HighlightSpanQuery<'_, Spans, Resolve>,
    start_line: usize,
    end_line: usize,
) -> (built: Vec<(HighlightSpan, S)>) where
    Spans: Fn(u32, u32) -> Vec<HighlightSpan>,
    Resolve: Fn(Highlight) -> S,

    requires
        q.can_be_met::<S>(),
    ensures
        forall|spans: spec_fn(u32, u32) -> Seq<HighlightSpan>, styles: spec_fn(Highlight) -> S|
            #[trigger]
            q.answers_by(spans, styles) ==> built@ == q.with(spans, styles).line_spans(
                start_line as int,
                end_line as int,
            ),
{
    let start: u32 = line_to_byte_or_eof(q.rope, start_line);
    let end: u32 = line_to_byte_or_eof(q.rope, end_line);
    let mut built: Vec<(HighlightSpan, S)> = Vec::new();
    if q.root_end_byte > rope_len_bytes(q.rope) as u32 {
        return built;
    }
    let found = (q.highlight_spans)(start, end);
    assert(found@.take(0) =~= Seq::empty());
    for i in 0..found.len()
        invariant
            q.can_be_met::<S>(),
            forall|spans: spec_fn(u32, u32) -> Seq<HighlightSpan>, styles: spec_fn(Highlight) -> S|
                #[trigger]
                q.answers_by(spans, styles) ==> built@ == styled(
                    found@.take(i as int),
                    styles,
                    start,
                    end,
                ),
    {
        proof {
            assert(found@.take(i + 1).drop_last() =~= found@.take(i as int));
            assert(found@.take(i + 1).last() == found@[i as int]);
        }
        let span = found[i];
        let cut = HighlightSpan {
            start: min_of(max_of(span.start, start), end),
            end: min_of(max_of(span.end, start), end),
            highlight: span.highlight,
        };
        if cut.start < cut.end {
            let style = (q.style_resolver)(span.highlight);
            built.push((cut, style));
        }
    }
    assert(found@.take(found.len() as int) =~= found@);
    built
}

impl<S> HighlightTiles<S> {
    /// Finds the slot of a tile, which is made anew if it is not there or of no use.
    fn get_or_build_tile_index<Spans, Resolve>(
        &mut self,
        q: &HighlightSpanQuery<'_, Spans, Resolve>,
        key: HighlightKey,
    ) -> (slot: usize) where
        Spans: Fn(u32, u32) -> Vec<HighlightSpan>,
        Resolve: Fn(Highlight) -> S,

        requires
            old(self)@.is_valid(),
            q.can_be_met::<S>(),
            key.syntax_version == q.syntax_version,
            key.tree_id == q.tree_id,
            key.theme_epoch == old(self)@.theme_epoch,
            (key.tile_idx + 1) * TILE_SIZE <= usize::MAX,
        ensures
            final(self)@.is_valid(),
            final(self)@.theme_epoch == old(self)@.theme_epoch,
            slot < final(self)@.slots.len(),
            forall|spans: spec_fn(u32, u32) -> Seq<HighlightSpan>, styles: spec_fn(Highlight) -> S|
                #[trigger]
                q.answers_by(spans, styles) ==> (final(self)@, slot) == q.with(
                    spans,
                    styles,
                ).with_tile(old(self)@, key.tile_idx),
    {
        let ghost before = self@;
        proof {
            lemma_slot_for(before.slots, q.doc_id, q.tree_id, key.tile_idx, 0);
        }
        if let Some(slot) = self.find_slot(q.doc_id, key.tree_id, key.tile_idx) {
            if self.tiles[slot].1.key == key {
                assert(before.slots[slot as int].tile.key == key);
                self.touch(slot);
                return slot;
            }
            assert(before.slots[slot as int].tile.key != key);
        }
        let start_line: usize = key.tile_idx * TILE_SIZE;
        let lines: usize = rope_len_lines(q.rope);
        let full: usize = (key.tile_idx + 1) * TILE_SIZE;
        let end_line: usize = if full < lines {
            full
        } else {
            lines
        };
        let spans = build_tile_spans(q, start_line, end_line);
        self.insert_tile(q.doc_id, HighlightTile { key, spans })
    }

    /// Finds the highlights of some lines of a document, cut to these lines.
    pub fn get_spans<Spans, Resolve>(&mut self, q: &HighlightSpanQuery<'_, Spans, Resolve>) -> (found:
        Vec<(HighlightSpan, S)>) where
        Spans: Fn(u32, u32) -> Vec<HighlightSpan>,
        Resolve: Fn(Highlight) -> S,
        S: Copy,

        requires
            old(self)@.is_valid(),
            q.can_be_met::<S>(),
        ensures
            final(self)@.is_valid(),
            q.start_line >= q.end_line ==> found.len() == 0 && final(self)@ == old(self)@,
            lie_between(
                found@,
                line_start(rope_text(*q.rope), q.start_line as int),
                line_start(rope_text(*q.rope), q.end_line as int),
            ),
            forall|spans: spec_fn(u32, u32) -> Seq<HighlightSpan>, styles: spec_fn(Highlight) -> S|
                #[trigger]
                q.answers_by(spans, styles) ==> (final(self)@, found@) == q.with(
                    spans,
                    styles,
                ).met(old(self)@),
    {
        let mut found: Vec<(HighlightSpan, S)> = Vec::new();
        if q.start_line >= q.end_line {
            return found;
        }
        let start_byte: u32 = line_to_byte_or_eof(q.rope, q.start_line);
        let end_byte: u32 = line_to_byte_or_eof(q.rope, q.end_line);
        let first: usize = q.start_line / TILE_SIZE;
        let last: usize = (q.end_line - 1) / TILE_SIZE;
        let ghost before = self@;
        let theme_epoch: u64 = self.theme_epoch;
        let mut at: usize = first;
        assert(first <= last);
        while at <= last
            invariant
                first <= at <= last + 1,
                last <= (q.end_line - 1) / TILE_SIZE as int,
                q.start_line < q.end_line,
                self@.is_valid(),
                self@.theme_epoch == theme_epoch,
                theme_epoch == before.theme_epoch,
                q.can_be_met::<S>(),
                start_byte == line_start(rope_text(*q.rope), q.start_line as int),
                end_byte == line_start(rope_text(*q.rope), q.end_line as int),
                before == old(self)@,
                lie_between(found@, start_byte as int, end_byte as int),
                forall|spans: spec_fn(u32, u32) -> Seq<HighlightSpan>, styles: spec_fn(Highlight) -> S|
                    #[trigger]
                    q.answers_by(spans, styles) ==> (self@, found@) == q.with(
                        spans,
                        styles,
                    ).tiles_from(before, first, (at - first) as nat),
            decreases last + 1 - at,
        {
            let key = HighlightKey {
                syntax_version: q.syntax_version,
                tree_id: q.tree_id,
                theme_epoch,
                tile_idx: at,
            };
            let ghost given = found@;
            let slot: usize = self.get_or_build_tile_index(q, key);
            let ghost all = self@.slots[slot as int].tile.spans;
            let count: usize = self.tiles[slot].1.spans.len();
            assert(all.take(0) =~= Seq::empty());
            assert(given + Seq::empty() =~= given);
            for k in 0..count
                invariant
                    slot < self.tiles.len(),
                    all == self.tiles@[slot as int].1.spans@,
                    count == all.len(),
                    lie_between(found@, start_byte as int, end_byte as int),
                    found@ == given + clipped(all.take(k as int), start_byte, end_byte),
            {
                proof {
                    assert(all.take(k + 1).drop_last() =~= all.take(k as int));
                    assert(all.take(k + 1).last() == all[k as int]);
                }
                let (span, style) = self.tiles[slot].1.spans[k];
                let cut = HighlightSpan {
                    start: max_of(span.start, start_byte),
                    end: min_of(span.end, end_byte),
                    highlight: span.highlight,
                };
                if cut.start < cut.end {
                    found.push((cut, style));
                }
                assert(found@ =~= given + clipped(all.take(k + 1), start_byte, end_byte));
            }
            assert(all.take(count as int) =~= all);
            at = at + 1;
        }
        found
    }
}

/// Highlights that are cut to two bytes lie between them, and none is empty.
pub proof fn lemma_clipped_lies_between<S>(spans: Seq<(HighlightSpan, S)>, start: u32, end: u32)
    ensures
        lie_between(clipped(spans, start, end), start as int, end as int),
    decreases spans.len(),
{
    if spans.len() > 0 {
        lemma_clipped_lies_between(spans.drop_last(), start, end);
        let front = clipped(spans.drop_last(), start, end);
        let all = clipped(spans, start, end);
        assert forall|i: int| 0 <= i < all.len() implies start <= (#[trigger] all[i]).0.start
            < all[i].0.end <= end by {
            if i < front.len() {
                assert(all[i] == front[i]);
            }
        }
    }
}

proof fn lemma_tiles_lie_between<S>(
    request: RequestView<S>,
    cache: TilesView<S>,
    from: usize,
    count: nat,
)
    ensures
        lie_between(
            request.tiles_from(cache, from, count).1,
            request.start_byte() as int,
            request.end_byte() as int,
        ),
    decreases count,
{
    if count > 0 {
        let fewer = (count - 1) as nat;
        lemma_tiles_lie_between(request, cache, from, fewer);
        let (before, spans) = request.tiles_from(cache, from, fewer);
        let (after, slot) = request.with_tile(before, (from + count - 1) as usize);
        let more = after.slots[slot as int].tile.spans;
        let cut = clipped(more, request.start_byte(), request.end_byte());
        let all = request.tiles_from(cache, from, count).1;
        lemma_clipped_lies_between(more, request.start_byte(), request.end_byte());
        assert(all == spans + cut);
        assert forall|i: int| 0 <= i < all.len() implies request.start_byte() <= (
        #[trigger] all[i]).0.start < all[i].0.end <= request.end_byte() by {
            if i < spans.len() {
                assert(all[i] == spans[i]);
            } else {
                assert(all[i] == cut[i - spans.len()]);
            }
        }
    }
}

/// The highlights that are found for some lines lie within these lines, and none is empty.
pub proof fn lemma_found_highlights_lie_in_the_lines<S>(
    request: RequestView<S>,
    cache: TilesView<S>,
)
    ensures
        lie_between(
            request.met(cache).1,
            request.start_byte() as int,
            request.end_byte() as int,
        ),
{
    if request.start_line < request.end_line {
        let first = request.start_line / TILE_SIZE;
        let last = ((request.end_line - 1) / TILE_SIZE as int) as usize;
        lemma_tiles_lie_between(request, cache, first, (last - first + 1) as nat);
    }
}

/// Whether a byte lies in a highlighted part with some highlight.
pub open spec fn is_lit<S>(spans: Seq<(HighlightSpan, S)>, byte: int, highlight: Highlight) -> bool {
    exists|i: int|
        0 <= i < spans.len() && (#[trigger] spans[i]).0.start <= byte < spans[i].0.end
            && spans[i].0.highlight == highlight
}

/// Whether a byte lies in a part that a tree reports with some highlight.
pub open spec fn is_reported(spans: Seq<HighlightSpan>, byte: int, highlight: Highlight) -> bool {
    exists|i: int|
        0 <= i < spans.len() && (#[trigger] spans[i]).start <= byte < spans[i].end
            && spans[i].highlight == highlight
}

/// The parts that a tree reports and that share a byte with the bytes from `start` to `end`, and no
/// others, are cut to these bytes and come in the order in which they were reported, each with its
/// highlight and the style of it. Returns which of them they are.
pub proof fn lemma_styled_parts<S>(
    spans: Seq<HighlightSpan>,
    styles: spec_fn(Highlight) -> S,
    start: u32,
    end: u32,
) -> (from: Seq<int>)
    requires
        start <= end,
    ensures
        from.len() == styled(spans, styles, start, end).len(),
        forall|i: int, j: int|
            0 <= i < j < from.len() ==> #[trigger] from[i] < #[trigger] from[j],
        forall|k: int|
            #![trigger spans[k]]
            0 <= k < spans.len() ==> (from.contains(k) <==> exists|byte: int|
                spans[k].start <= byte < spans[k].end && #[trigger] is_between(start, byte, end)),
        forall|i: int|
            0 <= i < from.len() ==> {
                let (part, style) = #[trigger] styled(spans, styles, start, end)[i];
                let span = spans[from[i]];
                &&& 0 <= from[i] < spans.len()
                &&& part.start == if span.start > start {
                    span.start
                } else {
                    start
                }
                &&& part.end == if span.end < end {
                    span.end
                } else {
                    end
                }
                &&& part.highlight == span.highlight
                &&& style == styles(span.highlight)
            },
    decreases spans.len(),
{
    if spans.len() == 0 {
        Seq::empty()
    } else {
        let front = lemma_styled_parts(spans.drop_last(), styles, start, end);
        let last = spans.len() - 1;
        let span = spans.last();
        let first = if span.start > start {
            span.start as int
        } else {
            start as int
        };
        let stays = first < span.end && first < end;
        if stays {
            assert(span.start <= first < span.end && is_between(start, first, end));
        }
        let from = if stays {
            front.push(last)
        } else {
            front
        };
        let out = styled(spans, styles, start, end);
        assert forall|i: int| 0 <= i < front.len() implies 0 <= #[trigger] front[i] < last by {
            assert(styled(spans.drop_last(), styles, start, end)[i] == styled(
                spans.drop_last(),
                styles,
                start,
                end,
            )[i]);
        }
        assert forall|k: int|
            #![trigger spans[k]]
            0 <= k < spans.len() implies (from.contains(k) <==> exists|byte: int|
            spans[k].start <= byte < spans[k].end && #[trigger] is_between(start, byte, end)) by {
            if k < last {
                assert(spans.drop_last()[k] == spans[k]);
                if front.contains(k) {
                    let i = choose|i: int| 0 <= i < front.len() && front[i] == k;
                    assert(from[i] == k);
                }
                if from.contains(k) {
                    let i = choose|i: int| 0 <= i < from.len() && from[i] == k;
                    assert(front[i] == k);
                }
            } else {
                if stays {
                    assert(from[front.len() as int] == k);
                }
                if from.contains(k) && !stays {
                    let i = choose|i: int| 0 <= i < front.len() && front[i] == k;
                    assert(front[i] < last);
                }
            }
        }
        assert forall|i: int| 0 <= i < from.len() implies {
            let (part, style) = #[trigger] out[i];
            let span = spans[from[i]];
            &&& 0 <= from[i] < spans.len()
            &&& part.start == if span.start > start {
                span.start
            } else {
                start
            }
            &&& part.end == if span.end < end {
                span.end
            } else {
                end
            }
            &&& part.highlight == span.highlight
            &&& style == styles(span.highlight)
        } by {
            if i < front.len() {
                assert(out[i] == styled(spans.drop_last(), styles, start, end)[i]);
                assert(spans.drop_last()[front[i]] == spans[front[i]]);
            }
        }
        from
    }
}

/// Whether a byte lies between two bytes.
pub open spec fn is_between(start: u32, byte: int, end: u32) -> bool {
    start <= byte < end
}

/// A byte between two others has a highlight exactly where a part that the tree reports with that
/// highlight covers it.
pub proof fn lemma_styled_covers_what_is_reported<S>(
    spans: Seq<HighlightSpan>,
    styles: spec_fn(Highlight) -> S,
    start: u32,
    end: u32,
    byte: int,
    highlight: Highlight,
)
    requires
        start <= end,
    ensures
        is_lit(styled(spans, styles, start, end), byte, highlight) <==> start <= byte < end
            && is_reported(spans, byte, highlight),
{
    let from = lemma_styled_parts(spans, styles, start, end);
    let out = styled(spans, styles, start, end);
    if is_lit(out, byte, highlight) {
        let i = choose|i: int|
            0 <= i < out.len() && (#[trigger] out[i]).0.start <= byte < out[i].0.end
                && out[i].0.highlight == highlight;
        assert(spans[from[i]].start <= byte < spans[from[i]].end);
    }
    if start <= byte < end && is_reported(spans, byte, highlight) {
        let k = choose|k: int|
            0 <= k < spans.len() && (#[trigger] spans[k]).start <= byte < spans[k].end
                && spans[k].highlight == highlight;
        assert(is_between(start, byte, end));
        assert(from.contains(k));
        let i = choose|i: int| 0 <= i < from.len() && from[i] == k;
        assert(out[i].0.start <= byte < out[i].0.end);
    }
}

/// Cutting highlighted parts to some bytes takes no highlight from these bytes, and gives none to
/// any byte. What is left keeps its order, its highlight and its style.
pub proof fn lemma_clipped_covers_the_same<S>(
    spans: Seq<(HighlightSpan, S)>,
    start: u32,
    end: u32,
    byte: int,
    highlight: Highlight,
)
    ensures
        is_lit(clipped(spans, start, end), byte, highlight) <==> start <= byte < end && is_lit(
            spans,
            byte,
            highlight,
        ),
    decreases spans.len(),
{
    if spans.len() > 0 {
        let front = spans.drop_last();
        lemma_clipped_covers_the_same(front, start, end, byte, highlight);
        let out = clipped(spans, start, end);
        let before = clipped(front, start, end);
        let span = spans.last().0;
        lemma_lit_by_one_more(front, spans.last(), byte, highlight);
        assert(front.push(spans.last()) =~= spans);
        if out.len() > before.len() {
            lemma_lit_by_one_more(before, out.last(), byte, highlight);
            assert(before.push(out.last()) =~= out);
        }
    }
}

proof fn lemma_lit_by_one_more<S>(
    spans: Seq<(HighlightSpan, S)>,
    next: (HighlightSpan, S),
    byte: int,
    highlight: Highlight,
)
    ensures
        is_lit(spans.push(next), byte, highlight) <==> is_lit(spans, byte, highlight) || (
        next.0.start <= byte < next.0.end && next.0.highlight == highlight),
{
    let all = spans.push(next);
    if is_lit(spans, byte, highlight) {
        let i = choose|i: int|
            0 <= i < spans.len() && (#[trigger] spans[i]).0.start <= byte < spans[i].0.end
                && spans[i].0.highlight == highlight;
        assert(all[i] == spans[i]);
    }
    if next.0.start <= byte < next.0.end && next.0.highlight == highlight {
        assert(all[spans.len() as int] == next);
    }
    if is_lit(all, byte, highlight) {
        let i = choose|i: int|
            0 <= i < all.len() && (#[trigger] all[i]).0.start <= byte < all[i].0.end
                && all[i].0.highlight == highlight;
        if i < spans.len() {
            assert(spans[i] == all[i]);
        }
    }
}

proof fn lemma_lit_by_both<S>(
    a: Seq<(HighlightSpan, S)>,
    b: Seq<(HighlightSpan, S)>,
    byte: int,
    highlight: Highlight,
)
    ensures
        is_lit(a + b, byte, highlight) <==> is_lit(a, byte, highlight) || is_lit(
            b,
            byte,
            highlight,
        ),
    decreases b.len(),
{
    if b.len() == 0 {
        assert(a + b =~= a);
    } else {
        lemma_lit_by_both(a, b.drop_last(), byte, highlight);
        lemma_lit_by_one_more(a + b.drop_last(), b.last(), byte, highlight);
        lemma_lit_by_one_more(b.drop_last(), b.last(), byte, highlight);
        assert((a + b.drop_last()).push(b.last()) =~= a + b);
        assert(b.drop_last().push(b.last()) =~= b);
    }
}

/// What is left of highlighted parts lies in them, keeps their order, their highlights and their
/// styles. Returns which of them they are.
pub proof fn lemma_clipped_parts<S>(spans: Seq<(HighlightSpan, S)>, start: u32, end: u32) -> (from:
    Seq<int>)
    ensures
        from.len() == clipped(spans, start, end).len(),
        forall|i: int, j: int|
            0 <= i < j < from.len() ==> #[trigger] from[i] < #[trigger] from[j],
        forall|i: int|
            0 <= i < from.len() ==> {
                let (part, style) = #[trigger] clipped(spans, start, end)[i];
                &&& 0 <= from[i] < spans.len()
                &&& spans[from[i]].0.start <= part.start
                &&& part.end <= spans[from[i]].0.end
                &&& part.highlight == spans[from[i]].0.highlight
                &&& style == spans[from[i]].1
            },
    decreases spans.len(),
{
    if spans.len() == 0 {
        Seq::empty()
    } else {
        let front = lemma_clipped_parts(spans.drop_last(), start, end);
        let before = clipped(spans.drop_last(), start, end);
        let out = clipped(spans, start, end);
        let from = if out.len() > before.len() {
            front.push(spans.len() - 1)
        } else {
            front
        };
        assert forall|i: int| 0 <= i < front.len() implies 0 <= #[trigger] front[i] < spans.len()
            - 1 by {
            assert(before[i] == before[i]);
        }
        assert forall|i: int| 0 <= i < from.len() implies {
            let (part, style) = #[trigger] out[i];
            &&& 0 <= from[i] < spans.len()
            &&& spans[from[i]].0.start <= part.start
            &&& part.end <= spans[from[i]].0.end
            &&& part.highlight == spans[from[i]].0.highlight
            &&& style == spans[from[i]].1
        } by {
            if i < front.len() {
                assert(out[i] == before[i]);
                assert(spans.drop_last()[front[i]] == spans[front[i]]);
            }
        }
        from
    }
}

/// Whether the tiles that a cache holds for a request say what the tree says.
pub open spec fn is_true_to<S>(cache: TilesView<S>, request: RequestView<S>) -> bool {
    forall|i: int|
        0 <= i < cache.slots.len() && (#[trigger] cache.slots[i]).doc_id == request.doc_id
            && cache.slots[i].tile.key.tree_id == request.tree_id
            && cache.slots[i].tile.key.syntax_version == request.syntax_version
            && cache.slots[i].tile.key.theme_epoch == cache.theme_epoch
            ==> cache.slots[i].tile.spans == request.tile_spans(cache.slots[i].tile.key.tile_idx)
}

/// The tile that a request is answered with was made for its document, its tree, its version of the
/// syntax, the styles of now, and the lines in question; the cache stays in order and true.
pub proof fn lemma_tile_is_of_the_request<S>(
    request: RequestView<S>,
    cache: TilesView<S>,
    tile_idx: usize,
)
    requires
        cache.is_valid(),
        is_true_to(cache, request),
    ensures
        ({
            let (after, slot) = request.with_tile(cache, tile_idx);
            &&& after.is_valid()
            &&& after.theme_epoch == cache.theme_epoch
            &&& is_true_to(after, request)
            &&& slot < after.slots.len()
            &&& after.slots[slot as int].doc_id == request.doc_id
            &&& after.slots[slot as int].tile.key.tree_id == request.tree_id
            &&& after.slots[slot as int].tile.key.syntax_version == request.syntax_version
            &&& after.slots[slot as int].tile.key.theme_epoch == cache.theme_epoch
            &&& after.slots[slot as int].tile.key.tile_idx == tile_idx
            &&& after.slots[slot as int].tile.spans == request.tile_spans(tile_idx)
            &&& after.order.len() > 0 && after.order[0] == slot
        }),
{
    lemma_slot_for(cache.slots, request.doc_id, request.tree_id, tile_idx, 0);
    let (after, slot) = request.with_tile(cache, tile_idx);
    match request.usable(cache, tile_idx) {
        Some(found) => {
            lemma_touched_is_valid(cache, found);
            assert(cache.order.contains(found));
            lemma_promoted(cache.order, found);
        },
        None => {
            let new = request.new_slot(cache.theme_epoch, tile_idx);
            lemma_inserted_tile_is_found(cache, new);
            assert(after.order.contains(slot));
        },
    }
}

/// A tile that was made for another version of the syntax, other styles or another tree is made
/// anew; one that was made for the request stands as it is.
pub proof fn lemma_tiles_are_reused_rightly<S>(
    request: RequestView<S>,
    cache: TilesView<S>,
    tile_idx: usize,
    at: int,
)
    requires
        cache.is_valid(),
        0 <= at < cache.slots.len(),
        cache.slots[at].doc_id == request.doc_id,
        cache.slots[at].tile.key.tree_id == request.tree_id,
        cache.slots[at].tile.key.tile_idx == tile_idx,
    ensures
        request.with_tile(cache, tile_idx).1 == at,
        if cache.slots[at].tile.key.syntax_version == request.syntax_version
            && cache.slots[at].tile.key.theme_epoch == cache.theme_epoch {
            request.with_tile(cache, tile_idx).0.slots == cache.slots
        } else {
            request.with_tile(cache, tile_idx).0.slots[at].tile.spans == request.tile_spans(
                tile_idx,
            )
        },
{
    lemma_slot_for(cache.slots, request.doc_id, request.tree_id, tile_idx, 0);
    let found = cache.find(request.doc_id, request.tree_id, tile_idx);
    assert(is_slot_for(cache.slots[at], request.doc_id, request.tree_id, tile_idx));
    assert(found is Some);
    if found->0 < at {
        assert(differ(cache.slots[found->0], cache.slots[at]));
    } else if at < found->0 {
        assert(differ(cache.slots[at], cache.slots[found->0]));
    }
    assert(cache.order.contains(at as usize));
}

proof fn lemma_tiles_light_the_lines<S>(
    request: RequestView<S>,
    cache: TilesView<S>,
    from: usize,
    count: nat,
    byte: int,
    highlight: Highlight,
)
    requires
        cache.is_valid(),
        is_true_to(cache, request),
        from + count <= usize::MAX,
    ensures
        request.tiles_from(cache, from, count).0.is_valid(),
        is_true_to(request.tiles_from(cache, from, count).0, request),
        request.tiles_from(cache, from, count).0.theme_epoch == cache.theme_epoch,
        is_lit(request.tiles_from(cache, from, count).1, byte, highlight)
            <==> request.start_byte() <= byte < request.end_byte() && exists|tile: int|
            from <= tile < from + count && is_lit(
                #[trigger] request.tile_spans(tile as usize),
                byte,
                highlight,
            ),
    decreases count,
{
    if count > 0 {
        let fewer = (count - 1) as nat;
        lemma_tiles_light_the_lines(request, cache, from, fewer, byte, highlight);
        let (before, spans) = request.tiles_from(cache, from, fewer);
        let idx = (from + count - 1) as usize;
        let (after, slot) = request.with_tile(before, idx);
        lemma_tile_is_of_the_request(request, before, idx);
        let tile = after.slots[slot as int].tile.spans;
        let cut = clipped(tile, request.start_byte(), request.end_byte());
        lemma_clipped_covers_the_same(
            tile,
            request.start_byte(),
            request.end_byte(),
            byte,
            highlight,
        );
        lemma_lit_by_both(spans, cut, byte, highlight);
        assert(request.tiles_from(cache, from, count).1 == spans + cut);
        if is_lit(cut, byte, highlight) {
            assert(is_lit(request.tile_spans(idx), byte, highlight));
            let last = from + count - 1;
            assert(is_lit(request.tile_spans(last as usize), byte, highlight));
        }
        if exists|tile: int|
            from <= tile < from + count && is_lit(
                #[trigger] request.tile_spans(tile as usize),
                byte,
                highlight,
            ) {
            let tile = choose|tile: int|
                from <= tile < from + count && is_lit(
                    #[trigger] request.tile_spans(tile as usize),
                    byte,
                    highlight,
                );
            if tile == from + count - 1 {
                assert(tile as usize == idx);
            }
        }
    }
}

/// A byte of the lines that a request asks for has a highlight exactly where the tree reports it:
/// the tree is asked once for the lines of each tile, `TILE_SIZE` of them, and the byte belongs to
/// one of these. Nowhere else is anything found, and nothing at all in a tree that ends behind the
/// text.
pub proof fn lemma_found_highlights_are_those_of_the_tree<S>(
    request: RequestView<S>,
    cache: TilesView<S>,
    byte: int,
    highlight: Highlight,
)
    requires
        cache.is_valid(),
        is_true_to(cache, request),
        byte_len(request.text) <= u32::MAX,
        request.start_line < request.end_line <= usize::MAX - TILE_SIZE,
    ensures
        is_lit(request.met(cache).1, byte, highlight) <==> {
            &&& request.root_end_byte <= byte_len(request.text)
            &&& line_start(request.text, request.start_line as int) <= byte < line_start(
                request.text,
                request.end_line as int,
            )
            &&& exists|line: int|
                request.start_line / TILE_SIZE <= line <= (request.end_line - 1) / TILE_SIZE as int
                    && #[trigger] is_tile_with(request, line, byte, highlight)
        },
{
    let first = request.start_line / TILE_SIZE;
    let last = ((request.end_line - 1) / TILE_SIZE as int) as usize;
    assert(first <= last);
    let count = (last - first + 1) as nat;
    lemma_tiles_light_the_lines(request, cache, first, count, byte, highlight);
    crate::rope::lemma_line_start(request.text, request.start_line as int);
    crate::rope::lemma_line_start(request.text, request.end_line as int);
    assert forall|tile: int| first <= tile <= last implies (is_lit(
        #[trigger] request.tile_spans(tile as usize),
        byte,
        highlight,
    ) <==> request.root_end_byte <= byte_len(request.text) && is_tile_with(
        request,
        tile,
        byte,
        highlight,
    )) by {
        lemma_tile_reports(request, tile as usize, byte, highlight);
    }
    if exists|tile: int|
        first <= tile < first + count && is_lit(
            #[trigger] request.tile_spans(tile as usize),
            byte,
            highlight,
        ) {
        let tile = choose|tile: int|
            first <= tile < first + count && is_lit(
                #[trigger] request.tile_spans(tile as usize),
                byte,
                highlight,
            );
        assert(is_tile_with(request, tile, byte, highlight));
    }
    if request.root_end_byte <= byte_len(request.text) && exists|line: int|
        first <= line <= last && #[trigger] is_tile_with(request, line, byte, highlight) {
        let tile = choose|line: int|
            first <= line <= last && #[trigger] is_tile_with(request, line, byte, highlight);
        assert(is_lit(request.tile_spans(tile as usize), byte, highlight));
    }
}

/// Whether a byte lies in the lines of a tile, and the tree, asked for these, reports it with a
/// highlight.
pub open spec fn is_tile_with<S>(
    request: RequestView<S>,
    tile: int,
    byte: int,
    highlight: Highlight,
) -> bool {
    let start = line_start(request.text, 128 * tile);
    let end = line_start(request.text, 128 * tile + 128);
    start <= byte < end && is_reported((request.spans)(start as u32, end as u32), byte, highlight)
}

proof fn lemma_tile_reports<S>(
    request: RequestView<S>,
    tile: usize,
    byte: int,
    highlight: Highlight,
)
    requires
        byte_len(request.text) <= u32::MAX,
    ensures
        is_lit(request.tile_spans(tile), byte, highlight) <==> request.root_end_byte <= byte_len(
            request.text,
        ) && is_tile_with(request, tile as int, byte, highlight),
{
    let start = line_start(request.text, 128 * tile);
    let end = line_start(request.text, 128 * tile + 128);
    crate::rope::lemma_line_start(request.text, 128 * tile);
    crate::rope::lemma_line_start(request.text, 128 * tile + 128);
    crate::rope::lemma_lines_in_order(request.text, 128 * tile, 128 * tile + 128);
    assert(line_start(request.text, line_count(request.text)) == byte_len(request.text));
    if request.root_end_byte <= byte_len(request.text) {
        lemma_styled_covers_what_is_reported(
            (request.spans)(start as u32, end as u32),
            request.styles,
            start as u32,
            end as u32,
            byte,
            highlight,
        );
    }
}

/// Each highlight that is found has the style that the request finds for it.
pub proof fn lemma_found_highlights_have_their_styles<S>(
    request: RequestView<S>,
    cache: TilesView<S>,
)
    requires
        cache.is_valid(),
        is_true_to(cache, request),
        request.end_line <= usize::MAX - TILE_SIZE,
        byte_len(request.text) <= u32::MAX,
    ensures
        forall|i: int|
            0 <= i < request.met(cache).1.len() ==> (#[trigger] request.met(cache).1[i]).1 == (
            request.styles)(request.met(cache).1[i].0.highlight),
{
    if request.start_line < request.end_line {
        let first = request.start_line / TILE_SIZE;
        let last = ((request.end_line - 1) / TILE_SIZE as int) as usize;
        lemma_tiles_have_their_styles(request, cache, first, (last - first + 1) as nat);
    }
}

proof fn lemma_tiles_have_their_styles<S>(
    request: RequestView<S>,
    cache: TilesView<S>,
    from: usize,
    count: nat,
)
    requires
        cache.is_valid(),
        is_true_to(cache, request),
        from + count <= usize::MAX,
        byte_len(request.text) <= u32::MAX,
    ensures
        forall|i: int|
            0 <= i < request.tiles_from(cache, from, count).1.len() ==> (
            #[trigger] request.tiles_from(cache, from, count).1[i]).1 == (request.styles)(
                request.tiles_from(cache, from, count).1[i].0.highlight,
            ),
    decreases count,
{
    if count > 0 {
        let fewer = (count - 1) as nat;
        lemma_tiles_have_their_styles(request, cache, from, fewer);
        lemma_tiles_light_the_lines(request, cache, from, fewer, 0, Highlight(0));
        let (before, spans) = request.tiles_from(cache, from, fewer);
        let idx = (from + count - 1) as usize;
        let (after, slot) = request.with_tile(before, idx);
        lemma_tile_is_of_the_request(request, before, idx);
        let tile = after.slots[slot as int].tile.spans;
        let cut = clipped(tile, request.start_byte(), request.end_byte());
        let all = request.tiles_from(cache, from, count).1;
        assert(all == spans + cut);
        let kept = lemma_clipped_parts(tile, request.start_byte(), request.end_byte());
        let start_line = idx * TILE_SIZE;
        let full = (idx + 1) * TILE_SIZE;
        let end_line = if full < line_count(request.text) {
            full
        } else {
            line_count(request.text)
        };
        crate::rope::lemma_line_start(request.text, start_line);
        crate::rope::lemma_line_start(request.text, end_line);
        crate::rope::lemma_lines_in_order(request.text, start_line, full);
        let start = line_start(request.text, start_line) as u32;
        let end = line_start(request.text, end_line) as u32;
        if request.root_end_byte <= byte_len(request.text) {
            let parts = lemma_styled_parts((request.spans)(start, end), request.styles, start, end);
        }
        assert forall|i: int| 0 <= i < all.len() implies (#[trigger] all[i]).1 == (request.styles)(
            all[i].0.highlight,
        ) by {
            if i < spans.len() {
                assert(all[i] == spans[i]);
            } else {
                let k = i - spans.len();
                assert(all[i] == cut[k]);
                let source = tile[kept[k]];
                assert(source.1 == (request.styles)(source.0.highlight));
            }
        }
    }
}

/// A cache without tiles is true to every request, and one whose styles change holds no tile.
pub proof fn lemma_new_caches_are_true<S>(cache: TilesView<S>, request: RequestView<S>)
    ensures
        is_true_to(empty_cache::<S>(cache.max_tiles), request),
        is_true_to(cache.cleared(), request),
        cache.cleared().slots.len() == 0,
        cache.cleared().order.len() == 0,
        cache.cleared().max_tiles == cache.max_tiles,
{
}

/// Where a tree reports parts in the order in which they begin, the highlights that are found come
/// in that order too.
pub proof fn lemma_found_highlights_in_order<S>(request: RequestView<S>, cache: TilesView<S>)
    requires
        cache.is_valid(),
        is_true_to(cache, request),
        request.end_line <= usize::MAX - TILE_SIZE,
        byte_len(request.text) <= u32::MAX,
        forall|start: u32, end: u32, i: int, j: int|
            #![trigger (request.spans)(start, end)[i], (request.spans)(start, end)[j]]
            0 <= i < j < (request.spans)(start, end).len() ==> (request.spans)(start, end)[i].start
                <= (request.spans)(start, end)[j].start,
    ensures
        forall|i: int, j: int|
            0 <= i < j < request.met(cache).1.len() ==> (
            #[trigger] request.met(cache).1[i]).0.start <= (
            #[trigger] request.met(cache).1[j]).0.start,
{
    if request.start_line < request.end_line {
        let first = request.start_line / TILE_SIZE;
        let last = ((request.end_line - 1) / TILE_SIZE as int) as usize;
        lemma_tiles_in_order(request, cache, first, (last - first + 1) as nat);
    }
}

proof fn lemma_tiles_in_order<S>(
    request: RequestView<S>,
    cache: TilesView<S>,
    from: usize,
    count: nat,
)
    requires
        cache.is_valid(),
        is_true_to(cache, request),
        from + count <= usize::MAX,
        byte_len(request.text) <= u32::MAX,
        forall|start: u32, end: u32, i: int, j: int|
            #![trigger (request.spans)(start, end)[i], (request.spans)(start, end)[j]]
            0 <= i < j < (request.spans)(start, end).len() ==> (request.spans)(start, end)[i].start
                <= (request.spans)(start, end)[j].start,
    ensures
        forall|i: int, j: int|
            0 <= i < j < request.tiles_from(cache, from, count).1.len() ==> (
            #[trigger] request.tiles_from(cache, from, count).1[i]).0.start <= (
            #[trigger] request.tiles_from(cache, from, count).1[j]).0.start,
        forall|i: int|
            0 <= i < request.tiles_from(cache, from, count).1.len() ==> (
            #[trigger] request.tiles_from(cache, from, count).1[i]).0.start < line_start(
                request.text,
                (from + count) * TILE_SIZE,
            ),
    decreases count,
{
    if count > 0 {
        let fewer = (count - 1) as nat;
        lemma_tiles_in_order(request, cache, from, fewer);
        lemma_tiles_light_the_lines(request, cache, from, fewer, 0, Highlight(0));
        let (before, spans) = request.tiles_from(cache, from, fewer);
        let idx = (from + count - 1) as usize;
        let (after, slot) = request.with_tile(before, idx);
        lemma_tile_is_of_the_request(request, before, idx);
        let tile = after.slots[slot as int].tile.spans;
        let cut = clipped(tile, request.start_byte(), request.end_byte());
        let all = request.tiles_from(cache, from, count).1;
        assert(all == spans + cut);
        let kept = lemma_clipped_parts(tile, request.start_byte(), request.end_byte());
        lemma_clipped_lies_between(tile, request.start_byte(), request.end_byte());
        let start_line = idx * TILE_SIZE;
        let full = (idx + 1) * TILE_SIZE;
        let end_line = if full < line_count(request.text) {
            full
        } else {
            line_count(request.text)
        };
        crate::rope::lemma_line_start(request.text, start_line);
        crate::rope::lemma_line_start(request.text, end_line);
        crate::rope::lemma_line_start(request.text, full);
        crate::rope::lemma_lines_in_order(request.text, start_line, full);
        let start = line_start(request.text, start_line) as u32;
        let end = line_start(request.text, end_line) as u32;
        assert(line_start(request.text, full) == end);
        let reported = (request.spans)(start, end);
        if request.root_end_byte <= byte_len(request.text) {
            let parts = lemma_styled_parts(reported, request.styles, start, end);
            assert(tile == styled(reported, request.styles, start, end));
            assert forall|i: int, j: int| 0 <= i < j < tile.len() implies (
            #[trigger] tile[i]).0.start <= (#[trigger] tile[j]).0.start by {
                assert(parts[i] < parts[j]);
                assert(styled(reported, request.styles, start, end)[i] == tile[i]);
                assert(styled(reported, request.styles, start, end)[j] == tile[j]);
                let (a, b) = (parts[i], parts[j]);
                assert(reported[a].start <= reported[b].start);
            }
            lemma_clipped_starts(tile, request.start_byte(), request.end_byte());
            assert forall|i: int| 0 <= i < cut.len() implies start <= (#[trigger] cut[i]).0.start
                < end by {
                let at = kept[i];
                assert(clipped(tile, request.start_byte(), request.end_byte())[i] == cut[i]);
                assert(0 <= at < tile.len());
                assert(styled(reported, request.styles, start, end)[at] == tile[at]);
                assert(start <= tile[at].0.start && tile[at].0.end <= end);
            }
        } else {
            assert(tile.len() == 0);
        }
        assert forall|i: int, j: int| 0 <= i < j < all.len() implies (#[trigger] all[i]).0.start
            <= (#[trigger] all[j]).0.start by {
            if j < spans.len() {
                assert(all[i] == spans[i] && all[j] == spans[j]);
            } else if i < spans.len() {
                assert(all[i] == spans[i] && all[j] == cut[j - spans.len()]);
                assert((from + fewer) * TILE_SIZE == start_line);
            } else {
                assert(all[i] == cut[i - spans.len()] && all[j] == cut[j - spans.len()]);
            }
        }
        assert forall|i: int| 0 <= i < all.len() implies (#[trigger] all[i]).0.start < line_start(
            request.text,
            (from + count) * TILE_SIZE,
        ) by {
            assert((from + count) * TILE_SIZE == full);
            assert((from + fewer) * TILE_SIZE == start_line);
            if i < spans.len() {
                assert(all[i] == spans[i]);
            } else {
                assert(all[i] == cut[i - spans.len()]);
            }
        }
    }
}

proof fn lemma_clipped_starts<S>(spans: Seq<(HighlightSpan, S)>, start: u32, end: u32)
    requires
        forall|i: int, j: int|
            0 <= i < j < spans.len() ==> (#[trigger] spans[i]).0.start <= (
            #[trigger] spans[j]).0.start,
    ensures
        forall|i: int, j: int|
            0 <= i < j < clipped(spans, start, end).len() ==> (
            #[trigger] clipped(spans, start, end)[i]).0.start <= (
            #[trigger] clipped(spans, start, end)[j]).0.start,
        forall|i: int|
            0 <= i < clipped(spans, start, end).len() ==> spans.len() > 0 && (
            #[trigger] clipped(spans, start, end)[i]).0.start <= larger(
                spans.last().0.start,
                start,
            ),
    decreases spans.len(),
{
    if spans.len() > 0 {
        let front = spans.drop_last();
        assert forall|i: int, j: int| 0 <= i < j < front.len() implies (
        #[trigger] front[i]).0.start <= (#[trigger] front[j]).0.start by {
            assert(front[i] == spans[i] && front[j] == spans[j]);
        }
        lemma_clipped_starts(front, start, end);
        let before = clipped(front, start, end);
        let out = clipped(spans, start, end);
        if front.len() > 0 {
            assert(spans[front.len() - 1].0.start <= spans[spans.len() - 1].0.start);
        }
        assert forall|i: int, j: int| 0 <= i < j < out.len() implies (#[trigger] out[i]).0.start
            <= (#[trigger] out[j]).0.start by {
            assert(out[i] == before[i]);
            if j < before.len() {
                assert(out[j] == before[j]);
            }
        }
        assert forall|i: int| 0 <= i < out.len() implies (#[trigger] out[i]).0.start <= larger(
            spans.last().0.start,
            start,
        ) by {
            if i < before.len() {
                assert(out[i] == before[i]);
            }
        }
    }
}

} // verus!
