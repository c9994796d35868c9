//! What a document was at one moment.
use crate::byte_text::byte_len;
use crate::change::{Revision, SnapshotId};
use crate::engine::{is_up_to_date, MAX_SOURCE_BYTES};
use crate::injections_query::TREE_SITTER_MATCH_LIMIT;
use crate::layers::{LayerData, LayerView, Syntax};
use crate::lookup::{layers_around, tree_around};
use crate::rope::{rope_clone, rope_slice, rope_text, slice_of_str, slice_text, slice_to_string};
use crate::text::{clamped_text, cuts_at_characters, ByteRangeText, DocumentText};
use crate::treesitter::{
    matches_of, named_node_around, node_around, query_matches, root_end_byte, tree_end,
    CapturedRange,
};
use crate::types::{copy_range, Capture, Layer};
use ropey::{Rope, RopeSlice};
use std::ops::Range;
use tree_house_bindings::{Query, Tree};
use vstd::prelude::*;

verus! {

/// The text and the layers of a document at one moment.
#[derive(Debug)]
pub struct DocumentSnapshot {
    id: SnapshotId,
    revision: Revision,
    generation: u64,
    text: Rope,
    syntax: Syntax,
}

/// What a snapshot holds.
pub struct SnapshotView {
    pub id: SnapshotId,
    pub revision: Revision,
    pub generation: u64,
    pub text: Seq<char>,
    pub layers: Map<usize, LayerView>,
    pub root: Layer,
}

impl SnapshotView {
    /// Whether the layers are up to date with the text, which is not too large to be parsed.
    pub open spec fn is_valid(self) -> bool {
        &&& is_up_to_date(self.layers, self.root, self.text)
        &&& byte_len(self.text) < MAX_SOURCE_BYTES
    }

    /// The tree of the outermost layer.
    pub open spec fn root_tree(self) -> Tree {
        self.layers[self.root.0].parse_tree->0
    }

    /// The innermost tree around a part of the document.
    pub open spec fn tree_at(self, start: u32, end: u32) -> Tree {
        tree_around(self.layers, self.root, start, end)->0
    }
}

impl View for DocumentSnapshot {
    type V = SnapshotView;

    closed spec fn view(&self) -> SnapshotView {
        SnapshotView {
            id: self.id,
            revision: self.revision,
            generation: self.generation,
            text: rope_text(self.text),
            layers: self.syntax.view(),
            root: self.syntax.root,
        }
    }
}

impl Clone for DocumentSnapshot {
    fn clone(&self) -> (copy: Self)
        ensures
            copy@ == self@,
    {
        DocumentSnapshot {
            id: self.id,
            revision: self.revision,
            generation: self.generation,
            text: rope_clone(&self.text),
            syntax: self.syntax.clone(),
        }
    }
}

/// The nodes of a match that were captured under one capture.
pub open spec fn nodes_under(nodes: Seq<CapturedRange>, capture: Capture) -> Seq<Range<u32>>
    decreases nodes.len(),
{
    if nodes.len() == 0 {
        Seq::empty()
    } else {
        let front = nodes_under(nodes.drop_last(), capture);
        if nodes.last().capture == capture {
            front.push(nodes.last().range)
        } else {
            front
        }
    }
}

/// Picks the nodes of a match that were captured under one capture.
fn pick_nodes(nodes: &Vec<CapturedRange>, capture: Capture) -> (picked: Vec<Range<u32>>)
    ensures
        picked@ == nodes_under(nodes@, capture),
{
    let mut picked: Vec<Range<u32>> = Vec::new();
    assert(nodes@.take(0) =~= Seq::empty());
    for i in 0..nodes.len()
        invariant
            picked@ == nodes_under(nodes@.take(i as int), capture),
    {
        assert(nodes@.take(i + 1).drop_last() =~= nodes@.take(i as int));
        assert(nodes@.take(i + 1).last() == nodes@[i as int]);
        if nodes[i].capture == capture {
            picked.push(copy_range(&nodes[i].range));
        }
    }
    assert(nodes@.take(nodes.len() as int) =~= nodes@);
    picked
}

impl DocumentSnapshot {
    /// A snapshot of a text and its layers.
    pub fn new(
        id: SnapshotId,
        revision: Revision,
        generation: u64,
        text: Rope,
        syntax: Syntax,
    ) -> (snapshot: Self)
        ensures
            snapshot@ == (SnapshotView {
                id,
                revision,
                generation,
                text: rope_text(text),
                layers: syntax.view(),
                root: syntax.root,
            }),
    {
        DocumentSnapshot { id, revision, generation, text, syntax }
    }

    /// Which snapshot of the document this is.
    pub fn id(&self) -> (id: SnapshotId)
        ensures
            id == self@.id,
    {
        self.id
    }

    /// The revision of the document.
    pub fn revision(&self) -> (revision: Revision)
        ensures
            revision == self@.revision,
    {
        self.revision
    }

    /// How often the document had been parsed anew.
    pub fn generation(&self) -> (generation: u64)
        ensures
            generation == self@.generation,
    {
        self.generation
    }

    /// The text.
    pub fn text(&self) -> (text: DocumentText<'_>)
        ensures
            slice_text(text.slice) == self@.text,
    {
        DocumentText::new(rope_slice(&self.text))
    }

    /// The text as a slice of a rope.
    pub fn rope_slice(&self) -> (slice: RopeSlice<'_>)
        ensures
            slice_text(slice) == self@.text,
    {
        rope_slice(&self.text)
    }

    /// The part of the text that a byte range covers, clamped to the text.
    pub fn byte_text(&self, range: Range<u32>) -> (text: String)
        requires
            cuts_at_characters(self@.text, range),
        ensures
            text@ == clamped_text(self@.text, range),
    {
        self.text.byte_text(range)
    }

    /// The layers.
    pub fn syntax(&self) -> (syntax: &Syntax)
        ensures
            syntax.view() == self@.layers,
            syntax.root == self@.root,
    {
        &self.syntax
    }

    /// The outermost layer.
    pub fn root_layer(&self) -> (root: Layer)
        ensures
            root == self@.root,
    {
        self.syntax.root()
    }

    /// What a layer holds.
    pub fn layer(&self, layer: Layer) -> (data: &LayerData)
        requires
            self@.layers.dom().contains(layer.0),
        ensures
            data@ == self@.layers[layer.0],
    {
        self.syntax.layer(layer)
    }

    /// The number of layers.
    pub fn layer_count(&self) -> (count: usize)
        ensures
            count == self@.layers.len(),
    {
        self.syntax.layer_count()
    }

    /// The tree of the outermost layer.
    pub fn tree(&self) -> (tree: &Tree)
        requires
            self@.is_valid(),
        ensures
            *tree == self@.root_tree(),
    {
        self.syntax.tree()
    }

    /// The byte at which the tree of the outermost layer ends.
    pub fn root_end_byte(&self) -> (end: u32)
        requires
            self@.is_valid(),
        ensures
            end == tree_end(self@.root_tree()),
    {
        root_end_byte(self.tree())
    }

    /// The innermost tree around a part of the document.
    pub fn tree_for_byte_range(&self, start: u32, end: u32) -> (tree: &Tree)
        requires
            self@.is_valid(),
        ensures
            *tree == self@.tree_at(start, end),
    {
        self.syntax.tree_for_byte_range(start, end)
    }

    /// The innermost layer around a part of the document.
    pub fn layer_for_byte_range(&self, start: u32, end: u32) -> (layer: Layer)
        requires
            self@.is_valid(),
        ensures
            layer == layers_around(
                self@.layers,
                self@.root,
                start,
                end,
                self@.layers.len(),
            ).last(),
            self@.layers.dom().contains(layer.0),
    {
        self.syntax.layer_for_byte_range(start, end)
    }

    /// The layers around a part of the document, from the outermost inwards.
    pub fn layers_for_byte_range(&self, start: u32, end: u32) -> (around: Vec<Layer>)
        requires
            self@.is_valid(),
        ensures
            around@ == layers_around(self@.layers, self@.root, start, end, self@.layers.len()),
    {
        self.syntax.layers_for_byte_range(start, end)
    }

    /// The bytes of the smallest node with a name in the grammar around a part of the document.
    pub fn named_node_at(&self, start: u32, end: u32) -> (range: Option<Range<u32>>)
        requires
            self@.is_valid(),
        ensures
            range == named_node_around(self@.tree_at(start, end), start, end),
    {
        self.syntax.named_descendant_for_byte_range(start, end)
    }

    /// The bytes of the smallest node around a part of the document.
    pub fn node_at(&self, start: u32, end: u32) -> (range: Option<Range<u32>>)
        requires
            self@.is_valid(),
        ensures
            range == node_around(self@.tree_at(start, end), start, end),
    {
        self.syntax.descendant_for_byte_range(start, end)
    }

    /// For each match of a query in the tree of the outermost layer, the nodes that it captured
    /// under one capture.
    pub fn capture_matches(&self, query: &Query, capture: Capture) -> (matches: Vec<
        Vec<Range<u32>>,
    >)
        requires
            self@.is_valid(),
        ensures
            matches.len() == query_matches(
                *query,
                self@.root_tree(),
                self@.text,
                TREE_SITTER_MATCH_LIMIT,
            ).len(),
            forall|i: int|
                0 <= i < matches.len() ==> (#[trigger] matches@[i])@ == nodes_under(
                    query_matches(*query, self@.root_tree(), self@.text, TREE_SITTER_MATCH_LIMIT)[i],
                    capture,
                ),
    {
        let tree = self.syntax.tree();
        let ghost all = query_matches(*query, *tree, self@.text, TREE_SITTER_MATCH_LIMIT);
        assert(self.syntax.view().dom().contains(self.syntax.root.0));
        let text = slice_to_string(&rope_slice(&self.text));
        let found = matches_of(query, tree, slice_of_str(&text), TREE_SITTER_MATCH_LIMIT);
        let mut matches: Vec<Vec<Range<u32>>> = Vec::new();
        for i in 0..found.len()
            invariant
                found.len() == all.len(),
                forall|k: int| 0 <= k < found.len() ==> (#[trigger] found@[k])@ == all[k],
                matches.len() == i,
                forall|k: int|
                    0 <= k < i ==> (#[trigger] matches@[k])@ == nodes_under(all[k], capture),
        {
            matches.push(pick_nodes(&found[i], capture));
        }
        matches
    }
}

/// The nodes under a capture are those of the match that were captured under it, in their order.
pub proof fn lemma_nodes_of_a_capture(nodes: Seq<CapturedRange>, capture: Capture)
    ensures
        nodes_under(nodes, capture) == nodes.filter(
            |node: CapturedRange| node.capture == capture,
        ).map_values(|node: CapturedRange| node.range),
    decreases nodes.len(),
{
    let is_under = |node: CapturedRange| node.capture == capture;
    let range_of = |node: CapturedRange| node.range;
    reveal(Seq::filter);
    if nodes.len() > 0 {
        lemma_nodes_of_a_capture(nodes.drop_last(), capture);
        let front = nodes.drop_last().filter(is_under);
        assert(front.push(nodes.last()).map_values(range_of) =~= front.map_values(range_of).push(
            nodes.last().range,
        ));
    }
    assert(nodes_under(nodes, capture) =~= nodes.filter(is_under).map_values(range_of));
}

} // verus!
