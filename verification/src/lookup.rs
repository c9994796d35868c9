//! Finds the layers, the trees and the nodes around a part of a document.
use crate::layers::{LayerData, LayerView, Syntax};
use crate::treesitter::{descendant_range, named_descendant_range, named_node_around, node_around};
use crate::types::{Injection, Layer};
use std::ops::Range;
use tree_house_bindings::Tree;
use vstd::prelude::*;

verus! {

/// The first injection that does not end before a byte.
pub open spec fn reaching(injections: Seq<Injection>, byte: u32) -> Option<Injection>
    decreases injections.len(),
{
    if injections.len() == 0 {
        None
    } else if injections[0].range.end >= byte {
        Some(injections[0])
    } else {
        reaching(injections.drop_first(), byte)
    }
}

/// The layer that is injected at a byte.
pub open spec fn layer_at(injections: Seq<Injection>, byte: u32) -> Option<Layer> {
    match reaching(injections, byte) {
        Some(injection) => if injection.range.start <= byte {
            Some(injection.layer)
        } else {
            None
        },
        None => None,
    }
}

/// The layer that is injected both where a part of the document starts and where it ends.
pub open spec fn layer_around(injections: Seq<Injection>, start: u32, end: u32) -> Option<Layer> {
    if layer_at(injections, start) == layer_at(injections, end) {
        layer_at(injections, start)
    } else {
        None
    }
}

/// The layers around a part of the document, from one of them inwards, at most `depth` deep.
pub open spec fn layers_around(
    layers: Map<usize, LayerView>,
    from: Layer,
    start: u32,
    end: u32,
    depth: nat,
) -> Seq<Layer>
    decreases depth,
{
    match layer_around(layers[from.0].injections, start, end) {
        Some(inner) => if depth > 0 && layers.dom().contains(inner.0) {
            seq![from] + layers_around(layers, inner, start, end, (depth - 1) as nat)
        } else {
            seq![from]
        },
        None => seq![from],
    }
}

/// The innermost of some layers that has a tree.
pub open spec fn innermost_tree(layers: Map<usize, LayerView>, around: Seq<Layer>) -> Option<Tree>
    decreases around.len(),
{
    if around.len() == 0 {
        None
    } else if layers[around.last().0].parse_tree is Some {
        layers[around.last().0].parse_tree
    } else {
        innermost_tree(layers, around.drop_last())
    }
}

/// The tree of the innermost layer around a part of the document that has one.
pub open spec fn tree_around(
    layers: Map<usize, LayerView>,
    root: Layer,
    start: u32,
    end: u32,
) -> Option<Tree> {
    innermost_tree(layers, layers_around(layers, root, start, end, layers.len()))
}

/// The layers around a part of the document are all there, and begin with the outermost.
pub proof fn lemma_layers_around(
    layers: Map<usize, LayerView>,
    from: Layer,
    start: u32,
    end: u32,
    depth: nat,
)
    requires
        layers.dom().contains(from.0),
    ensures
        layers_around(layers, from, start, end, depth).len() > 0,
        layers_around(layers, from, start, end, depth)[0] == from,
        forall|i: int|
            0 <= i < layers_around(layers, from, start, end, depth).len()
                ==> layers.dom().contains(
                (#[trigger] layers_around(layers, from, start, end, depth)[i]).0,
            ),
        forall|i: int, j: int|
            0 <= i && j == i + 1 && j < layers_around(layers, from, start, end, depth).len()
                ==> layer_around(
                layers[(#[trigger] layers_around(layers, from, start, end, depth)[i]).0].injections,
                start,
                end,
            ) == Some(#[trigger] layers_around(layers, from, start, end, depth)[j]),
    decreases depth,
{
    let around = layers_around(layers, from, start, end, depth);
    if let Some(inner) = layer_around(layers[from.0].injections, start, end) {
        if depth > 0 && layers.dom().contains(inner.0) {
            let rest = layers_around(layers, inner, start, end, (depth - 1) as nat);
            lemma_layers_around(layers, inner, start, end, (depth - 1) as nat);
            assert forall|i: int| 0 <= i < around.len() implies layers.dom().contains(
                (#[trigger] around[i]).0,
            ) by {
                if i > 0 {
                    assert(around[i] == rest[i - 1]);
                }
            }
            assert forall|i: int, j: int|
                0 <= i && j == i + 1 && j < around.len() implies layer_around(
                layers[(#[trigger] around[i]).0].injections,
                start,
                end,
            ) == Some(#[trigger] around[j]) by {
                assert(around[j] == rest[i]);
                if i > 0 {
                    assert(around[i] == rest[i - 1]);
                }
            }
        }
    }
}

impl LayerData {
    /// Finds the layer that is injected at a byte.
    pub fn injected_layer_at(&self, byte: u32) -> (layer: Option<Layer>)
        ensures
            layer == layer_at(self.injections@, byte),
    {
        let injections = &self.injections;
        assert(injections@.skip(0) =~= injections@);
        for i in 0..injections.len()
            invariant
                reaching(injections@, byte) == reaching(injections@.skip(i as int), byte),
                injections@ == self.injections@,
        {
            assert(injections@.skip(i as int).drop_first() =~= injections@.skip(i + 1));
            assert(injections@.skip(i as int)[0] == injections@[i as int]);
            if injections[i].range.end >= byte {
                if injections[i].range.start <= byte {
                    return Some(injections[i].layer);
                }
                return None;
            }
        }
        None
    }

    /// Finds the layer that is injected both where a part of the document starts and where it ends.
    pub fn injected_layer_around(&self, start: u32, end: u32) -> (layer: Option<Layer>)
        ensures
            layer == layer_around(self.injections@, start, end),
    {
        match self.injected_layer_at(start) {
            Some(first) => match self.injected_layer_at(end) {
                Some(last) => if first == last {
                    Some(first)
                } else {
                    None
                },
                None => None,
            },
            None => None,
        }
    }
}

impl Syntax {
    /// The outermost layer.
    pub fn root(&self) -> (root: Layer)
        ensures
            root == self.root,
    {
        self.root
    }

    /// The tree of the outermost layer.
    pub fn tree(&self) -> (tree: &Tree)
        requires
            self.has(self.root),
            self.view()[self.root.0].parse_tree is Some,
        ensures
            self.view()[self.root.0].parse_tree == Some(*tree),
    {
        self.layer(self.root).parse_tree.as_ref().unwrap()
    }

    /// The layers around a part of the document, from the outermost inwards.
    pub fn layers_for_byte_range(&self, start: u32, end: u32) -> (around: Vec<Layer>)
        requires
            self.has(self.root),
        ensures
            around@ == layers_around(self.view(), self.root, start, end, self.view().len()),
            around.len() > 0,
            around@[0] == self.root,
            forall|i: int| 0 <= i < around.len() ==> self.has(#[trigger] around@[i]),
    {
        let ghost layers = self.view();
        let ghost whole = layers_around(layers, self.root, start, end, layers.len());
        let mut around: Vec<Layer> = Vec::new();
        let mut depth: usize = self.layer_count();
        let mut from: Layer = self.root;
        let mut going: bool = true;
        proof {
            lemma_layers_around(layers, self.root, start, end, layers.len());
        }
        around.push(from);
        assert(around@.drop_last() + layers_around(layers, from, start, end, depth as nat)
            =~= whole);
        while going
            invariant
                layers == self.view(),
                whole == layers_around(layers, self.root, start, end, layers.len()),
                self.has(from),
                around.len() > 0,
                around@.last() == from,
                going ==> around@.drop_last() + layers_around(
                    layers,
                    from,
                    start,
                    end,
                    depth as nat,
                ) == whole,
                !going ==> around@ == whole,
            decreases depth, if going { 1int } else { 0int },
        {
            let ghost before = around@;
            match self.layer(from).injected_layer_around(start, end) {
                Some(inner) => {
                    if depth > 0 && self.get_layer(inner).is_some() {
                        depth = depth - 1;
                        from = inner;
                        around.push(inner);
                        assert(around@.drop_last() + layers_around(
                            layers,
                            from,
                            start,
                            end,
                            depth as nat,
                        ) =~= whole);
                    } else {
                        going = false;
                        assert(around@ =~= whole);
                    }
                },
                None => {
                    going = false;
                    assert(around@ =~= whole);
                },
            }
        }
        proof {
            assert forall|i: int| 0 <= i < around.len() implies self.has(#[trigger] around@[i]) by {
                assert(layers.dom().contains(whole[i].0));
            }
        }
        around
    }

    /// The innermost layer around a part of the document.
    pub fn layer_for_byte_range(&self, start: u32, end: u32) -> (layer: Layer)
        requires
            self.has(self.root),
        ensures
            layer == layers_around(
                self.view(),
                self.root,
                start,
                end,
                self.view().len(),
            ).last(),
            self.has(layer),
    {
        let around = self.layers_for_byte_range(start, end);
        around[around.len() - 1]
    }

    /// The innermost tree around a part of the document.
    pub fn tree_for_byte_range(&self, start: u32, end: u32) -> (tree: &Tree)
        requires
            self.has(self.root),
            self.view()[self.root.0].parse_tree is Some,
        ensures
            tree_around(self.view(), self.root, start, end) == Some(*tree),
    {
        let around = self.layers_for_byte_range(start, end);
        let ghost layers = self.view();
        let mut left: usize = around.len();
        assert(around@.take(left as int) =~= around@);
        while left > 1
            invariant
                1 <= left <= around.len(),
                layers == self.view(),
                around@ == layers_around(layers, self.root, start, end, layers.len()),
                forall|i: int| 0 <= i < around.len() ==> self.has(#[trigger] around@[i]),
                innermost_tree(layers, around@) == innermost_tree(
                    layers,
                    around@.take(left as int),
                ),
            decreases left,
        {
            assert(around@.take(left as int).drop_last() =~= around@.take(left - 1));
            assert(around@.take(left as int).last() == around@[left - 1]);
            assert(self.has(around@[left - 1]));
            left = left - 1;
            if let Some(tree) = self.layer(around[left]).parse_tree.as_ref() {
                return tree;
            }
        }
        assert(around@.take(1).last() == self.root);
        self.tree()
    }

    /// The bytes of the smallest node with a name in the grammar around a part of the document.
    pub fn named_descendant_for_byte_range(&self, start: u32, end: u32) -> (range: Option<
        Range<u32>,
    >)
        requires
            self.has(self.root),
            self.view()[self.root.0].parse_tree is Some,
        ensures
            tree_around(self.view(), self.root, start, end) is Some,
            range == named_node_around(
                tree_around(self.view(), self.root, start, end)->0,
                start,
                end,
            ),
    {
        named_descendant_range(self.tree_for_byte_range(start, end), start, end)
    }

    /// The bytes of the smallest node around a part of the document.
    pub fn descendant_for_byte_range(&self, start: u32, end: u32) -> (range: Option<Range<u32>>)
        requires
            self.has(self.root),
            self.view()[self.root.0].parse_tree is Some,
        ensures
            tree_around(self.view(), self.root, start, end) is Some,
            range == node_around(tree_around(self.view(), self.root, start, end)->0, start, end),
    {
        descendant_range(self.tree_for_byte_range(start, end), start, end)
    }
}

/// Whether injections come one behind the other in the document.
pub open spec fn are_apart(injections: Seq<Injection>) -> bool {
    &&& forall|i: int|
        0 <= i < injections.len() ==> (#[trigger] injections[i]).range.start
            <= injections[i].range.end
    &&& forall|i: int, j: int|
        0 <= i < j < injections.len() ==> (#[trigger] injections[i]).range.end <= (
        #[trigger] injections[j]).range.start
}

/// The layer that is found at a byte is that of the injection which the byte lies in or ends,
/// whichever place it has in the list; where two of them meet, that of the first. Where no
/// injection reaches the byte, no layer is found.
pub proof fn lemma_layer_at(injections: Seq<Injection>, byte: u32)
    requires
        are_apart(injections),
    ensures
        forall|k: int|
            0 <= k < injections.len() && (#[trigger] injections[k]).range.start <= byte
                <= injections[k].range.end && (forall|i: int|
                0 <= i < k ==> (#[trigger] injections[i]).range.end != byte) ==> layer_at(
                injections,
                byte,
            ) == Some(injections[k].layer),
        layer_at(injections, byte) is None <==> forall|k: int|
            0 <= k < injections.len() ==> !((#[trigger] injections[k]).range.start <= byte
                <= injections[k].range.end),
    decreases injections.len(),
{
    if injections.len() > 0 {
        let rest = injections.drop_first();
        assert forall|i: int| 0 <= i < rest.len() implies (#[trigger] rest[i]).range.start
            <= rest[i].range.end by {
            assert(rest[i] == injections[i + 1]);
        }
        assert forall|i: int, j: int| 0 <= i < j < rest.len() implies (
        #[trigger] rest[i]).range.end <= (#[trigger] rest[j]).range.start by {
            assert(rest[i] == injections[i + 1] && rest[j] == injections[j + 1]);
        }
        lemma_layer_at(rest, byte);
        let first = injections[0];
        if first.range.end >= byte {
            assert forall|k: int|
                0 < k < injections.len() && (#[trigger] injections[k]).range.start <= byte implies (
            first.range.end == byte) by {
                assert(injections[0].range.end <= injections[k].range.start);
            }
            if layer_at(injections, byte) is None {
                assert forall|k: int| 0 <= k < injections.len() implies !((
                #[trigger] injections[k]).range.start <= byte <= injections[k].range.end) by {
                    if k > 0 {
                        assert(injections[0].range.end <= injections[k].range.start);
                    }
                }
            } else {
                assert(injections[0].range.start <= byte <= injections[0].range.end);
            }
        } else {
            assert(layer_at(injections, byte) == layer_at(rest, byte));
            assert forall|k: int|
                0 <= k < injections.len() && (#[trigger] injections[k]).range.start <= byte
                    <= injections[k].range.end && (forall|i: int|
                    0 <= i < k ==> (#[trigger] injections[i]).range.end != byte) implies layer_at(
                injections,
                byte,
            ) == Some(injections[k].layer) by {
                assert(rest[k - 1] == injections[k]);
                assert forall|i: int| 0 <= i < k - 1 implies (#[trigger] rest[i]).range.end
                    != byte by {
                    assert(rest[i] == injections[i + 1]);
                }
            }
            if layer_at(rest, byte) is None {
                assert forall|k: int| 0 <= k < injections.len() implies !((
                #[trigger] injections[k]).range.start <= byte <= injections[k].range.end) by {
                    if k > 0 {
                        assert(rest[k - 1] == injections[k]);
                    }
                }
            } else {
                let k = choose|k: int|
                    0 <= k < rest.len() && (#[trigger] rest[k]).range.start <= byte
                        <= rest[k].range.end;
                assert(injections[k + 1] == rest[k]);
            }
        }
    }
}

/// A part of a document that lies inside an injection is answered with the layer of that injection,
/// whichever place it has in the list. (Where another injection ends at the very begin of the part,
/// that one is found there.)
pub proof fn lemma_part_inside_an_injection(
    injections: Seq<Injection>,
    k: int,
    start: u32,
    end: u32,
)
    requires
        are_apart(injections),
        0 <= k < injections.len(),
        injections[k].range.start <= start <= end <= injections[k].range.end,
        forall|i: int| 0 <= i < k ==> (#[trigger] injections[i]).range.end != start,
    ensures
        layer_around(injections, start, end) == Some(injections[k].layer),
{
    lemma_layer_at(injections, start);
    lemma_layer_at(injections, end);
    assert forall|i: int| 0 <= i < k implies (#[trigger] injections[i]).range.end != end by {
        assert(injections[i].range.end <= injections[k].range.start);
    }
}

/// A layer that is found around a part of a document is injected where the part begins and where it
/// ends.
pub proof fn lemma_layer_around_reaches_both_ends(
    injections: Seq<Injection>,
    start: u32,
    end: u32,
)
    requires
        are_apart(injections),
        layer_around(injections, start, end) is Some,
    ensures
        exists|i: int, j: int|
            {
                &&& 0 <= i < injections.len()
                &&& 0 <= j < injections.len()
                &&& (#[trigger] injections[i]).range.start <= start <= injections[i].range.end
                &&& (#[trigger] injections[j]).range.start <= end <= injections[j].range.end
                &&& injections[i].layer == injections[j].layer
                &&& layer_around(injections, start, end) == Some(injections[i].layer)
            },
{
    let i = lemma_where_found(injections, start);
    let j = lemma_where_found(injections, end);
    assert(injections[i].layer == injections[j].layer);
}

proof fn lemma_where_found(injections: Seq<Injection>, byte: u32) -> (k: int)
    requires
        layer_at(injections, byte) is Some,
    ensures
        0 <= k < injections.len(),
        injections[k].range.start <= byte <= injections[k].range.end,
        layer_at(injections, byte) == Some(injections[k].layer),
    decreases injections.len(),
{
    if injections[0].range.end >= byte {
        0
    } else {
        let k = lemma_where_found(injections.drop_first(), byte);
        k + 1
    }
}

/// The innermost layer around a part of a document, and each step to it: a layer inside of which
/// the part lies in an injection is followed by the layer of that injection, and the last one has
/// no layer further inwards around the part, unless more layers were entered than there are.
pub proof fn lemma_innermost_layer(
    layers: Map<usize, LayerView>,
    root: Layer,
    start: u32,
    end: u32,
    depth: nat,
)
    requires
        layers.dom().contains(root.0),
    ensures
        ({
            let around = layers_around(layers, root, start, end, depth);
            &&& around.len() > 0
            &&& around[0] == root
            &&& around.len() <= depth + 1
            &&& around.len() == depth + 1 || match layer_around(
                layers[around.last().0].injections,
                start,
                end,
            ) {
                Some(inner) => !layers.dom().contains(inner.0),
                None => true,
            }
            &&& forall|i: int, k: int|
                0 <= i < around.len() && i < depth && are_apart(
                    layers[(#[trigger] around[i]).0].injections,
                ) && 0 <= k < layers[around[i].0].injections.len() && {
                    let injection = #[trigger] layers[around[i].0].injections[k];
                    &&& injection.range.start <= start <= end <= injection.range.end
                    &&& layers.dom().contains(injection.layer.0)
                    &&& forall|m: int|
                        0 <= m < k ==> (
                        #[trigger] layers[around[i].0].injections[m]).range.end != start
                } ==> i + 1 < around.len() && around[i + 1]
                    == layers[around[i].0].injections[k].layer
        }),
    decreases depth,
{
    let around = layers_around(layers, root, start, end, depth);
    let injections = layers[root.0].injections;
    let inner = layer_around(injections, start, end);
    if depth > 0 && inner is Some && layers.dom().contains((inner->0).0) {
        let rest = layers_around(layers, inner->0, start, end, (depth - 1) as nat);
        lemma_innermost_layer(layers, inner->0, start, end, (depth - 1) as nat);
        assert(around == seq![root] + rest);
        assert(around.last() == rest.last());
    }
    assert forall|i: int, k: int|
        0 <= i < around.len() && i < depth && are_apart(
            layers[(#[trigger] around[i]).0].injections,
        ) && 0 <= k < layers[around[i].0].injections.len() && {
            let injection = #[trigger] layers[around[i].0].injections[k];
            &&& injection.range.start <= start <= end <= injection.range.end
            &&& layers.dom().contains(injection.layer.0)
            &&& forall|m: int|
                0 <= m < k ==> (#[trigger] layers[around[i].0].injections[m]).range.end != start
        } implies i + 1 < around.len() && around[i + 1]
        == layers[around[i].0].injections[k].layer by {
        if i == 0 {
            lemma_part_inside_an_injection(injections, k, start, end);
            let rest = layers_around(layers, inner->0, start, end, (depth - 1) as nat);
            lemma_innermost_layer(layers, inner->0, start, end, (depth - 1) as nat);
            assert(around[1] == rest[0]);
        } else {
            let rest = layers_around(layers, inner->0, start, end, (depth - 1) as nat);
            assert(around[i] == rest[i - 1]);
            assert(around[i + 1] == rest[i]);
        }
    }
}

/// The tree that is found is that of the innermost layer that has one.
pub proof fn lemma_innermost_tree(layers: Map<usize, LayerView>, around: Seq<Layer>)
    ensures
        innermost_tree(layers, around) is None <==> forall|i: int|
            0 <= i < around.len() ==> layers[(#[trigger] around[i]).0].parse_tree is None,
        forall|i: int|
            0 <= i < around.len() && layers[(#[trigger] around[i]).0].parse_tree is Some && (forall|
                j: int,
            |
                i < j < around.len() ==> layers[(#[trigger] around[j]).0].parse_tree is None)
                ==> innermost_tree(layers, around) == layers[around[i].0].parse_tree,
    decreases around.len(),
{
    if around.len() > 0 {
        let front = around.drop_last();
        lemma_innermost_tree(layers, front);
        let last = around.len() - 1;
        if layers[around.last().0].parse_tree is Some {
            assert(layers[around[last].0].parse_tree is Some);
        } else {
            assert forall|i: int|
                0 <= i < around.len() && layers[(#[trigger] around[i]).0].parse_tree is Some && (
                forall|j: int|
                    i < j < around.len() ==> layers[(#[trigger] around[j]).0].parse_tree
                        is None) implies innermost_tree(layers, around)
                == layers[around[i].0].parse_tree by {
                assert(front[i] == around[i]);
                assert forall|j: int| i < j < front.len() implies layers[(
                #[trigger] front[j]).0].parse_tree is None by {
                    assert(front[j] == around[j]);
                }
            }
            if innermost_tree(layers, front) is None {
                assert forall|i: int| 0 <= i < around.len() implies layers[(
                #[trigger] around[i]).0].parse_tree is None by {
                    if i < last {
                        assert(front[i] == around[i]);
                    }
                }
            } else {
                let i = choose|i: int|
                    0 <= i < front.len() && layers[(#[trigger] front[i]).0].parse_tree is Some;
                assert(around[i] == front[i]);
            }
        }
    }
}

} // verus!
