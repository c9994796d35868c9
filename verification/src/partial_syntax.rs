//! The syntax of a document, or of the part of it that a viewport shows.
use crate::byte_text::byte_len;
use crate::config::LanguageLoader;
use crate::editor_syntax::{SyntaxOptions, ViewportMetadata};
use crate::engine::{
    can_update, is_first_parse, is_refused, is_up_to_date, is_update_failure, is_updated,
    EngineError, MAX_SOURCE_BYTES,
};
use crate::layers::{LayerData, LayerView};
use crate::layers;
use crate::lookup::{layers_around, tree_around};
use crate::rope::slice_text;
use crate::sealed_source::SealedSource;
use crate::treesitter::{named_node_around, node_around};
use crate::types::{InputEdit, Language, Layer};
use ropey::RopeSlice;
use std::ops::Range;
use std::sync::Arc;
use tree_house_bindings::Tree;
use vstd::prelude::*;

verus! {

/// The syntax of a document, or of a part of it.
#[derive(Debug)]
pub struct Syntax {
    inner: layers::Syntax,
    opts: SyntaxOptions,
    viewport: Option<ViewportMetadata>,
}

/// What is known of the part of a document that a viewport shows.
pub struct PartView {
    pub base_offset: u32,
    pub real_len: u32,
    pub sealed: SealedSource,
}

/// What is known of the syntax of a document, or of a part of it.
#[verifier::ext_equal]
pub struct PartialView {
    pub layers: Map<usize, LayerView>,
    pub root: Layer,
    pub opts: SyntaxOptions,
    /// The part, if it is not the whole document.
    pub part: Option<PartView>,
}

impl View for Syntax {
    type V = PartialView;

    closed spec fn view(&self) -> PartialView {
        PartialView {
            layers: self.inner.view(),
            root: self.inner.root,
            opts: self.opts,
            part: match self.viewport {
                Some(viewport) => Some(
                    PartView {
                        base_offset: viewport.base_offset,
                        real_len: viewport.real_len,
                        sealed: *viewport.sealed_source,
                    },
                ),
                None => None,
            },
        }
    }
}

impl Syntax {
    /// Parses a document.
    pub fn new<L: LanguageLoader>(
        source: RopeSlice<'_>,
        language: Language,
        loader: &L,
        opts: SyntaxOptions,
    ) -> (res: Result<Self, EngineError>)
        ensures
            match res {
                Ok(syntax) => {
                    &&& is_first_parse(
                        syntax@.layers,
                        syntax@.root,
                        language,
                        slice_text(source),
                        loader,
                    )
                    &&& syntax@.opts == opts
                    &&& syntax@.part is None
                },
                Err(error) => is_refused(
                    error,
                    language,
                    slice_text(source),
                    opts.parse_timeout,
                    loader,
                ),
            },
    {
        match layers::Syntax::new(source, language, opts.parse_timeout, loader) {
            Ok(inner) => Ok(Syntax { inner, opts, viewport: None }),
            Err(error) => Err(error),
        }
    }

    /// Parses the part of a document that a viewport shows.
    pub fn new_viewport<L: LanguageLoader>(
        sealed: Arc<SealedSource>,
        language: Language,
        loader: &L,
        opts: SyntaxOptions,
        base_offset: u32,
    ) -> (res: Result<Self, EngineError>)
        ensures
            match res {
                Ok(syntax) => {
                    &&& is_first_parse(syntax@.layers, syntax@.root, language, sealed@, loader)
                    &&& syntax@.opts == opts
                    &&& syntax@.part == Some(
                        (PartView { base_offset, real_len: sealed.real_len_bytes, sealed: *sealed }),
                    )
                },
                Err(error) => is_refused(error, language, sealed@, opts.parse_timeout, loader),
            },
    {
        match layers::Syntax::new(sealed.slice(), language, opts.parse_timeout, loader) {
            Ok(inner) => {
                let real_len: u32 = sealed.real_len_bytes;
                Ok(
                    Syntax {
                        inner,
                        opts,
                        viewport: Some(
                            ViewportMetadata { base_offset, real_len, sealed_source: sealed },
                        ),
                    },
                )
            },
            Err(error) => Err(error),
        }
    }

    /// Follows edits; `source` is the whole document after them. Without edits nothing changes;
    /// with some, the syntax is no longer that of a part.
    pub fn update<L: LanguageLoader>(
        &mut self,
        source: RopeSlice<'_>,
        edits: &[InputEdit],
        loader: &L,
        opts: SyntaxOptions,
    ) -> (res: Result<(), EngineError>)
        requires
            edits.len() > 0 ==> can_update(
                old(self)@.layers,
                old(self)@.root,
                slice_text(source),
                edits@,
            ),
        ensures
            edits.len() == 0 ==> res is Ok && *final(self) == *old(self),
            edits.len() > 0 ==> {
                &&& final(self)@.root == old(self)@.root
                &&& final(self)@.opts == opts
                &&& final(self)@.part is None
                &&& match res {
                    Ok(()) => {
                        &&& byte_len(slice_text(source)) < MAX_SOURCE_BYTES
                        &&& is_up_to_date(
                            final(self)@.layers,
                            old(self)@.root,
                            slice_text(source),
                        )
                        &&& is_updated(
                            old(self)@.layers,
                            final(self)@.layers,
                            old(self)@.root,
                            edits@,
                            source,
                            loader,
                        )
                    },
                    Err(error) => is_update_failure(
                        old(self)@.layers,
                        old(self)@.root,
                        error,
                        edits@,
                        source,
                        opts.parse_timeout,
                        loader,
                    ),
                }
            },
    {
        if edits.len() == 0 {
            return Ok(());
        }
        self.opts = opts;
        self.viewport = None;
        self.inner.update(source, opts.parse_timeout, edits, loader)
    }

    /// How the text is parsed.
    pub fn opts(&self) -> (opts: SyntaxOptions)
        ensures
            opts == self@.opts,
    {
        self.opts
    }

    /// Tells whether this is the syntax of a part only.
    pub fn is_partial(&self) -> (partial: bool)
        ensures
            partial == (self@.part is Some),
    {
        self.viewport.is_some()
    }

    /// The part of the document that is shown, if it is not the whole document.
    pub fn viewport(&self) -> (viewport: Option<&ViewportMetadata>)
        ensures
            match (viewport, self@.part) {
                (Some(viewport), Some(part)) => {
                    &&& viewport.base_offset == part.base_offset
                    &&& viewport.real_len == part.real_len
                    &&& *viewport.sealed_source == part.sealed
                },
                (None, None) => true,
                _ => false,
            },
    {
        match &self.viewport {
            Some(viewport) => Some(viewport),
            None => None,
        }
    }

    /// The tree of the outermost layer.
    pub fn tree(&self) -> (tree: &Tree)
        requires
            self@.layers.dom().contains(self@.root.0),
            self@.layers[self@.root.0].parse_tree is Some,
        ensures
            *tree == self@.layers[self@.root.0].parse_tree->0,
    {
        self.inner.tree()
    }

    /// The innermost tree around a part of the text.
    pub fn tree_for_byte_range(&self, start: u32, end: u32) -> (tree: &Tree)
        requires
            self@.layers.dom().contains(self@.root.0),
            self@.layers[self@.root.0].parse_tree is Some,
        ensures
            *tree == tree_around(self@.layers, self@.root, start, end)->0,
    {
        self.inner.tree_for_byte_range(start, end)
    }

    /// The outermost layer.
    pub fn root_layer(&self) -> (root: Layer)
        ensures
            root == self@.root,
    {
        self.inner.root()
    }

    /// The language of the outermost layer.
    pub fn root_language(&self) -> (language: Language)
        requires
            self@.layers.dom().contains(self@.root.0),
        ensures
            language == self@.layers[self@.root.0].language,
    {
        self.layer(self.root_layer()).language
    }

    /// What a layer holds.
    pub fn layer(&self, layer: Layer) -> (data: &LayerData)
        requires
            self@.layers.dom().contains(layer.0),
        ensures
            data@ == self@.layers[layer.0],
    {
        self.inner.layer(layer)
    }

    /// The innermost layer around a part of the text.
    pub fn layer_for_byte_range(&self, start: u32, end: u32) -> (layer: Layer)
        requires
            self@.layers.dom().contains(self@.root.0),
        ensures
            layer == layers_around(
                self@.layers,
                self@.root,
                start,
                end,
                self@.layers.len(),
            ).last(),
            self@.layers.dom().contains(layer.0),
    {
        self.inner.layer_for_byte_range(start, end)
    }

    /// The layers around a part of the text, from the outermost inwards.
    pub fn layers_for_byte_range(&self, start: u32, end: u32) -> (around: Vec<Layer>)
        requires
            self@.layers.dom().contains(self@.root.0),
        ensures
            around@ == layers_around(
                self@.layers,
                self@.root,
                start,
                end,
                self@.layers.len(),
            ),
    {
        self.inner.layers_for_byte_range(start, end)
    }

    /// The bytes of the smallest node with a name in the grammar around a part of the text.
    pub fn named_descendant_for_byte_range(&self, start: u32, end: u32) -> (range: Option<
        Range<u32>,
    >)
        requires
            self@.layers.dom().contains(self@.root.0),
            self@.layers[self@.root.0].parse_tree is Some,
        ensures
            range == named_node_around(
                tree_around(self@.layers, self@.root, start, end)->0,
                start,
                end,
            ),
    {
        self.inner.named_descendant_for_byte_range(start, end)
    }

    /// The bytes of the smallest node around a part of the text.
    pub fn descendant_for_byte_range(&self, start: u32, end: u32) -> (range: Option<Range<u32>>)
        requires
            self@.layers.dom().contains(self@.root.0),
            self@.layers[self@.root.0].parse_tree is Some,
        ensures
            range == node_around(
                tree_around(self@.layers, self@.root, start, end)->0,
                start,
                end,
            ),
    {
        self.inner.descendant_for_byte_range(start, end)
    }
}

} // verus!
