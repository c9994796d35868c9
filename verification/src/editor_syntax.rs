//! The syntax of documents and of viewports, as an editor keeps it.
use crate::byte_text::{between, byte_len, fits, lemma_between_bytes, lemma_encode_injective};
use crate::change::{ChangeSet, Revision, SnapshotId, TextEdit, UpdateResult};
use crate::config::LanguageLoader;
use crate::edits::{aligned_until_invalid, edited, edited_by, effective, inserted_total, normalized};
use crate::engine::{is_first_parse, is_refused, EngineError};
use crate::layers::LayerData;
use crate::lookup::layers_around;
use crate::ordering::stably_ordered;
use crate::rope::{slice_byte_slice, slice_text, slice_to_string};
use crate::sealed_source::{newline_padding, SealedSource};
use crate::session::{is_edited, DocumentSession, EngineConfig, SessionView};
use crate::snapshot::{DocumentSnapshot, SnapshotView};
use crate::text::{clamped_text, cuts_at_characters, RopeText};
use crate::treesitter::{
    duration_from_millis, is_edit, millis_duration, named_node_around, node_around, tree_end,
};
use crate::types::{InputEdit, Language, Layer};
use ropey::RopeSlice;
use std::ops::Range;
use std::sync::Arc;
use std::time::Duration;
use tree_house_bindings::Tree;
use vstd::prelude::*;
use vstd::utf8::*;

verus! {

/// For how long a parse may go on unless it is told otherwise.
pub const DEFAULT_PARSE_TIMEOUT_MILLIS: u64 = 500;

/// How documents are parsed.
#[derive(Debug, Clone, Copy, PartialEq, Eq)]
pub struct SyntaxOptions {
    /// For how long a parse may go on.
    pub parse_timeout: Duration,
}

impl Default for SyntaxOptions {
    fn default() -> (opts: Self)
        ensures
            opts.parse_timeout == millis_duration(DEFAULT_PARSE_TIMEOUT_MILLIS),
    {
        SyntaxOptions { parse_timeout: duration_from_millis(DEFAULT_PARSE_TIMEOUT_MILLIS) }
    }
}

impl From<SyntaxOptions> for EngineConfig {
    fn from(value: SyntaxOptions) -> (config: Self) {
        EngineConfig { parse_timeout: value.parse_timeout }
    }
}

impl vstd::std_specs::convert::FromSpecImpl<SyntaxOptions> for EngineConfig {
    open spec fn obeys_from_spec() -> bool {
        true
    }

    open spec fn from_spec(value: SyntaxOptions) -> Self {
        EngineConfig { parse_timeout: value.parse_timeout }
    }
}

/// The part of a document that a viewport shows.
#[derive(Debug)]
pub struct ViewportMetadata {
    /// The byte of the document at which the part begins.
    pub base_offset: u32,
    /// The number of bytes that come from the document.
    pub real_len: u32,
    /// The part, and what closes it.
    pub sealed_source: Arc<SealedSource>,
}

/// What a session would be a snapshot of.
pub open spec fn snapshot_of(session: SessionView) -> SnapshotView {
    SnapshotView {
        id: session.snapshot_id,
        revision: session.revision,
        generation: session.generation,
        text: session.text,
        layers: session.layers,
        root: session.root,
    }
}

/// The syntax of a document.
#[derive(Debug)]
pub struct Syntax {
    session: DocumentSession,
    snapshot: DocumentSnapshot,
    opts: SyntaxOptions,
}

/// What is known of the syntax of a document.
#[verifier::ext_equal]
pub struct SyntaxView {
    pub session: SessionView,
    pub snapshot: SnapshotView,
    pub opts: SyntaxOptions,
}

impl SyntaxView {
    /// Whether the snapshot is that of the session, which is in order.
    pub open spec fn is_valid(self) -> bool {
        &&& self.session.is_valid()
        &&& self.snapshot == snapshot_of(self.session)
    }
}

impl View for Syntax {
    type V = SyntaxView;

    closed spec fn view(&self) -> SyntaxView {
        SyntaxView { session: self.session@, snapshot: self.snapshot@, opts: self.opts }
    }
}

impl Clone for Syntax {
    fn clone(&self) -> (copy: Self)
        ensures
            copy@ == self@,
    {
        Syntax {
            session: self.session.clone(),
            snapshot: self.snapshot.clone(),
            opts: self.opts,
        }
    }
}

/// Whether a session is one that was just made for a text.
pub open spec fn is_new_session<L: LanguageLoader>(
    session: SessionView,
    language: Language,
    text: Seq<char>,
    loader: &L,
    opts: SyntaxOptions,
) -> bool {
    &&& session.is_valid()
    &&& session.language == language
    &&& session.config.parse_timeout == opts.parse_timeout
    &&& session.revision == Revision(0)
    &&& session.snapshot_id == SnapshotId(1)
    &&& session.generation == 0
    &&& session.text == text
    &&& is_first_parse(session.layers, session.root, language, text, loader)
}

/// Whether a text edit does what an edit tells of, given the text behind it.
pub open spec fn tells_of(change: TextEdit, edit: InputEdit, source: Seq<char>) -> bool {
    &&& change.range.start == edit.start_byte
    &&& change.range.end == edit.old_end_byte
    &&& change.replacement@ == between(source, edit.start_byte as int, edit.new_end_byte as int)
}

/// Whether text edits do what edits tell of, given the text behind them.
pub open spec fn tell_of(
    changes: Seq<TextEdit>,
    edits: Seq<InputEdit>,
    source: Seq<char>,
) -> bool {
    &&& changes.len() == edits.len()
    &&& forall|i: int|
        0 <= i < edits.len() ==> tells_of(#[trigger] changes[i], edits[i], source)
}

/// Whether edits tell where new text stands in `source`, at its characters.
pub open spec fn are_within(edits: Seq<InputEdit>, source: Seq<char>) -> bool {
    forall|i: int|
        0 <= i < edits.len() ==> fits(
            source,
            (#[trigger] edits[i]).start_byte as int,
            edits[i].new_end_byte as int,
        )
}

/// Reads the text edits that edits tell of.
pub fn changes_of(source: RopeSlice<'_>, edits: &[InputEdit]) -> (changes: ChangeSet)
    requires
        are_within(edits@, slice_text(source)),
    ensures
        tell_of(changes@, edits@, slice_text(source)),
{
    let mut changes: Vec<TextEdit> = Vec::with_capacity(edits.len());
    for i in 0..edits.len()
        invariant
            are_within(edits@, slice_text(source)),
            changes.len() == i,
            forall|k: int|
                0 <= k < i ==> tells_of(#[trigger] changes@[k], edits@[k], slice_text(source)),
    {
        let edit = &edits[i];
        let part = slice_byte_slice(&source, edit.start_byte as usize, edit.new_end_byte as usize);
        changes.push(
            TextEdit {
                range: edit.start_byte..edit.old_end_byte,
                replacement: slice_to_string(&part),
            },
        );
    }
    ChangeSet::new(changes)
}

/// Whether edits can be applied to a session: they tell where new text stands, begin and end at
/// characters, and do not make the document too large to count its bytes.
pub open spec fn can_apply(
    session: SessionView,
    edits: Seq<InputEdit>,
    source: Seq<char>,
) -> bool {
    &&& are_within(edits, source)
    &&& forall|changes: Seq<TextEdit>| #[trigger]
        tell_of(changes, edits, source) ==> aligned_until_invalid(session.text, changes)
            && byte_len(session.text) + inserted_total(changes) <= u32::MAX
}

/// What comes of edits of a session, as text edits and a result.
pub open spec fn is_update_of<L: LanguageLoader>(
    before: SessionView,
    after: SessionView,
    edits: Seq<InputEdit>,
    source: Seq<char>,
    loader: &L,
    res: Result<(), EngineError>,
) -> bool {
    exists|changes: Seq<TextEdit>, found: Result<UpdateResult, EngineError>|
        #![trigger tell_of(changes, edits, source), is_applied(before, after, changes, loader, found)]
        {
            &&& tell_of(changes, edits, source)
            &&& is_applied(before, after, changes, loader, found)
            &&& res == match found {
                Ok(_) => Ok::<(), EngineError>(()),
                Err(error) => Err::<(), EngineError>(error),
            }
        }
}

/// What comes of text edits of a session.
pub open spec fn is_applied<L: LanguageLoader>(
    before: SessionView,
    after: SessionView,
    changes: Seq<TextEdit>,
    loader: &L,
    res: Result<UpdateResult, EngineError>,
) -> bool {
    match normalized(before.text, changes) {
        Some(kept) => is_edited(before, after, kept, loader, res),
        None => after == before && res == Err::<UpdateResult, _>(EngineError::InvalidRanges),
    }
}

impl Syntax {
    /// The syntax that a session holds.
    fn from_session(session: DocumentSession, opts: SyntaxOptions) -> (syntax: Self)
        ensures
            syntax@ == (SyntaxView {
                session: session@,
                snapshot: snapshot_of(session@),
                opts,
            }),
    {
        let snapshot = session.snapshot();
        Syntax { session, snapshot, opts }
    }

    /// Parses a document.
    pub fn new<L: LanguageLoader>(
        source: RopeSlice<'_>,
        language: Language,
        loader: &L,
        opts: SyntaxOptions,
    ) -> (res: Result<Self, EngineError>)
        ensures
            match res {
                Ok(syntax) => {
                    &&& syntax@.is_valid()
                    &&& is_new_session(
                        syntax@.session,
                        language,
                        slice_text(source),
                        loader,
                        opts,
                    )
                    &&& syntax@.opts == opts
                },
                Err(error) => is_refused(
                    error,
                    language,
                    slice_text(source),
                    opts.parse_timeout,
                    loader,
                ),
            },
    {
        let text = RopeText::from_slice(source);
        match DocumentSession::new(language, &text, loader, EngineConfig::from(opts)) {
            Ok(session) => Ok(Syntax::from_session(session, opts)),
            Err(error) => Err(error),
        }
    }

    /// Follows edits of the document; `source` is the document after them.
    pub fn update<L: LanguageLoader>(
        &mut self,
        source: RopeSlice<'_>,
        edits: &[InputEdit],
        loader: &L,
        opts: SyntaxOptions,
    ) -> (res: Result<(), EngineError>)
        requires
            old(self)@.is_valid(),
            edits.len() > 0 ==> can_apply(old(self)@.session, edits@, slice_text(source)),
        ensures
            final(self)@.is_valid(),
            final(self)@.opts == opts,
            final(self)@.session.config.parse_timeout == opts.parse_timeout,
            ({
                let before = SessionView {
                    config: EngineConfig { parse_timeout: opts.parse_timeout },
                    ..old(self)@.session
                };
                if edits.len() == 0 {
                    res is Ok && final(self)@.session == before
                } else {
                    is_update_of(
                        before,
                        final(self)@.session,
                        edits@,
                        slice_text(source),
                        loader,
                        res,
                    )
                }
            }),
    {
        self.opts = opts;
        self.session.set_config(EngineConfig::from(opts));
        if edits.len() == 0 {
            return Ok(());
        }
        let ghost before = self.session@;
        let changes = changes_of(source, edits);
        let found = self.session.apply_edits(&changes, loader);
        assert(is_applied(before, self.session@, changes@, loader, found));
        match found {
            Ok(_) => {
                self.snapshot = self.session.snapshot();
                Ok(())
            },
            Err(error) => Err(error),
        }
    }

    /// How the document is parsed.
    pub fn opts(&self) -> (opts: SyntaxOptions)
        ensures
            opts == self@.opts,
    {
        self.opts
    }

    /// How the session of the document parses it.
    pub fn config(&self) -> (config: EngineConfig)
        ensures
            config == self@.session.config,
    {
        self.session.config()
    }

    /// The tree of the outermost layer.
    pub fn tree(&self) -> (tree: &Tree)
        requires
            self@.is_valid(),
        ensures
            *tree == self@.snapshot.root_tree(),
    {
        self.snapshot.tree()
    }

    /// The innermost tree around a part of the document.
    pub fn tree_for_byte_range(&self, start: u32, end: u32) -> (tree: &Tree)
        requires
            self@.is_valid(),
        ensures
            *tree == self@.snapshot.tree_at(start, end),
    {
        self.snapshot.tree_for_byte_range(start, end)
    }

    /// The outermost layer.
    pub fn root_layer(&self) -> (root: Layer)
        ensures
            root == self@.snapshot.root,
    {
        self.snapshot.root_layer()
    }

    /// The language of the document.
    pub fn root_language(&self) -> (language: Language)
        requires
            self@.is_valid(),
        ensures
            language == self@.session.language,
    {
        self.layer(self.root_layer()).language
    }

    /// What a layer holds.
    pub fn layer(&self, layer: Layer) -> (data: &LayerData)
        requires
            self@.snapshot.layers.dom().contains(layer.0),
        ensures
            data@ == self@.snapshot.layers[layer.0],
    {
        self.snapshot.layer(layer)
    }

    /// The innermost layer around a part of the document.
    pub fn layer_for_byte_range(&self, start: u32, end: u32) -> (layer: Layer)
        requires
            self@.is_valid(),
        ensures
            layer == layers_around(
                self@.snapshot.layers,
                self@.snapshot.root,
                start,
                end,
                self@.snapshot.layers.len(),
            ).last(),
            self@.snapshot.layers.dom().contains(layer.0),
    {
        self.snapshot.layer_for_byte_range(start, end)
    }

    /// The layers around a part of the document, from the outermost inwards.
    pub fn layers_for_byte_range(&self, start: u32, end: u32) -> (around: Vec<Layer>)
        requires
            self@.is_valid(),
        ensures
            around@ == layers_around(
                self@.snapshot.layers,
                self@.snapshot.root,
                start,
                end,
                self@.snapshot.layers.len(),
            ),
    {
        self.snapshot.layers_for_byte_range(start, end)
    }

    /// The bytes of the smallest node with a name in the grammar around a part of the document.
    pub fn named_descendant_for_byte_range(&self, start: u32, end: u32) -> (range: Option<
        Range<u32>,
    >)
        requires
            self@.is_valid(),
        ensures
            range == named_node_around(self@.snapshot.tree_at(start, end), start, end),
    {
        self.snapshot.named_node_at(start, end)
    }

    /// The bytes of the smallest node around a part of the document.
    pub fn descendant_for_byte_range(&self, start: u32, end: u32) -> (range: Option<Range<u32>>)
        requires
            self@.is_valid(),
        ensures
            range == node_around(self@.snapshot.tree_at(start, end), start, end),
    {
        self.snapshot.node_at(start, end)
    }

    /// What the document is now.
    pub fn snapshot(&self) -> (snapshot: &DocumentSnapshot)
        ensures
            snapshot@ == self@.snapshot,
    {
        &self.snapshot
    }

    /// The byte at which the tree of the outermost layer ends.
    pub fn root_end_byte(&self) -> (end: u32)
        requires
            self@.is_valid(),
        ensures
            end == tree_end(self@.snapshot.root_tree()),
    {
        self.snapshot.root_end_byte()
    }
}

/// An edit of a document takes it to the text that it tells of.
pub proof fn lemma_update_leads_to_the_source(
    before: Seq<char>,
    source: Seq<char>,
    edit: InputEdit,
    change: TextEdit,
)
    requires
        is_edit(before, source, edit),
        tells_of(change, edit, source),
    ensures
        edited_by(encode_utf8(before), change) == encode_utf8(source),
{
    let bytes = encode_utf8(source);
    let (start, end) = (edit.start_byte as int, edit.new_end_byte as int);
    lemma_between_bytes(source, start, end);
    assert(bytes =~= bytes.take(start) + bytes.subrange(start, end) + bytes.skip(end));
}

/// A session that follows an edit has the text that the edit leads to, unless the edit could not be
/// applied in time; an edit that changes nothing leads to the text that is there.
pub proof fn lemma_updated_text<L: LanguageLoader>(
    before: SessionView,
    after: SessionView,
    edit: InputEdit,
    source: Seq<char>,
    loader: &L,
)
    requires
        is_edit(before.text, source, edit),
        is_update_of(before, after, seq![edit], source, loader, Ok(())),
    ensures
        after == before || after.text == source,
{
    let (changes, found) = choose|
        changes: Seq<TextEdit>,
        found: Result<UpdateResult, EngineError>,
    |
        #![trigger tell_of(changes, seq![edit], source), is_applied(before, after, changes, loader, found)]
        {
            &&& tell_of(changes, seq![edit], source)
            &&& is_applied(before, after, changes, loader, found)
            &&& Ok::<(), EngineError>(()) == match found {
                Ok(_) => Ok::<(), EngineError>(()),
                Err(error) => Err::<(), EngineError>(error),
            }
        };
    let change = changes[0];
    assert(tells_of(changes[0], seq![edit][0], source));
    if let Some(kept) = normalized(before.text, changes) {
        assert(changes.drop_last() =~= Seq::empty());
        assert(changes.last() == change);
        reveal_with_fuel(effective, 2);
        reveal_with_fuel(stably_ordered, 2);
        if kept.len() > 0 && after != before {
            assert(kept =~= seq![change]);
            assert(kept.drop_last() =~= Seq::empty());
            reveal_with_fuel(edited, 2);
            lemma_update_leads_to_the_source(before.text, source, edit, change);
            lemma_encode_injective(after.text, source);
        }
    }
}

/// An offset, kept within the offsets that can be counted.
pub open spec fn within_offsets(offset: int) -> int {
    if offset < 0 {
        0
    } else if offset > u32::MAX {
        u32::MAX as int
    } else {
        offset
    }
}

/// Where an edit takes an offset. An offset within the edit is taken to one of its ends.
pub open spec fn remapped(offset: int, edit: InputEdit, map_to_new_end: bool) -> int {
    if offset < edit.start_byte {
        offset
    } else if offset > edit.old_end_byte {
        within_offsets(offset + edit.new_end_byte - edit.old_end_byte)
    } else if map_to_new_end {
        edit.new_end_byte as int
    } else {
        edit.start_byte as int
    }
}

/// Where edits take a range.
pub open spec fn remapped_range(range: Range<u32>, edits: Seq<InputEdit>) -> Range<u32>
    decreases edits.len(),
{
    if edits.len() == 0 {
        range
    } else {
        let before = remapped_range(range, edits.drop_last());
        let start = remapped(before.start as int, edits.last(), false) as u32;
        let end = remapped(before.end as int, edits.last(), true) as u32;
        Range {
            start,
            end: if end > start {
                end
            } else {
                start
            },
        }
    }
}

/// Whether the ends of an edit can be told apart by a signed number.
pub open spec fn is_small(edit: InputEdit) -> bool {
    edit.old_end_byte <= i32::MAX && edit.new_end_byte <= i32::MAX
}

/// Finds where an edit takes an offset.
pub fn remap_offset(offset: u32, edit: &InputEdit, map_to_new_end: bool) -> (moved: u32)
    requires
        is_small(*edit),
    ensures
        moved == remapped(offset as int, *edit, map_to_new_end),
{
    if offset < edit.start_byte {
        return offset;
    }
    if offset > edit.old_end_byte {
        let moved: i64 = offset as i64 + (edit.new_end_byte as i64 - edit.old_end_byte as i64);
        return if moved < 0 {
            0
        } else if moved > u32::MAX as i64 {
            u32::MAX
        } else {
            moved as u32
        };
    }
    if map_to_new_end {
        edit.new_end_byte
    } else {
        edit.start_byte
    }
}

/// Finds where edits take a range.
pub fn remap_viewport_range(range: Range<u32>, edits: &[InputEdit]) -> (moved: Range<u32>)
    requires
        forall|i: int| 0 <= i < edits.len() ==> is_small(#[trigger] edits@[i]),
    ensures
        moved == remapped_range(range, edits@),
{
    let mut start: u32 = range.start;
    let mut end: u32 = range.end;
    assert(edits@.take(0) =~= Seq::empty());
    for i in 0..edits.len()
        invariant
            forall|i: int| 0 <= i < edits.len() ==> is_small(#[trigger] edits@[i]),
            remapped_range(range, edits@.take(i as int)) == (Range { start, end }),
    {
        proof {
            assert(edits@.take(i + 1).drop_last() =~= edits@.take(i as int));
            assert(edits@.take(i + 1).last() == edits@[i as int]);
            assert(is_small(edits@[i as int]));
        }
        start = remap_offset(start, &edits[i], false);
        let moved: u32 = remap_offset(end, &edits[i], true);
        end = if moved > start {
            moved
        } else {
            start
        };
    }
    assert(edits@.take(edits@.len() as int) =~= edits@);
    start..end
}

/// An edit behind a range leaves it where it is; one before it moves it as a whole.
pub proof fn lemma_edits_outside_only_move(range: Range<u32>, edit: InputEdit)
    requires
        range.start <= range.end,
        edit.start_byte <= edit.old_end_byte,
        edit.start_byte <= edit.new_end_byte,
        range.end + edit.new_end_byte - edit.old_end_byte <= u32::MAX,
    ensures
        range.end < edit.start_byte ==> remapped_range(range, seq![edit]) == range,
        edit.old_end_byte < range.start ==> remapped_range(range, seq![edit]) == (Range {
            start: (range.start + edit.new_end_byte - edit.old_end_byte) as u32,
            end: (range.end + edit.new_end_byte - edit.old_end_byte) as u32,
        }),
{
    assert(seq![edit].drop_last() =~= Seq::empty());
    assert(seq![edit].last() == edit);
    reveal_with_fuel(remapped_range, 2);
}

/// The syntax of the part of a document that a viewport shows.
#[derive(Debug)]
pub struct ViewportSyntax {
    session: DocumentSession,
    snapshot: DocumentSnapshot,
    opts: SyntaxOptions,
    viewport: ViewportMetadata,
}

/// What is known of the syntax of a viewport.
#[verifier::ext_equal]
pub struct ViewportView {
    pub session: SessionView,
    pub snapshot: SnapshotView,
    pub opts: SyntaxOptions,
    pub base_offset: u32,
    pub real_len: u32,
    /// The part of the document, and what closes it.
    pub sealed: SealedSource,
}

impl ViewportView {
    /// Whether the snapshot is that of the session, which is in order and holds the part of the
    /// document.
    pub open spec fn is_valid(self) -> bool {
        &&& self.session.is_valid()
        &&& self.snapshot == snapshot_of(self.session)
        &&& self.session.text == self.sealed@
    }

    /// The part of the document that is shown.
    pub open spec fn coverage(self) -> Range<u32> {
        Range { start: self.base_offset, end: (self.base_offset + self.real_len) as u32 }
    }
}

impl View for ViewportSyntax {
    type V = ViewportView;

    closed spec fn view(&self) -> ViewportView {
        ViewportView {
            session: self.session@,
            snapshot: self.snapshot@,
            opts: self.opts,
            base_offset: self.viewport.base_offset,
            real_len: self.viewport.real_len,
            sealed: *self.viewport.sealed_source,
        }
    }
}

impl ViewportSyntax {
    /// Parses the part of a document that a viewport shows.
    pub fn new<L: LanguageLoader>(
        sealed: Arc<SealedSource>,
        language: Language,
        loader: &L,
        opts: SyntaxOptions,
        base_offset: u32,
    ) -> (res: Result<Self, EngineError>)
        ensures
            match res {
                Ok(syntax) => {
                    &&& syntax@.is_valid()
                    &&& is_new_session(syntax@.session, language, sealed@, loader, opts)
                    &&& syntax@.opts == opts
                    &&& syntax@.base_offset == base_offset
                    &&& syntax@.real_len == sealed.real_len_bytes
                    &&& syntax@.sealed == *sealed
                },
                Err(error) => is_refused(error, language, sealed@, opts.parse_timeout, loader),
            },
    {
        let text = RopeText::from_slice(sealed.slice());
        match DocumentSession::new(language, &text, loader, EngineConfig::from(opts)) {
            Ok(session) => {
                let snapshot = session.snapshot();
                let real_len: u32 = sealed.real_len_bytes;
                Ok(
                    ViewportSyntax {
                        session,
                        snapshot,
                        opts,
                        viewport: ViewportMetadata { base_offset, real_len, sealed_source: sealed },
                    },
                )
            },
            Err(error) => Err(error),
        }
    }

    /// Follows edits of the document; `source` is the document after them. The part that is shown
    /// moves with the edits, and is parsed anew.
    pub fn update<L: LanguageLoader>(
        &mut self,
        source: RopeSlice<'_>,
        edits: &[InputEdit],
        loader: &L,
        opts: SyntaxOptions,
    ) -> (res: Result<(), EngineError>)
        requires
            old(self)@.is_valid(),
            old(self)@.base_offset + old(self)@.real_len <= u32::MAX,
            forall|i: int| 0 <= i < edits.len() ==> is_small(#[trigger] edits@[i]),
            edits.len() > 0 ==> cuts_at_characters(
                slice_text(source),
                remapped_range(old(self)@.coverage(), edits@),
            ),
        ensures
            final(self)@.is_valid(),
            final(self)@.opts == opts,
            if edits.len() == 0 {
                &&& res is Ok
                &&& final(self)@ == (ViewportView {
                    opts,
                    session: SessionView {
                        config: EngineConfig { parse_timeout: opts.parse_timeout },
                        ..old(self)@.session
                    },
                    ..old(self)@
                })
            } else {
                let range = remapped_range(old(self)@.coverage(), edits@);
                let part = clamped_text(slice_text(source), range);
                let text = part + newline_padding(part);
                match res {
                    Ok(()) => {
                        &&& is_new_session(
                            final(self)@.session,
                            old(self)@.session.language,
                            text,
                            loader,
                            opts,
                        )
                        &&& final(self)@.base_offset == range.start
                        &&& final(self)@.real_len == byte_len(part)
                        &&& final(self)@.sealed@ == text
                        &&& final(self)@.sealed.real_len_bytes == byte_len(part)
                        &&& final(self)@.sealed.suffix_len_bytes == byte_len(newline_padding(part))
                    },
                    Err(error) => {
                        &&& is_refused(
                            error,
                            old(self)@.session.language,
                            text,
                            opts.parse_timeout,
                            loader,
                        )
                        &&& final(self)@ == (ViewportView { opts, ..old(self)@ })
                    },
                }
            },
    {
        self.opts = opts;
        if edits.len() == 0 {
            self.session.set_config(EngineConfig::from(opts));
            return Ok(());
        }
        let base_offset: u32 = self.viewport.base_offset;
        let coverage = remap_viewport_range(
            base_offset..base_offset + self.viewport.real_len,
            edits,
        );
        let base_offset: u32 = coverage.start;
        let sealed = Arc::new(
            SealedSource::from_byte_range_with_newline_padding(source, coverage),
        );
        let text = RopeText::from_slice(sealed.slice());
        let session = match DocumentSession::new(
            self.session.language(),
            &text,
            loader,
            EngineConfig::from(opts),
        ) {
            Ok(session) => session,
            Err(error) => return Err(error),
        };
        self.session = session;
        let real_len: u32 = sealed.real_len_bytes;
        self.viewport = ViewportMetadata { base_offset, real_len, sealed_source: sealed };
        self.snapshot = self.session.snapshot();
        Ok(())
    }

    /// How the part is parsed.
    pub fn opts(&self) -> (opts: SyntaxOptions)
        ensures
            opts == self@.opts,
    {
        self.opts
    }

    /// The part of the document that is shown.
    pub fn metadata(&self) -> (metadata: &ViewportMetadata)
        ensures
            metadata.base_offset == self@.base_offset,
            metadata.real_len == self@.real_len,
            *metadata.sealed_source == self@.sealed,
    {
        &self.viewport
    }

    /// What the part is now.
    pub fn snapshot(&self) -> (snapshot: &DocumentSnapshot)
        ensures
            snapshot@ == self@.snapshot,
    {
        &self.snapshot
    }

    /// The byte at which the tree of the outermost layer ends.
    pub fn root_end_byte(&self) -> (end: u32)
        requires
            self@.is_valid(),
        ensures
            end == tree_end(self@.snapshot.root_tree()),
    {
        self.snapshot.root_end_byte()
    }
}

/// An offset before an edit stays where it is, and one behind it keeps its distance to the end of
/// the edit. One within the edit, its ends included, comes to the start of what is written, or to
/// its end.
pub proof fn lemma_remapped_offset(offset: int, edit: InputEdit)
    requires
        0 <= offset <= u32::MAX,
    ensures
        forall|to_end: bool| offset < edit.start_byte ==> #[trigger] remapped(offset, edit, to_end) == offset,
        forall|to_end: bool|
            #![trigger remapped(offset, edit, to_end)]
            edit.start_byte <= offset && edit.old_end_byte < offset && 0 <= offset
                + edit.new_end_byte - edit.old_end_byte <= u32::MAX ==> remapped(
                offset,
                edit,
                to_end,
            ) - edit.new_end_byte == offset - edit.old_end_byte,
        forall|to_end: bool|
            #![trigger remapped(offset, edit, to_end)]
            edit.start_byte <= offset && edit.old_end_byte < offset && offset + edit.new_end_byte
                - edit.old_end_byte > u32::MAX ==> remapped(offset, edit, to_end) == u32::MAX,
        edit.start_byte <= offset <= edit.old_end_byte ==> remapped(offset, edit, false)
            == edit.start_byte && remapped(offset, edit, true) == edit.new_end_byte,
{
}

/// Edits move a range one after the other, each what the edits before it have made of it. Without
/// edits the range stays.
pub proof fn lemma_remapped_in_turn(range: Range<u32>, edits: Seq<InputEdit>, edit: InputEdit)
    ensures
        remapped_range(range, Seq::empty()) == range,
        ({
            let before = remapped_range(range, edits);
            let after = remapped_range(range, edits.push(edit));
            let shift = edit.new_end_byte - edit.old_end_byte;
            &&& before.start < edit.start_byte ==> after.start == before.start
            &&& edit.start_byte <= before.start <= edit.old_end_byte ==> after.start
                == edit.start_byte
            &&& edit.start_byte <= before.start && edit.old_end_byte < before.start && 0
                <= before.start + shift <= u32::MAX ==> after.start == before.start + shift
            &&& before.end < edit.start_byte && after.start <= before.end ==> after.end
                == before.end
            &&& edit.start_byte <= before.end <= edit.old_end_byte && after.start
                <= edit.new_end_byte ==> after.end == edit.new_end_byte
            &&& edit.start_byte <= before.end && edit.old_end_byte < before.end && after.start
                <= before.end + shift <= u32::MAX ==> after.end == before.end + shift
            &&& after.start <= after.end
            &&& after.end == after.start || after.end == before.end || after.end
                == edit.new_end_byte || after.end == before.end + shift || after.end == u32::MAX
        }),
{
    assert(edits.push(edit).drop_last() =~= edits);
    assert(edits.push(edit).last() == edit);
}

/// A snapshot shows the state of the session that it is taken of.
pub proof fn lemma_snapshot_shows_the_session(session: SessionView)
    ensures
        ({
            let snapshot = snapshot_of(session);
            &&& snapshot.text == session.text
            &&& snapshot.layers == session.layers
            &&& snapshot.root == session.root
            &&& snapshot.revision == session.revision
            &&& snapshot.id == session.snapshot_id
            &&& snapshot.generation == session.generation
        }),
{
}

/// A text edit takes out the bytes that an edit tells of, and puts in what stands in the new text
/// in their place: as many bytes as the edit tells of.
pub proof fn lemma_what_an_edit_tells_of(
    changes: Seq<TextEdit>,
    edits: Seq<InputEdit>,
    source: Seq<char>,
    k: int,
)
    requires
        tell_of(changes, edits, source),
        are_within(edits, source),
        0 <= k < edits.len(),
    ensures
        changes.len() == edits.len(),
        changes[k].range.start == edits[k].start_byte,
        changes[k].range.end == edits[k].old_end_byte,
        byte_len(changes[k].replacement@) == edits[k].new_end_byte - edits[k].start_byte,
        vstd::utf8::encode_utf8(changes[k].replacement@) == vstd::utf8::encode_utf8(source).subrange(
            edits[k].start_byte as int,
            edits[k].new_end_byte as int,
        ),
{
    assert(tells_of(changes[k], edits[k], source));
    crate::byte_text::lemma_between_bytes(
        source,
        edits[k].start_byte as int,
        edits[k].new_end_byte as int,
    );
}

/// The part of a document that a viewport shows begins at its offset and is as long as what comes
/// from the document; what closes it does not count.
pub proof fn lemma_coverage(view: ViewportView, byte: int)
    requires
        view.base_offset + view.real_len <= u32::MAX,
    ensures
        view.coverage().start <= byte < view.coverage().end <==> 0 <= byte - view.base_offset
            < view.real_len,
{
}

/// A session that was just made has the language and the text that it was made for, and the limit
/// of time that was asked for. It is the first state of the document: its revision and its
/// generation are zero, and its snapshot is the first one.
pub proof fn lemma_new_session<L: LanguageLoader>(
    session: SessionView,
    language: Language,
    text: Seq<char>,
    loader: &L,
    opts: SyntaxOptions,
)
    requires
        is_new_session(session, language, text, loader, opts),
    ensures
        session.language == language,
        session.text == text,
        session.config.parse_timeout == opts.parse_timeout,
        session.revision.0 == 0,
        session.generation == 0,
        session.snapshot_id.0 == 1,
        loader.config_of(language) is Some,
        session.layers.dom().contains(session.root.0),
        session.layers[session.root.0].language == language,
        session.layers[session.root.0].parse_tree is Some,
{
}

} // verus!
