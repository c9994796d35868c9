//! Documents that are parsed, edited and parsed again.
use crate::byte_text::{between, byte_len};
use crate::change::{ChangeSet, Revision, SnapshotId, TextEdit, UpdateResult, UpdateView};
use crate::config::LanguageLoader;
use crate::edits::{
    aligned_in_turn, aligned_until_invalid, all_in_range, apply_edit, apply_in_reverse,
    build_input_edit, edited, edited_by, edited_in_turn, effective, effective_edits, inserted_total,
    invalidated, invalidated_range, is_aligned, is_input_edit, is_noop, lemma_edited_reads_back,
    lemma_inserted_effective, lemma_inserted_normalized, lemma_inserted_part, lemma_inserted_prefix,
    lemma_normalized, new_end, normalize_edits, normalized, shift_of_all,
};
use crate::engine::{
    edits_turn, in_sync, is_first_parse, is_refused, is_up_to_date, is_update_failure, is_updated,
    lemma_failures_tell, whole_text, EngineError, MAX_SOURCE_BYTES,
};
use crate::layers::{LayerView, Syntax};
use crate::ordering::{in_key_order, stably_ordered, Keyed};
use crate::rope::{rope_clone, rope_len_bytes, rope_slice, rope_text, slice_text};
use crate::snapshot::{DocumentSnapshot, SnapshotView};
use crate::spans::{
    coalesce_ranges, coalesce_sorted_ranges, coalesced, covers, lemma_coalesced_covers_the_same,
};
use crate::text::{DocumentText, TextStorage};
use crate::treesitter::{duration_from_millis, is_edit, millis_duration};
use crate::types::{InputEdit, Language, Layer};
use ropey::{Rope, RopeSlice};
use std::ops::Range;
use std::time::Duration;
use vstd::prelude::*;
use vstd::utf8::*;

verus! {

/// For how long a parse may go on unless it is told otherwise.
pub const DEFAULT_PARSE_TIMEOUT_MILLIS: u64 = 500;

/// How documents are parsed.
#[derive(Debug, Clone, Copy, PartialEq, Eq)]
pub struct EngineConfig {
    /// For how long a parse may go on.
    pub parse_timeout: Duration,
}

impl Default for EngineConfig {
    fn default() -> (config: Self)
        ensures
            config.parse_timeout == millis_duration(DEFAULT_PARSE_TIMEOUT_MILLIS),
    {
        EngineConfig { parse_timeout: duration_from_millis(DEFAULT_PARSE_TIMEOUT_MILLIS) }
    }
}

/// A document with its layers.
#[derive(Debug)]
pub struct DocumentSession {
    language: Language,
    config: EngineConfig,
    revision: Revision,
    snapshot_id: SnapshotId,
    generation: u64,
    text: Rope,
    syntax: Syntax,
}

/// What a session holds.
pub struct SessionView {
    pub language: Language,
    pub config: EngineConfig,
    pub revision: Revision,
    pub snapshot_id: SnapshotId,
    pub generation: u64,
    pub text: Seq<char>,
    pub layers: Map<usize, LayerView>,
    pub root: Layer,
}

impl SessionView {
    /// Whether the layers are up to date with the text, which is not too large to be parsed, and
    /// the outermost one covers it and is in the language of the document.
    pub open spec fn is_valid(self) -> bool {
        &&& is_up_to_date(self.layers, self.root, self.text)
        &&& byte_len(self.text) < MAX_SOURCE_BYTES
        &&& self.layers[self.root.0].language == self.language
        &&& self.layers[self.root.0].ranges == seq![whole_text()]
    }

    /// What comes of edits that change nothing.
    pub open spec fn unchanged(self) -> UpdateView {
        UpdateView {
            revision: self.revision,
            snapshot_id: self.snapshot_id,
            changed_ranges: Seq::empty(),
            timed_out: false,
            snapshot_changed: false,
            affected_layers: self.layers.len() as usize,
        }
    }

    /// What comes of edits after which the parse takes too long.
    pub open spec fn timed_out(self, changed_ranges: Seq<Range<u32>>) -> UpdateView {
        UpdateView { changed_ranges, timed_out: true, ..self.unchanged() }
    }

    /// What comes of edits that have led to this session.
    pub open spec fn changed(self, changed_ranges: Seq<Range<u32>>) -> UpdateView {
        UpdateView { changed_ranges, snapshot_changed: true, ..self.unchanged() }
    }

    /// Whether this session is the next state of another one, whose text was replaced.
    pub open spec fn follows(self, before: SessionView) -> bool {
        &&& self.language == before.language
        &&& self.config == before.config
        &&& self.revision == Revision(before.revision.0.wrapping_add(1))
        &&& self.snapshot_id == SnapshotId(before.snapshot_id.0.wrapping_add(1))
        &&& self.generation == before.generation.wrapping_add(1)
    }
}

impl View for DocumentSession {
    type V = SessionView;

    closed spec fn view(&self) -> SessionView {
        SessionView {
            language: self.language,
            config: self.config,
            revision: self.revision,
            snapshot_id: self.snapshot_id,
            generation: self.generation,
            text: rope_text(self.text),
            layers: self.syntax.view(),
            root: self.syntax.root,
        }
    }
}

impl Clone for DocumentSession {
    fn clone(&self) -> (copy: Self)
        ensures
            copy@ == self@,
    {
        DocumentSession {
            language: self.language,
            config: self.config,
            revision: self.revision,
            snapshot_id: self.snapshot_id,
            generation: self.generation,
            text: rope_clone(&self.text),
            syntax: self.syntax.clone(),
        }
    }
}

/// The bytes that some edits touch, before or after.
pub open spec fn touched(edits: Seq<TextEdit>) -> Seq<Range<u32>> {
    coalesced(Seq::new(edits.len(), |i: int| invalidated(edits[i])))
}

/// Whether edits in the order of the text may fail to take a text and its layers further for this
/// reason.
pub open spec fn is_edit_failure<L: LanguageLoader>(
    before: (Seq<char>, Map<usize, LayerView>),
    root: Layer,
    kept: Seq<TextEdit>,
    error: EngineError,
    timeout: Duration,
    loader: &L,
) -> bool {
    exists|inputs: Seq<InputEdit>, source: RopeSlice<'_>|
        #![trigger is_update_failure(before.1, root, error, inputs, source, timeout, loader)]
        {
            &&& inputs.len() == kept.len()
            &&& forall|i: int|
                0 <= i < kept.len() ==> is_input_edit(before.0, kept[i], #[trigger] inputs[i])
            &&& encode_utf8(slice_text(source)) == edited(encode_utf8(before.0), kept)
            &&& is_update_failure(before.1, root, error, inputs, source, timeout, loader)
        }
}

proof fn lemma_edit_failure<L: LanguageLoader>(
    before: (Seq<char>, Map<usize, LayerView>),
    root: Layer,
    kept: Seq<TextEdit>,
    error: EngineError,
    timeout: Duration,
    loader: &L,
    inputs: Seq<InputEdit>,
    source: RopeSlice<'_>,
)
    requires
        inputs.len() == kept.len(),
        forall|i: int|
            0 <= i < kept.len() ==> is_input_edit(before.0, kept[i], #[trigger] inputs[i]),
        encode_utf8(slice_text(source)) == edited(encode_utf8(before.0), kept),
        is_update_failure(before.1, root, error, inputs, source, timeout, loader),
    ensures
        is_edit_failure(before, root, kept, error, timeout, loader),
{
}

/// Whether edits of a session, in the order of the text, may fail for this reason.
pub open spec fn is_failed<L: LanguageLoader>(
    before: SessionView,
    kept: Seq<TextEdit>,
    error: EngineError,
    loader: &L,
) -> bool {
    is_edit_failure(
        (before.text, before.layers),
        before.root,
        kept,
        error,
        before.config.parse_timeout,
        loader,
    )
}

/// What edits in the order of the text make of a session. A parse that takes too long is no error.
pub open spec fn is_edited<L: LanguageLoader>(
    before: SessionView,
    after: SessionView,
    kept: Seq<TextEdit>,
    loader: &L,
    res: Result<UpdateResult, EngineError>,
) -> bool {
    let bytes = edited(encode_utf8(before.text), kept);
    match res {
        Ok(result) => if kept.len() == 0 {
            after == before && result@ == before.unchanged()
        } else if result.timed_out {
            &&& after == before
            &&& result@ == before.timed_out(touched(kept))
            &&& is_failed(before, kept, EngineError::Timeout, loader)
        } else {
            &&& after.follows(before)
            &&& encode_utf8(after.text) == bytes
            &&& bytes.len() < MAX_SOURCE_BYTES
            &&& result@ == after.changed(touched(kept))
            &&& is_followed(before, after, kept, loader)
        },
        Err(error) => {
            &&& kept.len() > 0
            &&& after == before
            &&& error != EngineError::Timeout
            &&& is_failed(before, kept, error, loader)
        },
    }
}

/// Whether the layers `after` are what becomes of those `before` when one text is turned into
/// another by edits in the order of the text, and parsed anew.
pub open spec fn is_reparsed<L: LanguageLoader>(
    before: (Seq<char>, Map<usize, LayerView>),
    after: (Seq<char>, Map<usize, LayerView>),
    root: Layer,
    kept: Seq<TextEdit>,
    loader: &L,
) -> bool {
    exists|inputs: Seq<InputEdit>, source: RopeSlice<'_>|
        #![trigger is_updated(before.1, after.1, root, inputs, source, loader)]
        {
            &&& inputs.len() == kept.len()
            &&& forall|i: int|
                0 <= i < kept.len() ==> is_input_edit(before.0, kept[i], #[trigger] inputs[i])
            &&& slice_text(source) == after.0
            &&& is_updated(before.1, after.1, root, inputs, source, loader)
        }
}

proof fn lemma_reparsed<L: LanguageLoader>(
    before: (Seq<char>, Map<usize, LayerView>),
    after: (Seq<char>, Map<usize, LayerView>),
    root: Layer,
    kept: Seq<TextEdit>,
    loader: &L,
    inputs: Seq<InputEdit>,
    source: RopeSlice<'_>,
)
    requires
        inputs.len() == kept.len(),
        forall|i: int|
            0 <= i < kept.len() ==> is_input_edit(before.0, kept[i], #[trigger] inputs[i]),
        slice_text(source) == after.0,
        is_updated(before.1, after.1, root, inputs, source, loader),
    ensures
        is_reparsed(before, after, root, kept, loader),
{
}

/// Whether a session has been parsed anew after edits in the order of the text.
pub open spec fn is_followed<L: LanguageLoader>(
    before: SessionView,
    after: SessionView,
    kept: Seq<TextEdit>,
    loader: &L,
) -> bool {
    &&& after.root == before.root
    &&& is_reparsed(
        (before.text, before.layers),
        (after.text, after.layers),
        before.root,
        kept,
        loader,
    )
}

/// Whether a session has been parsed anew after each of some edits.
pub open spec fn is_followed_in_turn<L: LanguageLoader>(
    before: SessionView,
    after: SessionView,
    kept: Seq<TextEdit>,
    loader: &L,
) -> bool {
    &&& after.root == before.root
    &&& exists|versions: Seq<(Seq<char>, Map<usize, LayerView>)>| #[trigger]
        are_versions(versions, before.root, kept, loader) && versions[0] == (
            before.text,
            before.layers,
        ) && versions.last() == (after.text, after.layers)
}

/// Whether each version of a document is what an edit makes of the one before.
pub open spec fn are_versions<L: LanguageLoader>(
    versions: Seq<(Seq<char>, Map<usize, LayerView>)>,
    root: Layer,
    kept: Seq<TextEdit>,
    loader: &L,
) -> bool {
    &&& versions.len() == kept.len() + 1
    &&& forall|i: int|
        #![trigger kept[i]]
        0 <= i < kept.len() ==> is_reparsed(
            versions[i],
            versions[i + 1],
            root,
            seq![kept[i]],
            loader,
        )
}

/// Whether a text is never too large to be parsed while edits are applied to it one after the
/// other.
pub open spec fn stays_small(bytes: Seq<u8>, edits: Seq<TextEdit>) -> bool {
    forall|i: int|
        0 < i <= edits.len() ==> (#[trigger] edited_in_turn(bytes, edits.take(i))).len()
            < MAX_SOURCE_BYTES
}

/// The bytes that some edits touch, before or after, where they come in any order.
pub open spec fn touched_in_turn(edits: Seq<TextEdit>) -> Seq<Range<u32>> {
    coalesced(stably_ordered(Seq::new(edits.len(), |i: int| invalidated(edits[i]))))
}

/// Whether edits of a session, applied one after the other, may fail for this reason: those before
/// one of them can be applied, and that one fails.
pub open spec fn is_failed_in_turn<L: LanguageLoader>(
    before: SessionView,
    kept: Seq<TextEdit>,
    error: EngineError,
    loader: &L,
) -> bool {
    exists|versions: Seq<(Seq<char>, Map<usize, LayerView>)>, at: int|
        #![trigger are_versions(versions, before.root, kept.take(at), loader)]
        {
            &&& 0 <= at < kept.len()
            &&& are_versions(versions, before.root, kept.take(at), loader)
            &&& versions[0] == (before.text, before.layers)
            &&& is_edit_failure(
                versions.last(),
                before.root,
                seq![kept[at]],
                error,
                before.config.parse_timeout,
                loader,
            )
        }
}

/// What edits that are applied one after the other make of a session. A parse that takes too long
/// is no error.
pub open spec fn is_edited_in_turn<L: LanguageLoader>(
    before: SessionView,
    after: SessionView,
    kept: Seq<TextEdit>,
    loader: &L,
    res: Result<UpdateResult, EngineError>,
) -> bool {
    let bytes = encode_utf8(before.text);
    match res {
        Ok(result) => if kept.len() == 0 {
            after == before && result@ == before.unchanged()
        } else if result.timed_out {
            &&& after == before
            &&& result@ == before.timed_out(touched_in_turn(kept))
            &&& is_failed_in_turn(before, kept, EngineError::Timeout, loader)
        } else {
            &&& after.follows(before)
            &&& encode_utf8(after.text) == edited_in_turn(bytes, kept)
            &&& stays_small(bytes, kept)
            &&& result@ == after.changed(touched_in_turn(kept))
            &&& is_followed_in_turn(before, after, kept, loader)
        },
        Err(error) => {
            &&& kept.len() > 0
            &&& after == before
            &&& error != EngineError::Timeout
            &&& is_failed_in_turn(before, kept, error, loader)
            &&& error == EngineError::ExceededMaximumSize ==> !stays_small(bytes, kept)
        },
    }
}

/// One edit turns a text into what it leaves behind.
proof fn lemma_one_edit_turns(before: Seq<char>, after: Seq<char>, edits: Seq<InputEdit>)
    requires
        edits.len() == 1,
        is_edit(before, after, edits[0]),
        byte_len(after) <= u32::MAX,
    ensures
        edits_turn(before, after, edits),
{
    assert(edits.drop_last() =~= Seq::empty());
    assert(edits_turn(after, after, edits.drop_last()));
    assert(is_edit(before, after, edits.last()));
}

/// Applies an edit to a text, and parses it anew.
fn edit_and_parse<L: LanguageLoader>(
    text: &mut Rope,
    syntax: &mut Syntax,
    edit: &TextEdit,
    timeout: Duration,
    loader: &L,
) -> (parsed: Result<(), EngineError>)
    requires
        is_up_to_date(old(syntax).view(), old(syntax).root, rope_text(*old(text))),
        is_aligned(rope_text(*old(text)), *edit),
        byte_len(rope_text(*old(text))) + byte_len(edit.replacement@) <= u32::MAX,
    ensures
        encode_utf8(rope_text(*final(text))) == edited_by(
            encode_utf8(rope_text(*old(text))),
            *edit,
        ),
        final(syntax).root == old(syntax).root,
        match parsed {
            Ok(()) => {
                &&& byte_len(rope_text(*final(text))) < MAX_SOURCE_BYTES
                &&& is_up_to_date(final(syntax).view(), final(syntax).root, rope_text(*final(text)))
                &&& final(syntax).view()[final(syntax).root.0].language == old(syntax).view()[old(
                    syntax,
                ).root.0].language
                &&& final(syntax).view()[final(syntax).root.0].ranges == old(syntax).view()[old(
                    syntax,
                ).root.0].ranges
                &&& is_reparsed(
                    (rope_text(*old(text)), old(syntax).view()),
                    (rope_text(*final(text)), final(syntax).view()),
                    old(syntax).root,
                    seq![*edit],
                    loader,
                )
            },
            Err(error) => {
                &&& is_edit_failure(
                    (rope_text(*old(text)), old(syntax).view()),
                    old(syntax).root,
                    seq![*edit],
                    error,
                    timeout,
                    loader,
                )
                &&& error == EngineError::ExceededMaximumSize ==> byte_len(
                    rope_text(*final(text)),
                ) >= MAX_SOURCE_BYTES
            },
        },
{
    let ghost before = rope_text(*text);
    proof {
        crate::byte_text::lemma_boundary_in_text(before, edit.range.end as int);
        crate::byte_text::lemma_boundary_in_text(before, edit.range.start as int);
    }
    let input = build_input_edit(text, edit);
    let applied = apply_edit(text, edit);
    assert(applied is Ok);
    let one: [InputEdit; 1] = [input];
    proof {
        let after = rope_text(*text);
        assert(encode_utf8(after).take(edit.range.start as int) =~= encode_utf8(before).take(
            edit.range.start as int,
        ));
        assert(encode_utf8(after).skip(new_end(*edit)) =~= encode_utf8(before).skip(
            edit.range.end as int,
        ));
        lemma_one_edit_turns(before, after, one@);
        assert(in_sync(syntax.view(), before));
    }
    let ghost layers = syntax.view();
    let ghost root = syntax.root;
    let source = rope_slice(text);
    let parsed = syntax.update(source, timeout, &one, loader);
    proof {
        if parsed is Ok {
            assert(is_input_edit(before, seq![*edit][0], one@[0]));
            lemma_reparsed(
                (before, layers),
                (rope_text(*text), syntax.view()),
                root,
                seq![*edit],
                loader,
                one@,
                source,
            );
        }
        if let Err(error) = parsed {
            assert(is_input_edit(before, seq![*edit][0], one@[0]));
            assert(seq![*edit].drop_last() =~= Seq::empty());
            reveal_with_fuel(edited, 2);
            lemma_failures_tell(layers, root, error, one@, source, timeout, loader);
            lemma_edit_failure(
                (before, layers),
                root,
                seq![*edit],
                error,
                timeout,
                loader,
                one@,
                source,
            );
        }
    }
    parsed
}

impl DocumentSession {
    /// Parses a document.
    pub fn new<T: TextStorage, L: LanguageLoader>(
        language: Language,
        text: &T,
        loader: &L,
        config: EngineConfig,
    ) -> (res: Result<Self, EngineError>)
        ensures
            match res {
                Ok(session) => {
                    &&& session@.is_valid()
                    &&& session@.language == language
                    &&& session@.config == config
                    &&& session@.revision == Revision(0)
                    &&& session@.snapshot_id == SnapshotId(1)
                    &&& session@.generation == 0
                    &&& session@.text == text.stored_chars()
                    &&& is_first_parse(
                        session@.layers,
                        session@.root,
                        language,
                        session@.text,
                        loader,
                    )
                },
                Err(error) => is_refused(
                    error,
                    language,
                    text.stored_chars(),
                    config.parse_timeout,
                    loader,
                ),
            },
    {
        let rope = text.to_rope();
        match Syntax::new(rope_slice(&rope), language, config.parse_timeout, loader) {
            Ok(syntax) => Ok(
                DocumentSession {
                    language,
                    config,
                    revision: Revision(0),
                    snapshot_id: SnapshotId(1),
                    generation: 0,
                    text: rope,
                    syntax,
                },
            ),
            Err(error) => Err(error),
        }
    }

    /// The language of the document.
    pub fn language(&self) -> (language: Language)
        ensures
            language == self@.language,
    {
        self.language
    }

    /// The revision of the document.
    pub fn revision(&self) -> (revision: Revision)
        ensures
            revision == self@.revision,
    {
        self.revision
    }

    /// How the document is parsed.
    pub fn config(&self) -> (config: EngineConfig)
        ensures
            config == self@.config,
    {
        self.config
    }

    /// Changes how the document is parsed from now on.
    pub fn set_config(&mut self, config: EngineConfig)
        ensures
            final(self)@ == (SessionView { config, ..old(self)@ }),
    {
        self.config = config;
    }

    /// The text of the document.
    pub fn text(&self) -> (text: DocumentText<'_>)
        ensures
            slice_text(text.slice) == self@.text,
    {
        DocumentText::new(rope_slice(&self.text))
    }

    /// The number of bytes of the document.
    pub fn len_bytes(&self) -> (len: u32)
        requires
            byte_len(self@.text) <= u32::MAX,
        ensures
            len == byte_len(self@.text),
    {
        rope_len_bytes(&self.text) as u32
    }

    /// What the document is now.
    pub fn snapshot(&self) -> (snapshot: DocumentSnapshot)
        ensures
            snapshot@ == (SnapshotView {
                id: self@.snapshot_id,
                revision: self@.revision,
                generation: self@.generation,
                text: self@.text,
                layers: self@.layers,
                root: self@.root,
            }),
    {
        DocumentSnapshot::new(
            self.snapshot_id,
            self.revision,
            self.generation,
            rope_clone(&self.text),
            self.syntax.clone(),
        )
    }

    /// What comes of edits that change nothing.
    fn unchanged_result(&self) -> (result: UpdateResult)
        ensures
            result@ == self@.unchanged(),
    {
        UpdateResult {
            revision: self.revision,
            snapshot_id: self.snapshot_id,
            changed_ranges: Vec::new(),
            timed_out: false,
            snapshot_changed: false,
            affected_layers: self.syntax.layer_count(),
        }
    }

    /// Takes over an edited text and its layers, if they were parsed. A parse that took too long
    /// changes nothing and is no error.
    pub fn take_over(
        &mut self,
        text: Rope,
        syntax: Syntax,
        changed_ranges: Vec<Range<u32>>,
        parsed: Result<(), EngineError>,
    ) -> (res: Result<UpdateResult, EngineError>)
        ensures
            match parsed {
                Ok(()) => {
                    &&& final(self)@.follows(old(self)@)
                    &&& final(self)@.text == rope_text(text)
                    &&& final(self)@.layers == syntax.view()
                    &&& final(self)@.root == syntax.root
                    &&& res matches Ok(result) && result@ == final(self)@.changed(changed_ranges@)
                },
                Err(error) => {
                    &&& final(self)@ == old(self)@
                    &&& if error == EngineError::Timeout {
                        res matches Ok(result) && result@ == old(self)@.timed_out(changed_ranges@)
                    } else {
                        res == Err::<UpdateResult, _>(error)
                    }
                },
            },
    {
        match parsed {
            Err(EngineError::Timeout) => {
                let mut result = self.unchanged_result();
                result.changed_ranges = changed_ranges;
                result.timed_out = true;
                Ok(result)
            },
            Err(error) => Err(error),
            Ok(()) => {
                self.text = text;
                self.syntax = syntax;
                self.revision = Revision(self.revision.0.wrapping_add(1));
                self.snapshot_id = SnapshotId(self.snapshot_id.0.wrapping_add(1));
                self.generation = self.generation.wrapping_add(1);
                let mut result = self.unchanged_result();
                result.changed_ranges = changed_ranges;
                result.snapshot_changed = true;
                Ok(result)
            },
        }
    }

    /// Applies edits, all meant for the document as it is, and parses the document anew. Edits that
    /// change nothing are left out; without others the document stays as it is.
    pub fn apply_edits<L: LanguageLoader>(&mut self, edits: &ChangeSet, loader: &L) -> (res: Result<
        UpdateResult,
        EngineError,
    >)
        requires
            old(self)@.is_valid(),
            aligned_until_invalid(old(self)@.text, edits@),
            byte_len(old(self)@.text) + inserted_total(edits@) <= u32::MAX,
        ensures
            final(self)@.is_valid(),
            match normalized(old(self)@.text, edits@) {
                Some(kept) => is_edited(old(self)@, final(self)@, kept, loader, res),
                None => final(self)@ == old(self)@ && res == Err::<UpdateResult, _>(
                    EngineError::InvalidRanges,
                ),
            },
    {
        let ghost whole = self@.text;
        if edits.is_empty() {
            proof {
                assert(normalized(whole, edits@) matches Some(kept) && kept.len() == 0) by {
                    assert(edits@ =~= Seq::empty());
                    reveal_with_fuel(crate::ordering::stably_ordered, 2);
                    reveal_with_fuel(crate::edits::effective, 2);
                }
            }
            return Ok(self.unchanged_result());
        }
        let kept = match normalize_edits(&self.text, edits) {
            Ok(kept) => kept,
            Err(error) => return Err(error),
        };
        if kept.len() == 0 {
            return Ok(self.unchanged_result());
        }
        proof {
            lemma_normalized(whole, edits@);
            lemma_inserted_normalized(whole, edits@);
        }
        let mut input_edits: Vec<InputEdit> = Vec::with_capacity(kept.len());
        let mut ranges: Vec<Range<u32>> = Vec::with_capacity(kept.len());
        for i in 0..kept.len()
            invariant
                whole == rope_text(self.text),
                byte_len(whole) + inserted_total(kept@) <= u32::MAX,
                crate::edits::lie_apart(whole, kept@),
                input_edits.len() == i,
                ranges.len() == i,
                forall|k: int|
                    0 <= k < i ==> is_input_edit(whole, kept@[k], #[trigger] input_edits@[k]),
                forall|k: int| 0 <= k < i ==> #[trigger] ranges@[k] == invalidated(kept@[k]),
        {
            proof {
                lemma_inserted_part(kept@, i as int);
                assert(is_aligned(whole, kept@[i as int]));
                crate::byte_text::lemma_boundary_in_text(
                    whole,
                    kept@[i as int].range.end as int,
                );
            }
            input_edits.push(build_input_edit(&self.text, &kept[i]));
            ranges.push(invalidated_range(&kept[i]));
        }
        assert(ranges@ =~= Seq::new(kept@.len(), |i: int| invalidated(kept@[i])));
        let changed_ranges = coalesce_sorted_ranges(&ranges);
        let mut text = rope_clone(&self.text);
        let mut syntax = self.syntax.clone();
        apply_in_reverse(&mut text, &kept, Ghost(input_edits@));
        assert(in_sync(syntax.view(), whole));
        let ghost layers = syntax.view();
        let source = rope_slice(&text);
        let parsed = syntax.update(source, self.config.parse_timeout, &input_edits, loader);
        proof {
            if parsed is Ok {
                lemma_reparsed(
                    (whole, layers),
                    (rope_text(text), syntax.view()),
                    self@.root,
                    kept@,
                    loader,
                    input_edits@,
                    source,
                );
            }
            if let Err(error) = parsed {
                lemma_edit_failure(
                    (whole, layers),
                    self@.root,
                    kept@,
                    error,
                    self@.config.parse_timeout,
                    loader,
                    input_edits@,
                    source,
                );
            }
        }
        self.take_over(text, syntax, changed_ranges, parsed)
    }

    /// Applies edits one after the other, each meant for the document that those before it leave
    /// behind, and parses the document anew after each of them. Edits that would change nothing in
    /// the document as it is are left out.
    pub fn apply_edits_in_turn<L: LanguageLoader>(
        &mut self,
        edits: &ChangeSet,
        loader: &L,
    ) -> (res: Result<UpdateResult, EngineError>)
        requires
            old(self)@.is_valid(),
            aligned_until_invalid(old(self)@.text, edits@),
            all_in_range(old(self)@.text, edits@) ==> aligned_in_turn(
                encode_utf8(old(self)@.text),
                effective(old(self)@.text, edits@),
            ),
            byte_len(old(self)@.text) + inserted_total(edits@) <= u32::MAX,
        ensures
            final(self)@.is_valid(),
            if all_in_range(old(self)@.text, edits@) {
                is_edited_in_turn(
                    old(self)@,
                    final(self)@,
                    effective(old(self)@.text, edits@),
                    loader,
                    res,
                )
            } else {
                final(self)@ == old(self)@ && res == Err::<UpdateResult, _>(
                    EngineError::InvalidRanges,
                )
            },
    {
        let ghost whole = self@.text;
        let ghost bytes = encode_utf8(whole);
        let kept = match effective_edits(&self.text, edits) {
            Ok(kept) => kept,
            Err(error) => return Err(error),
        };
        if kept.len() == 0 {
            return Ok(self.unchanged_result());
        }
        proof {
            lemma_inserted_effective(whole, edits@);
            assert(kept@.take(0) =~= Seq::empty());
        }
        let mut ranges: Vec<Range<u32>> = Vec::with_capacity(kept.len());
        for i in 0..kept.len()
            invariant
                byte_len(whole) + inserted_total(kept@) <= u32::MAX,
                kept@ == effective(whole, edits@),
                all_in_range(whole, edits@),
                ranges.len() == i,
                forall|k: int| 0 <= k < i ==> #[trigger] ranges@[k] == invalidated(kept@[k]),
        {
            proof {
                lemma_inserted_part(kept@, i as int);
                crate::edits::lemma_effective_were_given(whole, edits@);
                assert(edits@.contains(kept@[i as int]));
            }
            ranges.push(invalidated_range(&kept[i]));
        }
        assert(ranges@ =~= Seq::new(kept@.len(), |i: int| invalidated(kept@[i])));
        let changed_ranges = coalesce_ranges(ranges);
        let mut text = rope_clone(&self.text);
        let mut syntax = self.syntax.clone();
        let mut at: usize = 0;
        let mut parsed: Result<(), EngineError> = Ok(());
        let ghost mut versions: Seq<(Seq<char>, Map<usize, LayerView>)> = seq![
            (whole, syntax.view()),
        ];
        while at < kept.len() && parsed.is_ok()
            invariant
                at <= kept.len(),
                kept.len() > 0,
                self@ == old(self)@,
                self@.is_valid(),
                bytes == encode_utf8(whole),
                byte_len(whole) + inserted_total(kept@) <= u32::MAX,
                aligned_in_turn(bytes, kept@),
                syntax.root == self@.root,
                versions[0] == (self@.text, self@.layers),
                parsed is Ok ==> {
                    &&& are_versions(versions, syntax.root, kept@.take(at as int), loader)
                    &&& versions.last() == (rope_text(text), syntax.view())
                    &&& encode_utf8(rope_text(text)) == edited_in_turn(bytes, kept@.take(at as int))
                    &&& byte_len(rope_text(text)) <= byte_len(whole) + inserted_total(
                        kept@.take(at as int),
                    )
                    &&& byte_len(rope_text(text)) < MAX_SOURCE_BYTES
                    &&& is_up_to_date(syntax.view(), syntax.root, rope_text(text))
                    &&& syntax.view()[syntax.root.0].language == self@.language
                    &&& syntax.view()[syntax.root.0].ranges == seq![whole_text()]
                    &&& forall|i: int|
                        0 < i <= at ==> (#[trigger] edited_in_turn(bytes, kept@.take(i))).len()
                            < MAX_SOURCE_BYTES
                },
                parsed matches Err(error) ==> {
                    &&& is_failed_in_turn(self@, kept@, error, loader)
                    &&& error == EngineError::ExceededMaximumSize ==> !stays_small(bytes, kept@)
                },
            decreases kept.len() - at,
        {
            let edit = &kept[at];
            let ghost before = rope_text(text);
            proof {
                assert(kept@.take(at + 1).drop_last() =~= kept@.take(at as int));
                assert(kept@.take(at + 1).last() == kept@[at as int]);
                lemma_inserted_prefix(kept@, at + 1);
                assert(is_aligned(before, kept@[at as int]));
                crate::byte_text::lemma_boundary_in_text(before, edit.range.end as int);
                crate::byte_text::lemma_boundary_in_text(before, edit.range.start as int);
            }
            parsed =
            edit_and_parse(&mut text, &mut syntax, edit, self.config.parse_timeout, loader);
            proof {
                if parsed is Ok {
                    let before_it = versions;
                    versions = versions.push((rope_text(text), syntax.view()));
                    assert forall|i: int|
                        #![trigger kept@.take(at + 1)[i]]
                        0 <= i < at + 1 implies is_reparsed(
                        versions[i],
                        versions[i + 1],
                        syntax.root,
                        seq![kept@.take(at + 1)[i]],
                        loader,
                    ) by {
                        if i < at {
                            assert(kept@.take(at as int)[i] == kept@.take(at + 1)[i]);
                            assert(versions[i] == before_it[i]);
                            assert(versions[i + 1] == before_it[i + 1]);
                        }
                    }
                    assert forall|i: int| 0 < i <= at + 1 implies (#[trigger] edited_in_turn(
                        bytes,
                        kept@.take(i),
                    )).len() < MAX_SOURCE_BYTES by {
                        if i == at + 1 {
                            assert(kept@.take(i) =~= kept@.take(at + 1));
                        }
                    }
                } else {
                    assert(are_versions(versions, self@.root, kept@.take(at as int), loader));
                    if parsed == Err::<(), _>(EngineError::ExceededMaximumSize) {
                        assert(edited_in_turn(bytes, kept@.take(at + 1)).len()
                            >= MAX_SOURCE_BYTES);
                    }
                }
            }
            at = at + 1;
        }
        assert(parsed is Ok ==> kept@.take(at as int) =~= kept@);
        self.take_over(text, syntax, changed_ranges, parsed)
    }
}

/// What an edit has put into a document can be read where the edit began, moved by what the edits
/// before it have put in and taken out.
pub proof fn lemma_edits_read_back(
    before: Seq<char>,
    after: Seq<char>,
    edits: Seq<TextEdit>,
    at: int,
)
    requires
        normalized(before, edits) matches Some(kept) && 0 <= at < kept.len() && encode_utf8(after)
            == edited(encode_utf8(before), kept),
        aligned_until_invalid(before, edits),
    ensures
        ({
            let kept = normalized(before, edits)->0;
            let start = kept[at].range.start + shift_of_all(kept.take(at));
            between(after, start, start + byte_len(kept[at].replacement@)) == kept[at].replacement@
        }),
{
    let kept = normalized(before, edits)->0;
    lemma_normalized(before, edits);
    assert forall|i: int| 0 <= i < kept.len() implies (#[trigger] kept[i]).range.start
        <= kept[i].range.end <= byte_len(before) by {
        assert(is_aligned(before, kept[i]));
        crate::byte_text::lemma_boundary_in_text(before, kept[i].range.end as int);
    }
    lemma_edited_reads_back(encode_utf8(before), kept, at);
    encode_utf8_decode_utf8(kept[at].replacement@);
}

/// Edits that all replace a part of the document by what is there leave it as it is.
pub proof fn lemma_noops_are_left_out(text: Seq<char>, edits: Seq<TextEdit>)
    requires
        all_in_range(text, edits),
        forall|i: int| 0 <= i < edits.len() ==> is_noop(text, #[trigger] edits[i]),
    ensures
        normalized(text, edits) == Some(Seq::<TextEdit>::empty()),
{
    lemma_noops_not_effective(text, edits);
    reveal_with_fuel(stably_ordered, 2);
}

proof fn lemma_noops_not_effective(text: Seq<char>, edits: Seq<TextEdit>)
    requires
        forall|i: int| 0 <= i < edits.len() ==> is_noop(text, #[trigger] edits[i]),
    ensures
        effective(text, edits) == Seq::<TextEdit>::empty(),
    decreases edits.len(),
{
    if edits.len() > 0 {
        assert(is_noop(text, edits[edits.len() - 1]));
        assert forall|i: int| 0 <= i < edits.drop_last().len() implies is_noop(
            text,
            #[trigger] edits.drop_last()[i],
        ) by {
            assert(edits.drop_last()[i] == edits[i]);
        }
        lemma_noops_not_effective(text, edits.drop_last());
    }
}

/// The ranges that an update reports cover the bytes that its edits touch, before and after, and no
/// others, and do not touch each other.
pub proof fn lemma_changed_ranges_cover_the_edits(text: Seq<char>, edits: Seq<TextEdit>)
    requires
        normalized(text, edits) is Some,
        aligned_until_invalid(text, edits),
        byte_len(text) + inserted_total(edits) <= u32::MAX,
    ensures
        ({
            let kept = normalized(text, edits)->0;
            &&& forall|byte: int| #[trigger]
                covers(touched(kept), byte) <==> exists|i: int|
                    0 <= i < kept.len() && (#[trigger] kept[i]).range.start <= byte && (byte
                        < kept[i].range.end || byte < new_end(kept[i]))
            &&& forall|i: int, j: int|
                0 <= i < j < touched(kept).len() ==> (#[trigger] touched(kept)[i]).end < (
                #[trigger] touched(kept)[j]).start
        }),
{
    let kept = normalized(text, edits)->0;
    let ranges = Seq::new(kept.len(), |i: int| invalidated(kept[i]));
    lemma_normalized(text, edits);
    lemma_inserted_normalized(text, edits);
    assert forall|i: int| 0 <= i < kept.len() implies (#[trigger] kept[i]).range.start
        <= kept[i].range.end && new_end(kept[i]) <= u32::MAX by {
        assert(is_aligned(text, kept[i]));
        crate::byte_text::lemma_boundary_in_text(text, kept[i].range.end as int);
        lemma_inserted_part(kept, i);
    }
    assert(in_key_order(ranges)) by {
        assert forall|i: int, j: int| 0 <= i < j < ranges.len() implies (
        #[trigger] ranges[i]).order_key() <= (#[trigger] ranges[j]).order_key() by {
            assert(kept[i].order_key() <= kept[j].order_key());
        }
    }
    lemma_coalesced_covers_the_same(ranges);
    assert forall|byte: int| #[trigger] covers(touched(kept), byte) <==> exists|i: int|
        0 <= i < kept.len() && (#[trigger] kept[i]).range.start <= byte && (byte
            < kept[i].range.end || byte < new_end(kept[i])) by {
        assert(covers(touched(kept), byte) <==> covers(ranges, byte));
        if covers(ranges, byte) {
            let i = choose|i: int|
                0 <= i < ranges.len() && (#[trigger] ranges[i]).start <= byte < ranges[i].end;
            assert(kept[i].range.start <= byte);
        }
        if exists|i: int|
            0 <= i < kept.len() && (#[trigger] kept[i]).range.start <= byte && (byte
                < kept[i].range.end || byte < new_end(kept[i])) {
            let i = choose|i: int|
                0 <= i < kept.len() && (#[trigger] kept[i]).range.start <= byte && (byte
                    < kept[i].range.end || byte < new_end(kept[i]));
            assert(ranges[i].start <= byte < ranges[i].end);
        }
    }
}

/// What edits of a session come to. Where nothing is left of them, or the time is up, the session
/// stays and says so; else its text is the edited one, its revision and its snapshot are the next
/// ones, and it says so. In each case the language and how it is parsed stay. An error leaves the
/// session as it is, and is never that the time was up.
pub proof fn lemma_what_edits_come_to<L: LanguageLoader>(
    before: SessionView,
    after: SessionView,
    kept: Seq<TextEdit>,
    loader: &L,
    res: Result<UpdateResult, EngineError>,
)
    requires
        is_edited(before, after, kept, loader, res),
    ensures
        after.language == before.language,
        after.config == before.config,
        res is Err ==> after == before && kept.len() > 0,
        res matches Err(error) ==> error != EngineError::Timeout,
        res matches Ok(result) ==> {
            &&& result.snapshot_changed <==> kept.len() > 0 && !result.timed_out
            &&& result.timed_out ==> kept.len() > 0
            &&& result.revision == after.revision
            &&& result.snapshot_id == after.snapshot_id
            &&& result.affected_layers == after.layers.len() as usize
            &&& kept.len() == 0 ==> result.changed_ranges@.len() == 0
            &&& !result.snapshot_changed ==> after == before
            &&& result.snapshot_changed ==> {
                &&& encode_utf8(after.text) == edited(encode_utf8(before.text), kept)
                &&& before.revision.0 < u64::MAX ==> after.revision.0 == before.revision.0 + 1
                &&& before.snapshot_id.0 < u64::MAX ==> after.snapshot_id.0 == before.snapshot_id.0
                    + 1
                &&& before.generation < u64::MAX ==> after.generation == before.generation + 1
                &&& after.root == before.root
            }
        },
{
}

/// What edits of a session that are applied one after the other come to.
pub proof fn lemma_what_edits_in_turn_come_to<L: LanguageLoader>(
    before: SessionView,
    after: SessionView,
    kept: Seq<TextEdit>,
    loader: &L,
    res: Result<UpdateResult, EngineError>,
)
    requires
        is_edited_in_turn(before, after, kept, loader, res),
    ensures
        after.language == before.language,
        after.config == before.config,
        res is Err ==> after == before && kept.len() > 0,
        res matches Err(error) ==> error != EngineError::Timeout,
        res matches Ok(result) ==> {
            &&& result.snapshot_changed <==> kept.len() > 0 && !result.timed_out
            &&& result.timed_out ==> kept.len() > 0
            &&& result.revision == after.revision
            &&& result.snapshot_id == after.snapshot_id
            &&& result.affected_layers == after.layers.len() as usize
            &&& kept.len() == 0 ==> result.changed_ranges@.len() == 0
            &&& !result.snapshot_changed ==> after == before
            &&& result.snapshot_changed ==> {
                &&& encode_utf8(after.text) == edited_in_turn(encode_utf8(before.text), kept)
                &&& before.revision.0 < u64::MAX ==> after.revision.0 == before.revision.0 + 1
                &&& before.snapshot_id.0 < u64::MAX ==> after.snapshot_id.0 == before.snapshot_id.0
                    + 1
                &&& after.root == before.root
            }
        },
{
}

/// What a session reports of edits, whether they were taken over or the time was up, are the bytes
/// that the edits touch.
pub proof fn lemma_reported_ranges<L: LanguageLoader>(
    before: SessionView,
    after: SessionView,
    kept: Seq<TextEdit>,
    loader: &L,
    result: UpdateResult,
)
    requires
        is_edited(before, after, kept, loader, Ok(result)),
        forall|i: int|
            0 <= i < kept.len() ==> (#[trigger] kept[i]).range.start <= kept[i].range.end
                && new_end(kept[i]) <= u32::MAX,
        in_key_order(kept),
    ensures
        forall|byte: int| #[trigger]
            covers(result.changed_ranges@, byte) <==> exists|i: int|
                0 <= i < kept.len() && (#[trigger] kept[i]).range.start <= byte && (byte
                    < kept[i].range.end || byte < kept[i].range.start + byte_len(
                    kept[i].replacement@,
                )),
{
    let ranges = Seq::new(kept.len(), |i: int| invalidated(kept[i]));
    assert(in_key_order(ranges)) by {
        assert forall|i: int, j: int| 0 <= i < j < ranges.len() implies (
        #[trigger] ranges[i]).order_key() <= (#[trigger] ranges[j]).order_key() by {
            assert(kept[i].order_key() <= kept[j].order_key());
        }
    }
    lemma_coalesced_covers_the_same(ranges);
    if kept.len() > 0 {
        assert(result.changed_ranges@ == coalesced(ranges));
    }
    assert forall|byte: int| #[trigger] covers(result.changed_ranges@, byte) <==> exists|i: int|
        0 <= i < kept.len() && (#[trigger] kept[i]).range.start <= byte && (byte
            < kept[i].range.end || byte < kept[i].range.start + byte_len(kept[i].replacement@)) by {
        if kept.len() > 0 {
            assert(covers(coalesced(ranges), byte) <==> covers(ranges, byte));
            if covers(ranges, byte) {
                let i = choose|i: int|
                    0 <= i < ranges.len() && (#[trigger] ranges[i]).start <= byte < ranges[i].end;
                assert(kept[i].range.start <= byte);
            }
            if exists|i: int|
                0 <= i < kept.len() && (#[trigger] kept[i]).range.start <= byte && (byte
                    < kept[i].range.end || byte < kept[i].range.start + byte_len(
                    kept[i].replacement@,
                )) {
                let i = choose|i: int|
                    0 <= i < kept.len() && (#[trigger] kept[i]).range.start <= byte && (byte
                        < kept[i].range.end || byte < kept[i].range.start + byte_len(
                        kept[i].replacement@,
                    ));
                assert(ranges[i].start <= byte < ranges[i].end);
            }
        }
    }
}

/// Edits that are followed in turn are parsed one by one, each against what came of those before
/// it. Without edits nothing changes, and one edit is followed as it would be alone.
pub proof fn lemma_followed_one_by_one<L: LanguageLoader>(
    before: SessionView,
    after: SessionView,
    kept: Seq<TextEdit>,
    loader: &L,
)
    requires
        is_followed_in_turn(before, after, kept, loader),
    ensures
        after.root == before.root,
        kept.len() == 0 ==> after.text == before.text && after.layers == before.layers,
        kept.len() == 1 ==> is_followed(before, after, kept, loader),
        kept.len() > 0 ==> exists|middle: SessionView| #[trigger]
            is_followed_in_turn(before, middle, kept.drop_last(), loader) && is_followed(
                middle,
                after,
                seq![kept.last()],
                loader,
            ),
{
    let versions = choose|versions: Seq<(Seq<char>, Map<usize, LayerView>)>| #[trigger]
        are_versions(versions, before.root, kept, loader) && versions[0] == (
            before.text,
            before.layers,
        ) && versions.last() == (after.text, after.layers);
    if kept.len() > 0 {
        let last = kept.len() - 1;
        let front = kept.drop_last();
        let fewer = versions.drop_last();
        let middle = SessionView { text: versions[last].0, layers: versions[last].1, ..before };
        assert(kept[last] == kept.last());
        assert(fewer.last() == versions[last]);
        assert(versions[last + 1] == versions.last());
        assert forall|i: int|
            #![trigger front[i]]
            0 <= i < front.len() implies is_reparsed(
            fewer[i],
            fewer[i + 1],
            before.root,
            seq![front[i]],
            loader,
        ) by {
            assert(kept[i] == front[i]);
        }
        assert(are_versions(fewer, before.root, front, loader));
        assert(is_followed_in_turn(before, middle, front, loader));
        assert(is_followed(middle, after, seq![kept.last()], loader));
        if kept.len() == 1 {
            assert(kept =~= seq![kept[0]]);
        }
    }
}

/// What a session reports: that time was up, that there is a new snapshot, or neither. It always
/// tells its own revision, its snapshot, and how many layers it has.
pub proof fn lemma_reports(session: SessionView, ranges: Seq<Range<u32>>)
    ensures
        ({
            let (none, late, done) = (
                session.unchanged(),
                session.timed_out(ranges),
                session.changed(ranges),
            );
            &&& !none.timed_out && !none.snapshot_changed && none.changed_ranges.len() == 0
            &&& late.timed_out && !late.snapshot_changed && late.changed_ranges == ranges
            &&& !done.timed_out && done.snapshot_changed && done.changed_ranges == ranges
            &&& none.revision == session.revision && none.snapshot_id == session.snapshot_id
            &&& late.revision == session.revision && late.snapshot_id == session.snapshot_id
            &&& done.revision == session.revision && done.snapshot_id == session.snapshot_id
            &&& none.affected_layers == session.layers.len() as usize
            &&& late.affected_layers == session.layers.len() as usize
            &&& done.affected_layers == session.layers.len() as usize
        }),
{
}

} // verus!
