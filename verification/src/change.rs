//! Edits of a document, and what comes of them.

use crate::ordering::Keyed;
use crate::types::copy_range;
use std::ops::Range;
use vstd::prelude::*;

verus! {

/// Replaces a byte range by a text.
#[derive(Debug, PartialEq, Eq)]
pub struct TextEdit {
    pub range: Range<u32>,
    pub replacement: String,
}

impl Clone for TextEdit {
    fn clone(&self) -> (copy: Self)
        ensures
            copy == *self,
    {
        TextEdit { range: copy_range(&self.range), replacement: self.replacement.clone() }
    }
}

impl TextEdit {
    /// An edit that replaces `range` by `replacement`.
    pub fn new(range: Range<u32>, replacement: &str) -> (edit: Self)
        ensures
            edit.range == range,
            edit.replacement@ == replacement@,
    {
        TextEdit { range, replacement: replacement.to_owned() }
    }
}

impl Keyed for TextEdit {
    open spec fn order_key(&self) -> u64 {
        self.range.start as u64
    }

    fn key(&self) -> u64 {
        self.range.start as u64
    }
}

/// Edits that are all meant for one and the same document.
#[derive(Debug, PartialEq, Eq)]
pub struct ChangeSet {
    edits: Vec<TextEdit>,
}

impl View for ChangeSet {
    type V = Seq<TextEdit>;

    closed spec fn view(&self) -> Seq<TextEdit> {
        self.edits@
    }
}

impl ChangeSet {
    /// The edits of a vector.
    pub fn new(edits: Vec<TextEdit>) -> (changes: Self)
        ensures
            changes@ == edits@,
    {
        ChangeSet { edits }
    }

    /// One edit.
    pub fn single(range: Range<u32>, replacement: &str) -> (changes: Self)
        ensures
            changes@.len() == 1,
            changes@[0].range == range,
            changes@[0].replacement@ == replacement@,
    {
        let mut edits: Vec<TextEdit> = Vec::new();
        edits.push(TextEdit::new(range, replacement));
        ChangeSet { edits }
    }

    /// The edits in their order.
    pub fn iter(&self) -> (edits: &[TextEdit])
        ensures
            edits@ == self@,
    {
        self.edits.as_slice()
    }

    /// Tells whether there are no edits.
    pub fn is_empty(&self) -> (empty: bool)
        ensures
            empty == (self@.len() == 0),
    {
        self.edits.len() == 0
    }
}

/// How often a document has changed.
#[derive(Debug, Clone, Copy, PartialEq, Eq, Structural, Hash)]
pub struct Revision(pub u64);

/// A state of a document.
#[derive(Debug, Clone, Copy, PartialEq, Eq, Structural, Hash)]
pub struct SnapshotId(pub u64);

/// What came of some edits.
#[derive(Debug, PartialEq, Eq)]
pub struct UpdateResult {
    pub revision: Revision,
    pub snapshot_id: SnapshotId,
    /// The bytes whose meaning may have changed.
    pub changed_ranges: Vec<Range<u32>>,
    pub timed_out: bool,
    pub snapshot_changed: bool,
    pub affected_layers: usize,
}

/// What came of some edits, with the ranges as a sequence.
pub struct UpdateView {
    pub revision: Revision,
    pub snapshot_id: SnapshotId,
    pub changed_ranges: Seq<Range<u32>>,
    pub timed_out: bool,
    pub snapshot_changed: bool,
    pub affected_layers: usize,
}

impl View for UpdateResult {
    type V = UpdateView;

    open spec fn view(&self) -> UpdateView {
        UpdateView {
            revision: self.revision,
            snapshot_id: self.snapshot_id,
            changed_ranges: self.changed_ranges@,
            timed_out: self.timed_out,
            snapshot_changed: self.snapshot_changed,
            affected_layers: self.affected_layers,
        }
    }
}

} // verus!
