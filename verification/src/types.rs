//! Plain values shared by the syntax engine: languages, layers, positions and edits.
use std::ops::Range;
use vstd::prelude::*;

verus! {

/// A language, as a token that only the loader which handed it out can interpret.
#[derive(Debug, Clone, Copy, PartialEq, Eq, Structural, Hash)]
pub struct Language(pub u32);

impl Language {
    /// Creates the language with the given number.
    pub fn new(raw: u32) -> (language: Self)
        ensures
            language.0 == raw,
    {
        Language(raw)
    }

    /// Creates the language with the given number.
    pub fn from_raw(raw: u32) -> (language: Self)
        ensures
            language.0 == raw,
    {
        Language(raw)
    }

    /// The position of this language in its loader's tables.
    pub fn idx(self) -> (idx: usize)
        ensures
            idx == self.0,
    {
        self.0 as usize
    }
}

/// A highlight, as a token that the caller maps to a style.
#[derive(Debug, Clone, Copy, PartialEq, Eq, Structural, Hash)]
pub struct Highlight(pub u32);

impl Highlight {
    /// Creates the highlight with the given number.
    pub fn new(raw: u32) -> (highlight: Self)
        ensures
            highlight.0 == raw,
    {
        Highlight(raw)
    }

    /// The number of this highlight.
    pub fn get(self) -> (raw: u32)
        ensures
            raw == self.0,
    {
        self.0
    }
}

/// One syntax layer of a document.
#[derive(Debug, Clone, Copy, PartialEq, Eq, Structural, Hash)]
pub struct Layer(pub usize);

impl Layer {
    /// The key of this layer in the layer store.
    pub fn idx(self) -> (idx: usize)
        ensures
            idx == self.0,
    {
        self.0
    }
}

/// A pattern of a query, by its position in the query text.
#[derive(Debug, Clone, Copy, PartialEq, Eq, Structural, Hash)]
pub struct Pattern(pub u32);

impl Pattern {
    /// The position of this pattern among the patterns of its query.
    pub fn idx(self) -> (idx: usize)
        ensures
            idx == self.0,
    {
        self.0 as usize
    }
}

/// A capture of a query, by its number.
#[derive(Debug, Clone, Copy, PartialEq, Eq, Structural, Hash)]
pub struct Capture(pub u32);

impl Capture {
    /// The number of this capture.
    pub fn idx(self) -> (idx: usize)
        ensures
            idx == self.0,
    {
        self.0 as usize
    }
}

/// A row and a column, the column counted in bytes.
#[derive(Debug, Clone, Copy, PartialEq, Eq, Structural, Hash)]
pub struct Point {
    pub row: u32,
    pub col: u32,
}

/// A replacement of `start_byte..old_end_byte` by text that ends at `new_end_byte`.
#[derive(Debug, Clone, Copy, PartialEq, Eq, Structural)]
pub struct InputEdit {
    pub start_byte: u32,
    pub old_end_byte: u32,
    pub new_end_byte: u32,
    pub start_point: Point,
    pub old_end_point: Point,
    pub new_end_point: Point,
}

impl InputEdit {
    /// By how many bytes the edit moves what follows it.
    pub open spec fn shift(self) -> int {
        self.new_end_byte - self.old_end_byte
    }

    /// The edit ends below the limit of two gibibytes, before and after.
    pub open spec fn is_small(self) -> bool {
        &&& self.old_end_byte <= i32::MAX
        &&& self.new_end_byte <= i32::MAX
    }

    /// Returns by how many bytes the edit moves what follows it.
    pub fn offset(&self) -> (offset: i32)
        requires
            self.is_small(),
        ensures
            offset == self.shift(),
    {
        self.new_end_byte as i32 - self.old_end_byte as i32
    }
}

/// A part of a document that is parsed by another layer than the one that surrounds it.
#[derive(Debug, PartialEq, Eq)]
pub struct Injection {
    /// The injected bytes.
    pub range: Range<u32>,
    /// The layer that parses them.
    pub layer: Layer,
    /// The node whose match put the injection there.
    pub matched_node_range: Range<u32>,
}

impl Clone for Injection {
    fn clone(&self) -> (copy: Self)
        ensures
            copy == *self,
    {
        Injection {
            range: copy_range(&self.range),
            layer: self.layer,
            matched_node_range: copy_range(&self.matched_node_range),
        }
    }
}

/// Tells whether two ranges have the same ends.
pub fn same_range(a: &Range<u32>, b: &Range<u32>) -> (same: bool)
    ensures
        same == (*a == *b),
{
    a.start == b.start && a.end == b.end
}

/// Returns a copy of a range.
pub fn copy_range(range: &Range<u32>) -> (copy: Range<u32>)
    ensures
        copy == *range,
{
    range.start..range.end
}

} // verus!
