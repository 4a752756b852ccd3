//! Text offsets and ranges, counted in bytes of UTF-8.

use vstd::prelude::*;

verus! {

/// An offset into a text, or the length of a text.
#[derive(Debug, Clone, Copy, PartialEq, Eq, Structural, PartialOrd, Ord, Hash)]
pub struct TextSize {
    pub raw: u32,
}

impl From<u32> for TextSize {
    fn from(raw: u32) -> (size: TextSize) {
        TextSize { raw }
    }
}

impl vstd::std_specs::convert::FromSpecImpl<u32> for TextSize {
    open spec fn obeys_from_spec() -> bool {
        true
    }

    open spec fn from_spec(raw: u32) -> TextSize {
        TextSize { raw }
    }
}

/// A range of a text: from `start`, up to and without `end`.
#[derive(Debug, Clone, Copy, PartialEq, Eq, Structural, Hash)]
pub struct TextRange {
    pub start: TextSize,
    pub end: TextSize,
}

impl TextRange {
    /// A range does not end before it starts.
    pub open spec fn wf(self) -> bool {
        self.start.raw <= self.end.raw
    }

    /// `self` lies between the offsets `start` and `end`.
    pub open spec fn within(self, start: int, end: int) -> bool {
        start <= self.start.raw && self.end.raw <= end
    }

    /// The range from `start` to `end`.
    pub fn new(start: TextSize, end: TextSize) -> (range: TextRange)
        requires
            start.raw <= end.raw,
        ensures
            range.wf(),
            range.start == start,
            range.end == end,
    {
        TextRange { start, end }
    }

    /// The range of `len` bytes that starts at `offset`.
    pub fn at(offset: TextSize, len: TextSize) -> (range: TextRange)
        requires
            offset.raw + len.raw <= u32::MAX,
        ensures
            range.wf(),
            range.start == offset,
            range.end.raw == offset.raw + len.raw,
    {
        TextRange { start: offset, end: TextSize { raw: offset.raw + len.raw } }
    }

    pub fn start(&self) -> (start: TextSize)
        ensures
            start == self.start,
    {
        self.start
    }

    pub fn end(&self) -> (end: TextSize)
        ensures
            end == self.end,
    {
        self.end
    }

    /// The number of bytes in the range.
    pub fn len(&self) -> (len: TextSize)
        requires
            self.wf(),
        ensures
            len.raw == self.end.raw - self.start.raw,
    {
        TextSize { raw: self.end.raw - self.start.raw }
    }

    pub fn is_empty(&self) -> (empty: bool)
        ensures
            empty == (self.start == self.end),
    {
        self.start.raw == self.end.raw
    }

    /// Whether `other` lies within `self`.
    pub fn contains_range(&self, other: TextRange) -> (contains: bool)
        ensures
            contains == other.within(self.start.raw as int, self.end.raw as int),
    {
        self.start.raw <= other.start.raw && other.end.raw <= self.end.raw
    }

    /// The same range, counted from `base` and not from zero.
    pub fn relative_to(&self, base: TextSize) -> (range: TextRange)
        requires
            self.wf(),
            base.raw <= self.start.raw,
        ensures
            range.wf(),
            range.start.raw == self.start.raw - base.raw,
            range.end.raw == self.end.raw - base.raw,
    {
        TextRange {
            start: TextSize { raw: self.start.raw - base.raw },
            end: TextSize { raw: self.end.raw - base.raw },
        }
    }
}

} // verus!
