//! Source locations.

use vstd::prelude::*;

verus! {

/// A span of source text: the index of the source file it lies in and
/// the byte offsets of its start and end.
#[derive(Debug, Clone, Copy, PartialEq, Eq, Structural)]
pub struct Loc {
    pub file: usize,
    pub start: usize,
    pub end: usize,
}

impl Loc {
    pub fn new(file: usize, start: usize, end: usize) -> (r: Loc)
        ensures
            r == (Loc { file, start, end }),
    {
        Loc { file, start, end }
    }
}

/// A location wrapped for diagnostic rendering; rendering itself is
/// outside this crate, which only guarantees the span accessors.
#[derive(Debug, Clone, Copy, PartialEq, Eq, Structural)]
pub struct LocSpan(pub Loc);

impl LocSpan {
    pub fn source(&self) -> (r: usize)
        ensures
            r == self.0.file,
    {
        self.0.file
    }

    pub fn start(&self) -> (r: usize)
        ensures
            r == self.0.start,
    {
        self.0.start
    }

    pub fn end(&self) -> (r: usize)
        ensures
            r == self.0.end,
    {
        self.0.end
    }
}

} // verus!
