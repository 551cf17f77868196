use vstd::prelude::*;

verus! {

/// Why an annotation was rejected. The two fields of each variant are the
/// start and the end of the offending range.
#[derive(Debug, Clone, Copy, PartialEq, Eq, Structural)]
#[non_exhaustive]
pub enum Error {
    /// The range is longer than the content of the line that owns its start.
    MultilineRange(usize, usize),
    /// The range ends before it starts.
    InvalidRange(usize, usize),
    /// The start of the range lies on no line's content.
    AfterStringEnd(usize, usize),
}

} // verus!
