//! What a failed parse reports.

use vstd::prelude::*;

verus! {

/// Why one of the line primitives gave up.
#[derive(Clone, Copy, Debug, PartialEq, Eq, Structural)]
pub enum LineError {
    /// The text ends before a line terminator is found.
    MalformedInput,
    /// The line does not begin with the literal that was asked for.
    UnexpectedToken,
}

/// The class of a parse failure.
#[derive(Clone, Copy, Debug, PartialEq, Eq, Structural)]
pub enum ErrorKind {
    /// A required line is absent, carries the wrong key, or holds text that is
    /// no number where a number is required.
    MalformedInput,
    /// The tree line names a kind other than `empty`, `detailed` or `peak`.
    UnrecognizedEnum,
    /// Text remains after the last snapshot block, and no block begins there.
    TrailingData,
}

/// The element of the grammar that a parser was looking for.
#[derive(Clone, Copy, Debug, PartialEq, Eq, Structural)]
pub enum Construct {
    /// The `desc: ` line.
    Description,
    /// The `cmd: ` line.
    Command,
    /// The `time_unit: ` line.
    TimeUnit,
    /// A separator line.
    Delimiter,
    /// The `snapshot=` line.
    SnapshotIndex,
    /// The `time=` line.
    Time,
    /// The `mem_heap_B=` line.
    HeapBytes,
    /// The `mem_heap_extra_B=` line.
    HeapExtraBytes,
    /// The `mem_stacks_B=` line.
    StackBytes,
    /// The `heap_tree=` line.
    TreeKind,
}

/// A parse failure: its class, the construct that was expected, and the byte
/// offset in the document of the line at which it was expected.
#[derive(Clone, Copy, Debug, PartialEq, Eq, Structural)]
pub struct ParseError {
    /// The class of the failure.
    pub kind: ErrorKind,
    /// What the parser was looking for.
    pub expected: Construct,
    /// The byte offset at which the line begins where it was looking.
    pub offset: usize,
}

/// The failure for a line at `offset` that is absent, wrongly keyed or not numeric.
pub open spec fn malformed(offset: int, expected: Construct) -> ParseError {
    ParseError { kind: ErrorKind::MalformedInput, expected, offset: offset as usize }
}

/// The failure for a tree line at `offset` that names an unknown kind.
pub open spec fn unrecognized(offset: int) -> ParseError {
    ParseError {
        kind: ErrorKind::UnrecognizedEnum,
        expected: Construct::TreeKind,
        offset: offset as usize,
    }
}

/// The failure for text at `offset` that follows the last block and opens no new one.
pub open spec fn trailing(offset: int) -> ParseError {
    ParseError {
        kind: ErrorKind::TrailingData,
        expected: Construct::Delimiter,
        offset: offset as usize,
    }
}

/// What a parser that reads a value at a position returned (`r`) is what the
/// grammar gives for that position (`m`): the same value and the same next
/// position, or the same failure.
pub open spec fn agrees<T>(r: Result<(T, usize), ParseError>, m: Result<(T, int), ParseError>) -> bool {
    match r {
        Ok((v, next)) => m == Ok::<(T, int), ParseError>((v, next as int)),
        Err(e) => m == Err::<(T, int), ParseError>(e),
    }
}

} // verus!
