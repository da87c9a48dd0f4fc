//! A verified reader for heap-profiler snapshot reports in the massif text
//! format: three header lines, then zero or more snapshot blocks.
//!
//! A document is a sequence of bytes. Every parser takes the whole document
//! and the position at which it is to read; what it returns is stated against
//! the grammar, which is written down as functions over `Seq<u8>`.

use vstd::prelude::*;
use crate::error::ParseError;
use crate::header::{empty_header, header_at, read_header, Header, HeaderView};
use crate::snapshot::{parse_snapshots, snapshots_from, Snapshot};

pub mod canonical;
pub mod cursor;
pub mod error;
pub mod header;
pub mod human;
pub mod locality;
pub mod number;
pub mod snapshot;

verus! {

/// A parsed document: its header, and its snapshots in the order in which
/// their blocks stand in the text.
#[derive(Debug, PartialEq, Eq)]
pub struct Output {
    pub header: Header,
    pub snapshots: Vec<Snapshot>,
}

/// What a parsed document holds.
pub ghost struct OutputView {
    pub header: HeaderView,
    pub snapshots: Seq<Snapshot>,
}

impl View for Output {
    type V = OutputView;

    open spec fn view(&self) -> OutputView {
        OutputView { header: self.header@, snapshots: self.snapshots@ }
    }
}

impl Default for Output {
    /// The document with the default header and no snapshot.
    fn default() -> (r: Output)
        ensures
            r@ == (OutputView { header: empty_header(), snapshots: Seq::empty() }),
    {
        Output { header: Header::default(), snapshots: Vec::new() }
    }
}

/// What the document `s` holds: its header, then the snapshot section that
/// runs from behind the header to the end of the text. The first fault met
/// fails the whole document.
pub open spec fn document(s: Seq<u8>) -> Result<OutputView, ParseError> {
    match header_at(s) {
        Err(e) => Err(e),
        Ok((header, at_snapshots)) => match snapshots_from(s, at_snapshots) {
            Err(e) => Err(e),
            Ok(snapshots) => Ok(OutputView { header, snapshots }),
        },
    }
}

/// What a result of `parse` holds: the model of the document, or the fault.
pub open spec fn outcome(r: Result<Output, ParseError>) -> Result<OutputView, ParseError> {
    match r {
        Ok(output) => Ok(output@),
        Err(e) => Err(e),
    }
}

/// Parses the document `input`. Returns the whole model or the first fault;
/// never part of a model.
pub fn parse(input: &[u8]) -> (r: Result<Output, ParseError>)
    ensures
        outcome(r) == document(input@),
{
    let (header, at_snapshots) = match read_header(input) {
        Err(e) => { return Err(e); },
        Ok(found) => found,
    };
    match parse_snapshots(input, at_snapshots) {
        Err(e) => Err(e),
        Ok(snapshots) => Ok(Output { header, snapshots }),
    }
}

/// Parsing keeps no state: any two results of `parse` on the same text hold
/// the same model, or the same fault.
pub proof fn lemma_parse_twice(
    text: Seq<u8>,
    first: Result<Output, ParseError>,
    second: Result<Output, ParseError>,
)
    requires
        outcome(first) == document(text),
        outcome(second) == document(text),
    ensures
        outcome(first) == outcome(second),
{
}

/// A document that ends with its header is valid and has no snapshot.
pub proof fn lemma_header_only(s: Seq<u8>)
    requires
        header_at(s) matches Ok((_, at_snapshots)) && at_snapshots == s.len(),
    ensures
        document(s) == Ok::<OutputView, ParseError>(
            OutputView { header: header_at(s)->Ok_0.0, snapshots: Seq::empty() },
        ),
{
}

} // verus!
