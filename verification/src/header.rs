//! The document header: the description, command and time unit lines.

use vstd::prelude::*;
use vstd::slice::slice_to_vec;
use vstd::string::StringSliceAdditionalSpecFns;
use crate::cursor::{has_key, key_value, lemma_line_advances, line_next, same_bytes, split_line_by};
use crate::error::{malformed, Construct, ErrorKind, ParseError};

verus! {

/// The key of the description line.
pub const DESC_KEY: &'static str = "desc: ";

/// The key of the command line.
pub const CMD_KEY: &'static str = "cmd: ";

/// The key of the time unit line.
pub const TIME_UNIT_KEY: &'static str = "time_unit: ";

/// The value of a description line that gives no description.
pub const NO_DESCRIPTION: &'static str = "(none)";

/// The header of a document. Each text is kept as the bytes that follow the
/// key on its line, up to the line's end.
#[derive(Debug, PartialEq, Eq)]
pub struct Header {
    description: Option<Vec<u8>>,
    command: Vec<u8>,
    time_unit: Vec<u8>,
}

/// What a header holds.
pub ghost struct HeaderView {
    pub description: Option<Seq<u8>>,
    pub command: Seq<u8>,
    pub time_unit: Seq<u8>,
}

impl View for Header {
    type V = HeaderView;

    closed spec fn view(&self) -> HeaderView {
        HeaderView {
            description: match self.description {
                Some(text) => Some(text@),
                None => None,
            },
            command: self.command@,
            time_unit: self.time_unit@,
        }
    }
}

/// The bytes of a text that may be absent.
pub open spec fn text_of(text: Option<&[u8]>) -> Option<Seq<u8>> {
    match text {
        Some(bytes) => Some(bytes@),
        None => None,
    }
}

impl Header {
    /// The description, where the document gives one.
    pub fn description(&self) -> (r: Option<&[u8]>)
        ensures
            text_of(r) == self@.description,
    {
        match &self.description {
            Some(text) => Some(text.as_slice()),
            None => None,
        }
    }

    /// The command that was profiled.
    pub fn command(&self) -> (r: &[u8])
        ensures
            r@ == self@.command,
    {
        self.command.as_slice()
    }

    /// The label of the unit in which the document counts time.
    pub fn time_unit(&self) -> (r: &[u8])
        ensures
            r@ == self@.time_unit,
    {
        self.time_unit.as_slice()
    }
}

/// The header with no description and empty texts.
pub open spec fn empty_header() -> HeaderView {
    HeaderView { description: None, command: Seq::empty(), time_unit: Seq::empty() }
}

impl Default for Header {
    /// The header with no description and empty texts.
    fn default() -> (r: Header)
        ensures
            r@ == empty_header(),
    {
        Header { description: None, command: Vec::new(), time_unit: Vec::new() }
    }
}

/// The description that the value of a description line gives: none for the
/// token `(none)`, else the value as it stands.
pub open spec fn description_of(value: Seq<u8>) -> Option<Seq<u8>> {
    if value == NO_DESCRIPTION.spec_bytes() {
        None
    } else {
        Some(value)
    }
}

/// The line at `from` that carries `key` and a text.
pub open spec fn text_field_at(s: Seq<u8>, from: int, key: Seq<u8>, what: Construct) -> Result<
    (Seq<u8>, int),
    ParseError,
> {
    if has_key(s, from, key) {
        Ok((key_value(s, from, key), line_next(s, from)))
    } else {
        Err(malformed(from, what))
    }
}

/// What a parser that reads a text at a position returned (`r`) is what the
/// grammar gives for that position (`m`): the same bytes and the same next
/// position, or the same failure.
pub open spec fn text_agrees(
    r: Result<(&[u8], usize), ParseError>,
    m: Result<(Seq<u8>, int), ParseError>,
) -> bool {
    match r {
        Ok((text, next)) => m == Ok::<(Seq<u8>, int), ParseError>((text@, next as int)),
        Err(e) => m == Err::<(Seq<u8>, int), ParseError>(e),
    }
}

/// Reads the line at `start`, which must carry `key`, and returns what follows
/// the key; a failure names `what` as the construct that was expected.
pub fn parse_text_field<'a>(input: &'a [u8], start: usize, key: &[u8], what: Construct) -> (r:
    Result<(&'a [u8], usize), ParseError>)
    ensures
        text_agrees(r, text_field_at(input@, start as int, key@, what)),
{
    match split_line_by(input, start, key) {
        Err(_) => Err(ParseError { kind: ErrorKind::MalformedInput, expected: what, offset: start }),
        Ok(found) => Ok(found),
    }
}

/// The description line at `from`.
pub open spec fn desc_at(s: Seq<u8>, from: int) -> Result<(Option<Seq<u8>>, int), ParseError> {
    match text_field_at(s, from, DESC_KEY.spec_bytes(), Construct::Description) {
        Err(e) => Err(e),
        Ok((value, next)) => Ok((description_of(value), next)),
    }
}

/// Reads the description line `desc: <text>` at `start`.
pub fn get_desc<'a>(input: &'a [u8], start: usize) -> (r: Result<
    (Option<&'a [u8]>, usize),
    ParseError,
>)
    ensures
        match r {
            Ok((desc, next)) => desc_at(input@, start as int) == Ok::<
                (Option<Seq<u8>>, int),
                ParseError,
            >((text_of(desc), next as int)),
            Err(e) => desc_at(input@, start as int) == Err::<(Option<Seq<u8>>, int), ParseError>(
                e,
            ),
        },
{
    match parse_text_field(input, start, DESC_KEY.as_bytes(), Construct::Description) {
        Err(e) => Err(e),
        Ok((value, next)) => {
            if same_bytes(value, NO_DESCRIPTION.as_bytes()) {
                Ok((None, next))
            } else {
                Ok((Some(value), next))
            }
        },
    }
}

/// The command line at `from`.
pub open spec fn cmd_at(s: Seq<u8>, from: int) -> Result<(Seq<u8>, int), ParseError> {
    text_field_at(s, from, CMD_KEY.spec_bytes(), Construct::Command)
}

/// Reads the command line `cmd: <text>` at `start`.
pub fn get_cmd<'a>(input: &'a [u8], start: usize) -> (r: Result<(&'a [u8], usize), ParseError>)
    ensures
        text_agrees(r, cmd_at(input@, start as int)),
{
    parse_text_field(input, start, CMD_KEY.as_bytes(), Construct::Command)
}

/// The time unit line at `from`.
pub open spec fn time_unit_at(s: Seq<u8>, from: int) -> Result<(Seq<u8>, int), ParseError> {
    text_field_at(s, from, TIME_UNIT_KEY.spec_bytes(), Construct::TimeUnit)
}

/// Reads the time unit line `time_unit: <text>` at `start`.
pub fn get_time_unit<'a>(input: &'a [u8], start: usize) -> (r: Result<
    (&'a [u8], usize),
    ParseError,
>)
    ensures
        text_agrees(r, time_unit_at(input@, start as int)),
{
    parse_text_field(input, start, TIME_UNIT_KEY.as_bytes(), Construct::TimeUnit)
}

/// The header with which `s` begins, and the position at which the snapshot
/// section begins: the description, command and time unit lines, in that order.
pub open spec fn header_at(s: Seq<u8>) -> Result<(HeaderView, int), ParseError> {
    match desc_at(s, 0) {
        Err(e) => Err(e),
        Ok((description, at_cmd)) => match cmd_at(s, at_cmd) {
            Err(e) => Err(e),
            Ok((command, at_unit)) => match time_unit_at(s, at_unit) {
                Err(e) => Err(e),
                Ok((time_unit, next)) => Ok((HeaderView { description, command, time_unit }, next)),
            },
        },
    }
}

/// A header has no description exactly where the description line holds the
/// token `(none)` and nothing else; any other value is the description, byte
/// for byte.
pub proof fn lemma_description(s: Seq<u8>)
    requires
        header_at(s) is Ok,
    ensures
        ({
            let value = key_value(s, 0, DESC_KEY.spec_bytes());
            let description = header_at(s)->Ok_0.0.description;
            &&& description is None <==> value == NO_DESCRIPTION.spec_bytes()
            &&& description is Some ==> description == Some(value)
        }),
{
}

/// The snapshot section begins behind the header, inside the text.
pub proof fn lemma_header_advances(s: Seq<u8>)
    ensures
        header_at(s) matches Ok((_, next)) ==> 0 < next <= s.len(),
{
    if header_at(s) is Ok {
        let at_cmd = desc_at(s, 0)->Ok_0.1;
        let at_unit = cmd_at(s, at_cmd)->Ok_0.1;
        lemma_line_advances(s, 0);
        lemma_line_advances(s, at_cmd);
        lemma_line_advances(s, at_unit);
    }
}

/// Reads the three header lines from the start of `input`: returns the header
/// and the position at which the snapshot section begins.
pub fn read_header(input: &[u8]) -> (r: Result<(Header, usize), ParseError>)
    ensures
        match r {
            Ok((header, next)) => header_at(input@) == Ok::<(HeaderView, int), ParseError>(
                (header@, next as int),
            ),
            Err(e) => header_at(input@) == Err::<(HeaderView, int), ParseError>(e),
        },
{
    let (desc, at_cmd) = match get_desc(input, 0) {
        Err(e) => { return Err(e); },
        Ok(found) => found,
    };
    let (cmd, at_unit) = match get_cmd(input, at_cmd) {
        Err(e) => { return Err(e); },
        Ok(found) => found,
    };
    let (unit, next) = match get_time_unit(input, at_unit) {
        Err(e) => { return Err(e); },
        Ok(found) => found,
    };
    let description = match desc {
        Some(text) => Some(slice_to_vec(text)),
        None => None,
    };
    let header = Header { description, command: slice_to_vec(cmd), time_unit: slice_to_vec(unit) };
    Ok((header, next))
}

} // verus!
