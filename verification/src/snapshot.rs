//! Snapshot blocks: a separator, the index line, a separator, five data lines
//! and whatever tree detail follows them.

use vstd::prelude::*;
use vstd::string::StringSliceAdditionalSpecFns;
use crate::cursor::{
    first_occurrence, has_key, has_line, key_value, lemma_first_occurrence, lemma_line_advances,
    line_next, line_text, same_bytes, skip_until, split_line_by,
};
use crate::error::{
    agrees, malformed, trailing, unrecognized, Construct, ErrorKind, ParseError,
};
use crate::number::{decimal_value, parse_u32, parse_u64};

verus! {

/// The line that opens a block and closes its index.
pub const SEPARATOR: &'static str = "#-----------";

/// The key of the index line.
pub const SNAPSHOT_KEY: &'static str = "snapshot=";

/// The key of the time line.
pub const TIME_KEY: &'static str = "time=";

/// The key of the heap line.
pub const MEM_HEAP_KEY: &'static str = "mem_heap_B=";

/// The key of the heap overhead line.
pub const MEM_HEAP_EXTRA_KEY: &'static str = "mem_heap_extra_B=";

/// The key of the stack line.
pub const MEM_STACKS_KEY: &'static str = "mem_stacks_B=";

/// The key of the tree line.
pub const HEAP_TREE_KEY: &'static str = "heap_tree=";

/// The tag of a snapshot without tree detail.
pub const EMPTY_TAG: &'static str = "empty";

/// The tag of a snapshot with full tree detail.
pub const DETAILED_TAG: &'static str = "detailed";

/// The tag of the snapshot taken at the peak.
pub const PEAK_TAG: &'static str = "peak";

/// How much tree detail a snapshot carries.
#[derive(Clone, Copy, Debug, PartialEq, Eq, Structural)]
pub enum TreeKind {
    /// None.
    Empty,
    /// The full tree.
    Detailed,
    /// The full tree, of the snapshot at which the heap was largest.
    Peak,
}

/// A tree tag that names none of the three kinds.
#[derive(Clone, Copy, Debug, PartialEq, Eq, Structural)]
pub struct ParseTreeKindError;

/// The kind that `tag` names, if it names one.
pub open spec fn tree_kind_of(tag: Seq<u8>) -> Option<TreeKind> {
    if tag == EMPTY_TAG.spec_bytes() {
        Some(TreeKind::Empty)
    } else if tag == DETAILED_TAG.spec_bytes() {
        Some(TreeKind::Detailed)
    } else if tag == PEAK_TAG.spec_bytes() {
        Some(TreeKind::Peak)
    } else {
        None
    }
}

impl TreeKind {
    /// The kind that `tag` names: `empty`, `detailed` or `peak`, in lower case
    /// and with nothing around it.
    pub fn from_tag(tag: &[u8]) -> (r: Result<TreeKind, ParseTreeKindError>)
        ensures
            r matches Ok(kind) ==> tree_kind_of(tag@) == Some(kind),
            r is Err ==> tree_kind_of(tag@) is None,
    {
        if same_bytes(tag, EMPTY_TAG.as_bytes()) {
            Ok(TreeKind::Empty)
        } else if same_bytes(tag, DETAILED_TAG.as_bytes()) {
            Ok(TreeKind::Detailed)
        } else if same_bytes(tag, PEAK_TAG.as_bytes()) {
            Ok(TreeKind::Peak)
        } else {
            Err(ParseTreeKindError)
        }
    }
}

impl core::str::FromStr for TreeKind {
    type Err = ParseTreeKindError;

    fn from_str(s: &str) -> (r: Result<Self, Self::Err>)
        ensures
            r matches Ok(kind) ==> tree_kind_of(s.spec_bytes()) == Some(kind),
            r is Err ==> tree_kind_of(s.spec_bytes()) is None,
    {
        TreeKind::from_tag(s.as_bytes())
    }
}

/// One record of the profile.
#[derive(Clone, Copy, Debug, PartialEq, Eq, Structural)]
pub struct Snapshot {
    /// The index that the block declares; it need not be the block's place
    /// in the document.
    pub num: u32,
    /// The count that stands on the time line. It is kept as it stands and
    /// read as microseconds, whatever unit the header declares.
    pub time: u64,
    /// Bytes of heap in use.
    pub mem_heap: u32,
    /// Bytes of heap overhead.
    pub mem_heap_extra: u32,
    /// Bytes of stack in use.
    pub mem_stacks: u32,
    /// How much tree detail the block carries.
    pub heap_tree: TreeKind,
}

/// The separator line at `from`: the position behind it, or a failure where
/// the line there is absent or is anything but the separator.
pub open spec fn separator_at(s: Seq<u8>, from: int) -> Result<int, ParseError> {
    if has_line(s, from) && line_text(s, from) == SEPARATOR.spec_bytes() {
        Ok(line_next(s, from))
    } else {
        Err(malformed(from, Construct::Delimiter))
    }
}

/// Reads the separator line at `start` and returns the position behind it.
pub fn parse_separator(input: &[u8], start: usize) -> (r: Result<usize, ParseError>)
    ensures
        match r {
            Ok(next) => separator_at(input@, start as int) == Ok::<int, ParseError>(next as int),
            Err(e) => separator_at(input@, start as int) == Err::<int, ParseError>(e),
        },
{
    let failure = ParseError {
        kind: ErrorKind::MalformedInput,
        expected: Construct::Delimiter,
        offset: start,
    };
    match split_line_by(input, start, SEPARATOR.as_bytes()) {
        Err(_) => Err(failure),
        Ok((rest, next)) => {
            if rest.len() == 0 {
                assert(line_text(input@, start as int) =~= SEPARATOR.spec_bytes());
                Ok(next)
            } else {
                Err(failure)
            }
        },
    }
}

/// The line at `from` that carries `key` and an unsigned 32-bit number.
pub open spec fn u32_field_at(s: Seq<u8>, from: int, key: Seq<u8>, what: Construct) -> Result<
    (u32, int),
    ParseError,
> {
    if has_key(s, from, key) {
        match decimal_value(key_value(s, from, key), u32::MAX as nat) {
            Some(v) => Ok((v as u32, line_next(s, from))),
            None => Err(malformed(from, what)),
        }
    } else {
        Err(malformed(from, what))
    }
}

/// The line at `from` that carries `key` and an unsigned 64-bit number.
pub open spec fn u64_field_at(s: Seq<u8>, from: int, key: Seq<u8>, what: Construct) -> Result<
    (u64, int),
    ParseError,
> {
    if has_key(s, from, key) {
        match decimal_value(key_value(s, from, key), u64::MAX as nat) {
            Some(v) => Ok((v as u64, line_next(s, from))),
            None => Err(malformed(from, what)),
        }
    } else {
        Err(malformed(from, what))
    }
}

/// Reads the line at `start`, which must carry `key` and an unsigned 32-bit
/// number; a failure names `what` as the construct that was expected.
pub fn parse_u32_field(input: &[u8], start: usize, key: &[u8], what: Construct) -> (r: Result<
    (u32, usize),
    ParseError,
>)
    ensures
        agrees(r, u32_field_at(input@, start as int, key@, what)),
{
    let failure = ParseError { kind: ErrorKind::MalformedInput, expected: what, offset: start };
    match split_line_by(input, start, key) {
        Err(_) => Err(failure),
        Ok((value, next)) => match parse_u32(value) {
            None => Err(failure),
            Some(v) => Ok((v, next)),
        },
    }
}

/// Reads the line at `start`, which must carry `key` and an unsigned 64-bit
/// number; a failure names `what` as the construct that was expected.
pub fn parse_u64_field(input: &[u8], start: usize, key: &[u8], what: Construct) -> (r: Result<
    (u64, usize),
    ParseError,
>)
    ensures
        agrees(r, u64_field_at(input@, start as int, key@, what)),
{
    let failure = ParseError { kind: ErrorKind::MalformedInput, expected: what, offset: start };
    match split_line_by(input, start, key) {
        Err(_) => Err(failure),
        Ok((value, next)) => match parse_u64(value) {
            None => Err(failure),
            Some(v) => Ok((v, next)),
        },
    }
}

/// The index line at `from`.
pub open spec fn snapshot_num_at(s: Seq<u8>, from: int) -> Result<(u32, int), ParseError> {
    u32_field_at(s, from, SNAPSHOT_KEY.spec_bytes(), Construct::SnapshotIndex)
}

/// Reads the index line `snapshot=<number>` at `start`.
pub fn get_snapshot_num(input: &[u8], start: usize) -> (r: Result<(u32, usize), ParseError>)
    ensures
        agrees(r, snapshot_num_at(input@, start as int)),
{
    parse_u32_field(input, start, SNAPSHOT_KEY.as_bytes(), Construct::SnapshotIndex)
}

/// The opening of a block at `from`: a separator, the index line, a separator.
pub open spec fn snapshot_header_at(s: Seq<u8>, from: int) -> Result<(u32, int), ParseError> {
    match separator_at(s, from) {
        Err(e) => Err(e),
        Ok(at_num) => match snapshot_num_at(s, at_num) {
            Err(e) => Err(e),
            Ok((num, at_close)) => match separator_at(s, at_close) {
                Err(e) => Err(e),
                Ok(next) => Ok((num, next)),
            },
        },
    }
}

/// Reads the opening of a block at `start` and returns the snapshot's index.
pub fn parse_snapshot_header(input: &[u8], start: usize) -> (r: Result<(u32, usize), ParseError>)
    ensures
        agrees(r, snapshot_header_at(input@, start as int)),
{
    let at_num = match parse_separator(input, start) {
        Err(e) => { return Err(e); },
        Ok(next) => next,
    };
    let (num, at_close) = match get_snapshot_num(input, at_num) {
        Err(e) => { return Err(e); },
        Ok(found) => found,
    };
    match parse_separator(input, at_close) {
        Err(e) => Err(e),
        Ok(next) => Ok((num, next)),
    }
}

/// The time line at `from`.
pub open spec fn time_at(s: Seq<u8>, from: int) -> Result<(u64, int), ParseError> {
    u64_field_at(s, from, TIME_KEY.spec_bytes(), Construct::Time)
}

/// Reads the time line `time=<number>` at `start`.
pub fn parse_time(input: &[u8], start: usize) -> (r: Result<(u64, usize), ParseError>)
    ensures
        agrees(r, time_at(input@, start as int)),
{
    parse_u64_field(input, start, TIME_KEY.as_bytes(), Construct::Time)
}

/// The heap line at `from`.
pub open spec fn mem_heap_at(s: Seq<u8>, from: int) -> Result<(u32, int), ParseError> {
    u32_field_at(s, from, MEM_HEAP_KEY.spec_bytes(), Construct::HeapBytes)
}

/// Reads the heap line `mem_heap_B=<number>` at `start`.
pub fn parse_mem_heap(input: &[u8], start: usize) -> (r: Result<(u32, usize), ParseError>)
    ensures
        agrees(r, mem_heap_at(input@, start as int)),
{
    parse_u32_field(input, start, MEM_HEAP_KEY.as_bytes(), Construct::HeapBytes)
}

/// The heap overhead line at `from`.
pub open spec fn mem_heap_extra_at(s: Seq<u8>, from: int) -> Result<(u32, int), ParseError> {
    u32_field_at(s, from, MEM_HEAP_EXTRA_KEY.spec_bytes(), Construct::HeapExtraBytes)
}

/// Reads the heap overhead line `mem_heap_extra_B=<number>` at `start`.
pub fn parse_mem_heap_extra(input: &[u8], start: usize) -> (r: Result<(u32, usize), ParseError>)
    ensures
        agrees(r, mem_heap_extra_at(input@, start as int)),
{
    parse_u32_field(input, start, MEM_HEAP_EXTRA_KEY.as_bytes(), Construct::HeapExtraBytes)
}

/// The stack line at `from`.
pub open spec fn mem_stacks_at(s: Seq<u8>, from: int) -> Result<(u32, int), ParseError> {
    u32_field_at(s, from, MEM_STACKS_KEY.spec_bytes(), Construct::StackBytes)
}

/// Reads the stack line `mem_stacks_B=<number>` at `start`.
pub fn parse_mem_stacks(input: &[u8], start: usize) -> (r: Result<(u32, usize), ParseError>)
    ensures
        agrees(r, mem_stacks_at(input@, start as int)),
{
    parse_u32_field(input, start, MEM_STACKS_KEY.as_bytes(), Construct::StackBytes)
}

/// The tree line at `from`: a line without the key is malformed, a tag that
/// names no kind is an unrecognized one.
pub open spec fn heap_tree_at(s: Seq<u8>, from: int) -> Result<(TreeKind, int), ParseError> {
    if has_key(s, from, HEAP_TREE_KEY.spec_bytes()) {
        match tree_kind_of(key_value(s, from, HEAP_TREE_KEY.spec_bytes())) {
            Some(kind) => Ok((kind, line_next(s, from))),
            None => Err(unrecognized(from)),
        }
    } else {
        Err(malformed(from, Construct::TreeKind))
    }
}

/// Reads the tree line `heap_tree=<tag>` at `start`.
pub fn parse_heap_tree(input: &[u8], start: usize) -> (r: Result<(TreeKind, usize), ParseError>)
    ensures
        agrees(r, heap_tree_at(input@, start as int)),
{
    match split_line_by(input, start, HEAP_TREE_KEY.as_bytes()) {
        Err(_) => Err(
            ParseError {
                kind: ErrorKind::MalformedInput,
                expected: Construct::TreeKind,
                offset: start,
            },
        ),
        Ok((tag, next)) => match TreeKind::from_tag(tag) {
            Ok(kind) => Ok((kind, next)),
            Err(_) => Err(
                ParseError {
                    kind: ErrorKind::UnrecognizedEnum,
                    expected: Construct::TreeKind,
                    offset: start,
                },
            ),
        },
    }
}

/// The lines of the block at `from`: its opening and the five data lines in
/// their order. Gives the record, and the position behind the tree line.
pub open spec fn record_at(s: Seq<u8>, from: int) -> Result<(Snapshot, int), ParseError> {
    match snapshot_header_at(s, from) {
        Err(e) => Err(e),
        Ok((num, at_time)) => match time_at(s, at_time) {
            Err(e) => Err(e),
            Ok((time, at_heap)) => match mem_heap_at(s, at_heap) {
                Err(e) => Err(e),
                Ok((mem_heap, at_extra)) => match mem_heap_extra_at(s, at_extra) {
                    Err(e) => Err(e),
                    Ok((mem_heap_extra, at_stacks)) => match mem_stacks_at(s, at_stacks) {
                        Err(e) => Err(e),
                        Ok((mem_stacks, at_tree)) => match heap_tree_at(s, at_tree) {
                            Err(e) => Err(e),
                            Ok((heap_tree, at_detail)) => Ok(
                                (
                                    Snapshot {
                                        num,
                                        time,
                                        mem_heap,
                                        mem_heap_extra,
                                        mem_stacks,
                                        heap_tree,
                                    },
                                    at_detail,
                                ),
                            ),
                        },
                    },
                },
            },
        },
    }
}

/// The block at `from`: its lines, and then the tree detail, which runs up to
/// the next occurrence of the separator, or to the end of the text where there
/// is none, and leaves nothing in the record. Gives the record, and the
/// position at which the detail ends.
pub open spec fn snapshot_at(s: Seq<u8>, from: int) -> Result<(Snapshot, int), ParseError> {
    match record_at(s, from) {
        Err(e) => Err(e),
        Ok((record, at_detail)) => Ok(
            (record, first_occurrence(s, SEPARATOR.spec_bytes(), at_detail)),
        ),
    }
}

/// Reads the block at `start`: returns its record and the position at which
/// the next block, if there is one, begins.
pub fn parse_snapshot_data(input: &[u8], start: usize) -> (r: Result<(Snapshot, usize), ParseError>)
    ensures
        agrees(r, snapshot_at(input@, start as int)),
{
    let (num, at_time) = match parse_snapshot_header(input, start) {
        Err(e) => { return Err(e); },
        Ok(found) => found,
    };
    let (time, at_heap) = match parse_time(input, at_time) {
        Err(e) => { return Err(e); },
        Ok(found) => found,
    };
    let (mem_heap, at_extra) = match parse_mem_heap(input, at_heap) {
        Err(e) => { return Err(e); },
        Ok(found) => found,
    };
    let (mem_heap_extra, at_stacks) = match parse_mem_heap_extra(input, at_extra) {
        Err(e) => { return Err(e); },
        Ok(found) => found,
    };
    let (mem_stacks, at_tree) = match parse_mem_stacks(input, at_stacks) {
        Err(e) => { return Err(e); },
        Ok(found) => found,
    };
    let (heap_tree, at_detail) = match parse_heap_tree(input, at_tree) {
        Err(e) => { return Err(e); },
        Ok(found) => found,
    };
    let next = skip_until(input, at_detail, SEPARATOR.as_bytes());
    Ok((Snapshot { num, time, mem_heap, mem_heap_extra, mem_stacks, heap_tree }, next))
}

/// The positions of the eight lines of the block at `from`, and the position
/// behind the last of them: each lies behind the one before it.
pub proof fn lemma_record_lines(s: Seq<u8>, from: int) -> (at: Seq<int>)
    requires
        0 <= from,
        record_at(s, from) is Ok,
    ensures
        at.len() == 9,
        at[0] == from,
        at[8] == record_at(s, from)->Ok_0.1,
        at[8] <= s.len(),
        forall|i: int|
            0 <= i < 8 ==> has_line(s, #[trigger] at[i]) && line_next(s, at[i]) == at[i + 1]
                && at[i] < at[i + 1],
        separator_at(s, at[0]) is Ok,
        snapshot_num_at(s, at[1]) is Ok,
        separator_at(s, at[2]) is Ok,
        time_at(s, at[3]) is Ok,
        mem_heap_at(s, at[4]) is Ok,
        mem_heap_extra_at(s, at[5]) is Ok,
        mem_stacks_at(s, at[6]) is Ok,
        heap_tree_at(s, at[7]) is Ok,
{
    let at_num = separator_at(s, from)->Ok_0;
    lemma_line_advances(s, from);
    let at_close = snapshot_num_at(s, at_num)->Ok_0.1;
    lemma_line_advances(s, at_num);
    let at_time = separator_at(s, at_close)->Ok_0;
    lemma_line_advances(s, at_close);
    let at_heap = time_at(s, at_time)->Ok_0.1;
    lemma_line_advances(s, at_time);
    let at_extra = mem_heap_at(s, at_heap)->Ok_0.1;
    lemma_line_advances(s, at_heap);
    let at_stacks = mem_heap_extra_at(s, at_extra)->Ok_0.1;
    lemma_line_advances(s, at_extra);
    let at_tree = mem_stacks_at(s, at_stacks)->Ok_0.1;
    lemma_line_advances(s, at_stacks);
    let at_detail = heap_tree_at(s, at_tree)->Ok_0.1;
    lemma_line_advances(s, at_tree);
    seq![from, at_num, at_close, at_time, at_heap, at_extra, at_stacks, at_tree, at_detail]
}

/// The lines of a block are not empty: the tree line ends behind `from` and
/// inside the text.
pub proof fn lemma_record_advances(s: Seq<u8>, from: int)
    requires
        0 <= from,
    ensures
        record_at(s, from) matches Ok((_, at_detail)) ==> from < at_detail <= s.len(),
{
    if record_at(s, from) is Ok {
        let at = lemma_record_lines(s, from);
        assert(at[0] < at[1] < at[2] < at[3] < at[4] < at[5] < at[6] < at[7] < at[8]);
    }
}

/// A block is never empty: where one is read at `from`, the next position
/// lies behind `from` and inside the text.
pub proof fn lemma_snapshot_advances(s: Seq<u8>, from: int)
    requires
        0 <= from,
    ensures
        snapshot_at(s, from) matches Ok((_, next)) ==> from < next <= s.len(),
{
    if snapshot_at(s, from) is Ok {
        let at = lemma_record_lines(s, from);
        assert(at[0] < at[1] < at[2] < at[3] < at[4] < at[5] < at[6] < at[7] < at[8]);
        lemma_first_occurrence(s, SEPARATOR.spec_bytes(), at[8]);
    }
}

/// The snapshot section that begins at `from`: no block where the text ends
/// there, else the block at `from` and then the section behind it. Text that
/// does not open with a separator line is trailing data; a fault inside a block
/// fails the whole section.
pub open spec fn snapshots_from(s: Seq<u8>, from: int) -> Result<Seq<Snapshot>, ParseError>
    decreases s.len() - from,
    when 0 <= from
    via snapshots_from_decreases
{
    if from >= s.len() {
        Ok(Seq::empty())
    } else if separator_at(s, from) is Err {
        Err(trailing(from))
    } else {
        match snapshot_at(s, from) {
            Err(e) => Err(e),
            Ok((first, next)) => match snapshots_from(s, next) {
                Err(e) => Err(e),
                Ok(rest) => Ok(seq![first] + rest),
            },
        }
    }
}

#[via_fn]
proof fn snapshots_from_decreases(s: Seq<u8>, from: int) {
    lemma_snapshot_advances(s, from);
}

/// `r` with the records `done` put before what it holds.
pub open spec fn after(done: Seq<Snapshot>, r: Result<Seq<Snapshot>, ParseError>) -> Result<
    Seq<Snapshot>,
    ParseError,
> {
    match r {
        Ok(rest) => Ok(done + rest),
        Err(e) => Err(e),
    }
}

/// Reads blocks from `start` until the text is used up, and returns their
/// records in the order in which the blocks stand in the text.
pub fn parse_snapshots(input: &[u8], start: usize) -> (r: Result<Vec<Snapshot>, ParseError>)
    ensures
        match r {
            Ok(snapshots) => snapshots_from(input@, start as int) == Ok::<
                Seq<Snapshot>,
                ParseError,
            >(snapshots@),
            Err(e) => snapshots_from(input@, start as int) == Err::<Seq<Snapshot>, ParseError>(e),
        },
{
    let n = input.len();
    let mut snapshots: Vec<Snapshot> = Vec::new();
    let mut at: usize = start;
    assert(snapshots@ + Seq::<Snapshot>::empty() =~= snapshots@);
    while at < n
        invariant
            n == input@.len(),
            snapshots_from(input@, start as int) == after(
                snapshots@,
                snapshots_from(input@, at as int),
            ),
        decreases n - at,
    {
        if parse_separator(input, at).is_err() {
            return Err(
                ParseError {
                    kind: ErrorKind::TrailingData,
                    expected: Construct::Delimiter,
                    offset: at,
                },
            );
        }
        match parse_snapshot_data(input, at) {
            Err(e) => {
                return Err(e);
            },
            Ok((found, next)) => {
                proof {
                    lemma_snapshot_advances(input@, at as int);
                    let rest = snapshots_from(input@, next as int);
                    if let Ok(tail) = rest {
                        assert(snapshots@ + (seq![found] + tail) =~= snapshots@.push(found) + tail);
                    }
                }
                snapshots.push(found);
                at = next;
            },
        }
    }
    assert(snapshots@ + Seq::<Snapshot>::empty() =~= snapshots@);
    Ok(snapshots)
}

/// A block whose index line is not followed by a separator line is malformed:
/// the section that begins with it fails at the line behind the index line,
/// and names the separator as what it expected there.
pub proof fn lemma_missing_second_separator(s: Seq<u8>, from: int)
    requires
        0 <= from < s.len(),
        separator_at(s, from) matches Ok(at_num) && snapshot_num_at(s, at_num) matches Ok(
            (_, at_close),
        ) && separator_at(s, at_close) is Err,
    ensures
        snapshots_from(s, from) == Err::<Seq<Snapshot>, ParseError>(
            malformed(snapshot_num_at(s, separator_at(s, from)->Ok_0)->Ok_0.1, Construct::Delimiter),
        ),
{
}

/// A tree line whose tag is none of `empty`, `detailed` and `peak` is an
/// unrecognized kind: no kind stands in for it.
pub proof fn lemma_unknown_tree_kind(s: Seq<u8>, from: int)
    requires
        has_key(s, from, HEAP_TREE_KEY.spec_bytes()),
        ({
            let tag = key_value(s, from, HEAP_TREE_KEY.spec_bytes());
            tag != EMPTY_TAG.spec_bytes() && tag != DETAILED_TAG.spec_bytes() && tag
                != PEAK_TAG.spec_bytes()
        }),
    ensures
        heap_tree_at(s, from) == Err::<(TreeKind, int), ParseError>(unrecognized(from)),
{
}

/// The position at which block number `i` of the section at `from` begins,
/// counting from 0.
pub open spec fn block_start(s: Seq<u8>, from: int, i: nat) -> int
    decreases i,
{
    if i == 0 {
        from
    } else {
        match snapshot_at(s, from) {
            Ok((_, next)) => block_start(s, next, (i - 1) as nat),
            Err(_) => from,
        }
    }
}

/// Records stand in the order of their blocks in the text: record number `i`
/// of a section is the record of its block number `i`, and each block begins
/// behind the one before it. Neither the index nor the time of a record has a
/// part in the order.
pub proof fn lemma_snapshots_in_text_order(s: Seq<u8>, from: int, i: nat)
    requires
        0 <= from,
        snapshots_from(s, from) matches Ok(records) && i < records.len(),
    ensures
        snapshot_at(s, block_start(s, from, i)) matches Ok((record, next)) && record
            == snapshots_from(s, from)->Ok_0[i as int] && next == block_start(s, from, i + 1),
        from <= block_start(s, from, i) < block_start(s, from, i + 1) <= s.len(),
    decreases i,
{
    lemma_snapshot_advances(s, from);
    let next = snapshot_at(s, from)->Ok_0.1;
    assert(block_start(s, from, 1) == block_start(s, next, 0));
    if i > 0 {
        lemma_snapshots_in_text_order(s, next, (i - 1) as nat);
        assert(block_start(s, from, i + 1) == block_start(s, next, i as nat));
    }
}

/// A section has as many records as the text has blocks from `from` on: the
/// block behind the last record begins where the text ends.
pub proof fn lemma_snapshots_use_the_text_up(s: Seq<u8>, from: int)
    requires
        0 <= from <= s.len(),
        snapshots_from(s, from) is Ok,
    ensures
        block_start(s, from, snapshots_from(s, from)->Ok_0.len()) == s.len(),
    decreases s.len() - from,
{
    if from < s.len() {
        lemma_snapshot_advances(s, from);
        let next = snapshot_at(s, from)->Ok_0.1;
        lemma_snapshots_use_the_text_up(s, next);
        let rest = snapshots_from(s, next)->Ok_0;
        assert((seq![snapshot_at(s, from)->Ok_0.0] + rest).len() == rest.len() + 1);
    }
}

/// Later blocks begin no earlier than earlier ones.
pub proof fn lemma_block_starts_ordered(s: Seq<u8>, from: int, i: nat, j: nat)
    requires
        0 <= from,
        snapshots_from(s, from) matches Ok(records) && i <= j <= records.len(),
    ensures
        block_start(s, from, i) <= block_start(s, from, j),
    decreases j,
{
    if i < j {
        lemma_block_starts_ordered(s, from, i, (j - 1) as nat);
        lemma_snapshots_in_text_order(s, from, (j - 1) as nat);
    }
}

} // verus!
