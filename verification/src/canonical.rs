//! The canonical text of a model, and the proof that it reads back as the
//! model: every header and every sequence of records has a document.

use vstd::prelude::*;
use vstd::string::StringSliceAdditionalSpecFns;
use crate::cursor::{
    first_occurrence, has_key, is_line_break, key_value, lemma_line_end, line_end, line_next,
    line_text, occurs_at, LF,
};
use crate::document;
use crate::error::ParseError;
use crate::header::{
    cmd_at, desc_at, header_at, time_unit_at, HeaderView, CMD_KEY, DESC_KEY, NO_DESCRIPTION,
    TIME_UNIT_KEY,
};
use crate::number::{all_digits, decimal_value, digits_value, is_digit, unsigned_digits, ZERO};
use crate::snapshot::{
    heap_tree_at, mem_heap_at, mem_heap_extra_at, mem_stacks_at, record_at, separator_at,
    snapshot_num_at, snapshots_from, time_at, tree_kind_of, Snapshot, TreeKind, DETAILED_TAG,
    EMPTY_TAG, HEAP_TREE_KEY, MEM_HEAP_EXTRA_KEY, MEM_HEAP_KEY, MEM_STACKS_KEY, PEAK_TAG,
    SEPARATOR, SNAPSHOT_KEY, TIME_KEY,
};
use crate::OutputView;

verus! {

/// No byte of `text` is a line break: `text` can stand on one line.
pub open spec fn is_plain(text: Seq<u8>) -> bool {
    forall|i: int| 0 <= i < text.len() ==> !is_line_break(#[trigger] text[i])
}

/// The line that carries `key` and `value`, ended by a line feed, and `rest`
/// behind it.
pub open spec fn line(key: Seq<u8>, value: Seq<u8>, rest: Seq<u8>) -> Seq<u8> {
    key + value + seq![LF] + rest
}

/// The digits that write `n`, without leading zeros.
pub open spec fn decimal(n: nat) -> Seq<u8>
    decreases n,
{
    if n < 10 {
        seq![(ZERO + n) as u8]
    } else {
        decimal(n / 10).push((ZERO + n % 10) as u8)
    }
}

/// The digits that write `n` are read as `n`.
pub proof fn lemma_decimal(n: nat, max: nat)
    requires
        n <= max,
    ensures
        is_plain(decimal(n)),
        decimal_value(decimal(n), max) == Some(n),
{
    lemma_decimal_digits(n);
    let d = decimal(n);
    assert(is_digit(d[0]));
    assert(unsigned_digits(d) == d);
    assert forall|i: int| 0 <= i < d.len() implies !is_line_break(#[trigger] d[i]) by {
        assert(is_digit(d[i]));
    }
}

/// The digits that write `n` are digits, at least one, and their value is `n`.
pub proof fn lemma_decimal_digits(n: nat)
    ensures
        decimal(n).len() > 0,
        all_digits(decimal(n)),
        digits_value(decimal(n)) == n,
    decreases n,
{
    let d = decimal(n);
    if n < 10 {
        assert(d.drop_last() =~= Seq::<u8>::empty());
        assert(digits_value(d.drop_last()) == 0);
    } else {
        lemma_decimal_digits(n / 10);
        assert(d.drop_last() =~= decimal(n / 10));
    }
}

/// Where the text from `from` on has no line break before `end`, and has one
/// at `end` or ends there, the line that begins at `from` ends at `end`.
pub proof fn lemma_line_ends_at(s: Seq<u8>, from: int, end: int)
    requires
        0 <= from <= end <= s.len(),
        forall|i: int| from <= i < end ==> !is_line_break(#[trigger] s[i]),
        end < s.len() ==> is_line_break(s[end]),
    ensures
        line_end(s, from) == end,
    decreases end - from,
{
    if from < end {
        lemma_line_ends_at(s, from + 1, end);
    }
}

/// A line written with `line` is read as it was written: where the text from
/// `p` on is the line of `key` and `value` and then `rest`, the line at `p`
/// carries `key` and `value`, and `rest` begins behind it.
pub proof fn lemma_line_reads_back(s: Seq<u8>, p: int, key: Seq<u8>, value: Seq<u8>, rest: Seq<u8>)
    requires
        0 <= p <= s.len(),
        s.skip(p) == line(key, value, rest),
        is_plain(key),
        is_plain(value),
    ensures
        has_key(s, p, key),
        key_value(s, p, key) == value,
        line_text(s, p) == key + value,
        line_next(s, p) == p + key.len() + value.len() + 1,
        line_next(s, p) <= s.len(),
        s.skip(line_next(s, p)) == rest,
{
    let written = line(key, value, rest);
    let end = p + key.len() + value.len();
    assert(s.skip(p).len() == s.len() - p);
    assert(written.len() == key.len() + value.len() + 1 + rest.len());
    assert forall|i: int| 0 <= i < written.len() implies s[p + i] == #[trigger] written[i] by {
        assert(s.skip(p)[i] == s[p + i]);
    }
    assert forall|i: int| p <= i < end implies !is_line_break(#[trigger] s[i]) by {
        let j = i - p;
        assert(s[p + j] == written[j]);
        if j < key.len() {
            assert(written[j] == key[j]);
        } else {
            assert(written[j] == value[j - key.len()]);
        }
    }
    assert(s[end] == LF) by {
        assert(s[p + (end - p)] == written[end - p]);
    }
    lemma_line_ends_at(s, p, end);
    assert(line_text(s, p) =~= key + value) by {
        assert forall|j: int| 0 <= j < end - p implies s.subrange(p, end)[j] == (key + value)[j] by {
            assert(s[p + j] == written[j]);
        }
    }
    assert((key + value).subrange(0, key.len() as int) =~= key);
    assert((key + value).skip(key.len() as int) =~= value);
    assert(s.skip(end + 1) =~= rest) by {
        assert forall|j: int| 0 <= j < rest.len() implies s.skip(end + 1)[j] == rest[j] by {
            assert(s[p + (end + 1 - p + j)] == written[end + 1 - p + j]);
        }
    }
}

/// A literal of ASCII characters without line breaks can stand on one line.
proof fn lemma_literal_is_plain(literal: &str)
    requires
        forall|i: int| 0 <= i < literal@.len() ==> ' ' <= #[trigger] literal@[i] <= '~',
    ensures
        is_plain(literal.spec_bytes()),
        literal.spec_bytes().len() == literal@.len(),
{
    vstd::utf8::is_ascii_chars_encode_utf8(literal@);
    let bytes = literal.spec_bytes();
    assert forall|i: int| 0 <= i < bytes.len() implies !is_line_break(#[trigger] bytes[i]) by {
        assert(literal@[i] as u8 == bytes[i]);
    }
}

/// The keys, the separator and the tags of the grammar can each stand on one
/// line, and no two of the three tags are the same.
pub proof fn lemma_literals()
    ensures
        is_plain(DESC_KEY.spec_bytes()),
        is_plain(CMD_KEY.spec_bytes()),
        is_plain(TIME_UNIT_KEY.spec_bytes()),
        is_plain(NO_DESCRIPTION.spec_bytes()),
        is_plain(SEPARATOR.spec_bytes()),
        is_plain(SNAPSHOT_KEY.spec_bytes()),
        is_plain(TIME_KEY.spec_bytes()),
        is_plain(MEM_HEAP_KEY.spec_bytes()),
        is_plain(MEM_HEAP_EXTRA_KEY.spec_bytes()),
        is_plain(MEM_STACKS_KEY.spec_bytes()),
        is_plain(HEAP_TREE_KEY.spec_bytes()),
        is_plain(EMPTY_TAG.spec_bytes()),
        is_plain(DETAILED_TAG.spec_bytes()),
        is_plain(PEAK_TAG.spec_bytes()),
        EMPTY_TAG.spec_bytes() != DETAILED_TAG.spec_bytes(),
        EMPTY_TAG.spec_bytes() != PEAK_TAG.spec_bytes(),
        DETAILED_TAG.spec_bytes() != PEAK_TAG.spec_bytes(),
{
    reveal_strlit("desc: ");
    reveal_strlit("cmd: ");
    reveal_strlit("time_unit: ");
    reveal_strlit("(none)");
    reveal_strlit("#-----------");
    reveal_strlit("snapshot=");
    reveal_strlit("time=");
    reveal_strlit("mem_heap_B=");
    reveal_strlit("mem_heap_extra_B=");
    reveal_strlit("mem_stacks_B=");
    reveal_strlit("heap_tree=");
    reveal_strlit("empty");
    reveal_strlit("detailed");
    reveal_strlit("peak");
    lemma_literal_is_plain(DESC_KEY);
    lemma_literal_is_plain(CMD_KEY);
    lemma_literal_is_plain(TIME_UNIT_KEY);
    lemma_literal_is_plain(NO_DESCRIPTION);
    lemma_literal_is_plain(SEPARATOR);
    lemma_literal_is_plain(SNAPSHOT_KEY);
    lemma_literal_is_plain(TIME_KEY);
    lemma_literal_is_plain(MEM_HEAP_KEY);
    lemma_literal_is_plain(MEM_HEAP_EXTRA_KEY);
    lemma_literal_is_plain(MEM_STACKS_KEY);
    lemma_literal_is_plain(HEAP_TREE_KEY);
    lemma_literal_is_plain(EMPTY_TAG);
    lemma_literal_is_plain(DETAILED_TAG);
    lemma_literal_is_plain(PEAK_TAG);
}

/// The tag that names `kind`.
pub open spec fn tag_of(kind: TreeKind) -> Seq<u8> {
    match kind {
        TreeKind::Empty => EMPTY_TAG.spec_bytes(),
        TreeKind::Detailed => DETAILED_TAG.spec_bytes(),
        TreeKind::Peak => PEAK_TAG.spec_bytes(),
    }
}

/// The block that holds `record`, without tree detail, and `rest` behind it.
pub open spec fn block_text(record: Snapshot, rest: Seq<u8>) -> Seq<u8> {
    let tree = line(HEAP_TREE_KEY.spec_bytes(), tag_of(record.heap_tree), rest);
    let stacks = line(MEM_STACKS_KEY.spec_bytes(), decimal(record.mem_stacks as nat), tree);
    let extra = line(MEM_HEAP_EXTRA_KEY.spec_bytes(), decimal(record.mem_heap_extra as nat), stacks);
    let heap = line(MEM_HEAP_KEY.spec_bytes(), decimal(record.mem_heap as nat), extra);
    let time = line(TIME_KEY.spec_bytes(), decimal(record.time as nat), heap);
    let close = line(SEPARATOR.spec_bytes(), Seq::empty(), time);
    let index = line(SNAPSHOT_KEY.spec_bytes(), decimal(record.num as nat), close);
    line(SEPARATOR.spec_bytes(), Seq::empty(), index)
}

/// The snapshot section that holds `records`, block behind block.
pub open spec fn section_text(records: Seq<Snapshot>) -> Seq<u8>
    decreases records.len(),
{
    if records.len() == 0 {
        Seq::empty()
    } else {
        block_text(records[0], section_text(records.drop_first()))
    }
}

/// The three lines of the header `header`, and `rest` behind them.
pub open spec fn header_text(header: HeaderView, rest: Seq<u8>) -> Seq<u8> {
    let description = match header.description {
        Some(text) => text,
        None => NO_DESCRIPTION.spec_bytes(),
    };
    let unit = line(TIME_UNIT_KEY.spec_bytes(), header.time_unit, rest);
    let command = line(CMD_KEY.spec_bytes(), header.command, unit);
    line(DESC_KEY.spec_bytes(), description, command)
}

/// The canonical document of `model`: its header, then its snapshots, each
/// without tree detail.
pub open spec fn document_text(model: OutputView) -> Seq<u8> {
    header_text(model.header, section_text(model.snapshots))
}

/// The texts of `header` can each stand on a line, and its description, if it
/// has one, is not the token that stands for none.
pub open spec fn can_be_written(header: HeaderView) -> bool {
    &&& is_plain(header.command)
    &&& is_plain(header.time_unit)
    &&& header.description matches Some(text) ==> is_plain(text) && text
        != NO_DESCRIPTION.spec_bytes()
}

/// A separator line is read as one.
proof fn lemma_separator_reads_back(s: Seq<u8>, p: int, rest: Seq<u8>)
    requires
        0 <= p <= s.len(),
        s.skip(p) == line(SEPARATOR.spec_bytes(), Seq::empty(), rest),
    ensures
        separator_at(s, p) == Ok::<int, ParseError>(p + SEPARATOR.spec_bytes().len() + 1),
        p + SEPARATOR.spec_bytes().len() + 1 <= s.len(),
        s.skip(p + SEPARATOR.spec_bytes().len() + 1) == rest,
        occurs_at(s, SEPARATOR.spec_bytes(), p),
{
    lemma_literals();
    let sep = SEPARATOR.spec_bytes();
    lemma_line_reads_back(s, p, sep, Seq::empty(), rest);
    assert(sep + Seq::<u8>::empty() =~= sep);
    lemma_line_end(s, p);
    assert(line_text(s, p) == sep);
    assert(line_end(s, p) == p + sep.len());
}

/// A block written with `block_text` is read as it was written: where the
/// text from `p` on is the block of `record` and then `rest`, the lines at `p`
/// give `record`, and `rest` begins behind them.
pub proof fn lemma_block_reads_back(s: Seq<u8>, p: int, record: Snapshot, rest: Seq<u8>)
    requires
        0 <= p <= s.len(),
        s.skip(p) == block_text(record, rest),
    ensures
        record_at(s, p) matches Ok((read, at_detail)) && read == record && p < at_detail <= s.len()
            && s.skip(at_detail) == rest,
        occurs_at(s, SEPARATOR.spec_bytes(), p),
{
    lemma_literals();
    lemma_decimal(record.num as nat, u32::MAX as nat);
    lemma_decimal(record.time as nat, u64::MAX as nat);
    lemma_decimal(record.mem_heap as nat, u32::MAX as nat);
    lemma_decimal(record.mem_heap_extra as nat, u32::MAX as nat);
    lemma_decimal(record.mem_stacks as nat, u32::MAX as nat);
    let tree = line(HEAP_TREE_KEY.spec_bytes(), tag_of(record.heap_tree), rest);
    let stacks = line(MEM_STACKS_KEY.spec_bytes(), decimal(record.mem_stacks as nat), tree);
    let extra = line(MEM_HEAP_EXTRA_KEY.spec_bytes(), decimal(record.mem_heap_extra as nat), stacks);
    let heap = line(MEM_HEAP_KEY.spec_bytes(), decimal(record.mem_heap as nat), extra);
    let time = line(TIME_KEY.spec_bytes(), decimal(record.time as nat), heap);
    let close = line(SEPARATOR.spec_bytes(), Seq::empty(), time);
    let index = line(SNAPSHOT_KEY.spec_bytes(), decimal(record.num as nat), close);
    lemma_separator_reads_back(s, p, index);
    let at_num = p + SEPARATOR.spec_bytes().len() + 1;
    lemma_line_reads_back(s, at_num, SNAPSHOT_KEY.spec_bytes(), decimal(record.num as nat), close);
    let at_close = line_next(s, at_num);
    assert(snapshot_num_at(s, at_num) == Ok::<(u32, int), ParseError>((record.num, at_close)));
    lemma_separator_reads_back(s, at_close, time);
    let at_time = at_close + SEPARATOR.spec_bytes().len() + 1;
    lemma_line_reads_back(s, at_time, TIME_KEY.spec_bytes(), decimal(record.time as nat), heap);
    let at_heap = line_next(s, at_time);
    assert(time_at(s, at_time) == Ok::<(u64, int), ParseError>((record.time, at_heap)));
    lemma_line_reads_back(
        s,
        at_heap,
        MEM_HEAP_KEY.spec_bytes(),
        decimal(record.mem_heap as nat),
        extra,
    );
    let at_extra = line_next(s, at_heap);
    assert(mem_heap_at(s, at_heap) == Ok::<(u32, int), ParseError>((record.mem_heap, at_extra)));
    lemma_line_reads_back(
        s,
        at_extra,
        MEM_HEAP_EXTRA_KEY.spec_bytes(),
        decimal(record.mem_heap_extra as nat),
        stacks,
    );
    let at_stacks = line_next(s, at_extra);
    assert(mem_heap_extra_at(s, at_extra) == Ok::<(u32, int), ParseError>(
        (record.mem_heap_extra, at_stacks),
    ));
    lemma_line_reads_back(
        s,
        at_stacks,
        MEM_STACKS_KEY.spec_bytes(),
        decimal(record.mem_stacks as nat),
        tree,
    );
    let at_tree = line_next(s, at_stacks);
    assert(mem_stacks_at(s, at_stacks) == Ok::<(u32, int), ParseError>(
        (record.mem_stacks, at_tree),
    ));
    lemma_line_reads_back(s, at_tree, HEAP_TREE_KEY.spec_bytes(), tag_of(record.heap_tree), rest);
    let at_detail = line_next(s, at_tree);
    assert(tree_kind_of(tag_of(record.heap_tree)) == Some(record.heap_tree));
    assert(heap_tree_at(s, at_tree) == Ok::<(TreeKind, int), ParseError>(
        (record.heap_tree, at_detail),
    ));
}

/// A section written with `section_text` is read as it was written: where
/// the text from `p` on is the section of `records`, the section at `p` holds
/// `records`.
pub proof fn lemma_section_reads_back(s: Seq<u8>, p: int, records: Seq<Snapshot>)
    requires
        0 <= p <= s.len(),
        s.skip(p) == section_text(records),
    ensures
        snapshots_from(s, p) == Ok::<Seq<Snapshot>, ParseError>(records),
    decreases records.len(),
{
    assert(s.skip(p).len() == s.len() - p);
    if records.len() == 0 {
        assert(records =~= Seq::<Snapshot>::empty());
    } else {
        let rest = section_text(records.drop_first());
        lemma_block_reads_back(s, p, records[0], rest);
        let at_detail = record_at(s, p)->Ok_0.1;
        assert(s.skip(at_detail).len() == s.len() - at_detail);
        if records.len() > 1 {
            let after = section_text(records.drop_first().drop_first());
            assert(rest == block_text(records[1], after));
            lemma_block_reads_back(s, at_detail, records[1], after);
        }
        assert(first_occurrence(s, SEPARATOR.spec_bytes(), at_detail) == at_detail);
        lemma_section_reads_back(s, at_detail, records.drop_first());
        assert(seq![records[0]] + records.drop_first() =~= records);
    }
}

/// A header written with `header_text` is read as it was written: a text
/// that begins with the lines of `header` has `header`, and `rest` is its
/// snapshot section.
pub proof fn lemma_header_reads_back(header: HeaderView, rest: Seq<u8>)
    requires
        can_be_written(header),
    ensures
        header_at(header_text(header, rest)) matches Ok((read, next)) && read == header && 0 <= next
            <= header_text(header, rest).len() && header_text(header, rest).skip(next) == rest,
{
    lemma_literals();
    let s = header_text(header, rest);
    let description = match header.description {
        Some(text) => text,
        None => NO_DESCRIPTION.spec_bytes(),
    };
    let unit = line(TIME_UNIT_KEY.spec_bytes(), header.time_unit, rest);
    let command = line(CMD_KEY.spec_bytes(), header.command, unit);
    assert(s.skip(0) =~= s);
    lemma_line_reads_back(s, 0, DESC_KEY.spec_bytes(), description, command);
    let at_cmd = line_next(s, 0);
    assert(desc_at(s, 0) == Ok::<(Option<Seq<u8>>, int), ParseError>(
        (header.description, at_cmd),
    ));
    lemma_line_reads_back(s, at_cmd, CMD_KEY.spec_bytes(), header.command, unit);
    let at_unit = line_next(s, at_cmd);
    assert(cmd_at(s, at_cmd) == Ok::<(Seq<u8>, int), ParseError>((header.command, at_unit)));
    lemma_line_reads_back(s, at_unit, TIME_UNIT_KEY.spec_bytes(), header.time_unit, rest);
    assert(time_unit_at(s, at_unit) == Ok::<(Seq<u8>, int), ParseError>(
        (header.time_unit, line_next(s, at_unit)),
    ));
}

/// Every model has a document: the canonical document of a model whose header
/// can be written parses, and parses to that model.
pub proof fn lemma_document_reads_back(model: OutputView)
    requires
        can_be_written(model.header),
    ensures
        document(document_text(model)) == Ok::<OutputView, ParseError>(model),
{
    let s = document_text(model);
    lemma_header_reads_back(model.header, section_text(model.snapshots));
    let at_snapshots = header_at(s)->Ok_0.1;
    lemma_section_reads_back(s, at_snapshots, model.snapshots);
}

} // verus!
