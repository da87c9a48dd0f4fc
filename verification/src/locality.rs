//! What a parser reads depends on the text where it reads, and on nothing
//! else: not on what stands behind the lines it reads, nor on where in a text
//! they stand. From this follows that tree detail leaves nothing in a model.

use vstd::prelude::*;
use vstd::string::StringSliceAdditionalSpecFns;
use crate::cursor::{
    first_occurrence, has_line, is_line_break, lemma_first_occurrence, lemma_line_advances,
    lemma_line_end, line_end, line_next, line_text, occurs_at, LF,
};
use crate::document;
use crate::error::ParseError;
use crate::header::{cmd_at, desc_at, header_at, lemma_header_advances};
use crate::snapshot::{
    block_start, lemma_block_starts_ordered, lemma_record_advances, lemma_record_lines,
    lemma_snapshot_advances, lemma_snapshots_in_text_order, record_at, separator_at, snapshot_at,
    snapshots_from, Snapshot, SEPARATOR,
};

verus! {

/// The end of a line depends on the text up to that end alone: a text that
/// agrees with `s` on the first `k` bytes has the same line end, where the
/// line of `s` ends before `k`.
pub proof fn lemma_line_end_of_prefix(s: Seq<u8>, t: Seq<u8>, from: int, k: int)
    requires
        0 <= from,
        line_end(s, from) < k,
        k <= s.len(),
        k <= t.len(),
        s.take(k) == t.take(k),
    ensures
        line_end(t, from) == line_end(s, from),
    decreases s.len() - from,
{
    if from < s.len() {
        assert(from < k) by {
            lemma_line_end(s, from);
        }
        assert(s[from] == s.take(k)[from]);
        assert(t[from] == t.take(k)[from]);
        if !is_line_break(s[from]) {
            lemma_line_end_of_prefix(s, t, from + 1, k);
        }
    }
}

/// A line depends on the text up to the end of its terminator alone: a text
/// that agrees with `s` on the first `k` bytes has the same line at `from`,
/// where the line of `s` ends, terminator and all, at or before `k`.
pub proof fn lemma_line_of_prefix(s: Seq<u8>, t: Seq<u8>, from: int, k: int)
    requires
        0 <= from,
        has_line(s, from),
        line_next(s, from) <= k,
        k <= s.len(),
        k <= t.len(),
        s.take(k) == t.take(k),
    ensures
        has_line(t, from),
        line_end(t, from) == line_end(s, from),
        line_next(t, from) == line_next(s, from),
        line_text(t, from) == line_text(s, from),
{
    lemma_line_advances(s, from);
    lemma_line_end_of_prefix(s, t, from, k);
    let end = line_end(s, from);
    assert(s[end] == s.take(k)[end]);
    assert(t[end] == t.take(k)[end]);
    if s[end] != LF {
        assert(s[end + 1] == s.take(k)[end + 1]);
        assert(t[end + 1] == t.take(k)[end + 1]);
    }
    assert(line_text(t, from) =~= line_text(s, from)) by {
        assert forall|i: int| from <= i < end implies s[i] == t[i] by {
            assert(s[i] == s.take(k)[i]);
            assert(t[i] == t.take(k)[i]);
        }
    }
}

/// Where `s` from `p` on reads as `t` from `q` on, the same holds `d` bytes on.
pub proof fn lemma_suffix_moves(s: Seq<u8>, t: Seq<u8>, p: int, q: int, d: int)
    requires
        0 <= p <= s.len(),
        0 <= q <= t.len(),
        s.skip(p) == t.skip(q),
        0 <= d <= s.len() - p,
    ensures
        p + d <= s.len(),
        q + d <= t.len(),
        s.skip(p + d) == t.skip(q + d),
{
    assert(s.skip(p).len() == s.len() - p);
    assert(t.skip(q).len() == t.len() - q);
    assert(s.skip(p + d) =~= s.skip(p).skip(d));
    assert(t.skip(q + d) =~= t.skip(q).skip(d));
}

/// The end of a line depends on the text from the line's start on alone: where
/// `s` from `p` on reads as `t` from `q` on, the lines at `p` and at `q` have
/// the same length.
pub proof fn lemma_line_end_of_suffix(s: Seq<u8>, t: Seq<u8>, p: int, q: int)
    requires
        0 <= p <= s.len(),
        0 <= q <= t.len(),
        s.skip(p) == t.skip(q),
    ensures
        line_end(t, q) - q == line_end(s, p) - p,
    decreases s.len() - p,
{
    assert(s.skip(p).len() == s.len() - p);
    assert(t.skip(q).len() == t.len() - q);
    if p < s.len() {
        assert(s[p] == s.skip(p)[0]);
        assert(t[q] == t.skip(q)[0]);
        if !is_line_break(s[p]) {
            assert(s.skip(p + 1) =~= s.skip(p).skip(1));
            assert(t.skip(q + 1) =~= t.skip(q).skip(1));
            lemma_line_end_of_suffix(s, t, p + 1, q + 1);
        }
    }
}

/// A line depends on the text from its start on alone: where `s` from `p` on
/// reads as `t` from `q` on, the one has a line at `p` exactly where the other
/// has one at `q`, of the same text and as long.
pub proof fn lemma_line_of_suffix(s: Seq<u8>, t: Seq<u8>, p: int, q: int)
    requires
        0 <= p <= s.len(),
        0 <= q <= t.len(),
        s.skip(p) == t.skip(q),
    ensures
        has_line(t, q) == has_line(s, p),
        line_end(t, q) - q == line_end(s, p) - p,
        line_next(t, q) - q == line_next(s, p) - p,
        line_text(t, q) == line_text(s, p),
{
    lemma_line_end_of_suffix(s, t, p, q);
    lemma_line_end(s, p);
    lemma_line_end(t, q);
    let end = line_end(s, p);
    let d = end - p;
    assert(s.skip(p).len() == s.len() - p);
    assert(t.skip(q).len() == t.len() - q);
    if end < s.len() {
        assert(s[end] == s.skip(p)[d]);
        assert(t[q + d] == t.skip(q)[d]);
        if end + 1 < s.len() {
            assert(s[end + 1] == s.skip(p)[d + 1]);
            assert(t[q + d + 1] == t.skip(q)[d + 1]);
        }
    }
    assert(s.subrange(p, end) =~= s.skip(p).take(d));
    assert(t.subrange(q, q + d) =~= t.skip(q).take(d));
}

/// An occurrence depends on the text up to its end alone: a text that agrees
/// with `s` on the first `k` bytes has its first occurrence of `pat` from
/// `from` on where `s` has it, where that of `s` ends at or before `k`.
pub proof fn lemma_first_occurrence_of_prefix(
    s: Seq<u8>,
    t: Seq<u8>,
    pat: Seq<u8>,
    from: int,
    k: int,
)
    requires
        0 <= from <= s.len(),
        occurs_at(s, pat, first_occurrence(s, pat, from)),
        first_occurrence(s, pat, from) + pat.len() <= k,
        k <= s.len(),
        k <= t.len(),
        s.take(k) == t.take(k),
    ensures
        first_occurrence(t, pat, from) == first_occurrence(s, pat, from),
    decreases s.len() - from,
{
    lemma_first_occurrence(s, pat, from);
    let found = first_occurrence(s, pat, from);
    assert forall|i: int| 0 <= i < k implies s[i] == t[i] by {
        assert(s[i] == s.take(k)[i]);
        assert(t[i] == t.take(k)[i]);
    }
    if from < found {
        assert(!occurs_at(s, pat, from));
        assert(!occurs_at(t, pat, from)) by {
            if occurs_at(t, pat, from) {
                assert(s.subrange(from, from + pat.len()) =~= t.subrange(from, from + pat.len()));
            }
        }
        lemma_first_occurrence_of_prefix(s, t, pat, from + 1, k);
    } else {
        assert(t.subrange(from, from + pat.len()) =~= s.subrange(from, from + pat.len()));
        assert(occurs_at(t, pat, from));
    }
}

/// The next occurrence depends on the text from the start of the search on
/// alone: where `s` from `p` on reads as `t` from `q` on, `pat` next occurs as
/// far behind `p` in `s` as behind `q` in `t`.
pub proof fn lemma_first_occurrence_of_suffix(s: Seq<u8>, t: Seq<u8>, pat: Seq<u8>, p: int, q: int)
    requires
        0 <= p <= s.len(),
        0 <= q <= t.len(),
        s.skip(p) == t.skip(q),
    ensures
        first_occurrence(t, pat, q) - q == first_occurrence(s, pat, p) - p,
    decreases s.len() - p,
{
    assert(s.skip(p).len() == s.len() - p);
    assert(t.skip(q).len() == t.len() - q);
    if p < s.len() && p + pat.len() <= s.len() {
        assert(s.subrange(p, p + pat.len()) =~= s.skip(p).take(pat.len() as int));
        assert(t.subrange(q, q + pat.len()) =~= t.skip(q).take(pat.len() as int));
        if !occurs_at(s, pat, p) {
            assert(s.skip(p + 1) =~= s.skip(p).skip(1));
            assert(t.skip(q + 1) =~= t.skip(q).skip(1));
            lemma_first_occurrence_of_suffix(s, t, pat, p + 1, q + 1);
        }
    }
}

/// The header is read from its three lines alone: a text that agrees with `s`
/// on the first `k` bytes has the same header, where that of `s` ends at or
/// before `k`.
pub proof fn lemma_header_of_prefix(s: Seq<u8>, t: Seq<u8>, k: int)
    requires
        header_at(s) matches Ok((_, next)) && next <= k,
        k <= s.len(),
        k <= t.len(),
        s.take(k) == t.take(k),
    ensures
        header_at(t) == header_at(s),
{
    let at_cmd = desc_at(s, 0)->Ok_0.1;
    let at_unit = cmd_at(s, at_cmd)->Ok_0.1;
    lemma_line_advances(s, 0);
    lemma_line_advances(s, at_cmd);
    lemma_line_advances(s, at_unit);
    lemma_line_of_prefix(s, t, 0, k);
    lemma_line_of_prefix(s, t, at_cmd, k);
    lemma_line_of_prefix(s, t, at_unit, k);
    assert(has_line(t, 0) && has_line(t, at_cmd) && has_line(t, at_unit));
}

/// The record of a block is read from its lines alone: a text that agrees
/// with `s` up to the end of the block's tree line gives the same record,
/// whatever follows that line in either text.
pub proof fn lemma_record_ignores_detail(s: Seq<u8>, t: Seq<u8>, from: int)
    requires
        0 <= from,
        record_at(s, from) matches Ok((_, at_detail)) && at_detail <= t.len() && t.take(at_detail)
            == s.take(at_detail),
    ensures
        record_at(t, from) == record_at(s, from),
{
    let at = lemma_record_lines(s, from);
    let k = at[8];
    assert forall|i: int| 0 <= i < 8 implies has_line(t, #[trigger] at[i]) && line_next(t, at[i])
        == line_next(s, at[i]) && line_text(t, at[i]) == line_text(s, at[i]) by {
        assert(has_line(s, at[i]));
        assert(at[i + 1] <= k) by {
            assert(at[0] < at[1] < at[2] < at[3] < at[4] < at[5] < at[6] < at[7] < at[8]);
        }
        lemma_line_of_prefix(s, t, at[i], k);
    }
    assert(has_line(t, at[0]) && has_line(t, at[1]) && has_line(t, at[2]) && has_line(t, at[3]));
    assert(has_line(t, at[4]) && has_line(t, at[5]) && has_line(t, at[6]) && has_line(t, at[7]));
}

/// The record of a block is read where the block stands: where `s` from `p`
/// on reads as `t` from `q` on, a block at `p` in `s` is a block at `q` in `t`
/// with the same record and as many bytes of lines.
pub proof fn lemma_record_of_suffix(s: Seq<u8>, t: Seq<u8>, p: int, q: int)
    requires
        0 <= p <= s.len(),
        0 <= q <= t.len(),
        s.skip(p) == t.skip(q),
        record_at(s, p) is Ok,
    ensures
        record_at(t, q) == Ok::<(Snapshot, int), ParseError>(
            (record_at(s, p)->Ok_0.0, record_at(s, p)->Ok_0.1 - p + q),
        ),
{
    let at = lemma_record_lines(s, p);
    assert(at[0] < at[1] < at[2] < at[3] < at[4] < at[5] < at[6] < at[7] < at[8]);
    assert forall|i: int| 0 <= i < 8 implies has_line(t, #[trigger] at[i] - p + q) && line_next(
        t,
        at[i] - p + q,
    ) == line_next(s, at[i]) - p + q && line_text(t, at[i] - p + q) == line_text(s, at[i]) by {
        assert(has_line(s, at[i]));
        lemma_suffix_moves(s, t, p, q, at[i] - p);
        lemma_line_of_suffix(s, t, at[i], at[i] - p + q);
    }
    assert(has_line(t, at[0] - p + q) && has_line(t, at[1] - p + q) && has_line(t, at[2] - p + q));
    assert(has_line(t, at[3] - p + q) && has_line(t, at[4] - p + q) && has_line(t, at[5] - p + q));
    assert(has_line(t, at[6] - p + q) && has_line(t, at[7] - p + q));
}

/// However the tree detail of a block reads, the block has the record of its
/// lines, and ends where the separator next occurs behind them.
pub proof fn lemma_detail_is_skipped(s: Seq<u8>, t: Seq<u8>, from: int)
    requires
        0 <= from,
        record_at(s, from) matches Ok((_, at_detail)) && at_detail <= t.len() && t.take(at_detail)
            == s.take(at_detail),
    ensures
        snapshot_at(s, from) is Ok,
        snapshot_at(t, from) == Ok::<(Snapshot, int), ParseError>(
            (
                record_at(s, from)->Ok_0.0,
                first_occurrence(t, SEPARATOR.spec_bytes(), record_at(s, from)->Ok_0.1),
            ),
        ),
{
    lemma_record_ignores_detail(s, t, from);
}

/// A block is read where it stands: where `s` from `p` on reads as `t` from
/// `q` on, a block at `p` in `s` is a block at `q` in `t` with the same record
/// and as long.
pub proof fn lemma_snapshot_of_suffix(s: Seq<u8>, t: Seq<u8>, p: int, q: int)
    requires
        0 <= p <= s.len(),
        0 <= q <= t.len(),
        s.skip(p) == t.skip(q),
        snapshot_at(s, p) is Ok,
    ensures
        snapshot_at(t, q) == Ok::<(Snapshot, int), ParseError>(
            (snapshot_at(s, p)->Ok_0.0, snapshot_at(s, p)->Ok_0.1 - p + q),
        ),
        separator_at(t, q) is Ok,
{
    lemma_record_of_suffix(s, t, p, q);
    lemma_record_advances(s, p);
    let at_detail = record_at(s, p)->Ok_0.1;
    lemma_suffix_moves(s, t, p, q, at_detail - p);
    lemma_first_occurrence_of_suffix(s, t, SEPARATOR.spec_bytes(), at_detail, at_detail - p + q);
}

/// A section is read where it stands: where `s` from `p` on reads as `t`
/// from `q` on, a section that parses at `p` in `s` parses at `q` in `t`, to
/// the same records.
pub proof fn lemma_section_of_suffix(s: Seq<u8>, t: Seq<u8>, p: int, q: int)
    requires
        0 <= p <= s.len(),
        0 <= q <= t.len(),
        s.skip(p) == t.skip(q),
        snapshots_from(s, p) is Ok,
    ensures
        snapshots_from(t, q) == snapshots_from(s, p),
    decreases s.len() - p,
{
    assert(s.skip(p).len() == s.len() - p);
    assert(t.skip(q).len() == t.len() - q);
    if p < s.len() {
        lemma_snapshot_of_suffix(s, t, p, q);
        lemma_snapshot_advances(s, p);
        let next = snapshot_at(s, p)->Ok_0.1;
        lemma_suffix_moves(s, t, p, q, next - p);
        lemma_section_of_suffix(s, t, next, next - p + q);
    }
}

/// The tree detail of a block has no part in what its section holds. Let a
/// section of `s` parse, and let its block number `i` have its tree line end
/// at `at_detail`. Then a text that agrees with `s` up to `at_detail`, and
/// reads from the next separator behind `at_detail` on as `s` does from its
/// next separator on, has the same records in that section.
pub proof fn lemma_detail_replaced_in_section(s: Seq<u8>, t: Seq<u8>, from: int, i: nat)
    requires
        0 <= from,
        snapshots_from(s, from) matches Ok(records) && i < records.len(),
        ({
            let at_detail = record_at(s, block_start(s, from, i))->Ok_0.1;
            &&& at_detail <= t.len()
            &&& t.take(at_detail) == s.take(at_detail)
            &&& t.skip(first_occurrence(t, SEPARATOR.spec_bytes(), at_detail)) == s.skip(
                first_occurrence(s, SEPARATOR.spec_bytes(), at_detail),
            )
        }),
    ensures
        snapshots_from(t, from) == snapshots_from(s, from),
    decreases i,
{
    let sep = SEPARATOR.spec_bytes();
    let block = block_start(s, from, i);
    let at_detail = record_at(s, block)->Ok_0.1;
    lemma_snapshots_in_text_order(s, from, i);
    let lines = lemma_record_lines(s, block);
    assert(lines[0] < lines[1] < lines[8]);
    lemma_snapshot_advances(s, from);
    if i == 0 {
        lemma_record_ignores_detail(s, t, from);
        lemma_first_occurrence(s, sep, at_detail);
        lemma_first_occurrence(t, sep, at_detail);
        lemma_section_of_suffix(
            s,
            t,
            first_occurrence(s, sep, at_detail),
            first_occurrence(t, sep, at_detail),
        );
    } else {
        let first_detail = record_at(s, from)->Ok_0.1;
        let next = snapshot_at(s, from)->Ok_0.1;
        let first_lines = lemma_record_lines(s, from);
        assert(first_lines[8] == first_detail);
        assert(block_start(s, from, i) == block_start(s, next, (i - 1) as nat));
        lemma_block_starts_ordered(s, next, 0, (i - 1) as nat);
        assert(next <= block);
        // The separator line that opens block `i` lies before `at_detail`.
        assert(has_line(s, lines[0]));
        lemma_line_end(s, block);
        assert(line_text(s, block).len() == sep.len());
        assert(block + sep.len() == line_end(s, block));
        assert(next + sep.len() <= at_detail);
        lemma_first_occurrence(s, sep, first_detail);
        assert(s.take(first_detail) =~= s.take(at_detail).take(first_detail));
        assert(t.take(first_detail) =~= t.take(at_detail).take(first_detail));
        lemma_record_ignores_detail(s, t, from);
        lemma_first_occurrence_of_prefix(s, t, sep, first_detail, at_detail);
        lemma_detail_replaced_in_section(s, t, next, (i - 1) as nat);
    }
}

/// Tree detail is skipped, not parsed: it leaves nothing in the model. Let
/// `s` parse, let `at_detail` be where the tree line of its block number `i`
/// ends, and let `t` be `s` with the detail of that block, which runs from
/// `at_detail` to the next separator or to the end of the text, replaced by
/// `detail`, such that in `t` too the separator first occurs behind
/// `at_detail` where `detail` ends. Then `t` parses to the model of `s`.
pub proof fn lemma_detail_leaves_no_trace(s: Seq<u8>, t: Seq<u8>, i: nat, detail: Seq<u8>)
    requires
        document(s) matches Ok(model) && i < model.snapshots.len(),
        ({
            let block = block_start(s, header_at(s)->Ok_0.1, i);
            let at_detail = record_at(s, block)->Ok_0.1;
            let detail_end = snapshot_at(s, block)->Ok_0.1;
            &&& t == s.take(at_detail) + detail + s.skip(detail_end)
            &&& first_occurrence(t, SEPARATOR.spec_bytes(), at_detail) == at_detail + detail.len()
        }),
    ensures
        document(t) == document(s),
{
    let at_snapshots = header_at(s)->Ok_0.1;
    let block = block_start(s, at_snapshots, i);
    let at_detail = record_at(s, block)->Ok_0.1;
    let detail_end = snapshot_at(s, block)->Ok_0.1;
    lemma_header_advances(s);
    lemma_snapshots_in_text_order(s, at_snapshots, i);
    lemma_block_starts_ordered(s, at_snapshots, 0, i);
    lemma_snapshot_advances(s, block);
    lemma_first_occurrence(s, SEPARATOR.spec_bytes(), at_detail);
    assert(at_snapshots <= block < detail_end);
    assert(block < at_detail <= detail_end <= s.len()) by {
        lemma_record_advances(s, block);
    }
    assert(t.take(at_detail) =~= s.take(at_detail));
    assert(t.skip(at_detail + detail.len()) =~= s.skip(detail_end));
    lemma_header_of_prefix(s, t, at_detail);
    lemma_detail_replaced_in_section(s, t, at_snapshots, i);
}

} // verus!
