//! Line primitives: splitting off a line, stripping a key from its start, and
//! scanning up to a literal. Every parser of the grammar is built from these.

use vstd::prelude::*;
use vstd::slice::slice_subrange;
use crate::error::LineError;

verus! {

/// Line feed.
pub const LF: u8 = 0x0a;

/// Carriage return.
pub const CR: u8 = 0x0d;

/// A byte at which the text of a line ends: a line feed or a carriage return.
pub open spec fn is_line_break(b: u8) -> bool {
    b == LF || b == CR
}

/// The position of the first line-break byte at or after `from`, or the length
/// of `s` where there is none.
pub open spec fn line_end(s: Seq<u8>, from: int) -> int
    decreases s.len() - from,
{
    if from >= s.len() {
        s.len() as int
    } else if is_line_break(s[from]) {
        from
    } else {
        line_end(s, from + 1)
    }
}

/// The length of the line terminator that begins at `at`: 1 for a line feed,
/// 2 for a carriage return followed by a line feed, 0 where neither stands.
pub open spec fn terminator_len(s: Seq<u8>, at: int) -> int {
    if 0 <= at < s.len() && s[at] == LF {
        1
    } else if 0 <= at && at + 1 < s.len() && s[at] == CR && s[at + 1] == LF {
        2
    } else {
        0
    }
}

/// A terminated line begins at `from`: a terminator stands where its text
/// ends. A carriage return without a line feed behind it terminates nothing.
pub open spec fn has_line(s: Seq<u8>, from: int) -> bool {
    terminator_len(s, line_end(s, from)) > 0
}

/// The text of the line that begins at `from`, without its terminator.
pub open spec fn line_text(s: Seq<u8>, from: int) -> Seq<u8> {
    s.subrange(from, line_end(s, from))
}

/// The position just behind the terminator of the line that begins at `from`.
pub open spec fn line_next(s: Seq<u8>, from: int) -> int {
    line_end(s, from) + terminator_len(s, line_end(s, from))
}

/// The number of line feeds among the first `upto` bytes of `s`.
pub open spec fn line_feeds(s: Seq<u8>, upto: int) -> nat
    decreases upto,
{
    if upto <= 0 {
        0
    } else if upto > s.len() {
        line_feeds(s, s.len() as int)
    } else if s[upto - 1] == LF {
        line_feeds(s, upto - 1) + 1
    } else {
        line_feeds(s, upto - 1)
    }
}

/// The number of lines that end before `offset`: the line in which `offset`
/// lies, counted from 0.
pub fn lines_before(input: &[u8], offset: usize) -> (count: usize)
    ensures
        count == line_feeds(input@, offset as int),
{
    let n = input.len();
    let end = if offset < n {
        offset
    } else {
        n
    };
    let mut count: usize = 0;
    let mut i: usize = 0;
    while i < end
        invariant
            n == input@.len(),
            i <= end <= n,
            count == line_feeds(input@, i as int),
            count <= i,
        decreases end - i,
    {
        if input[i] == LF {
            count = count + 1;
        }
        i = i + 1;
    }
    count
}

/// The end of the line that begins at `from` is the first line break at or
/// after `from`: no byte before it is one, and it is one unless the text ends there.
pub proof fn lemma_line_end(s: Seq<u8>, from: int)
    requires
        0 <= from <= s.len(),
    ensures
        from <= line_end(s, from) <= s.len(),
        forall|i: int| from <= i < line_end(s, from) ==> !is_line_break(#[trigger] s[i]),
        line_end(s, from) < s.len() ==> is_line_break(s[line_end(s, from)]),
    decreases s.len() - from,
{
    if from < s.len() && !is_line_break(s[from]) {
        lemma_line_end(s, from + 1);
    }
}

/// A terminated line is not empty with its terminator: the rest of the text
/// begins behind `from` and inside the text.
pub proof fn lemma_line_advances(s: Seq<u8>, from: int)
    requires
        0 <= from,
        has_line(s, from),
    ensures
        from <= line_end(s, from) < line_next(s, from) <= s.len(),
{
    if from <= s.len() {
        lemma_line_end(s, from);
    }
}

/// Splits off the line that begins at `start`: returns the line without its
/// terminator, and the position at which the rest of the text begins.
pub fn get_line(input: &[u8], start: usize) -> (r: Result<(&[u8], usize), LineError>)
    ensures
        r is Ok <==> has_line(input@, start as int),
        r matches Ok((line, next)) ==> line@ == line_text(input@, start as int) && next
            == line_next(input@, start as int),
        r matches Err(e) ==> e == LineError::MalformedInput,
{
    let n = input.len();
    let mut i: usize = start;
    while i < n && input[i] != LF && input[i] != CR
        invariant
            n == input@.len(),
            start <= i,
            line_end(input@, start as int) == line_end(input@, i as int),
        decreases n - i,
    {
        i = i + 1;
    }
    if i < n && input[i] == LF {
        Ok((slice_subrange(input, start, i), i + 1))
    } else if i < n && i + 1 < n && input[i] == CR && input[i + 1] == LF {
        Ok((slice_subrange(input, start, i), i + 2))
    } else {
        Err(LineError::MalformedInput)
    }
}

/// Whether `a` and `b` hold the same bytes.
pub fn same_bytes(a: &[u8], b: &[u8]) -> (same: bool)
    ensures
        same == (a@ == b@),
{
    let n = a.len();
    if n != b.len() {
        return false;
    }
    let mut i: usize = 0;
    while i < n
        invariant
            n == a@.len(),
            n == b@.len(),
            i <= n,
            forall|j: int| 0 <= j < i ==> a@[j] == b@[j],
        decreases n - i,
    {
        if a[i] != b[i] {
            return false;
        }
        i = i + 1;
    }
    assert(a@ =~= b@);
    true
}

/// The bytes of `line` behind the literal `kw`, where `line` begins with it.
pub fn split_by<'a>(line: &'a [u8], kw: &[u8]) -> (r: Result<&'a [u8], LineError>)
    ensures
        r is Ok <==> kw@.is_prefix_of(line@),
        r matches Ok(rest) ==> rest@ == line@.skip(kw@.len() as int),
        r matches Err(e) ==> e == LineError::UnexpectedToken,
{
    let k = kw.len();
    if line.len() < k {
        return Err(LineError::UnexpectedToken);
    }
    let mut i: usize = 0;
    while i < k
        invariant
            k == kw@.len(),
            k <= line@.len(),
            i <= k,
            forall|j: int| 0 <= j < i ==> line@[j] == kw@[j],
        decreases k - i,
    {
        if line[i] != kw[i] {
            assert(line@.subrange(0, k as int)[i as int] != kw@[i as int]);
            return Err(LineError::UnexpectedToken);
        }
        i = i + 1;
    }
    assert(kw@ =~= line@.subrange(0, k as int));
    Ok(slice_subrange(line, k, line.len()))
}

/// The line that begins at `from` is terminated and begins with `key`.
pub open spec fn has_key(s: Seq<u8>, from: int, key: Seq<u8>) -> bool {
    has_line(s, from) && key.is_prefix_of(line_text(s, from))
}

/// What follows `key` on the line that begins at `from`.
pub open spec fn key_value(s: Seq<u8>, from: int, key: Seq<u8>) -> Seq<u8> {
    line_text(s, from).skip(key.len() as int)
}

/// Reads the line that begins at `start` and strips `kw` from its start:
/// returns the value that follows `kw` on the line, and the position at which
/// the rest of the text begins.
pub fn split_line_by<'a>(input: &'a [u8], start: usize, kw: &[u8]) -> (r: Result<
    (&'a [u8], usize),
    LineError,
>)
    ensures
        r is Ok <==> has_key(input@, start as int, kw@),
        r matches Ok((value, next)) ==> value@ == key_value(input@, start as int, kw@) && next
            == line_next(input@, start as int),
        r matches Err(e) ==> e == if has_line(input@, start as int) {
            LineError::UnexpectedToken
        } else {
            LineError::MalformedInput
        },
{
    match get_line(input, start) {
        Err(e) => Err(e),
        Ok((line, next)) => match split_by(line, kw) {
            Err(e) => Err(e),
            Ok(value) => Ok((value, next)),
        },
    }
}

/// `pat` stands in `s` at position `at`.
pub open spec fn occurs_at(s: Seq<u8>, pat: Seq<u8>, at: int) -> bool {
    0 <= at && at + pat.len() <= s.len() && s.subrange(at, at + pat.len()) == pat
}

/// The position of the first occurrence of `pat` in `s` at or after `from`,
/// or the length of `s` where there is none.
pub open spec fn first_occurrence(s: Seq<u8>, pat: Seq<u8>, from: int) -> int
    decreases s.len() - from,
{
    if from >= s.len() || from + pat.len() > s.len() {
        s.len() as int
    } else if occurs_at(s, pat, from) {
        from
    } else {
        first_occurrence(s, pat, from + 1)
    }
}

/// The first occurrence at or after `from` is an occurrence unless it is the
/// end of the text, and `pat` occurs nowhere between `from` and it.
pub proof fn lemma_first_occurrence(s: Seq<u8>, pat: Seq<u8>, from: int)
    requires
        0 <= from <= s.len(),
    ensures
        from <= first_occurrence(s, pat, from) <= s.len(),
        forall|i: int| from <= i < first_occurrence(s, pat, from) ==> !occurs_at(s, pat, i),
        first_occurrence(s, pat, from) < s.len() ==> occurs_at(
            s,
            pat,
            first_occurrence(s, pat, from),
        ),
    decreases s.len() - from,
{
    if from < s.len() && from + pat.len() <= s.len() && !occurs_at(s, pat, from) {
        lemma_first_occurrence(s, pat, from + 1);
    }
}

/// `pat` stands in `input` at position `at`.
fn matches_at(input: &[u8], pat: &[u8], at: usize) -> (b: bool)
    requires
        at + pat@.len() <= input@.len(),
    ensures
        b == occurs_at(input@, pat@, at as int),
{
    let n = input.len();
    let k = pat.len();
    let mut i: usize = 0;
    while i < k
        invariant
            n == input@.len(),
            k == pat@.len(),
            at + k <= n,
            i <= k,
            forall|j: int| 0 <= j < i ==> input@[at + j] == pat@[j],
        decreases k - i,
    {
        if input[at + i] != pat[i] {
            assert(input@.subrange(at as int, at + k)[i as int] != pat@[i as int]);
            return false;
        }
        i = i + 1;
    }
    assert(input@.subrange(at as int, at + k) =~= pat@);
    true
}

/// Scans forward from `start` to the next occurrence of `pat`: returns the
/// position at which it begins, or the length of the text where `pat` does not
/// occur again.
pub fn skip_until(input: &[u8], start: usize, pat: &[u8]) -> (next: usize)
    ensures
        next == first_occurrence(input@, pat@, start as int),
{
    let n = input.len();
    let k = pat.len();
    let mut i: usize = start;
    while i < n && k <= n - i
        invariant
            n == input@.len(),
            k == pat@.len(),
            start <= i,
            first_occurrence(input@, pat@, start as int) == first_occurrence(
                input@,
                pat@,
                i as int,
            ),
        decreases n - i,
    {
        if matches_at(input, pat, i) {
            return i;
        }
        i = i + 1;
    }
    n
}

} // verus!
