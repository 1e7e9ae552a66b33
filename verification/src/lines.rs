//! Cutting a byte buffer into lines.
//!
//! A line is a maximal run of bytes up to and including a newline, or the
//! unterminated run that ends the buffer. No line is empty.

use vstd::prelude::*;

verus! {

/// The newline byte that ends a line.
pub const NEWLINE: u8 = 10;

/// The index just past the first newline at or after `from`, or the length
/// of `s` when no newline follows.
pub open spec fn line_end(s: Seq<u8>, from: int) -> int
    decreases s.len() - from,
{
    if from < 0 || from >= s.len() {
        s.len() as int
    } else if s[from] == NEWLINE {
        from + 1
    } else {
        line_end(s, from + 1)
    }
}

/// The lines of `s` that start at or after `from`, where `from` is the start
/// of a line.
pub open spec fn lines_from(s: Seq<u8>, from: int) -> Seq<Seq<u8>>
    decreases s.len() - from,
{
    let end = line_end(s, from);
    if 0 <= from < end <= s.len() {
        seq![s.subrange(from, end)] + lines_from(s, end)
    } else {
        Seq::empty()
    }
}

/// All lines of `s`, in order.
pub open spec fn lines_of(s: Seq<u8>) -> Seq<Seq<u8>> {
    lines_from(s, 0)
}

/// The bytes of all `lines`, one after the other.
pub open spec fn concat(lines: Seq<Seq<u8>>) -> Seq<u8>
    decreases lines.len(),
{
    if lines.len() == 0 {
        Seq::empty()
    } else {
        concat(lines.drop_last()) + lines.last()
    }
}

/// The line ends in a newline.
pub open spec fn terminated(line: Seq<u8>) -> bool {
    line.len() > 0 && line.last() == NEWLINE
}

/// What one line adds to the progress counter: the bytes before its newline
/// and one for the record separator, whether the line holds one or not. That
/// is the length of a line that ends in a newline, and one more than the
/// length of a line that does not.
pub open spec fn step_size(line: Seq<u8>) -> int {
    if terminated(line) {
        line.len() as int
    } else {
        line.len() as int + 1
    }
}

/// What the progress counter shows after `lines`.
pub open spec fn progress(lines: Seq<Seq<u8>>) -> int
    decreases lines.len(),
{
    if lines.len() == 0 {
        0
    } else {
        progress(lines.drop_last()) + step_size(lines.last())
    }
}

/// What the counter is ahead of the bytes: one where the bytes do not end in
/// a newline, nothing where they do or where there are none.
pub open spec fn overcount(s: Seq<u8>) -> int {
    if s.len() > 0 && s.last() != NEWLINE {
        1
    } else {
        0
    }
}

/// A line ends after its start and within the buffer, holds no newline before
/// its last byte, and ends in a newline unless it ends the buffer.
pub proof fn lemma_line_end(s: Seq<u8>, from: int)
    requires
        0 <= from < s.len(),
    ensures
        from < line_end(s, from) <= s.len(),
        forall|i: int| from <= i < line_end(s, from) - 1 ==> #[trigger] s[i] != NEWLINE,
        line_end(s, from) < s.len() ==> s[line_end(s, from) - 1] == NEWLINE,
    decreases s.len() - from,
{
    if s[from] != NEWLINE {
        if from + 1 < s.len() {
            lemma_line_end(s, from + 1);
        } else {
            assert(line_end(s, from + 1) == s.len());
        }
    }
}

/// Putting a line in front adds its bytes in front.
pub proof fn lemma_concat_prepend(first: Seq<u8>, rest: Seq<Seq<u8>>)
    ensures
        concat(seq![first] + rest) == first + concat(rest),
    decreases rest.len(),
{
    let whole = seq![first] + rest;
    if rest.len() == 0 {
        assert(whole.drop_last() =~= Seq::<Seq<u8>>::empty());
        assert(concat(whole.drop_last()) =~= Seq::<u8>::empty());
        assert(concat(whole) =~= first + concat(rest));
    } else {
        lemma_concat_prepend(first, rest.drop_last());
        assert(whole.drop_last() =~= seq![first] + rest.drop_last());
        assert(whole.last() == rest.last());
        assert(concat(whole) =~= first + concat(rest));
    }
}

/// The lines from a line start on, put together, are the rest of the buffer.
pub proof fn lemma_lines_from(s: Seq<u8>, from: int)
    requires
        0 <= from <= s.len(),
    ensures
        concat(lines_from(s, from)) == s.subrange(from, s.len() as int),
    decreases s.len() - from,
{
    if from < s.len() {
        lemma_line_end(s, from);
        let end = line_end(s, from);
        lemma_lines_from(s, end);
        lemma_concat_prepend(s.subrange(from, end), lines_from(s, end));
        assert(s.subrange(from, end) + s.subrange(end, s.len() as int) =~= s.subrange(
            from,
            s.len() as int,
        ));
    } else {
        assert(concat(lines_from(s, from)) =~= s.subrange(from, s.len() as int));
    }
}

/// Cutting a buffer into lines loses nothing: the lines, put together, are
/// the buffer.
pub proof fn lemma_lines_rebuild(s: Seq<u8>)
    ensures
        concat(lines_of(s)) == s,
{
    lemma_lines_from(s, 0);
    assert(s.subrange(0, s.len() as int) =~= s);
}

/// An empty buffer has no lines.
pub proof fn lemma_lines_empty(s: Seq<u8>)
    ensures
        s.len() == 0 <==> lines_of(s).len() == 0,
{
    if s.len() > 0 {
        lemma_line_end(s, 0);
    }
}

/// Every line of a buffer is cut as one: it is not empty, holds no newline
/// before its last byte, and ends in a newline unless it is the last line.
pub proof fn lemma_lines_shape(s: Seq<u8>, from: int, i: int)
    requires
        0 <= from <= s.len(),
        0 <= i < lines_from(s, from).len(),
    ensures
        lines_from(s, from)[i].len() > 0,
        forall|j: int|
            0 <= j < lines_from(s, from)[i].len() - 1 ==> #[trigger] lines_from(s, from)[i][j]
                != NEWLINE,
        i + 1 < lines_from(s, from).len() ==> lines_from(s, from)[i].last() == NEWLINE,
    decreases s.len() - from,
{
    lemma_line_end(s, from);
    let end = line_end(s, from);
    if i > 0 {
        lemma_lines_shape(s, end, i - 1);
    } else {
        if 1 < lines_from(s, from).len() {
            lemma_lines_empty(s.subrange(end, s.len() as int));
            assert(end < s.len()) by {
                if end >= s.len() {
                    assert(lines_from(s, end).len() == 0);
                }
            }
        }
    }
}

/// A line as the cutting makes it: not empty, and with no newline before its
/// last byte.
pub open spec fn is_line(line: Seq<u8>) -> bool {
    line.len() > 0 && forall|j: int| 0 <= j < line.len() - 1 ==> #[trigger] line[j] != NEWLINE
}

/// Lines as the cutting makes them: each is a line, and each but the last
/// ends in a newline.
pub open spec fn well_cut(lines: Seq<Seq<u8>>) -> bool {
    forall|i: int|
        0 <= i < lines.len() ==> is_line(#[trigger] lines[i]) && (i + 1 < lines.len()
            ==> lines[i].last() == NEWLINE)
}

/// The lines of a buffer are cut well.
pub proof fn lemma_lines_well_cut(s: Seq<u8>)
    ensures
        well_cut(lines_of(s)),
{
    assert forall|i: int| 0 <= i < lines_of(s).len() implies is_line(#[trigger] lines_of(s)[i])
        && (i + 1 < lines_of(s).len() ==> lines_of(s)[i].last() == NEWLINE) by {
        lemma_lines_shape(s, 0, i);
    }
}

/// Over lines that are cut well the progress is the number of their bytes,
/// and one more where the last line has no newline.
pub proof fn lemma_progress_well_cut(lines: Seq<Seq<u8>>)
    requires
        well_cut(lines),
    ensures
        progress(lines) == concat(lines).len() + overcount(concat(lines)),
    decreases lines.len(),
{
    if lines.len() > 0 {
        let before = lines.drop_last();
        let last = lines.last();
        assert forall|i: int| 0 <= i < before.len() implies is_line(#[trigger] before[i]) && (i
            + 1 < before.len() ==> before[i].last() == NEWLINE) by {
            assert(before[i] == lines[i]);
        }
        lemma_progress_well_cut(before);
        assert(is_line(lines[lines.len() - 1]));
        if before.len() > 0 {
            let inner = before.last();
            assert(inner == lines[lines.len() - 2]);
            assert(is_line(inner) && inner.last() == NEWLINE);
            assert(concat(before) == concat(before.drop_last()) + inner);
            assert(concat(before).last() == inner.last());
        }
        assert(concat(lines) == concat(before) + last);
        assert(concat(lines).last() == last.last());
    }
}

/// The progress over all lines of a buffer is its length, and one more where
/// the buffer is not empty and does not end in a newline.
pub proof fn lemma_progress_total(s: Seq<u8>)
    ensures
        progress(lines_of(s)) == s.len() + overcount(s),
{
    lemma_lines_well_cut(s);
    lemma_lines_rebuild(s);
    lemma_progress_well_cut(lines_of(s));
}

/// Every line adds at least one to the progress, and no more than its bytes
/// and one.
pub proof fn lemma_progress_bounds(lines: Seq<Seq<u8>>)
    ensures
        lines.len() <= progress(lines) <= concat(lines).len() + lines.len(),
        concat(lines).len() <= progress(lines),
    decreases lines.len(),
{
    if lines.len() > 0 {
        lemma_progress_bounds(lines.drop_last());
    }
}

/// Where the bytes from `from` up to `end` hold no newline but perhaps the
/// last, and `end` closes a line or the buffer, the line that starts at
/// `from` ends at `end`.
pub proof fn lemma_line_end_at(s: Seq<u8>, from: int, end: int)
    requires
        0 <= from < end <= s.len(),
        forall|j: int| from <= j < end - 1 ==> #[trigger] s[j] != NEWLINE,
        end == s.len() || s[end - 1] == NEWLINE,
    ensures
        line_end(s, from) == end,
    decreases end - from,
{
    if from + 1 < end {
        lemma_line_end_at(s, from + 1, end);
    } else if s[from] != NEWLINE {
        assert(line_end(s, from + 1) == s.len());
    }
}

/// The end of a line does not depend on what stands before its start.
pub proof fn lemma_line_end_shift(s: Seq<u8>, k: int, from: int)
    requires
        0 <= k <= s.len(),
        0 <= from <= s.len() - k,
    ensures
        line_end(s, k + from) == k + line_end(s.subrange(k, s.len() as int), from),
    decreases s.len() - k - from,
{
    let tail = s.subrange(k, s.len() as int);
    if from < tail.len() {
        assert(tail[from] == s[k + from]);
        if s[k + from] != NEWLINE {
            lemma_line_end_shift(s, k, from + 1);
        }
    }
}

/// The lines from a line start on are the lines of the rest of the buffer.
pub proof fn lemma_lines_shift(s: Seq<u8>, k: int, from: int)
    requires
        0 <= k <= s.len(),
        0 <= from <= s.len() - k,
    ensures
        lines_from(s, k + from) == lines_from(s.subrange(k, s.len() as int), from),
    decreases s.len() - k - from,
{
    let tail = s.subrange(k, s.len() as int);
    lemma_line_end_shift(s, k, from);
    if from < tail.len() {
        lemma_line_end(tail, from);
        let end = line_end(tail, from);
        lemma_lines_shift(s, k, end);
        assert(s.subrange(k + from, k + end) =~= tail.subrange(from, end));
    }
}

/// Lines that are cut well are the lines of their bytes put together.
pub proof fn lemma_rebuild_lines(lines: Seq<Seq<u8>>)
    requires
        well_cut(lines),
    ensures
        lines_of(concat(lines)) == lines,
    decreases lines.len(),
{
    if lines.len() == 0 {
        assert(lines_of(concat(lines)) =~= lines);
    } else {
        let first = lines[0];
        let rest = lines.drop_first();
        assert(seq![first] + rest =~= lines);
        lemma_concat_prepend(first, rest);
        let s = concat(lines);
        let end = first.len() as int;
        assert(s == first + concat(rest));
        assert(is_line(lines[0]));
        assert forall|i: int| 0 <= i < rest.len() implies is_line(#[trigger] rest[i]) && (i + 1
            < rest.len() ==> rest[i].last() == NEWLINE) by {
            assert(rest[i] == lines[i + 1]);
        }
        lemma_rebuild_lines(rest);
        assert forall|j: int| 0 <= j < end - 1 implies #[trigger] s[j] != NEWLINE by {
            assert(s[j] == first[j]);
        }
        if rest.len() > 0 {
            assert(first.last() == NEWLINE);
            assert(s[end - 1] == first[end - 1]);
        } else {
            assert(concat(rest) =~= Seq::<u8>::empty());
        }
        lemma_line_end_at(s, 0, end);
        lemma_lines_shift(s, end, 0);
        assert(s.subrange(end, s.len() as int) =~= concat(rest));
        assert(s.subrange(0, end) =~= first);
        assert(lines_of(s) =~= seq![first] + rest);
    }
}

/// What `line` adds to the progress counter.
pub fn step_len(line: &[u8]) -> (r: u64)
    requires
        step_size(line@) <= u64::MAX,
    ensures
        r == step_size(line@),
{
    let n: usize = line.len();
    if n > 0 && line[n - 1] == NEWLINE {
        n as u64
    } else {
        n as u64 + 1
    }
}

/// A source of lines over a buffer held in memory.
pub struct BufLines {
    buf: Vec<u8>,
    pos: usize,
}

impl BufLines {
    /// The bytes that the lines are cut from.
    pub closed spec fn source(&self) -> Seq<u8> {
        self.buf@
    }

    /// How many bytes of the source have been handed out.
    pub closed spec fn consumed(&self) -> int {
        self.pos as int
    }

    /// The position lies within the buffer.
    pub closed spec fn wf(&self) -> bool {
        self.pos <= self.buf.len()
    }

    /// The lines still to come.
    pub open spec fn remaining(&self) -> Seq<Seq<u8>> {
        lines_from(self.source(), self.consumed())
    }

    /// Starts at the first byte of `buf`.
    pub fn new(buf: Vec<u8>) -> (r: BufLines)
        ensures
            r.wf(),
            r.source() == buf@,
            r.consumed() == 0,
            r.remaining() == lines_of(buf@),
    {
        BufLines { buf, pos: 0 }
    }

    /// The number of bytes handed out so far.
    pub fn position(&self) -> (r: usize)
        ensures
            r == self.consumed(),
    {
        self.pos
    }

    /// Hands out the next line, newline included, or `None` once the buffer
    /// is used up.
    pub fn next(&mut self) -> (r: Option<Vec<u8>>)
        requires
            old(self).wf(),
        ensures
            final(self).wf(),
            final(self).source() == old(self).source(),
            old(self).consumed() <= final(self).consumed() <= old(self).source().len(),
            match r {
                None => old(self).remaining().len() == 0 && final(self).consumed() == old(
                    self,
                ).consumed() && old(self).consumed() == old(self).source().len(),
                Some(line) => line@.len() > 0 && old(self).remaining() == seq![line@]
                    + final(self).remaining() && line@ == old(self).source().subrange(
                    old(self).consumed(),
                    final(self).consumed(),
                ) && final(self).consumed() == line_end(
                    old(self).source(),
                    old(self).consumed(),
                ),
            },
    {
        let start: usize = self.pos;
        let len: usize = self.buf.len();
        if start >= len {
            return None;
        }
        let mut line: Vec<u8> = Vec::new();
        let mut i: usize = start;
        let mut found: bool = false;
        while i < len && !found
            invariant
                start <= i <= len,
                len == self.buf.len(),
                self.buf == old(self).buf,
                self.pos == start,
                line@ == self.buf@.subrange(start as int, i as int),
                line_end(self.buf@, start as int) == if found {
                    i as int
                } else {
                    line_end(self.buf@, i as int)
                },
                found ==> i > start,
            decreases len - i, if found { 0int } else { 1int },
        {
            let b: u8 = self.buf[i];
            line.push(b);
            proof {
                assert(self.buf@.subrange(start as int, i as int).push(b) =~= self.buf@.subrange(
                    start as int,
                    i as int + 1,
                ));
            }
            if b == NEWLINE {
                found = true;
            }
            i = i + 1;
        }
        self.pos = i;
        Some(line)
    }
}

} // verus!
