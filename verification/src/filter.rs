//! Filter mode: keep the lines whose string at a key equals a target.

use crate::json::{json_text_at, text_at};
use crate::lines::{
    concat, is_line, lemma_line_end, lemma_lines_rebuild, lemma_lines_well_cut,
    lemma_progress_total, lemma_progress_well_cut, lemma_rebuild_lines, lines_of, overcount,
    progress, step_len, step_size, well_cut, BufLines, NEWLINE,
};
use vstd::prelude::*;
use vstd::slice::slice_to_vec;

verus! {

/// A line that is not valid JSON, by its index among the lines of the input.
#[derive(Debug)]
pub struct ParseError {
    pub line: u64,
}

/// The line is valid JSON.
pub open spec fn parses(line: Seq<u8>, key: Seq<char>) -> bool {
    json_text_at(line, key) is Some
}

/// The line is an object that holds the string `filter` under `key`.
pub open spec fn keeps(line: Seq<u8>, key: Seq<char>, filter: Seq<char>) -> bool {
    json_text_at(line, key) == Some(Some(filter))
}

/// The lines that filter mode keeps, in their order.
pub open spec fn kept(lines: Seq<Seq<u8>>, key: Seq<char>, filter: Seq<char>) -> Seq<Seq<u8>> {
    lines.filter(|line: Seq<u8>| keeps(line, key, filter))
}

/// What filter mode hands back: the bytes to write, and the two counters.
#[derive(Debug)]
pub struct Filtered {
    pub output: Vec<u8>,
    pub total_read: u64,
    pub total_wrote: u64,
}

/// A filter run that met a line that is not valid JSON: the index of that
/// line, and what the run had written and counted over the lines before it.
#[derive(Debug)]
pub struct FilterError {
    pub line: u64,
    pub output: Vec<u8>,
    pub total_read: u64,
    pub total_wrote: u64,
}

/// Whether the string found at the key equals `filter`; `None` where no
/// string was found.
pub fn is_filtered(text: &Option<String>, filter: &str) -> (r: Option<bool>)
    ensures
        r == match *text {
            Some(t) => Some(t@ == filter@),
            None => None,
        },
{
    match text {
        Some(t) => {
            let target: String = filter.to_owned();
            Some(*t == target)
        },
        None => None,
    }
}

/// Decides one line: `Some(true)` to keep it, `Some(false)` to drop it,
/// `None` where it is not valid JSON.
pub fn keep_line(line: &[u8], key: &str, filter: &str) -> (r: Option<bool>)
    ensures
        r == if parses(line@, key@) {
            Some(keeps(line@, key@, filter@))
        } else {
            None
        },
{
    match text_at(line, key) {
        None => None,
        Some(text) => {
            let found = is_filtered(&text, filter);
            Some(found == Some(true))
        },
    }
}

/// The counters of a filter run in progress: what the lines read and the
/// lines written add to the progress, and the number of lines decided.
#[derive(Debug)]
pub struct FilterRun {
    pub total_read: u64,
    pub total_wrote: u64,
    pub lines: u64,
}

impl FilterRun {
    /// Nothing was written that was not read, and every line read counted
    /// at least one.
    pub open spec fn wf(&self) -> bool {
        self.total_wrote <= self.total_read && self.lines <= self.total_read
    }

    /// A run before its first line.
    pub fn new() -> (r: FilterRun)
        ensures
            r.wf(),
            r.total_read == 0,
            r.total_wrote == 0,
            r.lines == 0,
    {
        FilterRun { total_read: 0, total_wrote: 0, lines: 0 }
    }

    /// Decides the next line and counts it. `Ok(true)` asks the caller to
    /// write the line as it is, `Ok(false)` to drop it. A line that is not
    /// valid JSON ends the run: the error holds its index and the counters
    /// stay as they were.
    pub fn step(&mut self, line: &[u8], key: &str, filter: &str) -> (r: Result<bool, ParseError>)
        requires
            old(self).wf(),
            old(self).total_read + step_size(line@) <= u64::MAX,
        ensures
            match r {
                Ok(keep) => {
                    &&& parses(line@, key@)
                    &&& keep == keeps(line@, key@, filter@)
                    &&& final(self).wf()
                    &&& final(self).total_read == old(self).total_read + step_size(line@)
                    &&& final(self).total_wrote == old(self).total_wrote + if keep {
                        step_size(line@)
                    } else {
                        0
                    }
                    &&& final(self).lines == old(self).lines + 1
                },
                Err(e) => {
                    &&& !parses(line@, key@)
                    &&& e.line == old(self).lines
                    &&& *final(self) == *old(self)
                },
            },
    {
        match keep_line(line, key, filter) {
            None => Err(ParseError { line: self.lines }),
            Some(keep) => {
                let line_len: u64 = step_len(line);
                if keep {
                    self.total_wrote = self.total_wrote + line_len;
                }
                self.total_read = self.total_read + line_len;
                self.lines = self.lines + 1;
                Ok(keep)
            },
        }
    }
}

/// Appending one line to those already decided.
pub proof fn lemma_kept_push(
    done: Seq<Seq<u8>>,
    line: Seq<u8>,
    key: Seq<char>,
    filter: Seq<char>,
)
    ensures
        kept(done.push(line), key, filter) == if keeps(line, key, filter) {
            kept(done, key, filter).push(line)
        } else {
            kept(done, key, filter)
        },
{
    reveal(Seq::filter);
    assert(done.push(line).drop_last() =~= done);
}

/// What `write_filtered_rows` returns for `input`, `key` and `filter`.
pub open spec fn filter_result(
    input: Seq<u8>,
    key: Seq<char>,
    filter: Seq<char>,
    r: Result<Filtered, FilterError>,
) -> bool {
    let lines = lines_of(input);
    match r {
        Ok(f) => {
            &&& forall|i: int| 0 <= i < lines.len() ==> parses(#[trigger] lines[i], key)
            &&& f.output@ == concat(kept(lines, key, filter))
            &&& f.total_read == progress(lines)
            &&& f.total_wrote == progress(kept(lines, key, filter))
        },
        Err(e) => {
            &&& e.line < lines.len()
            &&& !parses(lines[e.line as int], key)
            &&& forall|i: int| 0 <= i < e.line ==> parses(#[trigger] lines[i], key)
            &&& e.output@ == concat(kept(lines.take(e.line as int), key, filter))
            &&& e.total_read == progress(lines.take(e.line as int))
            &&& e.total_wrote == progress(kept(lines.take(e.line as int), key, filter))
        },
    }
}

/// A line is kept exactly when it is a line of the input that holds the
/// target under the key.
pub proof fn lemma_kept_members(
    lines: Seq<Seq<u8>>,
    key: Seq<char>,
    filter: Seq<char>,
    line: Seq<u8>,
)
    ensures
        kept(lines, key, filter).contains(line) <==> lines.contains(line) && keeps(
            line,
            key,
            filter,
        ),
    decreases lines.len(),
{
    if lines.len() > 0 {
        let before = lines.drop_last();
        let last = lines.last();
        lemma_kept_members(before, key, filter, line);
        assert(before.push(last) =~= lines);
        lemma_kept_push(before, last, key, filter);
        assert(lines.contains(line) <==> before.contains(line) || last == line) by {
            if lines.contains(line) {
                let i = choose|i: int| 0 <= i < lines.len() && lines[i] == line;
                if i < before.len() {
                    assert(before[i] == line);
                }
            }
            if before.contains(line) {
                let i = choose|i: int| 0 <= i < before.len() && before[i] == line;
                assert(lines[i] == line);
            }
            if last == line {
                assert(lines[lines.len() - 1] == line);
            }
        }
        let sub = kept(before, key, filter);
        if keeps(last, key, filter) {
            assert(sub.push(last).contains(line) <==> sub.contains(line) || last == line) by {
                if sub.push(last).contains(line) {
                    let i = choose|i: int| 0 <= i < sub.push(last).len() && sub.push(last)[i] == line;
                    if i < sub.len() {
                        assert(sub[i] == line);
                    }
                }
                if sub.contains(line) {
                    let i = choose|i: int| 0 <= i < sub.len() && sub[i] == line;
                    assert(sub.push(last)[i] == line);
                }
                if last == line {
                    assert(sub.push(last)[sub.len() as int] == line);
                }
            }
        }
    } else {
        reveal(Seq::filter);
    }
}

/// The kept lines of well-cut lines are cut well.
pub proof fn lemma_kept_well_cut(lines: Seq<Seq<u8>>, key: Seq<char>, filter: Seq<char>)
    requires
        well_cut(lines),
    ensures
        well_cut(kept(lines, key, filter)),
    decreases lines.len(),
{
    if lines.len() == 0 {
        reveal(Seq::filter);
    } else {
        let before = lines.drop_last();
        let last = lines.last();
        assert(before.push(last) =~= lines);
        assert forall|i: int| 0 <= i < before.len() implies is_line(#[trigger] before[i]) && (i
            + 1 < before.len() ==> before[i].last() == NEWLINE) by {
            assert(before[i] == lines[i]);
        }
        lemma_kept_well_cut(before, key, filter);
        lemma_kept_push(before, last, key, filter);
        let sub = kept(before, key, filter);
        if keeps(last, key, filter) {
            let all = sub.push(last);
            assert forall|i: int| 0 <= i < all.len() implies is_line(#[trigger] all[i]) && (i + 1
                < all.len() ==> all[i].last() == NEWLINE) by {
                if i < sub.len() {
                    assert(all[i] == sub[i]);
                    assert(sub.contains(sub[i]));
                    lemma_kept_members(before, key, filter, sub[i]);
                    let j = choose|j: int| 0 <= j < before.len() && before[j] == sub[i];
                    assert(lines[j] == sub[i]);
                } else {
                    assert(all[i] == lines[lines.len() - 1]);
                }
            }
        }
    }
}

/// Keeping twice keeps what keeping once keeps.
pub proof fn lemma_kept_twice(lines: Seq<Seq<u8>>, key: Seq<char>, filter: Seq<char>)
    ensures
        kept(kept(lines, key, filter), key, filter) == kept(lines, key, filter),
    decreases lines.len(),
{
    if lines.len() == 0 {
        reveal(Seq::filter);
    } else {
        let before = lines.drop_last();
        let last = lines.last();
        assert(before.push(last) =~= lines);
        lemma_kept_twice(before, key, filter);
        lemma_kept_push(before, last, key, filter);
        lemma_kept_push(kept(before, key, filter), last, key, filter);
    }
}

/// Filtering what a run wrote, with the same key and target, succeeds and
/// writes the same bytes again.
pub proof fn lemma_filter_idempotent(
    input: Seq<u8>,
    key: Seq<char>,
    filter: Seq<char>,
    first: Filtered,
    second: Result<Filtered, FilterError>,
)
    requires
        filter_result(input, key, filter, Ok(first)),
        filter_result(first.output@, key, filter, second),
    ensures
        second is Ok,
        second->Ok_0.output@ == first.output@,
        second->Ok_0.total_read == first.total_wrote,
        second->Ok_0.total_wrote == first.total_wrote,
{
    let lines = lines_of(input);
    let once = kept(lines, key, filter);
    lemma_lines_well_cut(input);
    lemma_kept_well_cut(lines, key, filter);
    lemma_rebuild_lines(once);
    lemma_kept_twice(lines, key, filter);
    assert forall|i: int| 0 <= i < once.len() implies parses(#[trigger] once[i], key) by {
        assert(once.contains(once[i]));
        lemma_kept_members(lines, key, filter, once[i]);
    }
}

/// Two runs on the same input, key and target end alike: both fail at the
/// same line or both succeed, with the same bytes and counters either way.
pub proof fn lemma_filter_deterministic(
    input: Seq<u8>,
    key: Seq<char>,
    filter: Seq<char>,
    first: Result<Filtered, FilterError>,
    second: Result<Filtered, FilterError>,
)
    requires
        filter_result(input, key, filter, first),
        filter_result(input, key, filter, second),
    ensures
        first is Ok <==> second is Ok,
        first is Ok ==> first->Ok_0.output@ == second->Ok_0.output@ && first->Ok_0.total_read
            == second->Ok_0.total_read && first->Ok_0.total_wrote == second->Ok_0.total_wrote,
        first is Err ==> first->Err_0.line == second->Err_0.line && first->Err_0.output@
            == second->Err_0.output@ && first->Err_0.total_read == second->Err_0.total_read
            && first->Err_0.total_wrote == second->Err_0.total_wrote,
{
}

/// On an empty input the run succeeds, writes nothing and counts nothing.
pub proof fn lemma_filter_empty(
    key: Seq<char>,
    filter: Seq<char>,
    r: Result<Filtered, FilterError>,
)
    requires
        filter_result(Seq::<u8>::empty(), key, filter, r),
    ensures
        r is Ok,
        r->Ok_0.output@.len() == 0,
        r->Ok_0.total_read == 0,
        r->Ok_0.total_wrote == 0,
{
    reveal(Seq::filter);
    assert(lines_of(Seq::<u8>::empty()).len() == 0);
    assert(kept(lines_of(Seq::<u8>::empty()), key, filter).len() == 0);
}

/// What was read is the length of the input, and one more where the input
/// is not empty and does not end in a newline; what was written is the
/// length of the output, with one more in the same way. Neither the output
/// nor its counter exceeds the input or its counter.
pub proof fn lemma_filter_counters(
    input: Seq<u8>,
    key: Seq<char>,
    filter: Seq<char>,
    r: Result<Filtered, FilterError>,
)
    requires
        filter_result(input, key, filter, r),
        r is Ok,
    ensures
        r->Ok_0.total_read == input.len() + overcount(input),
        r->Ok_0.total_wrote == r->Ok_0.output@.len() + overcount(r->Ok_0.output@),
        r->Ok_0.total_wrote <= r->Ok_0.total_read,
        r->Ok_0.output@.len() <= input.len(),
{
    let lines = lines_of(input);
    lemma_progress_total(input);
    lemma_lines_well_cut(input);
    lemma_kept_well_cut(lines, key, filter);
    lemma_progress_well_cut(kept(lines, key, filter));
    lemma_kept_progress(lines, key, filter);
    lemma_kept_length(lines, key, filter);
    lemma_lines_rebuild(input);
}

/// The kept lines hold no more bytes than all lines.
pub proof fn lemma_kept_length(lines: Seq<Seq<u8>>, key: Seq<char>, filter: Seq<char>)
    ensures
        concat(kept(lines, key, filter)).len() <= concat(lines).len(),
    decreases lines.len(),
{
    if lines.len() > 0 {
        lemma_kept_length(lines.drop_last(), key, filter);
        assert(lines.drop_last().push(lines.last()) =~= lines);
        lemma_kept_push(lines.drop_last(), lines.last(), key, filter);
        let sub = kept(lines.drop_last(), key, filter);
        assert(sub.push(lines.last()).drop_last() =~= sub);
    } else {
        reveal(Seq::filter);
    }
}

/// The kept lines make no more progress than all lines.
pub proof fn lemma_kept_progress(lines: Seq<Seq<u8>>, key: Seq<char>, filter: Seq<char>)
    ensures
        0 <= progress(kept(lines, key, filter)) <= progress(lines),
    decreases lines.len(),
{
    if lines.len() > 0 {
        lemma_kept_progress(lines.drop_last(), key, filter);
        assert(lines.drop_last().push(lines.last()) =~= lines);
        lemma_kept_push(lines.drop_last(), lines.last(), key, filter);
        let sub = kept(lines.drop_last(), key, filter);
        assert(sub.push(lines.last()).drop_last() =~= sub);
    } else {
        reveal(Seq::filter);
    }
}

/// Runs filter mode over `input`.
///
/// Where every line is valid JSON, the output holds exactly the kept lines,
/// byte for byte and in their order, and the counters hold the progress over
/// all lines and over the kept ones. The first line that is not valid JSON
/// ends the run: the error holds its index and the same three values for the
/// lines before it.
pub fn write_filtered_rows(input: &[u8], key: &str, filter: &str) -> (r: Result<
    Filtered,
    FilterError,
>)
    requires
        input@.len() < u64::MAX,
    ensures
        filter_result(input@, key@, filter@, r),
{
    let ghost source = input@;
    let ghost all = lines_of(source);
    let mut lines = BufLines::new(slice_to_vec(input));
    let mut output: Vec<u8> = Vec::new();
    let mut run = FilterRun::new();
    let ghost mut done: Seq<Seq<u8>> = Seq::empty();
    proof {
        reveal(Seq::filter);
        assert(done + lines.remaining() =~= all);
    }
    loop
        invariant
            lines.wf(),
            lines.source() == source,
            source == input@,
            all == lines_of(source),
            source.len() < u64::MAX,
            done + lines.remaining() == all,
            run.wf(),
            run.lines == done.len(),
            forall|i: int| 0 <= i < done.len() ==> parses(#[trigger] done[i], key@),
            output@ == concat(kept(done, key@, filter@)),
            run.total_read == progress(done),
            run.total_wrote == progress(kept(done, key@, filter@)),
            run.total_read <= lines.consumed() + 1,
            lines.consumed() < source.len() ==> run.total_read == lines.consumed(),
            0 <= lines.consumed() <= source.len(),
        decreases source.len() - lines.consumed(),
    {
        let ghost before = lines.remaining();
        let ghost start = lines.consumed();
        match lines.next() {
            None => {
                proof {
                    assert(done + before =~= done);
                }
                return Ok(
                    Filtered { output, total_read: run.total_read, total_wrote: run.total_wrote },
                );
            },
            Some(line) => {
                proof {
                    assert(done.push(line@) + lines.remaining() =~= done + before);
                    assert(all[done.len() as int] == line@);
                    assert forall|i: int| 0 <= i < done.len() implies all[i] == done[i] by {}
                    assert(all.take(done.len() as int) =~= done);
                    lemma_kept_push(done, line@, key@, filter@);
                    assert(done.push(line@).drop_last() =~= done);
                    lemma_line_end(source, start);
                    assert(line@.last() == source[lines.consumed() - 1]);
                }
                match run.step(line.as_slice(), key, filter) {
                    Err(e) => {
                        return Err(
                            FilterError {
                                line: e.line,
                                output,
                                total_read: run.total_read,
                                total_wrote: run.total_wrote,
                            },
                        );
                    },
                    Ok(keep) => {
                        if keep {
                            output.extend_from_slice(line.as_slice());
                            proof {
                                assert(kept(done, key@, filter@).push(line@).drop_last() =~= kept(
                                    done,
                                    key@,
                                    filter@,
                                ));
                            }
                        }
                        proof {
                            done = done.push(line@);
                        }
                    },
                }
            },
        }
    }
}

} // verus!
