//! Unique mode: collect each string found at a key once.

use crate::filter::{parses, FilterError, ParseError};
use crate::json::{array_text, field_view, json_array_text, json_text_at, text_at};
use crate::lines::{lemma_line_end, lines_of, progress, step_len, step_size, BufLines};
use vstd::prelude::*;
use vstd::slice::slice_to_vec;

verus! {

/// The string that the line holds under `key`, if it is an object that holds
/// one there.
pub open spec fn text_of(line: Seq<u8>, key: Seq<char>) -> Option<Seq<char>> {
    match json_text_at(line, key) {
        Some(Some(t)) => Some(t),
        _ => None,
    }
}

/// The strings found under `key` in `lines`, each once, in the order in which
/// they first occur.
pub open spec fn distinct_texts(lines: Seq<Seq<u8>>, key: Seq<char>) -> Seq<Seq<char>>
    decreases lines.len(),
{
    if lines.len() == 0 {
        Seq::empty()
    } else {
        let before = distinct_texts(lines.drop_last(), key);
        match text_of(lines.last(), key) {
            Some(t) => if before.contains(t) {
                before
            } else {
                before.push(t)
            },
            None => before,
        }
    }
}

/// No string is collected twice.
pub proof fn lemma_distinct_no_duplicates(lines: Seq<Seq<u8>>, key: Seq<char>)
    ensures
        distinct_texts(lines, key).no_duplicates(),
    decreases lines.len(),
{
    if lines.len() > 0 {
        lemma_distinct_no_duplicates(lines.drop_last(), key);
    }
}

/// A string is collected exactly when some line holds it under the key.
pub proof fn lemma_distinct_complete(lines: Seq<Seq<u8>>, key: Seq<char>, text: Seq<char>)
    ensures
        distinct_texts(lines, key).contains(text) <==> exists|i: int|
            0 <= i < lines.len() && text_of(#[trigger] lines[i], key) == Some(text),
    decreases lines.len(),
{
    if lines.len() > 0 {
        let before = lines.drop_last();
        let last = lines.last();
        lemma_distinct_complete(before, key, text);
        let found = distinct_texts(before, key);
        let all = distinct_texts(lines, key);
        if all.contains(text) {
            let j = choose|j: int| 0 <= j < all.len() && all[j] == text;
            if found.contains(text) {
                let i = choose|i: int|
                    0 <= i < before.len() && text_of(#[trigger] before[i], key) == Some(text);
                assert(text_of(lines[i], key) == Some(text));
            } else {
                assert(text_of(lines[lines.len() - 1], key) == Some(text)) by {
                    if j < found.len() {
                        assert(found[j] == text);
                    }
                }
            }
        }
        if exists|i: int| 0 <= i < lines.len() && text_of(#[trigger] lines[i], key) == Some(text) {
            let i = choose|i: int|
                0 <= i < lines.len() && text_of(#[trigger] lines[i], key) == Some(text);
            if i < before.len() {
                assert(text_of(before[i], key) == Some(text));
                let j = choose|j: int| 0 <= j < found.len() && found[j] == text;
                assert(all[j] == text);
            } else {
                if found.contains(text) {
                } else {
                    assert(all[found.len() as int] == text);
                }
            }
        }
    }
}

/// Two runs on the same input and key end alike: both fail at the same
/// line, or both succeed with the same strings, the same document and the
/// same counter.
pub proof fn lemma_unique_deterministic(
    input: Seq<u8>,
    key: Seq<char>,
    first: Result<Unique, RunError>,
    second: Result<Unique, RunError>,
)
    requires
        unique_result(input, key, first),
        unique_result(input, key, second),
    ensures
        first is Ok <==> second is Ok,
        first is Ok ==> first->Ok_0.values.deep_view() == second->Ok_0.values.deep_view()
            && first->Ok_0.document@ == second->Ok_0.document@ && first->Ok_0.total_read
            == second->Ok_0.total_read,
        first matches Err(RunError::Parse(e)) ==> second matches Err(RunError::Parse(f))
            && e.line == f.line,
{
}

/// On an empty input the run succeeds, holds no string, counts nothing and
/// writes the document of the empty list.
pub proof fn lemma_unique_empty(key: Seq<char>, r: Result<Unique, RunError>)
    requires
        unique_result(Seq::<u8>::empty(), key, r),
    ensures
        r matches Ok(u) && u.values.deep_view().len() == 0 && u.total_read == 0 && u.document@
            == json_array_text(Seq::empty()),
{
    assert(lines_of(Seq::<u8>::empty()).len() == 0);
}

/// A set of strings, kept in the order in which they came.
#[derive(Debug)]
pub struct UniqueValues {
    values: Vec<String>,
}

impl UniqueValues {
    /// The strings held, in order.
    pub closed spec fn view(&self) -> Seq<Seq<char>> {
        self.values.deep_view()
    }

    /// No string is held twice.
    pub open spec fn wf(&self) -> bool {
        self@.no_duplicates()
    }

    /// The empty set.
    pub fn new() -> (r: UniqueValues)
        ensures
            r.wf(),
            r@ == Seq::<Seq<char>>::empty(),
    {
        let r = UniqueValues { values: Vec::new() };
        assert(r.values.deep_view() =~= Seq::<Seq<char>>::empty());
        r
    }

    /// How many strings are held.
    pub fn len(&self) -> (r: usize)
        ensures
            r == self@.len(),
    {
        self.values.len()
    }

    /// Whether `text` is held.
    pub fn contains(&self, text: &str) -> (r: bool)
        ensures
            r == self@.contains(text@),
    {
        let wanted: String = text.to_owned();
        let mut i: usize = 0;
        while i < self.values.len()
            invariant
                i <= self.values.len(),
                wanted@ == text@,
                forall|j: int| 0 <= j < i ==> #[trigger] self@[j] != text@,
            decreases self.values.len() - i,
        {
            assert(self@[i as int] == self.values[i as int]@);
            if self.values[i] == wanted {
                return true;
            }
            i = i + 1;
        }
        false
    }

    /// Puts `text` in unless it is held already, and says whether it was new.
    pub fn insert(&mut self, text: String) -> (r: bool)
        requires
            old(self).wf(),
        ensures
            final(self).wf(),
            r == !old(self)@.contains(text@),
            final(self)@ == if r {
                old(self)@.push(text@)
            } else {
                old(self)@
            },
    {
        if self.contains(text.as_str()) {
            false
        } else {
            let ghost before = self@;
            self.values.push(text);
            assert(self@ =~= before.push(text@));
            true
        }
    }

    /// The strings held, in order.
    pub fn into_values(self) -> (r: Vec<String>)
        ensures
            r.deep_view() == self@,
    {
        self.values
    }
}

/// What unique mode hands back: the strings found, the JSON document that
/// lists them, and the progress counter.
#[derive(Debug)]
pub struct Unique {
    pub values: Vec<String>,
    pub document: String,
    pub total_read: u64,
}

/// Why a run gave up.
#[derive(Debug)]
pub enum RunError {
    /// Unique mode met a line that is not valid JSON.
    Parse(ParseError),
    /// Filter mode met a line that is not valid JSON.
    Filter(FilterError),
    /// The strings could not be written as JSON. The serializer owes a
    /// document for every list of strings, so no run ends this way.
    Serialize,
}

/// The string that `line` holds under `key`. The outer `None` says that the
/// line is not valid JSON, the inner one that it holds no string there.
pub fn get_json_value(line: &[u8], key: &str) -> (r: Option<Option<String>>)
    ensures
        field_view(r) == json_text_at(line@, key@),
{
    text_at(line, key)
}

/// One step of unique mode: takes in what a line was found to hold.
pub fn collect(values: &mut UniqueValues, text: Option<String>)
    requires
        old(values).wf(),
    ensures
        final(values).wf(),
        final(values)@ == match text {
            Some(t) => if old(values)@.contains(t@) {
                old(values)@
            } else {
                old(values)@.push(t@)
            },
            None => old(values)@,
        },
{
    match text {
        Some(t) => {
            values.insert(t);
        },
        None => {},
    }
}

/// A unique run in progress: the strings found so far, what the lines read
/// add to the progress, and the number of lines taken in.
#[derive(Debug)]
pub struct UniqueRun {
    pub values: UniqueValues,
    pub total_read: u64,
    pub lines: u64,
}

impl UniqueRun {
    /// No string is held twice, and every line read counted at least one.
    pub open spec fn wf(&self) -> bool {
        self.values.wf() && self.lines <= self.total_read
    }

    /// A run before its first line.
    pub fn new() -> (r: UniqueRun)
        ensures
            r.wf(),
            r.values@ == Seq::<Seq<char>>::empty(),
            r.total_read == 0,
            r.lines == 0,
    {
        UniqueRun { values: UniqueValues::new(), total_read: 0, lines: 0 }
    }

    /// Takes in the next line and counts it: the string it holds under
    /// `key`, if any, joins the set. A line that is not valid JSON ends the
    /// run: the error holds its index and the run stays as it was.
    pub fn step(&mut self, line: &[u8], key: &str) -> (r: Result<(), ParseError>)
        requires
            old(self).wf(),
            old(self).total_read + step_size(line@) <= u64::MAX,
        ensures
            match r {
                Ok(_) => {
                    &&& parses(line@, key@)
                    &&& final(self).wf()
                    &&& final(self).values@ == match text_of(line@, key@) {
                        Some(t) => if old(self).values@.contains(t) {
                            old(self).values@
                        } else {
                            old(self).values@.push(t)
                        },
                        None => old(self).values@,
                    }
                    &&& final(self).total_read == old(self).total_read + step_size(line@)
                    &&& final(self).lines == old(self).lines + 1
                },
                Err(e) => {
                    &&& !parses(line@, key@)
                    &&& e.line == old(self).lines
                    &&& *final(self) == *old(self)
                },
            },
    {
        match get_json_value(line, key) {
            None => Err(ParseError { line: self.lines }),
            Some(text) => {
                let line_len: u64 = step_len(line);
                collect(&mut self.values, text);
                self.total_read = self.total_read + line_len;
                self.lines = self.lines + 1;
                Ok(())
            },
        }
    }

    /// Ends the run: writes the strings found as one JSON array. This
    /// always succeeds.
    pub fn finish(self) -> (r: Result<Unique, RunError>)
        ensures
            r matches Ok(u) && u.values.deep_view() == self.values@ && u.document@
                == json_array_text(self.values@) && u.total_read == self.total_read,
    {
        let total_read: u64 = self.total_read;
        let values = self.values.into_values();
        match array_text(&values) {
            Some(document) => Ok(Unique { values, document, total_read }),
            None => Err(RunError::Serialize),
        }
    }
}

/// What `write_unique_values` returns for `input` and `key`.
pub open spec fn unique_result(input: Seq<u8>, key: Seq<char>, r: Result<Unique, RunError>) -> bool {
    let lines = lines_of(input);
    match r {
        Ok(u) => {
            &&& forall|i: int| 0 <= i < lines.len() ==> parses(#[trigger] lines[i], key)
            &&& u.values.deep_view() == distinct_texts(lines, key)
            &&& u.document@ == json_array_text(distinct_texts(lines, key))
            &&& u.total_read == progress(lines)
        },
        Err(RunError::Parse(e)) => {
            &&& e.line < lines.len()
            &&& !parses(lines[e.line as int], key)
            &&& forall|i: int| 0 <= i < e.line ==> parses(#[trigger] lines[i], key)
        },
        Err(_) => false,
    }
}

/// A run that succeeds holds no string twice, and holds a string exactly
/// when some line of the input holds it under the key.
pub proof fn lemma_unique_exact(
    input: Seq<u8>,
    key: Seq<char>,
    r: Result<Unique, RunError>,
    text: Seq<char>,
)
    requires
        unique_result(input, key, r),
        r is Ok,
    ensures
        r->Ok_0.values.deep_view().no_duplicates(),
        r->Ok_0.values.deep_view().contains(text) <==> exists|i: int|
            0 <= i < lines_of(input).len() && text_of(#[trigger] lines_of(input)[i], key) == Some(
                text,
            ),
{
    lemma_distinct_no_duplicates(lines_of(input), key);
    lemma_distinct_complete(lines_of(input), key, text);
}

/// Runs unique mode over `input`.
///
/// Where every line is valid JSON the run succeeds: the strings found under
/// `key` are collected, each once, and written as one JSON array. The first
/// line that is not valid JSON ends the run with its index.
pub fn write_unique_values(input: &[u8], key: &str) -> (r: Result<Unique, RunError>)
    requires
        input@.len() < u64::MAX,
    ensures
        unique_result(input@, key@, r),
{
    let ghost source = input@;
    let ghost all = lines_of(source);
    let mut lines = BufLines::new(slice_to_vec(input));
    let mut run = UniqueRun::new();
    let ghost mut done: Seq<Seq<u8>> = Seq::empty();
    proof {
        assert(done + lines.remaining() =~= all);
    }
    loop
        invariant
            lines.wf(),
            lines.source() == source,
            source == input@,
            all == lines_of(source),
            source.len() < u64::MAX,
            done + lines.remaining() == all,
            run.wf(),
            run.lines == done.len(),
            forall|i: int| 0 <= i < done.len() ==> parses(#[trigger] done[i], key@),
            run.values@ == distinct_texts(done, key@),
            run.total_read == progress(done),
            run.total_read <= lines.consumed() + 1,
            lines.consumed() < source.len() ==> run.total_read == lines.consumed(),
            0 <= lines.consumed() <= source.len(),
        decreases source.len() - lines.consumed(),
    {
        let ghost before = lines.remaining();
        let ghost start = lines.consumed();
        match lines.next() {
            None => {
                proof {
                    assert(done + before =~= done);
                }
                return run.finish();
            },
            Some(line) => {
                proof {
                    assert(done.push(line@) + lines.remaining() =~= done + before);
                    assert(all[done.len() as int] == line@);
                    assert forall|i: int| 0 <= i < done.len() implies all[i] == done[i] by {}
                    assert(done.push(line@).drop_last() =~= done);
                    lemma_line_end(source, start);
                    assert(line@.last() == source[lines.consumed() - 1]);
                }
                match run.step(line.as_slice(), key) {
                    Err(e) => {
                        return Err(RunError::Parse(e));
                    },
                    Ok(()) => {
                        proof {
                            done = done.push(line@);
                        }
                    },
                }
            },
        }
    }
}

} // verus!
