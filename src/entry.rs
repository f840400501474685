//! One query-execution record, and the parser for the text log grammar.
use vstd::prelude::*;
use crate::number::{decimal_u64, parse_u64};
use crate::text::{chars_of, find_from, first_index, last_index, occurs_at, is_first_occurrence, is_last_occurrence, lemma_first_index, lemma_last_index};

verus! {

/// One executed query, as a log line reports it.
#[derive(Debug, PartialEq, Eq)]
pub struct Entry {
    pub subgraph: String,
    pub query_id: String,
    pub block: u64,
    pub time: u64,
    pub query: String,
    pub variables: String,
    pub timestamp: Option<String>,
}

/// The content of an `Entry`.
pub struct EntryView {
    pub subgraph: Seq<char>,
    pub query_id: Seq<char>,
    pub block: u64,
    pub time: u64,
    pub query: Seq<char>,
    pub variables: Seq<char>,
    pub timestamp: Option<Seq<char>>,
}

pub open spec fn opt_view(s: Option<String>) -> Option<Seq<char>> {
    match s {
        Some(t) => Some(t@),
        None => None,
    }
}

pub open spec fn opt_str_view(s: Option<&str>) -> Option<Seq<char>> {
    match s {
        Some(t) => Some(t@),
        None => None,
    }
}

impl View for Entry {
    type V = EntryView;

    open spec fn view(&self) -> EntryView {
        EntryView {
            subgraph: self.subgraph@,
            query_id: self.query_id@,
            block: self.block,
            time: self.time,
            query: self.query@,
            variables: self.variables@,
            timestamp: opt_view(self.timestamp),
        }
    }
}

/// The text between the first `prefix` of `line` and the first `suffix`
/// after it.
pub open spec fn field_of(line: Seq<char>, prefix: Seq<char>, suffix: Seq<char>) -> Option<Seq<char>> {
    match first_index(line, prefix) {
        Some(a) => {
            let rest = line.subrange(a + prefix.len(), line.len() as int);
            match first_index(rest, suffix) {
                Some(e) => Some(rest.subrange(0, e)),
                None => None,
            }
        },
        None => None,
    }
}

/// The text between the first `prefix` of `line` and the last `suffix`
/// after it.
pub open spec fn rfield_of(line: Seq<char>, prefix: Seq<char>, suffix: Seq<char>) -> Option<Seq<char>> {
    match first_index(line, prefix) {
        Some(a) => {
            let rest = line.subrange(a + prefix.len(), line.len() as int);
            match last_index(rest, suffix) {
                Some(e) => Some(rest.subrange(0, e)),
                None => None,
            }
        },
        None => None,
    }
}

/// A numeric field: its value, or 0 where it is not a number.
pub open spec fn number_or_zero(s: Seq<char>) -> u64 {
    match decimal_u64(s) {
        Some(n) => n,
        None => 0,
    }
}

/// The record that a line of the text grammar holds, if it holds all the
/// required fields.
pub open spec fn parse_line(line: Seq<char>, timestamp: Option<Seq<char>>) -> Option<EntryView> {
    let block = field_of(line, "block: "@, ","@);
    let time = field_of(line, "query_time_ms: "@, ","@);
    let subgraph = field_of(line, "subgraph_id: "@, ", component: "@);
    let query_id = field_of(line, "query_id: "@, ","@);
    let query = rfield_of(line, "query: "@, " , query_id:"@);
    let variables = field_of(line, "variables: "@, ", query: "@);
    if block is Some && time is Some && subgraph is Some && query_id is Some && query is Some
        && variables is Some {
        Some(
            EntryView {
                subgraph: subgraph->0,
                query_id: query_id->0,
                block: number_or_zero(block->0),
                time: number_or_zero(time->0),
                query: query->0,
                variables: variables->0,
                timestamp,
            },
        )
    } else {
        None
    }
}

proof fn lemma_shifted_occurrence(line: Seq<char>, p: Seq<char>, start: int, j: int)
    requires
        0 <= start <= line.len(),
    ensures
        occurs_at(line.subrange(start, line.len() as int), p, j) <==> (0 <= j && occurs_at(line, p, start + j)),
{
    let rest = line.subrange(start, line.len() as int);
    if 0 <= j && j + p.len() <= rest.len() {
        assert(rest.subrange(j, j + p.len()) =~= line.subrange(start + j, start + j + p.len()));
    }
}

/// Where `prefix` first ends in `line`, if it occurs.
fn after_prefix(line: &Vec<char>, prefix: &str) -> (r: Option<usize>)
    ensures
        match r {
            Some(b) => exists|a: int| first_index(line@, prefix@) == Some(a) && b == a + prefix@.len(),
            None => first_index(line@, prefix@) is None,
        },
        r matches Some(b) ==> b <= line@.len(),
{
    let p = chars_of(prefix);
    let n = line.len();
    match find_from(line, &p, 0) {
        Some(a) => {
            proof {
                lemma_first_index(line@, p@, a as int);
            }
            Some(a + p.len())
        },
        None => {
            assert(!(exists|i: int| occurs_at(line@, p@, i)));
            None
        },
    }
}

/// The span of `line` that `field_of` (or with `from_right`, `rfield_of`)
/// describes.
fn field_span(line: &Vec<char>, prefix: &str, suffix: &str, from_right: bool) -> (r: Option<(usize, usize)>)
    ensures
        match r {
            Some((b, e)) => b <= e <= line@.len() && Some(line@.subrange(b as int, e as int)) == if from_right {
                rfield_of(line@, prefix@, suffix@)
            } else {
                field_of(line@, prefix@, suffix@)
            },
            None => (if from_right {
                rfield_of(line@, prefix@, suffix@)
            } else {
                field_of(line@, prefix@, suffix@)
            }) is None,
        },
{
    let b = match after_prefix(line, prefix) {
        Some(b) => b,
        None => return None,
    };
    let ghost rest = line@.subrange(b as int, line@.len() as int);
    let sfx = chars_of(suffix);
    if !from_right {
        match find_from(line, &sfx, b) {
            Some(e) => {
                proof {
                    lemma_shifted_occurrence(line@, sfx@, b as int, e - b);
                    assert forall|j: int| 0 <= j < e - b implies !occurs_at(rest, sfx@, j) by {
                        lemma_shifted_occurrence(line@, sfx@, b as int, j);
                    }
                    assert(is_first_occurrence(rest, sfx@, e - b));
                    lemma_first_index(rest, sfx@, e - b);
                    assert(rest.subrange(0, e - b) =~= line@.subrange(b as int, e as int));
                }
                Some((b, e))
            },
            None => {
                proof {
                    assert forall|j: int| !occurs_at(rest, sfx@, j) by {
                        lemma_shifted_occurrence(line@, sfx@, b as int, j);
                    }
                }
                None
            },
        }
    } else {
        match crate::text::rfind(line, &sfx) {
            Some(e) if e >= b => {
                proof {
                    lemma_shifted_occurrence(line@, sfx@, b as int, e - b);
                    assert forall|j: int| e - b < j implies !occurs_at(rest, sfx@, j) by {
                        lemma_shifted_occurrence(line@, sfx@, b as int, j);
                    }
                    assert(is_last_occurrence(rest, sfx@, e - b));
                    lemma_last_index(rest, sfx@, e - b);
                    assert(rest.subrange(0, e - b) =~= line@.subrange(b as int, e as int));
                }
                Some((b, e))
            },
            _ => {
                proof {
                    assert forall|j: int| !occurs_at(rest, sfx@, j) by {
                        lemma_shifted_occurrence(line@, sfx@, b as int, j);
                    }
                }
                None
            },
        }
    }
}

/// The text of `s` at the character span `b..e`.
fn span_string(s: &str, b: usize, e: usize) -> (r: String)
    requires
        b <= e <= s@.len(),
    ensures
        r@ == s@.subrange(b as int, e as int),
{
    String::from_str(s.substring_char(b, e))
}

fn field_in(line: &str, chars: &Vec<char>, prefix: &str, suffix: &str, from_right: bool) -> (r: Option<String>)
    requires
        chars@ == line@,
    ensures
        opt_view(r) == if from_right {
            rfield_of(line@, prefix@, suffix@)
        } else {
            field_of(line@, prefix@, suffix@)
        },
{
    match field_span(chars, prefix, suffix, from_right) {
        Some((b, e)) => Some(span_string(line, b, e)),
        None => None,
    }
}

/// The part of `line` between the first `prefix` and the first `suffix`
/// that follows it, both left out.
pub fn field(line: &str, prefix: &str, suffix: &str) -> (r: Option<String>)
    ensures
        opt_view(r) == field_of(line@, prefix@, suffix@),
{
    let chars = chars_of(line);
    field_in(line, &chars, prefix, suffix, false)
}

/// As `field`, but the suffix is the last one in `line` after the prefix.
pub fn rfield(line: &str, prefix: &str, suffix: &str) -> (r: Option<String>)
    ensures
        opt_view(r) == rfield_of(line@, prefix@, suffix@),
{
    let chars = chars_of(line);
    field_in(line, &chars, prefix, suffix, true)
}

fn number_field(s: &String) -> (r: u64)
    ensures
        r == number_or_zero(s@),
{
    match parse_u64(s.as_str()) {
        Some(n) => n,
        None => 0,
    }
}

impl Entry {
    /// Parses one line of the text grammar; `None` when a required field is
    /// missing. A number that does not parse counts as 0.
    pub fn parse(line: &str, timestamp: Option<&str>) -> (r: Option<Entry>)
        ensures
            match parse_line(line@, opt_str_view(timestamp)) {
                Some(v) => r is Some && r->0@ == v,
                None => r is None,
            },
    {
        let chars = chars_of(line);
        let block = field_in(line, &chars, "block: ", ",", false);
        let time = field_in(line, &chars, "query_time_ms: ", ",", false);
        let subgraph = field_in(line, &chars, "subgraph_id: ", ", component: ", false);
        let query_id = field_in(line, &chars, "query_id: ", ",", false);
        let query = field_in(line, &chars, "query: ", " , query_id:", true);
        let variables = field_in(line, &chars, "variables: ", ", query: ", false);
        match (block, time, query, variables, query_id, subgraph) {
            (Some(block), Some(time), Some(query), Some(variables), Some(query_id), Some(subgraph)) => {
                let stamp = match timestamp {
                    Some(ts) => Some(ts.to_string()),
                    None => None,
                };
                let entry = Entry {
                    subgraph,
                    query_id,
                    block: number_field(&block),
                    time: number_field(&time),
                    query,
                    variables,
                    timestamp: stamp,
                };
                assert(entry@ == parse_line(line@, opt_str_view(timestamp)).unwrap());
                Some(entry)
            },
            _ => None,
        }
    }
}

/// Which numeric fields of `line` are present but not numbers, and so count
/// as 0 in `Entry::parse`: the block (first) and the elapsed time (second).
pub fn malformed_numbers(line: &str) -> (r: (bool, bool))
    ensures
        r.0 == (field_of(line@, "block: "@, ","@) matches Some(b) && decimal_u64(b) is None),
        r.1 == (field_of(line@, "query_time_ms: "@, ","@) matches Some(t) && decimal_u64(t) is None),
{
    let chars = chars_of(line);
    let block = match field_in(line, &chars, "block: ", ",", false) {
        Some(b) => parse_u64(b.as_str()).is_none(),
        None => false,
    };
    let time = match field_in(line, &chars, "query_time_ms: ", ",", false) {
        Some(t) => parse_u64(t.as_str()).is_none(),
        None => false,
    };
    (block, time)
}

/// A reader of one log line into an `Entry`.
pub trait EntryParser {
    fn parse(&self, line: &str) -> Option<Entry>;
}

/// Reads lines of the text grammar.
pub struct TextEntryParser {}

impl EntryParser for TextEntryParser {
    fn parse(&self, line: &str) -> (r: Option<Entry>)
        ensures
            match parse_line(line@, None) {
                Some(v) => r is Some && r->0@ == v,
                None => r is None,
            },
    {
        Entry::parse(line, None)
    }
}

} // verus!
