//! The decisions of turning wrapped log payloads into log lines.
use vstd::prelude::*;
use crate::common::{GQL_MARKER, TRIMMED};
use crate::text::{chars_of, contains, contains_chars, find, first_index};

verus! {

/// Writes payloads as plain text lines.
pub struct TextWriter<T> {
    pub out: T,
}

impl<T> TextWriter<T> {
    pub fn new(out: T) -> (r: Self)
        ensures
            r.out == out,
    {
        Self { out }
    }
}

/// Writes the query records of payloads as JSON lines.
pub struct JsonlWriter<T> {
    pub out: T,
    /// Report payloads that are not query records.
    pub print_extra: bool,
}

impl<T> JsonlWriter<T> {
    pub fn new(out: T, print_extra: bool) -> (r: Self)
        ensures
            r.out == out,
            r.print_extra == print_extra,
    {
        Self { out, print_extra }
    }
}

/// The line for `text`: where a timestamp is given and the text holds
/// `" INFO "`, the timestamp replaces everything before that marker.
pub open spec fn stamped(text: Seq<char>, timestamp: Option<Seq<char>>) -> Seq<char> {
    match timestamp {
        Some(ts) => match first_index(text, " INFO "@) {
            Some(start) => ts + text.subrange(start, text.len() as int),
            None => text,
        },
        None => text,
    }
}

/// The line that a text writer writes for `text`.
pub fn stamped_text(text: &str, timestamp: Option<&str>) -> (r: String)
    ensures
        r@ == stamped(text@, crate::entry::opt_str_view(timestamp)),
{
    match timestamp {
        Some(ts) => {
            let cs = chars_of(text);
            let marker = chars_of(" INFO ");
            match find(&cs, &marker) {
                Some(start) => String::from_str(ts).concat(text.substring_char(start, cs.len())),
                None => String::from_str(text),
            }
        },
        None => String::from_str(text),
    }
}

/// What a payload is.
#[derive(Clone, Copy, Debug, PartialEq, Eq, Structural)]
pub enum PayloadKind {
    /// Shortened by the log service; skipped and counted.
    Trimmed,
    /// A query record, for the output.
    Query,
    /// Anything else.
    Other,
}

pub open spec fn payload_kind(text: Seq<char>) -> PayloadKind {
    if contains(text, TRIMMED@) {
        PayloadKind::Trimmed
    } else if contains(text, GQL_MARKER@) {
        PayloadKind::Query
    } else {
        PayloadKind::Other
    }
}

/// Sorts a payload: a shortened one, a query record, or something else.
pub fn classify_payload(text: &str) -> (r: PayloadKind)
    ensures
        r == payload_kind(text@),
{
    let cs = chars_of(text);
    if contains_chars(&cs, &chars_of(TRIMMED)) {
        PayloadKind::Trimmed
    } else if contains_chars(&cs, &chars_of(GQL_MARKER)) {
        PayloadKind::Query
    } else {
        PayloadKind::Other
    }
}

} // verus!
