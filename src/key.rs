//! The group key of a record: which query shape, in which subgraph, it
//! belongs to.
use vstd::prelude::*;
use std::collections::hash_map::DefaultHasher;
use std::hash::{Hash, Hasher};
use crate::number::{hex_u64, parse_hex};
use crate::text::chars_of;

verus! {

/// What std's `DefaultHasher` makes of the pair `(fingerprint, subgraph)`.
pub uninterp spec fn fingerprint_key(fingerprint: u64, subgraph: Seq<char>) -> u64;

/// What std's `DefaultHasher` makes of the pair of strings `(a, b)`.
pub uninterp spec fn pair_hash(a: Seq<char>, b: Seq<char>) -> u64;

/// Relies on std's `DefaultHasher::new` (fixed keys, no per-process seed),
/// `Hash` for `(u64, &str)` and `Hasher::finish`: the hash of the pair
/// depends on the pair alone.
#[verifier::external_body]
fn hash_fingerprint(fingerprint: u64, subgraph: &str) -> (r: u64)
    ensures
        r == fingerprint_key(fingerprint, subgraph@),
{
    let mut hasher = DefaultHasher::new();
    (fingerprint, subgraph).hash(&mut hasher);
    hasher.finish()
}

/// Relies on std's `DefaultHasher::new` (fixed keys, no per-process seed),
/// `Hash` for `(&str, &str)` and `Hasher::finish`: the hash of the pair
/// depends on the pair alone.
#[verifier::external_body]
pub(crate) fn hash_pair(a: &str, b: &str) -> (r: u64)
    ensures
        r == pair_hash(a@, b@),
{
    let mut hasher = DefaultHasher::new();
    (a, b).hash(&mut hasher);
    hasher.finish()
}

/// The structural fingerprint of a query text: equal for texts that differ
/// only in literal argument values, `None` for text that does not parse as a
/// query document.
pub trait ShapeFingerprint {
    fn fingerprint(&self, query: &str) -> Option<u64>;
}

/// Where a record's group key comes from.
#[derive(Clone, Copy, Debug, PartialEq, Eq, Structural)]
pub enum KeySource {
    /// A fingerprint carried in the invocation id.
    Embedded(u64),
    /// The fingerprint of the parsed query text.
    Shape(u64),
    /// The raw query text, where it did not parse.
    Text,
}

pub open spec fn dash_count(s: Seq<char>) -> nat
    decreases s.len(),
{
    if s.len() == 0 {
        0
    } else {
        dash_count(s.drop_last()) + if s.last() == '-' {
            1nat
        } else {
            0nat
        }
    }
}

/// The fingerprint that an invocation id of the form `<hex digits>-<rest>`
/// (exactly one hyphen) carries.
pub open spec fn embedded_fingerprint_of(id: Seq<char>) -> Option<u64> {
    if dash_count(id) == 1 && exists|d: int| 0 <= d < id.len() && id[d] == '-' {
        let d = choose|d: int| 0 <= d < id.len() && id[d] == '-';
        hex_u64(id.subrange(0, d))
    } else {
        None
    }
}

/// The source of the key, given the id and what the fingerprint collaborator
/// returned for the query text.
pub open spec fn resolve(id: Seq<char>, shape: Option<u64>) -> KeySource {
    match embedded_fingerprint_of(id) {
        Some(h) => KeySource::Embedded(h),
        None => match shape {
            Some(f) => KeySource::Shape(f),
            None => KeySource::Text,
        },
    }
}

/// The sources that some answer of the fingerprint collaborator leads to.
pub open spec fn admissible(id: Seq<char>, source: KeySource) -> bool {
    exists|shape: Option<u64>| resolve(id, shape) == source
}

pub open spec fn fingerprint_of(source: KeySource) -> Option<u64> {
    match source {
        KeySource::Embedded(h) => Some(h),
        KeySource::Shape(h) => Some(h),
        KeySource::Text => None,
    }
}

/// The group key for a record with this source, query text and subgraph.
pub open spec fn key_of(source: KeySource, query: Seq<char>, subgraph: Seq<char>) -> u64 {
    match fingerprint_of(source) {
        Some(h) => fingerprint_key(h, subgraph),
        None => pair_hash(query, subgraph),
    }
}

proof fn lemma_dash_count_zero(s: Seq<char>)
    requires
        forall|i: int| 0 <= i < s.len() ==> s[i] != '-',
    ensures
        dash_count(s) == 0,
    decreases s.len(),
{
    if s.len() > 0 {
        lemma_dash_count_zero(s.drop_last());
    }
}

proof fn lemma_dash_count_split(s: Seq<char>, d: int)
    requires
        0 <= d < s.len(),
        s[d] == '-',
    ensures
        dash_count(s) >= dash_count(s.take(d)) + 1,
        dash_count(s) == 1 ==> forall|j: int| 0 <= j < s.len() && j != d ==> s[j] != '-',
    decreases s.len(),
{
    if d < s.len() - 1 {
        lemma_dash_count_split(s.drop_last(), d);
        assert(s.drop_last().take(d) =~= s.take(d));
        if dash_count(s) == 1 {
            assert(s.last() != '-');
            assert forall|j: int| 0 <= j < s.len() && j != d implies s[j] != '-' by {
                if j < s.len() - 1 {
                    assert(s[j] == s.drop_last()[j]);
                }
            }
        }
    } else {
        assert(s.drop_last() =~= s.take(d));
        if dash_count(s) == 1 {
            assert forall|j: int| 0 <= j < s.len() && j != d implies s[j] != '-' by {
                if s[j] == '-' {
                    lemma_dash_count_split(s.take(d), j);
                }
            }
        }
    }
}

/// The fingerprint that `query_id` carries, if it has the form
/// `<hex digits>-<rest>` with exactly one hyphen.
pub fn embedded_fingerprint(query_id: &str) -> (r: Option<u64>)
    ensures
        r == embedded_fingerprint_of(query_id@),
{
    let cs = chars_of(query_id);
    let mut dashes: usize = 0;
    let mut first: usize = 0;
    let mut i: usize = 0;
    while i < cs.len()
        invariant
            cs@ == query_id@,
            i <= cs@.len(),
            dashes as nat == dash_count(cs@.take(i as int)),
            dashes <= i,
            dashes == 0 ==> forall|j: int| 0 <= j < i ==> cs@[j] != '-',
            dashes > 0 ==> first < i && cs@[first as int] == '-' && forall|j: int|
                0 <= j < first ==> cs@[j] != '-',
        decreases cs@.len() - i,
    {
        assert(cs@.take(i + 1).drop_last() =~= cs@.take(i as int));
        if cs[i] == '-' {
            if dashes == 0 {
                first = i;
            }
            dashes = dashes + 1;
        }
        i = i + 1;
    }
    assert(cs@.take(i as int) =~= cs@);
    if dashes != 1 {
        return None;
    }
    proof {
        lemma_dash_count_split(cs@, first as int);
        let d = choose|d: int| 0 <= d < cs@.len() && cs@[d] == '-';
        assert(d == first);
    }
    parse_hex(query_id.substring_char(0, first))
}

/// The source of a record's key, given what the fingerprint collaborator
/// returned for its query text.
pub fn source_from(query_id: &str, shape: Option<u64>) -> (r: KeySource)
    ensures
        r == resolve(query_id@, shape),
{
    match embedded_fingerprint(query_id) {
        Some(h) => KeySource::Embedded(h),
        None => match shape {
            Some(f) => KeySource::Shape(f),
            None => KeySource::Text,
        },
    }
}

/// The source of a record's key; the query text is handed to `shapes` only
/// where the id carries no fingerprint.
pub fn key_source<F: ShapeFingerprint>(query_id: &str, query: &str, shapes: &F) -> (r: KeySource)
    ensures
        admissible(query_id@, r),
        embedded_fingerprint_of(query_id@) matches Some(h) ==> r == KeySource::Embedded(h),
{
    match embedded_fingerprint(query_id) {
        Some(h) => {
            assert(resolve(query_id@, None) == KeySource::Embedded(h));
            KeySource::Embedded(h)
        },
        None => {
            let shape = shapes.fingerprint(query);
            source_from(query_id, shape)
        },
    }
}

/// The group key for a record with this source, query text and subgraph.
pub fn key_for(source: KeySource, query: &str, subgraph: &str) -> (r: u64)
    ensures
        r == key_of(source, query@, subgraph@),
{
    match source {
        KeySource::Embedded(h) => hash_fingerprint(h, subgraph),
        KeySource::Shape(h) => hash_fingerprint(h, subgraph),
        KeySource::Text => hash_pair(query, subgraph),
    }
}

/// The group key of a record: from the fingerprint in its id, else from the
/// fingerprint of its query text, else from the raw text.
pub fn group_key<F: ShapeFingerprint>(query_id: &str, query: &str, subgraph: &str, shapes: &F) -> (r: u64)
    ensures
        exists|s: KeySource| admissible(query_id@, s) && r == key_of(s, query@, subgraph@),
        embedded_fingerprint_of(query_id@) matches Some(h) ==> r == fingerprint_key(h, subgraph@),
{
    let source = key_source(query_id, query, shapes);
    key_for(source, query, subgraph)
}

/// Two records of one subgraph whose resolved fingerprints coincide share a
/// group key, whatever their query texts and whichever path (id or parsed
/// text) gave each fingerprint. In particular, texts that differ only in
/// literal values, which the collaborator fingerprints alike, share a key.
pub proof fn lemma_same_fingerprint_same_key(
    id1: Seq<char>,
    query1: Seq<char>,
    shape1: Option<u64>,
    id2: Seq<char>,
    query2: Seq<char>,
    shape2: Option<u64>,
    subgraph: Seq<char>,
)
    requires
        fingerprint_of(resolve(id1, shape1)) is Some,
        fingerprint_of(resolve(id1, shape1)) == fingerprint_of(resolve(id2, shape2)),
    ensures
        key_of(resolve(id1, shape1), query1, subgraph) == key_of(resolve(id2, shape2), query2, subgraph),
{
}

} // verus!
