//! Running statistics of one query group, and the totals they stand for.
use vstd::prelude::*;
use crate::key::{KeySource, ShapeFingerprint, key_for, key_of};
use crate::text::{lex_compare, lex_from, sign};

verus! {

/// Calls that take longer than this many milliseconds are slow.
pub const SLOW_THRESHOLD: u64 = 1000;

/// The statistics kept about one query group.
#[derive(Debug, Clone, PartialEq, Eq)]
pub struct QueryInfo {
    /// The text of the slowest call so far.
    pub query: String,
    pub subgraph: String,
    /// The sum of the elapsed times, in ms.
    pub total_time: u64,
    /// The sum of the squared elapsed times.
    pub time_squared: u64,
    /// The longest elapsed time of a single call.
    pub max_time: u64,
    /// The invocation id of the slowest call.
    pub max_uuid: String,
    /// The variables of the slowest call.
    pub max_variables: String,
    /// The complexity of the slowest call.
    pub max_complexity: u64,
    /// The number of calls slower than `SLOW_THRESHOLD`.
    pub slow_count: u64,
    pub calls: u64,
    /// A short id to refer to the group by.
    pub id: usize,
    /// The group key.
    pub hash: u64,
}

/// The additive part of a group's statistics, over unbounded integers.
pub struct Totals {
    pub calls: int,
    pub total: int,
    pub squares: int,
    pub slow: int,
    pub max: int,
}

pub open spec fn totals(info: QueryInfo) -> Totals {
    Totals {
        calls: info.calls as int,
        total: info.total_time as int,
        squares: info.time_squared as int,
        slow: info.slow_count as int,
        max: info.max_time as int,
    }
}

/// The totals of no calls.
pub open spec fn no_totals() -> Totals {
    Totals { calls: 0, total: 0, squares: 0, slow: 0, max: 0 }
}

/// The totals of a single call that took `time`.
pub open spec fn unit(time: u64) -> Totals {
    Totals {
        calls: 1,
        total: time as int,
        squares: time as int * time as int,
        slow: if time > SLOW_THRESHOLD {
            1
        } else {
            0
        },
        max: time as int,
    }
}

/// The totals of two disjoint sets of calls together.
pub open spec fn merge(a: Totals, b: Totals) -> Totals {
    Totals {
        calls: a.calls + b.calls,
        total: a.total + b.total,
        squares: a.squares + b.squares,
        slow: a.slow + b.slow,
        max: if b.max > a.max {
            b.max
        } else {
            a.max
        },
    }
}

/// Every count and sum fits in a `u64`.
pub open spec fn fits(t: Totals) -> bool {
    &&& t.calls <= u64::MAX
    &&& t.total <= u64::MAX
    &&& t.squares <= u64::MAX
    &&& t.slow <= u64::MAX
    &&& t.max <= u64::MAX
}

/// Merging is commutative and associative, with `no_totals` as its unit on
/// totals of calls (whose maximum is never negative), so the totals of a
/// group depend neither on how its calls were split nor on the order in which
/// the parts were merged.
pub proof fn lemma_merge_laws(a: Totals, b: Totals, c: Totals)
    ensures
        merge(a, b) == merge(b, a),
        merge(merge(a, b), c) == merge(a, merge(b, c)),
        a.max >= 0 ==> merge(a, no_totals()) == a,
        a.max >= 0 ==> merge(no_totals(), a) == a,
{
}

impl QueryInfo {
    /// A group with no calls yet.
    pub fn new(query: String, subgraph: String, id: usize, hash: u64) -> (r: QueryInfo)
        ensures
            r.query == query,
            r.subgraph == subgraph,
            r.id == id,
            r.hash == hash,
            totals(r) == no_totals(),
            r.max_uuid@ == "(none)"@,
            r.max_variables@ == "null"@,
            r.max_complexity == 0,
    {
        QueryInfo {
            query,
            subgraph,
            id,
            total_time: 0,
            time_squared: 0,
            max_time: 0,
            max_uuid: String::from_str("(none)"),
            max_variables: String::from_str("null"),
            max_complexity: 0,
            slow_count: 0,
            calls: 0,
            hash,
        }
    }

    /// Whether one more call of `time` keeps every count and sum in a `u64`.
    pub fn can_add(&self, time: u64) -> (r: bool)
        ensures
            r == fits(merge(totals(*self), unit(time))),
    {
        assert((time as int) * (time as int) <= (u64::MAX as int) * (u64::MAX as int)) by (nonlinear_arith)
            requires
                time <= u64::MAX,
        ;
        let sq = (time as u128) * (time as u128);
        self.calls < u64::MAX && (self.total_time as u128) + (time as u128) <= u64::MAX as u128
            && (self.time_squared as u128) + sq <= u64::MAX as u128 && (time <= SLOW_THRESHOLD
            || self.slow_count < u64::MAX)
    }

    /// Folds one call into the group. A call slower than every earlier one
    /// becomes the group's slowest: its id, variables, complexity and text
    /// are kept (on a tie the earlier call stays).
    pub fn add(&mut self, time: u64, query_id: &str, query: &str, variables: &str, complexity: u64)
        requires
            fits(merge(totals(*old(self)), unit(time))),
        ensures
            totals(*final(self)) == merge(totals(*old(self)), unit(time)),
            final(self).id == old(self).id,
            final(self).hash == old(self).hash,
            final(self).subgraph == old(self).subgraph,
            time > old(self).max_time ==> {
                &&& final(self).max_uuid@ == query_id@
                &&& final(self).max_variables@ == variables@
                &&& final(self).max_complexity == complexity
                &&& final(self).query@ == query@
            },
            time <= old(self).max_time ==> {
                &&& final(self).max_uuid == old(self).max_uuid
                &&& final(self).max_variables == old(self).max_variables
                &&& final(self).max_complexity == old(self).max_complexity
                &&& final(self).query == old(self).query
            },
    {
        self.calls = self.calls + 1;
        self.total_time = self.total_time + time;
        assert(time as int * time as int <= u64::MAX);
        self.time_squared = self.time_squared + time * time;
        if time > self.max_time {
            self.max_time = time;
            self.max_uuid = query_id.to_string();
            self.max_variables = variables.to_string();
            self.max_complexity = complexity;
            self.query = query.to_string();
        }
        if time > SLOW_THRESHOLD {
            self.slow_count = self.slow_count + 1;
        }
    }

    /// Whether merging `other` in keeps every count and sum in a `u64`.
    pub fn can_combine(&self, other: &QueryInfo) -> (r: bool)
        ensures
            r == fits(merge(totals(*self), totals(*other))),
    {
        (self.calls as u128) + (other.calls as u128) <= u64::MAX as u128 && (self.total_time as u128)
            + (other.total_time as u128) <= u64::MAX as u128 && (self.time_squared as u128)
            + (other.time_squared as u128) <= u64::MAX as u128 && (self.slow_count as u128)
            + (other.slow_count as u128) <= u64::MAX as u128
    }

    /// Merges the statistics of `other`, a group of the same key, into this
    /// one. Where `other`'s slowest call is strictly slower, its id,
    /// variables, complexity and text are taken over.
    pub fn combine(&mut self, other: &QueryInfo)
        requires
            fits(merge(totals(*old(self)), totals(*other))),
        ensures
            totals(*final(self)) == merge(totals(*old(self)), totals(*other)),
            final(self).id == old(self).id,
            final(self).hash == old(self).hash,
            final(self).subgraph == old(self).subgraph,
            other.max_time > old(self).max_time ==> {
                &&& final(self).max_uuid == other.max_uuid
                &&& final(self).max_variables == other.max_variables
                &&& final(self).max_complexity == other.max_complexity
                &&& final(self).query == other.query
            },
            other.max_time <= old(self).max_time ==> {
                &&& final(self).max_uuid == old(self).max_uuid
                &&& final(self).max_variables == old(self).max_variables
                &&& final(self).max_complexity == old(self).max_complexity
                &&& final(self).query == old(self).query
            },
    {
        self.calls = self.calls + other.calls;
        self.total_time = self.total_time + other.total_time;
        self.time_squared = self.time_squared + other.time_squared;
        if other.max_time > self.max_time {
            self.max_time = other.max_time;
            self.max_uuid = other.max_uuid.clone();
            self.max_variables = other.max_variables.clone();
            self.max_complexity = other.max_complexity;
            self.query = other.query.clone();
        }
        self.slow_count = self.slow_count + other.slow_count;
    }

    /// Gives a group read from a summary that stored no key (key 0) the key
    /// of its query text: the text's fingerprint where `shapes` has one, else
    /// the raw text.
    pub fn restore_hash<F: ShapeFingerprint>(&mut self, shapes: &F)
        ensures
            old(self).hash != 0 ==> *final(self) == *old(self),
            old(self).hash == 0 ==> exists|s: KeySource|
                !(s is Embedded) && final(self).hash == key_of(s, old(self).query@, old(self).subgraph@),
            old(self).hash == 0 ==> *final(self) == (QueryInfo { hash: final(self).hash, ..*old(self) }),
    {
        if self.hash == 0 {
            let source = match shapes.fingerprint(self.query.as_str()) {
                Some(f) => KeySource::Shape(f),
                None => KeySource::Text,
            };
            self.hash = key_for(source, self.query.as_str(), self.subgraph.as_str());
        }
    }
}

/// The value that a field read from a summary takes where it is absent.
pub fn zero() -> (r: u64)
    ensures
        r == 0,
{
    0
}

/// The column that a report is sorted by, largest first.
#[derive(Clone, Copy, Debug, PartialEq, Eq, Structural)]
pub enum SortKey {
    Calls,
    Avg,
    Max,
    Slow,
    Uuid,
    Total,
}

/// The column that a sort name picks by its first letter; the total time
/// where the letter is none of `c`, `a`, `m`, `s`, `u` or the name is empty.
pub open spec fn sort_key_of(name: Seq<char>) -> SortKey {
    if name.len() == 0 {
        SortKey::Total
    } else if name[0] == 'c' {
        SortKey::Calls
    } else if name[0] == 'a' {
        SortKey::Avg
    } else if name[0] == 'm' {
        SortKey::Max
    } else if name[0] == 's' {
        SortKey::Slow
    } else if name[0] == 'u' {
        SortKey::Uuid
    } else {
        SortKey::Total
    }
}

pub fn sort_key(name: &str) -> (r: SortKey)
    ensures
        r == sort_key_of(name@),
{
    let cs = crate::text::chars_of(name);
    if cs.len() == 0 {
        return SortKey::Total;
    }
    let c = cs[0];
    if c == 'c' {
        SortKey::Calls
    } else if c == 'a' {
        SortKey::Avg
    } else if c == 'm' {
        SortKey::Max
    } else if c == 's' {
        SortKey::Slow
    } else if c == 'u' {
        SortKey::Uuid
    } else {
        SortKey::Total
    }
}

/// How `a` compares to `b` in column `key`: -1, 0 or 1. Averages compare as
/// exact fractions.
pub open spec fn metric_cmp(a: QueryInfo, b: QueryInfo, key: SortKey) -> int {
    match key {
        SortKey::Calls => sign(a.calls as int, b.calls as int),
        SortKey::Avg => sign(a.total_time * b.calls, b.total_time * a.calls),
        SortKey::Max => sign(a.max_time as int, b.max_time as int),
        SortKey::Slow => sign(a.slow_count as int, b.slow_count as int),
        SortKey::Uuid => lex_from(a.max_uuid@, b.max_uuid@, 0),
        SortKey::Total => sign(a.total_time as int, b.total_time as int),
    }
}

pub open spec fn ordering_of(c: int) -> core::cmp::Ordering {
    if c < 0 {
        core::cmp::Ordering::Less
    } else if c > 0 {
        core::cmp::Ordering::Greater
    } else {
        core::cmp::Ordering::Equal
    }
}

fn compare_u128(x: u128, y: u128) -> (r: core::cmp::Ordering)
    ensures
        r == ordering_of(-sign(x as int, y as int)),
{
    if x < y {
        core::cmp::Ordering::Greater
    } else if x > y {
        core::cmp::Ordering::Less
    } else {
        core::cmp::Ordering::Equal
    }
}

/// The order of a report: `Less` where `a` goes first, that is where its
/// value in column `key` is the larger.
pub fn compare_desc(a: &QueryInfo, b: &QueryInfo, key: SortKey) -> (r: core::cmp::Ordering)
    ensures
        r == ordering_of(-metric_cmp(*a, *b, key)),
{
    match key {
        SortKey::Calls => compare_u128(a.calls as u128, b.calls as u128),
        SortKey::Avg => {
            assert((a.total_time as int) * (b.calls as int) <= (u64::MAX as int) * (u64::MAX as int)
                && (b.total_time as int) * (a.calls as int) <= (u64::MAX as int) * (u64::MAX as int)) by (nonlinear_arith)
                requires
                    a.total_time <= u64::MAX,
                    b.calls <= u64::MAX,
                    b.total_time <= u64::MAX,
                    a.calls <= u64::MAX,
            ;
            compare_u128((a.total_time as u128) * (b.calls as u128), (b.total_time as u128) * (a.calls as u128))
        },
        SortKey::Max => compare_u128(a.max_time as u128, b.max_time as u128),
        SortKey::Slow => compare_u128(a.slow_count as u128, b.slow_count as u128),
        SortKey::Uuid => {
            let c = lex_compare(a.max_uuid.as_str(), b.max_uuid.as_str());
            if c < 0 {
                core::cmp::Ordering::Greater
            } else if c > 0 {
                core::cmp::Ordering::Less
            } else {
                core::cmp::Ordering::Equal
            }
        },
        SortKey::Total => compare_u128(a.total_time as u128, b.total_time as u128),
    }
}

/// `v` is in report order for column `key`: larger values first.
pub open spec fn sorted_desc(v: Seq<QueryInfo>, key: SortKey) -> bool {
    forall|i: int, j: int| 0 <= i < j < v.len() ==> metric_cmp(v[i], v[j], key) >= 0
}

/// `after` is `before` reordered by the index map `p`, in report order for
/// column `key`, with elements that compare equal in their old relative order.
pub open spec fn stable_reorder(before: Seq<QueryInfo>, after: Seq<QueryInfo>, key: SortKey) -> bool {
    &&& sorted_desc(after, key)
    &&& after.len() == before.len()
    &&& exists|p: Seq<int>|
        {
            &&& p.len() == after.len()
            &&& forall|i: int| 0 <= i < p.len() ==> 0 <= #[trigger] p[i] < before.len() && after[i] == before[p[i]]
            &&& forall|i: int, j: int| 0 <= i < j < p.len() ==> p[i] != p[j]
            &&& forall|i: int, j: int|
                0 <= i < j < p.len() && metric_cmp(after[i], after[j], key) == 0 ==> p[i] < p[j]
        }
}

/// Relies on std's `slice::sort_by`: a stable sort (equal elements keep
/// their order) that reorders the elements so that the comparator never puts
/// a later one before an earlier one, where the comparator is a total order. `compare_desc` is one on groups that all
/// have calls, which `requires` asks for where averages are compared.
#[verifier::external_body]
fn sort_groups(v: &mut Vec<QueryInfo>, key: SortKey)
    requires
        key == SortKey::Avg ==> forall|i: int| 0 <= i < old(v)@.len() ==> old(v)@[i].calls > 0,
    ensures
        final(v)@.to_multiset() == old(v)@.to_multiset(),
        stable_reorder(old(v)@, final(v)@, key),
{
    v.sort_by(|a, b| compare_desc(a, b, key))
}

/// Sorts a report by the column that `sort` names, largest first; rows that
/// tie keep their order.
pub fn sort_queries(queries: &mut Vec<QueryInfo>, sort: &str)
    requires
        sort_key_of(sort@) == SortKey::Avg ==> forall|i: int| 0 <= i < old(queries)@.len() ==> old(queries)@[i].calls > 0,
    ensures
        final(queries)@.to_multiset() == old(queries)@.to_multiset(),
        stable_reorder(old(queries)@, final(queries)@, sort_key_of(sort@)),
{
    let key = sort_key(sort);
    sort_groups(queries, key);
}

} // verus!
