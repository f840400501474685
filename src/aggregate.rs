//! Per-group statistics over a stream of records, and the merge of stored
//! summaries.
use vstd::prelude::*;
use vstd::seq_lib::{commutative_foldl, lemma_fold_left_permutation, lemma_multiset_commutative};
use crate::key::{ShapeFingerprint, admissible, group_key, key_of};
use crate::entry::{Entry, parse_line};
use crate::sampler::{Sampler, sample_outcome};
use crate::stats::{QueryInfo, Totals, fits, merge, no_totals, totals, unit};

verus! {

/// Some count or sum of a group would no longer fit in a `u64`.
#[derive(Debug, Clone, Copy, PartialEq, Eq, Structural)]
pub struct Overflow;

/// One record as the statistics see it: its group key and elapsed time.
pub struct Observation {
    pub key: u64,
    pub time: u64,
}

/// The unit result of `r`.
pub open spec fn unit_result(r: Result<bool, Overflow>) -> Result<(), Overflow> {
    match r {
        Ok(_) => Ok(()),
        Err(e) => Err(e),
    }
}

/// The totals of the records of `log` with group key `key`.
pub open spec fn log_totals(log: Seq<Observation>, key: u64) -> Totals
    decreases log.len(),
{
    if log.len() == 0 {
        no_totals()
    } else if log.last().key == key {
        merge(log_totals(log.drop_last(), key), unit(log.last().time))
    } else {
        log_totals(log.drop_last(), key)
    }
}

/// The totals of the groups of `infos` with group key `key`, merged.
pub open spec fn list_totals(infos: Seq<QueryInfo>, key: u64) -> Totals
    decreases infos.len(),
{
    if infos.len() == 0 {
        no_totals()
    } else if infos.last().hash == key {
        merge(list_totals(infos.drop_last(), key), totals(infos.last()))
    } else {
        list_totals(infos.drop_last(), key)
    }
}

pub open spec fn keys_increasing(gs: Seq<QueryInfo>) -> bool {
    forall|i: int, j: int| 0 <= i < j < gs.len() ==> gs[i].hash < gs[j].hash
}

pub open spec fn has_key(gs: Seq<QueryInfo>, key: u64) -> bool {
    exists|i: int| 0 <= i < gs.len() && gs[i].hash == key
}

/// The group of `gs` with key `key`, if there is one.
pub open spec fn group_in(gs: Seq<QueryInfo>, key: u64) -> Option<QueryInfo> {
    if has_key(gs, key) {
        Some(gs[choose|i: int| 0 <= i < gs.len() && gs[i].hash == key])
    } else {
        None
    }
}

proof fn lemma_group_at(gs: Seq<QueryInfo>, i: int)
    requires
        keys_increasing(gs),
        0 <= i < gs.len(),
    ensures
        group_in(gs, gs[i].hash) == Some(gs[i]),
{
    let j = choose|j: int| 0 <= j < gs.len() && gs[j].hash == gs[i].hash;
    if j < i {
        assert(gs[j].hash < gs[i].hash);
    }
    if i < j {
        assert(gs[i].hash < gs[j].hash);
    }
}

/// What `QueryInfo::add` makes of `before`.
pub open spec fn added(
    before: QueryInfo,
    after: QueryInfo,
    time: u64,
    query_id: Seq<char>,
    query: Seq<char>,
    variables: Seq<char>,
    complexity: u64,
) -> bool {
    &&& totals(after) == merge(totals(before), unit(time))
    &&& after.id == before.id
    &&& after.hash == before.hash
    &&& after.subgraph == before.subgraph
    &&& time > before.max_time ==> {
        &&& after.max_uuid@ == query_id
        &&& after.max_variables@ == variables
        &&& after.max_complexity == complexity
        &&& after.query@ == query
    }
    &&& time <= before.max_time ==> {
        &&& after.max_uuid == before.max_uuid
        &&& after.max_variables == before.max_variables
        &&& after.max_complexity == before.max_complexity
        &&& after.query == before.query
    }
}

/// A running set of group statistics, and the records fed into it so far.
pub struct Aggregator {
    /// The groups, ordered by key.
    pub groups: Vec<QueryInfo>,
    pub log: Ghost<Seq<Observation>>,
}

/// The outcome of feeding one record with group key `key` to `before`.
pub open spec fn add_outcome(
    before: Aggregator,
    after: Aggregator,
    r: Result<(), Overflow>,
    key: u64,
    time: u64,
    complexity: u64,
    query_id: Seq<char>,
    query: Seq<char>,
    variables: Seq<char>,
    subgraph: Seq<char>,
) -> bool {
    &&& r is Ok <==> fits(merge(log_totals(before.log@, key), unit(time))) && (has_key(
        before.groups@,
        key,
    ) || before.groups@.len() < usize::MAX)
    &&& r is Err ==> after == before
    &&& r is Ok ==> {
        &&& after.log@ == before.log@.push(Observation { key, time })
        &&& forall|k: u64| k != key ==> group_in(after.groups@, k) == group_in(before.groups@, k)
        &&& group_in(after.groups@, key) matches Some(g) && match group_in(before.groups@, key) {
            Some(b) => added(b, g, time, query_id, query, variables, complexity),
            None => {
                &&& g.id == before.groups@.len() + 1
                &&& g.hash == key
                &&& g.subgraph@ == subgraph
                &&& g.query@ == query
                &&& totals(g) == unit(time)
                &&& time > 0 ==> g.max_uuid@ == query_id && g.max_variables@ == variables
                    && g.max_complexity == complexity
                &&& time == 0 ==> g.max_uuid@ == "(none)"@ && g.max_variables@ == "null"@
                    && g.max_complexity == 0
            },
        }
    }
}

/// Where `key` stands in the increasing keys of `gs`: found, or the place
/// where it would go.
fn position(gs: &Vec<QueryInfo>, key: u64) -> (r: (bool, usize))
    requires
        keys_increasing(gs@),
    ensures
        r.1 <= gs@.len(),
        r.0 ==> r.1 < gs@.len() && gs@[r.1 as int].hash == key,
        !r.0 ==> forall|i: int| 0 <= i < r.1 ==> gs@[i].hash < key,
        !r.0 ==> forall|i: int| r.1 <= i < gs@.len() ==> gs@[i].hash > key,
{
    let mut lo: usize = 0;
    let mut hi: usize = gs.len();
    while lo < hi
        invariant
            lo <= hi <= gs@.len(),
            keys_increasing(gs@),
            forall|i: int| 0 <= i < lo ==> gs@[i].hash < key,
            forall|i: int| hi <= i < gs@.len() ==> gs@[i].hash > key,
        decreases hi - lo,
    {
        let mid = lo + (hi - lo) / 2;
        let h = gs[mid].hash;
        if h < key {
            lo = mid + 1;
        } else if h > key {
            hi = mid;
        } else {
            return (true, mid);
        }
    }
    (false, lo)
}

proof fn lemma_insert_keeps_increasing(gs: Seq<QueryInfo>, idx: int, g: QueryInfo)
    requires
        keys_increasing(gs),
        0 <= idx <= gs.len(),
        forall|i: int| 0 <= i < idx ==> gs[i].hash < g.hash,
        forall|i: int| idx <= i < gs.len() ==> gs[i].hash > g.hash,
    ensures
        keys_increasing(gs.insert(idx, g)),
{
    let ns = gs.insert(idx, g);
    assert forall|i: int, j: int| 0 <= i < j < ns.len() implies ns[i].hash < ns[j].hash by {
        if i < idx && j < idx {
            assert(ns[i] == gs[i] && ns[j] == gs[j]);
        } else if i < idx && j == idx {
        } else if i < idx {
            assert(ns[i] == gs[i] && ns[j] == gs[j - 1]);
        } else if i == idx {
            assert(ns[j] == gs[j - 1]);
        } else {
            assert(ns[i] == gs[i - 1] && ns[j] == gs[j - 1]);
        }
    }
}

proof fn lemma_group_in_absent(gs: Seq<QueryInfo>, key: u64)
    requires
        forall|i: int| 0 <= i < gs.len() ==> gs[i].hash != key,
    ensures
        group_in(gs, key) is None,
{
}

/// The groups `gs` hold the statistics of `log`: one group per key seen, in
/// increasing key order, with distinct display ids from 1 to the number of
/// groups.
pub open spec fn table_wf(gs: Seq<QueryInfo>, log: Seq<Observation>) -> bool {
    &&& keys_increasing(gs)
    &&& forall|i: int| 0 <= i < gs.len() ==> totals(#[trigger] gs[i]) == log_totals(log, gs[i].hash)
    &&& forall|k: u64| has_key(gs, k) <==> log_totals(log, k).calls > 0
    &&& forall|i: int| 0 <= i < gs.len() ==> 1 <= #[trigger] gs[i].id <= gs.len()
    &&& forall|i: int, j: int| 0 <= i < gs.len() && 0 <= j < gs.len() && i != j ==> gs[i].id != gs[j].id
}

proof fn lemma_push_log(log: Seq<Observation>, key: u64, time: u64)
    ensures
        log_totals(log.push(Observation { key, time }), key) == merge(log_totals(log, key), unit(time)),
        forall|k: u64| k != key ==> log_totals(log.push(Observation { key, time }), k) == log_totals(log, k),
{
    assert(log.push(Observation { key, time }).drop_last() =~= log);
}

proof fn lemma_update_group(gs: Seq<QueryInfo>, log: Seq<Observation>, idx: int, g: QueryInfo, time: u64)
    requires
        table_wf(gs, log),
        0 <= idx < gs.len(),
        g.hash == gs[idx].hash,
        g.id == gs[idx].id,
        totals(g) == merge(totals(gs[idx]), unit(time)),
    ensures
        table_wf(gs.update(idx, g), log.push(Observation { key: g.hash, time })),
        group_in(gs.update(idx, g), g.hash) == Some(g),
        group_in(gs, g.hash) == Some(gs[idx]),
        forall|k: u64| k != g.hash ==> group_in(gs.update(idx, g), k) == group_in(gs, k),
{
    let key = g.hash;
    let ns = gs.update(idx, g);
    let nl = log.push(Observation { key, time });
    lemma_push_log(log, key, time);
    assert(keys_increasing(ns));
    lemma_group_at(gs, idx);
    lemma_group_at(ns, idx);
    assert forall|k: u64| k != key implies group_in(ns, k) == group_in(gs, k) by {
        if has_key(gs, k) {
            let i = choose|i: int| 0 <= i < gs.len() && gs[i].hash == k;
            lemma_group_at(gs, i);
            lemma_group_at(ns, i);
        } else {
            assert forall|i: int| 0 <= i < ns.len() implies ns[i].hash != k by {
                if i != idx {
                    assert(ns[i] == gs[i]);
                }
            }
        }
    }
    assert forall|k: u64| has_key(ns, k) <==> log_totals(nl, k).calls > 0 by {
        if has_key(ns, k) {
            let i = choose|i: int| 0 <= i < ns.len() && ns[i].hash == k;
            assert(gs[i].hash == k);
        }
        if has_key(gs, k) {
            let i = choose|i: int| 0 <= i < gs.len() && gs[i].hash == k;
            assert(ns[i].hash == k);
        }
    }
}

proof fn lemma_insert_group(gs: Seq<QueryInfo>, log: Seq<Observation>, idx: int, g: QueryInfo, time: u64)
    requires
        table_wf(gs, log),
        0 <= idx <= gs.len(),
        forall|i: int| 0 <= i < idx ==> gs[i].hash < g.hash,
        forall|i: int| idx <= i < gs.len() ==> gs[i].hash > g.hash,
        g.id == gs.len() + 1,
        totals(g) == unit(time),
    ensures
        table_wf(gs.insert(idx, g), log.push(Observation { key: g.hash, time })),
        group_in(gs.insert(idx, g), g.hash) == Some(g),
        group_in(gs, g.hash) is None,
        log_totals(log, g.hash) == no_totals(),
        forall|k: u64| k != g.hash ==> group_in(gs.insert(idx, g), k) == group_in(gs, k),
{
    let key = g.hash;
    let ns = gs.insert(idx, g);
    let nl = log.push(Observation { key, time });
    lemma_push_log(log, key, time);
    lemma_insert_keeps_increasing(gs, idx, g);
    assert(!has_key(gs, key));
    lemma_log_totals_empty(log, key);
    assert forall|i: int| 0 <= i < ns.len() && i != idx implies ns[i] == gs[if i < idx {
        i
    } else {
        i - 1
    }] by {}
    lemma_group_at(ns, idx);
    assert forall|k: u64| k != key implies group_in(ns, k) == group_in(gs, k) by {
        if has_key(gs, k) {
            let i = choose|i: int| 0 <= i < gs.len() && gs[i].hash == k;
            lemma_group_at(gs, i);
            let ni = if i < idx { i } else { i + 1 };
            assert(ns[ni] == gs[i]);
            lemma_group_at(ns, ni);
        } else {
            assert forall|i: int| 0 <= i < ns.len() implies ns[i].hash != k by {
                if i != idx {
                    let oi = if i < idx { i } else { i - 1 };
                    assert(ns[i] == gs[oi]);
                }
            }
        }
    }
    assert forall|i: int| 0 <= i < ns.len() implies totals(#[trigger] ns[i]) == log_totals(nl, ns[i].hash) by {
        if i != idx {
            let oi = if i < idx { i } else { i - 1 };
            assert(ns[i] == gs[oi]);
        }
    }
    assert forall|k: u64| has_key(ns, k) <==> log_totals(nl, k).calls > 0 by {
        if has_key(ns, k) {
            let i = choose|i: int| 0 <= i < ns.len() && ns[i].hash == k;
            if i != idx {
                let oi = if i < idx { i } else { i - 1 };
                assert(ns[i] == gs[oi]);
            }
        }
        if k != key && has_key(gs, k) {
            let i = choose|i: int| 0 <= i < gs.len() && gs[i].hash == k;
            let ni = if i < idx { i } else { i + 1 };
            assert(ns[ni] == gs[i]);
        }
    }
    assert forall|i: int| 0 <= i < ns.len() implies 1 <= #[trigger] ns[i].id <= ns.len() by {
        if i != idx {
            let oi = if i < idx { i } else { i - 1 };
            assert(ns[i] == gs[oi]);
        }
    }
    assert forall|i: int, j: int|
        0 <= i < ns.len() && 0 <= j < ns.len() && i != j implies ns[i].id != ns[j].id by {
        if i != idx {
            let oi = if i < idx { i } else { i - 1 };
            assert(ns[i] == gs[oi]);
        }
        if j != idx {
            let oj = if j < idx { j } else { j - 1 };
            assert(ns[j] == gs[oj]);
        }
    }
}

impl Aggregator {
    pub open spec fn wf(&self) -> bool {
        table_wf(self.groups@, self.log@)
    }

    /// An aggregator that has seen no record.
    pub fn new() -> (r: Aggregator)
        ensures
            r.wf(),
            r.log@ == Seq::<Observation>::empty(),
            r.groups@.len() == 0,
    {
        Aggregator { groups: Vec::new(), log: Ghost(Seq::empty()) }
    }

    /// Folds one record with group key `key` into its group, which is made,
    /// with the next display id, on the key's first record. Where a count or
    /// sum would overflow, nothing changes and `Overflow` comes back.
    pub fn add_keyed(
        &mut self,
        key: u64,
        time: u64,
        complexity: u64,
        query_id: &str,
        query: &str,
        variables: &str,
        subgraph: &str,
    ) -> (r: Result<(), Overflow>)
        requires
            old(self).wf(),
        ensures
            final(self).wf(),
            add_outcome(*old(self), *final(self), r, key, time, complexity, query_id@, query@, variables@, subgraph@),
    {
        let ghost old_log = self.log@;
        let ghost new_log = old_log.push(Observation { key, time });
        let ghost old_groups = self.groups@;
        let (found, idx) = position(&self.groups, key);
        if found {
            proof {
                lemma_group_at(old_groups, idx as int);
            }
            if !self.groups[idx].can_add(time) {
                return Err(Overflow);
            }
            self.groups[idx].add(time, query_id, query, variables, complexity);
            self.log = Ghost(new_log);
            proof {
                assert(self.groups@ == old_groups.update(idx as int, self.groups@[idx as int]));
                lemma_update_group(old_groups, old_log, idx as int, self.groups@[idx as int], time);
            }
            Ok(())
        } else {
            let count = self.groups.len();
            proof {
                assert(!has_key(old_groups, key));
                lemma_log_totals_empty(old_log, key);
                lemma_group_in_absent(old_groups, key);
            }
            if count == usize::MAX {
                return Err(Overflow);
            }
            let mut info = QueryInfo::new(query.to_string(), subgraph.to_string(), count + 1, key);
            if !info.can_add(time) {
                return Err(Overflow);
            }
            info.add(time, query_id, query, variables, complexity);
            self.groups.insert(idx, info);
            self.log = Ghost(new_log);
            proof {
                lemma_insert_group(old_groups, old_log, idx as int, info, time);
            }
            Ok(())
        }
    }

    /// Folds one record into the statistics of its group; the group key
    /// comes from `group_key`. Returns what `add_keyed` returns for that key.
    pub fn add_entry<F: ShapeFingerprint>(
        &mut self,
        shapes: &F,
        time: u64,
        complexity: u64,
        query_id: &str,
        query: &str,
        variables: &str,
        subgraph: &str,
    ) -> (r: Result<(), Overflow>)
        requires
            old(self).wf(),
        ensures
            final(self).wf(),
            exists|s| #![auto]
                admissible(query_id@, s) && add_outcome(
                    *old(self),
                    *final(self),
                    r,
                    key_of(s, query@, subgraph@),
                    time,
                    complexity,
                    query_id@,
                    query@,
                    variables@,
                    subgraph@,
                ),
    {
        let key = group_key(query_id, query, subgraph, shapes);
        self.add_keyed(key, time, complexity, query_id, query, variables, subgraph)
    }

    /// The groups, ordered by key.
    pub fn finish(self) -> (r: Vec<QueryInfo>)
        ensures
            r@ == self.groups@,
    {
        self.groups
    }
}

proof fn lemma_list_totals_nonneg(infos: Seq<QueryInfo>, key: u64)
    ensures
        list_totals(infos, key).calls >= 0,
        list_totals(infos, key).total >= 0,
        list_totals(infos, key).squares >= 0,
        list_totals(infos, key).slow >= 0,
        list_totals(infos, key).max >= 0,
    decreases infos.len(),
{
    if infos.len() > 0 {
        lemma_list_totals_nonneg(infos.drop_last(), key);
    }
}

/// The totals of a prefix are no larger than those of the whole list.
proof fn lemma_list_totals_prefix(infos: Seq<QueryInfo>, n: int, key: u64)
    requires
        0 <= n <= infos.len(),
    ensures
        list_totals(infos.take(n), key).calls <= list_totals(infos, key).calls,
        list_totals(infos.take(n), key).total <= list_totals(infos, key).total,
        list_totals(infos.take(n), key).squares <= list_totals(infos, key).squares,
        list_totals(infos.take(n), key).slow <= list_totals(infos, key).slow,
        list_totals(infos.take(n), key).max <= list_totals(infos, key).max,
    decreases infos.len(),
{
    if n == infos.len() {
        assert(infos.take(n) =~= infos);
    } else {
        let init = infos.drop_last();
        assert(init.take(n) =~= infos.take(n));
        lemma_list_totals_prefix(init, n, key);
        lemma_list_totals_nonneg(init, key);
    }
}

proof fn lemma_list_totals_absent(infos: Seq<QueryInfo>, key: u64)
    requires
        !has_key(infos, key),
    ensures
        list_totals(infos, key) == no_totals(),
    decreases infos.len(),
{
    if infos.len() > 0 {
        let init = infos.drop_last();
        assert(!has_key(init, key)) by {
            if has_key(init, key) {
                let i = choose|i: int| 0 <= i < init.len() && init[i].hash == key;
                assert(infos[i].hash == key);
            }
        }
        lemma_list_totals_absent(init, key);
        assert(infos[infos.len() - 1].hash != key);
    }
}

proof fn lemma_list_step(infos: Seq<QueryInfo>, n: int)
    requires
        0 <= n < infos.len(),
    ensures
        forall|k: u64| #[trigger]
            list_totals(infos.take(n + 1), k) == if infos[n].hash == k {
                merge(list_totals(infos.take(n), k), totals(infos[n]))
            } else {
                list_totals(infos.take(n), k)
            },
        forall|k: u64| #[trigger]
            has_key(infos.take(n + 1), k) <==> (has_key(infos.take(n), k) || infos[n].hash == k),
{
    let a = infos.take(n + 1);
    assert(a.drop_last() =~= infos.take(n));
    assert forall|k: u64| #[trigger] has_key(a, k) <==> (has_key(infos.take(n), k) || infos[n].hash == k) by {
        if has_key(a, k) {
            let i = choose|i: int| 0 <= i < a.len() && a[i].hash == k;
            if i < n {
                assert(infos.take(n)[i].hash == k);
            }
        }
        if has_key(infos.take(n), k) {
            let i = choose|i: int| 0 <= i < n && infos.take(n)[i].hash == k;
            assert(a[i].hash == k);
        }
        if infos[n].hash == k {
            assert(a[n].hash == k);
        }
    }
}

/// The slowest call of `g` is that of the first group of `infos` with its key
/// and the largest time, and its subgraph that of the first group of `infos`
/// with its key.
pub open spec fn details_from(g: QueryInfo, infos: Seq<QueryInfo>) -> bool {
    &&& forall|j: int|
        0 <= j < infos.len() && (#[trigger] infos[j]).hash == g.hash ==> infos[j].max_time <= g.max_time
    &&& exists|j: int|
        0 <= j < infos.len() && (#[trigger] infos[j]).hash == g.hash && infos[j].max_time == g.max_time
            && infos[j].max_uuid == g.max_uuid && infos[j].max_variables == g.max_variables
            && infos[j].max_complexity == g.max_complexity && infos[j].query == g.query && forall|i: int|
            0 <= i < j && (#[trigger] infos[i]).hash == g.hash ==> infos[i].max_time < g.max_time
    &&& exists|j: int|
        0 <= j < infos.len() && (#[trigger] infos[j]).hash == g.hash && infos[j].subgraph == g.subgraph
            && forall|i: int| 0 <= i < j ==> (#[trigger] infos[i]).hash != g.hash
}

proof fn lemma_details_grow(g: QueryInfo, infos: Seq<QueryInfo>, m: int)
    requires
        0 <= m < infos.len(),
        infos[m].hash != g.hash,
        details_from(g, infos.take(m)),
    ensures
        details_from(g, infos.take(m + 1)),
{
    let a = infos.take(m);
    let b = infos.take(m + 1);
    assert forall|j: int| 0 <= j < b.len() && (#[trigger] b[j]).hash == g.hash implies b[j].max_time <= g.max_time by {
        assert(j < m);
        assert(b[j] == a[j]);
    }
    let j = choose|j: int|
        0 <= j < a.len() && (#[trigger] a[j]).hash == g.hash && a[j].max_time == g.max_time
            && a[j].max_uuid == g.max_uuid && a[j].max_variables == g.max_variables
            && a[j].max_complexity == g.max_complexity && a[j].query == g.query && forall|i: int|
            0 <= i < j && (#[trigger] a[i]).hash == g.hash ==> a[i].max_time < g.max_time;
    assert(b[j] == a[j]);
    assert forall|i: int| 0 <= i < j && (#[trigger] b[i]).hash == g.hash implies b[i].max_time < g.max_time by {
        assert(b[i] == a[i]);
    }
    let k = choose|k: int|
        0 <= k < a.len() && (#[trigger] a[k]).hash == g.hash && a[k].subgraph == g.subgraph
            && forall|i: int| 0 <= i < k ==> (#[trigger] a[i]).hash != g.hash;
    assert(b[k] == a[k]);
    assert forall|i: int| 0 <= i < k implies (#[trigger] b[i]).hash != g.hash by {
        assert(b[i] == a[i]);
    }
}

/// Merges stored summaries: one group per key, whose totals are those of all
/// the inputs with that key, in increasing key order, with display ids
/// renumbered from 0. Where some key's totals do not fit in a `u64`, the
/// result is `Overflow`.
pub fn combine(infos: Vec<QueryInfo>) -> (r: Result<Vec<QueryInfo>, Overflow>)
    ensures
        r is Ok <==> forall|k: u64| fits(#[trigger] list_totals(infos@, k)),
        r matches Ok(out) ==> {
            &&& keys_increasing(out@)
            &&& forall|k: u64| has_key(out@, k) <==> has_key(infos@, k)
            &&& forall|i: int|
                0 <= i < out@.len() ==> totals(#[trigger] out@[i]) == list_totals(infos@, out@[i].hash)
            &&& forall|i: int| 0 <= i < out@.len() ==> #[trigger] out@[i].id == i
            &&& forall|i: int| 0 <= i < out@.len() ==> details_from(#[trigger] out@[i], infos@)
        },
{
    let ghost all = infos@;
    let mut gs: Vec<QueryInfo> = Vec::new();
    assert(all.take(0) =~= Seq::<QueryInfo>::empty());
    for info in it: infos.into_iter()
        invariant
            it.seq() == all,
            keys_increasing(gs@),
            forall|i: int|
                0 <= i < gs@.len() ==> totals(#[trigger] gs@[i]) == list_totals(
                    all.take(it.index() as int),
                    gs@[i].hash,
                ),
            forall|k: u64| #[trigger] has_key(gs@, k) <==> has_key(all.take(it.index() as int), k),
            forall|k: u64| fits(#[trigger] list_totals(all.take(it.index() as int), k)),
            forall|i: int| 0 <= i < gs@.len() ==> details_from(#[trigger] gs@[i], all.take(it.index() as int)),
    {
        let ghost m = it.index() as int;
        let ghost before = gs@;
        proof {
            lemma_list_step(all, m);
            assert(info == all[m]);
        }
        let (found, p) = position(&gs, info.hash);
        if found {
            if !gs[p].can_combine(&info) {
                proof {
                    let key = info.hash;
                    assert(!fits(list_totals(all.take(m + 1), key)));
                    lemma_list_totals_prefix(all, m + 1, key);
                    assert(!fits(list_totals(all, key)));
                }
                return Err(Overflow);
            }
            gs[p].combine(&info);
            proof {
                let ns = gs@;
                assert(ns == before.update(p as int, ns[p as int]));
                assert(keys_increasing(ns));
                assert forall|i: int| 0 <= i < ns.len() implies totals(#[trigger] ns[i]) == list_totals(
                    all.take(m + 1),
                    ns[i].hash,
                ) by {
                    if i != p {
                        assert(ns[i] == before[i]);
                        assert(before[i].hash != info.hash);
                    }
                }
                assert forall|k: u64| has_key(ns, k) <==> has_key(all.take(m + 1), k) by {
                    if has_key(ns, k) {
                        let i = choose|i: int| 0 <= i < ns.len() && ns[i].hash == k;
                        assert(before[i].hash == k);
                    }
                    if has_key(before, k) {
                        let i = choose|i: int| 0 <= i < before.len() && before[i].hash == k;
                        assert(ns[i].hash == k);
                    }
                }
                assert forall|k: u64| fits(#[trigger] list_totals(all.take(m + 1), k)) by {
                    if k == info.hash {
                        assert(list_totals(all.take(m + 1), k) == totals(ns[p as int]));
                    }
                }
                assert forall|i: int| 0 <= i < ns.len() implies details_from(#[trigger] ns[i], all.take(m + 1)) by {
                    let t = all.take(m + 1);
                    let u = all.take(m);
                    assert(t[m] == info);
                    if i != p {
                        assert(ns[i] == before[i]);
                        assert(before[i].hash != info.hash);
                        lemma_details_grow(before[i], all, m);
                    } else {
                        let g = before[i];
                        let h = ns[i];
                        assert forall|j: int| 0 <= j < t.len() && (#[trigger] t[j]).hash == h.hash implies t[j].max_time <= h.max_time by {
                            if j < m {
                                assert(t[j] == u[j]);
                            }
                        }
                        if info.max_time > g.max_time {
                            assert forall|x: int| 0 <= x < m && (#[trigger] t[x]).hash == h.hash implies t[x].max_time < h.max_time by {
                                assert(t[x] == u[x]);
                            }
                            assert(t[m].hash == h.hash && t[m].max_time == h.max_time);
                        } else {
                            let j = choose|j: int|
                                0 <= j < u.len() && (#[trigger] u[j]).hash == g.hash && u[j].max_time == g.max_time
                                    && u[j].max_uuid == g.max_uuid && u[j].max_variables == g.max_variables
                                    && u[j].max_complexity == g.max_complexity && u[j].query == g.query && forall|x: int|
                                    0 <= x < j && (#[trigger] u[x]).hash == g.hash ==> u[x].max_time < g.max_time;
                            assert(t[j] == u[j]);
                            assert forall|x: int| 0 <= x < j && (#[trigger] t[x]).hash == h.hash implies t[x].max_time < h.max_time by {
                                assert(t[x] == u[x]);
                            }
                        }
                        let k = choose|k: int|
                            0 <= k < u.len() && (#[trigger] u[k]).hash == g.hash && u[k].subgraph == g.subgraph
                                && forall|x: int| 0 <= x < k ==> (#[trigger] u[x]).hash != g.hash;
                        assert(t[k] == u[k]);
                        assert forall|x: int| 0 <= x < k implies (#[trigger] t[x]).hash != h.hash by {
                            assert(t[x] == u[x]);
                        }
                    }
                }
            }
        } else {
            proof {
                let key = info.hash;
                assert(!has_key(before, key));
                lemma_list_totals_absent(all.take(m), key);
                lemma_insert_keeps_increasing(before, p as int, info);
            }
            gs.insert(p, info);
            proof {
                let ns = gs@;
                assert(ns == before.insert(p as int, info));
                assert forall|i: int| 0 <= i < ns.len() implies totals(#[trigger] ns[i]) == list_totals(
                    all.take(m + 1),
                    ns[i].hash,
                ) by {
                    if i != p {
                        let oi = if i < p { i } else { i - 1 };
                        assert(ns[i] == before[oi]);
                    }
                }
                assert forall|k: u64| has_key(ns, k) <==> has_key(all.take(m + 1), k) by {
                    if has_key(ns, k) {
                        let i = choose|i: int| 0 <= i < ns.len() && ns[i].hash == k;
                        if i != p {
                            let oi = if i < p { i } else { i - 1 };
                            assert(ns[i] == before[oi]);
                        }
                    }
                    if has_key(before, k) {
                        let i = choose|i: int| 0 <= i < before.len() && before[i].hash == k;
                        let ni = if i < p { i } else { i + 1 };
                        assert(ns[ni] == before[i]);
                    }
                    if k == info.hash {
                        assert(ns[p as int].hash == k);
                    }
                }
                assert forall|k: u64| fits(#[trigger] list_totals(all.take(m + 1), k)) by {
                    if k == info.hash {
                        assert(list_totals(all.take(m + 1), k) == totals(info));
                    }
                }
                assert forall|i: int| 0 <= i < ns.len() implies details_from(#[trigger] ns[i], all.take(m + 1)) by {
                    let t = all.take(m + 1);
                    assert(t[m] == info);
                    if i == p {
                        assert forall|x: int| 0 <= x < m implies (#[trigger] t[x]).hash != info.hash by {
                            assert(t[x] == all.take(m)[x]);
                        }
                    } else {
                        let oi = if i < p { i } else { i - 1 };
                        assert(ns[i] == before[oi]);
                        assert(before[oi].hash != info.hash);
                        lemma_details_grow(before[oi], all, m);
                    }
                }
            }
        }
    }
    assert(all.take(all.len() as int) =~= all);
    let ghost merged = gs@;
    let mut i: usize = 0;
    while i < gs.len()
        invariant
            i <= gs@.len(),
            gs@.len() == merged.len(),
            forall|j: int| 0 <= j < gs@.len() ==> gs@[j].hash == merged[j].hash,
            forall|j: int| 0 <= j < gs@.len() ==> totals(#[trigger] gs@[j]) == totals(merged[j]),
            forall|j: int| 0 <= j < i ==> #[trigger] gs@[j].id == j,
            forall|j: int| 0 <= j < gs@.len() ==> #[trigger] gs@[j] == (QueryInfo { id: gs@[j].id, ..merged[j] }),
        decreases gs@.len() - i,
    {
        gs[i].id = i;
        i = i + 1;
    }
    proof {
        assert forall|k: u64| has_key(gs@, k) <==> has_key(merged, k) by {
            if has_key(gs@, k) {
                let j = choose|j: int| 0 <= j < gs@.len() && gs@[j].hash == k;
                assert(merged[j].hash == k);
            }
            if has_key(merged, k) {
                let j = choose|j: int| 0 <= j < merged.len() && merged[j].hash == k;
                assert(gs@[j].hash == k);
            }
        }
        assert forall|k: u64| has_key(merged, k) <==> has_key(all, k) by {
            assert(has_key(merged, k) <==> has_key(all.take(all.len() as int), k));
        }
        assert forall|j: int| 0 <= j < gs@.len() implies details_from(#[trigger] gs@[j], infos@) by {
            assert(details_from(merged[j], all));
            assert(gs@[j] == (QueryInfo { id: gs@[j].id, ..merged[j] }));
        }
    }
    Ok(gs)
}

/// One record folded into the totals of key `key`.
pub open spec fn step(key: u64) -> spec_fn(Totals, Observation) -> Totals {
    |t: Totals, o: Observation|
        if o.key == key {
            merge(t, unit(o.time))
        } else {
            t
        }
}

proof fn lemma_log_totals_fold(log: Seq<Observation>, key: u64)
    ensures
        log_totals(log, key) == log.fold_left(no_totals(), step(key)),
    decreases log.len(),
{
    if log.len() > 0 {
        lemma_log_totals_fold(log.drop_last(), key);
    }
}

/// The totals of a log do not depend on the order of its records.
pub proof fn lemma_log_totals_permutation(a: Seq<Observation>, b: Seq<Observation>, key: u64)
    requires
        a.to_multiset() == b.to_multiset(),
    ensures
        log_totals(a, key) == log_totals(b, key),
{
    let f = step(key);
    assert(commutative_foldl(f)) by {
        assert forall|x: Observation, y: Observation, v: Totals| #[trigger] f(f(v, x), y) == f(f(v, y), x) by {}
    }
    lemma_fold_left_permutation(a, b, f, no_totals());
    lemma_log_totals_fold(a, key);
    lemma_log_totals_fold(b, key);
}

/// The totals of two logs one after the other are the merge of their totals.
pub proof fn lemma_log_totals_concat(a: Seq<Observation>, b: Seq<Observation>, key: u64)
    ensures
        log_totals(a + b, key) == merge(log_totals(a, key), log_totals(b, key)),
    decreases b.len(),
{
    if b.len() == 0 {
        assert(a + b =~= a);
        lemma_log_totals_nonneg(a, key);
    } else {
        assert((a + b).drop_last() =~= a + b.drop_last());
        assert((a + b).last() == b.last());
        lemma_log_totals_concat(a, b.drop_last(), key);
    }
}

/// Splitting a log into two shards, contiguous or interleaved, aggregating
/// each and merging the results gives, for every group key, the calls, total
/// time, sum of squares, slow count and maximum time of aggregating the whole
/// log at once.
pub proof fn lemma_sharded_aggregation(
    log: Seq<Observation>,
    shard1: Seq<Observation>,
    shard2: Seq<Observation>,
    key: u64,
)
    requires
        log.to_multiset() == shard1.to_multiset().add(shard2.to_multiset()),
    ensures
        log_totals(log, key) == merge(log_totals(shard1, key), log_totals(shard2, key)),
{
    lemma_multiset_commutative(shard1, shard2);
    lemma_log_totals_permutation(log, shard1 + shard2, key);
    lemma_log_totals_concat(shard1, shard2, key);
}

proof fn lemma_deviation_nonnegative(log: Seq<Observation>, key: u64, x: int)
    ensures
        ({
            let t = log_totals(log, key);
            t.squares - 2 * t.total * x + t.calls * x * x >= 0
        }),
    decreases log.len(),
{
    if log.len() > 0 {
        lemma_deviation_nonnegative(log.drop_last(), key, x);
        if log.last().key == key {
            let t = log_totals(log.drop_last(), key);
            let y = log.last().time as int;
            assert((t.squares + y * y) - 2 * (t.total + y) * x + (t.calls + 1) * x * x == (t.squares - 2
                * t.total * x + t.calls * x * x) + (y - x) * (y - x)) by (nonlinear_arith);
            assert((y - x) * (y - x) >= 0) by (nonlinear_arith);
        }
    }
}

/// The spread of a group is never negative: `calls * time_squared` is at
/// least `total_time * total_time`, so the population variance
/// `time_squared / calls - (total_time / calls)^2` is at least 0 in exact
/// arithmetic; with a single call the two are equal and the variance is 0.
pub proof fn lemma_spread_nonnegative(log: Seq<Observation>, key: u64)
    ensures
        ({
            let t = log_totals(log, key);
            &&& t.calls * t.squares >= t.total * t.total
            &&& t.calls == 1 ==> t.calls * t.squares == t.total * t.total
        }),
    decreases log.len(),
{
    if log.len() > 0 {
        lemma_spread_nonnegative(log.drop_last(), key);
        if log.last().key == key {
            let t = log_totals(log.drop_last(), key);
            let y = log.last().time as int;
            lemma_deviation_nonnegative(log.drop_last(), key, y);
            assert((t.calls + 1) * (t.squares + y * y) - (t.total + y) * (t.total + y) == (t.calls
                * t.squares - t.total * t.total) + (t.squares - 2 * t.total * y + t.calls * y * y))
                by (nonlinear_arith);
            if t.calls + 1 == 1 {
                lemma_log_totals_empty(log.drop_last(), key);
                assert(1 * (y * y) == y * y) by (nonlinear_arith);
            }
        }
    }
}

/// Folds one log line into the sampler and then into the statistics: a
/// line that is not a query record changes nothing and gives `Ok(false)`; a
/// record is offered to `sampler` and added (with complexity 0) to
/// `aggregator`, giving `Ok(true)`, or `Overflow` where its group's sums would
/// no longer fit.
pub fn process_line<F: ShapeFingerprint>(
    line: &str,
    shapes: &F,
    aggregator: &mut Aggregator,
    sampler: &mut Sampler,
) -> (r: Result<bool, Overflow>)
    requires
        old(aggregator).wf(),
        old(sampler).wf(),
    ensures
        final(aggregator).wf(),
        final(sampler).wf(),
        parse_line(line@, None) is None ==> r == Ok::<bool, Overflow>(false) && *final(aggregator) == *old(
            aggregator,
        ) && *final(sampler) == *old(sampler),
        parse_line(line@, None) matches Some(e) ==> r is Ok ==> r == Ok::<bool, Overflow>(true),
        parse_line(line@, None) matches Some(e) ==> sample_outcome(*old(sampler), *final(sampler), e),
        parse_line(line@, None) matches Some(e) ==> {
            exists|s| #![auto]
                admissible(e.query_id, s) && add_outcome(
                    *old(aggregator),
                    *final(aggregator),
                    unit_result(r),
                    key_of(s, e.query, e.subgraph),
                    e.time,
                    0,
                    e.query_id,
                    e.query,
                    e.variables,
                    e.subgraph,
                )
        },
{
    match Entry::parse(line, None) {
        Some(entry) => {
            sampler.sample(&entry);
            let ghost agg0 = *aggregator;
            let added = aggregator.add_entry(
                shapes,
                entry.time,
                0,
                entry.query_id.as_str(),
                entry.query.as_str(),
                entry.variables.as_str(),
                entry.subgraph.as_str(),
            );
            let ghost s = choose|s: crate::key::KeySource| #![auto]
                admissible(entry.query_id@, s) && add_outcome(
                    agg0,
                    *aggregator,
                    added,
                    key_of(s, entry.query@, entry.subgraph@),
                    entry.time,
                    0,
                    entry.query_id@,
                    entry.query@,
                    entry.variables@,
                    entry.subgraph@,
                );
            let ghost k = key_of(s, entry.query@, entry.subgraph@);
            let r = match added {
                Ok(u) => Ok(true),
                Err(e) => Err(e),
            };
            proof {
                match added {
                    Ok(u) => assert(unit_result(r) == added),
                    Err(e) => assert(unit_result(r) == added),
                }
                let ev = entry@;
                assert(parse_line(line@, None) == Some(ev));
                assert(admissible(ev.query_id, s) && add_outcome(
                    *old(aggregator),
                    *aggregator,
                    unit_result(r),
                    key_of(s, ev.query, ev.subgraph),
                    ev.time,
                    0,
                    ev.query_id,
                    ev.query,
                    ev.variables,
                    ev.subgraph,
                ));
            }
            r
        },
        None => Ok(false),
    }
}

proof fn lemma_list_totals_concat(a: Seq<QueryInfo>, b: Seq<QueryInfo>, key: u64)
    ensures
        list_totals(a + b, key) == merge(list_totals(a, key), list_totals(b, key)),
    decreases b.len(),
{
    if b.len() == 0 {
        assert(a + b =~= a);
        lemma_list_totals_nonneg(a, key);
    } else {
        assert((a + b).drop_last() =~= a + b.drop_last());
        assert((a + b).last() == b.last());
        lemma_list_totals_concat(a, b.drop_last(), key);
    }
}

proof fn lemma_list_totals_single(g: Seq<QueryInfo>, i: int)
    requires
        keys_increasing(g),
        0 <= i < g.len(),
    ensures
        list_totals(g, g[i].hash) == totals(g[i]),
    decreases g.len(),
{
    let key = g[i].hash;
    let init = g.drop_last();
    if i == g.len() - 1 {
        assert(!has_key(init, key)) by {
            if has_key(init, key) {
                let j = choose|j: int| 0 <= j < init.len() && init[j].hash == key;
                assert(g[j].hash < g[i].hash);
            }
        }
        lemma_list_totals_absent(init, key);
    } else {
        assert(g.last().hash != key) by {
            assert(g[i].hash < g[g.len() - 1].hash);
        }
        assert(init[i] == g[i]);
        lemma_list_totals_single(init, i);
    }
}

/// The groups of a well-formed table hold, key by key, the totals of its log.
proof fn lemma_table_list_totals(g: Seq<QueryInfo>, log: Seq<Observation>, key: u64)
    requires
        table_wf(g, log),
    ensures
        list_totals(g, key) == log_totals(log, key),
{
    if has_key(g, key) {
        let i = choose|i: int| 0 <= i < g.len() && g[i].hash == key;
        lemma_list_totals_single(g, i);
    } else {
        lemma_list_totals_absent(g, key);
        lemma_log_totals_empty(log, key);
    }
}

/// The groups that two aggregators made of two shards of a log (contiguous
/// or interleaved), merged key by key as `combine` merges them, hold for
/// every key the calls, total time, sum of squares, slow count and maximum
/// time of aggregating the whole log at once.
pub proof fn lemma_combined_shards(
    groups1: Seq<QueryInfo>,
    log1: Seq<Observation>,
    groups2: Seq<QueryInfo>,
    log2: Seq<Observation>,
    log: Seq<Observation>,
    key: u64,
)
    requires
        table_wf(groups1, log1),
        table_wf(groups2, log2),
        log.to_multiset() == log1.to_multiset().add(log2.to_multiset()),
    ensures
        list_totals(groups1 + groups2, key) == log_totals(log, key),
{
    lemma_list_totals_concat(groups1, groups2, key);
    lemma_table_list_totals(groups1, log1, key);
    lemma_table_list_totals(groups2, log2, key);
    lemma_sharded_aggregation(log, log1, log2, key);
}

/// The groups of several tables, one after another.
pub open spec fn joined_groups(tables: Seq<Seq<QueryInfo>>) -> Seq<QueryInfo>
    decreases tables.len(),
{
    if tables.len() == 0 {
        Seq::empty()
    } else {
        joined_groups(tables.drop_last()) + tables.last()
    }
}

/// Several logs, one after another.
pub open spec fn joined_logs(logs: Seq<Seq<Observation>>) -> Seq<Observation>
    decreases logs.len(),
{
    if logs.len() == 0 {
        Seq::empty()
    } else {
        joined_logs(logs.drop_last()) + logs.last()
    }
}

/// The groups that aggregators made of any number of shards of a log
/// (contiguous or interleaved: together the shards hold each record of the
/// log once), merged key by key as `combine` merges them, hold for every key
/// the calls, total time, sum of squares, slow count and maximum time of
/// aggregating the whole log at once.
pub proof fn lemma_combined_many_shards(
    tables: Seq<Seq<QueryInfo>>,
    logs: Seq<Seq<Observation>>,
    log: Seq<Observation>,
    key: u64,
)
    requires
        tables.len() == logs.len(),
        forall|i: int| 0 <= i < tables.len() ==> table_wf(#[trigger] tables[i], logs[i]),
        log.to_multiset() == joined_logs(logs).to_multiset(),
    ensures
        list_totals(joined_groups(tables), key) == log_totals(log, key),
    decreases tables.len(),
{
    lemma_log_totals_permutation(log, joined_logs(logs), key);
    if tables.len() == 0 {
        assert(joined_groups(tables) =~= Seq::<QueryInfo>::empty());
        assert(joined_logs(logs) =~= Seq::<Observation>::empty());
    } else {
        let n = tables.len() - 1;
        let ti = tables.drop_last();
        let li = logs.drop_last();
        assert forall|i: int| 0 <= i < ti.len() implies table_wf(#[trigger] ti[i], li[i]) by {
            assert(ti[i] == tables[i] && li[i] == logs[i]);
        }
        lemma_combined_many_shards(ti, li, joined_logs(li), key);
        lemma_list_totals_concat(joined_groups(ti), tables[n], key);
        lemma_table_list_totals(tables[n], logs[n], key);
        lemma_log_totals_concat(joined_logs(li), logs[n], key);
    }
}

proof fn lemma_log_totals_empty(log: Seq<Observation>, key: u64)
    requires
        log_totals(log, key).calls <= 0,
    ensures
        log_totals(log, key) == no_totals(),
    decreases log.len(),
{
    if log.len() > 0 {
        lemma_log_totals_nonneg(log.drop_last(), key);
        lemma_log_totals_empty(log.drop_last(), key);
    }
}

proof fn lemma_log_totals_nonneg(log: Seq<Observation>, key: u64)
    ensures
        log_totals(log, key).calls >= 0,
        log_totals(log, key).total >= 0,
        log_totals(log, key).squares >= 0,
        log_totals(log, key).slow >= 0,
        log_totals(log, key).max >= 0,
    decreases log.len(),
{
    if log.len() > 0 {
        lemma_log_totals_nonneg(log.drop_last(), key);
        let t = log.last().time as int;
        assert(t * t >= 0) by (nonlinear_arith);
    }
}

} // verus!
