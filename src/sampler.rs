//! A bounded, uniform sample of the distinct queries of each subgraph.
use vstd::prelude::*;
use rand::rngs::SmallRng;
use rand::Rng;
use crate::common::{INDEX_NODE_SUBGRAPH, SUBGRAPHS_SUBGRAPH};
use crate::entry::{Entry, EntryView, opt_view};
use crate::key::{hash_pair, pair_hash};
use crate::text::{lex_compare, lex_from, lemma_lex_antisymmetric, lemma_lex_equal, lemma_lex_transitive, same_text};

verus! {

#[verifier::external_type_specification]
#[verifier::external_body]
pub struct ExSmallRng(SmallRng);

/// Relies on rand's `Rng::gen_range(low, high)` for `u128`: a value in
/// `[low, high)`. It panics where `low >= high`, which `requires` rules out.
#[verifier::external_body]
fn draw_below(rng: &mut SmallRng, bound: u128) -> (r: u128)
    requires
        bound > 0,
    ensures
        r < bound,
{
    rng.gen_range(0, bound)
}

/// One retained invocation.
#[derive(Debug, Clone, PartialEq, Eq)]
pub struct Sample {
    pub query: String,
    pub variables: String,
    pub query_id: String,
    pub block: u64,
    pub time: u64,
    pub timestamp: Option<String>,
}

pub struct SampleView {
    pub query: Seq<char>,
    pub variables: Seq<char>,
    pub query_id: Seq<char>,
    pub block: u64,
    pub time: u64,
    pub timestamp: Option<Seq<char>>,
}

impl View for Sample {
    type V = SampleView;

    open spec fn view(&self) -> SampleView {
        SampleView {
            query: self.query@,
            variables: self.variables@,
            query_id: self.query_id@,
            block: self.block,
            time: self.time,
            timestamp: opt_view(self.timestamp),
        }
    }
}

/// The sample that keeps `e`.
pub open spec fn sample_of(e: EntryView) -> SampleView {
    SampleView {
        query: e.query,
        variables: e.variables,
        query_id: e.query_id,
        block: e.block,
        time: e.time,
        timestamp: e.timestamp,
    }
}

/// The record that sample `s` of subgraph `subgraph` stands for.
pub open spec fn entry_of(subgraph: Seq<char>, s: SampleView) -> EntryView {
    EntryView {
        subgraph,
        query_id: s.query_id,
        block: s.block,
        time: s.time,
        query: s.query,
        variables: s.variables,
        timestamp: s.timestamp,
    }
}

pub open spec fn sample_views(v: Seq<Sample>) -> Seq<SampleView> {
    v.map_values(|s: Sample| s@)
}

pub open spec fn entry_views(v: Seq<Entry>) -> Seq<EntryView> {
    v.map_values(|e: Entry| e@)
}

fn copy_text(s: &Option<String>) -> (r: Option<String>)
    ensures
        opt_view(r) == opt_view(*s),
{
    match s {
        Some(t) => Some(t.clone()),
        None => None,
    }
}

impl Sample {
    /// The sample that keeps `entry`, all but its subgraph.
    pub fn from_entry(entry: &Entry) -> (r: Sample)
        ensures
            r@ == sample_of(entry@),
    {
        Sample {
            query: entry.query.clone(),
            variables: entry.variables.clone(),
            query_id: entry.query_id.clone(),
            block: entry.block,
            time: entry.time,
            timestamp: copy_text(&entry.timestamp),
        }
    }
}

/// The samples of one subgraph.
pub struct SampleDomain {
    /// How many distinct `(query, variables)` pairs were seen.
    pub seen_count: usize,
    /// The hashes of the distinct pairs seen.
    pub seen: std::collections::HashSet<u64>,
    /// At most `size` of them.
    pub samples: Vec<Sample>,
}

pub struct DomainView {
    pub seen_count: nat,
    pub seen: Set<u64>,
    pub samples: Seq<SampleView>,
}

impl View for SampleDomain {
    type V = DomainView;

    open spec fn view(&self) -> DomainView {
        DomainView {
            seen_count: self.seen_count as nat,
            seen: self.seen@,
            samples: sample_views(self.samples@),
        }
    }
}

pub open spec fn empty_domain() -> DomainView {
    DomainView { seen_count: 0, seen: Set::empty(), samples: Seq::empty() }
}

pub open spec fn min(a: nat, b: nat) -> nat {
    if a < b {
        a
    } else {
        b
    }
}

/// What recording the new pair of `e` does to a reservoir of capacity
/// `size`, where `slot` is the number drawn from `0..=seen_count`: while fewer
/// than `size` pairs were seen the sample is kept; after that it takes slot
/// `slot` where `slot < size`, and is dropped otherwise.
pub open spec fn placed(before: DomainView, after: DomainView, size: nat, e: EntryView, slot: nat) -> bool {
    &&& after.seen == before.seen.insert(pair_hash(e.query, e.variables))
    &&& after.seen_count == before.seen_count + 1
    &&& after.samples == if before.seen_count < size {
        before.samples.push(sample_of(e))
    } else if slot < size {
        before.samples.update(slot as int, sample_of(e))
    } else {
        before.samples
    }
}

/// What one record does to a reservoir of capacity `size`: a pair seen
/// before changes nothing; a new pair is `placed` with some slot drawn from
/// `0..=seen_count`.
pub open spec fn domain_step(before: DomainView, after: DomainView, size: nat, e: EntryView) -> bool {
    if before.seen.contains(pair_hash(e.query, e.variables)) {
        after == before
    } else {
        exists|slot: nat| slot <= before.seen_count && placed(before, after, size, e, slot)
    }
}

impl SampleDomain {
    /// Holds `min(size, seen_count)` samples of pairs seen, no two of the
    /// same `(query, variables)` pair.
    pub open spec fn wf(&self, size: nat) -> bool {
        &&& self.seen@.finite()
        &&& self.seen_count == self.seen@.len()
        &&& self.samples@.len() == min(size, self.seen_count as nat)
        &&& forall|i: int|
            0 <= i < self.samples@.len() ==> self.seen@.contains(
                pair_hash((#[trigger] self.samples@[i]).query@, self.samples@[i].variables@),
            )
        &&& forall|i: int, j: int|
            0 <= i < self.samples@.len() && 0 <= j < self.samples@.len() && i != j ==> pair_hash(
                self.samples@[i].query@,
                self.samples@[i].variables@,
            ) != pair_hash(self.samples@[j].query@, self.samples@[j].variables@)
        &&& forall|i: int, j: int|
            0 <= i < self.samples@.len() && 0 <= j < self.samples@.len() && i != j ==> (
            self.samples@[i].query@,
            self.samples@[i].variables@,
        ) != (self.samples@[j].query@, self.samples@[j].variables@)
    }

    pub fn new() -> (r: SampleDomain)
        ensures
            r@ == empty_domain(),
            forall|size: nat| r.wf(size),
    {
        let r = SampleDomain { seen_count: 0, seen: std::collections::HashSet::new(), samples: Vec::new() };
        assert(sample_views(r.samples@) =~= Seq::<SampleView>::empty());
        r
    }

    /// Records the new pair of `entry`, with `slot` the number drawn from
    /// `0..=seen_count` (unused while the reservoir is not full).
    pub fn place(&mut self, size: usize, entry: &Entry, slot: usize)
        requires
            old(self).wf(size as nat),
            !old(self).seen@.contains(pair_hash(entry.query@, entry.variables@)),
            slot <= old(self).seen_count,
        ensures
            final(self).wf(size as nat),
            placed(old(self)@, final(self)@, size as nat, entry@, slot as nat),
    {
        let hash = hash_pair(entry.query.as_str(), entry.variables.as_str());
        let ghost before = self@;
        self.seen.insert(hash);
        let n = self.seen.len();
        let s = Sample::from_entry(entry);
        let ghost old_samples = self.samples@;
        if self.seen_count < size {
            self.samples.push(s);
            assert(sample_views(self.samples@) =~= before.samples.push(sample_of(entry@)));
            proof {
                let ns = self.samples@;
                assert forall|i: int| 0 <= i < ns.len() && i != old_samples.len() implies ns[i] == old_samples[i] by {}
            }
        } else if slot < size {
            self.samples.set(slot, s);
            assert(sample_views(self.samples@) =~= before.samples.update(slot as int, sample_of(entry@)));
            proof {
                let ns = self.samples@;
                assert forall|i: int| 0 <= i < ns.len() && i != slot implies ns[i] == old_samples[i] by {}
            }
        }
        self.seen_count = n;
    }

    /// Offers `entry` to the reservoir; where the pair is new and the
    /// reservoir full, `rng` draws the slot from `0..=seen_count` and `place`
    /// does the rest.
    pub fn sample(&mut self, size: usize, rng: &mut SmallRng, entry: &Entry)
        requires
            old(self).wf(size as nat),
        ensures
            final(self).wf(size as nat),
            domain_step(old(self)@, final(self)@, size as nat, entry@),
            old(self).seen@.contains(pair_hash(entry.query@, entry.variables@)) || old(self).seen_count
                < size ==> *final(rng) == *old(rng),
    {
        let hash = hash_pair(entry.query.as_str(), entry.variables.as_str());
        if self.seen.contains(&hash) {
            return;
        }
        if self.seen_count < size {
            self.place(size, entry, 0);
        } else {
            let k = draw_below(rng, (self.seen_count as u128) + 1);
            self.place(size, entry, k as usize);
        }
    }
}

/// The samples of one subgraph, under its name.
pub struct SubgraphSamples {
    pub subgraph: String,
    pub domain: SampleDomain,
}

/// A record of this subgraph is not sampled: the sample size is 0, the
/// subgraph is reserved, or an allow-list is given that does not name it.
pub open spec fn excluded(size: usize, allow: Seq<String>, subgraph: Seq<char>) -> bool {
    ||| size == 0
    ||| subgraph == INDEX_NODE_SUBGRAPH@
    ||| subgraph == SUBGRAPHS_SUBGRAPH@
    ||| (allow.len() > 0 && !exists|i: int| 0 <= i < allow.len() && allow[i]@ == subgraph)
}

/// The records that the samples of `ds` stand for, subgraph by subgraph.
pub open spec fn entries_of(ds: Seq<SubgraphSamples>) -> Seq<EntryView>
    decreases ds.len(),
{
    if ds.len() == 0 {
        Seq::empty()
    } else {
        entries_of(ds.drop_last()) + ds.last().domain@.samples.map_values(
            |s: SampleView| entry_of(ds.last().subgraph@, s),
        )
    }
}

/// The reservoirs `after` that one record of subgraph `e.subgraph` makes of
/// `before`: the subgraph's reservoir takes one `domain_step`; where the
/// subgraph has none yet, a new one, stepped from empty, goes in at the place
/// that keeps the names in increasing order. Nothing else changes.
pub open spec fn reservoirs_step(
    before: Seq<SubgraphSamples>,
    after: Seq<SubgraphSamples>,
    size: nat,
    e: EntryView,
) -> bool {
    if exists|i: int| 0 <= i < before.len() && (#[trigger] before[i]).subgraph@ == e.subgraph {
        &&& after.len() == before.len()
        &&& forall|i: int|
            0 <= i < before.len() && (#[trigger] before[i]).subgraph@ == e.subgraph ==> {
                &&& after[i].subgraph == before[i].subgraph
                &&& domain_step(before[i].domain@, after[i].domain@, size, e)
                &&& forall|j: int| 0 <= j < after.len() && j != i ==> after[j] == before[j]
            }
    } else {
        exists|p: int|
            {
                &&& 0 <= p <= before.len()
                &&& after.len() == before.len() + 1
                &&& forall|j: int| 0 <= j < p ==> lex_from(#[trigger] before[j].subgraph@, e.subgraph, 0) < 0
                &&& forall|j: int| p <= j < before.len() ==> lex_from(e.subgraph, #[trigger] before[j].subgraph@, 0) < 0
                &&& after[p].subgraph@ == e.subgraph
                &&& domain_step(empty_domain(), after[p].domain@, size, e)
                &&& forall|j: int| 0 <= j < p ==> after[j] == before[j]
                &&& forall|j: int| p < j < after.len() ==> after[j] == before[j - 1]
            }
    }
}

/// What offering record `e` does to sampler `before`: an excluded record
/// changes nothing, the random source included; any other takes a
/// `reservoirs_step`, with capacity and allow-list kept.
pub open spec fn sample_outcome(before: Sampler, after: Sampler, e: EntryView) -> bool {
    &&& after.size == before.size
    &&& after.subgraphs == before.subgraphs
    &&& excluded(before.size, before.subgraphs@, e.subgraph) ==> after == before
    &&& !excluded(before.size, before.subgraphs@, e.subgraph) ==> reservoirs_step(
        before.domains@,
        after.domains@,
        before.size as nat,
        e,
    )
}

/// Per-subgraph reservoirs of distinct queries.
pub struct Sampler {
    /// The capacity of each reservoir; 0 turns sampling off.
    pub size: usize,
    /// The source of the random slots.
    pub rng: SmallRng,
    /// The reservoirs, in increasing order of subgraph name.
    pub domains: Vec<SubgraphSamples>,
    /// The subgraphs to sample; empty for all.
    pub subgraphs: Vec<String>,
}

impl Sampler {
    pub open spec fn wf(&self) -> bool {
        &&& forall|i: int| 0 <= i < self.domains@.len() ==> (#[trigger] self.domains@[i]).domain.wf(self.size as nat)
        &&& forall|i: int, j: int|
            0 <= i < j < self.domains@.len() ==> lex_from(self.domains@[i].subgraph@, self.domains@[j].subgraph@, 0)
                < 0
        &&& forall|i: int, j: int|
            0 <= i < j < self.domains@.len() ==> self.domains@[i].subgraph@ != self.domains@[j].subgraph@
        &&& forall|i: int|
            0 <= i < self.domains@.len() ==> !excluded(self.size, self.subgraphs@, (#[trigger] self.domains@[i]).subgraph@)
    }

    /// A sampler keeping `size` distinct queries per subgraph, for the
    /// subgraphs in `subgraphs` (all, where it is empty), drawing its random
    /// slots from `rng`.
    pub fn new(size: usize, subgraphs: Vec<String>, rng: SmallRng) -> (r: Sampler)
        ensures
            r.wf(),
            r.size == size,
            r.subgraphs == subgraphs,
            r.rng == rng,
            r.domains@.len() == 0,
    {
        Sampler { size, rng, domains: Vec::new(), subgraphs }
    }

    /// Whether records of `subgraph` are left out.
    pub fn is_excluded(&self, subgraph: &str) -> (r: bool)
        ensures
            r == excluded(self.size, self.subgraphs@, subgraph@),
    {
        if self.size == 0 || same_text(subgraph, INDEX_NODE_SUBGRAPH) || same_text(subgraph, SUBGRAPHS_SUBGRAPH) {
            return true;
        }
        if self.subgraphs.len() == 0 {
            return false;
        }
        let mut i: usize = 0;
        while i < self.subgraphs.len()
            invariant
                i <= self.subgraphs@.len(),
                self.subgraphs@.len() > 0,
                !(self.size == 0 || subgraph@ == INDEX_NODE_SUBGRAPH@ || subgraph@ == SUBGRAPHS_SUBGRAPH@),
                forall|j: int| 0 <= j < i ==> self.subgraphs@[j]@ != subgraph@,
            decreases self.subgraphs@.len() - i,
        {
            if same_text(self.subgraphs[i].as_str(), subgraph) {
                assert(self.subgraphs@[i as int]@ == subgraph@);
                return false;
            }
            i = i + 1;
        }
        true
    }

    /// Where the reservoir of `subgraph` stands (`true`), or where it would
    /// go in the order of names (`false`).
    fn find_domain(&self, subgraph: &String) -> (r: (bool, usize))
        requires
            self.wf(),
        ensures
            r.1 <= self.domains@.len(),
            r.0 ==> r.1 < self.domains@.len() && self.domains@[r.1 as int].subgraph@ == subgraph@,
            !r.0 ==> forall|j: int| 0 <= j < r.1 ==> lex_from(#[trigger] self.domains@[j].subgraph@, subgraph@, 0) < 0,
            !r.0 ==> forall|j: int|
                r.1 <= j < self.domains@.len() ==> lex_from(subgraph@, #[trigger] self.domains@[j].subgraph@, 0) < 0,
    {
        let mut i: usize = 0;
        while i < self.domains.len()
            invariant
                self.wf(),
                i <= self.domains@.len(),
                forall|j: int| 0 <= j < i ==> lex_from(#[trigger] self.domains@[j].subgraph@, subgraph@, 0) < 0,
            decreases self.domains@.len() - i,
        {
            let c = lex_compare(self.domains[i].subgraph.as_str(), subgraph.as_str());
            if c == 0 {
                proof {
                    lemma_lex_equal(self.domains@[i as int].subgraph@, subgraph@, 0);
                    assert(self.domains@[i as int].subgraph@ =~= subgraph@);
                }
                return (true, i);
            }
            if c > 0 {
                proof {
                    let here = self.domains@[i as int].subgraph@;
                    lemma_lex_antisymmetric(here, subgraph@, 0);
                    assert forall|j: int| i <= j < self.domains@.len() implies lex_from(
                        subgraph@,
                        #[trigger] self.domains@[j].subgraph@,
                        0,
                    ) < 0 by {
                        if j > i {
                            lemma_lex_transitive(subgraph@, here, self.domains@[j].subgraph@, 0);
                        }
                    }
                }
                return (false, i);
            }
            i = i + 1;
        }
        (false, i)
    }

    /// Offers `entry` to the reservoir of its subgraph, which is made on the
    /// subgraph's first record; excluded records change nothing, the random
    /// source included.
    pub fn sample(&mut self, entry: &Entry)
        requires
            old(self).wf(),
        ensures
            final(self).wf(),
            sample_outcome(*old(self), *final(self), entry@),
    {
        if self.is_excluded(entry.subgraph.as_str()) {
            return;
        }
        let ghost old_domains = self.domains@;
        let (found, i) = self.find_domain(&entry.subgraph);
        if !found {
            proof {
                assert forall|j: int| 0 <= j < old_domains.len() implies old_domains[j].subgraph@ != entry.subgraph@ by {
                    if j < i {
                        assert(lex_from(old_domains[j].subgraph@, entry.subgraph@, 0) < 0);
                    } else {
                        assert(lex_from(entry.subgraph@, old_domains[j].subgraph@, 0) < 0);
                    }
                    if old_domains[j].subgraph@ == entry.subgraph@ {
                        lemma_lex_antisymmetric(entry.subgraph@, old_domains[j].subgraph@, 0);
                    }
                }
            }
            self.domains.insert(i, SubgraphSamples { subgraph: entry.subgraph.clone(), domain: SampleDomain::new() });
        }
        let ghost mid = self.domains@;
        let size = self.size;
        self.domains[i].domain.sample(size, &mut self.rng, entry);
        proof {
            let ds = self.domains@;
            assert forall|j: int| 0 <= j < ds.len() && j != i implies ds[j] == mid[j] by {}
            if found {
                assert forall|k: int| 0 <= k < old_domains.len() && (#[trigger] old_domains[k]).subgraph@ == entry.subgraph@ implies k == i by {
                    if k != i {
                        let lo = if k < i { k } else { i as int };
                        let hi = if k < i { i as int } else { k };
                        assert(old_domains[lo].subgraph@ != old_domains[hi].subgraph@);
                    }
                }
                assert(reservoirs_step(old_domains, ds, size as nat, entry@));
            } else {
                assert(!(exists|k: int| 0 <= k < old_domains.len() && (#[trigger] old_domains[k]).subgraph@ == entry.subgraph@));
                assert(forall|j: int| 0 <= j < i ==> ds[j] == old_domains[j]);
                assert(forall|j: int| i < j < ds.len() ==> ds[j] == old_domains[j - 1]);
                assert(reservoirs_step(old_domains, ds, size as nat, entry@));
            }
            assert forall|a: int, b: int| 0 <= a < b < ds.len() implies lex_from(ds[a].subgraph@, ds[b].subgraph@, 0) < 0 by {
                if !found {
                    if a < i && b > i {
                        lemma_lex_transitive(ds[a].subgraph@, entry.subgraph@, ds[b].subgraph@, 0);
                    } else if a < i && b == i {
                    } else if a == i {
                    } else if a < i {
                        assert(ds[a] == old_domains[a] && ds[b] == old_domains[b]);
                    } else {
                        assert(ds[a] == old_domains[a - 1] && ds[b] == old_domains[b - 1]);
                    }
                } else {
                    assert(ds[a].subgraph == old_domains[a].subgraph && ds[b].subgraph == old_domains[b].subgraph);
                }
            }
            assert forall|a: int, b: int| 0 <= a < b < ds.len() implies ds[a].subgraph@ != ds[b].subgraph@ by {
                if ds[a].subgraph@ == ds[b].subgraph@ {
                    lemma_lex_antisymmetric(ds[a].subgraph@, ds[b].subgraph@, 0);
                }
            }
        }
    }

    /// The retained samples as records, subgraph by subgraph in increasing
    /// order of subgraph name.
    pub fn entries(&self) -> (r: Vec<Entry>)
        ensures
            entry_views(r@) == entries_of(self.domains@),
    {
        let mut r: Vec<Entry> = Vec::new();
        let mut i: usize = 0;
        while i < self.domains.len()
            invariant
                i <= self.domains@.len(),
                entry_views(r@) == entries_of(self.domains@.take(i as int)),
            decreases self.domains@.len() - i,
        {
            let ghost start = entry_views(r@);
            let d = &self.domains[i];
            let ghost mapped = d.domain@.samples.map_values(|s: SampleView| entry_of(d.subgraph@, s));
            let mut j: usize = 0;
            while j < d.domain.samples.len()
                invariant
                    j <= d.domain.samples@.len(),
                    d == &self.domains@[i as int],
                    mapped == d.domain@.samples.map_values(|s: SampleView| entry_of(d.subgraph@, s)),
                    entry_views(r@) == start + mapped.take(j as int),
                decreases d.domain.samples@.len() - j,
            {
                let s = &d.domain.samples[j];
                let e = Entry {
                    subgraph: d.subgraph.clone(),
                    query_id: s.query_id.clone(),
                    block: s.block,
                    time: s.time,
                    query: s.query.clone(),
                    variables: s.variables.clone(),
                    timestamp: copy_text(&s.timestamp),
                };
                let ghost before = r@;
                r.push(e);
                assert(e@ == mapped[j as int]);
                assert(r@ == before.push(e));
                assert(entry_views(r@) =~= entry_views(before).push(e@));
                assert(mapped.take(j + 1) =~= mapped.take(j as int).push(mapped[j as int]));
                assert(entry_views(r@) =~= start + mapped.take(j + 1));
                j = j + 1;
            }
            assert(mapped.take(j as int) =~= mapped);
            assert(self.domains@.take(i + 1).drop_last() =~= self.domains@.take(i as int));
            i = i + 1;
        }
        assert(self.domains@.take(i as int) =~= self.domains@);
        r
    }
}

proof fn lemma_entries_from_domains(ds: Seq<SubgraphSamples>, n: int)
    requires
        0 <= n < entries_of(ds).len(),
    ensures
        exists|j: int| 0 <= j < ds.len() && entries_of(ds)[n].subgraph == (#[trigger] ds[j]).subgraph@,
    decreases ds.len(),
{
    let init = ds.drop_last();
    let head = entries_of(init);
    if n < head.len() {
        lemma_entries_from_domains(init, n);
        let j = choose|j: int| 0 <= j < init.len() && head[n].subgraph == (#[trigger] init[j]).subgraph@;
        assert(ds[j] == init[j]);
    } else {
        assert(entries_of(ds)[n].subgraph == ds[ds.len() - 1].subgraph@);
    }
}

/// No record of a reserved subgraph, and none of a subgraph outside a
/// non-empty allow-list, is ever in a sampler's output, whatever its size.
pub proof fn lemma_reserved_never_sampled(s: Sampler)
    requires
        s.wf(),
    ensures
        forall|n: int| 0 <= n < entries_of(s.domains@).len() ==> {
            let e = #[trigger] entries_of(s.domains@)[n];
            &&& e.subgraph != INDEX_NODE_SUBGRAPH@
            &&& e.subgraph != SUBGRAPHS_SUBGRAPH@
            &&& s.subgraphs@.len() > 0 ==> exists|i: int| 0 <= i < s.subgraphs@.len() && s.subgraphs@[i]@ == e.subgraph
        },
{
    assert forall|n: int| 0 <= n < entries_of(s.domains@).len() implies {
        let e = #[trigger] entries_of(s.domains@)[n];
        &&& e.subgraph != INDEX_NODE_SUBGRAPH@
        &&& e.subgraph != SUBGRAPHS_SUBGRAPH@
        &&& s.subgraphs@.len() > 0 ==> exists|i: int| 0 <= i < s.subgraphs@.len() && s.subgraphs@[i]@ == e.subgraph
    } by {
        lemma_entries_from_domains(s.domains@, n);
        let j = choose|j: int| 0 <= j < s.domains@.len() && entries_of(s.domains@)[n].subgraph == (#[trigger] s.domains@[j]).subgraph@;
        assert(!excluded(s.size, s.subgraphs@, s.domains@[j].subgraph@));
    }
}

/// The hashes of the `(query, variables)` pairs of `es`.
pub open spec fn pair_hashes(es: Seq<EntryView>) -> Set<u64>
    decreases es.len(),
{
    if es.len() == 0 {
        Set::empty()
    } else {
        pair_hashes(es.drop_last()).insert(pair_hash(es.last().query, es.last().variables))
    }
}

proof fn lemma_stream_prefix(es: Seq<EntryView>, ds: Seq<DomainView>, size: nat, m: int)
    requires
        ds.len() == es.len() + 1,
        ds[0] == empty_domain(),
        forall|i: int| 0 <= i < es.len() ==> domain_step(#[trigger] ds[i], ds[i + 1], size, es[i]),
        0 <= m <= es.len(),
    ensures
        ds[m].seen == pair_hashes(es.take(m)),
        ds[m].seen.finite(),
        ds[m].seen_count == ds[m].seen.len(),
        ds[m].samples.len() == min(size, ds[m].seen_count),
    decreases m,
{
    if m == 0 {
        assert(es.take(0) =~= Seq::<EntryView>::empty());
    } else {
        lemma_stream_prefix(es, ds, size, m - 1);
        assert(es.take(m).drop_last() =~= es.take(m - 1));
        assert(es.take(m).last() == es[m - 1]);
        assert(domain_step(ds[m - 1], ds[m], size, es[m - 1]));
    }
}

/// Sampling a stream of records into an empty reservoir of capacity `size`
/// leaves, whatever the draws, the hashes of the stream's distinct pairs as
/// the pairs seen, and exactly `min(size, N)` samples for those `N` hashes.
pub proof fn lemma_stream_reservoir_size(es: Seq<EntryView>, ds: Seq<DomainView>, size: nat)
    requires
        ds.len() == es.len() + 1,
        ds[0] == empty_domain(),
        forall|i: int| 0 <= i < es.len() ==> domain_step(#[trigger] ds[i], ds[i + 1], size, es[i]),
    ensures
        ds.last().seen == pair_hashes(es),
        ds.last().samples.len() == min(size, pair_hashes(es).len()),
{
    lemma_stream_prefix(es, ds, size, es.len() as int);
    assert(es.take(es.len() as int) =~= es);
}

/// A reservoir of capacity `size` that has seen `N` distinct pairs (by
/// hash) holds exactly `min(size, N)` samples.
pub proof fn lemma_reservoir_size(d: SampleDomain, size: nat)
    requires
        d.wf(size),
    ensures
        d@.samples.len() == min(size, d@.seen.len()),
{
}

} // verus!
