//! The maintenance tick: which prefixes this process claims, and in which order it
//! works on them.

use crate::error::{Error, ErrorCode};
use crate::ordmap::{Key, OrdMap};
use crate::select::selected;
use crate::store::DynoStore;
use rand::rngs::SmallRng;
use rand::seq::SliceRandom;
use rand::SeedableRng;
use vstd::prelude::*;
use vstd::string::*;

verus! {

/// Prefixes that are maintained at once.
pub const PREFIX_MAINTENANCE_CONCURRENCY: usize = 4;

/// Sweeps over the backlog that one tick makes at most.
pub const MAX_SWEEPS: usize = 64;

/// Shuffle prefixes: `rand`'s `SliceRandom::shuffle` by a `SmallRng` made of
/// `seed`. Nothing is lost and nothing added; in which order they come out is not
/// stated, as the generator is not the same on every machine.
#[verifier::external_body]
fn shuffle(prefixes: &mut Vec<String>, seed: u64)
    ensures
        final(prefixes)@.to_multiset() == old(prefixes)@.to_multiset(),
{
    prefixes.shuffle(&mut SmallRng::seed_from_u64(seed))
}

/// Whether a config of a topic asks for compaction.
pub open spec fn asks_for_compaction(name: Seq<char>, value: Option<Seq<char>>) -> bool {
    name == "cleanup.policy"@ && (value matches Some(value) && crate::text::contains_text(
        value,
        "compact"@,
    ))
}

/// Whether a topic is compacted, by its configs.
pub open spec fn compacts(configs: Seq<(String, Option<String>)>) -> bool {
    exists|i: int|
        0 <= i < configs.len() && asks_for_compaction(
            (#[trigger] configs[i]).0@,
            crate::opticon::text_view(configs[i].1),
        )
}

/// Whether a topic is compacted, by its configs.
pub fn is_compacted(configs: &Vec<(String, Option<String>)>) -> (compacted: bool)
    ensures
        compacted == compacts(configs@),
{
    let policy = String::from_str("cleanup.policy");
    let mut at: usize = 0;
    while at < configs.len()
        invariant
            at <= configs@.len(),
            policy@ == "cleanup.policy"@,
            forall|i: int|
                0 <= i < at ==> !asks_for_compaction(
                    (#[trigger] configs@[i]).0@,
                    crate::opticon::text_view(configs@[i].1),
                ),
        decreases configs@.len() - at,
    {
        if configs[at].0.same(&policy) {
            if let Some(value) = &configs[at].1 {
                if crate::text::contains_str(value.as_str(), "compact") {
                    assert(asks_for_compaction(
                        configs@[at as int].0@,
                        crate::opticon::text_view(configs@[at as int].1),
                    ));
                    return true;
                }
            }
        }
        at = at + 1;
    }
    false
}

/// The texts of a list.
pub open spec fn texts(list: Seq<String>) -> Set<Seq<char>> {
    Set::new(|text: Seq<char>| exists|i: int| 0 <= i < list.len() && (#[trigger] list[i])@ == text)
}

/// Add the texts of a list to a set.
fn add_all(set: &mut OrdMap<String, ()>, list: &Vec<String>)
    requires
        old(set).wf(),
    ensures
        final(set).wf(),
        final(set)@.dom() == old(set)@.dom().union(texts(list@)),
{
    let ghost before = set@.dom();
    let mut at: usize = 0;
    assert(texts(list@.take(0)) =~= Set::empty());
    assert(before.union(texts(list@.take(0))) =~= before);
    while at < list.len()
        invariant
            at <= list@.len(),
            set.wf(),
            set@.dom() == before.union(texts(list@.take(at as int))),
        decreases list@.len() - at,
    {
        let ghost done = list@.take(at as int);
        let ghost more = list@.take(at + 1);
        let _ = set.insert(list[at].clone(), ());
        proof {
            assert forall|t: Seq<char>| #[trigger] texts(more).contains(t) <==> (texts(
                done,
            ).contains(t) || t == list@[at as int]@) by {
                if texts(more).contains(t) {
                    let i = choose|i: int| 0 <= i < more.len() && (#[trigger] more[i])@ == t;
                    if i < at {
                        assert(done[i]@ == t);
                    }
                }
                if texts(done).contains(t) {
                    let i = choose|i: int| 0 <= i < done.len() && (#[trigger] done[i])@ == t;
                    assert(more[i]@ == t);
                }
                assert(more[at as int]@ == list@[at as int]@);
            }
            assert(set@.dom() =~= before.union(texts(more)));
        }
        at = at + 1;
    }
    assert(list@.take(at as int) =~= list@);
}

/// Add the keys of a map to a set.
fn add_keys<V>(set: &mut OrdMap<String, ()>, map: &OrdMap<String, V>)
    requires
        old(set).wf(),
        map.wf(),
    ensures
        final(set).wf(),
        final(set)@.dom() == old(set)@.dom().union(map@.dom()),
{
    let ghost before = set@.dom();
    let ghost entries = map.entries@;
    let mut at: usize = 0;
    while at < map.entries.len()
        invariant
            entries == map.entries@,
            at <= entries.len(),
            set.wf(),
            forall|t: Seq<char>| #[trigger]
                set@.dom().contains(t) <==> (before.contains(t) || exists|i: int|
                    0 <= i < at && (#[trigger] entries[i]).0@ == t),
        decreases entries.len() - at,
    {
        let ghost known = set@.dom();
        let _ = set.insert(map.entries[at].0.clone(), ());
        proof {
            assert forall|t: Seq<char>| #[trigger] set@.dom().contains(t) <==> (before.contains(t)
                || exists|i: int| 0 <= i < at + 1 && (#[trigger] entries[i]).0@ == t) by {
                assert(known.contains(t) <==> (before.contains(t) || exists|i: int|
                    0 <= i < at && (#[trigger] entries[i]).0@ == t));
                assert(entries[at as int].0@ == map.entries@[at as int].0@);
            }
        }
        at = at + 1;
    }
    assert(set@.dom() =~= before.union(map@.dom()));
}

/// The prefixes of a set that are owned, in order.
fn owned_of(set: &OrdMap<String, ()>, owned: Option<&OrdMap<String, ()>>) -> (prefixes: Vec<String>)
    requires
        set.wf(),
        owned matches Some(owned) ==> owned.wf(),
    ensures
        texts(prefixes@) == match owned {
            Some(owned) => set@.dom().intersect(owned@.dom()),
            None => set@.dom(),
        },
        in_order(prefixes@),
        owned is None ==> prefixes@.len() == set.entries@.len(),
{
    let ghost entries = set.entries@;
    let ghost allowed = match owned {
        Some(owned) => owned@.dom(),
        None => Set::new(|text: Seq<char>| true),
    };
    let mut prefixes: Vec<String> = Vec::new();
    let ghost mut from: Seq<int> = Seq::empty();
    let mut at: usize = 0;
    while at < set.entries.len()
        invariant
            entries == set.entries@,
            set.wf(),
            owned matches Some(owned) ==> owned.wf(),
            allowed == match owned {
                Some(owned) => owned@.dom(),
                None => Set::new(|text: Seq<char>| true),
            },
            at <= entries.len(),
            from.len() == prefixes@.len(),
            owned is None ==> prefixes@.len() == at,
            forall|a: int|
                #![trigger from[a]]
                0 <= a < from.len() ==> 0 <= from[a] < at && prefixes@[a]@ == entries[from[a]].0@
                    && allowed.contains(prefixes@[a]@),
            forall|a: int, b: int|
                #![trigger from[a], from[b]]
                0 <= a < b < from.len() ==> from[a] < from[b],
            forall|i: int|
                #![trigger entries[i]]
                0 <= i < at && allowed.contains(entries[i].0@) ==> from.contains(i),
        decreases entries.len() - at,
    {
        let ghost before = from;
        let prefix = &set.entries[at].0;
        let keeps = match owned {
            Some(owned) => owned.contains(prefix),
            None => true,
        };
        if keeps {
            prefixes.push(prefix.clone());
            proof {
                from = from.push(at as int);
                assert(from[from.len() - 1] == at);
            }
        }
        proof {
            assert forall|i: int|
                #![trigger entries[i]]
                0 <= i < at + 1 && allowed.contains(entries[i].0@) implies from.contains(i) by {
                if i < at {
                    assert(before.contains(i));
                    let a = choose|a: int| 0 <= a < before.len() && before[a] == i;
                    assert(from[a] == i);
                }
            }
        }
        at = at + 1;
    }
    proof {
        assert forall|t: Seq<char>| #[trigger] texts(prefixes@).contains(t) <==> (
        set@.dom().contains(t) && allowed.contains(t)) by {
            if texts(prefixes@).contains(t) {
                let a = choose|a: int| 0 <= a < prefixes@.len() && (#[trigger] prefixes@[a])@ == t;
                assert(entries[from[a]].0@ == t);
            }
            if set@.dom().contains(t) && allowed.contains(t) {
                let i = choose|i: int| 0 <= i < entries.len() && (#[trigger] entries[i]).0@ == t;
                assert(from.contains(i));
                let a = choose|a: int| 0 <= a < from.len() && from[a] == i;
                assert(prefixes@[a]@ == t);
            }
        }
        assert(texts(prefixes@) =~= match owned {
            Some(owned) => set@.dom().intersect(owned@.dom()),
            None => set@.dom(),
        });
        assert forall|a: int, b: int|
            #![trigger prefixes@[a], prefixes@[b]]
            0 <= a < b < prefixes@.len() implies String::before(prefixes@[a]@, prefixes@[b]@) by {
            assert(from[a] < from[b]);
            assert(String::before(entries[from[a]].0@, entries[from[b]].0@));
        }
    }
    prefixes
}

/// Whether texts are in ascending order.
pub open spec fn in_order(list: Seq<String>) -> bool {
    forall|a: int, b: int|
        #![trigger list[a], list[b]]
        0 <= a < b < list.len() ==> String::before(list[a]@, list[b]@)
}

/// A prefix with how many segments it is known to have.
pub open spec fn counted(list: Seq<(usize, String)>) -> Seq<(usize, Seq<char>)> {
    list.map_values(|item: (usize, String)| (item.0, item.1@))
}

/// `list` with `item` behind all that have no fewer segments.
pub open spec fn ranked_in(list: Seq<(usize, Seq<char>)>, item: (usize, Seq<char>)) -> Seq<
    (usize, Seq<char>),
>
    decreases list.len(),
{
    if list.len() > 0 && list.last().0 < item.0 {
        ranked_in(list.drop_last(), item).push(list.last())
    } else {
        list.push(item)
    }
}

/// Prefixes by how many segments they have, most first, and those with as many in
/// the order they came in.
pub open spec fn ranked(list: Seq<(usize, Seq<char>)>) -> Seq<(usize, Seq<char>)>
    decreases list.len(),
{
    if list.len() == 0 {
        Seq::empty()
    } else {
        ranked_in(ranked(list.drop_last()), list.last())
    }
}

proof fn lemma_ranked_in(list: Seq<(usize, Seq<char>)>, item: (usize, Seq<char>), at: int)
    requires
        0 <= at <= list.len(),
        at > 0 ==> list[at - 1].0 >= item.0,
        forall|j: int| at <= j < list.len() ==> (#[trigger] list[j]).0 < item.0,
    ensures
        ranked_in(list, item) == list.insert(at, item),
    decreases list.len(),
{
    if at < list.len() {
        let init = list.drop_last();
        assert forall|j: int| at <= j < init.len() implies (#[trigger] init[j]).0 < item.0 by {
            assert(init[j] == list[j]);
        }
        assert(list.last() == list[list.len() - 1]);
        lemma_ranked_in(init, item, at);
        assert(list.insert(at, item) =~= init.insert(at, item).push(list.last()));
    } else {
        assert(list.insert(at, item) =~= list.push(item));
    }
}

/// Rank prefixes by how many segments they have.
fn rank(list: Vec<(usize, String)>) -> (prefixes: Vec<String>)
    ensures
        prefixes@.map_values(|prefix: String| prefix@) == ranked(counted(list@)).map_values(
            |item: (usize, Seq<char>)| item.1,
        ),
{
    let ghost given = counted(list@);
    let mut sorted: Vec<(usize, String)> = Vec::new();
    let ghost mut done: int = 0;
    assert(given.take(0) =~= Seq::empty());
    assert(counted(sorted@) =~= Seq::empty());
    for item in it: list.into_iter()
        invariant
            it.seq() == list@,
            given == counted(list@),
            done == it.index(),
            counted(sorted@) == ranked(given.take(done)),
    {
        let ghost own = (item.0, item.1@);
        let ghost before = counted(sorted@);
        proof {
            assert(given.take(done + 1).drop_last() =~= given.take(done));
            assert(given.take(done + 1).last() == own);
            done = done + 1;
        }
        let count: usize = item.0;
        let mut slot: usize = sorted.len();
        while slot > 0 && sorted[slot - 1].0 < count
            invariant
                slot <= sorted@.len(),
                before == counted(sorted@),
                forall|j: int| slot <= j < sorted@.len() ==> (#[trigger] before[j]).0 < count,
            decreases slot,
        {
            slot = slot - 1;
        }
        sorted.insert(slot, item);
        proof {
            if slot > 0 {
                assert(before[slot - 1].0 >= count);
            }
            lemma_ranked_in(before, own, slot as int);
            assert(counted(sorted@) =~= before.insert(slot as int, own));
        }
    }
    assert(given.take(done) =~= given);
    let ghost order = sorted@;
    let mut prefixes: Vec<String> = Vec::new();
    for item in it: sorted.into_iter()
        invariant
            it.seq() == order,
            prefixes@.len() == it.index(),
            forall|i: int|
                #![trigger prefixes@[i]]
                0 <= i < prefixes@.len() ==> prefixes@[i] == order[i].1,
    {
        prefixes.push(item.1);
    }
    assert(prefixes@.map_values(|prefix: String| prefix@) =~= counted(order).map_values(
        |item: (usize, Seq<char>)| item.1,
    ));
    prefixes
}

/// What became of a claim on a prefix.
#[derive(Clone, Copy, Debug, PartialEq, Eq, Structural)]
pub enum ClaimOutcome {
    /// It was maintained recently, and is left alone.
    Recent,
    Claimed,
    /// Another process works on it.
    Lost,
    Failed,
}

/// A step of what is done for a prefix in one tick.
#[derive(Clone, Copy, Debug, PartialEq, Eq, Structural)]
pub enum PrefixStep {
    /// Expire the segments that are older than this.
    Expire(i64),
    /// Keep the last record of each key.
    PerKey,
    /// Merge its segments.
    Compact,
    /// Drop its marker, if it has no segments.
    DropMarker,
    /// Certify the ends that were served of it.
    Certify,
}

/// Whether a prefix was maintained so recently that it is left alone.
pub open spec fn is_recent(recency: int, now_ms: i64, maintained_at: Option<i64>) -> bool {
    recency > 0 && (maintained_at matches Some(at) && now_ms - at < recency)
}

/// Whether what is behind is swept once more.
pub open spec fn sweeps_again(sweeps: usize, merged: Option<u64>, backlogged: usize) -> bool {
    sweeps < MAX_SWEEPS && backlogged > 0 && merged != Some(0u64)
}

/// A step, if it is due.
pub open spec fn if_due(due: bool, step: PrefixStep) -> Seq<PrefixStep> {
    if due {
        seq![step]
    } else {
        Seq::empty()
    }
}

/// What is done for a prefix in one tick, in this order. Expiry comes before the merge,
/// which would write again what is over, and the per-key pass before the merge too,
/// which so folds what is left. A marker has done its work once all that is done.
pub open spec fn prefix_steps(
    threshold: Option<i64>,
    per_key: bool,
    compact: bool,
    retired: bool,
) -> Seq<PrefixStep> {
    if_due(threshold is Some, PrefixStep::Expire(threshold->0)) + if_due(
        per_key,
        PrefixStep::PerKey,
    ) + if_due(compact, PrefixStep::Compact) + if_due(retired, PrefixStep::DropMarker)
        + seq![PrefixStep::Certify]
}

/// A topic, and where its partitions are routed to.
#[derive(Debug)]
pub struct RoutedTopic {
    pub configs: Vec<(String, Option<String>)>,
    pub num_partitions: i32,
    /// The prefix of each partition, in the order of the partitions.
    pub routes: Vec<String>,
}

impl RoutedTopic {
    /// Every partition is routed.
    pub open spec fn wf(&self) -> bool {
        self.num_partitions <= self.routes@.len()
    }

    /// Whether a partition of the topic is routed to a prefix.
    pub open spec fn routes_to(&self, prefix: Seq<char>) -> bool {
        exists|partition: int|
            0 <= partition < self.num_partitions && (#[trigger] self.routes@[partition])@ == prefix
    }
}

/// The prefixes that partitions of topics are routed to; of compacted topics alone,
/// where asked for those.
pub open spec fn routed(topics: Seq<RoutedTopic>, compacted: bool) -> Set<Seq<char>> {
    Set::new(
        |prefix: Seq<char>|
            exists|i: int|
                0 <= i < topics.len() && (#[trigger] topics[i]).routes_to(prefix) && (compacted
                    ==> compacts(topics[i].configs@)),
    )
}

/// The prefixes that partitions are routed to, and those among them that partitions of
/// compacted topics are.
pub fn routed_prefixes(topics: &Vec<RoutedTopic>) -> (prefixes: (Vec<String>, Vec<String>))
    requires
        forall|i: int| 0 <= i < topics@.len() ==> (#[trigger] topics@[i]).wf(),
    ensures
        texts(prefixes.0@) == routed(topics@, false),
        texts(prefixes.1@) == routed(topics@, true),
{
    let mut all: Vec<String> = Vec::new();
    let mut compacted: Vec<String> = Vec::new();
    let mut at: usize = 0;
    assert(texts(all@) =~= routed(topics@.take(0), false));
    assert(texts(compacted@) =~= routed(topics@.take(0), true));
    while at < topics.len()
        invariant
            at <= topics@.len(),
            forall|i: int| 0 <= i < topics@.len() ==> (#[trigger] topics@[i]).wf(),
            texts(all@) == routed(topics@.take(at as int), false),
            texts(compacted@) == routed(topics@.take(at as int), true),
        decreases topics@.len() - at,
    {
        let topic = &topics[at];
        let compact = is_compacted(&topic.configs);
        let ghost known = all@;
        let ghost known_compacted = compacted@;
        add_routes(topic, &mut all);
        if compact {
            add_routes(topic, &mut compacted);
        }
        proof {
            let before = topics@.take(at as int);
            let now = topics@.take(at + 1);
            assert forall|prefix: Seq<char>, only: bool|
                #[trigger] routed(now, only).contains(prefix) <==> (routed(before, only).contains(
                    prefix,
                ) || (topic.routes_to(prefix) && (only ==> compact))) by {
                if routed(now, only).contains(prefix) {
                    let i = choose|i: int|
                        0 <= i < now.len() && (#[trigger] now[i]).routes_to(prefix) && (only
                            ==> compacts(now[i].configs@));
                    if i < at {
                        assert(before[i] == now[i]);
                    }
                }
                if routed(before, only).contains(prefix) {
                    let i = choose|i: int|
                        0 <= i < before.len() && (#[trigger] before[i]).routes_to(prefix) && (only
                            ==> compacts(before[i].configs@));
                    assert(now[i] == before[i]);
                }
                if topic.routes_to(prefix) && (only ==> compact) {
                    assert(now[at as int] == *topic);
                }
            }
            assert(texts(all@) =~= routed(now, false));
            assert(texts(compacted@) =~= routed(now, true));
        }
        at = at + 1;
    }
    assert(topics@.take(at as int) =~= topics@);
    (all, compacted)
}

fn add_routes(topic: &RoutedTopic, prefixes: &mut Vec<String>)
    requires
        topic.wf(),
    ensures
        forall|prefix: Seq<char>| #[trigger]
            texts(final(prefixes)@).contains(prefix) <==> (texts(old(prefixes)@).contains(prefix)
                || topic.routes_to(prefix)),
{
    let mut partition: i32 = 0;
    while partition < topic.num_partitions
        invariant
            topic.wf(),
            0 <= partition,
            partition <= topic.num_partitions || partition == 0,
            forall|prefix: Seq<char>| #[trigger]
                texts(prefixes@).contains(prefix) <==> (texts(old(prefixes)@).contains(prefix)
                    || exists|p: int|
                    0 <= p < partition && (#[trigger] topic.routes@[p])@ == prefix),
        decreases topic.num_partitions - partition,
    {
        let ghost before = prefixes@;
        assert(topic.routes.len() == topic.routes@.len());
        let route = topic.routes[partition as usize].clone();
        prefixes.push(route);
        proof {
            assert forall|prefix: Seq<char>| #[trigger]
                texts(prefixes@).contains(prefix) <==> (texts(old(prefixes)@).contains(prefix)
                    || exists|p: int|
                    0 <= p < partition + 1 && (#[trigger] topic.routes@[p])@ == prefix) by {
                assert(prefixes@ == before.push(route));
                if texts(prefixes@).contains(prefix) {
                    let i = choose|i: int|
                        0 <= i < prefixes@.len() && (#[trigger] prefixes@[i])@ == prefix;
                    if i < before.len() {
                        assert(before[i]@ == prefix);
                        assert(texts(before).contains(prefix));
                    } else {
                        assert(topic.routes@[partition as int]@ == prefix);
                    }
                }
                if texts(before).contains(prefix) {
                    let i = choose|i: int|
                        0 <= i < before.len() && (#[trigger] before[i])@ == prefix;
                    assert(prefixes@[i]@ == prefix);
                }
                if exists|p: int|
                    0 <= p < partition + 1 && (#[trigger] topic.routes@[p])@ == prefix {
                    let p = choose|p: int|
                        0 <= p < partition + 1 && (#[trigger] topic.routes@[p])@ == prefix;
                    if p == partition {
                        assert(prefixes@[before.len() as int]@ == prefix);
                    } else {
                        assert(topic.routes@[p]@ == prefix);
                        assert(texts(before).contains(prefix));
                    }
                }
            }
        }
        partition = partition + 1;
    }
}

impl DynoStore {
    /// How many segments the index of a prefix holds.
    pub open spec fn live_count(&self, prefix: Seq<char>) -> usize {
        match self.prefixes.index.at(prefix) {
            Some(index) => index.segments.entries@.len() as usize,
            None => 0,
        }
    }

    /// Every prefix that there may be work for: those indexed here, those that
    /// topics are routed to, and the retired ones.
    pub fn maintenance_universe(&self, routed: &Vec<String>, retired: &Vec<String>) -> (universe:
        Result<OrdMap<String, ()>, Error>)
        requires
            self.wf(),
        ensures
            match universe {
                Ok(universe) => !self.prefixes.index.poisoned && universe.wf() && universe@.dom()
                    == self.prefixes.index.map@.dom().union(texts(routed@)).union(
                    texts(retired@),
                ),
                Err(error) => self.prefixes.index.poisoned && error == Error::Poison,
            },
    {
        if self.prefixes.index.poisoned {
            return Err(Error::Poison);
        }
        let mut universe: OrdMap<String, ()> = OrdMap::new();
        add_keys(&mut universe, &self.prefixes.index.map);
        add_all(&mut universe, routed);
        add_all(&mut universe, retired);
        assert(universe@.dom() =~= self.prefixes.index.map@.dom().union(texts(routed@)).union(
            texts(retired@),
        ));
        Ok(universe)
    }

    /// What the order of this process in a tick is shuffled by: its own seed, and the
    /// time.
    pub fn claim_seed(&self, now_ms: i64) -> (seed: u64)
        ensures
            seed == self.identity.maintenance_seed ^ (now_ms as u64),
    {
        self.identity.maintenance_seed ^ (#[verifier::truncate] (now_ms as u64))
    }

    /// The order in which this process claims prefixes in this tick: shuffled, so
    /// that several do not all begin with the same.
    pub fn claim_order(&self, universe: &OrdMap<String, ()>, now_ms: i64) -> (order: Vec<String>)
        requires
            universe.wf(),
        ensures
            texts(order@) == universe@.dom(),
            order@.len() == universe@.dom().len(),
    {
        let mut order = owned_of(universe, None);
        let ghost before = order@;
        shuffle(&mut order, self.claim_seed(now_ms));
        proof {
            broadcast use vstd::seq_lib::group_to_multiset_ensures;

            lemma_same_texts(before, order@);
            assert(before.to_multiset().len() == order@.to_multiset().len());
            crate::ordmap::lemma_count(universe.entries@);
        }
        order
    }

    /// Whether a prefix whose lease says that it was maintained at `maintained_at`
    /// is left alone. Where no recency is configured none is.
    pub fn is_recently_maintained(&self, now_ms: i64, maintained_at: Option<i64>) -> (recent: bool)
        ensures
            recent == is_recent(self.tuning.maintenance_recency as int, now_ms, maintained_at),
    {
        match maintained_at {
            Some(at) => self.tuning.maintenance_recency > 0 && (now_ms as i128) - (at as i128) < (
            self.tuning.maintenance_recency as i128),
            None => false,
        }
    }

    /// Take the outcome of acquiring the lease of a prefix. A prefix that was
    /// claimed is owned for the tick; one that another process holds is not an
    /// error.
    pub fn claim_maintenance_prefixes(
        owned: &mut OrdMap<String, ()>,
        prefix: String,
        acquired: Result<i64, Error>,
    ) -> (outcome: ClaimOutcome)
        requires
            old(owned).wf(),
        ensures
            final(owned).wf(),
            final(owned)@.dom() == if acquired is Ok {
                old(owned)@.dom().insert(prefix@)
            } else {
                old(owned)@.dom()
            },
            outcome == match acquired {
                Ok(_) => ClaimOutcome::Claimed,
                Err(Error::Api(ErrorCode::NotLeaderOrFollower)) => ClaimOutcome::Lost,
                Err(_) => ClaimOutcome::Failed,
            },
    {
        match acquired {
            Ok(_) => {
                let _ = owned.insert(prefix, ());
                assert(owned@.dom() =~= old(owned)@.dom().insert(prefix@));
                ClaimOutcome::Claimed
            },
            Err(Error::Api(ErrorCode::NotLeaderOrFollower)) => ClaimOutcome::Lost,
            Err(_) => ClaimOutcome::Failed,
        }
    }

    /// The prefixes whose segments are merged in this tick: those indexed here and
    /// those that topics are routed to, as far as they are owned.
    pub fn compactable_prefixes(
        &self,
        routed: &Vec<String>,
        owned: Option<&OrdMap<String, ()>>,
    ) -> (prefixes: Result<Vec<String>, Error>)
        requires
            self.wf(),
            owned matches Some(owned) ==> owned.wf(),
        ensures
            match prefixes {
                Ok(prefixes) => {
                    let all = self.prefixes.index.map@.dom().union(texts(routed@));
                    &&& self.tuning.prefix_compact_min_segments == 0
                        || !self.prefixes.index.poisoned
                    &&& in_order(prefixes@)
                    &&& texts(prefixes@) == if self.tuning.prefix_compact_min_segments == 0 {
                        Set::empty()
                    } else {
                        match owned {
                            Some(owned) => all.intersect(owned@.dom()),
                            None => all,
                        }
                    }
                },
                Err(error) => self.tuning.prefix_compact_min_segments != 0
                    && self.prefixes.index.poisoned && error == Error::Poison,
            },
    {
        if self.tuning.prefix_compact_min_segments == 0 {
            let none: Vec<String> = Vec::new();
            assert(texts(none@) =~= Set::empty());
            return Ok(none);
        }
        if self.prefixes.index.poisoned {
            return Err(Error::Poison);
        }
        let mut all: OrdMap<String, ()> = OrdMap::new();
        add_keys(&mut all, &self.prefixes.index.map);
        add_all(&mut all, routed);
        assert(all@.dom() =~= self.prefixes.index.map@.dom().union(texts(routed@)));
        Ok(owned_of(&all, owned))
    }

    /// The prefixes that the per-key pass runs over in this tick: those that
    /// compacted topics are routed to, as far as they are owned.
    pub fn per_key_compact_prefixes(routed: &Vec<String>, owned: Option<&OrdMap<String, ()>>) -> (
    prefixes: Vec<String>)
        requires
            owned matches Some(owned) ==> owned.wf(),
        ensures
            in_order(prefixes@),
            texts(prefixes@) == match owned {
                Some(owned) => texts(routed@).intersect(owned@.dom()),
                None => texts(routed@),
            },
    {
        let mut all: OrdMap<String, ()> = OrdMap::new();
        add_all(&mut all, routed);
        assert(all@.dom() =~= texts(routed@));
        owned_of(&all, owned)
    }

    /// The prefixes of a tick, those with most segments first.
    pub fn maintenance_order(
        &self,
        thresholds: &OrdMap<String, i64>,
        compactable: &Vec<String>,
        per_key: &Vec<String>,
    ) -> (order: Result<Vec<String>, Error>)
        requires
            self.wf(),
            thresholds.wf(),
        ensures
            match order {
                Ok(order) => !self.prefixes.index.poisoned && exists|all: Seq<(usize, Seq<char>)>|
                    #![trigger ranked(all)]
                    {
                        &&& order@.map_values(|prefix: String| prefix@) == ranked(all).map_values(
                            |item: (usize, Seq<char>)| item.1,
                        )
                        &&& forall|i: int|
                            #![trigger all[i]]
                            0 <= i < all.len() ==> all[i].0 == self.live_count(all[i].1)
                        &&& forall|i: int, j: int|
                            #![trigger all[i], all[j]]
                            0 <= i < j < all.len() ==> String::before(all[i].1, all[j].1)
                        &&& forall|prefix: Seq<char>|
                            (exists|i: int| 0 <= i < all.len() && (#[trigger] all[i]).1 == prefix)
                                <==> (#[trigger] thresholds@.dom().contains(prefix) || texts(
                                compactable@,
                            ).contains(prefix) || texts(per_key@).contains(prefix))
                    },
                Err(error) => self.prefixes.index.poisoned && error == Error::Poison,
            },
    {
        if self.prefixes.index.poisoned {
            return Err(Error::Poison);
        }
        let mut set: OrdMap<String, ()> = OrdMap::new();
        add_keys(&mut set, thresholds);
        add_all(&mut set, compactable);
        add_all(&mut set, per_key);
        let prefixes = owned_of(&set, None);
        let counts = self.count_all(prefixes);
        proof {
            let all = counted(counts@);
            assert forall|i: int, j: int|
                #![trigger all[i], all[j]]
                0 <= i < j < all.len() implies String::before(all[i].1, all[j].1) by {
                assert(String::before(prefixes@[i]@, prefixes@[j]@));
            }
            assert forall|prefix: Seq<char>|
                (exists|i: int| 0 <= i < all.len() && (#[trigger] all[i]).1 == prefix) <==> (
                #[trigger] thresholds@.dom().contains(prefix) || texts(compactable@).contains(
                    prefix,
                ) || texts(per_key@).contains(prefix)) by {
                assert(set@.dom().contains(prefix) <==> texts(prefixes@).contains(prefix));
                if texts(prefixes@).contains(prefix) {
                    let i = choose|i: int|
                        0 <= i < prefixes@.len() && (#[trigger] prefixes@[i])@ == prefix;
                    assert(all[i].1 == prefix);
                }
                if exists|i: int| 0 <= i < all.len() && (#[trigger] all[i]).1 == prefix {
                    let i = choose|i: int| 0 <= i < all.len() && (#[trigger] all[i]).1 == prefix;
                    assert(prefixes@[i]@ == prefix);
                }
            }
        }
        Ok(rank(counts))
    }

    /// How many segments each prefix has.
    fn count_all(&self, prefixes: Vec<String>) -> (counts: Vec<(usize, String)>)
        requires
            self.wf(),
        ensures
            counts@.len() == prefixes@.len(),
            forall|i: int|
                #![trigger counts@[i]]
                0 <= i < counts@.len() ==> counts@[i] == (
                    self.live_count(prefixes@[i]@),
                    prefixes@[i],
                ),
    {
        let mut counts: Vec<(usize, String)> = Vec::new();
        for prefix in it: prefixes.into_iter()
            invariant
                it.seq() == prefixes@,
                self.wf(),
                counts@.len() == it.index(),
                forall|i: int|
                    #![trigger counts@[i]]
                    0 <= i < counts@.len() ==> counts@[i] == (
                        self.live_count(prefixes@[i]@),
                        prefixes@[i],
                    ),
        {
            let count: usize = match self.prefixes.index.map.get(&prefix) {
                Some(index) => index.segments.len(),
                None => 0,
            };
            counts.push((count, prefix));
        }
        counts
    }

    /// What is done for a prefix in a tick, step by step.
    pub fn maintain_prefix_segments(
        prefix: &str,
        thresholds: &OrdMap<String, i64>,
        compactable: &OrdMap<String, ()>,
        per_key: &OrdMap<String, ()>,
        retired: &OrdMap<String, ()>,
    ) -> (steps: Vec<PrefixStep>)
        requires
            thresholds.wf(),
            compactable.wf(),
            per_key.wf(),
            retired.wf(),
        ensures
            steps@ == prefix_steps(
                if thresholds@.dom().contains(prefix@) {
                    Some(thresholds@[prefix@])
                } else {
                    None
                },
                per_key@.dom().contains(prefix@),
                compactable@.dom().contains(prefix@),
                retired@.dom().contains(prefix@),
            ),
    {
        let key = String::from_str(prefix);
        let mut steps: Vec<PrefixStep> = Vec::new();
        if let Some(threshold) = thresholds.get(&key) {
            steps.push(PrefixStep::Expire(*threshold));
        }
        if per_key.contains(&key) {
            steps.push(PrefixStep::PerKey);
        }
        if compactable.contains(&key) {
            steps.push(PrefixStep::Compact);
        }
        if retired.contains(&key) {
            steps.push(PrefixStep::DropMarker);
        }
        steps.push(PrefixStep::Certify);
        assert(steps@ =~= prefix_steps(
            if thresholds@.dom().contains(prefix@) {
                Some(thresholds@[prefix@])
            } else {
                None
            },
            per_key@.dom().contains(prefix@),
            compactable@.dom().contains(prefix@),
            retired@.dom().contains(prefix@),
        ));
        steps
    }

    /// Whether a prefix still has a run to merge, by how many segments it has.
    pub open spec fn is_backlogged(&self, prefix: Seq<char>) -> bool {
        &&& self.prefixes.index.map@.dom().contains(prefix)
        &&& self.live_count(prefix) > self.tuning.prefix_compact_min_segments
        &&& self.live_count(prefix) >= self.tuning.prefix_compact_keep_hot + 2
    }

    /// The prefixes of `compactable` that still have a run to merge, those with most
    /// segments first. Under a poisoned lock there are none.
    pub fn backlogged_prefixes(&self, compactable: &OrdMap<String, ()>) -> (prefixes: Vec<String>)
        requires
            self.wf(),
            compactable.wf(),
        ensures
            prefixes@.map_values(|prefix: String| prefix@)
                == if self.prefixes.index.poisoned {
                Seq::empty()
            } else {
                ranked(self.backlog(compactable.entries@)).map_values(
                    |item: (usize, Seq<char>)| item.1,
                )
            },
    {
        if self.prefixes.index.poisoned {
            let none: Vec<String> = Vec::new();
            assert(none@.map_values(|prefix: String| prefix@) =~= Seq::empty());
            return none;
        }
        let ghost all = compactable.entries@;
        let mut backlogged: Vec<(usize, String)> = Vec::new();
        let mut at: usize = 0;
        assert(all.take(0) =~= Seq::empty());
        assert(counted(backlogged@) =~= Seq::empty());
        while at < compactable.entries.len()
            invariant
                self.wf(),
                all == compactable.entries@,
                at <= all.len(),
                counted(backlogged@) == self.backlog(all.take(at as int)),
            decreases all.len() - at,
        {
            assert(all.take(at + 1).drop_last() =~= all.take(at as int));
            let prefix = &compactable.entries[at].0;
            assert(all.take(at + 1).last().0 == *prefix);
            let ghost before = counted(backlogged@);
            if let Some(index) = self.prefixes.index.map.get(prefix) {
                let live: usize = index.segments.len();
                if live > self.tuning.prefix_compact_min_segments && live.saturating_sub(
                    self.tuning.prefix_compact_keep_hot,
                ) >= 2 {
                    backlogged.push((live, prefix.clone()));
                    assert(counted(backlogged@) =~= before.push((live, prefix@)));
                }
            }
            at = at + 1;
        }
        assert(all.take(at as int) =~= all);
        rank(backlogged)
    }

    /// Of prefixes in order, those that still have a run to merge, with how many
    /// segments they have.
    pub open spec fn backlog(&self, prefixes: Seq<(String, ())>) -> Seq<(usize, Seq<char>)>
        decreases prefixes.len(),
    {
        if prefixes.len() == 0 {
            Seq::empty()
        } else {
            let before = self.backlog(prefixes.drop_last());
            let last = prefixes.last().0@;
            if self.is_backlogged(last) {
                before.push((self.live_count(last), last))
            } else {
                before
            }
        }
    }
}

/// Whether the backlog is swept after `sweeps` of it, the last of which merged so many
/// segments: one that merged nothing waits for new records, not for another sweep.
pub fn sweep_backlogged_prefixes(sweeps: usize, merged: Option<u64>, backlogged: usize) -> (again:
    bool)
    ensures
        again == sweeps_again(sweeps, merged, backlogged),
{
    sweeps < MAX_SWEEPS && backlogged > 0 && match merged {
        Some(merged) => merged > 0,
        None => true,
    }
}

proof fn lemma_same_texts(a: Seq<String>, b: Seq<String>)
    requires
        a.to_multiset() == b.to_multiset(),
    ensures
        texts(a) == texts(b),
{
    broadcast use vstd::seq_lib::group_to_multiset_ensures;

    assert forall|t: Seq<char>| #[trigger] texts(a).contains(t) <==> texts(b).contains(t) by {
        if texts(a).contains(t) {
            let i = choose|i: int| 0 <= i < a.len() && (#[trigger] a[i])@ == t;
            assert(a.contains(a[i]));
            assert(a.to_multiset().count(a[i]) > 0);
            assert(b.contains(a[i]));
            let j = choose|j: int| 0 <= j < b.len() && b[j] == a[i];
            assert(b[j]@ == t);
        }
        if texts(b).contains(t) {
            let i = choose|i: int| 0 <= i < b.len() && (#[trigger] b[i])@ == t;
            assert(b.contains(b[i]));
            assert(b.to_multiset().count(b[i]) > 0);
            assert(a.contains(b[i]));
            let j = choose|j: int| 0 <= j < a.len() && a[j] == b[i];
            assert(a[j]@ == t);
        }
    }
    assert(texts(a) =~= texts(b));
}

/// Ranking puts the prefixes with most segments first.
pub proof fn ranking_puts_most_first(list: Seq<(usize, Seq<char>)>)
    ensures
        forall|i: int, j: int|
            #![trigger ranked(list)[i], ranked(list)[j]]
            0 <= i < j < ranked(list).len() ==> ranked(list)[i].0 >= ranked(list)[j].0,
        ranked(list).to_multiset() == list.to_multiset(),
    decreases list.len(),
{
    broadcast use vstd::seq_lib::group_to_multiset_ensures;

    if list.len() > 0 {
        let init = list.drop_last();
        ranking_puts_most_first(init);
        lemma_ranking(ranked(init), list.last());
        assert(list =~= init.push(list.last()));
    }
}

proof fn lemma_ranking(list: Seq<(usize, Seq<char>)>, item: (usize, Seq<char>))
    requires
        forall|i: int, j: int|
            #![trigger list[i], list[j]]
            0 <= i < j < list.len() ==> list[i].0 >= list[j].0,
    ensures
        forall|i: int, j: int|
            #![trigger ranked_in(list, item)[i], ranked_in(list, item)[j]]
            0 <= i < j < ranked_in(list, item).len() ==> ranked_in(list, item)[i].0 >= ranked_in(
                list,
                item,
            )[j].0,
        ranked_in(list, item).to_multiset() == list.to_multiset().insert(item),
        list.len() > 0 ==> ranked_in(list, item).last().0 <= list.last().0 || ranked_in(
            list,
            item,
        ).last() == item,
        forall|i: int|
            #![trigger ranked_in(list, item)[i]]
            0 <= i < ranked_in(list, item).len() ==> ranked_in(list, item)[i].0 >= item.0 || (
            list.len() > 0 && ranked_in(list, item)[i].0 >= list.last().0),
    decreases list.len(),
{
    broadcast use vstd::seq_lib::group_to_multiset_ensures;

    let after = ranked_in(list, item);
    if list.len() > 0 && list.last().0 < item.0 {
        let init = list.drop_last();
        assert forall|i: int, j: int|
            #![trigger init[i], init[j]]
            0 <= i < j < init.len() implies init[i].0 >= init[j].0 by {
            assert(list[i].0 >= list[j].0);
        }
        lemma_ranking(init, item);
        let before = ranked_in(init, item);
        assert(list =~= init.push(list.last()));
        assert(init.to_multiset().insert(item).insert(list.last()) =~= init.to_multiset().insert(
            list.last(),
        ).insert(item));
        assert forall|i: int|
            #![trigger after[i]]
            0 <= i < after.len() implies after[i].0 >= item.0 || after[i].0 >= list.last().0 by {
            if i < before.len() {
                assert(after[i] == before[i]);
                if init.len() > 0 {
                    assert(list[init.len() - 1].0 >= list[list.len() - 1].0);
                }
            }
        }
        assert forall|i: int, j: int|
            #![trigger after[i], after[j]]
            0 <= i < j < after.len() implies after[i].0 >= after[j].0 by {
            if j < before.len() {
                assert(after[i] == before[i] && after[j] == before[j]);
            } else {
                assert(after[i].0 >= item.0 || after[i].0 >= list.last().0);
            }
        }
    } else {
        assert forall|i: int, j: int|
            #![trigger after[i], after[j]]
            0 <= i < j < after.len() implies after[i].0 >= after[j].0 by {
            if j < list.len() {
                assert(list[i].0 >= list[j].0);
            } else if list.len() > 0 {
                assert(i == list.len() - 1 || list[i].0 >= list[list.len() - 1].0);
            }
        }
        assert forall|i: int|
            #![trigger after[i]]
            0 <= i < after.len() implies after[i].0 >= item.0 || (list.len() > 0 && after[i].0
            >= list.last().0) by {
            if i < list.len() {
                assert(i == list.len() - 1 || list[i].0 >= list[list.len() - 1].0);
            }
        }
    }
}

/// A prefix that has a run to merge is among those that are swept: who is left out could
/// not have been merged.
pub proof fn what_can_be_merged_is_swept(store: DynoStore, prefix: Seq<char>)
    requires
        store.wf(),
    ensures
        selected(store.selection(prefix), store.tuning.prefix_compact_min_segments) is Some
            ==> store.is_backlogged(prefix),
{
    if store.prefixes.index.map@.dom().contains(prefix) {
        let segments = store.prefixes.index.map@[prefix].segments.entries;
        assert(segments.len() == segments@.len());
    }
}

/// The prefixes of a list with so many segments, in their order.
pub open spec fn with_count(list: Seq<(usize, Seq<char>)>, count: usize) -> Seq<
    (usize, Seq<char>),
>
    decreases list.len(),
{
    if list.len() == 0 {
        Seq::empty()
    } else {
        let before = with_count(list.drop_last(), count);
        if list.last().0 == count {
            before.push(list.last())
        } else {
            before
        }
    }
}

/// Prefixes with as many segments stay in the order they came in.
pub proof fn ranking_keeps_the_order_of_equals(list: Seq<(usize, Seq<char>)>, count: usize)
    ensures
        with_count(ranked(list), count) == with_count(list, count),
    decreases list.len(),
{
    if list.len() > 0 {
        let init = list.drop_last();
        ranking_keeps_the_order_of_equals(init, count);
        lemma_ranked_in_count(ranked(init), list.last(), count);
        assert(ranked(init).push(list.last()).drop_last() =~= ranked(init));
    }
}

proof fn lemma_ranked_in_count(
    list: Seq<(usize, Seq<char>)>,
    item: (usize, Seq<char>),
    count: usize,
)
    ensures
        with_count(ranked_in(list, item), count) == with_count(list.push(item), count),
    decreases list.len(),
{
    reveal_with_fuel(with_count, 3);
    assert(list.push(item).drop_last() =~= list);
    if list.len() > 0 && list.last().0 < item.0 {
        let init = list.drop_last();
        lemma_ranked_in_count(init, item, count);
        assert(init.push(item).drop_last() =~= init);
        assert(ranked_in(list, item).drop_last() =~= ranked_in(init, item));
    }
}

/// What is done for a prefix in one tick: what is due of expiry, the per-key pass, the
/// merge and the dropping of its marker, and last of all that the tick is certified,
/// whatever was due.
pub proof fn a_tick_does_what_is_due(
    threshold: Option<i64>,
    per_key: bool,
    compact: bool,
    retired: bool,
)
    ensures
        ({
            let steps = prefix_steps(threshold, per_key, compact, retired);
            &&& steps.len() > 0
            &&& steps.last() is Certify
            &&& threshold is Some <==> steps[0] is Expire
            &&& threshold is Some ==> steps[0] == PrefixStep::Expire(threshold->0)
            &&& per_key <==> steps.contains(PrefixStep::PerKey)
            &&& compact <==> steps.contains(PrefixStep::Compact)
            &&& retired <==> steps.contains(PrefixStep::DropMarker)
        }),
{
    let steps = prefix_steps(threshold, per_key, compact, retired);
    let a = if_due(threshold is Some, PrefixStep::Expire(threshold->0)).len() as int;
    let b = if_due(per_key, PrefixStep::PerKey).len() as int;
    let c = if_due(compact, PrefixStep::Compact).len() as int;
    let d = if_due(retired, PrefixStep::DropMarker).len() as int;
    assert(steps.len() == a + b + c + d + 1);
    if per_key {
        assert(steps[a] == PrefixStep::PerKey);
    }
    if compact {
        assert(steps[a + b] == PrefixStep::Compact);
    }
    if retired {
        assert(steps[a + b + c] == PrefixStep::DropMarker);
    }
    assert(steps[a + b + c + d] == PrefixStep::Certify);
}

/// The steps of a tick are in order, and none is made twice: expiry before the per-key
/// pass, that before the merge, and that before the marker is dropped.
pub proof fn a_tick_goes_in_order(
    threshold: Option<i64>,
    per_key: bool,
    compact: bool,
    retired: bool,
    i: int,
    j: int,
)
    requires
        0 <= i < j < prefix_steps(threshold, per_key, compact, retired).len(),
    ensures
        step_rank(prefix_steps(threshold, per_key, compact, retired)[i]) < step_rank(
            prefix_steps(threshold, per_key, compact, retired)[j],
        ),
{
}

/// Where a step stands in a tick.
pub open spec fn step_rank(step: PrefixStep) -> int {
    match step {
        PrefixStep::Expire(_) => 0,
        PrefixStep::PerKey => 1,
        PrefixStep::Compact => 2,
        PrefixStep::DropMarker => 3,
        PrefixStep::Certify => 4,
    }
}

/// The prefixes that are swept are those listed that hold more segments than the
/// trigger, and two or more beside those that are kept hot; each with how many it
/// holds, in the order listed.
pub proof fn what_is_behind_is_swept(store: DynoStore, prefixes: Seq<(String, ())>, k: int)
    requires
        0 <= k < prefixes.len(),
    ensures
        ({
            let had = store.backlog(prefixes.take(k));
            let more = store.backlog(prefixes.take(k + 1));
            let prefix = prefixes[k].0@;
            let held = match store.prefixes.index.at(prefix) {
                Some(index) => index.segments.entries@.len() as usize,
                None => 0,
            };
            let behind = held > store.tuning.prefix_compact_min_segments && held
                >= store.tuning.prefix_compact_keep_hot + 2;
            &&& behind ==> more == had.push((held, prefix))
            &&& !behind ==> more == had
            &&& store.backlog(prefixes.take(0)).len() == 0
            &&& store.backlog(prefixes.take(prefixes.len() as int)) == store.backlog(prefixes)
        }),
{
    assert(prefixes.take(k + 1).drop_last() =~= prefixes.take(k));
    assert(prefixes.take(prefixes.len() as int) =~= prefixes);
}

/// A topic is compacted if and only if its cleanup policy, stated and not empty of it,
/// speaks of compaction; no other config makes it so.
pub proof fn the_cleanup_policy_decides(configs: Seq<(String, Option<String>)>)
    ensures
        compacts(configs) <==> exists|i: int|
            0 <= i < configs.len() && (#[trigger] configs[i]).0@ == "cleanup.policy"@
                && configs[i].1 is Some && crate::text::contains_text(
                configs[i].1->0@,
                "compact"@,
            ),
{
    if compacts(configs) {
        let i = choose|i: int|
            0 <= i < configs.len() && asks_for_compaction(
                (#[trigger] configs[i]).0@,
                crate::opticon::text_view(configs[i].1),
            );
        assert(configs[i].0@ == "cleanup.policy"@);
    }
    if exists|i: int|
        0 <= i < configs.len() && (#[trigger] configs[i]).0@ == "cleanup.policy"@ && configs[i].1
            is Some && crate::text::contains_text(configs[i].1->0@, "compact"@) {
        let i = choose|i: int|
            0 <= i < configs.len() && (#[trigger] configs[i]).0@ == "cleanup.policy"@
                && configs[i].1 is Some && crate::text::contains_text(
                configs[i].1->0@,
                "compact"@,
            );
        assert(asks_for_compaction(configs[i].0@, crate::opticon::text_view(configs[i].1)));
    }
}

/// A prefix is maintained for a topic if and only if one of its partitions is routed
/// there, and the per-key pass is made over it if and only if one of a compacted topic
/// is.
pub proof fn every_route_is_maintained(topics: Seq<RoutedTopic>, i: int, partition: int)
    requires
        0 <= i < topics.len(),
        0 <= partition < topics[i].num_partitions,
    ensures
        routed(topics, false).contains(topics[i].routes@[partition]@),
        compacts(topics[i].configs@) ==> routed(topics, true).contains(
            topics[i].routes@[partition]@,
        ),
        forall|prefix: Seq<char>| #[trigger]
            routed(topics, true).contains(prefix) ==> routed(topics, false).contains(prefix)
                && exists|k: int, p: int|
                0 <= k < topics.len() && 0 <= p < topics[k].num_partitions && compacts(
                    topics[k].configs@,
                ) && (#[trigger] topics[k].routes@[p])@ == prefix,
{
    let prefix = topics[i].routes@[partition]@;
    assert(topics[i].routes_to(prefix));
    assert forall|prefix: Seq<char>| #[trigger] routed(topics, true).contains(
        prefix,
    ) implies routed(topics, false).contains(prefix) && exists|k: int, p: int|
        0 <= k < topics.len() && 0 <= p < topics[k].num_partitions && compacts(topics[k].configs@)
            && (#[trigger] topics[k].routes@[p])@ == prefix by {
        let k = choose|k: int|
            0 <= k < topics.len() && (#[trigger] topics[k]).routes_to(prefix) && compacts(
                topics[k].configs@,
            );
        assert(topics[k].routes_to(prefix));
        let p = choose|p: int|
            0 <= p < topics[k].num_partitions && (#[trigger] topics[k].routes@[p])@ == prefix;
        assert(topics[k].routes@[p]@ == prefix);
    }
}

/// A prefix is left alone for as long after it was maintained as is configured, and no
/// longer; where nothing is configured, or nothing is known of it, it is not.
pub proof fn a_maintained_prefix_is_left_alone(recency: int, now_ms: i64, at: i64)
    ensures
        now_ms < at + recency && recency > 0 ==> is_recent(recency, now_ms, Some(at)),
        now_ms >= at + recency ==> !is_recent(recency, now_ms, Some(at)),
        recency <= 0 ==> !is_recent(recency, now_ms, Some(at)),
        !is_recent(recency, now_ms, None),
{
}

/// Sweeping ends: no more sweeps are made than one tick makes, none is made where nothing
/// is behind, and none after one that merged nothing; and it goes on otherwise.
pub proof fn sweeping_ends(sweeps: usize, merged: Option<u64>, backlogged: usize)
    ensures
        sweeps >= MAX_SWEEPS ==> !sweeps_again(sweeps, merged, backlogged),
        backlogged == 0 ==> !sweeps_again(sweeps, merged, backlogged),
        merged == Some(0u64) ==> !sweeps_again(sweeps, merged, backlogged),
        sweeps < MAX_SWEEPS && backlogged > 0 && (merged is None || merged->0 > 0) ==> sweeps_again(
            sweeps,
            merged,
            backlogged,
        ),
{
}

} // verus!
