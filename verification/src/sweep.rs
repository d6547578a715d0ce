//! The sweep of the topic caches against a listing of the live topics.

use crate::locked::{kept, LockedMap};
use crate::opticon::OptiCon;
use crate::ordmap::{lemma_at, map_of, Key, OrdMap};
use crate::segment::Topition;
use crate::topics::{
    swept, CachedWatermark, OffsetHint, TopicCaches, TopicRouting, Watermark,
};
use vstd::prelude::*;
use vstd::string::*;

verus! {

/// The topic of an entry that is keyed by a partition.
pub fn topition_of<'a, V>(topition: &'a Topition, _value: &'a V) -> (topic: &'a str)
    ensures
        topic@ == topition@.0,
{
    topition.topic()
}

/// The topics of the entries that are not live.
pub open spec fn dead_names<K: Key, V>(
    cache: LockedMap<K, V>,
    name: spec_fn(K::V, V) -> Seq<char>,
    live: Set<Seq<char>>,
) -> Set<Seq<char>> {
    Set::new(
        |topic: Seq<char>|
            !cache.poisoned && !live.contains(topic) && exists|key: K::V| #[trigger]
                cache.map@.dom().contains(key) && name(key, cache.map@[key]) == topic,
    )
}

/// Drop every entry whose topic is not live, and add the topics of those dropped
/// to `evicted`.
pub fn retain_live_in<K: Key, V, F: for<'a> Fn(&'a K, &'a V) -> &'a str>(
    cache: &mut LockedMap<K, V>,
    topic_of: F,
    live: &OrdMap<String, ()>,
    evicted: &mut OrdMap<String, ()>,
    Ghost(name): Ghost<spec_fn(K::V, V) -> Seq<char>>,
)
    requires
        old(cache).wf(),
        live.wf(),
        old(evicted).wf(),
        forall|key: &K, value: &V| #[trigger] call_requires(topic_of, (key, value)),
        forall|key: &K, value: &V, topic: &str| #[trigger]
            call_ensures(topic_of, (key, value), topic) ==> topic@ == name(key@, *value),
    ensures
        final(cache).wf(),
        final(cache).poisoned == old(cache).poisoned,
        final(cache).map@ == kept(
            *old(cache),
            |key: K::V, value: V| live@.dom().contains(name(key, value)),
        ),
        final(evicted).wf(),
        final(evicted)@.dom() == old(evicted)@.dom().union(
            dead_names(*old(cache), name, live@.dom()),
        ),
{
    if cache.poisoned {
        assert(evicted@.dom() =~= old(evicted)@.dom().union(
            dead_names(*old(cache), name, live@.dom()),
        ));
        return ;
    }
    let ghost before = cache.map.entries@;
    let ghost names = evicted@.dom();
    let mut kept_entries: Vec<(K, V)> = Vec::new();
    let ghost mut from: Seq<int> = Seq::empty();
    let mut held: Vec<(K, V)> = Vec::new();
    core::mem::swap(&mut held, &mut cache.map.entries);
    for entry in it: held.into_iter()
        invariant
            it.seq() == before,
            live.wf(),
            evicted.wf(),
            from.len() == kept_entries@.len(),
            forall|a: int|
                #![trigger from[a]]
                0 <= a < from.len() ==> 0 <= from[a] < it.index() && kept_entries@[a]
                    == before[from[a]] && live@.dom().contains(
                    name(before[from[a]].0@, before[from[a]].1),
                ),
            forall|a: int, b: int|
                #![trigger from[a], from[b]]
                0 <= a < b < from.len() ==> from[a] < from[b],
            forall|i: int|
                #![trigger before[i]]
                0 <= i < it.index() ==> if live@.dom().contains(name(before[i].0@, before[i].1)) {
                    from.contains(i)
                } else {
                    evicted@.dom().contains(name(before[i].0@, before[i].1))
                },
            forall|topic: Seq<char>| #[trigger]
                evicted@.dom().contains(topic) ==> names.contains(topic) || (!live@.dom().contains(
                    topic,
                ) && exists|i: int|
                    0 <= i < it.index() && #[trigger] name(before[i].0@, before[i].1) == topic),
            forall|topic: Seq<char>| #[trigger]
                names.contains(topic) ==> evicted@.dom().contains(topic),
            forall|key: &K, value: &V| #[trigger] call_requires(topic_of, (key, value)),
            forall|key: &K, value: &V, topic: &str| #[trigger]
                call_ensures(topic_of, (key, value), topic) ==> topic@ == name(key@, *value),
    {
        let ghost at = it.index();
        let ghost from_before = from;
        let ghost evicted_before = evicted@.dom();
        assert(entry == before[at]);
        let topic = String::from_str(topic_of(&entry.0, &entry.1));
        assert(topic@ == name(before[at].0@, before[at].1));
        if live.contains(&topic) {
            kept_entries.push(entry);
            proof {
                from = from.push(at);
                assert(from[from.len() - 1] == at);
            }
        } else {
            let _ = evicted.insert(topic, ());
        }
        proof {
            assert forall|i: int|
                #![trigger before[i]]
                0 <= i < at + 1 implies if live@.dom().contains(name(before[i].0@, before[i].1)) {
                from.contains(i)
            } else {
                evicted@.dom().contains(name(before[i].0@, before[i].1))
            } by {
                if i < at && from_before.contains(i) {
                    let a = choose|a: int| 0 <= a < from_before.len() && from_before[a] == i;
                    assert(from[a] == i);
                }
            }
        }
    }
    cache.map.entries = kept_entries;
    proof {
        let after = cache.map.entries@;
        let now = map_of(after);
        let then_map = map_of(before);
        let pred = |key: K::V, value: V| live@.dom().contains(name(key, value));
        assert forall|i: int, j: int|
            #![trigger after[i], after[j]]
            0 <= i < j < after.len() implies K::before(after[i].0@, after[j].0@) by {
            assert(from[i] < from[j]);
            assert(K::before(before[from[i]].0@, before[from[j]].0@));
        }
        assert forall|key: K::V| #[trigger] now.dom().contains(key) <==> (then_map.dom().contains(
            key,
        ) && pred(key, then_map[key])) by {
            if now.dom().contains(key) {
                let a = choose|a: int| 0 <= a < after.len() && (#[trigger] after[a]).0@ == key;
                assert(0 <= from[a] < before.len());
                lemma_at(before, from[a]);
            }
            if then_map.dom().contains(key) && pred(key, then_map[key]) {
                let w = choose|w: int| 0 <= w < before.len() && (#[trigger] before[w]).0@ == key;
                lemma_at(before, w);
                assert(from.contains(w));
                let a = choose|a: int| 0 <= a < from.len() && from[a] == w;
                assert(after[a].0@ == key);
            }
        }
        assert forall|key: K::V| now.dom().contains(key) implies #[trigger] now[key]
            == then_map[key] by {
            let a = choose|a: int| 0 <= a < after.len() && (#[trigger] after[a]).0@ == key;
            assert(0 <= from[a] < before.len());
            lemma_at(before, from[a]);
            lemma_at(after, a);
        }
        assert(cache.map@ =~= kept(*old(cache), pred));
        let dead = dead_names(*old(cache), name, live@.dom());
        assert forall|topic: Seq<char>| #[trigger] evicted@.dom().contains(topic) <==> (
        names.contains(topic) || dead.contains(topic)) by {
            if evicted@.dom().contains(topic) && !names.contains(topic) {
                let i = choose|i: int|
                    0 <= i < before.len() && #[trigger] name(before[i].0@, before[i].1) == topic;
                lemma_at(before, i);
            }
            if dead.contains(topic) {
                let key = choose|key: K::V| #[trigger]
                    then_map.dom().contains(key) && name(key, then_map[key]) == topic;
                let w = choose|w: int| 0 <= w < before.len() && (#[trigger] before[w]).0@ == key;
                lemma_at(before, w);
                assert(before[w].0@ == key);
            }
        }
        assert(evicted@.dom() =~= names.union(dead));
    }
}

/// The topic that a key names, of an entry keyed by a topic.
fn name_of<'a, V>(topic: &'a String, _value: &'a V) -> (name: &'a str)
    ensures
        name@ == topic@,
{
    topic.as_str()
}

/// The topic that an id stands for.
fn name_under<'a>(_id: &'a u128, topic: &'a String) -> (name: &'a str)
    ensures
        name@ == topic@,
{
    topic.as_str()
}

impl<M, S> TopicCaches<M, S> {
    /// The topics that an entry not under a poisoned lock is held of.
    pub open spec fn readable_names(self) -> Set<Seq<char>> {
        Set::new(
            |topic: Seq<char>|
                {
                    ||| !self.metas.poisoned && self.metas.map@.dom().contains(topic)
                    ||| !self.routing.poisoned && self.routing.map@.dom().contains(topic)
                    ||| !self.compacted.poisoned && self.compacted.map@.dom().contains(topic)
                    ||| !self.ids.poisoned && exists|id: u128| #[trigger]
                        self.ids.map@.dom().contains(id) && self.ids.map@[id]@ == topic
                    ||| !self.watermarks.poisoned && exists|partition: i32| #[trigger]
                        self.watermarks.map@.dom().contains((topic, partition))
                    ||| !self.next_offsets.poisoned && exists|partition: i32| #[trigger]
                        self.next_offsets.map@.dom().contains((topic, partition))
                    ||| !self.coalesced_watermarks.poisoned && exists|partition: i32| #[trigger]
                        self.coalesced_watermarks.map@.dom().contains((topic, partition))
                    ||| !self.truncate_floors.poisoned && exists|partition: i32| #[trigger]
                        self.truncate_floors.map@.dom().contains((topic, partition))
                },
        )
    }

    /// Drop every entry of a topic that is not live, and say which topics those
    /// were. `live` is to come from a listing that succeeded.
    pub fn retain_live(&mut self, live: &OrdMap<String, ()>) -> (evicted: OrdMap<String, ()>)
        requires
            old(self).wf(),
            live.wf(),
        ensures
            final(self).wf(),
            swept(*old(self), *final(self), |name: Seq<char>| !live@.dom().contains(name)),
            evicted.wf(),
            evicted@.dom() == old(self).readable_names().difference(live@.dom()),
    {
        let ghost before = *self;
        let mut evicted: OrdMap<String, ()> = OrdMap::new();
        retain_live_in(
            &mut self.metas,
            name_of,
            live,
            &mut evicted,
            Ghost(|key: Seq<char>, value: OptiCon<M>| key),
        );
        retain_live_in(
            &mut self.routing,
            name_of,
            live,
            &mut evicted,
            Ghost(|key: Seq<char>, value: TopicRouting| key),
        );
        retain_live_in(
            &mut self.compacted,
            name_of,
            live,
            &mut evicted,
            Ghost(|key: Seq<char>, value: (bool, u64)| key),
        );
        retain_live_in(
            &mut self.ids,
            name_under,
            live,
            &mut evicted,
            Ghost(|key: u128, value: String| value@),
        );
        retain_live_in(
            &mut self.watermarks,
            topition_of,
            live,
            &mut evicted,
            Ghost(|key: (Seq<char>, i32), value: OptiCon<Watermark>| key.0),
        );
        retain_live_in(
            &mut self.next_offsets,
            topition_of,
            live,
            &mut evicted,
            Ghost(|key: (Seq<char>, i32), value: OffsetHint| key.0),
        );
        retain_live_in(
            &mut self.coalesced_watermarks,
            topition_of,
            live,
            &mut evicted,
            Ghost(|key: (Seq<char>, i32), value: CachedWatermark<S>| key.0),
        );
        retain_live_in(
            &mut self.truncate_floors,
            topition_of,
            live,
            &mut evicted,
            Ghost(|key: (Seq<char>, i32), value: i64| key.0),
        );
        proof {
            let gone = |name: Seq<char>| !live@.dom().contains(name);
            assert(self.metas.map@ =~= kept(
                before.metas,
                |key: Seq<char>, value: OptiCon<M>| !gone(key),
            ));
            assert(self.routing.map@ =~= kept(
                before.routing,
                |key: Seq<char>, value: TopicRouting| !gone(key),
            ));
            assert(self.compacted.map@ =~= kept(
                before.compacted,
                |key: Seq<char>, value: (bool, u64)| !gone(key),
            ));
            assert(self.ids.map@ =~= kept(before.ids, |key: u128, value: String| !gone(value@)));
            assert(self.watermarks.map@ =~= kept(
                before.watermarks,
                |key: (Seq<char>, i32), value: OptiCon<Watermark>| !gone(key.0),
            ));
            assert(self.next_offsets.map@ =~= kept(
                before.next_offsets,
                |key: (Seq<char>, i32), value: OffsetHint| !gone(key.0),
            ));
            assert(self.coalesced_watermarks.map@ =~= kept(
                before.coalesced_watermarks,
                |key: (Seq<char>, i32), value: CachedWatermark<S>| !gone(key.0),
            ));
            assert(self.truncate_floors.map@ =~= kept(
                before.truncate_floors,
                |key: (Seq<char>, i32), value: i64| !gone(key.0),
            ));
            assert forall|topic: Seq<char>| #[trigger]
                evicted@.dom().contains(topic) <==> before.readable_names().difference(
                    live@.dom(),
                ).contains(topic) by {
                lemma_dead_by_partition(
                    before.watermarks,
                    |key: (Seq<char>, i32), value: OptiCon<Watermark>| key.0,
                    live@.dom(),
                    topic,
                );
                lemma_dead_by_partition(
                    before.next_offsets,
                    |key: (Seq<char>, i32), value: OffsetHint| key.0,
                    live@.dom(),
                    topic,
                );
                lemma_dead_by_partition(
                    before.coalesced_watermarks,
                    |key: (Seq<char>, i32), value: CachedWatermark<S>| key.0,
                    live@.dom(),
                    topic,
                );
                lemma_dead_by_partition(
                    before.truncate_floors,
                    |key: (Seq<char>, i32), value: i64| key.0,
                    live@.dom(),
                    topic,
                );
                lemma_dead_by_name(
                    before.metas,
                    |key: Seq<char>, value: OptiCon<M>| key,
                    live@.dom(),
                    topic,
                );
                lemma_dead_by_name(
                    before.routing,
                    |key: Seq<char>, value: TopicRouting| key,
                    live@.dom(),
                    topic,
                );
                lemma_dead_by_name(
                    before.compacted,
                    |key: Seq<char>, value: (bool, u64)| key,
                    live@.dom(),
                    topic,
                );
            }
            assert(evicted@.dom() =~= before.readable_names().difference(live@.dom()));
        }
        evicted
    }

    /// How many entries each map holds, by its name.
    pub fn occupancy(&self) -> (counts: [(&'static str, usize); 8])
        ensures
            counts@ == seq![
                ("topic_metas", count_of(self.metas)),
                ("topic_ids", count_of(self.ids)),
                ("routing_prefixes", count_of(self.routing)),
                ("compacted_topics", count_of(self.compacted)),
                ("watermarks", count_of(self.watermarks)),
                ("next_offsets", count_of(self.next_offsets)),
                ("coalesced_watermark_floors", count_of(self.coalesced_watermarks)),
                ("truncate_floors", count_of(self.truncate_floors)),
            ],
    {
        let counts = [
            ("topic_metas", self.metas.len()),
            ("topic_ids", self.ids.len()),
            ("routing_prefixes", self.routing.len()),
            ("compacted_topics", self.compacted.len()),
            ("watermarks", self.watermarks.len()),
            ("next_offsets", self.next_offsets.len()),
            ("coalesced_watermark_floors", self.coalesced_watermarks.len()),
            ("truncate_floors", self.truncate_floors.len()),
        ];
        counts
    }

    /// How many topics and how many partitions something is held of.
    pub fn record_occupancy(&self) -> (counts: (usize, usize))
        ensures
            counts == (count_of(self.metas), count_of(self.watermarks)),
    {
        (self.metas.len(), self.watermarks.len())
    }
}

/// How many entries are reported of a map.
pub open spec fn count_of<K: Key, V>(locked: LockedMap<K, V>) -> usize {
    if locked.poisoned {
        0
    } else {
        locked.map.entries@.len() as usize
    }
}

proof fn lemma_dead_by_partition<V>(
    cache: LockedMap<Topition, V>,
    name: spec_fn((Seq<char>, i32), V) -> Seq<char>,
    live: Set<Seq<char>>,
    topic: Seq<char>,
)
    requires
        forall|key: (Seq<char>, i32), value: V| #[trigger] name(key, value) == key.0,
    ensures
        dead_names(cache, name, live).contains(topic) <==> (!cache.poisoned && !live.contains(topic)
            && exists|partition: i32| #[trigger] cache.map@.dom().contains((topic, partition))),
{
    if dead_names(cache, name, live).contains(topic) {
        let key = choose|key: (Seq<char>, i32)| #[trigger]
            cache.map@.dom().contains(key) && name(key, cache.map@[key]) == topic;
        assert(cache.map@.dom().contains((topic, key.1)));
    }
    if exists|partition: i32| #[trigger] cache.map@.dom().contains((topic, partition)) {
        let partition = choose|partition: i32| #[trigger]
            cache.map@.dom().contains((topic, partition));
        let key = (topic, partition);
        assert(name(key, cache.map@[key]) == topic);
    }
}

proof fn lemma_dead_by_name<V>(
    cache: LockedMap<String, V>,
    name: spec_fn(Seq<char>, V) -> Seq<char>,
    live: Set<Seq<char>>,
    topic: Seq<char>,
)
    requires
        forall|key: Seq<char>, value: V| #[trigger] name(key, value) == key,
    ensures
        dead_names(cache, name, live).contains(topic) <==> (!cache.poisoned && !live.contains(topic)
            && cache.map@.dom().contains(topic)),
{
    if !cache.poisoned && cache.map@.dom().contains(topic) {
        assert(name(topic, cache.map@[topic]) == topic);
    }
}

/// A forgotten topic leaves nothing behind: no entry of it is held, of it, of a
/// partition of it or of its id.
pub proof fn forgetting_leaves_nothing<M, S>(
    before: TopicCaches<M, S>,
    after: TopicCaches<M, S>,
    gone: spec_fn(Seq<char>) -> bool,
    topic: Seq<char>,
)
    requires
        swept(before, after, gone),
        before.unpoisoned(),
        gone(topic),
    ensures
        !after.remembers(topic),
{
}

/// What is held of a topic that is not gone stays.
pub proof fn sweeping_keeps_the_rest<M, S>(
    before: TopicCaches<M, S>,
    after: TopicCaches<M, S>,
    gone: spec_fn(Seq<char>) -> bool,
    topic: Seq<char>,
    partition: i32,
)
    requires
        swept(before, after, gone),
        !gone(topic),
    ensures
        after.metas.at(topic) == before.metas.at(topic),
        after.routing.at(topic) == before.routing.at(topic),
        after.compacted.at(topic) == before.compacted.at(topic),
        forall|id: u128|
            #![trigger after.ids.at(id)]
            before.ids.at(id) matches Some(name) && name@ == topic ==> after.ids.at(id)
                == before.ids.at(id),
        after.watermarks.at((topic, partition)) == before.watermarks.at((topic, partition)),
        after.next_offsets.at((topic, partition)) == before.next_offsets.at((topic, partition)),
        after.coalesced_watermarks.at((topic, partition)) == before.coalesced_watermarks.at(
            (topic, partition),
        ),
        after.truncate_floors.at((topic, partition)) == before.truncate_floors.at(
            (topic, partition),
        ),
{
}

/// Sweeping once for two sets of topics is sweeping for the one and then for the
/// other: a sweep against a listing does what forgetting each missing topic would.
pub proof fn sweeps_compose<M, S>(
    first: TopicCaches<M, S>,
    second: TopicCaches<M, S>,
    third: TopicCaches<M, S>,
    gone: spec_fn(Seq<char>) -> bool,
    also: spec_fn(Seq<char>) -> bool,
)
    requires
        swept(first, second, gone),
        swept(second, third, also),
    ensures
        swept(first, third, |name: Seq<char>| gone(name) || also(name)),
{
    let both = |name: Seq<char>| gone(name) || also(name);
    assert(third.metas.map@ =~= kept(
        first.metas,
        |key: Seq<char>, value: OptiCon<M>| !both(key),
    ));
    assert(third.routing.map@ =~= kept(
        first.routing,
        |key: Seq<char>, value: TopicRouting| !both(key),
    ));
    assert(third.compacted.map@ =~= kept(
        first.compacted,
        |key: Seq<char>, value: (bool, u64)| !both(key),
    ));
    assert(third.ids.map@ =~= kept(first.ids, |key: u128, value: String| !both(value@)));
    assert(third.watermarks.map@ =~= kept(
        first.watermarks,
        |key: (Seq<char>, i32), value: OptiCon<Watermark>| !both(key.0),
    ));
    assert(third.next_offsets.map@ =~= kept(
        first.next_offsets,
        |key: (Seq<char>, i32), value: OffsetHint| !both(key.0),
    ));
    assert(third.coalesced_watermarks.map@ =~= kept(
        first.coalesced_watermarks,
        |key: (Seq<char>, i32), value: CachedWatermark<S>| !both(key.0),
    ));
    assert(third.truncate_floors.map@ =~= kept(
        first.truncate_floors,
        |key: (Seq<char>, i32), value: i64| !both(key.0),
    ));
}

/// The topics that are known are those that something is held of, as long as no lock is
/// poisoned; of a poisoned map nothing is known, and nothing is counted.
pub proof fn what_is_held_is_known<M, S>(caches: TopicCaches<M, S>, topic: Seq<char>)
    ensures
        caches.unpoisoned() ==> (caches.readable_names().contains(topic) <==> caches.remembers(
            topic,
        )),
        caches.readable_names().contains(topic) ==> caches.remembers(topic),
{
}

/// A topic is swept out of a map if and only if something is held of it there and it is
/// not live; what is under a poisoned lock is left.
pub proof fn only_the_dead_are_swept<K: Key, V>(
    cache: LockedMap<K, V>,
    name: spec_fn(K::V, V) -> Seq<char>,
    live: Set<Seq<char>>,
    key: K::V,
)
    requires
        cache.map@.dom().contains(key),
    ensures
        !cache.poisoned && !live.contains(name(key, cache.map@[key])) ==> dead_names(
            cache,
            name,
            live,
        ).contains(name(key, cache.map@[key])),
        live.contains(name(key, cache.map@[key])) ==> !dead_names(cache, name, live).contains(
            name(key, cache.map@[key]),
        ),
        cache.poisoned ==> dead_names(cache, name, live) =~= Set::empty(),
        cache.poisoned ==> count_of(cache) == 0,
{
}

} // verus!
