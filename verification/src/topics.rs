//! The caches of what is known of topics, of their partitions and of their ids.
//!
//! Every entry is a hint or a memo whose authority is in the object store. What
//! ends its life is the end of the topic: [`TopicCaches::forget`] for one topic,
//! [`TopicCaches::retain_live`] for all that a listing did not show.

use crate::clock::{fresh, is_fresh};
use crate::error::Error;
use crate::locked::{kept, lemma_kept_same, LockedMap};
use crate::opticon::OptiCon;
use crate::ordmap::{Key, OrdMap};
use crate::path::{path_from, path_of};
use crate::segment::{Identity, Substream, Topition};
use crate::text::{padded_signed, signed_decimal, zero_padded};
use std::sync::Arc;
use vstd::prelude::*;
use vstd::string::*;

verus! {

/// Where a topic's records are written, for its lifetime.
#[derive(Debug)]
pub struct TopicRouting {
    pub prefix: String,
    pub substream: Substream,
}

/// The mathematical routing.
#[verifier::ext_equal]
pub struct Routing {
    pub prefix: Seq<char>,
    pub identity: Identity,
}

impl View for TopicRouting {
    type V = Routing;

    open spec fn view(&self) -> Routing {
        Routing { prefix: self.prefix@, identity: self.substream@ }
    }
}

impl TopicRouting {
    pub fn duplicate(&self) -> (copy: Self)
        ensures
            copy@ == self@,
    {
        TopicRouting { prefix: self.prefix.clone(), substream: self.substream.duplicate() }
    }
}

/// The persisted watermark of a partition.
#[derive(Clone, Copy, Debug, PartialEq, Eq, Structural)]
pub struct Watermark {
    pub low: Option<i64>,
    pub high: Option<i64>,
    /// Below this offset nothing is served.
    pub truncate: Option<i64>,
}

/// The next offset to assign, as far as is known here.
#[derive(Clone, Copy, Debug, PartialEq, Eq, Structural)]
pub struct OffsetHint {
    pub next: i64,
    /// When a listing last confirmed it.
    pub listed_at: Option<u64>,
}

/// A watermark read under a certified floor.
#[derive(Clone, Copy, Debug)]
pub struct CachedWatermark<S> {
    pub high: i64,
    pub served: Option<S>,
    pub seq_floor: u64,
}

/// All topics, as a listing showed them.
#[derive(Debug)]
pub struct TopicIndex<M> {
    /// Each topic's document, with the tag it was read at.
    pub entries: OrdMap<String, (Option<String>, M)>,
    pub snapshot: Arc<Vec<M>>,
    pub refreshed_at: Option<u64>,
    pub poisoned: bool,
}

/// The caches. `M` is the document of a topic, `S` what certifies a served end.
#[derive(Debug)]
pub struct TopicCaches<M, S> {
    pub metas: LockedMap<String, OptiCon<M>>,
    pub ids: LockedMap<u128, String>,
    pub routing: LockedMap<String, TopicRouting>,
    /// Whether a topic is compacted, and when that was read.
    pub compacted: LockedMap<String, (bool, u64)>,
    pub watermarks: LockedMap<Topition, OptiCon<Watermark>>,
    pub next_offsets: LockedMap<Topition, OffsetHint>,
    pub coalesced_watermarks: LockedMap<Topition, CachedWatermark<S>>,
    pub truncate_floors: LockedMap<Topition, i64>,
    pub index: TopicIndex<M>,
}

/// The larger of two offsets.
pub open spec fn larger(a: i64, b: i64) -> i64 {
    if a >= b {
        a
    } else {
        b
    }
}

/// The hint that is held, or that of a partition nothing is known of.
pub open spec fn hint_or_default(hint: Option<OffsetHint>) -> OffsetHint {
    match hint {
        Some(hint) => hint,
        None => OffsetHint { next: 0, listed_at: None },
    }
}

/// A floor that is raised.
pub open spec fn raised(held: Option<i64>, floor: i64) -> i64 {
    match held {
        Some(held) => larger(held, floor),
        None => floor,
    }
}

/// The hint after a local produce.
pub open spec fn produced(held: Option<OffsetHint>, high: i64) -> OffsetHint {
    OffsetHint {
        next: larger(hint_or_default(held).next, high),
        listed_at: hint_or_default(held).listed_at,
    }
}

/// The hint after a listing, whose data was observed at `as_of`.
pub open spec fn listed(held: Option<OffsetHint>, high: i64, as_of: u64) -> OffsetHint {
    OffsetHint { next: larger(hint_or_default(held).next, high), listed_at: Some(as_of) }
}

/// The next offset that a hint tells, if a listing confirmed it within `ttl`.
pub open spec fn confirmed(held: Option<OffsetHint>, now: u64, ttl: u64) -> Option<i64> {
    match held {
        Some(hint) => if fresh(hint.listed_at, now, ttl) {
            Some(hint.next)
        } else {
            None
        },
        None => None,
    }
}

/// What a cached watermark tells under a floor.
pub open spec fn certified<S>(held: Option<CachedWatermark<S>>, floor: u64) -> Option<
    (i64, Option<S>),
> {
    match held {
        Some(cached) => if cached.seq_floor == floor {
            Some((cached.high, cached.served))
        } else {
            None
        },
        None => None,
    }
}

/// Whether a topic is compacted, if that was read within `ttl`.
pub open spec fn checked(held: Option<(bool, u64)>, now: u64, ttl: u64) -> Option<bool> {
    match held {
        Some((compacted, checked_at)) => if fresh(Some(checked_at), now, ttl) {
            Some(compacted)
        } else {
            None
        },
        None => None,
    }
}

/// The object that holds a topic's document.
pub open spec fn topic_metadata_path(cluster: Seq<char>, topic: Seq<char>) -> Seq<char> {
    path_of("clusters/"@ + cluster + "/topic-metadata/"@ + topic + ".json"@)
}

/// The object that holds a partition's watermark.
pub open spec fn watermark_path(cluster: Seq<char>, topition: (Seq<char>, i32)) -> Seq<char> {
    path_of(
        "clusters/"@ + cluster + "/topics/"@ + topition.0 + "/partitions/"@ + zero_padded(
            signed_decimal(topition.1 as int),
            10,
        ) + "/watermark.json"@,
    )
}

/// Whether `after` is `before` without the entries of the topics that are gone,
/// but for what is under a poisoned lock.
pub open spec fn swept<M, S>(
    before: TopicCaches<M, S>,
    after: TopicCaches<M, S>,
    gone: spec_fn(Seq<char>) -> bool,
) -> bool {
    &&& after.metas.map@ == kept(before.metas, |topic: Seq<char>, meta: OptiCon<M>| !gone(topic))
    &&& after.routing.map@ == kept(
        before.routing,
        |topic: Seq<char>, routing: TopicRouting| !gone(topic),
    )
    &&& after.compacted.map@ == kept(
        before.compacted,
        |topic: Seq<char>, memo: (bool, u64)| !gone(topic),
    )
    &&& after.ids.map@ == kept(before.ids, |id: u128, topic: String| !gone(topic@))
    &&& after.watermarks.map@ == kept(
        before.watermarks,
        |topition: (Seq<char>, i32), watermark: OptiCon<Watermark>| !gone(topition.0),
    )
    &&& after.next_offsets.map@ == kept(
        before.next_offsets,
        |topition: (Seq<char>, i32), hint: OffsetHint| !gone(topition.0),
    )
    &&& after.coalesced_watermarks.map@ == kept(
        before.coalesced_watermarks,
        |topition: (Seq<char>, i32), cached: CachedWatermark<S>| !gone(topition.0),
    )
    &&& after.truncate_floors.map@ == kept(
        before.truncate_floors,
        |topition: (Seq<char>, i32), floor: i64| !gone(topition.0),
    )
    &&& after.same_locks(before)
    &&& after.index == before.index
}

impl<M, S> TopicCaches<M, S> {
    pub open spec fn wf(&self) -> bool {
        &&& self.metas.wf()
        &&& self.ids.wf()
        &&& self.routing.wf()
        &&& self.compacted.wf()
        &&& self.watermarks.wf()
        &&& self.next_offsets.wf()
        &&& self.coalesced_watermarks.wf()
        &&& self.truncate_floors.wf()
        &&& self.index.entries.wf()
    }

    /// Whether the same locks are poisoned.
    pub open spec fn same_locks(self, other: Self) -> bool {
        &&& self.metas.poisoned == other.metas.poisoned
        &&& self.ids.poisoned == other.ids.poisoned
        &&& self.routing.poisoned == other.routing.poisoned
        &&& self.compacted.poisoned == other.compacted.poisoned
        &&& self.watermarks.poisoned == other.watermarks.poisoned
        &&& self.next_offsets.poisoned == other.next_offsets.poisoned
        &&& self.coalesced_watermarks.poisoned == other.coalesced_watermarks.poisoned
        &&& self.truncate_floors.poisoned == other.truncate_floors.poisoned
    }

    /// Whether no lock is poisoned.
    pub open spec fn unpoisoned(self) -> bool {
        &&& !self.metas.poisoned
        &&& !self.ids.poisoned
        &&& !self.routing.poisoned
        &&& !self.compacted.poisoned
        &&& !self.watermarks.poisoned
        &&& !self.next_offsets.poisoned
        &&& !self.coalesced_watermarks.poisoned
        &&& !self.truncate_floors.poisoned
    }

    /// Whether an entry is held of the topic.
    pub open spec fn remembers(self, topic: Seq<char>) -> bool {
        ||| self.metas.map@.dom().contains(topic)
        ||| self.routing.map@.dom().contains(topic)
        ||| self.compacted.map@.dom().contains(topic)
        ||| exists|id: u128| #[trigger]
            self.ids.map@.dom().contains(id) && self.ids.map@[id]@ == topic
        ||| exists|partition: i32| #[trigger]
            self.watermarks.map@.dom().contains((topic, partition))
        ||| exists|partition: i32| #[trigger]
            self.next_offsets.map@.dom().contains((topic, partition))
        ||| exists|partition: i32| #[trigger]
            self.coalesced_watermarks.map@.dom().contains((topic, partition))
        ||| exists|partition: i32| #[trigger]
            self.truncate_floors.map@.dom().contains((topic, partition))
    }

    /// Caches that hold nothing.
    pub fn new() -> (caches: Self)
        ensures
            caches.wf(),
            caches.unpoisoned(),
            forall|topic: Seq<char>| !#[trigger] caches.remembers(topic),
            caches.ids.map@ == Map::<u128, String>::empty(),
            caches.index.entries.wf(),
            caches.index.entries@ == Map::<Seq<char>, (Option<String>, M)>::empty(),
            caches.index.snapshot@ == Seq::<M>::empty(),
            caches.index.refreshed_at is None,
            !caches.index.poisoned,
    {
        TopicCaches {
            metas: LockedMap::new(),
            ids: LockedMap::new(),
            routing: LockedMap::new(),
            compacted: LockedMap::new(),
            watermarks: LockedMap::new(),
            next_offsets: LockedMap::new(),
            coalesced_watermarks: LockedMap::new(),
            truncate_floors: LockedMap::new(),
            index: TopicIndex {
                entries: OrdMap::new(),
                snapshot: Arc::new(Vec::new()),
                refreshed_at: None,
                poisoned: false,
            },
        }
    }

    /// The handle on a topic's document, a new one where the topic was not read
    /// here yet.
    pub fn meta(&mut self, cluster: &str, topic: &str) -> (handle: Result<&mut OptiCon<M>, Error>)
        requires
            old(self).wf(),
        ensures
            final(self).wf(),
            *final(self) == (TopicCaches { metas: final(self).metas, ..*old(self) }),
            final(self).metas.poisoned == old(self).metas.poisoned,
            match handle {
                Ok(handle) => {
                    &&& !old(self).metas.poisoned
                    &&& match old(self).metas.at(topic@) {
                        Some(held) => *handle == held,
                        None => handle.path@ == topic_metadata_path(cluster@, topic@)
                            && handle.data_version is None,
                    }
                    &&& final(self).metas.map@ == old(self).metas.map@.insert(
                        topic@,
                        *final(handle),
                    )
                },
                Err(error) => old(self).metas.poisoned && error == Error::Poison
                    && final(self).metas == old(self).metas,
            },
    {
        if self.metas.poisoned {
            return Err(Error::Poison);
        }
        let key = String::from_str(topic);
        if !self.metas.map.contains(&key) {
            let mut text = String::from_str("clusters/");
            text.append(cluster);
            text.append("/topic-metadata/");
            text.append(topic);
            text.append(".json");
            let _ = self.metas.map.insert(
                key.clone(),
                OptiCon::path(path_from(text.as_str())),
            );
        }
        let ghost ready = self.metas.map@;
        let (at, _held) = self.metas.map.find(&key);
        proof {
            assert forall|value: OptiCon<M>|
                #[trigger] ready.insert(topic@, value) == old(self).metas.map@.insert(topic@, value) by {
                assert(ready.insert(topic@, value) =~= old(self).metas.map@.insert(topic@, value));
            }
        }
        Ok(self.metas.map.value_mut(at))
    }

    /// The handle on a partition's watermark, a new one where the partition was
    /// not read here yet.
    pub fn watermark(&mut self, cluster: &str, topition: &Topition) -> (handle: Result<
        &mut OptiCon<Watermark>,
        Error,
    >)
        requires
            old(self).wf(),
        ensures
            final(self).wf(),
            *final(self) == (TopicCaches { watermarks: final(self).watermarks, ..*old(self) }),
            final(self).watermarks.poisoned == old(self).watermarks.poisoned,
            match handle {
                Ok(handle) => {
                    &&& !old(self).watermarks.poisoned
                    &&& match old(self).watermarks.at(topition@) {
                        Some(held) => *handle == held,
                        None => handle.path@ == watermark_path(cluster@, topition@)
                            && handle.data_version is None,
                    }
                    &&& final(self).watermarks.map@ == old(self).watermarks.map@.insert(
                        topition@,
                        *final(handle),
                    )
                },
                Err(error) => old(self).watermarks.poisoned && error == Error::Poison
                    && final(self).watermarks == old(self).watermarks,
            },
    {
        if self.watermarks.poisoned {
            return Err(Error::Poison);
        }
        if !self.watermarks.map.contains(topition) {
            let mut text = String::from_str("clusters/");
            text.append(cluster);
            text.append("/topics/");
            text.append(topition.topic());
            text.append("/partitions/");
            text.append(padded_signed(topition.partition as i64, 10).as_str());
            text.append("/watermark.json");
            let _ = self.watermarks.map.insert(
                topition.duplicate(),
                OptiCon::path(path_from(text.as_str())),
            );
        }
        let ghost ready = self.watermarks.map@;
        let (at, _held) = self.watermarks.map.find(topition);
        proof {
            assert forall|value: OptiCon<Watermark>|
                #[trigger] ready.insert(topition@, value) == old(self).watermarks.map@.insert(
                    topition@,
                    value,
                ) by {
                assert(ready.insert(topition@, value) =~= old(self).watermarks.map@.insert(
                    topition@,
                    value,
                ));
            }
        }
        Ok(self.watermarks.map.value_mut(at))
    }

    /// The floor that a partition's cached watermark carries, without a handle
    /// for a partition that was not read.
    pub fn watermark_truncate(&self, topition: &Topition) -> (floor: Result<Option<i64>, Error>)
        requires
            self.wf(),
        ensures
            self.watermarks.answers(
                floor,
                match self.watermarks.at(topition@) {
                    Some(handle) => match handle.document() {
                        Some(watermark) => Some(
                            match watermark.truncate {
                                Some(floor) => floor,
                                None => 0,
                            },
                        ),
                        None => None,
                    },
                    None => None,
                },
            ),
    {
        if self.watermarks.poisoned {
            return Err(Error::Poison);
        }
        match self.watermarks.map.get(topition) {
            Some(handle) => match handle.get_opt() {
                Some(watermark) => match watermark.truncate {
                    Some(floor) => Ok(Some(floor)),
                    None => Ok(Some(0)),
                },
                None => Ok(None),
            },
            None => Ok(None),
        }
    }

    /// The floor that was memoized for a partition.
    pub fn truncate_floor(&self, topition: &Topition) -> (floor: Result<Option<i64>, Error>)
        requires
            self.wf(),
        ensures
            self.truncate_floors.answers(floor, self.truncate_floors.at(topition@)),
    {
        if self.truncate_floors.poisoned {
            return Err(Error::Poison);
        }
        match self.truncate_floors.map.get(topition) {
            Some(floor) => Ok(Some(*floor)),
            None => Ok(None),
        }
    }

    /// Memoize a floor, unless a higher one is.
    pub fn memo_truncate_floor(&mut self, topition: &Topition, floor: i64) -> (done: Result<
        (),
        Error,
    >)
        requires
            old(self).wf(),
        ensures
            final(self).wf(),
            *final(self) == (TopicCaches {
                truncate_floors: final(self).truncate_floors,
                ..*old(self)
            }),
            old(self).truncate_floors.answers(done, ()),
            final(self).truncate_floors.poisoned == old(self).truncate_floors.poisoned,
            old(self).truncate_floors.poisoned ==> *final(self) == *old(self),
            !old(self).truncate_floors.poisoned ==> final(self).truncate_floors.map@ == old(
                self,
            ).truncate_floors.map@.insert(
                topition@,
                raised(old(self).truncate_floors.at(topition@), floor),
            ),
    {
        if self.truncate_floors.poisoned {
            return Err(Error::Poison);
        }
        let value: i64 = match self.truncate_floors.map.get(topition) {
            Some(held) => if *held >= floor {
                *held
            } else {
                floor
            },
            None => floor,
        };
        let _ = self.truncate_floors.map.insert(topition.duplicate(), value);
        Ok(())
    }

    /// The next offset of a partition, however old the hint.
    pub fn high(&self, topition: &Topition) -> (high: Result<Option<i64>, Error>)
        requires
            self.wf(),
        ensures
            self.next_offsets.answers(
                high,
                match self.next_offsets.at(topition@) {
                    Some(hint) => Some(hint.next),
                    None => None,
                },
            ),
    {
        if self.next_offsets.poisoned {
            return Err(Error::Poison);
        }
        match self.next_offsets.map.get(topition) {
            Some(hint) => Ok(Some(hint.next)),
            None => Ok(None),
        }
    }

    /// The next offset of a partition, if a listing confirmed it within `ttl`.
    pub fn high_fresh(&self, topition: &Topition, ttl: u64, now: u64) -> (high: Result<
        Option<i64>,
        Error,
    >)
        requires
            self.wf(),
        ensures
            self.next_offsets.answers(
                high,
                confirmed(self.next_offsets.at(topition@), now, ttl),
            ),
    {
        if self.next_offsets.poisoned {
            return Err(Error::Poison);
        }
        match self.next_offsets.map.get(topition) {
            Some(hint) => if is_fresh(hint.listed_at, now, ttl) {
                Ok(Some(hint.next))
            } else {
                Ok(None)
            },
            None => Ok(None),
        }
    }

    /// Advance the next offset after a local produce. It never goes back, and
    /// when a listing confirmed it stays as it was.
    pub fn set_high(&mut self, topition: &Topition, high: i64) -> (done: Result<(), Error>)
        requires
            old(self).wf(),
        ensures
            final(self).wf(),
            *final(self) == (TopicCaches { next_offsets: final(self).next_offsets, ..*old(self) }),
            old(self).next_offsets.answers(done, ()),
            final(self).next_offsets.poisoned == old(self).next_offsets.poisoned,
            old(self).next_offsets.poisoned ==> *final(self) == *old(self),
            !old(self).next_offsets.poisoned ==> final(self).next_offsets.map@ == old(
                self,
            ).next_offsets.map@.insert(
                topition@,
                produced(old(self).next_offsets.at(topition@), high),
            ),
    {
        if self.next_offsets.poisoned {
            return Err(Error::Poison);
        }
        let held = self.hint_of(topition);
        let next: i64 = if held.next >= high {
            held.next
        } else {
            high
        };
        let _ = self.next_offsets.map.insert(
            topition.duplicate(),
            OffsetHint { next, listed_at: held.listed_at },
        );
        Ok(())
    }

    /// Advance the next offset after a listing, whose data was observed at
    /// `as_of`.
    pub fn mark_listed(&mut self, topition: &Topition, high: i64, as_of: u64) -> (done: Result<
        (),
        Error,
    >)
        requires
            old(self).wf(),
        ensures
            final(self).wf(),
            *final(self) == (TopicCaches { next_offsets: final(self).next_offsets, ..*old(self) }),
            old(self).next_offsets.answers(done, ()),
            final(self).next_offsets.poisoned == old(self).next_offsets.poisoned,
            old(self).next_offsets.poisoned ==> *final(self) == *old(self),
            !old(self).next_offsets.poisoned ==> final(self).next_offsets.map@ == old(
                self,
            ).next_offsets.map@.insert(
                topition@,
                listed(old(self).next_offsets.at(topition@), high, as_of),
            ),
    {
        if self.next_offsets.poisoned {
            return Err(Error::Poison);
        }
        let held = self.hint_of(topition);
        let next: i64 = if held.next >= high {
            held.next
        } else {
            high
        };
        let _ = self.next_offsets.map.insert(
            topition.duplicate(),
            OffsetHint { next, listed_at: Some(as_of) },
        );
        Ok(())
    }

    fn hint_of(&self, topition: &Topition) -> (hint: OffsetHint)
        requires
            self.wf(),
        ensures
            hint == hint_or_default(self.next_offsets.at(topition@)),
    {
        match self.next_offsets.map.get(topition) {
            Some(hint) => *hint,
            None => OffsetHint { next: 0, listed_at: None },
        }
    }

    /// The cached watermark of a partition, if it was read under the floor that
    /// still is certified.
    pub fn coalesced_watermark(&self, topition: &Topition, floor: u64) -> (cached: Result<
        Option<(i64, Option<S>)>,
        Error,
    >) where S: Copy
        requires
            self.wf(),
        ensures
            self.coalesced_watermarks.answers(
                cached,
                certified(self.coalesced_watermarks.at(topition@), floor),
            ),
    {
        if self.coalesced_watermarks.poisoned {
            return Err(Error::Poison);
        }
        match self.coalesced_watermarks.map.get(topition) {
            Some(cached) => if cached.seq_floor == floor {
                Ok(Some((cached.high, cached.served)))
            } else {
                Ok(None)
            },
            None => Ok(None),
        }
    }

    /// Cache a watermark, under a floor that was certified when it was read.
    pub fn cache_coalesced_watermark(
        &mut self,
        topition: &Topition,
        high: i64,
        served: Option<S>,
        floor: u64,
    ) -> (done: Result<(), Error>)
        requires
            old(self).wf(),
        ensures
            final(self).wf(),
            *final(self) == (TopicCaches {
                coalesced_watermarks: final(self).coalesced_watermarks,
                ..*old(self)
            }),
            old(self).coalesced_watermarks.answers(done, ()),
            final(self).coalesced_watermarks.poisoned == old(self).coalesced_watermarks.poisoned,
            old(self).coalesced_watermarks.poisoned ==> *final(self) == *old(self),
            !old(self).coalesced_watermarks.poisoned ==> final(self).coalesced_watermarks.map@
                == old(self).coalesced_watermarks.map@.insert(
                topition@,
                (CachedWatermark { high, served, seq_floor: floor }),
            ),
    {
        if self.coalesced_watermarks.poisoned {
            return Err(Error::Poison);
        }
        let _ = self.coalesced_watermarks.map.insert(
            topition.duplicate(),
            CachedWatermark { high, served, seq_floor: floor },
        );
        Ok(())
    }

    /// Drop the next offset and the cached watermark of each partition. Where the
    /// lock of the first is poisoned nothing is dropped; where that of the second
    /// is, the first are.
    pub fn forget_hints(&mut self, topitions: &Vec<Topition>) -> (done: Result<(), Error>)
        requires
            old(self).wf(),
        ensures
            final(self).wf(),
            *final(self) == (TopicCaches {
                next_offsets: final(self).next_offsets,
                coalesced_watermarks: final(self).coalesced_watermarks,
                ..*old(self)
            }),
            done == if old(self).next_offsets.poisoned || old(self).coalesced_watermarks.poisoned {
                Err::<(), Error>(Error::Poison)
            } else {
                Ok::<(), Error>(())
            },
            final(self).same_locks(*old(self)),
            final(self).next_offsets.map@ == if old(self).next_offsets.poisoned {
                old(self).next_offsets.map@
            } else {
                old(self).next_offsets.map@.remove_keys(named(topitions@))
            },
            final(self).coalesced_watermarks.map@ == if old(self).next_offsets.poisoned || old(
                self,
            ).coalesced_watermarks.poisoned {
                old(self).coalesced_watermarks.map@
            } else {
                old(self).coalesced_watermarks.map@.remove_keys(named(topitions@))
            },
    {
        if self.next_offsets.poisoned {
            return Err(Error::Poison);
        }
        drop_all(&mut self.next_offsets.map, topitions);
        if self.coalesced_watermarks.poisoned {
            return Err(Error::Poison);
        }
        drop_all(&mut self.coalesced_watermarks.map, topitions);
        Ok(())
    }

    /// Drop what a new partition must not have from another of its name: the next
    /// offset, the cached watermark and the floor.
    pub fn forget_partition(&mut self, topition: &Topition) -> (done: Result<(), Error>)
        requires
            old(self).wf(),
        ensures
            final(self).wf(),
            *final(self) == (TopicCaches {
                next_offsets: final(self).next_offsets,
                coalesced_watermarks: final(self).coalesced_watermarks,
                truncate_floors: final(self).truncate_floors,
                ..*old(self)
            }),
            done == if old(self).next_offsets.poisoned || old(self).coalesced_watermarks.poisoned
                || old(self).truncate_floors.poisoned {
                Err::<(), Error>(Error::Poison)
            } else {
                Ok::<(), Error>(())
            },
            final(self).same_locks(*old(self)),
            final(self).next_offsets.map@ == if old(self).next_offsets.poisoned {
                old(self).next_offsets.map@
            } else {
                old(self).next_offsets.map@.remove(topition@)
            },
            final(self).coalesced_watermarks.map@ == if old(self).next_offsets.poisoned || old(
                self,
            ).coalesced_watermarks.poisoned {
                old(self).coalesced_watermarks.map@
            } else {
                old(self).coalesced_watermarks.map@.remove(topition@)
            },
            final(self).truncate_floors.map@ == if done is Err {
                old(self).truncate_floors.map@
            } else {
                old(self).truncate_floors.map@.remove(topition@)
            },
    {
        let mut one: Vec<Topition> = Vec::new();
        one.push(topition.duplicate());
        proof {
            assert(one@[0]@ == topition@);
            assert(named(one@) =~= set![topition@]);
            assert(self.next_offsets.map@.remove_keys(set![topition@])
                =~= self.next_offsets.map@.remove(topition@));
            assert(self.coalesced_watermarks.map@.remove_keys(set![topition@])
                =~= self.coalesced_watermarks.map@.remove(topition@));
        }
        if self.forget_hints(&one).is_err() {
            return Err(Error::Poison);
        }
        if self.truncate_floors.poisoned {
            return Err(Error::Poison);
        }
        let _ = self.truncate_floors.map.remove(topition);
        Ok(())
    }

    /// The name of the topic with an id, if it was resolved here.
    pub fn topic_id(&self, id: u128) -> (topic: Option<String>)
        requires
            self.wf(),
        ensures
            match topic {
                Some(topic) => !self.ids.poisoned && self.ids.map@.dom().contains(id)
                    && self.ids.map@[id]@ == topic@,
                None => self.ids.poisoned || !self.ids.map@.dom().contains(id),
            },
    {
        if self.ids.poisoned {
            return None;
        }
        match self.ids.map.get(&id) {
            Some(topic) => Some(topic.clone()),
            None => None,
        }
    }

    /// Memoize the name of the topic with an id.
    pub fn remember_topic_id(&mut self, id: u128, topic: String)
        requires
            old(self).wf(),
        ensures
            final(self).wf(),
            *final(self) == (TopicCaches { ids: final(self).ids, ..*old(self) }),
            final(self).ids.poisoned == old(self).ids.poisoned,
            final(self).ids.map@ == if old(self).ids.poisoned {
                old(self).ids.map@
            } else {
                old(self).ids.map@.insert(id, topic)
            },
    {
        if !self.ids.poisoned {
            let _ = self.ids.map.insert(id, topic);
        }
    }

    /// The routing of a topic, if it was resolved here.
    pub fn routing(&self, topic: &str) -> (routing: Result<Option<TopicRouting>, Error>)
        requires
            self.wf(),
        ensures
            match routing {
                Ok(Some(routing)) => !self.routing.poisoned && self.routing.map@.dom().contains(
                    topic@,
                ) && self.routing.map@[topic@]@ == routing@,
                Ok(None) => !self.routing.poisoned && !self.routing.map@.dom().contains(topic@),
                Err(error) => self.routing.poisoned && error == Error::Poison,
            },
    {
        if self.routing.poisoned {
            return Err(Error::Poison);
        }
        match self.routing.map.get(&String::from_str(topic)) {
            Some(routing) => Ok(Some(routing.duplicate())),
            None => Ok(None),
        }
    }

    /// Memoize the routing of a topic, for as long as the topic lives.
    pub fn remember_routing(&mut self, topic: String, pinned: TopicRouting)
        requires
            old(self).wf(),
        ensures
            final(self).wf(),
            *final(self) == (TopicCaches { routing: final(self).routing, ..*old(self) }),
            final(self).routing.poisoned == old(self).routing.poisoned,
            final(self).routing.map@ == if old(self).routing.poisoned {
                old(self).routing.map@
            } else {
                old(self).routing.map@.insert(topic@, pinned)
            },
    {
        if !self.routing.poisoned {
            let _ = self.routing.map.insert(topic, pinned);
        }
    }

    /// Whether a topic is compacted, if that was read within `ttl`.
    pub fn compacted(&self, topic: &str, ttl: u64, now: u64) -> (compacted: Result<
        Option<bool>,
        Error,
    >)
        requires
            self.wf(),
        ensures
            self.compacted.answers(
                compacted,
                checked(self.compacted.at(topic@), now, ttl),
            ),
    {
        if self.compacted.poisoned {
            return Err(Error::Poison);
        }
        match self.compacted.map.get(&String::from_str(topic)) {
            Some((compacted, checked_at)) => if is_fresh(Some(*checked_at), now, ttl) {
                Ok(Some(*compacted))
            } else {
                Ok(None)
            },
            None => Ok(None),
        }
    }

    /// Memoize whether a topic is compacted, as of now.
    pub fn remember_compacted(&mut self, topic: String, compacted: bool, now: u64)
        requires
            old(self).wf(),
        ensures
            final(self).wf(),
            *final(self) == (TopicCaches { compacted: final(self).compacted, ..*old(self) }),
            final(self).compacted.poisoned == old(self).compacted.poisoned,
            final(self).compacted.map@ == if old(self).compacted.poisoned {
                old(self).compacted.map@
            } else {
                old(self).compacted.map@.insert(topic@, (compacted, now))
            },
    {
        if !self.compacted.poisoned {
            let _ = self.compacted.map.insert(topic, (compacted, now));
        }
    }

    /// All topics, if they were listed within `ttl`.
    pub fn fresh_index(&self, ttl: u64, now: u64) -> (snapshot: Result<Option<Arc<Vec<M>>>, Error>)
        ensures
            match snapshot {
                Ok(Some(snapshot)) => !self.index.poisoned && fresh(
                    self.index.refreshed_at,
                    now,
                    ttl,
                ) && snapshot == self.index.snapshot,
                Ok(None) => !self.index.poisoned && !fresh(self.index.refreshed_at, now, ttl),
                Err(error) => self.index.poisoned && error == Error::Poison,
            },
    {
        if self.index.poisoned {
            return Err(Error::Poison);
        }
        if is_fresh(self.index.refreshed_at, now, ttl) {
            Ok(Some(self.index.snapshot.clone()))
        } else {
            Ok(None)
        }
    }

    /// The index, unless its lock is poisoned.
    pub fn with_index(&self) -> (index: Result<&TopicIndex<M>, Error>)
        ensures
            match index {
                Ok(index) => !self.index.poisoned && *index == self.index,
                Err(error) => self.index.poisoned && error == Error::Poison,
            },
    {
        if self.index.poisoned {
            Err(Error::Poison)
        } else {
            Ok(&self.index)
        }
    }

    /// Replace the index, as of now.
    pub fn replace_index(
        &mut self,
        entries: OrdMap<String, (Option<String>, M)>,
        snapshot: Arc<Vec<M>>,
        now: u64,
    ) -> (done: Result<(), Error>)
        requires
            old(self).wf(),
            entries.wf(),
        ensures
            final(self).wf(),
            *final(self) == (TopicCaches { index: final(self).index, ..*old(self) }),
            old(self).index.poisoned ==> done == Err::<(), Error>(Error::Poison) && *final(self)
                == *old(self),
            !old(self).index.poisoned ==> done is Ok && final(self).index == (TopicIndex {
                entries,
                snapshot,
                refreshed_at: Some(now),
                poisoned: false,
            }),
    {
        if self.index.poisoned {
            return Err(Error::Poison);
        }
        self.index = TopicIndex { entries, snapshot, refreshed_at: Some(now), poisoned: false };
        Ok(())
    }

    /// Make the next read of the index list the topics.
    pub fn invalidate_index(&mut self)
        ensures
            *final(self) == (TopicCaches { index: final(self).index, ..*old(self) }),
            final(self).index == if old(self).index.poisoned {
                old(self).index
            } else {
                (TopicIndex { refreshed_at: None, ..old(self).index })
            },
    {
        if !self.index.poisoned {
            self.index.refreshed_at = None;
        }
    }

    /// Drop every entry of a topic, of its partitions and of its id: the topic is
    /// gone.
    pub fn forget(&mut self, topic: &str)
        requires
            old(self).wf(),
        ensures
            final(self).wf(),
            swept(*old(self), *final(self), |name: Seq<char>| name == topic@),
    {
        let ghost before = *self;
        let name = String::from_str(topic);
        let own = |key: &String, _value: &OptiCon<M>| -> (keeps: bool)
            ensures
                keeps == (key@ != topic@),
            { !key.same(&name) };
        self.metas.keep_where(own, Ghost(|key: Seq<char>, value: OptiCon<M>| key != topic@));
        let own = |key: &String, _value: &TopicRouting| -> (keeps: bool)
            ensures
                keeps == (key@ != topic@),
            { !key.same(&name) };
        self.routing.keep_where(own, Ghost(|key: Seq<char>, value: TopicRouting| key != topic@));
        let own = |key: &String, _value: &(bool, u64)| -> (keeps: bool)
            ensures
                keeps == (key@ != topic@),
            { !key.same(&name) };
        self.compacted.keep_where(own, Ghost(|key: Seq<char>, value: (bool, u64)| key != topic@));
        let own = |_key: &u128, value: &String| -> (keeps: bool)
            ensures
                keeps == (value@ != topic@),
            { !value.same(&name) };
        self.ids.keep_where(own, Ghost(|key: u128, value: String| value@ != topic@));
        let own = |key: &Topition, _value: &OptiCon<Watermark>| -> (keeps: bool)
            ensures
                keeps == (key@.0 != topic@),
            { !key.topic.same(&name) };
        self.watermarks.keep_where(
            own,
            Ghost(|key: (Seq<char>, i32), value: OptiCon<Watermark>| key.0 != topic@),
        );
        let own = |key: &Topition, _value: &OffsetHint| -> (keeps: bool)
            ensures
                keeps == (key@.0 != topic@),
            { !key.topic.same(&name) };
        self.next_offsets.keep_where(
            own,
            Ghost(|key: (Seq<char>, i32), value: OffsetHint| key.0 != topic@),
        );
        let own = |key: &Topition, _value: &CachedWatermark<S>| -> (keeps: bool)
            ensures
                keeps == (key@.0 != topic@),
            { !key.topic.same(&name) };
        self.coalesced_watermarks.keep_where(
            own,
            Ghost(|key: (Seq<char>, i32), value: CachedWatermark<S>| key.0 != topic@),
        );
        let own = |key: &Topition, _value: &i64| -> (keeps: bool)
            ensures
                keeps == (key@.0 != topic@),
            { !key.topic.same(&name) };
        self.truncate_floors.keep_where(
            own,
            Ghost(|key: (Seq<char>, i32), value: i64| key.0 != topic@),
        );
        proof {
            let gone = |name: Seq<char>| name == topic@;
            lemma_kept_same(
                before.metas,
                |key: Seq<char>, value: OptiCon<M>| key != topic@,
                |key: Seq<char>, value: OptiCon<M>| !gone(key),
            );
            lemma_kept_same(
                before.routing,
                |key: Seq<char>, value: TopicRouting| key != topic@,
                |key: Seq<char>, value: TopicRouting| !gone(key),
            );
            lemma_kept_same(
                before.compacted,
                |key: Seq<char>, value: (bool, u64)| key != topic@,
                |key: Seq<char>, value: (bool, u64)| !gone(key),
            );
            lemma_kept_same(
                before.ids,
                |key: u128, value: String| value@ != topic@,
                |key: u128, value: String| !gone(value@),
            );
            lemma_kept_same(
                before.watermarks,
                |key: (Seq<char>, i32), value: OptiCon<Watermark>| key.0 != topic@,
                |key: (Seq<char>, i32), value: OptiCon<Watermark>| !gone(key.0),
            );
            lemma_kept_same(
                before.next_offsets,
                |key: (Seq<char>, i32), value: OffsetHint| key.0 != topic@,
                |key: (Seq<char>, i32), value: OffsetHint| !gone(key.0),
            );
            lemma_kept_same(
                before.coalesced_watermarks,
                |key: (Seq<char>, i32), value: CachedWatermark<S>| key.0 != topic@,
                |key: (Seq<char>, i32), value: CachedWatermark<S>| !gone(key.0),
            );
            lemma_kept_same(
                before.truncate_floors,
                |key: (Seq<char>, i32), value: i64| key.0 != topic@,
                |key: (Seq<char>, i32), value: i64| !gone(key.0),
            );
        }
    }
}

/// The partitions of a list.
pub open spec fn named(topitions: Seq<Topition>) -> Set<(Seq<char>, i32)> {
    Set::new(
        |topition: (Seq<char>, i32)|
            exists|i: int| 0 <= i < topitions.len() && (#[trigger] topitions[i])@ == topition,
    )
}

/// Drop the entry of each partition of a list.
fn drop_all<V>(map: &mut OrdMap<Topition, V>, topitions: &Vec<Topition>)
    requires
        old(map).wf(),
    ensures
        final(map).wf(),
        final(map)@ == old(map)@.remove_keys(named(topitions@)),
{
    let ghost before = map@;
    let mut at: usize = 0;
    proof {
        assert(named(topitions@.take(0)) =~= Set::empty());
        assert(map@ =~= before.remove_keys(named(topitions@.take(0))));
    }
    while at < topitions.len()
        invariant
            at <= topitions@.len(),
            map.wf(),
            map@ == before.remove_keys(named(topitions@.take(at as int))),
        decreases topitions@.len() - at,
    {
        let ghost held = map@;
        let _ = map.remove(&topitions[at]);
        proof {
            let done = topitions@.take(at as int);
            let more = topitions@.take(at + 1);
            let last = topitions@[at as int]@;
            assert forall|t: (Seq<char>, i32)| #[trigger] named(more).contains(t) <==> (named(
                done,
            ).contains(t) || t == last) by {
                if named(more).contains(t) {
                    let i = choose|i: int| 0 <= i < more.len() && (#[trigger] more[i])@ == t;
                    if i < at {
                        assert(done[i]@ == t);
                    }
                }
                if named(done).contains(t) {
                    let i = choose|i: int| 0 <= i < done.len() && (#[trigger] done[i])@ == t;
                    assert(more[i]@ == t);
                }
                assert(more[at as int]@ == last);
            }
            assert(map@ =~= before.remove_keys(named(more)));
        }
        at = at + 1;
    }
    assert(topitions@.take(at as int) =~= topitions@);
}

/// A floor is never lowered: it is the highest of what was memoized.
pub proof fn a_floor_is_never_lowered(held: Option<i64>, floor: i64)
    ensures
        raised(held, floor) >= floor,
        held is Some ==> raised(held, floor) >= held->0,
        raised(held, floor) == floor || Some(raised(held, floor)) == held,
{
}

/// The next offset of a partition never goes back, whether a produce or a listing tells
/// of it, and is the highest that was told, from zero on. A produce does not confirm it:
/// only a listing says when it was seen.
pub proof fn a_next_offset_never_goes_back(
    held: Option<OffsetHint>,
    high: i64,
    as_of: u64,
    now: u64,
    ttl: u64,
)
    ensures
        produced(held, high).next >= high,
        produced(held, high).next >= 0 || held is Some,
        held is Some ==> produced(held, high).next >= held->0.next,
        produced(held, high).next == high || (held is Some && produced(held, high).next
            == held->0.next) || (held is None && produced(held, high).next == 0),
        listed(held, high, as_of).next == produced(held, high).next,
        listed(held, high, as_of).listed_at == Some(as_of),
        held is Some ==> produced(held, high).listed_at == held->0.listed_at,
        held is None ==> produced(held, high).listed_at is None,
        confirmed(Some(produced(held, high)), now, ttl) is Some <==> confirmed(held, now, ttl)
            is Some,
        as_of <= now && now - as_of < ttl ==> confirmed(
            Some(listed(held, high, as_of)),
            now,
            ttl,
        ) == Some(listed(held, high, as_of).next),
        now - as_of >= ttl ==> confirmed(Some(listed(held, high, as_of)), now, ttl) is None,
        confirmed(None, now, ttl) is None,
{
}

/// A cached watermark tells what was cached, under the floor that it was read under, and
/// nothing under any other.
pub proof fn a_watermark_is_told_under_its_floor<S>(
    high: i64,
    served: Option<S>,
    seq_floor: u64,
    floor: u64,
)
    ensures
        certified(Some(CachedWatermark { high, served, seq_floor }), floor) == if floor
            == seq_floor {
            Some((high, served))
        } else {
            None
        },
        certified::<S>(None, floor) is None,
{
}

/// Whether a topic is compacted is told as it was read, for as long as that is young.
pub proof fn a_memo_is_told_while_young(compacted: bool, checked_at: u64, now: u64, ttl: u64)
    ensures
        checked_at <= now && now - checked_at < ttl ==> checked(
            Some((compacted, checked_at)),
            now,
            ttl,
        ) == Some(compacted),
        now < checked_at || now - checked_at >= ttl ==> checked(
            Some((compacted, checked_at)),
            now,
            ttl,
        ) is None,
        checked(None, now, ttl) is None,
{
}

} // verus!
