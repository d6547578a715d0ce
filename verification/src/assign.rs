//! Assigning offsets to what is waiting, and telling what is new from what is in
//! the log already.

use crate::buffer::{pending_view, Pending, PrefixPending};
use crate::error::{Error, ErrorCode};
use crate::fence::{
    arranged, fenced_view, goes_on, is_continued, is_laid_out, served_ranges_are_disjoint, Fenced,
};
use crate::index::{candidate, candidates, positions, positions_in, CachedSegment};
use crate::ordmap::{has_key, lemma_at, lemma_count, lemma_same_keys, map_of, Key, OrdMap};
use crate::producer::{IdempotentClass, ProducerCoord, ProducerTail, Tail};
use crate::retain::fold_coords;
use crate::segment::{
    batches_view, span_of, writes_view, Batch, Entry, Identity, RecordBatch, Substream, SubstreamWrite,
    Topition, Write,
};
use crate::store::DynoStore;
use crate::topics::larger;
use vstd::prelude::*;

verus! {

/// The tail that the coordinates of what serves fold into, in the order of the log. The
/// coordinates of an entry count once, where it first serves.
pub open spec fn fold_log(served: Seq<Fenced>, producer_id: i64) -> Tail
    decreases served.len(),
{
    if served.len() == 0 {
        Tail::unseen()
    } else {
        let last = served.last().entry;
        let before = fold_log(served.drop_last(), producer_id);
        if goes_on(served) {
            before
        } else {
            fold_coords(before, last.producers, producer_id, last.base_offset)
        }
    }
}

/// Fold the coordinates of one producer out of an entry.
fn fold_entry(
    tail: &mut ProducerTail,
    coords: &Vec<ProducerCoord>,
    producer_id: i64,
    base: i64,
)
    requires
        old(tail)@.bounded(),
        forall|j: int|
            #![trigger coords@[j]]
            0 <= j < coords@.len() ==> base + coords@[j].offset_delta <= i64::MAX,
    ensures
        final(tail)@ == fold_coords(old(tail)@, coords@, producer_id, base),
        final(tail)@.bounded(),
{
    let ghost start = tail@;
    let mut at: usize = 0;
    assert(coords@.skip(0) =~= coords@);
    while at < coords.len()
        invariant
            at <= coords@.len(),
            tail@.bounded(),
            forall|j: int|
                #![trigger coords@[j]]
                0 <= j < coords@.len() ==> base + coords@[j].offset_delta <= i64::MAX,
            fold_coords(tail@, coords@.skip(at as int), producer_id, base) == fold_coords(
                start,
                coords@,
                producer_id,
                base,
            ),
        decreases coords@.len() - at,
    {
        let coord = coords[at];
        assert(coords@.skip(at as int)[0] == coord);
        assert(coords@.skip(at as int).skip(1) =~= coords@.skip(at + 1));
        assert(base + coords@[at as int].offset_delta <= i64::MAX);
        if coord.folds() && coord.producer_id == producer_id {
            tail.fold(
                coord.producer_epoch,
                coord.base_sequence,
                coord.last_sequence,
                base + coord.offset_delta as i64,
            );
        }
        at = at + 1;
    }
}

/// What became of a run of a sub-stream's batches.
#[verifier::ext_equal]
pub struct Assigned {
    /// The next offset.
    pub running: int,
    /// The tails of the producers met, with what was admitted folded in.
    pub tails: Map<i64, Tail>,
    /// The batches to write.
    pub batches: Seq<RecordBatch>,
    /// What each batch is answered with.
    pub outcomes: Seq<Result<i64, ErrorCode>>,
}

impl Assigned {
    /// Whether a batch is written, at the next offset.
    pub open spec fn appended(self, batch: RecordBatch, tails: Map<i64, Tail>) -> Assigned {
        Assigned {
            running: self.running + batch.span(),
            tails,
            batches: self.batches.push(batch),
            outcomes: self.outcomes.push(Ok(self.running as i64)),
        }
    }

    /// What becomes of another batch. One that is no producer's is written. An
    /// idempotent one is written if it is next in its producer's sequence, is
    /// answered with its own offset if it is in the log, and is refused if it is
    /// neither or its epoch is over.
    pub open spec fn with(self, batch: RecordBatch, folded: spec_fn(i64) -> Tail) -> Assigned {
        let id = batch.producer_id;
        let tail = if self.tails.dom().contains(id) {
            self.tails[id]
        } else {
            folded(id)
        };
        if !batch.idempotent {
            self.appended(batch, self.tails)
        } else {
            match tail.class(batch.producer_epoch, batch.base_sequence) {
                IdempotentClass::Admit => self.appended(
                    batch,
                    self.tails.insert(
                        id,
                        tail.after(
                            batch.producer_epoch,
                            batch.base_sequence,
                            batch.base_sequence.wrapping_add(batch.last_offset_delta),
                            self.running as i64,
                        ),
                    ),
                ),
                IdempotentClass::Duplicate(offset) => Assigned {
                    tails: self.tails.insert(id, tail),
                    outcomes: self.outcomes.push(Ok(offset)),
                    ..self
                },
                IdempotentClass::OutOfOrder => Assigned {
                    tails: self.tails.insert(id, tail),
                    outcomes: self.outcomes.push(Err(ErrorCode::OutOfOrderSequenceNumber)),
                    ..self
                },
                IdempotentClass::Fenced => Assigned {
                    tails: self.tails.insert(id, tail),
                    outcomes: self.outcomes.push(Err(ErrorCode::ProducerFenced)),
                    ..self
                },
            }
        }
    }
}

/// What becomes of a run of batches from `base` on.
pub open spec fn assigned(
    batches: Seq<RecordBatch>,
    base: int,
    folded: spec_fn(i64) -> Tail,
) -> Assigned
    decreases batches.len(),
{
    if batches.len() == 0 {
        Assigned {
            running: base,
            tails: Map::empty(),
            batches: Seq::empty(),
            outcomes: Seq::empty(),
        }
    } else {
        assigned(batches.drop_last(), base, folded).with(batches.last(), folded)
    }
}

/// The positions of a partition's batches, in the order they came in.
pub open spec fn positions_of(pending: Seq<Pending>, topition: (Seq<char>, i32)) -> Seq<int>
    decreases pending.len(),
{
    if pending.len() == 0 {
        Seq::empty()
    } else if pending.last().topition == topition {
        positions_of(pending.drop_last(), topition).push(pending.len() - 1)
    } else {
        positions_of(pending.drop_last(), topition)
    }
}

/// The batches at positions.
pub open spec fn picked(pending: Seq<Pending>, positions: Seq<int>) -> Seq<RecordBatch> {
    positions.map_values(|at: int| pending[at].batch)
}

/// The views of positions.
pub open spec fn positions_view(positions: Seq<usize>) -> Seq<int> {
    positions.map_values(|at: usize| at as int)
}

/// What is written of one partition, and what its batches are answered with.
#[derive(Debug)]
struct GroupPlan {
    batches: Vec<Batch>,
    outcomes: Vec<Result<i64, ErrorCode>>,
    end: i64,
}

/// What a buffer comes to: what is written, what each batch is answered with, and
/// the next offset of each partition that is written to.
#[derive(Debug)]
pub struct FlushPlan {
    pub substreams: Vec<SubstreamWrite>,
    pub outcomes: Vec<Result<i64, ErrorCode>>,
    pub advances: Vec<(Topition, i64)>,
}

/// The offsets that a batch takes.
pub open spec fn offsets_of(batch: RecordBatch) -> int {
    batch.last_offset_delta + 1
}

/// How far batches raise an offset, if every one of them that does is admitted.
pub open spec fn rise_of(batches: Seq<RecordBatch>) -> int
    decreases batches.len(),
{
    if batches.len() == 0 {
        0
    } else {
        rise_of(batches.drop_last()) + if offsets_of(batches.last()) > 0 {
            offsets_of(batches.last())
        } else {
            0
        }
    }
}

/// How far batches lower an offset, if every one of them that does is admitted. A batch
/// lowers it only where its header declares a negative count.
pub open spec fn fall_of(batches: Seq<RecordBatch>) -> int
    decreases batches.len(),
{
    if batches.len() == 0 {
        0
    } else {
        fall_of(batches.drop_last()) + if offsets_of(batches.last()) < 0 {
            -offsets_of(batches.last())
        } else {
            0
        }
    }
}

/// Whether every offset from `base` on that batches may be assigned is a number.
pub open spec fn has_room(base: i64, batches: Seq<RecordBatch>) -> bool {
    base + rise_of(batches) <= i64::MAX && base - fall_of(batches) >= i64::MIN
}

proof fn lemma_room(batches: Seq<RecordBatch>, count: int)
    requires
        0 <= count <= batches.len(),
    ensures
        0 <= rise_of(batches.take(count)) <= rise_of(batches),
        0 <= fall_of(batches.take(count)) <= fall_of(batches),
        rise_of(batches) <= batches.len() * 0x8000_0000,
        fall_of(batches) <= batches.len() * 0x8000_0000,
    decreases batches.len(),
{
    if batches.len() > 0 {
        let init = batches.drop_last();
        if count == batches.len() {
            assert(batches.take(count) =~= batches);
            lemma_room(init, init.len() as int);
        } else {
            assert(batches.take(count) =~= init.take(count));
            lemma_room(init, count);
        }
    } else {
        assert(batches.take(count) =~= batches);
    }
}

/// Whether every offset from `base` on that batches may be assigned is a number.
pub fn fits_from(base: i64, pending: &Vec<PrefixPending>, positions: &Vec<usize>) -> (fits: bool)
    requires
        forall|k: int|
            #![trigger positions@[k]]
            0 <= k < positions@.len() ==> positions@[k] < pending@.len(),
    ensures
        fits == has_room(base, picked(pending_view(pending@), positions_view(positions@))),
{
    let ghost items = pending_view(pending@);
    let ghost all = picked(items, positions_view(positions@));
    let mut rise: i128 = 0;
    let mut fall: i128 = 0;
    let mut at: usize = 0;
    assert(all.take(0) =~= Seq::empty());
    while at < positions.len()
        invariant
            items == pending_view(pending@),
            all == picked(items, positions_view(positions@)),
            forall|k: int|
                #![trigger positions@[k]]
                0 <= k < positions@.len() ==> positions@[k] < pending@.len(),
            at <= positions@.len(),
            rise == rise_of(all.take(at as int)),
            fall == fall_of(all.take(at as int)),
        decreases positions@.len() - at,
    {
        proof {
            assert(all.take(at + 1).drop_last() =~= all.take(at as int));
            assert(all.take(at + 1).last() == items[positions@[at as int] as int].batch);
            let here = all.take(at as int);
            lemma_room(here, at as int);
            assert(here.take(at as int) =~= here);
        }
        let batch = &pending[positions[at]].batch;
        let records: i128 = batch.last_offset_delta as i128 + 1;
        if records > 0 {
            rise = rise + records;
        } else {
            fall = fall - records;
        }
        at = at + 1;
    }
    proof {
        assert(all.take(at as int) =~= all);
        lemma_room(all, at as int);
    }
    base as i128 + rise <= i64::MAX as i128 && base as i128 - fall >= i64::MIN as i128
}

pub proof fn lemma_positions_of(pending: Seq<Pending>, topition: (Seq<char>, i32))
    ensures
        forall|k: int|
            #![trigger positions_of(pending, topition)[k]]
            0 <= k < positions_of(pending, topition).len() ==> 0 <= positions_of(
                pending,
                topition,
            )[k] < pending.len() && pending[positions_of(pending, topition)[k]].topition
                == topition,
        positions_of(pending, topition).len() <= pending.len(),
        forall|k: int, l: int|
            #![trigger positions_of(pending, topition)[k], positions_of(pending, topition)[l]]
            0 <= k < l < positions_of(pending, topition).len() ==> positions_of(
                pending,
                topition,
            )[k] < positions_of(pending, topition)[l],
        forall|i: int|
            #![trigger pending[i]]
            0 <= i < pending.len() && pending[i].topition == topition ==> positions_of(
                pending,
                topition,
            ).contains(i),
    decreases pending.len(),
{
    if pending.len() > 0 {
        let init = pending.drop_last();
        lemma_positions_of(init, topition);
        let all = positions_of(pending, topition);
        let before = positions_of(init, topition);
        assert forall|k: int| #![trigger all[k]] 0 <= k < all.len() implies 0 <= all[k]
            < pending.len() && pending[all[k]].topition == topition by {
            if k < before.len() {
                assert(all[k] == before[k]);
                assert(init[before[k]] == pending[before[k]]);
            }
        }
        assert forall|k: int, l: int|
            #![trigger all[k], all[l]]
            0 <= k < l < all.len() implies all[k] < all[l] by {
            assert(all[k] == before[k]);
            if l < before.len() {
                assert(all[l] == before[l]);
            }
        }
        assert forall|i: int|
            #![trigger pending[i]]
            0 <= i < pending.len() && pending[i].topition == topition implies all.contains(i) by {
            if i < init.len() {
                assert(init[i] == pending[i]);
                let k = choose|k: int| 0 <= k < before.len() && before[k] == i;
                assert(all[k] == i);
            } else {
                assert(all[all.len() - 1] == i);
            }
        }
    }
}

impl DynoStore {
    /// The tail of a producer in a sub-stream's partition, folded from the index.
    /// It is a function of the segments that serve: processes that know the same
    /// segments fold the same tail.
    pub fn producer_tail_folded(
        &self,
        prefix: &str,
        substream: &Substream,
        partition: i32,
        producer_id: i64,
    ) -> (tail: Result<ProducerTail, Error>)
        requires
            self.wf(),
            self.offsets_in_range(prefix@, (substream@, partition)),
        ensures
            match tail {
                Ok(tail) => !self.prefixes.index.poisoned && tail@ == fold_log(
                    self.served(prefix@, (substream@, partition)),
                    producer_id,
                ) && tail@.bounded(),
                Err(error) => self.prefixes.index.poisoned && error == Error::Poison,
            },
    {
        let segments = match self.valid_substream_segments(prefix, substream, partition) {
            Ok(segments) => segments,
            Err(_) => {
                return Err(Error::Poison);
            },
        };
        let ghost all = fenced_view(segments@);
        proof {
            served_ranges_are_disjoint(
                arranged(self.candidates_of(prefix@, (substream@, partition))),
            );
        }
        let mut tail = ProducerTail::default();
        let mut at: usize = 0;
        assert(all.take(0) =~= Seq::empty());
        while at < segments.len()
            invariant
                at <= segments@.len(),
                all == fenced_view(segments@),
                forall|i: int|
                    0 <= i < segments@.len() ==> (#[trigger] segments@[i])@.entry.in_range()
                        && segments@[i]@.lies_within(),
                is_laid_out(all),
                tail@ == fold_log(all.take(at as int), producer_id),
                tail@.bounded(),
            decreases segments@.len() - at,
        {
            let entry = &segments[at].entry;
            assert(segments@[at as int]@.entry.in_range());
            assert(all.take(at + 1).drop_last() =~= all.take(at as int));
            assert(all.take(at + 1).last() == segments@[at as int]@);
            proof {
                assert forall|j: int|
                    #![trigger entry.producers@[j]]
                    0 <= j < entry.producers@.len() implies entry.base_offset
                    + entry.producers@[j].offset_delta <= i64::MAX by {
                    assert(entry@.producers[j] == entry.producers@[j]);
                }
            }
            if !is_continued(&segments, at) {
                fold_entry(&mut tail, &entry.producers, producer_id, entry.base_offset);
            }
            at = at + 1;
        }
        assert(all.take(at as int) =~= all);
        Ok(tail)
    }

    /// The highest of what the segments of a sub-stream's partition reach, of what
    /// this process knows and of the persisted floor.
    pub open spec fn next_base(
        &self,
        prefix: Seq<char>,
        key: (Identity, i32),
        cached: Option<i64>,
        floor: Option<i64>,
    ) -> i64 {
        let served = self.served(prefix, key);
        let tail = if served.len() > 0 {
            served.last().served_to
        } else {
            0
        };
        let known: i64 = match cached {
            Some(cached) => cached,
            None => 0,
        };
        let persisted: i64 = match floor {
            Some(floor) => floor,
            None => 0,
        };
        if tail >= larger(known, persisted) {
            tail as i64
        } else {
            larger(known, persisted)
        }
    }

    /// The next offset of a partition: the highest of what its segments reach, of
    /// what this process knows and of the persisted floor. An offset that was
    /// assigned is below one of them, so none is assigned twice.
    pub fn leaseless_base(
        &self,
        prefix: &str,
        substream: &Substream,
        partition: i32,
        cached: Option<i64>,
        floor: Option<i64>,
    ) -> (base: Result<i64, Error>)
        requires
            self.wf(),
            self.offsets_in_range(prefix@, (substream@, partition)),
        ensures
            self.prefixes.index.answers(
                base,
                self.next_base(prefix@, (substream@, partition), cached, floor),
            ),
    {
        let known: i64 = match cached {
            Some(cached) => cached,
            None => 0,
        };
        let persisted: i64 = match floor {
            Some(floor) => floor,
            None => 0,
        };
        let least: i64 = if known >= persisted {
            known
        } else {
            persisted
        };
        self.recover_substream_next_offset(prefix, substream, partition, least)
    }

    /// The tails that a sub-stream's partition folds to.
    pub open spec fn folded(&self, prefix: Seq<char>, key: (Identity, i32)) -> spec_fn(i64) -> Tail {
        |id: i64| fold_log(self.served(prefix, key), id)
    }

    /// Assign offsets to the batches of one partition.
    fn plan_group(
        &self,
        prefix: &str,
        substream: &Substream,
        partition: i32,
        base: i64,
        pending: &Vec<PrefixPending>,
        positions: &Vec<usize>,
    ) -> (plan: Result<GroupPlan, Error>)
        requires
            self.wf(),
            self.offsets_in_range(prefix@, (substream@, partition)),
            forall|k: int|
                #![trigger positions@[k]]
                0 <= k < positions@.len() ==> positions@[k] < pending@.len(),
            has_room(base, picked(pending_view(pending@), positions_view(positions@))),
        ensures
            match plan {
                Ok(plan) => {
                    let state = assigned(
                        picked(pending_view(pending@), positions_view(positions@)),
                        base as int,
                        self.folded(prefix@, (substream@, partition)),
                    );
                    &&& !self.prefixes.index.poisoned
                    &&& batches_view(plan.batches@) == state.batches
                    &&& plan.outcomes@ == state.outcomes
                    &&& plan.outcomes@.len() == positions@.len()
                    &&& plan.end == state.running
                },
                Err(error) => self.prefixes.index.poisoned && error == Error::Poison,
            },
    {
        if self.prefixes.index.poisoned {
            return Err(Error::Poison);
        }
        let ghost folded = self.folded(prefix@, (substream@, partition));
        let ghost items = pending_view(pending@);
        let ghost all = picked(items, positions_view(positions@));
        let mut tails: OrdMap<i64, ProducerTail> = OrdMap::new();
        let mut running: i64 = base;
        let mut batches: Vec<Batch> = Vec::new();
        let mut outcomes: Vec<Result<i64, ErrorCode>> = Vec::new();
        let mut at: usize = 0;
        assert(all.take(0) =~= Seq::empty());
        assert(batches_view(batches@) =~= Seq::empty());
        while at < positions.len()
            invariant
                self.wf(),
                !self.prefixes.index.poisoned,
                self.offsets_in_range(prefix@, (substream@, partition)),
                folded == self.folded(prefix@, (substream@, partition)),
                items == pending_view(pending@),
                all == picked(items, positions_view(positions@)),
                forall|k: int|
                    #![trigger positions@[k]]
                    0 <= k < positions@.len() ==> positions@[k] < pending@.len(),
                at <= positions@.len(),
                has_room(base, all),
                tails.wf(),
                ({
                    let state = assigned(all.take(at as int), base as int, folded);
                    &&& running == state.running
                    &&& batches_view(batches@) == state.batches
                    &&& outcomes@ == state.outcomes
                    &&& outcomes@.len() == at
                    &&& tails@.dom() =~= state.tails.dom()
                    &&& forall|id: i64| #[trigger]
                        tails@.dom().contains(id) ==> tails@[id]@ == state.tails[id]
                            && tails@[id]@.bounded()
                }),
                base - fall_of(all.take(at as int)) <= running,
                running <= base + rise_of(all.take(at as int)),
            decreases positions@.len() - at,
        {
            let ghost before = assigned(all.take(at as int), base as int, folded);
            proof {
                assert(all.take(at + 1).drop_last() =~= all.take(at as int));
                assert(all.take(at + 1).last() == items[positions@[at as int] as int].batch);
                lemma_room(all, at as int);
                lemma_room(all, at + 1);
            }
            let index: usize = positions[at];
            let batch = &pending[index].batch;
            assert(batch@ == items[index as int].batch);
            let ghost after = before.with(batch@, folded);
            assert(assigned(all.take(at + 1), base as int, folded) == after);
            let records: i64 = batch.last_offset_delta as i64 + 1;
            let ghost written = batches@;
            if batch.idempotent {
                let id: i64 = batch.producer_id;
                let mut tail = match tails.remove(&id) {
                    Some(tail) => tail,
                    None => match self.producer_tail_folded(prefix, substream, partition, id) {
                        Ok(tail) => tail,
                        Err(_) => {
                            return Err(Error::Poison);
                        },
                    },
                };
                let ghost found = tail@;
                match tail.classify(batch.producer_epoch, batch.base_sequence) {
                    IdempotentClass::Admit => {
                        let last: i32 = batch.base_sequence.wrapping_add(batch.last_offset_delta);
                        outcomes.push(Ok(running));
                        tail.fold(batch.producer_epoch, batch.base_sequence, last, running);
                        running = running + records;
                        batches.push(batch.duplicate());
                        assert(batches_view(batches@) =~= batches_view(written).push(batch@));
                    },
                    IdempotentClass::Duplicate(offset) => {
                        outcomes.push(Ok(offset));
                    },
                    IdempotentClass::OutOfOrder => {
                        outcomes.push(Err(ErrorCode::OutOfOrderSequenceNumber));
                    },
                    IdempotentClass::Fenced => {
                        outcomes.push(Err(ErrorCode::ProducerFenced));
                    },
                }
                let _ = tails.insert(id, tail);
                assert(tails@.dom() =~= after.tails.dom());
            } else {
                outcomes.push(Ok(running));
                running = running + records;
                batches.push(batch.duplicate());
                assert(batches_view(batches@) =~= batches_view(written).push(batch@));
            }
            at = at + 1;
        }
        assert(all.take(at as int) =~= all);
        Ok(GroupPlan { batches, outcomes, end: running })
    }
}

/// What becomes of the batches of one partition. The partition's sub-stream is that
/// of its first batch: every batch of a partition carries the same.
pub open spec fn group_state(
    store: DynoStore,
    prefix: Seq<char>,
    pending: Seq<Pending>,
    topition: (Seq<char>, i32),
    base: i64,
) -> Assigned {
    let positions = positions_of(pending, topition);
    assigned(
        picked(pending, positions),
        base as int,
        store.folded(prefix, (pending[positions[0]].identity, topition.1)),
    )
}

/// What is written of partitions.
pub open spec fn planned_writes(
    store: DynoStore,
    prefix: Seq<char>,
    pending: Seq<Pending>,
    topitions: Seq<(Seq<char>, i32)>,
    bases: Seq<i64>,
) -> Seq<Write>
    decreases topitions.len(),
{
    if topitions.len() == 0 {
        Seq::empty()
    } else {
        let at = topitions.len() - 1;
        let before = planned_writes(store, prefix, pending, topitions.drop_last(), bases);
        let state = group_state(store, prefix, pending, topitions[at], bases[at]);
        if state.batches.len() == 0 {
            before
        } else {
            before.push(
                Write {
                    topic: topitions[at].0,
                    partition: topitions[at].1,
                    identity: pending[positions_of(pending, topitions[at])[0]].identity,
                    base_offset: bases[at],
                    batches: state.batches,
                },
            )
        }
    }
}

/// The next offset of each partition that is written to.
pub open spec fn planned_advances(
    store: DynoStore,
    prefix: Seq<char>,
    pending: Seq<Pending>,
    topitions: Seq<(Seq<char>, i32)>,
    bases: Seq<i64>,
) -> Seq<((Seq<char>, i32), i64)>
    decreases topitions.len(),
{
    if topitions.len() == 0 {
        Seq::empty()
    } else {
        let at = topitions.len() - 1;
        let before = planned_advances(store, prefix, pending, topitions.drop_last(), bases);
        let state = group_state(store, prefix, pending, topitions[at], bases[at]);
        if state.batches.len() == 0 {
            before
        } else {
            before.push((topitions[at], state.running as i64))
        }
    }
}

/// The views of advances.
pub open spec fn advances_view(advances: Seq<(Topition, i64)>) -> Seq<((Seq<char>, i32), i64)> {
    advances.map_values(|advance: (Topition, i64)| (advance.0@, advance.1))
}

/// Whether `groups` holds the positions of every partition's batches.
pub open spec fn groups_pending(
    groups: OrdMap<Topition, Vec<usize>>,
    pending: Seq<Pending>,
) -> bool {
    &&& groups.wf()
    &&& forall|t: (Seq<char>, i32)| #[trigger]
        groups@.dom().contains(t) <==> positions_of(pending, t).len() > 0
    &&& forall|t: (Seq<char>, i32)| #[trigger]
        groups@.dom().contains(t) ==> positions_view(groups@[t]@) == positions_of(pending, t)
}

/// Group what is waiting by partition. Within a partition the order is kept.
pub fn group_pending(pending: &Vec<PrefixPending>) -> (groups: OrdMap<Topition, Vec<usize>>)
    ensures
        groups_pending(groups, pending_view(pending@)),
        groups.entries@.len() <= pending@.len(),
{
    let ghost all = pending_view(pending@);
    let mut groups: OrdMap<Topition, Vec<usize>> = OrdMap::new();
    let mut at: usize = 0;
    while at < pending.len()
        invariant
            at <= pending@.len(),
            all == pending_view(pending@),
            groups_pending(groups, all.take(at as int)),
            groups.entries@.len() <= at,
        decreases pending@.len() - at,
    {
        let topition = &pending[at].topition;
        let ghost before = groups@;
        proof {
            lemma_count(groups.entries@);
        }
        let ghost seen = all.take(at as int);
        let ghost after = all.take(at + 1);
        proof {
            assert(after.drop_last() =~= seen);
            assert(after.last() == pending@[at as int]@);
        }
        let mut positions: Vec<usize> = match groups.remove(topition) {
            Some(positions) => positions,
            None => Vec::new(),
        };
        let ghost held = positions@;
        positions.push(at);
        proof {
            assert(positions_view(held) =~= positions_of(seen, topition@));
            assert(positions_view(positions@) =~= positions_view(held).push(at as int));
        }
        let _ = groups.insert(topition.duplicate(), positions);
        proof {
            lemma_count(groups.entries@);
            assert(groups@.dom() =~= before.dom().insert(topition@));
            assert forall|t: (Seq<char>, i32)| #[trigger]
                groups@.dom().contains(t) <==> positions_of(after, t).len() > 0 by {
                assert(before.dom().contains(t) <==> positions_of(seen, t).len() > 0);
            }
            assert forall|t: (Seq<char>, i32)| #[trigger]
                groups@.dom().contains(t) implies positions_view(groups@[t]@) == positions_of(
                after,
                t,
            ) by {
                if t != topition@ {
                    assert(before.dom().contains(t));
                }
            }
        }
        at = at + 1;
    }
    assert(all.take(at as int) =~= all);
    groups
}

impl DynoStore {
    /// Whether every partition of a grouping can be assigned offsets.
    pub open spec fn assignable(
        &self,
        prefix: Seq<char>,
        pending: Seq<Pending>,
        groups: OrdMap<Topition, Vec<usize>>,
        bases: Seq<i64>,
    ) -> bool {
        &&& bases.len() == groups.entries@.len()
        &&& forall|k: int|
            #![trigger bases[k]]
            0 <= k < bases.len() ==> has_room(
                bases[k],
                picked(pending, positions_of(pending, groups.entries@[k].0@)),
            )
        &&& forall|k: int|
            #![trigger groups.entries@[k]]
            0 <= k < groups.entries@.len() ==> self.offsets_in_range(
                prefix,
                (
                    pending[positions_of(pending, groups.entries@[k].0@)[0]].identity,
                    groups.entries@[k].0@.1,
                ),
            )
    }

    /// Whether a plan is what becomes of a grouping: it writes and advances as
    /// planned, and answers each batch as its partition's assignment has it.
    pub open spec fn plans(
        &self,
        prefix: Seq<char>,
        pending: Seq<Pending>,
        groups: OrdMap<Topition, Vec<usize>>,
        bases: Seq<i64>,
        plan: FlushPlan,
    ) -> bool {
        &&& writes_view(plan.substreams@) == planned_writes(
            *self,
            prefix,
            pending,
            groups.keys(),
            bases,
        )
        &&& advances_view(plan.advances@) == planned_advances(
            *self,
            prefix,
            pending,
            groups.keys(),
            bases,
        )
        &&& plan.outcomes@.len() == pending.len()
        &&& forall|k: int, j: int|
            #![trigger groups.entries@[k].1@[j]]
            0 <= k < groups.entries@.len() && 0 <= j < groups.entries@[k].1@.len()
                ==> plan.outcomes@[groups.entries@[k].1@[j] as int] == group_state(
                *self,
                prefix,
                pending,
                groups.entries@[k].0@,
                bases[k],
            ).outcomes[j]
    }

    /// Assign offsets to what is waiting: to each partition's batches from its base
    /// on, leaving out what is in the log already and what is out of sequence.
    pub fn plan_flush(
        &self,
        prefix: &str,
        pending: &Vec<PrefixPending>,
        groups: &OrdMap<Topition, Vec<usize>>,
        bases: &Vec<i64>,
    ) -> (plan: Result<FlushPlan, Error>)
        requires
            self.wf(),
            groups_pending(*groups, pending_view(pending@)),
            self.assignable(prefix@, pending_view(pending@), *groups, bases@),
        ensures
            match plan {
                Ok(plan) => {
                    &&& !self.prefixes.index.poisoned || pending@.len() == 0
                    &&& self.plans(prefix@, pending_view(pending@), *groups, bases@, plan)
                },
                Err(error) => self.prefixes.index.poisoned && error == Error::Poison,
            },
    {
        let ghost items = pending_view(pending@);
        let ghost keys = groups.keys();
        let mut substreams: Vec<SubstreamWrite> = Vec::new();
        let mut advances: Vec<(Topition, i64)> = Vec::new();
        let mut outcomes: Vec<Result<i64, ErrorCode>> = Vec::new();
        let mut fill: usize = 0;
        while fill < pending.len()
            invariant
                fill <= pending@.len(),
                outcomes@.len() == fill,
            decreases pending@.len() - fill,
        {
            outcomes.push(Ok(0));
            fill = fill + 1;
        }
        let mut at: usize = 0;
        assert(keys.take(0) =~= Seq::empty());
        assert(writes_view(substreams@) =~= Seq::empty());
        assert(advances_view(advances@) =~= Seq::empty());
        while at < groups.entries.len()
            invariant
                self.wf(),
                groups_pending(*groups, pending_view(pending@)),
                self.assignable(prefix@, pending_view(pending@), *groups, bases@),
                items == pending_view(pending@),
                keys == groups.keys(),
                at <= groups.entries@.len(),
                at > 0 ==> !self.prefixes.index.poisoned,
                writes_view(substreams@) == planned_writes(
                    *self,
                    prefix@,
                    items,
                    keys.take(at as int),
                    bases@,
                ),
                advances_view(advances@) == planned_advances(
                    *self,
                    prefix@,
                    items,
                    keys.take(at as int),
                    bases@,
                ),
                outcomes@.len() == items.len(),
                forall|k: int, j: int|
                    #![trigger groups.entries@[k].1@[j]]
                    0 <= k < at && 0 <= j < groups.entries@[k].1@.len()
                        ==> outcomes@[groups.entries@[k].1@[j] as int] == group_state(
                        *self,
                        prefix@,
                        items,
                        groups.entries@[k].0@,
                        bases@[k],
                    ).outcomes[j],
            decreases groups.entries@.len() - at,
        {
            let (topition, positions) = &groups.entries[at];
            let ghost t = topition@;
            let ghost places = positions_of(items, t);
            proof {
                lemma_at(groups.entries@, at as int);
                assert(groups@[t] == *positions);
                lemma_positions_of(items, t);
                assert forall|j: int| #![trigger positions@[j]] 0 <= j < positions@.len() implies {
                    &&& positions@[j] < pending@.len()
                    &&& positions@[j] as int == places[j]
                } by {
                    assert(positions_view(positions@)[j] == places[j]);
                }
                assert(positions@.len() == places.len());
                assert(positions@[0] as int == places[0]);
                assert(keys[at as int] == t);
                assert(keys.take(at + 1).drop_last() =~= keys.take(at as int));
                assert(keys.take(at + 1).last() == t);
            }
            let substream = pending[positions[0]].substream.duplicate();
            assert(substream@ == items[places[0]].identity);
            let base: i64 = bases[at];
            assert(self.offsets_in_range(prefix@, (substream@, t.1)));
            let group = match self.plan_group(
                prefix,
                &substream,
                topition.partition,
                base,
                pending,
                positions,
            ) {
                Ok(group) => group,
                Err(_) => {
                    return Err(Error::Poison);
                },
            };
            let ghost state = group_state(*self, prefix@, items, t, base);
            assert(group.outcomes@ == state.outcomes);
            let ghost settled = outcomes@;
            let mut j: usize = 0;
            while j < positions.len()
                invariant
                    j <= positions@.len(),
                    group.outcomes@.len() == positions@.len(),
                    outcomes@.len() == items.len(),
                    settled.len() == items.len(),
                    places == positions_of(items, t),
                    positions@.len() == places.len(),
                    forall|i: int|
                        #![trigger positions@[i]]
                        0 <= i < positions@.len() ==> positions@[i] < items.len()
                            && positions@[i] as int == places[i],
                    forall|i: int|
                        #![trigger positions@[i]]
                        0 <= i < j ==> outcomes@[positions@[i] as int] == group.outcomes@[i],
                    forall|i: int|
                        #![trigger outcomes@[i]]
                        0 <= i < items.len() && items[i].topition != t ==> outcomes@[i]
                            == settled[i],
                decreases positions@.len() - j,
            {
                let outcome: Result<i64, ErrorCode> = match &group.outcomes[j] {
                    Ok(offset) => Ok(*offset),
                    Err(code) => Err(*code),
                };
                let index: usize = positions[j];
                proof {
                    lemma_positions_of(items, t);
                    assert(places[j as int] == index);
                    assert forall|i: int| #![trigger positions@[i]] 0 <= i < j implies positions@[i]
                        != index by {
                        assert(places[i] < places[j as int]);
                    }
                }
                outcomes.set(index, outcome);
                j = j + 1;
            }
            proof {
                assert forall|k: int, j: int|
                    #![trigger groups.entries@[k].1@[j]]
                    0 <= k < at + 1 && 0 <= j < groups.entries@[k].1@.len() implies outcomes@[groups.entries@[k].1@[j] as int]
                    == group_state(*self, prefix@, items, groups.entries@[k].0@, bases@[k]).outcomes[j] by {
                    if k < at {
                        let other = groups.entries@[k].0@;
                        lemma_at(groups.entries@, k);
                        lemma_positions_of(items, other);
                        assert(positions_view(groups.entries@[k].1@)[j] == positions_of(
                            items,
                            other,
                        )[j]);
                        Topition::before_irreflexive(t);
                        assert(Topition::before(other, t));
                    }
                }
            }
            let ghost written = substreams@;
            let ghost advanced = advances@;
            if group.batches.len() > 0 {
                advances.push((topition.duplicate(), group.end));
                substreams.push(
                    SubstreamWrite {
                        topition: topition.duplicate(),
                        substream,
                        base_offset: base,
                        batches: group.batches,
                    },
                );
                proof {
                    let write = substreams@[written.len() as int];
                    assert(writes_view(substreams@) =~= writes_view(written).push(write@));
                    assert(write@ =~= (Write {
                        topic: t.0,
                        partition: t.1,
                        identity: items[places[0]].identity,
                        base_offset: base,
                        batches: state.batches,
                    }));
                    assert(advances_view(advances@) =~= advances_view(advanced).push(
                        (t, state.running as i64),
                    ));
                }
            } else {
                assert(batches_view(group.batches@).len() == 0);
            }
            at = at + 1;
        }
        assert(keys.take(at as int) =~= keys);
        proof {
            if items.len() > 0 && groups.entries@.len() == 0 {
                lemma_positions_of(items, items[0].topition);
                assert(groups@.dom().contains(items[0].topition));
            }
        }
        Ok(FlushPlan { substreams, outcomes, advances })
    }
}

/// Every batch has an outcome, what is written are some of the batches, and they
/// run from the base to the next offset without a gap.
pub proof fn assigned_offsets_leave_no_gap(
    batches: Seq<RecordBatch>,
    base: int,
    folded: spec_fn(i64) -> Tail,
)
    ensures
        assigned(batches, base, folded).running == base + span_of(
            assigned(batches, base, folded).batches,
        ),
        assigned(batches, base, folded).outcomes.len() == batches.len(),
        assigned(batches, base, folded).batches.len() <= batches.len(),
    decreases batches.len(),
{
    if batches.len() > 0 {
        assigned_offsets_leave_no_gap(batches.drop_last(), base, folded);
        let before = assigned(batches.drop_last(), base, folded);
        let after = assigned(batches, base, folded);
        if after.batches.len() != before.batches.len() {
            assert(after.batches.drop_last() =~= before.batches);
        }
    }
}

proof fn lemma_position_in(entries: Seq<Entry>, seq: u64, key: (Identity, i32), i: int)
    requires
        0 <= i < positions_in(entries, seq, key).len(),
    ensures
        positions_in(entries, seq, key)[i].0 == seq,
    decreases entries.len(),
{
    if i < positions_in(entries.drop_last(), seq, key).len() {
        lemma_position_in(entries.drop_last(), seq, key, i);
    }
}

proof fn lemma_position(segments: Seq<(u64, CachedSegment)>, key: (Identity, i32), i: int)
    requires
        0 <= i < positions(segments, key).len(),
    ensures
        has_key(segments, positions(segments, key)[i].0),
    decreases segments.len(),
{
    let init = segments.drop_last();
    let before = positions(init, key);
    let last = segments.last();
    let seq = positions(segments, key)[i].0;
    if i < before.len() {
        lemma_position(init, key, i);
        let w = choose|w: int| 0 <= w < init.len() && (#[trigger] init[w]).0@ == seq;
        assert(segments[w].0@ == seq);
    } else {
        lemma_position_in(last.1.footer@.entries, last.0, key, i - before.len());
        assert(segments[segments.len() - 1].0@ == seq);
    }
}

proof fn lemma_same_positions(
    a: Seq<(u64, CachedSegment)>,
    b: Seq<(u64, CachedSegment)>,
    key: (Identity, i32),
)
    requires
        a.len() == b.len(),
        forall|i: int|
            #![trigger a[i], b[i]]
            0 <= i < a.len() ==> a[i].0 == b[i].0 && a[i].1@ == b[i].1@,
    ensures
        positions(a, key) == positions(b, key),
    decreases a.len(),
{
    if a.len() > 0 {
        lemma_same_positions(a.drop_last(), b.drop_last(), key);
        assert(a[a.len() - 1].1@ == b[b.len() - 1].1@);
    }
}

/// Processes whose indexes hold the same segments of a prefix fold the same tails of
/// it, whatever the order in which they came to know them.
pub proof fn tails_converge(a: DynoStore, b: DynoStore, prefix: Seq<char>, key: (Identity, i32))
    requires
        a.wf(),
        b.wf(),
        a.prefixes.state_of(prefix).segments == b.prefixes.state_of(prefix).segments,
    ensures
        a.folded(prefix, key) == b.folded(prefix, key),
{
    let no_segments = Seq::<(u64, CachedSegment)>::empty();
    let left = match a.prefixes.index.at(prefix) {
        Some(index) => index.segments.entries@,
        None => no_segments,
    };
    let right = match b.prefixes.index.at(prefix) {
        Some(index) => index.segments.entries@,
        None => no_segments,
    };
    let held = a.prefixes.state_of(prefix).segments;
    assert(map_of(no_segments).dom() =~= Set::empty());
    assert(held.dom() =~= map_of(left).dom());
    assert(b.prefixes.state_of(prefix).segments.dom() =~= map_of(right).dom());
    lemma_same_keys(left, right);
    assert forall|i: int|
        #![trigger left[i], right[i]]
        0 <= i < left.len() implies left[i].0 == right[i].0 && left[i].1@ == right[i].1@ by {
        lemma_at(left, i);
        lemma_at(right, i);
        assert(left[i].0@ == right[i].0@);
        assert(held[left[i].0] == left[i].1@);
    }
    lemma_same_positions(left, right, key);
    assert(a.candidates_of(prefix, key) =~= candidates(left, key));
    assert(b.candidates_of(prefix, key) =~= candidates(right, key));
    let places = positions(left, key);
    assert forall|i: int| 0 <= i < places.len() implies candidate(left, #[trigger] places[i])
        == candidate(right, places[i]) by {
        let at = places[i];
        lemma_position(left, key, i);
        let w = choose|w: int| 0 <= w < left.len() && (#[trigger] left[w]).0@ == at.0;
        lemma_at(left, w);
        lemma_at(right, w);
        assert(left[w].1@ == right[w].1@);
    }
    assert(candidates(left, key) =~= candidates(right, key));
    assert(a.folded(prefix, key) =~= b.folded(prefix, key));
}

proof fn lemma_outcomes_stay(
    batches: Seq<RecordBatch>,
    base: int,
    folded: spec_fn(i64) -> Tail,
    k: int,
)
    requires
        0 <= k <= batches.len(),
    ensures
        ({
            let early = assigned(batches.take(k), base, folded);
            let all = assigned(batches, base, folded);
            &&& early.outcomes == all.outcomes.take(k)
            &&& early.batches.len() <= all.batches.len()
            &&& early.batches == all.batches.take(early.batches.len() as int)
            &&& all.outcomes.len() == batches.len()
        }),
    decreases batches.len(),
{
    assigned_offsets_leave_no_gap(batches, base, folded);
    let all = assigned(batches, base, folded);
    if k == batches.len() {
        assert(batches.take(k) =~= batches);
        assert(all.outcomes.take(k) =~= all.outcomes);
        assert(all.batches.take(all.batches.len() as int) =~= all.batches);
    } else {
        let init = batches.drop_last();
        lemma_outcomes_stay(init, base, folded, k);
        assert(init.take(k) =~= batches.take(k));
        let before = assigned(init, base, folded);
        let early = assigned(batches.take(k), base, folded);
        assert(before.outcomes.take(k) =~= all.outcomes.take(k));
        assert(before.batches.take(early.batches.len() as int) =~= all.batches.take(
            early.batches.len() as int,
        ));
    }
}

/// What each batch is answered. One that is no producer's is written at the next
/// offset, and so is one that is next in its producer's sequence, which the tail then
/// tells; a duplicate is answered with the offset that it has, and one out of order or
/// of an epoch that is over with its error, and nothing is written of any of the three.
/// The tail is the one that the log folds to, until a batch of the producer was met.
pub proof fn each_batch_is_answered(
    batches: Seq<RecordBatch>,
    base: int,
    folded: spec_fn(i64) -> Tail,
    k: int,
)
    requires
        0 <= k < batches.len(),
    ensures
        ({
            let batch = batches[k];
            let id = batch.producer_id;
            let before = assigned(batches.take(k), base, folded);
            let after = assigned(batches.take(k + 1), base, folded);
            let outcome = assigned(batches, base, folded).outcomes[k];
            let tail = if before.tails.dom().contains(id) {
                before.tails[id]
            } else {
                folded(id)
            };
            let class = tail.class(batch.producer_epoch, batch.base_sequence);
            let written = !batch.idempotent || class is Admit;
            &&& written ==> {
                &&& outcome == Ok::<i64, ErrorCode>(before.running as i64)
                &&& after.batches == before.batches.push(batch)
                &&& after.running == before.running + batch.last_offset_delta + 1
            }
            &&& !written ==> after.batches == before.batches && after.running == before.running
            &&& !written ==> match class {
                IdempotentClass::Duplicate(offset) => outcome == Ok::<i64, ErrorCode>(offset),
                IdempotentClass::OutOfOrder => outcome == Err::<i64, ErrorCode>(
                    ErrorCode::OutOfOrderSequenceNumber,
                ),
                _ => outcome == Err::<i64, ErrorCode>(ErrorCode::ProducerFenced),
            }
            &&& written && batch.idempotent ==> after.tails.dom().contains(id) && after.tails[id]
                == tail.after(
                batch.producer_epoch,
                batch.base_sequence,
                batch.base_sequence.wrapping_add(batch.last_offset_delta),
                before.running as i64,
            )
            &&& !written ==> after.tails.dom().contains(id) && after.tails[id] == tail
            &&& forall|other: i64|
                other != id || !batch.idempotent ==> (#[trigger] after.tails.dom().contains(other)
                    <==> before.tails.dom().contains(other)) && after.tails[other]
                    == before.tails[other]
            &&& assigned(batches.take(0), base, folded).running == base
            &&& assigned(batches.take(0), base, folded).tails == Map::<i64, Tail>::empty()
        }),
{
    let more = batches.take(k + 1);
    assert(more.drop_last() =~= batches.take(k));
    assert(more.last() == batches[k]);
    lemma_outcomes_stay(batches, base, folded, k + 1);
    assigned_offsets_leave_no_gap(batches.take(k), base, folded);
    let after = assigned(more, base, folded);
    let all = assigned(batches, base, folded);
    assert(all.outcomes.take(k + 1)[k] == all.outcomes[k]);
}

/// Batches that are no producer's are all written, in the order they came in, each at
/// the base and the records before it.
pub proof fn plain_batches_are_written_in_order(
    batches: Seq<RecordBatch>,
    base: int,
    folded: spec_fn(i64) -> Tail,
    k: int,
)
    requires
        forall|i: int| 0 <= i < batches.len() ==> !(#[trigger] batches[i]).idempotent,
        0 <= k < batches.len(),
    ensures
        assigned(batches, base, folded).batches == batches,
        assigned(batches, base, folded).outcomes[k] == Ok::<i64, ErrorCode>(
            (base + span_of(batches.take(k))) as i64,
        ),
    decreases batches.len(),
{
    let init = batches.drop_last();
    assert forall|i: int| 0 <= i < init.len() implies !(#[trigger] init[i]).idempotent by {
        assert(init[i] == batches[i]);
    }
    assigned_offsets_leave_no_gap(init, base, folded);
    assert(!batches[batches.len() - 1].idempotent);
    if init.len() > 0 {
        plain_batches_are_written_in_order(
            init,
            base,
            folded,
            if k < init.len() {
                k
            } else {
                0
            },
        );
    } else {
        assert(init =~= Seq::empty());
        assert(assigned(init, base, folded).batches =~= init);
    }
    assert(init.push(batches.last()) =~= batches);
    if k < init.len() {
        assert(init.take(k) =~= batches.take(k));
    } else {
        assert(batches.take(k) =~= init);
    }
}

/// No offset is assigned twice: the base of a flush is at or past all that serves, all
/// that this process assigned and the persisted floor, and is one of them, or zero
/// where there is none of them.
pub proof fn a_base_is_past_all_that_is_known(
    store: DynoStore,
    prefix: Seq<char>,
    key: (Identity, i32),
    cached: Option<i64>,
    floor: Option<i64>,
)
    requires
        forall|i: int|
            0 <= i < store.served(prefix, key).len() ==> i64::MIN <= (#[trigger] store.served(
                prefix,
                key,
            )[i]).served_to <= i64::MAX,
    ensures
        ({
            let base = store.next_base(prefix, key, cached, floor);
            let served = store.served(prefix, key);
            &&& cached matches Some(known) ==> base >= known
            &&& floor matches Some(persisted) ==> base >= persisted
            &&& base >= 0 || (served.len() > 0 && cached is Some && floor is Some)
            &&& forall|i: int| 0 <= i < served.len() ==> base >= (#[trigger] served[i]).served_to
            &&& base == 0 || cached == Some(base) || floor == Some(base) || (served.len() > 0
                && base == served.last().served_to)
            &&& base == 0 ==> served.len() == 0 || cached is None || floor is None || cached == Some(
                0i64,
            ) || floor == Some(0i64) || served.last().served_to == 0
        }),
{
    let served = store.served(prefix, key);
    served_ranges_are_disjoint(arranged(store.candidates_of(prefix, key)));
    if served.len() > 0 {
        let last = served.len() - 1;
        assert(served[last].served_to <= i64::MAX);
        assert forall|i: int| 0 <= i < served.len() implies (#[trigger] served[i]).served_to
            <= served[last].served_to by {
            if i < last {
                assert(served[i].served_to <= served[last].served_from);
            }
        }
    }
}

/// The coordinates of an entry count once in the log: a piece of an entry that serves
/// before it too adds nothing, and any other folds the entry's coordinates behind what
/// was folded before it. A log that nothing serves knows no producer.
pub proof fn an_entry_is_folded_once(served: Seq<Fenced>, next: Fenced, id: i64)
    ensures
        fold_log(Seq::empty(), id) == Tail::unseen(),
        (exists|i: int|
            0 <= i < served.len() && (#[trigger] served[i]).seq == next.seq && served[i].entry
                == next.entry) ==> fold_log(served.push(next), id) == fold_log(served, id),
        !(exists|i: int|
            0 <= i < served.len() && (#[trigger] served[i]).seq == next.seq && served[i].entry
                == next.entry) ==> fold_log(served.push(next), id) == fold_coords(
            fold_log(served, id),
            next.entry.producers,
            id,
            next.entry.base_offset,
        ),
{
    let all = served.push(next);
    assert(all.drop_last() =~= served);
    assert(all.last() == next);
    if exists|i: int|
        0 <= i < served.len() && (#[trigger] served[i]).seq == next.seq && served[i].entry
            == next.entry {
        let i = choose|i: int|
            0 <= i < served.len() && (#[trigger] served[i]).seq == next.seq && served[i].entry
                == next.entry;
        assert(all[i].is_of_one_entry(all.last()));
    } else if goes_on(all) {
        let i = choose|i: int|
            0 <= i < all.len() - 1 && (#[trigger] all[i]).is_of_one_entry(all.last());
        assert(served[i] == all[i]);
    }
}

/// Whether a write is what a partition's batches come to.
pub open spec fn is_write_of(
    store: DynoStore,
    prefix: Seq<char>,
    pending: Seq<Pending>,
    topition: (Seq<char>, i32),
    base: i64,
    write: Write,
) -> bool {
    let positions = positions_of(pending, topition);
    &&& write.topic == topition.0
    &&& write.partition == topition.1
    &&& write.identity == pending[positions[0]].identity
    &&& write.base_offset == base
    &&& write.batches == assigned(
        picked(pending, positions),
        base as int,
        store.folded(prefix, (pending[positions[0]].identity, topition.1)),
    ).batches
    &&& write.batches.len() > 0
}

/// A partition is written from its base, with all of its batches that are admitted, and
/// its next offset is behind them. A partition of which none is admitted is neither
/// written nor advanced; of every other there is one write.
pub proof fn every_partition_is_written_and_advanced(
    store: DynoStore,
    prefix: Seq<char>,
    pending: Seq<Pending>,
    topitions: Seq<(Seq<char>, i32)>,
    bases: Seq<i64>,
)
    requires
        bases.len() >= topitions.len(),
    ensures
        ({
            let writes = planned_writes(store, prefix, pending, topitions, bases);
            let advances = planned_advances(store, prefix, pending, topitions, bases);
            &&& writes.len() == advances.len()
            &&& writes.len() <= topitions.len()
            &&& forall|i: int|
                0 <= i < writes.len() ==> (#[trigger] advances[i]) == (
                    (writes[i].topic, writes[i].partition),
                    (writes[i].base_offset + span_of(writes[i].batches)) as i64,
                )
            &&& forall|i: int|
                0 <= i < writes.len() ==> exists|k: int|
                    0 <= k < topitions.len() && is_write_of(
                        store,
                        prefix,
                        pending,
                        #[trigger] topitions[k],
                        bases[k],
                        #[trigger] writes[i],
                    )
            &&& forall|k: int|
                0 <= k < topitions.len() && group_state(
                    store,
                    prefix,
                    pending,
                    #[trigger] topitions[k],
                    bases[k],
                ).batches.len() > 0 ==> exists|i: int|
                    0 <= i < writes.len() && is_write_of(
                        store,
                        prefix,
                        pending,
                        topitions[k],
                        bases[k],
                        #[trigger] writes[i],
                    )
        }),
    decreases topitions.len(),
{
    if topitions.len() > 0 {
        let init = topitions.drop_last();
        let at = topitions.len() - 1;
        every_partition_is_written_and_advanced(store, prefix, pending, init, bases);
        let before = planned_writes(store, prefix, pending, init, bases);
        let had = planned_advances(store, prefix, pending, init, bases);
        let writes = planned_writes(store, prefix, pending, topitions, bases);
        let advances = planned_advances(store, prefix, pending, topitions, bases);
        let state = group_state(store, prefix, pending, topitions[at], bases[at]);
        let positions = positions_of(pending, topitions[at]);
        assigned_offsets_leave_no_gap(
            picked(pending, positions),
            bases[at] as int,
            store.folded(prefix, (pending[positions[0]].identity, topitions[at].1)),
        );
        assert forall|i: int| 0 <= i < writes.len() implies exists|k: int|
            0 <= k < topitions.len() && is_write_of(
                store,
                prefix,
                pending,
                #[trigger] topitions[k],
                bases[k],
                #[trigger] writes[i],
            ) by {
            if i < before.len() {
                assert(writes[i] == before[i]);
                let k = choose|k: int|
                    0 <= k < init.len() && is_write_of(
                        store,
                        prefix,
                        pending,
                        #[trigger] init[k],
                        bases[k],
                        before[i],
                    );
                assert(topitions[k] == init[k]);
            } else {
                assert(is_write_of(store, prefix, pending, topitions[at], bases[at], writes[i]));
            }
        }
        assert forall|i: int| 0 <= i < writes.len() implies (#[trigger] advances[i]) == (
            (writes[i].topic, writes[i].partition),
            (writes[i].base_offset + span_of(writes[i].batches)) as i64,
        ) by {
            if i < before.len() {
                assert(writes[i] == before[i]);
                assert(advances[i] == had[i]);
            }
        }
        assert forall|k: int|
            0 <= k < topitions.len() && group_state(
                store,
                prefix,
                pending,
                #[trigger] topitions[k],
                bases[k],
            ).batches.len() > 0 implies exists|i: int|
            0 <= i < writes.len() && is_write_of(
                store,
                prefix,
                pending,
                topitions[k],
                bases[k],
                #[trigger] writes[i],
            ) by {
            if k < at {
                assert(init[k] == topitions[k]);
                let i = choose|i: int|
                    0 <= i < before.len() && is_write_of(
                        store,
                        prefix,
                        pending,
                        init[k],
                        bases[k],
                        #[trigger] before[i],
                    );
                assert(writes[i] == before[i]);
            } else {
                assert(is_write_of(
                    store,
                    prefix,
                    pending,
                    topitions[k],
                    bases[k],
                    writes[before.len() as int],
                ));
            }
        }
    }
}

/// Batches whose counts are no less than zero have room wherever their last offset is
/// one, and only there.
pub proof fn what_ends_in_range_has_room(base: i64, batches: Seq<RecordBatch>)
    requires
        forall|i: int|
            0 <= i < batches.len() ==> (#[trigger] batches[i]).last_offset_delta >= -1,
    ensures
        has_room(base, batches) <==> base + span_of(batches) <= i64::MAX,
{
    lemma_rise(batches);
}

proof fn lemma_rise(batches: Seq<RecordBatch>)
    requires
        forall|i: int|
            0 <= i < batches.len() ==> (#[trigger] batches[i]).last_offset_delta >= -1,
    ensures
        rise_of(batches) == span_of(batches),
        fall_of(batches) == 0,
    decreases batches.len(),
{
    if batches.len() > 0 {
        let init = batches.drop_last();
        assert forall|i: int|
            0 <= i < init.len() implies (#[trigger] init[i]).last_offset_delta >= -1 by {
            assert(init[i] == batches[i]);
        }
        lemma_rise(init);
        assert(batches[batches.len() - 1].last_offset_delta >= -1);
    }
}

} // verus!
