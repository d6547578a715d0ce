//! A flush from its first attempt to the last answer. Whoever creates a segment at a
//! sequence first has its offsets: no lease is held, and a writer that lost a sequence
//! learns what won it before it claims the next.

use crate::assign::{
    a_base_is_past_all_that_is_known, assigned, assigned_offsets_leave_no_gap, fits_from,
    group_pending, groups_pending, has_room, lemma_positions_of, picked, planned_writes,
    positions_of, positions_view, FlushPlan,
};
use crate::buffer::{Pending, PrefixCoalesceBuffer};
use crate::encode::{
    answers, entries_of, footer_of, is_writable, refusal, segment_of,
    what_cannot_be_written_is_refused,
};
use crate::error::{Error, ErrorCode};
use crate::flush::{Attempt, FlushAttempts, SegmentCreate, Verdict};
use crate::index::pruned_footer;
use crate::ordmap::{lemma_at, OrdMap};
use crate::prefixes::PrefixCaches;
use crate::random::fresh_nonce;
use crate::refresh::IndexState;
use crate::segment::{writes_view, Footer, Identity, SegmentFooter, Topition, Write};
use crate::store::DynoStore;
use crate::topics::TopicCaches;
use vstd::prelude::*;

verus! {

/// A segment that a create was asked for.
#[derive(Debug)]
pub struct Claim {
    pub candidate: u64,
    pub footer: SegmentFooter,
    pub plan: FlushPlan,
}

/// A flush that is under way.
#[derive(Debug)]
pub struct Flush {
    pub buffer: PrefixCoalesceBuffer,
    /// The positions of each partition's batches.
    pub groups: OrdMap<Topition, Vec<usize>>,
    /// By which the writer tells its own segment from a peer's.
    pub nonce: u64,
    pub attempts: FlushAttempts,
    /// What the create that is not answered yet is of.
    pub claim: Option<Claim>,
}

/// Where an attempt stands, once the index is folded.
#[derive(Debug)]
pub struct Located {
    /// The next free sequence.
    pub candidate: u64,
    /// The epoch that the prefix is written under.
    pub era: i64,
    /// The persisted next offset of each partition, in the order of the groups.
    pub floors: Vec<Option<i64>>,
}

/// What came of a step of a flush.
#[derive(Debug)]
pub enum FlushEvent {
    /// An attempt is due, so many milliseconds after the first.
    Due(u64),
    /// The footer of the segment that won was folded, or was not.
    Folded(bool),
    /// The index was refreshed.
    Refreshed(Result<(), Error>),
    /// The next free sequence and what goes with it were found.
    Located(Result<Located, Error>),
    /// The create was answered, by an attempt that took so many milliseconds.
    Created { create: SegmentCreate, took: u64, last_modified_ms: i64, now: u64 },
}

/// What to do about a flush.
#[derive(Debug)]
pub enum FlushAction {
    /// Fold the footer of the segment at this sequence.
    Fold(u64),
    /// Refresh the index.
    Refresh,
    /// Find the next free sequence and what goes with it.
    Locate,
    /// Create the segment at this sequence.
    Create(u64, Vec<u8>),
    /// Wait as long as is due after this many losses.
    Wait(u32),
}

/// How a flush goes on.
#[derive(Debug)]
pub enum FlushStep {
    Go(Flush, FlushAction),
    /// Answer every produce.
    Answered(Vec<(u64, Result<i64, ErrorCode>)>),
    /// Fail every produce.
    Failed(Vec<u64>, Error),
}

impl Flush {
    pub open spec fn wf(&self) -> bool {
        &&& self.buffer@.pending.len() > 0
        &&& groups_pending(self.groups, self.buffer@.pending)
        &&& self.groups.entries@.len() <= self.buffer@.pending.len()
        &&& self.attempts.wf()
        &&& self.claim matches Some(claim) ==> {
            &&& self.attempts.underway()
            &&& claim.candidate < u64::MAX
            &&& claim.footer@.entries.len() <= u32::MAX
            &&& claim.plan.outcomes@.len() == self.buffer@.pending.len()
        }
    }

    /// An attempt was begun, and has claimed no sequence yet.
    pub open spec fn may_claim(&self) -> bool {
        &&& self.attempts.underway()
        &&& self.attempts.stalled < self.attempts.attempts
        &&& self.claim is None
    }

    /// Whom to answer.
    pub open spec fn tickets(&self) -> Seq<u64> {
        self.buffer@.pending.map_values(|item: Pending| item.ticket)
    }

    /// The sub-stream and the partition of a group.
    pub open spec fn key(&self, group: int) -> (Identity, i32) {
        let topition = self.groups.entries@[group].0@;
        let pending = self.buffer@.pending;
        (pending[positions_of(pending, topition)[0]].identity, topition.1)
    }

    /// Whether these are the answers to every produce.
    pub open spec fn answered(
        &self,
        answers: Seq<(u64, Result<i64, ErrorCode>)>,
        plan: FlushPlan,
    ) -> bool {
        &&& answers.len() == self.buffer@.pending.len()
        &&& forall|i: int|
            #![trigger answers[i]]
            0 <= i < answers.len() ==> answers[i] == (
                self.buffer@.pending[i].ticket,
                plan.outcomes@[i],
            )
    }
}

/// Whether a flush failed: every produce of it is answered with the error.
pub open spec fn fails(step: FlushStep, flush: Flush, error: Error) -> bool {
    step matches FlushStep::Failed(tickets, with) && tickets@ == flush.tickets() && with == error
}

/// What an attempt begins with.
pub open spec fn opens_with(attempts: FlushAttempts) -> FlushAction {
    match attempts.won_by_peer {
        Some(seq) => FlushAction::Fold(seq),
        None => FlushAction::Refresh,
    }
}

/// What follows the fold of a segment that a peer wrote.
pub open spec fn follows_fold(landed: bool) -> FlushAction {
    if landed {
        FlushAction::Locate
    } else {
        FlushAction::Refresh
    }
}

/// The next offset of a partition, as far as is known here.
pub open spec fn known_high<M, S>(topics: TopicCaches<M, S>, topition: (Seq<char>, i32)) -> Option<
    i64,
> {
    match topics.next_offsets.at(topition) {
        Some(hint) => Some(hint.next),
        None => None,
    }
}

/// What is written has no more batches than are waiting, of no more sub-streams than
/// there are partitions.
proof fn lemma_planned(
    store: DynoStore,
    prefix: Seq<char>,
    pending: Seq<Pending>,
    topitions: Seq<(Seq<char>, i32)>,
    bases: Seq<i64>,
)
    ensures
        planned_writes(store, prefix, pending, topitions, bases).len() <= topitions.len(),
        forall|i: int|
            #![trigger planned_writes(store, prefix, pending, topitions, bases)[i]]
            0 <= i < planned_writes(store, prefix, pending, topitions, bases).len()
                ==> planned_writes(store, prefix, pending, topitions, bases)[i].batches.len()
                <= pending.len(),
    decreases topitions.len(),
{
    if topitions.len() > 0 {
        let at = topitions.len() - 1;
        lemma_planned(store, prefix, pending, topitions.drop_last(), bases);
        let positions = positions_of(pending, topitions[at]);
        lemma_positions_of(pending, topitions[at]);
        assigned_offsets_leave_no_gap(
            picked(pending, positions),
            bases[at] as int,
            store.folded(prefix, (pending[positions[0]].identity, topitions[at].1)),
        );
    }
}

proof fn lemma_entries(writes: Seq<Write>)
    ensures
        entries_of(writes).len() <= writes.len(),
    decreases writes.len(),
{
    if writes.len() > 0 {
        lemma_entries(writes.drop_last());
    }
}

impl DynoStore {
    /// Begin a flush of a buffer.
    pub fn begin_flush(&self, buffer: PrefixCoalesceBuffer) -> (flush: Flush)
        requires
            buffer@.pending.len() > 0,
        ensures
            flush.wf(),
            flush.buffer == buffer,
            flush.attempts == (FlushAttempts {
                budget: self.tuning.flush_max_elapsed,
                attempts: 0,
                conflicts: 0,
                ambiguous_lost: 0,
                stalled: 0,
                last_candidate: None,
                won_by_peer: None,
                slowest: 0,
            }),
            flush.claim is None,
    {
        let groups = group_pending(&buffer.pending);
        Flush {
            buffer,
            groups,
            nonce: fresh_nonce(),
            attempts: FlushAttempts::new(self.tuning.flush_max_elapsed),
            claim: None,
        }
    }

    /// The offset from which each partition of a flush is assigned.
    pub open spec fn flush_bases<M, S>(
        &self,
        topics: TopicCaches<M, S>,
        prefix: Seq<char>,
        flush: Flush,
        floors: Seq<Option<i64>>,
    ) -> Seq<i64> {
        Seq::new(
            flush.groups.entries@.len(),
            |group: int|
                self.next_base(
                    prefix,
                    flush.key(group),
                    known_high(topics, flush.groups.entries@[group].0@),
                    floors[group],
                ),
        )
    }

    /// Whether a sequence can be claimed: a segment can count its batches, and every
    /// partition be assigned offsets that are numbers.
    pub open spec fn can_claim<M, S>(
        &self,
        topics: TopicCaches<M, S>,
        prefix: Seq<char>,
        flush: Flush,
        located: Located,
    ) -> bool {
        &&& located.candidate < u64::MAX
        &&& located.floors@.len() == flush.groups.entries@.len()
        &&& flush.buffer@.pending.len() <= u32::MAX
        &&& self.prefixes.index.poisoned || topics.next_offsets.poisoned || self.assignable(
            prefix,
            flush.buffer@.pending,
            flush.groups,
            self.flush_bases(topics, prefix, flush, located.floors@),
        )
    }

    /// The offset from which each partition of a flush is assigned, as far as offsets
    /// are numbers.
    fn bases_of<M, S>(
        &self,
        topics: &TopicCaches<M, S>,
        prefix: &str,
        flush: &Flush,
        floors: &Vec<Option<i64>>,
    ) -> (bases: Option<Vec<i64>>)
        requires
            self.wf(),
            topics.wf(),
            flush.wf(),
            !self.prefixes.index.poisoned,
            floors@.len() == flush.groups.entries@.len(),
        ensures
            match bases {
                Some(bases) => {
                    &&& bases@ == self.flush_bases(*topics, prefix@, *flush, floors@)
                    &&& forall|group: int|
                        #![trigger flush.key(group)]
                        0 <= group < flush.groups.entries@.len() ==> self.offsets_in_range(
                            prefix@,
                            flush.key(group),
                        )
                },
                None => exists|group: int|
                    #![trigger flush.key(group)]
                    0 <= group < flush.groups.entries@.len() && !self.offsets_in_range(
                        prefix@,
                        flush.key(group),
                    ),
            },
    {
        let ghost all = self.flush_bases(*topics, prefix@, *flush, floors@);
        let mut bases: Vec<i64> = Vec::new();
        let mut at: usize = 0;
        while at < flush.groups.entries.len()
            invariant
                self.wf(),
                topics.wf(),
                flush.wf(),
                !self.prefixes.index.poisoned,
                floors@.len() == flush.groups.entries@.len(),
                all == self.flush_bases(*topics, prefix@, *flush, floors@),
                at <= flush.groups.entries@.len(),
                bases@ == all.take(at as int),
                forall|group: int|
                    #![trigger flush.key(group)]
                    0 <= group < at ==> self.offsets_in_range(prefix@, flush.key(group)),
            decreases flush.groups.entries@.len() - at,
        {
            let (topition, positions) = &flush.groups.entries[at];
            proof {
                lemma_at(flush.groups.entries@, at as int);
                lemma_positions_of(flush.buffer@.pending, topition@);
                assert(flush.groups@.dom().contains(topition@));
                assert(positions_view(positions@)[0] == positions@[0]);
            }
            let substream = &flush.buffer.pending[positions[0]].substream;
            assert((substream@, topition.partition) == flush.key(at as int));
            if !self.are_offsets_in_range(prefix, substream, topition.partition) {
                return None;
            }
            let cached: Option<i64> = match topics.next_offsets.map.get(topition) {
                Some(hint) => Some(hint.next),
                None => None,
            };
            match self.leaseless_base(prefix, substream, topition.partition, cached, floors[at]) {
                Ok(base) => {
                    bases.push(base);
                    assert(bases@ =~= all.take(at + 1));
                },
                Err(_) => {
                    return None;
                },
            }
            at = at + 1;
        }
        assert(all.take(at as int) =~= all);
        Some(bases)
    }

    /// Whether a sequence can be claimed.
    pub fn may_claim<M, S>(
        &self,
        topics: &TopicCaches<M, S>,
        prefix: &str,
        flush: &Flush,
        located: &Located,
    ) -> (may: bool)
        requires
            self.wf(),
            topics.wf(),
            flush.wf(),
        ensures
            may == self.can_claim(*topics, prefix@, *flush, *located),
    {
        if located.candidate == u64::MAX || located.floors.len() != flush.groups.entries.len() {
            return false;
        }
        if flush.buffer.pending.len() > u32::MAX as usize {
            return false;
        }
        if self.prefixes.index.poisoned || topics.next_offsets.poisoned {
            return true;
        }
        let ghost bases = self.flush_bases(*topics, prefix@, *flush, located.floors@);
        match self.bases_of(topics, prefix, flush, &located.floors) {
            Some(found) => {
                let mut at: usize = 0;
                while at < found.len()
                    invariant
                        at <= found@.len(),
                        found@ == bases,
                        bases == self.flush_bases(*topics, prefix@, *flush, located.floors@),
                        !self.prefixes.index.poisoned,
                        !topics.next_offsets.poisoned,
                        forall|k: int|
                            #![trigger bases[k]]
                            0 <= k < at ==> has_room(
                                bases[k],
                                picked(
                                    flush.buffer@.pending,
                                    positions_of(
                                        flush.buffer@.pending,
                                        flush.groups.entries@[k].0@,
                                    ),
                                ),
                            ),
                        flush.wf(),
                        found@.len() == flush.groups.entries@.len(),
                    decreases found@.len() - at,
                {
                    let (topition, positions) = &flush.groups.entries[at];
                    let ghost places = positions_of(flush.buffer@.pending, topition@);
                    proof {
                        lemma_at(flush.groups.entries@, at as int);
                        lemma_positions_of(flush.buffer@.pending, topition@);
                        assert(flush.groups@.dom().contains(topition@));
                        assert(positions_view(positions@) == places);
                        assert forall|k: int|
                            #![trigger positions@[k]]
                            0 <= k < positions@.len() implies positions@[k]
                            < flush.buffer.pending@.len() by {
                            assert(positions_view(positions@)[k] == places[k]);
                        }
                    }
                    if !fits_from(found[at], &flush.buffer.pending, positions) {
                        assert(bases[at as int] == found@[at as int]);
                        return false;
                    }
                    at = at + 1;
                }
                proof {
                    assert forall|k: int|
                        #![trigger flush.groups.entries@[k]]
                        0 <= k < flush.groups.entries@.len() implies self.offsets_in_range(
                        prefix@,
                        (
                            flush.buffer@.pending[positions_of(
                                flush.buffer@.pending,
                                flush.groups.entries@[k].0@,
                            )[0]].identity,
                            flush.groups.entries@[k].0@.1,
                        ),
                    ) by {
                        assert(self.offsets_in_range(prefix@, flush.key(k)));
                    }
                }
                true
            },
            None => {
                proof {
                    let k = choose|k: int|
                        #![trigger flush.key(k)]
                        0 <= k < flush.groups.entries@.len() && !self.offsets_in_range(
                            prefix@,
                            flush.key(k),
                        );
                    assert(flush.groups.entries@[k] == flush.groups.entries@[k]);
                }
                false
            },
        }
    }

    /// Claim a sequence for what is waiting: assign its offsets, and encode the
    /// segment. Where every batch is in the log or refused, no segment is written and
    /// no sequence taken.
    fn claim_sequence<M, S>(
        &self,
        topics: &TopicCaches<M, S>,
        prefix: &str,
        flush: Flush,
        located: Located,
    ) -> (step: FlushStep)
        requires
            self.wf(),
            topics.wf(),
            flush.wf(),
            flush.may_claim(),
            self.can_claim(*topics, prefix@, flush, located),
        ensures
            self.claimed(*topics, prefix@, flush, located, step),
            step matches FlushStep::Go(after, _) ==> after.wf(),
    {
        let ghost given = flush;
        if self.prefixes.index.poisoned || topics.next_offsets.poisoned {
            let (tickets, error) = DynoStore::fail_prefix_flush(flush.buffer, Error::Poison);
            return FlushStep::Failed(tickets, error);
        }
        let ghost all = self.flush_bases(*topics, prefix@, flush, located.floors@);
        let bases = match self.bases_of(topics, prefix, &flush, &located.floors) {
            Some(bases) => bases,
            None => {
                proof {
                    let k = choose|k: int|
                        #![trigger flush.key(k)]
                        0 <= k < flush.groups.entries@.len() && !self.offsets_in_range(
                            prefix@,
                            flush.key(k),
                        );
                    assert(flush.groups.entries@[k] == flush.groups.entries@[k]);
                }
                let (tickets, error) = DynoStore::fail_prefix_flush(flush.buffer, Error::Poison);
                return FlushStep::Failed(tickets, error);
            },
        };
        let plan = match self.plan_flush(prefix, &flush.buffer.pending, &flush.groups, &bases) {
            Ok(plan) => plan,
            Err(error) => {
                let (tickets, error) = DynoStore::fail_prefix_flush(flush.buffer, error);
                return FlushStep::Failed(tickets, error);
            },
        };
        let ghost items = flush.buffer@.pending;
        let ghost writes = planned_writes(*self, prefix@, items, flush.groups.keys(), all);
        proof {
            assert(writes == writes_view(plan.substreams@));
            lemma_planned(*self, prefix@, items, flush.groups.keys(), all);
            lemma_entries(writes);
        }
        if plan.substreams.len() == 0 {
            let ghost made = plan;
            let answers = DynoStore::ack_leaseless_outcomes(flush.buffer, plan.outcomes);
            proof {
                assert(writes.len() == 0);
                assert(self.plans(prefix@, items, given.groups, all, made));
                assert(given.answered(answers@, made));
            }
            return FlushStep::Answered(answers);
        }
        match Self::encode_segment_indexed(
            &plan.substreams,
            located.era,
            flush.nonce,
            self.tuning.segment_format_version,
        ) {
            Ok((payload, footer)) => {
                let mut attempts = flush.attempts;
                attempts.claim(located.candidate);
                let claim = Claim { candidate: located.candidate, footer, plan };
                FlushStep::Go(
                    Flush { attempts, claim: Some(claim), ..flush },
                    FlushAction::Create(located.candidate, payload),
                )
            },
            Err(error) => {
                let (tickets, error) = DynoStore::fail_prefix_flush(flush.buffer, error);
                FlushStep::Failed(tickets, error)
            },
        }
    }

    /// Whether these are the answers of what becomes of a flush.
    pub open spec fn answers_as_planned(
        &self,
        prefix: Seq<char>,
        flush: Flush,
        bases: Seq<i64>,
        answers: Seq<(u64, Result<i64, ErrorCode>)>,
    ) -> bool {
        exists|plan: FlushPlan|
            #![trigger flush.answered(answers, plan)]
            self.plans(prefix, flush.buffer@.pending, flush.groups, bases, plan)
                && flush.answered(answers, plan)
    }

    /// What a claim comes to.
    pub open spec fn claimed<M, S>(
        &self,
        topics: TopicCaches<M, S>,
        prefix: Seq<char>,
        flush: Flush,
        located: Located,
        step: FlushStep,
    ) -> bool {
        let bases = self.flush_bases(topics, prefix, flush, located.floors@);
        let writes = planned_writes(
            *self,
            prefix,
            flush.buffer@.pending,
            flush.groups.keys(),
            bases,
        );
        let version = self.tuning.segment_format_version;
        if self.prefixes.index.poisoned || topics.next_offsets.poisoned {
            fails(step, flush, Error::Poison)
        } else if writes.len() == 0 {
            step matches FlushStep::Answered(answers) && self.answers_as_planned(
                prefix,
                flush,
                bases,
                answers@,
            )
        } else if refusal(writes, version) is Some {
            step matches FlushStep::Failed(tickets, error) && tickets@ == flush.tickets()
                && answers(error, refusal(writes, version))
        } else {
            step matches FlushStep::Go(after, FlushAction::Create(seq, payload)) && {
                &&& seq == located.candidate
                &&& payload@ == segment_of(writes, located.era, flush.nonce, version)
                &&& after.claim matches Some(claim) && {
                    &&& claim.candidate == located.candidate
                    &&& claim.footer@ == footer_of(writes, located.era, flush.nonce)
                    &&& self.plans(
                        prefix,
                        flush.buffer@.pending,
                        flush.groups,
                        bases,
                        claim.plan,
                    )
                }
                &&& after.attempts == flush.attempts.claimed(located.candidate)
                &&& after == (Flush { attempts: after.attempts, claim: after.claim, ..flush })
            }
        }
    }

    /// What to do about a flush. Each attempt folds what is new, claims the next free
    /// sequence with offsets derived anew, and creates the segment there. That create
    /// is what makes the offsets its own: where a peer's is there, the attempt is
    /// lost, and the next one folds what won.
    pub fn flush_prefix_coalesced_leaseless<M, S>(
        &mut self,
        topics: &mut TopicCaches<M, S>,
        prefix: &str,
        flush: Flush,
        event: FlushEvent,
    ) -> (step: FlushStep)
        requires
            old(self).wf(),
            old(topics).wf(),
            flush.wf(),
            event matches FlushEvent::Located(Ok(located)) ==> flush.may_claim() && old(
                self,
            ).can_claim(*old(topics), prefix@, flush, located),
            event is Created ==> flush.claim is Some,
        ensures
            final(self).wf(),
            final(topics).wf(),
            step matches FlushStep::Go(after, _) ==> after.wf(),
            match event {
                FlushEvent::Created { create: SegmentCreate::Won, took, last_modified_ms, now } => {
                    let claim = flush.claim->0;
                    &&& step matches FlushStep::Answered(answers) && flush.answered(
                        answers@,
                        claim.plan,
                    )
                    &&& final(self).wrote(
                        *old(self),
                        prefix@,
                        claim.candidate,
                        claim.footer@,
                        last_modified_ms,
                        now,
                    )
                    &&& final(topics).advanced_by(*old(topics), claim.plan)
                },
                _ => *final(self) == *old(self) && *final(topics) == *old(topics),
            },
            match event {
                FlushEvent::Due(elapsed) => match flush.attempts.spent(elapsed) {
                    Some(_) => fails(step, flush, Error::Api(ErrorCode::KafkaStorageError)),
                    None => step == FlushStep::Go(
                        (Flush { attempts: flush.attempts.begun(), claim: None, ..flush }),
                        opens_with(flush.attempts),
                    ),
                },
                FlushEvent::Folded(landed) => step == FlushStep::Go(
                    flush,
                    follows_fold(landed),
                ),
                FlushEvent::Refreshed(Ok(_)) => step == FlushStep::Go(flush, FlushAction::Locate),
                FlushEvent::Refreshed(Err(error)) => fails(step, flush, error),
                FlushEvent::Located(Ok(located)) => old(self).claimed(
                    *old(topics),
                    prefix@,
                    flush,
                    located,
                    step,
                ),
                FlushEvent::Located(Err(error)) => fails(step, flush, error),
                FlushEvent::Created { create: SegmentCreate::Won, .. } => true,
                FlushEvent::Created { create: SegmentCreate::Lost { ambiguous }, took, .. } => step
                    == FlushStep::Go(
                    (Flush {
                        attempts: flush.attempts.lost(flush.claim->0.candidate, ambiguous, took),
                        claim: None,
                        ..flush
                    }),
                    FlushAction::Wait((flush.attempts.attempts - 1) as u32),
                ),
                FlushEvent::Created { create: SegmentCreate::Failed(error), .. } => fails(
                    step,
                    flush,
                    error,
                ),
            },
    {
        match event {
            FlushEvent::Due(elapsed) => {
                let mut attempts = flush.attempts;
                match attempts.begin(elapsed) {
                    Attempt::GiveUp(_) => {
                        let (tickets, error) = DynoStore::fail_prefix_flush(
                            flush.buffer,
                            Error::Api(ErrorCode::KafkaStorageError),
                        );
                        FlushStep::Failed(tickets, error)
                    },
                    Attempt::FoldWinner(seq) => FlushStep::Go(
                        Flush { attempts, claim: None, ..flush },
                        FlushAction::Fold(seq),
                    ),
                    Attempt::Refresh => FlushStep::Go(
                        Flush { attempts, claim: None, ..flush },
                        FlushAction::Refresh,
                    ),
                }
            },
            FlushEvent::Folded(landed) => {
                if landed {
                    FlushStep::Go(flush, FlushAction::Locate)
                } else {
                    FlushStep::Go(flush, FlushAction::Refresh)
                }
            },
            FlushEvent::Refreshed(Ok(_)) => FlushStep::Go(flush, FlushAction::Locate),
            FlushEvent::Refreshed(Err(error)) => {
                let (tickets, error) = DynoStore::fail_prefix_flush(flush.buffer, error);
                FlushStep::Failed(tickets, error)
            },
            FlushEvent::Located(Ok(located)) => self.claim_sequence(
                topics,
                prefix,
                flush,
                located,
            ),
            FlushEvent::Located(Err(error)) => {
                let (tickets, error) = DynoStore::fail_prefix_flush(flush.buffer, error);
                FlushStep::Failed(tickets, error)
            },
            FlushEvent::Created { create, took, last_modified_ms, now } => self.settle_create(
                topics,
                prefix,
                flush,
                create,
                took,
                last_modified_ms,
                now,
            ),
        }
    }

    /// Whether a store is what it was with another segment written: its sequence is
    /// taken, and its footer indexed.
    pub open spec fn wrote(
        &self,
        before: Self,
        prefix: Seq<char>,
        seq: u64,
        footer: Footer,
        last_modified_ms: i64,
        now: u64,
    ) -> bool {
        let taken = DynoStore {
            prefixes: PrefixCaches {
                segment_seqs: self.prefixes.segment_seqs,
                ..before.prefixes
            },
            ..before
        };
        &&& self.differs_at(taken, prefix)
        &&& self.prefixes.segment_seqs.poisoned == before.prefixes.segment_seqs.poisoned
        &&& self.prefixes.segment_seqs.map@ == if before.prefixes.segment_seqs.poisoned {
            before.prefixes.segment_seqs.map@
        } else {
            before.prefixes.segment_seqs.map@.insert(
                prefix,
                match before.prefixes.segment_seqs.at(prefix) {
                    Some(held) => if held > seq {
                        held
                    } else {
                        (seq + 1) as u64
                    },
                    None => (seq + 1) as u64,
                },
            )
        }
        &&& self.prefixes.state_of(prefix) == if before.prefixes.index.poisoned {
            before.prefixes.state_of(prefix)
        } else {
            (IndexState {
                refreshed_at: Some(now),
                ..before.prefixes.state_of(prefix).with_footer(seq, footer, last_modified_ms)
            })
        }
    }

    /// What follows a create.
    fn settle_create<M, S>(
        &mut self,
        topics: &mut TopicCaches<M, S>,
        prefix: &str,
        flush: Flush,
        create: SegmentCreate,
        took: u64,
        last_modified_ms: i64,
        now: u64,
    ) -> (step: FlushStep)
        requires
            old(self).wf(),
            old(topics).wf(),
            flush.wf(),
            flush.claim is Some,
        ensures
            final(self).wf(),
            final(topics).wf(),
            step matches FlushStep::Go(after, _) ==> after.wf(),
            match create {
                SegmentCreate::Won => {
                    let claim = flush.claim->0;
                    &&& step matches FlushStep::Answered(answers) && flush.answered(
                        answers@,
                        claim.plan,
                    )
                    &&& final(self).wrote(
                        *old(self),
                        prefix@,
                        claim.candidate,
                        claim.footer@,
                        last_modified_ms,
                        now,
                    )
                    &&& final(topics).advanced_by(*old(topics), claim.plan)
                },
                SegmentCreate::Lost { ambiguous } => {
                    &&& *final(self) == *old(self)
                    &&& *final(topics) == *old(topics)
                    &&& step == FlushStep::Go(
                        (Flush {
                            attempts: flush.attempts.lost(
                                flush.claim->0.candidate,
                                ambiguous,
                                took,
                            ),
                            claim: None,
                            ..flush
                        }),
                        FlushAction::Wait((flush.attempts.attempts - 1) as u32),
                    )
                },
                SegmentCreate::Failed(error) => {
                    &&& *final(self) == *old(self)
                    &&& *final(topics) == *old(topics)
                    &&& fails(step, flush, error)
                },
            },
    {
        let Flush { buffer, groups, nonce, attempts, claim } = flush;
        let mut attempts = attempts;
        match claim {
            Some(claim) => match attempts.resolve(claim.candidate, create, took) {
                Verdict::Durable { next } => {
                    let _ = self.prefixes.set_seq(prefix, next);
                    let answers = self.finalize_prefix_flush_leaseless(
                        topics,
                        prefix,
                        claim.candidate,
                        claim.footer,
                        buffer,
                        claim.plan,
                        last_modified_ms,
                        now,
                    );
                    FlushStep::Answered(answers)
                },
                Verdict::Backoff { losses } => FlushStep::Go(
                    Flush { buffer, groups, nonce, attempts, claim: None },
                    FlushAction::Wait(losses),
                ),
                Verdict::Fail(error) => {
                    let (tickets, error) = DynoStore::fail_prefix_flush(buffer, error);
                    FlushStep::Failed(tickets, error)
                },
            },
            None => {
                let (tickets, error) = DynoStore::fail_prefix_flush(buffer, Error::Poison);
                FlushStep::Failed(tickets, error)
            },
        }
    }
}

/// A segment that was written is indexed under its sequence, and the index is up to date
/// with it; the next sequence is behind it, and behind all that was known; and nothing
/// else of the index changes.
pub proof fn a_written_segment_is_known(
    store: DynoStore,
    before: DynoStore,
    prefix: Seq<char>,
    seq: u64,
    footer: Footer,
    last_modified_ms: i64,
    now: u64,
    other: u64,
)
    requires
        store.wrote(before, prefix, seq, footer, last_modified_ms, now),
        seq < u64::MAX,
        other != seq,
    ensures
        ({
            let state = store.prefixes.state_of(prefix);
            let was = before.prefixes.state_of(prefix);
            &&& !before.prefixes.index.poisoned ==> {
                &&& state.segments.dom().contains(seq)
                &&& state.segments[seq].last_modified_ms == last_modified_ms
                &&& state.segments[seq].footer == pruned_footer(footer)
                &&& state.segments.dom().contains(other) <==> was.segments.dom().contains(other)
                &&& state.segments[other] == was.segments[other]
                &&& state.opaque == was.opaque
                &&& state.refreshed_at == Some(now)
                &&& state.reconciled_at == was.reconciled_at
            }
            &&& !before.prefixes.segment_seqs.poisoned ==> {
                let held = before.prefixes.segment_seqs.at(prefix);
                let next = store.prefixes.segment_seqs.at(prefix);
                &&& next is Some
                &&& next->0 > seq
                &&& held is Some ==> next->0 >= held->0
                &&& next->0 == seq + 1 || next == held
            }
        }),
{
}

/// A flush assigns the offsets of each partition from the highest of what serves it, of
/// what this process knows of it, and of its persisted floor.
pub proof fn a_flush_begins_past_what_is_known<M, S>(
    store: DynoStore,
    topics: TopicCaches<M, S>,
    prefix: Seq<char>,
    flush: Flush,
    floors: Seq<Option<i64>>,
    group: int,
)
    requires
        0 <= group < flush.groups.entries@.len(),
        flush.groups.entries@.len() <= floors.len(),
        forall|i: int|
            0 <= i < store.served(prefix, flush.key(group)).len() ==> i64::MIN <= (
            #[trigger] store.served(prefix, flush.key(group))[i]).served_to <= i64::MAX,
    ensures
        ({
            let bases = store.flush_bases(topics, prefix, flush, floors);
            let topition = flush.groups.entries@[group].0@;
            let served = store.served(prefix, flush.key(group));
            &&& forall|i: int|
                0 <= i < served.len() ==> bases[group] >= (#[trigger] served[i]).served_to
            &&& bases.len() == flush.groups.entries@.len()
            &&& floors[group] matches Some(floor) ==> bases[group] >= floor
            &&& topics.next_offsets.at(topition) matches Some(hint) ==> bases[group] >= hint.next
        }),
{
    a_base_is_past_all_that_is_known(
        store,
        prefix,
        flush.key(group),
        known_high(topics, flush.groups.entries@[group].0@),
        floors[group],
    );
}

/// What a claim comes to. Under a poisoned lock nothing is written, and nothing is where
/// every batch is in the log or refused; a segment that cannot be encoded fails every
/// produce; and any other is created at the sequence that was located, with the offsets
/// that the produces are answered with once it is there.
pub proof fn a_claim_is_created_where_located<M, S>(
    store: DynoStore,
    topics: TopicCaches<M, S>,
    prefix: Seq<char>,
    flush: Flush,
    located: Located,
    step: FlushStep,
)
    requires
        store.claimed(topics, prefix, flush, located, step),
    ensures
        ({
            let bases = store.flush_bases(topics, prefix, flush, located.floors@);
            let writes = planned_writes(
                store,
                prefix,
                flush.buffer@.pending,
                flush.groups.keys(),
                bases,
            );
            let poisoned = store.prefixes.index.poisoned || topics.next_offsets.poisoned;
            let unwritable = exists|i: int|
                0 <= i < writes.len() && !is_writable(
                    #[trigger] writes[i],
                    store.tuning.segment_format_version,
                );
            &&& step is Go <==> !poisoned && writes.len() > 0 && !unwritable
            &&& step is Answered <==> !poisoned && writes.len() == 0
            &&& step is Failed <==> poisoned || (writes.len() > 0 && unwritable)
            &&& step matches FlushStep::Failed(tickets, _) ==> tickets@.len()
                == flush.buffer@.pending.len() && forall|i: int|
                0 <= i < tickets@.len() ==> (#[trigger] tickets@[i])
                    == flush.buffer@.pending[i].ticket
            &&& step matches FlushStep::Go(after, action) ==> {
                &&& action is Create
                &&& action->Create_0 == located.candidate
                &&& after.claim is Some
                &&& after.claim->0.candidate == located.candidate
                &&& after.claim->0.footer@.writer_epoch == located.era
                &&& after.claim->0.footer@.nonce == flush.nonce
                &&& after.attempts.last_candidate == Some(located.candidate)
                &&& after.attempts.attempts == flush.attempts.attempts
                &&& after.buffer == flush.buffer
                &&& after.groups == flush.groups
            }
        }),
{
    let bases = store.flush_bases(topics, prefix, flush, located.floors@);
    let writes = planned_writes(store, prefix, flush.buffer@.pending, flush.groups.keys(), bases);
    what_cannot_be_written_is_refused(writes, store.tuning.segment_format_version);
}

/// Every produce is answered, under its own ticket, with what became of its own batch
/// among those of its partition, in the order they came in.
pub proof fn every_produce_is_answered_its_own(
    store: DynoStore,
    prefix: Seq<char>,
    flush: Flush,
    bases: Seq<i64>,
    plan: FlushPlan,
    answers: Seq<(u64, Result<i64, ErrorCode>)>,
    i: int,
) -> (place: (int, int))
    requires
        groups_pending(flush.groups, flush.buffer@.pending),
        store.plans(prefix, flush.buffer@.pending, flush.groups, bases, plan),
        flush.answered(answers, plan),
        0 <= i < flush.buffer@.pending.len(),
    ensures
        ({
            let pending = flush.buffer@.pending;
            let (k, j) = place;
            let positions = positions_of(pending, pending[i].topition);
            &&& answers.len() == pending.len()
            &&& answers[i].0 == pending[i].ticket
            &&& 0 <= k < flush.groups.entries@.len()
            &&& flush.groups.entries@[k].0@ == pending[i].topition
            &&& 0 <= j < positions.len()
            &&& positions[j] == i
            &&& answers[i].1 == assigned(
                picked(pending, positions),
                bases[k] as int,
                store.folded(prefix, (pending[positions[0]].identity, pending[i].topition.1)),
            ).outcomes[j]
        }),
{
    let pending = flush.buffer@.pending;
    let topition = pending[i].topition;
    let positions = positions_of(pending, topition);
    lemma_positions_of(pending, topition);
    assert(positions.contains(i));
    let j = choose|j: int| 0 <= j < positions.len() && positions[j] == i;
    assert(flush.groups@.dom().contains(topition));
    let entries = flush.groups.entries@;
    let k = choose|k: int| 0 <= k < entries.len() && (#[trigger] entries[k]).0@ == topition;
    lemma_at(entries, k);
    assert(positions_view(entries[k].1@) == positions);
    assert(positions_view(entries[k].1@)[j] == entries[k].1@[j]);
    assert(entries[k].1@[j] == i);
    (k, j)
}

/// An attempt claims nothing before it knows what is in the log: it begins with the very
/// segment that won the sequence it lost, and with the whole index where none did or
/// where that segment could not be folded.
pub proof fn an_attempt_learns_before_it_claims(
    attempts: FlushAttempts,
    candidate: u64,
    ambiguous: bool,
    took: u64,
)
    ensures
        opens_with(attempts.lost(candidate, ambiguous, took)) == FlushAction::Fold(candidate),
        opens_with(attempts.begun()) == FlushAction::Refresh,
        follows_fold(true) == FlushAction::Locate,
        follows_fold(false) == FlushAction::Refresh,
{
}

} // verus!
