//! Writing a buffer: claiming a sequence of its prefix, again and again, until it is
//! won or the time for it is spent.

use crate::assign::{advances_view, FlushPlan};
use crate::buffer::PrefixCoalesceBuffer;
use crate::config::MIN_FLUSH_ATTEMPTS;
use crate::error::{Error, ErrorCode};
use crate::refresh::IndexState;
use crate::segment::SegmentFooter;
use crate::store::DynoStore;
use crate::topics::{hint_or_default, larger, OffsetHint, TopicCaches};
use vstd::prelude::*;

verus! {

/// Attempts after which a flush gives up: far above any real number of writers.
pub const FLUSH_MAX_ATTEMPTS: u32 = 64;

/// What ended a flush that gave up.
#[derive(Clone, Copy, Debug, PartialEq, Eq, Structural)]
pub enum Spent {
    /// Every attempt.
    Attempts,
    /// The time.
    Elapsed,
    /// The time that is left is less than an attempt has taken.
    Projected,
}

/// How an attempt begins.
#[derive(Clone, Copy, Debug, PartialEq, Eq, Structural)]
pub enum Attempt {
    /// Fold the footer at a sequence that a peer is known to hold; where that fails,
    /// refresh the index.
    FoldWinner(u64),
    /// Refresh the index.
    Refresh,
    /// Give up.
    GiveUp(Spent),
}

/// What became of a create.
#[derive(Debug)]
pub enum SegmentCreate {
    /// The segment is at its sequence.
    Won,
    /// A peer's is. It is ambiguous if it took a look at the object to tell.
    Lost { ambiguous: bool },
    /// The create failed.
    Failed(Error),
}

/// What follows a create.
#[derive(Debug)]
pub enum Verdict {
    /// The write is durable, and this is the next sequence to claim.
    Durable { next: u64 },
    /// Wait as long as is due after this many losses, and try again.
    Backoff { losses: u32 },
    /// Fail every produce that is waiting.
    Fail(Error),
}

/// The attempts of one flush.
#[derive(Clone, Copy, Debug, PartialEq, Eq, Structural)]
pub struct FlushAttempts {
    /// The time for all of them, in milliseconds.
    pub budget: u64,
    pub attempts: u32,
    /// Creates lost to a peer.
    pub conflicts: u32,
    /// Creates of which a look at the object showed that a peer won.
    pub ambiguous_lost: u32,
    /// Attempts that claimed the sequence claimed before.
    pub stalled: u32,
    pub last_candidate: Option<u64>,
    /// The sequence that a peer is known to hold.
    pub won_by_peer: Option<u64>,
    /// How long the slowest attempt took, in milliseconds.
    pub slowest: u64,
}

impl FlushAttempts {
    /// Nothing is counted more often than there were attempts.
    pub open spec fn wf(&self) -> bool {
        &&& self.attempts <= FLUSH_MAX_ATTEMPTS
        &&& self.conflicts + self.ambiguous_lost <= self.attempts
        &&& self.stalled <= self.attempts
    }

    /// An attempt was begun, and its create has not been answered.
    pub open spec fn underway(&self) -> bool {
        self.wf() && self.conflicts + self.ambiguous_lost < self.attempts
    }

    /// Before the first attempt.
    pub fn new(budget: u64) -> (attempts: Self)
        ensures
            attempts.wf(),
            attempts == (FlushAttempts {
                budget,
                attempts: 0,
                conflicts: 0,
                ambiguous_lost: 0,
                stalled: 0,
                last_candidate: None,
                won_by_peer: None,
                slowest: 0,
            }),
    {
        FlushAttempts {
            budget,
            attempts: 0,
            conflicts: 0,
            ambiguous_lost: 0,
            stalled: 0,
            last_candidate: None,
            won_by_peer: None,
            slowest: 0,
        }
    }

    /// Why no further attempt is begun, `elapsed` milliseconds after the first. The
    /// time counts only once there were [`MIN_FLUSH_ATTEMPTS`].
    pub open spec fn spent(&self, elapsed: u64) -> Option<Spent> {
        if self.attempts >= FLUSH_MAX_ATTEMPTS {
            Some(Spent::Attempts)
        } else if self.attempts < MIN_FLUSH_ATTEMPTS {
            None
        } else if elapsed >= self.budget {
            Some(Spent::Elapsed)
        } else if elapsed + self.slowest > self.budget {
            Some(Spent::Projected)
        } else {
            None
        }
    }

    /// The attempts with another begun.
    pub open spec fn begun(self) -> FlushAttempts {
        FlushAttempts { attempts: (self.attempts + 1) as u32, won_by_peer: None, ..self }
    }

    /// Begin an attempt. Where the last one was lost, the sequence that was lost is
    /// all that there is to learn, so its footer alone is folded.
    pub fn begin(&mut self, elapsed: u64) -> (attempt: Attempt)
        requires
            old(self).wf(),
        ensures
            final(self).wf(),
            match old(self).spent(elapsed) {
                Some(spent) => attempt == Attempt::GiveUp(spent) && *final(self) == *old(self),
                None => {
                    &&& attempt == match old(self).won_by_peer {
                        Some(seq) => Attempt::FoldWinner(seq),
                        None => Attempt::Refresh,
                    }
                    &&& final(self).underway()
                    &&& *final(self) == old(self).begun()
                },
            },
    {
        if self.attempts >= FLUSH_MAX_ATTEMPTS {
            return Attempt::GiveUp(Spent::Attempts);
        }
        if self.attempts >= MIN_FLUSH_ATTEMPTS {
            if elapsed >= self.budget {
                return Attempt::GiveUp(Spent::Elapsed);
            }
            if self.slowest > self.budget - elapsed {
                return Attempt::GiveUp(Spent::Projected);
            }
        }
        self.attempts = self.attempts + 1;
        let winner = self.won_by_peer;
        self.won_by_peer = None;
        match winner {
            Some(seq) => Attempt::FoldWinner(seq),
            None => Attempt::Refresh,
        }
    }

    /// The attempts after a claim of a sequence.
    pub open spec fn claimed(self, candidate: u64) -> FlushAttempts {
        FlushAttempts {
            stalled: if self.last_candidate == Some(candidate) {
                (self.stalled + 1) as u32
            } else {
                self.stalled
            },
            last_candidate: Some(candidate),
            ..self
        }
    }

    /// Claim a sequence. One that was claimed before is one that this process cannot
    /// see as taken.
    pub fn claim(&mut self, candidate: u64)
        requires
            old(self).wf(),
            old(self).stalled < old(self).attempts,
        ensures
            final(self).wf(),
            *final(self) == old(self).claimed(candidate),
    {
        match self.last_candidate {
            Some(last) => {
                if last == candidate {
                    self.stalled = self.stalled + 1;
                }
            },
            None => {},
        }
        self.last_candidate = Some(candidate);
    }

    /// The attempts after one lost a sequence to a peer.
    pub open spec fn lost(self, candidate: u64, ambiguous: bool, took: u64) -> FlushAttempts {
        FlushAttempts {
            conflicts: if ambiguous {
                self.conflicts
            } else {
                (self.conflicts + 1) as u32
            },
            ambiguous_lost: if ambiguous {
                (self.ambiguous_lost + 1) as u32
            } else {
                self.ambiguous_lost
            },
            won_by_peer: Some(candidate),
            slowest: if took > self.slowest {
                took
            } else {
                self.slowest
            },
            ..self
        }
    }

    /// What follows a create at a sequence, by an attempt that took `took`
    /// milliseconds.
    pub fn resolve(&mut self, candidate: u64, create: SegmentCreate, took: u64) -> (verdict: Verdict)
        requires
            old(self).underway(),
            candidate < u64::MAX,
        ensures
            final(self).wf(),
            match create {
                SegmentCreate::Won => verdict == (Verdict::Durable { next: (candidate + 1) as u64 })
                    && *final(self) == *old(self),
                SegmentCreate::Failed(error) => verdict == Verdict::Fail(error) && *final(self)
                    == *old(self),
                SegmentCreate::Lost { ambiguous } => {
                    &&& verdict == (Verdict::Backoff { losses: (old(self).attempts - 1) as u32 })
                    &&& *final(self) == old(self).lost(candidate, ambiguous, took)
                },
            },
    {
        match create {
            SegmentCreate::Won => Verdict::Durable { next: candidate + 1 },
            SegmentCreate::Failed(error) => Verdict::Fail(error),
            SegmentCreate::Lost { ambiguous } => {
                if ambiguous {
                    self.ambiguous_lost = self.ambiguous_lost + 1;
                } else {
                    self.conflicts = self.conflicts + 1;
                }
                self.won_by_peer = Some(candidate);
                if took > self.slowest {
                    self.slowest = took;
                }
                Verdict::Backoff { losses: self.attempts - 1 }
            },
        }
    }
}

/// The hints after advances.
pub open spec fn advanced(
    hints: Map<(Seq<char>, i32), OffsetHint>,
    advances: Seq<((Seq<char>, i32), i64)>,
) -> Map<(Seq<char>, i32), OffsetHint>
    decreases advances.len(),
{
    if advances.len() == 0 {
        hints
    } else {
        let before = advanced(hints, advances.drop_last());
        let (topition, high) = advances.last();
        let held = hint_or_default(
            if before.dom().contains(topition) {
                Some(before[topition])
            } else {
                None
            },
        );
        before.insert(
            topition,
            OffsetHint { next: larger(held.next, high), listed_at: held.listed_at },
        )
    }
}

impl<M, S> TopicCaches<M, S> {
    /// Whether what is known is what was known before, with the advances of a plan.
    pub open spec fn advanced_by(&self, before: Self, plan: FlushPlan) -> bool {
        &&& *self == (TopicCaches { next_offsets: self.next_offsets, ..before })
        &&& self.next_offsets.poisoned == before.next_offsets.poisoned
        &&& self.next_offsets.map@ == if before.next_offsets.poisoned {
            before.next_offsets.map@
        } else {
            advanced(before.next_offsets.map@, advances_view(plan.advances@))
        }
    }
}

impl DynoStore {
    /// Take a durable write to heart: index its footer, remember the next offset of
    /// each partition that was written to, and answer every produce.
    pub fn finalize_prefix_flush_leaseless<M, S>(
        &mut self,
        topics: &mut TopicCaches<M, S>,
        prefix: &str,
        seq: u64,
        footer: SegmentFooter,
        buffer: PrefixCoalesceBuffer,
        plan: FlushPlan,
        last_modified_ms: i64,
        now: u64,
    ) -> (answers: Vec<(u64, Result<i64, ErrorCode>)>)
        requires
            old(self).wf(),
            old(topics).wf(),
            footer@.entries.len() <= u32::MAX,
            plan.outcomes@.len() == buffer@.pending.len(),
        ensures
            final(self).wf(),
            final(topics).wf(),
            final(self).differs_at(*old(self), prefix@),
            final(self).prefixes.state_of(prefix@) == if old(self).prefixes.index.poisoned {
                old(self).prefixes.state_of(prefix@)
            } else {
                (IndexState {
                    refreshed_at: Some(now),
                    ..old(self).prefixes.state_of(prefix@).with_footer(
                        seq,
                        footer@,
                        last_modified_ms,
                    )
                })
            },
            final(topics).advanced_by(*old(topics), plan),
            answers@.len() == buffer@.pending.len(),
            forall|i: int|
                #![trigger answers@[i]]
                0 <= i < answers@.len() ==> answers@[i] == (
                    buffer@.pending[i].ticket,
                    plan.outcomes@[i],
                ),
    {
        let _ = self.index_insert(prefix, seq, footer, last_modified_ms, now);
        let ghost advances = advances_view(plan.advances@);
        let ghost start = topics.next_offsets.map@;
        let mut at: usize = 0;
        assert(advances.take(0) =~= Seq::empty());
        while at < plan.advances.len()
            invariant
                at <= plan.advances@.len(),
                advances == advances_view(plan.advances@),
                topics.wf(),
                *topics == (TopicCaches { next_offsets: topics.next_offsets, ..*old(topics) }),
                topics.next_offsets.poisoned == old(topics).next_offsets.poisoned,
                start == old(topics).next_offsets.map@,
                topics.next_offsets.map@ == if old(topics).next_offsets.poisoned {
                    start
                } else {
                    advanced(start, advances.take(at as int))
                },
            decreases plan.advances@.len() - at,
        {
            let (topition, high) = &plan.advances[at];
            let ghost before = topics.next_offsets;
            assert(advances.take(at + 1).drop_last() =~= advances.take(at as int));
            assert(advances.take(at + 1).last() == (topition@, *high));
            let _ = topics.set_high(topition, *high);
            at = at + 1;
        }
        assert(advances.take(at as int) =~= advances);
        DynoStore::ack_leaseless_outcomes(buffer, plan.outcomes)
    }
}

/// A flush that gave up for want of time made [`MIN_FLUSH_ATTEMPTS`] attempts, and no
/// flush makes more than [`FLUSH_MAX_ATTEMPTS`].
pub proof fn attempts_are_bounded(attempts: FlushAttempts, elapsed: u64)
    requires
        attempts.wf(),
    ensures
        attempts.spent(elapsed) is Some ==> attempts.attempts >= MIN_FLUSH_ATTEMPTS,
        attempts.spent(elapsed) is None ==> attempts.attempts < FLUSH_MAX_ATTEMPTS,
{
}

/// An attempt that is begun has, by the slowest so far, the time to end.
pub proof fn attempts_end_in_time(attempts: FlushAttempts, elapsed: u64)
    requires
        attempts.wf(),
        attempts.attempts >= MIN_FLUSH_ATTEMPTS,
        attempts.spent(elapsed) is None,
    ensures
        elapsed + attempts.slowest <= attempts.budget,
{
}

/// What is known of a partition's next offset only grows.
pub proof fn advancing_never_goes_back(
    hints: Map<(Seq<char>, i32), OffsetHint>,
    advances: Seq<((Seq<char>, i32), i64)>,
    topition: (Seq<char>, i32),
)
    requires
        hints.dom().contains(topition),
    ensures
        advanced(hints, advances).dom().contains(topition),
        advanced(hints, advances)[topition].next >= hints[topition].next,
    decreases advances.len(),
{
    if advances.len() > 0 {
        advancing_never_goes_back(hints, advances.drop_last(), topition);
    }
}

/// What another attempt changes: there is one more of them, and what a peer was known
/// to hold counts for that attempt only.
pub proof fn beginning_counts_an_attempt(attempts: FlushAttempts)
    requires
        attempts.wf(),
        attempts.attempts < FLUSH_MAX_ATTEMPTS,
    ensures
        attempts.begun().wf(),
        attempts.begun().underway(),
        attempts.begun().attempts == attempts.attempts + 1,
        attempts.begun().won_by_peer is None,
        attempts.begun().slowest == attempts.slowest,
        attempts.begun().budget == attempts.budget,
        attempts.begun().last_candidate == attempts.last_candidate,
        attempts.begun().conflicts == attempts.conflicts,
        attempts.begun().ambiguous_lost == attempts.ambiguous_lost,
        attempts.begun().stalled == attempts.stalled,
{
}

/// A claim is remembered, and is a stall if and only if the claim before it was of the
/// same sequence. It changes nothing else.
pub proof fn claiming_again_is_a_stall(attempts: FlushAttempts, candidate: u64)
    requires
        attempts.stalled < u32::MAX,
    ensures
        ({
            let after = attempts.claimed(candidate);
            &&& after.last_candidate == Some(candidate)
            &&& after.stalled == attempts.stalled + if attempts.last_candidate == Some(candidate) {
                1int
            } else {
                0
            }
            &&& after == (FlushAttempts {
                stalled: after.stalled,
                last_candidate: after.last_candidate,
                ..attempts
            })
        }),
{
}

/// An attempt that lost counts once, as a conflict or, where only a look at the object
/// told, as an ambiguous one. The next folds what the peer wrote there, and the time it
/// has to leave is that of the slowest attempt so far.
pub proof fn losing_counts_once(attempts: FlushAttempts, candidate: u64, ambiguous: bool, took: u64)
    requires
        attempts.underway(),
    ensures
        ({
            let after = attempts.lost(candidate, ambiguous, took);
            &&& after.wf()
            &&& after.won_by_peer == Some(candidate)
            &&& after.conflicts + after.ambiguous_lost == attempts.conflicts
                + attempts.ambiguous_lost + 1
            &&& after.ambiguous_lost > attempts.ambiguous_lost <==> ambiguous
            &&& after.conflicts > attempts.conflicts <==> !ambiguous
            &&& after.slowest >= took
            &&& after.slowest >= attempts.slowest
            &&& after.slowest == took || after.slowest == attempts.slowest
            &&& after.attempts == attempts.attempts
            &&& after.budget == attempts.budget
            &&& after.stalled == attempts.stalled
            &&& after.last_candidate == attempts.last_candidate
        }),
{
}

/// A flush goes on exactly while it may: always below the least number of attempts, and
/// up to the greatest as long as its time is not over and the slowest attempt so far
/// would end within it.
pub proof fn a_flush_goes_on_while_it_may(attempts: FlushAttempts, elapsed: u64)
    ensures
        attempts.spent(elapsed) is None <==> attempts.attempts < FLUSH_MAX_ATTEMPTS && (
        attempts.attempts < MIN_FLUSH_ATTEMPTS || (elapsed < attempts.budget && elapsed
            + attempts.slowest <= attempts.budget)),
        attempts.spent(elapsed) == Some(Spent::Attempts) <==> attempts.attempts
            >= FLUSH_MAX_ATTEMPTS,
        attempts.spent(elapsed) == Some(Spent::Elapsed) ==> elapsed >= attempts.budget,
        attempts.spent(elapsed) == Some(Spent::Projected) ==> elapsed < attempts.budget && elapsed
            + attempts.slowest > attempts.budget,
{
}

/// What is known of a partition after advances is the highest of what was known and of
/// all that it was advanced to; a partition that was not advanced is known as before,
/// and when a partition was listed does not change.
pub proof fn the_highest_advance_is_known(
    hints: Map<(Seq<char>, i32), OffsetHint>,
    advances: Seq<((Seq<char>, i32), i64)>,
    topition: (Seq<char>, i32),
)
    ensures
        ({
            let after = advanced(hints, advances);
            let advances_it = exists|i: int|
                0 <= i < advances.len() && (#[trigger] advances[i]).0 == topition;
            &&& after.dom().contains(topition) <==> hints.dom().contains(topition) || advances_it
            &&& !advances_it && hints.dom().contains(topition) ==> after[topition]
                == hints[topition]
            &&& forall|i: int|
                0 <= i < advances.len() && (#[trigger] advances[i]).0 == topition
                    ==> after[topition].next >= advances[i].1
            &&& hints.dom().contains(topition) ==> after[topition].next >= hints[topition].next
                && after[topition].listed_at == hints[topition].listed_at
            &&& after.dom().contains(topition) ==> {
                ||| hints.dom().contains(topition) && after[topition].next == hints[topition].next
                ||| !hints.dom().contains(topition) && after[topition].next == 0
                ||| exists|i: int|
                    0 <= i < advances.len() && (#[trigger] advances[i]).0 == topition
                        && advances[i].1 == after[topition].next
            }
        }),
    decreases advances.len(),
{
    if advances.len() > 0 {
        let init = advances.drop_last();
        let end = advances.len() - 1;
        the_highest_advance_is_known(hints, init, topition);
        let before = advanced(hints, init);
        let after = advanced(hints, advances);
        assert forall|i: int| 0 <= i < end implies #[trigger] advances[i] == init[i] by {}
        if exists|i: int| 0 <= i < init.len() && (#[trigger] init[i]).0 == topition {
            let i = choose|i: int| 0 <= i < init.len() && (#[trigger] init[i]).0 == topition;
            assert(advances[i].0 == topition);
        }
        if exists|i: int|
            0 <= i < init.len() && (#[trigger] init[i]).0 == topition && init[i].1
                == before[topition].next {
            let i = choose|i: int|
                0 <= i < init.len() && (#[trigger] init[i]).0 == topition && init[i].1
                    == before[topition].next;
            assert(advances[i] == init[i]);
        }
        if advances[end].0 == topition {
            assert(after.dom().contains(topition));
        } else {
            assert(after.dom().contains(topition) == before.dom().contains(topition));
            assert forall|i: int|
                0 <= i < advances.len() && (#[trigger] advances[i]).0 == topition implies 0 <= i
                < init.len() && init[i].0 == topition by {}
        }
    }
}

} // verus!
