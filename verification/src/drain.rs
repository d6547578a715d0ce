//! Compacting a prefix until there is nothing left to merge.

use crate::error::Error;
use crate::index::{CachedSegment, PrefixIndex};
use crate::merge::RunSubstream;
use crate::ordmap::OrdMap;
use crate::segment::{Entry, Identity};
use crate::store::DynoStore;
use vstd::prelude::*;
use vstd::string::*;

verus! {

/// What a run of compaction came to.
#[derive(Clone, Copy, Debug, PartialEq, Eq, Structural)]
pub enum CompactRun {
    /// So many segments were merged away.
    Merged(u64),
    /// There was nothing to merge.
    Drained,
    /// The run could not proceed, and the next will be another.
    Retry,
}

impl CompactRun {
    pub open spec fn name(self) -> Seq<char> {
        match self {
            CompactRun::Merged(_) => "merged"@,
            CompactRun::Drained => "drained"@,
            CompactRun::Retry => "retry"@,
        }
    }

    pub fn outcome(&self) -> (name: &'static str)
        ensures
            name@ == self.name(),
    {
        match self {
            CompactRun::Merged(_) => "merged",
            CompactRun::Drained => "drained",
            CompactRun::Retry => "retry",
        }
    }
}

/// How a run of compaction ended.
#[derive(Clone, Copy, Debug, PartialEq, Eq, Structural)]
pub enum RunEnd {
    Ran(CompactRun),
    /// A segment was found damaged; whether it was not known to be.
    Damaged(bool),
    Failed,
}

/// Why a drain stopped.
#[derive(Clone, Copy, Debug, PartialEq, Eq, Structural)]
pub enum DrainStop {
    Drained,
    /// Too many runs could not proceed.
    Retries,
    Failed,
    /// As many runs were made as one drain makes.
    Runs,
}

/// Runs that one drain makes at most.
pub const MAX_RUNS_PER_PREFIX: usize = 4_096;

/// Runs that could not proceed, after which a drain stops.
pub const MAX_RETRIES_PER_PREFIX: usize = 1_024;

/// Attempts of the per-key pass over one prefix.
pub const MAX_PER_KEY_ATTEMPTS: usize = 8;

/// A drain under way.
#[derive(Clone, Copy, Debug, PartialEq, Eq, Structural)]
pub struct Drain {
    pub runs: usize,
    pub retries: usize,
    /// Segments that were merged away.
    pub compacted: u64,
}

impl Drain {
    /// Whether the drain is within its bounds.
    pub open spec fn wf(self) -> bool {
        self.runs < MAX_RUNS_PER_PREFIX && self.retries < MAX_RETRIES_PER_PREFIX
    }

    /// What a run of it comes to.
    pub open spec fn after(self, end: RunEnd) -> (Drain, Option<DrainStop>) {
        let ran = Drain { runs: (self.runs + 1) as usize, ..self };
        let out = if self.runs + 1 >= MAX_RUNS_PER_PREFIX {
            Some(DrainStop::Runs)
        } else {
            None
        };
        match end {
            RunEnd::Ran(CompactRun::Merged(n)) => (
                Drain { compacted: (self.compacted + n) as u64, ..ran },
                out,
            ),
            RunEnd::Ran(CompactRun::Drained) => (ran, Some(DrainStop::Drained)),
            RunEnd::Ran(CompactRun::Retry) => (
                Drain { retries: (self.retries + 1) as usize, ..ran },
                if self.retries + 1 >= MAX_RETRIES_PER_PREFIX {
                    Some(DrainStop::Retries)
                } else {
                    out
                },
            ),
            RunEnd::Damaged(learned) => (
                ran,
                if learned {
                    out
                } else {
                    Some(DrainStop::Failed)
                },
            ),
            RunEnd::Failed => (ran, Some(DrainStop::Failed)),
        }
    }

    /// A drain that has not begun.
    pub fn new() -> (drain: Self)
        ensures
            drain.wf(),
            drain == (Drain { runs: 0, retries: 0, compacted: 0 }),
    {
        Drain { runs: 0, retries: 0, compacted: 0 }
    }

    /// Take the end of a run. The answer is why the drain stops, if it does.
    pub fn drain_compact_prefix(&mut self, end: RunEnd) -> (stop: Option<DrainStop>)
        requires
            old(self).wf(),
            end matches RunEnd::Ran(CompactRun::Merged(n)) ==> old(self).compacted + n <= u64::MAX,
        ensures
            (*final(self), stop) == old(self).after(end),
            stop is None ==> final(self).wf(),
    {
        self.runs = self.runs + 1;
        match end {
            RunEnd::Ran(CompactRun::Merged(n)) => {
                self.compacted = self.compacted + n;
            },
            RunEnd::Ran(CompactRun::Drained) => {
                return Some(DrainStop::Drained);
            },
            RunEnd::Ran(CompactRun::Retry) => {
                self.retries = self.retries + 1;
                if self.retries >= MAX_RETRIES_PER_PREFIX {
                    return Some(DrainStop::Retries);
                }
            },
            RunEnd::Damaged(learned) => {
                if !learned {
                    return Some(DrainStop::Failed);
                }
            },
            RunEnd::Failed => {
                return Some(DrainStop::Failed);
            },
        }
        if self.runs >= MAX_RUNS_PER_PREFIX {
            return Some(DrainStop::Runs);
        }
        None
    }
}

/// Whether the per-key pass is made once more after a run of it.
pub open spec fn is_passed_again(attempts: usize, end: RunEnd) -> bool {
    end == RunEnd::Damaged(true) && attempts < MAX_PER_KEY_ATTEMPTS
}

/// The per-key pass is made again only where it learned of damage, which it then passes
/// over, and no more often than it is tried.
pub proof fn a_pass_is_made_again_past_damage(attempts: usize, end: RunEnd)
    ensures
        is_passed_again(attempts, end) ==> end == RunEnd::Damaged(true),
        attempts >= MAX_PER_KEY_ATTEMPTS ==> !is_passed_again(attempts, end),
        attempts < MAX_PER_KEY_ATTEMPTS ==> is_passed_again(attempts, RunEnd::Damaged(true)),
{
}

/// Whether the per-key pass over a prefix is tried again after `attempts`: only
/// where a segment was found damaged that was not known to be.
pub fn drain_compact_prefix_per_key(attempts: usize, end: RunEnd) -> (again: bool)
    ensures
        again == is_passed_again(attempts, end),
{
    match end {
        RunEnd::Damaged(learned) => learned && attempts < MAX_PER_KEY_ATTEMPTS,
        _ => false,
    }
}

/// A drain ends: no more runs are made than one drain makes.
pub proof fn a_drain_ends(drain: Drain, end: RunEnd)
    requires
        drain.wf(),
    ensures
        drain.after(end).1 is None ==> drain.after(end).0.runs == drain.runs + 1 && drain.after(
            end,
        ).0.wf(),
{
}

/// The name and identity of an entry's sub-stream.
pub open spec fn substream_of(entry: Entry) -> (Identity, Seq<char>, i32) {
    (entry.identity(), entry.topic, entry.partition)
}

/// Whether one of `entries` is of the sub-stream.
pub open spec fn has_substream(entries: Seq<Entry>, of: (Identity, Seq<char>, i32)) -> bool {
    exists|i: int| 0 <= i < entries.len() && substream_of(#[trigger] entries[i]) == of
}

/// Whether one of the segments listed, as the index holds it, has records of the
/// sub-stream.
pub open spec fn run_has(
    segments: Map<u64, CachedSegment>,
    seqs: Seq<u64>,
    of: (Identity, Seq<char>, i32),
) -> bool {
    exists|i: int|
        0 <= i < seqs.len() && segments.dom().contains(#[trigger] seqs[i]) && has_substream(
            segments[seqs[i]].footer@.entries,
            of,
        )
}

/// The sub-streams that segments hold records of, in order.
pub fn substreams_of(index: &PrefixIndex, seqs: &Vec<u64>) -> (substreams: OrdMap<RunSubstream, ()>)
    requires
        index.wf(),
    ensures
        substreams.wf(),
        forall|of: (Identity, Seq<char>, i32)| #[trigger]
            substreams@.dom().contains(of) <==> run_has(index.segments@, seqs@, of),
{
    let mut substreams: OrdMap<RunSubstream, ()> = OrdMap::new();
    let mut at: usize = 0;
    while at < seqs.len()
        invariant
            index.wf(),
            substreams.wf(),
            at <= seqs@.len(),
            forall|of: (Identity, Seq<char>, i32)| #[trigger]
                substreams@.dom().contains(of) <==> run_has(
                    index.segments@,
                    seqs@.take(at as int),
                    of,
                ),
        decreases seqs@.len() - at,
    {
        let ghost done = seqs@.take(at as int);
        let ghost more = seqs@.take(at + 1);
        let ghost before = substreams@.dom();
        let ghost seq = seqs@[at as int];
        if let Some(cached) = index.segments.get(&seqs[at]) {
            let entries = &cached.footer.entries;
            let mut p: usize = 0;
            while p < entries.len()
                invariant
                    substreams.wf(),
                    p <= entries@.len(),
                    *entries == cached.footer.entries,
                    forall|of: (Identity, Seq<char>, i32)| #[trigger]
                        substreams@.dom().contains(of) <==> (before.contains(of) || has_substream(
                            cached.footer@.entries.take(p as int),
                            of,
                        )),
                decreases entries@.len() - p,
            {
                let entry = &entries[p];
                let ghost seen = cached.footer@.entries.take(p as int);
                let ghost next = cached.footer@.entries.take(p + 1);
                let ghost known = substreams@.dom();
                let of = RunSubstream {
                    substream: entry.substream(),
                    topic: (*entry.topic).clone(),
                    partition: entry.partition,
                };
                let ghost own = of@;
                let _ = substreams.insert(of, ());
                proof {
                    assert(own == substream_of(cached.footer@.entries[p as int]));
                    assert forall|k: (Identity, Seq<char>, i32)| #[trigger]
                        substreams@.dom().contains(k) <==> (before.contains(k) || has_substream(
                            next,
                            k,
                        )) by {
                        assert(known.contains(k) <==> (before.contains(k) || has_substream(seen, k)));
                        if has_substream(next, k) {
                            let i = choose|i: int|
                                0 <= i < next.len() && substream_of(#[trigger] next[i]) == k;
                            if i < p {
                                assert(substream_of(seen[i]) == k);
                            }
                        }
                        if has_substream(seen, k) {
                            let i = choose|i: int|
                                0 <= i < seen.len() && substream_of(#[trigger] seen[i]) == k;
                            assert(substream_of(next[i]) == k);
                        }
                        assert(substream_of(next[p as int]) == own);
                    }
                }
                p = p + 1;
            }
            assert(cached.footer@.entries.take(p as int) =~= cached.footer@.entries);
        }
        proof {
            assert forall|k: (Identity, Seq<char>, i32)| #[trigger]
                substreams@.dom().contains(k) <==> run_has(index.segments@, more, k) by {
                assert(before.contains(k) <==> run_has(index.segments@, done, k));
                if run_has(index.segments@, more, k) {
                    let i = choose|i: int|
                        0 <= i < more.len() && index.segments@.dom().contains(#[trigger] more[i])
                            && has_substream(index.segments@[more[i]].footer@.entries, k);
                    if i < at {
                        assert(done[i] == more[i]);
                    }
                }
                if run_has(index.segments@, done, k) {
                    let i = choose|i: int|
                        0 <= i < done.len() && index.segments@.dom().contains(#[trigger] done[i])
                            && has_substream(index.segments@[done[i]].footer@.entries, k);
                    assert(more[i] == done[i]);
                }
                assert(more[at as int] == seq);
            }
        }
        at = at + 1;
    }
    assert(seqs@.take(at as int) =~= seqs@);
    substreams
}

/// The epochs of segments, as the index holds them.
pub fn epochs_of(index: &PrefixIndex, seqs: &Vec<u64>) -> (epochs: OrdMap<u64, i64>)
    requires
        index.wf(),
    ensures
        epochs.wf(),
        forall|seq: u64| #[trigger]
            epochs@.dom().contains(seq) <==> seqs@.contains(seq)
                && index.segments@.dom().contains(seq),
        forall|seq: u64| #[trigger]
            epochs@.dom().contains(seq) ==> epochs@[seq]
                == index.segments@[seq].footer@.writer_epoch,
{
    let mut epochs: OrdMap<u64, i64> = OrdMap::new();
    let mut at: usize = 0;
    while at < seqs.len()
        invariant
            index.wf(),
            epochs.wf(),
            at <= seqs@.len(),
            forall|seq: u64| #[trigger]
                epochs@.dom().contains(seq) <==> seqs@.take(at as int).contains(seq)
                    && index.segments@.dom().contains(seq),
            forall|seq: u64| #[trigger]
                epochs@.dom().contains(seq) ==> epochs@[seq]
                    == index.segments@[seq].footer@.writer_epoch,
        decreases seqs@.len() - at,
    {
        let ghost before = epochs@.dom();
        let ghost done = seqs@.take(at as int);
        let ghost more = seqs@.take(at + 1);
        let ghost own = seqs@[at as int];
        if let Some(cached) = index.segments.get(&seqs[at]) {
            let _ = epochs.insert(seqs[at], cached.footer.writer_epoch);
        }
        proof {
            assert(more =~= done.push(own));
            assert forall|seq: u64| #[trigger] epochs@.dom().contains(seq) <==> more.contains(seq)
                && index.segments@.dom().contains(seq) by {
                assert(before.contains(seq) <==> done.contains(seq)
                    && index.segments@.dom().contains(seq));
                if more.contains(seq) && seq != own {
                    let i = choose|i: int| 0 <= i < more.len() && more[i] == seq;
                    assert(done[i] == seq);
                }
                if done.contains(seq) {
                    let i = choose|i: int| 0 <= i < done.len() && done[i] == seq;
                    assert(more[i] == seq);
                }
                assert(more[at as int] == own);
            }
        }
        at = at + 1;
    }
    assert(seqs@.take(at as int) =~= seqs@);
    epochs
}

/// A segment that the per-key pass reads, with what a rewrite of it keeps.
#[derive(Clone, Copy, Debug, PartialEq, Eq, Structural)]
pub struct KeySegment {
    pub seq: u64,
    pub writer_epoch: i64,
    pub last_modified_ms: i64,
}

/// The segments of an index that are not quarantined, in ascending order.
pub open spec fn key_segments(segments: Seq<(u64, CachedSegment)>, quarantined: Set<u64>) -> Seq<
    KeySegment,
>
    decreases segments.len(),
{
    if segments.len() == 0 {
        Seq::empty()
    } else {
        let before = key_segments(segments.drop_last(), quarantined);
        let last = segments.last();
        if quarantined.contains(last.0) {
            before
        } else {
            before.push(
                KeySegment {
                    seq: last.0,
                    writer_epoch: last.1.footer.writer_epoch,
                    last_modified_ms: last.1.last_modified_ms,
                },
            )
        }
    }
}

impl DynoStore {
    /// The segments that the per-key pass over a prefix reads: all but those that
    /// are quarantined.
    pub fn per_key_segments(&self, prefix: &str) -> (segments: Result<Vec<KeySegment>, Error>)
        requires
            self.wf(),
        ensures
            match segments {
                Ok(segments) => {
                    let quarantined = match self.prefixes.quarantined.at(prefix@) {
                        Some(set) => set@.dom(),
                        None => Set::empty(),
                    };
                    &&& !self.prefixes.index.poisoned
                    &&& !self.prefixes.quarantined.poisoned
                    &&& segments@ == match self.prefixes.index.at(prefix@) {
                        Some(index) => key_segments(index.segments.entries@, quarantined),
                        None => Seq::empty(),
                    }
                },
                Err(error) => error == Error::Poison && (self.prefixes.index.poisoned
                    || self.prefixes.quarantined.poisoned),
            },
    {
        let quarantined = match self.prefixes.quarantined_of(prefix) {
            Ok(quarantined) => quarantined,
            Err(_) => {
                return Err(Error::Poison);
            },
        };
        if self.prefixes.index.poisoned {
            return Err(Error::Poison);
        }
        let mut found: Vec<KeySegment> = Vec::new();
        if let Some(index) = self.prefixes.index.map.get(&String::from_str(prefix)) {
            let ghost all = index.segments.entries@;
            let mut at: usize = 0;
            assert(all.take(0) =~= Seq::empty());
            while at < index.segments.entries.len()
                invariant
                    quarantined.wf(),
                    all == index.segments.entries@,
                    at <= all.len(),
                    found@ == key_segments(all.take(at as int), quarantined@.dom()),
                decreases all.len() - at,
            {
                assert(all.take(at + 1).drop_last() =~= all.take(at as int));
                let segment = &index.segments.entries[at];
                assert(all.take(at + 1).last() == *segment);
                if !quarantined.contains(&segment.0) {
                    found.push(
                        KeySegment {
                            seq: segment.0,
                            writer_epoch: segment.1.footer.writer_epoch,
                            last_modified_ms: segment.1.last_modified_ms,
                        },
                    );
                }
                at = at + 1;
            }
            assert(all.take(at as int) =~= all);
        }
        Ok(found)
    }
}

/// When a drain stops. It goes on after a run that merged something, after one that is
/// to be tried again and after one that learned of damage, until it has made as many
/// runs as one drain makes, or tried again as often; it stops where nothing is left to
/// merge, where a run failed, and where damage taught nothing.
pub proof fn when_a_drain_stops(drain: Drain, end: RunEnd)
    requires
        drain.wf(),
    ensures
        ({
            let (after, stop) = drain.after(end);
            let last = drain.runs + 1 == MAX_RUNS_PER_PREFIX;
            &&& after.runs == drain.runs + 1
            &&& match end {
                RunEnd::Ran(CompactRun::Merged(_)) => stop == if last {
                    Some(DrainStop::Runs)
                } else {
                    None
                },
                RunEnd::Ran(CompactRun::Drained) => stop == Some(DrainStop::Drained),
                RunEnd::Ran(CompactRun::Retry) => {
                    &&& drain.retries + 1 == MAX_RETRIES_PER_PREFIX ==> stop == Some(
                        DrainStop::Retries,
                    )
                    &&& drain.retries + 1 < MAX_RETRIES_PER_PREFIX ==> (stop is None <==> !last)
                },
                RunEnd::Damaged(learned) => {
                    &&& learned ==> (stop is None <==> !last)
                    &&& !learned ==> stop == Some(DrainStop::Failed)
                },
                RunEnd::Failed => stop == Some(DrainStop::Failed),
            }
            &&& after.retries == drain.retries + if end matches RunEnd::Ran(CompactRun::Retry) {
                1int
            } else {
                0
            }
            &&& end matches RunEnd::Ran(CompactRun::Merged(n)) ==> (drain.compacted + n
                <= u64::MAX ==> after.compacted == drain.compacted + n)
            &&& !(end matches RunEnd::Ran(CompactRun::Merged(_))) ==> after.compacted
                == drain.compacted
        }),
{
}

/// The per-key pass is made over all the segments of an index but those that are
/// quarantined, in their order, each with its own epoch and time.
pub proof fn quarantined_segments_are_passed_over(
    segments: Seq<(u64, CachedSegment)>,
    quarantined: Set<u64>,
    k: int,
)
    requires
        0 <= k < segments.len(),
    ensures
        ({
            let had = key_segments(segments.take(k), quarantined);
            let more = key_segments(segments.take(k + 1), quarantined);
            &&& quarantined.contains(segments[k].0) ==> more == had
            &&& !quarantined.contains(segments[k].0) ==> {
                &&& more.len() == had.len() + 1
                &&& more.drop_last() == had
                &&& more.last().seq == segments[k].0
                &&& more.last().writer_epoch == segments[k].1.footer.writer_epoch
                &&& more.last().last_modified_ms == segments[k].1.last_modified_ms
            }
            &&& key_segments(segments.take(0), quarantined).len() == 0
            &&& key_segments(segments.take(segments.len() as int), quarantined) == key_segments(
                segments,
                quarantined,
            )
        }),
{
    assert(segments.take(k + 1).drop_last() =~= segments.take(k));
    assert(segments.take(segments.len() as int) =~= segments);
    let had = key_segments(segments.take(k), quarantined);
    let more = key_segments(segments.take(k + 1), quarantined);
    if !quarantined.contains(segments[k].0) {
        assert(more.drop_last() =~= had);
    }
}

/// A sub-stream is of a run if and only if an entry of one of its segments, as far as
/// the index holds it, has its topic's id, or its name where it has none, its name and
/// its partition.
pub proof fn a_run_has_the_substreams_of_its_segments(
    segments: Map<u64, CachedSegment>,
    seqs: Seq<u64>,
    entry: Entry,
    i: int,
    p: int,
)
    requires
        0 <= i < seqs.len(),
        segments.dom().contains(seqs[i]),
        0 <= p < segments[seqs[i]].footer@.entries.len(),
        entry == segments[seqs[i]].footer@.entries[p],
    ensures
        entry.topic_id matches Some(id) ==> run_has(
            segments,
            seqs,
            (Identity::Id(id), entry.topic, entry.partition),
        ),
        entry.topic_id is None ==> run_has(
            segments,
            seqs,
            (Identity::Name(entry.topic), entry.topic, entry.partition),
        ),
{
    assert(has_substream(segments[seqs[i]].footer@.entries, substream_of(entry)));
    assert(segments.dom().contains(seqs[i]));
}

} // verus!
