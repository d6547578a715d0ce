//! Compacting a prefix, step by step: what follows what came of the step before.

use crate::drain::{CompactRun, KeySegment};
use crate::error::Error;
use crate::merge::MergePlan;
use crate::ordmap::OrdMap;
use crate::perkey::{outputs_view, KeyPlan};
use crate::refresh::IndexState;
use crate::segment::{writes_view, SegmentFooter, SubstreamWrite, Write};
use crate::select::{
    a_store_selects_by_what_it_knows, newest, selected, selected_runs_may_be_merged, MergeRun,
    SegmentSize,
};
use crate::store::DynoStore;
use vstd::prelude::*;
use vstd::string::*;

verus! {

/// What came of a step of a merge.
#[derive(Debug)]
pub enum CompactEvent {
    /// The index was brought up to date.
    Refreshed,
    /// The lease on compaction was taken, or is another's.
    Leased(bool),
    /// The segments of the run were read, or one of them is gone.
    Fetched(bool),
    /// What becomes of the run was decided.
    Planned(MergePlan),
    /// The seams were noted; whether one of them was new.
    Noted(bool),
    /// The merged segment was created at this sequence.
    Created(u64, SegmentFooter),
    /// The segments of the run were retired.
    Retired,
}

/// What to do about a merge.
#[derive(Debug)]
pub enum CompactAction {
    /// Take the lease on compaction.
    Lease,
    /// Read the segments of the run.
    Fetch,
    /// Decide what becomes of the run.
    Plan,
    /// Note seams.
    Note(OrdMap<u64, ()>),
    /// Create the merged segment, at this epoch.
    Create(Vec<SubstreamWrite>, i64),
    /// Retire the segments of the run.
    Retire,
    Done(CompactRun),
}

/// How the merge of a run goes on after what came of a step of it.
pub open spec fn merge_goes_on(event: CompactEvent, run: Seq<u64>) -> CompactAction {
    match event {
        CompactEvent::Refreshed => CompactAction::Lease,
        CompactEvent::Leased(held) => if held {
            CompactAction::Fetch
        } else {
            CompactAction::Done(CompactRun::Drained)
        },
        CompactEvent::Fetched(whole) => if whole {
            CompactAction::Plan
        } else {
            CompactAction::Done(CompactRun::Retry)
        },
        CompactEvent::Planned(plan) => match plan {
            MergePlan::Refused(seams) => CompactAction::Note(seams),
            MergePlan::Superseded => CompactAction::Retire,
            MergePlan::Write(writes, epoch) => CompactAction::Create(writes, epoch),
        },
        CompactEvent::Noted(learned) => CompactAction::Done(
            if learned {
                CompactRun::Retry
            } else {
                CompactRun::Drained
            },
        ),
        CompactEvent::Created(_, _) => CompactAction::Retire,
        CompactEvent::Retired => CompactAction::Done(CompactRun::Merged(run.len() as u64)),
    }
}

impl DynoStore {
    /// Whether a run is the one that is selected for a prefix.
    pub open spec fn selects(&self, prefix: Seq<char>, run: MergeRun) -> bool {
        let selection = self.selection(prefix);
        &&& selected(selection, self.tuning.prefix_compact_min_segments) matches Some((start, end))
        &&& run.seqs@ == selection.sizes.subrange(start, end).map_values(
            |size: SegmentSize| size.seq,
        )
        &&& run.last_modified_ms == newest(selection.sizes, start, end)
    }

    /// What to do about a merge of a prefix's segments. The run is selected once, and
    /// all that follows is about it. Its segments are retired once the merged one is
    /// created, or where the plan is that nothing of them is served; see
    /// [`what_is_served_is_written`](crate::merge::what_is_served_is_written). What is
    /// written keeps the time of the newest that it was made of.
    pub fn compact_prefix_segments(
        &mut self,
        prefix: &str,
        run: &mut Option<MergeRun>,
        event: CompactEvent,
        now: u64,
    ) -> (action: Result<CompactAction, Error>)
        requires
            old(self).wf(),
            event is Refreshed || *old(run) is Some,
            event matches CompactEvent::Created(_, footer) ==> footer@.entries.len() <= u32::MAX,
        ensures
            final(self).wf(),
            final(self).differs_at(*old(self), prefix@),
            !(event is Created) ==> *final(self) == *old(self),
            !(event is Refreshed) ==> *final(run) == *old(run),
            match event {
                CompactEvent::Refreshed => match action {
                    Ok(CompactAction::Lease) => *final(run) matches Some(run) && old(self).selects(
                        prefix@,
                        run,
                    ),
                    Ok(action) => action == CompactAction::Done(CompactRun::Drained) && *final(run)
                        is None && selected(
                        old(self).selection(prefix@),
                        old(self).tuning.prefix_compact_min_segments,
                    ) is None,
                    Err(error) => error == Error::Poison && *final(run) is None && (old(
                        self,
                    ).prefixes.index.poisoned || old(self).prefixes.quarantined.poisoned || old(
                        self,
                    ).prefixes.seams.poisoned),
                },
                CompactEvent::Created(seq, footer) => if old(self).prefixes.index.poisoned {
                    action == Err::<CompactAction, Error>(Error::Poison)
                } else {
                    &&& action == Ok::<CompactAction, Error>(
                        merge_goes_on(event, (*old(run))->0.seqs@),
                    )
                    &&& final(self).prefixes.state_of(prefix@) == (IndexState {
                        refreshed_at: Some(now),
                        ..old(self).prefixes.state_of(prefix@).with_footer(
                            seq,
                            footer@,
                            (*old(run))->0.last_modified_ms,
                        )
                    })
                },
                _ => action == Ok::<CompactAction, Error>(
                    merge_goes_on(event, (*old(run))->0.seqs@),
                ),
            },
    {
        match event {
            CompactEvent::Refreshed => {
                *run = None;
                match self.select_run(prefix) {
                    Ok(Some(chosen)) => {
                        *run = Some(chosen);
                        Ok(CompactAction::Lease)
                    },
                    Ok(None) => Ok(CompactAction::Done(CompactRun::Drained)),
                    Err(error) => Err(error),
                }
            },
            CompactEvent::Leased(held) => {
                if held {
                    Ok(CompactAction::Fetch)
                } else {
                    Ok(CompactAction::Done(CompactRun::Drained))
                }
            },
            CompactEvent::Fetched(whole) => {
                if whole {
                    Ok(CompactAction::Plan)
                } else {
                    Ok(CompactAction::Done(CompactRun::Retry))
                }
            },
            CompactEvent::Planned(plan) => match plan {
                MergePlan::Refused(seams) => Ok(CompactAction::Note(seams)),
                MergePlan::Superseded => Ok(CompactAction::Retire),
                MergePlan::Write(writes, epoch) => Ok(CompactAction::Create(writes, epoch)),
            },
            CompactEvent::Noted(learned) => {
                if learned {
                    Ok(CompactAction::Done(CompactRun::Retry))
                } else {
                    Ok(CompactAction::Done(CompactRun::Drained))
                }
            },
            CompactEvent::Created(seq, footer) => {
                let last_modified_ms: i64 = match run {
                    Some(run) => run.last_modified_ms,
                    None => 0,
                };
                match self.index_insert(prefix, seq, footer, last_modified_ms, now) {
                    Ok(_) => Ok(CompactAction::Retire),
                    Err(error) => Err(error),
                }
            },
            CompactEvent::Retired => {
                let merged: u64 = match run {
                    Some(run) => run.seqs.len() as u64,
                    None => 0,
                };
                Ok(CompactAction::Done(CompactRun::Merged(merged)))
            },
        }
    }
}

/// A segment to write again.
#[derive(Debug)]
pub struct Rewrite {
    /// The sequence that it is at now.
    pub seq: u64,
    pub writes: Vec<SubstreamWrite>,
    pub writer_epoch: i64,
    pub last_modified_ms: i64,
}

/// The mathematical rewrite.
#[verifier::ext_equal]
pub struct Rewritten {
    pub seq: u64,
    pub writes: Seq<Write>,
    pub writer_epoch: i64,
    pub last_modified_ms: i64,
}

impl View for Rewrite {
    type V = Rewritten;

    open spec fn view(&self) -> Rewritten {
        Rewritten {
            seq: self.seq,
            writes: writes_view(self.writes@),
            writer_epoch: self.writer_epoch,
            last_modified_ms: self.last_modified_ms,
        }
    }
}

/// What a rewrite of a segment keeps of it: its epoch, and its time.
pub open spec fn kept_of(segments: Seq<KeySegment>, seq: u64) -> (i64, i64)
    decreases segments.len(),
{
    if segments.len() == 0 {
        (0, i64::MIN)
    } else if segments[0].seq == seq {
        (
            if segments[0].writer_epoch < 0 {
                0
            } else {
                segments[0].writer_epoch
            },
            segments[0].last_modified_ms,
        )
    } else {
        kept_of(segments.skip(1), seq)
    }
}

/// The rewrites of segments, as far as they hold anything.
pub open spec fn rewrites_of(
    dirty: Seq<u64>,
    outputs: Map<u64, Seq<Write>>,
    segments: Seq<KeySegment>,
) -> Seq<Rewritten>
    decreases dirty.len(),
{
    if dirty.len() == 0 {
        Seq::empty()
    } else {
        let before = rewrites_of(dirty.drop_last(), outputs, segments);
        let seq = dirty.last();
        if outputs.dom().contains(seq) {
            before.push(
                Rewritten {
                    seq,
                    writes: outputs[seq],
                    writer_epoch: kept_of(segments, seq).0,
                    last_modified_ms: kept_of(segments, seq).1,
                },
            )
        } else {
            before
        }
    }
}

fn kept(segments: &Vec<KeySegment>, seq: u64) -> (kept: (i64, i64))
    ensures
        kept == kept_of(segments@, seq),
{
    let mut at: usize = 0;
    assert(segments@.skip(0) =~= segments@);
    while at < segments.len()
        invariant
            at <= segments@.len(),
            kept_of(segments@, seq) == kept_of(segments@.skip(at as int), seq),
        decreases segments@.len() - at,
    {
        let segment = segments[at];
        assert(segments@.skip(at as int)[0] == segment);
        assert(segments@.skip(at as int).skip(1) =~= segments@.skip(at + 1));
        if segment.seq == seq {
            let epoch: i64 = if segment.writer_epoch < 0 {
                0
            } else {
                segment.writer_epoch
            };
            return (epoch, segment.last_modified_ms);
        }
        at = at + 1;
    }
    (0, i64::MIN)
}

/// What came of a step of the per-key pass.
#[derive(Debug)]
pub enum PerKeyEvent {
    /// The segments of the prefix were listed.
    Listed,
    /// The lease on compaction was taken, or is another's.
    Leased(bool),
    /// The segments were read, or one of them is gone.
    Fetched(bool),
    /// The segments were walked.
    Walked(KeyPlan),
    /// The segments that were written again were retired, after this many records
    /// were removed.
    Retired(u64),
}

/// What to do about the per-key pass.
#[derive(Debug)]
pub enum PerKeyAction {
    /// Take the lease on compaction.
    Lease,
    /// Read the segments.
    Fetch,
    /// Walk the segments.
    Walk,
    /// Create these segments, then retire those that they stand for.
    Rewrite(Vec<Rewrite>, Vec<u64>, u64),
    /// This many records were removed.
    Done(u64),
}

/// How the per-key pass over so many segments goes on after what came of a step of it,
/// as long as no segment is to be written again.
pub open spec fn pass_goes_on(event: PerKeyEvent, segments: nat) -> PerKeyAction {
    match event {
        PerKeyEvent::Listed => if segments == 0 {
            PerKeyAction::Done(0)
        } else {
            PerKeyAction::Lease
        },
        PerKeyEvent::Leased(held) => if held {
            PerKeyAction::Fetch
        } else {
            PerKeyAction::Done(0)
        },
        PerKeyEvent::Fetched(whole) => if whole {
            PerKeyAction::Walk
        } else {
            PerKeyAction::Done(0)
        },
        PerKeyEvent::Walked(_) => PerKeyAction::Done(0),
        PerKeyEvent::Retired(removed) => PerKeyAction::Done(removed),
    }
}

/// What to do about the per-key pass over segments. Only a segment that lost a record
/// or had a frame repaired is written again: where nothing is to do, nothing is
/// written and nothing retired.
pub fn compact_prefix_per_key(segments: &Vec<KeySegment>, event: PerKeyEvent) -> (action:
    PerKeyAction)
    requires
        event matches PerKeyEvent::Walked(plan) ==> plan.wf(),
    ensures
        match event {
            PerKeyEvent::Walked(plan) => if plan.dirty.entries@.len() == 0 {
                action == pass_goes_on(event, segments@.len())
            } else {
                action matches PerKeyAction::Rewrite(rewrites, retired, removed) && {
                    &&& rewrites@.map_values(|rewrite: Rewrite| rewrite@) == rewrites_of(
                        plan.dirty.keys(),
                        outputs_view(plan.outputs@),
                        segments@,
                    )
                    &&& retired@ == plan.dirty.keys()
                    &&& removed == plan.removed
                }
            },
            _ => action == pass_goes_on(event, segments@.len()),
        },
{
    match event {
        PerKeyEvent::Listed => {
            if segments.len() == 0 {
                PerKeyAction::Done(0)
            } else {
                PerKeyAction::Lease
            }
        },
        PerKeyEvent::Leased(held) => {
            if held {
                PerKeyAction::Fetch
            } else {
                PerKeyAction::Done(0)
            }
        },
        PerKeyEvent::Fetched(whole) => {
            if whole {
                PerKeyAction::Walk
            } else {
                PerKeyAction::Done(0)
            }
        },
        PerKeyEvent::Walked(plan) => {
            if plan.dirty.entries.len() == 0 {
                PerKeyAction::Done(0)
            } else {
                rewrite(segments, plan)
            }
        },
        PerKeyEvent::Retired(removed) => PerKeyAction::Done(removed),
    }
}

fn rewrite(segments: &Vec<KeySegment>, plan: KeyPlan) -> (action: PerKeyAction)
    requires
        plan.wf(),
    ensures
        action matches PerKeyAction::Rewrite(rewrites, retired, removed) && {
            &&& rewrites@.map_values(|rewrite: Rewrite| rewrite@) == rewrites_of(
                plan.dirty.keys(),
                outputs_view(plan.outputs@),
                segments@,
            )
            &&& retired@ == plan.dirty.keys()
            &&& removed == plan.removed
        },
{
    let ghost keys = plan.dirty.keys();
    let ghost all = outputs_view(plan.outputs@);
    let dirty = plan.dirty;
    let mut outputs = plan.outputs;
    let mut rewrites: Vec<Rewrite> = Vec::new();
    let mut retired: Vec<u64> = Vec::new();
    let mut at: usize = 0;
    assert(keys.take(0) =~= Seq::empty());
    assert(rewrites@.map_values(|rewrite: Rewrite| rewrite@) =~= Seq::empty());
    while at < dirty.entries.len()
        invariant
            at <= dirty.entries@.len(),
            dirty.wf(),
            outputs.wf(),
            keys == dirty.keys(),
            forall|seq: u64|
                #![trigger outputs@.dom().contains(seq)]
                (forall|i: int| 0 <= i < at ==> #[trigger] keys[i] != seq) ==> outputs@.dom().contains(
                    seq,
                ) == all.dom().contains(seq) && (all.dom().contains(seq) ==> writes_view(
                    outputs@[seq]@,
                ) == all[seq]),
            rewrites@.map_values(|rewrite: Rewrite| rewrite@) == rewrites_of(
                keys.take(at as int),
                all,
                segments@,
            ),
            retired@ == keys.take(at as int),
        decreases dirty.entries@.len() - at,
    {
        let seq: u64 = dirty.entries[at].0;
        let ghost before = rewrites@;
        let ghost held = outputs@;
        proof {
            assert(keys[at as int] == seq);
            assert(keys.take(at + 1).drop_last() =~= keys.take(at as int));
            assert(keys.take(at + 1) =~= keys.take(at as int).push(seq));
            assert forall|i: int| 0 <= i < at implies #[trigger] keys[i] != seq by {
                assert(keys[i] == dirty.entries@[i].0@);
                if keys[i] == seq {
                    crate::ordmap::lemma_unique(dirty.entries@, i, at as int);
                }
            }
        }
        let (writer_epoch, last_modified_ms) = kept(segments, seq);
        match outputs.remove(&seq) {
            Some(writes) => {
                let one = Rewrite { seq, writes, writer_epoch, last_modified_ms };
                let ghost view = one@;
                rewrites.push(one);
                proof {
                    assert(all.dom().contains(seq));
                    assert(view =~= (Rewritten {
                        seq,
                        writes: all[seq],
                        writer_epoch,
                        last_modified_ms,
                    }));
                    assert(rewrites@.map_values(|rewrite: Rewrite| rewrite@)
                        =~= before.map_values(|rewrite: Rewrite| rewrite@).push(view));
                }
            },
            None => {},
        }
        proof {
            assert forall|other: u64|
                #![trigger outputs@.dom().contains(other)]
                (forall|i: int| 0 <= i < at + 1 ==> #[trigger] keys[i] != other) implies outputs@.dom().contains(
                other,
            ) == all.dom().contains(other) && (all.dom().contains(other) ==> writes_view(
                outputs@[other]@,
            ) == all[other]) by {
                assert(keys[at as int] != other);
                assert(forall|i: int| 0 <= i < at ==> #[trigger] keys[i] != other);
                assert(held.dom().contains(other) == all.dom().contains(other));
            }
        }
        retired.push(seq);
        at = at + 1;
    }
    assert(keys.take(at as int) =~= keys);
    PerKeyAction::Rewrite(rewrites, retired, plan.removed)
}

/// A rewritten segment has the epoch of the one it replaces, never a negative one, and
/// its time: what it served outranks, and outlives, what it did before.
pub proof fn a_rewrite_keeps_epoch_and_time(segments: Seq<KeySegment>, seq: u64, i: int)
    requires
        0 <= i < segments.len(),
        segments[i].seq == seq,
        forall|j: int| 0 <= j < i ==> (#[trigger] segments[j]).seq != seq,
    ensures
        kept_of(segments, seq).0 >= 0,
        kept_of(segments, seq).0 >= segments[i].writer_epoch,
        kept_of(segments, seq).0 == 0 || kept_of(segments, seq).0 == segments[i].writer_epoch,
        kept_of(segments, seq).1 == segments[i].last_modified_ms,
    decreases i,
{
    if i > 0 {
        let rest = segments.skip(1);
        assert(segments[0].seq != seq);
        assert(rest[i - 1] == segments[i]);
        assert forall|j: int| 0 <= j < i - 1 implies (#[trigger] rest[j]).seq != seq by {
            assert(rest[j] == segments[j + 1]);
        }
        a_rewrite_keeps_epoch_and_time(rest, seq, i - 1);
    }
}

/// Exactly the segments are written again that something was dropped from or repaired
/// in, as far as they hold anything, in their order, and each with all that it holds.
pub proof fn what_changed_is_rewritten(
    dirty: Seq<u64>,
    outputs: Map<u64, Seq<Write>>,
    segments: Seq<KeySegment>,
    k: int,
)
    requires
        0 <= k < dirty.len(),
    ensures
        ({
            let had = rewrites_of(dirty.take(k), outputs, segments);
            let more = rewrites_of(dirty.take(k + 1), outputs, segments);
            &&& outputs.dom().contains(dirty[k]) ==> {
                &&& more.len() == had.len() + 1
                &&& more.drop_last() == had
                &&& more.last().seq == dirty[k]
                &&& more.last().writes == outputs[dirty[k]]
                &&& more.last().writer_epoch == kept_of(segments, dirty[k]).0
                &&& more.last().last_modified_ms == kept_of(segments, dirty[k]).1
            }
            &&& !outputs.dom().contains(dirty[k]) ==> more == had
            &&& rewrites_of(dirty.take(0), outputs, segments).len() == 0
            &&& rewrites_of(dirty.take(dirty.len() as int), outputs, segments) == rewrites_of(
                dirty,
                outputs,
                segments,
            )
        }),
{
    assert(dirty.take(k + 1).drop_last() =~= dirty.take(k));
    assert(dirty.take(dirty.len() as int) =~= dirty);
    let had = rewrites_of(dirty.take(k), outputs, segments);
    let more = rewrites_of(dirty.take(k + 1), outputs, segments);
    if outputs.dom().contains(dirty[k]) {
        assert(more.drop_last() =~= had);
    }
}

/// The segments of a run are retired only once what they serve is elsewhere: where the
/// merged one was created, or where nothing of them is served. A run without the lease,
/// with a segment gone, or with a gap, is left as it is; and a merge counts the segments
/// that it retired.
pub proof fn a_run_is_retired_once_it_is_elsewhere(event: CompactEvent, run: Seq<u64>)
    requires
        run.len() <= u64::MAX,
    ensures
        ({
            let action = merge_goes_on(event, run);
            &&& action is Retire <==> event is Created || (event is Planned
                && event->Planned_0 is Superseded)
            &&& action is Create <==> event is Planned && event->Planned_0 is Write
            &&& action is Note <==> event is Planned && event->Planned_0 is Refused
            &&& action is Fetch <==> event == CompactEvent::Leased(true)
            &&& action is Plan <==> event == CompactEvent::Fetched(true)
            &&& event == CompactEvent::Leased(false) ==> action == CompactAction::Done(
                CompactRun::Drained,
            )
            &&& event == CompactEvent::Fetched(false) ==> action == CompactAction::Done(
                CompactRun::Retry,
            )
            &&& event == CompactEvent::Noted(true) ==> action == CompactAction::Done(
                CompactRun::Retry,
            )
            &&& event == CompactEvent::Noted(false) ==> action == CompactAction::Done(
                CompactRun::Drained,
            )
            &&& event is Retired ==> (action matches CompactAction::Done(CompactRun::Merged(n))
                && n == run.len())
        }),
{
}

/// The per-key pass touches nothing without segments, without the lease, or with a
/// segment gone, and has removed nothing then; and what it removed is what was retired.
pub proof fn a_pass_without_its_lease_removes_nothing(event: PerKeyEvent, segments: nat)
    ensures
        ({
            let action = pass_goes_on(event, segments);
            &&& event is Listed && segments == 0 ==> action == PerKeyAction::Done(0)
            &&& event is Listed && segments > 0 ==> action is Lease
            &&& event == PerKeyEvent::Leased(true) ==> action is Fetch
            &&& event == PerKeyEvent::Leased(false) ==> action == PerKeyAction::Done(0)
            &&& event == PerKeyEvent::Fetched(true) ==> action is Walk
            &&& event == PerKeyEvent::Fetched(false) ==> action == PerKeyAction::Done(0)
            &&& event is Walked ==> action == PerKeyAction::Done(0)
            &&& event matches PerKeyEvent::Retired(removed) ==> action == PerKeyAction::Done(
                removed,
            )
        }),
{
}

/// The run that is merged is the one that was selected: the segments from its first to
/// its last, none left out, in their order, with the time of the newest of them.
pub proof fn a_run_is_merged_as_selected(store: DynoStore, prefix: Seq<char>, run: MergeRun, i: int)
    requires
        store.selects(prefix, run),
        0 <= i < run.seqs@.len(),
    ensures
        ({
            let selection = store.selection(prefix);
            let found = selected(selection, store.tuning.prefix_compact_min_segments);
            let (start, end) = found->0;
            &&& found is Some
            &&& run.seqs@.len() == end - start
            &&& run.seqs@[i] == selection.sizes[start + i].seq
            &&& run.last_modified_ms == newest(selection.sizes, start, end)
        }),
{
    let selection = store.selection(prefix);
    let found = selected(selection, store.tuning.prefix_compact_min_segments);
    let (start, end) = found->0;
    selected_runs_may_be_merged(selection, 0, start, end);
    a_store_selects_by_what_it_knows(store, prefix, 0);
    assert(selection.eligible <= selection.sizes.len());
    let part = selection.sizes.subrange(start, end);
    assert(part.len() == end - start);
    assert(part[i] == selection.sizes[start + i]);
}

} // verus!
