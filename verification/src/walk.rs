//! The walk of the per-key pass over one partition: from its newest batch to its
//! oldest, so that the newest record of a key is met first.

use crate::merge::RunSubstream;
use crate::ordmap::{Key, OrdMap};
use crate::perkey::{
    exempt, is_exempt, key_set, outputs_view, settled, sum_up, with_write, write_of,
    BatchCompaction, KeyPass, KeyPlan, Staged, StagedRegion,
};
use crate::regions::{regions_view, FencedRegion, Region};
use crate::segment::{batches_view, Batch, Identity, RecordBatch, Write};
use vstd::prelude::*;

verus! {

/// A walk over the regions of a partition.
#[derive(Debug)]
pub struct KeyWalk {
    pub of: RunSubstream,
    /// The regions, in the order of their offsets.
    pub regions: Vec<FencedRegion>,
    /// How many of them are left.
    pub left: usize,
    /// How many batches of the last that is left are.
    pub rest: usize,
    pub pass: KeyPass,
    /// The regions that were walked, newest first.
    pub staged: Vec<StagedRegion>,
    /// Whether more keys were met than are told apart.
    pub given_up: bool,
}

/// How far a walk has come.
#[verifier::ext_equal]
pub struct Walked {
    pub left: nat,
    pub rest: nat,
    /// What is kept of the region that is walked, newest first.
    pub out: Seq<RecordBatch>,
    pub removed: u64,
    pub repaired: u64,
    pub staged: Seq<Staged>,
}

/// The views of regions that were walked.
pub open spec fn staged_view(staged: Seq<StagedRegion>) -> Seq<Staged> {
    staged.map_values(|region: StagedRegion| region@)
}

/// How many batches the last of some regions has.
pub open spec fn last_len(regions: Seq<Region>, left: nat) -> nat {
    if left == 0 {
        0
    } else {
        regions[left - 1].batches.len()
    }
}

/// The walk up to the next batch whose keys are looked at: what is exempt is carried
/// as it is, and a region that ends is staged.
pub open spec fn walked(regions: Seq<Region>, state: Walked) -> Walked
    decreases state.left, state.rest,
{
    if state.left == 0 {
        state
    } else if state.rest > 0 {
        let batch = regions[state.left - 1].batches[state.rest - 1];
        if exempt(batch) {
            walked(
                regions,
                Walked { rest: (state.rest - 1) as nat, out: state.out.push(batch), ..state },
            )
        } else {
            state
        }
    } else {
        walked(regions, region_ended(regions, state))
    }
}

/// The walk after a region ended.
pub open spec fn region_ended(regions: Seq<Region>, state: Walked) -> Walked {
    let region = regions[state.left - 1];
    let left = (state.left - 1) as nat;
    Walked {
        left,
        rest: last_len(regions, left),
        out: Seq::empty(),
        removed: 0,
        repaired: 0,
        staged: state.staged.push(
            Staged {
                seq: region.seq,
                base: region.base,
                batches: state.out.reverse(),
                removed: state.removed,
                repaired: state.repaired,
            },
        ),
    }
}

impl KeyWalk {
    pub open spec fn wf(&self) -> bool {
        &&& self.pass.wf()
        &&& self.left <= self.regions@.len()
        &&& self.rest <= last_len(regions_view(self.regions@), self.left as nat)
    }

    /// How far the walk has come.
    pub open spec fn state(&self) -> Walked {
        Walked {
            left: self.left as nat,
            rest: self.rest as nat,
            out: batches_view(self.pass.batches@),
            removed: self.pass.removed,
            repaired: self.pass.repaired,
            staged: staged_view(self.staged@),
        }
    }

    /// The batch whose keys are looked at next.
    pub open spec fn next(&self) -> RecordBatch {
        regions_view(self.regions@)[self.left - 1].batches[self.rest - 1]
    }

    /// A walk over regions that tells at most `cap` keys apart.
    pub fn new(of: RunSubstream, regions: Vec<FencedRegion>, cap: usize) -> (walk: Self)
        ensures
            walk.wf(),
            walk.of == of,
            walk.regions == regions,
            walk.pass.cap == cap,
            walk.pass.seen@.dom() == Set::<Seq<u8>>::empty(),
            !walk.given_up,
            walk.state() == (Walked {
                left: regions@.len(),
                rest: last_len(regions_view(regions@), regions@.len()),
                out: Seq::empty(),
                removed: 0,
                repaired: 0,
                staged: Seq::empty(),
            }),
    {
        let left: usize = regions.len();
        let rest: usize = if left > 0 {
            regions[left - 1].batches.len()
        } else {
            0
        };
        let walk = KeyWalk {
            of,
            regions,
            left,
            rest,
            pass: KeyPass::new(cap),
            staged: Vec::new(),
            given_up: false,
        };
        assert(staged_view(walk.staged@) =~= Seq::empty());
        walk
    }

    /// Walk up to the next batch whose keys are looked at, and say whether there is
    /// one.
    pub fn advance(&mut self) -> (more: bool)
        requires
            old(self).wf(),
        ensures
            final(self).wf(),
            final(self).of == old(self).of,
            final(self).regions == old(self).regions,
            final(self).given_up == old(self).given_up,
            final(self).pass.seen == old(self).pass.seen,
            final(self).pass.cap == old(self).pass.cap,
            final(self).state() == walked(regions_view(old(self).regions@), old(self).state()),
            more == (final(self).left > 0),
            more ==> final(self).rest > 0 && !exempt(final(self).next()),
    {
        let ghost regions = regions_view(self.regions@);
        let ghost end = walked(regions, self.state());
        while self.left > 0
            invariant
                self.wf(),
                self.of == old(self).of,
                self.regions == old(self).regions,
                self.given_up == old(self).given_up,
                self.pass.seen == old(self).pass.seen,
                self.pass.cap == old(self).pass.cap,
                regions == regions_view(self.regions@),
                end == walked(regions, self.state()),
                end == walked(regions_view(old(self).regions@), old(self).state()),
            decreases self.left, self.rest,
        {
            let ghost state = self.state();
            let region = &self.regions[self.left - 1];
            assert(regions[self.left - 1] == region@);
            if self.rest > 0 {
                let batch = &region.batches[self.rest - 1];
                assert(batch@ == region@.batches[self.rest - 1]);
                if !is_exempt(batch) {
                    return true;
                }
                let batch = batch.duplicate();
                self.pass.carry(batch);
                self.rest = self.rest - 1;
                assert(self.state() =~= (Walked {
                    rest: (state.rest - 1) as nat,
                    out: state.out.push(batch@),
                    ..state
                }));
            } else {
                let (seq, base) = (region.seq, region.base);
                let ghost before = self.staged@;
                let done = self.pass.finish_region(seq, base);
                self.staged.push(done);
                self.left = self.left - 1;
                self.rest = if self.left > 0 {
                    self.regions[self.left - 1].batches.len()
                } else {
                    0
                };
                proof {
                    assert(staged_view(self.staged@) =~= staged_view(before).push(done@));
                    assert(self.state() =~= region_ended(regions, state));
                }
            }
        }
        false
    }

    /// The batch whose keys are looked at next.
    pub fn batch(&self) -> (batch: &Batch)
        requires
            self.wf(),
            self.left > 0,
            self.rest > 0,
        ensures
            batch@ == self.next(),
    {
        let region = &self.regions[self.left - 1];
        assert(regions_view(self.regions@)[self.left - 1] == region@);
        &region.batches[self.rest - 1]
    }

    /// Take what the compactor made of the next batch.
    pub fn take(&mut self, compaction: BatchCompaction)
        requires
            old(self).wf(),
            old(self).left > 0,
            old(self).rest > 0,
        ensures
            final(self).wf(),
            final(self).of == old(self).of,
            final(self).regions == old(self).regions,
            final(self).pass.cap == old(self).pass.cap,
            final(self).pass.seen@.dom() == old(self).pass.seen@.dom().union(
                key_set(compaction.keys@),
            ),
            final(self).given_up == (final(self).pass.seen@.dom().len() > old(self).pass.cap),
            !final(self).given_up ==> final(self).state() == (Walked {
                rest: (old(self).rest - 1) as nat,
                out: old(self).state().out.push(settled(old(self).next(), compaction)),
                removed: sum_up(old(self).pass.removed, compaction.removed),
                repaired: if compaction.removed == 0 && compaction.repair_frame {
                    sum_up(old(self).pass.repaired, 1)
                } else {
                    old(self).pass.repaired
                },
                ..old(self).state()
            }),
    {
        let batch = self.batch().duplicate();
        self.given_up = !self.pass.take(batch, compaction);
        self.rest = self.rest - 1;
        proof {
            if !self.given_up {
                assert(self.state().out =~= old(self).state().out.push(
                    settled(old(self).next(), compaction),
                ));
            }
        }
    }

    /// Take the walk into a plan. Of a partition that was given up nothing is dropped,
    /// but its regions are held as they were read: a segment may be written again for
    /// another.
    pub fn settle(self, plan: &mut KeyPlan)
        requires
            self.wf(),
            old(plan).wf(),
            !self.given_up ==> self.left == 0,
        ensures
            final(plan).wf(),
            plan_view(*final(plan)) == plan_view(*old(plan)).with_walk(self),
    {
        if self.given_up {
            let mut regions = self.regions;
            let ghost all = with_originals(
                plan_view(*plan),
                self.of@,
                regions_view(regions@),
            );
            while regions.len() > 0
                invariant
                    plan.wf(),
                    all == with_originals(plan_view(*plan), self.of@, regions_view(regions@)),
                decreases regions@.len(),
            {
                let ghost left = regions@;
                let ghost before = plan_view(*plan);
                if let Some(region) = regions.pop() {
                    proof {
                        assert(regions_view(left).last() == region@);
                        assert(regions_view(left).drop_last() =~= regions_view(regions@));
                    }
                    plan.keep_original(&self.of, region.seq, region.base, region.batches);
                    assert(plan_view(*plan) =~= before.with_original(self.of@, region@));
                }
            }
        } else {
            let ghost staged = staged_view(self.staged@);
            let ghost start = plan_view(*plan);
            let of = self.of;
            let ghost mut done: int = 0;
            assert(staged.take(0) =~= Seq::empty());
            for region in it: self.staged.into_iter()
                invariant
                    it.seq() == self.staged@,
                    staged == staged_view(self.staged@),
                    done == it.index(),
                    of == self.of,
                    plan.wf(),
                    plan_view(*plan) == with_staged(start, of@, staged.take(done)),
            {
                let ghost before = plan_view(*plan);
                proof {
                    assert(staged.take(done + 1).drop_last() =~= staged.take(done));
                    assert(staged.take(done + 1).last() == region@);
                    done = done + 1;
                }
                plan.stage(&of, region);
                assert(plan_view(*plan) =~= before.with_region(of@, region@));
            }
            assert(staged.take(done) =~= staged);
        }
    }
}

/// The mathematical plan.
#[verifier::ext_equal]
pub struct Planned {
    pub outputs: Map<u64, Seq<Write>>,
    pub dirty: Set<u64>,
    pub removed: u64,
    pub repaired: u64,
}

/// The mathematical plan.
pub open spec fn plan_view(plan: KeyPlan) -> Planned {
    Planned {
        outputs: outputs_view(plan.outputs@),
        dirty: plan.dirty@.dom(),
        removed: plan.removed,
        repaired: plan.repaired,
    }
}

impl Planned {
    /// The plan with a region as it was read.
    pub open spec fn with_original(self, of: (Identity, Seq<char>, i32), region: Region) -> Planned {
        Planned {
            outputs: with_write(
                self.outputs,
                region.seq,
                write_of(of, region.base, region.batches),
            ),
            ..self
        }
    }

    /// The plan with a region as it is after the walk. Its segment is written again
    /// where a record was dropped or a frame repaired.
    pub open spec fn with_region(self, of: (Identity, Seq<char>, i32), region: Staged) -> Planned {
        Planned {
            outputs: with_write(
                self.outputs,
                region.seq,
                write_of(of, region.base, region.batches),
            ),
            dirty: if region.is_dirty() {
                self.dirty.insert(region.seq)
            } else {
                self.dirty
            },
            removed: if region.is_dirty() {
                sum_up(self.removed, region.removed)
            } else {
                self.removed
            },
            repaired: if region.is_dirty() {
                sum_up(self.repaired, region.repaired)
            } else {
                self.repaired
            },
        }
    }
}

/// A plan with regions as they were read, newest first.
pub open spec fn with_originals(
    plan: Planned,
    of: (Identity, Seq<char>, i32),
    regions: Seq<Region>,
) -> Planned
    decreases regions.len(),
{
    if regions.len() == 0 {
        plan
    } else {
        with_originals(plan.with_original(of, regions.last()), of, regions.drop_last())
    }
}

/// A plan with regions as they are after the walk.
pub open spec fn with_staged(
    plan: Planned,
    of: (Identity, Seq<char>, i32),
    staged: Seq<Staged>,
) -> Planned
    decreases staged.len(),
{
    if staged.len() == 0 {
        plan
    } else {
        with_staged(plan, of, staged.drop_last()).with_region(of, staged.last())
    }
}

impl Planned {
    /// The plan for nothing.
    pub open spec fn nothing() -> Planned {
        Planned { outputs: Map::empty(), dirty: Set::empty(), removed: 0, repaired: 0 }
    }

    /// The plan with a walk that is over.
    pub open spec fn with_walk(self, walk: KeyWalk) -> Planned {
        if walk.given_up {
            with_originals(self, walk.of@, regions_view(walk.regions@))
        } else {
            with_staged(self, walk.of@, staged_view(walk.staged@))
        }
    }
}

/// Walks over every sub-stream of segments, of which `regions` are the regions, in the
/// order of the sub-streams. No sub-stream is left out.
pub fn walks_of(
    substreams: &OrdMap<RunSubstream, ()>,
    regions: Vec<Vec<FencedRegion>>,
    cap: usize,
) -> (walks: Vec<KeyWalk>)
    requires
        regions@.len() == substreams.entries@.len(),
    ensures
        walks@.len() == substreams.entries@.len(),
        forall|i: int|
            #![trigger walks@[i]]
            0 <= i < walks@.len() ==> {
                &&& walks@[i].wf()
                &&& walks@[i].of@ == substreams.keys()[i]
                &&& walks@[i].regions == regions@[i]
                &&& walks@[i].pass.cap == cap
                &&& walks@[i].pass.seen@.dom() == Set::<Seq<u8>>::empty()
                &&& !walks@[i].given_up
                &&& walks@[i].left == regions@[i]@.len()
                &&& walks@[i].rest == last_len(regions_view(regions@[i]@), regions@[i]@.len())
                &&& walks@[i].staged@.len() == 0
            },
{
    let mut walks: Vec<KeyWalk> = Vec::new();
    let mut at: usize = 0;
    for own in it: regions.into_iter()
        invariant
            it.seq() == regions@,
            regions@.len() == substreams.entries@.len(),
            at == it.index(),
            walks@.len() == at,
            forall|i: int|
                #![trigger walks@[i]]
                0 <= i < walks@.len() ==> {
                    &&& walks@[i].wf()
                    &&& walks@[i].of@ == substreams.keys()[i]
                    &&& walks@[i].regions == regions@[i]
                    &&& walks@[i].pass.cap == cap
                    &&& walks@[i].pass.seen@.dom() == Set::<Seq<u8>>::empty()
                    &&& !walks@[i].given_up
                    &&& walks@[i].left == regions@[i]@.len()
                    &&& walks@[i].rest == last_len(regions_view(regions@[i]@), regions@[i]@.len())
                    &&& walks@[i].staged@.len() == 0
                },
    {
        assert(at < substreams.entries.len());
        let of = substreams.entries[at].0.duplicate();
        assert(substreams.keys()[at as int] == of@);
        let walk = KeyWalk::new(of, own, cap);
        assert(staged_view(walk.staged@).len() == 0);
        walks.push(walk);
        at = at + 1;
    }
    walks
}

/// The plan that walks make, one behind another.
pub open spec fn plan_of(walks: Seq<KeyWalk>) -> Planned
    decreases walks.len(),
{
    if walks.len() == 0 {
        Planned::nothing()
    } else {
        plan_of(walks.drop_last()).with_walk(walks.last())
    }
}

/// Take walks that are over into a plan.
pub fn settle_walks(walks: Vec<KeyWalk>) -> (plan: KeyPlan)
    requires
        forall|i: int|
            #![trigger walks@[i]]
            0 <= i < walks@.len() ==> walks@[i].wf() && (!walks@[i].given_up ==> walks@[i].left
                == 0),
    ensures
        plan.wf(),
        plan_view(plan) == plan_of(walks@),
{
    let mut plan = KeyPlan::new();
    let ghost mut done: int = 0;
    assert(walks@.take(0) =~= Seq::empty());
    assert(plan_view(plan) =~= Planned::nothing());
    for walk in it: walks.into_iter()
        invariant
            it.seq() == walks@,
            done == it.index(),
            plan.wf(),
            plan_view(plan) == plan_of(walks@.take(done)),
            forall|i: int|
                #![trigger walks@[i]]
                0 <= i < walks@.len() ==> walks@[i].wf() && (!walks@[i].given_up ==> walks@[i].left
                    == 0),
    {
        proof {
            assert(walk == walks@[done]);
            assert(walks@.take(done + 1).drop_last() =~= walks@.take(done));
            assert(walks@.take(done + 1).last() == walk);
            done = done + 1;
        }
        walk.settle(&mut plan);
    }
    assert(walks@.take(done) =~= walks@);
    plan
}

/// Whether a walk has lost nothing: what was staged are the newest regions, newest
/// first, each at its offset and with as many batches as it had, and of the region
/// that is walked every batch is kept or left.
pub open spec fn nothing_lost(regions: Seq<Region>, state: Walked) -> bool {
    &&& state.staged.len() + state.left == regions.len()
    &&& state.left > 0 ==> state.out.len() + state.rest == last_len(regions, state.left)
    &&& forall|i: int|
        #![trigger state.staged[i]]
        0 <= i < state.staged.len() ==> {
            let region = regions[regions.len() - 1 - i];
            &&& state.staged[i].seq == region.seq
            &&& state.staged[i].base == region.base
            &&& state.staged[i].batches.len() == region.batches.len()
        }
}

/// A walk loses no region and no batch, however far it goes.
pub proof fn a_walk_loses_nothing(regions: Seq<Region>, state: Walked)
    requires
        nothing_lost(regions, state),
    ensures
        nothing_lost(regions, walked(regions, state)),
    decreases state.left, state.rest,
{
    if state.left > 0 {
        if state.rest > 0 {
            let batch = regions[state.left - 1].batches[state.rest - 1];
            if exempt(batch) {
                let next = Walked {
                    rest: (state.rest - 1) as nat,
                    out: state.out.push(batch),
                    ..state
                };
                a_walk_loses_nothing(regions, next);
            }
        } else {
            let next = region_ended(regions, state);
            assert(state.out.reverse().len() == state.out.len());
            assert forall|i: int|
                #![trigger next.staged[i]]
                0 <= i < next.staged.len() implies {
                let region = regions[regions.len() - 1 - i];
                &&& next.staged[i].seq == region.seq
                &&& next.staged[i].base == region.base
                &&& next.staged[i].batches.len() == region.batches.len()
            } by {
                if i < state.staged.len() {
                    assert(next.staged[i] == state.staged[i]);
                }
            }
            a_walk_loses_nothing(regions, next);
        }
    }
}

/// Whether a walk carries what is exempt as it is, each batch in its own place: of the
/// regions that were staged, and of the one that is walked.
pub open spec fn carries_exempt(regions: Seq<Region>, state: Walked) -> bool {
    &&& forall|i: int, k: int|
        #![trigger state.staged[i].batches[k]]
        0 <= i < state.staged.len() && 0 <= k < state.staged[i].batches.len() && (
        regions[regions.len() - 1 - i].batches[k].control || regions[regions.len() - 1
            - i].batches[k].transactional) ==> state.staged[i].batches[k] == regions[regions.len()
            - 1 - i].batches[k]
    &&& state.left > 0 ==> forall|j: int|
        #![trigger state.out[j]]
        0 <= j < state.out.len() && (regions[state.left - 1].batches[last_len(regions, state.left)
            - 1 - j].control || regions[state.left - 1].batches[last_len(regions, state.left) - 1
            - j].transactional) ==> state.out[j] == regions[state.left - 1].batches[last_len(
            regions,
            state.left,
        ) - 1 - j]
}

/// A walk carries the markers and the records of transactions as they are, each in its
/// own place, however far it goes; and it stops at a batch that is neither, or at the
/// end.
pub proof fn a_walk_carries_what_is_exempt(regions: Seq<Region>, state: Walked)
    requires
        nothing_lost(regions, state),
        carries_exempt(regions, state),
    ensures
        ({
            let after = walked(regions, state);
            &&& carries_exempt(regions, after)
            &&& after.left == 0 || after.rest > 0
            &&& after.left > 0 ==> !regions[after.left - 1].batches[after.rest - 1].control
                && !regions[after.left - 1].batches[after.rest - 1].transactional
            &&& after.left <= state.left
            &&& after.staged.len() >= state.staged.len()
            &&& after.staged.take(state.staged.len() as int) == state.staged
        }),
    decreases state.left, state.rest,
{
    if state.left == 0 {
        assert(state.staged.take(state.staged.len() as int) =~= state.staged);
    } else if state.rest > 0 {
        let batch = regions[state.left - 1].batches[state.rest - 1];
        if exempt(batch) {
            let next = Walked {
                rest: (state.rest - 1) as nat,
                out: state.out.push(batch),
                ..state
            };
            a_walk_carries_what_is_exempt(regions, next);
        } else {
            assert(state.staged.take(state.staged.len() as int) =~= state.staged);
        }
    } else {
        let next = region_ended(regions, state);
        let region = regions[state.left - 1];
        let at = state.staged.len();
        assert(regions.len() - 1 - at == state.left - 1);
        assert(next.staged[at as int].batches == state.out.reverse());
        assert(nothing_lost(regions, next)) by {
            assert forall|i: int|
                #![trigger next.staged[i]]
                0 <= i < next.staged.len() implies ({
                let region = regions[regions.len() - 1 - i];
                &&& next.staged[i].seq == region.seq
                &&& next.staged[i].base == region.base
                &&& next.staged[i].batches.len() == region.batches.len()
            }) by {
                if i < at {
                    assert(next.staged[i] == state.staged[i]);
                }
            }
        }
        assert(carries_exempt(regions, next)) by {
            assert forall|i: int, k: int|
                #![trigger next.staged[i].batches[k]]
                0 <= i < next.staged.len() && 0 <= k < next.staged[i].batches.len() && (
                regions[regions.len() - 1 - i].batches[k].control || regions[regions.len() - 1
                    - i].batches[k].transactional) implies next.staged[i].batches[k]
                == regions[regions.len() - 1 - i].batches[k] by {
                if i < at {
                    assert(next.staged[i] == state.staged[i]);
                    assert(state.staged[i].batches[k] == next.staged[i].batches[k]);
                } else {
                    let j = state.out.len() - 1 - k;
                    assert(state.out.reverse()[k] == state.out[j]);
                    assert(last_len(regions, state.left) - 1 - j == k);
                }
            }
        }
        a_walk_carries_what_is_exempt(regions, next);
        let after = walked(regions, state);
        assert(after.staged.take(state.staged.len() as int) =~= after.staged.take(
            next.staged.len() as int,
        ).take(state.staged.len() as int));
        assert(next.staged.take(state.staged.len() as int) =~= state.staged);
    }
}

/// What a walked region adds to a plan: a write of its sub-stream, from its own offset
/// and behind what its segment has, and, if and only if it lost a record or a frame was
/// repaired, that its segment is written again, and what that removed and repaired.
/// Other segments have what they had.
pub proof fn a_walked_region_is_written(
    plan: Planned,
    of: (Identity, Seq<char>, i32),
    region: Staged,
    other: u64,
)
    requires
        other != region.seq,
    ensures
        ({
            let after = plan.with_region(of, region);
            let write = Write {
                topic: of.1,
                partition: of.2,
                identity: of.0,
                base_offset: region.base,
                batches: region.batches,
            };
            let dirty = region.removed > 0 || region.repaired > 0;
            &&& after.outputs.dom().contains(region.seq)
            &&& plan.outputs.dom().contains(region.seq) ==> after.outputs[region.seq]
                == plan.outputs[region.seq].push(write)
            &&& !plan.outputs.dom().contains(region.seq) ==> after.outputs[region.seq]
                == seq![write]
            &&& after.outputs.dom().contains(other) <==> plan.outputs.dom().contains(other)
            &&& after.outputs[other] == plan.outputs[other]
            &&& after.dirty.contains(region.seq) <==> dirty || plan.dirty.contains(region.seq)
            &&& after.dirty.contains(other) <==> plan.dirty.contains(other)
            &&& plan.removed + region.removed <= u64::MAX ==> after.removed == plan.removed
                + if dirty {
                region.removed as int
            } else {
                0
            }
            &&& plan.repaired + region.repaired <= u64::MAX ==> after.repaired == plan.repaired
                + if dirty {
                region.repaired as int
            } else {
                0
            }
        }),
{
}

/// A walk that is given up leaves the regions of its sub-stream as they were read: each
/// is written from its own offset with the batches that it had, and no segment is
/// written again for it.
pub proof fn giving_up_keeps_every_region(
    plan: Planned,
    of: (Identity, Seq<char>, i32),
    regions: Seq<Region>,
    i: int,
)
    requires
        0 <= i < regions.len(),
    ensures
        ({
            let after = with_originals(plan, of, regions);
            &&& after.dirty == plan.dirty
            &&& after.removed == plan.removed
            &&& after.repaired == plan.repaired
            &&& after.outputs.dom().contains(regions[i].seq)
            &&& after.outputs[regions[i].seq].contains(
                Write {
                    topic: of.1,
                    partition: of.2,
                    identity: of.0,
                    base_offset: regions[i].base,
                    batches: regions[i].batches,
                },
            )
        }),
    decreases regions.len(),
{
    let last = regions.last();
    let next = plan.with_original(of, last);
    let init = regions.drop_last();
    let write = write_of(of, regions[i].base, regions[i].batches);
    lemma_originals_stay(next, of, init);
    if i == regions.len() - 1 {
        let list = next.outputs[last.seq];
        assert(list[list.len() - 1] == write);
        assert(list.contains(write));
        lemma_originals_grow(next, of, init, last.seq, write);
    } else {
        assert(init[i] == regions[i]);
        giving_up_keeps_every_region(next, of, init, i);
    }
}

proof fn lemma_originals_stay(plan: Planned, of: (Identity, Seq<char>, i32), regions: Seq<Region>)
    ensures
        with_originals(plan, of, regions).dirty == plan.dirty,
        with_originals(plan, of, regions).removed == plan.removed,
        with_originals(plan, of, regions).repaired == plan.repaired,
    decreases regions.len(),
{
    if regions.len() > 0 {
        lemma_originals_stay(plan.with_original(of, regions.last()), of, regions.drop_last());
    }
}

proof fn lemma_originals_grow(
    plan: Planned,
    of: (Identity, Seq<char>, i32),
    regions: Seq<Region>,
    seq: u64,
    write: Write,
)
    requires
        plan.outputs.dom().contains(seq),
        plan.outputs[seq].contains(write),
    ensures
        with_originals(plan, of, regions).outputs.dom().contains(seq),
        with_originals(plan, of, regions).outputs[seq].contains(write),
    decreases regions.len(),
{
    if regions.len() > 0 {
        let next = plan.with_original(of, regions.last());
        let i = choose|i: int|
            0 <= i < plan.outputs[seq].len() && plan.outputs[seq][i] == write;
        assert(next.outputs[seq][i] == write);
        assert(next.outputs[seq].contains(write));
        lemma_originals_grow(next, of, regions.drop_last(), seq, write);
    }
}

/// Every region that was walked is written, and its segment is written again if one of
/// its regions was changed, and only then.
pub proof fn every_walked_region_is_written(
    plan: Planned,
    of: (Identity, Seq<char>, i32),
    staged: Seq<Staged>,
    i: int,
    seq: u64,
)
    requires
        0 <= i < staged.len(),
    ensures
        ({
            let after = with_staged(plan, of, staged);
            &&& after.outputs.dom().contains(staged[i].seq)
            &&& after.outputs[staged[i].seq].contains(
                Write {
                    topic: of.1,
                    partition: of.2,
                    identity: of.0,
                    base_offset: staged[i].base,
                    batches: staged[i].batches,
                },
            )
            &&& after.dirty.contains(seq) <==> plan.dirty.contains(seq) || exists|k: int|
                0 <= k < staged.len() && (#[trigger] staged[k]).seq == seq && (staged[k].removed > 0
                    || staged[k].repaired > 0)
        }),
    decreases staged.len(),
{
    let init = staged.drop_last();
    let end = staged.len() - 1;
    let before = with_staged(plan, of, init);
    let after = with_staged(plan, of, staged);
    let write = write_of(of, staged[i].base, staged[i].batches);
    if init.len() > 0 {
        every_walked_region_is_written(
            plan,
            of,
            init,
            if i < end {
                i
            } else {
                0
            },
            seq,
        );
    }
    assert forall|k: int| 0 <= k < end implies #[trigger] staged[k] == init[k] by {}
    if i < end {
        assert(init[i] == staged[i]);
        let list = before.outputs[staged[i].seq];
        let k = choose|k: int| 0 <= k < list.len() && list[k] == write;
        assert(after.outputs[staged[i].seq][k] == write);
    } else {
        let list = after.outputs[staged[i].seq];
        assert(list[list.len() - 1] == write);
    }
    if exists|k: int|
        0 <= k < init.len() && (#[trigger] init[k]).seq == seq && (init[k].removed > 0
            || init[k].repaired > 0) {
        let k = choose|k: int|
            0 <= k < init.len() && (#[trigger] init[k]).seq == seq && (init[k].removed > 0
                || init[k].repaired > 0);
        assert(staged[k] == init[k]);
    }
    if exists|k: int|
        0 <= k < staged.len() && (#[trigger] staged[k]).seq == seq && (staged[k].removed > 0
            || staged[k].repaired > 0) {
        let k = choose|k: int|
            0 <= k < staged.len() && (#[trigger] staged[k]).seq == seq && (staged[k].removed > 0
                || staged[k].repaired > 0);
        if k < end {
            assert(init[k] == staged[k]);
        }
    }
    if after.dirty.contains(seq) && !before.dirty.contains(seq) {
        assert(staged[end].seq == seq);
    }
}

/// A walk that was given up changes nothing, and one that was not is written as it was
/// walked: only the latter has a segment written again, or counts what was removed.
pub proof fn a_walk_given_up_changes_nothing(plan: Planned, walk: KeyWalk)
    ensures
        walk.given_up ==> plan.with_walk(walk).dirty == plan.dirty && plan.with_walk(walk).removed
            == plan.removed && plan.with_walk(walk).repaired == plan.repaired,
        !walk.given_up ==> plan.with_walk(walk) == with_staged(
            plan,
            walk.of@,
            staged_view(walk.staged@),
        ),
        walk.given_up ==> plan.with_walk(walk) == with_originals(
            plan,
            walk.of@,
            regions_view(walk.regions@),
        ),
{
    lemma_originals_stay(plan, walk.of@, regions_view(walk.regions@));
}

} // verus!
