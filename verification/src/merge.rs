//! Merging a run of segments into one.

use crate::fence::outranks;
use crate::fetch::runs_in_range;
use crate::index::Candidate;
use crate::ordmap::{Key, OrdMap};
use crate::regions::{regions_view, FencedRegion, Region};
use crate::segment::{
    batches_view, identity_before, span_of, writes_view, Batch, Identity, RecordBatch, Substream,
    SubstreamWrite, Topition, Write,
};
use crate::text::{lemma_text_irreflexive, lemma_text_total, lemma_text_transitive, text_before};
use vstd::prelude::*;
use vstd::string::*;

verus! {

/// A sub-stream's partition that a run holds records of, with the topic's name.
#[derive(Debug)]
pub struct RunSubstream {
    pub substream: Substream,
    pub topic: String,
    pub partition: i32,
}

impl View for RunSubstream {
    type V = (Identity, Seq<char>, i32);

    open spec fn view(&self) -> (Identity, Seq<char>, i32) {
        (self.substream@, self.topic@, self.partition)
    }
}

/// The order of the sub-streams of a run: by identity, by name, by partition.
pub open spec fn run_before(a: (Identity, Seq<char>, i32), b: (Identity, Seq<char>, i32)) -> bool {
    identity_before(a.0, b.0) || (a.0 == b.0 && (text_before(a.1, b.1) || (a.1 == b.1 && a.2
        < b.2)))
}

impl Key for RunSubstream {
    open spec fn before(a: (Identity, Seq<char>, i32), b: (Identity, Seq<char>, i32)) -> bool {
        run_before(a, b)
    }

    proof fn before_irreflexive(a: (Identity, Seq<char>, i32)) {
        assert(Self::before(a, a) == run_before(a, a));
        Substream::before_irreflexive(a.0);
        lemma_text_irreflexive(a.1);
    }

    proof fn before_transitive(
        a: (Identity, Seq<char>, i32),
        b: (Identity, Seq<char>, i32),
        c: (Identity, Seq<char>, i32),
    ) {
        assert(Self::before(a, b) == run_before(a, b));
        assert(Self::before(b, c) == run_before(b, c));
        assert(Self::before(a, c) == run_before(a, c));
        if identity_before(a.0, b.0) && identity_before(b.0, c.0) {
            Substream::before_transitive(a.0, b.0, c.0);
        }
        if text_before(a.1, b.1) && text_before(b.1, c.1) {
            lemma_text_transitive(a.1, b.1, c.1);
        }
    }

    proof fn before_total(a: (Identity, Seq<char>, i32), b: (Identity, Seq<char>, i32)) {
        assert(Self::before(a, b) == run_before(a, b));
        assert(Self::before(b, a) == run_before(b, a));
        Substream::before_total(a.0, b.0);
        lemma_text_total(a.1, b.1);
    }

    fn less(&self, other: &Self) -> (less: bool) {
        assert(Self::before(self@, other@) == run_before(self@, other@));
        self.substream.less(&other.substream) || (self.substream.same(&other.substream) && (
        self.topic.less(&other.topic) || (self.topic.same(&other.topic) && self.partition
            < other.partition)))
    }

    fn same(&self, other: &Self) -> (same: bool) {
        self.substream.same(&other.substream) && self.topic.same(&other.topic) && self.partition
            == other.partition
    }

    fn duplicate(&self) -> (copy: Self) {
        RunSubstream {
            substream: self.substream.duplicate(),
            topic: self.topic.clone(),
            partition: self.partition,
        }
    }
}

/// What a run holds of one sub-stream's partition.
#[derive(Debug)]
pub struct MergePart {
    pub of: RunSubstream,
    /// What each segment contributes, in ascending order of offsets.
    pub regions: Vec<FencedRegion>,
}

/// The mathematical part.
#[verifier::ext_equal]
pub struct Part {
    pub of: (Identity, Seq<char>, i32),
    pub regions: Seq<Region>,
}

impl View for MergePart {
    type V = Part;

    open spec fn view(&self) -> Part {
        Part { of: self.of@, regions: regions_view(self.regions@) }
    }
}

/// The views of parts.
pub open spec fn parts_view(parts: Seq<MergePart>) -> Seq<Part> {
    parts.map_values(|part: MergePart| part@)
}

/// One past the last offset of a region.
pub open spec fn region_end(region: Region) -> int {
    region.base + span_of(region.batches)
}

/// Whether a region does not begin where the one before it ends.
pub open spec fn breaks_at(regions: Seq<Region>, at: int) -> bool {
    0 < at < regions.len() && regions[at].base != region_end(regions[at - 1])
}

/// The segments at which the regions of a part do not tile.
pub open spec fn breaks(regions: Seq<Region>) -> Set<u64> {
    Set::new(
        |seq: u64| exists|at: int| #[trigger] breaks_at(regions, at) && regions[at].seq == seq,
    )
}

/// The segments at which a part does not tile.
pub open spec fn all_breaks(parts: Seq<Part>) -> Set<u64>
    decreases parts.len(),
{
    if parts.len() == 0 {
        Set::empty()
    } else {
        all_breaks(parts.drop_last()).union(breaks(parts.last().regions))
    }
}

/// The batches of regions, one behind another.
pub open spec fn all_batches(regions: Seq<Region>) -> Seq<RecordBatch>
    decreases regions.len(),
{
    if regions.len() == 0 {
        Seq::empty()
    } else {
        all_batches(regions.drop_last()) + regions.last().batches
    }
}

/// The merged sub-stream of a part.
pub open spec fn merged(part: Part) -> Write {
    Write {
        topic: part.of.1,
        partition: part.of.2,
        identity: part.of.0,
        base_offset: part.regions[0].base,
        batches: all_batches(part.regions),
    }
}

/// The merged sub-streams of the parts that hold anything.
pub open spec fn all_merged(parts: Seq<Part>) -> Seq<Write>
    decreases parts.len(),
{
    if parts.len() == 0 {
        Seq::empty()
    } else if parts.last().regions.len() == 0 {
        all_merged(parts.drop_last())
    } else {
        all_merged(parts.drop_last()).push(merged(parts.last()))
    }
}

/// The highest epoch of the segments of regions, and at least `least`.
pub open spec fn top_epoch(regions: Seq<Region>, epochs: Map<u64, i64>, least: i64) -> i64
    decreases regions.len(),
{
    if regions.len() == 0 {
        least
    } else {
        let before = top_epoch(regions.drop_last(), epochs, least);
        let seq = regions.last().seq;
        if epochs.dom().contains(seq) && epochs[seq] > before {
            epochs[seq]
        } else {
            before
        }
    }
}

/// The epoch of a merged segment: the highest of those merged, and not negative.
pub open spec fn merged_epoch(parts: Seq<Part>, epochs: Map<u64, i64>) -> i64
    decreases parts.len(),
{
    if parts.len() == 0 {
        0
    } else {
        top_epoch(parts.last().regions, epochs, merged_epoch(parts.drop_last(), epochs))
    }
}

/// What becomes of a run.
#[derive(Debug)]
pub enum MergePlan {
    /// It is not merged: offsets would shift across these segments.
    Refused(OrdMap<u64, ()>),
    /// Nothing of it is served any more.
    Superseded,
    /// It is written as one segment.
    Write(Vec<SubstreamWrite>, i64),
}

/// Whether a plan is what becomes of a run, of which these are the parts and the epochs.
pub open spec fn is_plan(plan: MergePlan, parts: Seq<Part>, epochs: Map<u64, i64>) -> bool {
    match plan {
        MergePlan::Refused(seams) => seams.wf() && seams@.dom() == all_breaks(parts) && !(
        seams@.dom() =~= Set::empty()),
        MergePlan::Superseded => all_breaks(parts) =~= Set::empty() && all_merged(parts).len()
            == 0,
        MergePlan::Write(writes, epoch) => {
            &&& all_breaks(parts) =~= Set::empty()
            &&& writes_view(writes@) == all_merged(parts)
            &&& writes@.len() > 0
            &&& epoch == merged_epoch(parts, epochs)
        },
    }
}

/// The views of the regions of several sub-streams.
pub open spec fn all_regions_view(regions: Seq<Vec<FencedRegion>>) -> Seq<Seq<Region>> {
    regions.map_values(|regions: Vec<FencedRegion>| regions_view(regions@))
}

/// The parts of a run: each of its sub-streams, with the regions of it.
pub open spec fn run_parts(
    substreams: Seq<(Identity, Seq<char>, i32)>,
    regions: Seq<Seq<Region>>,
) -> Seq<Part> {
    Seq::new(substreams.len(), |i: int| Part { of: substreams[i], regions: regions[i] })
}

/// Add the segments at which regions do not tile to `seams`, and say whether there
/// are none.
fn find_breaks(regions: &Vec<FencedRegion>, seams: &mut OrdMap<u64, ()>) -> (tiles: bool)
    requires
        old(seams).wf(),
        forall|i: int|
            #![trigger regions@[i]]
            0 <= i < regions@.len() ==> runs_in_range(
                regions@[i]@.base as int,
                regions@[i]@.batches,
            ),
    ensures
        final(seams).wf(),
        final(seams)@.dom() == old(seams)@.dom().union(breaks(regions_view(regions@))),
        tiles == (breaks(regions_view(regions@)) =~= Set::empty()),
{
    let ghost all = regions_view(regions@);
    let ghost before = seams@.dom();
    let mut tiles = true;
    let mut at: usize = 1;
    while at < regions.len()
        invariant
            1 <= at,
            at <= regions@.len() || at == 1,
            all == regions_view(regions@),
            seams.wf(),
            forall|i: int|
                #![trigger regions@[i]]
                0 <= i < regions@.len() ==> runs_in_range(
                    regions@[i]@.base as int,
                    regions@[i]@.batches,
                ),
            forall|seq: u64| #[trigger]
                seams@.dom().contains(seq) <==> (before.contains(seq) || exists|i: int|
                    i < at && #[trigger] breaks_at(all, i) && all[i].seq == seq),
            tiles == !(exists|i: int| i < at && #[trigger] breaks_at(all, i)),
        decreases regions@.len() - at,
    {
        let last = &regions[at - 1];
        let here = &regions[at];
        assert(all[at - 1] == last@ && all[at as int] == here@);
        assert(runs_in_range(regions@[at - 1]@.base as int, regions@[at - 1]@.batches));
        let end: i64 = end_of_region(last);
        let ghost known = seams@.dom();
        if here.base != end {
            assert(breaks_at(all, at as int));
            tiles = false;
            let _ = seams.insert(here.seq, ());
        } else {
            assert(!breaks_at(all, at as int));
        }
        proof {
            assert forall|seq: u64| #[trigger] seams@.dom().contains(seq) <==> (before.contains(seq)
                || exists|i: int| i < at + 1 && #[trigger] breaks_at(all, i) && all[i].seq == seq) by {
                assert(known.contains(seq) <==> (before.contains(seq) || exists|i: int|
                    i < at && #[trigger] breaks_at(all, i) && all[i].seq == seq));
                if breaks_at(all, at as int) && all[at as int].seq == seq {
                    assert(breaks_at(all, at as int));
                }
            }
        }
        at = at + 1;
    }
    proof {
        assert forall|i: int| #[trigger] breaks_at(all, i) implies i < at by {}
        assert(seams@.dom() =~= before.union(breaks(all)));
        if !tiles {
            let i = choose|i: int| i < at && #[trigger] breaks_at(all, i);
            assert(breaks(all).contains(all[i].seq));
        }
    }
    tiles
}

/// One past the last offset of a region.
fn end_of_region(region: &FencedRegion) -> (end: i64)
    requires
        runs_in_range(region@.base as int, region@.batches),
    ensures
        end == region_end(region@),
{
    let ghost all = region@.batches;
    let mut end: i64 = region.base;
    let mut at: usize = 0;
    assert(all.take(0) =~= Seq::empty());
    while at < region.batches.len()
        invariant
            all == batches_view(region.batches@),
            runs_in_range(region.base as int, all),
            at <= region.batches@.len(),
            end == region.base + span_of(all.take(at as int)),
        decreases region.batches@.len() - at,
    {
        assert(all.take(at + 1).drop_last() =~= all.take(at as int));
        assert(all.take(at + 1).last() == region.batches@[at as int]@);
        assert(i64::MIN <= region.base + span_of(all.take(at + 1)) <= i64::MAX);
        let span: i64 = region.batches[at].last_offset_delta as i64 + 1;
        end = end + span;
        at = at + 1;
    }
    assert(all.take(at as int) =~= all);
    end
}

/// Merge the regions of one part.
fn merge_part(part: MergePart) -> (write: SubstreamWrite)
    requires
        part@.regions.len() > 0,
    ensures
        write@ == merged(part@),
{
    let ghost all = part@.regions;
    let MergePart { of, regions } = part;
    let base: i64 = regions[0].base;
    assert(all[0] == regions@[0]@);
    let mut batches: Vec<Batch> = Vec::new();
    let ghost mut done: int = 0;
    assert(all.take(0) =~= Seq::empty());
    assert(batches_view(batches@) =~= Seq::empty());
    for region in it: regions.into_iter()
        invariant
            it.seq() == regions@,
            all == regions_view(regions@),
            done == it.index(),
            batches_view(batches@) == all_batches(all.take(done)),
    {
        proof {
            assert(all.take(done + 1).drop_last() =~= all.take(done));
            assert(all.take(done + 1).last() == region@);
            done = done + 1;
        }
        let ghost before = batches@;
        let mut more = region.batches;
        let ghost added = more@;
        batches.append(&mut more);
        assert(batches_view(batches@) =~= batches_view(before) + batches_view(added));
    }
    assert(all.take(done) =~= all);
    let write = SubstreamWrite {
        topition: Topition::new(of.topic, of.partition),
        substream: of.substream,
        base_offset: base,
        batches,
    };
    assert(write@ =~= merged(part@));
    write
}

/// The highest epoch of the segments of regions, and at least `least`.
fn epoch_of(regions: &Vec<FencedRegion>, epochs: &OrdMap<u64, i64>, least: i64) -> (epoch: i64)
    requires
        epochs.wf(),
    ensures
        epoch == top_epoch(regions_view(regions@), epochs@, least),
{
    let ghost all = regions_view(regions@);
    let mut epoch: i64 = least;
    let mut at: usize = 0;
    assert(all.take(0) =~= Seq::empty());
    while at < regions.len()
        invariant
            all == regions_view(regions@),
            epochs.wf(),
            at <= regions@.len(),
            epoch == top_epoch(all.take(at as int), epochs@, least),
        decreases regions@.len() - at,
    {
        assert(all.take(at + 1).drop_last() =~= all.take(at as int));
        assert(all.take(at + 1).last() == regions@[at as int]@);
        if let Some(held) = epochs.get(&regions[at].seq) {
            if *held > epoch {
                epoch = *held;
            }
        }
        at = at + 1;
    }
    assert(all.take(at as int) =~= all);
    epoch
}

/// Decide what becomes of a run, of which `parts` are the sub-streams and `epochs`
/// the epochs of its segments.
pub fn plan_merge(parts: Vec<MergePart>, epochs: &OrdMap<u64, i64>) -> (plan: MergePlan)
    requires
        epochs.wf(),
        forall|p: int, i: int|
            #![trigger parts@[p].regions@[i]]
            0 <= p < parts@.len() && 0 <= i < parts@[p].regions@.len() ==> runs_in_range(
                parts@[p].regions@[i]@.base as int,
                parts@[p].regions@[i]@.batches,
            ),
    ensures
        is_plan(plan, parts_view(parts@), epochs@),
{
    let ghost all = parts_view(parts@);
    let mut seams: OrdMap<u64, ()> = OrdMap::new();
    let mut writes: Vec<SubstreamWrite> = Vec::new();
    let mut epoch: i64 = 0;
    let ghost mut done: int = 0;
    assert(all.take(0) =~= Seq::empty());
    assert(writes_view(writes@) =~= Seq::empty());
    assert(seams@.dom() =~= Set::empty());
    for part in it: parts.into_iter()
        invariant
            it.seq() == parts@,
            all == parts_view(parts@),
            done == it.index(),
            epochs.wf(),
            seams.wf(),
            forall|p: int, i: int|
                #![trigger parts@[p].regions@[i]]
                0 <= p < parts@.len() && 0 <= i < parts@[p].regions@.len() ==> runs_in_range(
                    parts@[p].regions@[i]@.base as int,
                    parts@[p].regions@[i]@.batches,
                ),
            seams@.dom() == all_breaks(all.take(done)),
            seams@.dom() =~= Set::empty() ==> writes_view(writes@) == all_merged(all.take(done))
                && epoch == merged_epoch(all.take(done), epochs@),
    {
        proof {
            assert(part == parts@[done]);
            assert(all[done] == part@);
            assert(all.take(done + 1).drop_last() =~= all.take(done));
            assert(all.take(done + 1).last() == part@);
            assert forall|i: int|
                #![trigger part.regions@[i]]
                0 <= i < part.regions@.len() implies runs_in_range(
                part.regions@[i]@.base as int,
                part.regions@[i]@.batches,
            ) by {
                assert(parts@[done].regions@[i] == part.regions@[i]);
            }
            done = done + 1;
        }
        let ghost known = seams@.dom();
        let tiles = find_breaks(&part.regions, &mut seams);
        let ghost before = writes@;
        if tiles {
            assert(seams@.dom() =~= known);
            if part.regions.len() > 0 {
                epoch = epoch_of(&part.regions, epochs, epoch);
                writes.push(merge_part(part));
                assert(writes_view(writes@) =~= writes_view(before).push(merged(part@)));
            }
        } else {
            proof {
                let seq = choose|seq: u64| breaks(part@.regions).contains(seq);
                assert(seams@.dom().contains(seq));
            }
        }
    }
    assert(all.take(done) =~= all);
    proof {
        crate::ordmap::lemma_count(seams.entries@);
    }
    if seams.len() > 0 {
        return MergePlan::Refused(seams);
    }
    assert(seams@.dom() =~= Set::empty());
    if writes.len() == 0 {
        return MergePlan::Superseded;
    }
    MergePlan::Write(writes, epoch)
}

/// Decide what becomes of a run that holds these sub-streams, of which `regions` are the
/// regions, in the order of the sub-streams. No sub-stream is left out.
pub fn plan_run(
    substreams: &OrdMap<RunSubstream, ()>,
    regions: Vec<Vec<FencedRegion>>,
    epochs: &OrdMap<u64, i64>,
) -> (plan: MergePlan)
    requires
        substreams.wf(),
        epochs.wf(),
        regions@.len() == substreams.entries@.len(),
        forall|p: int, i: int|
            #![trigger regions@[p]@[i]]
            0 <= p < regions@.len() && 0 <= i < regions@[p]@.len() ==> runs_in_range(
                regions@[p]@[i]@.base as int,
                regions@[p]@[i]@.batches,
            ),
    ensures
        is_plan(plan, run_parts(substreams.keys(), all_regions_view(regions@)), epochs@),
{
    let ghost all = run_parts(substreams.keys(), all_regions_view(regions@));
    let mut parts: Vec<MergePart> = Vec::new();
    let mut at: usize = 0;
    assert(parts_view(parts@) =~= all.take(0));
    for own in it: regions.into_iter()
        invariant
            it.seq() == regions@,
            all == run_parts(substreams.keys(), all_regions_view(regions@)),
            regions@.len() == substreams.entries@.len(),
            at == it.index(),
            parts@.len() == at,
            parts_view(parts@) == all.take(at as int),
            forall|p: int| 0 <= p < at ==> #[trigger] parts@[p].regions == regions@[p],
    {
        let ghost before = parts@;
        let of = substreams.entries[at].0.duplicate();
        assert(substreams.keys()[at as int] == of@);
        assert(at < substreams.entries.len());
        parts.push(MergePart { of, regions: own });
        proof {
            assert(all_regions_view(regions@)[at as int] == regions_view(own@));
            assert(all[at as int] =~= parts@[at as int]@);
            assert(parts_view(parts@) =~= parts_view(before).push(all[at as int]));
            assert(all.take(at + 1) =~= all.take(at as int).push(all[at as int]));
        }
        at = at + 1;
    }
    proof {
        assert(all.take(at as int) =~= all);
        assert forall|p: int, i: int|
            #![trigger parts@[p].regions@[i]]
            0 <= p < parts@.len() && 0 <= i < parts@[p].regions@.len() implies runs_in_range(
            parts@[p].regions@[i]@.base as int,
            parts@[p].regions@[i]@.batches,
        ) by {
            assert(parts@[p].regions == regions@[p]);
            assert(regions@[p]@[i] == parts@[p].regions@[i]);
        }
    }
    plan_merge(parts, epochs)
}

/// Batches, each with the offset that it begins at.
pub open spec fn numbered(base: int, batches: Seq<RecordBatch>) -> Seq<(int, RecordBatch)>
    decreases batches.len(),
{
    if batches.len() == 0 {
        Seq::empty()
    } else {
        numbered(base, batches.drop_last()).push(
            (base + span_of(batches.drop_last()), batches.last()),
        )
    }
}

/// What regions serve: their batches, each with the offset that it begins at.
pub open spec fn served(regions: Seq<Region>) -> Seq<(int, RecordBatch)>
    decreases regions.len(),
{
    if regions.len() == 0 {
        Seq::empty()
    } else {
        served(regions.drop_last()) + numbered(
            regions.last().base as int,
            regions.last().batches,
        )
    }
}

proof fn lemma_numbered(base: int, a: Seq<RecordBatch>, b: Seq<RecordBatch>)
    ensures
        numbered(base, a + b) == numbered(base, a) + numbered(base + span_of(a), b),
    decreases b.len(),
{
    if b.len() == 0 {
        assert(a + b =~= a);
        assert(numbered(base, a) + numbered(base + span_of(a), b) =~= numbered(base, a));
    } else {
        let init = b.drop_last();
        lemma_numbered(base, a, init);
        lemma_span_of_both(a, init);
        assert((a + b).drop_last() =~= a + init);
        assert((a + b).last() == b.last());
        assert(numbered(base, a + b) =~= numbered(base, a) + numbered(base + span_of(a), b));
    }
}

/// A merged sub-stream serves what the regions that it was made of served: the same
/// batches, at the same offsets, in the same order.
pub proof fn a_merge_serves_what_the_run_served(part: Part)
    requires
        part.regions.len() > 0,
        breaks(part.regions) =~= Set::empty(),
    ensures
        numbered(merged(part).base_offset as int, merged(part).batches) == served(part.regions),
{
    lemma_served(part.regions, part.regions.len() as int);
    assert(part.regions.take(part.regions.len() as int) =~= part.regions);
}

proof fn lemma_served(regions: Seq<Region>, count: int)
    requires
        0 <= count <= regions.len(),
        regions.len() > 0,
        breaks(regions) =~= Set::empty(),
    ensures
        numbered(regions[0].base as int, all_batches(regions.take(count))) == served(
            regions.take(count),
        ),
    decreases count,
{
    if count > 0 {
        let init = regions.take(count - 1);
        assert(regions.take(count).drop_last() =~= init);
        assert(regions.take(count).last() == regions[count - 1]);
        lemma_served(regions, count - 1);
        merging_keeps_every_offset(regions, count - 1);
        lemma_numbered(regions[0].base as int, all_batches(init), regions[count - 1].batches);
    }
}

/// A merge leaves no sub-stream out: whatever of a run is served is written again, and
/// only a run of which nothing is served is retired unwritten.
pub proof fn what_is_served_is_written(parts: Seq<Part>, part: int)
    requires
        0 <= part < parts.len(),
        parts[part].regions.len() > 0,
    ensures
        all_merged(parts).contains(merged(parts[part])),
    decreases parts.len(),
{
    let init = parts.drop_last();
    let all = all_merged(parts);
    if part == parts.len() - 1 {
        assert(all[all.len() - 1] == merged(parts[part]));
    } else {
        what_is_served_is_written(init, part);
        let i = choose|i: int|
            0 <= i < all_merged(init).len() && all_merged(init)[i] == merged(init[part]);
        assert(all[i] == merged(parts[part]));
    }
}

/// A merge writes nothing but what the run serves.
pub proof fn what_is_written_is_served(parts: Seq<Part>, write: Write)
    requires
        all_merged(parts).contains(write),
    ensures
        exists|part: int|
            0 <= part < parts.len() && (#[trigger] parts[part]).regions.len() > 0 && merged(
                parts[part],
            ) == write,
    decreases parts.len(),
{
    if parts.len() > 0 {
        let init = parts.drop_last();
        let all = all_merged(parts);
        let i = choose|i: int| 0 <= i < all.len() && all[i] == write;
        if parts.last().regions.len() > 0 && i == all.len() - 1 {
            assert(merged(parts[parts.len() - 1]) == write);
        } else {
            assert(all_merged(init)[i] == write);
            what_is_written_is_served(init, write);
            let part = choose|part: int|
                0 <= part < init.len() && (#[trigger] init[part]).regions.len() > 0 && merged(
                    init[part],
                ) == write;
            assert(parts[part] == init[part]);
        }
    }
}

proof fn lemma_top_epoch(regions: Seq<Region>, epochs: Map<u64, i64>, least: i64)
    ensures
        top_epoch(regions, epochs, least) >= least,
        forall|at: int|
            #![trigger regions[at]]
            0 <= at < regions.len() && epochs.dom().contains(regions[at].seq)
                ==> epochs[regions[at].seq] <= top_epoch(regions, epochs, least),
    decreases regions.len(),
{
    if regions.len() > 0 {
        let init = regions.drop_last();
        lemma_top_epoch(init, epochs, least);
        assert forall|at: int|
            #![trigger regions[at]]
            0 <= at < regions.len() && epochs.dom().contains(regions[at].seq)
                implies epochs[regions[at].seq] <= top_epoch(regions, epochs, least) by {
            if at < init.len() {
                assert(init[at] == regions[at]);
            }
        }
    }
}

/// No segment of a run has a higher epoch than the merged one. Created at a higher
/// sequence, the merged one so outranks all of them while they last.
pub proof fn a_merge_outranks_its_run(
    parts: Seq<Part>,
    epochs: Map<u64, i64>,
    part: int,
    at: int,
    merged: Candidate,
    own: Candidate,
)
    requires
        0 <= part < parts.len(),
        0 <= at < parts[part].regions.len(),
        own.seq == parts[part].regions[at].seq,
        epochs.dom().contains(own.seq),
        own.epoch == epochs[own.seq],
        merged.epoch == merged_epoch(parts, epochs),
        merged.seq > own.seq,
    ensures
        outranks(merged, own),
{
    lemma_merged_epoch(parts, epochs, part, at);
}

proof fn lemma_merged_epoch(parts: Seq<Part>, epochs: Map<u64, i64>, part: int, at: int)
    requires
        0 <= part < parts.len(),
        0 <= at < parts[part].regions.len(),
        epochs.dom().contains(parts[part].regions[at].seq),
    ensures
        epochs[parts[part].regions[at].seq] <= merged_epoch(parts, epochs),
    decreases parts.len(),
{
    let init = parts.drop_last();
    lemma_top_epoch(parts.last().regions, epochs, merged_epoch(init, epochs));
    if part < parts.len() - 1 {
        assert(init[part] == parts[part]);
        lemma_merged_epoch(init, epochs, part, at);
    } else {
        assert(parts.last().regions[at] == parts[part].regions[at]);
    }
}

/// Where regions tile, merging keeps every offset: each region begins, in the
/// merged one, at the offset that it had.
pub proof fn merging_keeps_every_offset(regions: Seq<Region>, at: int)
    requires
        0 <= at < regions.len(),
        breaks(regions) =~= Set::empty(),
    ensures
        regions[at].base == regions[0].base + span_of(all_batches(regions.take(at))),
    decreases at,
{
    if at == 0 {
        assert(regions.take(0) =~= Seq::empty());
    } else {
        merging_keeps_every_offset(regions, at - 1);
        if breaks_at(regions, at) {
            assert(breaks(regions).contains(regions[at].seq));
        }
        assert(regions.take(at).drop_last() =~= regions.take(at - 1));
        assert(regions.take(at).last() == regions[at - 1]);
        lemma_span_of_both(all_batches(regions.take(at - 1)), regions[at - 1].batches);
    }
}

proof fn lemma_span_of_both(a: Seq<RecordBatch>, b: Seq<RecordBatch>)
    ensures
        span_of(a + b) == span_of(a) + span_of(b),
    decreases b.len(),
{
    if b.len() == 0 {
        assert(a + b =~= a);
    } else {
        lemma_span_of_both(a, b.drop_last());
        assert((a + b).drop_last() =~= a + b.drop_last());
        assert((a + b).last() == b.last());
    }
}

/// A run of which a region does not begin where the one before it ends is never
/// merged, whatever else it holds.
pub proof fn a_gap_is_never_merged(parts: Seq<Part>, part: int, at: int)
    requires
        0 <= part < parts.len(),
        breaks_at(parts[part].regions, at),
    ensures
        all_breaks(parts).contains(parts[part].regions[at].seq),
    decreases parts.len(),
{
    if part == parts.len() - 1 {
        assert(breaks(parts.last().regions).contains(parts[part].regions[at].seq));
    } else {
        a_gap_is_never_merged(parts.drop_last(), part, at);
    }
}

/// The epoch of a merged segment is that of a segment of its run, or zero where none has
/// a higher one, and never negative: a merge makes no epoch of its own.
pub proof fn a_merge_takes_an_epoch_of_its_run(parts: Seq<Part>, epochs: Map<u64, i64>)
    ensures
        merged_epoch(parts, epochs) >= 0,
        merged_epoch(parts, epochs) == 0 || exists|part: int, at: int| #[trigger]
            has_epoch_at(parts, epochs, part, at, merged_epoch(parts, epochs)),
        forall|part: int, at: int|
            #![trigger parts[part].regions[at]]
            0 <= part < parts.len() && 0 <= at < parts[part].regions.len()
                && epochs.dom().contains(parts[part].regions[at].seq)
                ==> epochs[parts[part].regions[at].seq] <= merged_epoch(parts, epochs),
    decreases parts.len(),
{
    if parts.len() > 0 {
        let init = parts.drop_last();
        let end = parts.len() - 1;
        let before = merged_epoch(init, epochs);
        let epoch = merged_epoch(parts, epochs);
        a_merge_takes_an_epoch_of_its_run(init, epochs);
        lemma_top(parts[end].regions, epochs, before);
        if epoch != before {
            let at = choose|at: int|
                0 <= at < parts[end].regions.len() && epochs.dom().contains(
                    (#[trigger] parts[end].regions[at]).seq,
                ) && epochs[parts[end].regions[at].seq] == epoch;
            assert(has_epoch_at(parts, epochs, end, at, epoch));
        } else if before != 0 {
            let (part, at) = choose|part: int, at: int| #[trigger]
                has_epoch_at(init, epochs, part, at, before);
            assert(has_epoch_at(parts, epochs, part, at, epoch));
        }
        assert forall|part: int, at: int|
            #![trigger parts[part].regions[at]]
            0 <= part < parts.len() && 0 <= at < parts[part].regions.len()
                && epochs.dom().contains(
                parts[part].regions[at].seq,
            ) implies epochs[parts[part].regions[at].seq] <= epoch by {
            if part < end {
                assert(init[part].regions[at] == parts[part].regions[at]);
            }
        }
    }
}

/// Whether a region of a run is of a segment with this epoch.
pub open spec fn has_epoch_at(
    parts: Seq<Part>,
    epochs: Map<u64, i64>,
    part: int,
    at: int,
    epoch: i64,
) -> bool {
    &&& 0 <= part < parts.len()
    &&& 0 <= at < parts[part].regions.len()
    &&& epochs.dom().contains(parts[part].regions[at].seq)
    &&& epochs[parts[part].regions[at].seq] == epoch
}

proof fn lemma_top(regions: Seq<Region>, epochs: Map<u64, i64>, least: i64)
    ensures
        top_epoch(regions, epochs, least) >= least,
        forall|at: int|
            0 <= at < regions.len() && epochs.dom().contains((#[trigger] regions[at]).seq)
                ==> epochs[regions[at].seq] <= top_epoch(regions, epochs, least),
        top_epoch(regions, epochs, least) == least || exists|at: int|
            0 <= at < regions.len() && epochs.dom().contains((#[trigger] regions[at]).seq)
                && epochs[regions[at].seq] == top_epoch(regions, epochs, least),
    decreases regions.len(),
{
    if regions.len() > 0 {
        let init = regions.drop_last();
        let end = regions.len() - 1;
        lemma_top(init, epochs, least);
        let before = top_epoch(init, epochs, least);
        assert forall|at: int|
            0 <= at < regions.len() && epochs.dom().contains(
                (#[trigger] regions[at]).seq,
            ) implies epochs[regions[at].seq] <= top_epoch(regions, epochs, least) by {
            if at < end {
                assert(init[at] == regions[at]);
            }
        }
        if before != least {
            let at = choose|at: int|
                0 <= at < init.len() && epochs.dom().contains((#[trigger] init[at]).seq)
                    && epochs[init[at].seq] == before;
            assert(regions[at] == init[at]);
        }
        assert(regions[end] == regions.last());
    }
}

/// A run is refused only for a gap: a segment is a seam if and only if a region of it
/// does not begin where the region before it, of the same sub-stream, ends.
pub proof fn only_a_gap_is_a_seam(parts: Seq<Part>, seq: u64)
    ensures
        all_breaks(parts).contains(seq) <==> exists|part: int, at: int| #[trigger]
            is_gap_at(parts, part, at, seq),
    decreases parts.len(),
{
    if parts.len() > 0 {
        let init = parts.drop_last();
        let end = parts.len() - 1;
        only_a_gap_is_a_seam(init, seq);
        assert(parts[end] == parts.last());
        if all_breaks(init).contains(seq) {
            let (part, at) = choose|part: int, at: int| #[trigger] is_gap_at(init, part, at, seq);
            assert(init[part] == parts[part]);
            assert(is_gap_at(parts, part, at, seq));
        }
        if breaks(parts[end].regions).contains(seq) {
            let at = choose|at: int| #[trigger]
                breaks_at(parts[end].regions, at) && parts[end].regions[at].seq == seq;
            assert(is_gap_at(parts, end, at, seq));
        }
        if exists|part: int, at: int| #[trigger] is_gap_at(parts, part, at, seq) {
            let (part, at) = choose|part: int, at: int| #[trigger] is_gap_at(parts, part, at, seq);
            if part < end {
                assert(init[part] == parts[part]);
                assert(is_gap_at(init, part, at, seq));
            } else {
                assert(breaks_at(parts[end].regions, at));
                assert(breaks(parts[end].regions).contains(seq));
            }
        }
    }
}

/// Whether a region of a segment does not begin where the one before it ends.
pub open spec fn is_gap_at(parts: Seq<Part>, part: int, at: int, seq: u64) -> bool {
    &&& 0 <= part < parts.len()
    &&& 0 < at < parts[part].regions.len()
    &&& parts[part].regions[at].seq == seq
    &&& parts[part].regions[at].base != parts[part].regions[at - 1].base + span_of(
        parts[part].regions[at - 1].batches,
    )
}

/// What becomes of a run is decided by what it holds: it is refused exactly if one of its
/// sub-streams has a gap, and is given up exactly if none has one and nothing of it is
/// served; any other is written, each sub-stream that is served under its own name and
/// partition, from where its first region begins, with all of its batches.
pub proof fn what_becomes_of_a_run(
    plan: MergePlan,
    parts: Seq<Part>,
    epochs: Map<u64, i64>,
    part: int,
)
    requires
        is_plan(plan, parts, epochs),
        0 <= part < parts.len(),
    ensures
        plan is Refused <==> exists|part: int, at: int, seq: u64| #[trigger]
            is_gap_at(parts, part, at, seq),
        plan is Superseded && parts[part].regions.len() > 0 ==> false,
        plan matches MergePlan::Refused(seams) ==> forall|seq: u64| #[trigger]
            seams@.dom().contains(seq) <==> exists|part: int, at: int| #[trigger]
                is_gap_at(parts, part, at, seq),
        plan matches MergePlan::Write(writes, epoch) ==> (parts[part].regions.len() > 0 ==> exists|
            i: int,
        |
            0 <= i < writes@.len() && (#[trigger] writes@[i])@.topic == parts[part].of.1
                && writes@[i]@.partition == parts[part].of.2 && writes@[i]@.identity
                == parts[part].of.0 && writes@[i]@.base_offset == parts[part].regions[0].base
                && numbered(writes@[i]@.base_offset as int, writes@[i]@.batches) == served(
                parts[part].regions,
            )),
{
    let gaps = all_breaks(parts);
    assert forall|seq: u64| #[trigger] gaps.contains(seq) <==> exists|part: int, at: int| #[trigger]
        is_gap_at(parts, part, at, seq) by {
        only_a_gap_is_a_seam(parts, seq);
    }
    if plan is Refused {
        let seq = choose|seq: u64| #[trigger] gaps.contains(seq);
        assert(gaps.contains(seq)) by {
            if forall|seq: u64| !#[trigger] gaps.contains(seq) {
                assert(gaps =~= Set::empty());
            }
        }
    } else {
        assert forall|part: int, at: int, seq: u64| !#[trigger] is_gap_at(parts, part, at, seq) by {
            assert(!gaps.contains(seq));
        }
    }
    if parts[part].regions.len() > 0 {
        what_is_served_is_written(parts, part);
        if let MergePlan::Write(writes, _) = plan {
            let all = all_merged(parts);
            let own = merged(parts[part]);
            let i = choose|i: int| 0 <= i < all.len() && all[i] == own;
            assert(writes_view(writes@)[i] == writes@[i]@);
            assert(breaks(parts[part].regions) =~= Set::empty()) by {
                assert forall|seq: u64| !#[trigger] breaks(parts[part].regions).contains(seq) by {
                    if breaks(parts[part].regions).contains(seq) {
                        let at = choose|at: int| #[trigger]
                            breaks_at(parts[part].regions, at) && parts[part].regions[at].seq
                                == seq;
                        assert(is_gap_at(parts, part, at, seq));
                    }
                }
            }
            a_merge_serves_what_the_run_served(parts[part]);
            assert(writes@[i]@ == own);
        }
    }
}

} // verus!
