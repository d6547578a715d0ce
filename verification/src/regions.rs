//! Reading whole segments for a rewrite of them.

use crate::error::Error;
use crate::fence::{arranged, fenced, fenced_view, Fenced, FencedSegment};
use crate::fetch::runs_in_range;
use crate::frame::{damage_of, frames_from, reports, what_damages_a_read, Reading, RegionRead};
use crate::ordmap::OrdMap;
use crate::refresh::IndexState;
use crate::segment::{batches_view, span_of, Batch, RecordBatch, Substream};
use crate::store::DynoStore;
use crate::text::{decimal, push_decimal};
use vstd::prelude::*;
use vstd::slice::slice_subrange;
use vstd::string::*;

verus! {

/// The batches of a sub-stream that a segment contributes to a rewrite.
#[derive(Debug)]
pub struct FencedRegion {
    pub seq: u64,
    /// The offset of the first of them.
    pub base: i64,
    pub batches: Vec<Batch>,
}

/// The mathematical region.
#[verifier::ext_equal]
pub struct Region {
    pub seq: u64,
    pub base: i64,
    pub batches: Seq<RecordBatch>,
}

impl View for FencedRegion {
    type V = Region;

    open spec fn view(&self) -> Region {
        Region { seq: self.seq, base: self.base, batches: batches_view(self.batches@) }
    }
}

/// The views of a run of regions.
pub open spec fn regions_view(regions: Seq<FencedRegion>) -> Seq<Region> {
    regions.map_values(|region: FencedRegion| region@)
}

/// How many leading batches, running from `base`, end at or before `served_from`.
pub open spec fn leading(base: int, batches: Seq<RecordBatch>, served_from: int) -> nat
    decreases batches.len(),
{
    if batches.len() == 0 || base + batches[0].span() > served_from {
        0
    } else {
        1 + leading(base + batches[0].span(), batches.skip(1), served_from)
    }
}

/// How many batches, running from `base`, come before the first that begins at or past
/// `served_to`.
pub open spec fn heading(base: int, batches: Seq<RecordBatch>, served_to: int) -> nat
    decreases batches.len(),
{
    if batches.len() == 0 || base >= served_to {
        0
    } else {
        1 + heading(base + batches[0].span(), batches.skip(1), served_to)
    }
}

/// What a segment contributes: not the leading batches that end before it begins to
/// serve, nor those from the first on that begins where it serves no more.
pub open spec fn contributed(segment: Fenced, batches: Seq<RecordBatch>) -> Region {
    let dropped = if segment.served_from > segment.entry.base_offset {
        leading(segment.entry.base_offset as int, batches, segment.served_from)
    } else {
        0
    };
    let base = segment.entry.base_offset + span_of(batches.take(dropped as int));
    let rest = batches.skip(dropped as int);
    Region {
        seq: segment.seq,
        base: base as i64,
        batches: match segment.cut() {
            Some(to) => rest.take(heading(base, rest, to) as int),
            None => rest,
        },
    }
}

/// Drop the batches from the first on that begins where the segment serves no more.
fn cut_region(base: i64, batches: Vec<Batch>, served_to: i64) -> (kept: Vec<Batch>)
    requires
        runs_in_range(base as int, batches_view(batches@)),
    ensures
        batches_view(kept@) == batches_view(batches@).take(
            heading(base as int, batches_view(batches@), served_to as int) as int,
        ),
        runs_in_range(base as int, batches_view(kept@)),
{
    let ghost all = batches_view(batches@);
    let mut running: i64 = base;
    let mut count: usize = 0;
    assert(all.skip(0) =~= all);
    assert(all.take(0) =~= Seq::empty());
    while count < batches.len() && running < served_to
        invariant
            all == batches_view(batches@),
            runs_in_range(base as int, all),
            count <= batches@.len(),
            running == base + span_of(all.take(count as int)),
            heading(base as int, all, served_to as int) == count + heading(
                running as int,
                all.skip(count as int),
                served_to as int,
            ),
        decreases batches@.len() - count,
    {
        let span: i64 = batches[count].last_offset_delta as i64 + 1;
        assert(all.take(count + 1).drop_last() =~= all.take(count as int));
        assert(all.take(count + 1).last() == all[count as int]);
        assert(all.skip(count as int)[0] == all[count as int]);
        assert(all.skip(count as int).skip(1) =~= all.skip(count + 1));
        assert(i64::MIN <= base + span_of(all.take(count + 1)) <= i64::MAX);
        running = running + span;
        count = count + 1;
    }
    assert(heading(running as int, all.skip(count as int), served_to as int) == 0);
    let mut kept = batches;
    kept.truncate(count);
    let ghost cut = batches_view(kept@);
    proof {
        assert(cut =~= all.take(count as int));
        assert forall|n: int|
            #![trigger cut.take(n)]
            0 <= n <= cut.len() implies i64::MIN <= base + span_of(cut.take(n)) <= i64::MAX by {
            assert(cut.take(n) =~= all.take(n));
        }
    }
    kept
}

/// Of the segments that serve, those whose object was read.
pub open spec fn read_of(segments: Seq<Fenced>, objects: Set<u64>) -> Seq<Fenced>
    decreases segments.len(),
{
    if segments.len() == 0 {
        Seq::empty()
    } else if objects.contains(segments.last().seq) {
        read_of(segments.drop_last(), objects).push(segments.last())
    } else {
        read_of(segments.drop_last(), objects)
    }
}

/// One past the last byte of a segment's region.
pub open spec fn extent(segment: Fenced) -> int {
    segment.entry.byte_start + segment.entry.byte_len
}

/// The bytes from `start` on, as far as there are any.
pub open spec fn available(object: Seq<u8>, start: int) -> Seq<u8> {
    if start <= object.len() {
        object.skip(start)
    } else {
        Seq::empty()
    }
}

/// Whether an error says that a region runs past its object.
pub open spec fn runs_past(error: Error, prefix: Seq<char>, segment: Fenced, object: Seq<u8>) -> bool {
    let left = available(object, segment.entry.byte_start as int);
    &&& error matches Error::CorruptSegment(region)
    &&& region.prefix@ == prefix
    &&& region.seq == segment.seq
    &&& region.byte_start == segment.entry.byte_start
    &&& region.byte_len == segment.entry.byte_len
    &&& region.read_len == left.len()
    &&& region.detail@ == "region extent runs "@ + decimal(
        (extent(segment) - object.len()) as nat,
    ) + " bytes past a "@ + decimal(object.len()) + "-byte object"@
}

proof fn lemma_span_split(batches: Seq<RecordBatch>, at: int, n: int)
    requires
        0 <= at,
        0 <= n,
        at + n <= batches.len(),
    ensures
        span_of(batches.take(at + n)) == span_of(batches.take(at)) + span_of(
            batches.skip(at).take(n),
        ),
    decreases n,
{
    let tail = batches.skip(at).take(n);
    if n == 0 {
        assert(tail =~= Seq::empty());
    } else {
        lemma_span_split(batches, at, n - 1);
        assert(tail.drop_last() =~= batches.skip(at).take(n - 1));
        assert(batches.take(at + n).drop_last() =~= batches.take(at + n - 1));
        assert(tail.last() == batches[at + n - 1]);
    }
}

/// Keep of a region what the segment serves of it.
pub fn clip_region(segment: &FencedSegment, batches: Vec<Batch>) -> (region: FencedRegion)
    requires
        runs_in_range(segment@.entry.base_offset as int, batches_view(batches@)),
    ensures
        region@ == contributed(segment@, batches_view(batches@)),
        runs_in_range(region@.base as int, region@.batches),
{
    let ghost all = batches_view(batches@);
    let ghost start = segment@.entry.base_offset as int;
    let mut base: i64 = segment.entry.base_offset;
    let mut dropped: usize = 0;
    let mut more = segment.is_clipped();
    assert(all.skip(0) =~= all);
    assert(all.take(0) =~= Seq::empty());
    while more && dropped < batches.len()
        invariant
            all == batches_view(batches@),
            start == segment@.entry.base_offset,
            runs_in_range(start, all),
            dropped <= batches@.len(),
            base == start + span_of(all.take(dropped as int)),
            segment@.served_from > start ==> leading(start, all, segment@.served_from) == dropped
                + leading(base as int, all.skip(dropped as int), segment@.served_from),
            segment@.served_from > start && !more ==> leading(
                base as int,
                all.skip(dropped as int),
                segment@.served_from,
            ) == 0,
            more ==> segment@.served_from > start,
            segment@.served_from <= start ==> dropped == 0,
        decreases batches@.len() - dropped + if more {
            1int
        } else {
            0int
        },
    {
        let span: i64 = batches[dropped].last_offset_delta as i64 + 1;
        assert(all.take(dropped + 1).drop_last() =~= all.take(dropped as int));
        assert(all.take(dropped + 1).last() == all[dropped as int]);
        assert(all.skip(dropped as int)[0] == all[dropped as int]);
        assert(all.skip(dropped as int).skip(1) =~= all.skip(dropped + 1));
        assert(i64::MIN <= start + span_of(all.take(dropped + 1)) <= i64::MAX);
        let next: i64 = base + span;
        if next > segment.served_from {
            more = false;
        } else {
            base = next;
            dropped = dropped + 1;
        }
    }
    proof {
        assert forall|n: int|
            #![trigger all.skip(dropped as int).take(n)]
            0 <= n <= all.skip(dropped as int).len() implies i64::MIN <= base + span_of(
            all.skip(dropped as int).take(n),
        ) <= i64::MAX by {
            lemma_span_split(all, dropped as int, n);
            assert(i64::MIN <= start + span_of(all.take(dropped + n)) <= i64::MAX);
        }
    }
    let mut rest = batches;
    let kept = rest.split_off(dropped);
    assert(batches_view(kept@) =~= all.skip(dropped as int));
    if let Some(to) = segment.cut() {
        let kept = cut_region(base, kept, to);
        return FencedRegion { seq: segment.seq, base, batches: kept };
    }
    FencedRegion { seq: segment.seq, base, batches: kept }
}

/// The bytes of a segment's region.
pub open spec fn region_of(segment: Fenced, object: Seq<u8>) -> Seq<u8> {
    object.subrange(segment.entry.byte_start as int, extent(segment))
}

impl DynoStore {
    /// Take what was read of whole segments, `None` for one that was deleted. Where
    /// any was, they are dropped from the index, the prefix is to be listed, and
    /// the caller yields.
    pub fn fetch_segment_objects(&mut self, prefix: &str, reads: Vec<(u64, Option<Vec<u8>>)>) -> (
    objects: Result<Option<OrdMap<u64, Vec<u8>>>, Error>)
        requires
            old(self).wf(),
        ensures
            final(self).wf(),
            final(self).differs_at(*old(self), prefix@),
            vanished(reads@).len() == 0 ==> *final(self) == *old(self) && (objects matches Ok(
                Some(objects),
            ) && objects.wf() && objects@ == objects_of(reads@)),
            vanished(reads@).len() > 0 ==> {
                let held = old(self).prefixes.state_of(prefix@);
                &&& old(self).prefixes.index.poisoned ==> objects == Err::<
                    Option<OrdMap<u64, Vec<u8>>>,
                    Error,
                >(Error::Poison)
                &&& !old(self).prefixes.index.poisoned ==> objects is Ok && objects->Ok_0 is None
                &&& final(self).prefixes.state_of(prefix@) == if old(self).prefixes.index.poisoned
                    || !old(self).prefixes.index.map@.dom().contains(prefix@) {
                    held
                } else {
                    (IndexState {
                        segments: held.segments.remove_keys(vanished(reads@).to_set()),
                        refreshed_at: None,
                        reconciled_at: None,
                        generation: held.generation.wrapping_add(1),
                        ..held
                    })
                }
            },
    {
        let ghost given = reads@;
        let mut objects: OrdMap<u64, Vec<u8>> = OrdMap::new();
        let mut gone: Vec<u64> = Vec::new();
        let ghost mut done: int = 0;
        assert(given.take(0) =~= Seq::empty());
        for read in it: reads.into_iter()
            invariant
                it.seq() == given,
                done == it.index(),
                objects.wf(),
                objects@ == objects_of(given.take(done)),
                gone@ == vanished(given.take(done)),
        {
            proof {
                assert(given.take(done + 1).drop_last() =~= given.take(done));
                assert(given.take(done + 1).last() == given[done]);
                done = done + 1;
            }
            let (seq, bytes) = read;
            match bytes {
                Some(bytes) => {
                    let _ = objects.insert(seq, bytes);
                },
                None => {
                    gone.push(seq);
                },
            }
        }
        assert(given.take(done) =~= given);
        if gone.len() > 0 {
            if self.index_prune(prefix, gone.as_slice()).is_err() {
                return Err(Error::Poison);
            }
            if self.index_invalidate(prefix).is_err() {
                return Err(Error::Poison);
            }
            return Ok(None);
        }
        Ok(Some(objects))
    }

    /// The segments that serve a sub-stream's partition and whose object was read.
    /// An extent that runs past its object is damage, and no region is skipped for
    /// it: the offsets of what follows would shift.
    pub fn locate_fenced_regions(
        &self,
        prefix: &str,
        substream: &Substream,
        partition: i32,
        objects: &OrdMap<u64, Vec<u8>>,
    ) -> (located: Result<Vec<FencedSegment>, Error>)
        requires
            self.wf(),
            objects.wf(),
            self.offsets_in_range(prefix@, (substream@, partition)),
        ensures
            ({
                let all = read_of(
                    fenced(arranged(self.candidates_of(prefix@, (substream@, partition)))),
                    objects@.dom(),
                );
                match located {
                    Ok(located) => {
                        &&& !self.prefixes.index.poisoned
                        &&& fenced_view(located@) == all
                        &&& forall|i: int|
                            #![trigger all[i]]
                            0 <= i < all.len() ==> extent(all[i]) <= objects@[all[i].seq]@.len()
                    },
                    Err(error) => if self.prefixes.index.poisoned {
                        error == Error::Poison
                    } else {
                        exists|i: int|
                            #![trigger all[i]]
                            0 <= i < all.len() && extent(all[i]) > objects@[all[i].seq]@.len()
                                && (forall|j: int|
                                #![trigger all[j]]
                                0 <= j < i ==> extent(all[j]) <= objects@[all[j].seq]@.len())
                                && runs_past(
                                error,
                                prefix@,
                                all[i],
                                objects@[all[i].seq]@,
                            )
                    },
                }
            }),
    {
        let segments = match self.valid_substream_segments(prefix, substream, partition) {
            Ok(segments) => segments,
            Err(_) => {
                return Err(Error::Poison);
            },
        };
        let ghost served = fenced_view(segments@);
        let ghost all = read_of(served, objects@.dom());
        let mut located: Vec<FencedSegment> = Vec::new();
        let ghost mut done: int = 0;
        assert(served.take(0) =~= Seq::empty());
        assert(fenced_view(located@) =~= Seq::empty());
        for segment in it: segments.into_iter()
            invariant
                it.seq() == segments@,
                served == fenced_view(segments@),
                all == read_of(served, objects@.dom()),
                objects.wf(),
                !self.prefixes.index.poisoned,
                served == fenced(
                    arranged(self.candidates_of(prefix@, (substream@, partition))),
                ),
                done == it.index(),
                fenced_view(located@) == read_of(served.take(done), objects@.dom()),
                forall|i: int|
                    #![trigger located@[i]]
                    0 <= i < located@.len() ==> extent(located@[i]@)
                        <= objects@[located@[i]@.seq]@.len(),
        {
            let ghost seen = served.take(done);
            let ghost more = served.take(done + 1);
            proof {
                assert(more.drop_last() =~= seen);
                assert(more.last() == served[done]);
                assert(segment@ == served[done]);
                done = done + 1;
            }
            let ghost before = located@;
            if let Some(object) = objects.get(&segment.seq) {
                let start: u64 = segment.entry.byte_start;
                let len: u64 = segment.entry.byte_len;
                let have: u64 = object.len() as u64;
                if start > have || len > have - start {
                    proof {
                        assert(extent(segment@) > object@.len());
                        lemma_read_prefix(served, objects@.dom(), done);
                        assert(all[before.len() as int] == segment@);
                        assert forall|j: int|
                            #![trigger all[j]]
                            0 <= j < before.len() implies extent(all[j])
                            <= objects@[all[j].seq]@.len() by {
                            assert(fenced_view(before)[j] == before[j]@);
                            assert(all[j] == before[j]@);
                        }
                    }
                    let error = Self::past_object(prefix, &segment, object);
                    return Err(error);
                }
                located.push(segment);
                assert(fenced_view(located@) =~= fenced_view(before).push(segment@));
            }
        }
        proof {
            assert(served.take(done) =~= served);
            assert forall|i: int|
                #![trigger all[i]]
                0 <= i < all.len() implies extent(all[i]) <= objects@[all[i].seq]@.len() by {
                assert(fenced_view(located@)[i] == located@[i]@);
            }
        }
        Ok(located)
    }

    /// The error of a region that runs past its object.
    fn past_object(prefix: &str, segment: &FencedSegment, object: &Vec<u8>) -> (error: Error)
        requires
            extent(segment@) > object@.len(),
        ensures
            runs_past(error, prefix@, segment@, object@),
    {
        let have: usize = object.len();
        let start: usize = if segment.entry.byte_start < have as u64 {
            segment.entry.byte_start as usize
        } else {
            have
        };
        let left = slice_subrange(object.as_slice(), start, have);
        proof {
            assert(left@ =~= available(object@, segment@.entry.byte_start as int));
        }
        let missing: u128 = segment.entry.byte_start as u128 + segment.entry.byte_len as u128
            - have as u128;
        let mut detail = String::from_str("region extent runs ");
        push_wide(&mut detail, missing);
        detail.append(" bytes past a ");
        push_decimal(&mut detail, have as u64);
        detail.append("-byte object");
        let read = RegionRead {
            prefix,
            seq: segment.seq,
            entry: &segment.entry,
            encoded: left,
        };
        read.short_of_extent(detail)
    }

    /// Decode the region of one segment.
    fn decode_fenced_region(
        prefix: &str,
        segment: &FencedSegment,
        object: &Vec<u8>,
        decoded: Result<Vec<Batch>, String>,
    ) -> (region: Result<FencedRegion, Error>)
        requires
            extent(segment@) <= object@.len(),
            decoded matches Ok(batches) ==> runs_in_range(
                segment@.entry.base_offset as int,
                batches_view(batches@),
            ),
        ensures
            match region {
                Ok(region) => is_contributed(*segment, object@, decoded, region@),
                Err(error) => is_damaged(prefix@, *segment, object@, decoded, error),
            },
    {
        let have: usize = object.len();
        assert(extent(segment@) <= have);
        let encoded = slice_subrange(
            object.as_slice(),
            segment.entry.byte_start as usize,
            (segment.entry.byte_start + segment.entry.byte_len) as usize,
        );
        assert(encoded@ =~= region_of(segment@, object@));
        match Self::decode_region(prefix, segment.seq, &segment.entry, encoded, decoded) {
            Ok(batches) => Ok(clip_region(segment, batches)),
            Err(error) => Err(error),
        }
    }

    /// Decode the regions of segments that were located, each given with what the
    /// batch decoder made of it. The first that is damaged fails them all.
    pub fn decode_fenced_regions(
        prefix: &str,
        located: &Vec<FencedSegment>,
        objects: &OrdMap<u64, Vec<u8>>,
        decoded: Vec<Result<Vec<Batch>, String>>,
    ) -> (regions: Result<Vec<FencedRegion>, Error>)
        requires
            objects.wf(),
            decoded@.len() == located@.len(),
            forall|i: int|
                #![trigger located@[i]]
                0 <= i < located@.len() ==> objects@.dom().contains(located@[i]@.seq) && extent(
                    located@[i]@,
                ) <= objects@[located@[i]@.seq]@.len(),
            forall|i: int|
                #![trigger decoded@[i]]
                0 <= i < decoded@.len() ==> (decoded@[i] matches Ok(batches) ==> runs_in_range(
                    located@[i]@.entry.base_offset as int,
                    batches_view(batches@),
                )),
        ensures
            match regions {
                Ok(regions) => regions@.len() == located@.len() && forall|i: int|
                    #![trigger regions@[i]]
                    0 <= i < regions@.len() ==> is_contributed(
                        located@[i],
                        objects@[located@[i]@.seq]@,
                        decoded@[i],
                        regions@[i]@,
                    ),
                Err(error) => exists|i: int|
                    #![trigger located@[i]]
                    0 <= i < located@.len() && is_damaged(
                        prefix@,
                        located@[i],
                        objects@[located@[i]@.seq]@,
                        decoded@[i],
                        error,
                    ) && forall|j: int|
                        #![trigger located@[j]]
                        0 <= j < i ==> is_whole(
                            located@[j],
                            objects@[located@[j]@.seq]@,
                            decoded@[j],
                        ),
            },
    {
        let ghost given = decoded@;
        let mut regions: Vec<FencedRegion> = Vec::new();
        for outcome in it: decoded.into_iter()
            invariant
                it.seq() == given,
                given == decoded@,
                regions@.len() == it.index(),
                objects.wf(),
                given.len() == located@.len(),
                forall|i: int|
                    #![trigger located@[i]]
                    0 <= i < located@.len() ==> objects@.dom().contains(located@[i]@.seq) && extent(
                        located@[i]@,
                    ) <= objects@[located@[i]@.seq]@.len(),
                forall|i: int|
                    #![trigger given[i]]
                    0 <= i < given.len() ==> (given[i] matches Ok(batches) ==> runs_in_range(
                        located@[i]@.entry.base_offset as int,
                        batches_view(batches@),
                    )),
                forall|i: int|
                    #![trigger regions@[i]]
                    0 <= i < regions@.len() ==> is_contributed(
                        located@[i],
                        objects@[located@[i]@.seq]@,
                        given[i],
                        regions@[i]@,
                    ),
        {
            let at: usize = regions.len();
            assert(outcome == given[at as int]);
            let segment = &located[at];
            let (slot, _held) = objects.find(&segment.seq);
            match Self::decode_fenced_region(prefix, segment, &objects.entries[slot].1, outcome) {
                Ok(region) => {
                    regions.push(region);
                },
                Err(error) => {
                    proof {
                        assert forall|j: int|
                            #![trigger located@[j]]
                            0 <= j < at implies is_whole(
                            located@[j],
                            objects@[located@[j]@.seq]@,
                            given[j],
                        ) by {
                            let region = regions@[j];
                        }
                        assert(located@[at as int] == *segment);
                    }
                    return Err(error);
                },
            }
        }
        Ok(regions)
    }
}

/// Whether a located region decodes and is not damaged.
pub open spec fn is_whole(
    segment: FencedSegment,
    object: Seq<u8>,
    decoded: Result<Vec<Batch>, String>,
) -> bool {
    decoded is Ok && damage_of(segment@.entry, region_of(segment@, object), None) is None
}

/// Whether a region is what a whole one contributes.
pub open spec fn is_contributed(
    segment: FencedSegment,
    object: Seq<u8>,
    decoded: Result<Vec<Batch>, String>,
    region: Region,
) -> bool {
    &&& is_whole(segment, object, decoded)
    &&& decoded matches Ok(batches)
    &&& region == contributed(segment@, batches_view(batches@))
    &&& runs_in_range(region.base as int, region.batches)
}

/// Whether an error reports what is wrong with a located region.
pub open spec fn is_damaged(
    prefix: Seq<char>,
    segment: FencedSegment,
    object: Seq<u8>,
    decoded: Result<Vec<Batch>, String>,
    error: Error,
) -> bool {
    reports(
        Reading {
            prefix,
            seq: segment.seq,
            entry: segment@.entry,
            encoded: region_of(segment@, object),
        },
        error,
        damage_of(segment@.entry, region_of(segment@, object), failure_of(decoded)),
    )
}

/// Why a region did not decode.
pub open spec fn failure_of(decoded: Result<Vec<Batch>, String>) -> Option<Seq<char>> {
    match decoded {
        Ok(_) => None,
        Err(reason) => Some(reason@),
    }
}

/// The segments that were found deleted, in order.
pub open spec fn vanished(reads: Seq<(u64, Option<Vec<u8>>)>) -> Seq<u64>
    decreases reads.len(),
{
    if reads.len() == 0 {
        Seq::empty()
    } else if reads.last().1 is None {
        vanished(reads.drop_last()).push(reads.last().0)
    } else {
        vanished(reads.drop_last())
    }
}

/// The segments that were read.
pub open spec fn objects_of(reads: Seq<(u64, Option<Vec<u8>>)>) -> Map<u64, Vec<u8>>
    decreases reads.len(),
{
    if reads.len() == 0 {
        Map::empty()
    } else {
        let before = objects_of(reads.drop_last());
        match reads.last().1 {
            Some(bytes) => before.insert(reads.last().0, bytes),
            None => before,
        }
    }
}

proof fn lemma_read_prefix(segments: Seq<Fenced>, objects: Set<u64>, at: int)
    requires
        0 <= at <= segments.len(),
    ensures
        read_of(segments.take(at), objects).len() <= read_of(segments, objects).len(),
        forall|i: int|
            #![trigger read_of(segments, objects)[i]]
            0 <= i < read_of(segments.take(at), objects).len() ==> read_of(segments, objects)[i]
                == read_of(segments.take(at), objects)[i],
    decreases segments.len() - at,
{
    if at < segments.len() {
        lemma_read_prefix(segments, objects, at + 1);
        assert(segments.take(at + 1).drop_last() =~= segments.take(at));
        let now = read_of(segments.take(at), objects);
        let next = read_of(segments.take(at + 1), objects);
        assert forall|i: int|
            #![trigger read_of(segments, objects)[i]]
            0 <= i < now.len() implies read_of(segments, objects)[i] == now[i] by {
            assert(next[i] == now[i]);
        }
    } else {
        assert(segments.take(at) =~= segments);
    }
}

/// Append the decimal digits of `value`.
fn push_wide(text: &mut String, value: u128)
    ensures
        final(text)@ == old(text)@ + decimal(value as nat),
    decreases value,
{
    if value >= 10 {
        push_wide(text, value / 10);
    }
    crate::text::push_char(text, crate::text::digit_char((value % 10) as u8));
    assert(text@ =~= old(text)@ + decimal(value as nat));
}

/// What a segment contributes is one run of its batches, and begins where that run
/// does. The batches before the run all end at or before where the segment begins to
/// serve, and the first of the run does not; those of the run all begin before where it
/// serves no more, and the one behind the run does not. A segment that serves its whole
/// entry contributes all of its batches.
pub proof fn a_segment_contributes_what_it_serves(segment: Fenced, batches: Seq<RecordBatch>)
    requires
        i64::MIN <= segment.entry.base_offset + span_of(
            batches.take((batches.len() - contributed_after(segment, batches)) as int),
        ) <= i64::MAX,
    ensures
        ({
            let region = contributed(segment, batches);
            let base = segment.entry.base_offset;
            let from = batches.len() - contributed_after(segment, batches);
            let to = from + region.batches.len();
            &&& 0 <= from <= to <= batches.len()
            &&& region.seq == segment.seq
            &&& region.batches == batches.subrange(from, to)
            &&& region.base == base + span_of(batches.take(from))
            &&& segment.served_from <= base ==> from == 0
            &&& forall|k: int|
                0 <= k < from ==> #[trigger] offset_behind(base as int, batches, k)
                    <= segment.served_from
            &&& segment.served_from > base && from < batches.len() ==> offset_behind(
                base as int,
                batches,
                from,
            ) > segment.served_from
            &&& segment.served_to >= segment.entry.end() ==> to == batches.len()
            &&& segment.served_to < segment.entry.end() ==> {
                &&& forall|k: int|
                    from <= k < to ==> #[trigger] offset_before(base as int, batches, k)
                        < segment.served_to
                &&& to < batches.len() ==> offset_before(base as int, batches, to)
                    >= segment.served_to
            }
        }),
{
    let base = segment.entry.base_offset as int;
    let dropped = if segment.served_from > segment.entry.base_offset {
        leading(base, batches, segment.served_from)
    } else {
        0
    };
    lemma_leading(base, batches, segment.served_from);
    let rest = batches.skip(dropped as int);
    let start = base + span_of(batches.take(dropped as int));
    let region = contributed(segment, batches);
    assert(batches.take(0) =~= Seq::empty());
    if let Some(to) = segment.cut() {
        let kept = heading(start, rest, to);
        lemma_heading(start, rest, to);
        assert(region.batches =~= batches.subrange(dropped as int, (dropped + kept) as int));
        assert forall|k: int| dropped <= k <= dropped + kept implies offset_before(
            base,
            batches,
            k,
        ) == offset_before(start, rest, k - dropped) by {
            lemma_span_parts(batches, dropped as int, k);
            assert(rest.take(k - dropped) =~= batches.subrange(dropped as int, k));
        }
        assert forall|k: int| dropped <= k < dropped + kept implies #[trigger] offset_before(
            base,
            batches,
            k,
        ) < segment.served_to by {
            assert(offset_before(start, rest, k - dropped) < to);
        }
    } else {
        assert(region.batches =~= batches.subrange(dropped as int, batches.len() as int));
    }
}

/// How many batches are left behind those that end before a segment begins to serve.
pub open spec fn contributed_after(segment: Fenced, batches: Seq<RecordBatch>) -> nat {
    if segment.served_from > segment.entry.base_offset {
        (batches.len() - leading(
            segment.entry.base_offset as int,
            batches,
            segment.served_from,
        )) as nat
    } else {
        batches.len()
    }
}

/// The offset that a batch begins at, of batches that run from `base`.
pub open spec fn offset_before(base: int, batches: Seq<RecordBatch>, k: int) -> int {
    base + span_of(batches.take(k))
}

/// One past the last offset of a batch, of batches that run from `base`.
pub open spec fn offset_behind(base: int, batches: Seq<RecordBatch>, k: int) -> int {
    base + span_of(batches.take(k + 1))
}

proof fn lemma_span_parts(batches: Seq<RecordBatch>, at: int, k: int)
    requires
        0 <= at <= k <= batches.len(),
    ensures
        span_of(batches.take(k)) == span_of(batches.take(at)) + span_of(batches.subrange(at, k)),
    decreases k - at,
{
    if at == k {
        assert(batches.subrange(at, k) =~= Seq::empty());
    } else {
        lemma_span_parts(batches, at, k - 1);
        assert(batches.take(k).drop_last() =~= batches.take(k - 1));
        assert(batches.subrange(at, k).drop_last() =~= batches.subrange(at, k - 1));
        assert(batches.take(k).last() == batches.subrange(at, k).last());
    }
}

proof fn lemma_first_span(batches: Seq<RecordBatch>, k: int)
    requires
        0 < k <= batches.len(),
    ensures
        span_of(batches.take(k)) == batches[0].span() + span_of(batches.skip(1).take(k - 1)),
{
    lemma_span_parts(batches, 1, k);
    assert(batches.take(1).drop_last() =~= Seq::empty());
    assert(span_of(batches.take(1)) == batches[0].span()) by {
        assert(batches.take(1).last() == batches[0]);
        assert(span_of(Seq::<RecordBatch>::empty()) == 0);
    }
    assert(batches.skip(1).take(k - 1) =~= batches.subrange(1, k));
}

proof fn lemma_leading(base: int, batches: Seq<RecordBatch>, served_from: int)
    ensures
        ({
            let n = leading(base, batches, served_from);
            &&& n <= batches.len()
            &&& forall|k: int|
                0 <= k < n ==> #[trigger] offset_behind(base, batches, k) <= served_from
            &&& n < batches.len() ==> offset_behind(base, batches, n as int) > served_from
        }),
    decreases batches.len(),
{
    if batches.len() > 0 {
        let rest = batches.skip(1);
        let next = base + batches[0].span();
        lemma_first_span(batches, 1);
        assert(rest.take(0) =~= Seq::empty());
        if next <= served_from {
            lemma_leading(next, rest, served_from);
            let n = leading(base, batches, served_from);
            assert forall|k: int| 0 <= k < n implies #[trigger] offset_behind(base, batches, k)
                <= served_from by {
                lemma_first_span(batches, k + 1);
                if k > 0 {
                    assert(offset_behind(next, rest, k - 1) <= served_from);
                }
            }
            if n < batches.len() {
                lemma_first_span(batches, (n + 1) as int);
                assert(offset_behind(next, rest, n - 1) > served_from);
            }
        }
    }
}

proof fn lemma_heading(base: int, batches: Seq<RecordBatch>, served_to: int)
    ensures
        ({
            let n = heading(base, batches, served_to);
            &&& n <= batches.len()
            &&& forall|k: int|
                0 <= k < n ==> #[trigger] offset_before(base, batches, k) < served_to
            &&& n < batches.len() ==> offset_before(base, batches, n as int) >= served_to
        }),
    decreases batches.len(),
{
    assert(batches.take(0) =~= Seq::empty());
    if batches.len() > 0 && base < served_to {
        let rest = batches.skip(1);
        let next = base + batches[0].span();
        lemma_heading(next, rest, served_to);
        let n = heading(base, batches, served_to);
        assert forall|k: int| 0 <= k < n implies #[trigger] offset_before(base, batches, k)
            < served_to by {
            if k > 0 {
                lemma_first_span(batches, k);
                assert(offset_before(next, rest, k - 1) < served_to);
            }
        }
        if n < batches.len() {
            lemma_first_span(batches, n as int);
            assert(offset_before(next, rest, n - 1) >= served_to);
        }
    }
}

/// Of the segments that serve exactly those are decoded whose object was read, in their
/// order.
pub proof fn what_was_read_is_decoded(segments: Seq<Fenced>, objects: Set<u64>, k: int)
    requires
        0 <= k < segments.len(),
    ensures
        ({
            let had = read_of(segments.take(k), objects);
            let more = read_of(segments.take(k + 1), objects);
            &&& objects.contains(segments[k].seq) ==> more == had.push(segments[k])
            &&& !objects.contains(segments[k].seq) ==> more == had
            &&& read_of(segments.take(0), objects).len() == 0
            &&& read_of(segments.take(segments.len() as int), objects) == read_of(segments, objects)
        }),
{
    assert(segments.take(k + 1).drop_last() =~= segments.take(k));
    assert(segments.take(segments.len() as int) =~= segments);
}

/// A segment is taken for deleted if and only if a read of it found no object, and is
/// read if and only if one found it; what is decoded is what the last such read found.
pub proof fn only_what_is_absent_vanishes(reads: Seq<(u64, Option<Vec<u8>>)>, seq: u64)
    ensures
        vanished(reads).contains(seq) <==> exists|i: int|
            0 <= i < reads.len() && (#[trigger] reads[i]).0 == seq && reads[i].1 is None,
        objects_of(reads).dom().contains(seq) <==> exists|i: int|
            0 <= i < reads.len() && (#[trigger] reads[i]).0 == seq && reads[i].1 is Some,
        objects_of(reads).dom().contains(seq) ==> exists|i: int|
            0 <= i < reads.len() && (#[trigger] reads[i]).0 == seq && reads[i].1 == Some(
                objects_of(reads)[seq],
            ) && forall|j: int|
                i < j < reads.len() ==> (#[trigger] reads[j]).0 != seq || reads[j].1 is None,
    decreases reads.len(),
{
    if reads.len() > 0 {
        let init = reads.drop_last();
        let end = reads.len() - 1;
        only_what_is_absent_vanishes(init, seq);
        assert forall|i: int| 0 <= i < end implies #[trigger] reads[i] == init[i] by {}
        let gone = vanished(init);
        let all = vanished(reads);
        if gone.contains(seq) {
            let k = choose|k: int| 0 <= k < gone.len() && gone[k] == seq;
            assert(all[k] == seq);
            let i = choose|i: int|
                0 <= i < init.len() && (#[trigger] init[i]).0 == seq && init[i].1 is None;
            assert(reads[i] == init[i]);
        }
        if all.contains(seq) && !gone.contains(seq) {
            let k = choose|k: int| 0 <= k < all.len() && all[k] == seq;
            if k < gone.len() {
                assert(gone[k] == seq);
            }
            assert(reads[end].0 == seq && reads[end].1 is None);
        }
        if exists|i: int|
            0 <= i < reads.len() && (#[trigger] reads[i]).0 == seq && reads[i].1 is None {
            let i = choose|i: int|
                0 <= i < reads.len() && (#[trigger] reads[i]).0 == seq && reads[i].1 is None;
            if i < end {
                assert(init[i] == reads[i]);
            } else {
                assert(all[all.len() - 1] == seq);
            }
        }
        if objects_of(init).dom().contains(seq) {
            let i = choose|i: int|
                0 <= i < init.len() && (#[trigger] init[i]).0 == seq && init[i].1 == Some(
                    objects_of(init)[seq],
                ) && forall|j: int|
                    i < j < init.len() ==> (#[trigger] init[j]).0 != seq || init[j].1 is None;
            assert(reads[i] == init[i]);
            if reads[end].0 == seq && reads[end].1 is Some {
                assert(objects_of(reads)[seq] == reads[end].1->0);
            } else {
                assert forall|j: int| i < j < reads.len() implies (#[trigger] reads[j]).0 != seq
                    || reads[j].1 is None by {
                    if j < end {
                        assert(init[j] == reads[j]);
                    }
                }
            }
        } else if objects_of(reads).dom().contains(seq) {
            assert(reads[end].0 == seq && reads[end].1 is Some);
        }
        if exists|i: int|
            0 <= i < reads.len() && (#[trigger] reads[i]).0 == seq && reads[i].1 is Some {
            let i = choose|i: int|
                0 <= i < reads.len() && (#[trigger] reads[i]).0 == seq && reads[i].1 is Some;
            if i < end {
                assert(init[i] == reads[i]);
            }
        }
    }
}

/// The bytes of a region are those of the object from where its entry says, as many as it
/// says; and it is whole exactly if it decodes and holds a frame, or holds nothing.
pub proof fn a_region_is_what_its_entry_says(
    segment: FencedSegment,
    object: Seq<u8>,
    decoded: Result<Vec<Batch>, String>,
    i: int,
)
    requires
        segment.entry.byte_start + segment.entry.byte_len <= object.len(),
    ensures
        region_of(segment@, object).len() == segment.entry.byte_len,
        0 <= i < segment.entry.byte_len ==> region_of(segment@, object)[i]
            == object[segment.entry.byte_start + i],
        is_whole(segment, object, decoded) <==> decoded is Ok && (segment.entry.byte_len == 0
            || frames_from(region_of(segment@, object), 0).0.len() > 0),
{
    what_damages_a_read(segment@.entry, region_of(segment@, object), None);
}

} // verus!
