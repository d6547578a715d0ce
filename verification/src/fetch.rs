//! Fetching a sub-stream's records: which segments are read, and which of their
//! batches are returned.

use crate::fence::{fenced_view, Fenced, FencedSegment};
use crate::segment::{batches_view, span_of, Batch, RecordBatch, FRAME_PREFIX};
use crate::wire::{lemma_be_len, pattern};
use vstd::prelude::*;

verus! {

/// The segments to read for a fetch of `offset`: of those that reach past it and
/// begin below the high watermark, as many as the bytes admit, with the one that
/// crosses them.
pub open spec fn planned(segments: Seq<Fenced>, offset: i64, bytes: int, high_watermark: i64) -> Seq<
    Fenced,
>
    decreases segments.len(),
{
    if segments.len() == 0 {
        Seq::empty()
    } else {
        let first = segments[0];
        let rest = segments.skip(1);
        if first.served_to <= offset {
            planned(rest, offset, bytes, high_watermark)
        } else if first.entry.base_offset >= high_watermark {
            Seq::empty()
        } else if first.entry.byte_len > bytes {
            seq![first]
        } else {
            seq![first] + planned(rest, offset, bytes - first.entry.byte_len, high_watermark)
        }
    }
}

/// Pick the segments to read for a fetch.
pub fn plan_reads(
    segments: &Vec<FencedSegment>,
    offset: i64,
    max_bytes: u32,
    high_watermark: i64,
) -> (plan: Vec<FencedSegment>)
    ensures
        fenced_view(plan@) == planned(
            fenced_view(segments@),
            offset,
            max_bytes as int,
            high_watermark,
        ),
{
    let ghost all = fenced_view(segments@);
    let mut plan: Vec<FencedSegment> = Vec::new();
    let mut bytes: u64 = max_bytes as u64;
    let mut at: usize = 0;
    assert(all.skip(0) =~= all);
    assert(fenced_view(plan@) + planned(all, offset, max_bytes as int, high_watermark) =~= planned(
        all,
        offset,
        max_bytes as int,
        high_watermark,
    ));
    while at < segments.len()
        invariant
            at <= segments@.len(),
            all == fenced_view(segments@),
            fenced_view(plan@) + planned(all.skip(at as int), offset, bytes as int, high_watermark)
                == planned(all, offset, max_bytes as int, high_watermark),
        decreases segments@.len() - at,
    {
        let fenced = &segments[at];
        assert(fenced@ == all[at as int]);
        assert(all.skip(at as int)[0] == all[at as int]);
        assert(all.skip(at as int).skip(1) =~= all.skip(at + 1));
        let ghost before = fenced_view(plan@);
        if fenced.end() <= offset {
            at = at + 1;
            continue;
        }
        if fenced.entry.base_offset >= high_watermark {
            assert(before + Seq::<Fenced>::empty() =~= before);
            return plan;
        }
        let byte_len: u64 = fenced.entry.byte_len;
        plan.push(fenced.duplicate());
        assert(fenced_view(plan@) =~= before.push(all[at as int]));
        if byte_len > bytes {
            assert(before + seq![all[at as int]] =~= before.push(all[at as int]));
            return plan;
        }
        bytes = bytes - byte_len;
        proof {
            let rest = planned(all.skip(at + 1), offset, bytes as int, high_watermark);
            assert(before + (seq![all[at as int]] + rest) =~= before.push(all[at as int]) + rest);
        }
        at = at + 1;
    }
    assert(fenced_view(plan@) + Seq::<Fenced>::empty() =~= fenced_view(plan@));
    plan
}

/// Whether the offsets of batches that run from `base` are offsets.
pub open spec fn runs_in_range(base: int, batches: Seq<RecordBatch>) -> bool {
    forall|n: int|
        #![trigger batches.take(n)]
        0 <= n <= batches.len() ==> i64::MIN <= base + span_of(batches.take(n)) <= i64::MAX
}

/// Whether the offsets of batches that run from `base` are offsets.
pub fn is_run_in_range(base: i64, batches: &Vec<Batch>) -> (in_range: bool)
    ensures
        in_range == runs_in_range(base as int, batches_view(batches@)),
{
    let ghost all = batches_view(batches@);
    let mut running: i64 = base;
    let mut at: usize = 0;
    assert(all.take(0) =~= Seq::empty());
    while at < batches.len()
        invariant
            at <= batches@.len(),
            all == batches_view(batches@),
            running == base + span_of(all.take(at as int)),
            forall|n: int|
                #![trigger all.take(n)]
                0 <= n <= at ==> i64::MIN <= base + span_of(all.take(n)) <= i64::MAX,
        decreases batches@.len() - at,
    {
        let span: i64 = batches[at].last_offset_delta as i64 + 1;
        assert(all.take(at + 1).drop_last() =~= all.take(at as int));
        assert(all.take(at + 1).last() == all[at as int]);
        match running.checked_add(span) {
            Some(next) => {
                running = next;
            },
            None => {
                assert(!(i64::MIN <= base + span_of(all.take(at + 1)) <= i64::MAX));
                return false;
            },
        }
        at = at + 1;
    }
    true
}

/// The batch at an offset.
pub open spec fn placed_at(batch: RecordBatch, offset: int) -> RecordBatch {
    RecordBatch { base_offset: offset as i64, ..batch }
}

/// Whether an offset lies where a segment serves no more.
pub open spec fn is_cut_off(offset: int, cut: Option<int>) -> bool {
    cut matches Some(to) && offset >= to
}

/// Of the batches of a region that runs from `base`, those that reach past the fetch
/// offset, reach past where the segment begins to serve, and begin before where it ends
/// to, if that is before the end of its entry; each at its offset.
pub open spec fn wanted(
    base: int,
    batches: Seq<RecordBatch>,
    offset: i64,
    served_from: int,
    cut: Option<int>,
) -> Seq<RecordBatch>
    decreases batches.len(),
{
    if batches.len() == 0 {
        Seq::empty()
    } else {
        let before = wanted(base, batches.drop_last(), offset, served_from, cut);
        let from = base + span_of(batches.drop_last());
        let end = base + span_of(batches);
        if end <= offset || end <= served_from || is_cut_off(from, cut) {
            before
        } else {
            before.push(placed_at(batches.last(), from))
        }
    }
}

/// What is left of a budget after a batch.
pub open spec fn less(budget: int, batch: RecordBatch) -> int {
    if batch.wire().len() >= budget {
        0
    } else {
        budget - batch.wire().len()
    }
}

/// What a response holds after `offered` was, and the budget left: batches are
/// taken until the budget is spent, and the first in any case.
pub open spec fn filled(got: Seq<RecordBatch>, budget: int, offered: Seq<RecordBatch>) -> (
    Seq<RecordBatch>,
    int,
    bool,
)
    decreases offered.len(),
{
    if offered.len() == 0 {
        (got, budget, false)
    } else {
        let (got, budget, spent) = filled(got, budget, offered.drop_last());
        if spent || (budget == 0 && got.len() > 0) {
            (got, budget, true)
        } else {
            (got.push(offered.last()), less(budget, offered.last()), false)
        }
    }
}

/// Bytes of batches on the wire.
pub open spec fn bytes_of(batches: Seq<RecordBatch>) -> int
    decreases batches.len(),
{
    if batches.len() == 0 {
        0
    } else {
        bytes_of(batches.drop_last()) + batches.last().wire().len()
    }
}

/// Whether the budget is what `max` leaves, and only the last batch crosses `max`.
pub open spec fn within(max: int, got: Seq<RecordBatch>, budget: int) -> bool {
    &&& budget == if bytes_of(got) >= max {
        0
    } else {
        max - bytes_of(got)
    }
    &&& got.len() >= 2 ==> bytes_of(got.drop_last()) < max
}

/// A response in the making.
#[derive(Debug)]
pub struct FetchAssembly {
    pub batches: Vec<Batch>,
    /// Bytes that it may still carry.
    pub budget: u64,
}

impl FetchAssembly {
    /// The mathematical response.
    pub open spec fn got(&self) -> Seq<RecordBatch> {
        batches_view(self.batches@)
    }

    /// An empty response of at most `max_bytes`, and one batch.
    pub fn new(max_bytes: u32) -> (assembly: Self)
        ensures
            assembly.got() == Seq::<RecordBatch>::empty(),
            assembly.budget == max_bytes,
            within(max_bytes as int, assembly.got(), assembly.budget as int),
    {
        let assembly = FetchAssembly { batches: Vec::new(), budget: max_bytes as u64 };
        assert(assembly.got() =~= Seq::<RecordBatch>::empty());
        assembly
    }

    /// Take the batches of a segment's region. The answer is whether the response
    /// is full.
    pub fn take_region(&mut self, fenced: &FencedSegment, region: Vec<Batch>, offset: i64) -> (spent:
        bool)
        requires
            runs_in_range(fenced@.entry.base_offset as int, batches_view(region@)),
        ensures
            (final(self).got(), final(self).budget as int, spent) == filled(
                old(self).got(),
                old(self).budget as int,
                wanted(
                    fenced@.entry.base_offset as int,
                    batches_view(region@),
                    offset,
                    fenced@.served_from,
                    fenced@.cut(),
                ),
            ),
    {
        let ghost base = fenced@.entry.base_offset as int;
        let ghost all = batches_view(region@);
        let ghost start = self.got();
        let ghost budget = self.budget as int;
        let cut: Option<i64> = fenced.cut();
        let mut running: i64 = fenced.entry.base_offset;
        let ghost mut done: int = 0;
        assert(all.take(0) =~= Seq::empty());
        for batch in it: region.into_iter()
            invariant
                it.seq() == region@,
                all == batches_view(region@),
                base == fenced@.entry.base_offset,
                match cut {
                    Some(to) => fenced@.cut() == Some(to as int),
                    None => fenced@.cut() is None,
                },
                start == old(self).got(),
                budget == old(self).budget,
                done == it.index(),
                running == base + span_of(all.take(done)),
                runs_in_range(base, all),
                (self.got(), self.budget as int, false) == filled(
                    start,
                    budget,
                    wanted(base, all.take(done), offset, fenced@.served_from, fenced@.cut()),
                ),
        {
            let ghost seen = all.take(done);
            let ghost more = all.take(done + 1);
            assert(more.drop_last() =~= seen);
            assert(batch@ == all[done]);
            assert(more.last() == all[done]);
            let span: i64 = batch.last_offset_delta as i64 + 1;
            let from: i64 = running;
            proof {
                assert(i64::MIN <= base + span_of(more) <= i64::MAX);
                done = done + 1;
            }
            running = running + span;
            let is_cut_off = match cut {
                Some(to) => from >= to,
                None => false,
            };
            if running > offset && running > fenced.served_from && !is_cut_off {
                let ghost next = placed_at(batch@, from as int);
                proof {
                    let wants = wanted(base, more, offset, fenced@.served_from, fenced@.cut());
                    assert(wants.drop_last() =~= wanted(base, seen, offset, fenced@.served_from, fenced@.cut()));
                    assert(wants.last() == next);
                }
                if self.budget == 0 && self.batches.len() > 0 {
                    proof {
                        assert(filled(
                            start,
                            budget,
                            wanted(base, more, offset, fenced@.served_from, fenced@.cut()),
                        ) == (self.got(), self.budget as int, true));
                        lemma_spent(start, budget, base, all, offset, fenced@.served_from, fenced@.cut(), done);
                    }
                    return true;
                }
                let mut batch = batch;
                batch.base_offset = from;
                assert(batch@ =~= next);
                proof {
                    lemma_be_len(pattern(batch.base_offset as int, 8), 8);
                    lemma_be_len(pattern(batch.batch_length as int, 4), 4);
                }
                let room: u64 = self.budget.saturating_sub(batch.body.len() as u64);
                self.budget = room.saturating_sub(FRAME_PREFIX as u64);
                let ghost before = self.got();
                self.batches.push(batch);
                assert(self.got() =~= before.push(next));
            }
        }
        assert(all.take(done) =~= all);
        false
    }
}

/// A response that is full after some batches of a region is full after all.
proof fn lemma_spent(
    start: Seq<RecordBatch>,
    budget: int,
    base: int,
    all: Seq<RecordBatch>,
    offset: i64,
    served_from: int,
    cut: Option<int>,
    at: int,
)
    requires
        0 <= at <= all.len(),
        filled(start, budget, wanted(base, all.take(at), offset, served_from, cut)).2,
    ensures
        filled(start, budget, wanted(base, all, offset, served_from, cut)) == filled(
            start,
            budget,
            wanted(base, all.take(at), offset, served_from, cut),
        ),
    decreases all.len() - at,
{
    if at < all.len() {
        let more = all.take(at + 1);
        assert(more.drop_last() =~= all.take(at));
        let wants = wanted(base, more, offset, served_from, cut);
        let had = wanted(base, all.take(at), offset, served_from, cut);
        if wants != had {
            assert(wants.drop_last() =~= had);
        }
        lemma_spent(start, budget, base, all, offset, served_from, cut, at + 1);
    } else {
        assert(all.take(at) =~= all);
    }
}

/// A response carries at most the bytes asked for and one batch, whatever the
/// regions it is made of.
pub proof fn responses_are_bounded(
    max: int,
    got: Seq<RecordBatch>,
    budget: int,
    offered: Seq<RecordBatch>,
)
    requires
        0 <= max,
        within(max, got, budget),
    ensures
        ({
            let (after, left, _) = filled(got, budget, offered);
            &&& within(max, after, left)
            &&& after.len() > 0 ==> bytes_of(after) <= max + after.last().wire().len()
        }),
    decreases offered.len(),
{
    if offered.len() > 0 {
        responses_are_bounded(max, got, budget, offered.drop_last());
        let (before, left, spent) = filled(got, budget, offered.drop_last());
        if !(spent || (left == 0 && before.len() > 0)) {
            let after = before.push(offered.last());
            assert(after.drop_last() =~= before);
        }
    }
    let (after, _, _) = filled(got, budget, offered);
    if after.len() == 1 {
        assert(after.drop_last() =~= Seq::empty());
    }
}

/// A fetch makes progress: where a batch is wanted, one is returned, though it be
/// larger than what was asked for.
pub proof fn a_fetch_makes_progress(budget: int, offered: Seq<RecordBatch>)
    requires
        offered.len() > 0,
    ensures
        filled(Seq::empty(), budget, offered).0.len() > 0,
        filled(Seq::empty(), budget, offered).0[0] == offered[0],
    decreases offered.len(),
{
    reveal_with_fuel(filled, 2);
    if offered.len() > 1 {
        a_fetch_makes_progress(budget, offered.drop_last());
    } else {
        assert(offered.drop_last() =~= Seq::empty());
    }
}

/// What is returned of a region is the beginning of what is wanted of it.
pub proof fn responses_keep_order(got: Seq<RecordBatch>, budget: int, offered: Seq<RecordBatch>)
    ensures
        ({
            let (after, _, spent) = filled(got, budget, offered);
            &&& got.len() <= after.len() <= got.len() + offered.len()
            &&& after == got + offered.take(after.len() - got.len())
            &&& !spent ==> after == got + offered
        }),
    decreases offered.len(),
{
    if offered.len() > 0 {
        let init = offered.drop_last();
        responses_keep_order(got, budget, init);
        let (before, left, spent) = filled(got, budget, init);
        let taken = before.len() - got.len();
        assert(init.take(taken) =~= offered.take(taken));
        if !(spent || (left == 0 && before.len() > 0)) {
            assert(init.take(taken) =~= init);
            assert(before.push(offered.last()) =~= got + offered);
            assert(offered.take(offered.len() as int) =~= offered);
        }
    } else {
        assert(offered.take(0) =~= Seq::empty());
        assert(got + Seq::<RecordBatch>::empty() =~= got);
    }
}

/// No record that was asked for is left out: the batch of a region that holds an
/// offset at or past the fetch offset, and that this segment serves, is wanted, at
/// its own offset.
pub proof fn every_offset_asked_for_is_wanted(
    base: int,
    batches: Seq<RecordBatch>,
    offset: i64,
    served_from: int,
    cut: Option<int>,
    at: int,
    held: int,
)
    requires
        0 <= at < batches.len(),
        base + span_of(batches.take(at)) <= held < base + span_of(batches.take(at + 1)),
        held >= offset,
        served_from <= held,
        !is_cut_off(held, cut),
    ensures
        wanted(base, batches, offset, served_from, cut).contains(
            placed_at(batches[at], base + span_of(batches.take(at))),
        ),
    decreases batches.len(),
{
    let batch = placed_at(batches[at], base + span_of(batches.take(at)));
    let init = batches.drop_last();
    let all = wanted(base, batches, offset, served_from, cut);
    let before = wanted(base, init, offset, served_from, cut);
    if at < init.len() {
        assert(init.take(at) =~= batches.take(at));
        assert(init.take(at + 1) =~= batches.take(at + 1));
        every_offset_asked_for_is_wanted(base, init, offset, served_from, cut, at, held);
        let w = choose|w: int| 0 <= w < before.len() && before[w] == batch;
        assert(all[w] == batch);
    } else {
        assert(batches.take(at + 1) =~= batches);
        assert(batches.take(at) =~= init);
        assert(all[all.len() - 1] == batch);
    }
}

/// Whether a time is over.
pub open spec fn is_over(elapsed: Option<u64>, max_wait: u64) -> bool {
    match elapsed {
        Some(elapsed) => elapsed >= max_wait,
        None => false,
    }
}

/// A fetch has its time and no more: it is over from the moment on that it has waited as
/// long as was asked for, and not before; a clock that went back does not end it.
pub proof fn a_fetch_has_its_time(elapsed: u64, max_wait: u64)
    ensures
        elapsed < max_wait ==> !is_over(Some(elapsed), max_wait),
        elapsed >= max_wait ==> is_over(Some(elapsed), max_wait),
        !is_over(None, max_wait),
{
}

/// Whether the time of a fetch is over, before the next region is taken. A clock that
/// went back tells nothing.
pub fn has_deadline_expired(elapsed: Option<u64>, max_wait: u64) -> (expired: bool)
    ensures
        expired == is_over(elapsed, max_wait),
{
    match elapsed {
        Some(elapsed) => elapsed >= max_wait,
        None => false,
    }
}

/// Bytes of the regions of segments.
pub open spec fn region_bytes(segments: Seq<Fenced>) -> int
    decreases segments.len(),
{
    if segments.len() == 0 {
        0
    } else {
        region_bytes(segments.drop_last()) + segments.last().entry.byte_len
    }
}

/// A plan is one run of the segments that serve: it begins with the first that reaches
/// past the fetch offset, however many end at or below it, and goes on with the ones
/// behind it until the bytes asked for are crossed, by its last one only, or the next
/// begins at or past the high watermark.
pub proof fn a_plan_is_an_unbroken_run(
    segments: Seq<Fenced>,
    offset: i64,
    bytes: int,
    high_watermark: i64,
    first: int,
)
    requires
        0 <= bytes,
        0 <= first < segments.len(),
        forall|i: int|
            #![trigger segments[i]]
            0 <= i < segments.len() ==> (segments[i].served_to > offset <==> i >= first),
        segments[first].entry.base_offset < high_watermark,
    ensures
        ({
            let plan = planned(segments, offset, bytes, high_watermark);
            let end = first + plan.len();
            &&& plan.len() > 0
            &&& end <= segments.len()
            &&& plan == segments.subrange(first, end)
            &&& forall|i: int|
                #![trigger plan[i]]
                0 <= i < plan.len() ==> plan[i].entry.base_offset < high_watermark
            &&& region_bytes(plan.drop_last()) <= bytes
            &&& end == segments.len() || segments[end].entry.base_offset >= high_watermark
                || region_bytes(plan) > bytes
        }),
    decreases segments.len(),
{
    let plan = planned(segments, offset, bytes, high_watermark);
    let rest = segments.skip(1);
    if first > 0 {
        assert(segments[0].served_to <= offset);
        assert forall|i: int|
            #![trigger rest[i]]
            0 <= i < rest.len() implies (rest[i].served_to > offset <==> i >= first - 1) by {
            assert(rest[i] == segments[i + 1]);
        }
        assert(rest[first - 1] == segments[first]);
        a_plan_is_an_unbroken_run(rest, offset, bytes, high_watermark, first - 1);
        assert(rest.subrange(first - 1, first - 1 + plan.len()) =~= segments.subrange(
            first,
            first + plan.len(),
        ));
        if first + plan.len() < segments.len() {
            assert(rest[first - 1 + plan.len()] == segments[first + plan.len()]);
        }
    } else {
        lemma_plan(segments, offset, bytes, high_watermark);
    }
}

proof fn lemma_plan(segments: Seq<Fenced>, offset: i64, bytes: int, high_watermark: i64)
    requires
        0 <= bytes,
        0 < segments.len(),
        forall|i: int|
            #![trigger segments[i]]
            0 <= i < segments.len() ==> segments[i].served_to > offset,
        segments[0].entry.base_offset < high_watermark,
    ensures
        ({
            let plan = planned(segments, offset, bytes, high_watermark);
            let end = plan.len();
            &&& 0 < end <= segments.len()
            &&& plan == segments.subrange(0, end as int)
            &&& forall|i: int|
                #![trigger plan[i]]
                0 <= i < plan.len() ==> plan[i].entry.base_offset < high_watermark
            &&& region_bytes(plan.drop_last()) <= bytes
            &&& end == segments.len() || segments[end as int].entry.base_offset >= high_watermark
                || region_bytes(plan) > bytes
        }),
    decreases segments.len(),
{
    let plan = planned(segments, offset, bytes, high_watermark);
    let rest = segments.skip(1);
    let first = segments[0];
    let left = bytes - first.entry.byte_len;
    let behind = planned(rest, offset, left, high_watermark);
    assert(first.served_to > offset);
    assert forall|i: int|
        #![trigger rest[i]]
        0 <= i < rest.len() implies rest[i].served_to > offset by {
        assert(rest[i] == segments[i + 1]);
    }
    assert(region_bytes(Seq::<Fenced>::empty()) == 0);
    if first.entry.byte_len > bytes {
        assert(plan =~= segments.subrange(0, 1));
        assert(plan.drop_last() =~= Seq::empty());
        assert(region_bytes(plan) == first.entry.byte_len);
    } else if rest.len() == 0 || rest[0].entry.base_offset >= high_watermark {
        assert(behind =~= Seq::empty());
        assert(plan =~= segments.subrange(0, 1));
        assert(plan.drop_last() =~= Seq::empty());
        assert(rest.len() == 0 || segments[1] == rest[0]);
    } else {
        lemma_plan(rest, offset, left, high_watermark);
        lemma_region_bytes(first, behind);
        lemma_region_bytes(first, behind.drop_last());
        assert(plan == seq![first] + behind);
        assert(plan.drop_last() =~= seq![first] + behind.drop_last());
        assert(plan =~= segments.subrange(0, plan.len() as int)) by {
            assert forall|i: int| 0 <= i < plan.len() implies plan[i] == segments[i] by {
                if i > 0 {
                    assert(plan[i] == behind[i - 1]);
                    assert(behind[i - 1] == rest[i - 1]);
                }
            }
        }
        assert forall|i: int|
            #![trigger plan[i]]
            0 <= i < plan.len() implies plan[i].entry.base_offset < high_watermark by {
            if i > 0 {
                assert(plan[i] == behind[i - 1]);
            }
        }
        if plan.len() < segments.len() {
            assert(segments[plan.len() as int] == rest[behind.len() as int]);
        }
    }
}

proof fn lemma_region_bytes(first: Fenced, behind: Seq<Fenced>)
    ensures
        region_bytes(seq![first] + behind) == first.entry.byte_len + region_bytes(behind),
    decreases behind.len(),
{
    let all = seq![first] + behind;
    if behind.len() == 0 {
        assert(all.drop_last() =~= Seq::empty());
        assert(region_bytes(Seq::<Fenced>::empty()) == 0);
    } else {
        assert(all.drop_last() =~= seq![first] + behind.drop_last());
        lemma_region_bytes(first, behind.drop_last());
    }
}

/// Nothing is read for a fetch at or past the end of what serves, nor for one whose
/// first segment begins at or past the high watermark.
pub proof fn nothing_is_read_past_the_end(
    segments: Seq<Fenced>,
    offset: i64,
    bytes: int,
    high_watermark: i64,
)
    requires
        forall|i: int|
            #![trigger segments[i]]
            0 <= i < segments.len() ==> segments[i].served_to <= offset
                || segments[i].entry.base_offset >= high_watermark,
    ensures
        planned(segments, offset, bytes, high_watermark).len() == 0,
    decreases segments.len(),
{
    if segments.len() > 0 {
        let rest = segments.skip(1);
        assert(segments[0].served_to <= offset || segments[0].entry.base_offset >= high_watermark);
        assert forall|i: int|
            #![trigger rest[i]]
            0 <= i < rest.len() implies rest[i].served_to <= offset || rest[i].entry.base_offset
            >= high_watermark by {
            assert(rest[i] == segments[i + 1]);
        }
        nothing_is_read_past_the_end(rest, offset, bytes, high_watermark);
    }
}

/// Nothing is returned that was not asked for: what is wanted of a region are batches
/// of it, unchanged but for their offsets, each where the lengths of those before it
/// put it; and each holds an offset past the one before the fetch offset and past
/// where the segment begins to serve, and begins before where it ends to.
pub proof fn only_what_was_asked_for_is_wanted(
    base: int,
    batches: Seq<RecordBatch>,
    offset: i64,
    served_from: int,
    cut: Option<int>,
    i: int,
)
    requires
        0 <= i < wanted(base, batches, offset, served_from, cut).len(),
    ensures
        exists|at: int| #[trigger]
            is_wanted_at(
                base,
                batches,
                offset,
                served_from,
                cut,
                at,
                wanted(base, batches, offset, served_from, cut)[i],
            ),
    decreases batches.len(),
{
    let init = batches.drop_last();
    let before = wanted(base, init, offset, served_from, cut);
    let all = wanted(base, batches, offset, served_from, cut);
    if i < before.len() {
        only_what_was_asked_for_is_wanted(base, init, offset, served_from, cut, i);
        let at = choose|at: int| #[trigger]
            is_wanted_at(base, init, offset, served_from, cut, at, before[i]);
        assert(init.take(at) =~= batches.take(at));
        assert(init.take(at + 1) =~= batches.take(at + 1));
        assert(is_wanted_at(base, batches, offset, served_from, cut, at, all[i]));
    } else {
        let at = batches.len() - 1;
        assert(batches.take(at) =~= init);
        assert(batches.take(at + 1) =~= batches);
        assert(is_wanted_at(base, batches, offset, served_from, cut, at, all[i]));
    }
}

/// Whether a batch is the one at `at` of a region, at its offset, and was asked for.
pub open spec fn is_wanted_at(
    base: int,
    batches: Seq<RecordBatch>,
    offset: i64,
    served_from: int,
    cut: Option<int>,
    at: int,
    batch: RecordBatch,
) -> bool {
    let from = base + span_of(batches.take(at));
    let end = base + span_of(batches.take(at + 1));
    &&& 0 <= at < batches.len()
    &&& batch == (RecordBatch { base_offset: from as i64, ..batches[at] })
    &&& end > offset
    &&& end > served_from
    &&& cut matches Some(to) ==> from < to
}

/// A response is full only once the bytes asked for are spent, and what was offered up
/// to there is in it.
pub proof fn a_response_is_filled(
    max: int,
    got: Seq<RecordBatch>,
    budget: int,
    offered: Seq<RecordBatch>,
)
    requires
        0 <= max,
        within(max, got, budget),
    ensures
        ({
            let (after, _, spent) = filled(got, budget, offered);
            &&& spent ==> bytes_of(after) >= max && after.len() > 0
            &&& bytes_of(got + offered) < max ==> !spent && after == got + offered
        }),
    decreases offered.len(),
{
    responses_keep_order(got, budget, offered);
    responses_are_bounded(max, got, budget, offered);
    if offered.len() > 0 {
        let init = offered.drop_last();
        a_response_is_filled(max, got, budget, init);
        responses_are_bounded(max, got, budget, init);
        let all = got + offered;
        assert(all.drop_last() =~= got + init);
    }
}

} // verus!
