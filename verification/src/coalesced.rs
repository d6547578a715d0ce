//! A fetch from end to end: what it reads, in which order, and when it starts over.

use crate::error::Error;
use crate::fence::{fenced_view, Fenced, FencedSegment};
use crate::fetch::{
    filled, plan_reads, planned, responses_keep_order, runs_in_range, wanted, FetchAssembly,
};
use crate::frame::{
    damage_of, frames_from, reports, short_detail, what_damages_a_read, Reading,
};
use crate::index::pruned_footer;
use crate::refresh::IndexState;
use crate::regions::failure_of;
use crate::segment::{
    batches_view, first_under, Batch, CorruptRegion, Entry, Footer, Identity, RecordBatch,
    SegmentFooter, Substream,
};
use crate::store::DynoStore;
use vstd::prelude::*;

verus! {

/// How often a fetch reads before it gives up on segments that keep going.
pub const FETCH_MAX_ATTEMPTS: usize = 3;

/// What is fetched.
#[derive(Debug)]
pub struct FetchRequest {
    pub prefix: String,
    pub substream: Substream,
    pub partition: i32,
    pub offset: i64,
    pub max_bytes: u32,
    pub high_watermark: i64,
}

/// Why the footer of an object is read.
#[derive(Debug)]
pub enum Doubt {
    /// What was read is short of what the index claims.
    Short(Vec<u8>),
    /// What was read holds no batch.
    Corrupt(CorruptRegion),
}

/// A fetch that is under way.
#[derive(Debug)]
pub struct Fetch {
    pub attempts: usize,
    /// The segments that this attempt reads, and which of them is next.
    pub plan: Vec<FencedSegment>,
    pub next: usize,
    pub assembly: FetchAssembly,
    pub doubt: Option<Doubt>,
}

/// What came of a step of a fetch.
#[derive(Debug)]
pub enum FetchEvent {
    /// The index was refreshed.
    Refreshed(Result<(), Error>),
    /// The time of the fetch is over.
    Expired,
    /// The next region was read, and what its frames decode to.
    Read(Vec<u8>, Result<Vec<Batch>, String>),
    /// The object of the next region is gone.
    Vanished,
    /// The footer of the object was read, if it has one.
    Footer(Result<Option<SegmentFooter>, Error>),
    /// A read failed.
    Failed(Error),
}

/// What to do about a fetch.
#[derive(Debug)]
pub enum FetchAction {
    /// Refresh the index.
    Refresh,
    /// Take the next region, if there is time.
    Read,
    /// Read the footer of the object that the next region is in.
    ReadFooter(u64),
}

/// How a fetch goes on.
#[derive(Debug)]
pub enum Fetched {
    Go(Fetch, FetchAction),
    Answered(Vec<Batch>),
    Failed(Error),
}

impl Fetch {
    pub open spec fn wf(&self) -> bool {
        &&& self.attempts <= FETCH_MAX_ATTEMPTS
        &&& self.doubt is Some ==> self.next < self.plan@.len()
    }

    /// Before the first attempt.
    pub fn new(request: &FetchRequest) -> (fetch: Self)
        ensures
            fetch.wf(),
            fetch.begins(0, *request),
            fetch.plan@.len() == 0,
    {
        Fetch {
            attempts: 0,
            plan: Vec::new(),
            next: 0,
            assembly: FetchAssembly::new(request.max_bytes),
            doubt: None,
        }
    }

    /// Whether nothing of an attempt was read yet.
    pub open spec fn begins(&self, attempts: int, request: FetchRequest) -> bool {
        &&& self.attempts == attempts
        &&& self.next == 0
        &&& self.assembly.got() == Seq::<RecordBatch>::empty()
        &&& self.assembly.budget == request.max_bytes
        &&& self.doubt is None
    }

    /// The segment that is read next.
    pub open spec fn segment(&self) -> Fenced {
        self.plan@[self.next as int]@
    }

    /// What is left to do at most, by what is waited for: attempts, regions of this one,
    /// and what is asked about the next region.
    pub open spec fn left(&self, awaited: int) -> (int, int, int) {
        (
            FETCH_MAX_ATTEMPTS - self.attempts,
            if awaited == 0 {
                0
            } else {
                self.plan@.len() - self.next
            },
            awaited,
        )
    }

    /// Whether an event can come about at this stage.
    pub open spec fn expects(&self, event: FetchEvent) -> bool {
        match event {
            FetchEvent::Read(_, decoded) => self.next < self.plan@.len() && (decoded matches Ok(
                batches,
            ) ==> runs_in_range(
                self.segment().entry.base_offset as int,
                batches_view(batches@),
            )),
            FetchEvent::Vanished => self.next < self.plan@.len(),
            FetchEvent::Footer(footer) => self.doubt is Some && (footer matches Ok(Some(footer))
                ==> footer@.entries.len() <= u32::MAX),
            _ => true,
        }
    }
}

/// What a fetch waits for: the index, the footer of an object, or a region.
pub open spec fn waits_for(action: FetchAction) -> int {
    match action {
        FetchAction::Refresh => 0,
        FetchAction::ReadFooter(_) => 1,
        FetchAction::Read => 2,
    }
}

/// What a fetch waited for, by what came.
pub open spec fn waited_for(event: FetchEvent) -> int {
    match event {
        FetchEvent::Refreshed(_) => 0,
        FetchEvent::Footer(_) => 1,
        _ => 2,
    }
}

/// Whether there is less to do: fewer attempts, or fewer regions of this one, or less
/// about the next region.
pub open spec fn is_less(after: (int, int, int), before: (int, int, int)) -> bool {
    &&& after.0 >= 0 && after.1 >= 0 && after.2 >= 0
    &&& after.0 < before.0 || after.0 == before.0 && (after.1 < before.1 || after.1 == before.1
        && after.2 < before.2)
}

/// Whether a fetch starts over. After the last attempt the index is refreshed for
/// whoever fetches next.
pub open spec fn starts_over(step: Fetched, fetch: Fetch) -> bool {
    step == Fetched::Go((Fetch { doubt: None, ..fetch }), FetchAction::Refresh)
}

/// Whether a fetch is answered with batches.
pub open spec fn is_answered(step: Fetched, batches: Seq<RecordBatch>) -> bool {
    step matches Fetched::Answered(answer) && batches_view(answer@) == batches
}

/// Whether the footer of an object disagrees with the entry that a region was read
/// by, as far as the doubt is concerned.
pub open spec fn disagrees(doubt: Doubt, entry: Entry, footer: Option<SegmentFooter>) -> bool {
    match footer {
        Some(footer) => match first_under(footer@.entries, entry.key()) {
            Some(own) => own.byte_start != entry.byte_start || own.byte_len != entry.byte_len,
            None => doubt is Corrupt,
        },
        None => false,
    }
}

impl DynoStore {
    /// Whether the segment of a fetch was dropped from the index, and the whole prefix
    /// is to be listed.
    pub open spec fn dropped(&self, before: Self, prefix: Seq<char>, seq: u64) -> bool {
        let held = before.prefixes.state_of(prefix);
        self.prefixes.state_of(prefix) == if !before.prefixes.index.poisoned
            && before.prefixes.index.map@.dom().contains(prefix) {
            (IndexState {
                segments: held.segments.remove(seq),
                refreshed_at: None,
                reconciled_at: None,
                generation: held.generation.wrapping_add(1),
                ..held
            })
        } else {
            held
        }
    }

    /// Whether the footer of a segment was taken from its object. When the segment was
    /// appended stays as it was, where that is known.
    pub open spec fn adopted(
        &self,
        before: Self,
        prefix: Seq<char>,
        seq: u64,
        footer: Footer,
        now: u64,
    ) -> bool {
        let held = before.prefixes.state_of(prefix);
        self.prefixes.state_of(prefix) == if before.prefixes.index.poisoned {
            held
        } else {
            (IndexState {
                refreshed_at: Some(now),
                ..held.with_footer(
                    seq,
                    footer,
                    if held.segments.dom().contains(seq) {
                        held.segments[seq].last_modified_ms
                    } else {
                        now as i64
                    },
                )
            })
        }
    }

    /// Whether this is how a fetch goes on after a region was read.
    pub open spec fn read_region(
        request: FetchRequest,
        fetch: Fetch,
        encoded: Vec<u8>,
        decoded: Result<Vec<Batch>, String>,
        step: Fetched,
    ) -> bool {
        let segment = fetch.segment();
        let damage = damage_of(segment.entry, encoded@, failure_of(decoded));
        if encoded@.len() < segment.entry.byte_len {
            step matches Fetched::Go(after, action) && action == FetchAction::ReadFooter(segment.seq)
                && after == (Fetch { doubt: Some(Doubt::Short(encoded)), ..fetch })
        } else if damage is Some {
            step matches Fetched::Go(after, action) && action == FetchAction::ReadFooter(segment.seq)
                && after == (Fetch { doubt: after.doubt, ..fetch }) && (after.doubt matches Some(
                Doubt::Corrupt(region),
            ) && reports(
                (Reading {
                    prefix: request.prefix@,
                    seq: segment.seq,
                    entry: segment.entry,
                    encoded: encoded@,
                }),
                Error::CorruptSegment(region),
                damage,
            ))
        } else {
            let (got, budget, spent) = filled(
                fetch.assembly.got(),
                fetch.assembly.budget as int,
                wanted(
                    segment.entry.base_offset as int,
                    batches_view(decoded->Ok_0@),
                    request.offset,
                    segment.served_from,
                    segment.cut(),
                ),
            );
            if spent || fetch.next + 1 == fetch.plan@.len() {
                is_answered(step, got)
            } else {
                step matches Fetched::Go(after, action) && action is Read && after == (Fetch {
                    next: (fetch.next + 1) as usize,
                    assembly: after.assembly,
                    doubt: None,
                    ..fetch
                }) && after.assembly.got() == got && after.assembly.budget == budget
            }
        }
    }

    /// What to do about a fetch. It reads the regions that the index names, in order,
    /// until the response is full or the time is over. Where a segment is gone, or its
    /// object says otherwise than the index, what was gathered is dropped, and the
    /// fetch starts over by the index as it is then: a segment that went was merged
    /// into one that holds the same offsets. Each step leaves less to do, so that a fetch
    /// ends even where segments keep going.
    pub fn fetch_prefix_coalesced(
        &mut self,
        request: &FetchRequest,
        fetch: Fetch,
        event: FetchEvent,
        now: u64,
    ) -> (step: Fetched)
        requires
            old(self).wf(),
            fetch.wf(),
            fetch.expects(event),
            event is Refreshed ==> old(self).offsets_in_range(
                request.prefix@,
                (request.substream@, request.partition),
            ),
            event is Footer ==> now <= i64::MAX,
        ensures
            final(self).wf(),
            final(self).differs_at(*old(self), request.prefix@),
            step matches Fetched::Go(after, _) ==> after.wf(),
            step matches Fetched::Go(after, action) ==> is_less(
                after.left(waits_for(action)),
                fetch.left(waited_for(event)),
            ),
            !(event is Vanished) && !(event is Footer) ==> *final(self) == *old(self),
            match event {
                FetchEvent::Refreshed(Err(error)) => step == Fetched::Failed(error),
                FetchEvent::Refreshed(Ok(_)) => {
                    let plan = planned(
                        old(self).served(request.prefix@, (request.substream@, request.partition)),
                        request.offset,
                        request.max_bytes as int,
                        request.high_watermark,
                    );
                    if fetch.attempts >= FETCH_MAX_ATTEMPTS {
                        is_answered(step, Seq::empty())
                    } else if old(self).prefixes.index.poisoned {
                        step == Fetched::Failed(Error::Poison)
                    } else if plan.len() == 0 {
                        is_answered(step, Seq::empty())
                    } else {
                        step matches Fetched::Go(after, action) && action is Read && after.begins(
                            fetch.attempts + 1,
                            *request,
                        ) && fenced_view(after.plan@) == plan
                    }
                },
                FetchEvent::Expired => is_answered(step, fetch.assembly.got()),
                FetchEvent::Failed(error) => step == Fetched::Failed(error),
                FetchEvent::Vanished => {
                    &&& final(self).dropped(*old(self), request.prefix@, fetch.segment().seq)
                    &&& if old(self).prefixes.index.poisoned {
                        step == Fetched::Failed(Error::Poison)
                    } else {
                        starts_over(step, fetch)
                    }
                },
                FetchEvent::Read(encoded, decoded) => Self::read_region(
                    *request,
                    fetch,
                    encoded,
                    decoded,
                    step,
                ),
                FetchEvent::Footer(Err(error)) => *final(self) == *old(self) && step
                    == Fetched::Failed(error),
                FetchEvent::Footer(Ok(footer)) => {
                    let segment = fetch.segment();
                    if disagrees(fetch.doubt->0, segment.entry, footer) {
                        &&& final(self).adopted(
                            *old(self),
                            request.prefix@,
                            segment.seq,
                            footer->0@,
                            now,
                        )
                        &&& if old(self).prefixes.index.poisoned {
                            step == Fetched::Failed(Error::Poison)
                        } else {
                            starts_over(step, fetch)
                        }
                    } else {
                        &&& *final(self) == *old(self)
                        &&& step matches Fetched::Failed(error) && is_confirmed(
                            *request,
                            fetch,
                            footer,
                            error,
                        )
                    }
                },
            },
    {
        match event {
            FetchEvent::Refreshed(Err(error)) => Fetched::Failed(error),
            FetchEvent::Refreshed(Ok(_)) => self.plan_fetch(request, fetch),
            FetchEvent::Expired => Fetched::Answered(fetch.assembly.batches),
            FetchEvent::Failed(error) => Fetched::Failed(error),
            FetchEvent::Vanished => {
                let gone: u64 = fetch.plan[fetch.next].seq;
                match self.drop_segment(request.prefix.as_str(), gone) {
                    Ok(_) => Fetched::Go(Fetch { doubt: None, ..fetch }, FetchAction::Refresh),
                    Err(error) => Fetched::Failed(error),
                }
            },
            FetchEvent::Read(encoded, decoded) => {
                assert(fetch.next < fetch.plan.len());
                Self::take_read(request, fetch, encoded, decoded)
            },
            FetchEvent::Footer(Err(error)) => Fetched::Failed(error),
            FetchEvent::Footer(Ok(footer)) => self.resolve_doubt(request, fetch, footer, now),
        }
    }

    /// Drop a segment that is gone from the index. More may be gone than was met, so
    /// the whole prefix is to be listed.
    fn drop_segment(&mut self, prefix: &str, seq: u64) -> (done: Result<(), Error>)
        requires
            old(self).wf(),
        ensures
            final(self).wf(),
            final(self).differs_at(*old(self), prefix@),
            final(self).dropped(*old(self), prefix@, seq),
            old(self).prefixes.index.answers(done, ()),
    {
        let gone = [seq];
        match self.index_prune(prefix, gone.as_slice()) {
            Ok(_) => {},
            Err(error) => {
                return Err(error);
            },
        }
        proof {
            let held = old(self).prefixes.state_of(prefix@);
            assert(gone@ =~= seq![seq]);
            assert(gone@.to_set() =~= set![seq]) by {
                assert(gone@[0] == seq);
            }
            assert(held.segments.remove_keys(set![seq]) =~= held.segments.remove(seq));
        }
        self.index_invalidate(prefix)
    }

    fn plan_fetch(&self, request: &FetchRequest, fetch: Fetch) -> (step: Fetched)
        requires
            self.wf(),
            fetch.wf(),
            self.offsets_in_range(request.prefix@, (request.substream@, request.partition)),
        ensures
            step matches Fetched::Go(after, _) ==> after.wf(),
            ({
                let plan = planned(
                    self.served(request.prefix@, (request.substream@, request.partition)),
                    request.offset,
                    request.max_bytes as int,
                    request.high_watermark,
                );
                if fetch.attempts >= FETCH_MAX_ATTEMPTS {
                    is_answered(step, Seq::empty())
                } else if self.prefixes.index.poisoned {
                    step == Fetched::Failed(Error::Poison)
                } else if plan.len() == 0 {
                    is_answered(step, Seq::empty())
                } else {
                    step matches Fetched::Go(after, action) && action is Read && after.begins(
                        fetch.attempts + 1,
                        *request,
                    ) && fenced_view(after.plan@) == plan
                }
            }),
    {
        let mut blank = Fetch::new(request);
        if fetch.attempts >= FETCH_MAX_ATTEMPTS {
            return Fetched::Answered(blank.assembly.batches);
        }
        let segments = match self.valid_substream_segments(
            request.prefix.as_str(),
            &request.substream,
            request.partition,
        ) {
            Ok(segments) => segments,
            Err(error) => {
                return Fetched::Failed(error);
            },
        };
        let plan = plan_reads(
            &segments,
            request.offset,
            request.max_bytes,
            request.high_watermark,
        );
        if plan.len() == 0 {
            assert(fenced_view(plan@).len() == 0);
            return Fetched::Answered(blank.assembly.batches);
        }
        blank.attempts = fetch.attempts + 1;
        blank.plan = plan;
        Fetched::Go(blank, FetchAction::Read)
    }

    fn take_read(
        request: &FetchRequest,
        fetch: Fetch,
        encoded: Vec<u8>,
        decoded: Result<Vec<Batch>, String>,
    ) -> (step: Fetched)
        requires
            fetch.wf(),
            fetch.expects(FetchEvent::Read(encoded, decoded)),
        ensures
            step matches Fetched::Go(after, _) ==> after.wf(),
            Self::read_region(*request, fetch, encoded, decoded, step),
    {
        let ghost given = fetch;
        let mut fetch = fetch;
        let segment = fetch.plan[fetch.next].duplicate();
        let seq: u64 = segment.seq;
        if (encoded.len() as u64) < segment.entry.byte_len {
            return Fetched::Go(
                Fetch { doubt: Some(Doubt::Short(encoded)), ..fetch },
                FetchAction::ReadFooter(seq),
            );
        }
        match Self::decode_region(
            request.prefix.as_str(),
            seq,
            &segment.entry,
            encoded.as_slice(),
            decoded,
        ) {
            Ok(batches) => {
                let spent = fetch.assembly.take_region(&segment, batches, request.offset);
                if spent || fetch.next == fetch.plan.len() - 1 {
                    return Fetched::Answered(fetch.assembly.batches);
                }
                fetch.next = fetch.next + 1;
                fetch.doubt = None;
                Fetched::Go(fetch, FetchAction::Read)
            },
            Err(Error::CorruptSegment(region)) => Fetched::Go(
                Fetch { doubt: Some(Doubt::Corrupt(region)), ..fetch },
                FetchAction::ReadFooter(seq),
            ),
            Err(error) => Fetched::Failed(error),
        }
    }

    fn resolve_doubt(
        &mut self,
        request: &FetchRequest,
        fetch: Fetch,
        footer: Option<SegmentFooter>,
        now: u64,
    ) -> (step: Fetched)
        requires
            old(self).wf(),
            fetch.wf(),
            fetch.expects(FetchEvent::Footer(Ok(footer))),
            now <= i64::MAX,
        ensures
            final(self).wf(),
            final(self).differs_at(*old(self), request.prefix@),
            step matches Fetched::Go(after, _) ==> after.wf(),
            ({
                let segment = fetch.segment();
                if disagrees(fetch.doubt->0, segment.entry, footer) {
                    &&& final(self).adopted(
                        *old(self),
                        request.prefix@,
                        segment.seq,
                        footer->0@,
                        now,
                    )
                    &&& if old(self).prefixes.index.poisoned {
                        step == Fetched::Failed(Error::Poison)
                    } else {
                        starts_over(step, fetch)
                    }
                } else {
                    &&& *final(self) == *old(self)
                    &&& step matches Fetched::Failed(error) && is_confirmed(*request, fetch, footer, error)
                }
            }),
    {
        let prefix = request.prefix.as_str();
        let Fetch { attempts, plan, next, assembly, doubt } = fetch;
        let segment = &plan[next];
        let seq: u64 = segment.seq;
        let verdict = match doubt {
            Some(Doubt::Short(encoded)) => Self::resolve_short_region(
                prefix,
                seq,
                &segment.entry,
                encoded.as_slice(),
                &footer,
            ),
            Some(Doubt::Corrupt(region)) => Self::resolve_corrupt_region(
                &segment.entry,
                &footer,
                region,
            ),
            None => Err(Error::Poison),
        };
        match (verdict, footer) {
            (Ok(_), Some(footer)) => match self.adopt_segment_trailer(prefix, seq, footer, now) {
                Ok(_) => Fetched::Go(
                    Fetch { attempts, plan, next, assembly, doubt: None },
                    FetchAction::Refresh,
                ),
                Err(error) => Fetched::Failed(error),
            },
            (Ok(_), None) => Fetched::Failed(Error::Poison),
            (Err(error), _) => Fetched::Failed(error),
        }
    }
}

/// Whether an error says that the object is damaged, as it was found: its own footer
/// does not disagree with the index.
pub open spec fn is_confirmed(
    request: FetchRequest,
    fetch: Fetch,
    footer: Option<SegmentFooter>,
    error: Error,
) -> bool {
    let segment = fetch.segment();
    match (fetch.doubt->0, error) {
        (Doubt::Short(encoded), Error::CorruptSegment(region)) => (Reading {
            prefix: request.prefix@,
            seq: segment.seq,
            entry: segment.entry,
            encoded: encoded@,
        }).is_region(
            region,
            encoded@.len() as usize,
            None,
            short_detail(
                segment.entry,
                footer is Some,
                footer is Some && first_under(
                    footer->0@.entries,
                    segment.entry.key(),
                ) is Some,
            ),
        ),
        (Doubt::Corrupt(found), Error::CorruptSegment(region)) => region == found,
        _ => false,
    }
}

/// The footer of an object says otherwise than the index exactly if it puts the region of
/// the sub-stream elsewhere, or has none of it where what was read is corrupt; an object
/// without a footer says nothing. Only then is the index, and not the object, at fault.
pub proof fn when_the_index_is_at_fault(doubt: Doubt, entry: Entry, footer: SegmentFooter, i: int)
    ensures
        !disagrees(doubt, entry, None),
        (forall|p: int|
            0 <= p < footer@.entries.len() ==> (#[trigger] footer@.entries[p]).key()
                != entry.key()) ==> (disagrees(doubt, entry, Some(footer)) <==> doubt is Corrupt),
        0 <= i < footer@.entries.len() && footer@.entries[i].key() == entry.key() && (forall|p: int|
            0 <= p < i ==> (#[trigger] footer@.entries[p]).key() != entry.key()) ==> (disagrees(
            doubt,
            entry,
            Some(footer),
        ) <==> footer@.entries[i].byte_start != entry.byte_start || footer@.entries[i].byte_len
            != entry.byte_len),
{
    let entries = footer@.entries;
    if forall|p: int| 0 <= p < entries.len() ==> (#[trigger] entries[p]).key() != entry.key() {
        lemma_none_under(entries, entry.key());
    }
    if 0 <= i < entries.len() && entries[i].key() == entry.key() && (forall|p: int|
        0 <= p < i ==> (#[trigger] entries[p]).key() != entry.key()) {
        lemma_first_under(entries, entry.key(), i);
    }
}

proof fn lemma_none_under(entries: Seq<Entry>, key: (Identity, i32))
    requires
        forall|p: int| 0 <= p < entries.len() ==> (#[trigger] entries[p]).key() != key,
    ensures
        first_under(entries, key) is None,
    decreases entries.len(),
{
    if entries.len() > 0 {
        let rest = entries.skip(1);
        assert(entries[0].key() != key);
        assert forall|p: int| 0 <= p < rest.len() implies (#[trigger] rest[p]).key() != key by {
            assert(rest[p] == entries[p + 1]);
        }
        lemma_none_under(rest, key);
    }
}

proof fn lemma_first_under(entries: Seq<Entry>, key: (Identity, i32), i: int)
    requires
        0 <= i < entries.len(),
        entries[i].key() == key,
        forall|p: int| 0 <= p < i ==> (#[trigger] entries[p]).key() != key,
    ensures
        first_under(entries, key) == Some(entries[i]),
    decreases i,
{
    if i > 0 {
        let rest = entries.skip(1);
        assert(entries[0].key() != key);
        assert(rest[i - 1] == entries[i]);
        assert forall|p: int| 0 <= p < i - 1 implies (#[trigger] rest[p]).key() != key by {
            assert(rest[p] == entries[p + 1]);
        }
        lemma_first_under(rest, key, i - 1);
    }
}

/// How a fetch goes on after a region was read. One that is short, or does not decode,
/// or holds no frame, is doubted, and the footer of its object is read. Of any other the
/// response takes what is wanted: it is answered once it is full, or the last region of
/// the plan was read, and else the next region is read.
pub proof fn a_region_is_doubted_or_taken(
    request: FetchRequest,
    fetch: Fetch,
    encoded: Vec<u8>,
    decoded: Result<Vec<Batch>, String>,
    step: Fetched,
)
    requires
        fetch.next < fetch.plan@.len(),
        fetch.assembly.budget >= 0,
        DynoStore::read_region(request, fetch, encoded, decoded, step),
    ensures
        ({
            let segment = fetch.segment();
            let doubted = encoded@.len() < segment.entry.byte_len || decoded is Err || (
            encoded@.len() > 0 && frames_from(encoded@, 0).0.len() == 0);
            &&& step !is Failed
            &&& doubted == (step matches Fetched::Go(_, FetchAction::ReadFooter(_)))
            &&& step matches Fetched::Go(after, FetchAction::ReadFooter(seq)) ==> {
                &&& seq == segment.seq
                &&& after.doubt is Some
                &&& after.next == fetch.next
                &&& after.plan == fetch.plan
                &&& after.assembly == fetch.assembly
                &&& after.attempts == fetch.attempts
            }
            &&& step matches Fetched::Go(after, FetchAction::Read) ==> {
                &&& after.next == fetch.next + 1
                &&& after.next < after.plan@.len()
                &&& after.plan == fetch.plan
                &&& after.attempts == fetch.attempts
                &&& after.doubt is None
                &&& after.assembly.got() == fetch.assembly.got() + wanted(
                    segment.entry.base_offset as int,
                    batches_view(decoded->Ok_0@),
                    request.offset,
                    segment.served_from,
                    segment.cut(),
                )
            }
            &&& step matches Fetched::Answered(answer) ==> {
                let wants = wanted(
                    segment.entry.base_offset as int,
                    batches_view(decoded->Ok_0@),
                    request.offset,
                    segment.served_from,
                    segment.cut(),
                );
                let got = batches_view(answer@);
                &&& got.len() >= fetch.assembly.got().len()
                &&& got == fetch.assembly.got() + wants.take(
                    got.len() - fetch.assembly.got().len(),
                )
                &&& fetch.next + 1 < fetch.plan@.len() ==> got.len() < fetch.assembly.got().len()
                    + wants.len()
            }
        }),
{
    let segment = fetch.segment();
    assert(fetch.plan.len() == fetch.plan@.len());
    what_damages_a_read(segment.entry, encoded@, failure_of(decoded));
    let wants = wanted(
        segment.entry.base_offset as int,
        batches_view(decoded->Ok_0@),
        request.offset,
        segment.served_from,
        segment.cut(),
    );
    responses_keep_order(fetch.assembly.got(), fetch.assembly.budget as int, wants);
    lemma_spent_leaves(fetch.assembly.got(), fetch.assembly.budget as int, wants);
}

proof fn lemma_spent_leaves(got: Seq<RecordBatch>, budget: int, offered: Seq<RecordBatch>)
    ensures
        filled(got, budget, offered).2 ==> filled(got, budget, offered).0.len() < got.len()
            + offered.len(),
    decreases offered.len(),
{
    if offered.len() > 0 {
        lemma_spent_leaves(got, budget, offered.drop_last());
        responses_keep_order(got, budget, offered.drop_last());
    }
}

/// A segment that is gone is dropped from the index, with nothing else, and the whole
/// prefix is listed before the index is served again.
pub proof fn a_vanished_segment_is_forgotten(
    store: DynoStore,
    before: DynoStore,
    prefix: Seq<char>,
    seq: u64,
    other: u64,
)
    requires
        store.dropped(before, prefix, seq),
        !before.prefixes.index.poisoned,
        before.prefixes.index.map@.dom().contains(prefix),
        other != seq,
    ensures
        ({
            let state = store.prefixes.state_of(prefix);
            let was = before.prefixes.state_of(prefix);
            &&& !state.segments.dom().contains(seq)
            &&& state.segments.dom().contains(other) <==> was.segments.dom().contains(other)
            &&& state.segments[other] == was.segments[other] || !was.segments.dom().contains(other)
            &&& state.opaque == was.opaque
            &&& state.refreshed_at is None
            &&& state.reconciled_at is None
            &&& state.generation != was.generation
        }),
{
    let was = before.prefixes.state_of(prefix);
    assert(was.generation.wrapping_add(1) != was.generation);
}

/// The footer that an object was found to have takes the place of the one in the index,
/// and with it the time that was known of the segment stays; nothing else changes.
pub proof fn an_adopted_footer_keeps_its_time(
    store: DynoStore,
    before: DynoStore,
    prefix: Seq<char>,
    seq: u64,
    footer: Footer,
    now: u64,
    other: u64,
)
    requires
        store.adopted(before, prefix, seq, footer, now),
        !before.prefixes.index.poisoned,
        now <= i64::MAX,
        other != seq,
    ensures
        ({
            let state = store.prefixes.state_of(prefix);
            let was = before.prefixes.state_of(prefix);
            &&& state.segments.dom().contains(seq)
            &&& state.segments[seq].footer == pruned_footer(footer)
            &&& was.segments.dom().contains(seq) ==> state.segments[seq].last_modified_ms
                == was.segments[seq].last_modified_ms
            &&& !was.segments.dom().contains(seq) ==> state.segments[seq].last_modified_ms == now
            &&& state.segments.dom().contains(other) <==> was.segments.dom().contains(other)
            &&& was.segments.dom().contains(other) ==> state.segments[other] == was.segments[other]
            &&& state.opaque == was.opaque
            &&& state.refreshed_at == Some(now)
        }),
{
}

/// Every attempt of a fetch begins with nothing gathered and with all of its bytes to
/// spend, so that no record is returned twice: what an attempt before it gathered is
/// dropped. And a fetch that starts over has the index refreshed first, with no doubt
/// left, and is still the same attempt until then.
pub proof fn an_attempt_begins_with_nothing(
    fetch: Fetch,
    attempts: int,
    request: FetchRequest,
    step: Fetched,
    from: Fetch,
)
    ensures
        fetch.begins(attempts, request) ==> fetch.assembly.got().len() == 0
            && fetch.assembly.budget == request.max_bytes && fetch.next == 0 && fetch.doubt is None
            && fetch.attempts == attempts,
        starts_over(step, from) ==> (step matches Fetched::Go(after, action) && action is Refresh
            && after.attempts == from.attempts && after.doubt is None),
{
}

} // verus!
