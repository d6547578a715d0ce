//! Which segments of a prefix are merged next.

use crate::coverage::{covering, extends, OffsetSpan, RunCoverage};
use crate::error::Error;
use crate::index::{CachedSegment, PrefixIndex};
use crate::ordmap::OrdMap;
use crate::segment::{entries_view, Entry, Identity, SubstreamEntry};
use crate::store::DynoStore;
use vstd::prelude::*;
use vstd::string::*;

verus! {

/// A segment as the selection sees it.
#[derive(Clone, Copy, Debug, PartialEq, Eq, Structural)]
pub struct SegmentSize {
    pub seq: u64,
    pub last_modified_ms: i64,
    /// Bytes of all its regions.
    pub bytes: u128,
}

/// Bytes of the regions of entries.
pub open spec fn region_total(entries: Seq<Entry>) -> int
    decreases entries.len(),
{
    if entries.len() == 0 {
        0
    } else {
        region_total(entries.drop_last()) + entries.last().byte_len
    }
}

/// A segment of an index, as the selection sees it.
pub open spec fn size_of_segment(segment: (u64, CachedSegment)) -> SegmentSize {
    SegmentSize {
        seq: segment.0,
        last_modified_ms: segment.1.last_modified_ms,
        bytes: region_total(segment.1.footer@.entries) as u128,
    }
}

/// What a run is selected from, and by which rules.
pub struct Selection {
    /// The segments, in ascending order.
    pub sizes: Seq<SegmentSize>,
    /// The entries of each.
    pub entries: Seq<Seq<Entry>>,
    /// How many of the oldest may be merged.
    pub eligible: int,
    /// Bytes that a merged segment is to hold.
    pub target: int,
    pub quarantined: Set<u64>,
    pub seams: Set<u64>,
}

impl Selection {
    /// Whether the offsets that a run covers are watched: only a prefix with a
    /// known hole can have one.
    pub open spec fn watched(self) -> bool {
        !(self.quarantined =~= Set::empty() && self.seams =~= Set::empty())
    }

    /// Whether a segment may be in a run at all: neither full nor quarantined.
    pub open spec fn mergeable(self, at: int) -> bool {
        self.sizes[at].bytes < self.target && !self.quarantined.contains(self.sizes[at].seq)
    }

    /// Whether a run that starts at `start` goes on with `at`.
    pub open spec fn goes_on(
        self,
        start: int,
        at: int,
        bytes: int,
        spans: Map<(Identity, i32), OffsetSpan>,
    ) -> bool {
        &&& at < self.eligible
        &&& self.mergeable(at)
        &&& at == start || !self.seams.contains(self.sizes[at].seq)
        &&& at == start || bytes + self.sizes[at].bytes <= self.target
        &&& self.watched() ==> extends(spans, self.entries[at])
    }

    /// What a run covers with `at`.
    pub open spec fn with(self, at: int, spans: Map<(Identity, i32), OffsetSpan>) -> Map<
        (Identity, i32),
        OffsetSpan,
    > {
        if self.watched() {
            covering(spans, self.entries[at])
        } else {
            spans
        }
    }

    /// Where a run that starts at `start` and holds up to `at` ends.
    pub open spec fn run_end(
        self,
        start: int,
        at: int,
        bytes: int,
        spans: Map<(Identity, i32), OffsetSpan>,
    ) -> int
        decreases self.eligible - at,
    {
        if self.goes_on(start, at, bytes, spans) {
            self.run_end(start, at + 1, bytes + self.sizes[at].bytes, self.with(at, spans))
        } else {
            at
        }
    }

    /// Where the run from `start` ends.
    pub open spec fn run_from(self, start: int) -> int {
        self.run_end(start, start, 0, Map::empty())
    }

    /// The oldest run of at least two segments, from `start` on.
    pub open spec fn first_run(self, start: int) -> Option<(int, int)>
        decreases self.eligible - start,
    {
        if start >= self.eligible {
            None
        } else if !self.mergeable(start) {
            self.first_run(start + 1)
        } else {
            let end = self.run_from(start);
            if end - start >= 2 {
                Some((start, end))
            } else if end > start {
                self.first_run(end)
            } else {
                self.first_run(start + 1)
            }
        }
    }
}

/// A run to merge.
#[derive(Debug)]
pub struct MergeRun {
    pub seqs: Vec<u64>,
    /// When the newest of them was appended.
    pub last_modified_ms: i64,
}

/// The newest of the times of a run.
pub open spec fn newest(sizes: Seq<SegmentSize>, start: int, end: int) -> i64
    decreases end - start,
{
    if end <= start {
        i64::MIN
    } else {
        let before = newest(sizes, start, end - 1);
        if sizes[end - 1].last_modified_ms > before {
            sizes[end - 1].last_modified_ms
        } else {
            before
        }
    }
}

/// Bytes of a run.
pub open spec fn run_bytes(sizes: Seq<SegmentSize>, start: int, end: int) -> int
    decreases end - start,
{
    if end <= start {
        0
    } else {
        run_bytes(sizes, start, end - 1) + sizes[end - 1].bytes
    }
}

/// What is selected from of an index.
pub open spec fn selection_of(
    index: PrefixIndex,
    min_keep_hot: usize,
    target: usize,
    quarantined: Set<u64>,
    seams: Set<u64>,
) -> Selection {
    let segments = index.segments.entries@;
    Selection {
        sizes: segments.map_values(|segment: (u64, CachedSegment)| size_of_segment(segment)),
        entries: segments.map_values(
            |segment: (u64, CachedSegment)| segment.1.footer@.entries,
        ),
        eligible: if segments.len() >= min_keep_hot {
            segments.len() - min_keep_hot
        } else {
            0
        },
        target: target as int,
        quarantined,
        seams,
    }
}

/// The run that is merged next, if any: none unless the prefix has more segments
/// than the trigger.
pub open spec fn selected(selection: Selection, trigger: usize) -> Option<(int, int)> {
    if trigger == 0 || selection.sizes.len() <= trigger || selection.eligible < 2 {
        None
    } else {
        selection.first_run(0)
    }
}

/// Bytes of all regions of a segment.
fn region_bytes_of(entries: &Vec<SubstreamEntry>) -> (bytes: u128)
    requires
        entries@.len() <= u32::MAX,
    ensures
        bytes == region_total(entries_view(entries@)),
        bytes <= u32::MAX * u64::MAX,
{
    let ghost all = entries_view(entries@);
    let mut bytes: u128 = 0;
    let mut at: usize = 0;
    assert(all.take(0) =~= Seq::empty());
    while at < entries.len()
        invariant
            at <= entries@.len() <= u32::MAX,
            all == entries_view(entries@),
            bytes == region_total(all.take(at as int)),
            bytes <= at * u64::MAX,
        decreases entries@.len() - at,
    {
        assert(all.take(at + 1).drop_last() =~= all.take(at as int));
        assert(all.take(at + 1).last() == entries@[at as int]@);
        assert(at * u64::MAX + u64::MAX == (at + 1) * u64::MAX) by (nonlinear_arith);
        assert((at + 1) * u64::MAX <= u32::MAX * u64::MAX) by (nonlinear_arith)
            requires
                at + 1 <= u32::MAX,
        ;
        bytes = bytes + entries[at].byte_len as u128;
        at = at + 1;
    }
    assert(all.take(at as int) =~= all);
    assert(at * u64::MAX <= u32::MAX * u64::MAX) by (nonlinear_arith)
        requires
            at <= u32::MAX,
    ;
    bytes
}

/// The segments of an index, as the selection sees them.
fn sizes_of(index: &PrefixIndex) -> (sizes: Vec<SegmentSize>)
    requires
        index.wf(),
    ensures
        sizes@ == index.segments.entries@.map_values(
            |segment: (u64, CachedSegment)| size_of_segment(segment),
        ),
        forall|i: int|
            #![trigger sizes@[i]]
            0 <= i < sizes@.len() ==> sizes@[i].bytes <= u32::MAX * u64::MAX,
{
    let ghost segments = index.segments.entries@;
    let mut sizes: Vec<SegmentSize> = Vec::new();
    let mut at: usize = 0;
    while at < index.segments.entries.len()
        invariant
            index.wf(),
            segments == index.segments.entries@,
            at <= segments.len(),
            sizes@.len() == at,
            forall|i: int|
                #![trigger sizes@[i]]
                0 <= i < at ==> sizes@[i] == size_of_segment(segments[i]) && sizes@[i].bytes
                    <= u32::MAX * u64::MAX,
        decreases segments.len() - at,
    {
        let segment = &index.segments.entries[at];
        assert(index.segments.entries@[at as int].1.footer@.entries.len() <= u32::MAX);
        let bytes: u128 = region_bytes_of(&segment.1.footer.entries);
        sizes.push(
            SegmentSize { seq: segment.0, last_modified_ms: segment.1.last_modified_ms, bytes },
        );
        at = at + 1;
    }
    assert(sizes@ =~= segments.map_values(|segment: (u64, CachedSegment)| size_of_segment(segment)));
    sizes
}

/// Where the run from `start` ends.
fn end_of_run(
    index: &PrefixIndex,
    sizes: &Vec<SegmentSize>,
    start: usize,
    eligible: usize,
    target: usize,
    quarantined: &OrdMap<u64, ()>,
    seams: &OrdMap<u64, ()>,
    Ghost(selection): Ghost<Selection>,
) -> (end: usize)
    requires
        index.wf(),
        quarantined.wf(),
        seams.wf(),
        selection.sizes == sizes@,
        selection.entries == index.segments.entries@.map_values(
            |segment: (u64, CachedSegment)| segment.1.footer@.entries,
        ),
        selection.eligible == eligible,
        selection.target == target,
        selection.quarantined == quarantined@.dom(),
        selection.seams == seams@.dom(),
        start < eligible <= sizes@.len() == index.segments.entries@.len(),
        forall|i: int|
            #![trigger sizes@[i]]
            0 <= i < sizes@.len() ==> sizes@[i].bytes <= u32::MAX * u64::MAX,
    ensures
        end == selection.run_from(start as int),
        start <= end <= eligible,
{
    let watched = quarantined.len() > 0 || seams.len() > 0;
    proof {
        crate::ordmap::lemma_count(quarantined.entries@);
        crate::ordmap::lemma_count(seams.entries@);
        if watched {
            if quarantined.entries@.len() > 0 {
                assert(!(selection.quarantined =~= Set::empty()));
            } else {
                assert(!(selection.seams =~= Set::empty()));
            }
        } else {
            assert(selection.quarantined =~= Set::empty());
            assert(selection.seams =~= Set::empty());
        }
    }
    let mut coverage = RunCoverage::new();
    let mut bytes: u128 = 0;
    let mut end: usize = start;
    let mut open = true;
    while open
        invariant
            index.wf(),
            quarantined.wf(),
            seams.wf(),
            coverage.wf(),
            watched == selection.watched(),
            selection.sizes == sizes@,
            selection.entries == index.segments.entries@.map_values(
                |segment: (u64, CachedSegment)| segment.1.footer@.entries,
            ),
            selection.eligible == eligible,
            selection.target == target,
            selection.quarantined == quarantined@.dom(),
            selection.seams == seams@.dom(),
            start <= end <= eligible <= sizes@.len() == index.segments.entries@.len(),
            forall|i: int|
                #![trigger sizes@[i]]
                0 <= i < sizes@.len() ==> sizes@[i].bytes <= u32::MAX * u64::MAX,
            bytes <= u32::MAX * u64::MAX + usize::MAX,
            end == start ==> bytes == 0,
            open ==> selection.run_from(start as int) == selection.run_end(
                start as int,
                end as int,
                bytes as int,
                coverage.spans@,
            ),
            !open ==> selection.run_from(start as int) == end,
        decreases eligible - end + if open {
            1int
        } else {
            0int
        },
    {
        if end >= eligible {
            open = false;
            continue;
        }
        let size = sizes[end];
        let fits = size.bytes < target as u128 && !quarantined.contains(&size.seq) && (end == start
            || !seams.contains(&size.seq)) && (end == start || bytes + size.bytes
            <= target as u128);
        let entries = &index.segments.entries[end].1.footer.entries;
        assert(selection.entries[end as int] == entries_view(entries@));
        if fits && (!watched || coverage.extend(entries)) {
            bytes = bytes + size.bytes;
            end = end + 1;
        } else {
            open = false;
        }
    }
    end
}

impl DynoStore {
    /// What the next run of a prefix is selected from.
    pub open spec fn selection(&self, prefix: Seq<char>) -> Selection {
        let index = self.prefixes.index.at(prefix);
        let quarantined = match self.prefixes.quarantined.at(prefix) {
            Some(set) => set@.dom(),
            None => Set::empty(),
        };
        let seams = match self.prefixes.seams.at(prefix) {
            Some(set) => set@.dom(),
            None => Set::empty(),
        };
        match index {
            Some(index) => selection_of(
                index,
                self.tuning.prefix_compact_keep_hot,
                self.tuning.prefix_compact_target_bytes,
                quarantined,
                seams,
            ),
            None => Selection {
                sizes: Seq::empty(),
                entries: Seq::empty(),
                eligible: 0,
                target: self.tuning.prefix_compact_target_bytes as int,
                quarantined,
                seams,
            },
        }
    }

    /// Pick the oldest run of at least two segments to merge. `None` means that
    /// there is nothing to merge.
    pub fn select_run(&self, prefix: &str) -> (run: Result<Option<MergeRun>, Error>)
        requires
            self.wf(),
        ensures
            match run {
                Ok(Some(run)) => {
                    let selection = self.selection(prefix@);
                    &&& selected(selection, self.tuning.prefix_compact_min_segments) matches Some(
                        (start, end),
                    )
                    &&& run.seqs@ == selection.sizes.subrange(start, end).map_values(
                        |size: SegmentSize| size.seq,
                    )
                    &&& run.last_modified_ms == newest(selection.sizes, start, end)
                },
                Ok(None) => selected(
                    self.selection(prefix@),
                    self.tuning.prefix_compact_min_segments,
                ) is None,
                Err(error) => error == Error::Poison && self.tuning.prefix_compact_min_segments
                    != 0 && (self.prefixes.index.poisoned || self.prefixes.quarantined.poisoned
                    || self.prefixes.seams.poisoned),
            },
            self.tuning.prefix_compact_min_segments != 0 && (self.prefixes.index.poisoned
                || self.prefixes.quarantined.poisoned || self.prefixes.seams.poisoned)
                ==> run is Err,
    {
        if self.tuning.prefix_compact_min_segments == 0 {
            return Ok(None);
        }
        if self.prefixes.index.poisoned {
            return Err(Error::Poison);
        }
        let quarantined = match self.prefixes.quarantined_of(prefix) {
            Ok(quarantined) => quarantined,
            Err(_) => {
                return Err(Error::Poison);
            },
        };
        let seams = match self.prefixes.seams_of(prefix) {
            Ok(seams) => seams,
            Err(_) => {
                return Err(Error::Poison);
            },
        };
        let index = match self.prefixes.index.map.get(&String::from_str(prefix)) {
            Some(index) => index,
            None => {
                return Ok(None);
            },
        };
        let ghost selection = self.selection(prefix@);
        let sizes = sizes_of(index);
        if sizes.len() <= self.tuning.prefix_compact_min_segments {
            return Ok(None);
        }
        let eligible: usize = sizes.len().saturating_sub(self.tuning.prefix_compact_keep_hot);
        if eligible < 2 {
            return Ok(None);
        }
        let target: usize = self.tuning.prefix_compact_target_bytes;
        let mut start: usize = 0;
        while start < eligible
            invariant
                index.wf(),
                quarantined.wf(),
                seams.wf(),
                selection.sizes == sizes@,
                selection.entries == index.segments.entries@.map_values(
                    |segment: (u64, CachedSegment)| segment.1.footer@.entries,
                ),
                selection.eligible == eligible,
                selection.target == target,
                selection.quarantined == quarantined@.dom(),
                selection.seams == seams@.dom(),
                selection == self.selection(prefix@),
                !self.prefixes.index.poisoned,
                !self.prefixes.quarantined.poisoned,
                !self.prefixes.seams.poisoned,
                self.tuning.prefix_compact_min_segments != 0,
                sizes@.len() > self.tuning.prefix_compact_min_segments,
                2 <= eligible,
                start <= eligible <= sizes@.len() == index.segments.entries@.len(),
                forall|i: int|
                    #![trigger sizes@[i]]
                    0 <= i < sizes@.len() ==> sizes@[i].bytes <= u32::MAX * u64::MAX,
                selection.first_run(0) == selection.first_run(start as int),
            decreases eligible - start,
        {
            if sizes[start].bytes >= target as u128 || quarantined.contains(&sizes[start].seq) {
                start = start + 1;
                continue;
            }
            let end: usize = end_of_run(
                index,
                &sizes,
                start,
                eligible,
                target,
                &quarantined,
                &seams,
                Ghost(selection),
            );
            if end - start >= 2 {
                return Ok(Some(run_of(&sizes, start, end)));
            }
            start = if end > start {
                end
            } else {
                start + 1
            };
        }
        Ok(None)
    }
}

/// The run of the segments `[start, end)`.
fn run_of(sizes: &Vec<SegmentSize>, start: usize, end: usize) -> (run: MergeRun)
    requires
        start <= end <= sizes@.len(),
    ensures
        run.seqs@ == sizes@.subrange(start as int, end as int).map_values(
            |size: SegmentSize| size.seq,
        ),
        run.last_modified_ms == newest(sizes@, start as int, end as int),
{
    let mut seqs: Vec<u64> = Vec::new();
    let mut last_modified_ms: i64 = i64::MIN;
    let mut at: usize = start;
    while at < end
        invariant
            start <= at <= end <= sizes@.len(),
            seqs@ == sizes@.subrange(start as int, at as int).map_values(
                |size: SegmentSize| size.seq,
            ),
            last_modified_ms == newest(sizes@, start as int, at as int),
        decreases end - at,
    {
        let ghost before = sizes@.subrange(start as int, at as int);
        seqs.push(sizes[at].seq);
        if sizes[at].last_modified_ms > last_modified_ms {
            last_modified_ms = sizes[at].last_modified_ms;
        }
        at = at + 1;
        proof {
            let now = sizes@.subrange(start as int, at as int);
            assert(now =~= before.push(sizes@[at - 1]));
            assert(seqs@ =~= now.map_values(|size: SegmentSize| size.seq));
        }
    }
    MergeRun { seqs, last_modified_ms }
}

/// What holds of every run that is selected: it has at least two segments, none of
/// them hot, full or quarantined; only its first may be a seam; and together they
/// are no larger than a merged segment is to be.
pub proof fn selected_runs_may_be_merged(selection: Selection, from: int, start: int, end: int)
    requires
        0 <= from,
        selection.first_run(from) == Some((start, end)),
    ensures
        from <= start,
        start + 2 <= end <= selection.eligible,
        forall|i: int|
            #![trigger selection.sizes[i]]
            start <= i < end ==> selection.mergeable(i) && selection.sizes[i].bytes
                < selection.target && !selection.quarantined.contains(selection.sizes[i].seq) && (i
                == start || !selection.seams.contains(selection.sizes[i].seq)),
        run_bytes(selection.sizes, start, end) <= selection.target,
    decreases selection.eligible - from,
{
    if selection.mergeable(from) {
        let reached = selection.run_from(from);
        lemma_run_end(selection, from, from, 0, Map::empty());
        if reached - from < 2 {
            if reached > from {
                selected_runs_may_be_merged(selection, reached, start, end);
            } else {
                selected_runs_may_be_merged(selection, from + 1, start, end);
            }
        }
    } else {
        selected_runs_may_be_merged(selection, from + 1, start, end);
    }
}

proof fn lemma_run_end(
    selection: Selection,
    start: int,
    at: int,
    bytes: int,
    spans: Map<(Identity, i32), OffsetSpan>,
)
    requires
        start <= at,
        bytes == run_bytes(selection.sizes, start, at),
        at > start ==> at <= selection.eligible && bytes <= selection.target,
        forall|i: int|
            #![trigger selection.sizes[i]]
            start <= i < at ==> selection.mergeable(i) && (i == start || !selection.seams.contains(
                selection.sizes[i].seq,
            )),
    ensures
        ({
            let end = selection.run_end(start, at, bytes, spans);
            &&& at <= end
            &&& end > start ==> end <= selection.eligible && run_bytes(
                selection.sizes,
                start,
                end,
            ) <= selection.target
            &&& forall|i: int|
                #![trigger selection.sizes[i]]
                start <= i < end ==> selection.mergeable(i) && (i == start
                    || !selection.seams.contains(selection.sizes[i].seq))
        }),
    decreases selection.eligible - at,
{
    if selection.goes_on(start, at, bytes, spans) {
        assert(run_bytes(selection.sizes, start, at + 1) == bytes + selection.sizes[at].bytes);
        lemma_run_end(
            selection,
            start,
            at + 1,
            bytes + selection.sizes[at].bytes,
            selection.with(at, spans),
        );
    }
}

/// Whether two segments that follow one another could be merged, as far as their
/// sizes, the quarantine, the seams and the offsets that they cover say.
pub open spec fn pairs_up(selection: Selection, at: int) -> bool {
    let first = selection.sizes[at];
    let second = selection.sizes[at + 1];
    &&& first.bytes < selection.target
    &&& second.bytes < selection.target
    &&& first.bytes + second.bytes <= selection.target
    &&& !selection.quarantined.contains(first.seq)
    &&& !selection.quarantined.contains(second.seq)
    &&& !selection.seams.contains(second.seq)
    &&& (forall|seq: u64| !#[trigger] selection.quarantined.contains(seq)) && (forall|seq: u64|
        !#[trigger] selection.seams.contains(seq)) || (extends(
        Map::empty(),
        selection.entries[at],
    ) && extends(covering(Map::empty(), selection.entries[at]), selection.entries[at + 1]))
}

/// No pair is passed over: where the prefix has more segments than the trigger, and
/// two that may be merged and follow one another could be merged, a run is selected
/// and starts no later than they do, whatever full, quarantined or lone segments come
/// before them.
pub proof fn a_pair_is_never_passed_over(selection: Selection, trigger: usize, at: int)
    requires
        trigger > 0,
        selection.sizes.len() > trigger,
        0 <= at,
        at + 1 < selection.eligible,
        pairs_up(selection, at),
    ensures
        selected(selection, trigger) matches Some((start, end)) && 0 <= start <= at && start + 2
            <= end <= selection.eligible,
{
    lemma_pair(selection, 0, at);
    let run = selected(selection, trigger)->0;
    selected_runs_may_be_merged(selection, 0, run.0, run.1);
}

proof fn lemma_pair(selection: Selection, from: int, at: int)
    requires
        0 <= from <= at,
        at + 1 < selection.eligible,
        pairs_up(selection, at),
    ensures
        selection.first_run(from) matches Some((start, _)) && start <= at,
    decreases at - from,
{
    if selection.watched() {
        assert(!(forall|seq: u64| !#[trigger] selection.quarantined.contains(seq)) || !(forall|
            seq: u64,
        |
            !#[trigger] selection.seams.contains(seq))) by {
            if forall|seq: u64| !#[trigger] selection.quarantined.contains(seq) {
                assert(selection.quarantined =~= Set::empty());
                if forall|seq: u64| !#[trigger] selection.seams.contains(seq) {
                    assert(selection.seams =~= Set::empty());
                }
            }
        }
    }
    if from == at {
        let spans = selection.with(at, Map::empty());
        let bytes = selection.sizes[at].bytes as int;
        assert(selection.goes_on(at, at, 0, Map::empty()));
        assert(selection.goes_on(at, at + 1, bytes, spans));
        let more = bytes + selection.sizes[at + 1].bytes;
        assert(selection.run_from(at) == selection.run_end(at, at + 1, bytes, spans));
        assert(selection.run_from(at) == selection.run_end(
            at,
            at + 2,
            more,
            selection.with(at + 1, spans),
        ));
        lemma_run_reaches(selection, at, at + 2, more, selection.with(at + 1, spans));
    } else if !selection.mergeable(from) {
        lemma_pair(selection, from + 1, at);
    } else {
        let end = selection.run_from(from);
        if end - from < 2 {
            if end > from {
                lemma_pair(selection, end, at);
            } else {
                lemma_pair(selection, from + 1, at);
            }
        }
    }
}

proof fn lemma_run_reaches(
    selection: Selection,
    start: int,
    at: int,
    bytes: int,
    spans: Map<(Identity, i32), OffsetSpan>,
)
    ensures
        selection.run_end(start, at, bytes, spans) >= at,
    decreases selection.eligible - at,
{
    if selection.goes_on(start, at, bytes, spans) {
        lemma_run_reaches(
            selection,
            start,
            at + 1,
            bytes + selection.sizes[at].bytes,
            selection.with(at, spans),
        );
    }
}

/// What the segments `[start, end)` cover together.
pub open spec fn covered_by(selection: Selection, start: int, end: int) -> Map<
    (Identity, i32),
    OffsetSpan,
>
    decreases end - start,
{
    if end <= start {
        Map::empty()
    } else {
        covering(covered_by(selection, start, end - 1), selection.entries[end - 1])
    }
}

/// A run ends only where it has to: the segment behind it is hot, full, quarantined or
/// a seam, would make it too large, or leaves a hole in what it covers. And where
/// holes are watched for, no segment of the run leaves one.
pub proof fn a_run_ends_where_it_must(selection: Selection, trigger: usize, start: int, end: int)
    requires
        selected(selection, trigger) == Some((start, end)),
    ensures
        trigger > 0,
        selection.sizes.len() > trigger,
        ({
            let watched = (exists|seq: u64| #[trigger] selection.quarantined.contains(seq)) || (
            exists|seq: u64| #[trigger] selection.seams.contains(seq));
            &&& end == selection.eligible || selection.sizes[end].bytes >= selection.target
                || selection.quarantined.contains(selection.sizes[end].seq)
                || selection.seams.contains(selection.sizes[end].seq) || run_bytes(
                selection.sizes,
                start,
                end,
            ) + selection.sizes[end].bytes > selection.target || (watched && !extends(
                covered_by(selection, start, end),
                selection.entries[end],
            ))
            &&& watched ==> forall|i: int|
                #![trigger selection.entries[i]]
                start <= i < end ==> extends(covered_by(selection, start, i), selection.entries[i])
        }),
{
    lemma_first_run(selection, 0, start, end);
    let watched = (exists|seq: u64| #[trigger] selection.quarantined.contains(seq)) || (exists|
        seq: u64,
    | #[trigger] selection.seams.contains(seq));
    assert(watched == selection.watched()) by {
        if selection.watched() {
            if !(selection.quarantined =~= Set::empty()) {
                assert(exists|seq: u64| #[trigger] selection.quarantined.contains(seq));
            } else {
                assert(exists|seq: u64| #[trigger] selection.seams.contains(seq));
            }
        } else {
            assert(forall|seq: u64| !#[trigger] selection.quarantined.contains(seq));
            assert(forall|seq: u64| !#[trigger] selection.seams.contains(seq));
        }
    }
    lemma_run_stops(selection, start, start, 0, Map::empty());
}

proof fn lemma_first_run(selection: Selection, from: int, start: int, end: int)
    requires
        selection.first_run(from) == Some((start, end)),
    ensures
        end == selection.run_from(start),
        end >= start + 2,
    decreases selection.eligible - from,
{
    if selection.mergeable(from) {
        let reached = selection.run_from(from);
        if reached - from < 2 {
            if reached > from {
                lemma_first_run(selection, reached, start, end);
            } else {
                lemma_first_run(selection, from + 1, start, end);
            }
        }
    } else {
        lemma_first_run(selection, from + 1, start, end);
    }
}

proof fn lemma_run_stops(
    selection: Selection,
    start: int,
    at: int,
    bytes: int,
    spans: Map<(Identity, i32), OffsetSpan>,
)
    requires
        start <= at,
        bytes == run_bytes(selection.sizes, start, at),
        selection.watched() ==> spans == covered_by(selection, start, at),
        !selection.watched() ==> spans == Map::<(Identity, i32), OffsetSpan>::empty(),
        at > start ==> at <= selection.eligible,
        selection.watched() ==> forall|i: int|
            #![trigger selection.entries[i]]
            start <= i < at ==> extends(covered_by(selection, start, i), selection.entries[i]),
    ensures
        ({
            let end = selection.run_end(start, at, bytes, spans);
            &&& end >= at
            &&& end > start ==> end <= selection.eligible
            &&& end > start ==> (end == selection.eligible || selection.sizes[end].bytes
                >= selection.target || selection.quarantined.contains(selection.sizes[end].seq)
                || selection.seams.contains(selection.sizes[end].seq) || run_bytes(
                selection.sizes,
                start,
                end,
            ) + selection.sizes[end].bytes > selection.target || (selection.watched() && !extends(
                covered_by(selection, start, end),
                selection.entries[end],
            )))
            &&& selection.watched() ==> forall|i: int|
                #![trigger selection.entries[i]]
                start <= i < end ==> extends(covered_by(selection, start, i), selection.entries[i])
        }),
    decreases selection.eligible - at,
{
    if selection.goes_on(start, at, bytes, spans) {
        assert(run_bytes(selection.sizes, start, at + 1) == bytes + selection.sizes[at].bytes);
        lemma_run_stops(
            selection,
            start,
            at + 1,
            bytes + selection.sizes[at].bytes,
            selection.with(at, spans),
        );
    }
}

/// What is selected from is the index as it stands: the segments in their order, each
/// with its own sequence, time and entries, and all of them but as many of the newest
/// as are kept hot may be merged.
pub proof fn the_newest_are_kept_hot(
    index: PrefixIndex,
    keep_hot: usize,
    target: usize,
    quarantined: Set<u64>,
    seams: Set<u64>,
    trigger: usize,
    i: int,
)
    requires
        0 <= i < index.segments.entries@.len(),
    ensures
        ({
            let selection = selection_of(index, keep_hot, target, quarantined, seams);
            let segment = index.segments.entries@[i];
            &&& selection.sizes.len() == index.segments.entries@.len()
            &&& selection.entries.len() == index.segments.entries@.len()
            &&& selection.target == target
            &&& selection.quarantined == quarantined
            &&& selection.seams == seams
            &&& selection.sizes[i].seq == segment.0
            &&& selection.sizes[i].last_modified_ms == segment.1.last_modified_ms
            &&& selection.entries[i] == segment.1.footer@.entries
            &&& i < selection.eligible <==> i + keep_hot < index.segments.entries@.len()
            &&& selected(selection, trigger) matches Some((start, end)) ==> start >= 0 && end
                + keep_hot <= index.segments.entries@.len()
        }),
{
    let selection = selection_of(index, keep_hot, target, quarantined, seams);
    if let Some((start, end)) = selected(selection, trigger) {
        selected_runs_may_be_merged(selection, 0, start, end);
    }
}

/// The bytes of a segment are those of its regions together: one more region adds its
/// own, wherever it stands.
pub proof fn every_region_counts(entries: Seq<Entry>, entry: Entry, at: int)
    requires
        0 <= at <= entries.len(),
    ensures
        region_total(Seq::empty()) == 0,
        region_total(entries.insert(at, entry)) == region_total(entries) + entry.byte_len,
    decreases entries.len(),
{
    let more = entries.insert(at, entry);
    if at == entries.len() {
        assert(more.drop_last() =~= entries);
    } else {
        assert(more.drop_last() =~= entries.drop_last().insert(at, entry));
        every_region_counts(entries.drop_last(), entry, at);
    }
}

/// The time of a run is that of its newest segment: none of it is newer, and one of it
/// is as new.
pub proof fn a_run_is_as_new_as_its_newest(sizes: Seq<SegmentSize>, start: int, end: int)
    requires
        0 <= start < end <= sizes.len(),
    ensures
        forall|i: int|
            #![trigger sizes[i]]
            start <= i < end ==> sizes[i].last_modified_ms <= newest(sizes, start, end),
        exists|i: int|
            start <= i < end && (#[trigger] sizes[i]).last_modified_ms == newest(sizes, start, end),
    decreases end - start,
{
    reveal_with_fuel(newest, 2);
    if start < end - 1 {
        a_run_is_as_new_as_its_newest(sizes, start, end - 1);
        let before = newest(sizes, start, end - 1);
        let i = choose|i: int|
            start <= i < end - 1 && (#[trigger] sizes[i]).last_modified_ms == before;
        if newest(sizes, start, end) == before {
            assert(sizes[i].last_modified_ms == newest(sizes, start, end));
        } else {
            assert(sizes[end - 1].last_modified_ms == newest(sizes, start, end));
        }
    } else {
        assert(sizes[start].last_modified_ms == newest(sizes, start, end));
    }
}

/// A store selects from the index of the prefix, by its own tuning, and passes over what
/// is quarantined and what is a seam of that very prefix; a prefix that is not indexed
/// has nothing to merge.
pub proof fn a_store_selects_by_what_it_knows(store: DynoStore, prefix: Seq<char>, seq: u64)
    ensures
        ({
            let selection = store.selection(prefix);
            &&& selection.quarantined.contains(seq) <==> store.prefixes.quarantined.at(prefix)
                is Some && store.prefixes.quarantined.at(prefix)->0@.dom().contains(seq)
            &&& selection.seams.contains(seq) <==> store.prefixes.seams.at(prefix) is Some
                && store.prefixes.seams.at(prefix)->0@.dom().contains(seq)
            &&& selection.target == store.tuning.prefix_compact_target_bytes
            &&& store.prefixes.index.at(prefix) is None ==> selected(
                selection,
                store.tuning.prefix_compact_min_segments,
            ) is None
            &&& store.prefixes.index.at(prefix) is Some ==> selection.sizes.len()
                == store.prefixes.index.at(prefix)->0.segments.entries@.len()
            &&& selection.eligible > 0 ==> selection.eligible
                + store.tuning.prefix_compact_keep_hot == selection.sizes.len()
        }),
{
}

} // verus!
