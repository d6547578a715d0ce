//! Resolving the earliest, the latest and a timed offset of a partition.

use crate::error::{Error, ErrorCode};
use crate::fence::{
    arranged, fenced, fenced_view, served_ranges_are_disjoint, Fenced, FencedSegment,
};
use crate::index::Candidate;
use crate::segment::Substream;
use crate::store::DynoStore;
use crate::topics::larger;
use vstd::prelude::*;

verus! {

/// Which offset of a partition is asked for.
#[derive(Clone, Copy, Debug, PartialEq, Eq, Structural)]
pub enum ListOffset {
    Earliest,
    Latest,
    /// The first at or after a time.
    Timestamp(u64),
}

/// The offset that was asked for.
#[derive(Clone, Copy, Debug, PartialEq, Eq, Structural)]
pub struct ListOffsetResponse {
    pub error_code: ErrorCode,
    pub offset: Option<i64>,
    pub timestamp: Option<u64>,
}

/// The time of the newest record, where a footer says one.
pub open spec fn latest_timestamp(served: Seq<Fenced>) -> Option<u64> {
    if served.len() > 0 && served.last().entry.max_timestamp >= 0 {
        Some(served.last().entry.max_timestamp as u64)
    } else {
        None
    }
}

/// The first segment whose newest record is at or after a time.
pub open spec fn first_at(served: Seq<Fenced>, target_ms: u64) -> Option<Fenced>
    decreases served.len(),
{
    if served.len() == 0 {
        None
    } else if served[0].entry.max_timestamp >= 0 && served[0].entry.max_timestamp >= target_ms {
        Some(served[0])
    } else {
        first_at(served.skip(1), target_ms)
    }
}

/// The earliest offset: where the first segment starts, or the end of a log that
/// has none, and never below the floor.
pub open spec fn earliest(served: Seq<Fenced>, high_watermark: Option<i64>, floor: i64) -> i64 {
    larger(
        if served.len() > 0 {
            served[0].entry.base_offset
        } else {
            high_watermark->0
        },
        floor,
    )
}

/// The answer to a request, of what serves the partition.
pub open spec fn listed(
    request: ListOffset,
    served: Seq<Fenced>,
    stable: Option<i64>,
    high_watermark: Option<i64>,
    floor: i64,
) -> ListOffsetResponse {
    match request {
        ListOffset::Latest => ListOffsetResponse {
            error_code: ErrorCode::NoError,
            offset: match stable {
                Some(stable) => Some(stable),
                None => high_watermark,
            },
            timestamp: match stable {
                Some(_) => None,
                None => latest_timestamp(served),
            },
        },
        ListOffset::Earliest => ListOffsetResponse {
            error_code: ErrorCode::NoError,
            offset: Some(earliest(served, high_watermark, floor)),
            timestamp: None,
        },
        ListOffset::Timestamp(target) => match first_at(served, target) {
            Some(found) => ListOffsetResponse {
                error_code: ErrorCode::NoError,
                offset: Some(larger(found.served_from as i64, floor)),
                timestamp: Some(found.entry.max_timestamp as u64),
            },
            None => ListOffsetResponse {
                error_code: ErrorCode::NoError,
                offset: None,
                timestamp: None,
            },
        },
    }
}

/// Whether the high watermark is needed for the answer.
pub open spec fn needs_high(request: ListOffset, served: Seq<Fenced>, stable: Option<i64>) -> bool {
    match request {
        ListOffset::Latest => stable is None,
        ListOffset::Earliest => served.len() == 0,
        ListOffset::Timestamp(_) => false,
    }
}

impl DynoStore {
    /// What serves a sub-stream's partition, as its prefix's index holds it.
    pub open spec fn served(&self, prefix: Seq<char>, key: (crate::segment::Identity, i32)) -> Seq<
        Fenced,
    > {
        fenced(arranged(self.candidates_of(prefix, key)))
    }

    /// Whether the high watermark is needed to answer a request.
    pub fn needs_high_watermark(
        &self,
        prefix: &str,
        substream: &Substream,
        partition: i32,
        request: &ListOffset,
        stable: Option<i64>,
    ) -> (needs: Result<bool, Error>)
        requires
            self.wf(),
            self.offsets_in_range(prefix@, (substream@, partition)),
        ensures
            self.prefixes.index.answers(
                needs,
                needs_high(*request, self.served(prefix@, (substream@, partition)), stable),
            ),
    {
        let segments = match self.valid_substream_segments(prefix, substream, partition) {
            Ok(segments) => segments,
            Err(_) => {
                return Err(Error::Poison);
            },
        };
        assert(fenced_view(segments@).len() == segments@.len());
        match request {
            ListOffset::Latest => Ok(stable.is_none()),
            ListOffset::Earliest => Ok(segments.len() == 0),
            ListOffset::Timestamp(_) => Ok(false),
        }
    }

    /// The earliest offset of a partition: where its first segment starts, or the
    /// end of a log that has none, and never below the floor.
    pub fn coalesced_earliest_offset(
        &self,
        prefix: &str,
        substream: &Substream,
        partition: i32,
        high_watermark: Option<i64>,
        floor: i64,
    ) -> (offset: Result<i64, Error>)
        requires
            self.wf(),
            self.offsets_in_range(prefix@, (substream@, partition)),
            needs_high(
                ListOffset::Earliest,
                self.served(prefix@, (substream@, partition)),
                None,
            ) ==> high_watermark is Some,
        ensures
            self.prefixes.index.answers(
                offset,
                earliest(self.served(prefix@, (substream@, partition)), high_watermark, floor),
            ),
    {
        let start: i64 = match self.segment_region_start(prefix, substream, partition) {
            Ok(Some(start)) => start,
            Ok(None) => match high_watermark {
                Some(high) => high,
                None => 0,
            },
            Err(_) => {
                return Err(Error::Poison);
            },
        };
        if start >= floor {
            Ok(start)
        } else {
            Ok(floor)
        }
    }

    /// The time of the newest record of a partition, where a footer says one.
    pub fn coalesced_latest_timestamp(&self, prefix: &str, substream: &Substream, partition: i32) -> (
    timestamp: Result<Option<u64>, Error>)
        requires
            self.wf(),
            self.offsets_in_range(prefix@, (substream@, partition)),
        ensures
            self.prefixes.index.answers(
                timestamp,
                latest_timestamp(self.served(prefix@, (substream@, partition))),
            ),
    {
        let segments = match self.valid_substream_segments(prefix, substream, partition) {
            Ok(segments) => segments,
            Err(_) => {
                return Err(Error::Poison);
            },
        };
        if segments.len() == 0 {
            return Ok(None);
        }
        let last = &segments[segments.len() - 1];
        assert(fenced_view(segments@).last() == last@);
        if last.entry.max_timestamp >= 0 {
            Ok(Some(last.entry.max_timestamp as u64))
        } else {
            Ok(None)
        }
    }

    /// Answer a request for an offset of a partition. `stable` is where the first
    /// open transaction begins, for a reader of committed records only.
    pub fn list_offset_response(
        &self,
        prefix: &str,
        substream: &Substream,
        partition: i32,
        request: &ListOffset,
        stable: Option<i64>,
        high_watermark: Option<i64>,
        floor: i64,
    ) -> (response: Result<ListOffsetResponse, Error>)
        requires
            self.wf(),
            self.offsets_in_range(prefix@, (substream@, partition)),
            needs_high(*request, self.served(prefix@, (substream@, partition)), stable)
                ==> high_watermark is Some,
        ensures
            ({
                let answer = listed(
                    *request,
                    self.served(prefix@, (substream@, partition)),
                    stable,
                    high_watermark,
                    floor,
                );
                if *request == ListOffset::Latest && stable is Some {
                    response == Ok::<ListOffsetResponse, Error>(answer)
                } else {
                    self.prefixes.index.answers(response, answer)
                }
            }),
    {
        match request {
            ListOffset::Latest => match stable {
                Some(stable) => Ok(
                    ListOffsetResponse {
                        error_code: ErrorCode::NoError,
                        offset: Some(stable),
                        timestamp: None,
                    },
                ),
                None => match self.coalesced_latest_timestamp(prefix, substream, partition) {
                    Ok(timestamp) => Ok(
                        ListOffsetResponse {
                            error_code: ErrorCode::NoError,
                            offset: high_watermark,
                            timestamp,
                        },
                    ),
                    Err(_) => Err(Error::Poison),
                },
            },
            ListOffset::Earliest => {
                match self.coalesced_earliest_offset(
                    prefix,
                    substream,
                    partition,
                    high_watermark,
                    floor,
                ) {
                    Ok(offset) => Ok(
                        ListOffsetResponse {
                            error_code: ErrorCode::NoError,
                            offset: Some(offset),
                            timestamp: None,
                        },
                    ),
                    Err(_) => Err(Error::Poison),
                }
            },
            ListOffset::Timestamp(target) => {
                let segments = match self.valid_substream_segments(prefix, substream, partition) {
                    Ok(segments) => segments,
                    Err(_) => {
                        return Err(Error::Poison);
                    },
                };
                match find_at(&segments, *target) {
                    Some(found) => {
                        let offset: i64 = if found.served_from >= floor {
                            found.served_from
                        } else {
                            floor
                        };
                        Ok(
                            ListOffsetResponse {
                                error_code: ErrorCode::NoError,
                                offset: Some(offset),
                                timestamp: Some(found.entry.max_timestamp as u64),
                            },
                        )
                    },
                    None => Ok(
                        ListOffsetResponse {
                            error_code: ErrorCode::NoError,
                            offset: None,
                            timestamp: None,
                        },
                    ),
                }
            },
        }
    }
}

/// The first segment whose newest record is at or after a time.
fn find_at(segments: &Vec<FencedSegment>, target_ms: u64) -> (found: Option<&FencedSegment>)
    ensures
        match found {
            Some(found) => first_at(fenced_view(segments@), target_ms) == Some(found@)
                && found.entry.max_timestamp >= 0,
            None => first_at(fenced_view(segments@), target_ms) is None,
        },
{
    let ghost all = fenced_view(segments@);
    let mut at: usize = 0;
    assert(all.skip(0) =~= all);
    while at < segments.len()
        invariant
            at <= segments@.len(),
            all == fenced_view(segments@),
            first_at(all, target_ms) == first_at(all.skip(at as int), target_ms),
        decreases segments@.len() - at,
    {
        let segment = &segments[at];
        assert(all.skip(at as int)[0] == segment@);
        if segment.entry.max_timestamp >= 0 && segment.entry.max_timestamp as u64 >= target_ms {
            return Some(segment);
        }
        assert(all.skip(at as int).skip(1) =~= all.skip(at + 1));
        at = at + 1;
    }
    None
}

/// A time is answered with the first segment that reaches it: every segment before
/// it holds only older records, or says no time.
pub proof fn a_timed_offset_passes_no_record(served: Seq<Fenced>, target_ms: u64, at: int)
    requires
        0 <= at < served.len(),
        served[at].entry.max_timestamp >= target_ms,
        served[at].entry.max_timestamp >= 0,
    ensures
        first_at(served, target_ms) is Some,
        exists|found: int|
            0 <= found <= at && first_at(served, target_ms) == Some(#[trigger] served[found])
                && served[found].entry.max_timestamp >= target_ms && forall|i: int|
                0 <= i < found ==> (#[trigger] served[i]).entry.max_timestamp < target_ms
                    || served[i].entry.max_timestamp < 0,
    decreases served.len(),
{
    if !(served[0].entry.max_timestamp >= 0 && served[0].entry.max_timestamp >= target_ms) {
        let rest = served.skip(1);
        assert(rest[at - 1] == served[at]);
        a_timed_offset_passes_no_record(rest, target_ms, at - 1);
        let found = choose|found: int|
            0 <= found <= at - 1 && first_at(rest, target_ms) == Some(#[trigger] rest[found])
                && rest[found].entry.max_timestamp >= target_ms && forall|i: int|
                0 <= i < found ==> (#[trigger] rest[i]).entry.max_timestamp < target_ms
                    || rest[i].entry.max_timestamp < 0;
        assert(served[found + 1] == rest[found]);
        assert forall|i: int| 0 <= i < found + 1 implies (#[trigger] served[i]).entry.max_timestamp
            < target_ms || served[i].entry.max_timestamp < 0 by {
            if i > 0 {
                assert(rest[i - 1] == served[i]);
            }
        }
    } else {
        assert(first_at(served, target_ms) == Some(served[0]));
    }
}

/// The answer to a time is where the first segment that reaches it begins to serve, or
/// the floor where that is higher, with the time of that segment's newest record. Every
/// offset of a segment before it, whose records are all older, is below the answer;
/// and where no segment reaches the time there is no answer.
pub proof fn a_time_is_answered_by_the_first_to_reach_it(
    found: Seq<Candidate>,
    target_ms: u64,
    stable: Option<i64>,
    high_watermark: Option<i64>,
    floor: i64,
    at: int,
)
    requires
        0 <= at < fenced(arranged(found)).len(),
        i64::MIN <= fenced(arranged(found))[at].served_from <= i64::MAX,
        0 <= fenced(arranged(found))[at].entry.max_timestamp,
        target_ms <= fenced(arranged(found))[at].entry.max_timestamp,
        forall|i: int|
            0 <= i < at ==> (#[trigger] fenced(arranged(found))[i]).entry.max_timestamp < 0
                || fenced(arranged(found))[i].entry.max_timestamp < target_ms,
    ensures
        ({
            let served = fenced(arranged(found));
            let answer = listed(
                ListOffset::Timestamp(target_ms),
                served,
                stable,
                high_watermark,
                floor,
            );
            &&& answer.error_code == ErrorCode::NoError
            &&& answer.timestamp matches Some(time) && time == served[at].entry.max_timestamp
            &&& answer.offset matches Some(offset) && offset >= floor && offset
                >= served[at].served_from && (offset == floor || offset == served[at].served_from)
                && forall|i: int, older: int|
                0 <= i < at && (#[trigger] served[i]).served_from <= older < served[i].served_to
                    ==> #[trigger] below(older, offset as int)
        }),
{
    let served = fenced(arranged(found));
    lemma_first_at(served, target_ms, at);
    served_ranges_are_disjoint(arranged(found));
}

/// Whether one offset is below another.
pub open spec fn below(offset: int, other: int) -> bool {
    offset < other
}

proof fn lemma_first_at(served: Seq<Fenced>, target_ms: u64, at: int)
    requires
        0 <= at < served.len(),
        0 <= served[at].entry.max_timestamp,
        target_ms <= served[at].entry.max_timestamp,
        forall|i: int|
            0 <= i < at ==> (#[trigger] served[i]).entry.max_timestamp < 0
                || served[i].entry.max_timestamp < target_ms,
    ensures
        first_at(served, target_ms) == Some(served[at]),
    decreases at,
{
    if at > 0 {
        let rest = served.skip(1);
        assert(served[0].entry.max_timestamp < 0 || served[0].entry.max_timestamp < target_ms);
        assert(rest[at - 1] == served[at]);
        assert forall|i: int| 0 <= i < at - 1 implies (#[trigger] rest[i]).entry.max_timestamp < 0
            || rest[i].entry.max_timestamp < target_ms by {
            assert(rest[i] == served[i + 1]);
        }
        lemma_first_at(rest, target_ms, at - 1);
    }
}

/// A time that no segment reaches has no answer, and a record that says no time
/// answers none.
pub proof fn a_time_past_all_records_has_no_offset(
    served: Seq<Fenced>,
    target_ms: u64,
    stable: Option<i64>,
    high_watermark: Option<i64>,
    floor: i64,
)
    requires
        forall|i: int|
            0 <= i < served.len() ==> (#[trigger] served[i]).entry.max_timestamp < 0
                || served[i].entry.max_timestamp < target_ms,
    ensures
        ({
            let answer = listed(
                ListOffset::Timestamp(target_ms),
                served,
                stable,
                high_watermark,
                floor,
            );
            answer.error_code == ErrorCode::NoError && answer.offset is None
                && answer.timestamp is None
        }),
    decreases served.len(),
{
    if served.len() > 0 {
        let rest = served.skip(1);
        assert(served[0].entry.max_timestamp < 0 || served[0].entry.max_timestamp < target_ms);
        assert forall|i: int| 0 <= i < rest.len() implies (#[trigger] rest[i]).entry.max_timestamp
            < 0 || rest[i].entry.max_timestamp < target_ms by {
            assert(rest[i] == served[i + 1]);
        }
        a_time_past_all_records_has_no_offset(rest, target_ms, stable, high_watermark, floor);
    }
}

/// The latest offset is where the first open transaction begins, for a reader that asks
/// for committed records only, and says no time then; for any other it is the high
/// watermark, with the time of the last segment's newest record where it says one. What
/// serves the partition, or its floor, does not change the offset.
pub proof fn the_latest_is_the_end_that_is_seen(
    served: Seq<Fenced>,
    stable: Option<i64>,
    high_watermark: Option<i64>,
    floor: i64,
)
    ensures
        ({
            let answer = listed(ListOffset::Latest, served, stable, high_watermark, floor);
            &&& answer.error_code == ErrorCode::NoError
            &&& stable is Some ==> answer.offset == stable && answer.timestamp is None
            &&& stable is None ==> answer.offset == high_watermark
            &&& stable is None && (served.len() == 0 || served[served.len()
                - 1].entry.max_timestamp < 0) ==> answer.timestamp is None
            &&& stable is None && served.len() > 0 && served[served.len() - 1].entry.max_timestamp
                >= 0 ==> (answer.timestamp matches Some(time) && time == served[served.len()
                - 1].entry.max_timestamp)
        }),
{
}

/// The earliest offset is never below the floor, nor below the first entry that serves;
/// it is one of the two, and where nothing serves it is the floor or the end of the
/// log. It says no time, and no open transaction changes it.
pub proof fn the_earliest_is_what_is_left(
    served: Seq<Fenced>,
    stable: Option<i64>,
    high_watermark: i64,
    floor: i64,
)
    ensures
        ({
            let answer = listed(
                ListOffset::Earliest,
                served,
                stable,
                Some(high_watermark),
                floor,
            );
            let start = if served.len() > 0 {
                served[0].entry.base_offset
            } else {
                high_watermark
            };
            &&& answer.error_code == ErrorCode::NoError
            &&& answer.timestamp is None
            &&& answer.offset matches Some(offset) && offset >= floor && offset >= start && (offset
                == floor || offset == start)
        }),
{
}

/// The high watermark is read only where the answer needs it: for the latest offset
/// that no open transaction holds back, and for the earliest of a log that nothing
/// serves. Without it every other answer is the same.
pub proof fn the_high_watermark_is_read_where_needed(
    request: ListOffset,
    served: Seq<Fenced>,
    stable: Option<i64>,
    one: Option<i64>,
    other: Option<i64>,
    floor: i64,
)
    ensures
        !needs_high(request, served, stable) ==> listed(request, served, stable, one, floor)
            == listed(request, served, stable, other, floor),
        needs_high(request, served, stable) && one is Some && other is Some && one->0 >= floor
            && other->0 >= floor && one != other ==> listed(request, served, stable, one, floor)
            != listed(request, served, stable, other, floor),
{
}

} // verus!
