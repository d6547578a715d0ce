//! A trace of the byte ranges read of each segment, to tell whether a cache of
//! them would have helped.

use crate::clock::{fresh, is_fresh};
use crate::ordmap::{lemma_count, OrdMap};
use crate::prefixes::{PrefixCaches, SegmentName, SegmentReadTrace};
use crate::store::DynoStore;
use vstd::prelude::*;
use vstd::string::*;

verus! {

/// How long a read counts as recent.
pub const SEGMENT_READ_TRACE_TTL: u64 = 60_000;

/// Ranges that are told apart of one segment.
pub const SEGMENT_READ_TRACE_RANGES: usize = 16;

/// Segments that are traced at once.
pub const SEGMENT_READ_TRACE_OBJECTS: usize = 4_096;

/// What a read is, next to those before it.
#[derive(Clone, Copy, Debug, PartialEq, Eq, Structural)]
pub enum ReadOverlap {
    /// The segment was not read recently.
    First,
    /// The same range was read recently: a cache of ranges would have served it.
    SameRange,
    /// Another range was read recently: a cache of whole segments would have.
    OtherRange,
}

/// The mathematical trace.
#[verifier::ext_equal]
pub struct Trace {
    pub ranges: Seq<(u64, u64)>,
    pub last_read: u64,
}

impl View for SegmentReadTrace {
    type V = Trace;

    open spec fn view(&self) -> Trace {
        Trace { ranges: self.ranges@, last_read: self.last_read }
    }
}

/// The mathematical traces.
pub open spec fn traces_view(traces: Map<(Seq<char>, u64), SegmentReadTrace>) -> Map<
    (Seq<char>, u64),
    Trace,
> {
    traces.map_values(|trace: SegmentReadTrace| trace@)
}

impl Trace {
    /// Whether the segment was read recently.
    pub open spec fn is_recent(self, now: u64) -> bool {
        fresh(Some(self.last_read), now, SEGMENT_READ_TRACE_TTL)
    }

    /// The trace after another read while it is recent.
    pub open spec fn extended(self, range: (u64, u64), now: u64) -> Trace {
        Trace {
            ranges: if self.ranges.contains(range) || self.ranges.len()
                >= SEGMENT_READ_TRACE_RANGES {
                self.ranges
            } else {
                self.ranges.push(range)
            },
            last_read: now,
        }
    }
}

/// The traces with room for another segment: as they are, without those that are
/// not recent, or none at all.
pub open spec fn with_room(traces: Map<(Seq<char>, u64), Trace>, now: u64) -> Map<
    (Seq<char>, u64),
    Trace,
> {
    let recent = traces.restrict(
        Set::new(
            |name: (Seq<char>, u64)| traces.dom().contains(name) && traces[name].is_recent(now),
        ),
    );
    if traces.dom().len() < SEGMENT_READ_TRACE_OBJECTS {
        traces
    } else if recent.dom().len() < SEGMENT_READ_TRACE_OBJECTS {
        recent
    } else {
        Map::empty()
    }
}

/// The traces after a read, and what the read was.
pub open spec fn noted(
    traces: Map<(Seq<char>, u64), Trace>,
    name: (Seq<char>, u64),
    range: (u64, u64),
    now: u64,
) -> (Map<(Seq<char>, u64), Trace>, ReadOverlap) {
    let started = Trace { ranges: seq![range], last_read: now };
    if traces.dom().contains(name) {
        let trace = traces[name];
        if trace.is_recent(now) {
            (
                traces.insert(name, trace.extended(range, now)),
                if trace.ranges.contains(range) {
                    ReadOverlap::SameRange
                } else {
                    ReadOverlap::OtherRange
                },
            )
        } else {
            (traces.insert(name, started), ReadOverlap::First)
        }
    } else {
        (with_room(traces, now).insert(name, started), ReadOverlap::First)
    }
}

/// Whether a range is among those traced.
fn holds_range(ranges: &Vec<(u64, u64)>, range: (u64, u64)) -> (holds: bool)
    ensures
        holds == ranges@.contains(range),
{
    let mut at: usize = 0;
    while at < ranges.len()
        invariant
            at <= ranges@.len(),
            forall|i: int| 0 <= i < at ==> ranges@[i] != range,
        decreases ranges@.len() - at,
    {
        if ranges[at].0 == range.0 && ranges[at].1 == range.1 {
            assert(ranges@[at as int] == range);
            return true;
        }
        at = at + 1;
    }
    false
}

/// Make room for another segment.
fn make_room(traces: &mut OrdMap<SegmentName, SegmentReadTrace>, now: u64)
    requires
        old(traces).wf(),
    ensures
        final(traces).wf(),
        traces_view(final(traces)@) == with_room(traces_view(old(traces)@), now),
{
    let ghost before = traces@;
    let ghost all = traces_view(before);
    proof {
        lemma_count(traces.entries@);
        assert(all.dom() =~= before.dom());
    }
    if traces.len() >= SEGMENT_READ_TRACE_OBJECTS {
        let recent = |_name: &SegmentName, trace: &SegmentReadTrace| -> (keeps: bool)
            ensures
                keeps == trace@.is_recent(now),
            { is_fresh(Some(trace.last_read), now, SEGMENT_READ_TRACE_TTL) };
        traces.keep_where(
            recent,
            Ghost(|name: (Seq<char>, u64), trace: SegmentReadTrace| trace@.is_recent(now)),
        );
        proof {
            let kept = all.restrict(
                Set::new(
                    |name: (Seq<char>, u64)| all.dom().contains(name) && all[name].is_recent(now),
                ),
            );
            assert(traces_view(traces@) =~= kept);
            assert(traces@.dom() =~= kept.dom());
            lemma_count(traces.entries@);
        }
        if traces.len() >= SEGMENT_READ_TRACE_OBJECTS {
            *traces = OrdMap::new();
            assert(traces_view(traces@) =~= Map::empty());
        }
    }
}

impl DynoStore {
    /// Note a read of a segment's bytes. It never changes what is read, and under
    /// a poisoned lock nothing is noted.
    pub fn note_segment_data_read(
        &mut self,
        prefix: &str,
        seq: u64,
        byte_start: u64,
        byte_len: u64,
        now: u64,
    ) -> (overlap: Option<ReadOverlap>)
        requires
            old(self).wf(),
        ensures
            final(self).wf(),
            *final(self) == (DynoStore { prefixes: final(self).prefixes, ..*old(self) }),
            final(self).prefixes == (PrefixCaches {
                segment_reads: final(self).prefixes.segment_reads,
                ..old(self).prefixes
            }),
            final(self).prefixes.segment_reads.poisoned
                == old(self).prefixes.segment_reads.poisoned,
            match overlap {
                Some(overlap) => !old(self).prefixes.segment_reads.poisoned && (
                    traces_view(final(self).prefixes.segment_reads.map@),
                    overlap,
                ) == noted(
                    traces_view(old(self).prefixes.segment_reads.map@),
                    (prefix@, seq),
                    (byte_start, byte_len),
                    now,
                ),
                None => old(self).prefixes.segment_reads.poisoned && *final(self) == *old(self),
            },
    {
        if self.prefixes.segment_reads.poisoned {
            return None;
        }
        let range = (byte_start, byte_len);
        let name = SegmentName { prefix: String::from_str(prefix), seq };
        let ghost before = traces_view(self.prefixes.segment_reads.map@);
        let (at, held) = self.prefixes.segment_reads.map.find(&name);
        if held {
            let trace = self.prefixes.segment_reads.map.value_mut(at);
            let ghost was = trace@;
            let mut overlap = ReadOverlap::First;
            if is_fresh(Some(trace.last_read), now, SEGMENT_READ_TRACE_TTL) {
                if holds_range(&trace.ranges, range) {
                    overlap = ReadOverlap::SameRange;
                } else {
                    if trace.ranges.len() < SEGMENT_READ_TRACE_RANGES {
                        trace.ranges.push(range);
                    }
                    overlap = ReadOverlap::OtherRange;
                }
            } else {
                trace.ranges.clear();
                trace.ranges.push(range);
                assert(trace.ranges@ =~= seq![range]);
            }
            trace.last_read = now;
            let ghost after = trace@;
            proof {
                assert(traces_view(self.prefixes.segment_reads.map@) =~= before.insert(
                    (prefix@, seq),
                    after,
                ));
            }
            return Some(overlap);
        }
        make_room(&mut self.prefixes.segment_reads.map, now);
        let ghost roomy = traces_view(self.prefixes.segment_reads.map@);
        let mut ranges: Vec<(u64, u64)> = Vec::new();
        ranges.push(range);
        let started = SegmentReadTrace { ranges, last_read: now };
        assert(started@ =~= (Trace { ranges: seq![range], last_read: now }));
        let _ = self.prefixes.segment_reads.map.insert(name, started);
        assert(traces_view(self.prefixes.segment_reads.map@) =~= roomy.insert(
            (prefix@, seq),
            started@,
        ));
        Some(ReadOverlap::First)
    }
}

/// What is traced stays bounded: no more segments than are traced at once, and of each no
/// more ranges than are told apart.
pub proof fn tracing_is_bounded(
    traces: Map<(Seq<char>, u64), Trace>,
    name: (Seq<char>, u64),
    range: (u64, u64),
    now: u64,
)
    requires
        traces.dom().finite(),
        traces.dom().len() <= SEGMENT_READ_TRACE_OBJECTS,
        forall|held: (Seq<char>, u64)| #[trigger]
            traces.dom().contains(held) ==> traces[held].ranges.len() <= SEGMENT_READ_TRACE_RANGES,
    ensures
        noted(traces, name, range, now).0.dom().finite(),
        noted(traces, name, range, now).0.dom().len() <= SEGMENT_READ_TRACE_OBJECTS,
        forall|held: (Seq<char>, u64)| #[trigger]
            noted(traces, name, range, now).0.dom().contains(held) ==> noted(
                traces,
                name,
                range,
                now,
            ).0[held].ranges.len() <= SEGMENT_READ_TRACE_RANGES,
{
    let after = noted(traces, name, range, now).0;
    if traces.dom().contains(name) {
        assert(after.dom() =~= traces.dom());
    } else {
        let roomy = with_room(traces, now);
        assert(roomy.dom().subset_of(traces.dom()));
        vstd::set_lib::lemma_len_subset(roomy.dom(), traces.dom());
        assert(after.dom() =~= roomy.dom().insert(name));
    }
}

/// A read is told apart from those before it: it is of a range that was read, of
/// another range of a segment that was, or the first of its segment; and a trace that is
/// not recent counts as none.
pub proof fn a_read_is_told_apart(
    traces: Map<(Seq<char>, u64), Trace>,
    name: (Seq<char>, u64),
    range: (u64, u64),
    now: u64,
)
    ensures
        ({
            let overlap = noted(traces, name, range, now).1;
            let recent = traces.dom().contains(name) && traces[name].last_read <= now && now
                - traces[name].last_read < SEGMENT_READ_TRACE_TTL;
            &&& overlap == ReadOverlap::First <==> !recent
            &&& overlap == ReadOverlap::SameRange <==> recent && traces[name].ranges.contains(range)
            &&& overlap == ReadOverlap::OtherRange <==> recent && !traces[name].ranges.contains(
                range,
            )
        }),
{
}

/// After a read its segment is traced as read just now, with the range among its own
/// once, unless as many are held as are told apart; a range that was held of a recent trace
/// stays, and the traces of other segments are as they were, or dropped for want of
/// room.
pub proof fn a_read_is_remembered(
    traces: Map<(Seq<char>, u64), Trace>,
    name: (Seq<char>, u64),
    range: (u64, u64),
    now: u64,
    other: (Seq<char>, u64),
)
    requires
        other != name,
    ensures
        ({
            let after = noted(traces, name, range, now).0;
            let recent = traces.dom().contains(name) && traces[name].last_read <= now && now
                - traces[name].last_read < SEGMENT_READ_TRACE_TTL;
            &&& after.dom().contains(name)
            &&& after[name].last_read == now
            &&& after[name].ranges.contains(range) || (recent && after[name].ranges.len()
                >= SEGMENT_READ_TRACE_RANGES)
            &&& recent ==> forall|held: (u64, u64)|
                #[trigger] traces[name].ranges.contains(held) ==> after[name].ranges.contains(held)
            &&& !recent ==> after[name].ranges == seq![range]
            &&& recent && traces[name].ranges.contains(range) ==> after[name].ranges
                == traces[name].ranges
            &&& recent && !traces[name].ranges.contains(range) && traces[name].ranges.len()
                < SEGMENT_READ_TRACE_RANGES ==> after[name].ranges == traces[name].ranges.push(
                range,
            )
            &&& after.dom().contains(other) ==> traces.dom().contains(other) && after[other]
                == traces[other]
            &&& traces.dom().contains(other) && (traces.dom().contains(name) || traces.dom().len()
                < SEGMENT_READ_TRACE_OBJECTS) ==> after.dom().contains(other)
        }),
{
    let after = noted(traces, name, range, now).0;
    assert(seq![range][0] == range);
    assert(seq![range].contains(range));
    if traces.dom().contains(name) {
        let held = traces[name].ranges;
        assert(held.push(range)[held.len() as int] == range);
        assert(held.push(range).contains(range));
        assert forall|one: (u64, u64)| #[trigger] held.contains(one) implies held.push(
            range,
        ).contains(one) by {
            let i = choose|i: int| 0 <= i < held.len() && held[i] == one;
            assert(held.push(range)[i] == one);
        }
    }
}

} // verus!
