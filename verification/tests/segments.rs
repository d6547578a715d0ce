//! Segments: what they are encoded as, who serves an offset, and how they are merged.

use dynostore::codec::{
    SEGMENT_FORMAT_VERSION, SEGMENT_FORMAT_VERSION_V2, SEGMENT_FORMAT_VERSION_V3,
    SEGMENT_FORMAT_VERSION_V4, SEGMENT_MAGIC, SEGMENT_TRAILER_LEN,
};
use dynostore::compact::{
    compact_prefix_per_key, CompactAction, CompactEvent, PerKeyAction, PerKeyEvent,
};
use dynostore::config::{StoreIdentity, Tuning};
use dynostore::coverage::RunCoverage;
use dynostore::drain::{
    drain_compact_prefix_per_key, epochs_of, substreams_of, CompactRun, Drain, DrainStop,
    KeySegment, RunEnd, MAX_RETRIES_PER_PREFIX, MAX_RUNS_PER_PREFIX,
};
use dynostore::error::{Error, FooterError};
use dynostore::fence::{fence, is_continued};
use dynostore::fetch::is_run_in_range;
use dynostore::frame::FrameTail;
use dynostore::merge::{plan_merge, plan_run, MergePart, MergePlan, RunSubstream};
use dynostore::ordmap::OrdMap;
use dynostore::perkey::{is_exempt, BatchCompaction, KeyPass, KeyPlan, RecordKey};
use dynostore::producer::{ProducerCoord, ProducerTail, FLAG_CONTROL, FLAG_TRANSACTIONAL};
use dynostore::regions::{clip_region, FencedRegion};
use dynostore::segment::{
    Batch, SegmentFooter, Substream, SubstreamEntry, SubstreamWrite, Topition,
};
use dynostore::store::DynoStore;
use dynostore::walk::{settle_walks, walks_of, KeyWalk};
use std::sync::Arc;

fn store() -> DynoStore {
    DynoStore::new(
        StoreIdentity {
            cluster: "c".to_string(),
            node: 1,
            advertised_listener: "tcp://localhost:9092".to_string(),
            writer_id: "w".to_string(),
            maintenance_seed: 7,
        },
        Tuning::new(),
    )
}

fn entry(topic: &str, topic_id: Option<u128>, base: i64, count: i64) -> SubstreamEntry {
    SubstreamEntry {
        topic: Arc::new(topic.to_string()),
        topic_id,
        partition: 3,
        base_offset: base,
        record_count: count,
        byte_start: 7,
        byte_len: 40,
        max_timestamp: -1,
        producers: vec![ProducerCoord {
            producer_id: 9,
            producer_epoch: -2,
            base_sequence: 4,
            last_sequence: 6,
            offset_delta: 1,
            flags: FLAG_TRANSACTIONAL,
        }],
    }
}

fn footer(entries: Vec<SubstreamEntry>) -> SegmentFooter {
    SegmentFooter {
        writer_epoch: -5,
        nonce: 0xdead_beef,
        entries,
    }
}

fn batch(records: i32, body: u8) -> Batch {
    Batch {
        base_offset: 0,
        batch_length: 9,
        magic: 2,
        last_offset_delta: records - 1,
        max_timestamp: 1_000,
        producer_id: -1,
        producer_epoch: -1,
        base_sequence: -1,
        idempotent: false,
        transactional: false,
        control: false,
        record_data_len: 9,
        body: vec![body; 9],
    }
}

fn write(base_offset: i64, batches: Vec<Batch>) -> SubstreamWrite {
    SubstreamWrite {
        topition: Topition::new("t".to_string(), 0),
        substream: Substream::Name("t".to_string()),
        base_offset,
        batches,
    }
}

/// Every format keeps the ranges; each newer one keeps more.
#[test]
fn footers_are_read_as_they_were_written() {
    for (version, producers, flags, ids) in [
        (SEGMENT_FORMAT_VERSION, false, false, false),
        (SEGMENT_FORMAT_VERSION_V2, true, false, false),
        (SEGMENT_FORMAT_VERSION_V3, true, true, false),
        (SEGMENT_FORMAT_VERSION_V4, true, true, true),
    ] {
        let written = footer(vec![
            entry("a", None, 10, 5),
            entry("b", Some(0x1234), i64::MAX, 0),
        ]);
        let bytes = DynoStore::encode_footer(&written, version);
        let read = DynoStore::decode_footer(&bytes, 2, version).unwrap();
        assert_eq!(-5, read.writer_epoch);
        assert_eq!(2, read.entries.len());
        for (written, read) in written.entries.iter().zip(&read.entries) {
            assert_eq!(written.topic, read.topic);
            assert_eq!(3, read.partition);
            assert_eq!(written.base_offset, read.base_offset);
            assert_eq!(written.record_count, read.record_count);
            assert_eq!((7, 40), (read.byte_start, read.byte_len));
            assert_eq!(written.max_timestamp, read.max_timestamp);
            let topic_id = if ids { written.topic_id } else { None };
            assert_eq!(topic_id, read.topic_id);
            assert_eq!(if producers { 1 } else { 0 }, read.producers.len());
            for (written, read) in written.producers.iter().zip(&read.producers) {
                let flags = if flags { written.flags } else { 0 };
                assert_eq!(ProducerCoord { flags, ..*written }, *read);
            }
        }
        assert_eq!(if producers { 0xdead_beef } else { 0 }, read.nonce);
    }
}

#[test]
fn damaged_footers_are_refused() {
    let bytes = DynoStore::encode_footer(&footer(vec![entry("a", None, 10, 5)]), 3);
    for len in 0..bytes.len() {
        assert!(matches!(
            DynoStore::decode_footer(&bytes[..len], 1, 3),
            Err(FooterError::Truncated)
        ));
    }
    // The name of the topic is behind its length.
    let at = bytes.iter().position(|byte| *byte == b'a').unwrap();
    let mut damaged = bytes.clone();
    damaged[at] = 0xff;
    assert!(matches!(
        DynoStore::decode_footer(&damaged, 1, 3),
        Err(FooterError::TopicNotUtf8)
    ));
}

fn trailer(footer_len: u64, count: u32, version: u16, magic: u32) -> Vec<u8> {
    let mut bytes = vec![];
    bytes.extend(footer_len.to_be_bytes());
    bytes.extend(count.to_be_bytes());
    bytes.extend(version.to_be_bytes());
    bytes.extend(magic.to_be_bytes());
    assert_eq!(SEGMENT_TRAILER_LEN, bytes.len());
    bytes
}

#[test]
fn a_trailer_tells_a_segment() {
    let body = DynoStore::encode_footer(&footer(vec![entry("a", None, 10, 5)]), 3);
    let with = |trailer: Vec<u8>| {
        let mut bytes = vec![1, 2, 3];
        bytes.extend(&body);
        bytes.extend(trailer);
        DynoStore::decode_segment_footer(&bytes)
    };
    let len = body.len() as u64;
    assert_eq!(
        10,
        with(trailer(len, 1, 3, SEGMENT_MAGIC))
            .unwrap()
            .unwrap()
            .entries[0]
            .base_offset
    );
    assert!(with(trailer(len, 1, 3, SEGMENT_MAGIC + 1))
        .unwrap()
        .is_none());
    assert!(matches!(
        with(trailer(len, 1, 5, SEGMENT_MAGIC)),
        Err(FooterError::UnsupportedVersion(5))
    ));
    assert!(matches!(
        with(trailer(len, 1, 0, SEGMENT_MAGIC)),
        Err(FooterError::UnsupportedVersion(0))
    ));
    assert!(matches!(
        with(trailer(len + 4, 1, 3, SEGMENT_MAGIC)),
        Err(FooterError::LengthExceedsTail)
    ));
    assert!(DynoStore::decode_segment_footer(&[0; 17]).unwrap().is_none());
}

#[test]
fn a_batch_is_as_long_as_it_is_written() {
    let mut bytes = vec![];
    batch(1, 7).put_wire(&mut bytes);
    assert_eq!(bytes.len() as u64, batch(1, 7).wire_size());
    assert_eq!(&[0, 0, 0, 9, 7], &bytes[8..13]);
    assert!(is_run_in_range(i64::MAX - 1, &vec![batch(1, 7)]));
    assert!(!is_run_in_range(i64::MAX - 1, &vec![batch(1, 7), batch(1, 7)]));
}

/// The first length that cannot hold says where a scan stops.
#[test]
fn frames_are_cut_at_their_lengths() {
    let mut bytes = vec![];
    batch(1, 7).put_wire(&mut bytes);
    batch(2, 8).put_wire(&mut bytes);
    assert_eq!(42, bytes.len());
    let (frames, tail) = DynoStore::decode_frame(&bytes);
    assert_eq!(FrameTail::Exhausted, tail);
    assert_eq!(vec![bytes[..21].to_vec(), bytes[21..].to_vec()], frames);

    let (frames, tail) = DynoStore::decode_frame(&bytes[..30]);
    assert_eq!(1, frames.len());
    assert_eq!(
        FrameTail::Short {
            at: 21,
            remaining: 9
        },
        tail
    );
    let (frames, tail) = DynoStore::decode_frame(&bytes[..40]);
    assert_eq!(1, frames.len());
    assert_eq!(FrameTail::Malformed { at: 21, declared: 9 }, tail);

    bytes[29] = 0xff;
    let (_, tail) = DynoStore::decode_frame(&bytes);
    assert!(matches!(tail, FrameTail::Malformed { at: 21, declared } if declared < 0));
    assert_eq!(21, tail.at());
}

#[test]
fn a_damaged_region_is_described() {
    let mut bytes = vec![];
    batch(1, 7).put_wire(&mut bytes);
    let mut claimed = entry("t", None, 0, 1);
    claimed.byte_len = 21;
    let whole = DynoStore::decode_region("p", 4, &claimed, &bytes, Ok(vec![batch(1, 7)])).unwrap();
    assert_eq!(1, whole.len());

    match DynoStore::decode_region("p", 4, &claimed, &bytes, Err("bad".to_string())) {
        Err(Error::CorruptSegment(region)) => {
            assert_eq!("undecodable batch: bad", region.detail);
            assert_eq!(4, region.seq);
            assert_eq!(21, region.read_len);
        }
        _ => unreachable!(),
    }
    match DynoStore::decode_region("p", 4, &claimed, &bytes[..13], Ok(vec![])) {
        Err(Error::CorruptSegment(region)) => {
            assert_eq!(
                "region short of its footer extent by 8 bytes, 0 whole batches: \
                 Malformed { at: 0, declared: 9 }",
                region.detail
            );
            assert_eq!(13, region.at);
        }
        _ => unreachable!(),
    }
    claimed.byte_len = 5;
    assert!(matches!(
        DynoStore::decode_region("p", 4, &claimed, &bytes[..5], Ok(vec![])),
        Err(Error::CorruptSegment(region)) if region.head == "0000000000"
    ));
}

/// A region that was read by an old footer is read again by the object's own.
#[test]
fn a_short_region_is_held_against_the_footer() {
    let claimed = entry("t", None, 0, 1);
    let mut moved = entry("t", None, 0, 1);
    moved.byte_start = 8;
    let own = |entry: SubstreamEntry| Some(footer(vec![entry]));
    let resolve =
        |footer: &Option<SegmentFooter>| DynoStore::resolve_short_region("p", 4, &claimed, &[], footer);
    assert!(resolve(&own(moved.duplicate())).is_ok());
    let detail = |footer| match resolve(&footer) {
        Err(Error::CorruptSegment(region)) => region.detail,
        _ => unreachable!(),
    };
    assert_eq!(
        "object carries no segment trailer to resolve the region against",
        detail(None)
    );
    assert_eq!(
        "object's own footer holds no t-3 region",
        detail(own(entry("u", None, 0, 1)))
    );
    assert_eq!(
        "object's own footer claims the same 40 bytes at 7 and the object is short of it",
        detail(own(entry("t", None, 0, 1)))
    );

    let corrupt = || match resolve(&None) {
        Err(Error::CorruptSegment(region)) => region,
        _ => unreachable!(),
    };
    assert!(DynoStore::resolve_corrupt_region(&claimed, &own(moved), corrupt()).is_ok());
    assert!(DynoStore::resolve_corrupt_region(
        &claimed,
        &own(entry("u", None, 0, 1)),
        corrupt()
    )
    .is_ok());
    assert!(DynoStore::resolve_corrupt_region(&claimed, &None, corrupt()).is_err());
    assert!(DynoStore::resolve_corrupt_region(
        &claimed,
        &own(entry("t", None, 0, 1)),
        corrupt()
    )
    .is_err());
}

/// A batch must declare the length it is written with, and an old format has no place
/// for an identifier.
#[test]
fn what_cannot_be_written_is_refused() {
    let mut divergent = batch(1, 7);
    divergent.batch_length = 8;
    match DynoStore::encode_segment_indexed(
        &vec![write(5, vec![batch(1, 7), divergent])],
        1,
        2,
        3,
    ) {
        Err(Error::DivergentBatch(batch)) => {
            assert_eq!((1, 8, 9), (batch.index, batch.declared, batch.encoded));
            assert_eq!("t", batch.topic);
        }
        _ => unreachable!(),
    }
    let mut named = write(5, vec![batch(1, 7)]);
    named.substream = Substream::Id(77);
    assert!(DynoStore::encode_segment_indexed(&vec![named], 1, 2, 2).is_err());
}

#[test]
fn coordinates_of_producers_are_kept() {
    let mut first = batch(3, 7);
    first.producer_id = 9;
    first.producer_epoch = 1;
    first.base_sequence = i32::MAX;
    first.idempotent = true;
    let mut marker = batch(1, 7);
    marker.producer_id = 9;
    marker.producer_epoch = 1;
    marker.transactional = true;
    marker.control = true;
    let (_, footer) =
        DynoStore::encode_segment_indexed(&vec![write(5, vec![first, batch(2, 7), marker])], 1, 2, 3)
            .unwrap();
    let producers = &footer.entries[0].producers;
    assert_eq!(6, footer.entries[0].record_count);
    assert_eq!(0, producers[0].offset_delta);
    assert_eq!(i32::MIN + 1, producers[0].last_sequence);
    let last = producers.last().unwrap();
    assert_eq!(5, last.offset_delta);
    assert_eq!(FLAG_TRANSACTIONAL | FLAG_CONTROL, last.flags);
}

/// A write that lost to a newer era is served only where the newer one has nothing.
#[test]
fn each_offset_has_one_owner() {
    let a = entry("t", None, 0, 10);
    let b = entry("t", None, 5, 10);
    let c = entry("t", None, 20, 5);
    let served = fence(vec![(1, 7, &a), (2, 6, &b), (3, 7, &c)]);
    let ranges = served
        .iter()
        .map(|one| (one.seq, one.served_from, one.end()))
        .collect::<Vec<_>>();
    assert_eq!(vec![(1, 0, 10), (2, 10, 15), (3, 20, 25)], ranges);
    assert!(!served[0].is_clipped());
    assert!(served[1].is_clipped());

    // What is fully claimed before is not served at all.
    let served = fence(vec![(1, 6, &b), (2, 7, &b)]);
    assert_eq!(vec![2], served.iter().map(|one| one.seq).collect::<Vec<_>>());
}

/// Where ranges overlap, the highest epoch serves, and of one epoch the newest segment.
#[test]
fn the_highest_epoch_serves_what_several_hold() {
    let ranges = |found| {
        fence(found)
            .iter()
            .map(|one| (one.seq, one.served_from, one.end()))
            .collect::<Vec<_>>()
    };
    let low = entry("t", None, 0, 10);
    let tail = entry("t", None, 5, 5);
    let middle = entry("t", None, 3, 4);
    let empty = entry("t", None, 4, 0);
    assert_eq!(
        vec![(1, 0, 5), (2, 5, 10)],
        ranges(vec![(1, 1, &low), (2, 9, &tail)])
    );
    // What lies around a newer era is served in two pieces.
    assert_eq!(
        vec![(1, 0, 3), (2, 3, 7), (1, 7, 10)],
        ranges(vec![(1, 1, &low), (2, 9, &middle), (3, 9, &empty)])
    );
    assert_eq!(
        vec![(2, 0, 3), (3, 3, 7), (2, 7, 10)],
        ranges(vec![(1, 4, &tail), (2, 4, &low), (3, 4, &middle)])
    );
    // What holds nothing stands for its place, unless another reaches it.
    let bare = entry("t", None, 100, 0);
    let at = entry("t", None, 100, 5);
    let upto = entry("t", None, 95, 5);
    assert_eq!(vec![(1, 100, 100)], ranges(vec![(1, 1, &bare)]));
    assert_eq!(
        vec![(2, 0, 10), (1, 100, 100)],
        ranges(vec![(1, 1, &bare), (2, 9, &low), (3, 1, &empty)])
    );
    assert_eq!(vec![(2, 95, 100)], ranges(vec![(1, 9, &bare), (2, 1, &upto)]));
    assert_eq!(
        vec![(1, 100, 100), (2, 100, 105)],
        ranges(vec![(1, 9, &bare), (2, 1, &at)])
    );
    assert_eq!(vec![(2, 100, 105)], ranges(vec![(1, 1, &bare), (2, 9, &at)]));
    assert_eq!(vec![(2, 100, 100)], ranges(vec![(1, 1, &bare), (2, 1, &bare)]));
}

/// What a producer wrote counts once, though its segment serves in two pieces.
#[test]
fn coordinates_are_folded_once() {
    let coord = |base_sequence, last_sequence, offset_delta| ProducerCoord {
        producer_id: 9,
        producer_epoch: 0,
        base_sequence,
        last_sequence,
        offset_delta,
        flags: 0,
    };
    let mut store = store();
    let mut insert = |seq, writer_epoch, entry| {
        let footer = SegmentFooter {
            writer_epoch,
            nonce: 0,
            entries: vec![entry],
        };
        store.index_insert("p", seq, footer, 0, 1).unwrap();
    };
    let mut outer = entry("t", None, 0, 10);
    outer.producers = vec![coord(0, 4, 0), coord(5, 9, 5)];
    let mut inner = entry("t", None, 3, 3);
    inner.producers = vec![coord(20, 22, 0)];
    insert(1, 1, outer);
    insert(2, 9, inner);

    let name = Substream::Name("t".to_string());
    let served = store.valid_substream_segments("p", &name, 3).unwrap();
    assert_eq!(
        vec![(1, 0, 3), (2, 3, 6), (1, 6, 10)],
        served
            .iter()
            .map(|one| (one.seq, one.served_from, one.end()))
            .collect::<Vec<_>>()
    );
    assert_eq!(
        vec![false, false, true],
        (0..3).map(|at| is_continued(&served, at)).collect::<Vec<_>>()
    );
    let tail = store.producer_tail_folded("p", &name, 3, 9).unwrap();
    assert_eq!(vec![(0, 0), (5, 5), (20, 3)], tail.window);
    assert_eq!(23, tail.next_sequence);
    assert_eq!(
        ProducerTail::default(),
        store.producer_tail_folded("p", &name, 3, 8).unwrap()
    );
}

/// A region is cut behind what it serves, too.
#[test]
fn a_clipped_region_ends_where_it_is_served() {
    let a = entry("t", None, 0, 6);
    let b = entry("t", None, 2, 2);
    let served = fence(vec![(1, 1, &a), (2, 9, &b)]);
    let batches = || vec![batch(2, 1), batch(2, 2), batch(2, 3)];
    let bodies = |region: FencedRegion| {
        (
            region.base,
            region.batches.iter().map(|b| b.body[0]).collect::<Vec<_>>(),
        )
    };
    assert_eq!((0, vec![1]), bodies(clip_region(&served[0], batches())));
    assert_eq!((4, vec![3]), bodies(clip_region(&served[2], batches())));
}

/// The entries of one sub-stream count together, in whatever order they come.
#[test]
fn a_run_covers_what_its_entries_cover_together() {
    let mut coverage = RunCoverage::new();
    assert!(coverage.extend(&vec![entry("t", None, 10, 5), entry("t", None, 0, 10)]));
    assert_eq!(1, coverage.spans.entries.len());
    let span = coverage.spans.entries[0].1;
    assert_eq!((0, 15, 15), (span.base, span.end, span.records));
    assert!(span.is_contiguous());

    // A hole between them is filled by another of the same call.
    assert!(coverage.extend(&vec![
        entry("t", None, 20, 5),
        entry("u", None, 7, 1),
        entry("t", None, 15, 5),
    ]));
    let span = coverage.spans.entries[0].1;
    assert_eq!((0, 25, 25), (span.base, span.end, span.records));
    assert_eq!(2, coverage.spans.entries.len());

    // Neither a hole nor an overlap is covered, and nothing of the call then.
    assert!(!coverage.extend(&vec![entry("u", None, 8, 1), entry("t", None, 26, 1)]));
    assert!(!coverage.extend(&vec![entry("t", None, 24, 2)]));
    assert!(!coverage.extend(&vec![entry("v", None, 0, 2), entry("v", None, 1, 2)]));
    assert_eq!(2, coverage.spans.entries.len());
    assert_eq!(8, coverage.spans.entries[1].1.end);
}

/// Why a footer cannot be read, in words.
#[test]
fn footer_errors_are_told_in_words() {
    for (error, text) in [
        (FooterError::Truncated, "truncated segment footer"),
        (FooterError::TopicNotUtf8, "segment footer topic is not UTF-8"),
        (
            FooterError::UnsupportedVersion(77),
            "unsupported segment format version 77",
        ),
        (
            FooterError::LengthExceedsTail,
            "segment footer length exceeds tail",
        ),
    ] {
        assert_eq!(text, error.message());
    }
}

#[test]
fn a_clipped_region_begins_where_it_is_served() {
    let a = entry("t", None, 0, 4);
    let b = entry("t", None, 2, 6);
    let served = fence(vec![(1, 7, &a), (2, 6, &b)]);
    assert_eq!((4, 8), (served[1].served_from, served[1].end()));
    let region = clip_region(&served[1], vec![batch(2, 1), batch(2, 2), batch(2, 3)]);
    assert_eq!(4, region.base);
    assert_eq!(
        vec![2, 3],
        region.batches.iter().map(|b| b.body[0]).collect::<Vec<_>>()
    );
    let region = clip_region(&served[0], vec![batch(4, 1)]);
    assert_eq!((0, 1), (region.base, region.batches.len()));
}

fn part(topic: &str, regions: Vec<(u64, i64, Vec<i32>)>) -> MergePart {
    MergePart {
        of: RunSubstream {
            substream: Substream::Name(topic.to_string()),
            topic: topic.to_string(),
            partition: 0,
        },
        regions: regions
            .into_iter()
            .map(|(seq, base, batches)| FencedRegion {
                seq,
                base,
                batches: batches.into_iter().map(|n| batch(n, n as u8)).collect(),
            })
            .collect(),
    }
}

fn set(seqs: &[u64]) -> OrdMap<u64, ()> {
    let mut set = OrdMap::new();
    for seq in seqs {
        let _ = set.insert(*seq, ());
    }
    set
}

fn epochs(pairs: &[(u64, i64)]) -> OrdMap<u64, i64> {
    let mut epochs = OrdMap::new();
    for (seq, epoch) in pairs {
        let _ = epochs.insert(*seq, *epoch);
    }
    epochs
}

#[test]
fn runs_are_merged_where_they_tile() {
    match plan_merge(
        vec![
            part("a", vec![(1, 0, vec![2, 1]), (2, 3, vec![4])]),
            part("b", vec![]),
            part("c", vec![(2, 9, vec![1])]),
        ],
        &epochs(&[(1, 4), (2, 3)]),
    ) {
        MergePlan::Write(writes, epoch) => {
            assert_eq!(4, epoch);
            assert_eq!(2, writes.len());
            assert_eq!(0, writes[0].base_offset);
            assert_eq!(
                vec![2, 1, 4],
                writes[0].batches.iter().map(|b| b.body[0]).collect::<Vec<_>>()
            );
            assert_eq!(9, writes[1].base_offset);
        }
        _ => unreachable!(),
    }
    match plan_merge(
        vec![part("a", vec![(1, 0, vec![2]), (2, 3, vec![4]), (3, 7, vec![1])])],
        &epochs(&[]),
    ) {
        MergePlan::Refused(seams) => {
            assert_eq!(vec![2], seams.entries.iter().map(|e| e.0).collect::<Vec<_>>())
        }
        _ => unreachable!(),
    }
    assert!(matches!(
        plan_merge(vec![part("a", vec![])], &epochs(&[(1, 4)])),
        MergePlan::Superseded
    ));
}

/// Every sub-stream of a run is merged, in the order of the sub-streams.
#[test]
fn no_substream_of_a_run_is_left_out() {
    let mut substreams = OrdMap::new();
    let mut regions = vec![];
    for part in [
        part("a", vec![(1, 0, vec![2]), (2, 2, vec![1])]),
        part("b", vec![]),
        part("c", vec![(2, 9, vec![1])]),
    ] {
        let _ = substreams.insert(part.of, ());
        regions.push(part.regions);
    }
    match plan_run(&substreams, regions, &epochs(&[(1, 4), (2, 5)])) {
        MergePlan::Write(writes, epoch) => {
            assert_eq!(5, epoch);
            assert_eq!(
                vec![("a", 0, 2), ("c", 9, 1)],
                writes
                    .iter()
                    .map(|one| (one.topition.topic(), one.base_offset, one.batches.len()))
                    .collect::<Vec<_>>()
            );
        }
        _ => unreachable!(),
    }
}

/// Every sub-stream is walked by key.
#[test]
fn no_substream_is_left_unwalked() {
    let mut substreams = OrdMap::new();
    let mut regions = vec![];
    for part in [
        part("a", vec![(1, 0, vec![1])]),
        part("b", vec![(2, 4, vec![1])]),
    ] {
        let _ = substreams.insert(part.of, ());
        regions.push(part.regions);
    }
    let mut walks = walks_of(&substreams, regions, 10);
    assert_eq!(2, walks.len());
    for walk in &mut walks {
        while walk.advance() {
            let removed = u32::from(walk.of.topic == "b") as u64;
            walk.take(compaction(batch(1, 7), &["k"], removed, false));
        }
    }
    let plan = settle_walks(walks);
    assert_eq!(1, plan.removed);
    assert_eq!(2, plan.outputs.len());
    assert_eq!(vec![2], plan.dirty.entries.iter().map(|e| e.0).collect::<Vec<_>>());
    assert_eq!(4, plan.outputs.get(&2).unwrap()[0].base_offset);
}

/// A store of whose prefix the segments hold ten records of ten bytes each.
fn indexed(count: u64) -> DynoStore {
    let mut store = store();
    store.tuning.prefix_compact_min_segments = 3;
    store.tuning.prefix_compact_keep_hot = 1;
    store.tuning.prefix_compact_target_bytes = 120;
    for seq in 0..count {
        let entry = entry("t", None, 10 * seq as i64, 10);
        store
            .index_insert("p", seq, footer(vec![entry]), 100 + seq as i64, 5)
            .unwrap();
    }
    store
}

#[test]
fn the_oldest_run_is_selected() {
    assert!(indexed(3).select_run("p").unwrap().is_none());
    let run = indexed(6).select_run("p").unwrap().unwrap();
    assert_eq!(vec![0, 1, 2], run.seqs);
    assert_eq!(102, run.last_modified_ms);

    // What is known to be damaged is left alone, and no run crosses a known hole.
    let mut store = indexed(6);
    let _ = store
        .prefixes
        .quarantined()
        .unwrap()
        .insert("p".to_string(), set(&[0]));
    let _ = store
        .prefixes
        .seams()
        .unwrap()
        .insert("p".to_string(), set(&[3]));
    assert_eq!(vec![1, 2], store.select_run("p").unwrap().unwrap().seqs);

    store.tuning.prefix_compact_min_segments = 0;
    assert!(store.select_run("p").unwrap().is_none());
    store.tuning.prefix_compact_min_segments = 3;
    store.prefixes.index.poisoned = true;
    assert!(matches!(store.select_run("p"), Err(Error::Poison)));
}

#[test]
fn a_merge_writes_before_it_retires() {
    let mut store = indexed(6);
    let mut run = None;
    let mut step = |store: &mut DynoStore, event| {
        store
            .compact_prefix_segments("p", &mut run, event, 9)
            .unwrap()
    };
    assert!(matches!(
        step(&mut store, CompactEvent::Refreshed),
        CompactAction::Lease
    ));
    assert!(matches!(
        step(&mut store, CompactEvent::Leased(true)),
        CompactAction::Fetch
    ));
    assert!(matches!(
        step(&mut store, CompactEvent::Fetched(true)),
        CompactAction::Plan
    ));
    let plan = MergePlan::Write(vec![write(0, vec![batch(30, 1)])], 4);
    assert!(matches!(
        step(&mut store, CompactEvent::Planned(plan)),
        CompactAction::Create(_, 4)
    ));
    let merged = footer(vec![entry("t", None, 0, 30)]);
    assert!(matches!(
        step(&mut store, CompactEvent::Created(6, merged)),
        CompactAction::Retire
    ));
    // The merged segment is as old as the newest that it was made of.
    let index = &store.prefixes.index.map.get(&"p".to_string()).unwrap();
    assert_eq!(102, index.segments.get(&6).unwrap().last_modified_ms);
    assert!(matches!(
        step(&mut store, CompactEvent::Retired),
        CompactAction::Done(CompactRun::Merged(3))
    ));

    assert!(matches!(
        step(&mut store, CompactEvent::Leased(false)),
        CompactAction::Done(CompactRun::Drained)
    ));
    assert!(matches!(
        step(&mut store, CompactEvent::Fetched(false)),
        CompactAction::Done(CompactRun::Retry)
    ));
    assert!(matches!(
        step(&mut store, CompactEvent::Planned(MergePlan::Superseded)),
        CompactAction::Retire
    ));
    assert!(matches!(
        step(&mut store, CompactEvent::Planned(MergePlan::Refused(set(&[2])))),
        CompactAction::Note(_)
    ));
    assert!(matches!(
        step(&mut store, CompactEvent::Noted(true)),
        CompactAction::Done(CompactRun::Retry)
    ));
    assert!(matches!(
        step(&mut store, CompactEvent::Noted(false)),
        CompactAction::Done(CompactRun::Drained)
    ));
    let mut few = indexed(2);
    assert!(matches!(
        step(&mut few, CompactEvent::Refreshed),
        CompactAction::Done(CompactRun::Drained)
    ));
}

#[test]
fn a_run_is_read_by_its_substreams() {
    let store = indexed(4);
    let index = store.prefixes.index.map.get(&"p".to_string()).unwrap();
    let substreams = substreams_of(index, &vec![1, 2, 9]);
    assert_eq!(1, substreams.len());
    assert_eq!("t", substreams.entries[0].0.topic);
    assert_eq!(
        vec![(1, -5), (2, -5)],
        epochs_of(index, &vec![1, 2, 9]).entries
    );
}

#[test]
fn the_per_key_pass_leaves_damage_alone() {
    let mut store = indexed(3);
    let _ = store
        .prefixes
        .quarantined()
        .unwrap()
        .insert("p".to_string(), set(&[1]));
    assert_eq!(
        vec![(0, -5, 100), (2, -5, 102)],
        store
            .per_key_segments("p")
            .unwrap()
            .iter()
            .map(|one| (one.seq, one.writer_epoch, one.last_modified_ms))
            .collect::<Vec<_>>()
    );
    assert!(store.per_key_segments("q").unwrap().is_empty());
    store.prefixes.quarantined.poisoned = true;
    assert!(matches!(
        store.per_key_segments("p"),
        Err(Error::Poison)
    ));
}

#[test]
fn a_drain_stops() {
    let mut drain = Drain::new();
    assert_eq!(
        None,
        drain.drain_compact_prefix(RunEnd::Ran(CompactRun::Merged(3)))
    );
    assert_eq!(
        Some(DrainStop::Drained),
        drain.drain_compact_prefix(RunEnd::Ran(CompactRun::Drained))
    );
    assert_eq!(3, drain.compacted);
    assert_eq!(
        Some(DrainStop::Failed),
        Drain::new().drain_compact_prefix(RunEnd::Failed)
    );

    let mut drain = Drain::new();
    let mut runs = 0;
    while drain
        .drain_compact_prefix(RunEnd::Ran(CompactRun::Merged(1)))
        .is_none()
    {
        runs += 1;
    }
    assert_eq!(MAX_RUNS_PER_PREFIX, runs + 1);

    let mut drain = Drain::new();
    let mut retries = 1;
    while drain
        .drain_compact_prefix(RunEnd::Ran(CompactRun::Retry))
        .is_none()
    {
        retries += 1;
    }
    assert_eq!(MAX_RETRIES_PER_PREFIX, retries);

    assert!(drain_compact_prefix_per_key(0, RunEnd::Damaged(true)));
    assert!(!drain_compact_prefix_per_key(0, RunEnd::Failed));
    assert_eq!("merged", CompactRun::Merged(1).outcome());
    assert_eq!("drained", CompactRun::Drained.outcome());
    assert_eq!("retry", CompactRun::Retry.outcome());
}

fn compaction(batch: Batch, keys: &[&str], removed: u64, repair_frame: bool) -> BatchCompaction {
    BatchCompaction {
        batch,
        keys: keys
            .iter()
            .map(|key| RecordKey {
                bytes: key.as_bytes().to_vec(),
            })
            .collect(),
        removed,
        repair_frame,
    }
}

fn of() -> RunSubstream {
    RunSubstream {
        substream: Substream::Name("t".to_string()),
        topic: "t".to_string(),
        partition: 0,
    }
}

/// Newest first, and only what changed is written again.
#[test]
fn a_key_keeps_its_newest_record() {
    let mut pass = KeyPass::new(2);
    let mut plan = KeyPlan::new();
    assert!(pass.take(batch(2, 4), compaction(batch(2, 4), &["k"], 0, false)));
    assert!(pass.take(batch(2, 3), compaction(batch(2, 33), &["l"], 1, false)));
    let newest = pass.finish_region(8, 20);
    assert_eq!(
        vec![33, 4],
        newest.batches.iter().map(|b| b.body[0]).collect::<Vec<_>>()
    );
    assert_eq!((1, 0), (newest.removed, newest.repaired));
    plan.stage(&of(), newest);

    assert!(pass.take(batch(2, 2), compaction(batch(2, 22), &["k"], 0, false)));
    pass.carry(batch(1, 1));
    plan.stage(&of(), pass.finish_region(7, 10));
    assert!(pass.take(batch(2, 5), compaction(batch(2, 55), &[], 0, true)));
    plan.stage(&of(), pass.finish_region(6, 0));

    // One key more than are told apart.
    assert!(!pass.take(batch(1, 0), compaction(batch(1, 0), &["m"], 0, false)));
    plan.keep_original(&of(), 5, 0, vec![batch(1, 9)]);

    assert_eq!((1, 1), (plan.removed, plan.repaired));
    let segments = [5, 6, 7, 8]
        .into_iter()
        .map(|seq| KeySegment {
            seq,
            writer_epoch: seq as i64 - 7,
            last_modified_ms: 10 * seq as i64,
        })
        .collect::<Vec<_>>();
    match compact_prefix_per_key(&segments, PerKeyEvent::Walked(plan)) {
        PerKeyAction::Rewrite(rewrites, retired, removed) => {
            assert_eq!(vec![6, 8], retired);
            assert_eq!(1, removed);
            assert_eq!(
                vec![(6, 0, 60), (8, 1, 80)],
                rewrites
                    .iter()
                    .map(|one| (one.seq, one.writer_epoch, one.last_modified_ms))
                    .collect::<Vec<_>>()
            );
            assert_eq!(20, rewrites[1].writes[0].base_offset);
            assert_eq!(55, rewrites[0].writes[0].batches[0].body[0]);
        }
        _ => unreachable!(),
    }
}

/// The walk goes from the newest batch to the oldest, past what is exempt.
#[test]
fn a_partition_is_walked_from_its_end() {
    let mut marker = batch(1, 9);
    marker.control = true;
    let regions = || {
        vec![
            FencedRegion {
                seq: 3,
                base: 0,
                batches: vec![batch(1, 1), batch(1, 2)],
            },
            FencedRegion {
                seq: 5,
                base: 2,
                batches: vec![batch(1, 3), marker.duplicate()],
            },
        ]
    };
    let mut walk = KeyWalk::new(of(), regions(), 10);
    let mut met = vec![];
    while walk.advance() {
        let body = walk.batch().body[0];
        met.push(body);
        let removed = if body == 2 { 1 } else { 0 };
        walk.take(compaction(batch(1, 10 * body), &["k"], removed, false));
        assert!(!walk.given_up);
    }
    assert_eq!(vec![3, 2, 1], met);
    let mut plan = KeyPlan::new();
    walk.settle(&mut plan);
    let bodies = |plan: &KeyPlan, seq: u64| {
        plan.outputs.get(&seq).unwrap()[0]
            .batches
            .iter()
            .map(|b| b.body[0])
            .collect::<Vec<_>>()
    };
    assert_eq!(vec![1, 20], bodies(&plan, 3));
    assert_eq!(vec![3, 9], bodies(&plan, 5));
    assert_eq!(vec![3], plan.dirty.entries.iter().map(|e| e.0).collect::<Vec<_>>());

    // A partition with too many keys is left as it was.
    let mut walk = KeyWalk::new(of(), regions(), 1);
    assert!(walk.advance());
    walk.take(compaction(batch(1, 30), &["k", "l"], 1, false));
    assert!(walk.given_up);
    let mut plan = KeyPlan::new();
    walk.settle(&mut plan);
    assert_eq!(vec![1, 2], bodies(&plan, 3));
    assert_eq!(0, plan.dirty.len());
}

#[test]
fn a_pass_without_a_change_writes_nothing() {
    let mut marker = batch(1, 1);
    marker.control = true;
    assert!(is_exempt(&marker));
    marker.control = false;
    marker.transactional = true;
    assert!(is_exempt(&marker));
    assert!(!is_exempt(&batch(1, 1)));

    let segments = vec![KeySegment {
        seq: 1,
        writer_epoch: 0,
        last_modified_ms: 0,
    }];
    assert!(matches!(
        compact_prefix_per_key(&segments, PerKeyEvent::Walked(KeyPlan::new())),
        PerKeyAction::Done(0)
    ));
    assert!(matches!(
        compact_prefix_per_key(&vec![], PerKeyEvent::Listed),
        PerKeyAction::Done(0)
    ));
    assert!(matches!(
        compact_prefix_per_key(&segments, PerKeyEvent::Listed),
        PerKeyAction::Lease
    ));
    assert!(matches!(
        compact_prefix_per_key(&segments, PerKeyEvent::Leased(false)),
        PerKeyAction::Done(0)
    ));
    assert!(matches!(
        compact_prefix_per_key(&segments, PerKeyEvent::Leased(true)),
        PerKeyAction::Fetch
    ));
    assert!(matches!(
        compact_prefix_per_key(&segments, PerKeyEvent::Fetched(true)),
        PerKeyAction::Walk
    ));
    assert!(matches!(
        compact_prefix_per_key(&segments, PerKeyEvent::Fetched(false)),
        PerKeyAction::Done(0)
    ));
    assert!(matches!(
        compact_prefix_per_key(&segments, PerKeyEvent::Retired(4)),
        PerKeyAction::Done(4)
    ));
}

/// From objects to regions to a plan.
#[test]
fn regions_are_located_in_their_objects() {
    let mut store = store();
    let mut objects = vec![];
    for (seq, base) in [(0u64, 0i64), (1, 3)] {
        let (payload, footer) = DynoStore::encode_segment_indexed(
            &vec![write(base, vec![batch(3, seq as u8)])],
            1,
            9,
            3,
        )
        .unwrap();
        store.index_insert("p", seq, footer, 0, 1).unwrap();
        objects.push((seq, Some(payload)));
    }
    let substream = Substream::Name("t".to_string());
    let objects = store.fetch_segment_objects("p", objects).unwrap().unwrap();
    let located = store
        .locate_fenced_regions("p", &substream, 0, &objects)
        .unwrap();
    assert_eq!(2, located.len());
    let decoded = vec![Ok(vec![batch(3, 0)]), Ok(vec![batch(3, 1)])];
    let regions = DynoStore::decode_fenced_regions("p", &located, &objects, decoded).unwrap();
    assert_eq!(
        vec![(0, 0), (1, 3)],
        regions.iter().map(|r| (r.seq, r.base)).collect::<Vec<_>>()
    );

    // A segment that is gone is dropped from the index.
    assert!(store
        .fetch_segment_objects("p", vec![(0, None)])
        .unwrap()
        .is_none());
    assert_eq!(
        1,
        store
            .valid_substream_segments("p", &substream, 0)
            .unwrap()
            .len()
    );
}
