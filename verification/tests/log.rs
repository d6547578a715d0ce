//! Writing to a prefix and reading from it.

use dynostore::buffer::{take_buffer, CoalesceAction, PrefixCoalesceBuffer, PrefixPending};
use dynostore::coalesced::{
    Doubt, Fetch, FetchAction, FetchEvent, FetchRequest, Fetched, FETCH_MAX_ATTEMPTS,
};
use dynostore::config::{StoreIdentity, Tuning, MIN_FLUSH_ATTEMPTS};
use dynostore::error::{Error, ErrorCode};
use dynostore::fetch::has_deadline_expired;
use dynostore::flush::{
    Attempt, FlushAttempts, SegmentCreate, Spent, Verdict, FLUSH_MAX_ATTEMPTS,
};
use dynostore::leaseless::{Flush, FlushAction, FlushEvent, FlushStep, Located};
use dynostore::offsets::ListOffset;
use dynostore::ordmap::OrdMap;
use dynostore::segment::{Batch, SegmentFooter, Substream, SubstreamWrite, Topition};
use dynostore::store::DynoStore;
use dynostore::topics::TopicCaches;

const PREFIX: &str = "p";

fn store() -> DynoStore {
    DynoStore::new(
        StoreIdentity {
            cluster: "c".to_string(),
            node: 1,
            advertised_listener: "tcp://localhost:9092".to_string(),
            writer_id: "w".to_string(),
            maintenance_seed: 7,
        },
        Tuning::new(),
    )
}

fn topition(partition: i32) -> Topition {
    Topition::new("t".to_string(), partition)
}

fn substream() -> Substream {
    Substream::Name("t".to_string())
}

/// A batch of `records`, of a producer if it has a sequence.
fn batch(records: i32, producer: Option<(i64, i16, i32)>) -> Batch {
    let (producer_id, producer_epoch, base_sequence) = producer.unwrap_or((-1, -1, -1));
    Batch {
        base_offset: 0,
        batch_length: 9,
        magic: 2,
        last_offset_delta: records - 1,
        max_timestamp: 1_000,
        producer_id,
        producer_epoch,
        base_sequence,
        idempotent: producer.is_some(),
        transactional: false,
        control: false,
        record_data_len: 9,
        body: vec![records as u8; 9],
    }
}

fn pending(ticket: u64, partition: i32, batch: Batch) -> PrefixPending {
    PrefixPending {
        topition: topition(partition),
        substream: substream(),
        batch,
        ticket,
    }
}

fn buffer(pending: Vec<PrefixPending>) -> PrefixCoalesceBuffer {
    PrefixCoalesceBuffer {
        records: pending
            .iter()
            .map(|item| item.batch.last_offset_delta as i64 + 1)
            .sum(),
        bytes: 0,
        backfill: false,
        pending,
    }
}

/// Go through the first attempt of a flush, up to its claim.
fn claim(
    store: &mut DynoStore,
    topics: &mut TopicCaches<(), ()>,
    buffer: PrefixCoalesceBuffer,
    candidate: u64,
) -> FlushStep {
    let flush = store.begin_flush(buffer);
    assert!(flush.claim.is_none());
    let flush = match store.flush_prefix_coalesced_leaseless(
        topics,
        PREFIX,
        flush,
        FlushEvent::Due(0),
    ) {
        FlushStep::Go(flush, FlushAction::Refresh) => flush,
        _ => unreachable!(),
    };
    let flush = match store.flush_prefix_coalesced_leaseless(
        topics,
        PREFIX,
        flush,
        FlushEvent::Refreshed(Ok(())),
    ) {
        FlushStep::Go(flush, FlushAction::Locate) => flush,
        _ => unreachable!(),
    };
    locate(store, topics, flush, candidate)
}

fn locate(
    store: &mut DynoStore,
    topics: &mut TopicCaches<(), ()>,
    flush: Flush,
    candidate: u64,
) -> FlushStep {
    let located = Located {
        candidate,
        era: 1,
        floors: vec![None; flush.groups.len()],
    };
    assert!(store.may_claim(topics, PREFIX, &flush, &located));
    store.flush_prefix_coalesced_leaseless(
        topics,
        PREFIX,
        flush,
        FlushEvent::Located(Ok(located)),
    )
}

fn created(create: SegmentCreate) -> FlushEvent {
    FlushEvent::Created {
        create,
        took: 3,
        last_modified_ms: 5,
        now: 6,
    }
}

/// Write a buffer at a sequence, and answer every produce.
fn flush(
    store: &mut DynoStore,
    topics: &mut TopicCaches<(), ()>,
    seq: u64,
    buffer: PrefixCoalesceBuffer,
) -> (Vec<u8>, Vec<(u64, Result<i64, ErrorCode>)>) {
    match claim(store, topics, buffer, seq) {
        FlushStep::Go(flush, FlushAction::Create(at, payload)) => {
            assert_eq!(seq, at);
            match store.flush_prefix_coalesced_leaseless(
                topics,
                PREFIX,
                flush,
                created(SegmentCreate::Won),
            ) {
                FlushStep::Answered(answers) => (payload, answers),
                _ => unreachable!(),
            }
        }
        _ => unreachable!(),
    }
}

fn footer_in(payload: &[u8]) -> SegmentFooter {
    DynoStore::decode_segment_footer(payload).unwrap().unwrap()
}

/// The batches of a region, as a decoder of the frames would give them.
fn decoded(region: &[u8]) -> Vec<Batch> {
    let (frames, _) = DynoStore::decode_frame(region);
    frames
        .iter()
        .map(|frame| {
            let mut decoded = batch(frame[12] as i32, None);
            decoded.body = frame[12..].to_vec();
            decoded
        })
        .collect()
}

fn request(partition: i32, offset: i64, max_bytes: u32) -> FetchRequest {
    FetchRequest {
        prefix: PREFIX.to_string(),
        substream: substream(),
        partition,
        offset,
        max_bytes,
        high_watermark: i64::MAX,
    }
}

/// Everything of a partition from an offset on.
fn fetch(
    store: &mut DynoStore,
    objects: &[(u64, Vec<u8>)],
    partition: i32,
    offset: i64,
    max_bytes: u32,
) -> Vec<(i64, i32)> {
    let request = request(partition, offset, max_bytes);
    let mut fetch = Fetch::new(&request);
    let mut event = FetchEvent::Refreshed(Ok(()));
    loop {
        match store.fetch_prefix_coalesced(&request, fetch, event, 0) {
            Fetched::Answered(batches) => {
                return batches
                    .iter()
                    .map(|batch| (batch.base_offset, batch.last_offset_delta + 1))
                    .collect()
            }
            Fetched::Go(next, FetchAction::Read) => {
                let fenced = &next.plan[next.next];
                let object = &objects.iter().find(|(seq, _)| *seq == fenced.seq).unwrap().1;
                let from = fenced.entry.byte_start as usize;
                let region = object[from..from + fenced.entry.byte_len as usize].to_vec();
                let batches = decoded(&region);
                event = FetchEvent::Read(region, Ok(batches));
                fetch = next;
            }
            _ => unreachable!(),
        }
    }
}

#[test]
fn what_was_written_is_read_at_the_offsets_it_was_answered_with() {
    let mut store = store();
    let mut topics = TopicCaches::new();
    let (first, answers) = flush(
        &mut store,
        &mut topics,
        0,
        buffer(vec![
            pending(1, 0, batch(3, None)),
            pending(2, 1, batch(2, None)),
            pending(3, 0, batch(4, None)),
        ]),
    );
    assert_eq!(vec![(1, Ok(0)), (2, Ok(0)), (3, Ok(3))], answers);
    assert_eq!(Some(7), topics.high(&topition(0)).unwrap());
    assert_eq!(Some(2), topics.high(&topition(1)).unwrap());

    let (second, answers) = flush(
        &mut store,
        &mut topics,
        1,
        buffer(vec![pending(4, 0, batch(1, None))]),
    );
    assert_eq!(vec![(4, Ok(7))], answers);

    let objects = vec![(0, first), (1, second)];
    assert_eq!(
        vec![(0, 3), (3, 4), (7, 1)],
        fetch(&mut store, &objects, 0, 0, 1_000)
    );
    assert_eq!(vec![(0, 2)], fetch(&mut store, &objects, 1, 0, 1_000));
    // A batch that begins below the offset asked for is returned whole.
    assert_eq!(
        vec![(3, 4), (7, 1)],
        fetch(&mut store, &objects, 0, 5, 1_000)
    );
    // One batch is returned though it is larger than what was asked for.
    assert_eq!(vec![(0, 3)], fetch(&mut store, &objects, 0, 0, 1));
}

/// The footer says where each partition's bytes lie.
#[test]
fn the_footer_is_found_in_the_payload() {
    let mut store = store();
    let (payload, _) = flush(
        &mut store,
        &mut TopicCaches::new(),
        0,
        buffer(vec![
            pending(1, 0, batch(3, Some((9, 2, 0)))),
            pending(2, 1, batch(2, None)),
        ]),
    );
    let footer = footer_in(&payload);
    assert_eq!(1, footer.writer_epoch);
    assert_eq!(2, footer.entries.len());
    assert_eq!((0, 21), (footer.entries[0].byte_start, footer.entries[0].byte_len));
    assert_eq!((21, 21), (footer.entries[1].byte_start, footer.entries[1].byte_len));
    assert_eq!(3, footer.entries[0].record_count);
    assert_eq!(1, footer.entries[0].producers.len());
    assert_eq!(2, footer.entries[0].producers[0].last_sequence);
}

/// A batch that is sent again is answered with the offset it has, and not written.
#[test]
fn a_retry_is_answered_with_its_own_offset() {
    let mut store = store();
    let mut topics = TopicCaches::new();
    let (_, answers) = flush(
        &mut store,
        &mut topics,
        0,
        buffer(vec![
            pending(1, 0, batch(5, None)),
            pending(2, 0, batch(2, Some((9, 0, 0)))),
        ]),
    );
    assert_eq!(vec![(1, Ok(0)), (2, Ok(5))], answers);

    let again = buffer(vec![pending(3, 0, batch(2, Some((9, 0, 0))))]);
    match claim(&mut store, &mut topics, again, 1) {
        FlushStep::Answered(answers) => assert_eq!(vec![(3, Ok(5))], answers),
        _ => unreachable!(),
    }
}

/// Within one flush as well, and a gap and an old epoch are refused.
#[test]
fn sequences_are_judged_within_a_flush() {
    let mut store = store();
    let mut topics = TopicCaches::new();
    let waiting = buffer(vec![
        pending(1, 0, batch(2, Some((9, 1, 0)))),
        pending(2, 0, batch(2, Some((9, 1, 0)))),
        pending(3, 0, batch(1, Some((9, 1, 2)))),
        pending(4, 0, batch(1, Some((9, 1, 7)))),
        pending(5, 0, batch(1, Some((9, 0, 3)))),
    ]);
    let (payload, answers) = flush(&mut store, &mut topics, 0, waiting);
    assert_eq!(
        vec![
            (1, Ok(0)),
            (2, Ok(0)),
            (3, Ok(2)),
            (4, Err(ErrorCode::OutOfOrderSequenceNumber)),
            (5, Err(ErrorCode::ProducerFenced)),
        ],
        answers
    );
    assert_eq!(3, footer_in(&payload).entries[0].record_count);
    assert_eq!(Some(3), topics.high(&topition(0)).unwrap());
    assert_eq!(Some(1), store.prefixes.seq(PREFIX).unwrap());
}

/// A writer that lost a sequence folds what won it, and derives its offsets anew.
#[test]
fn a_lost_sequence_is_claimed_no_more() {
    let mut store = store();
    let mut topics = TopicCaches::new();
    let waiting = buffer(vec![pending(1, 0, batch(2, None))]);
    let lost = match claim(&mut store, &mut topics, waiting, 0) {
        FlushStep::Go(flush, FlushAction::Create(0, _)) => flush,
        _ => unreachable!(),
    };
    let mut go = |store: &mut DynoStore, flush, event| match store.flush_prefix_coalesced_leaseless(
        &mut topics,
        PREFIX,
        flush,
        event,
    ) {
        FlushStep::Go(flush, action) => (flush, action),
        _ => unreachable!(),
    };
    let (waiting, action) = go(
        &mut store,
        lost,
        created(SegmentCreate::Lost { ambiguous: false }),
    );
    assert!(matches!(action, FlushAction::Wait(0)));
    let (due, action) = go(&mut store, waiting, FlushEvent::Due(10));
    assert!(matches!(action, FlushAction::Fold(0)));
    // Where the footer cannot be folded, the index is refreshed after all.
    let (due, action) = go(&mut store, due, FlushEvent::Folded(false));
    assert!(matches!(action, FlushAction::Refresh));
    let (folded, action) = go(&mut store, due, FlushEvent::Folded(true));
    assert!(matches!(action, FlushAction::Locate));
    assert_eq!((1, 0), (folded.attempts.conflicts, folded.attempts.stalled));

    // The peer wrote seven records.
    let peer = SubstreamWrite {
        topition: topition(0),
        substream: substream(),
        base_offset: 0,
        batches: vec![batch(7, None)],
    };
    let (_, footer) = DynoStore::encode_segment_indexed(&vec![peer], 1, 1, 3).unwrap();
    store.index_insert(PREFIX, 0, footer, 0, 0).unwrap();
    match locate(&mut store, &mut topics, folded, 1) {
        FlushStep::Go(flush, FlushAction::Create(1, _)) => {
            assert_eq!(vec![Ok(7)], flush.claim.unwrap().plan.outcomes)
        }
        _ => unreachable!(),
    }
}

/// Every produce of a flush that failed is told why.
#[test]
fn a_flush_that_fails_answers_everyone() {
    let mut store = store();
    let mut topics: TopicCaches<(), ()> = TopicCaches::new();
    let waiting = || {
        buffer(vec![
            pending(4, 0, batch(1, None)),
            pending(9, 1, batch(1, None)),
        ])
    };
    let mut fail = |store: &mut DynoStore, event| {
        let flush = store.begin_flush(waiting());
        match store.flush_prefix_coalesced_leaseless(&mut topics, PREFIX, flush, event) {
            FlushStep::Failed(tickets, error) => {
                assert_eq!(vec![4, 9], tickets);
                error
            }
            _ => unreachable!(),
        }
    };
    assert!(matches!(
        fail(&mut store, FlushEvent::Refreshed(Err(Error::Poison))),
        Error::Poison
    ));
    assert!(matches!(
        fail(
            &mut store,
            FlushEvent::Located(Err(Error::ObjectStore("reset".to_string())))
        ),
        Error::ObjectStore(_)
    ));

    let mut spent = store.begin_flush(waiting());
    spent.attempts.attempts = FLUSH_MAX_ATTEMPTS;
    match store.flush_prefix_coalesced_leaseless(&mut topics, PREFIX, spent, FlushEvent::Due(0)) {
        FlushStep::Failed(tickets, error) => {
            assert_eq!(vec![4, 9], tickets);
            assert!(matches!(error, Error::Api(ErrorCode::KafkaStorageError)));
        }
        _ => unreachable!(),
    }
    let failed = match claim(&mut store, &mut topics, waiting(), 0) {
        FlushStep::Go(flush, _) => flush,
        _ => unreachable!(),
    };
    assert!(matches!(
        store.flush_prefix_coalesced_leaseless(
            &mut topics,
            PREFIX,
            failed,
            created(SegmentCreate::Failed(Error::ObjectStore("reset".to_string())))
        ),
        FlushStep::Failed(_, Error::ObjectStore(_))
    ));
    store.prefixes.index.poisoned = true;
    assert!(matches!(
        claim(&mut store, &mut topics, waiting(), 0),
        FlushStep::Failed(_, Error::Poison)
    ));
}

/// A flush is not begun where its offsets would not be numbers.
#[test]
fn offsets_have_room() {
    let store = store();
    let topics: TopicCaches<(), ()> = TopicCaches::new();
    let flush = store.begin_flush(buffer(vec![pending(1, 0, batch(1, None))]));
    let located = |candidate, floor| Located {
        candidate,
        era: 1,
        floors: vec![floor],
    };
    assert!(store.may_claim(&topics, PREFIX, &flush, &located(0, Some(5))));
    assert!(!store.may_claim(&topics, PREFIX, &flush, &located(0, Some(i64::MAX))));
    assert!(!store.may_claim(&topics, PREFIX, &flush, &located(u64::MAX, None)));
}

/// The persisted floor counts, though the segments say less.
#[test]
fn no_offset_is_assigned_twice() {
    let mut store = store();
    let _ = flush(
        &mut store,
        &mut TopicCaches::new(),
        0,
        buffer(vec![pending(1, 0, batch(5, None))]),
    );
    let base = |cached, floor| {
        store
            .leaseless_base(PREFIX, &substream(), 0, cached, floor)
            .unwrap()
    };
    assert_eq!(5, base(None, None));
    assert_eq!(9, base(None, Some(9)));
    assert_eq!(8, base(Some(8), Some(3)));
    assert_eq!(5, base(Some(-1), Some(-1)));
}

#[test]
fn a_buffer_is_written_when_it_is_full() {
    let mut store = store();
    store.tuning.coalesce_batches = 3;
    let mut buffers: OrdMap<String, PrefixCoalesceBuffer> = OrdMap::new();
    assert!(matches!(
        store.enqueue_prefix_coalesced(&mut buffers, PREFIX, pending(1, 0, batch(1, None))),
        CoalesceAction::StartTimer
    ));
    assert!(matches!(
        store.enqueue_prefix_coalesced(&mut buffers, PREFIX, pending(2, 0, batch(1, None))),
        CoalesceAction::Wait
    ));
    match store.enqueue_prefix_coalesced(&mut buffers, PREFIX, pending(3, 0, batch(1, None))) {
        CoalesceAction::Flush(full) => {
            assert_eq!(3, full.pending.len());
            assert_eq!(3, full.records);
            assert_eq!(63, full.bytes);
        }
        _ => unreachable!(),
    }
    assert!(take_buffer(&mut buffers, PREFIX).is_none());

    // The marker of a transaction does not wait.
    let mut marker = batch(1, None);
    marker.control = true;
    assert!(matches!(
        store.enqueue_prefix_coalesced(&mut buffers, PREFIX, pending(4, 0, marker)),
        CoalesceAction::Flush(_)
    ));

    let _ = store.enqueue_prefix_coalesced(&mut buffers, PREFIX, pending(5, 0, batch(1, None)));
    assert_eq!(1, take_buffer(&mut buffers, PREFIX).unwrap().pending.len());
}

#[test]
fn a_produce_waits_about_as_long_as_configured() {
    let mut store = store();
    store.tuning.coalesce_linger = 100;
    assert_eq!(80, DynoStore::linger_of(100, 0));
    assert_eq!(120, DynoStore::linger_of(100, 40));
    let waits = (0..200)
        .map(|_| store.jittered_linger())
        .collect::<std::collections::BTreeSet<_>>();
    assert!(waits.iter().all(|wait| (80..=120).contains(wait)));
    assert!(waits.len() > 1);
}

#[test]
fn a_flush_tries_a_few_times_whatever_the_clock() {
    let mut attempts = FlushAttempts::new(1_000);
    for n in 0..MIN_FLUSH_ATTEMPTS {
        let expected = if n == 0 {
            Attempt::Refresh
        } else {
            Attempt::FoldWinner(7)
        };
        assert_eq!(expected, attempts.begin(5_000));
        attempts.claim(7);
        assert!(matches!(
            attempts.resolve(7, SegmentCreate::Lost { ambiguous: n == 1 }, 600),
            Verdict::Backoff { losses } if losses == n
        ));
    }
    assert_eq!(3, attempts.conflicts);
    assert_eq!(1, attempts.ambiguous_lost);
    assert_eq!(3, attempts.stalled);
    assert_eq!(600, attempts.slowest);
    let mut other = attempts;
    assert_eq!(Attempt::GiveUp(Spent::Elapsed), other.begin(1_000));
    assert_eq!(Attempt::GiveUp(Spent::Projected), other.begin(401));
    assert_eq!(Attempt::FoldWinner(7), other.begin(400));
}

#[test]
fn a_flush_does_not_try_for_ever() {
    let mut attempts = FlushAttempts::new(u64::MAX);
    for _ in 0..FLUSH_MAX_ATTEMPTS {
        assert!(!matches!(attempts.begin(0), Attempt::GiveUp(_)));
        let _ = attempts.resolve(1, SegmentCreate::Lost { ambiguous: false }, 0);
    }
    assert_eq!(Attempt::GiveUp(Spent::Attempts), attempts.begin(0));
}

#[test]
fn a_create_that_won_or_failed_ends_the_flush() {
    let mut attempts = FlushAttempts::new(1_000);
    let _ = attempts.begin(0);
    attempts.claim(3);
    assert!(matches!(
        attempts.resolve(3, SegmentCreate::Won, 1),
        Verdict::Durable { next: 4 }
    ));
    assert!(matches!(
        attempts.resolve(3, SegmentCreate::Failed(Error::Poison), 1),
        Verdict::Fail(Error::Poison)
    ));
}

#[test]
fn what_is_answered_for_want_of_an_outcome() {
    let answers = DynoStore::ack_leaseless_outcomes(
        buffer(vec![
            pending(1, 0, batch(1, None)),
            pending(2, 0, batch(1, None)),
        ]),
        vec![Ok(3)],
    );
    assert_eq!(
        vec![(1, Ok(3)), (2, Err(ErrorCode::UnknownServerError))],
        answers
    );
}

fn go(store: &mut DynoStore, fetch: Fetch, event: FetchEvent) -> (Fetch, FetchAction) {
    match store.fetch_prefix_coalesced(&request(0, 0, 100), fetch, event, 9) {
        Fetched::Go(fetch, action) => (fetch, action),
        _ => unreachable!(),
    }
}

/// A segment that went under a fetch is dropped from the index, and the fetch starts
/// over, a few times.
#[test]
fn a_fetch_starts_over_where_a_segment_went() {
    let mut store = store();
    let mut topics = TopicCaches::new();
    for seq in 0..4 {
        let _ = flush(
            &mut store,
            &mut topics,
            seq,
            buffer(vec![pending(1, 0, batch(5, None))]),
        );
    }
    let mut fetch = Fetch::new(&request(0, 0, 100));
    for attempt in 1..=FETCH_MAX_ATTEMPTS {
        let (reading, action) = go(&mut store, fetch, FetchEvent::Refreshed(Ok(())));
        assert!(matches!(action, FetchAction::Read));
        assert_eq!(attempt, reading.attempts);
        assert_eq!(5 - attempt, reading.plan.len());
        let (over, action) = go(&mut store, reading, FetchEvent::Vanished);
        assert!(matches!(action, FetchAction::Refresh));
        assert_eq!(None, store.prefix_index_refreshed_at(PREFIX));
        fetch = over;
    }
    assert!(matches!(
        store.fetch_prefix_coalesced(
            &request(0, 0, 100),
            fetch,
            FetchEvent::Refreshed(Ok(())),
            9
        ),
        Fetched::Answered(batches) if batches.is_empty()
    ));

    assert!(has_deadline_expired(Some(5), 5));
    assert!(!has_deadline_expired(Some(4), 5));
    assert!(!has_deadline_expired(None, 0));
}

/// The object says which of the index and itself is wrong.
#[test]
fn a_damaged_region_is_held_against_its_object() {
    let mut store = store();
    let mut topics = TopicCaches::new();
    let (payload, _) = flush(
        &mut store,
        &mut topics,
        0,
        buffer(vec![pending(1, 0, batch(5, None))]),
    );
    let new = || Fetch::new(&request(0, 0, 100));
    let (reading, _) = go(&mut store, new(), FetchEvent::Refreshed(Ok(())));
    let (short, action) = go(
        &mut store,
        reading,
        FetchEvent::Read(payload[..4].to_vec(), Ok(vec![])),
    );
    assert!(matches!(action, FetchAction::ReadFooter(0)));
    assert!(matches!(&short.doubt, Some(Doubt::Short(bytes)) if bytes.len() == 4));
    match store.fetch_prefix_coalesced(
        &request(0, 0, 100),
        short,
        FetchEvent::Footer(Ok(Some(footer_in(&payload)))),
        9,
    ) {
        Fetched::Failed(Error::CorruptSegment(region)) => assert_eq!(4, region.read_len),
        _ => unreachable!(),
    }

    let (reading, _) = go(&mut store, new(), FetchEvent::Refreshed(Ok(())));
    let (corrupt, _) = go(
        &mut store,
        reading,
        FetchEvent::Read(payload[..21].to_vec(), Err("bad".to_string())),
    );
    let mut own = footer_in(&payload);
    own.entries[0].byte_start = 3;
    let (over, action) = go(&mut store, corrupt, FetchEvent::Footer(Ok(Some(own))));
    assert!(matches!(action, FetchAction::Refresh));
    assert!(over.doubt.is_none());
    let segments = store
        .valid_substream_segments(PREFIX, &substream(), 0)
        .unwrap();
    assert_eq!(3, segments[0].entry.byte_start);
}

/// What was gathered in time is returned.
#[test]
fn a_fetch_ends_with_its_time() {
    let mut store = store();
    let (payload, _) = flush(
        &mut store,
        &mut TopicCaches::new(),
        0,
        buffer(vec![pending(1, 0, batch(5, None))]),
    );
    let _ = flush(
        &mut store,
        &mut TopicCaches::new(),
        1,
        buffer(vec![pending(1, 0, batch(5, None))]),
    );
    let new = Fetch::new(&request(0, 0, 100));
    let (reading, _) = go(&mut store, new, FetchEvent::Refreshed(Ok(())));
    let region = payload[..21].to_vec();
    let batches = decoded(&region);
    let (more, action) = go(&mut store, reading, FetchEvent::Read(region, Ok(batches)));
    assert!(matches!(action, FetchAction::Read));
    match store.fetch_prefix_coalesced(&request(0, 0, 100), more, FetchEvent::Expired, 9) {
        Fetched::Answered(batches) => assert_eq!(1, batches.len()),
        _ => unreachable!(),
    }
    let new = Fetch::new(&request(0, 0, 100));
    assert!(matches!(
        store.fetch_prefix_coalesced(
            &request(0, 0, 100),
            new,
            FetchEvent::Failed(Error::Poison),
            9
        ),
        Fetched::Failed(Error::Poison)
    ));
}

#[test]
fn offsets_are_listed() {
    let mut store = store();
    let mut topics = TopicCaches::new();
    let _ = flush(
        &mut store,
        &mut topics,
        0,
        buffer(vec![pending(1, 0, batch(5, None))]),
    );
    let listed = |request, stable, high, floor| {
        let response = store
            .list_offset_response(PREFIX, &substream(), 0, &request, stable, high, floor)
            .unwrap();
        (response.offset, response.timestamp)
    };
    assert_eq!(
        (Some(0), None),
        listed(ListOffset::Earliest, None, None, 0)
    );
    assert_eq!(
        (Some(3), None),
        listed(ListOffset::Earliest, None, None, 3)
    );
    assert_eq!(
        (Some(5), Some(1_000)),
        listed(ListOffset::Latest, None, Some(5), 0)
    );
    assert_eq!(
        (Some(2), None),
        listed(ListOffset::Latest, Some(2), Some(5), 0)
    );
    assert_eq!(
        Some(0),
        listed(ListOffset::Timestamp(900), None, Some(5), 0).0
    );
    let needs = |request, stable| {
        store
            .needs_high_watermark(PREFIX, &substream(), 0, &request, stable)
            .unwrap()
    };
    assert!(needs(ListOffset::Latest, None));
    assert!(!needs(ListOffset::Latest, Some(2)));
    assert!(!needs(ListOffset::Earliest, None));
}
