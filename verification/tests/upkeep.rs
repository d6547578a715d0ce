//! What a process keeps in mind, and what it does in a tick of maintenance.

use dynostore::config::{CoalesceTuning, StoreIdentity, Tuning, PREFIX_INDEX_RECONCILE_INTERVAL};
use dynostore::error::{Error, ErrorCode};
use dynostore::locked::LockedMap;
use dynostore::maintain::{
    is_compacted, routed_prefixes, sweep_backlogged_prefixes, ClaimOutcome, PrefixStep,
    RoutedTopic, MAX_SWEEPS,
};
use dynostore::ordmap::OrdMap;
use dynostore::prefixes::{ClientCaches, PrefixCaches};
use dynostore::probe::{
    FooterOutcome, FooterReply, ListReason, Listing, ProbeStep, RefreshPlan, PROBE_WINDOW,
};
use dynostore::random::fresh_nonce;
use dynostore::reindex::{Refresh, RefreshAction, RefreshEvent};
use dynostore::segment::{
    Batch, SegmentFooter, Substream, SubstreamEntry, SubstreamWrite, Topition,
};
use dynostore::store::DynoStore;
use dynostore::text::{contains_str, hex_of, padded_decimal, padded_signed, strip_suffix};
use dynostore::topics::{TopicCaches, TopicRouting};
use dynostore::trace::{
    ReadOverlap, SEGMENT_READ_TRACE_OBJECTS, SEGMENT_READ_TRACE_RANGES, SEGMENT_READ_TRACE_TTL,
};
use std::collections::BTreeSet;
use std::sync::Arc;

fn store() -> DynoStore {
    DynoStore::new(
        StoreIdentity {
            cluster: "c".to_string(),
            node: 1,
            advertised_listener: "tcp://localhost:9092".to_string(),
            writer_id: "w".to_string(),
            maintenance_seed: 7,
        },
        Tuning::new(),
    )
}

fn entry(base: i64, count: i64) -> SubstreamEntry {
    SubstreamEntry {
        topic: Arc::new("t".to_string()),
        topic_id: None,
        partition: 0,
        base_offset: base,
        record_count: count,
        byte_start: 0,
        byte_len: 40,
        max_timestamp: 0,
        producers: vec![],
    }
}

fn footer(entries: Vec<SubstreamEntry>) -> SegmentFooter {
    SegmentFooter {
        writer_epoch: 1,
        nonce: 2,
        entries,
    }
}

/// The end of an object with one region of ten records.
fn tail(base_offset: i64) -> Vec<u8> {
    let batch = Batch {
        base_offset: 0,
        batch_length: 9,
        magic: 2,
        last_offset_delta: 9,
        max_timestamp: 0,
        producer_id: -1,
        producer_epoch: -1,
        base_sequence: -1,
        idempotent: false,
        transactional: false,
        control: false,
        record_data_len: 9,
        body: vec![0; 9],
    };
    let write = SubstreamWrite {
        topition: Topition::new("t".to_string(), 0),
        substream: Substream::Name("t".to_string()),
        base_offset,
        batches: vec![batch],
    };
    DynoStore::encode_segment_indexed(&vec![write], 1, 2, 3)
        .unwrap()
        .0
}

fn names(names: &[&str]) -> Vec<String> {
    names.iter().map(|name| name.to_string()).collect()
}

fn set(members: &[&str]) -> OrdMap<String, ()> {
    let mut set = OrdMap::new();
    for name in members {
        let _ = set.insert(name.to_string(), ());
    }
    set
}

fn keys(set: &OrdMap<String, ()>) -> Vec<&str> {
    set.entries.iter().map(|entry| entry.0.as_str()).collect()
}

/// A cold index is listed, one that is known is probed, and now and then one is
/// listed as a whole.
#[test]
fn a_refresh_costs_as_little_as_it_can() {
    let mut store = store();
    let ttl = store.tuning.watermark_hint_ttl;
    assert!(matches!(
        store.plan_refresh("p", false, 10).unwrap(),
        RefreshPlan::List(Listing {
            start_after: None,
            reconcile: false,
            reason: ListReason::Cold
        })
    ));
    let cold = Listing {
        start_after: None,
        reconcile: false,
        reason: ListReason::Cold,
    };
    let discovered = vec![(3, 30), (4, 40), (5, 50)];
    assert_eq!(
        discovered,
        store.footers_to_read("p", &discovered).unwrap()
    );
    assert!(!store
        .commit_footer("p", 3, 30, FooterOutcome::Decoded(footer(vec![entry(0, 10)])))
        .unwrap());
    assert!(store
        .commit_footer("p", 4, 40, FooterOutcome::Undecodable)
        .unwrap());
    assert!(!store
        .commit_footer("p", 4, 40, FooterOutcome::Vanished)
        .unwrap());
    assert_eq!(
        vec![(5, 50)],
        store.footers_to_read("p", &discovered).unwrap()
    );
    store
        .commit_footer("p", 5, 50, FooterOutcome::Decoded(footer(vec![entry(10, 10)])))
        .unwrap();
    store.finish_listing("p", cold, &discovered, 100).unwrap();

    assert_eq!(
        RefreshPlan::Served,
        store.plan_refresh("p", false, 100 + ttl - 1).unwrap()
    );
    assert_eq!(
        RefreshPlan::Probe(5),
        store.plan_refresh("p", false, 100 + ttl).unwrap()
    );
    assert_eq!(
        RefreshPlan::Probe(5),
        store.plan_refresh("p", true, 100).unwrap()
    );
    assert!(matches!(
        store
            .plan_refresh("p", false, 100 + PREFIX_INDEX_RECONCILE_INTERVAL)
            .unwrap(),
        RefreshPlan::List(Listing {
            reconcile: true,
            ..
        })
    ));

    // What a whole listing does not show below its end is gone.
    let whole = Listing {
        start_after: None,
        reconcile: true,
        reason: ListReason::Reconcile,
    };
    store.finish_listing("p", whole, &vec![(5, 50)], 200).unwrap();
    let index = store.prefixes.index.map.get(&"p".to_string()).unwrap();
    assert_eq!(1, index.segments.len());
    assert_eq!(0, index.opaque.len());
}

/// An absent segment ends the tail only under the floor.
#[test]
fn a_probe_finds_the_tail() {
    let mut store = store();
    store
        .index_insert("p", 5, footer(vec![entry(0, 10)]), 0, 0)
        .unwrap();
    let found = |base| FooterReply::Found(tail(base), 60);
    assert_eq!(
        ProbeStep::Read(7),
        store.probe_prefix_tail("p", 5, 6, found(10))
    );
    assert_eq!(
        ProbeStep::ReadFloor(7),
        store.probe_prefix_tail("p", 5, 7, FooterReply::Absent)
    );
    assert_eq!(
        ProbeStep::Resolved(1),
        store.probe_seq_floor("p", 5, 7, Some(7), 99)
    );
    assert_eq!(Some(99), store.prefix_index_refreshed_at("p"));
    assert_eq!(
        20,
        store
            .recover_substream_next_offset("p", &Substream::Name("t".to_string()), 0, 3)
            .unwrap()
    );
    assert_eq!(
        Some(0),
        store
            .segment_region_start("p", &Substream::Name("t".to_string()), 0)
            .unwrap()
    );

    let gives_way = |step, expected| match step {
        ProbeStep::List(listing) => {
            assert_eq!(Some(6), listing.start_after);
            assert_eq!(expected, listing.reason);
        }
        _ => panic!("{step:?}"),
    };
    gives_way(
        store.probe_seq_floor("p", 6, 7, Some(8), 99),
        ListReason::FloorAhead,
    );
    gives_way(
        store.probe_seq_floor("p", 6, 7, None, 99),
        ListReason::ProbeError,
    );
    gives_way(
        store.probe_prefix_tail("p", 6, 7, FooterReply::Failed),
        ListReason::ProbeError,
    );
    gives_way(
        store.probe_prefix_tail("p", 6, 7, FooterReply::Found(vec![0; 40], 0)),
        ListReason::Undecodable,
    );
    let whole = tail(0);
    gives_way(
        store.probe_prefix_tail(
            "p",
            6,
            7,
            FooterReply::Found(whole[whole.len() - 20..].to_vec(), 0),
        ),
        ListReason::OversizedFooter,
    );
    gives_way(
        store.probe_prefix_tail("p", 6, 6 + PROBE_WINDOW, found(40)),
        ListReason::WindowExhausted,
    );
    assert_eq!("floor_ahead", ListReason::FloorAhead.as_str());
}

/// From a cold index to one that is followed.
#[test]
fn a_refresh_goes_step_by_step() {
    let mut store = store();
    let ttl = store.tuning.watermark_hint_ttl;
    let step = |store: &mut DynoStore, stage, event, now| {
        store
            .refresh_prefix_index_inner("p", false, stage, event, now)
            .unwrap()
    };
    let (stage, action) = step(&mut store, Refresh::Begun, RefreshEvent::Due, 0);
    assert_eq!(RefreshAction::Lock, action);
    let (stage, action) = step(&mut store, stage, RefreshEvent::Locked, 0);
    assert!(matches!(action, RefreshAction::List(listing) if listing.reason == ListReason::Cold));
    let (stage, action) = step(
        &mut store,
        stage,
        RefreshEvent::Listed(Ok(vec![(3, 30), (4, 40)])),
        0,
    );
    assert_eq!(RefreshAction::ReadFooter(3), action);
    let decoded = FooterOutcome::Decoded(footer(vec![entry(0, 10)]));
    let (stage, action) = step(&mut store, stage, RefreshEvent::Footer(Ok(decoded)), 0);
    assert_eq!(RefreshAction::ReadFooter(4), action);
    let (_, action) = step(
        &mut store,
        stage,
        RefreshEvent::Footer(Ok(FooterOutcome::Vanished)),
        100,
    );
    assert_eq!(RefreshAction::Done, action);

    let (stage, action) = step(&mut store, Refresh::Begun, RefreshEvent::Due, 100);
    assert_eq!(RefreshAction::Done, action);
    let (stage, action) = step(&mut store, stage, RefreshEvent::Locked, 100 + ttl);
    assert_eq!(RefreshAction::Read(5), action);
    let (stage, action) = step(
        &mut store,
        stage,
        RefreshEvent::Probed(FooterReply::Found(tail(10), 50)),
        100 + ttl,
    );
    assert_eq!(RefreshAction::Read(6), action);
    let (stage, action) = step(
        &mut store,
        stage,
        RefreshEvent::Probed(FooterReply::Absent),
        100 + ttl,
    );
    assert_eq!(RefreshAction::ReadFloor, action);
    let (_, action) = step(&mut store, stage, RefreshEvent::Floored(Some(6)), 200 + ttl);
    assert_eq!(RefreshAction::Done, action);
    assert_eq!(Some(200 + ttl), store.prefix_index_refreshed_at("p"));

    // One that is forced waits for the lock in any case.
    let (_, action) = store
        .refresh_prefix_index_inner("p", true, Refresh::Begun, RefreshEvent::Due, 200 + ttl)
        .unwrap();
    assert_eq!(RefreshAction::Lock, action);
    assert!(matches!(
        store.refresh_prefix_index_inner(
            "p",
            true,
            Refresh::Listing(Listing {
                start_after: None,
                reconcile: true,
                reason: ListReason::Reconcile
            }),
            RefreshEvent::Listed(Err(Error::Poison)),
            0
        ),
        Err(Error::Poison)
    ));
}

#[test]
fn an_index_forgets_what_was_retired() {
    let mut store = store();
    for seq in 0..4 {
        store
            .index_insert("p", seq, footer(vec![entry(10 * seq as i64, 10)]), 0, 7)
            .unwrap();
    }
    store.index_prune("p", &[1, 2]).unwrap();
    let served = store
        .valid_substream_segments("p", &Substream::Name("t".to_string()), 0)
        .unwrap();
    assert_eq!(
        vec![0, 3],
        served.iter().map(|one| one.seq).collect::<Vec<_>>()
    );
    assert!(store.are_offsets_in_range("p", &Substream::Name("t".to_string()), 0));
    store.index_invalidate("p").unwrap();
    assert_eq!(None, store.prefix_index_refreshed_at("p"));

    assert!(store.fold_segment_footer("p", 9, FooterReply::Found(tail(90), 5), 8));
    assert!(!store.fold_segment_footer("p", 10, FooterReply::Absent, 8));
    store
        .adopt_segment_trailer("p", 9, footer(vec![entry(90, 5)]), 9)
        .unwrap();
    store.prefixes.index.poisoned = true;
    assert!(matches!(store.index_invalidate("p"), Err(Error::Poison)));
}

#[test]
fn prefixes_are_claimed_in_any_order() {
    let mut store = store();
    store
        .index_insert("x", 0, footer(vec![]), 0, 0)
        .unwrap();
    let universe = store
        .maintenance_universe(&names(&["b", "a", "b"]), &names(&["c"]))
        .unwrap();
    assert_eq!(vec!["a", "b", "c", "x"], keys(&universe));
    let mut orders = BTreeSet::new();
    for now in 0..50 {
        let order = store.claim_order(&universe, now);
        assert_eq!(4, order.len());
        let mut sorted = order.clone();
        sorted.sort();
        assert_eq!(names(&["a", "b", "c", "x"]), sorted);
        // The same tick has the same order.
        assert_eq!(order, store.claim_order(&universe, now));
        let _ = orders.insert(order);
    }
    assert!(orders.len() > 1);

    assert!(!store.is_recently_maintained(100, Some(99)));
    store.tuning.maintenance_recency = 10;
    assert!(store.is_recently_maintained(100, Some(91)));
    assert!(!store.is_recently_maintained(100, Some(90)));
    assert!(!store.is_recently_maintained(100, None));

    let mut owned = OrdMap::new();
    let mut claim =
        |prefix: &str, acquired| DynoStore::claim_maintenance_prefixes(&mut owned, prefix.to_string(), acquired);
    assert_eq!(ClaimOutcome::Claimed, claim("a", Ok(3)));
    assert_eq!(
        ClaimOutcome::Lost,
        claim("b", Err(Error::Api(ErrorCode::NotLeaderOrFollower)))
    );
    assert_eq!(ClaimOutcome::Failed, claim("c", Err(Error::Poison)));
    assert_eq!(vec!["a"], keys(&owned));

    assert_eq!(
        names(&["a"]),
        store
            .compactable_prefixes(&names(&["b", "a"]), Some(&owned))
            .unwrap()
    );
    assert_eq!(
        names(&["a", "b", "x"]),
        store
            .compactable_prefixes(&names(&["b", "a"]), None)
            .unwrap()
    );
    assert_eq!(
        names(&["a"]),
        DynoStore::per_key_compact_prefixes(&names(&["b", "a", "a"]), Some(&owned))
    );
    store.tuning.prefix_compact_min_segments = 0;
    assert!(store
        .compactable_prefixes(&names(&["b"]), None)
        .unwrap()
        .is_empty());
}

#[test]
fn the_longest_backlog_comes_first() {
    let mut store = store();
    store.tuning.prefix_compact_min_segments = 2;
    store.tuning.prefix_compact_keep_hot = 1;
    for (prefix, count) in [("a", 3), ("b", 5), ("c", 2), ("d", 5)] {
        for seq in 0..count {
            store
                .index_insert(prefix, seq, footer(vec![]), 0, 0)
                .unwrap();
        }
    }
    assert_eq!(
        names(&["b", "d", "a"]),
        store.backlogged_prefixes(&set(&["a", "b", "c", "d", "e"]))
    );
    let mut thresholds = OrdMap::new();
    let _ = thresholds.insert("c".to_string(), 55);
    assert_eq!(
        names(&["b", "a", "c", "z"]),
        store
            .maintenance_order(&thresholds, &names(&["a", "b"]), &names(&["z", "b"]))
            .unwrap()
    );
    assert!(sweep_backlogged_prefixes(0, None, 2));
    assert!(sweep_backlogged_prefixes(1, Some(3), 2));
    assert!(!sweep_backlogged_prefixes(1, Some(0), 2));
    assert!(!sweep_backlogged_prefixes(1, Some(3), 0));
    assert!(!sweep_backlogged_prefixes(MAX_SWEEPS, Some(3), 2));

    assert_eq!(
        vec![
            PrefixStep::Expire(55),
            PrefixStep::Compact,
            PrefixStep::Certify
        ],
        DynoStore::maintain_prefix_segments(
            "c",
            &thresholds,
            &set(&["c"]),
            &set(&["a"]),
            &set(&[])
        )
    );
    let config = |name: &str, value: Option<&str>| (name.to_string(), value.map(str::to_string));
    assert!(is_compacted(&vec![
        config("retention.ms", Some("compact")),
        config("cleanup.policy", Some("delete,compact")),
    ]));
    assert!(!is_compacted(&vec![
        config("cleanup.policy", Some("delete")),
        config("cleanup.policy", None),
    ]));
}

/// Whatever is due on a prefix is done in one order.
#[test]
fn upkeep_has_an_order() {
    let mut thresholds = OrdMap::new();
    let _ = thresholds.insert("p".to_string(), 9);
    let all = set(&["p"]);
    assert_eq!(
        vec![
            PrefixStep::Expire(9),
            PrefixStep::PerKey,
            PrefixStep::Compact,
            PrefixStep::DropMarker,
            PrefixStep::Certify
        ],
        DynoStore::maintain_prefix_segments("p", &thresholds, &all, &all, &all)
    );
    assert_eq!(
        vec![PrefixStep::Certify],
        DynoStore::maintain_prefix_segments("q", &thresholds, &all, &all, &all)
    );
    assert_eq!(7 ^ 12, store().claim_seed(12));
    assert_eq!(7 ^ u64::MAX, store().claim_seed(-1));
}

/// Every partition is routed, and a compacted topic's are passed over by key.
#[test]
fn topics_are_routed_to_prefixes() {
    let topic = |policy: Option<&str>, num_partitions, routes: &[&str]| RoutedTopic {
        configs: vec![("cleanup.policy".to_string(), policy.map(str::to_string))],
        num_partitions,
        routes: names(routes),
    };
    let (all, compacted) = routed_prefixes(&vec![
        topic(None, 2, &["a", "b"]),
        topic(Some("compact"), 1, &["c", "d"]),
        topic(Some("delete"), -1, &[]),
    ]);
    assert_eq!(names(&["a", "b", "c"]), all);
    assert_eq!(names(&["c"]), compacted);
}

#[test]
fn repeated_reads_are_told_apart() {
    let mut store = store();
    assert_eq!(
        Some(ReadOverlap::First),
        store.note_segment_data_read("p", 1, 0, 10, 100)
    );
    assert_eq!(
        Some(ReadOverlap::SameRange),
        store.note_segment_data_read("p", 1, 0, 10, 101)
    );
    assert_eq!(
        Some(ReadOverlap::OtherRange),
        store.note_segment_data_read("p", 1, 10, 10, 102)
    );
    assert_eq!(
        Some(ReadOverlap::First),
        store.note_segment_data_read("q", 1, 0, 10, 102)
    );
    assert_eq!(
        Some(ReadOverlap::First),
        store.note_segment_data_read("p", 1, 0, 10, 102 + SEGMENT_READ_TRACE_TTL)
    );
    store.prefixes.segment_reads.poisoned = true;
    assert_eq!(None, store.note_segment_data_read("p", 1, 0, 10, 103));
}

#[test]
fn what_is_traced_is_bounded() {
    let mut store = store();
    for range in 0..40 {
        let _ = store.note_segment_data_read("p", 0, range, 1, 100);
    }
    let traces = &store.prefixes.segment_reads.map;
    assert_eq!(
        SEGMENT_READ_TRACE_RANGES,
        traces.entries[0].1.ranges.len()
    );

    for seq in 0..SEGMENT_READ_TRACE_OBJECTS as u64 {
        let _ = store.note_segment_data_read("p", seq, 0, 1, 100 + seq % 2);
    }
    assert_eq!(
        SEGMENT_READ_TRACE_OBJECTS,
        store.prefixes.segment_reads.len()
    );
    let later = 100 + SEGMENT_READ_TRACE_TTL;
    let _ = store.note_segment_data_read("q", 0, 0, 1, later);
    assert_eq!(
        SEGMENT_READ_TRACE_OBJECTS / 2 + 1,
        store.prefixes.segment_reads.len()
    );
}

#[test]
fn a_prefix_with_a_run_to_merge_is_swept() {
    let mut store = store();
    store.tuning.prefix_compact_min_segments = 2;
    store.tuning.prefix_compact_keep_hot = 1;
    for count in 1..6u64 {
        let prefix = format!("p{count}");
        for seq in 0..count {
            store
                .index_insert(&prefix, seq, footer(vec![entry(5 * seq as i64, 5)]), 0, 0)
                .unwrap();
        }
        let swept = store.backlogged_prefixes(&set(&[prefix.as_str()]));
        assert_eq!(
            count > 2,
            store.select_run(&prefix).unwrap().is_some(),
            "{prefix}"
        );
        assert_eq!(count > 2, swept == vec![prefix]);
    }
}

#[test]
fn a_backfill_waits_for_more() {
    let mut store = store();
    assert_eq!((64, 1_048_576), store.flush_thresholds(false));
    assert_eq!((65_536, 8_388_608), store.flush_thresholds(true));
    store.tuning.coalesce_batches = 100_000;
    store.tuning.coalesce_bytes = 10_000_000;
    assert_eq!((100_000, 10_000_000), store.flush_thresholds(false));
    assert_eq!((100_000, 10_000_000), store.flush_thresholds(true));
}

#[test]
fn what_is_known_of_a_partition_does_not_go_back() {
    let mut caches: TopicCaches<(), i32> = TopicCaches::new();
    let topition = Topition::new("t".to_string(), 3);
    assert_eq!(None, caches.high(&topition).unwrap());
    caches.set_high(&topition, 10).unwrap();
    caches.set_high(&topition, 7).unwrap();
    assert_eq!(Some(10), caches.high(&topition).unwrap());
    assert_eq!(None, caches.high_fresh(&topition, 50, 100).unwrap());
    caches.mark_listed(&topition, 8, 100).unwrap();
    assert_eq!(Some(10), caches.high_fresh(&topition, 50, 149).unwrap());
    assert_eq!(None, caches.high_fresh(&topition, 50, 150).unwrap());

    caches.memo_truncate_floor(&topition, 4).unwrap();
    caches.memo_truncate_floor(&topition, 2).unwrap();
    assert_eq!(Some(4), caches.truncate_floor(&topition).unwrap());

    caches
        .cache_coalesced_watermark(&topition, 9, Some(1), 5)
        .unwrap();
    assert_eq!(
        Some((9, Some(1))),
        caches.coalesced_watermark(&topition, 5).unwrap()
    );
    assert_eq!(None, caches.coalesced_watermark(&topition, 6).unwrap());
    caches
        .forget_hints(&vec![Topition::new("t".to_string(), 3)])
        .unwrap();
    assert_eq!(None, caches.high(&topition).unwrap());
    assert_eq!(Some(4), caches.truncate_floor(&topition).unwrap());
    caches.forget_partition(&topition).unwrap();
    assert_eq!(None, caches.truncate_floor(&topition).unwrap());

    caches.next_offsets.poisoned = true;
    assert!(matches!(caches.high(&topition), Err(Error::Poison)));
}

#[test]
fn a_topic_that_is_gone_is_forgotten() {
    let mut caches: TopicCaches<i32, i32> = TopicCaches::new();
    for topic in ["t", "u"] {
        assert_eq!(
            format!("clusters/c/topic-metadata/{topic}.json"),
            caches.meta("c", topic).unwrap().path
        );
        let topition = Topition::new(topic.to_string(), 7);
        assert_eq!(
            format!("clusters/c/topics/{topic}/partitions/0000000007/watermark.json"),
            caches.watermark("c", &topition).unwrap().path
        );
        assert_eq!(None, caches.watermark_truncate(&topition).unwrap());
        caches.set_high(&topition, 1).unwrap();
        caches.remember_routing(
            topic.to_string(),
            TopicRouting {
                prefix: "p".to_string(),
                substream: Substream::Name(topic.to_string()),
            },
        );
        caches.remember_compacted(topic.to_string(), true, 100);
    }
    caches.remember_topic_id(77, "t".to_string());
    caches.remember_topic_id(78, "u".to_string());
    assert_eq!(Some("t".to_string()), caches.topic_id(77));
    assert_eq!("p", caches.routing("t").unwrap().unwrap().prefix);
    assert_eq!(Some(true), caches.compacted("t", 10, 109).unwrap());
    assert_eq!(None, caches.compacted("t", 10, 110).unwrap());

    let evicted = caches.retain_live(&set(&["u"]));
    assert_eq!(vec!["t"], keys(&evicted));
    assert_eq!(None, caches.topic_id(77));
    assert!(caches.routing("t").unwrap().is_none());
    assert_eq!(
        [
            ("topic_metas", 1),
            ("topic_ids", 1),
            ("routing_prefixes", 1),
            ("compacted_topics", 1),
            ("watermarks", 1),
            ("next_offsets", 1),
            ("coalesced_watermark_floors", 0),
            ("truncate_floors", 0),
        ],
        caches.occupancy()
    );
    assert_eq!((1, 1), caches.record_occupancy());
    caches.forget("u");
    assert!(caches.occupancy().iter().all(|(_, count)| *count == 0));
}

#[test]
fn the_list_of_topics_is_read_while_it_is_fresh() {
    let mut caches: TopicCaches<i32, i32> = TopicCaches::new();
    assert!(caches.fresh_index(10, 100).unwrap().is_none());
    caches
        .replace_index(OrdMap::new(), Arc::new(vec![4, 5]), 100)
        .unwrap();
    assert_eq!(
        Some(Arc::new(vec![4, 5])),
        caches.fresh_index(10, 109).unwrap()
    );
    assert!(caches.fresh_index(10, 110).unwrap().is_none());
    assert_eq!(2, caches.with_index().unwrap().snapshot.len());
    caches.invalidate_index();
    assert!(caches.fresh_index(10, 100).unwrap().is_none());
}

#[test]
fn what_is_known_of_a_prefix() {
    let mut caches: PrefixCaches<()> = PrefixCaches::new();
    caches.set_seq("p", 5).unwrap();
    caches.set_seq("p", 3).unwrap();
    assert_eq!(Some(5), caches.seq("p").unwrap());
    assert_eq!(None, caches.seq("q").unwrap());
    caches.cache_era("p", 2).unwrap();
    caches.cache_era("p", 1).unwrap();
    assert_eq!(Some(2), caches.era("p").unwrap());
    caches.record_oldest_retained("p", Some(7)).unwrap();
    assert_eq!(Some(7), caches.oldest_retained("p").unwrap());
    caches.record_oldest_retained("p", None).unwrap();
    assert_eq!(None, caches.oldest_retained("p").unwrap());
    assert!(!caches.served_end_reconciled("p").unwrap());
    caches.mark_served_end_reconciled("p").unwrap();
    assert!(caches.served_end_reconciled("p").unwrap());
    let _ = caches
        .retired()
        .unwrap()
        .insert("p".to_string(), (None, ()));
    caches.forget_retired_marker("p");
    assert_eq!(("retired_prefixes", 0), caches.record_occupancy()[3]);
    assert_eq!(("segment_seqs", 1), caches.record_occupancy()[1]);
    assert_eq!(0, caches.seams_of("p").unwrap().len());
    assert_eq!(0, caches.quarantined_of("p").unwrap().len());

    let mut clients: ClientCaches<i32, i32> = ClientCaches::new();
    assert!(clients.producer("c", 12).unwrap().path.contains("12"));
    clients.producers.poisoned = true;
    assert!(matches!(clients.producer("c", 12), Err(Error::Poison)));
}

#[test]
fn a_poisoned_lock_is_reported_or_passed_over() {
    let mut locked: LockedMap<String, i32> = LockedMap::new();
    assert_eq!(
        7,
        locked
            .write(|mut map| {
                let _ = map.insert("a".to_string(), 1);
                (map, 7)
            })
            .unwrap()
    );
    locked.try_write(|mut map| {
        let _ = map.insert("b".to_string(), 2);
        map
    });
    assert_eq!(2, locked.read(|map| map.len()).unwrap());
    assert_eq!(2, locked.len());
    locked.poisoned = true;
    locked.try_write(|_| OrdMap::new());
    assert!(matches!(locked.read(|map| map.len()), Err(Error::Poison)));
    assert!(matches!(locked.write(|map| (map, ())), Err(Error::Poison)));
    assert!(locked.try_guard().is_none());
    assert_eq!(2, locked.map.len());

    let mut caches: PrefixCaches<()> = PrefixCaches::new();
    assert!(caches.try_index().is_some());
    caches.index.poisoned = true;
    assert!(caches.try_index().is_none());
    assert!(matches!(caches.index(), Err(Error::Poison)));
}

#[test]
fn overrides_leave_the_rest() {
    let mut tuning = Tuning::new();
    tuning.apply(CoalesceTuning::default());
    assert_eq!(Tuning::new().coalesce_linger, tuning.coalesce_linger);
    assert_eq!(Tuning::new().prefix_separator, tuning.prefix_separator);
    tuning.apply(CoalesceTuning {
        coalesce_linger: Some(5),
        prefix_separator: Some("-".to_string()),
        ..CoalesceTuning::default()
    });
    assert_eq!(5, tuning.coalesce_linger);
    assert_eq!("-", tuning.prefix_separator);
    assert_eq!(Tuning::new().coalesce_batches, tuning.coalesce_batches);
}

#[test]
fn texts_are_written_and_searched() {
    assert_eq!("0000000042", padded_decimal(42, 10));
    assert_eq!("0000000-42", padded_signed(-42, 10));
    assert_eq!("00ff", hex_of(&[9, 0, 255], 1, 3));
    assert!(contains_str("delete,compact", "compact"));
    assert!(!contains_str("delete", "compact"));
    assert_eq!(Some("a".to_string()), strip_suffix("a.json", ".json"));
    assert_eq!(None, strip_suffix("a.jsn", ".json"));
    let nonces = (0..10).map(|_| fresh_nonce()).collect::<BTreeSet<_>>();
    assert!(nonces.len() > 1);
}
