//! The footer's coordinates, and what pruning leaves of them.

use dynostore::producer::{
    ProducerCoord, ProducerTail, FLAG_CONTROL, FLAG_TRANSACTIONAL, IDEMPOTENT_WINDOW,
};
use dynostore::segment::SubstreamEntry;
use std::collections::BTreeSet;
use std::sync::Arc;

fn entry(base_offset: i64, producers: Vec<ProducerCoord>) -> SubstreamEntry {
    SubstreamEntry {
        topic: Arc::new("org.env.conn.tab_a".to_string()),
        topic_id: None,
        partition: 0,
        base_offset,
        record_count: producers.len() as i64,
        byte_start: 0,
        byte_len: 64,
        max_timestamp: 0,
        producers,
    }
}

fn coord(
    producer_id: i64,
    producer_epoch: i16,
    base_sequence: i32,
    offset_delta: u32,
) -> ProducerCoord {
    ProducerCoord {
        producer_id,
        producer_epoch,
        base_sequence,
        last_sequence: base_sequence,
        offset_delta,
        flags: 0,
    }
}

/// A transaction marker: a real producer and epoch, and no sequence.
fn marker(producer_id: i64, producer_epoch: i16, offset_delta: u32) -> ProducerCoord {
    ProducerCoord {
        producer_id,
        producer_epoch,
        base_sequence: -1,
        last_sequence: -1,
        offset_delta,
        flags: FLAG_CONTROL | FLAG_TRANSACTIONAL,
    }
}

/// The tail of a producer, folded from entries in the order of the log.
fn fold(entries: &[SubstreamEntry], producer_id: i64) -> ProducerTail {
    let mut tail = ProducerTail::default();
    for entry in entries {
        for pc in entry.producers.iter().filter(|pc| pc.folds()) {
            if pc.producer_id == producer_id {
                tail.fold(
                    pc.producer_epoch,
                    pc.base_sequence,
                    pc.last_sequence,
                    entry.base_offset + pc.offset_delta as i64,
                );
            }
        }
    }
    tail
}

fn producer_ids(entries: &[SubstreamEntry]) -> BTreeSet<i64> {
    entries
        .iter()
        .flat_map(|entry| entry.producers.iter())
        .map(|pc| pc.producer_id)
        .collect()
}

fn coord_count(entries: &[SubstreamEntry]) -> usize {
    entries.iter().map(|entry| entry.producers.len()).sum()
}

fn pruned(entries: &[SubstreamEntry]) -> Vec<SubstreamEntry> {
    entries
        .iter()
        .map(|entry| {
            let mut entry = entry.duplicate();
            entry.retain_foldable_producers();
            entry
        })
        .collect()
}

/// Every field of an entry, to be compared.
fn fields(
    entry: &SubstreamEntry,
) -> (
    String,
    Option<u128>,
    i32,
    i64,
    i64,
    u64,
    u64,
    i64,
    Vec<ProducerCoord>,
) {
    (
        entry.topic.to_string(),
        entry.topic_id,
        entry.partition,
        entry.base_offset,
        entry.record_count,
        entry.byte_start,
        entry.byte_len,
        entry.max_timestamp,
        entry.producers.clone(),
    )
}

/// Every shape that pruning has to be exact on, as a whole sub-stream in the order of
/// the log: the tail that an entry is met with, and the entries that follow it, are
/// part of what could go wrong.
fn cases() -> Vec<(&'static str, Vec<SubstreamEntry>)> {
    vec![
        (
            "a compacted region: one producer, far more batches than the window",
            vec![entry(
                0,
                (0..40).map(|n| coord(7, 3, n, n as u32)).collect(),
            )],
        ),
        (
            "the window spans entries: the tail is not wholly in the newest one",
            (0..8)
                .map(|n| {
                    entry(
                        n * 3,
                        vec![coord(7, 3, n as i32, 0), coord(7, 3, n as i32 + 100, 1)],
                    )
                })
                .collect(),
        ),
        (
            "markers interleaved with transactional data",
            vec![entry(
                0,
                vec![
                    coord(7, 1, 0, 0),
                    marker(7, 1, 1),
                    coord(7, 1, 1, 2),
                    marker(7, 1, 3),
                ],
            )],
        ),
        (
            "a marker is the only coordinate: the tail must stay unseen",
            vec![entry(0, vec![marker(7, 1, 0)])],
        ),
        (
            "markers must not eat window slots: more than five data batches, \
             each followed by one",
            vec![entry(
                0,
                (0..8)
                    .flat_map(|n| [coord(7, 1, n, n as u32 * 2), marker(7, 1, n as u32 * 2 + 1)])
                    .collect(),
            )],
        ),
        (
            "a marker at a higher epoch than the data does not fence the data",
            vec![entry(
                0,
                vec![coord(7, 1, 0, 0), coord(7, 1, 1, 1), marker(7, 2, 2)],
            )],
        ),
        (
            "an epoch bump inside one entry clears what preceded it",
            vec![entry(
                0,
                vec![
                    coord(7, 1, 0, 0),
                    coord(7, 1, 1, 1),
                    coord(7, 2, 0, 2),
                    coord(7, 2, 1, 3),
                ],
            )],
        ),
        (
            "a fenced writer's coordinate lands after the higher epoch",
            vec![entry(
                0,
                vec![coord(7, 4, 0, 0), coord(7, 2, 9, 1), coord(7, 4, 1, 2)],
            )],
        ),
        (
            "the epoch bumps in a later entry, after the earlier one filled the window",
            vec![
                entry(0, (0..7).map(|n| coord(7, 1, n, n as u32)).collect()),
                entry(7, vec![coord(7, 5, 0, 0)]),
            ],
        ),
        (
            "an entry wholly below the tail's epoch changes nothing",
            vec![
                entry(0, vec![coord(7, 6, 0, 0)]),
                entry(1, (0..9).map(|n| coord(7, 2, n, n as u32)).collect()),
                entry(10, vec![coord(7, 6, 1, 0)]),
            ],
        ),
        (
            "three producers sharing a region, one of them fenced mid-entry",
            vec![
                entry(
                    0,
                    vec![
                        coord(1, 0, 0, 0),
                        coord(2, 0, 0, 1),
                        coord(1, 0, 1, 2),
                        coord(3, 7, 40, 3),
                        coord(2, 1, 0, 4),
                        coord(2, 0, 1, 5),
                    ],
                ),
                entry(
                    6,
                    (0..12)
                        .map(|n| coord(1 + (n % 3), 1, n as i32, n as u32))
                        .collect(),
                ),
            ],
        ),
        ("nothing idempotent at all", vec![entry(0, vec![])]),
    ]
}

/// For every producer, the tail folded from the pruned entries is the tail folded
/// from the complete ones, window and all.
#[test]
fn pruning_the_resident_coordinates_cannot_change_the_fold() {
    for (what, entries) in cases() {
        let pruned = pruned(&entries);

        for producer_id in producer_ids(&entries) {
            assert_eq!(
                fold(&entries, producer_id),
                fold(&pruned, producer_id),
                "{what}: producer {producer_id}"
            );
        }
    }
}

/// A second pass is a no-op.
#[test]
fn pruning_twice_prunes_no_further() {
    for (what, entries) in cases() {
        let once = pruned(&entries);
        let twice = pruned(&once);
        assert_eq!(
            once.iter().map(fields).collect::<Vec<_>>(),
            twice.iter().map(fields).collect::<Vec<_>>(),
            "{what}"
        );
    }
}

/// What an entry retains does not depend on how much log was merged into it.
#[test]
fn what_is_retained_is_bounded_by_the_window_not_by_the_history() {
    for (what, entries) in cases() {
        let pruned = pruned(&entries);
        assert!(coord_count(&pruned) <= coord_count(&entries), "{what}");

        for entry in &pruned {
            let ids = entry
                .producers
                .iter()
                .map(|pc| pc.producer_id)
                .collect::<BTreeSet<_>>();
            assert!(
                entry.producers.len() <= IDEMPOTENT_WINDOW * ids.len(),
                "{what}: {} coordinates for {} producers",
                entry.producers.len(),
                ids.len()
            );
        }
    }

    let compacted = vec![entry(
        0,
        (0..40).map(|n| coord(7, 3, n, n as u32)).collect(),
    )];
    assert_eq!(
        IDEMPOTENT_WINDOW,
        coord_count(&pruned(&compacted)),
        "a pruner that quietly became a no-op passes every equivalence above"
    );
}
