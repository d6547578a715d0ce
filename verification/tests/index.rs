//! The index of a prefix, and what its listings say.

use dynostore::index::{CachedSegment, PrefixIndex};
use dynostore::refresh::listed_population;
use dynostore::segment::{SegmentFooter, Substream, SubstreamEntry, SubstreamKey};
use std::collections::BTreeMap;
use std::sync::Arc;
use uuid::Uuid;

/// A listing of the whole prefix gives its population.
#[test]
fn a_whole_prefix_listing_reports_what_it_found() {
    assert_eq!(Some(826), listed_population(826, true));
}

/// An empty listing of the whole prefix is an answer as well.
#[test]
fn an_empty_whole_prefix_listing_reports_zero() {
    assert_eq!(Some(0), listed_population(0, true));
}

/// A listing of the tail says nothing of the whole.
#[test]
fn an_incremental_listing_has_no_population_to_report() {
    assert_eq!(None, listed_population(3, false));
}

fn entry(topic: &str, topic_id: Option<Uuid>, partition: i32, base: i64) -> SubstreamEntry {
    SubstreamEntry {
        topic: Arc::new(topic.to_string()),
        topic_id: topic_id.map(|id| id.as_u128()),
        partition,
        base_offset: base,
        record_count: 10,
        byte_start: 0,
        byte_len: 64,
        max_timestamp: 0,
        producers: vec![],
    }
}

fn segment(writer_epoch: i64, entries: Vec<SubstreamEntry>) -> CachedSegment {
    CachedSegment {
        footer: SegmentFooter {
            writer_epoch,
            nonce: 0,
            entries,
        },
        last_modified_ms: 0,
    }
}

/// A sub-stream as a value that has an order.
fn plain(substream: &Substream) -> (Option<u128>, Option<String>) {
    match substream {
        Substream::Id(id) => (Some(*id), None),
        Substream::Name(name) => (None, Some(name.clone())),
    }
}

type Positions = BTreeMap<((Option<u128>, Option<String>), i32), Vec<(u64, u32)>>;

/// What the index must say at all times, the slow way.
fn derived(index: &PrefixIndex) -> Positions {
    let mut out: Positions = BTreeMap::new();
    for (seq, cached) in &index.segments.entries {
        for (position, entry) in cached.footer.entries.iter().enumerate() {
            out.entry((plain(&entry.substream()), entry.partition))
                .or_default()
                .push((*seq, position as u32));
        }
    }
    for seqs in out.values_mut() {
        seqs.sort_unstable();
    }
    out
}

fn assert_in_step(index: &PrefixIndex) {
    let held = index
        .by_substream
        .entries
        .iter()
        .map(|(key, seqs)| ((plain(&key.substream), key.partition), seqs.clone()))
        .collect::<Positions>();
    assert_eq!(derived(index), held);
}

fn name_key(name: &str, partition: i32) -> SubstreamKey {
    SubstreamKey {
        substream: Substream::Name(name.to_string()),
        partition,
    }
}

#[test]
fn the_substream_map_tracks_every_mutation() {
    let id = Uuid::new_v4();
    let mut index = PrefixIndex::default();
    assert_in_step(&index);

    index.insert_segment(
        1,
        segment(
            7,
            vec![
                entry("alpha", None, 0, 0),
                entry("alpha", None, 1, 0),
                entry("beta", Some(id), 0, 0),
            ],
        ),
    );
    index.insert_segment(2, segment(7, vec![entry("alpha", None, 0, 10)]));
    index.insert_segment(3, segment(7, vec![entry("beta", Some(id), 0, 10)]));
    assert_in_step(&index);

    // A replacement takes back what the footer before it added.
    index.insert_segment(
        2,
        segment(
            9,
            vec![entry("beta", Some(id), 0, 10), entry("alpha", None, 0, 10)],
        ),
    );
    assert_in_step(&index);
    assert_eq!(
        index
            .substream_entries(&Substream::Name("alpha".into()), 0)
            .into_iter()
            .map(|(seq, epoch, _)| (seq, epoch))
            .collect::<Vec<_>>(),
        vec![(1, 7), (2, 9)]
    );

    assert_eq!(index.retain_segments(|seq| seq != 3), 1);
    assert_in_step(&index);

    assert_eq!(index.retain_segments(|seq| seq != 1), 1);
    assert_in_step(&index);

    // Nothing is left of this partition, so there is no key for it.
    assert!(!index.by_substream.contains(&name_key("alpha", 1)));
}

#[test]
fn a_name_never_reaches_an_id_keyed_entry_of_the_same_name() {
    let id = Uuid::new_v4();
    let mut index = PrefixIndex::default();

    index.insert_segment(
        1,
        segment(
            1,
            vec![entry("shared", None, 0, 0), entry("shared", Some(id), 0, 0)],
        ),
    );

    assert_eq!(
        index
            .substream_entries(&Substream::Name("shared".into()), 0)
            .into_iter()
            .map(|(seq, _, e)| (seq, e.topic_id))
            .collect::<Vec<_>>(),
        vec![(1, None)]
    );
    assert_eq!(
        index
            .substream_entries(&Substream::Id(id.as_u128()), 0)
            .into_iter()
            .map(|(seq, _, e)| (seq, e.topic_id))
            .collect::<Vec<_>>(),
        vec![(1, Some(id.as_u128()))]
    );
}

#[test]
fn an_absent_substream_touches_no_segment() {
    let mut index = PrefixIndex::default();
    for seq in 0..64 {
        index.insert_segment(
            seq,
            segment(1, vec![entry("held", None, 0, seq as i64 * 10)]),
        );
    }

    assert_eq!(
        index
            .substream_entries(&Substream::Name("never-written".into()), 0)
            .len(),
        0
    );
    assert!(!index.by_substream.contains(&name_key("never-written", 0)));
}

/// Every entry of a topic names it through one allocation.
#[test]
fn every_entry_naming_a_topic_shares_one_allocation() {
    let mut index = PrefixIndex::default();

    for seq in 0..8 {
        index.insert_segment(
            seq,
            segment(
                1,
                vec![
                    entry("alpha", None, 0, seq as i64 * 10),
                    entry("alpha", None, 1, seq as i64 * 10),
                    entry("beta", None, 0, seq as i64 * 10),
                ],
            ),
        );
    }

    let names: Vec<&Arc<String>> = index
        .segments
        .entries
        .iter()
        .flat_map(|(_, cached)| cached.footer.entries.iter())
        .filter(|entry| entry.topic.as_str() == "alpha")
        .map(|entry| &entry.topic)
        .collect();

    assert_eq!(names.len(), 16);
    assert!(names.iter().all(|name| Arc::ptr_eq(name, names[0])));
    assert_eq!(names[0].as_str(), "alpha");

    // Two topics, however many entries.
    assert_eq!(index.topic_names.len(), 2);
}

/// A prefix outlives its topics, and forgets their names.
#[test]
fn a_topic_with_no_entries_left_keeps_no_name() {
    let mut index = PrefixIndex::default();

    index.insert_segment(1, segment(1, vec![entry("alpha", None, 0, 0)]));
    index.insert_segment(2, segment(1, vec![entry("beta", None, 0, 0)]));
    index.insert_segment(3, segment(1, vec![entry("alpha", None, 0, 10)]));

    assert_eq!(index.topic_names.len(), 2);

    assert_eq!(index.retain_segments(|seq| seq != 2), 1);

    let mut held: Vec<&str> = index
        .topic_names
        .entries
        .iter()
        .map(|(name, _)| name.as_str())
        .collect();
    held.sort_unstable();
    assert_eq!(held, vec!["alpha"]);

    assert_eq!(index.retain_segments(|_| false), 2);
    assert_eq!(index.topic_names.len(), 0);
}

/// A name that something else holds stays until the sweep after it was let go.
#[test]
fn a_shared_name_outlasts_its_entries() {
    let mut index = PrefixIndex::default();
    index.insert_segment(1, segment(1, vec![entry("alpha", None, 0, 0)]));
    index.insert_segment(2, segment(1, vec![entry("beta", None, 0, 0)]));
    let shared = index.segments.get(&1).unwrap().footer.entries[0].topic.clone();

    assert_eq!(index.retain_segments(|_| false), 2);
    assert_eq!(index.topic_names.len(), 1);
    assert!(Arc::ptr_eq(&shared, &index.topic_names.entries[0].0));

    // It is adopted again.
    index.insert_segment(3, segment(1, vec![entry("alpha", None, 0, 10)]));
    assert!(Arc::ptr_eq(
        &shared,
        &index.segments.get(&3).unwrap().footer.entries[0].topic
    ));
    drop(shared);
    assert_eq!(index.retain_segments(|_| false), 1);
    assert_eq!(index.topic_names.len(), 0);

    // By counts that are given.
    index.insert_segment(4, segment(1, vec![entry("a", None, 0, 0)]));
    index.insert_segment(5, segment(1, vec![entry("b", None, 0, 0)]));
    let _ = index.segments.remove(&5);
    index.keep_held_names(&vec![1, 2]);
    assert_eq!(index.topic_names.len(), 2);
    index.keep_held_names(&vec![1, 1]);
    assert_eq!(index.topic_names.len(), 1);
}

/// The sequences of an index come out in order, whatever the order they came in.
#[test]
fn the_order_of_arrival_is_no_order_of_the_index() {
    let mut index = PrefixIndex::default();
    for seq in [5, 1, 3] {
        index.insert_segment(seq, segment(1, vec![entry("t", None, 0, seq as i64)]));
    }
    assert_eq!(
        index
            .substream_entries(&Substream::Name("t".into()), 0)
            .into_iter()
            .map(|(seq, _, _)| seq)
            .collect::<Vec<_>>(),
        vec![1, 3, 5]
    );
    assert_eq!(index.resolved_max(), Some(5));
}
