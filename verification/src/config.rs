//! What a store is configured with. Durations are milliseconds.

use crate::codec::SEGMENT_FORMAT_VERSION_V3;
use vstd::prelude::*;
use vstd::string::*;

verus! {

/// The largest record batch accepted, in wire bytes.
pub const MESSAGE_MAX_BYTES: usize = 1_048_588;

/// The term of a prefix lease.
pub const PREFIX_LEASE_TTL: u64 = 30_000;

/// How long a produce waits for others to share its segment.
pub const COALESCE_LINGER: u64 = 100;

/// Batches after which a pending segment is flushed.
pub const COALESCE_BATCHES: usize = 64;

/// Bytes after which a pending segment is flushed.
pub const COALESCE_BYTES: usize = 1_048_576;

/// Records that a pending segment holds at most.
pub const COALESCE_MAX_RECORDS: u64 = 65_536;

/// Bytes after which a pending segment is flushed while its prefix is
/// backfilling.
pub const BACKFILL_COALESCE_BYTES: usize = 8_388_608;

/// Records from which on a pending segment counts as a backfill.
pub const PREFIX_BACKFILL_MIN_RECORDS: u64 = 4_096;

/// Upper bound on one fetch response.
pub const DEFAULT_FETCH_MAX_BYTES: u32 = 5_242_880;

/// How long the high-watermark view is served from memory.
pub const HIGH_WATERMARK_HINT_TTL: u64 = 5_000;

/// How long an index is followed by its tail alone before the whole prefix is
/// listed again.
pub const PREFIX_INDEX_RECONCILE_INTERVAL: u64 = 300_000;

/// How many leading components of a topic name form its prefix.
pub const PREFIX_DEPTH: usize = 3;

/// What separates the components of a topic name.
pub const PREFIX_SEPARATOR: &'static str = ".";

/// Segments of a prefix from which on it is compacted.
pub const PREFIX_COMPACT_MIN_SEGMENTS: usize = 256;

/// Bytes that a merged segment is to hold.
pub const PREFIX_COMPACT_TARGET_BYTES: usize = 16_777_216;

/// The newest segments of a prefix that are not compacted.
pub const PREFIX_COMPACT_KEEP_HOT: usize = 16;

/// Keys of a partition that the per-key pass tells apart at most.
pub const PREFIX_COMPACT_SEEN_KEYS: usize = 1_000_000;

/// How long a prefix that was maintained is left alone by others.
pub const MAINTENANCE_RECENCY: u64 = 0;

/// How long a flush tries to win a sequence.
pub const FLUSH_MAX_ELAPSED: u64 = 10_000;

/// Attempts that a flush makes whatever the time.
pub const MIN_FLUSH_ATTEMPTS: u32 = 4;

/// Who a store is: the cluster it serves, the broker it answers as, and the
/// process it runs in.
#[derive(Clone, Debug)]
pub struct StoreIdentity {
    /// The cluster that every object path is rooted at.
    pub cluster: String,
    pub node: i32,
    pub advertised_listener: String,
    /// This process, as it signs a lease.
    pub writer_id: String,
    /// What the order of maintenance is shuffled by.
    pub maintenance_seed: u64,
}

/// Every value that a deployment configures a store with.
#[derive(Debug)]
pub struct Tuning {
    pub message_max_bytes: usize,
    pub prefix_lease_ttl: u64,
    pub coalesce_linger: u64,
    pub coalesce_batches: usize,
    pub coalesce_bytes: usize,
    pub fetch_max_bytes: u32,
    pub watermark_hint_ttl: u64,
    pub prefix_depth: usize,
    pub prefix_separator: String,
    pub segment_format_version: u16,
    pub prefix_compact_min_segments: usize,
    pub prefix_compact_target_bytes: usize,
    pub prefix_compact_keep_hot: usize,
    pub prefix_compact_seen_keys: usize,
    pub maintenance_recency: u64,
    pub flush_max_elapsed: u64,
}

/// Overrides of a store's tuning.
#[derive(Debug)]
pub struct CoalesceTuning {
    pub coalesce_linger: Option<u64>,
    pub coalesce_batches: Option<usize>,
    pub coalesce_bytes: Option<usize>,
    pub fetch_max_bytes: Option<u32>,
    pub prefix_compact_min_segments: Option<usize>,
    pub prefix_compact_target_bytes: Option<usize>,
    pub prefix_compact_keep_hot: Option<usize>,
    pub prefix_compact_seen_keys: Option<usize>,
    pub maintenance_recency: Option<u64>,
    pub flush_max_elapsed: Option<u64>,
    pub watermark_hint_ttl: Option<u64>,
    pub segment_format_version: Option<u16>,
    pub prefix_depth: Option<usize>,
    pub prefix_separator: Option<String>,
}

/// The override where there is one, else what stands.
pub open spec fn taken<T>(over: Option<T>, current: T) -> T {
    match over {
        Some(value) => value,
        None => current,
    }
}

impl Default for CoalesceTuning {
    /// Overrides that state nothing.
    fn default() -> (overrides: Self)
        ensures
            overrides.states_nothing(),
    {
        CoalesceTuning {
            coalesce_linger: None,
            coalesce_batches: None,
            coalesce_bytes: None,
            fetch_max_bytes: None,
            prefix_compact_min_segments: None,
            prefix_compact_target_bytes: None,
            prefix_compact_keep_hot: None,
            prefix_compact_seen_keys: None,
            maintenance_recency: None,
            flush_max_elapsed: None,
            watermark_hint_ttl: None,
            segment_format_version: None,
            prefix_depth: None,
            prefix_separator: None,
        }
    }
}

impl CoalesceTuning {
    /// Whether no override is stated.
    pub open spec fn states_nothing(self) -> bool {
        &&& self.coalesce_linger is None
        &&& self.coalesce_batches is None
        &&& self.coalesce_bytes is None
        &&& self.fetch_max_bytes is None
        &&& self.prefix_compact_min_segments is None
        &&& self.prefix_compact_target_bytes is None
        &&& self.prefix_compact_keep_hot is None
        &&& self.prefix_compact_seen_keys is None
        &&& self.maintenance_recency is None
        &&& self.flush_max_elapsed is None
        &&& self.watermark_hint_ttl is None
        &&& self.segment_format_version is None
        &&& self.prefix_depth is None
        &&& self.prefix_separator is None
    }
}

impl Tuning {
    /// This tuning under overrides.
    pub open spec fn overridden(self, overrides: CoalesceTuning) -> Tuning {
        Tuning {
            coalesce_linger: taken(overrides.coalesce_linger, self.coalesce_linger),
            coalesce_batches: taken(overrides.coalesce_batches, self.coalesce_batches),
            coalesce_bytes: taken(overrides.coalesce_bytes, self.coalesce_bytes),
            fetch_max_bytes: taken(overrides.fetch_max_bytes, self.fetch_max_bytes),
            prefix_compact_min_segments: taken(
                overrides.prefix_compact_min_segments,
                self.prefix_compact_min_segments,
            ),
            prefix_compact_target_bytes: taken(
                overrides.prefix_compact_target_bytes,
                self.prefix_compact_target_bytes,
            ),
            prefix_compact_keep_hot: taken(
                overrides.prefix_compact_keep_hot,
                self.prefix_compact_keep_hot,
            ),
            prefix_compact_seen_keys: taken(
                overrides.prefix_compact_seen_keys,
                self.prefix_compact_seen_keys,
            ),
            maintenance_recency: taken(overrides.maintenance_recency, self.maintenance_recency),
            flush_max_elapsed: taken(overrides.flush_max_elapsed, self.flush_max_elapsed),
            watermark_hint_ttl: taken(overrides.watermark_hint_ttl, self.watermark_hint_ttl),
            segment_format_version: taken(
                overrides.segment_format_version,
                self.segment_format_version,
            ),
            prefix_depth: taken(overrides.prefix_depth, self.prefix_depth),
            prefix_separator: taken(overrides.prefix_separator, self.prefix_separator),
            ..self
        }
    }

    /// Take every override that is stated, and leave the rest as they are.
    pub fn apply(&mut self, overrides: CoalesceTuning)
        ensures
            *final(self) == old(self).overridden(overrides),
    {
        if let Some(value) = overrides.coalesce_linger {
            self.coalesce_linger = value;
        }
        if let Some(value) = overrides.coalesce_batches {
            self.coalesce_batches = value;
        }
        if let Some(value) = overrides.coalesce_bytes {
            self.coalesce_bytes = value;
        }
        if let Some(value) = overrides.fetch_max_bytes {
            self.fetch_max_bytes = value;
        }
        if let Some(value) = overrides.prefix_compact_min_segments {
            self.prefix_compact_min_segments = value;
        }
        if let Some(value) = overrides.prefix_compact_target_bytes {
            self.prefix_compact_target_bytes = value;
        }
        if let Some(value) = overrides.prefix_compact_keep_hot {
            self.prefix_compact_keep_hot = value;
        }
        if let Some(value) = overrides.prefix_compact_seen_keys {
            self.prefix_compact_seen_keys = value;
        }
        if let Some(value) = overrides.maintenance_recency {
            self.maintenance_recency = value;
        }
        if let Some(value) = overrides.flush_max_elapsed {
            self.flush_max_elapsed = value;
        }
        if let Some(value) = overrides.watermark_hint_ttl {
            self.watermark_hint_ttl = value;
        }
        if let Some(value) = overrides.segment_format_version {
            self.segment_format_version = value;
        }
        if let Some(value) = overrides.prefix_depth {
            self.prefix_depth = value;
        }
        if let Some(value) = overrides.prefix_separator {
            self.prefix_separator = value;
        }
    }

    /// The defaults: what a store runs with that nothing is overridden for.
    pub fn new() -> (tuning: Self)
        ensures
            tuning.message_max_bytes == MESSAGE_MAX_BYTES,
            tuning.prefix_lease_ttl == PREFIX_LEASE_TTL,
            tuning.coalesce_linger == COALESCE_LINGER,
            tuning.coalesce_batches == COALESCE_BATCHES,
            tuning.coalesce_bytes == COALESCE_BYTES,
            tuning.fetch_max_bytes == DEFAULT_FETCH_MAX_BYTES,
            tuning.watermark_hint_ttl == HIGH_WATERMARK_HINT_TTL,
            tuning.prefix_depth == PREFIX_DEPTH,
            tuning.prefix_separator@ == PREFIX_SEPARATOR@,
            tuning.segment_format_version == SEGMENT_FORMAT_VERSION_V3,
            tuning.prefix_compact_min_segments == PREFIX_COMPACT_MIN_SEGMENTS,
            tuning.prefix_compact_target_bytes == PREFIX_COMPACT_TARGET_BYTES,
            tuning.prefix_compact_keep_hot == PREFIX_COMPACT_KEEP_HOT,
            tuning.prefix_compact_seen_keys == PREFIX_COMPACT_SEEN_KEYS,
            tuning.maintenance_recency == MAINTENANCE_RECENCY,
            tuning.flush_max_elapsed == FLUSH_MAX_ELAPSED,
    {
        Tuning {
            message_max_bytes: MESSAGE_MAX_BYTES,
            prefix_lease_ttl: PREFIX_LEASE_TTL,
            coalesce_linger: COALESCE_LINGER,
            coalesce_batches: COALESCE_BATCHES,
            coalesce_bytes: COALESCE_BYTES,
            fetch_max_bytes: DEFAULT_FETCH_MAX_BYTES,
            watermark_hint_ttl: HIGH_WATERMARK_HINT_TTL,
            prefix_depth: PREFIX_DEPTH,
            prefix_separator: String::from_str(PREFIX_SEPARATOR),
            segment_format_version: SEGMENT_FORMAT_VERSION_V3,
            prefix_compact_min_segments: PREFIX_COMPACT_MIN_SEGMENTS,
            prefix_compact_target_bytes: PREFIX_COMPACT_TARGET_BYTES,
            prefix_compact_keep_hot: PREFIX_COMPACT_KEEP_HOT,
            prefix_compact_seen_keys: PREFIX_COMPACT_SEEN_KEYS,
            maintenance_recency: MAINTENANCE_RECENCY,
            flush_max_elapsed: FLUSH_MAX_ELAPSED,
        }
    }
}

/// Overrides that state nothing change nothing.
pub proof fn stating_nothing_changes_nothing(tuning: Tuning, overrides: CoalesceTuning)
    requires
        overrides.states_nothing(),
    ensures
        tuning.overridden(overrides) == tuning,
{
}

/// What an override states is taken, and what it does not state stands.
pub proof fn an_override_is_taken(tuning: Tuning, overrides: CoalesceTuning)
    ensures
        ({
            let after = tuning.overridden(overrides);
            &&& after.coalesce_linger == if overrides.coalesce_linger is Some {
                overrides.coalesce_linger->0
            } else {
                tuning.coalesce_linger
            }
            &&& after.coalesce_batches == if overrides.coalesce_batches is Some {
                overrides.coalesce_batches->0
            } else {
                tuning.coalesce_batches
            }
            &&& after.coalesce_bytes == if overrides.coalesce_bytes is Some {
                overrides.coalesce_bytes->0
            } else {
                tuning.coalesce_bytes
            }
            &&& after.fetch_max_bytes == if overrides.fetch_max_bytes is Some {
                overrides.fetch_max_bytes->0
            } else {
                tuning.fetch_max_bytes
            }
            &&& after.prefix_compact_min_segments
                == if overrides.prefix_compact_min_segments is Some {
                overrides.prefix_compact_min_segments->0
            } else {
                tuning.prefix_compact_min_segments
            }
            &&& after.prefix_compact_target_bytes
                == if overrides.prefix_compact_target_bytes is Some {
                overrides.prefix_compact_target_bytes->0
            } else {
                tuning.prefix_compact_target_bytes
            }
            &&& after.prefix_compact_keep_hot == if overrides.prefix_compact_keep_hot is Some {
                overrides.prefix_compact_keep_hot->0
            } else {
                tuning.prefix_compact_keep_hot
            }
            &&& after.prefix_compact_seen_keys == if overrides.prefix_compact_seen_keys is Some {
                overrides.prefix_compact_seen_keys->0
            } else {
                tuning.prefix_compact_seen_keys
            }
            &&& after.maintenance_recency == if overrides.maintenance_recency is Some {
                overrides.maintenance_recency->0
            } else {
                tuning.maintenance_recency
            }
            &&& after.flush_max_elapsed == if overrides.flush_max_elapsed is Some {
                overrides.flush_max_elapsed->0
            } else {
                tuning.flush_max_elapsed
            }
            &&& after.watermark_hint_ttl == if overrides.watermark_hint_ttl is Some {
                overrides.watermark_hint_ttl->0
            } else {
                tuning.watermark_hint_ttl
            }
            &&& after.segment_format_version == if overrides.segment_format_version is Some {
                overrides.segment_format_version->0
            } else {
                tuning.segment_format_version
            }
            &&& after.prefix_depth == if overrides.prefix_depth is Some {
                overrides.prefix_depth->0
            } else {
                tuning.prefix_depth
            }
            &&& after.prefix_separator == if overrides.prefix_separator is Some {
                overrides.prefix_separator->0
            } else {
                tuning.prefix_separator
            }
            &&& after.prefix_lease_ttl == tuning.prefix_lease_ttl
        }),
{
}

} // verus!
