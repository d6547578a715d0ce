//! The decisions of a log store kept on an object store.
//!
//! Topics sharing a *prefix* are written together into immutable *segment*
//! objects, each ending in a self-describing footer. This crate holds what the
//! store decides and computes: the segment format, the in-memory index of
//! footers, offset assignment and idempotent deduplication, the fetch and
//! compaction plans, and the process-local caches. It performs no I/O: what is
//! read from, or written to, the object store crosses the boundary as plain
//! values.

pub mod assign;
pub mod buffer;
pub mod clock;
pub mod coalesced;
pub mod codec;
pub mod codec_laws;
pub mod committed;
pub mod compact;
pub mod config;
pub mod coverage;
pub mod drain;
pub mod encode;
pub mod error;
pub mod expire;
pub mod fence;
pub mod fetch;
pub mod flush;
pub mod frame;
pub mod groups;
pub mod index;
pub mod key_class;
pub mod lease;
pub mod leaseless;
pub mod locked;
pub mod maintain;
pub mod members;
pub mod memo;
pub mod merge;
pub mod metron;
pub mod object;
pub mod offsets;
pub mod opticon;
pub mod ordmap;
pub mod path;
pub mod perkey;
pub mod prefixes;
pub mod principals;
pub mod probe;
pub mod producer;
pub mod random;
pub mod readback;
pub mod recent;
pub mod refresh;
pub mod regions;
pub mod reindex;
pub mod replay;
pub mod retain;
pub mod segment;
pub mod select;
pub mod store;
pub mod sweep;
pub mod text;
pub mod topics;
pub mod trace;
pub mod walk;
pub mod wire;
