//! Writing a segment: the regions of its sub-streams, the footer that indexes
//! them and the trailer.

use crate::codec::{footer_bytes, trailer_bytes, SEGMENT_FORMAT_VERSION_V4, SEGMENT_MAGIC};
use crate::error::{Error, ErrorCode};
use crate::producer::{ProducerCoord, FLAG_CONTROL, FLAG_TRANSACTIONAL};
use crate::segment::{
    batches_view, entries_view, region_bytes, span_of, writes_view, Batch, DivergentBatch, Entry,
    Footer, Identity, RecordBatch, SegmentFooter, SubstreamEntry, SubstreamWrite, Write,
};
use crate::store::DynoStore;
use crate::wire::{put_all, put_be};
use std::sync::Arc;
use vstd::prelude::*;
use vstd::string::*;

verus! {

/// The greatest record timestamp of a run of batches.
pub open spec fn newest_of(batches: Seq<RecordBatch>) -> i64
    decreases batches.len(),
{
    if batches.len() == 0 {
        i64::MIN
    } else {
        let before = newest_of(batches.drop_last());
        if batches.last().max_timestamp > before {
            batches.last().max_timestamp
        } else {
            before
        }
    }
}

/// The flags of a batch's coordinate.
pub open spec fn flags_of(batch: RecordBatch) -> u8 {
    match (batch.transactional, batch.control) {
        (true, true) => 3,
        (true, false) => FLAG_TRANSACTIONAL,
        (false, true) => FLAG_CONTROL,
        (false, false) => 0,
    }
}

/// The coordinate of a batch that begins `offset` records into its region.
pub open spec fn coord_of(batch: RecordBatch, offset: int) -> ProducerCoord {
    ProducerCoord {
        producer_id: batch.producer_id,
        producer_epoch: batch.producer_epoch,
        base_sequence: batch.base_sequence,
        last_sequence: batch.base_sequence.wrapping_add(batch.last_offset_delta),
        offset_delta: offset as u32,
        flags: flags_of(batch),
    }
}

/// The coordinates of a run of batches, in the order of their offsets: one of
/// each idempotent, transactional or control batch.
pub open spec fn coords_of(batches: Seq<RecordBatch>) -> Seq<ProducerCoord>
    decreases batches.len(),
{
    if batches.len() == 0 {
        Seq::empty()
    } else {
        let before = batches.drop_last();
        if batches.last().is_indexed() {
            coords_of(before).push(coord_of(batches.last(), span_of(before)))
        } else {
            coords_of(before)
        }
    }
}

/// The regions of the sub-streams, end to end.
pub open spec fn body_of(writes: Seq<Write>) -> Seq<u8>
    decreases writes.len(),
{
    if writes.len() == 0 {
        Seq::empty()
    } else {
        body_of(writes.drop_last()) + region_bytes(writes.last().batches)
    }
}

/// The footer entry of a sub-stream whose region begins at `start`.
pub open spec fn entry_of(write: Write, start: nat) -> Entry {
    Entry {
        topic: write.topic,
        topic_id: match write.identity {
            Identity::Id(id) => Some(id),
            Identity::Name(_) => None,
        },
        partition: write.partition,
        base_offset: write.base_offset,
        record_count: span_of(write.batches) as i64,
        byte_start: start as u64,
        byte_len: region_bytes(write.batches).len() as u64,
        max_timestamp: newest_of(write.batches),
        producers: coords_of(write.batches),
    }
}

/// The footer entries of the sub-streams that hold a batch.
pub open spec fn entries_of(writes: Seq<Write>) -> Seq<Entry>
    decreases writes.len(),
{
    if writes.len() == 0 {
        Seq::empty()
    } else {
        let before = writes.drop_last();
        if writes.last().batches.len() == 0 {
            entries_of(before)
        } else {
            entries_of(before).push(entry_of(writes.last(), body_of(before).len()))
        }
    }
}

/// Why a segment is not written.
pub enum Refusal {
    /// A sub-stream keyed by an id has no place in a format without ids.
    IdWithoutPlace,
    /// This batch of this sub-stream misdeclares its own length.
    Divergent { write: Write, index: nat },
}

/// The first batch of a run that misdeclares its own length.
pub open spec fn first_divergent(batches: Seq<RecordBatch>) -> Option<nat>
    decreases batches.len(),
{
    if batches.len() == 0 {
        None
    } else {
        match first_divergent(batches.drop_last()) {
            Some(index) => Some(index),
            None => if batches.last().declares_its_own_length() {
                None
            } else {
                Some((batches.len() - 1) as nat)
            },
        }
    }
}

/// Why a sub-stream is not written, if it is not.
pub open spec fn refusal_of(write: Write, version: u16) -> Option<Refusal> {
    if write.batches.len() == 0 {
        None
    } else if version < SEGMENT_FORMAT_VERSION_V4 && write.identity is Id {
        Some(Refusal::IdWithoutPlace)
    } else {
        match first_divergent(write.batches) {
            Some(index) => Some(Refusal::Divergent { write, index }),
            None => None,
        }
    }
}

/// The first reason not to write the sub-streams, if there is one.
pub open spec fn refusal(writes: Seq<Write>, version: u16) -> Option<Refusal>
    decreases writes.len(),
{
    if writes.len() == 0 {
        None
    } else {
        match refusal(writes.drop_last(), version) {
            Some(first) => Some(first),
            None => refusal_of(writes.last(), version),
        }
    }
}

/// Whether `error` is the answer to the refusal.
pub open spec fn answers(error: Error, refusal: Option<Refusal>) -> bool {
    match (error, refusal) {
        (Error::Api(code), Some(Refusal::IdWithoutPlace)) => code == ErrorCode::KafkaStorageError,
        (Error::DivergentBatch(divergent), Some(Refusal::Divergent { write, index })) => {
            let batch = write.batches[index as int];
            &&& divergent.topic@ == write.topic
            &&& divergent.partition == write.partition
            &&& divergent.base_offset == write.base_offset
            &&& divergent.index == index
            &&& divergent.declared == batch.batch_length
            &&& divergent.encoded == if batch.body.len() <= i32::MAX {
                batch.body.len() as int
            } else {
                -1
            }
            &&& divergent.magic == batch.magic
            &&& divergent.record_data_len == batch.record_data_len
        },
        _ => false,
    }
}

/// The footer of a segment.
pub open spec fn footer_of(writes: Seq<Write>, writer_epoch: i64, nonce: u64) -> Footer {
    Footer { writer_epoch, nonce, entries: entries_of(writes) }
}

/// The segment object.
pub open spec fn segment_of(writes: Seq<Write>, writer_epoch: i64, nonce: u64, version: u16) -> Seq<
    u8,
> {
    let footer = footer_of(writes, writer_epoch, nonce);
    let bytes = footer_bytes(footer, version);
    body_of(writes) + bytes + trailer_bytes(bytes.len(), footer.entries.len(), version)
}

/// Whether the offsets of every sub-stream can be counted.
pub open spec fn countable(writes: Seq<Write>) -> bool {
    forall|i: int|
        #![trigger writes[i]]
        0 <= i < writes.len() ==> writes[i].batches.len() <= u32::MAX
}

pub proof fn lemma_span_bound(batches: Seq<RecordBatch>)
    ensures
        -0x8000_0000 * batches.len() <= span_of(batches) <= 0x8000_0000 * batches.len(),
    decreases batches.len(),
{
    if batches.len() > 0 {
        lemma_span_bound(batches.drop_last());
    }
}

proof fn lemma_refused(writes: Seq<Write>, done: int, version: u16)
    requires
        0 <= done <= writes.len(),
        refusal(writes.subrange(0, done), version) is Some,
    ensures
        refusal(writes, version) == refusal(writes.subrange(0, done), version),
    decreases writes.len(),
{
    if done == writes.len() {
        assert(writes.subrange(0, done) =~= writes);
    } else {
        let before = writes.drop_last();
        assert(before.subrange(0, done) =~= writes.subrange(0, done));
        lemma_refused(before, done, version);
    }
}

proof fn lemma_divergent(batches: Seq<RecordBatch>, done: int)
    requires
        0 <= done <= batches.len(),
        first_divergent(batches.subrange(0, done)) is Some,
    ensures
        first_divergent(batches) == first_divergent(batches.subrange(0, done)),
    decreases batches.len(),
{
    if done == batches.len() {
        assert(batches.subrange(0, done) =~= batches);
    } else {
        let before = batches.drop_last();
        assert(before.subrange(0, done) =~= batches.subrange(0, done));
        lemma_divergent(before, done);
    }
}

/// Append the region of one sub-stream and say what it spans; or, of the first
/// batch that misdeclares its own length, which it is.
fn put_region(body: &mut Vec<u8>, batches: &Vec<Batch>) -> (region: Result<
    (i64, i64, Vec<ProducerCoord>),
    usize,
>)
    requires
        batches@.len() <= u32::MAX,
    ensures
        match region {
            Ok((records, newest, coords)) => {
                &&& first_divergent(batches_view(batches@)) is None
                &&& final(body)@ == old(body)@ + region_bytes(batches_view(batches@))
                &&& records == span_of(batches_view(batches@))
                &&& newest == newest_of(batches_view(batches@))
                &&& coords@ == coords_of(batches_view(batches@))
            },
            Err(index) => index < batches@.len() && first_divergent(batches_view(batches@)) == Some(
                index as nat,
            ),
        },
{
    let ghost all = batches_view(batches@);
    let mut records: i64 = 0;
    let mut newest: i64 = i64::MIN;
    let mut coords: Vec<ProducerCoord> = Vec::new();
    let mut at: usize = 0;
    assert(all.subrange(0, 0) =~= Seq::empty());
    assert(body@ =~= old(body)@ + region_bytes(all.subrange(0, 0)));
    while at < batches.len()
        invariant
            at <= batches@.len() <= u32::MAX,
            all == batches_view(batches@),
            first_divergent(all.subrange(0, at as int)) is None,
            body@ == old(body)@ + region_bytes(all.subrange(0, at as int)),
            records == span_of(all.subrange(0, at as int)),
            newest == newest_of(all.subrange(0, at as int)),
            coords@ == coords_of(all.subrange(0, at as int)),
        decreases batches@.len() - at,
    {
        let ghost before = all.subrange(0, at as int);
        let ghost done = all.subrange(0, at + 1);
        let batch = &batches[at];
        proof {
            assert(done.drop_last() =~= before);
            assert(done.last() == batch@);
            lemma_span_bound(before);
        }
        if !batch.declares_its_own_length() {
            proof {
                lemma_divergent(all, at + 1);
            }
            return Err(at);
        }
        batch.put_wire(body);
        if batch.idempotent || batch.transactional || batch.control {
            let transactional: u8 = if batch.transactional {
                FLAG_TRANSACTIONAL
            } else {
                0
            };
            let control: u8 = if batch.control {
                FLAG_CONTROL
            } else {
                0
            };
            assert(1u8 | 2u8 == 3u8 && 1u8 | 0u8 == 1u8 && 0u8 | 2u8 == 2u8 && 0u8 | 0u8 == 0u8)
                by (bit_vector);
            coords.push(
                ProducerCoord {
                    producer_id: batch.producer_id,
                    producer_epoch: batch.producer_epoch,
                    base_sequence: batch.base_sequence,
                    last_sequence: batch.base_sequence.wrapping_add(batch.last_offset_delta),
                    offset_delta: records as u32,
                    flags: transactional | control,
                },
            );
        }
        records = records + (batch.last_offset_delta as i64 + 1);
        if batch.max_timestamp > newest {
            newest = batch.max_timestamp;
        }
        at = at + 1;
        assert(body@ =~= old(body)@ + region_bytes(done));
    }
    assert(all.subrange(0, at as int) =~= all);
    Ok((records, newest, coords))
}

impl DynoStore {
    /// Serialise many sub-streams into one segment object, with the footer that
    /// the writer keeps as its index of it. Empty sub-streams are skipped.
    ///
    /// `version` is what the writer is tuned to and not what the content needs,
    /// so a sub-stream keyed by an id is refused below the version that carries
    /// ids: written by name its records would lie where no reader looks. A batch
    /// that misdeclares its own length is refused too, so no footer entry can
    /// claim bytes that are not there.
    pub fn encode_segment_indexed(
        substreams: &Vec<SubstreamWrite>,
        writer_epoch: i64,
        nonce: u64,
        version: u16,
    ) -> (segment: Result<(Vec<u8>, SegmentFooter), Error>)
        requires
            countable(writes_view(substreams@)),
        ensures
            match segment {
                Ok((payload, footer)) => {
                    &&& refusal(writes_view(substreams@), version) is None
                    &&& payload@ == segment_of(
                        writes_view(substreams@),
                        writer_epoch,
                        nonce,
                        version,
                    )
                    &&& footer@ == footer_of(writes_view(substreams@), writer_epoch, nonce)
                },
                Err(error) => answers(error, refusal(writes_view(substreams@), version)),
            },
    {
        let ghost all = writes_view(substreams@);
        let mut body: Vec<u8> = Vec::new();
        let mut entries: Vec<SubstreamEntry> = Vec::new();
        let mut at: usize = 0;
        assert(all.subrange(0, 0) =~= Seq::empty());
        assert(entries_view(entries@) =~= entries_of(all.subrange(0, 0)));
        while at < substreams.len()
            invariant
                at <= substreams@.len(),
                all == writes_view(substreams@),
                countable(all),
                refusal(all.subrange(0, at as int), version) is None,
                body@ == body_of(all.subrange(0, at as int)),
                entries_view(entries@) == entries_of(all.subrange(0, at as int)),
            decreases substreams@.len() - at,
        {
            let ghost before = all.subrange(0, at as int);
            let ghost done = all.subrange(0, at + 1);
            let write = &substreams[at];
            proof {
                assert(done.drop_last() =~= before);
                assert(done.last() == all[at as int]);
                assert(all[at as int] == write@);
            }
            if write.batches.len() == 0 {
                at = at + 1;
                assert(body@ =~= body_of(done));
                continue ;
            }
            let id = write.substream.id();
            if version < SEGMENT_FORMAT_VERSION_V4 && id.is_some() {
                proof {
                    lemma_refused(all, at + 1, version);
                }
                return Err(Error::Api(ErrorCode::KafkaStorageError));
            }
            let byte_start: u64 = body.len() as u64;
            match put_region(&mut body, &write.batches) {
                Err(index) => {
                    proof {
                        lemma_refused(all, at + 1, version);
                    }
                    let batch = &write.batches[index];
                    let encoded: i32 = match batch.encoded_batch_length() {
                        Some(length) => length,
                        None => -1,
                    };
                    return Err(
                        Error::DivergentBatch(
                            DivergentBatch {
                                topic: write.topition.topic.clone(),
                                partition: write.topition.partition,
                                base_offset: write.base_offset,
                                index,
                                declared: batch.batch_length,
                                encoded,
                                magic: batch.magic,
                                record_data_len: batch.record_data_len,
                            },
                        ),
                    );
                },
                Ok((record_count, max_timestamp, producers)) => {
                    let ghost entries_before = entries@;
                    let entry = SubstreamEntry {
                        topic: Arc::new(write.topition.topic.clone()),
                        topic_id: id,
                        partition: write.topition.partition,
                        base_offset: write.base_offset,
                        record_count,
                        byte_start,
                        byte_len: body.len() as u64 - byte_start,
                        max_timestamp,
                        producers,
                    };
                    assert(entry@ =~= entry_of(write@, body_of(before).len()));
                    entries.push(entry);
                    assert(entries_view(entries@) =~= entries_view(entries_before).push(entry@));
                },
            }
            at = at + 1;
        }
        assert(all.subrange(0, at as int) =~= all);
        let footer = SegmentFooter { writer_epoch, nonce, entries };
        let footer_bytes = Self::encode_footer(&footer, version);
        put_all(&mut body, footer_bytes.as_slice());
        put_be(&mut body, footer_bytes.len() as u128, 8);
        put_be(&mut body, footer.entries.len() as u128, 4);
        put_be(&mut body, version as u128, 2);
        put_be(&mut body, SEGMENT_MAGIC as u128, 4);
        assert(footer@ =~= footer_of(all, writer_epoch, nonce));
        assert(body@ =~= segment_of(all, writer_epoch, nonce, version));
        Ok((body, footer))
    }
}

/// The time of a run of batches is that of its newest record: no batch says a newer
/// one, and one says it.
pub proof fn a_region_is_as_new_as_its_newest(batches: Seq<RecordBatch>)
    requires
        batches.len() > 0,
    ensures
        forall|i: int|
            0 <= i < batches.len() ==> (#[trigger] batches[i]).max_timestamp <= newest_of(batches),
        exists|i: int|
            0 <= i < batches.len() && (#[trigger] batches[i]).max_timestamp == newest_of(batches),
    decreases batches.len(),
{
    reveal_with_fuel(newest_of, 2);
    let init = batches.drop_last();
    let end = batches.len() - 1;
    assert(batches[end] == batches.last());
    if init.len() > 0 {
        a_region_is_as_new_as_its_newest(init);
        let before = newest_of(init);
        let w = choose|i: int| 0 <= i < init.len() && (#[trigger] init[i]).max_timestamp == before;
        assert forall|i: int| 0 <= i < batches.len() implies (#[trigger] batches[i]).max_timestamp
            <= newest_of(batches) by {
            if i < end {
                assert(init[i] == batches[i]);
            }
        }
        assert(batches[w] == init[w]);
    } else {
        assert(init =~= Seq::empty());
        assert forall|i: int| 0 <= i < batches.len() implies (#[trigger] batches[i]).max_timestamp
            <= newest_of(batches) by {
            assert(i == end);
        }
    }
}

/// The coordinate of a batch carries what its header says of its producer, the sequence
/// of its last record, where it begins in its region, and whether it is a
/// transaction's or a marker.
pub proof fn a_coordinate_tells_its_batch(batch: RecordBatch, offset: int)
    ensures
        ({
            let coord = coord_of(batch, offset);
            &&& coord.producer_id == batch.producer_id
            &&& coord.producer_epoch == batch.producer_epoch
            &&& coord.base_sequence == batch.base_sequence
            &&& i32::MIN <= batch.base_sequence + batch.last_offset_delta <= i32::MAX
                ==> coord.last_sequence == batch.base_sequence + batch.last_offset_delta
            &&& 0 <= offset <= u32::MAX ==> coord.offset_delta == offset
            &&& coord.flags == (if batch.transactional {
                FLAG_TRANSACTIONAL as int
            } else {
                0
            }) + if batch.control {
                FLAG_CONTROL as int
            } else {
                0
            }
        }),
{
}

/// Every batch that is idempotent, a transaction's or a marker has its coordinate, with
/// the records before it as its place, and no other batch has one.
pub proof fn every_batch_of_a_producer_is_indexed(batches: Seq<RecordBatch>, k: int)
    requires
        0 <= k < batches.len(),
    ensures
        ({
            let batch = batches[k];
            let told = coords_of(batches.take(k));
            let more = coords_of(batches.take(k + 1));
            &&& batch.idempotent || batch.transactional || batch.control ==> more == told.push(
                coord_of(batch, span_of(batches.take(k))),
            )
            &&& !(batch.idempotent || batch.transactional || batch.control) ==> more == told
            &&& more.len() <= coords_of(batches).len()
            &&& more == coords_of(batches).take(more.len() as int)
            &&& coords_of(batches.take(0)).len() == 0
        }),
{
    let more = batches.take(k + 1);
    assert(more.drop_last() =~= batches.take(k));
    assert(more.last() == batches[k]);
    lemma_coords_stay(batches, k + 1);
}

proof fn lemma_coords_stay(batches: Seq<RecordBatch>, k: int)
    requires
        0 <= k <= batches.len(),
    ensures
        coords_of(batches.take(k)).len() <= coords_of(batches).len(),
        coords_of(batches.take(k)) == coords_of(batches).take(
            coords_of(batches.take(k)).len() as int,
        ),
    decreases batches.len(),
{
    let all = coords_of(batches);
    if k == batches.len() {
        assert(batches.take(k) =~= batches);
        assert(all.take(all.len() as int) =~= all);
    } else {
        let init = batches.drop_last();
        lemma_coords_stay(init, k);
        assert(init.take(k) =~= batches.take(k));
        let early = coords_of(batches.take(k));
        assert(coords_of(init).take(early.len() as int) =~= all.take(early.len() as int));
    }
}

/// Whether an entry tells of a sub-stream that was written.
pub open spec fn tells_of(entry: Entry, write: Write) -> bool {
    &&& entry.topic == write.topic
    &&& entry.partition == write.partition
    &&& entry.topic_id == match write.identity {
        Identity::Id(id) => Some(id),
        Identity::Name(_) => None,
    }
    &&& entry.base_offset == write.base_offset
    &&& entry.record_count == span_of(write.batches) as i64
    &&& entry.byte_len == region_bytes(write.batches).len() as u64
    &&& entry.max_timestamp == newest_of(write.batches)
    &&& entry.producers == coords_of(write.batches)
}

/// A footer has an entry of each sub-stream that holds a batch, in the order written,
/// and no other: an entry tells of the sub-stream, and its bytes begin behind those of
/// the sub-streams before it.
pub proof fn every_substream_written_is_indexed(writes: Seq<Write>, k: int)
    requires
        0 <= k < writes.len(),
    ensures
        ({
            let had = entries_of(writes.take(k));
            let more = entries_of(writes.take(k + 1));
            &&& writes[k].batches.len() == 0 ==> more == had
            &&& writes[k].batches.len() > 0 ==> more.len() == had.len() + 1 && more.drop_last()
                == had && tells_of(more.last(), writes[k]) && more.last().byte_start == body_of(
                writes.take(k),
            ).len() as u64
            &&& more.len() <= entries_of(writes).len()
            &&& more == entries_of(writes).take(more.len() as int)
            &&& entries_of(writes.take(0)).len() == 0
        }),
{
    let more = writes.take(k + 1);
    assert(more.drop_last() =~= writes.take(k));
    assert(more.last() == writes[k]);
    if writes[k].batches.len() > 0 {
        assert(entries_of(more).drop_last() =~= entries_of(writes.take(k)));
    }
    lemma_entries_stay(writes, k + 1);
}

proof fn lemma_entries_stay(writes: Seq<Write>, k: int)
    requires
        0 <= k <= writes.len(),
    ensures
        entries_of(writes.take(k)).len() <= entries_of(writes).len(),
        entries_of(writes.take(k)) == entries_of(writes).take(
            entries_of(writes.take(k)).len() as int,
        ),
    decreases writes.len(),
{
    let all = entries_of(writes);
    if k == writes.len() {
        assert(writes.take(k) =~= writes);
        assert(all.take(all.len() as int) =~= all);
    } else {
        let init = writes.drop_last();
        lemma_entries_stay(init, k);
        assert(init.take(k) =~= writes.take(k));
        let early = entries_of(writes.take(k));
        assert(entries_of(init).take(early.len() as int) =~= all.take(early.len() as int));
    }
}

/// Whether a sub-stream can be written at a format: it holds nothing, or the format has
/// a place for its key and every batch declares its own length.
pub open spec fn is_writable(write: Write, version: u16) -> bool {
    write.batches.len() > 0 ==> {
        &&& write.identity is Id ==> version >= SEGMENT_FORMAT_VERSION_V4
        &&& forall|j: int|
            0 <= j < write.batches.len()
                ==> (#[trigger] write.batches[j]).declares_its_own_length()
    }
}

/// A segment is refused if and only if one of its sub-streams cannot be written, and
/// for the first that cannot: for its key where the format has no place for it, and
/// else for the first of its batches that misdeclares its length.
pub proof fn what_cannot_be_written_is_refused(writes: Seq<Write>, version: u16)
    ensures
        refusal(writes, version) is None <==> forall|i: int|
            0 <= i < writes.len() ==> is_writable(#[trigger] writes[i], version),
        refusal(writes, version) is Some ==> exists|i: int|
            0 <= i < writes.len() && !is_writable(#[trigger] writes[i], version) && is_refused_for(
                refusal(writes, version)->0,
                writes[i],
                version,
            ) && forall|h: int| 0 <= h < i ==> is_writable(#[trigger] writes[h], version),
    decreases writes.len(),
{
    if writes.len() > 0 {
        let init = writes.drop_last();
        let end = writes.len() - 1;
        what_cannot_be_written_is_refused(init, version);
        assert forall|i: int| 0 <= i < end implies is_writable(#[trigger] writes[i], version)
            == is_writable(init[i], version) by {}
        lemma_first_divergent(writes[end].batches);
        if refusal(init, version) is Some {
            let i = choose|i: int|
                0 <= i < init.len() && !is_writable(#[trigger] init[i], version) && is_refused_for(
                    refusal(init, version)->0,
                    init[i],
                    version,
                ) && forall|h: int| 0 <= h < i ==> is_writable(#[trigger] init[h], version);
            assert(writes[i] == init[i]);
            assert forall|h: int| 0 <= h < i implies is_writable(#[trigger] writes[h], version) by {
                assert(init[h] == writes[h]);
            }
        } else {
            assert forall|h: int| 0 <= h < end implies is_writable(#[trigger] writes[h], version) by {
                assert(init[h] == writes[h]);
            }
            assert(refusal(writes, version) == refusal_of(writes[end], version));
        }
    }
}

/// Whether a refusal says why a sub-stream is not written.
pub open spec fn is_refused_for(refusal: Refusal, write: Write, version: u16) -> bool {
    match refusal {
        Refusal::IdWithoutPlace => write.identity is Id && version < SEGMENT_FORMAT_VERSION_V4,
        Refusal::Divergent { write: of, index } => {
            &&& of == write
            &&& !(write.identity is Id && version < SEGMENT_FORMAT_VERSION_V4)
            &&& index < write.batches.len()
            &&& !write.batches[index as int].declares_its_own_length()
            &&& forall|j: int|
                0 <= j < index ==> (#[trigger] write.batches[j]).declares_its_own_length()
        },
    }
}

proof fn lemma_first_divergent(batches: Seq<RecordBatch>)
    ensures
        match first_divergent(batches) {
            Some(index) => {
                &&& index < batches.len()
                &&& !batches[index as int].declares_its_own_length()
                &&& forall|j: int|
                    0 <= j < index ==> (#[trigger] batches[j]).declares_its_own_length()
            },
            None => forall|j: int|
                0 <= j < batches.len() ==> (#[trigger] batches[j]).declares_its_own_length(),
        },
    decreases batches.len(),
{
    if batches.len() > 0 {
        let init = batches.drop_last();
        lemma_first_divergent(init);
        assert forall|j: int| 0 <= j < init.len() implies (#[trigger] batches[j]).declares_its_own_length()
            == init[j].declares_its_own_length() by {}
        match first_divergent(init) {
            Some(index) => {
                assert(batches[index as int] == init[index as int]);
                assert forall|j: int| 0 <= j < index implies (
                #[trigger] batches[j]).declares_its_own_length() by {
                    assert(init[j] == batches[j]);
                }
            },
            None => {
                assert forall|j: int| 0 <= j < init.len() implies (
                #[trigger] batches[j]).declares_its_own_length() by {
                    assert(init[j] == batches[j]);
                }
            },
        }
    }
}

/// A segment that is not written is answered by why: an id without a place is an error of
/// the storage, and a batch that misdeclares its length is told with where it is and with
/// both lengths.
pub proof fn a_refusal_says_why(error: Error, write: Write, index: nat)
    ensures
        answers(error, Some(Refusal::IdWithoutPlace)) <==> error == Error::Api(
            ErrorCode::KafkaStorageError,
        ),
        !answers(error, None),
        answers(error, Some(Refusal::Divergent { write, index })) ==> {
            &&& error is DivergentBatch
            &&& error->DivergentBatch_0.topic@ == write.topic
            &&& error->DivergentBatch_0.partition == write.partition
            &&& error->DivergentBatch_0.base_offset == write.base_offset
            &&& error->DivergentBatch_0.index == index
            &&& error->DivergentBatch_0.declared == write.batches[index as int].batch_length
            &&& write.batches[index as int].body.len() <= i32::MAX
                ==> error->DivergentBatch_0.encoded == write.batches[index as int].body.len()
        },
{
}

} // verus!
