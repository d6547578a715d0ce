//! What is read of a segment is what was written to it.

use crate::codec::{footer_bytes, is_known, segment_footer_in};
use crate::codec_laws::{
    as_written, entry_as_written, fits, regions_lie_where_indexed, segment_footer_round_trip,
};
use crate::encode::{body_of, entries_of, entry_of, footer_of, segment_of};
use crate::fetch::{placed_at, wanted};
use crate::frame::{frames_from, region_round_trip, FrameTail};
use crate::segment::{region_bytes, span_of, Entry, Footer, RecordBatch, Write};
use vstd::prelude::*;

verus! {

proof fn lemma_entry_of(writes: Seq<Write>, i: int) -> (k: int)
    requires
        0 <= i < writes.len(),
        writes[i].batches.len() > 0,
    ensures
        0 <= k < entries_of(writes).len(),
        entries_of(writes)[k] == entry_of(writes[i], body_of(writes.subrange(0, i)).len()),
    decreases writes.len(),
{
    let init = writes.drop_last();
    if i == init.len() {
        assert(writes.subrange(0, i) =~= init);
        entries_of(init).len() as int
    } else {
        assert(init.subrange(0, i) =~= writes.subrange(0, i));
        assert(init[i] == writes[i]);
        lemma_entry_of(init, i)
    }
}

/// Whether an entry of a footer leads to batches: it begins at their offset, and the
/// bytes that it points to are theirs, one batch behind another and nothing else.
pub open spec fn leads_to(segment: Seq<u8>, entry: Entry, base_offset: i64, batches: Seq<RecordBatch>) -> bool {
    &&& entry.base_offset == base_offset
    &&& entry.record_count == span_of(batches) as i64
    &&& entry.byte_start + entry.byte_len <= segment.len()
    &&& frames_from(
        segment.subrange(entry.byte_start as int, entry.byte_start + entry.byte_len),
        0,
    ) == (batches.map_values(|batch: RecordBatch| batch.wire()), FrameTail::Exhausted)
}

/// Whether a footer has an entry of a sub-stream that leads to its batches.
pub open spec fn holds(segment: Seq<u8>, footer: Footer, write: Write) -> bool {
    exists|k: int|
        0 <= k < footer.entries.len() && footer.entries[k].partition == write.partition
            && footer.entries[k].topic == write.topic && leads_to(
            segment,
            #[trigger] footer.entries[k],
            write.base_offset,
            write.batches,
        )
}

/// What is written to a segment is read back from it: its footer is found, and has an
/// entry of each sub-stream that leads to the batches that were written.
pub proof fn what_is_written_is_read_back(
    writes: Seq<Write>,
    writer_epoch: i64,
    nonce: u64,
    version: u16,
    i: int,
)
    requires
        is_known(version),
        fits(footer_of(writes, writer_epoch, nonce)),
        footer_of(writes, writer_epoch, nonce).entries.len() <= u32::MAX,
        footer_bytes(footer_of(writes, writer_epoch, nonce), version).len() <= u64::MAX,
        body_of(writes).len() <= u64::MAX,
        0 <= i < writes.len(),
        writes[i].batches.len() > 0,
        forall|j: int|
            #![trigger writes[i].batches[j]]
            0 <= j < writes[i].batches.len() ==> writes[i].batches[j].declares_its_own_length(),
    ensures
        ({
            let segment = segment_of(writes, writer_epoch, nonce, version);
            &&& segment_footer_in(segment) matches Ok(Some(footer))
            &&& holds(segment, footer, writes[i])
        }),
{
    let segment = segment_of(writes, writer_epoch, nonce, version);
    let written = footer_of(writes, writer_epoch, nonce);
    segment_footer_round_trip(writes, writer_epoch, nonce, version, 0);
    assert(segment.skip(0) =~= segment);
    let footer = as_written(written, version);
    let k = lemma_entry_of(writes, i);
    let entry = entries_of(writes)[k];
    let start = body_of(writes.subrange(0, i)).len();
    let region = region_bytes(writes[i].batches);
    assert(footer.entries[k] == entry_as_written(entry, version));
    regions_lie_where_indexed(writes, writer_epoch, nonce, version, i);
    lemma_within_body(writes, i);
    assert(entry.byte_start == start && entry.byte_len == region.len());
    region_round_trip(writes[i].batches);
    assert(leads_to(segment, footer.entries[k], writes[i].base_offset, writes[i].batches));
    assert(holds(segment, footer, writes[i]));
}

proof fn lemma_within_body(writes: Seq<Write>, i: int)
    requires
        0 <= i < writes.len(),
    ensures
        body_of(writes.subrange(0, i)).len() + region_bytes(writes[i].batches).len() <= body_of(
            writes,
        ).len(),
    decreases writes.len(),
{
    let init = writes.drop_last();
    if i == init.len() {
        assert(writes.subrange(0, i) =~= init);
    } else {
        assert(init.subrange(0, i) =~= writes.subrange(0, i));
        lemma_within_body(init, i);
    }
}

/// A fetch from the base offset of a region that is served to its end wants all of its
/// batches, each at the offset that it was assigned: the base, and the records before it.
pub proof fn batches_are_read_at_their_offsets(base: i64, batches: Seq<RecordBatch>, at: int)
    requires
        0 <= at < batches.len(),
        forall|j: int| #![trigger batches[j]] 0 <= j < batches.len() ==> batches[j].span() > 0,
    ensures
        wanted(base as int, batches, base, base as int, None).len() == batches.len(),
        wanted(base as int, batches, base, base as int, None)[at] == placed_at(
            batches[at],
            base + span_of(batches.take(at)),
        ),
    decreases batches.len(),
{
    let init = batches.drop_last();
    assert(batches.take(init.len() as int) =~= init);
    lemma_spans(batches);
    lemma_wants_all(base, batches);
    if at < init.len() {
        assert forall|j: int| #![trigger init[j]] 0 <= j < init.len() implies init[j].span() > 0 by {
            assert(init[j] == batches[j]);
        }
        batches_are_read_at_their_offsets(base, init, at);
        assert(init.take(at) =~= batches.take(at));
        lemma_wants_all(base, init);
    }
}

proof fn lemma_spans(batches: Seq<RecordBatch>)
    requires
        forall|j: int| #![trigger batches[j]] 0 <= j < batches.len() ==> batches[j].span() > 0,
    ensures
        span_of(batches) >= batches.len(),
    decreases batches.len(),
{
    if batches.len() > 0 {
        let init = batches.drop_last();
        assert forall|j: int| #![trigger init[j]] 0 <= j < init.len() implies init[j].span() > 0 by {
            assert(init[j] == batches[j]);
        }
        lemma_spans(init);
        assert(batches[batches.len() - 1].span() > 0);
    }
}

proof fn lemma_wants_all(base: i64, batches: Seq<RecordBatch>)
    requires
        forall|j: int| #![trigger batches[j]] 0 <= j < batches.len() ==> batches[j].span() > 0,
    ensures
        wanted(base as int, batches, base, base as int, None).len() == batches.len(),
    decreases batches.len(),
{
    if batches.len() > 0 {
        let init = batches.drop_last();
        assert forall|j: int| #![trigger init[j]] 0 <= j < init.len() implies init[j].span() > 0 by {
            assert(init[j] == batches[j]);
        }
        lemma_wants_all(base, init);
        lemma_spans(batches);
    }
}

} // verus!
