//! What is waiting to be written to a prefix, and when it is.

use crate::config::{
    BACKFILL_COALESCE_BYTES, COALESCE_MAX_RECORDS, PREFIX_BACKFILL_MIN_RECORDS,
};
use crate::error::{Error, ErrorCode};
use crate::ordmap::OrdMap;
use crate::random::random_up_to;
use crate::segment::{span_of, Batch, Identity, RecordBatch, Substream, Topition, FRAME_PREFIX};
use crate::store::DynoStore;
use vstd::prelude::*;
use vstd::string::*;

verus! {

/// A batch that is waiting, and whom to answer.
#[derive(Debug)]
pub struct PrefixPending {
    pub topition: Topition,
    pub substream: Substream,
    pub batch: Batch,
    /// Which produce is answered with its offset.
    pub ticket: u64,
}

/// The mathematical pending batch.
#[verifier::ext_equal]
pub struct Pending {
    pub topition: (Seq<char>, i32),
    pub identity: Identity,
    pub batch: RecordBatch,
    pub ticket: u64,
}

impl View for PrefixPending {
    type V = Pending;

    open spec fn view(&self) -> Pending {
        Pending {
            topition: self.topition@,
            identity: self.substream@,
            batch: self.batch@,
            ticket: self.ticket,
        }
    }
}

/// The views of pending batches.
pub open spec fn pending_view(pending: Seq<PrefixPending>) -> Seq<Pending> {
    pending.map_values(|item: PrefixPending| item@)
}

/// What is waiting to be written to one prefix.
#[derive(Debug)]
pub struct PrefixCoalesceBuffer {
    pub pending: Vec<PrefixPending>,
    pub records: i64,
    pub bytes: usize,
    /// Whether a batch of a backfill is among it.
    pub backfill: bool,
}

/// The mathematical buffer.
#[verifier::ext_equal]
pub struct Buffer {
    pub pending: Seq<Pending>,
    pub records: int,
    pub bytes: int,
    pub backfill: bool,
}

impl View for PrefixCoalesceBuffer {
    type V = Buffer;

    open spec fn view(&self) -> Buffer {
        Buffer {
            pending: pending_view(self.pending@),
            records: self.records as int,
            bytes: self.bytes as int,
            backfill: self.backfill,
        }
    }
}

/// Nothing is waiting.
pub open spec fn empty_buffer() -> Buffer {
    Buffer { pending: Seq::empty(), records: 0, bytes: 0, backfill: false }
}

/// Bytes that a batch counts for: its frame, as its header declares it.
pub open spec fn declared_bytes(batch: RecordBatch) -> int {
    FRAME_PREFIX + if batch.batch_length > 0 {
        batch.batch_length as int
    } else {
        0
    }
}

impl Buffer {
    /// The buffer with another batch.
    pub open spec fn with(self, item: Pending) -> Buffer {
        Buffer {
            pending: self.pending.push(item),
            records: self.records + item.batch.span(),
            bytes: self.bytes + declared_bytes(item.batch),
            backfill: self.backfill || item.batch.span() >= PREFIX_BACKFILL_MIN_RECORDS,
        }
    }
}

impl PrefixCoalesceBuffer {
    /// Nothing is waiting.
    pub fn new() -> (buffer: Self)
        ensures
            buffer@ == empty_buffer(),
    {
        let buffer = PrefixCoalesceBuffer {
            pending: Vec::new(),
            records: 0,
            bytes: 0,
            backfill: false,
        };
        assert(buffer@ =~= empty_buffer());
        buffer
    }
}

/// What an enqueued batch leads to.
#[derive(Debug)]
pub enum CoalesceAction {
    /// Write the buffer now.
    Flush(PrefixCoalesceBuffer),
    /// Write it after a while.
    StartTimer,
    /// It will be written with what is waiting already.
    Wait,
}

/// The largest of two sizes.
pub open spec fn at_least(a: usize, b: usize) -> usize {
    if a >= b {
        a
    } else {
        b
    }
}

impl DynoStore {
    /// The batches and bytes at which a buffer is written. While a prefix is
    /// backfilled both are relaxed, so that the records decide.
    pub open spec fn thresholds(&self, backfill: bool) -> (usize, usize) {
        if backfill {
            (
                at_least(self.tuning.coalesce_batches, COALESCE_MAX_RECORDS as usize),
                at_least(self.tuning.coalesce_bytes, BACKFILL_COALESCE_BYTES),
            )
        } else {
            (self.tuning.coalesce_batches, self.tuning.coalesce_bytes)
        }
    }

    /// The batches and bytes at which a buffer is written.
    pub fn flush_thresholds(&self, backfill: bool) -> (thresholds: (usize, usize))
        ensures
            thresholds == self.thresholds(backfill),
    {
        if backfill {
            let records: usize = COALESCE_MAX_RECORDS as usize;
            let batches: usize = if self.tuning.coalesce_batches >= records {
                self.tuning.coalesce_batches
            } else {
                records
            };
            let bytes: usize = if self.tuning.coalesce_bytes >= BACKFILL_COALESCE_BYTES {
                self.tuning.coalesce_bytes
            } else {
                BACKFILL_COALESCE_BYTES
            };
            (batches, bytes)
        } else {
            (self.tuning.coalesce_batches, self.tuning.coalesce_bytes)
        }
    }

    /// Whether a buffer is written at once. A transaction's marker does not wait.
    pub open spec fn is_due(&self, buffer: Buffer, control: bool) -> bool {
        let (batches, bytes) = self.thresholds(buffer.backfill);
        buffer.pending.len() >= batches || buffer.bytes >= bytes || buffer.records
            >= COALESCE_MAX_RECORDS || control
    }

    /// Add a batch to what is waiting for its prefix, and say what that leads to.
    pub fn enqueue_prefix_coalesced(
        &self,
        buffers: &mut OrdMap<String, PrefixCoalesceBuffer>,
        prefix: &str,
        item: PrefixPending,
    ) -> (action: CoalesceAction)
        requires
            old(buffers).wf(),
            ({
                let held = buffer_of(*old(buffers), prefix@).with(item@);
                i64::MIN <= held.records <= i64::MAX && held.bytes <= usize::MAX
            }),
        ensures
            final(buffers).wf(),
            forall|other: Seq<char>|
                #![trigger final(buffers)@.dom().contains(other)]
                other != prefix@ ==> (final(buffers)@.dom().contains(other) == old(
                    buffers,
                )@.dom().contains(other) && final(buffers)@[other] == old(buffers)@[other]),
            ({
                let before = buffer_of(*old(buffers), prefix@);
                let after = before.with(item@);
                let due = self.is_due(after, item@.batch.control);
                match action {
                    CoalesceAction::Flush(buffer) => due && buffer@ == after && buffer_of(
                        *final(buffers),
                        prefix@,
                    ) == empty_buffer(),
                    CoalesceAction::StartTimer => !due && before.pending.len() == 0 && buffer_of(
                        *final(buffers),
                        prefix@,
                    ) == after,
                    CoalesceAction::Wait => !due && before.pending.len() > 0 && buffer_of(
                        *final(buffers),
                        prefix@,
                    ) == after,
                }
            }),
    {
        let key = String::from_str(prefix);
        let ghost given = buffer_of(*buffers, prefix@);
        let ghost others = buffers@;
        let mut buffer = match buffers.remove(&key) {
            Some(buffer) => buffer,
            None => PrefixCoalesceBuffer::new(),
        };
        assert(buffer@ == given);
        let first = buffer.pending.len() == 0;
        let control = item.batch.control;
        let span: i64 = item.batch.last_offset_delta as i64 + 1;
        let declared: usize = if item.batch.batch_length > 0 {
            item.batch.batch_length as usize
        } else {
            0
        };
        let ghost own = item@;
        let ghost before = buffer.pending@;
        assert(given.with(own).bytes <= usize::MAX);
        buffer.pending.push(item);
        buffer.records = buffer.records + span;
        buffer.bytes = buffer.bytes + (FRAME_PREFIX + declared);
        buffer.backfill = buffer.backfill || span >= PREFIX_BACKFILL_MIN_RECORDS as i64;
        assert(pending_view(buffer.pending@) =~= pending_view(before).push(own));
        assert(buffer@ =~= given.with(own));
        let (batches, bytes) = self.flush_thresholds(buffer.backfill);
        if buffer.pending.len() >= batches || buffer.bytes >= bytes || buffer.records
            >= COALESCE_MAX_RECORDS as i64 || control {
            return CoalesceAction::Flush(buffer);
        }
        let _ = buffers.insert(key, buffer);
        if first {
            CoalesceAction::StartTimer
        } else {
            CoalesceAction::Wait
        }
    }

    /// How long a produce waits for others, `draw` being a random number up to two
    /// fifths of the configured time: within a fifth of it.
    pub fn linger_of(linger: u64, draw: u64) -> (wait: u64)
        requires
            draw <= 2 * (linger / 5),
            linger + linger / 5 <= u64::MAX,
        ensures
            wait == linger - linger / 5 + draw,
    {
        (linger - linger / 5) + draw
    }

    /// How long a produce waits for others: at random within a fifth of the
    /// configured time, so that several processes do not all write at once.
    pub fn jittered_linger(&self) -> (wait: u64)
        requires
            self.tuning.coalesce_linger + self.tuning.coalesce_linger / 5 <= u64::MAX,
        ensures
            self.tuning.coalesce_linger - self.tuning.coalesce_linger / 5 <= wait
                <= self.tuning.coalesce_linger + self.tuning.coalesce_linger / 5,
    {
        let linger: u64 = self.tuning.coalesce_linger;
        Self::linger_of(linger, random_up_to(2 * (linger / 5)))
    }

    /// Whom to tell that a buffer could not be written, each the same error. What
    /// was not written is not acknowledged.
    pub fn fail_prefix_flush(buffer: PrefixCoalesceBuffer, error: Error) -> (failed: (
        Vec<u64>,
        Error,
    ))
        ensures
            failed.0@ == buffer@.pending.map_values(|item: Pending| item.ticket),
            failed.1 == error,
    {
        let ghost all = buffer@.pending;
        let mut tickets: Vec<u64> = Vec::new();
        for item in it: buffer.pending.into_iter()
            invariant
                it.seq() == buffer.pending@,
                all == pending_view(buffer.pending@),
                tickets@.len() == it.index(),
                forall|i: int|
                    #![trigger tickets@[i]]
                    0 <= i < tickets@.len() ==> tickets@[i] == all[i].ticket,
        {
            tickets.push(item.ticket);
        }
        assert(tickets@ =~= all.map_values(|item: Pending| item.ticket));
        (tickets, error)
    }

    /// Whom to answer with what after a buffer was taken care of: each produce its
    /// own outcome.
    pub fn ack_leaseless_outcomes(
        buffer: PrefixCoalesceBuffer,
        outcomes: Vec<Result<i64, ErrorCode>>,
    ) -> (answers: Vec<(u64, Result<i64, ErrorCode>)>)
        ensures
            answers@.len() == buffer@.pending.len(),
            forall|i: int|
                #![trigger answers@[i]]
                0 <= i < answers@.len() ==> answers@[i] == (
                    buffer@.pending[i].ticket,
                    if i < outcomes@.len() {
                        outcomes@[i]
                    } else {
                        Err(ErrorCode::UnknownServerError)
                    },
                ),
    {
        let ghost all = buffer@.pending;
        let mut answers: Vec<(u64, Result<i64, ErrorCode>)> = Vec::new();
        for item in it: buffer.pending.into_iter()
            invariant
                it.seq() == buffer.pending@,
                all == pending_view(buffer.pending@),
                answers@.len() == it.index(),
                forall|i: int|
                    #![trigger answers@[i]]
                    0 <= i < answers@.len() ==> answers@[i] == (
                        all[i].ticket,
                        if i < outcomes@.len() {
                            outcomes@[i]
                        } else {
                            Err(ErrorCode::UnknownServerError)
                        },
                    ),
        {
            let at: usize = answers.len();
            let outcome: Result<i64, ErrorCode> = if at < outcomes.len() {
                match &outcomes[at] {
                    Ok(offset) => Ok(*offset),
                    Err(code) => Err(*code),
                }
            } else {
                Err(ErrorCode::UnknownServerError)
            };
            answers.push((item.ticket, outcome));
        }
        answers
    }
}

/// What is waiting for a prefix.
pub open spec fn buffer_of(buffers: OrdMap<String, PrefixCoalesceBuffer>, prefix: Seq<char>) -> Buffer {
    if buffers@.dom().contains(prefix) {
        buffers@[prefix]@
    } else {
        empty_buffer()
    }
}

/// Take what is waiting for a prefix, as its timer ran out.
pub fn take_buffer(buffers: &mut OrdMap<String, PrefixCoalesceBuffer>, prefix: &str) -> (buffer: Option<
    PrefixCoalesceBuffer,
>)
    requires
        old(buffers).wf(),
    ensures
        final(buffers).wf(),
        final(buffers)@ == old(buffers)@.remove(prefix@),
        match buffer {
            Some(buffer) => buffer@ == buffer_of(*old(buffers), prefix@) && buffer@.pending.len()
                > 0,
            None => buffer_of(*old(buffers), prefix@).pending.len() == 0,
        },
{
    match buffers.remove(&String::from_str(prefix)) {
        Some(buffer) => if buffer.pending.len() > 0 {
            Some(buffer)
        } else {
            None
        },
        None => None,
    }
}

/// A backfill is not written sooner than the same batches otherwise: what it relaxes is
/// never lower than what was configured. And it is not for their number that its batches
/// are written, as long as each of them holds a record: the records are due first.
pub proof fn a_backfill_is_written_no_sooner(store: DynoStore, buffer: Buffer, control: bool)
    ensures
        store.thresholds(true).0 >= store.thresholds(false).0,
        store.thresholds(true).1 >= store.thresholds(false).1,
        store.is_due((Buffer { backfill: true, ..buffer }), control) ==> store.is_due(
            (Buffer { backfill: false, ..buffer }),
            control,
        ),
        buffer.pending.len() <= buffer.records && buffer.pending.len() >= store.thresholds(true).0
            ==> buffer.records >= COALESCE_MAX_RECORDS,
{
}

/// What waits once batches came in one after another.
pub open spec fn gathered(items: Seq<Pending>) -> Buffer
    decreases items.len(),
{
    if items.len() == 0 {
        empty_buffer()
    } else {
        gathered(items.drop_last()).with(items.last())
    }
}

/// A buffer holds every batch that came in, in order, and counts all of their records
/// and bytes; it is a backfill once one of them brought as many records as that takes.
pub proof fn a_buffer_counts_what_waits(items: Seq<Pending>)
    ensures
        gathered(items).pending == items,
        gathered(items).records == span_of(items.map_values(|item: Pending| item.batch)),
        gathered(items).bytes >= items.len() * 12,
        gathered(items).backfill <==> exists|i: int|
            0 <= i < items.len() && (#[trigger] items[i]).batch.last_offset_delta + 1
                >= PREFIX_BACKFILL_MIN_RECORDS,
    decreases items.len(),
{
    let batches = items.map_values(|item: Pending| item.batch);
    if items.len() > 0 {
        let init = items.drop_last();
        let end = items.len() - 1;
        a_buffer_counts_what_waits(init);
        assert(init.push(items.last()) =~= items);
        assert(batches.drop_last() =~= init.map_values(|item: Pending| item.batch));
        assert(batches.last() == items.last().batch);
        if gathered(init).backfill {
            let i = choose|i: int|
                0 <= i < init.len() && (#[trigger] init[i]).batch.last_offset_delta + 1
                    >= PREFIX_BACKFILL_MIN_RECORDS;
            assert(items[i] == init[i]);
        } else if gathered(items).backfill {
            assert(items[end].batch.last_offset_delta + 1 >= PREFIX_BACKFILL_MIN_RECORDS);
        }
        if exists|i: int|
            0 <= i < items.len() && (#[trigger] items[i]).batch.last_offset_delta + 1
                >= PREFIX_BACKFILL_MIN_RECORDS {
            let i = choose|i: int|
                0 <= i < items.len() && (#[trigger] items[i]).batch.last_offset_delta + 1
                    >= PREFIX_BACKFILL_MIN_RECORDS;
            if i < end {
                assert(init[i] == items[i]);
            }
        }
    } else {
        assert(batches =~= Seq::empty());
    }
}

/// A batch adds to the bytes that wait its frame as its header declares it: the prefix
/// of twelve bytes, and the declared length unless that is negative.
pub proof fn a_batch_counts_as_declared(buffer: Buffer, item: Pending)
    ensures
        item.batch.batch_length >= 0 ==> buffer.with(item).bytes == buffer.bytes + 12
            + item.batch.batch_length,
        item.batch.batch_length < 0 ==> buffer.with(item).bytes == buffer.bytes + 12,
{
}

/// A buffer is written at once for a marker, and once its records are as many as one
/// segment is to hold, whatever was configured. Otherwise it is written once there are
/// as many batches, or bytes, as configured, and no sooner; a backfill waits for more
/// of both where less was configured.
pub proof fn what_is_written_at_once(store: DynoStore, buffer: Buffer, control: bool)
    ensures
        control ==> store.is_due(buffer, control),
        buffer.records >= COALESCE_MAX_RECORDS ==> store.is_due(buffer, control),
        !control && !buffer.backfill && buffer.records < COALESCE_MAX_RECORDS ==> (store.is_due(
            buffer,
            control,
        ) <==> buffer.pending.len() >= store.tuning.coalesce_batches || buffer.bytes
            >= store.tuning.coalesce_bytes),
        !control && buffer.backfill && buffer.records < COALESCE_MAX_RECORDS ==> (store.is_due(
            buffer,
            control,
        ) <==> (buffer.pending.len() >= store.tuning.coalesce_batches && buffer.pending.len()
            >= COALESCE_MAX_RECORDS as usize) || (buffer.bytes >= store.tuning.coalesce_bytes
            && buffer.bytes >= BACKFILL_COALESCE_BYTES)),
{
}

} // verus!
