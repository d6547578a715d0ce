//! What a producer's retry is answered: that a batch is written once, however often
//! it is sent.

use crate::assign::{assigned, assigned_offsets_leave_no_gap, Assigned};
use crate::encode::{coord_of, coords_of};
use crate::producer::{
    next_of, offset_in, IdempotentClass, ProducerCoord, Tail, FLAG_CONTROL, FLAG_TRANSACTIONAL,
    IDEMPOTENT_WINDOW,
};
use crate::retain::fold_coords;
use crate::segment::{span_of, RecordBatch};
use vstd::prelude::*;

verus! {

proof fn lemma_offset_at(window: Seq<(i32, i64)>, sequence: i32, at: int)
    requires
        0 <= at < window.len(),
        window[at].0 == sequence,
        forall|i: int| 0 <= i < at ==> (#[trigger] window[i]).0 != sequence,
    ensures
        offset_in(window, sequence) == Some(window[at].1),
    decreases at,
{
    if at > 0 {
        assert(window[0].0 != sequence);
        let rest = window.skip(1);
        assert forall|i: int| 0 <= i < at - 1 implies (#[trigger] rest[i]).0 != sequence by {
            assert(rest[i] == window[i + 1]);
        }
        lemma_offset_at(rest, sequence, at - 1);
    }
}

proof fn lemma_no_offset(window: Seq<(i32, i64)>, sequence: i32)
    requires
        offset_in(window, sequence) is None,
    ensures
        forall|i: int| 0 <= i < window.len() ==> (#[trigger] window[i]).0 != sequence,
    decreases window.len(),
{
    if window.len() > 0 {
        let rest = window.skip(1);
        lemma_no_offset(rest, sequence);
        assert forall|i: int| 0 <= i < window.len() implies (#[trigger] window[i]).0 != sequence by {
            if i > 0 {
                assert(rest[i - 1] == window[i]);
            }
        }
    }
}

/// A tail after more batches of one epoch.
pub open spec fn after_all(tail: Tail, epoch: i16, later: Seq<(i32, i32, i64)>) -> Tail
    decreases later.len(),
{
    if later.len() == 0 {
        tail
    } else {
        let last = later.last();
        after_all(tail, epoch, later.drop_last()).after(epoch, last.0, last.1, last.2)
    }
}

proof fn lemma_after_all(tail: Tail, epoch: i16, sequence: i32, offset: i64, later: Seq<(i32, i32, i64)>)
    requires
        tail.bounded(),
        tail.epoch == epoch,
        tail.window.len() > 0,
        tail.window.last() == (sequence, offset),
        forall|i: int| 0 <= i < tail.window.len() - 1 ==> (#[trigger] tail.window[i]).0 != sequence,
        later.len() < IDEMPOTENT_WINDOW,
    ensures
        ({
            let end = after_all(tail, epoch, later);
            let at = end.window.len() - 1 - later.len();
            &&& end.bounded()
            &&& end.epoch == epoch
            &&& at >= 0
            &&& end.window[at] == (sequence, offset)
            &&& forall|i: int| 0 <= i < at ==> (#[trigger] end.window[i]).0 != sequence
            &&& later.len() == 0 ==> end == tail
            &&& later.len() > 0 ==> end.seen && end.next_sequence == next_of(later.last().1)
        }),
    decreases later.len(),
{
    if later.len() > 0 {
        lemma_after_all(tail, epoch, sequence, offset, later.drop_last());
        let before = after_all(tail, epoch, later.drop_last());
        let end = after_all(tail, epoch, later);
        let at = end.window.len() - 1 - later.len();
        let was = before.window.len() - later.len();
        if before.window.len() == IDEMPOTENT_WINDOW {
            assert forall|i: int| 0 <= i <= at implies #[trigger] end.window[i] == before.window[i
                + 1] by {}
        } else {
            assert forall|i: int| 0 <= i <= at implies #[trigger] end.window[i]
                == before.window[i] by {}
        }
        assert(end.window[at] == before.window[was]);
    }
}

/// A batch that was admitted is answered with its own offset when it is sent again,
/// until [`IDEMPOTENT_WINDOW`] batches of its epoch came after it.
pub proof fn a_retry_is_recognised(
    tail: Tail,
    epoch: i16,
    base_sequence: i32,
    last_sequence: i32,
    offset: i64,
    later: Seq<(i32, i32, i64)>,
)
    requires
        tail.bounded(),
        tail.class(epoch, base_sequence) is Admit,
        // No batch of the window has the same sequence: sequences wrap.
        epoch > tail.epoch || offset_in(tail.window, base_sequence) is None,
        later.len() < IDEMPOTENT_WINDOW,
        // The sequence is not due again: sequences wrap.
        next_of(if later.len() == 0 { last_sequence } else { later.last().1 }) != base_sequence,
    ensures
        after_all(tail.after(epoch, base_sequence, last_sequence, offset), epoch, later).class(
            epoch,
            base_sequence,
        ) == IdempotentClass::Duplicate(offset),
{
    let written = tail.after(epoch, base_sequence, last_sequence, offset);
    if epoch == tail.epoch {
        lemma_no_offset(tail.window, base_sequence);
    }
    assert forall|i: int| 0 <= i < written.window.len() - 1 implies (#[trigger] written.window[i]).0
        != base_sequence by {
        if tail.window.len() == IDEMPOTENT_WINDOW && epoch == tail.epoch {
            assert(written.window[i] == tail.window[i + 1]);
        } else {
            assert(written.window[i] == tail.window[i]);
        }
    }
    assert(written.window.last() == (base_sequence, offset));
    lemma_after_all(written, epoch, base_sequence, offset, later);
    let end = after_all(written, epoch, later);
    lemma_offset_at(end.window, base_sequence, end.window.len() - 1 - later.len());
}

/// A superseded epoch is refused, whatever it sends, and a refused batch of the
/// current epoch is neither next in its sequence nor in the window.
pub proof fn what_is_refused(tail: Tail, epoch: i16, base_sequence: i32)
    ensures
        tail.class(epoch, base_sequence) is Fenced <==> epoch < tail.epoch,
        tail.class(epoch, base_sequence) is OutOfOrder && epoch == tail.epoch ==> base_sequence
            != tail.expects() && offset_in(tail.window, base_sequence) is None,
{
}

proof fn lemma_fold_push(tail: Tail, coords: Seq<ProducerCoord>, coord: ProducerCoord, id: i64, base: i64)
    ensures
        fold_coords(tail, coords.push(coord), id, base) == fold_coords(
            fold_coords(tail, coords, id, base),
            seq![coord],
            id,
            base,
        ),
    decreases coords.len(),
{
    let all = coords.push(coord);
    if coords.len() == 0 {
        assert(all =~= seq![coord]);
    } else {
        assert(all.skip(1) =~= coords.skip(1).push(coord));
        let head = coords[0];
        let next = if head.carries_sequence() && head.producer_id == id {
            tail.after(
                head.producer_epoch,
                head.base_sequence,
                head.last_sequence,
                (base + head.offset_delta) as i64,
            )
        } else {
            tail
        };
        lemma_fold_push(next, coords.skip(1), coord, id, base);
    }
}

proof fn lemma_fold_one(tail: Tail, coord: ProducerCoord, id: i64, base: i64)
    ensures
        fold_coords(tail, seq![coord], id, base) == if coord.carries_sequence()
            && coord.producer_id == id {
            tail.after(
                coord.producer_epoch,
                coord.base_sequence,
                coord.last_sequence,
                (base + coord.offset_delta) as i64,
            )
        } else {
            tail
        },
{
    reveal_with_fuel(fold_coords, 2);
    assert(seq![coord].skip(1) =~= Seq::empty());
}

/// Whether the footer's coordinates of a batch tell what the batch did to the tail
/// of a producer: only an idempotent batch is of a producer's stream, and it carries
/// a sequence.
pub open spec fn tells(batch: RecordBatch, id: i64) -> bool {
    &&& batch.last_offset_delta >= 0
    &&& batch.producer_id == id ==> batch.idempotent && !batch.control && batch.base_sequence != -1
}

proof fn lemma_span_grows(batches: Seq<RecordBatch>, id: i64)
    requires
        forall|i: int| 0 <= i < batches.len() ==> tells(#[trigger] batches[i], id),
    ensures
        span_of(batches) >= 0,
    decreases batches.len(),
{
    if batches.len() > 0 {
        let init = batches.drop_last();
        assert forall|i: int| 0 <= i < init.len() implies tells(#[trigger] init[i], id) by {
            assert(init[i] == batches[i]);
        }
        lemma_span_grows(init, id);
        assert(tells(batches[batches.len() - 1], id));
    }
}

proof fn lemma_written_tell(batches: Seq<RecordBatch>, base: int, folded: spec_fn(i64) -> Tail, id: i64)
    requires
        forall|i: int| 0 <= i < batches.len() ==> tells(#[trigger] batches[i], id),
    ensures
        ({
            let written = assigned(batches, base, folded).batches;
            forall|i: int| 0 <= i < written.len() ==> tells(#[trigger] written[i], id)
        }),
    decreases batches.len(),
{
    if batches.len() > 0 {
        let init = batches.drop_last();
        assert forall|i: int| 0 <= i < init.len() implies tells(#[trigger] init[i], id) by {
            assert(init[i] == batches[i]);
        }
        lemma_written_tell(init, base, folded, id);
        assert(tells(batches[batches.len() - 1], id));
        let before = assigned(init, base, folded).batches;
        let written = assigned(batches, base, folded).batches;
        assert forall|i: int| 0 <= i < written.len() implies tells(#[trigger] written[i], id) by {
            if i < before.len() {
                assert(written[i] == before[i]);
            }
        }
    }
}

/// The tail of a producer after a run of batches was assigned.
pub open spec fn reserved(state: Assigned, folded: spec_fn(i64) -> Tail, id: i64) -> Tail {
    if state.tails.dom().contains(id) {
        state.tails[id]
    } else {
        folded(id)
    }
}

/// The footer of what is written folds to the tails that its writer worked with:
/// whoever reads the segment judges the next batch as the writer would.
pub proof fn the_log_folds_to_what_was_reserved(
    batches: Seq<RecordBatch>,
    base: i64,
    folded: spec_fn(i64) -> Tail,
    id: i64,
)
    requires
        forall|i: int| 0 <= i < batches.len() ==> tells(#[trigger] batches[i], id),
        span_of(assigned(batches, base as int, folded).batches) <= u32::MAX,
        base + span_of(assigned(batches, base as int, folded).batches) <= i64::MAX,
    ensures
        fold_coords(
            folded(id),
            coords_of(assigned(batches, base as int, folded).batches),
            id,
            base,
        ) == reserved(assigned(batches, base as int, folded), folded, id),
    decreases batches.len(),
{
    if batches.len() > 0 {
        let init = batches.drop_last();
        let batch = batches.last();
        assert forall|i: int| 0 <= i < init.len() implies tells(#[trigger] init[i], id) by {
            assert(init[i] == batches[i]);
        }
        assert(tells(batches[batches.len() - 1], id));
        let before = assigned(init, base as int, folded);
        let after = assigned(batches, base as int, folded);
        assigned_offsets_leave_no_gap(init, base as int, folded);
        lemma_written_tell(init, base as int, folded, id);
        lemma_span_grows(before.batches, id);
        if after.batches.len() != before.batches.len() {
            assert(after.batches.drop_last() =~= before.batches);
            assert(after.batches.last() == batch);
            the_log_folds_to_what_was_reserved(init, base, folded, id);
            let coord = coord_of(batch, span_of(before.batches));
            if batch.is_indexed() {
                lemma_fold_push(folded(id), coords_of(before.batches), coord, id, base);
                lemma_fold_one(
                    fold_coords(folded(id), coords_of(before.batches), id, base),
                    coord,
                    id,
                    base,
                );
                if batch.producer_id == id {
                    assert(0u8 & FLAG_CONTROL == 0 && FLAG_TRANSACTIONAL & FLAG_CONTROL == 0)
                        by (bit_vector);
                    assert(coord.carries_sequence());
                    assert(base + coord.offset_delta == before.running);
                }
            }
        } else {
            assert(after.batches =~= before.batches);
            the_log_folds_to_what_was_reserved(init, base, folded, id);
        }
    } else {
        assert(coords_of(Seq::<RecordBatch>::empty()) =~= Seq::empty());
    }
}

/// A batch that was written is not written again: sent once more to whoever has
/// folded the segment, it is answered with the offset that it was given.
pub proof fn a_batch_is_written_once(
    earlier: Seq<RecordBatch>,
    batch: RecordBatch,
    base: i64,
    folded: spec_fn(i64) -> Tail,
    next_base: i64,
    refolded: spec_fn(i64) -> Tail,
)
    requires
        ({
            let all = earlier.push(batch);
            let id = batch.producer_id;
            let before = assigned(earlier, base as int, folded);
            let state = assigned(all, base as int, folded);
            let tail = reserved(before, folded, id);
            &&& batch.idempotent
            &&& forall|i: int| 0 <= i < all.len() ==> tells(#[trigger] all[i], id)
            &&& span_of(state.batches) <= u32::MAX
            &&& base + span_of(state.batches) <= i64::MAX
            // The batch was written, and its sequence is not due again.
            &&& tail.bounded()
            &&& tail.class(batch.producer_epoch, batch.base_sequence) is Admit
            &&& batch.producer_epoch > tail.epoch || offset_in(tail.window, batch.base_sequence)
                is None
            &&& next_of(batch.base_sequence.wrapping_add(batch.last_offset_delta))
                != batch.base_sequence
            // The segment was folded.
            &&& refolded(id) == fold_coords(folded(id), coords_of(state.batches), id, base)
        }),
    ensures
        ({
            let first = assigned(earlier.push(batch), base as int, folded);
            let again = assigned(seq![batch], next_base as int, refolded);
            &&& first.outcomes.last() is Ok
            &&& again.outcomes == seq![first.outcomes.last()]
            &&& again.batches.len() == 0
            &&& again.running == next_base
        }),
{
    let all = earlier.push(batch);
    let id = batch.producer_id;
    assert(all.drop_last() =~= earlier);
    assert(all.last() == batch);
    let before = assigned(earlier, base as int, folded);
    let state = assigned(all, base as int, folded);
    let tail = reserved(before, folded, id);
    the_log_folds_to_what_was_reserved(all, base, folded, id);
    let last = batch.base_sequence.wrapping_add(batch.last_offset_delta);
    let given = before.running as i64;
    assert(state.tails[id] == tail.after(batch.producer_epoch, batch.base_sequence, last, given));
    a_retry_is_recognised(
        tail,
        batch.producer_epoch,
        batch.base_sequence,
        last,
        given,
        Seq::empty(),
    );
    let once = seq![batch];
    reveal_with_fuel(assigned, 2);
    assert(once.drop_last() =~= Seq::empty());
    assert(assigned(once, next_base as int, refolded).outcomes =~= seq![Ok::<i64, crate::error::ErrorCode>(given)]);
}

} // verus!
