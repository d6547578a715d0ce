//! Idempotent producers: the coordinates a footer records of each producer's
//! batches, the tail they fold into, and the pruning that keeps the resident
//! coordinates bounded.

use vstd::prelude::*;

verus! {

/// Batches per producer within which a retry is recognised.
pub const IDEMPOTENT_WINDOW: usize = 5;

/// A coordinate of a transactional batch.
pub const FLAG_TRANSACTIONAL: u8 = 1;

/// A coordinate of a control batch: a transaction marker.
pub const FLAG_CONTROL: u8 = 2;

/// Where one batch of one producer lies within its sub-stream.
#[derive(Clone, Copy, Debug, PartialEq, Eq, Structural)]
pub struct ProducerCoord {
    pub producer_id: i64,
    pub producer_epoch: i16,
    pub base_sequence: i32,
    pub last_sequence: i32,
    /// Offset of the batch, counted from the base offset of its region.
    pub offset_delta: u32,
    pub flags: u8,
}

impl ProducerCoord {
    /// Whether the coordinate carries an idempotent sequence.
    pub open spec fn carries_sequence(self) -> bool {
        self.flags & FLAG_CONTROL == 0 && self.base_sequence != -1
    }

    /// Whether the coordinate may be folded into a tail: a transaction marker
    /// carries no sequence of its producer's stream.
    pub fn folds(&self) -> (folds: bool)
        ensures
            folds == self.carries_sequence(),
    {
        self.flags & FLAG_CONTROL == 0 && self.base_sequence != -1
    }
}

/// What a batch is, against the tail of its producer.
#[derive(Clone, Copy, Debug, PartialEq, Eq, Structural)]
pub enum IdempotentClass {
    /// In order: append it.
    Admit,
    /// Already in the log, at this offset.
    Duplicate(i64),
    /// A gap in the sequence.
    OutOfOrder,
    /// Written by an epoch that has been superseded.
    Fenced,
}

/// The mathematical tail of a producer.
#[verifier::ext_equal]
pub struct Tail {
    pub epoch: i16,
    pub seen: bool,
    pub next_sequence: i32,
    /// Base sequence and offset of the latest batches, oldest first.
    pub window: Seq<(i32, i64)>,
}

/// What the log says of one producer's stream.
#[derive(Clone, Debug, PartialEq, Eq)]
pub struct ProducerTail {
    pub epoch: i16,
    pub seen: bool,
    pub next_sequence: i32,
    pub window: Vec<(i32, i64)>,
}

impl View for ProducerTail {
    type V = Tail;

    open spec fn view(&self) -> Tail {
        Tail {
            epoch: self.epoch,
            seen: self.seen,
            next_sequence: self.next_sequence,
            window: self.window@,
        }
    }
}

/// The sequence that follows `sequence`: past the greatest comes zero.
pub open spec fn next_of(sequence: i32) -> i32 {
    if sequence == i32::MAX {
        0
    } else {
        (sequence + 1) as i32
    }
}

/// The offset of the first batch of `window` with base sequence `sequence`.
pub open spec fn offset_in(window: Seq<(i32, i64)>, sequence: i32) -> Option<i64>
    decreases window.len(),
{
    if window.len() == 0 {
        None
    } else if window[0].0 == sequence {
        Some(window[0].1)
    } else {
        offset_in(window.skip(1), sequence)
    }
}

impl Tail {
    /// The tail of a producer that the log does not know.
    pub open spec fn unseen() -> Tail {
        Tail { epoch: 0, seen: false, next_sequence: 0, window: Seq::empty() }
    }

    /// The window never outgrows [`IDEMPOTENT_WINDOW`].
    pub open spec fn bounded(self) -> bool {
        self.window.len() <= IDEMPOTENT_WINDOW
    }

    /// The sequence that a batch in order carries.
    pub open spec fn expects(self) -> i32 {
        if self.seen {
            self.next_sequence
        } else {
            0
        }
    }

    /// The tail after one more batch of the log. A superseded epoch changes
    /// nothing; a new one starts the stream over.
    pub open spec fn after(self, epoch: i16, base_sequence: i32, last_sequence: i32, offset: i64) -> Tail {
        if epoch < self.epoch {
            self
        } else {
            let kept = if epoch > self.epoch {
                Seq::empty()
            } else if self.window.len() == IDEMPOTENT_WINDOW {
                self.window.skip(1)
            } else {
                self.window
            };
            Tail {
                epoch,
                seen: true,
                next_sequence: next_of(last_sequence),
                window: kept.push((base_sequence, offset)),
            }
        }
    }

    /// What a batch of `epoch` starting at `base_sequence` is.
    pub open spec fn class(self, epoch: i16, base_sequence: i32) -> IdempotentClass {
        let expected = if epoch > self.epoch {
            0i32
        } else {
            self.expects()
        };
        if epoch < self.epoch {
            IdempotentClass::Fenced
        } else if base_sequence == expected {
            IdempotentClass::Admit
        } else if epoch > self.epoch {
            IdempotentClass::OutOfOrder
        } else {
            match offset_in(self.window, base_sequence) {
                Some(offset) => IdempotentClass::Duplicate(offset),
                None => IdempotentClass::OutOfOrder,
            }
        }
    }
}

impl Default for ProducerTail {
    /// The tail of a producer that the log does not know.
    fn default() -> (tail: Self)
        ensures
            tail@ == Tail::unseen(),
    {
        ProducerTail { epoch: 0, seen: false, next_sequence: 0, window: Vec::new() }
    }
}

impl ProducerTail {
    /// The sequence that a next batch in order must carry.
    pub fn expected(&self) -> (sequence: i32)
        ensures
            sequence == self@.expects(),
    {
        if self.seen {
            self.next_sequence
        } else {
            0
        }
    }

    /// The sequence that follows `sequence`, which wraps past the greatest back
    /// to zero: sequences stay non-negative.
    pub fn seq_increment(sequence: i32) -> (next: i32)
        ensures
            next == next_of(sequence),
    {
        if sequence == i32::MAX {
            0
        } else {
            sequence + 1
        }
    }

    /// Fold one batch's coordinate, in log order, into the tail.
    pub fn fold(&mut self, epoch: i16, base_sequence: i32, last_sequence: i32, base_offset: i64)
        requires
            old(self)@.bounded(),
        ensures
            final(self)@ == old(self)@.after(epoch, base_sequence, last_sequence, base_offset),
            final(self)@.bounded(),
    {
        if epoch < self.epoch {
            return ;
        }
        if epoch > self.epoch {
            self.window.clear();
        }
        self.epoch = epoch;
        self.seen = true;
        self.next_sequence = Self::seq_increment(last_sequence);
        if self.window.len() == IDEMPOTENT_WINDOW {
            let _ = self.window.remove(0);
            assert(self.window@ =~= old(self).window@.skip(1));
        }
        self.window.push((base_sequence, base_offset));
        assert(self@ =~= old(self)@.after(epoch, base_sequence, last_sequence, base_offset));
    }

    /// Classify a batch against the folded tail.
    pub fn classify(&self, epoch: i16, base_sequence: i32) -> (class: IdempotentClass)
        ensures
            class == self@.class(epoch, base_sequence),
    {
        if epoch < self.epoch {
            return IdempotentClass::Fenced;
        }
        let fresh = epoch > self.epoch;
        let expected: i32 = if fresh {
            0
        } else {
            self.expected()
        };
        if base_sequence == expected {
            return IdempotentClass::Admit;
        }
        if fresh {
            return IdempotentClass::OutOfOrder;
        }
        let mut at: usize = 0;
        assert(self.window@.skip(0) =~= self.window@);
        while at < self.window.len()
            invariant
                at <= self.window@.len(),
                offset_in(self.window@, base_sequence) == offset_in(
                    self.window@.skip(at as int),
                    base_sequence,
                ),
                epoch == self.epoch,
                base_sequence != self@.expects(),
            decreases self.window@.len() - at,
        {
            let (sequence, offset) = self.window[at];
            if sequence == base_sequence {
                return IdempotentClass::Duplicate(offset);
            }
            assert(self.window@.skip(at as int).skip(1) =~= self.window@.skip(at + 1));
            at = at + 1;
        }
        IdempotentClass::OutOfOrder
    }
}

/// A newer epoch starts the stream over: whatever the tail expects of the epoch that
/// it knows, the first batch of a newer one carries the sequence zero, and any other
/// is out of order, also where the older epoch had a batch with that sequence.
pub proof fn a_newer_epoch_starts_over(tail: Tail, epoch: i16, base_sequence: i32)
    requires
        epoch > tail.epoch,
    ensures
        tail.class(epoch, base_sequence) is Admit <==> base_sequence == 0,
        tail.class(epoch, base_sequence) is OutOfOrder <==> base_sequence != 0,
{
}

/// Within an epoch the sequences are taken one after the other: once a batch was
/// folded, exactly the sequence that follows its last one is admitted, zero where
/// its last one was the greatest; and before any was folded, exactly zero.
pub proof fn sequences_are_taken_in_order(
    tail: Tail,
    epoch: i16,
    base_sequence: i32,
    last_sequence: i32,
    offset: i64,
    next: i32,
)
    requires
        epoch >= tail.epoch,
    ensures
        tail.after(epoch, base_sequence, last_sequence, offset).class(epoch, next) is Admit <==> next
            == if last_sequence == i32::MAX {
            0
        } else {
            last_sequence + 1
        },
        !tail.seen ==> (tail.class(tail.epoch, next) is Admit <==> next == 0),
        Tail::unseen().class(0, next) is Admit <==> next == 0,
{
}

/// What is folded of an epoch that was superseded leaves the tail as it was, and what
/// is folded of any other makes its epoch the one that is known, so that every lower
/// epoch is fenced from then on.
pub proof fn folding_fences_what_is_older(
    tail: Tail,
    epoch: i16,
    base_sequence: i32,
    last_sequence: i32,
    offset: i64,
    other: i16,
    sequence: i32,
)
    ensures
        epoch < tail.epoch ==> tail.after(epoch, base_sequence, last_sequence, offset) == tail,
        tail.after(epoch, base_sequence, last_sequence, offset).epoch >= epoch,
        tail.after(epoch, base_sequence, last_sequence, offset).epoch >= tail.epoch,
        tail.after(epoch, base_sequence, last_sequence, offset).class(other, sequence) is Fenced
            <==> other < epoch || other < tail.epoch,
{
}

/// What a batch is called a duplicate of was folded with that very sequence, at that
/// very offset, under the epoch that the tail knows; and no batch that is not next in
/// order and whose sequence the window holds is taken for a new one.
pub proof fn duplicates_are_of_the_window(tail: Tail, epoch: i16, base_sequence: i32, offset: i64)
    ensures
        tail.class(epoch, base_sequence) == IdempotentClass::Duplicate(offset) ==> epoch
            == tail.epoch && tail.window.contains((base_sequence, offset)),
        epoch == tail.epoch && tail.window.contains((base_sequence, offset)) ==> tail.class(
            epoch,
            base_sequence,
        ) !is OutOfOrder,
{
    lemma_offset_in(tail.window, base_sequence);
}

proof fn lemma_offset_in(window: Seq<(i32, i64)>, sequence: i32)
    ensures
        match offset_in(window, sequence) {
            Some(offset) => window.contains((sequence, offset)),
            None => forall|offset: i64| !#[trigger] window.contains((sequence, offset)),
        },
    decreases window.len(),
{
    if window.len() > 0 {
        let rest = window.skip(1);
        lemma_offset_in(rest, sequence);
        if window[0].0 == sequence {
            assert(window[0] == (sequence, window[0].1));
        } else {
            match offset_in(rest, sequence) {
                Some(offset) => {
                    let i = choose|i: int| 0 <= i < rest.len() && rest[i] == (sequence, offset);
                    assert(window[i + 1] == (sequence, offset));
                },
                None => {
                    assert forall|offset: i64| !#[trigger] window.contains((sequence, offset)) by {
                        if window.contains((sequence, offset)) {
                            let i = choose|i: int|
                                0 <= i < window.len() && window[i] == (sequence, offset);
                            assert(rest[i - 1] == (sequence, offset));
                            assert(rest.contains((sequence, offset)));
                        }
                    }
                },
            }
        }
    }
}

/// A coordinate carries a sequence if and only if it is of no marker and states one.
pub proof fn a_marker_carries_no_sequence(coord: ProducerCoord)
    ensures
        coord.carries_sequence() <==> coord.flags % 4 < 2 && coord.base_sequence != -1,
{
    let flags = coord.flags;
    assert(flags & 2 == 0 <==> flags % 4 < 2) by (bit_vector);
}

/// The first batch of a newer epoch is all that is known of it: its own sequence is told
/// as a duplicate, the one behind it is admitted, and any other is out of order, whatever
/// the older epoch wrote.
pub proof fn a_newer_epoch_forgets_the_older(
    tail: Tail,
    epoch: i16,
    base_sequence: i32,
    last_sequence: i32,
    offset: i64,
    sequence: i32,
)
    requires
        epoch > tail.epoch,
        sequence != if last_sequence == i32::MAX {
            0
        } else {
            last_sequence + 1
        },
    ensures
        tail.after(epoch, base_sequence, last_sequence, offset).class(epoch, sequence)
            == if sequence == base_sequence {
            IdempotentClass::Duplicate(offset)
        } else {
            IdempotentClass::OutOfOrder
        },
{
    let after = tail.after(epoch, base_sequence, last_sequence, offset);
    reveal_with_fuel(offset_in, 2);
    assert(after.window =~= seq![(base_sequence, offset)]);
    assert(after.window.skip(1) =~= Seq::empty());
}

/// A window holds the last batches of its epoch, in the order they were folded: another
/// goes behind them, and once it is full the oldest goes.
pub proof fn a_window_holds_the_last_batches(
    tail: Tail,
    base_sequence: i32,
    last_sequence: i32,
    offset: i64,
)
    ensures
        ({
            let after = tail.after(tail.epoch, base_sequence, last_sequence, offset);
            &&& after.window.len() > 0
            &&& after.window.last() == (base_sequence, offset)
            &&& tail.window.len() < IDEMPOTENT_WINDOW ==> after.window.drop_last() == tail.window
            &&& tail.window.len() == IDEMPOTENT_WINDOW ==> after.window.drop_last()
                == tail.window.drop_first()
            &&& after.seen
            &&& after.epoch == tail.epoch
        }),
{
    let after = tail.after(tail.epoch, base_sequence, last_sequence, offset);
    if tail.window.len() == IDEMPOTENT_WINDOW {
        assert(after.window.drop_last() =~= tail.window.drop_first());
    } else {
        assert(after.window.drop_last() =~= tail.window);
    }
}

} // verus!
