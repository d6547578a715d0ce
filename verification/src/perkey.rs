//! Keeping one record of each key: what becomes of each batch, of each region and
//! of each segment.
//!
//! The regions of a partition are walked newest first, and so are the batches of a
//! region: a key that was met is superseded in everything that follows.

use crate::ordmap::{Key, OrdMap};
use crate::segment::{
    batches_view, span_of, writes_view, Batch, Identity, RecordBatch, SubstreamWrite, Topition,
    Write,
};
use crate::merge::RunSubstream;
use vstd::prelude::*;

verus! {

/// The order of byte strings.
pub open spec fn bytes_before(a: Seq<u8>, b: Seq<u8>) -> bool
    decreases a.len(),
{
    if b.len() == 0 {
        false
    } else if a.len() == 0 {
        true
    } else if a[0] != b[0] {
        a[0] < b[0]
    } else {
        bytes_before(a.skip(1), b.skip(1))
    }
}

proof fn lemma_bytes_irreflexive(a: Seq<u8>)
    ensures
        !bytes_before(a, a),
    decreases a.len(),
{
    if a.len() > 0 {
        lemma_bytes_irreflexive(a.skip(1));
    }
}

proof fn lemma_bytes_transitive(a: Seq<u8>, b: Seq<u8>, c: Seq<u8>)
    requires
        bytes_before(a, b),
        bytes_before(b, c),
    ensures
        bytes_before(a, c),
    decreases a.len(),
{
    if a.len() > 0 && a[0] == b[0] && b[0] == c[0] {
        lemma_bytes_transitive(a.skip(1), b.skip(1), c.skip(1));
    }
}

proof fn lemma_bytes_total(a: Seq<u8>, b: Seq<u8>)
    ensures
        bytes_before(a, b) || a == b || bytes_before(b, a),
    decreases a.len(),
{
    if a.len() == 0 {
        if b.len() == 0 {
            assert(a =~= b);
        }
    } else if b.len() > 0 && a[0] == b[0] {
        lemma_bytes_total(a.skip(1), b.skip(1));
        if a.skip(1) == b.skip(1) {
            assert(a =~= seq![a[0]] + a.skip(1));
            assert(b =~= seq![b[0]] + b.skip(1));
        }
    }
}

/// A record key.
#[derive(Debug)]
pub struct RecordKey {
    pub bytes: Vec<u8>,
}

impl View for RecordKey {
    type V = Seq<u8>;

    open spec fn view(&self) -> Seq<u8> {
        self.bytes@
    }
}

impl Key for RecordKey {
    open spec fn before(a: Seq<u8>, b: Seq<u8>) -> bool {
        bytes_before(a, b)
    }

    proof fn before_irreflexive(a: Seq<u8>) {
        assert(Self::before(a, a) == bytes_before(a, a));
        lemma_bytes_irreflexive(a);
    }

    proof fn before_transitive(a: Seq<u8>, b: Seq<u8>, c: Seq<u8>) {
        assert(Self::before(a, b) == bytes_before(a, b));
        assert(Self::before(b, c) == bytes_before(b, c));
        assert(Self::before(a, c) == bytes_before(a, c));
        lemma_bytes_transitive(a, b, c);
    }

    proof fn before_total(a: Seq<u8>, b: Seq<u8>) {
        assert(Self::before(a, b) == bytes_before(a, b));
        assert(Self::before(b, a) == bytes_before(b, a));
        lemma_bytes_total(a, b);
    }

    fn less(&self, other: &Self) -> (less: bool) {
        assert(Self::before(self@, other@) == bytes_before(self@, other@));
        let mut at: usize = 0;
        assert(self@.skip(0) =~= self@);
        assert(other@.skip(0) =~= other@);
        while at < self.bytes.len() && at < other.bytes.len()
            invariant
                at <= self@.len(),
                at <= other@.len(),
                bytes_before(self@, other@) == bytes_before(
                    self@.skip(at as int),
                    other@.skip(at as int),
                ),
            decreases self@.len() - at,
        {
            if self.bytes[at] != other.bytes[at] {
                return self.bytes[at] < other.bytes[at];
            }
            assert(self@.skip(at as int).skip(1) =~= self@.skip(at + 1));
            assert(other@.skip(at as int).skip(1) =~= other@.skip(at + 1));
            at = at + 1;
        }
        at < other.bytes.len()
    }

    fn same(&self, other: &Self) -> (same: bool) {
        if self.bytes.len() != other.bytes.len() {
            return false;
        }
        let mut at: usize = 0;
        while at < self.bytes.len()
            invariant
                self@.len() == other@.len(),
                at <= self@.len(),
                forall|i: int| 0 <= i < at ==> self@[i] == other@[i],
            decreases self@.len() - at,
        {
            if self.bytes[at] != other.bytes[at] {
                return false;
            }
            at = at + 1;
        }
        assert(self@ =~= other@);
        true
    }

    fn duplicate(&self) -> (copy: Self) {
        RecordKey { bytes: crate::segment::copy_all(&self.bytes) }
    }
}

/// What the batch compactor made of a batch, of which it dropped every record
/// whose key was met before.
#[derive(Debug)]
pub struct BatchCompaction {
    pub batch: Batch,
    /// The keys that are left.
    pub keys: Vec<RecordKey>,
    /// How many records were dropped.
    pub removed: u64,
    /// Whether the batch's own frame is one that not every client reads.
    pub repair_frame: bool,
}

/// The set of the keys of a list.
pub open spec fn key_set(keys: Seq<RecordKey>) -> Set<Seq<u8>>
    decreases keys.len(),
{
    if keys.len() == 0 {
        Set::empty()
    } else {
        key_set(keys.drop_last()).insert(keys.last()@)
    }
}

/// A sum that stops at the largest number.
pub open spec fn sum_up(a: u64, b: u64) -> u64 {
    if a + b > u64::MAX {
        u64::MAX
    } else {
        (a + b) as u64
    }
}

/// A region after the walk over it.
#[derive(Debug)]
pub struct StagedRegion {
    pub seq: u64,
    pub base: i64,
    pub batches: Vec<Batch>,
    pub removed: u64,
    pub repaired: u64,
}

/// The mathematical region.
#[verifier::ext_equal]
pub struct Staged {
    pub seq: u64,
    pub base: i64,
    pub batches: Seq<RecordBatch>,
    pub removed: u64,
    pub repaired: u64,
}

impl View for StagedRegion {
    type V = Staged;

    open spec fn view(&self) -> Staged {
        Staged {
            seq: self.seq,
            base: self.base,
            batches: batches_view(self.batches@),
            removed: self.removed,
            repaired: self.repaired,
        }
    }
}

impl Staged {
    /// Whether the segment is to be written again for it.
    pub open spec fn is_dirty(self) -> bool {
        self.removed > 0 || self.repaired > 0
    }
}

/// Whether a batch is carried as it is: a transaction's markers bound what a
/// reader of committed records sees, and its records may yet be aborted, so
/// neither is dropped and neither supersedes anything.
pub open spec fn exempt(batch: RecordBatch) -> bool {
    batch.control || batch.transactional
}

/// Whether a batch is carried as it is.
pub fn is_exempt(batch: &Batch) -> (is_exempt: bool)
    ensures
        is_exempt == exempt(batch@),
{
    batch.control || batch.transactional
}

/// The walk over the regions of one partition.
#[derive(Debug)]
pub struct KeyPass {
    /// The keys that were met.
    pub seen: OrdMap<RecordKey, ()>,
    /// How many keys are told apart at most.
    pub cap: usize,
    /// The batches of the region that is walked, newest first.
    pub batches: Vec<Batch>,
    pub removed: u64,
    pub repaired: u64,
}

impl KeyPass {
    pub open spec fn wf(&self) -> bool {
        self.seen.wf()
    }

    /// A walk that met no key yet.
    pub fn new(cap: usize) -> (pass: Self)
        ensures
            pass.wf(),
            pass.cap == cap,
            pass.seen@.dom() == Set::<Seq<u8>>::empty(),
            batches_view(pass.batches@) == Seq::<RecordBatch>::empty(),
            pass.removed == 0,
            pass.repaired == 0,
    {
        let pass = KeyPass {
            seen: OrdMap::new(),
            cap,
            batches: Vec::new(),
            removed: 0,
            repaired: 0,
        };
        assert(pass.seen@.dom() =~= Set::<Seq<u8>>::empty());
        assert(batches_view(pass.batches@) =~= Seq::<RecordBatch>::empty());
        pass
    }

    /// Carry a batch as it is.
    pub fn carry(&mut self, batch: Batch)
        requires
            old(self).wf(),
        ensures
            final(self).wf(),
            *final(self) == (KeyPass { batches: final(self).batches, ..*old(self) }),
            batches_view(final(self).batches@) == batches_view(old(self).batches@).push(batch@),
    {
        let ghost before = self.batches@;
        self.batches.push(batch);
        assert(batches_view(self.batches@) =~= batches_view(before).push(batch@));
    }

    /// Take a batch and what the compactor made of it. The answer is whether the
    /// walk goes on: it is given up where more keys were met than are told apart.
    pub fn take(&mut self, batch: Batch, compaction: BatchCompaction) -> (goes_on: bool)
        requires
            old(self).wf(),
        ensures
            final(self).wf(),
            final(self).cap == old(self).cap,
            final(self).seen@.dom() == old(self).seen@.dom().union(key_set(compaction.keys@)),
            goes_on == (final(self).seen@.dom().len() <= old(self).cap),
            goes_on ==> {
                &&& batches_view(final(self).batches@) == batches_view(old(self).batches@).push(
                    settled(batch@, compaction),
                )
                &&& final(self).removed == sum_up(old(self).removed, compaction.removed)
                &&& final(self).repaired == if compaction.removed == 0 && compaction.repair_frame {
                    sum_up(old(self).repaired, 1)
                } else {
                    old(self).repaired
                }
            },
    {
        let ghost before = self.batches@;
        let ghost keys = compaction.keys@;
        let ghost met = self.seen@.dom();
        let BatchCompaction { batch: compacted, keys: left, removed, repair_frame } = compaction;
        let ghost mut done: int = 0;
        assert(keys.take(0) =~= Seq::empty());
        assert(met.union(key_set(keys.take(0))) =~= met);
        for key in it: left.into_iter()
            invariant
                it.seq() == keys,
                done == it.index(),
                self.wf(),
                *self == (KeyPass { seen: self.seen, ..*old(self) }),
                self.seen@.dom() == met.union(key_set(keys.take(done))),
        {
            let ghost known = self.seen@.dom();
            proof {
                assert(keys.take(done + 1).drop_last() =~= keys.take(done));
                assert(keys.take(done + 1).last() == key);
                done = done + 1;
            }
            let _ = self.seen.insert(key, ());
            assert(self.seen@.dom() =~= met.union(key_set(keys.take(done))));
        }
        proof {
            assert(keys.take(done) =~= keys);
            crate::ordmap::lemma_count(self.seen.entries@);
        }
        if self.seen.len() > self.cap {
            return false;
        }
        if removed > 0 {
            self.removed = self.removed.saturating_add(removed);
            self.batches.push(compacted);
        } else if repair_frame {
            self.repaired = self.repaired.saturating_add(1);
            self.batches.push(compacted);
        } else {
            self.batches.push(batch);
        }
        assert(batches_view(self.batches@) =~= batches_view(before).push(
            settled(batch@, compaction),
        ));
        true
    }

    /// End the walk over a region, and start on the next.
    pub fn finish_region(&mut self, seq: u64, base: i64) -> (region: StagedRegion)
        requires
            old(self).wf(),
        ensures
            final(self).wf(),
            final(self).seen == old(self).seen,
            final(self).cap == old(self).cap,
            batches_view(final(self).batches@) == Seq::<RecordBatch>::empty(),
            final(self).removed == 0,
            final(self).repaired == 0,
            region@ == (Staged {
                seq,
                base,
                batches: batches_view(old(self).batches@).reverse(),
                removed: old(self).removed,
                repaired: old(self).repaired,
            }),
    {
        let ghost all = batches_view(self.batches@);
        let ghost whole = self.batches@;
        let mut batches: Vec<Batch> = Vec::new();
        while self.batches.len() > 0
            invariant
                all == batches_view(whole),
                self.wf(),
                self.seen == old(self).seen,
                self.cap == old(self).cap,
                self.removed == old(self).removed,
                self.repaired == old(self).repaired,
                self.batches@ == whole.take(self.batches@.len() as int),
                self.batches@.len() + batches@.len() == whole.len(),
                forall|i: int|
                    #![trigger batches@[i]]
                    0 <= i < batches@.len() ==> batches@[i] == whole[whole.len() - 1 - i],
            decreases self.batches@.len(),
        {
            let ghost left = self.batches@;
            if let Some(batch) = self.batches.pop() {
                assert(batch == left.last());
                batches.push(batch);
            }
        }
        assert(batches_view(batches@) =~= all.reverse());
        let region = StagedRegion {
            seq,
            base,
            batches,
            removed: self.removed,
            repaired: self.repaired,
        };
        self.removed = 0;
        self.repaired = 0;
        assert(batches_view(self.batches@) =~= Seq::<RecordBatch>::empty());
        region
    }
}

/// The batch that is kept: the compacted one where it lost records, or where the
/// frame is to be repaired, and else the very batch that was there.
pub open spec fn settled(batch: RecordBatch, compaction: BatchCompaction) -> RecordBatch {
    if compaction.removed > 0 || compaction.repair_frame {
        compaction.batch@
    } else {
        batch
    }
}

/// Which segments of a prefix are written again, and as what.
#[derive(Debug)]
pub struct KeyPlan {
    /// What each segment holds after the walk.
    pub outputs: OrdMap<u64, Vec<SubstreamWrite>>,
    /// The segments that are written again.
    pub dirty: OrdMap<u64, ()>,
    pub removed: u64,
    pub repaired: u64,
}

/// The views of what segments hold.
pub open spec fn outputs_view(outputs: Map<u64, Vec<SubstreamWrite>>) -> Map<u64, Seq<Write>> {
    outputs.map_values(|writes: Vec<SubstreamWrite>| writes_view(writes@))
}

/// The sub-stream that a region is written as.
pub open spec fn write_of(of: (Identity, Seq<char>, i32), base: i64, batches: Seq<RecordBatch>) -> Write {
    Write { topic: of.1, partition: of.2, identity: of.0, base_offset: base, batches }
}

/// What segments hold with another sub-stream.
pub open spec fn with_write(outputs: Map<u64, Seq<Write>>, seq: u64, write: Write) -> Map<
    u64,
    Seq<Write>,
> {
    outputs.insert(
        seq,
        if outputs.dom().contains(seq) {
            outputs[seq].push(write)
        } else {
            seq![write]
        },
    )
}

impl KeyPlan {
    pub open spec fn wf(&self) -> bool {
        self.outputs.wf() && self.dirty.wf()
    }

    /// A plan for nothing.
    pub fn new() -> (plan: Self)
        ensures
            plan.wf(),
            outputs_view(plan.outputs@) == Map::<u64, Seq<Write>>::empty(),
            plan.dirty@.dom() == Set::<u64>::empty(),
            plan.removed == 0,
            plan.repaired == 0,
    {
        let plan = KeyPlan {
            outputs: OrdMap::new(),
            dirty: OrdMap::new(),
            removed: 0,
            repaired: 0,
        };
        assert(outputs_view(plan.outputs@) =~= Map::<u64, Seq<Write>>::empty());
        assert(plan.dirty@.dom() =~= Set::<u64>::empty());
        plan
    }

    /// Let a segment hold a region as it was read: its partition was given up, but
    /// the segment may be written again for another.
    pub fn keep_original(&mut self, of: &RunSubstream, seq: u64, base: i64, batches: Vec<Batch>)
        requires
            old(self).wf(),
        ensures
            final(self).wf(),
            final(self).dirty == old(self).dirty,
            final(self).removed == old(self).removed,
            final(self).repaired == old(self).repaired,
            outputs_view(final(self).outputs@) == with_write(
                outputs_view(old(self).outputs@),
                seq,
                write_of(of@, base, batches_view(batches@)),
            ),
    {
        let write = SubstreamWrite {
            topition: Topition::new(of.topic.clone(), of.partition),
            substream: of.substream.duplicate(),
            base_offset: base,
            batches,
        };
        let ghost added = write@;
        assert(added =~= write_of(of@, base, batches_view(batches@)));
        let ghost before = outputs_view(self.outputs@);
        let (at, held) = self.outputs.find(&seq);
        if held {
            let writes = self.outputs.value_mut(at);
            let ghost was = writes@;
            writes.push(write);
            assert(writes_view(writes@) =~= writes_view(was).push(added));
        } else {
            let mut writes: Vec<SubstreamWrite> = Vec::new();
            writes.push(write);
            assert(writes_view(writes@) =~= seq![added]);
            let _ = self.outputs.insert(seq, writes);
        }
        assert(outputs_view(self.outputs@) =~= with_write(before, seq, added));
    }

    /// Let a segment hold a region as it is after the walk. The segment is written
    /// again where a record was dropped or a frame repaired.
    pub fn stage(&mut self, of: &RunSubstream, region: StagedRegion)
        requires
            old(self).wf(),
        ensures
            final(self).wf(),
            final(self).dirty@.dom() == if region@.is_dirty() {
                old(self).dirty@.dom().insert(region@.seq)
            } else {
                old(self).dirty@.dom()
            },
            final(self).removed == if region@.is_dirty() {
                sum_up(old(self).removed, region@.removed)
            } else {
                old(self).removed
            },
            final(self).repaired == if region@.is_dirty() {
                sum_up(old(self).repaired, region@.repaired)
            } else {
                old(self).repaired
            },
            outputs_view(final(self).outputs@) == with_write(
                outputs_view(old(self).outputs@),
                region@.seq,
                write_of(of@, region@.base, region@.batches),
            ),
    {
        if region.removed > 0 || region.repaired > 0 {
            let ghost before = self.dirty@.dom();
            let _ = self.dirty.insert(region.seq, ());
            assert(self.dirty@.dom() =~= before.insert(region.seq));
            self.removed = self.removed.saturating_add(region.removed);
            self.repaired = self.repaired.saturating_add(region.repaired);
        }
        self.keep_original(of, region.seq, region.base, region.batches);
    }
}

/// Rewriting a region keeps every offset: where the compactor leaves each batch's
/// span, the region spans what it did, and each batch begins where it did.
pub proof fn rewriting_keeps_every_offset(
    batches: Seq<RecordBatch>,
    kept: Seq<RecordBatch>,
    at: int,
)
    requires
        batches.len() == kept.len(),
        0 <= at <= batches.len(),
        forall|i: int|
            #![trigger kept[i]]
            0 <= i < kept.len() ==> kept[i].last_offset_delta == batches[i].last_offset_delta,
    ensures
        span_of(kept.take(at)) == span_of(batches.take(at)),
    decreases at,
{
    if at > 0 {
        rewriting_keeps_every_offset(batches, kept, at - 1);
        assert(kept.take(at).drop_last() =~= kept.take(at - 1));
        assert(batches.take(at).drop_last() =~= batches.take(at - 1));
        assert(kept.take(at).last() == kept[at - 1]);
        assert(batches.take(at).last() == batches[at - 1]);
    } else {
        assert(kept.take(0) =~= Seq::empty());
        assert(batches.take(0) =~= Seq::empty());
    }
}

/// What is kept of a batch: the compacted one if it lost a record or its frame is to be
/// repaired, and the very batch that was there otherwise.
pub proof fn an_untouched_batch_is_kept_as_it_is(batch: RecordBatch, compaction: BatchCompaction)
    ensures
        compaction.removed == 0 && !compaction.repair_frame ==> settled(batch, compaction) == batch,
        compaction.removed > 0 ==> settled(batch, compaction) == compaction.batch@,
        compaction.repair_frame ==> settled(batch, compaction) == compaction.batch@,
{
}

/// The keys of a list are all of those in it, each once, and no other.
pub proof fn every_key_is_met(keys: Seq<RecordKey>, key: Seq<u8>)
    ensures
        key_set(keys).contains(key) <==> exists|i: int|
            0 <= i < keys.len() && (#[trigger] keys[i])@ == key,
    decreases keys.len(),
{
    if keys.len() > 0 {
        let init = keys.drop_last();
        let end = keys.len() - 1;
        every_key_is_met(init, key);
        if key_set(init).contains(key) {
            let i = choose|i: int| 0 <= i < init.len() && (#[trigger] init[i])@ == key;
            assert(keys[i] == init[i]);
        } else if key_set(keys).contains(key) {
            assert(keys[end]@ == key);
        }
        if exists|i: int| 0 <= i < keys.len() && (#[trigger] keys[i])@ == key {
            let i = choose|i: int| 0 <= i < keys.len() && (#[trigger] keys[i])@ == key;
            if i < end {
                assert(init[i] == keys[i]);
            }
        }
    }
}

/// A segment has the sub-streams written to it in the order they came, each once, and
/// what is written to one segment leaves every other as it was.
pub proof fn a_write_goes_behind_the_others(
    outputs: Map<u64, Seq<Write>>,
    seq: u64,
    write: Write,
    other: u64,
)
    requires
        other != seq,
    ensures
        with_write(outputs, seq, write).dom().contains(seq),
        with_write(outputs, seq, write)[seq].len() > 0,
        with_write(outputs, seq, write)[seq].last() == write,
        with_write(outputs, seq, write)[seq].drop_last() == if outputs.dom().contains(seq) {
            outputs[seq]
        } else {
            Seq::empty()
        },
        with_write(outputs, seq, write).dom().contains(other) <==> outputs.dom().contains(other),
        with_write(outputs, seq, write)[other] == outputs[other],
{
    let after = with_write(outputs, seq, write)[seq];
    if outputs.dom().contains(seq) {
        assert(after.drop_last() =~= outputs[seq]);
    } else {
        assert(after.drop_last() =~= Seq::empty());
    }
}

/// A sum is the sum of both as long as that is a number, and never less than either.
pub proof fn a_sum_never_falls(a: u64, b: u64)
    ensures
        a + b <= u64::MAX ==> sum_up(a, b) == a + b,
        sum_up(a, b) >= a,
        sum_up(a, b) >= b,
{
}

} // verus!
