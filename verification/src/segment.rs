//! The parts of a segment object: the sub-streams it holds, what its footer
//! says of each of them, and the batches that are written to it.

use crate::ordmap::Key;
use crate::producer::ProducerCoord;
use crate::retain::{retain_foldable, retained};
use crate::text::{lemma_text_irreflexive, lemma_text_total, lemma_text_transitive, text_before};
use crate::wire::{be, lemma_be_len, pattern, put_all, put_be};
use std::sync::Arc;
use vstd::prelude::*;

verus! {

/// A partition of a topic.
#[derive(Debug)]
pub struct Topition {
    pub topic: String,
    pub partition: i32,
}

impl View for Topition {
    type V = (Seq<char>, i32);

    open spec fn view(&self) -> (Seq<char>, i32) {
        (self.topic@, self.partition)
    }
}

impl Key for Topition {
    open spec fn before(a: (Seq<char>, i32), b: (Seq<char>, i32)) -> bool {
        text_before(a.0, b.0) || (a.0 == b.0 && a.1 < b.1)
    }

    proof fn before_irreflexive(a: (Seq<char>, i32)) {
        lemma_text_irreflexive(a.0);
    }

    proof fn before_transitive(a: (Seq<char>, i32), b: (Seq<char>, i32), c: (Seq<char>, i32)) {
        if text_before(a.0, b.0) && text_before(b.0, c.0) {
            lemma_text_transitive(a.0, b.0, c.0);
        }
    }

    proof fn before_total(a: (Seq<char>, i32), b: (Seq<char>, i32)) {
        lemma_text_total(a.0, b.0);
    }

    fn less(&self, other: &Self) -> (less: bool) {
        self.topic.less(&other.topic) || (self.topic.same(&other.topic) && self.partition
            < other.partition)
    }

    fn same(&self, other: &Self) -> (same: bool) {
        self.topic.same(&other.topic) && self.partition == other.partition
    }

    fn duplicate(&self) -> (copy: Self) {
        Topition { topic: self.topic.clone(), partition: self.partition }
    }
}

impl Topition {
    pub fn new(topic: String, partition: i32) -> (topition: Self)
        ensures
            topition@ == (topic@, partition),
    {
        Topition { topic, partition }
    }

    pub fn topic(&self) -> (topic: &str)
        ensures
            topic@ == self@.0,
    {
        self.topic.as_str()
    }

    pub fn partition(&self) -> (partition: i32)
        ensures
            partition == self@.1,
    {
        self.partition
    }
}

/// What the records of a sub-stream are identified by.
#[derive(Debug)]
pub enum Substream {
    /// The id of the topic's incarnation.
    Id(u128),
    /// The name of the topic.
    Name(String),
}

/// The mathematical identity of a sub-stream.
pub enum Identity {
    Id(u128),
    Name(Seq<char>),
}

impl View for Substream {
    type V = Identity;

    open spec fn view(&self) -> Identity {
        match self {
            Substream::Id(id) => Identity::Id(*id),
            Substream::Name(name) => Identity::Name(name@),
        }
    }
}

/// The order of identities: ids before names, each in its own order.
pub open spec fn identity_before(a: Identity, b: Identity) -> bool {
    match (a, b) {
        (Identity::Id(a), Identity::Id(b)) => a < b,
        (Identity::Id(_), Identity::Name(_)) => true,
        (Identity::Name(_), Identity::Id(_)) => false,
        (Identity::Name(a), Identity::Name(b)) => text_before(a, b),
    }
}

impl Key for Substream {
    open spec fn before(a: Identity, b: Identity) -> bool {
        identity_before(a, b)
    }

    proof fn before_irreflexive(a: Identity) {
        assert(Self::before(a, a) == identity_before(a, a));
        if let Identity::Name(name) = a {
            lemma_text_irreflexive(name);
        }
    }

    proof fn before_transitive(a: Identity, b: Identity, c: Identity) {
        assert(Self::before(a, b) == identity_before(a, b));
        assert(Self::before(b, c) == identity_before(b, c));
        assert(Self::before(a, c) == identity_before(a, c));
        match (a, b, c) {
            (Identity::Name(a), Identity::Name(b), Identity::Name(c)) => {
                lemma_text_transitive(a, b, c);
            },
            _ => {},
        }
    }

    proof fn before_total(a: Identity, b: Identity) {
        assert(Self::before(a, b) == identity_before(a, b));
        assert(Self::before(b, a) == identity_before(b, a));
        match (a, b) {
            (Identity::Name(a), Identity::Name(b)) => {
                lemma_text_total(a, b);
            },
            _ => {},
        }
    }

    fn less(&self, other: &Self) -> (less: bool) {
        assert(Self::before(self@, other@) == identity_before(self@, other@));
        match (self, other) {
            (Substream::Id(a), Substream::Id(b)) => *a < *b,
            (Substream::Id(_), Substream::Name(_)) => true,
            (Substream::Name(_), Substream::Id(_)) => false,
            (Substream::Name(a), Substream::Name(b)) => a.less(b),
        }
    }

    fn same(&self, other: &Self) -> (same: bool) {
        match (self, other) {
            (Substream::Id(a), Substream::Id(b)) => *a == *b,
            (Substream::Name(a), Substream::Name(b)) => a.same(b),
            _ => false,
        }
    }

    fn duplicate(&self) -> (copy: Self) {
        match self {
            Substream::Id(id) => Substream::Id(*id),
            Substream::Name(name) => Substream::Name(name.clone()),
        }
    }
}

impl Substream {
    /// The topic id, of a sub-stream keyed by one.
    pub fn id(&self) -> (id: Option<u128>)
        ensures
            id == match self@ {
                Identity::Id(id) => Some(id),
                Identity::Name(_) => None,
            },
    {
        match self {
            Substream::Id(id) => Some(*id),
            Substream::Name(_) => None,
        }
    }
}

/// A sub-stream's partition: the key under which its entries are indexed.
#[derive(Debug)]
pub struct SubstreamKey {
    pub substream: Substream,
    pub partition: i32,
}

impl View for SubstreamKey {
    type V = (Identity, i32);

    open spec fn view(&self) -> (Identity, i32) {
        (self.substream@, self.partition)
    }
}

impl Key for SubstreamKey {
    open spec fn before(a: (Identity, i32), b: (Identity, i32)) -> bool {
        identity_before(a.0, b.0) || (a.0 == b.0 && a.1 < b.1)
    }

    proof fn before_irreflexive(a: (Identity, i32)) {
        Substream::before_irreflexive(a.0);
    }

    proof fn before_transitive(a: (Identity, i32), b: (Identity, i32), c: (Identity, i32)) {
        if identity_before(a.0, b.0) && identity_before(b.0, c.0) {
            Substream::before_transitive(a.0, b.0, c.0);
        }
    }

    proof fn before_total(a: (Identity, i32), b: (Identity, i32)) {
        Substream::before_total(a.0, b.0);
    }

    fn less(&self, other: &Self) -> (less: bool) {
        self.substream.less(&other.substream) || (self.substream.same(&other.substream)
            && self.partition < other.partition)
    }

    fn same(&self, other: &Self) -> (same: bool) {
        self.substream.same(&other.substream) && self.partition == other.partition
    }

    fn duplicate(&self) -> (copy: Self) {
        SubstreamKey { substream: self.substream.duplicate(), partition: self.partition }
    }
}

/// Where the records of one sub-stream lie in a segment, and what they span.
#[derive(Debug)]
pub struct SubstreamEntry {
    /// The topic name, one allocation shared by every entry of an index.
    pub topic: Arc<String>,
    pub topic_id: Option<u128>,
    pub partition: i32,
    pub base_offset: i64,
    pub record_count: i64,
    pub byte_start: u64,
    pub byte_len: u64,
    pub max_timestamp: i64,
    pub producers: Vec<ProducerCoord>,
}

/// The mathematical footer entry.
#[verifier::ext_equal]
pub struct Entry {
    pub topic: Seq<char>,
    pub topic_id: Option<u128>,
    pub partition: i32,
    pub base_offset: i64,
    pub record_count: i64,
    pub byte_start: u64,
    pub byte_len: u64,
    pub max_timestamp: i64,
    pub producers: Seq<ProducerCoord>,
}

impl View for SubstreamEntry {
    type V = Entry;

    open spec fn view(&self) -> Entry {
        Entry {
            topic: self.topic@,
            topic_id: self.topic_id,
            partition: self.partition,
            base_offset: self.base_offset,
            record_count: self.record_count,
            byte_start: self.byte_start,
            byte_len: self.byte_len,
            max_timestamp: self.max_timestamp,
            producers: self.producers@,
        }
    }
}

impl Entry {
    /// What the records of the entry are identified by: the topic id where the
    /// footer carries one, else the topic name.
    pub open spec fn identity(self) -> Identity {
        match self.topic_id {
            Some(id) => Identity::Id(id),
            None => Identity::Name(self.topic),
        }
    }

    /// The key that the entry is indexed under.
    pub open spec fn key(self) -> (Identity, i32) {
        (self.identity(), self.partition)
    }

    /// One past the last offset of the entry.
    pub open spec fn end(self) -> int {
        self.base_offset + self.record_count
    }

    /// Whether the offsets that the entry speaks of are offsets.
    pub open spec fn in_range(self) -> bool {
        &&& i64::MIN <= self.end() <= i64::MAX
        &&& forall|j: int|
            #![trigger self.producers[j]]
            0 <= j < self.producers.len() ==> self.base_offset + self.producers[j].offset_delta
                <= i64::MAX
    }

    /// The entry as an index holds it.
    pub open spec fn pruned(self) -> Entry {
        Entry { producers: retained(self.producers), ..self }
    }
}

/// Copy a run of values.
pub fn copy_all<T: Copy>(items: &Vec<T>) -> (copy: Vec<T>)
    ensures
        copy@ == items@,
{
    let mut copy: Vec<T> = Vec::new();
    let mut at: usize = 0;
    while at < items.len()
        invariant
            at <= items@.len(),
            copy@ == items@.subrange(0, at as int),
        decreases items@.len() - at,
    {
        copy.push(items[at]);
        at = at + 1;
        assert(copy@ =~= items@.subrange(0, at as int));
    }
    assert(items@.subrange(0, at as int) =~= items@);
    copy
}

impl SubstreamEntry {
    /// Whether two entries say the same.
    pub fn same(&self, other: &Self) -> (same: bool)
        ensures
            same == (self@ == other@),
    {
        if self.base_offset != other.base_offset || self.record_count != other.record_count
            || self.byte_start != other.byte_start || self.byte_len != other.byte_len
            || self.max_timestamp != other.max_timestamp || self.partition != other.partition
            || self.topic_id != other.topic_id || self.producers.len() != other.producers.len()
            || *self.topic != *other.topic {
            return false;
        }
        let mut at: usize = 0;
        while at < self.producers.len()
            invariant
                at <= self.producers@.len(),
                self.producers@.len() == other.producers@.len(),
                forall|i: int|
                    0 <= i < at ==> #[trigger] self.producers@[i] == other.producers@[i],
            decreases self.producers@.len() - at,
        {
            if self.producers[at] != other.producers[at] {
                assert(self@.producers[at as int] != other@.producers[at as int]);
                return false;
            }
            at = at + 1;
        }
        assert(self@.producers =~= other@.producers);
        assert(self@ =~= other@);
        true
    }

    pub fn duplicate(&self) -> (copy: Self)
        ensures
            copy@ == self@,
            copy.topic == self.topic,
    {
        SubstreamEntry {
            topic: self.topic.clone(),
            topic_id: self.topic_id,
            partition: self.partition,
            base_offset: self.base_offset,
            record_count: self.record_count,
            byte_start: self.byte_start,
            byte_len: self.byte_len,
            max_timestamp: self.max_timestamp,
            producers: copy_all(&self.producers),
        }
    }

    /// What the records of this entry are identified by.
    pub fn substream(&self) -> (substream: Substream)
        ensures
            substream@ == self@.identity(),
    {
        match self.topic_id {
            Some(id) => Substream::Id(id),
            None => Substream::Name((*self.topic).clone()),
        }
    }

    /// The key that this entry is indexed under.
    pub fn key(&self) -> (key: SubstreamKey)
        ensures
            key@ == self@.key(),
    {
        SubstreamKey { substream: self.substream(), partition: self.partition }
    }

    /// Whether this entry holds `substream`'s records. A name never matches an
    /// entry keyed by an id, though it carry the same name.
    pub fn is(&self, substream: &Substream) -> (is: bool)
        ensures
            is == (self@.identity() == substream@),
    {
        match substream {
            Substream::Id(id) => match self.topic_id {
                Some(own) => own == *id,
                None => false,
            },
            Substream::Name(name) => self.topic_id.is_none() && *self.topic == *name,
        }
    }

    /// Whether the offsets that the entry speaks of are offsets.
    pub fn is_in_range(&self) -> (in_range: bool)
        ensures
            in_range == self@.in_range(),
    {
        if self.base_offset.checked_add(self.record_count).is_none() {
            return false;
        }
        let mut at: usize = 0;
        while at < self.producers.len()
            invariant
                at <= self.producers@.len(),
                forall|j: int|
                    #![trigger self.producers@[j]]
                    0 <= j < at ==> self.base_offset + self.producers@[j].offset_delta <= i64::MAX,
            decreases self.producers@.len() - at,
        {
            if self.base_offset.checked_add(self.producers[at].offset_delta as i64).is_none() {
                assert(self@.producers[at as int].offset_delta + self.base_offset > i64::MAX);
                return false;
            }
            at = at + 1;
        }
        true
    }

    /// Drop the producer coordinates that cannot change the tail this entry
    /// contributes to.
    pub fn retain_foldable_producers(&mut self)
        ensures
            final(self)@ == old(self)@.pruned(),
            final(self).topic == old(self).topic,
    {
        self.producers = retain_foldable(&self.producers);
    }
}

/// The self-describing index at the end of a segment.
#[derive(Debug)]
pub struct SegmentFooter {
    pub writer_epoch: i64,
    pub nonce: u64,
    pub entries: Vec<SubstreamEntry>,
}

/// The mathematical footer.
#[verifier::ext_equal]
pub struct Footer {
    pub writer_epoch: i64,
    pub nonce: u64,
    pub entries: Seq<Entry>,
}

/// The views of a run of entries.
pub open spec fn entries_view(entries: Seq<SubstreamEntry>) -> Seq<Entry> {
    entries.map_values(|entry: SubstreamEntry| entry@)
}

impl View for SegmentFooter {
    type V = Footer;

    open spec fn view(&self) -> Footer {
        Footer {
            writer_epoch: self.writer_epoch,
            nonce: self.nonce,
            entries: entries_view(self.entries@),
        }
    }
}

/// The first of `entries` that is indexed under `key`.
pub open spec fn first_under(entries: Seq<Entry>, key: (Identity, i32)) -> Option<Entry>
    decreases entries.len(),
{
    if entries.len() == 0 {
        None
    } else if entries[0].key() == key {
        Some(entries[0])
    } else {
        first_under(entries.skip(1), key)
    }
}

impl SegmentFooter {
    pub fn duplicate(&self) -> (copy: Self)
        ensures
            copy@ == self@,
    {
        let mut entries: Vec<SubstreamEntry> = Vec::new();
        let mut at: usize = 0;
        while at < self.entries.len()
            invariant
                at <= self.entries@.len(),
                entries_view(entries@) == self@.entries.subrange(0, at as int),
            decreases self.entries@.len() - at,
        {
            let ghost before = entries@;
            entries.push(self.entries[at].duplicate());
            at = at + 1;
            assert(entries_view(entries@) =~= entries_view(before).push(self.entries@[at - 1]@));
            assert(entries_view(entries@) =~= self@.entries.subrange(0, at as int));
        }
        assert(self@.entries.subrange(0, at as int) =~= self@.entries);
        SegmentFooter { writer_epoch: self.writer_epoch, nonce: self.nonce, entries }
    }

    /// The entry of a sub-stream's partition. `None` means that the segment
    /// holds no records for it.
    pub fn get(&self, substream: &Substream, partition: i32) -> (entry: Option<&SubstreamEntry>)
        ensures
            match entry {
                Some(entry) => first_under(self@.entries, (substream@, partition)) == Some(entry@),
                None => first_under(self@.entries, (substream@, partition)) is None,
            },
    {
        let mut at: usize = 0;
        assert(self@.entries.skip(0) =~= self@.entries);
        while at < self.entries.len()
            invariant
                at <= self.entries@.len(),
                first_under(self@.entries, (substream@, partition)) == first_under(
                    self@.entries.skip(at as int),
                    (substream@, partition),
                ),
            decreases self.entries@.len() - at,
        {
            let entry = &self.entries[at];
            if entry.partition == partition && entry.is(substream) {
                return Some(entry);
            }
            assert(self@.entries.skip(at as int).skip(1) =~= self@.entries.skip(at + 1));
            at = at + 1;
        }
        None
    }
}

/// A record batch: what its header says, and the bytes behind the length.
#[derive(Debug)]
pub struct Batch {
    pub base_offset: i64,
    /// The length that the header declares for what follows it.
    pub batch_length: i32,
    pub magic: i8,
    pub last_offset_delta: i32,
    pub max_timestamp: i64,
    pub producer_id: i64,
    pub producer_epoch: i16,
    pub base_sequence: i32,
    pub idempotent: bool,
    pub transactional: bool,
    pub control: bool,
    /// Bytes of record data among `body`.
    pub record_data_len: usize,
    /// Every byte behind the declared length.
    pub body: Vec<u8>,
}

/// The mathematical batch.
#[verifier::ext_equal]
pub struct RecordBatch {
    pub base_offset: i64,
    pub batch_length: i32,
    pub magic: i8,
    pub last_offset_delta: i32,
    pub max_timestamp: i64,
    pub producer_id: i64,
    pub producer_epoch: i16,
    pub base_sequence: i32,
    pub idempotent: bool,
    pub transactional: bool,
    pub control: bool,
    pub record_data_len: usize,
    pub body: Seq<u8>,
}

impl View for Batch {
    type V = RecordBatch;

    open spec fn view(&self) -> RecordBatch {
        RecordBatch {
            base_offset: self.base_offset,
            batch_length: self.batch_length,
            magic: self.magic,
            last_offset_delta: self.last_offset_delta,
            max_timestamp: self.max_timestamp,
            producer_id: self.producer_id,
            producer_epoch: self.producer_epoch,
            base_sequence: self.base_sequence,
            idempotent: self.idempotent,
            transactional: self.transactional,
            control: self.control,
            record_data_len: self.record_data_len,
            body: self.body@,
        }
    }
}

/// The views of a run of batches.
pub open spec fn batches_view(batches: Seq<Batch>) -> Seq<RecordBatch> {
    batches.map_values(|batch: Batch| batch@)
}

impl RecordBatch {
    /// The batch on the wire: its base offset and its declared length, then what
    /// follows them.
    pub open spec fn wire(self) -> Seq<u8> {
        be(pattern(self.base_offset as int, 8), 8) + be(pattern(self.batch_length as int, 4), 4)
            + self.body
    }

    /// The number of offsets that the batch takes.
    pub open spec fn span(self) -> int {
        self.last_offset_delta + 1
    }

    /// Whether the declared length is the length of what follows it.
    pub open spec fn declares_its_own_length(self) -> bool {
        self.batch_length == self.body.len()
    }

    /// Whether the footer records a coordinate of the batch.
    pub open spec fn is_indexed(self) -> bool {
        self.idempotent || self.transactional || self.control
    }
}

/// The number of offsets that a run of batches takes.
pub open spec fn span_of(batches: Seq<RecordBatch>) -> int
    decreases batches.len(),
{
    if batches.len() == 0 {
        0
    } else {
        span_of(batches.drop_last()) + batches.last().span()
    }
}

/// The bytes of a run of batches, one behind another.
pub open spec fn region_bytes(batches: Seq<RecordBatch>) -> Seq<u8>
    decreases batches.len(),
{
    if batches.len() == 0 {
        Seq::empty()
    } else {
        region_bytes(batches.drop_last()) + batches.last().wire()
    }
}

/// Bytes of a batch before its body: the base offset and the declared length.
pub const FRAME_PREFIX: usize = 12;

impl Batch {
    pub fn duplicate(&self) -> (copy: Self)
        ensures
            copy@ == self@,
    {
        Batch {
            base_offset: self.base_offset,
            batch_length: self.batch_length,
            magic: self.magic,
            last_offset_delta: self.last_offset_delta,
            max_timestamp: self.max_timestamp,
            producer_id: self.producer_id,
            producer_epoch: self.producer_epoch,
            base_sequence: self.base_sequence,
            idempotent: self.idempotent,
            transactional: self.transactional,
            control: self.control,
            record_data_len: self.record_data_len,
            body: copy_all(&self.body),
        }
    }

    /// Whether the declared length is the length of what follows it. A batch
    /// for which it is not would be a frame that no reader finds the end of.
    pub fn declares_its_own_length(&self) -> (declares: bool)
        ensures
            declares == self@.declares_its_own_length(),
    {
        self.batch_length >= 0 && self.batch_length as u64 == self.body.len() as u64
    }

    /// The length of what follows the length, where it can be declared.
    pub fn encoded_batch_length(&self) -> (length: Option<i32>)
        ensures
            length == if self@.body.len() <= i32::MAX {
                Some(self@.body.len() as i32)
            } else {
                None
            },
    {
        let length: usize = self.body.len();
        if length <= 0x7fff_ffff {
            Some(length as i32)
        } else {
            None
        }
    }

    /// Bytes of the batch on the wire.
    pub fn wire_size(&self) -> (size: u64)
        requires
            self@.body.len() + FRAME_PREFIX <= u64::MAX,
        ensures
            size == self@.wire().len(),
    {
        proof {
            crate::wire::lemma_be_len(pattern(self.base_offset as int, 8), 8);
            crate::wire::lemma_be_len(pattern(self.batch_length as int, 4), 4);
        }
        self.body.len() as u64 + FRAME_PREFIX as u64
    }

    /// Append the batch as it is on the wire.
    pub fn put_wire(&self, buf: &mut Vec<u8>)
        ensures
            final(buf)@ == old(buf)@ + self@.wire(),
    {
        put_be(buf, crate::wire::pattern_i64(self.base_offset), 8);
        put_be(buf, crate::wire::pattern_i32(self.batch_length), 4);
        put_all(buf, self.body.as_slice());
        assert(buf@ =~= old(buf)@ + self@.wire());
    }
}

/// One sub-stream of a segment to be written.
#[derive(Debug)]
pub struct SubstreamWrite {
    pub topition: Topition,
    pub substream: Substream,
    /// The offset assigned to the first record.
    pub base_offset: i64,
    pub batches: Vec<Batch>,
}

/// The mathematical sub-stream to be written.
#[verifier::ext_equal]
pub struct Write {
    pub topic: Seq<char>,
    pub partition: i32,
    pub identity: Identity,
    pub base_offset: i64,
    pub batches: Seq<RecordBatch>,
}

impl View for SubstreamWrite {
    type V = Write;

    open spec fn view(&self) -> Write {
        Write {
            topic: self.topition@.0,
            partition: self.topition@.1,
            identity: self.substream@,
            base_offset: self.base_offset,
            batches: batches_view(self.batches@),
        }
    }
}

/// The views of a run of sub-streams to be written.
pub open spec fn writes_view(writes: Seq<SubstreamWrite>) -> Seq<Write> {
    writes.map_values(|write: SubstreamWrite| write@)
}

/// A region that does not hold what its footer entry says.
#[derive(Clone, Debug)]
pub struct CorruptRegion {
    pub prefix: String,
    pub seq: u64,
    pub topic: String,
    pub partition: i32,
    pub base_offset: i64,
    pub byte_start: u64,
    pub byte_len: u64,
    /// Bytes that were read.
    pub read_len: usize,
    /// Where the scan of the region stopped.
    pub at: usize,
    /// The batch length that was read there, if one was.
    pub declared: Option<i32>,
    /// The first bytes from there on, in hexadecimal.
    pub head: String,
    pub detail: String,
}

/// A batch whose header misdeclares its own length.
#[derive(Clone, Debug)]
pub struct DivergentBatch {
    pub topic: String,
    pub partition: i32,
    pub base_offset: i64,
    /// Which batch of its sub-stream it is.
    pub index: usize,
    pub declared: i32,
    /// The length that it has, or -1 where that cannot be declared.
    pub encoded: i32,
    pub magic: i8,
    pub record_data_len: usize,
}

/// A run of batches takes as many offsets as its batches do together, and its bytes are
/// theirs, one batch behind another.
pub proof fn a_run_is_its_batches(batches: Seq<RecordBatch>, batch: RecordBatch)
    ensures
        span_of(Seq::empty()) == 0,
        span_of(batches.push(batch)) == span_of(batches) + batch.last_offset_delta + 1,
        region_bytes(Seq::empty()).len() == 0,
        region_bytes(batches.push(batch)) == region_bytes(batches) + batch.wire(),
{
    assert(batches.push(batch).drop_last() =~= batches);
}

/// A batch on the wire begins with its base offset in eight bytes and its declared length
/// in four; its body follows.
pub proof fn fields_of_a_batch_lie_in_place(batch: RecordBatch)
    ensures
        batch.wire().len() == 12 + batch.body.len(),
        batch.wire().subrange(0, 8) == be(pattern(batch.base_offset as int, 8), 8),
        batch.wire().subrange(8, 12) == be(pattern(batch.batch_length as int, 4), 4),
        batch.wire().skip(12) == batch.body,
{
    lemma_be_len(pattern(batch.base_offset as int, 8), 8);
    lemma_be_len(pattern(batch.batch_length as int, 4), 4);
    assert(batch.wire().subrange(0, 8) =~= be(pattern(batch.base_offset as int, 8), 8));
    assert(batch.wire().subrange(8, 12) =~= be(pattern(batch.batch_length as int, 4), 4));
    assert(batch.wire().skip(12) =~= batch.body);
}

/// An entry is of its topic's id where it has one, whatever the topic is called then, and
/// of the topic's name otherwise; and it ends behind its records.
pub proof fn an_id_outlives_a_name(entry: Entry, topic: Seq<char>)
    ensures
        entry.topic_id is Some ==> entry.key() == (Entry { topic, ..entry }).key()
            && entry.key().0 == Identity::Id(entry.topic_id->0),
        entry.topic_id is None ==> entry.key().0 == Identity::Name(entry.topic),
        entry.key().1 == entry.partition,
        entry.end() == entry.base_offset + entry.record_count,
{
}

} // verus!
