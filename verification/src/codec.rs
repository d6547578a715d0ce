//! The segment format: sub-streams laid end to end, then the footer that
//! describes them, then a fixed trailer by which the footer is found.

use crate::error::FooterError;
use crate::producer::ProducerCoord;
use crate::segment::{entries_view, Entry, Footer, SegmentFooter, SubstreamEntry};
use crate::store::DynoStore;
use crate::text::text_of_utf8;
use crate::wire::{
    be, be_value, get_be, lemma_be_value_bound, lemma_radix_values, pattern, pattern_i16, pattern_i32, pattern_i64,
    put_all, put_be, signed, signed_of, slice_of,
};
use std::sync::Arc;
use vstd::prelude::*;
use vstd::string::*;
use vstd::utf8::{decode_utf8, encode_utf8, valid_utf8};

verus! {

/// The first format: entries without producer coordinates.
pub const SEGMENT_FORMAT_VERSION: u16 = 1;

/// Adds the nonce and the producer coordinates.
pub const SEGMENT_FORMAT_VERSION_V2: u16 = 2;

/// Adds the flags of a coordinate.
pub const SEGMENT_FORMAT_VERSION_V3: u16 = 3;

/// Adds the topic id of an entry.
pub const SEGMENT_FORMAT_VERSION_V4: u16 = 4;

/// What a segment object ends in.
pub const SEGMENT_MAGIC: u32 = 0x5453_4547;

/// Bytes of the trailer: footer length, entry count, version and magic.
pub const SEGMENT_TRAILER_LEN: usize = 18;

/// Bytes of a coordinate, without and with its flags.
pub open spec fn coord_size(version: u16) -> nat {
    if version >= SEGMENT_FORMAT_VERSION_V3 {
        23
    } else {
        22
    }
}

/// A coordinate on the wire.
pub open spec fn coord_bytes(coord: ProducerCoord, version: u16) -> Seq<u8> {
    let fields = be(pattern(coord.producer_id as int, 8), 8) + be(
        pattern(coord.producer_epoch as int, 2),
        2,
    ) + be(pattern(coord.base_sequence as int, 4), 4) + be(
        pattern(coord.last_sequence as int, 4),
        4,
    ) + be(coord.offset_delta as nat, 4);
    if version >= SEGMENT_FORMAT_VERSION_V3 {
        fields + seq![coord.flags]
    } else {
        fields
    }
}

/// A run of coordinates on the wire.
pub open spec fn coords_bytes(coords: Seq<ProducerCoord>, version: u16) -> Seq<u8>
    decreases coords.len(),
{
    if coords.len() == 0 {
        Seq::empty()
    } else {
        coords_bytes(coords.drop_last(), version) + coord_bytes(coords.last(), version)
    }
}

/// A footer entry on the wire. The nil id stands for a sub-stream keyed by name.
pub open spec fn entry_bytes(entry: Entry, version: u16) -> Seq<u8> {
    let topic = encode_utf8(entry.topic);
    let id = match entry.topic_id {
        Some(id) => id as nat,
        None => 0,
    };
    be(topic.len(), 2) + topic + (if version >= SEGMENT_FORMAT_VERSION_V4 {
        be(id, 16)
    } else {
        Seq::empty()
    }) + be(pattern(entry.partition as int, 4), 4) + be(pattern(entry.base_offset as int, 8), 8)
        + be(pattern(entry.record_count as int, 8), 8) + be(entry.byte_start as nat, 8) + be(
        entry.byte_len as nat,
        8,
    ) + be(pattern(entry.max_timestamp as int, 8), 8) + (if version >= SEGMENT_FORMAT_VERSION_V2 {
        be(entry.producers.len(), 2) + coords_bytes(entry.producers, version)
    } else {
        Seq::empty()
    })
}

/// A run of footer entries on the wire.
pub open spec fn entries_bytes(entries: Seq<Entry>, version: u16) -> Seq<u8>
    decreases entries.len(),
{
    if entries.len() == 0 {
        Seq::empty()
    } else {
        entries_bytes(entries.drop_last(), version) + entry_bytes(entries.last(), version)
    }
}

/// A footer on the wire.
pub open spec fn footer_bytes(footer: Footer, version: u16) -> Seq<u8> {
    be(pattern(footer.writer_epoch as int, 8), 8) + (if version >= SEGMENT_FORMAT_VERSION_V2 {
        be(footer.nonce as nat, 8)
    } else {
        Seq::empty()
    }) + entries_bytes(footer.entries, version)
}

/// The trailer of a segment.
pub open spec fn trailer_bytes(footer_len: nat, entry_count: nat, version: u16) -> Seq<u8> {
    be(footer_len, 8) + be(entry_count, 4) + be(version as nat, 2) + be(SEGMENT_MAGIC as nat, 4)
}

/// The unsigned field of `width` bytes at `at`.
pub open spec fn field(bytes: Seq<u8>, at: int, width: nat) -> nat {
    be_value(bytes.subrange(at, at + width))
}

/// The signed field of `width` bytes at `at`.
pub open spec fn signed_field(bytes: Seq<u8>, at: int, width: nat) -> int {
    signed(field(bytes, at, width), width)
}

/// The coordinate at `at`.
pub open spec fn coord_at(bytes: Seq<u8>, at: int, version: u16) -> ProducerCoord {
    ProducerCoord {
        producer_id: signed_field(bytes, at, 8) as i64,
        producer_epoch: signed_field(bytes, at + 8, 2) as i16,
        base_sequence: signed_field(bytes, at + 10, 4) as i32,
        last_sequence: signed_field(bytes, at + 14, 4) as i32,
        offset_delta: field(bytes, at + 18, 4) as u32,
        flags: if version >= SEGMENT_FORMAT_VERSION_V3 {
            bytes[at + 22]
        } else {
            0
        },
    }
}

/// The `count` coordinates from `at` on, and where they end.
pub open spec fn coords_at(bytes: Seq<u8>, at: int, count: nat, version: u16) -> Result<
    (Seq<ProducerCoord>, int),
    FooterError,
> {
    let end = at + count * coord_size(version);
    if end > bytes.len() {
        Err(FooterError::Truncated)
    } else {
        Ok((Seq::new(count, |i: int| coord_at(bytes, at + i * coord_size(version), version)), end))
    }
}

/// The entry at `at`, and where it ends.
pub open spec fn entry_at(bytes: Seq<u8>, at: int, version: u16) -> Result<
    (Entry, int),
    FooterError,
> {
    let named = at + 2 + field(bytes, at, 2);
    let id_size: nat = if version >= SEGMENT_FORMAT_VERSION_V4 {
        16
    } else {
        0
    };
    let fixed = named + id_size;
    if at + 2 > bytes.len() || named > bytes.len() {
        Err(FooterError::Truncated)
    } else if !valid_utf8(bytes.subrange(at + 2, named)) {
        Err(FooterError::TopicNotUtf8)
    } else if fixed + 44 > bytes.len() {
        Err(FooterError::Truncated)
    } else {
        let id = field(bytes, named, 16) as u128;
        let entry = Entry {
            topic: decode_utf8(bytes.subrange(at + 2, named)),
            topic_id: if id_size == 0 || id == 0 {
                None
            } else {
                Some(id)
            },
            partition: signed_field(bytes, fixed, 4) as i32,
            base_offset: signed_field(bytes, fixed + 4, 8) as i64,
            record_count: signed_field(bytes, fixed + 12, 8) as i64,
            byte_start: field(bytes, fixed + 20, 8) as u64,
            byte_len: field(bytes, fixed + 28, 8) as u64,
            max_timestamp: signed_field(bytes, fixed + 36, 8) as i64,
            producers: Seq::empty(),
        };
        if version < SEGMENT_FORMAT_VERSION_V2 {
            Ok((entry, fixed + 44))
        } else if fixed + 46 > bytes.len() {
            Err(FooterError::Truncated)
        } else {
            match coords_at(bytes, fixed + 46, field(bytes, fixed + 44, 2), version) {
                Ok((producers, end)) => Ok((Entry { producers, ..entry }, end)),
                Err(error) => Err(error),
            }
        }
    }
}

/// The `count` entries from `at` on, and where they end.
pub open spec fn entries_at(bytes: Seq<u8>, at: int, count: nat, version: u16) -> Result<
    (Seq<Entry>, int),
    FooterError,
>
    decreases count,
{
    if count == 0 {
        Ok((Seq::empty(), at))
    } else {
        match entries_at(bytes, at, (count - 1) as nat, version) {
            Err(error) => Err(error),
            Ok((entries, end)) => match entry_at(bytes, end, version) {
                Err(error) => Err(error),
                Ok((entry, end)) => Ok((entries.push(entry), end)),
            },
        }
    }
}

/// Where the entries of a footer begin.
pub open spec fn header_size(version: u16) -> nat {
    if version >= SEGMENT_FORMAT_VERSION_V2 {
        16
    } else {
        8
    }
}

/// The footer that `bytes` hold.
pub open spec fn footer_in(bytes: Seq<u8>, entry_count: nat, version: u16) -> Result<
    Footer,
    FooterError,
> {
    if bytes.len() < header_size(version) {
        Err(FooterError::Truncated)
    } else {
        match entries_at(bytes, header_size(version) as int, entry_count, version) {
            Err(error) => Err(error),
            Ok((entries, _)) => Ok(
                Footer {
                    writer_epoch: signed_field(bytes, 0, 8) as i64,
                    nonce: if version >= SEGMENT_FORMAT_VERSION_V2 {
                        field(bytes, 8, 8) as u64
                    } else {
                        0
                    },
                    entries,
                },
            ),
        }
    }
}

/// Whether a reader knows the format.
pub open spec fn is_known(version: u16) -> bool {
    1 <= version <= 4
}

/// The footer at the end of `tail`; none where the trailer's magic is absent.
pub open spec fn segment_footer_in(tail: Seq<u8>) -> Result<Option<Footer>, FooterError> {
    let end = tail.len() - SEGMENT_TRAILER_LEN;
    if end < 0 || field(tail, end + 14, 4) != SEGMENT_MAGIC {
        Ok(None)
    } else {
        let footer_len = field(tail, end, 8);
        let version = field(tail, end + 12, 2) as u16;
        if !is_known(version) {
            Err(FooterError::UnsupportedVersion(version))
        } else if footer_len > end {
            Err(FooterError::LengthExceedsTail)
        } else {
            match footer_in(tail.subrange(end - footer_len, end), field(tail, end + 8, 4), version) {
                Ok(footer) => Ok(Some(footer)),
                Err(error) => Err(error),
            }
        }
    }
}

/// Append the coordinates of an entry.
fn put_coords(buf: &mut Vec<u8>, coords: &Vec<ProducerCoord>, version: u16)
    ensures
        final(buf)@ == old(buf)@ + coords_bytes(coords@, version),
{
    let mut at: usize = 0;
    assert(coords@.subrange(0, 0) =~= Seq::empty());
    assert(buf@ =~= old(buf)@ + coords_bytes(coords@.subrange(0, 0), version));
    while at < coords.len()
        invariant
            at <= coords@.len(),
            buf@ == old(buf)@ + coords_bytes(coords@.subrange(0, at as int), version),
        decreases coords@.len() - at,
    {
        let coord = coords[at];
        let ghost before = buf@;
        put_be(buf, pattern_i64(coord.producer_id), 8);
        put_be(buf, pattern_i16(coord.producer_epoch), 2);
        put_be(buf, pattern_i32(coord.base_sequence), 4);
        put_be(buf, pattern_i32(coord.last_sequence), 4);
        put_be(buf, coord.offset_delta as u128, 4);
        if version >= SEGMENT_FORMAT_VERSION_V3 {
            buf.push(coord.flags);
        }
        assert(buf@ =~= before + coord_bytes(coord, version));
        at = at + 1;
        proof {
            let done = coords@.subrange(0, at as int);
            assert(done.drop_last() =~= coords@.subrange(0, at - 1));
            assert(buf@ =~= old(buf)@ + coords_bytes(done, version));
        }
    }
    assert(coords@.subrange(0, at as int) =~= coords@);
}

/// Append a footer entry.
fn put_entry(buf: &mut Vec<u8>, entry: &SubstreamEntry, version: u16)
    ensures
        final(buf)@ == old(buf)@ + entry_bytes(entry@, version),
{
    let topic = entry.topic.as_str().as_bytes();
    put_be(buf, topic.len() as u128, 2);
    put_all(buf, topic);
    if version >= SEGMENT_FORMAT_VERSION_V4 {
        let id: u128 = match entry.topic_id {
            Some(id) => id,
            None => 0,
        };
        put_be(buf, id, 16);
    }
    put_be(buf, pattern_i32(entry.partition), 4);
    put_be(buf, pattern_i64(entry.base_offset), 8);
    put_be(buf, pattern_i64(entry.record_count), 8);
    put_be(buf, entry.byte_start as u128, 8);
    put_be(buf, entry.byte_len as u128, 8);
    put_be(buf, pattern_i64(entry.max_timestamp), 8);
    if version >= SEGMENT_FORMAT_VERSION_V2 {
        put_be(buf, entry.producers.len() as u128, 2);
        put_coords(buf, &entry.producers, version);
    }
    assert(buf@ =~= old(buf)@ + entry_bytes(entry@, version));
}

/// The coordinate at `at`.
fn get_coord(bytes: &[u8], at: usize, version: u16) -> (coord: ProducerCoord)
    requires
        at + coord_size(version) <= bytes@.len(),
    ensures
        coord == coord_at(bytes@, at as int, version),
{
    let _len: usize = bytes.len();
    proof {
        lemma_radix_values();
    }
    ProducerCoord {
        producer_id: signed_of(get_be(bytes, at, 8), 8),
        producer_epoch: signed_of(get_be(bytes, at + 8, 2), 2) as i16,
        base_sequence: signed_of(get_be(bytes, at + 10, 4), 4) as i32,
        last_sequence: signed_of(get_be(bytes, at + 14, 4), 4) as i32,
        offset_delta: get_be(bytes, at + 18, 4) as u32,
        flags: if version >= SEGMENT_FORMAT_VERSION_V3 {
            bytes[at + 22]
        } else {
            0
        },
    }
}

/// The `count` coordinates from `at` on, and where they end.
fn get_coords(bytes: &[u8], at: usize, count: usize, version: u16) -> (coords: Result<
    (Vec<ProducerCoord>, usize),
    FooterError,
>)
    requires
        at <= bytes@.len(),
    ensures
        match coords {
            Ok((coords, end)) => end <= bytes@.len() && coords_at(
                bytes@,
                at as int,
                count as nat,
                version,
            ) == Ok::<_, FooterError>((coords@, end as int)),
            Err(error) => coords_at(bytes@, at as int, count as nat, version) == Err::<
                (Seq<ProducerCoord>, int),
                _,
            >(error),
        },
{
    let size: usize = if version >= SEGMENT_FORMAT_VERSION_V3 {
        23
    } else {
        22
    };
    let mut coords: Vec<ProducerCoord> = Vec::new();
    let mut end: usize = at;
    let mut done: usize = 0;
    while done < count
        invariant
            size == coord_size(version),
            at <= end <= bytes@.len(),
            done <= count,
            end == at + done * size,
            coords@ == Seq::new(
                done as nat,
                |i: int| coord_at(bytes@, at + i * coord_size(version), version),
            ),
        decreases count - done,
    {
        if bytes.len() - end < size {
            proof {
                assert((done + 1) * size <= count * size) by (nonlinear_arith)
                    requires
                        done + 1 <= count,
                ;
                assert((done + 1) * size == done * size + size) by (nonlinear_arith);
                assert(count * size == count * coord_size(version));
            }
            return Err(FooterError::Truncated);
        }
        coords.push(get_coord(bytes, end, version));
        proof {
            assert((done + 1) * size == done * size + size) by (nonlinear_arith);
        }
        end = end + size;
        done = done + 1;
        assert(coords@ =~= Seq::new(
            done as nat,
            |i: int| coord_at(bytes@, at + i * coord_size(version), version),
        ));
    }
    assert(count * size == count * coord_size(version));
    Ok((coords, end))
}

/// The entry at `at`, and where it ends.
fn get_entry(bytes: &[u8], at: usize, version: u16) -> (entry: Result<
    (SubstreamEntry, usize),
    FooterError,
>)
    requires
        at <= bytes@.len(),
    ensures
        match entry {
            Ok((entry, end)) => end <= bytes@.len() && entry_at(bytes@, at as int, version) == Ok::<
                _,
                FooterError,
            >((entry@, end as int)),
            Err(error) => entry_at(bytes@, at as int, version) == Err::<(Entry, int), _>(error),
        },
{
    proof {
        lemma_radix_values();
    }
    let len: usize = bytes.len();
    if len - at < 2 {
        return Err(FooterError::Truncated);
    }
    let topic_len: usize = get_be(bytes, at, 2) as usize;
    if len - at - 2 < topic_len {
        return Err(FooterError::Truncated);
    }
    let named: usize = at + 2 + topic_len;
    let name = slice_of(bytes, at + 2, named);
    let topic = match text_of_utf8(name.as_slice()) {
        Some(topic) => topic,
        None => {
            return Err(FooterError::TopicNotUtf8);
        },
    };
    let id_size: usize = if version >= SEGMENT_FORMAT_VERSION_V4 {
        16
    } else {
        0
    };
    if len - named < id_size + 44 {
        return Err(FooterError::Truncated);
    }
    let fixed: usize = named + id_size;
    let topic_id: Option<u128> = if version >= SEGMENT_FORMAT_VERSION_V4 {
        let id: u128 = get_be(bytes, named, 16);
        if id == 0 {
            None
        } else {
            Some(id)
        }
    } else {
        None
    };
    let mut entry = SubstreamEntry {
        topic: Arc::new(topic),
        topic_id,
        partition: signed_of(get_be(bytes, fixed, 4), 4) as i32,
        base_offset: signed_of(get_be(bytes, fixed + 4, 8), 8),
        record_count: signed_of(get_be(bytes, fixed + 12, 8), 8),
        byte_start: get_be(bytes, fixed + 20, 8) as u64,
        byte_len: get_be(bytes, fixed + 28, 8) as u64,
        max_timestamp: signed_of(get_be(bytes, fixed + 36, 8), 8),
        producers: Vec::new(),
    };
    let ghost plain = entry@;
    if version < SEGMENT_FORMAT_VERSION_V2 {
        assert(plain.producers =~= Seq::empty());
        return Ok((entry, fixed + 44));
    }
    if len - fixed < 46 {
        return Err(FooterError::Truncated);
    }
    let count: usize = get_be(bytes, fixed + 44, 2) as usize;
    match get_coords(bytes, fixed + 46, count, version) {
        Ok((producers, end)) => {
            entry.producers = producers;
            assert(plain.producers =~= Seq::empty());
            assert(entry@ =~= Entry { producers: producers@, ..plain });
            Ok((entry, end))
        },
        Err(error) => Err(error),
    }
}

impl DynoStore {
    /// Serialise a footer. Asked for an older version this writes the exact bytes
    /// of that version: what it has no place for is dropped, not blanked.
    pub fn encode_footer(footer: &SegmentFooter, version: u16) -> (bytes: Vec<u8>)
        ensures
            bytes@ == footer_bytes(footer@, version),
    {
        let mut buf: Vec<u8> = Vec::new();
        put_be(&mut buf, pattern_i64(footer.writer_epoch), 8);
        if version >= SEGMENT_FORMAT_VERSION_V2 {
            put_be(&mut buf, footer.nonce as u128, 8);
        }
        let ghost header = buf@;
        let mut at: usize = 0;
        assert(footer@.entries.subrange(0, 0) =~= Seq::empty());
        assert(buf@ =~= header + entries_bytes(footer@.entries.subrange(0, 0), version));
        while at < footer.entries.len()
            invariant
                at <= footer.entries@.len(),
                buf@ == header + entries_bytes(footer@.entries.subrange(0, at as int), version),
            decreases footer.entries@.len() - at,
        {
            let ghost before = buf@;
            put_entry(&mut buf, &footer.entries[at], version);
            at = at + 1;
            proof {
                let done = footer@.entries.subrange(0, at as int);
                assert(done.drop_last() =~= footer@.entries.subrange(0, at - 1));
                assert(done.last() == footer.entries@[at - 1]@);
                assert(buf@ =~= header + entries_bytes(done, version));
            }
        }
        assert(footer@.entries.subrange(0, at as int) =~= footer@.entries);
        assert(buf@ =~= footer_bytes(footer@, version));
        buf
    }

    /// Parse a footer from the bytes that precede the trailer.
    pub fn decode_footer(footer_bytes: &[u8], entry_count: usize, version: u16) -> (footer: Result<
        SegmentFooter,
        FooterError,
    >)
        ensures
            match footer {
                Ok(footer) => footer_in(footer_bytes@, entry_count as nat, version) == Ok::<
                    _,
                    FooterError,
                >(footer@),
                Err(error) => footer_in(footer_bytes@, entry_count as nat, version) == Err::<
                    Footer,
                    _,
                >(error),
            },
    {
        proof {
            lemma_radix_values();
        }
        let header: usize = if version >= SEGMENT_FORMAT_VERSION_V2 {
            16
        } else {
            8
        };
        if footer_bytes.len() < header {
            return Err(FooterError::Truncated);
        }
        let writer_epoch: i64 = signed_of(get_be(footer_bytes, 0, 8), 8);
        let nonce: u64 = if version >= SEGMENT_FORMAT_VERSION_V2 {
            get_be(footer_bytes, 8, 8) as u64
        } else {
            0
        };
        let mut entries: Vec<SubstreamEntry> = Vec::new();
        let mut end: usize = header;
        let mut done: usize = 0;
        assert(entries_view(entries@) =~= Seq::empty());
        while done < entry_count
            invariant
                header == header_size(version),
                end <= footer_bytes@.len(),
                done <= entry_count,
                entries_at(footer_bytes@, header as int, done as nat, version) == Ok::<
                    _,
                    FooterError,
                >((entries_view(entries@), end as int)),
                header <= footer_bytes@.len(),
            decreases entry_count - done,
        {
            match get_entry(footer_bytes, end, version) {
                Ok((entry, next)) => {
                    let ghost before = entries@;
                    entries.push(entry);
                    end = next;
                    assert(entries_view(entries@) =~= entries_view(before).push(entry@));
                },
                Err(error) => {
                    proof {
                        lemma_entries_fail(
                            footer_bytes@,
                            header as int,
                            (done + 1) as nat,
                            entry_count as nat,
                            version,
                        );
                    }
                    return Err(error);
                },
            }
            done = done + 1;
        }
        Ok(SegmentFooter { writer_epoch, nonce, entries })
    }

    /// Recover the footer of a segment from its last bytes. `Ok(None)` where the
    /// trailer's magic is absent: the object is no segment of this format.
    pub fn decode_segment_footer(tail: &[u8]) -> (footer: Result<
        Option<SegmentFooter>,
        FooterError,
    >)
        ensures
            match footer {
                Ok(Some(footer)) => segment_footer_in(tail@) == Ok::<_, FooterError>(
                    Some(footer@),
                ),
                Ok(None) => segment_footer_in(tail@) == Ok::<Option<Footer>, FooterError>(None),
                Err(error) => segment_footer_in(tail@) == Err::<Option<Footer>, _>(error),
            },
    {
        proof {
            lemma_radix_values();
        }
        if tail.len() < SEGMENT_TRAILER_LEN {
            return Ok(None);
        }
        let footer_end: usize = tail.len() - SEGMENT_TRAILER_LEN;
        let magic: u128 = get_be(tail, footer_end + 14, 4);
        if magic != SEGMENT_MAGIC as u128 {
            return Ok(None);
        }
        let footer_len: u128 = get_be(tail, footer_end, 8);
        let entry_count: usize = get_be(tail, footer_end + 8, 4) as usize;
        let version: u16 = get_be(tail, footer_end + 12, 2) as u16;
        if version != SEGMENT_FORMAT_VERSION && version != SEGMENT_FORMAT_VERSION_V2 && version
            != SEGMENT_FORMAT_VERSION_V3 && version != SEGMENT_FORMAT_VERSION_V4 {
            return Err(FooterError::UnsupportedVersion(version));
        }
        if footer_len > footer_end as u128 {
            return Err(FooterError::LengthExceedsTail);
        }
        let footer = slice_of(tail, footer_end - footer_len as usize, footer_end);
        match Self::decode_footer(footer.as_slice(), entry_count, version) {
            Ok(footer) => Ok(Some(footer)),
            Err(error) => Err(error),
        }
    }
}

proof fn lemma_entries_fail(bytes: Seq<u8>, at: int, done: nat, count: nat, version: u16)
    requires
        done <= count,
        entries_at(bytes, at, done, version) is Err,
    ensures
        entries_at(bytes, at, count, version) == entries_at(bytes, at, done, version),
    decreases count,
{
    if done < count {
        lemma_entries_fail(bytes, at, done, (count - 1) as nat, version);
    }
}

proof fn lemma_entries_count(bytes: Seq<u8>, at: int, count: nat, version: u16)
    ensures
        entries_at(bytes, at, count, version) matches Ok((entries, _)) ==> entries.len() == count,
    decreases count,
{
    if count > 0 {
        lemma_entries_count(bytes, at, (count - 1) as nat, version);
    }
}

/// A footer that was read has as many entries as its trailer can count.
pub proof fn footers_are_countable(tail: Seq<u8>)
    ensures
        segment_footer_in(tail) matches Ok(Some(footer)) ==> footer.entries.len() <= u32::MAX,
{
    lemma_radix_values();
    let end = tail.len() - SEGMENT_TRAILER_LEN;
    if let Ok(Some(footer)) = segment_footer_in(tail) {
        lemma_be_value_bound(tail.subrange(end + 8, end + 12));
        let count = field(tail, end + 8, 4);
        let length = field(tail, end, 8);
        let version = field(tail, end + 12, 2) as u16;
        let body = tail.subrange(end - length, end);
        lemma_entries_count(body, header_size(version) as int, count, version);
    }
}

} // verus!
