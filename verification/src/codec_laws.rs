//! What a read gives back of a write: the laws of the segment format.

use crate::codec::{
    coord_at, coord_bytes, coord_size, coords_at, coords_bytes, entries_at, entries_bytes,
    entry_at, entry_bytes, field, footer_bytes, footer_in, header_size, is_known,
    segment_footer_in, signed_field, trailer_bytes, SEGMENT_FORMAT_VERSION_V2,
    SEGMENT_FORMAT_VERSION_V3, SEGMENT_FORMAT_VERSION_V4, SEGMENT_MAGIC, SEGMENT_TRAILER_LEN,
};
use crate::encode::{body_of, footer_of, segment_of};
use crate::error::FooterError;
use crate::producer::ProducerCoord;
use crate::segment::{region_bytes, Entry, Footer, Write};
use crate::wire::{
    be, be_round_trip, lemma_be_len, lemma_radix_values, pattern, radix, signed_round_trip,
};
use vstd::prelude::*;
use vstd::utf8::{encode_utf8, encode_utf8_decode_utf8, encode_utf8_valid_utf8};

verus! {

/// What a format keeps of a coordinate.
pub open spec fn coord_as_written(coord: ProducerCoord, version: u16) -> ProducerCoord {
    if version >= SEGMENT_FORMAT_VERSION_V3 {
        coord
    } else {
        ProducerCoord { flags: 0, ..coord }
    }
}

/// What a format keeps of an entry.
pub open spec fn entry_as_written(entry: Entry, version: u16) -> Entry {
    Entry {
        topic_id: if version >= SEGMENT_FORMAT_VERSION_V4 {
            entry.topic_id
        } else {
            None
        },
        producers: if version >= SEGMENT_FORMAT_VERSION_V2 {
            entry.producers.map_values(|coord: ProducerCoord| coord_as_written(coord, version))
        } else {
            Seq::empty()
        },
        ..entry
    }
}

/// What a format keeps of a footer.
pub open spec fn as_written(footer: Footer, version: u16) -> Footer {
    Footer {
        writer_epoch: footer.writer_epoch,
        nonce: if version >= SEGMENT_FORMAT_VERSION_V2 {
            footer.nonce
        } else {
            0
        },
        entries: footer.entries.map_values(|entry: Entry| entry_as_written(entry, version)),
    }
}

/// Whether the lengths of an entry fit their fields. No topic has the nil id,
/// which stands for having none.
pub open spec fn entry_fits(entry: Entry) -> bool {
    &&& encode_utf8(entry.topic).len() <= 0xffff
    &&& entry.producers.len() <= 0xffff
    &&& entry.topic_id != Some(0u128)
}

/// Whether the lengths of every entry fit their fields.
pub open spec fn fits(footer: Footer) -> bool {
    forall|i: int|
        #![trigger footer.entries[i]]
        0 <= i < footer.entries.len() ==> entry_fits(footer.entries[i])
}

proof fn lemma_field(bytes: Seq<u8>, at: int, value: nat, width: nat)
    requires
        bytes.subrange(at, at + width) == be(value, width),
        value < radix(width),
    ensures
        field(bytes, at, width) == value,
{
    be_round_trip(value, width);
}

proof fn lemma_signed_field(bytes: Seq<u8>, at: int, value: int, width: nat)
    requires
        width > 0,
        bytes.subrange(at, at + width) == be(pattern(value, width), width),
        -(radix(width) / 2) <= value < radix(width) / 2,
    ensures
        signed_field(bytes, at, width) == value,
{
    signed_round_trip(value, width);
    lemma_field(bytes, at, pattern(value, width), width);
}

proof fn lemma_coord_len(coord: ProducerCoord, version: u16)
    ensures
        coord_bytes(coord, version).len() == coord_size(version),
{
    lemma_be_len(pattern(coord.producer_id as int, 8), 8);
    lemma_be_len(pattern(coord.producer_epoch as int, 2), 2);
    lemma_be_len(pattern(coord.base_sequence as int, 4), 4);
    lemma_be_len(pattern(coord.last_sequence as int, 4), 4);
    lemma_be_len(coord.offset_delta as nat, 4);
}

proof fn lemma_coord(bytes: Seq<u8>, at: int, coord: ProducerCoord, version: u16)
    requires
        0 <= at,
        at + coord_size(version) <= bytes.len(),
        bytes.subrange(at, at + coord_size(version)) == coord_bytes(coord, version),
    ensures
        coord_at(bytes, at, version) == coord_as_written(coord, version),
{
    lemma_radix_values();
    lemma_be_len(pattern(coord.producer_id as int, 8), 8);
    lemma_be_len(pattern(coord.producer_epoch as int, 2), 2);
    lemma_be_len(pattern(coord.base_sequence as int, 4), 4);
    lemma_be_len(pattern(coord.last_sequence as int, 4), 4);
    lemma_be_len(coord.offset_delta as nat, 4);
    let all = coord_bytes(coord, version);
    let run = bytes.subrange(at, at + coord_size(version));
    assert(bytes.subrange(at, at + 8) =~= run.subrange(0, 8));
    assert(run.subrange(0, 8) =~= be(pattern(coord.producer_id as int, 8), 8));
    assert(bytes.subrange(at + 8, at + 8 + 2) =~= run.subrange(8, 10));
    assert(run.subrange(8, 10) =~= be(pattern(coord.producer_epoch as int, 2), 2));
    assert(bytes.subrange(at + 10, at + 10 + 4) =~= run.subrange(10, 14));
    assert(run.subrange(10, 14) =~= be(pattern(coord.base_sequence as int, 4), 4));
    assert(bytes.subrange(at + 14, at + 14 + 4) =~= run.subrange(14, 18));
    assert(run.subrange(14, 18) =~= be(pattern(coord.last_sequence as int, 4), 4));
    assert(bytes.subrange(at + 18, at + 18 + 4) =~= run.subrange(18, 22));
    assert(run.subrange(18, 22) =~= be(coord.offset_delta as nat, 4));
    lemma_signed_field(bytes, at, coord.producer_id as int, 8);
    lemma_signed_field(bytes, at + 8, coord.producer_epoch as int, 2);
    lemma_signed_field(bytes, at + 10, coord.base_sequence as int, 4);
    lemma_signed_field(bytes, at + 14, coord.last_sequence as int, 4);
    lemma_field(bytes, at + 18, coord.offset_delta as nat, 4);
    if version >= SEGMENT_FORMAT_VERSION_V3 {
        assert(bytes[at + 22] == run[22]);
        assert(run[22] == coord.flags);
    }
}

proof fn lemma_coords_layout(coords: Seq<ProducerCoord>, version: u16)
    ensures
        coords_bytes(coords, version).len() == coords.len() * coord_size(version),
        forall|i: int|
            #![trigger coords[i]]
            0 <= i < coords.len() ==> {
                let at = i * coord_size(version);
                &&& 0 <= at
                &&& at + coord_size(version) <= coords_bytes(coords, version).len()
                &&& coords_bytes(coords, version).subrange(at, at + coord_size(version))
                    == coord_bytes(coords[i], version)
            },
    decreases coords.len(),
{
    let size = coord_size(version);
    if coords.len() > 0 {
        let before = coords.drop_last();
        lemma_coords_layout(before, version);
        lemma_coord_len(coords.last(), version);
        let head = coords_bytes(before, version);
        let all = coords_bytes(coords, version);
        assert((coords.len() - 1) * size + size == coords.len() * size) by (nonlinear_arith);
        assert forall|i: int| #![trigger coords[i]] 0 <= i < coords.len() implies {
            let at = i * size;
            &&& 0 <= at
            &&& at + size <= all.len()
            &&& all.subrange(at, at + size) == coord_bytes(coords[i], version)
        } by {
            let at = i * size;
            if i < before.len() {
                assert(before[i] == coords[i]);
                assert(all.subrange(at, at + size) =~= head.subrange(at, at + size));
            } else {
                assert(i == coords.len() - 1);
                assert(all.subrange(at, at + size) =~= coord_bytes(coords.last(), version));
            }
        }
    } else {
        assert(0 * size == 0) by (nonlinear_arith);
    }
}

proof fn lemma_coords(bytes: Seq<u8>, at: int, coords: Seq<ProducerCoord>, version: u16)
    requires
        0 <= at,
        at + coords_bytes(coords, version).len() <= bytes.len(),
        bytes.subrange(at, at + coords_bytes(coords, version).len()) == coords_bytes(
            coords,
            version,
        ),
    ensures
        coords_at(bytes, at, coords.len(), version) == Ok::<_, FooterError>(
            (
                coords.map_values(|coord: ProducerCoord| coord_as_written(coord, version)),
                at + coords_bytes(coords, version).len(),
            ),
        ),
{
    let size = coord_size(version);
    let run = coords_bytes(coords, version);
    lemma_coords_layout(coords, version);
    let read = Seq::new(coords.len(), |i: int| coord_at(bytes, at + i * size, version));
    let written = coords.map_values(|coord: ProducerCoord| coord_as_written(coord, version));
    assert forall|i: int| 0 <= i < coords.len() implies read[i] == written[i] by {
        let from = i * size;
        assert(coords[i] == coords[i]);
        assert(bytes.subrange(at + from, at + from + size) =~= bytes.subrange(
            at,
            at + run.len(),
        ).subrange(from, from + size));
        lemma_coord(bytes, at + from, coords[i], version);
    }
    assert(read =~= written);
}

/// The fields of an entry behind its name and id.
spec fn fixed_bytes(entry: Entry) -> Seq<u8> {
    be(pattern(entry.partition as int, 4), 4) + be(pattern(entry.base_offset as int, 8), 8) + be(
        pattern(entry.record_count as int, 8),
        8,
    ) + be(entry.byte_start as nat, 8) + be(entry.byte_len as nat, 8) + be(
        pattern(entry.max_timestamp as int, 8),
        8,
    )
}

spec fn id_bytes(entry: Entry, version: u16) -> Seq<u8> {
    if version >= SEGMENT_FORMAT_VERSION_V4 {
        be(
            match entry.topic_id {
                Some(id) => id as nat,
                None => 0,
            },
            16,
        )
    } else {
        Seq::empty()
    }
}

spec fn producers_bytes(entry: Entry, version: u16) -> Seq<u8> {
    if version >= SEGMENT_FORMAT_VERSION_V2 {
        be(entry.producers.len(), 2) + coords_bytes(entry.producers, version)
    } else {
        Seq::empty()
    }
}

proof fn lemma_entry_parts(entry: Entry, version: u16)
    ensures
        fixed_bytes(entry).len() == 44,
        id_bytes(entry, version).len() == if version >= SEGMENT_FORMAT_VERSION_V4 {
            16nat
        } else {
            0nat
        },
        be(encode_utf8(entry.topic).len(), 2).len() == 2,
        entry_bytes(entry, version) == be(encode_utf8(entry.topic).len(), 2) + encode_utf8(
            entry.topic,
        ) + id_bytes(entry, version) + fixed_bytes(entry) + producers_bytes(entry, version),
{
    lemma_be_len(encode_utf8(entry.topic).len(), 2);
    lemma_be_len(
        match entry.topic_id {
            Some(id) => id as nat,
            None => 0,
        },
        16,
    );
    lemma_be_len(pattern(entry.partition as int, 4), 4);
    lemma_be_len(pattern(entry.base_offset as int, 8), 8);
    lemma_be_len(pattern(entry.record_count as int, 8), 8);
    lemma_be_len(entry.byte_start as nat, 8);
    lemma_be_len(entry.byte_len as nat, 8);
    lemma_be_len(pattern(entry.max_timestamp as int, 8), 8);
    assert(entry_bytes(entry, version) =~= be(encode_utf8(entry.topic).len(), 2) + encode_utf8(
        entry.topic,
    ) + id_bytes(entry, version) + fixed_bytes(entry) + producers_bytes(entry, version));
}

proof fn lemma_fixed(bytes: Seq<u8>, at: int, entry: Entry)
    requires
        0 <= at,
        at + 44 <= bytes.len(),
        bytes.subrange(at, at + 44) == fixed_bytes(entry),
    ensures
        signed_field(bytes, at, 4) == entry.partition,
        signed_field(bytes, at + 4, 8) == entry.base_offset,
        signed_field(bytes, at + 12, 8) == entry.record_count,
        field(bytes, at + 20, 8) == entry.byte_start,
        field(bytes, at + 28, 8) == entry.byte_len,
        signed_field(bytes, at + 36, 8) == entry.max_timestamp,
{
    lemma_radix_values();
    lemma_be_len(pattern(entry.partition as int, 4), 4);
    lemma_be_len(pattern(entry.base_offset as int, 8), 8);
    lemma_be_len(pattern(entry.record_count as int, 8), 8);
    lemma_be_len(entry.byte_start as nat, 8);
    lemma_be_len(entry.byte_len as nat, 8);
    lemma_be_len(pattern(entry.max_timestamp as int, 8), 8);
    let run = bytes.subrange(at, at + 44);
    assert(bytes.subrange(at, at + 4) =~= run.subrange(0, 4));
    assert(run.subrange(0, 4) =~= be(pattern(entry.partition as int, 4), 4));
    assert(bytes.subrange(at + 4, at + 4 + 8) =~= run.subrange(4, 12));
    assert(run.subrange(4, 12) =~= be(pattern(entry.base_offset as int, 8), 8));
    assert(bytes.subrange(at + 12, at + 12 + 8) =~= run.subrange(12, 20));
    assert(run.subrange(12, 20) =~= be(pattern(entry.record_count as int, 8), 8));
    assert(bytes.subrange(at + 20, at + 20 + 8) =~= run.subrange(20, 28));
    assert(run.subrange(20, 28) =~= be(entry.byte_start as nat, 8));
    assert(bytes.subrange(at + 28, at + 28 + 8) =~= run.subrange(28, 36));
    assert(run.subrange(28, 36) =~= be(entry.byte_len as nat, 8));
    assert(bytes.subrange(at + 36, at + 36 + 8) =~= run.subrange(36, 44));
    assert(run.subrange(36, 44) =~= be(pattern(entry.max_timestamp as int, 8), 8));
    lemma_signed_field(bytes, at, entry.partition as int, 4);
    lemma_signed_field(bytes, at + 4, entry.base_offset as int, 8);
    lemma_signed_field(bytes, at + 12, entry.record_count as int, 8);
    lemma_field(bytes, at + 20, entry.byte_start as nat, 8);
    lemma_field(bytes, at + 28, entry.byte_len as nat, 8);
    lemma_signed_field(bytes, at + 36, entry.max_timestamp as int, 8);
}

/// Where five parts written one behind another lie.
proof fn lemma_parts(
    bytes: Seq<u8>,
    at: int,
    a: Seq<u8>,
    b: Seq<u8>,
    c: Seq<u8>,
    d: Seq<u8>,
    e: Seq<u8>,
)
    requires
        0 <= at,
        at + (a + b + c + d + e).len() <= bytes.len(),
        bytes.subrange(at, at + (a + b + c + d + e).len()) == a + b + c + d + e,
    ensures
        bytes.subrange(at, at + a.len()) == a,
        bytes.subrange(at + a.len(), at + a.len() + b.len()) == b,
        bytes.subrange(at + a.len() + b.len(), at + a.len() + b.len() + c.len()) == c,
        bytes.subrange(
            at + a.len() + b.len() + c.len(),
            at + a.len() + b.len() + c.len() + d.len(),
        ) == d,
        bytes.subrange(
            at + a.len() + b.len() + c.len() + d.len(),
            at + a.len() + b.len() + c.len() + d.len() + e.len(),
        ) == e,
{
    let whole = a + b + c + d + e;
    let run = bytes.subrange(at, at + whole.len());
    let x = a.len() as int;
    let y = x + b.len();
    let z = y + c.len();
    let w = z + d.len();
    assert(whole.subrange(0, x) =~= a);
    assert(whole.subrange(x, y) =~= b);
    assert(whole.subrange(y, z) =~= c);
    assert(whole.subrange(z, w) =~= d);
    assert(whole.subrange(w, w + e.len()) =~= e);
    assert(bytes.subrange(at, at + x) =~= run.subrange(0, x));
    assert(bytes.subrange(at + x, at + y) =~= run.subrange(x, y));
    assert(bytes.subrange(at + y, at + z) =~= run.subrange(y, z));
    assert(bytes.subrange(at + z, at + w) =~= run.subrange(z, w));
    assert(bytes.subrange(at + w, at + w + e.len()) =~= run.subrange(w, w + e.len()));
}

/// The producers of an entry are read back from where they were written.
proof fn lemma_producers(bytes: Seq<u8>, at: int, entry: Entry, version: u16)
    requires
        version >= SEGMENT_FORMAT_VERSION_V2,
        entry.producers.len() <= 0xffff,
        0 <= at,
        at + producers_bytes(entry, version).len() <= bytes.len(),
        bytes.subrange(at, at + producers_bytes(entry, version).len()) == producers_bytes(
            entry,
            version,
        ),
    ensures
        at + 2 <= bytes.len(),
        field(bytes, at, 2) == entry.producers.len(),
        coords_at(bytes, at + 2, entry.producers.len(), version) == Ok::<_, FooterError>(
            (
                entry_as_written(entry, version).producers,
                at + producers_bytes(entry, version).len(),
            ),
        ),
{
    lemma_radix_values();
    let count = be(entry.producers.len(), 2);
    let coords = coords_bytes(entry.producers, version);
    let none = Seq::<u8>::empty();
    lemma_be_len(entry.producers.len(), 2);
    assert(producers_bytes(entry, version) =~= count + coords + none + none + none);
    lemma_parts(bytes, at, count, coords, none, none, none);
    lemma_field(bytes, at, entry.producers.len(), 2);
    lemma_coords(bytes, at + 2, entry.producers, version);
}

/// An entry is read back from where it was written.
proof fn lemma_entry(bytes: Seq<u8>, at: int, entry: Entry, version: u16)
    requires
        entry_fits(entry),
        0 <= at,
        at + entry_bytes(entry, version).len() <= bytes.len(),
        bytes.subrange(at, at + entry_bytes(entry, version).len()) == entry_bytes(entry, version),
    ensures
        entry_at(bytes, at, version) == Ok::<_, FooterError>(
            (entry_as_written(entry, version), at + entry_bytes(entry, version).len()),
        ),
{
    lemma_radix_values();
    lemma_entry_parts(entry, version);
    let topic = encode_utf8(entry.topic);
    let size = be(topic.len(), 2);
    let id_part = id_bytes(entry, version);
    let fixed_part = fixed_bytes(entry);
    let producers = producers_bytes(entry, version);
    lemma_parts(bytes, at, size, topic, id_part, fixed_part, producers);
    let named = at + 2 + topic.len();
    let fixed = named + id_part.len();
    lemma_field(bytes, at, topic.len(), 2);
    encode_utf8_valid_utf8(entry.topic);
    encode_utf8_decode_utf8(entry.topic);
    lemma_fixed(bytes, fixed, entry);
    if version >= SEGMENT_FORMAT_VERSION_V4 {
        let id = match entry.topic_id {
            Some(id) => id as nat,
            None => 0,
        };
        lemma_field(bytes, named, id, 16);
    }
    if version >= SEGMENT_FORMAT_VERSION_V2 {
        lemma_producers(bytes, fixed + 44, entry, version);
    }
    assert(entry_at(bytes, at, version)->Ok_0.0 =~= entry_as_written(entry, version));
}

proof fn lemma_entries(bytes: Seq<u8>, at: int, entries: Seq<Entry>, version: u16)
    requires
        forall|i: int| #![trigger entries[i]] 0 <= i < entries.len() ==> entry_fits(entries[i]),
        0 <= at,
        at + entries_bytes(entries, version).len() <= bytes.len(),
        bytes.subrange(at, at + entries_bytes(entries, version).len()) == entries_bytes(
            entries,
            version,
        ),
    ensures
        entries_at(bytes, at, entries.len(), version) == Ok::<_, FooterError>(
            (
                entries.map_values(|entry: Entry| entry_as_written(entry, version)),
                at + entries_bytes(entries, version).len(),
            ),
        ),
    decreases entries.len(),
{
    let written = entries.map_values(|entry: Entry| entry_as_written(entry, version));
    if entries.len() == 0 {
        assert(written =~= Seq::empty());
    } else {
        let before = entries.drop_last();
        let head = entries_bytes(before, version);
        let last = entry_bytes(entries.last(), version);
        let run = entries_bytes(entries, version);
        let whole = bytes.subrange(at, at + run.len());
        assert(bytes.subrange(at, at + head.len()) =~= whole.subrange(0, head.len() as int));
        assert(whole.subrange(0, head.len() as int) =~= head);
        assert forall|i: int| #![trigger before[i]] 0 <= i < before.len() implies entry_fits(
            before[i],
        ) by {
            assert(before[i] == entries[i]);
        }
        lemma_entries(bytes, at, before, version);
        assert(bytes.subrange(at + head.len(), at + head.len() + last.len()) =~= whole.subrange(
            head.len() as int,
            run.len() as int,
        ));
        assert(whole.subrange(head.len() as int, run.len() as int) =~= last);
        assert(entries[entries.len() - 1] == entries.last());
        lemma_entry(bytes, at + head.len(), entries.last(), version);
        assert(written =~= before.map_values(
            |entry: Entry| entry_as_written(entry, version),
        ).push(entry_as_written(entries.last(), version)));
    }
}

/// Reading a footer back gives what its format has a place for, of every field
/// of every entry, whatever the format.
pub proof fn footer_round_trip(footer: Footer, version: u16)
    requires
        fits(footer),
    ensures
        footer_in(footer_bytes(footer, version), footer.entries.len(), version) == Ok::<
            _,
            FooterError,
        >(as_written(footer, version)),
{
    lemma_radix_values();
    let bytes = footer_bytes(footer, version);
    let epoch = be(pattern(footer.writer_epoch as int, 8), 8);
    let entries = entries_bytes(footer.entries, version);
    lemma_be_len(pattern(footer.writer_epoch as int, 8), 8);
    lemma_be_len(footer.nonce as nat, 8);
    assert(bytes.subrange(0, 0int + 8nat) =~= epoch);
    lemma_signed_field(bytes, 0, footer.writer_epoch as int, 8);
    if version >= SEGMENT_FORMAT_VERSION_V2 {
        assert(bytes.subrange(8, 8int + 8nat) =~= be(footer.nonce as nat, 8));
        lemma_field(bytes, 8, footer.nonce as nat, 8);
    }
    let at = header_size(version) as int;
    assert(bytes.subrange(at, at + entries.len()) =~= entries);
    lemma_entries(bytes, at, footer.entries, version);
}

proof fn lemma_entry_cut(bytes: Seq<u8>, at: int, entry: Entry, version: u16)
    requires
        entry_fits(entry),
        0 <= at <= bytes.len(),
        bytes.len() < at + entry_bytes(entry, version).len(),
        bytes.subrange(at, bytes.len() as int) == entry_bytes(entry, version).take(
            bytes.len() - at,
        ),
    ensures
        entry_at(bytes, at, version) == Err::<(Entry, int), _>(FooterError::Truncated),
{
    lemma_radix_values();
    lemma_entry_parts(entry, version);
    let all = entry_bytes(entry, version);
    let whole = bytes + all.skip(bytes.len() - at);
    let topic = encode_utf8(entry.topic);
    let size = be(topic.len(), 2);
    let id_part = id_bytes(entry, version);
    let fixed_part = fixed_bytes(entry);
    let producers = producers_bytes(entry, version);
    assert(whole.subrange(at, at + all.len()) =~= all) by {
        assert(all =~= all.take(bytes.len() - at) + all.skip(bytes.len() - at));
        assert(whole.subrange(at, at + all.len()) =~= bytes.subrange(at, bytes.len() as int)
            + all.skip(bytes.len() - at));
    }
    lemma_parts(whole, at, size, topic, id_part, fixed_part, producers);
    let named = at + 2 + topic.len();
    let fixed = named + id_part.len();
    if at + 2 <= bytes.len() {
        assert(bytes.subrange(at, at + 2) =~= whole.subrange(at, at + 2));
        lemma_field(bytes, at, topic.len(), 2);
        if named <= bytes.len() {
            assert(bytes.subrange(at + 2, named) =~= whole.subrange(at + 2, named));
            encode_utf8_valid_utf8(entry.topic);
            if version >= SEGMENT_FORMAT_VERSION_V2 && fixed + 46 <= bytes.len() {
                let count = be(entry.producers.len(), 2);
                let coords = coords_bytes(entry.producers, version);
                let none = Seq::<u8>::empty();
                lemma_be_len(entry.producers.len(), 2);
                lemma_coords_layout(entry.producers, version);
                assert(producers =~= count + coords + none + none + none);
                lemma_parts(whole, fixed + 44, count, coords, none, none, none);
                assert(bytes.subrange(fixed + 44, fixed + 44 + 2) =~= whole.subrange(
                    fixed + 44,
                    fixed + 44 + 2,
                ));
                lemma_field(bytes, fixed + 44, entry.producers.len(), 2);
            }
        }
    }
}

proof fn lemma_entries_cut(bytes: Seq<u8>, at: int, entries: Seq<Entry>, version: u16)
    requires
        forall|i: int| #![trigger entries[i]] 0 <= i < entries.len() ==> entry_fits(entries[i]),
        0 <= at <= bytes.len(),
        bytes.len() < at + entries_bytes(entries, version).len(),
        bytes.subrange(at, bytes.len() as int) == entries_bytes(entries, version).take(
            bytes.len() - at,
        ),
    ensures
        entries_at(bytes, at, entries.len(), version) == Err::<(Seq<Entry>, int), _>(
            FooterError::Truncated,
        ),
    decreases entries.len(),
{
    let before = entries.drop_last();
    let head = entries_bytes(before, version);
    let last = entry_bytes(entries.last(), version);
    let run = entries_bytes(entries, version);
    let left = bytes.subrange(at, bytes.len() as int);
    assert(entries.len() > 0);
    assert(entries[entries.len() - 1] == entries.last());
    assert forall|i: int| #![trigger before[i]] 0 <= i < before.len() implies entry_fits(
        before[i],
    ) by {
        assert(before[i] == entries[i]);
    }
    if bytes.len() < at + head.len() {
        assert(left =~= head.take(bytes.len() - at));
        lemma_entries_cut(bytes, at, before, version);
    } else {
        assert(bytes.subrange(at, at + head.len()) =~= left.take(head.len() as int));
        assert(left.take(head.len() as int) =~= head);
        lemma_entries(bytes, at, before, version);
        let from = at + head.len();
        assert(bytes.subrange(from, bytes.len() as int) =~= left.skip(head.len() as int));
        assert(left.skip(head.len() as int) =~= last.take(bytes.len() - from));
        lemma_entry_cut(bytes, from, entries.last(), version);
    }
}

/// A footer that is cut short anywhere is refused: no strict prefix of what was
/// written is read as a footer of as many entries.
pub proof fn truncated_footers_are_refused(footer: Footer, version: u16, kept: int)
    requires
        fits(footer),
        0 <= kept < footer_bytes(footer, version).len(),
    ensures
        footer_in(footer_bytes(footer, version).take(kept), footer.entries.len(), version) == Err::<
            Footer,
            _,
        >(FooterError::Truncated),
{
    let all = footer_bytes(footer, version);
    let bytes = all.take(kept);
    let at = header_size(version) as int;
    let entries = entries_bytes(footer.entries, version);
    lemma_be_len(pattern(footer.writer_epoch as int, 8), 8);
    lemma_be_len(footer.nonce as nat, 8);
    if kept >= at {
        assert(all.skip(at) =~= entries);
        assert(bytes.subrange(at, kept) =~= entries.take(kept - at));
        lemma_entries_cut(bytes, at, footer.entries, version);
    }
}

/// At the newest format a footer is read back as it was written, to the last
/// field.
pub proof fn newest_format_keeps_everything(footer: Footer)
    requires
        fits(footer),
    ensures
        footer_in(
            footer_bytes(footer, SEGMENT_FORMAT_VERSION_V4),
            footer.entries.len(),
            SEGMENT_FORMAT_VERSION_V4,
        ) == Ok::<_, FooterError>(footer),
{
    footer_round_trip(footer, SEGMENT_FORMAT_VERSION_V4);
    assert forall|i: int| 0 <= i < footer.entries.len() implies entry_as_written(
        #[trigger] footer.entries[i],
        SEGMENT_FORMAT_VERSION_V4,
    ) == footer.entries[i] by {
        let entry = footer.entries[i];
        assert(entry.producers.map_values(
            |coord: ProducerCoord| coord_as_written(coord, SEGMENT_FORMAT_VERSION_V4),
        ) =~= entry.producers);
        assert(entry_as_written(entry, SEGMENT_FORMAT_VERSION_V4) =~= entry);
    }
    assert(as_written(footer, SEGMENT_FORMAT_VERSION_V4).entries =~= footer.entries);
    assert(as_written(footer, SEGMENT_FORMAT_VERSION_V4) =~= footer);
}

/// The footer of a segment is found again from the segment, and from any tail of
/// it that holds the footer.
pub proof fn segment_footer_round_trip(
    writes: Seq<Write>,
    writer_epoch: i64,
    nonce: u64,
    version: u16,
    skipped: int,
)
    requires
        is_known(version),
        fits(footer_of(writes, writer_epoch, nonce)),
        footer_of(writes, writer_epoch, nonce).entries.len() <= u32::MAX,
        footer_bytes(footer_of(writes, writer_epoch, nonce), version).len() <= u64::MAX,
        0 <= skipped <= body_of(writes).len(),
    ensures
        segment_footer_in(segment_of(writes, writer_epoch, nonce, version).skip(skipped)) == Ok::<
            _,
            FooterError,
        >(Some(as_written(footer_of(writes, writer_epoch, nonce), version))),
{
    lemma_radix_values();
    let footer = footer_of(writes, writer_epoch, nonce);
    let bytes = footer_bytes(footer, version);
    let count = footer.entries.len();
    let trailer = trailer_bytes(bytes.len(), count, version);
    let segment = segment_of(writes, writer_epoch, nonce, version);
    let tail = segment.skip(skipped);
    let end = tail.len() - SEGMENT_TRAILER_LEN;
    lemma_be_len(bytes.len(), 8);
    lemma_be_len(count, 4);
    lemma_be_len(version as nat, 2);
    lemma_be_len(SEGMENT_MAGIC as nat, 4);
    assert(trailer.len() == 18);
    assert(tail.subrange(end, tail.len() as int) =~= trailer);
    assert(tail.subrange(end, end + 8) =~= trailer.subrange(0, 8));
    assert(trailer.subrange(0, 8) =~= be(bytes.len(), 8));
    lemma_field(tail, end, bytes.len(), 8);
    assert(tail.subrange(end + 8, end + 8 + 4) =~= trailer.subrange(8, 12));
    assert(trailer.subrange(8, 12) =~= be(count, 4));
    lemma_field(tail, end + 8, count, 4);
    assert(tail.subrange(end + 12, end + 12 + 2) =~= trailer.subrange(12, 14));
    assert(trailer.subrange(12, 14) =~= be(version as nat, 2));
    lemma_field(tail, end + 12, version as nat, 2);
    assert(tail.subrange(end + 14, end + 14 + 4) =~= trailer.subrange(14, 18));
    assert(trailer.subrange(14, 18) =~= be(SEGMENT_MAGIC as nat, 4));
    lemma_field(tail, end + 14, SEGMENT_MAGIC as nat, 4);
    assert(tail.subrange(end - bytes.len(), end) =~= bytes);
    footer_round_trip(footer, version);
}

/// Each sub-stream's bytes lie where its footer entry says: behind those of the
/// sub-streams before it.
pub proof fn regions_lie_where_indexed(
    writes: Seq<Write>,
    writer_epoch: i64,
    nonce: u64,
    version: u16,
    i: int,
)
    requires
        0 <= i < writes.len(),
    ensures
        ({
            let start = body_of(writes.subrange(0, i)).len() as int;
            let region = region_bytes(writes[i].batches);
            let segment = segment_of(writes, writer_epoch, nonce, version);
            &&& start + region.len() <= segment.len()
            &&& segment.subrange(start, start + region.len()) == region
        }),
{
    lemma_region_in_body(writes, i);
    let start = body_of(writes.subrange(0, i)).len() as int;
    let region = region_bytes(writes[i].batches);
    let segment = segment_of(writes, writer_epoch, nonce, version);
    assert(segment.subrange(start, start + region.len()) =~= body_of(writes).subrange(
        start,
        start + region.len(),
    ));
}

proof fn lemma_region_in_body(writes: Seq<Write>, i: int)
    requires
        0 <= i < writes.len(),
    ensures
        ({
            let start = body_of(writes.subrange(0, i)).len() as int;
            let region = region_bytes(writes[i].batches);
            &&& start + region.len() <= body_of(writes).len()
            &&& body_of(writes).subrange(start, start + region.len()) == region
        }),
    decreases writes.len(),
{
    let start = body_of(writes.subrange(0, i)).len() as int;
    let region = region_bytes(writes[i].batches);
    let before = writes.drop_last();
    if i == writes.len() - 1 {
        assert(writes.subrange(0, i) =~= before);
        assert(body_of(writes).subrange(start, start + region.len()) =~= region);
    } else {
        assert(writes.subrange(0, i) =~= before.subrange(0, i));
        lemma_region_in_body(before, i);
        assert(body_of(writes).subrange(start, start + region.len()) =~= body_of(before).subrange(
            start,
            start + region.len(),
        ));
    }
}

/// Where the fields of a coordinate lie, in every format that has coordinates.
pub proof fn fields_of_a_coordinate_lie_in_place(coord: ProducerCoord, version: u16)
    ensures
        ({
            let bytes = coord_bytes(coord, version);
            &&& bytes.len() == if version >= 3 {
                23int
            } else {
                22
            }
            &&& bytes.subrange(0, 8) == be(pattern(coord.producer_id as int, 8), 8)
            &&& bytes.subrange(8, 10) == be(pattern(coord.producer_epoch as int, 2), 2)
            &&& bytes.subrange(10, 14) == be(pattern(coord.base_sequence as int, 4), 4)
            &&& bytes.subrange(14, 18) == be(pattern(coord.last_sequence as int, 4), 4)
            &&& bytes.subrange(18, 22) == be(coord.offset_delta as nat, 4)
            &&& version >= 3 ==> bytes[22] == coord.flags
        }),
{
    let bytes = coord_bytes(coord, version);
    lemma_be_len(pattern(coord.producer_id as int, 8), 8);
    lemma_be_len(pattern(coord.producer_epoch as int, 2), 2);
    lemma_be_len(pattern(coord.base_sequence as int, 4), 4);
    lemma_be_len(pattern(coord.last_sequence as int, 4), 4);
    lemma_be_len(coord.offset_delta as nat, 4);
    assert(bytes.subrange(0, 8) =~= be(pattern(coord.producer_id as int, 8), 8));
    assert(bytes.subrange(8, 10) =~= be(pattern(coord.producer_epoch as int, 2), 2));
    assert(bytes.subrange(10, 14) =~= be(pattern(coord.base_sequence as int, 4), 4));
    assert(bytes.subrange(14, 18) =~= be(pattern(coord.last_sequence as int, 4), 4));
    assert(bytes.subrange(18, 22) =~= be(coord.offset_delta as nat, 4));
}

/// Where the fields of an entry lie: the length of the topic's name and the name, the id
/// where the format has one, nil where the topic has none, then the partition, the first
/// offset, the records, the place and the length of the region, the newest time, and,
/// where the format has coordinates, how many of them follow.
pub proof fn fields_of_an_entry_lie_in_place(entry: Entry, version: u16)
    ensures
        ({
            let bytes = entry_bytes(entry, version);
            let topic = encode_utf8(entry.topic);
            let named = 2 + topic.len() as int;
            let fixed = named + if version >= 4 {
                16int
            } else {
                0
            };
            &&& bytes.len() >= fixed + 44
            &&& bytes.subrange(0, 2) == be(topic.len(), 2)
            &&& bytes.subrange(2, named) == topic
            &&& version >= 4 ==> bytes.subrange(named, fixed) == be(
                match entry.topic_id {
                    Some(id) => id as nat,
                    None => 0,
                },
                16,
            )
            &&& bytes.subrange(fixed, fixed + 4) == be(pattern(entry.partition as int, 4), 4)
            &&& bytes.subrange(fixed + 4, fixed + 12) == be(
                pattern(entry.base_offset as int, 8),
                8,
            )
            &&& bytes.subrange(fixed + 12, fixed + 20) == be(
                pattern(entry.record_count as int, 8),
                8,
            )
            &&& bytes.subrange(fixed + 20, fixed + 28) == be(entry.byte_start as nat, 8)
            &&& bytes.subrange(fixed + 28, fixed + 36) == be(entry.byte_len as nat, 8)
            &&& bytes.subrange(fixed + 36, fixed + 44) == be(
                pattern(entry.max_timestamp as int, 8),
                8,
            )
            &&& version < 2 ==> bytes.len() == fixed + 44
            &&& version >= 2 ==> bytes.len() >= fixed + 46 && bytes.subrange(fixed + 44, fixed + 46)
                == be(entry.producers.len(), 2) && bytes.skip(fixed + 46) == coords_bytes(
                entry.producers,
                version,
            )
        }),
{
    let bytes = entry_bytes(entry, version);
    let topic = encode_utf8(entry.topic);
    let named = 2 + topic.len() as int;
    let id = match entry.topic_id {
        Some(id) => id as nat,
        None => 0,
    };
    let fixed = named + if version >= 4 {
        16int
    } else {
        0
    };
    lemma_be_len(topic.len(), 2);
    lemma_be_len(id, 16);
    lemma_be_len(pattern(entry.partition as int, 4), 4);
    lemma_be_len(pattern(entry.base_offset as int, 8), 8);
    lemma_be_len(pattern(entry.record_count as int, 8), 8);
    lemma_be_len(entry.byte_start as nat, 8);
    lemma_be_len(entry.byte_len as nat, 8);
    lemma_be_len(pattern(entry.max_timestamp as int, 8), 8);
    lemma_be_len(entry.producers.len(), 2);
    assert(bytes.subrange(0, 2) =~= be(topic.len(), 2));
    assert(bytes.subrange(2, named) =~= topic);
    if version >= 4 {
        assert(bytes.subrange(named, fixed) =~= be(id, 16));
    }
    assert(bytes.subrange(fixed, fixed + 4) =~= be(pattern(entry.partition as int, 4), 4));
    assert(bytes.subrange(fixed + 4, fixed + 12) =~= be(pattern(entry.base_offset as int, 8), 8));
    assert(bytes.subrange(fixed + 12, fixed + 20) =~= be(pattern(entry.record_count as int, 8), 8));
    assert(bytes.subrange(fixed + 20, fixed + 28) =~= be(entry.byte_start as nat, 8));
    assert(bytes.subrange(fixed + 28, fixed + 36) =~= be(entry.byte_len as nat, 8));
    assert(bytes.subrange(fixed + 36, fixed + 44) =~= be(
        pattern(entry.max_timestamp as int, 8),
        8,
    ));
    if version >= 2 {
        assert(bytes.subrange(fixed + 44, fixed + 46) =~= be(entry.producers.len(), 2));
        assert(bytes.skip(fixed + 46) =~= coords_bytes(entry.producers, version));
    }
}

/// Where the fields of a footer and of its trailer lie: the writer's epoch, the nonce
/// where the format has one, and the entries; and behind them how long they are, how
/// many entries they hold, the format and the magic.
pub proof fn fields_of_a_footer_lie_in_place(
    footer: Footer,
    version: u16,
    footer_len: nat,
    entry_count: nat,
)
    ensures
        ({
            let bytes = footer_bytes(footer, version);
            let trailer = trailer_bytes(footer_len, entry_count, version);
            &&& bytes.subrange(0, 8) == be(pattern(footer.writer_epoch as int, 8), 8)
            &&& version >= 2 ==> bytes.subrange(8, 16) == be(footer.nonce as nat, 8)
                && bytes.skip(16) == entries_bytes(footer.entries, version)
            &&& version < 2 ==> bytes.skip(8) == entries_bytes(footer.entries, version)
            &&& trailer.len() == 18
            &&& trailer.subrange(0, 8) == be(footer_len, 8)
            &&& trailer.subrange(8, 12) == be(entry_count, 4)
            &&& trailer.subrange(12, 14) == be(version as nat, 2)
            &&& trailer.subrange(14, 18) == be(SEGMENT_MAGIC as nat, 4)
        }),
{
    let bytes = footer_bytes(footer, version);
    let trailer = trailer_bytes(footer_len, entry_count, version);
    lemma_be_len(pattern(footer.writer_epoch as int, 8), 8);
    lemma_be_len(footer.nonce as nat, 8);
    lemma_be_len(footer_len, 8);
    lemma_be_len(entry_count, 4);
    lemma_be_len(version as nat, 2);
    lemma_be_len(SEGMENT_MAGIC as nat, 4);
    assert(bytes.subrange(0, 8) =~= be(pattern(footer.writer_epoch as int, 8), 8));
    if version >= 2 {
        assert(bytes.subrange(8, 16) =~= be(footer.nonce as nat, 8));
        assert(bytes.skip(16) =~= entries_bytes(footer.entries, version));
    } else {
        assert(bytes.skip(8) =~= entries_bytes(footer.entries, version));
    }
    assert(trailer.subrange(0, 8) =~= be(footer_len, 8));
    assert(trailer.subrange(8, 12) =~= be(entry_count, 4));
    assert(trailer.subrange(12, 14) =~= be(version as nat, 2));
    assert(trailer.subrange(14, 18) =~= be(SEGMENT_MAGIC as nat, 4));
}

/// When the end of an object is no footer, and why it is refused: it is none where it is
/// too short for a trailer or has not the magic; a format that is not known is refused,
/// and then a footer that is said to be longer than what was read.
pub proof fn what_is_no_footer(tail: Seq<u8>)
    ensures
        ({
            let end = tail.len() - 18;
            let read = segment_footer_in(tail);
            let marked = end >= 0 && field(tail, end + 14, 4) == SEGMENT_MAGIC;
            let version = field(tail, end + 12, 2) as u16;
            let length = field(tail, end, 8);
            &&& (read is Ok && read->Ok_0 is None) <==> !marked
            &&& marked && !(1 <= version <= 4) ==> read == Err::<Option<Footer>, FooterError>(
                FooterError::UnsupportedVersion(version),
            )
            &&& marked && 1 <= version <= 4 && length > end ==> read == Err::<
                Option<Footer>,
                FooterError,
            >(FooterError::LengthExceedsTail)
        }),
{
}

} // verus!
