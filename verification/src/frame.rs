//! Reading a sub-stream's region: finding its batches, and telling bytes that
//! may be ignored from a region that is not what its footer entry says.

use crate::codec::signed_field;
use crate::error::Error;
use crate::segment::{
    first_under, region_bytes, Batch, CorruptRegion, Entry, RecordBatch, SegmentFooter,
    SubstreamEntry, FRAME_PREFIX,
};
use crate::store::DynoStore;
use crate::text::{
    decimal, hex, hex_of, push_decimal, push_signed, signed_decimal,
};
use crate::wire::{
    be, get_be, lemma_be_len, lemma_radix_values, pattern, signed_of, signed_round_trip, slice_of,
};
use vstd::prelude::*;
use vstd::string::*;

verus! {

/// Why the scan of a region stopped.
#[derive(Clone, Copy, Debug, PartialEq, Eq, Structural)]
pub enum FrameTail {
    /// At the end of the bytes.
    Exhausted,
    /// At bytes too few to hold a frame's prefix.
    Short { at: usize, remaining: usize },
    /// At a declared length that is negative, or runs past the bytes.
    Malformed { at: usize, declared: i32 },
}

impl FrameTail {
    /// Where the scan stopped.
    pub fn at(&self) -> (at: usize)
        ensures
            at == match *self {
                FrameTail::Exhausted => 0,
                FrameTail::Short { at, remaining: _ } => at,
                FrameTail::Malformed { at, declared: _ } => at,
            },
    {
        match self {
            FrameTail::Exhausted => 0,
            FrameTail::Short { at, .. } => *at,
            FrameTail::Malformed { at, .. } => *at,
        }
    }

    /// The declared length read where the scan stopped, if one was.
    pub fn declared(&self) -> (declared: Option<i32>)
        ensures
            declared == match *self {
                FrameTail::Malformed { at: _, declared } => Some(declared),
                _ => None,
            },
    {
        match self {
            FrameTail::Malformed { declared, .. } => Some(*declared),
            _ => None,
        }
    }

    /// What a diagnostic says of the tail.
    pub open spec fn text(self) -> Seq<char> {
        match self {
            FrameTail::Exhausted => "Exhausted"@,
            FrameTail::Short { at, remaining } => "Short { at: "@ + decimal(at as nat)
                + ", remaining: "@ + decimal(remaining as nat) + " }"@,
            FrameTail::Malformed { at, declared } => "Malformed { at: "@ + decimal(at as nat)
                + ", declared: "@ + signed_decimal(declared as int) + " }"@,
        }
    }

    fn push_text(&self, text: &mut String)
        ensures
            final(text)@ == old(text)@ + self.text(),
    {
        match self {
            FrameTail::Exhausted => text.append("Exhausted"),
            FrameTail::Short { at, remaining } => {
                text.append("Short { at: ");
                push_decimal(text, *at as u64);
                text.append(", remaining: ");
                push_decimal(text, *remaining as u64);
                text.append(" }");
            },
            FrameTail::Malformed { at, declared } => {
                text.append("Malformed { at: ");
                push_decimal(text, *at as u64);
                text.append(", declared: ");
                push_signed(text, *declared as i64);
                text.append(" }");
            },
        }
        assert(text@ =~= old(text)@ + self.text());
    }
}

/// The whole frames from `at` on, and why the scan stops behind them.
pub open spec fn frames_from(bytes: Seq<u8>, at: int) -> (Seq<Seq<u8>>, FrameTail)
    decreases bytes.len() - at,
{
    let remaining = bytes.len() - at;
    let declared = signed_field(bytes, at + 8, 4);
    let total = FRAME_PREFIX + declared;
    if remaining <= 0 {
        (Seq::empty(), FrameTail::Exhausted)
    } else if remaining < FRAME_PREFIX {
        (Seq::empty(), FrameTail::Short { at: at as usize, remaining: remaining as usize })
    } else if declared < 0 || total > remaining {
        (Seq::empty(), FrameTail::Malformed { at: at as usize, declared: declared as i32 })
    } else {
        let (rest, tail) = frames_from(bytes, at + total);
        (seq![bytes.subrange(at, at + total)] + rest, tail)
    }
}

/// The views of a run of frames.
pub open spec fn frames_view(frames: Seq<Vec<u8>>) -> Seq<Seq<u8>> {
    frames.map_values(|frame: Vec<u8>| frame@)
}

impl DynoStore {
    /// Split a stored object into its whole batches. Bytes behind the last whole
    /// batch are left out; the tail says why the scan stopped there.
    pub fn decode_frame(encoded: &[u8]) -> (frames: (Vec<Vec<u8>>, FrameTail))
        ensures
            frames_from(encoded@, 0) == (frames_view(frames.0@), frames.1),
    {
        proof {
            lemma_radix_values();
        }
        let mut frames: Vec<Vec<u8>> = Vec::new();
        let mut at: usize = 0;
        let ghost all = frames_from(encoded@, 0);
        assert(frames_view(frames@) + all.0 =~= all.0);
        loop
            invariant
                at <= encoded@.len(),
                all == frames_from(encoded@, 0),
                all == (
                    frames_view(frames@) + frames_from(encoded@, at as int).0,
                    frames_from(encoded@, at as int).1,
                ),
            decreases encoded@.len() - at,
        {
            let remaining: usize = encoded.len() - at;
            if remaining == 0 {
                assert(frames_view(frames@) + Seq::empty() =~= frames_view(frames@));
                return (frames, FrameTail::Exhausted);
            }
            if remaining < FRAME_PREFIX {
                assert(frames_view(frames@) + Seq::empty() =~= frames_view(frames@));
                return (frames, FrameTail::Short { at, remaining });
            }
            proof {
                lemma_radix_values();
            }
            let declared: i64 = signed_of(get_be(encoded, at + 8, 4), 4);
            if declared < 0 || declared as u64 > (remaining - FRAME_PREFIX) as u64 {
                assert(frames_view(frames@) + Seq::empty() =~= frames_view(frames@));
                return (frames, FrameTail::Malformed { at, declared: declared as i32 });
            }
            let total: usize = FRAME_PREFIX + declared as usize;
            let ghost before = frames@;
            let frame = slice_of(encoded, at, at + total);
            frames.push(frame);
            proof {
                let rest = frames_from(encoded@, at + total).0;
                assert(frames_view(frames@) =~= frames_view(before).push(frame@));
                assert(frames_view(frames@) + rest =~= frames_view(before) + (seq![frame@] + rest));
            }
            at = at + total;
        }
    }
}

/// One ranged read of a sub-stream's region.
#[derive(Debug)]
pub struct RegionRead<'a> {
    pub prefix: &'a str,
    pub seq: u64,
    pub entry: &'a SubstreamEntry,
    pub encoded: &'a [u8],
}

/// Bytes of a frame's prefix that a diagnostic shows.
pub open spec fn head_of(encoded: Seq<u8>, at: int) -> Seq<u8> {
    if at >= encoded.len() {
        Seq::empty()
    } else if at + FRAME_PREFIX >= encoded.len() {
        encoded.subrange(at, encoded.len() as int)
    } else {
        encoded.subrange(at, at + FRAME_PREFIX)
    }
}

/// The mathematical read.
#[verifier::ext_equal]
pub struct Reading {
    pub prefix: Seq<char>,
    pub seq: u64,
    pub entry: Entry,
    pub encoded: Seq<u8>,
}

impl View for RegionRead<'_> {
    type V = Reading;

    open spec fn view(&self) -> Reading {
        Reading {
            prefix: self.prefix@,
            seq: self.seq,
            entry: self.entry@,
            encoded: self.encoded@,
        }
    }
}

impl Reading {
    /// Whether `region` is the diagnostic of this read.
    pub open spec fn is_region(
        self,
        region: CorruptRegion,
        at: usize,
        declared: Option<i32>,
        detail: Seq<char>,
    ) -> bool {
        &&& region.prefix@ == self.prefix
        &&& region.seq == self.seq
        &&& region.topic@ == self.entry.topic
        &&& region.partition == self.entry.partition
        &&& region.base_offset == self.entry.base_offset
        &&& region.byte_start == self.entry.byte_start
        &&& region.byte_len == self.entry.byte_len
        &&& region.read_len == self.encoded.len()
        &&& region.at == at
        &&& region.declared == declared
        &&& region.head@ == hex(head_of(self.encoded, at as int))
        &&& region.detail@ == detail
    }
}

impl RegionRead<'_> {
    /// Whether fewer bytes were read than the footer entry claims.
    pub fn truncated(&self) -> (truncated: bool)
        ensures
            truncated == (self.encoded@.len() < self.entry@.byte_len),
    {
        (self.encoded.len() as u64) < self.entry.byte_len
    }

    /// The diagnostic of this read, with where its scan stopped.
    pub fn region(&self, at: usize, declared: Option<i32>, detail: String) -> (region: CorruptRegion)
        ensures
            self@.is_region(region, at, declared, detail@),
    {
        let len: usize = self.encoded.len();
        let head = if at >= len {
            hex_of(self.encoded, 0, 0)
        } else if len - at <= FRAME_PREFIX {
            hex_of(self.encoded, at, len)
        } else {
            hex_of(self.encoded, at, at + FRAME_PREFIX)
        };
        assert(self.encoded@.subrange(0, 0) =~= Seq::empty());
        CorruptRegion {
            prefix: self.prefix.to_owned(),
            seq: self.seq,
            topic: (*self.entry.topic).clone(),
            partition: self.entry.partition,
            base_offset: self.entry.base_offset,
            byte_start: self.entry.byte_start,
            byte_len: self.entry.byte_len,
            read_len: len,
            at,
            declared,
            head,
            detail,
        }
    }

    /// The region holds no frame where its entry says that it begins.
    pub fn corrupt(&self, at: usize, declared: Option<i32>, detail: String) -> (error: Error)
        ensures
            error matches Error::CorruptSegment(region) && self@.is_region(
                region,
                at,
                declared,
                detail@,
            ),
    {
        Error::CorruptSegment(self.region(at, declared, detail))
    }

    /// The read came back short of what its entry claims.
    pub fn short_of_extent(&self, detail: String) -> (error: Error)
        ensures
            error matches Error::CorruptSegment(region) && self@.is_region(
                region,
                self.encoded@.len() as usize,
                None,
                detail@,
            ),
    {
        Error::CorruptSegment(self.region(self.encoded.len(), None, detail))
    }
}

/// What is wrong with a region read.
pub enum Damage {
    /// A frame does not decode, for the reason given.
    Undecodable(Seq<char>),
    /// The read is short of its extent.
    Short(Seq<char>),
    /// The read is whole and holds no whole frame.
    NoFrame(FrameTail),
}

/// What is wrong with a read of `encoded` for `entry`, if anything is: `failure`
/// is why one of its frames did not decode, if one did not.
pub open spec fn damage_of(entry: Entry, encoded: Seq<u8>, failure: Option<Seq<char>>) -> Option<
    Damage,
> {
    let (frames, tail) = frames_from(encoded, 0);
    if failure is Some {
        Some(Damage::Undecodable(failure->0))
    } else if encoded.len() < entry.byte_len {
        Some(
            Damage::Short(
                "region short of its footer extent by "@ + decimal(
                    (entry.byte_len - encoded.len()) as nat,
                ) + " bytes, "@ + decimal(frames.len()) + " whole batches: "@ + tail.text(),
            ),
        )
    } else if tail != FrameTail::Exhausted && frames.len() == 0 {
        Some(Damage::NoFrame(tail))
    } else {
        None
    }
}

/// Whether `error` reports the damage of the read.
pub open spec fn reports(read: Reading, error: Error, damage: Option<Damage>) -> bool {
    match (error, damage) {
        (Error::CorruptSegment(region), Some(Damage::Undecodable(reason))) => read.is_region(
            region,
            0,
            None,
            "undecodable batch: "@ + reason,
        ),
        (Error::CorruptSegment(region), Some(Damage::Short(detail))) => read.is_region(
            region,
            read.encoded.len() as usize,
            None,
            detail,
        ),
        (Error::CorruptSegment(region), Some(Damage::NoFrame(tail))) => read.is_region(
            region,
            match tail {
                FrameTail::Exhausted => 0,
                FrameTail::Short { at, remaining: _ } => at,
                FrameTail::Malformed { at, declared: _ } => at,
            },
            match tail {
                FrameTail::Malformed { at: _, declared } => Some(declared),
                _ => None,
            },
            "region holds no whole batch: "@ + tail.text(),
        ),
        _ => false,
    }
}

impl DynoStore {
    /// The batches of the region read for `entry`, or the damage attributed to
    /// the segment it came from.
    ///
    /// `decoded` is what the batch decoder made of the region's frames, in order:
    /// the batches, or why the first that failed did. A read short of its extent
    /// is damage, and so is a whole one that holds no frame. Bytes behind the
    /// last whole batch are ignored.
    pub fn decode_region(
        prefix: &str,
        seq: u64,
        entry: &SubstreamEntry,
        encoded: &[u8],
        decoded: Result<Vec<Batch>, String>,
    ) -> (batches: Result<Vec<Batch>, Error>)
        ensures
            match batches {
                Ok(batches) => decoded == Ok::<_, String>(batches) && damage_of(
                    entry@,
                    encoded@,
                    None,
                ) is None,
                Err(error) => reports(
                    (Reading { prefix: prefix@, seq, entry: entry@, encoded: encoded@ }),
                    error,
                    damage_of(
                        entry@,
                        encoded@,
                        match decoded {
                            Ok(_) => None,
                            Err(reason) => Some(reason@),
                        },
                    ),
                ),
            },
    {
        let read = RegionRead { prefix, seq, entry, encoded };
        let (frames, tail) = Self::decode_frame(encoded);
        let batches = match decoded {
            Ok(batches) => batches,
            Err(reason) => {
                let mut detail = String::from_str("undecodable batch: ");
                detail.append(reason.as_str());
                return Err(read.corrupt(0, None, detail));
            },
        };
        if read.truncated() {
            let mut detail = String::from_str("region short of its footer extent by ");
            push_decimal(&mut detail, entry.byte_len - encoded.len() as u64);
            detail.append(" bytes, ");
            push_decimal(&mut detail, frames.len() as u64);
            detail.append(" whole batches: ");
            tail.push_text(&mut detail);
            return Err(read.short_of_extent(detail));
        }
        if tail == FrameTail::Exhausted || frames.len() > 0 {
            Ok(batches)
        } else {
            let mut detail = String::from_str("region holds no whole batch: ");
            tail.push_text(&mut detail);
            Err(read.corrupt(tail.at(), tail.declared(), detail))
        }
    }

    /// Decide which of the index and the object is wrong when a read came back
    /// short of what `entry` claims: `footer` is the object's own, if it has one.
    ///
    /// `Ok` says that the entry does not belong to the object, so the object's
    /// own trailer is to be adopted. Otherwise the object is short of its own
    /// footer, and nothing can serve the offsets.
    pub fn resolve_short_region(
        prefix: &str,
        seq: u64,
        entry: &SubstreamEntry,
        encoded: &[u8],
        footer: &Option<SegmentFooter>,
    ) -> (adopt: Result<(), Error>)
        ensures
            ({
                let own = match footer {
                    Some(footer) => first_under(footer@.entries, entry@.key()),
                    None => None,
                };
                let read = Reading { prefix: prefix@, seq, entry: entry@, encoded: encoded@ };
                match adopt {
                    Ok(_) => own matches Some(own) && (own.byte_start != entry@.byte_start
                        || own.byte_len != entry@.byte_len),
                    Err(error) => {
                        &&& own matches Some(own) ==> own.byte_start == entry@.byte_start
                            && own.byte_len == entry@.byte_len
                        &&& error matches Error::CorruptSegment(region) && read.is_region(
                            region,
                            encoded@.len() as usize,
                            None,
                            short_detail(entry@, footer is Some, own is Some),
                        )
                    },
                }
            }),
    {
        let read = RegionRead { prefix, seq, entry, encoded };
        let footer = match footer {
            Some(footer) => footer,
            None => {
                return Err(
                    read.short_of_extent(
                        String::from_str(
                            "object carries no segment trailer to resolve the region against",
                        ),
                    ),
                );
            },
        };
        let substream = entry.substream();
        match footer.get(&substream, entry.partition) {
            None => {
                let mut detail = String::from_str("object's own footer holds no ");
                detail.append(entry.topic.as_str());
                detail.append("-");
                push_signed(&mut detail, entry.partition as i64);
                detail.append(" region");
                Err(read.short_of_extent(detail))
            },
            Some(own) => {
                if own.byte_start == entry.byte_start && own.byte_len == entry.byte_len {
                    let mut detail = String::from_str("object's own footer claims the same ");
                    push_decimal(&mut detail, entry.byte_len);
                    detail.append(" bytes at ");
                    push_decimal(&mut detail, entry.byte_start);
                    detail.append(" and the object is short of it");
                    Err(read.short_of_extent(detail))
                } else {
                    Ok(())
                }
            },
        }
    }

    /// Decide which of the index and the object is wrong when a whole read held
    /// no frame, as [`Self::resolve_short_region`] does for a short one. A footer
    /// that knows nothing of the sub-stream disagrees with the entry too; with no
    /// footer to ask, the damage stands.
    pub fn resolve_corrupt_region(
        entry: &SubstreamEntry,
        footer: &Option<SegmentFooter>,
        corrupt: CorruptRegion,
    ) -> (adopt: Result<(), Error>)
        ensures
            ({
                let disagrees = match footer {
                    Some(footer) => match first_under(footer@.entries, entry@.key()) {
                        Some(own) => own.byte_start != entry@.byte_start || own.byte_len
                            != entry@.byte_len,
                        None => true,
                    },
                    None => false,
                };
                match adopt {
                    Ok(_) => disagrees,
                    Err(error) => !disagrees && error == Error::CorruptSegment(corrupt),
                }
            }),
    {
        match footer {
            None => Err(Error::CorruptSegment(corrupt)),
            Some(footer) => {
                let substream = entry.substream();
                match footer.get(&substream, entry.partition) {
                    Some(own) if own.byte_start == entry.byte_start && own.byte_len
                        == entry.byte_len => Err(Error::CorruptSegment(corrupt)),
                    _ => Ok(()),
                }
            },
        }
    }
}

/// What the diagnostic of a short read says.
pub open spec fn short_detail(entry: Entry, has_footer: bool, has_entry: bool) -> Seq<char> {
    if !has_footer {
        "object carries no segment trailer to resolve the region against"@
    } else if !has_entry {
        "object's own footer holds no "@ + entry.topic + "-"@ + signed_decimal(
            entry.partition as int,
        ) + " region"@
    } else {
        "object's own footer claims the same "@ + decimal(entry.byte_len as nat) + " bytes at "@
            + decimal(entry.byte_start as nat) + " and the object is short of it"@
    }
}

/// The first batch of a region, and the rest of it.
proof fn lemma_region_cons(batches: Seq<RecordBatch>)
    requires
        batches.len() > 0,
    ensures
        region_bytes(batches) == batches[0].wire() + region_bytes(batches.skip(1)),
    decreases batches.len(),
{
    let rest = batches.skip(1);
    if batches.len() == 1 {
        assert(batches.drop_last() =~= Seq::empty());
        assert(rest =~= Seq::empty());
        assert(region_bytes(batches) =~= batches[0].wire() + region_bytes(rest));
    } else {
        let before = batches.drop_last();
        lemma_region_cons(before);
        assert(before.skip(1) =~= rest.drop_last());
        assert(rest.last() == batches.last());
        assert(region_bytes(batches) =~= batches[0].wire() + region_bytes(rest));
    }
}

proof fn lemma_frames(bytes: Seq<u8>, at: int, batches: Seq<RecordBatch>)
    requires
        0 <= at <= bytes.len(),
        bytes.skip(at) == region_bytes(batches),
        forall|i: int|
            #![trigger batches[i]]
            0 <= i < batches.len() ==> batches[i].declares_its_own_length(),
    ensures
        frames_from(bytes, at) == (
            batches.map_values(|batch: RecordBatch| batch.wire()),
            FrameTail::Exhausted,
        ),
    decreases batches.len(),
{
    let wires = batches.map_values(|batch: RecordBatch| batch.wire());
    if batches.len() == 0 {
        assert(bytes.skip(at).len() == 0);
        assert(wires =~= Seq::empty());
    } else {
        let head = batches[0];
        let rest = batches.skip(1);
        let wire = head.wire();
        lemma_region_cons(batches);
        lemma_radix_values();
        lemma_be_len(pattern(head.base_offset as int, 8), 8);
        lemma_be_len(pattern(head.batch_length as int, 4), 4);
        assert(head.declares_its_own_length());
        let run = bytes.skip(at);
        assert(bytes.subrange(at + 8, at + 8 + 4) =~= run.subrange(8, 12));
        assert(run.subrange(8, 12) =~= wire.subrange(8, 12));
        assert(wire.subrange(8, 12) =~= be(pattern(head.batch_length as int, 4), 4));
        signed_round_trip(head.batch_length as int, 4);
        crate::wire::be_round_trip(pattern(head.batch_length as int, 4), 4);
        assert(signed_field(bytes, at + 8, 4) == head.batch_length);
        assert(wire.len() == 12 + head.batch_length);
        assert(bytes.subrange(at, at + wire.len()) =~= run.subrange(0, wire.len() as int));
        assert(run.subrange(0, wire.len() as int) =~= wire);
        assert(bytes.skip(at + wire.len()) =~= run.skip(wire.len() as int));
        assert(run.skip(wire.len() as int) =~= region_bytes(rest));
        assert forall|i: int|
            #![trigger rest[i]]
            0 <= i < rest.len() implies rest[i].declares_its_own_length() by {
            assert(rest[i] == batches[i + 1]);
        }
        lemma_frames(bytes, at + wire.len(), rest);
        assert(wires =~= seq![wire] + rest.map_values(|batch: RecordBatch| batch.wire()));
    }
}

/// The frames of a region are the batches that were written to it, to the last
/// byte: nothing of it is left over.
pub proof fn region_round_trip(batches: Seq<RecordBatch>)
    requires
        forall|i: int|
            #![trigger batches[i]]
            0 <= i < batches.len() ==> batches[i].declares_its_own_length(),
    ensures
        frames_from(region_bytes(batches), 0) == (
            batches.map_values(|batch: RecordBatch| batch.wire()),
            FrameTail::Exhausted,
        ),
{
    assert(region_bytes(batches).skip(0) =~= region_bytes(batches));
    lemma_frames(region_bytes(batches), 0, batches);
}

/// The bytes of frames, one behind another.
pub open spec fn joined_frames(frames: Seq<Seq<u8>>) -> Seq<u8>
    decreases frames.len(),
{
    if frames.len() == 0 {
        Seq::empty()
    } else {
        frames[0] + joined_frames(frames.skip(1))
    }
}

/// The frames of a run of bytes are its beginning, byte for byte and in order, and each
/// has the length that its own header declares. The scan ends behind them: at the end
/// of the bytes, before less than a header, or before a header that declares a negative
/// length or more than there is; and it says where.
pub proof fn frames_are_what_the_bytes_hold(bytes: Seq<u8>, at: int)
    requires
        0 <= at <= bytes.len() <= usize::MAX,
    ensures
        ({
            let (frames, tail) = frames_from(bytes, at);
            let end = at + joined_frames(frames).len();
            &&& end <= bytes.len()
            &&& joined_frames(frames) == bytes.subrange(at, end)
            &&& forall|i: int|
                0 <= i < frames.len() ==> (#[trigger] frames[i]).len() == 12 + signed_field(
                    frames[i],
                    8,
                    4,
                )
            &&& tail is Exhausted <==> end == bytes.len()
            &&& tail is Short <==> 0 < bytes.len() - end < 12
            &&& tail is Malformed ==> {
                let declared = signed_field(bytes, end + 8, 4);
                &&& bytes.len() - end >= 12
                &&& tail->Malformed_at == end
                &&& tail->declared == declared as i32
                &&& declared < 0 || 12 + declared > bytes.len() - end
            }
            &&& tail is Short ==> tail->Short_at == end && tail->remaining == bytes.len() - end
        }),
    decreases bytes.len() - at,
{
    let declared = signed_field(bytes, at + 8, 4);
    let total = FRAME_PREFIX + declared;
    let remaining = bytes.len() - at;
    let (frames, tail) = frames_from(bytes, at);
    if remaining >= FRAME_PREFIX && declared >= 0 && total <= remaining {
        frames_are_what_the_bytes_hold(bytes, at + total);
        let (rest, _) = frames_from(bytes, at + total);
        let first = bytes.subrange(at, at + total);
        assert(frames.skip(1) =~= rest);
        assert(frames[0] == first);
        let end = at + total + joined_frames(rest).len();
        assert(joined_frames(frames) =~= bytes.subrange(at, end));
        assert(signed_field(first, 8, 4) == declared) by {
            assert(first.subrange(8, 12) =~= bytes.subrange(at + 8, at + 12));
        }
        assert forall|i: int| 0 <= i < frames.len() implies (#[trigger] frames[i]).len() == 12
            + signed_field(frames[i], 8, 4) by {
            if i > 0 {
                assert(frames[i] == rest[i - 1]);
            }
        }
    } else {
        assert(joined_frames(frames) =~= bytes.subrange(at, at));
    }
}

/// A read is damaged exactly if one of its frames did not decode, if it is short of what
/// the footer says, or if it holds no whole frame though it holds something; and it is
/// called by the first of these that holds.
pub proof fn what_damages_a_read(entry: Entry, encoded: Seq<u8>, failure: Option<Seq<char>>)
    ensures
        ({
            let damage = damage_of(entry, encoded, failure);
            let (frames, tail) = frames_from(encoded, 0);
            &&& (damage is Some && damage->0 is Undecodable) <==> failure is Some
            &&& damage is None <==> failure is None && encoded.len() >= entry.byte_len && (
            frames.len() > 0 || encoded.len() == 0)
            &&& (damage is Some && damage->0 is Short) <==> failure is None && encoded.len()
                < entry.byte_len
            &&& failure is Some ==> damage == Some(Damage::Undecodable(failure->0))
            &&& failure is None && encoded.len() >= entry.byte_len && damage is Some ==> damage
                == Some(Damage::NoFrame(tail))
        }),
{
    if encoded.len() == 0 {
        assert(frames_from(encoded, 0).1 is Exhausted);
    }
}

/// What a diagnostic shows of a region is its bytes from the place on, up to a frame's
/// prefix, and nothing behind the end.
pub proof fn a_diagnostic_shows_a_prefix(encoded: Seq<u8>, at: int)
    requires
        0 <= at,
    ensures
        head_of(encoded, at).len() <= 12,
        forall|i: int|
            0 <= i < head_of(encoded, at).len() ==> (#[trigger] head_of(encoded, at)[i])
                == encoded[at + i],
        at < encoded.len() ==> head_of(encoded, at).len() == 12 || at + head_of(encoded, at).len()
            == encoded.len(),
        at >= encoded.len() ==> head_of(encoded, at).len() == 0,
{
}

/// A report of damage tells the region that it is of, and how much of it was read; it
/// tells a declared length only where one was read that cannot be.
pub proof fn a_report_tells_its_region(read: Reading, error: Error, damage: Option<Damage>)
    requires
        reports(read, error, damage),
    ensures
        damage is Some,
        error is CorruptSegment,
        ({
            let region = error->CorruptSegment_0;
            &&& region.prefix@ == read.prefix
            &&& region.seq == read.seq
            &&& region.topic@ == read.entry.topic
            &&& region.partition == read.entry.partition
            &&& region.base_offset == read.entry.base_offset
            &&& region.byte_start == read.entry.byte_start
            &&& region.byte_len == read.entry.byte_len
            &&& region.read_len == read.encoded.len()
            &&& region.declared is Some <==> damage->0 is NoFrame && damage->0->NoFrame_0
                is Malformed
            &&& region.declared is Some ==> region.declared->0 == damage->0->NoFrame_0->declared
            &&& damage->0 is Short && read.encoded.len() <= usize::MAX ==> region.at
                == read.encoded.len()
        }),
{
}

} // verus!
