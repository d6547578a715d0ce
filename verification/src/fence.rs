//! Which segment serves which offsets of a sub-stream, where several hold them.

use crate::index::{candidates_view, Candidate};
use crate::segment::{Entry, SubstreamEntry};
use vstd::prelude::*;

verus! {

/// A segment that serves records of a sub-stream, and which of its offsets. An entry
/// that another segment holds the middle of serves in two places, before and behind it.
/// One that holds no offset stands for its place in the log.
#[derive(Debug)]
pub struct FencedSegment {
    pub seq: u64,
    /// The first offset that this segment serves here: the entry's own base, or where
    /// what a segment that outranks it serves ends.
    pub served_from: i64,
    /// One past the last offset that it serves here: the entry's own end, or where what
    /// a segment that outranks it serves begins.
    pub served_to: i64,
    pub entry: SubstreamEntry,
}

/// The mathematical fenced segment.
pub struct Fenced {
    pub seq: u64,
    pub served_from: int,
    pub served_to: int,
    pub entry: Entry,
}

impl View for FencedSegment {
    type V = Fenced;

    open spec fn view(&self) -> Fenced {
        Fenced {
            seq: self.seq,
            served_from: self.served_from as int,
            served_to: self.served_to as int,
            entry: self.entry@,
        }
    }
}

/// The views of a run of fenced segments.
pub open spec fn fenced_view(segments: Seq<FencedSegment>) -> Seq<Fenced> {
    segments.map_values(|segment: FencedSegment| segment@)
}

impl Fenced {
    /// Whether the segment serves the offset here.
    pub open spec fn serves(self, offset: int) -> bool {
        self.served_from <= offset < self.served_to
    }

    /// Whether what is served lies within the entry, and is something, unless the entry
    /// holds nothing.
    pub open spec fn lies_within(self) -> bool {
        &&& self.entry.base_offset <= self.served_from <= self.served_to <= self.entry.end()
        &&& self.served_from == self.served_to ==> self.entry.base_offset == self.entry.end()
    }

    /// Where the segment ends to serve here, if that is before the end of its entry.
    pub open spec fn cut(self) -> Option<int> {
        if self.served_to < self.entry.end() {
            Some(self.served_to)
        } else {
            None
        }
    }

    /// Whether both are of one entry of one segment.
    pub open spec fn is_of_one_entry(self, other: Fenced) -> bool {
        self.seq == other.seq && self.entry == other.entry
    }
}

/// Whether the last of `served` goes on with an entry that serves before it too.
pub open spec fn goes_on(served: Seq<Fenced>) -> bool {
    exists|i: int|
        0 <= i < served.len() - 1 && (#[trigger] served[i]).is_of_one_entry(served.last())
}

impl Candidate {
    /// Whether the entry holds the offset.
    pub open spec fn holds(self, offset: int) -> bool {
        self.entry.base_offset <= offset < self.entry.end()
    }

    /// What the entry serves of its offsets, from one to before another.
    pub open spec fn serving(self, from: int, to: int) -> Fenced {
        Fenced { seq: self.seq, served_from: from, served_to: to, entry: self.entry }
    }
}

/// Whether `a` outranks `b`: what both hold is served by the one of the higher epoch,
/// and of the higher sequence where the epochs are equal. A merged segment has a higher
/// sequence than those it was made of.
pub open spec fn outranks(a: Candidate, b: Candidate) -> bool {
    a.epoch > b.epoch || (a.epoch == b.epoch && a.seq > b.seq)
}

/// `list` with `candidate` behind all that it does not outrank.
pub open spec fn placed(list: Seq<Candidate>, candidate: Candidate) -> Seq<Candidate>
    decreases list.len(),
{
    if list.len() > 0 && outranks(candidate, list.last()) {
        placed(list.drop_last(), candidate).push(list.last())
    } else {
        list.push(candidate)
    }
}

/// The candidates by their rank, the highest first, those of equal rank in the order
/// they came in.
pub open spec fn arranged(found: Seq<Candidate>) -> Seq<Candidate>
    decreases found.len(),
{
    if found.len() == 0 {
        Seq::empty()
    } else {
        placed(arranged(found.drop_last()), found.last())
    }
}

pub open spec fn lower(a: int, b: int) -> int {
    if a < b {
        a
    } else {
        b
    }
}

/// What serves once another entry does, of which only what lies at `from` or behind is
/// considered: what served before, and in between whatever of the entry that leaves.
pub open spec fn carved(served: Seq<Fenced>, candidate: Candidate, from: int) -> Seq<Fenced>
    decreases served.len(),
{
    let end = candidate.entry.end();
    if served.len() == 0 {
        if from < end {
            seq![candidate.serving(from, end)]
        } else {
            Seq::empty()
        }
    } else {
        let first = served[0];
        let to = lower(first.served_from, end);
        let next = if first.served_to > from {
            first.served_to
        } else {
            from
        };
        let rest = carved(served.skip(1), candidate, next);
        if from < to {
            seq![candidate.serving(from, to), first] + rest
        } else {
            seq![first] + rest
        }
    }
}

/// What entries serve of the offsets that they hold, those of higher rank first: each
/// what none before it does.
pub open spec fn shared_out(list: Seq<Candidate>) -> Seq<Fenced>
    decreases list.len(),
{
    if list.len() == 0 {
        Seq::empty()
    } else {
        carved(shared_out(list.drop_last()), list.last(), list.last().entry.base_offset as int)
    }
}

/// Whether the place of an entry is taken, by one that begins before it and reaches it,
/// or by one of higher rank that begins where it does.
pub open spec fn takes_place(list: Seq<Candidate>, by: int, at: int) -> bool {
    let place = list[at].entry.base_offset;
    let other = list[by].entry;
    &&& other.end() >= place
    &&& other.base_offset < place || (other.base_offset == place && by < at)
}

/// Whether the place of an entry is taken.
pub open spec fn is_taken(list: Seq<Candidate>, at: int) -> bool {
    exists|by: int| 0 <= by < list.len() && #[trigger] takes_place(list, by, at)
}

/// How many of `served` begin before an offset.
pub open spec fn begun(served: Seq<Fenced>, offset: int) -> nat
    decreases served.len(),
{
    if served.len() == 0 || served[0].served_from >= offset {
        0
    } else {
        1 + begun(served.skip(1), offset)
    }
}

/// What serves, with the first `count` of the entries that hold no offset, as far as
/// their places are not taken.
pub open spec fn with_bare(list: Seq<Candidate>, count: int) -> Seq<Fenced>
    decreases count,
{
    if count <= 0 {
        shared_out(list)
    } else {
        let before = with_bare(list, count - 1);
        let last = list[count - 1];
        let place = last.entry.base_offset as int;
        if last.entry.record_count == 0 && !is_taken(list, count - 1) {
            before.insert(begun(before, place) as int, last.serving(place, place))
        } else {
            before
        }
    }
}

/// Who serves what, in ascending order: of the entries, by their rank, each what no one
/// before it does. One that holds no offset stands for its place in the log, unless
/// that is taken.
pub open spec fn fenced(list: Seq<Candidate>) -> Seq<Fenced> {
    with_bare(list, list.len() as int)
}

/// Whether the candidates are in the order of their rank.
pub open spec fn is_ranked(list: Seq<Candidate>) -> bool {
    forall|i: int, j: int|
        #![trigger list[i], list[j]]
        0 <= i < j < list.len() ==> !outranks(list[j], list[i])
}

impl FencedSegment {
    /// One past the last offset that the segment serves here.
    pub fn end(&self) -> (end: i64)
        ensures
            end == self@.served_to,
    {
        self.served_to
    }

    /// Whether the head of the entry is not served here.
    pub fn is_clipped(&self) -> (clipped: bool)
        ensures
            clipped == (self@.served_from > self@.entry.base_offset),
    {
        self.served_from > self.entry.base_offset
    }

    /// Where the segment ends to serve here, if that is before the end of its entry.
    pub fn cut(&self) -> (cut: Option<i64>)
        ensures
            match cut {
                Some(to) => self@.cut() == Some(to as int),
                None => self@.cut() is None,
            },
    {
        let end: i128 = self.entry.base_offset as i128 + self.entry.record_count as i128;
        if (self.served_to as i128) < end {
            Some(self.served_to)
        } else {
            None
        }
    }

    pub fn duplicate(&self) -> (copy: Self)
        ensures
            copy@ == self@,
    {
        FencedSegment {
            seq: self.seq,
            served_from: self.served_from,
            served_to: self.served_to,
            entry: self.entry.duplicate(),
        }
    }
}

/// Where a candidate is placed.
proof fn lemma_placed(list: Seq<Candidate>, candidate: Candidate, at: int)
    requires
        0 <= at <= list.len(),
        at > 0 ==> !outranks(candidate, list[at - 1]),
        forall|j: int| at <= j < list.len() ==> outranks(candidate, #[trigger] list[j]),
    ensures
        placed(list, candidate) == list.insert(at, candidate),
    decreases list.len(),
{
    if at < list.len() {
        let init = list.drop_last();
        assert(list.last() == list[list.len() - 1]);
        assert forall|j: int| at <= j < init.len() implies outranks(
            candidate,
            #[trigger] init[j],
        ) by {
            assert(init[j] == list[j]);
        }
        lemma_placed(init, candidate, at);
        assert(list.insert(at, candidate) =~= init.insert(at, candidate).push(list.last()));
    } else {
        assert(list.insert(at, candidate) =~= list.push(candidate));
    }
}

/// A part of what serves: the position of the entry, and the offsets from and to which
/// it serves.
type Part = (usize, i64, i64);

/// What a part serves.
spec fn part_view(order: Seq<Candidate>, part: Part) -> Fenced {
    order[part.0 as int].serving(part.1 as int, part.2 as int)
}

spec fn parts_view(order: Seq<Candidate>, parts: Seq<Part>) -> Seq<Fenced> {
    parts.map_values(|part: Part| part_view(order, part))
}

/// Whether the parts are of entries in order, and lie within them.
spec fn parts_within(order: Seq<Candidate>, parts: Seq<Part>) -> bool {
    forall|i: int|
        #![trigger parts[i]]
        0 <= i < parts.len() ==> parts[i].0 < order.len() && part_view(order, parts[i]).lies_within()
}

/// Let another entry serve what no one before it does.
fn carve(
    parts: &Vec<Part>,
    at: usize,
    base: i64,
    end: i64,
    Ghost(order): Ghost<Seq<Candidate>>,
) -> (carved_parts: Vec<Part>)
    requires
        at < order.len(),
        base == order[at as int].entry.base_offset,
        end == order[at as int].entry.end(),
        parts_within(order, parts@),
    ensures
        parts_view(order, carved_parts@) == carved(
            parts_view(order, parts@),
            order[at as int],
            base as int,
        ),
        parts_within(order, carved_parts@),
{
    let ghost candidate = order[at as int];
    let ghost all = parts_view(order, parts@);
    let mut out: Vec<Part> = Vec::new();
    let mut from: i64 = base;
    let mut n: usize = 0;
    assert(all.skip(0) =~= all);
    assert(parts_view(order, out@) =~= Seq::empty());
    assert(Seq::<Fenced>::empty() + carved(all, candidate, base as int) =~= carved(
        all,
        candidate,
        base as int,
    ));
    while n < parts.len()
        invariant
            n <= parts@.len(),
            at < order.len(),
            candidate == order[at as int],
            base == candidate.entry.base_offset,
            end == candidate.entry.end(),
            base <= from,
            all == parts_view(order, parts@),
            parts_within(order, parts@),
            parts_within(order, out@),
            carved(all, candidate, base as int) == parts_view(order, out@) + carved(
                all.skip(n as int),
                candidate,
                from as int,
            ),
        decreases parts@.len() - n,
    {
        let part = parts[n];
        let ghost had = parts_view(order, out@);
        let ghost was = from as int;
        assert(all.skip(n as int)[0] == part_view(order, part));
        assert(all.skip(n as int).skip(1) =~= all.skip(n + 1));
        let to: i64 = if part.1 < end {
            part.1
        } else {
            end
        };
        if from < to {
            let ghost kept = out@;
            out.push((at, from, to));
            assert(parts_view(order, out@) =~= had.push(candidate.serving(from as int, to as int)));
        }
        let ghost mid = parts_view(order, out@);
        out.push(part);
        assert(parts_view(order, out@) =~= mid.push(part_view(order, part)));
        if part.2 > from {
            from = part.2;
        }
        proof {
            let rest = carved(all.skip(n + 1), candidate, from as int);
            if was < to {
                assert(had + (seq![
                    candidate.serving(was, to as int),
                    part_view(order, part),
                ] + rest) =~= parts_view(order, out@) + rest);
            } else {
                assert(had + (seq![part_view(order, part)] + rest) =~= parts_view(order, out@)
                    + rest);
            }
        }
        n = n + 1;
    }
    assert(all.skip(n as int) =~= Seq::empty());
    let ghost had = parts_view(order, out@);
    if from < end {
        out.push((at, from, end));
        assert(parts_view(order, out@) =~= had + seq![candidate.serving(from as int, end as int)]);
    } else {
        assert(had + Seq::<Fenced>::empty() =~= had);
    }
    out
}

/// Decide which of the entries found serve what, in ascending order of their offsets.
pub fn fence(found: Vec<(u64, i64, &SubstreamEntry)>) -> (served: Vec<FencedSegment>)
    requires
        forall|i: int| 0 <= i < found@.len() ==> (#[trigger] found@[i]).2@.in_range(),
    ensures
        fenced_view(served@) == fenced(arranged(candidates_view(found@))),
        forall|i: int|
            0 <= i < served@.len() ==> (#[trigger] served@[i])@.entry.in_range()
                && served@[i]@.lies_within(),
{
    let ghost given = candidates_view(found@);
    let mut list: Vec<(u64, i64, &SubstreamEntry)> = Vec::new();
    let mut at: usize = 0;
    while at < found.len()
        invariant
            at <= found@.len(),
            given == candidates_view(found@),
            candidates_view(list@) == arranged(given.take(at as int)),
            forall|i: int| 0 <= i < found@.len() ==> (#[trigger] found@[i]).2@.in_range(),
            forall|i: int| 0 <= i < list@.len() ==> (#[trigger] list@[i]).2@.in_range(),
        decreases found@.len() - at,
    {
        let item = found[at];
        let ghost candidate = given[at as int];
        let ghost before = candidates_view(list@);
        let mut slot: usize = list.len();
        while slot > 0 && precedes(&item, &list[slot - 1])
            invariant
                slot <= list@.len(),
                before == candidates_view(list@),
                candidate == (Candidate { seq: item.0, epoch: item.1, entry: item.2@ }),
                forall|j: int| slot <= j < list@.len() ==> outranks(candidate, #[trigger] before[j]),
            decreases slot,
        {
            slot = slot - 1;
        }
        let ghost kept = list@;
        list.insert(slot, item);
        proof {
            lemma_placed(before, candidate, slot as int);
            assert(candidates_view(list@) =~= before.insert(slot as int, candidate));
            assert(given.take(at + 1).drop_last() =~= given.take(at as int));
            assert forall|i: int| 0 <= i < list@.len() implies (#[trigger] list@[i]).2@.in_range() by {
                if i < slot {
                    assert(list@[i] == kept[i]);
                } else if i > slot {
                    assert(list@[i] == kept[i - 1]);
                }
            }
        }
        at = at + 1;
    }
    assert(given.take(at as int) =~= given);
    let ghost order = candidates_view(list@);
    let mut parts: Vec<Part> = Vec::new();
    let mut n: usize = 0;
    assert(parts_view(order, parts@) =~= Seq::empty());
    while n < list.len()
        invariant
            n <= list@.len(),
            order == candidates_view(list@),
            parts_view(order, parts@) == shared_out(order.take(n as int)),
            parts_within(order, parts@),
            forall|i: int| 0 <= i < list@.len() ==> (#[trigger] list@[i]).2@.in_range(),
        decreases list@.len() - n,
    {
        assert(order.take(n + 1).drop_last() =~= order.take(n as int));
        assert(order.take(n + 1).last() == order[n as int]);
        let entry: &SubstreamEntry = list[n].2;
        assert(list@[n as int].2@.in_range());
        let end: i64 = entry.base_offset + entry.record_count;
        parts = carve(&parts, n, entry.base_offset, end, Ghost(order));
        n = n + 1;
    }
    assert(order.take(n as int) =~= order);
    let mut served: Vec<FencedSegment> = Vec::new();
    let mut p: usize = 0;
    while p < parts.len()
        invariant
            p <= parts@.len(),
            order == candidates_view(list@),
            parts_within(order, parts@),
            fenced_view(served@) == parts_view(order, parts@).take(p as int),
            forall|i: int| 0 <= i < list@.len() ==> (#[trigger] list@[i]).2@.in_range(),
            forall|i: int|
                0 <= i < served@.len() ==> (#[trigger] served@[i])@.entry.in_range()
                    && served@[i]@.lies_within(),
        decreases parts@.len() - p,
    {
        let part = parts[p];
        assert(parts@[p as int].0 < order.len());
        let item = &list[part.0];
        assert(list@[part.0 as int].2@.in_range());
        let ghost before = served@;
        served.push(
            FencedSegment {
                seq: item.0,
                served_from: part.1,
                served_to: part.2,
                entry: item.2.duplicate(),
            },
        );
        assert(served@.last()@ == part_view(order, part));
        assert(fenced_view(served@) =~= fenced_view(before).push(served@.last()@));
        assert(parts_view(order, parts@).take(p + 1) =~= parts_view(order, parts@).take(
            p as int,
        ).push(part_view(order, part)));
        p = p + 1;
    }
    assert(parts_view(order, parts@).take(p as int) =~= parts_view(order, parts@));
    let mut b: usize = 0;
    while b < list.len()
        invariant
            b <= list@.len(),
            order == candidates_view(list@),
            fenced_view(served@) == with_bare(order, b as int),
            forall|i: int| 0 <= i < list@.len() ==> (#[trigger] list@[i]).2@.in_range(),
            forall|i: int|
                0 <= i < served@.len() ==> (#[trigger] served@[i])@.entry.in_range()
                    && served@[i]@.lies_within(),
        decreases list@.len() - b,
    {
        let entry: &SubstreamEntry = list[b].2;
        assert(list@[b as int].2@.in_range());
        if entry.record_count == 0 && !has_taker(&list, b) {
            let ghost before = served@;
            let slot: usize = begun_before(&served, entry.base_offset);
            let bare = FencedSegment {
                seq: list[b].0,
                served_from: entry.base_offset,
                served_to: entry.base_offset,
                entry: entry.duplicate(),
            };
            served.insert(slot, bare);
            proof {
                assert(fenced_view(served@) =~= fenced_view(before).insert(slot as int, bare@));
                assert forall|i: int| 0 <= i < served@.len() implies (
                #[trigger] served@[i])@.entry.in_range() && served@[i]@.lies_within() by {
                    if i < slot {
                        assert(served@[i] == before[i]);
                    } else if i > slot {
                        assert(served@[i] == before[i - 1]);
                    }
                }
            }
        }
        b = b + 1;
    }
    served
}

/// Whether the place of an entry is taken.
fn has_taker(list: &Vec<(u64, i64, &SubstreamEntry)>, at: usize) -> (taken: bool)
    requires
        at < list@.len(),
        forall|i: int| 0 <= i < list@.len() ==> (#[trigger] list@[i]).2@.in_range(),
    ensures
        taken == is_taken(candidates_view(list@), at as int),
{
    let ghost order = candidates_view(list@);
    let place: i64 = list[at].2.base_offset;
    let mut by: usize = 0;
    while by < list.len()
        invariant
            at < list@.len(),
            by <= list@.len(),
            order == candidates_view(list@),
            place == order[at as int].entry.base_offset,
            forall|i: int| 0 <= i < list@.len() ==> (#[trigger] list@[i]).2@.in_range(),
            forall|i: int| 0 <= i < by ==> !#[trigger] takes_place(order, i, at as int),
        decreases list@.len() - by,
    {
        let other: &SubstreamEntry = list[by].2;
        assert(list@[by as int].2@.in_range());
        assert(order[by as int].entry == other@);
        let end: i64 = other.base_offset + other.record_count;
        if end >= place && (other.base_offset < place || (other.base_offset == place && by < at)) {
            assert(takes_place(order, by as int, at as int));
            return true;
        }
        by = by + 1;
    }
    false
}

/// How many of the segments begin before an offset.
fn begun_before(segments: &Vec<FencedSegment>, offset: i64) -> (count: usize)
    ensures
        count == begun(fenced_view(segments@), offset as int),
        count <= segments@.len(),
{
    let ghost all = fenced_view(segments@);
    let mut count: usize = 0;
    while count < segments.len() && segments[count].served_from < offset
        invariant
            count <= segments@.len(),
            all == fenced_view(segments@),
            forall|i: int| 0 <= i < count ==> (#[trigger] all[i]).served_from < offset,
        decreases segments@.len() - count,
    {
        assert(all[count as int] == segments@[count as int]@);
        count = count + 1;
    }
    proof {
        if count < segments@.len() {
            assert(all[count as int] == segments@[count as int]@);
        }
        lemma_begun(all, offset as int, count as int);
    }
    count
}

/// Whether an entry outranks another.
fn precedes(a: &(u64, i64, &SubstreamEntry), b: &(u64, i64, &SubstreamEntry)) -> (before: bool)
    ensures
        before == outranks(
            (Candidate { seq: a.0, epoch: a.1, entry: a.2@ }),
            (Candidate { seq: b.0, epoch: b.1, entry: b.2@ }),
        ),
{
    a.1 > b.1 || (a.1 == b.1 && a.0 > b.0)
}

/// Arranging candidates neither adds nor loses one, and puts the highest first.
pub proof fn arranging_puts_the_highest_first(found: Seq<Candidate>)
    ensures
        arranged(found).to_multiset() == found.to_multiset(),
        is_ranked(arranged(found)),
    decreases found.len(),
{
    broadcast use vstd::seq_lib::group_to_multiset_ensures;

    if found.len() > 0 {
        let init = found.drop_last();
        arranging_puts_the_highest_first(init);
        lemma_placing(arranged(init), found.last());
        assert(found =~= init.push(found.last()));
    }
}

proof fn lemma_placing(list: Seq<Candidate>, candidate: Candidate)
    requires
        is_ranked(list),
    ensures
        is_ranked(placed(list, candidate)),
        placed(list, candidate).to_multiset() == list.to_multiset().insert(candidate),
        forall|c: Candidate| #[trigger]
            placed(list, candidate).contains(c) ==> c == candidate || list.contains(c),
    decreases list.len(),
{
    broadcast use vstd::seq_lib::group_to_multiset_ensures;

    let after = placed(list, candidate);
    if list.len() > 0 && outranks(candidate, list.last()) {
        let init = list.drop_last();
        let last = list.last();
        assert(is_ranked(init)) by {
            assert forall|i: int, j: int|
                #![trigger init[i], init[j]]
                0 <= i < j < init.len() implies !outranks(init[j], init[i]) by {
                assert(!outranks(list[j], list[i]));
            }
        }
        lemma_placing(init, candidate);
        let before = placed(init, candidate);
        assert(list =~= init.push(last));
        assert forall|i: int, j: int|
            #![trigger after[i], after[j]]
            0 <= i < j < after.len() implies !outranks(after[j], after[i]) by {
            assert(after[i] == before[i]);
            if j < before.len() {
                assert(after[j] == before[j]);
                assert(!outranks(before[j], before[i]));
            } else {
                assert(before.contains(before[i]));
                if before[i] != candidate {
                    let w = choose|w: int| 0 <= w < init.len() && init[w] == before[i];
                    assert(!outranks(list[list.len() - 1], list[w]));
                }
            }
        }
        assert(init.to_multiset().insert(candidate).insert(last) =~= init.to_multiset().insert(
            last,
        ).insert(candidate));
        assert forall|c: Candidate| #[trigger] after.contains(c) implies c == candidate
            || list.contains(c) by {
            let w = choose|w: int| 0 <= w < after.len() && after[w] == c;
            if w < before.len() {
                assert(before[w] == c);
                assert(before.contains(c));
                if c != candidate {
                    let v = choose|v: int| 0 <= v < init.len() && init[v] == c;
                    assert(list[v] == c);
                }
            } else {
                assert(list[list.len() - 1] == c);
            }
        }
    } else {
        assert forall|i: int, j: int|
            #![trigger after[i], after[j]]
            0 <= i < j < after.len() implies !outranks(after[j], after[i]) by {
            assert(after[i] == list[i]);
            if j < list.len() {
                assert(!outranks(list[j], list[i]));
            } else {
                assert(!outranks(list[list.len() - 1], list[i]) || i == list.len() - 1);
            }
        }
        assert forall|c: Candidate| #[trigger] after.contains(c) implies c == candidate
            || list.contains(c) by {
            let w = choose|w: int| 0 <= w < after.len() && after[w] == c;
            if w < list.len() {
                assert(list[w] == c);
            }
        }
    }
}

/// Whether one of `list` holds the offset.
pub open spec fn held_by(list: Seq<Candidate>, offset: int) -> bool {
    exists|i: int| 0 <= i < list.len() && (#[trigger] list[i]).holds(offset)
}

/// Whether one of `segments` serves the offset.
pub open spec fn served_by(segments: Seq<Fenced>, offset: int) -> bool {
    exists|i: int| 0 <= i < segments.len() && (#[trigger] segments[i]).serves(offset)
}

/// Whether what serves is in ascending order, and no offset is served twice.
pub open spec fn is_laid_out(served: Seq<Fenced>) -> bool {
    &&& forall|i: int|
        0 <= i < served.len() ==> (#[trigger] served[i]).served_from <= served[i].served_to
    &&& forall|i: int, j: int|
        #![trigger served[i], served[j]]
        0 <= i < j < served.len() ==> served[i].served_to <= served[j].served_from
}

/// The same, and each serves something.
spec fn is_tight(served: Seq<Fenced>) -> bool {
    &&& forall|i: int|
        0 <= i < served.len() ==> (#[trigger] served[i]).served_from < served[i].served_to
    &&& forall|i: int, j: int|
        #![trigger served[i], served[j]]
        0 <= i < j < served.len() ==> served[i].served_to <= served[j].served_from
}

/// Whether the segment at a position goes on with an entry that serves before it too.
pub fn is_continued(segments: &Vec<FencedSegment>, at: usize) -> (continued: bool)
    requires
        at < segments@.len(),
        is_laid_out(fenced_view(segments@)),
        forall|i: int| 0 <= i < segments@.len() ==> (#[trigger] segments@[i])@.lies_within(),
    ensures
        continued == goes_on(fenced_view(segments@).take(at + 1)),
{
    let ghost all = fenced_view(segments@);
    let ghost seen = all.take(at + 1);
    let here = &segments[at];
    assert(seen.last() == here@);
    if !here.is_clipped() && here.served_from < here.served_to {
        proof {
            assert forall|i: int| 0 <= i < seen.len() - 1 implies !(
            #[trigger] seen[i]).is_of_one_entry(here@) by {
                assert(seen[i] == segments@[i]@);
                assert(segments@[at as int]@.lies_within());
                assert(all[i].served_to <= all[at as int].served_from);
            }
        }
        return false;
    }
    let mut n: usize = 0;
    while n < at
        invariant
            n <= at < segments@.len(),
            all == fenced_view(segments@),
            seen == all.take(at + 1),
            *here == segments@[at as int],
            forall|i: int| 0 <= i < n ==> !(#[trigger] seen[i]).is_of_one_entry(here@),
        decreases at - n,
    {
        let other = &segments[n];
        assert(seen[n as int] == other@);
        if other.seq == here.seq && other.entry.same(&here.entry) {
            assert(seen[n as int].is_of_one_entry(seen.last()));
            return true;
        }
        n = n + 1;
    }
    false
}

/// What carving comes to: the order is kept, and whoever served an offset still does.
proof fn lemma_carved(served: Seq<Fenced>, candidate: Candidate, from: int)
    requires
        is_tight(served),
    ensures
        is_tight(carved(served, candidate, from)),
        forall|i: int|
            0 <= i < carved(served, candidate, from).len() ==> {
                let piece = #[trigger] carved(served, candidate, from)[i];
                &&& served.contains(piece) || (piece == candidate.serving(
                    piece.served_from,
                    piece.served_to,
                ) && from <= piece.served_from && piece.served_to <= candidate.entry.end()
                    && forall|offset: int|
                    piece.serves(offset) ==> !#[trigger] served_by(served, offset))
                &&& piece.served_from >= from || (served.len() > 0 && piece.served_from
                    >= served[0].served_from)
            },
        forall|offset: int| #[trigger]
            served_by(carved(served, candidate, from), offset) <==> served_by(served, offset) || (
            from <= offset < candidate.entry.end()),
    decreases served.len(),
{
    let end = candidate.entry.end();
    let after = carved(served, candidate, from);
    if served.len() == 0 {
        if from < end {
            assert forall|offset: int| #[trigger] served_by(after, offset) <==> served_by(
                served,
                offset,
            ) || (from <= offset < end) by {
                assert(after[0].served_from == from);
            }
        }
    } else {
        let first = served[0];
        let to = lower(first.served_from, end);
        let next = if first.served_to > from {
            first.served_to
        } else {
            from
        };
        let rest = served.skip(1);
        assert(is_tight(rest)) by {
            assert forall|i: int| 0 <= i < rest.len() implies (#[trigger] rest[i]).served_from
                < rest[i].served_to by {
                assert(rest[i] == served[i + 1]);
            }
            assert forall|i: int, j: int|
                #![trigger rest[i], rest[j]]
                0 <= i < j < rest.len() implies rest[i].served_to <= rest[j].served_from by {
                assert(rest[i] == served[i + 1] && rest[j] == served[j + 1]);
            }
        }
        lemma_carved(rest, candidate, next);
        let tail = carved(rest, candidate, next);
        let lead: int = if from < to {
            2
        } else {
            1
        };
        assert(first.served_from < first.served_to);
        assert forall|i: int| 0 <= i < tail.len() implies (#[trigger] tail[i]).served_from
            >= first.served_to by {
            if rest.len() > 0 {
                assert(rest[0] == served[1]);
            }
        }
        assert forall|i: int| lead <= i < after.len() implies #[trigger] after[i] == tail[i - lead] by {
        }
        assert(after[lead - 1] == first);
        assert(lead == 2 ==> after[0] == candidate.serving(from, to));
        assert(is_tight(after)) by {
            assert forall|i: int| 0 <= i < after.len() implies (#[trigger] after[i]).served_from
                < after[i].served_to by {
                if i >= lead {
                    assert(after[i] == tail[i - lead]);
                }
            }
            assert forall|i: int, j: int|
                #![trigger after[i], after[j]]
                0 <= i < j < after.len() implies after[i].served_to <= after[j].served_from by {
                if j >= lead {
                    assert(after[j] == tail[j - lead]);
                }
                if i >= lead {
                    assert(after[i] == tail[i - lead]);
                }
            }
        }
        assert forall|offset: int| #[trigger] served_by(served, offset) <==> first.serves(offset)
            || served_by(rest, offset) by {
            if served_by(served, offset) {
                let w = choose|w: int| 0 <= w < served.len() && (#[trigger] served[w]).serves(offset);
                if w > 0 {
                    assert(rest[w - 1].serves(offset));
                }
            }
            if served_by(rest, offset) {
                let w = choose|w: int| 0 <= w < rest.len() && (#[trigger] rest[w]).serves(offset);
                assert(served[w + 1].serves(offset));
            }
            assert(served[0] == first);
        }
        assert forall|offset: int| #[trigger] served_by(after, offset) <==> (lead == 2 && from
            <= offset < to) || first.serves(offset) || served_by(tail, offset) by {
            if served_by(after, offset) {
                let w = choose|w: int| 0 <= w < after.len() && (#[trigger] after[w]).serves(offset);
                if w >= lead {
                    assert(tail[w - lead].serves(offset));
                }
            }
            if served_by(tail, offset) {
                let w = choose|w: int| 0 <= w < tail.len() && (#[trigger] tail[w]).serves(offset);
                assert(after[w + lead].serves(offset));
            }
            assert(after[lead - 1] == first);
            if lead == 2 && from <= offset < to {
                assert(after[0].serves(offset));
            }
        }
        assert forall|offset: int| #[trigger] served_by(after, offset) <==> served_by(served, offset)
            || (from <= offset < end) by {
            assert(served_by(tail, offset) <==> served_by(rest, offset) || (next <= offset < end));
        }
        assert forall|i: int| 0 <= i < after.len() implies {
            let piece = #[trigger] after[i];
            &&& served.contains(piece) || (piece == candidate.serving(
                piece.served_from,
                piece.served_to,
            ) && from <= piece.served_from && piece.served_to <= end && forall|offset: int|
                piece.serves(offset) ==> !#[trigger] served_by(served, offset))
            &&& piece.served_from >= from || (served.len() > 0 && piece.served_from
                >= served[0].served_from)
        } by {
            let piece = after[i];
            if i >= lead {
                assert(piece == tail[i - lead]);
                if rest.contains(piece) {
                    let w = choose|w: int| 0 <= w < rest.len() && rest[w] == piece;
                    assert(served[w + 1] == piece);
                } else {
                    assert forall|offset: int| piece.serves(offset) implies !#[trigger] served_by(
                        served,
                        offset,
                    ) by {
                        assert(!served_by(rest, offset));
                        assert(piece.served_from >= first.served_to);
                    }
                }
            } else if i == lead - 1 {
                assert(served[0] == piece);
            } else {
                assert forall|offset: int| piece.serves(offset) implies !#[trigger] served_by(
                    served,
                    offset,
                ) by {
                    if served_by(rest, offset) {
                        let w = choose|w: int|
                            0 <= w < rest.len() && (#[trigger] rest[w]).serves(offset);
                        assert(served[w + 1] == rest[w]);
                        assert(served[0].served_to <= served[w + 1].served_from);
                    }
                }
            }
        }
    }
}

proof fn lemma_tight(list: Seq<Candidate>)
    ensures
        is_tight(shared_out(list)),
    decreases list.len(),
{
    if list.len() > 0 {
        lemma_tight(list.drop_last());
        lemma_carved(
            shared_out(list.drop_last()),
            list.last(),
            list.last().entry.base_offset as int,
        );
    }
}

proof fn lemma_shared(list: Seq<Candidate>, offset: int)
    ensures
        served_by(shared_out(list), offset) <==> held_by(list, offset),
    decreases list.len(),
{
    if list.len() > 0 {
        let init = list.drop_last();
        lemma_shared(init, offset);
        lemma_tight(init);
        lemma_carved(shared_out(init), list.last(), list.last().entry.base_offset as int);
        if held_by(list, offset) {
            let v = choose|v: int| 0 <= v < list.len() && (#[trigger] list[v]).holds(offset);
            if v < init.len() {
                assert(init[v].holds(offset));
            }
        }
        if held_by(init, offset) {
            let v = choose|v: int| 0 <= v < init.len() && (#[trigger] init[v]).holds(offset);
            assert(list[v].holds(offset));
        }
        assert(list[list.len() - 1] == list.last());
    }
}

proof fn lemma_begun(served: Seq<Fenced>, offset: int, at: int)
    requires
        0 <= at <= served.len(),
        forall|i: int| 0 <= i < at ==> (#[trigger] served[i]).served_from < offset,
        at < served.len() ==> served[at].served_from >= offset,
    ensures
        begun(served, offset) == at,
    decreases served.len(),
{
    if at > 0 {
        let rest = served.skip(1);
        assert(served[0].served_from < offset);
        assert forall|i: int| 0 <= i < at - 1 implies (#[trigger] rest[i]).served_from < offset by {
            assert(rest[i] == served[i + 1]);
        }
        lemma_begun(rest, offset, at - 1);
    }
}

proof fn lemma_begun_bound(served: Seq<Fenced>, offset: int)
    ensures
        begun(served, offset) <= served.len(),
        forall|i: int|
            0 <= i < begun(served, offset) ==> (#[trigger] served[i]).served_from < offset,
        begun(served, offset) < served.len() ==> served[begun(served, offset) as int].served_from
            >= offset,
    decreases served.len(),
{
    if served.len() > 0 && served[0].served_from < offset {
        let rest = served.skip(1);
        lemma_begun_bound(rest, offset);
        assert forall|i: int| 0 <= i < begun(served, offset) implies (
        #[trigger] served[i]).served_from < offset by {
            if i > 0 {
                assert(rest[i - 1] == served[i]);
            }
        }
    }
}

/// A piece that an entry serves of what it holds lies within the entry.
proof fn lemma_shared_within(list: Seq<Candidate>, at: int) -> (from: int)
    requires
        0 <= at < shared_out(list).len(),
    ensures
        0 <= from < list.len(),
        shared_out(list)[at].seq == list[from].seq,
        shared_out(list)[at].entry == list[from].entry,
        shared_out(list)[at].lies_within(),
        shared_out(list)[at].served_from < shared_out(list)[at].served_to,
{
    lemma_tight(list);
    let piece = shared_out(list)[at];
    let from = lemma_first_serves(list, at, piece.served_from);
    let last = lemma_first_serves(list, at, piece.served_to - 1);
    from
}

/// With the entries that hold no offset, what serves is laid out as without them.
proof fn lemma_bare(list: Seq<Candidate>, count: int)
    requires
        0 <= count <= list.len(),
    ensures
        is_laid_out(with_bare(list, count)),
        forall|i: int|
            0 <= i < with_bare(list, count).len() ==> (#[trigger] with_bare(
                list,
                count,
            )[i]).lies_within() && (shared_out(list).contains(with_bare(list, count)[i])
                || exists|j: int|
                0 <= j < count && (#[trigger] list[j]).entry.record_count == 0 && with_bare(
                    list,
                    count,
                )[i] == list[j].serving(
                    list[j].entry.base_offset as int,
                    list[j].entry.base_offset as int,
                ) && !is_taken(list, j)),
        forall|piece: Fenced| #[trigger]
            shared_out(list).contains(piece) ==> with_bare(list, count).contains(piece),
    decreases count,
{
    let after = with_bare(list, count);
    if count == 0 {
        lemma_tight(list);
        assert forall|i: int| 0 <= i < after.len() implies (#[trigger] after[i]).lies_within()
            && shared_out(list).contains(after[i]) by {
            let from = lemma_shared_within(list, i);
        }
    } else {
        let before = with_bare(list, count - 1);
        let last = list[count - 1];
        let place = last.entry.base_offset as int;
        lemma_bare(list, count - 1);
        if last.entry.record_count == 0 && !is_taken(list, count - 1) {
            let bare = last.serving(place, place);
            let slot = begun(before, place) as int;
            lemma_begun_bound(before, place);
            assert(after == before.insert(slot, bare));
            // What begins before the place ends before it, too.
            assert forall|i: int| 0 <= i < slot implies (#[trigger] before[i]).served_to <= place by {
                assert(before[i].served_from < place);
                if shared_out(list).contains(before[i]) {
                    let w = choose|w: int|
                        0 <= w < shared_out(list).len() && shared_out(list)[w] == before[i];
                    let from = lemma_shared_within(list, w);
                    if before[i].served_to > place {
                        assert(takes_place(list, from, count - 1));
                    }
                }
            }
            assert forall|i: int| slot <= i < before.len() implies place <= (
            #[trigger] before[i]).served_from by {
                if i > slot {
                    assert(before[slot].served_from <= before[slot].served_to);
                    assert(before[slot].served_to <= before[i].served_from);
                }
            }
            assert(is_laid_out(after)) by {
                assert forall|i: int| 0 <= i < after.len() implies (#[trigger] after[i]).served_from
                    <= after[i].served_to by {
                    if i < slot {
                        assert(after[i] == before[i]);
                    } else if i > slot {
                        assert(after[i] == before[i - 1]);
                    }
                }
                assert forall|i: int, j: int|
                    #![trigger after[i], after[j]]
                    0 <= i < j < after.len() implies after[i].served_to <= after[j].served_from by {
                    if i < slot {
                        assert(after[i] == before[i]);
                    } else if i > slot {
                        assert(after[i] == before[i - 1]);
                    }
                    if j < slot {
                        assert(after[j] == before[j]);
                    } else if j > slot {
                        assert(after[j] == before[j - 1]);
                    }
                }
            }
            assert forall|i: int| 0 <= i < after.len() implies (#[trigger] after[i]).lies_within()
                && (shared_out(list).contains(after[i]) || exists|j: int|
                0 <= j < count && (#[trigger] list[j]).entry.record_count == 0 && after[i]
                    == list[j].serving(
                    list[j].entry.base_offset as int,
                    list[j].entry.base_offset as int,
                ) && !is_taken(list, j)) by {
                if i == slot {
                    assert(list[count - 1].entry.record_count == 0);
                } else {
                    let k = if i < slot {
                        i
                    } else {
                        i - 1
                    };
                    assert(after[i] == before[k]);
                    if !shared_out(list).contains(before[k]) {
                        let j = choose|j: int|
                            0 <= j < count - 1 && (#[trigger] list[j]).entry.record_count == 0
                                && before[k] == list[j].serving(
                                list[j].entry.base_offset as int,
                                list[j].entry.base_offset as int,
                            ) && !is_taken(list, j);
                        assert(list[j].entry.record_count == 0);
                    }
                }
            }
            assert forall|piece: Fenced| #[trigger] shared_out(list).contains(piece)
                implies after.contains(piece) by {
                let k = choose|k: int| 0 <= k < before.len() && before[k] == piece;
                if k < slot {
                    assert(after[k] == piece);
                } else {
                    assert(after[k + 1] == piece);
                }
            }
        }
    }
}

/// The segments that serve a sub-stream serve ascending ranges of offsets, and no
/// offset is served by two.
pub proof fn served_ranges_are_disjoint(list: Seq<Candidate>)
    ensures
        is_laid_out(fenced(list)),
{
    lemma_bare(list, list.len() as int);
}

/// Fencing loses no offset and adds none: an offset is served if and only if an
/// entry holds it.
pub proof fn fencing_keeps_every_offset(list: Seq<Candidate>, offset: int)
    ensures
        served_by(fenced(list), offset) <==> held_by(list, offset),
{
    lemma_bare(list, list.len() as int);
    lemma_shared(list, offset);
    let all = fenced(list);
    let shared = shared_out(list);
    if served_by(all, offset) {
        let w = choose|w: int| 0 <= w < all.len() && (#[trigger] all[w]).serves(offset);
        assert(shared.contains(all[w]));
        let v = choose|v: int| 0 <= v < shared.len() && shared[v] == all[w];
        assert(shared[v].serves(offset));
    }
    if served_by(shared, offset) {
        let w = choose|w: int| 0 <= w < shared.len() && (#[trigger] shared[w]).serves(offset);
        assert(shared.contains(shared[w]));
        assert(all.contains(shared[w]));
        let v = choose|v: int| 0 <= v < all.len() && all[v] == shared[w];
        assert(all[v].serves(offset));
    }
}

/// An offset is served out of the first entry, by rank, that holds it.
proof fn lemma_first_serves(list: Seq<Candidate>, at: int, offset: int) -> (from: int)
    requires
        0 <= at < shared_out(list).len(),
        shared_out(list)[at].serves(offset),
    ensures
        0 <= from < list.len(),
        shared_out(list)[at].seq == list[from].seq,
        shared_out(list)[at].entry == list[from].entry,
        list[from].holds(offset),
        forall|i: int| 0 <= i < from ==> !(#[trigger] list[i]).holds(offset),
    decreases list.len(),
{
    let init = list.drop_last();
    let before = shared_out(init);
    let piece = shared_out(list)[at];
    lemma_tight(init);
    lemma_carved(before, list.last(), list.last().entry.base_offset as int);
    if before.contains(piece) {
        let w = choose|w: int| 0 <= w < before.len() && before[w] == piece;
        let from = lemma_first_serves(init, w, offset);
        assert(init[from] == list[from]);
        assert forall|i: int| 0 <= i < from implies !(#[trigger] list[i]).holds(offset) by {
            assert(init[i] == list[i]);
        }
        from
    } else {
        assert(!served_by(before, offset));
        lemma_shared(init, offset);
        assert forall|i: int| 0 <= i < list.len() - 1 implies !(#[trigger] list[i]).holds(offset) by {
            assert(init[i] == list[i]);
        }
        list.len() - 1
    }
}

/// An offset that several entries hold is served by the one of the highest epoch, and
/// among those of that epoch by the one of the highest sequence: a writer whose time is
/// over takes nothing from who came after it.
pub proof fn the_highest_epoch_serves(found: Seq<Candidate>, at: int, offset: int) -> (by: int)
    requires
        0 <= at < fenced(arranged(found)).len(),
        fenced(arranged(found))[at].serves(offset),
    ensures
        0 <= by < found.len(),
        fenced(arranged(found))[at].seq == found[by].seq,
        fenced(arranged(found))[at].entry == found[by].entry,
        found[by].holds(offset),
        found[by].entry.base_offset <= offset < found[by].entry.end(),
        forall|i: int|
            0 <= i < found.len() && (#[trigger] found[i]).entry.base_offset <= offset
                < found[i].entry.end() ==> found[i].epoch < found[by].epoch || (found[i].epoch
                == found[by].epoch && found[i].seq <= found[by].seq),
        forall|i: int|
            0 <= i < found.len() && (#[trigger] found[i]).holds(offset) ==> !outranks(
                found[i],
                found[by],
            ),
{
    broadcast use vstd::seq_lib::group_to_multiset_ensures;

    let list = arranged(found);
    arranging_puts_the_highest_first(found);
    lemma_bare(list, list.len() as int);
    let shared = shared_out(list);
    assert(shared.contains(fenced(list)[at]));
    let own = choose|own: int| 0 <= own < shared.len() && shared[own] == fenced(list)[at];
    let from = lemma_first_serves(list, own, offset);
    assert(list.contains(list[from]));
    assert(found.to_multiset().count(list[from]) > 0);
    assert(found.contains(list[from]));
    let by = choose|by: int| 0 <= by < found.len() && found[by] == list[from];
    assert forall|i: int| 0 <= i < found.len() && (#[trigger] found[i]).holds(
        offset,
    ) implies !outranks(found[i], found[by]) by {
        assert(found.contains(found[i]));
        assert(list.to_multiset().count(found[i]) > 0);
        assert(list.contains(found[i]));
        let j = choose|j: int| 0 <= j < list.len() && list[j] == found[i];
        if j < from {
            assert(!list[j].holds(offset));
        } else if j > from {
            assert(!outranks(list[j], list[from]));
        }
    }
    by
}

/// The candidates of one rank, in their order.
pub open spec fn of_rank(list: Seq<Candidate>, epoch: i64, seq: u64) -> Seq<Candidate>
    decreases list.len(),
{
    if list.len() == 0 {
        Seq::empty()
    } else {
        let before = of_rank(list.drop_last(), epoch, seq);
        if list.last().epoch == epoch && list.last().seq == seq {
            before.push(list.last())
        } else {
            before
        }
    }
}

/// Arranging puts a higher epoch before a lower one, and of one epoch a higher sequence
/// before a lower one; the entries of one segment stay in the order they came in.
pub proof fn arranging_keeps_the_order_of_a_segment(found: Seq<Candidate>, epoch: i64, seq: u64)
    ensures
        of_rank(arranged(found), epoch, seq) == of_rank(found, epoch, seq),
        forall|i: int, j: int|
            #![trigger arranged(found)[i], arranged(found)[j]]
            0 <= i < j < arranged(found).len() ==> arranged(found)[i].epoch > arranged(
                found,
            )[j].epoch || (arranged(found)[i].epoch == arranged(found)[j].epoch && arranged(
                found,
            )[i].seq >= arranged(found)[j].seq),
    decreases found.len(),
{
    arranging_puts_the_highest_first(found);
    if found.len() > 0 {
        let init = found.drop_last();
        arranging_keeps_the_order_of_a_segment(init, epoch, seq);
        lemma_placed_rank(arranged(init), found.last(), epoch, seq);
        assert(arranged(init).push(found.last()).drop_last() =~= arranged(init));
    }
}

proof fn lemma_placed_rank(list: Seq<Candidate>, candidate: Candidate, epoch: i64, seq: u64)
    ensures
        of_rank(placed(list, candidate), epoch, seq) == of_rank(
            list.push(candidate),
            epoch,
            seq,
        ),
    decreases list.len(),
{
    reveal_with_fuel(of_rank, 3);
    assert(list.push(candidate).drop_last() =~= list);
    if list.len() > 0 && outranks(candidate, list.last()) {
        let init = list.drop_last();
        let before = placed(init, candidate);
        lemma_placed_rank(init, candidate, epoch, seq);
        assert(init.push(candidate).drop_last() =~= init);
        assert(placed(list, candidate).drop_last() =~= before);
    }
}

/// An entry that holds no offset stands for its place in the log if and only if none
/// takes that place: one that begins before it and reaches it, or one of higher rank
/// that begins where it does.
pub proof fn an_empty_entry_stands_for_its_place(list: Seq<Candidate>, j: int)
    requires
        0 <= j < list.len(),
        list[j].entry.record_count == 0,
    ensures
        ({
            let place = list[j].entry.base_offset as int;
            let piece = Fenced {
                seq: list[j].seq,
                served_from: place,
                served_to: place,
                entry: list[j].entry,
            };
            &&& (forall|by: int|
                0 <= by < list.len() ==> (#[trigger] list[by]).entry.base_offset
                    + list[by].entry.record_count < place || list[by].entry.base_offset > place || (
                list[by].entry.base_offset == place && by >= j)) ==> fenced(list).contains(piece)
            &&& fenced(list).contains(piece) ==> exists|k: int|
                0 <= k < list.len() && (#[trigger] list[k]).seq == list[j].seq && list[k].entry
                    == list[j].entry && forall|by: int|
                    0 <= by < list.len() ==> (#[trigger] list[by]).entry.base_offset
                        + list[by].entry.record_count < place || list[by].entry.base_offset > place
                        || (list[by].entry.base_offset == place && by >= k)
        }),
{
    let place = list[j].entry.base_offset as int;
    let piece = list[j].serving(place, place);
    lemma_bare(list, list.len() as int);
    if forall|by: int|
        0 <= by < list.len() ==> (#[trigger] list[by]).entry.base_offset
            + list[by].entry.record_count < place || list[by].entry.base_offset > place || (
        list[by].entry.base_offset == place && by >= j) {
        assert(!is_taken(list, j)) by {
            if is_taken(list, j) {
                let by = choose|by: int|
                    0 <= by < list.len() && #[trigger] takes_place(list, by, j);
                assert(list[by].entry.base_offset + list[by].entry.record_count >= place);
            }
        }
        lemma_bare_stands(list, list.len() as int, j);
    }
    if fenced(list).contains(piece) {
        let all = fenced(list);
        let i = choose|i: int| 0 <= i < all.len() && all[i] == piece;
        lemma_tight(list);
        if shared_out(list).contains(all[i]) {
            let w = choose|w: int|
                0 <= w < shared_out(list).len() && shared_out(list)[w] == all[i];
            assert(shared_out(list)[w].served_from < shared_out(list)[w].served_to);
        }
        let k = choose|k: int|
            0 <= k < list.len() && (#[trigger] list[k]).entry.record_count == 0 && all[i]
                == list[k].serving(
                list[k].entry.base_offset as int,
                list[k].entry.base_offset as int,
            ) && !is_taken(list, k);
        assert forall|by: int| 0 <= by < list.len() implies (#[trigger] list[by]).entry.base_offset
            + list[by].entry.record_count < place || list[by].entry.base_offset > place || (
        list[by].entry.base_offset == place && by >= k) by {
            assert(!takes_place(list, by, k));
        }
    }
}

proof fn lemma_bare_stands(list: Seq<Candidate>, count: int, j: int)
    requires
        0 <= j < count <= list.len(),
        list[j].entry.record_count == 0,
        !is_taken(list, j),
    ensures
        with_bare(list, count).contains(
            list[j].serving(list[j].entry.base_offset as int, list[j].entry.base_offset as int),
        ),
    decreases count,
{
    let before = with_bare(list, count - 1);
    let after = with_bare(list, count);
    let place = list[j].entry.base_offset as int;
    let piece = list[j].serving(place, place);
    let slot = begun(before, list[count - 1].entry.base_offset as int) as int;
    lemma_begun_bound(before, list[count - 1].entry.base_offset as int);
    if j == count - 1 {
        assert(after[slot] == piece);
    } else {
        lemma_bare_stands(list, count - 1, j);
        let i = choose|i: int| 0 <= i < before.len() && before[i] == piece;
        if after != before {
            if i < slot {
                assert(after[i] == piece);
            } else {
                assert(after[i + 1] == piece);
            }
        }
    }
}

/// A segment is cut exactly where it ends to serve before its entry does, and serves its
/// entry to the end otherwise.
pub proof fn a_segment_is_cut_where_it_serves_no_more(segment: Fenced)
    ensures
        segment.served_to < segment.entry.base_offset + segment.entry.record_count
            ==> segment.cut() == Some(segment.served_to),
        segment.served_to >= segment.entry.base_offset + segment.entry.record_count
            ==> segment.cut() is None,
{
}

} // verus!
