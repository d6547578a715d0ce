//! Which offsets a run of segments covers, and whether without a hole.

use crate::ordmap::{has_key, lemma_at, lemma_unique, Key, OrdMap};
use crate::segment::{entries_view, Entry, Identity, SubstreamEntry, SubstreamKey};
use vstd::prelude::*;
use vstd::set_lib::{
    lemma_int_range, lemma_set_disjoint_lens, lemma_subset_equality, set_int_range,
};

verus! {

/// The offsets that entries of a sub-stream span, and the records they hold.
#[derive(Clone, Copy, Debug, PartialEq, Eq, Structural)]
pub struct OffsetSpan {
    pub base: i128,
    /// One past the last offset.
    pub end: i128,
    pub records: i128,
}

impl OffsetSpan {
    /// Whether there are as many records as offsets.
    pub open spec fn contiguous(self) -> bool {
        self.records == self.end - self.base
    }

    /// Whether the span is one interval, of offsets as entries have them.
    pub open spec fn is_whole(self) -> bool {
        self.contiguous() && self.bounded() && self.base <= self.end
    }

    /// Whether the bounds are those of entries.
    pub open spec fn bounded(self) -> bool {
        &&& 2 * i64::MIN <= self.base <= 2 * i64::MAX
        &&& 2 * i64::MIN <= self.end <= 2 * i64::MAX
    }

    /// Whether the span is one unbroken interval: a hole leaves it short of
    /// records, an overlap makes it hold too many.
    pub fn is_contiguous(&self) -> (contiguous: bool)
        requires
            self.bounded(),
        ensures
            contiguous == self.contiguous(),
    {
        self.records == self.end - self.base
    }
}

/// The span of an entry.
pub open spec fn span_of_entry(entry: Entry) -> OffsetSpan {
    OffsetSpan {
        base: entry.base_offset as i128,
        end: entry.end() as i128,
        records: entry.record_count as i128,
    }
}

/// What is covered of a sub-stream already, and the spans of its entries behind that.
pub open spec fn pieces_of(
    spans: Map<(Identity, i32), OffsetSpan>,
    entries: Seq<Entry>,
    key: (Identity, i32),
) -> Seq<OffsetSpan>
    decreases entries.len(),
{
    if entries.len() == 0 {
        if spans.dom().contains(key) {
            seq![spans[key]]
        } else {
            Seq::empty()
        }
    } else {
        let before = pieces_of(spans, entries.drop_last(), key);
        if entries.last().key() == key {
            before.push(span_of_entry(entries.last()))
        } else {
            before
        }
    }
}

/// Whether two spans have no offset in common.
pub open spec fn apart(a: OffsetSpan, b: OffsetSpan) -> bool {
    let from = if a.base >= b.base {
        a.base
    } else {
        b.base
    };
    let to = if a.end <= b.end {
        a.end
    } else {
        b.end
    };
    from >= to
}

/// The lowest offset of spans.
pub open spec fn lowest(pieces: Seq<OffsetSpan>) -> int
    decreases pieces.len(),
{
    if pieces.len() <= 1 {
        pieces[0].base as int
    } else if lowest(pieces.drop_last()) <= pieces.last().base {
        lowest(pieces.drop_last())
    } else {
        pieces.last().base as int
    }
}

/// One past the highest offset of spans.
pub open spec fn highest(pieces: Seq<OffsetSpan>) -> int
    decreases pieces.len(),
{
    if pieces.len() <= 1 {
        pieces[0].end as int
    } else if highest(pieces.drop_last()) >= pieces.last().end {
        highest(pieces.drop_last())
    } else {
        pieces.last().end as int
    }
}

/// The records of spans.
pub open spec fn records_in(pieces: Seq<OffsetSpan>) -> int
    decreases pieces.len(),
{
    if pieces.len() == 0 {
        0
    } else {
        records_in(pieces.drop_last()) + pieces.last().records
    }
}

/// Whether spans together are one unbroken interval: no two have an offset in common,
/// and there are as many records as offsets from the lowest to the highest.
pub open spec fn is_interval(pieces: Seq<OffsetSpan>) -> bool {
    &&& forall|i: int| 0 <= i < pieces.len() ==> (#[trigger] pieces[i]).base <= pieces[i].end
    &&& forall|i: int, j: int|
        #![trigger pieces[i], pieces[j]]
        0 <= i < j < pieces.len() ==> apart(pieces[i], pieces[j])
    &&& records_in(pieces) == highest(pieces) - lowest(pieces)
}

/// Spans as one.
pub open spec fn joined(pieces: Seq<OffsetSpan>) -> OffsetSpan {
    OffsetSpan {
        base: lowest(pieces) as i128,
        end: highest(pieces) as i128,
        records: records_in(pieces) as i128,
    }
}

/// Whether an entry is of a sub-stream.
pub open spec fn mentions(entries: Seq<Entry>, key: (Identity, i32)) -> bool {
    exists|i: int| 0 <= i < entries.len() && (#[trigger] entries[i]).key() == key
}

/// Whether every sub-stream of the entries is left one unbroken interval by all of them
/// together.
pub open spec fn extends(spans: Map<(Identity, i32), OffsetSpan>, entries: Seq<Entry>) -> bool {
    forall|key: (Identity, i32)| #[trigger]
        mentions(entries, key) ==> is_interval(pieces_of(spans, entries, key))
}

/// The spans with the entries covered too: of each of their sub-streams, all that there
/// is of it as one.
pub open spec fn covering(spans: Map<(Identity, i32), OffsetSpan>, entries: Seq<Entry>) -> Map<
    (Identity, i32),
    OffsetSpan,
> {
    Map::new(
        |key: (Identity, i32)| spans.dom().contains(key) || mentions(entries, key),
        |key: (Identity, i32)|
            if mentions(entries, key) {
                joined(pieces_of(spans, entries, key))
            } else {
                spans[key]
            },
    )
}

/// What a run of segments covers.
#[derive(Debug)]
pub struct RunCoverage {
    pub spans: OrdMap<SubstreamKey, OffsetSpan>,
}

impl RunCoverage {
    /// What is covered of each sub-stream is one unbroken interval.
    pub open spec fn wf(&self) -> bool {
        &&& self.spans.wf()
        &&& forall|key: (Identity, i32)| #[trigger]
            self.spans@.dom().contains(key) ==> self.spans@[key].is_whole()
    }

    /// Nothing is covered.
    pub fn new() -> (coverage: Self)
        ensures
            coverage.wf(),
            coverage.spans@ == Map::<(Identity, i32), OffsetSpan>::empty(),
    {
        RunCoverage { spans: OrdMap::new() }
    }

    /// Cover `entries` too, or leave the coverage as it is and answer `false` where
    /// a sub-stream would not be one unbroken interval any more. The entries of one
    /// sub-stream count together, with what is covered of it.
    pub fn extend(&mut self, entries: &Vec<SubstreamEntry>) -> (extended: bool)
        requires
            old(self).wf(),
        ensures
            final(self).wf(),
            extended == extends(old(self).spans@, entries_view(entries@)),
            extended ==> final(self).spans@ == covering(
                old(self).spans@,
                entries_view(entries@),
            ),
            !extended ==> *final(self) == *old(self),
    {
        let ghost over = self.spans@;
        let ghost all = entries_view(entries@);
        let gathered = match gather(&self.spans, entries) {
            Some(gathered) => gathered,
            None => {
                return false;
            },
        };
        let mut wholes: Vec<(SubstreamKey, OffsetSpan)> = Vec::new();
        let mut at: usize = 0;
        while at < gathered.entries.len()
            invariant
                *self == *old(self),
                self.wf(),
                over == self.spans@,
                all == entries_view(entries@),
                is_gathered(gathered, over, all),
                at <= gathered.entries@.len(),
                wholes@.len() == at,
                forall|i: int|
                    #![trigger wholes@[i]]
                    0 <= i < at ==> wholes@[i].0@ == gathered.entries@[i].0@ && is_interval(
                        gathered.entries@[i].1@,
                    ) && wholes@[i].1 == joined(gathered.entries@[i].1@)
                        && wholes@[i].1.is_whole(),
            decreases gathered.entries@.len() - at,
        {
            let (key, pieces) = &gathered.entries[at];
            proof {
                lemma_at(gathered.entries@, at as int);
                assert(gathered@.dom().contains(key@));
            }
            match join(pieces) {
                Some(whole) => {
                    wholes.push((key.duplicate(), whole));
                },
                None => {
                    assert(mentions(all, key@));
                    assert(!extends(over, all));
                    return false;
                },
            }
            at = at + 1;
        }
        proof {
            assert forall|key: (Identity, i32)| #[trigger] mentions(all, key) implies is_interval(
                pieces_of(over, all, key),
            ) by {
                assert(gathered@.dom().contains(key));
                let i = choose|i: int|
                    0 <= i < gathered.entries@.len() && (#[trigger] gathered.entries@[i]).0@ == key;
                lemma_at(gathered.entries@, i);
                assert(wholes@[i].1.is_whole());
            }
        }
        let mut next: usize = 0;
        while next < wholes.len()
            invariant
                all == entries_view(entries@),
                is_gathered(gathered, over, all),
                next <= wholes@.len(),
                wholes@.len() == gathered.entries@.len(),
                forall|i: int|
                    #![trigger wholes@[i]]
                    0 <= i < wholes@.len() ==> wholes@[i].0@ == gathered.entries@[i].0@
                        && wholes@[i].1 == joined(gathered.entries@[i].1@)
                        && wholes@[i].1.is_whole(),
                self.wf(),
                forall|key: (Identity, i32)| #[trigger]
                    self.spans@.dom().contains(key) <==> over.dom().contains(key) || has_key(
                        gathered.entries@.take(next as int),
                        key,
                    ),
                forall|key: (Identity, i32)|
                    #![trigger self.spans@[key]]
                    !has_key(gathered.entries@.take(next as int), key) ==> self.spans@[key]
                        == over[key],
                forall|i: int|
                    #![trigger gathered.entries@[i]]
                    0 <= i < next ==> self.spans@[gathered.entries@[i].0@] == joined(
                        gathered.entries@[i].1@,
                    ),
            decreases wholes@.len() - next,
        {
            let (key, whole) = &wholes[next];
            let ghost was = self.spans@;
            let ghost own = key@;
            let _ = self.spans.insert(key.duplicate(), *whole);
            proof {
                let list = gathered.entries@;
                assert(wholes@[next as int].0@ == list[next as int].0@);
                assert forall|other: (Identity, i32)| #[trigger] has_key(
                    list.take(next + 1),
                    other,
                ) <==> has_key(list.take(next as int), other) || other == own by {
                    if has_key(list.take(next + 1), other) {
                        let w = choose|w: int|
                            0 <= w < next + 1 && (#[trigger] list.take(next + 1)[w]).0@ == other;
                        if w < next {
                            assert(list.take(next as int)[w].0@ == other);
                        }
                    }
                    if has_key(list.take(next as int), other) {
                        let w = choose|w: int|
                            0 <= w < next && (#[trigger] list.take(next as int)[w]).0@ == other;
                        assert(list.take(next + 1)[w].0@ == other);
                    }
                    assert(list.take(next + 1)[next as int].0@ == own);
                }
                assert forall|i: int|
                    #![trigger list[i]]
                    0 <= i < next + 1 implies self.spans@[list[i].0@] == joined(list[i].1@) by {
                    if i < next {
                        if list[i].0@ == own {
                            lemma_unique(list, i, next as int);
                        }
                    }
                }
            }
            next = next + 1;
        }
        proof {
            let list = gathered.entries@;
            assert(list.take(next as int) =~= list);
            assert(self.spans@ =~= covering(over, all)) by {
                assert forall|key: (Identity, i32)| #[trigger] covering(over, all).dom().contains(
                    key,
                ) implies self.spans@[key] == covering(over, all)[key] by {
                    assert(gathered@.dom().contains(key) <==> mentions(all, key));
                    if mentions(all, key) {
                        let i = choose|i: int|
                            0 <= i < list.len() && (#[trigger] list[i]).0@ == key;
                        lemma_at(list, i);
                    }
                }
                assert forall|key: (Identity, i32)| #[trigger] self.spans@.dom().contains(
                    key,
                ) <==> covering(over, all).dom().contains(key) by {
                    assert(gathered@.dom().contains(key) <==> mentions(all, key));
                }
            }
        }
        true
    }
}

/// Whether these are the spans of every sub-stream of the entries, with what is covered
/// of it, none of which has an offset in common with another.
spec fn is_gathered(
    gathered: OrdMap<SubstreamKey, Vec<OffsetSpan>>,
    over: Map<(Identity, i32), OffsetSpan>,
    entries: Seq<Entry>,
) -> bool {
    &&& gathered.wf()
    &&& forall|key: (Identity, i32)| #[trigger]
        gathered@.dom().contains(key) <==> mentions(entries, key)
    &&& forall|key: (Identity, i32)| #[trigger]
        gathered@.dom().contains(key) ==> gathered@[key]@ == pieces_of(over, entries, key)
            && are_apart(gathered@[key]@)
}

/// Whether spans are spans of offsets, and no two have one in common.
spec fn are_apart(pieces: Seq<OffsetSpan>) -> bool {
    &&& pieces.len() > 0
    &&& forall|i: int|
        0 <= i < pieces.len() ==> (#[trigger] pieces[i]).base <= pieces[i].end
            && pieces[i].bounded() && pieces[i].contiguous()
    &&& forall|i: int, j: int|
        #![trigger pieces[i], pieces[j]]
        0 <= i < j < pieces.len() ==> apart(pieces[i], pieces[j])
}

/// The spans of a sub-stream's entries are those of the first of them, and more.
proof fn lemma_pieces_grow(
    over: Map<(Identity, i32), OffsetSpan>,
    entries: Seq<Entry>,
    n: int,
    key: (Identity, i32),
)
    requires
        0 <= n <= entries.len(),
    ensures
        pieces_of(over, entries.take(n), key).len() <= pieces_of(over, entries, key).len(),
        forall|i: int|
            #![trigger pieces_of(over, entries, key)[i]]
            0 <= i < pieces_of(over, entries.take(n), key).len() ==> pieces_of(over, entries, key)[i]
                == pieces_of(over, entries.take(n), key)[i],
    decreases entries.len(),
{
    if n == entries.len() {
        assert(entries.take(n) =~= entries);
    } else {
        let init = entries.drop_last();
        lemma_pieces_grow(over, init, n, key);
        assert(init.take(n) =~= entries.take(n));
        assert forall|i: int|
            #![trigger pieces_of(over, entries, key)[i]]
            0 <= i < pieces_of(over, entries.take(n), key).len() implies pieces_of(
            over,
            entries,
            key,
        )[i] == pieces_of(over, entries.take(n), key)[i] by {
            assert(pieces_of(over, init, key)[i] == pieces_of(over, entries.take(n), key)[i]);
        }
    }
}

/// A sub-stream that no entry is of has no more than what is covered of it.
proof fn lemma_pieces_of_none(
    over: Map<(Identity, i32), OffsetSpan>,
    entries: Seq<Entry>,
    key: (Identity, i32),
)
    requires
        !mentions(entries, key),
    ensures
        pieces_of(over, entries, key) == pieces_of(over, Seq::empty(), key),
    decreases entries.len(),
{
    if entries.len() > 0 {
        let init = entries.drop_last();
        assert(entries[entries.len() - 1].key() != key);
        if mentions(init, key) {
            let w = choose|w: int| 0 <= w < init.len() && (#[trigger] init[w]).key() == key;
            assert(entries[w].key() == key);
        }
        lemma_pieces_of_none(over, init, key);
    } else {
        assert(entries =~= Seq::empty());
    }
}

/// Whether a span has no offset in common with any of others.
fn is_apart(pieces: &Vec<OffsetSpan>, span: &OffsetSpan) -> (is_apart: bool)
    ensures
        is_apart == forall|i: int|
            0 <= i < pieces@.len() ==> apart(#[trigger] pieces@[i], *span),
{
    let mut at: usize = 0;
    while at < pieces.len()
        invariant
            at <= pieces@.len(),
            forall|i: int| 0 <= i < at ==> apart(#[trigger] pieces@[i], *span),
        decreases pieces@.len() - at,
    {
        let piece = &pieces[at];
        let from: i128 = if piece.base >= span.base {
            piece.base
        } else {
            span.base
        };
        let to: i128 = if piece.end <= span.end {
            piece.end
        } else {
            span.end
        };
        if from < to {
            assert(!apart(pieces@[at as int], *span));
            return false;
        }
        at = at + 1;
    }
    true
}

/// The spans of every sub-stream of the entries, with what is covered of it; none where
/// two have an offset in common, or one is of fewer than no records.
fn gather(spans: &OrdMap<SubstreamKey, OffsetSpan>, entries: &Vec<SubstreamEntry>) -> (gathered:
    Option<OrdMap<SubstreamKey, Vec<OffsetSpan>>>)
    requires
        spans.wf(),
        forall|key: (Identity, i32)| #[trigger]
            spans@.dom().contains(key) ==> spans@[key].is_whole(),
    ensures
        match gathered {
            Some(gathered) => is_gathered(gathered, spans@, entries_view(entries@)),
            None => !extends(spans@, entries_view(entries@)),
        },
{
    let ghost over = spans@;
    let ghost all = entries_view(entries@);
    let mut gathered: OrdMap<SubstreamKey, Vec<OffsetSpan>> = OrdMap::new();
    let mut at: usize = 0;
    assert(all.take(0) =~= Seq::empty());
    while at < entries.len()
        invariant
            spans.wf(),
            over == spans@,
            forall|key: (Identity, i32)| #[trigger]
                over.dom().contains(key) ==> over[key].is_whole(),
            all == entries_view(entries@),
            at <= entries@.len(),
            is_gathered(gathered, over, all.take(at as int)),
        decreases entries@.len() - at,
    {
        let entry = &entries[at];
        let ghost seen = all.take(at as int);
        let ghost more = all.take(at + 1);
        let ghost own = all[at as int].key();
        proof {
            assert(all[at as int] == entry@);
            assert(more.drop_last() =~= seen);
            assert(more.last() == all[at as int]);
            lemma_pieces_grow(over, all, at + 1, own);
            assert(all[at as int].key() == own);
            assert(mentions(all, own));
            assert forall|key: (Identity, i32)| #[trigger] mentions(more, key) <==> mentions(
                seen,
                key,
            ) || key == own by {
                if mentions(more, key) {
                    let w = choose|w: int| 0 <= w < more.len() && (#[trigger] more[w]).key() == key;
                    if w < at {
                        assert(seen[w].key() == key);
                    }
                }
                if mentions(seen, key) {
                    let w = choose|w: int| 0 <= w < seen.len() && (#[trigger] seen[w]).key() == key;
                    assert(more[w].key() == key);
                }
                assert(more[at as int].key() == own);
            }
        }
        let key = entry.key();
        let base: i128 = entry.base_offset as i128;
        let count: i128 = entry.record_count as i128;
        let span = OffsetSpan { base, end: base + count, records: count };
        let ghost whole = pieces_of(over, all, own);
        let ghost had = pieces_of(over, seen, own);
        assert(span == span_of_entry(all[at as int]));
        assert(pieces_of(over, more, own) == had.push(span));
        assert(whole[had.len() as int] == span) by {
            assert(pieces_of(over, more, own)[had.len() as int] == span);
        }
        if count < 0 {
            assert(whole[had.len() as int].base > whole[had.len() as int].end);
            assert(!is_interval(whole));
            return None;
        }
        let (slot, held) = gathered.find(&key);
        if held {
            proof {
                lemma_at(gathered.entries@, slot as int);
                assert(gathered@.dom().contains(own));
                assert(gathered.entries@[slot as int].1@ == had);
            }
            if !is_apart(&gathered.entries[slot].1, &span) {
                proof {
                    lemma_crosses(over, all, at + 1, own, had, span);
                }
                return None;
            }
            let ghost before = gathered@;
            let pieces = gathered.value_mut(slot);
            pieces.push(span);
            let ghost grown = pieces@;
            proof {
                assert(grown == had.push(span));
                assert(are_apart(grown));
                assert forall|key: (Identity, i32)| #[trigger]
                    gathered@.dom().contains(key) implies gathered@[key]@ == pieces_of(
                    over,
                    more,
                    key,
                ) && are_apart(gathered@[key]@) by {
                    if key != own {
                        assert(before.dom().contains(key));
                    }
                }
            }
        } else {
            let ghost before = gathered@;
            proof {
                assert(!gathered@.dom().contains(own));
                lemma_pieces_of_none(over, seen, own);
            }
            let mut pieces: Vec<OffsetSpan> = Vec::new();
            if let Some(held) = spans.get(&key) {
                pieces.push(*held);
            }
            assert(pieces@ =~= had);
            if !is_apart(&pieces, &span) {
                proof {
                    lemma_crosses(over, all, at + 1, own, had, span);
                }
                return None;
            }
            pieces.push(span);
            assert(pieces@ =~= had.push(span));
            assert(are_apart(pieces@));
            let _ = gathered.insert(key, pieces);
            proof {
                assert forall|key: (Identity, i32)| #[trigger]
                    gathered@.dom().contains(key) implies gathered@[key]@ == pieces_of(
                    over,
                    more,
                    key,
                ) && are_apart(gathered@[key]@) by {
                    if key != own {
                        assert(before.dom().contains(key));
                    }
                }
            }
        }
        at = at + 1;
    }
    assert(all.take(at as int) =~= all);
    Some(gathered)
}

/// Where a span has an offset in common with one before it, the sub-stream is no
/// interval.
proof fn lemma_crosses(
    over: Map<(Identity, i32), OffsetSpan>,
    all: Seq<Entry>,
    n: int,
    key: (Identity, i32),
    had: Seq<OffsetSpan>,
    span: OffsetSpan,
)
    requires
        0 < n <= all.len(),
        mentions(all, key),
        pieces_of(over, all.take(n), key) == had.push(span),
        exists|i: int| 0 <= i < had.len() && !apart(#[trigger] had[i], span),
    ensures
        !extends(over, all),
{
    let whole = pieces_of(over, all, key);
    lemma_pieces_grow(over, all, n, key);
    let i = choose|i: int| 0 <= i < had.len() && !apart(#[trigger] had[i], span);
    assert(whole[i] == had.push(span)[i]);
    assert(whole[had.len() as int] == had.push(span)[had.len() as int]);
    assert(!apart(whole[i], whole[had.len() as int]));
    assert(!is_interval(whole));
}

proof fn lemma_bounds(pieces: Seq<OffsetSpan>)
    requires
        are_apart(pieces),
    ensures
        2 * i64::MIN <= lowest(pieces) <= highest(pieces) <= 2 * i64::MAX,
        records_in(pieces) >= 0,
    decreases pieces.len(),
{
    let init = pieces.drop_last();
    assert(pieces[pieces.len() - 1].bounded());
    if init.len() > 0 {
        assert(are_apart(init)) by {
            assert forall|i: int| 0 <= i < init.len() implies (#[trigger] init[i]).base <= init[i].end
                && init[i].bounded() && init[i].contiguous() by {
                assert(init[i] == pieces[i]);
            }
            assert forall|i: int, j: int|
                #![trigger init[i], init[j]]
                0 <= i < j < init.len() implies apart(init[i], init[j]) by {
                assert(apart(pieces[i], pieces[j]));
            }
        }
        lemma_bounds(init);
    } else {
        assert(init =~= Seq::empty());
        assert(pieces[0].bounded());
        assert(records_in(init) == 0);
    }
}

proof fn lemma_more_records(pieces: Seq<OffsetSpan>, n: int)
    requires
        are_apart(pieces),
        0 <= n <= pieces.len(),
    ensures
        records_in(pieces.take(n)) <= records_in(pieces),
    decreases pieces.len() - n,
{
    if n < pieces.len() {
        lemma_more_records(pieces, n + 1);
        assert(pieces.take(n + 1).drop_last() =~= pieces.take(n));
        assert(pieces.take(n + 1).last() == pieces[n]);
    } else {
        assert(pieces.take(n) =~= pieces);
    }
}

/// Spans of which no two have an offset in common as one, if they are one interval.
fn join(pieces: &Vec<OffsetSpan>) -> (whole: Option<OffsetSpan>)
    requires
        are_apart(pieces@),
    ensures
        match whole {
            Some(whole) => is_interval(pieces@) && whole == joined(pieces@) && whole.is_whole(),
            None => !is_interval(pieces@),
        },
{
    let ghost all = pieces@;
    proof {
        lemma_bounds(all);
        assert(all.take(1).drop_last() =~= Seq::empty());
        assert(all[0].base <= all[0].end);
    }
    let mut base: i128 = pieces[0].base;
    let mut end: i128 = pieces[0].end;
    let mut records: i128 = pieces[0].records;
    let mut at: usize = 1;
    assert(records_in(all.take(1)) == records) by {
        reveal_with_fuel(records_in, 2);
    }
    while at < pieces.len()
        invariant
            1 <= at <= pieces@.len(),
            all == pieces@,
            are_apart(all),
            2 * i64::MIN <= lowest(all) <= highest(all) <= 2 * i64::MAX,
            base == lowest(all.take(at as int)),
            end == highest(all.take(at as int)),
            records == records_in(all.take(at as int)),
            records >= 0,
        decreases pieces@.len() - at,
    {
        let piece = &pieces[at];
        let ghost more = all.take(at + 1);
        proof {
            assert(more.drop_last() =~= all.take(at as int));
            assert(more.last() == all[at as int]);
            assert(all[at as int].base <= all[at as int].end);
            lemma_more_records(all, at + 1);
        }
        if piece.base < base {
            base = piece.base;
        }
        if piece.end > end {
            end = piece.end;
        }
        records = match records.checked_add(piece.records) {
            Some(records) => records,
            None => {
                return None;
            },
        };
        at = at + 1;
    }
    assert(all.take(at as int) =~= all);
    if records == end - base {
        Some(OffsetSpan { base, end, records })
    } else {
        None
    }
}

/// The offsets of spans.
pub open spec fn offsets_in(pieces: Seq<OffsetSpan>) -> Set<int> {
    Set::new(
        |offset: int|
            exists|i: int|
                0 <= i < pieces.len() && (#[trigger] pieces[i]).base <= offset < pieces[i].end,
    )
}

/// Spans that are one interval leave out no offset from the lowest to the highest.
pub proof fn an_interval_has_no_hole(pieces: Seq<OffsetSpan>, offset: int)
    requires
        pieces.len() > 0,
        is_interval(pieces),
        forall|i: int| 0 <= i < pieces.len() ==> (#[trigger] pieces[i]).contiguous(),
        lowest(pieces) <= offset < highest(pieces),
    ensures
        exists|i: int|
            0 <= i < pieces.len() && (#[trigger] pieces[i]).base <= offset < pieces[i].end,
{
    lemma_offsets(pieces);
    let all = set_int_range(lowest(pieces), highest(pieces));
    lemma_int_range(lowest(pieces), highest(pieces));
    lemma_subset_equality(offsets_in(pieces), all);
    assert(all.contains(offset));
    assert(offsets_in(pieces).contains(offset));
}

proof fn lemma_offsets(pieces: Seq<OffsetSpan>)
    requires
        pieces.len() > 0,
        forall|i: int|
            0 <= i < pieces.len() ==> (#[trigger] pieces[i]).base <= pieces[i].end
                && pieces[i].contiguous(),
        forall|i: int, j: int|
            #![trigger pieces[i], pieces[j]]
            0 <= i < j < pieces.len() ==> apart(pieces[i], pieces[j]),
    ensures
        lowest(pieces) <= highest(pieces),
        offsets_in(pieces).finite(),
        offsets_in(pieces).len() == records_in(pieces),
        offsets_in(pieces).subset_of(set_int_range(lowest(pieces), highest(pieces))),
    decreases pieces.len(),
{
    let init = pieces.drop_last();
    let last = pieces.last();
    let own = set_int_range(last.base as int, last.end as int);
    assert(pieces[pieces.len() - 1] == last);
    lemma_int_range(last.base as int, last.end as int);
    if init.len() == 0 {
        assert(offsets_in(pieces) =~= own) by {
            assert(pieces[0] == last);
        }
        reveal_with_fuel(records_in, 2);
    } else {
        assert forall|i: int| 0 <= i < init.len() implies (#[trigger] init[i]).base <= init[i].end
            && init[i].contiguous() by {
            assert(init[i] == pieces[i]);
        }
        assert forall|i: int, j: int|
            #![trigger init[i], init[j]]
            0 <= i < j < init.len() implies apart(init[i], init[j]) by {
            assert(apart(pieces[i], pieces[j]));
        }
        lemma_offsets(init);
        let before = offsets_in(init);
        assert(offsets_in(pieces) =~= before + own) by {
            assert forall|offset: int| #[trigger] offsets_in(pieces).contains(offset) <==> (before
                + own).contains(offset) by {
                if offsets_in(pieces).contains(offset) {
                    let w = choose|w: int|
                        0 <= w < pieces.len() && (#[trigger] pieces[w]).base <= offset
                            < pieces[w].end;
                    if w < init.len() {
                        assert(init[w].base <= offset < init[w].end);
                    }
                }
                if before.contains(offset) {
                    let w = choose|w: int|
                        0 <= w < init.len() && (#[trigger] init[w]).base <= offset < init[w].end;
                    assert(pieces[w].base <= offset < pieces[w].end);
                }
            }
        }
        assert(before.disjoint(own)) by {
            assert forall|offset: int| before.contains(offset) implies !own.contains(offset) by {
                let w = choose|w: int|
                    0 <= w < init.len() && (#[trigger] init[w]).base <= offset < init[w].end;
                assert(apart(pieces[w], pieces[pieces.len() - 1]));
            }
        }
        lemma_set_disjoint_lens(before, own);
    }
}

/// Two spans that hold something, each without a hole, are one interval together exactly
/// if one begins where the other ends: neither a hole nor an overlap is covered.
pub proof fn spans_join_end_to_end(a: OffsetSpan, b: OffsetSpan)
    requires
        a.records == a.end - a.base,
        b.records == b.end - b.base,
        a.base < a.end,
        b.base < b.end,
    ensures
        is_interval(seq![a, b]) <==> a.end == b.base || b.end == a.base,
        is_interval(seq![a]),
{
    reveal_with_fuel(lowest, 3);
    reveal_with_fuel(highest, 3);
    reveal_with_fuel(records_in, 4);
    let one = seq![a];
    let pieces = seq![a, b];
    assert(pieces.drop_last() =~= one);
    assert(one.drop_last() =~= Seq::empty());
    assert(one[0] == a);
    assert(pieces[0] == a && pieces[1] == b);
    if a.end == b.base || b.end == a.base {
        assert(apart(a, b));
        assert forall|i: int, j: int|
            #![trigger pieces[i], pieces[j]]
            0 <= i < j < pieces.len() implies apart(pieces[i], pieces[j]) by {
            assert(i == 0 && j == 1);
        }
        assert forall|i: int| 0 <= i < pieces.len() implies (#[trigger] pieces[i]).base
            <= pieces[i].end by {
            assert(i == 0 || i == 1);
        }
    }
    if is_interval(pieces) {
        assert(apart(pieces[0], pieces[1]));
    }
}

/// An entry that goes on where a sub-stream is covered to extends what is covered, and is
/// covered from then on; one that leaves a hole or overlaps does not.
pub proof fn what_goes_on_extends(
    spans: Map<(Identity, i32), OffsetSpan>,
    entry: Entry,
)
    requires
        spans.dom().contains(entry.key()),
        spans[entry.key()].is_whole(),
        spans[entry.key()].base < spans[entry.key()].end,
        entry.record_count > 0,
    ensures
        extends(spans, seq![entry]) <==> entry.base_offset == spans[entry.key()].end
            || entry.base_offset + entry.record_count == spans[entry.key()].base,
        entry.base_offset == spans[entry.key()].end ==> covering(
            spans,
            seq![entry],
        )[entry.key()].base == spans[entry.key()].base && covering(
            spans,
            seq![entry],
        )[entry.key()].end == entry.base_offset + entry.record_count,
{
    let key = entry.key();
    let held = spans[key];
    let own = span_of_entry(entry);
    let entries = seq![entry];
    assert(entries[0] == entry);
    assert(mentions(entries, key));
    assert(entries.drop_last() =~= Seq::empty());
    assert(pieces_of(spans, Seq::empty(), key) == seq![held]);
    assert(pieces_of(spans, entries, key) =~= seq![held, own]);
    spans_join_end_to_end(held, own);
    reveal_with_fuel(lowest, 3);
    reveal_with_fuel(highest, 3);
    assert(seq![held, own].drop_last() =~= seq![held]);
    assert(seq![held][0] == held);
    assert forall|other: (Identity, i32)| #[trigger] mentions(entries, other) implies other
        == key by {
        let i = choose|i: int| 0 <= i < entries.len() && (#[trigger] entries[i]).key() == other;
        assert(entries[i] == entry);
    }
}

/// What is covered of a sub-stream that the entries do not mention stays as it was.
pub proof fn covering_keeps_the_rest(
    spans: Map<(Identity, i32), OffsetSpan>,
    entries: Seq<Entry>,
    key: (Identity, i32),
)
    requires
        forall|i: int| 0 <= i < entries.len() ==> (#[trigger] entries[i]).key() != key,
    ensures
        covering(spans, entries).dom().contains(key) <==> spans.dom().contains(key),
        spans.dom().contains(key) ==> covering(spans, entries)[key] == spans[key],
{
}

} // verus!
