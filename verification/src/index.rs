//! The index of one prefix: the footers of its segments, and which of their
//! entries belong to which sub-stream.

use crate::ordmap::{ascending, has_key, lemma_at, map_of, Key, OrdMap};
use crate::segment::{
    Entry, Footer, Identity, SegmentFooter, Substream, SubstreamEntry, SubstreamKey,
};
use std::sync::Arc;
use vstd::prelude::*;

verus! {

/// A footer held in memory, and when its object was appended.
#[derive(Debug)]
pub struct CachedSegment {
    pub footer: SegmentFooter,
    pub last_modified_ms: i64,
}

/// The mathematical cached segment.
pub struct Cached {
    pub footer: Footer,
    pub last_modified_ms: i64,
}

impl View for CachedSegment {
    type V = Cached;

    open spec fn view(&self) -> Cached {
        Cached { footer: self.footer@, last_modified_ms: self.last_modified_ms }
    }
}

/// The index of a prefix.
#[derive(Debug)]
pub struct PrefixIndex {
    /// The footers, by the sequence of their segment.
    pub segments: OrdMap<u64, CachedSegment>,
    /// Where each sub-stream's entries are: the sequence of the segment, and the
    /// position in its footer, in ascending order.
    pub by_substream: OrdMap<SubstreamKey, Vec<(u64, u32)>>,
    /// Sequences that are taken and hold nothing readable.
    pub opaque: OrdMap<u64, ()>,
    /// Each topic name that an entry has, in the one allocation they share.
    pub topic_names: OrdMap<Arc<String>, ()>,
    /// When a listing or a probe last brought the index up to date.
    pub refreshed_at: Option<u64>,
    /// When a listing of the whole prefix last did.
    pub reconciled_at: Option<u64>,
    /// Counts the changes after which a certified floor must be read again.
    pub generation: u64,
}

/// A position of an entry before another: by sequence, then within the footer.
pub open spec fn at_before(a: (u64, u32), b: (u64, u32)) -> bool {
    a.0 < b.0 || (a.0 == b.0 && a.1 < b.1)
}

/// Whether positions are strictly ascending.
pub open spec fn in_order(list: Seq<(u64, u32)>) -> bool {
    forall|i: int, j: int|
        #![trigger list[i], list[j]]
        0 <= i < j < list.len() ==> at_before(list[i], list[j])
}

/// The positions in `entries` of segment `seq` that are indexed under `key`.
pub open spec fn positions_in(entries: Seq<Entry>, seq: u64, key: (Identity, i32)) -> Seq<
    (u64, u32),
>
    decreases entries.len(),
{
    if entries.len() == 0 {
        Seq::empty()
    } else {
        let before = positions_in(entries.drop_last(), seq, key);
        if entries.last().key() == key {
            before.push((seq, (entries.len() - 1) as u32))
        } else {
            before
        }
    }
}

/// The positions in `segments` that are indexed under `key`.
pub open spec fn positions(segments: Seq<(u64, CachedSegment)>, key: (Identity, i32)) -> Seq<
    (u64, u32),
>
    decreases segments.len(),
{
    if segments.len() == 0 {
        Seq::empty()
    } else {
        let last = segments.last();
        positions(segments.drop_last(), key) + positions_in(
            last.1.footer@.entries,
            last.0,
            key,
        )
    }
}

/// An entry of a sub-stream, with the segment that it is in.
pub struct Candidate {
    pub seq: u64,
    pub epoch: i64,
    pub entry: Entry,
}

/// The entries of `segments` that are indexed under `key`.
pub open spec fn candidates(segments: Seq<(u64, CachedSegment)>, key: (Identity, i32)) -> Seq<
    Candidate,
> {
    positions(segments, key).map_values(|at: (u64, u32)| candidate(segments, at))
}

/// The entry at a position.
pub open spec fn candidate(segments: Seq<(u64, CachedSegment)>, at: (u64, u32)) -> Candidate {
    let footer = map_of(segments)[at.0].footer@;
    Candidate { seq: at.0, epoch: footer.writer_epoch, entry: footer.entries[at.1 as int] }
}

/// Whether an entry indexed under `key` is at a position.
pub open spec fn lies(entries: Map<u64, Seq<Entry>>, at: (u64, u32), key: (Identity, i32)) -> bool {
    entries.dom().contains(at.0) && at.1 < entries[at.0].len() && entries[at.0][at.1 as int].key()
        == key
}

/// Whether `by_substream` says of `entries` where each sub-stream's are.
pub open spec fn tracks(
    by_substream: Map<(Identity, i32), Vec<(u64, u32)>>,
    entries: Map<u64, Seq<Entry>>,
) -> bool {
    &&& forall|key: (Identity, i32)| #[trigger]
        by_substream.dom().contains(key) ==> by_substream[key]@.len() > 0 && in_order(
            by_substream[key]@,
        )
    &&& forall|key: (Identity, i32), i: int|
        #![trigger by_substream[key]@[i]]
        by_substream.dom().contains(key) && 0 <= i < by_substream[key]@.len() ==> lies(
            entries,
            by_substream[key]@[i],
            key,
        )
    &&& forall|at: (u64, u32), key: (Identity, i32)| #[trigger]
        lies(entries, at, key) ==> by_substream.dom().contains(key)
            && by_substream[key]@.contains(at)
}

/// The entries of each segment.
pub open spec fn entries_by_seq(segments: Map<u64, CachedSegment>) -> Map<u64, Seq<Entry>> {
    segments.map_values(|cached: CachedSegment| cached.footer@.entries)
}

/// Whether an entry of a segment has the topic name.
pub open spec fn is_named(segments: Seq<(u64, CachedSegment)>, topic: Seq<char>) -> bool {
    exists|i: int, p: int|
        0 <= i < segments.len() && 0 <= p < segments[i].1.footer@.entries.len() && (
        #[trigger] segments[i].1.footer@.entries[p]).topic == topic
}

/// The footer as an index holds it.
pub open spec fn pruned_footer(footer: Footer) -> Footer {
    Footer { entries: footer.entries.map_values(|entry: Entry| entry.pruned()), ..footer }
}

/// Whether what is kept of names is what an entry of a segment has, and what is shared,
/// by how many hold each name.
pub open spec fn keeps_names(
    names: Seq<(Arc<String>, ())>,
    segments: Seq<(u64, CachedSegment)>,
    kept: Set<Seq<char>>,
    holders: Seq<usize>,
) -> bool {
    &&& holders.len() == names.len()
    &&& forall|topic: Seq<char>| #[trigger]
        kept.contains(topic) <==> exists|i: int|
            0 <= i < names.len() && (#[trigger] names[i]).0@ == topic && (holders[i] > 1
                || is_named(segments, topic))
}

/// How many hold a name: `Arc::strong_count`, documented to give the number of strong
/// pointers to the allocation. Who holds one outside of the index is not known here, so
/// nothing is stated of the number.
#[verifier::external_body]
fn holders_of(name: &Arc<String>) -> (holders: usize) {
    Arc::strong_count(name)
}

impl PrefixIndex {
    /// The parts of the index are in step: `by_substream` holds the position of
    /// every entry, under its own key and no other, and every name is known.
    pub open spec fn wf(&self) -> bool {
        &&& self.segments.wf()
        &&& self.by_substream.wf()
        &&& self.opaque.wf()
        &&& self.topic_names.wf()
        &&& tracks(self.by_substream@, entries_by_seq(self.segments@))
        &&& forall|i: int|
            0 <= i < self.segments.entries@.len() ==> (
            #[trigger] self.segments.entries@[i]).1.footer@.entries.len() <= u32::MAX
        &&& forall|topic: Seq<char>| #[trigger]
            is_named(self.segments.entries@, topic) ==> self.topic_names@.dom().contains(topic)
    }

    /// The footers and append times, by sequence.
    pub open spec fn contents(&self) -> Map<u64, Cached> {
        self.segments@.map_values(|cached: CachedSegment| cached@)
    }
}

proof fn lemma_positions_in(entries: Seq<Entry>, seq: u64, key: (Identity, i32))
    requires
        entries.len() <= u32::MAX,
    ensures
        in_order(positions_in(entries, seq, key)),
        forall|i: int|
            #![trigger positions_in(entries, seq, key)[i]]
            0 <= i < positions_in(entries, seq, key).len() ==> {
                let at = positions_in(entries, seq, key)[i];
                at.0 == seq && at.1 < entries.len() && entries[at.1 as int].key() == key
            },
        forall|p: u32|
            #![trigger entries[p as int]]
            p < entries.len() && entries[p as int].key() == key ==> positions_in(
                entries,
                seq,
                key,
            ).contains((seq, p)),
    decreases entries.len(),
{
    let list = positions_in(entries, seq, key);
    if entries.len() > 0 {
        let init = entries.drop_last();
        let before = positions_in(init, seq, key);
        let last = (entries.len() - 1) as u32;
        lemma_positions_in(init, seq, key);
        assert forall|i: int| #![trigger list[i]] 0 <= i < list.len() implies {
            let at = list[i];
            at.0 == seq && at.1 < entries.len() && entries[at.1 as int].key() == key
        } by {
            if i < before.len() {
                assert(list[i] == before[i]);
                assert(init[before[i].1 as int] == entries[before[i].1 as int]);
            }
        }
        assert forall|p: u32|
            #![trigger entries[p as int]]
            p < entries.len() && entries[p as int].key() == key implies list.contains((seq, p)) by {
            if p < last {
                assert(init[p as int] == entries[p as int]);
                let w = choose|w: int| 0 <= w < before.len() && before[w] == (seq, p);
                assert(list[w] == (seq, p));
            } else {
                assert(list[list.len() - 1] == (seq, p));
            }
        }
        assert(in_order(list)) by {
            assert forall|i: int, j: int|
                #![trigger list[i], list[j]]
                0 <= i < j < list.len() implies at_before(list[i], list[j]) by {
                assert(list[i] == before[i]);
                if j < before.len() {
                    assert(list[j] == before[j]);
                }
            }
        }
    }
}

proof fn lemma_map_prefix(segments: Seq<(u64, CachedSegment)>, seq: u64)
    requires
        ascending(segments),
        segments.len() > 0,
    ensures
        ascending(segments.drop_last()),
        map_of(segments).dom().contains(seq) <==> (map_of(segments.drop_last()).dom().contains(seq)
            || seq == segments.last().0),
        map_of(segments.drop_last()).dom().contains(seq) ==> map_of(segments)[seq] == map_of(
            segments.drop_last(),
        )[seq] && seq < segments.last().0,
        map_of(segments)[segments.last().0] == segments.last().1,
{
    let init = segments.drop_last();
    let n = segments.len() - 1;
    assert(ascending(init)) by {
        assert forall|i: int, j: int|
            #![trigger init[i], init[j]]
            0 <= i < j < init.len() implies init[i].0 < init[j].0 by {
            assert(u64::before(segments[i].0@, segments[j].0@));
        }
    }
    lemma_at(segments, n);
    if has_key(segments, seq) {
        let w = choose|w: int| 0 <= w < segments.len() && (#[trigger] segments[w]).0@ == seq;
        if w < n {
            assert(init[w].0@ == seq);
        }
    }
    if has_key(init, seq) {
        let w = choose|w: int| 0 <= w < init.len() && (#[trigger] init[w]).0@ == seq;
        assert(segments[w].0@ == seq);
        lemma_at(init, w);
        lemma_at(segments, w);
        assert(u64::before(segments[w].0@, segments[n].0@));
    }
    assert(segments[n].0@ == segments.last().0);
}

/// The positions of a sub-stream are in order, and are exactly those at which an
/// entry of it lies.
pub proof fn lemma_positions(segments: Seq<(u64, CachedSegment)>, key: (Identity, i32))
    requires
        ascending(segments),
        forall|i: int|
            0 <= i < segments.len() ==> (#[trigger] segments[i]).1.footer@.entries.len()
                <= u32::MAX,
    ensures
        in_order(positions(segments, key)),
        forall|at: (u64, u32)| #[trigger]
            positions(segments, key).contains(at) <==> lies(
                entries_by_seq(map_of(segments)),
                at,
                key,
            ),
    decreases segments.len(),
{
    let list = positions(segments, key);
    let all = entries_by_seq(map_of(segments));
    if segments.len() > 0 {
        let init = segments.drop_last();
        let last = segments.last();
        let head = positions(init, key);
        let tail = positions_in(last.1.footer@.entries, last.0, key);
        let known = entries_by_seq(map_of(init));
        assert forall|i: int| 0 <= i < init.len() implies (
        #[trigger] init[i]).1.footer@.entries.len() <= u32::MAX by {
            assert(init[i] == segments[i]);
        }
        lemma_map_prefix(segments, last.0);
        lemma_positions(init, key);
        assert(segments[segments.len() - 1] == last);
        lemma_positions_in(last.1.footer@.entries, last.0, key);
        assert forall|at: (u64, u32)| #[trigger] list.contains(at) <==> lies(all, at, key) by {
            lemma_map_prefix(segments, at.0);
            if list.contains(at) {
                let w = choose|w: int| 0 <= w < list.len() && list[w] == at;
                if w < head.len() {
                    assert(head[w] == at);
                    assert(head.contains(at));
                    assert(lies(known, at, key));
                } else {
                    assert(tail[w - head.len()] == at);
                }
            }
            if lies(all, at, key) {
                if at.0 == last.0 {
                    assert(last.1.footer@.entries[at.1 as int].key() == key);
                    let w = choose|w: int| 0 <= w < tail.len() && tail[w] == at;
                    assert(list[head.len() + w] == at);
                } else {
                    assert(lies(known, at, key));
                    assert(head.contains(at));
                    let w = choose|w: int| 0 <= w < head.len() && head[w] == at;
                    assert(list[w] == at);
                }
            }
        }
        assert(in_order(list)) by {
            assert forall|i: int, j: int|
                #![trigger list[i], list[j]]
                0 <= i < j < list.len() implies at_before(list[i], list[j]) by {
                if j < head.len() {
                    assert(list[i] == head[i] && list[j] == head[j]);
                } else if i >= head.len() {
                    assert(list[i] == tail[i - head.len()] && list[j] == tail[j - head.len()]);
                } else {
                    assert(list[i] == head[i] && list[j] == tail[j - head.len()]);
                    assert(head.contains(head[i]));
                    lemma_map_prefix(segments, head[i].0);
                }
            }
        }
    } else {
        assert forall|at: (u64, u32)| #[trigger] list.contains(at) <==> lies(all, at, key) by {}
    }
}

/// Positions in order are determined by which they are.
pub proof fn lemma_in_order_unique(a: Seq<(u64, u32)>, b: Seq<(u64, u32)>)
    requires
        in_order(a),
        in_order(b),
        forall|at: (u64, u32)| #[trigger] a.contains(at) <==> b.contains(at),
    ensures
        a == b,
    decreases a.len(),
{
    if a.len() == 0 {
        if b.len() > 0 {
            assert(b.contains(b[0]));
            assert(a.contains(b[0]));
        }
        assert(a =~= b);
    } else {
        let last = a.last();
        assert(a.contains(last)) by {
            assert(a[a.len() - 1] == last);
        }
        assert(b.contains(last));
        assert(b.last() == last) by {
            let w = choose|w: int| 0 <= w < b.len() && b[w] == last;
            if w < b.len() - 1 {
                let top = b[b.len() - 1];
                assert(at_before(b[w], top));
                assert(b.contains(top));
                assert(a.contains(top));
                let v = choose|v: int| 0 <= v < a.len() && a[v] == top;
                if v < a.len() - 1 {
                    assert(at_before(a[v], a[a.len() - 1]));
                }
            }
        }
        let x = a.drop_last();
        let y = b.drop_last();
        assert forall|at: (u64, u32)| #[trigger] x.contains(at) <==> y.contains(at) by {
            lemma_drop_last_contains(a, at);
            lemma_drop_last_contains(b, at);
            assert(a.contains(at) <==> b.contains(at));
        }
        assert(in_order(x)) by {
            assert forall|i: int, j: int|
                #![trigger x[i], x[j]]
                0 <= i < j < x.len() implies at_before(x[i], x[j]) by {
                assert(at_before(a[i], a[j]));
            }
        }
        assert(in_order(y)) by {
            assert forall|i: int, j: int|
                #![trigger y[i], y[j]]
                0 <= i < j < y.len() implies at_before(y[i], y[j]) by {
                assert(at_before(b[i], b[j]));
            }
        }
        lemma_in_order_unique(x, y);
        assert(a =~= x.push(last));
        assert(b =~= y.push(last));
    }
}

proof fn lemma_drop_last_contains(a: Seq<(u64, u32)>, at: (u64, u32))
    requires
        in_order(a),
        a.len() > 0,
    ensures
        a.drop_last().contains(at) <==> (a.contains(at) && at != a.last()),
{
    let x = a.drop_last();
    if x.contains(at) {
        let w = choose|w: int| 0 <= w < x.len() && x[w] == at;
        assert(a[w] == at);
        assert(at_before(a[w], a[a.len() - 1]));
    }
    if a.contains(at) && at != a.last() {
        let w = choose|w: int| 0 <= w < a.len() && a[w] == at;
        assert(x[w] == at);
    }
}

/// The map of sub-streams is what a scan of every footer would derive: it holds
/// a sub-stream if and only if a segment does, with the positions of its entries
/// in order.
pub proof fn substream_map_is_derived(index: &PrefixIndex, key: (Identity, i32))
    requires
        index.wf(),
    ensures
        index.by_substream@.dom().contains(key) <==> positions(
            index.segments.entries@,
            key,
        ).len() > 0,
        index.by_substream@.dom().contains(key) ==> index.by_substream@[key]@ == positions(
            index.segments.entries@,
            key,
        ),
{
    let list = positions(index.segments.entries@, key);
    let by = index.by_substream@;
    lemma_positions(index.segments.entries@, key);
    if list.len() > 0 {
        assert(list.contains(list[0]));
    }
    if by.dom().contains(key) {
        assert forall|at: (u64, u32)| #[trigger] list.contains(at) <==> by[key]@.contains(at) by {
            if by[key]@.contains(at) {
                let w = choose|w: int| 0 <= w < by[key]@.len() && by[key]@[w] == at;
                assert(lies(entries_by_seq(index.segments@), by[key]@[w], key));
            }
        }
        lemma_in_order_unique(list, by[key]@);
    }
}

/// A position is added where its entry was.
proof fn lemma_track_add(
    before: Map<(Identity, i32), Vec<(u64, u32)>>,
    after: Map<(Identity, i32), Vec<(u64, u32)>>,
    entries: Map<u64, Seq<Entry>>,
    seq: u64,
    entry: Entry,
)
    requires
        entries.dom().contains(seq),
        entries[seq].len() < u32::MAX,
        tracks(before, entries),
        after.dom() == before.dom().insert(entry.key()),
        forall|key: (Identity, i32)|
            #![trigger after[key]]
            key != entry.key() && before.dom().contains(key) ==> after[key] == before[key],
        in_order(after[entry.key()]@),
        forall|at: (u64, u32)| #[trigger]
            after[entry.key()]@.contains(at) <==> (at == (seq, entries[seq].len() as u32) || (
            before.dom().contains(entry.key()) && before[entry.key()]@.contains(at))),
    ensures
        tracks(after, entries.insert(seq, entries[seq].push(entry))),
{
    let more = entries.insert(seq, entries[seq].push(entry));
    let own = entry.key();
    let here = (seq, entries[seq].len() as u32);
    assert forall|at: (u64, u32), key: (Identity, i32)| #[trigger] lies(more, at, key) <==> (lies(
        entries,
        at,
        key,
    ) || (at == here && key == own)) by {}
    assert(after[own]@.contains(here));
    assert forall|key: (Identity, i32)| #[trigger] after.dom().contains(key) implies after[key]@.len()
        > 0 && in_order(after[key]@) by {
        if key != own {
            assert(before.dom().contains(key));
            assert(after[key] == before[key]);
        }
    }
    assert forall|key: (Identity, i32), i: int|
        #![trigger after[key]@[i]]
        after.dom().contains(key) && 0 <= i < after[key]@.len() implies lies(
        more,
        after[key]@[i],
        key,
    ) by {
        let at = after[key]@[i];
        if key == own {
            assert(after[own]@.contains(at));
            if at != here {
                let w = choose|w: int| 0 <= w < before[own]@.len() && before[own]@[w] == at;
                assert(lies(entries, before[own]@[w], own));
            }
            assert(lies(more, at, key));
        } else {
            assert(before.dom().contains(key));
            assert(lies(entries, before[key]@[i], key));
            assert(lies(more, at, key));
        }
    }
    assert forall|at: (u64, u32), key: (Identity, i32)| #[trigger] lies(more, at, key) implies after.dom().contains(
        key,
    ) && after[key]@.contains(at) by {
        if lies(entries, at, key) {
            assert(before.dom().contains(key) && before[key]@.contains(at));
            if key != own {
                assert(after[key] == before[key]);
            }
        }
    }
}

/// A position is withdrawn where its entry was.
proof fn lemma_track_drop(
    before: Map<(Identity, i32), Vec<(u64, u32)>>,
    after: Map<(Identity, i32), Vec<(u64, u32)>>,
    entries: Map<u64, Seq<Entry>>,
    seq: u64,
)
    requires
        entries.dom().contains(seq),
        0 < entries[seq].len() <= u32::MAX,
        tracks(before, entries),
        ({
            let own = entries[seq].last().key();
            let here = (seq, (entries[seq].len() - 1) as u32);
            &&& forall|key: (Identity, i32)|
                #![trigger after.dom().contains(key)]
                key != own ==> (after.dom().contains(key) <==> before.dom().contains(key))
            &&& forall|key: (Identity, i32)|
                #![trigger after[key]]
                key != own && before.dom().contains(key) ==> after[key] == before[key]
            &&& after.dom().contains(own) ==> after[own]@.len() > 0 && in_order(after[own]@)
                && forall|at: (u64, u32)| #[trigger]
                after[own]@.contains(at) <==> (at != here && before[own]@.contains(at))
            &&& !after.dom().contains(own) ==> forall|at: (u64, u32)| #[trigger]
                before[own]@.contains(at) ==> at == here
        }),
    ensures
        tracks(after, entries.insert(seq, entries[seq].drop_last())),
{
    let less = entries.insert(seq, entries[seq].drop_last());
    let own = entries[seq].last().key();
    let here = (seq, (entries[seq].len() - 1) as u32);
    assert forall|at: (u64, u32), key: (Identity, i32)| #[trigger] lies(less, at, key) <==> (lies(
        entries,
        at,
        key,
    ) && at != here) by {}
    assert(lies(entries, here, own));
    assert forall|key: (Identity, i32)| #[trigger] after.dom().contains(key) implies after[key]@.len()
        > 0 && in_order(after[key]@) by {
        if key != own {
            assert(before.dom().contains(key));
            assert(after[key] == before[key]);
        }
    }
    assert forall|key: (Identity, i32), i: int|
        #![trigger after[key]@[i]]
        after.dom().contains(key) && 0 <= i < after[key]@.len() implies lies(
        less,
        after[key]@[i],
        key,
    ) by {
        let at = after[key]@[i];
        if key == own {
            assert(after[own]@.contains(at));
            let w = choose|w: int| 0 <= w < before[own]@.len() && before[own]@[w] == at;
            assert(lies(entries, before[own]@[w], own));
        } else {
            assert(before.dom().contains(key));
            assert(after[key] == before[key]);
            assert(lies(entries, before[key]@[i], key));
        }
        assert(lies(less, at, key));
    }
    assert forall|at: (u64, u32), key: (Identity, i32)| #[trigger] lies(less, at, key) implies after.dom().contains(
        key,
    ) && after[key]@.contains(at) by {
        assert(lies(entries, at, key));
        assert(before.dom().contains(key) && before[key]@.contains(at));
        if key != own {
            assert(after.dom().contains(key));
            assert(after[key] == before[key]);
        } else if !after.dom().contains(own) {
            assert(at == here);
        }
    }
}

/// Where `at` is in a list in order, or else where it would be.
fn find_position(list: &Vec<(u64, u32)>, at: (u64, u32)) -> (found: (usize, bool))
    requires
        in_order(list@),
    ensures
        found.0 <= list@.len(),
        forall|j: int| 0 <= j < found.0 ==> at_before(#[trigger] list@[j], at),
        found.1 ==> found.0 < list@.len() && list@[found.0 as int] == at,
        !found.1 ==> !list@.contains(at) && forall|j: int|
            found.0 <= j < list@.len() ==> at_before(at, #[trigger] list@[j]),
{
    let mut low: usize = 0;
    let mut high: usize = list.len();
    while low < high
        invariant
            in_order(list@),
            low <= high <= list@.len(),
            forall|j: int| 0 <= j < low ==> at_before(#[trigger] list@[j], at),
            forall|j: int| high <= j < list@.len() ==> !at_before(#[trigger] list@[j], at),
        decreases high - low,
    {
        let mid: usize = low + (high - low) / 2;
        let here = list[mid];
        if here.0 < at.0 || (here.0 == at.0 && here.1 < at.1) {
            proof {
                assert forall|j: int| 0 <= j < mid + 1 implies at_before(
                    #[trigger] list@[j],
                    at,
                ) by {
                    if j < mid {
                        assert(at_before(list@[j], list@[mid as int]));
                    }
                }
            }
            low = mid + 1;
        } else {
            proof {
                assert forall|j: int| mid <= j < list@.len() implies !at_before(
                    #[trigger] list@[j],
                    at,
                ) by {
                    if mid < j {
                        assert(at_before(list@[mid as int], list@[j]));
                    }
                }
            }
            high = mid;
        }
    }
    if low < list.len() && list[low].0 == at.0 && list[low].1 == at.1 {
        (low, true)
    } else {
        proof {
            assert forall|j: int| low <= j < list@.len() implies at_before(
                at,
                #[trigger] list@[j],
            ) by {
                if low < j {
                    assert(at_before(list@[low as int], list@[j]));
                }
            }
            if list@.contains(at) {
                let w = choose|w: int| 0 <= w < list@.len() && list@[w] == at;
                assert(at_before(list@[w], at) || at_before(at, list@[w]));
            }
        }
        (low, false)
    }
}

/// Add a position under a key.
fn add_position(by: &mut OrdMap<SubstreamKey, Vec<(u64, u32)>>, key: SubstreamKey, at: (u64, u32))
    requires
        old(by).wf(),
        old(by)@.dom().contains(key@) ==> in_order(old(by)@[key@]@),
    ensures
        final(by).wf(),
        final(by)@.dom() == old(by)@.dom().insert(key@),
        forall|other: (Identity, i32)|
            #![trigger final(by)@[other]]
            other != key@ && old(by)@.dom().contains(other) ==> final(by)@[other] == old(
                by,
            )@[other],
        in_order(final(by)@[key@]@),
        forall|p: (u64, u32)| #[trigger]
            final(by)@[key@]@.contains(p) <==> (p == at || (old(by)@.dom().contains(key@) && old(
                by,
            )@[key@]@.contains(p))),
{
    let (slot, held) = by.find(&key);
    if held {
        let list = by.value_mut(slot);
        let ghost before = list@;
        let (position, present) = find_position(list, at);
        if !present {
            list.insert(position, at);
            proof {
                let after = list@;
                assert(after =~= before.insert(position as int, at));
                lemma_insert_in_order(before, position as int, at);
            }
        } else {
            proof {
                assert forall|p: (u64, u32)| #[trigger] list@.contains(p) <==> (p == at
                    || before.contains(p)) by {
                    assert(before.contains(before[position as int]));
                }
            }
        }
    } else {
        let mut list: Vec<(u64, u32)> = Vec::new();
        list.push(at);
        proof {
            assert forall|p: (u64, u32)| #[trigger] list@.contains(p) <==> p == at by {
                assert(list@[0] == at);
            }
        }
        let _ = by.insert(key, list);
    }
    assert(by@.dom() =~= old(by)@.dom().insert(key@));
}

proof fn lemma_insert_in_order(list: Seq<(u64, u32)>, position: int, at: (u64, u32))
    requires
        in_order(list),
        0 <= position <= list.len(),
        forall|j: int| 0 <= j < position ==> at_before(#[trigger] list[j], at),
        forall|j: int| position <= j < list.len() ==> at_before(at, #[trigger] list[j]),
    ensures
        in_order(list.insert(position, at)),
        forall|p: (u64, u32)| #[trigger]
            list.insert(position, at).contains(p) <==> (p == at || list.contains(p)),
{
    let after = list.insert(position, at);
    assert forall|i: int|
        #![trigger after[i]]
        0 <= i < after.len() implies after[i] == if i < position {
        list[i]
    } else if i == position {
        at
    } else {
        list[i - 1]
    } by {}
    assert(in_order(after)) by {
        assert forall|i: int, j: int|
            #![trigger after[i], after[j]]
            0 <= i < j < after.len() implies at_before(after[i], after[j]) by {
            let a = if i < position { i } else { i - 1 };
            let b = if j < position { j } else { j - 1 };
            if i != position && j != position {
                assert(at_before(list[a], list[b]));
            } else if i == position {
                assert(at_before(at, list[b]));
            } else {
                assert(at_before(list[a], at));
            }
        }
    }
    assert forall|p: (u64, u32)| #[trigger] after.contains(p) <==> (p == at || list.contains(p)) by {
        if after.contains(p) {
            let w = choose|w: int| 0 <= w < after.len() && after[w] == p;
            if w < position {
                assert(list[w] == p);
            } else if w > position {
                assert(list[w - 1] == p);
            }
        }
        if list.contains(p) {
            let w = choose|w: int| 0 <= w < list.len() && list[w] == p;
            if w < position {
                assert(after[w] == p);
            } else {
                assert(after[w + 1] == p);
            }
        }
        assert(after[position] == at);
    }
}

/// Withdraw a position from under a key, and the key with its last position.
fn drop_position(by: &mut OrdMap<SubstreamKey, Vec<(u64, u32)>>, key: &SubstreamKey, at: (u64, u32))
    requires
        old(by).wf(),
        old(by)@.dom().contains(key@),
        in_order(old(by)@[key@]@),
        old(by)@[key@]@.contains(at),
    ensures
        final(by).wf(),
        forall|other: (Identity, i32)|
            #![trigger final(by)@.dom().contains(other)]
            other != key@ ==> (final(by)@.dom().contains(other) <==> old(by)@.dom().contains(
                other,
            )),
        forall|other: (Identity, i32)|
            #![trigger final(by)@[other]]
            other != key@ && old(by)@.dom().contains(other) ==> final(by)@[other] == old(
                by,
            )@[other],
        final(by)@.dom().contains(key@) ==> final(by)@[key@]@.len() > 0 && in_order(
            final(by)@[key@]@,
        ) && forall|p: (u64, u32)| #[trigger]
            final(by)@[key@]@.contains(p) <==> (p != at && old(by)@[key@]@.contains(p)),
        !final(by)@.dom().contains(key@) ==> forall|p: (u64, u32)| #[trigger]
            old(by)@[key@]@.contains(p) ==> p == at,
{
    let (slot, _) = by.find(key);
    let list = by.value_mut(slot);
    let ghost before = list@;
    let (position, _) = find_position(list, at);
    let _ = list.remove(position);
    let ghost after = list@;
    proof {
        assert(after =~= before.remove(position as int));
        lemma_remove_in_order(before, position as int);
    }
    let emptied = list.len() == 0;
    if emptied {
        let _ = by.remove(key);
        proof {
            assert forall|p: (u64, u32)| #[trigger] before.contains(p) implies p == at by {
                if p != at {
                    assert(after.contains(p));
                }
            }
        }
    }
}

proof fn lemma_remove_in_order(list: Seq<(u64, u32)>, position: int)
    requires
        in_order(list),
        0 <= position < list.len(),
    ensures
        in_order(list.remove(position)),
        forall|p: (u64, u32)| #[trigger]
            list.remove(position).contains(p) <==> (p != list[position] && list.contains(p)),
{
    let after = list.remove(position);
    assert forall|i: int|
        #![trigger after[i]]
        0 <= i < after.len() implies after[i] == if i < position {
        list[i]
    } else {
        list[i + 1]
    } by {}
    assert(in_order(after)) by {
        assert forall|i: int, j: int|
            #![trigger after[i], after[j]]
            0 <= i < j < after.len() implies at_before(after[i], after[j]) by {
            let a = if i < position { i } else { i + 1 };
            let b = if j < position { j } else { j + 1 };
            assert(at_before(list[a], list[b]));
        }
    }
    assert forall|p: (u64, u32)| #[trigger] after.contains(p) <==> (p != list[position]
        && list.contains(p)) by {
        if after.contains(p) {
            let w = choose|w: int| 0 <= w < after.len() && after[w] == p;
            let v = if w < position { w } else { w + 1 };
            assert(list[v] == p);
            if v < position {
                assert(at_before(list[v], list[position]));
            } else {
                assert(at_before(list[position], list[v]));
            }
        }
        if p != list[position] && list.contains(p) {
            let w = choose|w: int| 0 <= w < list.len() && list[w] == p;
            if w < position {
                assert(after[w] == p);
            } else {
                assert(after[w - 1] == p);
            }
        }
    }
}

/// A segment without entries leaves nothing to track.
proof fn lemma_track_empty(
    by: Map<(Identity, i32), Vec<(u64, u32)>>,
    entries: Map<u64, Seq<Entry>>,
    seq: u64,
)
    ensures
        tracks(by, entries.insert(seq, Seq::empty())) <==> tracks(by, entries.remove(seq)),
{
    let a = entries.insert(seq, Seq::empty());
    let b = entries.remove(seq);
    assert forall|at: (u64, u32), key: (Identity, i32)| #[trigger] lies(a, at, key) <==> lies(
        b,
        at,
        key,
    ) by {}
    assert forall|at: (u64, u32), key: (Identity, i32)| #[trigger] lies(b, at, key) <==> lies(
        a,
        at,
        key,
    ) by {}
    if tracks(by, a) {
        assert forall|key: (Identity, i32), i: int|
            #![trigger by[key]@[i]]
            by.dom().contains(key) && 0 <= i < by[key]@.len() implies lies(b, by[key]@[i], key) by {
            assert(lies(a, by[key]@[i], key));
        }
        assert(tracks(by, b));
    }
    if tracks(by, b) {
        assert forall|key: (Identity, i32), i: int|
            #![trigger by[key]@[i]]
            by.dom().contains(key) && 0 <= i < by[key]@.len() implies lies(a, by[key]@[i], key) by {
            assert(lies(b, by[key]@[i], key));
        }
        assert(tracks(by, a));
    }
}

/// The views of the entries that an index answers with.
pub open spec fn candidates_view(found: Seq<(u64, i64, &SubstreamEntry)>) -> Seq<Candidate> {
    found.map_values(
        |item: (u64, i64, &SubstreamEntry)| Candidate { seq: item.0, epoch: item.1, entry: item.2@ },
    )
}

impl Default for PrefixIndex {
    /// The index of a prefix that nothing is known of.
    fn default() -> (index: Self)
        ensures
            index.wf(),
            index.contents() == Map::<u64, Cached>::empty(),
            index.opaque@.dom() == Set::<u64>::empty(),
            index.topic_names@.dom() == Set::<Seq<char>>::empty(),
            index.refreshed_at is None,
            index.reconciled_at is None,
            index.generation == 0,
    {
        let index = PrefixIndex {
            segments: OrdMap::new(),
            by_substream: OrdMap::new(),
            opaque: OrdMap::new(),
            topic_names: OrdMap::new(),
            refreshed_at: None,
            reconciled_at: None,
            generation: 0,
        };
        assert(index.contents() =~= Map::<u64, Cached>::empty());
        assert(tracks(index.by_substream@, entries_by_seq(index.segments@)));
        index
    }
}

/// The last key of a map in order is the greatest.
proof fn lemma_last_greatest<V>(entries: Seq<(u64, V)>, key: u64)
    requires
        ascending(entries),
        map_of(entries).dom().contains(key),
    ensures
        entries.len() > 0,
        key <= entries.last().0,
{
    let w = choose|w: int| 0 <= w < entries.len() && (#[trigger] entries[w]).0@ == key;
    if w < entries.len() - 1 {
        assert(u64::before(entries[w].0@, entries[entries.len() - 1].0@));
    }
}

/// The positions of a list whose segment is one of `live`.
spec fn held_of(list: Seq<(u64, u32)>, live: Set<u64>) -> Seq<(u64, u32)>
    decreases list.len(),
{
    if list.len() == 0 {
        Seq::empty()
    } else if live.contains(list.last().0) {
        held_of(list.drop_last(), live).push(list.last())
    } else {
        held_of(list.drop_last(), live)
    }
}

proof fn lemma_held_of(list: Seq<(u64, u32)>, live: Set<u64>)
    requires
        in_order(list),
    ensures
        in_order(held_of(list, live)),
        forall|p: (u64, u32)| #[trigger]
            held_of(list, live).contains(p) <==> (list.contains(p) && live.contains(p.0)),
    decreases list.len(),
{
    let kept = held_of(list, live);
    if list.len() > 0 {
        let init = list.drop_last();
        let last = list.last();
        let before = held_of(init, live);
        assert(in_order(init)) by {
            assert forall|i: int, j: int|
                #![trigger init[i], init[j]]
                0 <= i < j < init.len() implies at_before(init[i], init[j]) by {
                assert(at_before(list[i], list[j]));
            }
        }
        lemma_held_of(init, live);
        assert forall|p: (u64, u32)| #[trigger] kept.contains(p) <==> (list.contains(p)
            && live.contains(p.0)) by {
            lemma_drop_last_contains(list, p);
            assert(list[list.len() - 1] == last);
            assert(before.contains(p) <==> (init.contains(p) && live.contains(p.0)));
            if live.contains(last.0) {
                assert(kept == before.push(last));
                if kept.contains(p) {
                    let w = choose|w: int| 0 <= w < kept.len() && kept[w] == p;
                    if w < before.len() {
                        assert(before[w] == p);
                    }
                }
                if before.contains(p) {
                    let w = choose|w: int| 0 <= w < before.len() && before[w] == p;
                    assert(kept[w] == p);
                }
                assert(kept[kept.len() - 1] == last);
            }
        }
        assert(in_order(kept)) by {
            assert forall|i: int, j: int|
                #![trigger kept[i], kept[j]]
                0 <= i < j < kept.len() implies at_before(kept[i], kept[j]) by {
                assert(kept[i] == before[i]);
                if j < before.len() {
                    assert(kept[j] == before[j]);
                } else {
                    assert(before.contains(before[i]));
                    lemma_drop_last_contains(list, before[i]);
                    let w = choose|w: int| 0 <= w < init.len() && init[w] == before[i];
                    assert(at_before(list[w], list[list.len() - 1]));
                }
            }
        }
    }
}

/// Positions go with the segments they are in.
proof fn lemma_track_thin(
    before: Map<(Identity, i32), Vec<(u64, u32)>>,
    after: Map<(Identity, i32), Vec<(u64, u32)>>,
    all: Map<u64, Seq<Entry>>,
    now: Map<u64, Seq<Entry>>,
)
    requires
        tracks(before, all),
        forall|seq: u64| #[trigger]
            now.dom().contains(seq) ==> all.dom().contains(seq) && all[seq] == now[seq],
        forall|key: (Identity, i32)| #[trigger]
            after.dom().contains(key) <==> (before.dom().contains(key) && held_of(
                before[key]@,
                now.dom(),
            ).len() > 0),
        forall|key: (Identity, i32)| #[trigger]
            after.dom().contains(key) ==> after[key]@ == held_of(before[key]@, now.dom()),
    ensures
        tracks(after, now),
{
    assert forall|key: (Identity, i32)| #[trigger] after.dom().contains(key) implies after[key]@.len()
        > 0 && in_order(after[key]@) by {
        lemma_held_of(before[key]@, now.dom());
    }
    assert forall|key: (Identity, i32), i: int|
        #![trigger after[key]@[i]]
        after.dom().contains(key) && 0 <= i < after[key]@.len() implies lies(
        now,
        after[key]@[i],
        key,
    ) by {
        let at = after[key]@[i];
        lemma_held_of(before[key]@, now.dom());
        assert(held_of(before[key]@, now.dom()).contains(at));
        let w = choose|w: int| 0 <= w < before[key]@.len() && before[key]@[w] == at;
        assert(lies(all, before[key]@[w], key));
    }
    assert forall|at: (u64, u32), key: (Identity, i32)| #[trigger] lies(now, at, key) implies after.dom().contains(
        key,
    ) && after[key]@.contains(at) by {
        assert(lies(all, at, key));
        lemma_held_of(before[key]@, now.dom());
        assert(held_of(before[key]@, now.dom()).contains(at));
        assert(after.dom().contains(key));
    }
}

/// A segment kept out of `held` is one of them.
proof fn lemma_held_within(
    held: Seq<(u64, CachedSegment)>,
    now: Seq<(u64, CachedSegment)>,
    k: int,
) -> (w: int)
    requires
        ascending(held),
        ascending(now),
        0 <= k < now.len(),
        forall|seq: u64| #[trigger]
            map_of(now).dom().contains(seq) ==> map_of(held).dom().contains(seq) && map_of(now)[seq]
                == map_of(held)[seq],
    ensures
        0 <= w < held.len(),
        held[w] == now[k],
{
    lemma_at(now, k);
    let w = choose|w: int| 0 <= w < held.len() && (#[trigger] held[w]).0@ == now[k].0@;
    lemma_at(held, w);
    w
}

impl PrefixIndex {
    /// Whether a sequence is taken, as far as the index knows.
    pub open spec fn resolves(&self, seq: u64) -> bool {
        self.segments@.dom().contains(seq) || self.opaque@.dom().contains(seq)
    }

    /// The highest sequence that is known to be taken, readable or not: the next
    /// candidate and the next listing start behind it.
    pub fn resolved_max(&self) -> (max: Option<u64>)
        requires
            self.wf(),
        ensures
            match max {
                Some(max) => self.resolves(max) && forall|seq: u64| #[trigger]
                    self.resolves(seq) ==> seq <= max,
                None => forall|seq: u64| !#[trigger] self.resolves(seq),
            },
    {
        let segments: usize = self.segments.len();
        let opaque: usize = self.opaque.len();
        proof {
            assert forall|seq: u64| #[trigger] self.resolves(seq) implies (segments > 0 || opaque
                > 0) by {
                if self.segments@.dom().contains(seq) {
                    lemma_last_greatest(self.segments.entries@, seq);
                } else {
                    lemma_last_greatest(self.opaque.entries@, seq);
                }
            }
            if segments > 0 {
                lemma_at(self.segments.entries@, segments - 1);
            }
            if opaque > 0 {
                lemma_at(self.opaque.entries@, opaque - 1);
            }
        }
        if segments == 0 && opaque == 0 {
            return None;
        }
        let max: u64 = if segments == 0 {
            self.opaque.entries[opaque - 1].0
        } else if opaque == 0 {
            self.segments.entries[segments - 1].0
        } else if self.segments.entries[segments - 1].0 > self.opaque.entries[opaque - 1].0 {
            self.segments.entries[segments - 1].0
        } else {
            self.opaque.entries[opaque - 1].0
        };
        proof {
            assert(self.resolves(max));
            assert forall|seq: u64| #[trigger] self.resolves(seq) implies seq <= max by {
                if self.segments@.dom().contains(seq) {
                    lemma_last_greatest(self.segments.entries@, seq);
                }
                if self.opaque@.dom().contains(seq) {
                    lemma_last_greatest(self.opaque.entries@, seq);
                }
            }
        }
        Some(max)
    }

    /// Withdraw `seq`'s contribution to the map of sub-streams. The footer itself
    /// stays, for its caller to replace.
    pub fn unindex_segment(&mut self, seq: u64)
        requires
            old(self).wf(),
        ensures
            *final(self) == (PrefixIndex { by_substream: final(self).by_substream, ..*old(self) }),
            final(self).by_substream.wf(),
            tracks(
                final(self).by_substream@,
                entries_by_seq(old(self).segments@).remove(seq),
            ),
    {
        let ghost all = entries_by_seq(self.segments@);
        let (slot, held) = self.segments.find(&seq);
        if !held {
            assert(all.remove(seq) =~= all);
            return ;
        }
        let ghost entries = all[seq];
        let mut n: usize = self.segments.entries[slot].1.footer.entries.len();
        assert(entries.take(n as int) =~= entries);
        assert(all.insert(seq, entries) =~= all);
        while n > 0
            invariant
                n <= entries.len() <= u32::MAX,
                slot < self.segments.entries@.len(),
                self.segments.entries@[slot as int].1.footer@.entries == entries,
                *self == (PrefixIndex { by_substream: self.by_substream, ..*old(self) }),
                self.by_substream.wf(),
                tracks(self.by_substream@, all.insert(seq, entries.take(n as int))),
            decreases n,
        {
            n = n - 1;
            let key = self.segments.entries[slot].1.footer.entries[n].key();
            let ghost known = all.insert(seq, entries.take(n + 1));
            proof {
                assert(entries.take(n + 1).last() == entries[n as int]);
                assert(lies(known, (seq, n as u32), key@));
            }
            let ghost before = self.by_substream@;
            drop_position(&mut self.by_substream, &key, (seq, n as u32));
            proof {
                lemma_track_drop(before, self.by_substream@, known, seq);
                assert(entries.take(n + 1).drop_last() =~= entries.take(n as int));
                assert(known.insert(seq, entries.take(n as int)) =~= all.insert(
                    seq,
                    entries.take(n as int),
                ));
            }
        }
        proof {
            assert(entries.take(0) =~= Seq::empty());
            lemma_track_empty(self.by_substream@, all, seq);
        }
    }

    /// The one allocation that this index uses for a name, adopting `topic`'s own
    /// the first time the name is seen.
    pub fn intern_topic(&mut self, topic: &Arc<String>) -> (shared: Arc<String>)
        requires
            old(self).topic_names.wf(),
        ensures
            shared@ == topic@,
            *final(self) == (PrefixIndex { topic_names: final(self).topic_names, ..*old(self) }),
            final(self).topic_names.wf(),
            final(self).topic_names@.dom() == old(self).topic_names@.dom().insert(topic@),
    {
        let (slot, held) = self.topic_names.find(topic);
        if held {
            assert(self.topic_names@.dom().insert(topic@) =~= self.topic_names@.dom());
            return self.topic_names.entries[slot].0.clone();
        }
        let _ = self.topic_names.insert(topic.clone(), ());
        assert(self.topic_names@.dom() =~= old(self).topic_names@.dom().insert(topic@));
        topic.clone()
    }

    /// Drop the names that no entry has any more and nothing else shares, by how many
    /// hold each name, in the order of the names. What is shared is kept for as long as
    /// it is: a name that something outside of the index holds goes with a later sweep.
    pub fn keep_held_names(&mut self, holders: &Vec<usize>)
        requires
            old(self).segments.wf(),
            old(self).topic_names.wf(),
            holders@.len() == old(self).topic_names.entries@.len(),
        ensures
            *final(self) == (PrefixIndex { topic_names: final(self).topic_names, ..*old(self) }),
            final(self).topic_names.wf(),
            keeps_names(
                old(self).topic_names.entries@,
                old(self).segments.entries@,
                final(self).topic_names@.dom(),
                holders@,
            ),
    {
        let ghost segments = self.segments.entries@;
        let ghost names = self.topic_names.entries@;
        let mut kept: OrdMap<Arc<String>, ()> = OrdMap::new();
        let mut at: usize = 0;
        while at < self.topic_names.entries.len()
            invariant
                *self == *old(self),
                segments == self.segments.entries@,
                names == self.topic_names.entries@,
                holders@.len() == names.len(),
                at <= names.len(),
                kept.wf(),
                forall|topic: Seq<char>| #[trigger]
                    kept@.dom().contains(topic) <==> exists|i: int|
                        0 <= i < at && (#[trigger] names[i]).0@ == topic && (holders@[i] > 1
                            || is_named(segments, topic)),
            decreases names.len() - at,
        {
            let name = &self.topic_names.entries[at].0;
            let ghost before = kept@;
            assert(names[at as int].0@ == name@);
            let keeps = holders[at] > 1 || Self::names_topic(&self.segments, name);
            if keeps {
                let _ = kept.insert(name.clone(), ());
            }
            proof {
                assert forall|topic: Seq<char>| #[trigger]
                    kept@.dom().contains(topic) <==> exists|i: int|
                        0 <= i < at + 1 && (#[trigger] names[i]).0@ == topic && (holders@[i] > 1
                            || is_named(segments, topic)) by {
                    assert(before.dom().contains(topic) <==> exists|i: int|
                        0 <= i < at && (#[trigger] names[i]).0@ == topic && (holders@[i] > 1
                            || is_named(segments, topic)));
                    if kept@.dom().contains(topic) && !before.dom().contains(topic) {
                        assert(names[at as int].0@ == topic);
                    }
                }
            }
            at = at + 1;
        }
        self.topic_names = kept;
    }

    /// Drop the names that no entry has any more and nothing else shares. A name that an
    /// entry has is kept; how long another is rests on who holds it outside of the index.
    pub fn forget_unused_topic_names(&mut self)
        requires
            old(self).segments.wf(),
            old(self).topic_names.wf(),
        ensures
            *final(self) == (PrefixIndex { topic_names: final(self).topic_names, ..*old(self) }),
            final(self).topic_names.wf(),
            exists|holders: Seq<usize>| #[trigger]
                keeps_names(
                    old(self).topic_names.entries@,
                    old(self).segments.entries@,
                    final(self).topic_names@.dom(),
                    holders,
                ),
            forall|topic: Seq<char>| #[trigger]
                final(self).topic_names@.dom().contains(topic) ==> old(
                    self,
                ).topic_names@.dom().contains(topic),
            forall|topic: Seq<char>| #[trigger]
                old(self).topic_names@.dom().contains(topic) && is_named(
                    old(self).segments.entries@,
                    topic,
                ) ==> final(self).topic_names@.dom().contains(topic),
    {
        let ghost names = self.topic_names.entries@;
        let mut holders: Vec<usize> = Vec::new();
        let mut at: usize = 0;
        while at < self.topic_names.entries.len()
            invariant
                *self == *old(self),
                at <= self.topic_names.entries@.len(),
                holders@.len() == at,
            decreases self.topic_names.entries@.len() - at,
        {
            holders.push(holders_of(&self.topic_names.entries[at].0));
            at = at + 1;
        }
        self.keep_held_names(&holders);
        proof {
            assert(keeps_names(
                names,
                old(self).segments.entries@,
                self.topic_names@.dom(),
                holders@,
            ));
            assert forall|topic: Seq<char>| #[trigger]
                self.topic_names@.dom().contains(topic) implies map_of(names).dom().contains(
                topic,
            ) by {
                let i = choose|i: int|
                    0 <= i < names.len() && (#[trigger] names[i]).0@ == topic && (holders@[i] > 1
                        || is_named(old(self).segments.entries@, topic));
                assert(has_key(names, topic));
            }
            assert forall|topic: Seq<char>| #[trigger]
                map_of(names).dom().contains(topic) && is_named(
                    old(self).segments.entries@,
                    topic,
                ) implies self.topic_names@.dom().contains(topic) by {
                let i = choose|i: int| 0 <= i < names.len() && (#[trigger] names[i]).0@ == topic;
                assert(names[i].0@ == topic);
            }
        }
    }

    /// Whether an entry of a segment has the name.
    fn names_topic(segments: &OrdMap<u64, CachedSegment>, name: &Arc<String>) -> (named: bool)
        ensures
            named == is_named(segments.entries@, name@),
    {
        let mut i: usize = 0;
        while i < segments.entries.len()
            invariant
                i <= segments.entries@.len(),
                !is_named(segments.entries@.take(i as int), name@),
            decreases segments.entries@.len() - i,
        {
            let entries = &segments.entries[i].1.footer.entries;
            let mut p: usize = 0;
            while p < entries.len()
                invariant
                    i < segments.entries@.len(),
                    *entries == segments.entries@[i as int].1.footer.entries,
                    p <= entries@.len(),
                    forall|q: int| 0 <= q < p ==> (#[trigger] entries@[q])@.topic != name@,
                decreases entries@.len() - p,
            {
                if *entries[p].topic == **name {
                    assert(segments.entries@[i as int].1.footer@.entries[p as int].topic == name@);
                    return true;
                }
                p = p + 1;
            }
            proof {
                let more = segments.entries@.take(i + 1);
                if is_named(more, name@) {
                    let (j, q) = choose|j: int, q: int|
                        0 <= j < more.len() && 0 <= q < more[j].1.footer@.entries.len() && (
                        #[trigger] more[j].1.footer@.entries[q]).topic == name@;
                    if j < i {
                        assert(segments.entries@.take(i as int)[j].1.footer@.entries[q].topic
                            == name@);
                    } else {
                        assert(entries@[q]@.topic == name@);
                    }
                }
            }
            i = i + 1;
        }
        assert(segments.entries@.take(i as int) =~= segments.entries@);
        false
    }

    /// Add, or replace, `seq`'s footer, keeping the map of sub-streams in step:
    /// the old contribution is withdrawn before the new one is added.
    ///
    /// Every footer enters the index here, so none holds coordinates that the
    /// fold would never read, nor a name in an allocation of its own.
    pub fn insert_segment(&mut self, seq: u64, cached: CachedSegment)
        requires
            old(self).wf(),
            cached.footer@.entries.len() <= u32::MAX,
        ensures
            final(self).wf(),
            final(self).contents() == old(self).contents().insert(
                seq,
                (Cached {
                    footer: pruned_footer(cached.footer@),
                    last_modified_ms: cached.last_modified_ms,
                }),
            ),
            final(self).opaque == old(self).opaque,
            final(self).refreshed_at == old(self).refreshed_at,
            final(self).reconciled_at == old(self).reconciled_at,
            final(self).generation == old(self).generation,
            forall|topic: Seq<char>| #[trigger]
                final(self).topic_names@.dom().contains(topic) <==> (old(
                    self,
                ).topic_names@.dom().contains(topic) || exists|p: int|
                    0 <= p < cached.footer@.entries.len() && (
                    #[trigger] cached.footer@.entries[p]).topic == topic),
    {
        let ghost given = cached.footer@;
        let ghost stamp = cached.last_modified_ms;
        let ghost held = self.segments.entries@;
        let ghost all = entries_by_seq(self.segments@);
        let ghost names = self.topic_names@.dom();
        let mut segment = cached;
        self.unindex_segment(seq);
        let mut i: usize = 0;
        while i < segment.footer.entries.len()
            invariant
                i <= segment.footer.entries@.len(),
                segment.footer@.entries.len() == given.entries.len(),
                segment.footer.writer_epoch == given.writer_epoch,
                segment.footer.nonce == given.nonce,
                segment.last_modified_ms == stamp,
                forall|p: int|
                    #![trigger segment.footer@.entries[p]]
                    0 <= p < i ==> segment.footer@.entries[p] == given.entries[p].pruned(),
                forall|p: int|
                    #![trigger segment.footer@.entries[p]]
                    i <= p < given.entries.len() ==> segment.footer@.entries[p] == given.entries[p],
                *self == (PrefixIndex {
                    by_substream: self.by_substream,
                    topic_names: self.topic_names,
                    ..*old(self)
                }),
                self.by_substream.wf(),
                tracks(self.by_substream@, all.remove(seq)),
                self.topic_names.wf(),
                forall|topic: Seq<char>| #[trigger]
                    self.topic_names@.dom().contains(topic) <==> (names.contains(topic) || exists|
                        p: int,
                    |
                        0 <= p < i && (#[trigger] given.entries[p]).topic == topic),
            decreases segment.footer.entries@.len() - i,
        {
            let ghost before = segment.footer@.entries;
            let ghost names_before = self.topic_names@.dom();
            let entry = &mut segment.footer.entries[i];
            entry.retain_foldable_producers();
            entry.topic = self.intern_topic(&entry.topic);
            proof {
                assert(before[i as int] == given.entries[i as int]);
                assert forall|p: int|
                    #![trigger segment.footer@.entries[p]]
                    0 <= p < given.entries.len() implies segment.footer@.entries[p] == if p == i {
                    given.entries[p].pruned()
                } else {
                    before[p]
                } by {}
                assert forall|topic: Seq<char>| #[trigger]
                    self.topic_names@.dom().contains(topic) <==> (names.contains(topic) || exists|
                        p: int,
                    |
                        0 <= p < i + 1 && (#[trigger] given.entries[p]).topic == topic) by {
                    if topic == given.entries[i as int].topic {
                        assert(given.entries[i as int].topic == topic);
                    }
                    assert(names_before.contains(topic) <==> (names.contains(topic) || exists|
                        p: int,
                    |
                        0 <= p < i && (#[trigger] given.entries[p]).topic == topic));
                }
            }
            i = i + 1;
        }
        let ghost fresh = segment.footer@.entries;
        assert(segment.footer@ =~= pruned_footer(given));
        let ghost named = self.topic_names;
        let mut n: usize = 0;
        proof {
            assert(fresh.take(0) =~= Seq::empty());
            lemma_track_empty(self.by_substream@, all, seq);
        }
        while n < segment.footer.entries.len()
            invariant
                n <= segment.footer.entries@.len() <= u32::MAX,
                fresh == segment.footer@.entries,
                self.topic_names == named,
                *self == (PrefixIndex {
                    by_substream: self.by_substream,
                    topic_names: self.topic_names,
                    ..*old(self)
                }),
                self.by_substream.wf(),
                tracks(self.by_substream@, all.insert(seq, fresh.take(n as int))),
            decreases segment.footer.entries@.len() - n,
        {
            let key = segment.footer.entries[n].key();
            let ghost known = all.insert(seq, fresh.take(n as int));
            let ghost before = self.by_substream@;
            add_position(&mut self.by_substream, key, (seq, n as u32));
            proof {
                lemma_track_add(before, self.by_substream@, known, seq, fresh[n as int]);
                assert(fresh.take(n as int).push(fresh[n as int]) =~= fresh.take(n + 1));
                assert(known.insert(seq, fresh.take(n + 1)) =~= all.insert(
                    seq,
                    fresh.take(n + 1),
                ));
            }
            n = n + 1;
        }
        assert(fresh.take(n as int) =~= fresh);
        let _ = self.segments.insert(seq, segment);
        proof {
            assert(entries_by_seq(self.segments@) =~= all.insert(seq, fresh));
            assert(self.contents() =~= old(self).contents().insert(
                seq,
                Cached { footer: pruned_footer(given), last_modified_ms: stamp },
            ));
            let now = self.segments.entries@;
            assert forall|k: int| 0 <= k < now.len() implies (
            #[trigger] now[k]).1.footer@.entries.len() <= u32::MAX by {
                lemma_at(now, k);
                if now[k].0 != seq {
                    let w = choose|w: int| 0 <= w < held.len() && (#[trigger] held[w]).0@ == now[k].0@;
                    lemma_at(held, w);
                }
            }
            assert forall|topic: Seq<char>| #[trigger] is_named(now, topic) implies self.topic_names@.dom().contains(
                topic,
            ) by {
                let (k, p) = choose|k: int, p: int|
                    0 <= k < now.len() && 0 <= p < now[k].1.footer@.entries.len() && (
                    #[trigger] now[k].1.footer@.entries[p]).topic == topic;
                lemma_at(now, k);
                if now[k].0 == seq {
                    assert(fresh[p].topic == topic);
                    assert(given.entries[p].topic == topic);
                } else {
                    let w = choose|w: int| 0 <= w < held.len() && (#[trigger] held[w]).0@ == now[k].0@;
                    lemma_at(held, w);
                    assert(held[w].1.footer@.entries[p].topic == topic);
                    assert(is_named(held, topic));
                }
            }
        }
    }

    /// Keep the segments that `live` admits, and say how many went. The map of
    /// sub-streams and the names follow them.
    pub fn retain_segments<F: Copy + Fn(u64) -> bool>(&mut self, live: F) -> (dropped: usize)
        requires
            old(self).wf(),
            forall|seq: u64| #[trigger] call_requires(live, (seq,)),
        ensures
            final(self).wf(),
            *final(self) == (PrefixIndex {
                segments: final(self).segments,
                by_substream: final(self).by_substream,
                topic_names: final(self).topic_names,
                ..*old(self)
            }),
            forall|seq: u64| #[trigger]
                final(self).segments@.dom().contains(seq) ==> old(self).segments@.dom().contains(
                    seq,
                ) && final(self).segments@[seq] == old(self).segments@[seq],
            forall|seq: u64| #[trigger]
                old(self).segments@.dom().contains(seq) ==> call_ensures(
                    live,
                    (seq,),
                    final(self).segments@.dom().contains(seq),
                ),
            dropped == old(self).segments.entries@.len() - final(self).segments.entries@.len(),
            dropped > 0 ==> exists|holders: Seq<usize>| #[trigger]
                keeps_names(
                    old(self).topic_names.entries@,
                    final(self).segments.entries@,
                    final(self).topic_names@.dom(),
                    holders,
                ),
            dropped == 0 ==> final(self).topic_names == old(self).topic_names,
    {
        let before: usize = self.segments.len();
        let ghost held = self.segments;
        let ghost all = entries_by_seq(self.segments@);
        let keep = |seq: &u64, _cached: &CachedSegment| -> (keeps: bool)
            requires
                call_requires(live, (*seq,)),
            ensures
                call_ensures(live, (*seq,), keeps),
            { live(*seq) };
        self.segments.retain(keep);
        proof {
            assert forall|seq: u64| #[trigger] held@.dom().contains(seq) implies call_ensures(
                live,
                (seq,),
                self.segments@.dom().contains(seq),
            ) by {
                let w = choose|w: int|
                    0 <= w < held.entries@.len() && (#[trigger] held.entries@[w]).0@ == seq;
                assert(call_ensures(
                    keep,
                    (&held.entries@[w].0, &held.entries@[w].1),
                    self.segments@.dom().contains(held.entries@[w].0@),
                ));
            }
        }
        let dropped: usize = before - self.segments.len();
        if dropped == 0 {
            assert(self.segments@ == held@);
            return 0;
        }
        self.reindex_kept(Ghost(all));
        self.forget_unused_topic_names();
        proof {
            let now = self.segments.entries@;
            assert forall|k: int| 0 <= k < now.len() implies (
            #[trigger] now[k]).1.footer@.entries.len() <= u32::MAX by {
                lemma_at(now, k);
                lemma_held_within(held.entries@, now, k);
            }
            assert forall|topic: Seq<char>| #[trigger] is_named(now, topic) implies self.topic_names@.dom().contains(
                topic,
            ) by {
                let (k, p) = choose|k: int, p: int|
                    0 <= k < now.len() && 0 <= p < now[k].1.footer@.entries.len() && (
                    #[trigger] now[k].1.footer@.entries[p]).topic == topic;
                lemma_at(now, k);
                let w = lemma_held_within(held.entries@, now, k);
                assert(held.entries@[w].1.footer@.entries[p].topic == topic);
                assert(is_named(held.entries@, topic));
            }
        }
        dropped
    }

    /// Withdraw the positions whose segment is not held any more.
    fn reindex_kept(&mut self, Ghost(all): Ghost<Map<u64, Seq<Entry>>>)
        requires
            old(self).segments.wf(),
            old(self).by_substream.wf(),
            tracks(old(self).by_substream@, all),
            forall|seq: u64| #[trigger]
                old(self).segments@.dom().contains(seq) ==> all.dom().contains(seq) && all[seq]
                    == old(self).segments@[seq].footer@.entries,
        ensures
            *final(self) == (PrefixIndex { by_substream: final(self).by_substream, ..*old(self) }),
            final(self).by_substream.wf(),
            tracks(final(self).by_substream@, entries_by_seq(old(self).segments@)),
    {
        let ghost by = self.by_substream;
        let mut at: usize = 0;
        while at < self.by_substream.entries.len()
            invariant
                self.segments == old(self).segments,
                *self == (PrefixIndex { by_substream: self.by_substream, ..*old(self) }),
                self.segments.wf(),
                self.by_substream.wf(),
                by.wf(),
                at <= self.by_substream.entries@.len() == by.entries@.len(),
                forall|i: int|
                    #![trigger self.by_substream.entries@[i]]
                    0 <= i < by.entries@.len() ==> self.by_substream.entries@[i].0
                        == by.entries@[i].0,
                forall|i: int|
                    #![trigger self.by_substream.entries@[i]]
                    0 <= i < at ==> self.by_substream.entries@[i].1@ == held_of(
                        by.entries@[i].1@,
                        self.segments@.dom(),
                    ),
                forall|i: int|
                    #![trigger self.by_substream.entries@[i]]
                    at <= i < by.entries@.len() ==> self.by_substream.entries@[i]
                        == by.entries@[i],
            decreases self.by_substream.entries@.len() - at,
        {
            let kept = Self::kept_positions(&self.by_substream.entries[at].1, &self.segments);
            let list = self.by_substream.value_mut(at);
            *list = kept;
            at = at + 1;
        }
        let ghost thinned = self.by_substream;
        let nonempty = |_key: &SubstreamKey, list: &Vec<(u64, u32)>| -> (some: bool)
            ensures
                some == (list@.len() > 0),
            { list.len() > 0 };
        self.by_substream.retain(nonempty);
        proof {
            let now = entries_by_seq(self.segments@);
            let live = self.segments@.dom();
            assert forall|key: (Identity, i32)| by@.dom().contains(key) implies #[trigger]
                thinned@.dom().contains(key) && thinned@[key]@ == held_of(by@[key]@, live) by {
                let w = choose|w: int|
                    0 <= w < by.entries@.len() && (#[trigger] by.entries@[w]).0@ == key;
                lemma_at(by.entries@, w);
                assert(thinned.entries@[w].0 == by.entries@[w].0);
                lemma_at(thinned.entries@, w);
            }
            assert forall|key: (Identity, i32)| #[trigger]
                self.by_substream@.dom().contains(key) <==> (by@.dom().contains(key) && held_of(
                    by@[key]@,
                    live,
                ).len() > 0) by {
                if thinned@.dom().contains(key) {
                    let w = choose|w: int|
                        0 <= w < thinned.entries@.len() && (#[trigger] thinned.entries@[w]).0@
                            == key;
                    lemma_at(thinned.entries@, w);
                    assert(thinned.entries@[w].0 == by.entries@[w].0);
                    lemma_at(by.entries@, w);
                    assert(call_ensures(
                        nonempty,
                        (&thinned.entries@[w].0, &thinned.entries@[w].1),
                        self.by_substream@.dom().contains(thinned.entries@[w].0@),
                    ));
                }
            }
            assert(now.dom() =~= live);
            lemma_track_thin(by@, self.by_substream@, all, now);
        }
    }

    /// The positions whose segment is held.
    fn kept_positions(
        list: &Vec<(u64, u32)>,
        segments: &OrdMap<u64, CachedSegment>,
    ) -> (kept: Vec<(u64, u32)>)
        requires
            segments.wf(),
        ensures
            kept@ == held_of(list@, segments@.dom()),
    {
        let mut kept: Vec<(u64, u32)> = Vec::new();
        let mut at: usize = 0;
        while at < list.len()
            invariant
                segments.wf(),
                at <= list@.len(),
                kept@ == held_of(list@.take(at as int), segments@.dom()),
            decreases list@.len() - at,
        {
            assert(list@.take(at + 1).drop_last() =~= list@.take(at as int));
            if segments.contains(&list[at].0) {
                kept.push(list[at]);
            }
            at = at + 1;
        }
        assert(list@.take(at as int) =~= list@);
        kept
    }

    /// The entries of a sub-stream's partition: the sequence and the epoch of the
    /// segment each is in, and the entry, in ascending order of their segments.
    pub fn substream_entries(&self, substream: &Substream, partition: i32) -> (found: Vec<
        (u64, i64, &SubstreamEntry),
    >)
        requires
            self.wf(),
        ensures
            candidates_view(found@) == candidates(
                self.segments.entries@,
                (substream@, partition),
            ),
    {
        let ghost key = (substream@, partition);
        let ghost segments = self.segments.entries@;
        let mut found: Vec<(u64, i64, &SubstreamEntry)> = Vec::new();
        proof {
            substream_map_is_derived(self, key);
        }
        let own = SubstreamKey { substream: substream.duplicate(), partition };
        if let Some(list) = self.by_substream.get(&own) {
            let mut at: usize = 0;
            while at < list.len()
                invariant
                    self.wf(),
                    segments == self.segments.entries@,
                    self.by_substream@.dom().contains(key),
                    *list == self.by_substream@[key],
                    at <= list@.len(),
                    found@.len() == at,
                    forall|i: int|
                        #![trigger found@[i]]
                        0 <= i < at ==> (Candidate {
                            seq: found@[i].0,
                            epoch: found@[i].1,
                            entry: found@[i].2@,
                        }) == candidate(segments, list@[i]),
                decreases list@.len() - at,
            {
                let (seq, position) = list[at];
                proof {
                    assert(self.by_substream@[key]@[at as int] == list@[at as int]);
                    assert(lies(entries_by_seq(self.segments@), list@[at as int], key));
                }
                let (slot, _held) = self.segments.find(&seq);
                let footer = &self.segments.entries[slot].1.footer;
                found.push((seq, footer.writer_epoch, &footer.entries[position as usize]));
                at = at + 1;
            }
            assert(candidates_view(found@) =~= candidates(segments, key));
        } else {
            assert(candidates_view(found@) =~= candidates(segments, key));
        }
        found
    }
}

/// Every entry that a prefix's index holds of a sub-stream's partition is found, with
/// the sequence and the epoch of its segment, and nothing else is: an entry is of the
/// sub-stream by its topic's id where its footer carries one, and by its name only
/// where it carries none.
pub proof fn every_entry_of_a_substream_is_found(
    segments: Seq<(u64, CachedSegment)>,
    key: (Identity, i32),
    found: Candidate,
)
    requires
        ascending(segments),
        forall|i: int|
            0 <= i < segments.len() ==> (#[trigger] segments[i]).1.footer@.entries.len()
                <= u32::MAX,
    ensures
        candidates(segments, key).contains(found) <==> exists|i: int, p: int| #[trigger]
            is_entry_at(segments, key, found, i, p),
{
    let list = positions(segments, key);
    let all = candidates(segments, key);
    lemma_positions(segments, key);
    if all.contains(found) {
        let k = choose|k: int| 0 <= k < all.len() && all[k] == found;
        let at = list[k];
        assert(list.contains(at));
        assert(lies(entries_by_seq(map_of(segments)), at, key));
        let i = choose|i: int| 0 <= i < segments.len() && (#[trigger] segments[i]).0@ == at.0;
        lemma_at(segments, i);
        assert(is_entry_at(segments, key, found, i, at.1 as int));
    }
    if exists|i: int, p: int| #[trigger] is_entry_at(segments, key, found, i, p) {
        let (i, p) = choose|i: int, p: int| #[trigger] is_entry_at(segments, key, found, i, p);
        let at = (segments[i].0, p as u32);
        assert(segments[i].1.footer@.entries.len() <= u32::MAX);
        lemma_at(segments, i);
        assert(lies(entries_by_seq(map_of(segments)), at, key));
        assert(list.contains(at));
        let k = choose|k: int| 0 <= k < list.len() && list[k] == at;
        assert(all[k] == found);
    }
}

/// Whether a candidate is the entry `p` of the segment `i`, of a sub-stream's partition.
pub open spec fn is_entry_at(
    segments: Seq<(u64, CachedSegment)>,
    key: (Identity, i32),
    found: Candidate,
    i: int,
    p: int,
) -> bool {
    &&& 0 <= i < segments.len()
    &&& 0 <= p < segments[i].1.footer@.entries.len()
    &&& found.seq == segments[i].0
    &&& found.epoch == segments[i].1.footer@.writer_epoch
    &&& found.entry == segments[i].1.footer@.entries[p]
    &&& found.entry.partition == key.1
    &&& match key.0 {
        Identity::Id(id) => found.entry.topic_id == Some(id),
        Identity::Name(name) => found.entry.topic_id is None && found.entry.topic == name,
    }
}

/// A footer comes into an index with all of its entries, in their order, each with the
/// place and the offsets that it had: only coordinates of producers are left out.
pub proof fn pruning_keeps_every_entry(footer: Footer, i: int)
    requires
        0 <= i < footer.entries.len(),
    ensures
        pruned_footer(footer).writer_epoch == footer.writer_epoch,
        pruned_footer(footer).nonce == footer.nonce,
        pruned_footer(footer).entries.len() == footer.entries.len(),
        pruned_footer(footer).entries[i] == (Entry {
            producers: pruned_footer(footer).entries[i].producers,
            ..footer.entries[i]
        }),
        pruned_footer(footer).entries[i].producers.len() <= footer.entries[i].producers.len(),
{
    crate::retain::retained_is_bounded(footer.entries[i].producers, 0);
}

/// A name is kept as long as an entry has it, or anyone else holds it; a name that nobody
/// else holds and no entry has is given up.
pub proof fn a_name_in_use_is_kept(
    names: Seq<(Arc<String>, ())>,
    segments: Seq<(u64, CachedSegment)>,
    kept: Set<Seq<char>>,
    holders: Seq<usize>,
    k: int,
)
    requires
        keeps_names(names, segments, kept, holders),
        0 <= k < names.len(),
        forall|i: int, j: int|
            #![trigger names[i], names[j]]
            0 <= i < j < names.len() ==> names[i].0@ != names[j].0@,
    ensures
        ({
            let used = exists|i: int, p: int|
                0 <= i < segments.len() && 0 <= p < segments[i].1.footer@.entries.len() && (
                #[trigger] segments[i].1.footer@.entries[p]).topic == names[k].0@;
            kept.contains(names[k].0@) <==> used || holders[k] > 1
        }),
        forall|topic: Seq<char>| #[trigger]
            kept.contains(topic) ==> exists|i: int|
                0 <= i < names.len() && (#[trigger] names[i]).0@ == topic,
{
    let topic = names[k].0@;
    if kept.contains(topic) {
        let i = choose|i: int|
            0 <= i < names.len() && (#[trigger] names[i]).0@ == topic && (holders[i] > 1
                || is_named(segments, topic));
        assert(i == k) by {
            if i < k {
                assert(names[i].0@ != names[k].0@);
            } else if k < i {
                assert(names[k].0@ != names[i].0@);
            }
        }
    }
}

} // verus!
