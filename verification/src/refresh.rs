//! How the index of a prefix is kept up to date.
//!
//! A fresh index is served as it is. Otherwise the tail is probed with reads of
//! the next segments, and where that proves nothing the prefix is listed.

use crate::clock::{fresh, is_fresh};
use crate::config::PREFIX_INDEX_RECONCILE_INTERVAL;
use crate::error::Error;
use crate::fence::{arranged, fence, fenced, fenced_view, FencedSegment};
use crate::index::{candidates, pruned_footer, Cached, CachedSegment, PrefixIndex};
use crate::ordmap::OrdMap;
use crate::prefixes::PrefixCaches;
use crate::segment::{Footer, Identity, SegmentFooter, Substream};
use crate::store::DynoStore;
use vstd::prelude::*;
use vstd::string::*;

verus! {

/// What an index says: the mathematical index.
#[verifier::ext_equal]
pub struct IndexState {
    pub segments: Map<u64, Cached>,
    pub opaque: Set<u64>,
    pub refreshed_at: Option<u64>,
    pub reconciled_at: Option<u64>,
    pub generation: u64,
}

impl PrefixIndex {
    pub open spec fn state(&self) -> IndexState {
        IndexState {
            segments: self.contents(),
            opaque: self.opaque@.dom(),
            refreshed_at: self.refreshed_at,
            reconciled_at: self.reconciled_at,
            generation: self.generation,
        }
    }
}

/// What the index of a prefix says that nothing is known of.
pub open spec fn blank() -> IndexState {
    IndexState {
        segments: Map::empty(),
        opaque: Set::empty(),
        refreshed_at: None,
        reconciled_at: None,
        generation: 0,
    }
}

impl IndexState {
    /// Whether a sequence is known to be taken.
    pub open spec fn resolves(self, seq: u64) -> bool {
        self.segments.dom().contains(seq) || self.opaque.contains(seq)
    }

    /// The state after a footer came in.
    pub open spec fn with_footer(self, seq: u64, footer: Footer, last_modified_ms: i64) -> IndexState {
        IndexState {
            segments: self.segments.insert(
                seq,
                Cached { footer: pruned_footer(footer), last_modified_ms },
            ),
            ..self
        }
    }
}

impl<R> PrefixCaches<R> {
    /// What the index of a prefix says.
    pub open spec fn state_of(&self, prefix: Seq<char>) -> IndexState {
        match self.index.at(prefix) {
            Some(index) => index.state(),
            None => blank(),
        }
    }

    /// Whether nothing but the index of a prefix differs.
    pub open spec fn differs_at(&self, other: Self, prefix: Seq<char>) -> bool {
        &&& *self == (PrefixCaches { index: self.index, ..other })
        &&& self.index.poisoned == other.index.poisoned
        &&& self.index.map@.remove(prefix) == other.index.map@.remove(prefix)
    }

    /// The index of a prefix, a blank one where there is none.
    pub fn index_entry(&mut self, prefix: &str) -> (index: &mut PrefixIndex)
        requires
            old(self).wf(),
            !old(self).index.poisoned,
        ensures
            index.wf(),
            index.state() == old(self).state_of(prefix@),
            old(self).index.map@.dom().contains(prefix@) ==> *index
                == old(self).index.map@[prefix@],
            final(self).differs_at(*old(self), prefix@),
            final(self).index.at(prefix@) == Some(*final(index)),
            final(index).wf() ==> final(self).wf(),
    {
        let key = String::from_str(prefix);
        if !self.index.map.contains(&key) {
            let blank = PrefixIndex::default();
            assert(blank.state() =~= crate::refresh::blank());
            let _ = self.index.map.insert(key.clone(), blank);
        }
        let ghost ready = self.index.map@;
        let (at, _held) = self.index.map.find(&key);
        proof {
            assert forall|value: PrefixIndex|
                #[trigger] ready.insert(prefix@, value).remove(prefix@) == old(
                    self,
                ).index.map@.remove(prefix@) by {
                assert(ready.insert(prefix@, value).remove(prefix@) =~= old(
                    self,
                ).index.map@.remove(prefix@));
            }
        }
        self.index.map.value_mut(at)
    }
}

/// What is known of an index before it is decided what to list.
#[derive(Clone, Copy, Debug, PartialEq, Eq, Structural)]
pub struct IndexFreshness {
    /// Whether it was brought up to date within its time.
    pub fresh: bool,
    /// The highest sequence that is known to be taken.
    pub cursor: Option<u64>,
    /// Whether the whole prefix is to be listed again.
    pub reconcile_due: bool,
}

/// Whether `max` is the highest sequence that is known to be taken.
pub open spec fn is_cursor(state: IndexState, max: Option<u64>) -> bool {
    match max {
        Some(max) => state.resolves(max) && forall|seq: u64| #[trigger]
            state.resolves(seq) ==> seq <= max,
        None => forall|seq: u64| !#[trigger] state.resolves(seq),
    }
}

/// How many segments a prefix holds, as a listing is entitled to say: one that
/// started behind a cursor saw too little.
pub fn listed_population(discovered: usize, whole_prefix: bool) -> (population: Option<u64>)
    ensures
        population == if whole_prefix {
            Some(discovered as u64)
        } else {
            None
        },
{
    if whole_prefix {
        Some(discovered as u64)
    } else {
        None
    }
}

impl DynoStore {
    /// Whether nothing but the index of a prefix differs.
    pub open spec fn differs_at(&self, other: Self, prefix: Seq<char>) -> bool {
        &&& *self == (DynoStore { prefixes: self.prefixes, ..other })
        &&& self.prefixes.differs_at(other.prefixes, prefix)
    }

    /// What is known of the index of a prefix.
    pub fn prefix_index_freshness(&self, prefix: &str, now: u64) -> (freshness: Result<
        IndexFreshness,
        Error,
    >)
        requires
            self.wf(),
        ensures
            match freshness {
                Ok(freshness) => {
                    let state = self.prefixes.state_of(prefix@);
                    &&& !self.prefixes.index.poisoned
                    &&& freshness.fresh == fresh(
                        state.refreshed_at,
                        now,
                        self.tuning.watermark_hint_ttl,
                    )
                    &&& is_cursor(state, freshness.cursor)
                    &&& freshness.reconcile_due == ((exists|seq: u64| #[trigger] state.resolves(seq))
                        && !fresh(state.reconciled_at, now, PREFIX_INDEX_RECONCILE_INTERVAL))
                },
                Err(error) => self.prefixes.index.poisoned && error == Error::Poison,
            },
    {
        if self.prefixes.index.poisoned {
            return Err(Error::Poison);
        }
        match self.prefixes.index.map.get(&String::from_str(prefix)) {
            Some(entry) => {
                let ghost state = self.prefixes.state_of(prefix@);
                let cursor = entry.resolved_max();
                proof {
                    assert forall|seq: u64| #[trigger] state.resolves(seq) <==> entry.resolves(seq) by {}
                    assert forall|seq: u64| #[trigger] entry.resolves(seq) <==> state.resolves(seq) by {}
                    if let Some(max) = cursor {
                        assert(entry.resolves(max));
                        assert(state.resolves(max));
                    }
                }
                Ok(
                    IndexFreshness {
                        fresh: is_fresh(entry.refreshed_at, now, self.tuning.watermark_hint_ttl),
                        cursor,
                        reconcile_due: cursor.is_some() && !is_fresh(
                            entry.reconciled_at,
                            now,
                            PREFIX_INDEX_RECONCILE_INTERVAL,
                        ),
                    },
                )
            },
            None => Ok(IndexFreshness { fresh: false, cursor: None, reconcile_due: false }),
        }
    }

    /// Record a segment that was just written, or read as a whole, with the time
    /// it counts as appended.
    pub fn index_insert(
        &mut self,
        prefix: &str,
        seq: u64,
        footer: SegmentFooter,
        last_modified_ms: i64,
        now: u64,
    ) -> (done: Result<(), Error>)
        requires
            old(self).wf(),
            footer@.entries.len() <= u32::MAX,
        ensures
            final(self).wf(),
            final(self).differs_at(*old(self), prefix@),
            old(self).prefixes.index.answers(done, ()),
            final(self).prefixes.state_of(prefix@) == if old(self).prefixes.index.poisoned {
                old(self).prefixes.state_of(prefix@)
            } else {
                (IndexState {
                    refreshed_at: Some(now),
                    ..old(self).prefixes.state_of(prefix@).with_footer(
                        seq,
                        footer@,
                        last_modified_ms,
                    )
                })
            },
    {
        if self.prefixes.index.poisoned {
            return Err(Error::Poison);
        }
        let entry = self.prefixes.index_entry(prefix);
        entry.insert_segment(seq, CachedSegment { footer, last_modified_ms });
        entry.refreshed_at = Some(now);
        Ok(())
    }

    /// When the index of a prefix was last brought up to date.
    pub fn prefix_index_refreshed_at(&self, prefix: &str) -> (at: Option<u64>)
        requires
            self.wf(),
        ensures
            at == if self.prefixes.index.poisoned {
                None
            } else {
                self.prefixes.state_of(prefix@).refreshed_at
            },
    {
        if self.prefixes.index.poisoned {
            return None;
        }
        match self.prefixes.index.map.get(&String::from_str(prefix)) {
            Some(entry) => entry.refreshed_at,
            None => None,
        }
    }

    /// Make the next refresh of an index list the whole prefix: a read found an
    /// object gone that the index names.
    pub fn index_invalidate(&mut self, prefix: &str) -> (done: Result<(), Error>)
        requires
            old(self).wf(),
        ensures
            final(self).wf(),
            final(self).differs_at(*old(self), prefix@),
            old(self).prefixes.index.answers(done, ()),
            final(self).prefixes.state_of(prefix@) == if old(self).prefixes.index.poisoned {
                old(self).prefixes.state_of(prefix@)
            } else {
                (IndexState {
                    refreshed_at: None,
                    reconciled_at: None,
                    ..old(self).prefixes.state_of(prefix@)
                })
            },
            final(self).prefixes.index.map@.dom() == old(self).prefixes.index.map@.dom(),
    {
        if self.prefixes.index.poisoned {
            return Err(Error::Poison);
        }
        let key = String::from_str(prefix);
        if self.prefixes.index.map.contains(&key) {
            let entry = self.prefixes.index_entry(prefix);
            entry.refreshed_at = None;
            entry.reconciled_at = None;
        }
        proof {
            lemma_same_domain(self.prefixes.index.map@, old(self).prefixes.index.map@, prefix@);
        }
        Ok(())
    }

    /// Drop segments that were deleted from an index.
    pub fn index_prune(&mut self, prefix: &str, seqs: &[u64]) -> (done: Result<(), Error>)
        requires
            old(self).wf(),
        ensures
            final(self).wf(),
            final(self).differs_at(*old(self), prefix@),
            old(self).prefixes.index.answers(done, ()),
            final(self).prefixes.state_of(prefix@) == if old(self).prefixes.index.poisoned
                || !old(self).prefixes.index.map@.dom().contains(prefix@) {
                old(self).prefixes.state_of(prefix@)
            } else {
                (IndexState {
                    segments: old(self).prefixes.state_of(prefix@).segments.remove_keys(
                        seqs@.to_set(),
                    ),
                    generation: old(self).prefixes.state_of(prefix@).generation.wrapping_add(1),
                    ..old(self).prefixes.state_of(prefix@)
                })
            },
            final(self).prefixes.index.map@.dom() == old(self).prefixes.index.map@.dom(),
    {
        if self.prefixes.index.poisoned {
            return Err(Error::Poison);
        }
        let key = String::from_str(prefix);
        if self.prefixes.index.map.contains(&key) {
            let pruned = set_of(seqs);
            let gone = &pruned;
            let live = |seq: u64| -> (live: bool)
                ensures
                    live == !gone@.dom().contains(seq),
                { !gone.contains(&seq) };
            let entry = self.prefixes.index_entry(prefix);
            let ghost before = *entry;
            let _ = entry.retain_segments(live);
            proof {
                assert forall|seq: u64| #[trigger] before.segments@.dom().contains(seq) implies (
                entry.segments@.dom().contains(seq) <==> !seqs@.to_set().contains(seq)) by {
                    assert(call_ensures(live, (seq,), entry.segments@.dom().contains(seq)));
                }
                assert(entry.contents() =~= before.contents().remove_keys(seqs@.to_set()));
            }
            entry.generation = entry.generation.wrapping_add(1);
        }
        proof {
            lemma_same_domain(self.prefixes.index.map@, old(self).prefixes.index.map@, prefix@);
        }
        Ok(())
    }

    /// The entries of a sub-stream's partition that its prefix's index holds.
    pub open spec fn candidates_of(&self, prefix: Seq<char>, key: (Identity, i32)) -> Seq<
        crate::index::Candidate,
    > {
        match self.prefixes.index.at(prefix) {
            Some(index) => candidates(index.segments.entries@, key),
            None => Seq::empty(),
        }
    }

    /// Whether the offsets of every entry of a sub-stream's partition are offsets.
    pub open spec fn offsets_in_range(&self, prefix: Seq<char>, key: (Identity, i32)) -> bool {
        forall|i: int|
            #![trigger self.candidates_of(prefix, key)[i]]
            0 <= i < self.candidates_of(prefix, key).len() ==> self.candidates_of(
                prefix,
                key,
            )[i].entry.in_range()
    }

    /// Whether the offsets of every entry of a sub-stream's partition are offsets.
    pub fn are_offsets_in_range(&self, prefix: &str, substream: &Substream, partition: i32) -> (ok:
        bool)
        requires
            self.wf(),
        ensures
            ok == self.offsets_in_range(prefix@, (substream@, partition)),
    {
        let ghost key = (substream@, partition);
        match self.prefixes.index.map.get(&String::from_str(prefix)) {
            Some(index) => {
                let found = index.substream_entries(substream, partition);
                let ghost all = self.candidates_of(prefix@, key);
                let mut at: usize = 0;
                while at < found.len()
                    invariant
                        at <= found@.len(),
                        key == (substream@, partition),
                        all == self.candidates_of(prefix@, key),
                        all == crate::index::candidates_view(found@),
                        forall|i: int|
                            #![trigger all[i]]
                            0 <= i < at ==> all[i].entry.in_range(),
                    decreases found@.len() - at,
                {
                    assert(all[at as int].entry == found@[at as int].2@);
                    if !found[at].2.is_in_range() {
                        assert(!self.candidates_of(prefix@, key)[at as int].entry.in_range());
                        return false;
                    }
                    at = at + 1;
                }
                true
            },
            None => true,
        }
    }

    /// The segments that serve a sub-stream's partition, in ascending order of the
    /// offsets that they serve. Where several hold an offset, the one of the highest
    /// epoch serves it, and the others only what no such one holds.
    pub fn valid_substream_segments(
        &self,
        prefix: &str,
        substream: &Substream,
        partition: i32,
    ) -> (served: Result<Vec<FencedSegment>, Error>)
        requires
            self.wf(),
            self.offsets_in_range(prefix@, (substream@, partition)),
        ensures
            match served {
                Ok(served) => !self.prefixes.index.poisoned && fenced_view(served@) == fenced(
                    arranged(self.candidates_of(prefix@, (substream@, partition))),
                ) && forall|i: int|
                    0 <= i < served@.len() ==> (#[trigger] served@[i])@.entry.in_range()
                        && served@[i]@.lies_within(),
                Err(error) => self.prefixes.index.poisoned && error == Error::Poison,
            },
    {
        if self.prefixes.index.poisoned {
            return Err(Error::Poison);
        }
        let ghost key = (substream@, partition);
        match self.prefixes.index.map.get(&String::from_str(prefix)) {
            Some(index) => {
                let found = index.substream_entries(substream, partition);
                proof {
                    let all = self.candidates_of(prefix@, key);
                    assert forall|i: int| 0 <= i < found@.len() implies (
                    #[trigger] found@[i]).2@.in_range() by {
                        assert(all[i].entry == found@[i].2@);
                    }
                }
                Ok(fence(found))
            },
            None => {
                let served: Vec<FencedSegment> = Vec::new();
                assert(fenced_view(served@) =~= fenced(arranged(self.candidates_of(prefix@, key))));
                Ok(served)
            },
        }
    }
}

proof fn lemma_same_domain<V>(a: Map<Seq<char>, V>, b: Map<Seq<char>, V>, key: Seq<char>)
    requires
        a.remove(key) == b.remove(key),
        a.dom().contains(key) == b.dom().contains(key),
    ensures
        a.dom() == b.dom(),
{
    assert forall|other: Seq<char>| #[trigger] a.dom().contains(other) <==> b.dom().contains(
        other,
    ) by {
        if other != key {
            assert(a.remove(key).dom() == a.dom().remove(key));
            assert(b.remove(key).dom() == b.dom().remove(key));
            assert(a.dom().remove(key).contains(other) == a.dom().contains(other));
            assert(b.dom().remove(key).contains(other) == b.dom().contains(other));
        }
    }
    assert(a.dom() =~= b.dom());
}

/// The set of the sequences listed.
fn set_of(seqs: &[u64]) -> (set: OrdMap<u64, ()>)
    ensures
        set.wf(),
        set@.dom() == seqs@.to_set(),
{
    let mut set: OrdMap<u64, ()> = OrdMap::new();
    let mut at: usize = 0;
    let _len: usize = seqs.len();
    while at < seqs.len()
        invariant
            at <= seqs@.len(),
            set.wf(),
            forall|seq: u64| #[trigger]
                set@.dom().contains(seq) <==> exists|i: int| 0 <= i < at && seqs@[i] == seq,
        decreases seqs@.len() - at,
    {
        let ghost before = set@.dom();
        let _ = set.insert(seqs[at], ());
        proof {
            assert forall|seq: u64| #[trigger] set@.dom().contains(seq) <==> exists|i: int|
                0 <= i < at + 1 && seqs@[i] == seq by {
                assert(before.contains(seq) <==> exists|i: int| 0 <= i < at && seqs@[i] == seq);
                if seq == seqs@[at as int] {
                    assert(seqs@[at as int] == seq);
                }
            }
        }
        at = at + 1;
    }
    assert(set@.dom() =~= seqs@.to_set());
    set
}

/// What is done to the index of one prefix leaves all else that a store holds: the index
/// of every other prefix, the other caches of the prefixes, who the store is and how it
/// is tuned.
pub proof fn other_prefixes_are_left_alone(
    store: DynoStore,
    before: DynoStore,
    prefix: Seq<char>,
    other: Seq<char>,
)
    requires
        store.differs_at(before, prefix),
        other != prefix,
    ensures
        store.prefixes.index.at(other) == before.prefixes.index.at(other),
        store.prefixes.state_of(other) == before.prefixes.state_of(other),
        store.prefixes.index.poisoned == before.prefixes.index.poisoned,
        store.prefixes.segment_seqs == before.prefixes.segment_seqs,
        store.prefixes.quarantined == before.prefixes.quarantined,
        store.prefixes.seams == before.prefixes.seams,
        store.prefixes.leases == before.prefixes.leases,
        store.prefixes.era_epochs == before.prefixes.era_epochs,
        store.tuning == before.tuning,
        store.identity == before.identity,
{
    let now = store.prefixes.index.map@;
    let was = before.prefixes.index.map@;
    assert(now.remove(prefix).dom().contains(other) == now.dom().contains(other));
    assert(was.remove(prefix).dom().contains(other) == was.dom().contains(other));
    if now.dom().contains(other) {
        assert(now.remove(prefix)[other] == now[other]);
        assert(was.remove(prefix)[other] == was[other]);
    }
}

} // verus!
