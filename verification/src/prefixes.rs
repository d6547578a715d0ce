//! The caches of what is known of prefixes, and the handles kept for clients.

use crate::error::Error;
use crate::index::PrefixIndex;
use crate::locked::LockedMap;
use crate::opticon::{OptiCon, UpdateVersion};
use crate::ordmap::{Key, OrdMap};
use crate::path::{path_from, path_of};
use crate::sweep::count_of;
use crate::text::{
    lemma_text_irreflexive, lemma_text_total, lemma_text_transitive, push_signed, signed_decimal,
    text_before,
};
use vstd::prelude::*;
use vstd::string::*;

verus! {

/// The name of a segment: its prefix and its sequence.
#[derive(Debug)]
pub struct SegmentName {
    pub prefix: String,
    pub seq: u64,
}

impl View for SegmentName {
    type V = (Seq<char>, u64);

    open spec fn view(&self) -> (Seq<char>, u64) {
        (self.prefix@, self.seq)
    }
}

/// The next sequence of a prefix after one was told.
pub open spec fn next_seq(held: Option<u64>, next: u64) -> u64 {
    match held {
        Some(held) => if held >= next {
            held
        } else {
            next
        },
        None => next,
    }
}

/// The epoch of a prefix after one was told.
pub open spec fn next_era(held: Option<i64>, era: i64) -> i64 {
    match held {
        Some(held) => if held >= era {
            held
        } else {
            era
        },
        None => if 0 >= era {
            0
        } else {
            era
        },
    }
}

/// The order of segment names: by prefix, then by sequence.
pub open spec fn name_before(a: (Seq<char>, u64), b: (Seq<char>, u64)) -> bool {
    text_before(a.0, b.0) || (a.0 == b.0 && a.1 < b.1)
}

impl Key for SegmentName {
    open spec fn before(a: (Seq<char>, u64), b: (Seq<char>, u64)) -> bool {
        name_before(a, b)
    }

    proof fn before_irreflexive(a: (Seq<char>, u64)) {
        assert(Self::before(a, a) == name_before(a, a));
        lemma_text_irreflexive(a.0);
    }

    proof fn before_transitive(a: (Seq<char>, u64), b: (Seq<char>, u64), c: (Seq<char>, u64)) {
        assert(Self::before(a, b) == name_before(a, b));
        assert(Self::before(b, c) == name_before(b, c));
        assert(Self::before(a, c) == name_before(a, c));
        if text_before(a.0, b.0) && text_before(b.0, c.0) {
            lemma_text_transitive(a.0, b.0, c.0);
        }
    }

    proof fn before_total(a: (Seq<char>, u64), b: (Seq<char>, u64)) {
        assert(Self::before(a, b) == name_before(a, b));
        assert(Self::before(b, a) == name_before(b, a));
        lemma_text_total(a.0, b.0);
    }

    fn less(&self, other: &Self) -> (less: bool) {
        assert(Self::before(self@, other@) == name_before(self@, other@));
        self.prefix.less(&other.prefix) || (self.prefix.same(&other.prefix) && self.seq < other.seq)
    }

    fn same(&self, other: &Self) -> (same: bool) {
        self.prefix.same(&other.prefix) && self.seq == other.seq
    }

    fn duplicate(&self) -> (copy: Self) {
        SegmentName { prefix: self.prefix.clone(), seq: self.seq }
    }
}

/// Which byte ranges of a segment were read lately. It holds no data: it is to
/// tell whether a cache would have helped.
#[derive(Debug)]
pub struct SegmentReadTrace {
    /// Start and length of each range.
    pub ranges: Vec<(u64, u64)>,
    pub last_read: u64,
}

/// A term of a prefix lease that this process holds.
#[derive(Debug)]
pub struct HeldLease {
    pub epoch: i64,
    /// When the term ends.
    pub expires_at: u64,
    pub version: Option<UpdateVersion>,
}

impl HeldLease {
    /// Whether another holds the same.
    pub open spec fn is_same(self, other: HeldLease) -> bool {
        self.epoch == other.epoch && self.expires_at == other.expires_at && match (
            self.version,
            other.version,
        ) {
            (Some(a), Some(b)) => a@ == b@,
            (None, None) => true,
            _ => false,
        }
    }

    pub fn duplicate(&self) -> (copy: Self)
        ensures
            copy.is_same(*self),
    {
        HeldLease {
            epoch: self.epoch,
            expires_at: self.expires_at,
            version: match &self.version {
                Some(version) => Some(version.duplicate()),
                None => None,
            },
        }
    }
}

/// The caches. `R` is the marker of a retired prefix.
#[derive(Debug)]
pub struct PrefixCaches<R> {
    pub index: LockedMap<String, PrefixIndex>,
    /// The next sequence of each prefix.
    pub segment_seqs: LockedMap<String, u64>,
    /// How old the oldest segment of each prefix was when it was last scanned.
    pub oldest_retained: LockedMap<String, i64>,
    /// The markers of retired prefixes, each with the tag it was read at.
    pub retired: LockedMap<String, (Option<String>, R)>,
    /// Segments that were found undecodable.
    pub quarantined: LockedMap<String, OrdMap<u64, ()>>,
    /// Sequences that a run of a merge is not extended across.
    pub seams: LockedMap<String, OrdMap<u64, ()>>,
    pub leases: LockedMap<String, HeldLease>,
    /// The epoch that each prefix's segments are stamped with.
    pub era_epochs: LockedMap<String, i64>,
    pub served_end_reconciled: LockedMap<String, ()>,
    pub segment_reads: LockedMap<SegmentName, SegmentReadTrace>,
}

impl<R> PrefixCaches<R> {
    pub open spec fn wf(&self) -> bool {
        &&& self.index.wf()
        &&& self.segment_seqs.wf()
        &&& self.oldest_retained.wf()
        &&& self.retired.wf()
        &&& self.quarantined.wf()
        &&& self.seams.wf()
        &&& self.leases.wf()
        &&& self.era_epochs.wf()
        &&& self.served_end_reconciled.wf()
        &&& self.segment_reads.wf()
        &&& forall|prefix: Seq<char>| #[trigger]
            self.index.map@.dom().contains(prefix) ==> self.index.map@[prefix].wf()
        &&& forall|prefix: Seq<char>| #[trigger]
            self.quarantined.map@.dom().contains(prefix) ==> self.quarantined.map@[prefix].wf()
        &&& forall|prefix: Seq<char>| #[trigger]
            self.seams.map@.dom().contains(prefix) ==> self.seams.map@[prefix].wf()
    }

    /// Caches that hold nothing.
    pub fn new() -> (caches: Self)
        ensures
            caches.wf(),
            caches.knows_nothing(),
            caches.unpoisoned(),
    {
        PrefixCaches {
            index: LockedMap::new(),
            segment_seqs: LockedMap::new(),
            oldest_retained: LockedMap::new(),
            retired: LockedMap::new(),
            quarantined: LockedMap::new(),
            seams: LockedMap::new(),
            leases: LockedMap::new(),
            era_epochs: LockedMap::new(),
            served_end_reconciled: LockedMap::new(),
            segment_reads: LockedMap::new(),
        }
    }

    /// Whether nothing is held of any prefix.
    pub open spec fn knows_nothing(self) -> bool {
        &&& self.index.map@ == Map::<Seq<char>, PrefixIndex>::empty()
        &&& self.segment_seqs.map@ == Map::<Seq<char>, u64>::empty()
        &&& self.oldest_retained.map@ == Map::<Seq<char>, i64>::empty()
        &&& self.retired.map@ == Map::<Seq<char>, (Option<String>, R)>::empty()
        &&& self.quarantined.map@ == Map::<Seq<char>, OrdMap<u64, ()>>::empty()
        &&& self.seams.map@ == Map::<Seq<char>, OrdMap<u64, ()>>::empty()
        &&& self.leases.map@ == Map::<Seq<char>, HeldLease>::empty()
        &&& self.era_epochs.map@ == Map::<Seq<char>, i64>::empty()
        &&& self.served_end_reconciled.map@ == Map::<Seq<char>, ()>::empty()
        &&& self.segment_reads.map@ == Map::<(Seq<char>, u64), SegmentReadTrace>::empty()
    }

    /// Whether no lock is poisoned.
    pub open spec fn unpoisoned(self) -> bool {
        &&& !self.index.poisoned
        &&& !self.segment_seqs.poisoned
        &&& !self.oldest_retained.poisoned
        &&& !self.retired.poisoned
        &&& !self.quarantined.poisoned
        &&& !self.seams.poisoned
        &&& !self.leases.poisoned
        &&& !self.era_epochs.poisoned
        &&& !self.served_end_reconciled.poisoned
        &&& !self.segment_reads.poisoned
    }

    /// The footer index of each prefix, under its lock.
    pub fn index(&mut self) -> (guard: Result<&mut OrdMap<String, PrefixIndex>, Error>)
        ensures
            *final(self) == (PrefixCaches { index: final(self).index, ..*old(self) }),
            final(self).index.poisoned == old(self).index.poisoned,
            match guard {
                Ok(guard) => !old(self).index.poisoned && *guard == old(self).index.map
                    && final(self).index.map == *final(guard),
                Err(error) => old(self).index.poisoned && error == Error::Poison && *final(self)
                    == *old(self),
            },
    {
        self.index.guard()
    }

    /// The footer index of each prefix, unless its lock is poisoned.
    pub fn try_index(&mut self) -> (guard: Option<&mut OrdMap<String, PrefixIndex>>)
        ensures
            *final(self) == (PrefixCaches { index: final(self).index, ..*old(self) }),
            final(self).index.poisoned == old(self).index.poisoned,
            match guard {
                Some(guard) => !old(self).index.poisoned && *guard == old(self).index.map
                    && final(self).index.map == *final(guard),
                None => old(self).index.poisoned && *final(self) == *old(self),
            },
    {
        self.index.try_guard()
    }

    /// The quarantined segments of each prefix, under its lock.
    pub fn quarantined(&mut self) -> (guard: Result<&mut OrdMap<String, OrdMap<u64, ()>>, Error>)
        ensures
            *final(self) == (PrefixCaches { quarantined: final(self).quarantined, ..*old(self) }),
            final(self).quarantined.poisoned == old(self).quarantined.poisoned,
            match guard {
                Ok(guard) => !old(self).quarantined.poisoned && *guard == old(self).quarantined.map
                    && final(self).quarantined.map == *final(guard),
                Err(error) => old(self).quarantined.poisoned && error == Error::Poison && *final(self)
                    == *old(self),
            },
    {
        self.quarantined.guard()
    }

    /// The seams of each prefix, under its lock.
    pub fn seams(&mut self) -> (guard: Result<&mut OrdMap<String, OrdMap<u64, ()>>, Error>)
        ensures
            *final(self) == (PrefixCaches { seams: final(self).seams, ..*old(self) }),
            final(self).seams.poisoned == old(self).seams.poisoned,
            match guard {
                Ok(guard) => !old(self).seams.poisoned && *guard == old(self).seams.map
                    && final(self).seams.map == *final(guard),
                Err(error) => old(self).seams.poisoned && error == Error::Poison && *final(self)
                    == *old(self),
            },
    {
        self.seams.guard()
    }

    /// The retired prefixes, under its lock.
    pub fn retired(&mut self) -> (guard: Result<&mut OrdMap<String, (Option<String>, R)>, Error>)
        ensures
            *final(self) == (PrefixCaches { retired: final(self).retired, ..*old(self) }),
            final(self).retired.poisoned == old(self).retired.poisoned,
            match guard {
                Ok(guard) => !old(self).retired.poisoned && *guard == old(self).retired.map
                    && final(self).retired.map == *final(guard),
                Err(error) => old(self).retired.poisoned && error == Error::Poison && *final(self)
                    == *old(self),
            },
    {
        self.retired.guard()
    }

    /// The traces of segment reads, unless its lock is poisoned.
    pub fn traces(&mut self) -> (guard: Option<&mut OrdMap<SegmentName, SegmentReadTrace>>)
        ensures
            *final(self) == (PrefixCaches { segment_reads: final(self).segment_reads, ..*old(self) }),
            final(self).segment_reads.poisoned == old(self).segment_reads.poisoned,
            match guard {
                Some(guard) => !old(self).segment_reads.poisoned && *guard == old(self).segment_reads.map
                    && final(self).segment_reads.map == *final(guard),
                None => old(self).segment_reads.poisoned && *final(self) == *old(self),
            },
    {
        self.segment_reads.try_guard()
    }

    /// The lease term that this process holds of a prefix.
    pub fn held_lease(&self, prefix: &str) -> (held: Result<Option<HeldLease>, Error>)
        requires
            self.wf(),
        ensures
            match held {
                Ok(Some(held)) => !self.leases.poisoned && self.leases.map@.dom().contains(prefix@)
                    && held.is_same(self.leases.map@[prefix@]),
                Ok(None) => !self.leases.poisoned && !self.leases.map@.dom().contains(prefix@),
                Err(error) => self.leases.poisoned && error == Error::Poison,
            },
    {
        if self.leases.poisoned {
            return Err(Error::Poison);
        }
        match self.leases.map.get(&String::from_str(prefix)) {
            Some(held) => Ok(Some(held.duplicate())),
            None => Ok(None),
        }
    }

    /// Record a lease term that was acquired or renewed.
    pub fn hold_lease(&mut self, prefix: &str, held: HeldLease)
        requires
            old(self).wf(),
        ensures
            final(self).wf(),
            *final(self) == (PrefixCaches { leases: final(self).leases, ..*old(self) }),
            final(self).leases.poisoned == old(self).leases.poisoned,
            final(self).leases.map@ == if old(self).leases.poisoned {
                old(self).leases.map@
            } else {
                old(self).leases.map@.insert(prefix@, held)
            },
    {
        if !self.leases.poisoned {
            let _ = self.leases.map.insert(String::from_str(prefix), held);
        }
    }

    /// Forget a lease term that this process was fenced out of.
    pub fn drop_lease(&mut self, prefix: &str)
        requires
            old(self).wf(),
        ensures
            final(self).wf(),
            *final(self) == (PrefixCaches { leases: final(self).leases, ..*old(self) }),
            final(self).leases.poisoned == old(self).leases.poisoned,
            final(self).leases.map@ == if old(self).leases.poisoned {
                old(self).leases.map@
            } else {
                old(self).leases.map@.remove(prefix@)
            },
    {
        if !self.leases.poisoned {
            let _ = self.leases.map.remove(&String::from_str(prefix));
        }
    }

    /// The seams of a prefix, copied.
    pub fn seams_of(&self, prefix: &str) -> (held: Result<OrdMap<u64, ()>, Error>)
        requires
            self.wf(),
        ensures
            match held {
                Ok(held) => !self.seams.poisoned && held.wf() && held@.dom()
                    == match self.seams.at(prefix@) {
                    Some(held) => held@.dom(),
                    None => Set::empty(),
                },
                Err(error) => self.seams.poisoned && error == Error::Poison,
            },
    {
        if self.seams.poisoned {
            return Err(Error::Poison);
        }
        match self.seams.map.get(&String::from_str(prefix)) {
            Some(held) => Ok(copy_set(held)),
            None => Ok(OrdMap::new()),
        }
    }

    /// The quarantined segments of a prefix, copied.
    pub fn quarantined_of(&self, prefix: &str) -> (held: Result<OrdMap<u64, ()>, Error>)
        requires
            self.wf(),
        ensures
            match held {
                Ok(held) => !self.quarantined.poisoned && held.wf() && held@.dom()
                    == match self.quarantined.at(prefix@) {
                    Some(held) => held@.dom(),
                    None => Set::empty(),
                },
                Err(error) => self.quarantined.poisoned && error == Error::Poison,
            },
    {
        if self.quarantined.poisoned {
            return Err(Error::Poison);
        }
        match self.quarantined.map.get(&String::from_str(prefix)) {
            Some(held) => Ok(copy_set(held)),
            None => Ok(OrdMap::new()),
        }
    }

    /// The next sequence of a prefix, if it is known here.
    pub fn seq(&self, prefix: &str) -> (held: Result<Option<u64>, Error>)
        requires
            self.wf(),
        ensures
            self.segment_seqs.answers(held, self.segment_seqs.at(prefix@)),
    {
        if self.segment_seqs.poisoned {
            return Err(Error::Poison);
        }
        match self.segment_seqs.map.get(&String::from_str(prefix)) {
            Some(held) => Ok(Some(*held)),
            None => Ok(None),
        }
    }

    /// Advance the next sequence of a prefix. It never goes back: a sequence is not
    /// used twice.
    pub fn set_seq(&mut self, prefix: &str, next: u64) -> (done: Result<(), Error>)
        requires
            old(self).wf(),
        ensures
            final(self).wf(),
            *final(self) == (PrefixCaches { segment_seqs: final(self).segment_seqs, ..*old(self) }),
            final(self).segment_seqs.poisoned == old(self).segment_seqs.poisoned,
            old(self).segment_seqs.answers(done, ()),
            final(self).segment_seqs.map@ == if old(self).segment_seqs.poisoned {
                old(self).segment_seqs.map@
            } else {
                old(self).segment_seqs.map@.insert(
                    prefix@,
                    next_seq(old(self).segment_seqs.at(prefix@), next),
                )
            },
    {
        if self.segment_seqs.poisoned {
            return Err(Error::Poison);
        }
        let key = String::from_str(prefix);
        let held: u64 = match self.segment_seqs.map.get(&key) {
            Some(held) => *held,
            None => 0,
        };
        let value: u64 = if held >= next {
            held
        } else {
            next
        };
        let _ = self.segment_seqs.map.insert(key, value);
        Ok(())
    }

    /// The epoch of a prefix, if it is known here.
    pub fn era(&self, prefix: &str) -> (held: Result<Option<i64>, Error>)
        requires
            self.wf(),
        ensures
            self.era_epochs.answers(held, self.era_epochs.at(prefix@)),
    {
        if self.era_epochs.poisoned {
            return Err(Error::Poison);
        }
        match self.era_epochs.map.get(&String::from_str(prefix)) {
            Some(held) => Ok(Some(*held)),
            None => Ok(None),
        }
    }

    /// Cache the epoch of a prefix, which never goes back.
    pub fn cache_era(&mut self, prefix: &str, era: i64) -> (done: Result<(), Error>)
        requires
            old(self).wf(),
        ensures
            final(self).wf(),
            *final(self) == (PrefixCaches { era_epochs: final(self).era_epochs, ..*old(self) }),
            final(self).era_epochs.poisoned == old(self).era_epochs.poisoned,
            old(self).era_epochs.answers(done, ()),
            final(self).era_epochs.map@ == if old(self).era_epochs.poisoned {
                old(self).era_epochs.map@
            } else {
                old(self).era_epochs.map@.insert(
                    prefix@,
                    next_era(old(self).era_epochs.at(prefix@), era),
                )
            },
    {
        if self.era_epochs.poisoned {
            return Err(Error::Poison);
        }
        let key = String::from_str(prefix);
        let held: i64 = match self.era_epochs.map.get(&key) {
            Some(held) => *held,
            None => 0,
        };
        let value: i64 = if held >= era {
            held
        } else {
            era
        };
        let _ = self.era_epochs.map.insert(key, value);
        Ok(())
    }

    /// How old the oldest segment of a prefix was when it was last scanned.
    pub fn oldest_retained(&self, prefix: &str) -> (held: Result<Option<i64>, Error>)
        requires
            self.wf(),
        ensures
            self.oldest_retained.answers(held, self.oldest_retained.at(prefix@)),
    {
        if self.oldest_retained.poisoned {
            return Err(Error::Poison);
        }
        match self.oldest_retained.map.get(&String::from_str(prefix)) {
            Some(held) => Ok(Some(*held)),
            None => Ok(None),
        }
    }

    /// Record how old the oldest segment of a prefix is, or that it has none.
    pub fn record_oldest_retained(&mut self, prefix: &str, oldest_ms: Option<i64>) -> (done: Result<
        (),
        Error,
    >)
        requires
            old(self).wf(),
        ensures
            final(self).wf(),
            *final(self) == (PrefixCaches {
                oldest_retained: final(self).oldest_retained,
                ..*old(self)
            }),
            final(self).oldest_retained.poisoned == old(self).oldest_retained.poisoned,
            old(self).oldest_retained.answers(done, ()),
            final(self).oldest_retained.map@ == if old(self).oldest_retained.poisoned {
                old(self).oldest_retained.map@
            } else {
                match oldest_ms {
                    Some(ms) => old(self).oldest_retained.map@.insert(prefix@, ms),
                    None => old(self).oldest_retained.map@.remove(prefix@),
                }
            },
    {
        if self.oldest_retained.poisoned {
            return Err(Error::Poison);
        }
        let key = String::from_str(prefix);
        match oldest_ms {
            Some(ms) => {
                let _ = self.oldest_retained.map.insert(key, ms);
            },
            None => {
                let _ = self.oldest_retained.map.remove(&key);
            },
        }
        Ok(())
    }

    /// Whether the served ends of a prefix were reconciled by this process.
    pub fn served_end_reconciled(&self, prefix: &str) -> (reconciled: Result<bool, Error>)
        requires
            self.wf(),
        ensures
            self.served_end_reconciled.answers(
                reconciled,
                self.served_end_reconciled.map@.dom().contains(prefix@),
            ),
    {
        if self.served_end_reconciled.poisoned {
            return Err(Error::Poison);
        }
        Ok(self.served_end_reconciled.map.contains(&String::from_str(prefix)))
    }

    /// Mark the served ends of a prefix as reconciled.
    pub fn mark_served_end_reconciled(&mut self, prefix: &str) -> (done: Result<(), Error>)
        requires
            old(self).wf(),
        ensures
            final(self).wf(),
            *final(self) == (PrefixCaches {
                served_end_reconciled: final(self).served_end_reconciled,
                ..*old(self)
            }),
            final(self).served_end_reconciled.poisoned == old(self).served_end_reconciled.poisoned,
            old(self).served_end_reconciled.answers(done, ()),
            final(self).served_end_reconciled.map@ == if old(self).served_end_reconciled.poisoned {
                old(self).served_end_reconciled.map@
            } else {
                old(self).served_end_reconciled.map@.insert(prefix@, ())
            },
    {
        if self.served_end_reconciled.poisoned {
            return Err(Error::Poison);
        }
        let _ = self.served_end_reconciled.map.insert(String::from_str(prefix), ());
        Ok(())
    }

    /// Drop the marker of a retired prefix, and nothing else of the prefix: that
    /// the marker is gone does not say that the prefix is dead.
    pub fn forget_retired_marker(&mut self, prefix: &str)
        requires
            old(self).wf(),
        ensures
            final(self).wf(),
            *final(self) == (PrefixCaches { retired: final(self).retired, ..*old(self) }),
            final(self).retired.poisoned == old(self).retired.poisoned,
            final(self).retired.map@ == if old(self).retired.poisoned {
                old(self).retired.map@
            } else {
                old(self).retired.map@.remove(prefix@)
            },
    {
        if !self.retired.poisoned {
            let _ = self.retired.map.remove(&String::from_str(prefix));
        }
    }

    /// How many entries each map holds, by its name. Leases are claims, and are
    /// not among them.
    pub fn record_occupancy(&self) -> (counts: [(&'static str, usize); 9])
        ensures
            counts@ == seq![
                ("prefix_index", count_of(self.index)),
                ("segment_seqs", count_of(self.segment_seqs)),
                ("oldest_retained_prefix", count_of(self.oldest_retained)),
                ("retired_prefixes", count_of(self.retired)),
                ("quarantined_segments", count_of(self.quarantined)),
                ("compact_seams", count_of(self.seams)),
                ("era_epochs", count_of(self.era_epochs)),
                ("served_end_reconciled", count_of(self.served_end_reconciled)),
                ("segment_reads", count_of(self.segment_reads)),
            ],
    {
        let counts = [
            ("prefix_index", self.index.len()),
            ("segment_seqs", self.segment_seqs.len()),
            ("oldest_retained_prefix", self.oldest_retained.len()),
            ("retired_prefixes", self.retired.len()),
            ("quarantined_segments", self.quarantined.len()),
            ("compact_seams", self.seams.len()),
            ("era_epochs", self.era_epochs.len()),
            ("served_end_reconciled", self.served_end_reconciled.len()),
            ("segment_reads", self.segment_reads.len()),
        ];
        counts
    }
}

/// Copy a set of sequences.
pub fn copy_set(set: &OrdMap<u64, ()>) -> (copy: OrdMap<u64, ()>)
    requires
        set.wf(),
    ensures
        copy.wf(),
        copy@ == set@,
        copy.entries@ == set.entries@,
{
    let mut entries: Vec<(u64, ())> = Vec::new();
    let mut at: usize = 0;
    while at < set.entries.len()
        invariant
            at <= set.entries@.len(),
            entries@ == set.entries@.take(at as int),
        decreases set.entries@.len() - at,
    {
        entries.push(set.entries[at]);
        at = at + 1;
        assert(entries@ =~= set.entries@.take(at as int));
    }
    assert(set.entries@.take(at as int) =~= set.entries@);
    OrdMap { entries }
}

/// The handles kept for clients: `P` is the document of a producer, `O` the
/// offsets of a group.
#[derive(Debug)]
pub struct ClientCaches<P, O> {
    pub producers: LockedMap<i64, OptiCon<P>>,
    pub group_offsets: LockedMap<String, OptiCon<O>>,
}

/// The object that holds a producer's document.
pub open spec fn producer_path(cluster: Seq<char>, producer_id: i64) -> Seq<char> {
    path_of("clusters/"@ + cluster + "/producers/"@ + signed_decimal(producer_id as int) + ".json"@)
}

impl<P, O> ClientCaches<P, O> {
    pub open spec fn wf(&self) -> bool {
        self.producers.wf() && self.group_offsets.wf()
    }

    /// Caches that hold nothing.
    pub fn new() -> (caches: Self)
        ensures
            caches.wf(),
            caches.producers.map@ == Map::<i64, OptiCon<P>>::empty(),
            caches.group_offsets.map@ == Map::<Seq<char>, OptiCon<O>>::empty(),
            !caches.producers.poisoned,
            !caches.group_offsets.poisoned,
    {
        ClientCaches { producers: LockedMap::new(), group_offsets: LockedMap::new() }
    }

    /// The handle on a producer's document, a new one on first use.
    pub fn producer(&mut self, cluster: &str, producer_id: i64) -> (handle: Result<
        &mut OptiCon<P>,
        Error,
    >)
        requires
            old(self).wf(),
        ensures
            final(self).wf(),
            *final(self) == (ClientCaches { producers: final(self).producers, ..*old(self) }),
            final(self).producers.poisoned == old(self).producers.poisoned,
            match handle {
                Ok(handle) => {
                    &&& !old(self).producers.poisoned
                    &&& match old(self).producers.at(producer_id) {
                        Some(held) => *handle == held,
                        None => handle.path@ == producer_path(cluster@, producer_id)
                            && handle.data_version is None,
                    }
                    &&& final(self).producers.map@ == old(self).producers.map@.insert(
                        producer_id,
                        *final(handle),
                    )
                },
                Err(error) => old(self).producers.poisoned && error == Error::Poison
                    && final(self).producers == old(self).producers,
            },
    {
        if self.producers.poisoned {
            return Err(Error::Poison);
        }
        if !self.producers.map.contains(&producer_id) {
            let mut text = String::from_str("clusters/");
            text.append(cluster);
            text.append("/producers/");
            push_signed(&mut text, producer_id);
            text.append(".json");
            let _ = self.producers.map.insert(
                producer_id,
                OptiCon::path(path_from(text.as_str())),
            );
        }
        let ghost ready = self.producers.map@;
        let (at, _held) = self.producers.map.find(&producer_id);
        proof {
            assert forall|value: OptiCon<P>|
                #[trigger] ready.insert(producer_id, value) == old(self).producers.map@.insert(
                    producer_id,
                    value,
                ) by {
                assert(ready.insert(producer_id, value) =~= old(self).producers.map@.insert(
                    producer_id,
                    value,
                ));
            }
        }
        Ok(self.producers.map.value_mut(at))
    }

    /// The handle on a group's offsets under `prefix`, a new one on first use.
    pub fn group_offsets(&mut self, group_id: &str, prefix: &str) -> (handle: Result<
        &mut OptiCon<O>,
        Error,
    >)
        requires
            old(self).wf(),
        ensures
            final(self).wf(),
            *final(self) == (ClientCaches {
                group_offsets: final(self).group_offsets,
                ..*old(self)
            }),
            final(self).group_offsets.poisoned == old(self).group_offsets.poisoned,
            match handle {
                Ok(handle) => {
                    &&& !old(self).group_offsets.poisoned
                    &&& match old(self).group_offsets.at(group_id@) {
                        Some(held) => *handle == held,
                        None => handle.path@ == path_of(prefix@ + "/offsets.json"@)
                            && handle.data_version is None,
                    }
                    &&& final(self).group_offsets.map@ == old(self).group_offsets.map@.insert(
                        group_id@,
                        *final(handle),
                    )
                },
                Err(error) => old(self).group_offsets.poisoned && error == Error::Poison
                    && final(self).group_offsets == old(self).group_offsets,
            },
    {
        if self.group_offsets.poisoned {
            return Err(Error::Poison);
        }
        let key = String::from_str(group_id);
        if !self.group_offsets.map.contains(&key) {
            let mut text = String::from_str(prefix);
            text.append("/offsets.json");
            let _ = self.group_offsets.map.insert(
                key.clone(),
                OptiCon::path(path_from(text.as_str())),
            );
        }
        let ghost ready = self.group_offsets.map@;
        let (at, _held) = self.group_offsets.map.find(&key);
        proof {
            assert forall|value: OptiCon<O>|
                #[trigger] ready.insert(group_id@, value) == old(self).group_offsets.map@.insert(
                    group_id@,
                    value,
                ) by {
                assert(ready.insert(group_id@, value) =~= old(self).group_offsets.map@.insert(
                    group_id@,
                    value,
                ));
            }
        }
        Ok(self.group_offsets.map.value_mut(at))
    }

    /// Drop the handle on a deleted group's offsets.
    pub fn forget_group(&mut self, group_id: &str)
        requires
            old(self).wf(),
        ensures
            final(self).wf(),
            *final(self) == (ClientCaches {
                group_offsets: final(self).group_offsets,
                ..*old(self)
            }),
            final(self).group_offsets.poisoned == old(self).group_offsets.poisoned,
            final(self).group_offsets.map@ == if old(self).group_offsets.poisoned {
                old(self).group_offsets.map@
            } else {
                old(self).group_offsets.map@.remove(group_id@)
            },
    {
        if !self.group_offsets.poisoned {
            let _ = self.group_offsets.map.remove(&String::from_str(group_id));
        }
    }

    /// How many entries each map holds, by its name.
    pub fn record_occupancy(&self) -> (counts: [(&'static str, usize); 2])
        ensures
            counts@ == seq![
                ("producers", count_of(self.producers)),
                ("group_offsets", count_of(self.group_offsets)),
            ],
    {
        let counts = [
            ("producers", self.producers.len()),
            ("group_offsets", self.group_offsets.len()),
        ];
        counts
    }
}

/// Neither the next sequence of a prefix nor its epoch ever goes back: each is the highest
/// that was told, and an epoch no less than zero where none was held.
pub proof fn sequences_and_epochs_never_go_back(
    held: Option<u64>,
    next: u64,
    known: Option<i64>,
    era: i64,
)
    ensures
        next_seq(held, next) >= next,
        held is Some ==> next_seq(held, next) >= held->0,
        next_seq(held, next) == next || Some(next_seq(held, next)) == held,
        next_era(known, era) >= era,
        known is Some ==> next_era(known, era) >= known->0,
        known is None ==> next_era(known, era) >= 0,
        next_era(known, era) == era || Some(next_era(known, era)) == known || (known is None
            && next_era(known, era) == 0),
{
}

} // verus!
