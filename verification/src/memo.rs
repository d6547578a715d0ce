//! The versions of objects that were seen a short while ago: a request to be told of
//! a change is answered from them.

use crate::key_class::{is_immutable, is_written_once};
use crate::metron::{FaultKind, StoreFault};
use crate::opticon::{copy_text, text_view, UpdateVersion, Version};
use crate::ordmap::Key;
use cached::stores::ExpiringSizedCache;
use std::time::Duration;
use vstd::prelude::*;
use vstd::string::*;

verus! {

/// `cached`'s cache of values that expire.
#[verifier::external_type_specification]
#[verifier::external_body]
#[verifier::reject_recursive_types(K)]
#[verifier::reject_recursive_types(V)]
pub struct ExExpiringSizedCache<K, V>(ExpiringSizedCache<K, V>);

/// What a cache holds, expired or not: by its key, the tag and the version of an
/// object.
pub uninterp spec fn held_in(
    cache: ExpiringSizedCache<String, (Option<String>, Option<String>)>,
) -> Map<Seq<char>, (Option<Seq<char>>, Option<Seq<char>>)>;

/// The view of a tag and a version.
pub open spec fn entry_view(entry: (Option<String>, Option<String>)) -> (
    Option<Seq<char>>,
    Option<Seq<char>>,
) {
    (text_view(entry.0), text_view(entry.1))
}

/// No versions at all.
pub open spec fn no_versions() -> Map<Seq<char>, (Option<Seq<char>>, Option<Seq<char>>)> {
    Map::empty()
}

/// Whether a map holds nothing that another does not hold.
pub open spec fn is_part_of(
    part: Map<Seq<char>, (Option<Seq<char>>, Option<Seq<char>>)>,
    whole: Map<Seq<char>, (Option<Seq<char>>, Option<Seq<char>>)>,
) -> bool {
    forall|key: Seq<char>| #[trigger]
        part.dom().contains(key) ==> whole.dom().contains(key) && part[key] == whole[key]
}

/// A cache that holds nothing: `ExpiringSizedCache::new`, whose values expire after
/// the time given, in milliseconds.
#[verifier::external_body]
fn memo_new(retention_ms: u64) -> (cache: ExpiringSizedCache<
    String,
    (Option<String>, Option<String>),
>)
    ensures
        held_in(cache) == no_versions(),
{
    ExpiringSizedCache::new(Duration::from_millis(retention_ms))
}

/// The value of a key: `ExpiringSizedCache::get`. What it gives is held under the
/// key; whether what is held is given depends on the clock, and is not stated.
#[verifier::external_body]
fn memo_get(
    cache: &ExpiringSizedCache<String, (Option<String>, Option<String>)>,
    key: &String,
) -> (found: Option<(Option<String>, Option<String>)>)
    ensures
        found matches Some(found) ==> held_in(*cache).dom().contains(key@) && held_in(*cache)[key@]
            == entry_view(found),
{
    cache.get(key).cloned()
}

/// Hold a value under a key, after what has expired was dropped:
/// `ExpiringSizedCache::insert_evict`. It gives the value that was held under the
/// key, unless that had expired. Nothing is given where the clock cannot tell when
/// the value would expire: it is not held then. What has expired depends on the
/// clock, so of the rest it is stated only that nothing is added or changed.
#[verifier::external_body]
fn memo_insert(
    cache: &mut ExpiringSizedCache<String, (Option<String>, Option<String>)>,
    key: String,
    value: (Option<String>, Option<String>),
) -> (replaced: Option<Option<(Option<String>, Option<String>)>>)
    ensures
        match replaced {
            Some(replaced) => {
                &&& held_in(*final(cache)).dom().contains(key@)
                &&& held_in(*final(cache))[key@] == entry_view(value)
                &&& is_part_of(held_in(*final(cache)).remove(key@), held_in(*old(cache)))
                &&& replaced matches Some(replaced) ==> held_in(*old(cache)).dom().contains(key@)
                    && held_in(*old(cache))[key@] == entry_view(replaced)
            },
            None => is_part_of(held_in(*final(cache)), held_in(*old(cache))),
        },
{
    cache.insert_evict(key, value, true).ok()
}

/// Drop the value of a key: `ExpiringSizedCache::remove`. It gives the value, unless
/// that had expired.
#[verifier::external_body]
fn memo_remove(
    cache: &mut ExpiringSizedCache<String, (Option<String>, Option<String>)>,
    key: &String,
) -> (removed: Option<(Option<String>, Option<String>)>)
    ensures
        held_in(*final(cache)) == held_in(*old(cache)).remove(key@),
        removed matches Some(removed) ==> held_in(*old(cache)).dom().contains(key@) && held_in(
            *old(cache),
        )[key@] == entry_view(removed),
{
    cache.remove(key)
}

/// Locks of which one guards the requests on a key. There are a fixed number of
/// them, so that they do not grow with the keys.
pub const REVALIDATION_STRIPES: usize = 256;

/// The hash of a run of bytes (FNV-1a).
pub open spec fn hash_of(bytes: Seq<u8>) -> u64
    decreases bytes.len(),
{
    if bytes.len() == 0 {
        0xcbf2_9ce4_8422_2325
    } else {
        (hash_of(bytes.drop_last()) ^ (bytes.last() as u64)).wrapping_mul(0x0000_0100_0000_01b3)
    }
}

/// Which lock guards the requests on a key.
pub fn revalidation_stripe(path: &str) -> (stripe: usize)
    ensures
        stripe == hash_of(path.spec_bytes()) % REVALIDATION_STRIPES as u64,
        stripe < REVALIDATION_STRIPES,
{
    let bytes = path.as_bytes();
    let mut hash: u64 = 0xcbf2_9ce4_8422_2325;
    let mut at: usize = 0;
    assert(bytes@.take(0) =~= Seq::empty());
    while at < bytes.len()
        invariant
            at <= bytes@.len(),
            hash == hash_of(bytes@.take(at as int)),
        decreases bytes@.len() - at,
    {
        let byte: u8 = bytes[at];
        assert(bytes@.take(at + 1).drop_last() =~= bytes@.take(at as int));
        hash = (hash ^ (byte as u64)).wrapping_mul(0x0000_0100_0000_01b3);
        at = at + 1;
    }
    assert(bytes@.take(at as int) =~= bytes@);
    (hash % (REVALIDATION_STRIPES as u64)) as usize
}

/// What was found of an object that is asked for.
#[derive(Clone, Copy, Debug, PartialEq, Eq, Structural)]
pub enum Lookup {
    /// The object is written once: nothing is looked up.
    Uncached,
    /// It was seen a short while ago, as the request has it.
    Hit,
    /// It was seen a short while ago, otherwise than the request has it.
    NoMatch,
    /// It was not seen, or the request does not say how it has it.
    Miss,
    /// The versions cannot be read.
    Unknown,
}

/// What a version that was found says of a request.
pub open spec fn judged(found: Option<Option<Seq<char>>>, presented: Option<Seq<char>>) -> Lookup {
    match (found, presented) {
        (Some(Some(tag)), Some(presented)) => if tag == presented {
            Lookup::Hit
        } else {
            Lookup::NoMatch
        },
        _ => Lookup::Miss,
    }
}

/// What a version that was found says of a request.
pub fn judge(found: &Option<(Option<String>, Option<String>)>, presented: &Option<String>) -> (
lookup: Lookup)
    ensures
        lookup == judged(
            match found {
                Some(found) => Some(text_view(found.0)),
                None => None,
            },
            text_view(*presented),
        ),
{
    match (found, presented) {
        (Some((Some(tag), _)), Some(presented)) => {
            if tag.same(presented) {
                Lookup::Hit
            } else {
                Lookup::NoMatch
            }
        },
        _ => Lookup::Miss,
    }
}

/// What became of a version that was seen.
#[derive(Clone, Copy, Debug, PartialEq, Eq, Structural)]
pub enum Remembered {
    /// Nothing of the object was known.
    Added,
    /// The same was known.
    Existing,
    /// Something else was known.
    Replaced,
}

/// What became of a version, by what was known before.
pub fn compare(known: &Option<(Option<String>, Option<String>)>, seen: &UpdateVersion) -> (
remembered: Remembered)
    ensures
        remembered == became(
            match known {
                Some(known) => Some(entry_view(*known)),
                None => None,
            },
            (seen@.e_tag, seen@.version),
        ),
{
    match known {
        None => Remembered::Added,
        Some((e_tag, version)) => {
            if same_text(e_tag, &seen.e_tag) && same_text(version, &seen.version) {
                Remembered::Existing
            } else {
                Remembered::Replaced
            }
        },
    }
}

fn same_text(a: &Option<String>, b: &Option<String>) -> (same: bool)
    ensures
        same == (text_view(*a) == text_view(*b)),
{
    match (a, b) {
        (Some(a), Some(b)) => a.same(b),
        (None, None) => true,
        _ => false,
    }
}

/// What follows a request on an object.
#[derive(Clone, Copy, Debug, PartialEq, Eq, Structural)]
pub enum GetStep {
    /// The object has not changed: answer so.
    NotModified,
    /// Wait for the lock of the object's requests, then look again.
    Revalidate,
    /// Ask the object store.
    Ask,
}

/// The versions that were seen a short while ago.
pub struct Cache {
    pub entries: ExpiringSizedCache<String, (Option<String>, Option<String>)>,
    /// Whether a panic has left the lock on them poisoned.
    pub poisoned: bool,
    /// How long a version counts as seen a short while ago, in milliseconds.
    pub retention_ms: u64,
}

impl Cache {
    /// The versions that are held, whether or not they still count.
    pub open spec fn held(&self) -> Map<Seq<char>, (Option<Seq<char>>, Option<Seq<char>>)> {
        held_in(self.entries)
    }

    /// Whether the version held of an object has a tag.
    pub open spec fn has_tag(&self, location: Seq<char>, tag: Seq<char>) -> bool {
        self.held().dom().contains(location) && self.held()[location].0 == Some(tag)
    }

    /// Whether a look at an object may find this tag of it: the one that is held, or,
    /// as what is held may have expired, nothing. Under a poisoned lock nothing is
    /// found.
    pub open spec fn may_find(&self, location: Seq<char>, found: Option<Option<Seq<char>>>) -> bool {
        found matches Some(tag) ==> {
            &&& !self.poisoned
            &&& self.held().dom().contains(location)
            &&& self.held()[location].0 == tag
        }
    }

    /// No version was seen.
    pub fn new(retention_ms: u64) -> (cache: Self)
        ensures
            cache.held() == no_versions(),
            !cache.poisoned,
            cache.retention_ms == retention_ms,
    {
        Cache { entries: memo_new(retention_ms), poisoned: false, retention_ms }
    }

    /// Drop every version.
    pub fn expire_cached_etags(&mut self)
        ensures
            final(self).held() == if old(self).poisoned {
                old(self).held()
            } else {
                no_versions()
            },
            final(self).poisoned == old(self).poisoned,
            final(self).retention_ms == old(self).retention_ms,
    {
        if !self.poisoned {
            self.entries = memo_new(self.retention_ms);
        }
    }

    /// Whether an object was seen a short while ago with the tag that is presented, by
    /// what a look at it finds. It was, if this says so; whether what is held is found
    /// depends on the clock.
    pub fn etag_matches(&self, location: &str, presented: &str) -> (matches: bool)
        ensures
            matches ==> !self.poisoned && self.has_tag(location@, presented@),
            exists|found: Option<Option<Seq<char>>>| #[trigger]
                self.may_find(location@, found) && matches == (judged(found, Some(presented@))
                    == Lookup::Hit),
    {
        if self.poisoned {
            assert(self.may_find(location@, None));
            return false;
        }
        let found = memo_get(&self.entries, &String::from_str(location));
        assert(self.may_find(
            location@,
            match found {
                Some(found) => Some(text_view(found.0)),
                None => None,
            },
        ));
        match judge(&found, &Some(String::from_str(presented))) {
            Lookup::Hit => true,
            _ => false,
        }
    }

    /// What is known of an object that is asked for.
    pub fn lookup(&self, location: &str, presented: &Option<String>) -> (lookup: Lookup)
        ensures
            lookup == Lookup::Uncached <==> is_written_once(location@),
            lookup == Lookup::Unknown <==> !is_written_once(location@) && self.poisoned,
            lookup == Lookup::Hit ==> (presented matches Some(presented) && self.has_tag(
                location@,
                presented@,
            )),
            lookup == Lookup::NoMatch ==> presented is Some && self.held().dom().contains(location@)
                && self.held()[location@].0 is Some && self.held()[location@].0 != text_view(
                *presented,
            ),
            !is_written_once(location@) && !self.poisoned && (presented is None
                || !self.held().dom().contains(location@)) ==> lookup == Lookup::Miss,
    {
        if is_immutable(location) {
            return Lookup::Uncached;
        }
        if self.poisoned {
            return Lookup::Unknown;
        }
        let found = memo_get(&self.entries, &String::from_str(location));
        judge(&found, presented)
    }

    /// What follows a lookup. Only a request to be told of a change waits for others:
    /// a read of bytes never does.
    pub fn get_opts(lookup: Lookup, presented: &Option<String>) -> (step: GetStep)
        ensures
            step == step_after(lookup, presented is Some),
    {
        match lookup {
            Lookup::Uncached => GetStep::Ask,
            Lookup::Hit => GetStep::NotModified,
            _ => match presented {
                Some(_) => GetStep::Revalidate,
                None => GetStep::Ask,
            },
        }
    }

    /// What follows a second look, by whether the object was seen as the request has
    /// it. Nothing is waited for again.
    pub fn after_wait(unchanged: bool) -> (step: GetStep)
        ensures
            step == if unchanged {
                GetStep::NotModified
            } else {
                GetStep::Ask
            },
    {
        if unchanged {
            GetStep::NotModified
        } else {
            GetStep::Ask
        }
    }

    /// What follows once the lock is held, by what a second look finds: the request
    /// before may have learnt what this one asks. Under a poisoned lock the object store
    /// is asked.
    pub fn revalidate(&self, location: &str, presented: &str) -> (step: GetStep)
        ensures
            step == GetStep::NotModified ==> !self.poisoned && self.has_tag(location@, presented@),
            exists|found: Option<Option<Seq<char>>>| #[trigger]
                self.may_find(location@, found) && step == if judged(found, Some(presented@))
                    == Lookup::Hit {
                    GetStep::NotModified
                } else {
                    GetStep::Ask
                },
    {
        Self::after_wait(self.etag_matches(location, presented))
    }

    /// Take in the version of an object that was read, was written, or has not
    /// changed, and say what was known of it, and whether the version is held now: it is
    /// not where the clock cannot tell when it would expire. Nothing is kept of an object
    /// that is written once.
    pub fn remember(&mut self, location: &str, seen: &UpdateVersion) -> (remembered: Option<
        (Remembered, bool),
    >)
        ensures
            final(self).poisoned == old(self).poisoned,
            final(self).retention_ms == old(self).retention_ms,
            match remembered {
                None => {
                    &&& is_written_once(location@) || old(self).poisoned
                    &&& *final(self) == *old(self)
                },
                Some((what, held)) => {
                    &&& !is_written_once(location@) && !old(self).poisoned
                    &&& held ==> {
                        &&& final(self).held().dom().contains(location@)
                        &&& final(self).held()[location@] == (seen@.e_tag, seen@.version)
                        &&& is_part_of(final(self).held().remove(location@), old(self).held())
                    }
                    &&& !held ==> what == Remembered::Added && is_part_of(
                        final(self).held(),
                        old(self).held(),
                    )
                    &&& what == Remembered::Added || {
                        &&& held
                        &&& old(self).held().dom().contains(location@)
                        &&& (what == Remembered::Existing) == (old(self).held()[location@] == (
                            seen@.e_tag,
                            seen@.version,
                        ))
                    }
                },
            },
    {
        if is_immutable(location) || self.poisoned {
            return None;
        }
        let replaced = memo_insert(
            &mut self.entries,
            String::from_str(location),
            (copy_text(&seen.e_tag), copy_text(&seen.version)),
        );
        match replaced {
            Some(known) => Some((compare(&known, seen), true)),
            None => Some((Remembered::Added, false)),
        }
    }

    /// Take in that an object was deleted, and say whether a version of it was still
    /// known.
    pub fn delete_stream(&mut self, location: &str) -> (known: bool)
        ensures
            final(self).poisoned == old(self).poisoned,
            final(self).retention_ms == old(self).retention_ms,
            final(self).held() == if old(self).poisoned {
                old(self).held()
            } else {
                old(self).held().remove(location@)
            },
            known ==> !old(self).poisoned && old(self).held().dom().contains(location@),
    {
        if self.poisoned {
            return false;
        }
        match memo_remove(&mut self.entries, &String::from_str(location)) {
            Some(_) => true,
            None => false,
        }
    }
}

/// The version of an object that has not changed since the request had it.
pub fn unchanged_version(presented: &Option<String>) -> (version: UpdateVersion)
    ensures
        version@ == (Version { e_tag: text_view(*presented), version: None }),
{
    UpdateVersion { e_tag: copy_text(presented), version: None }
}

/// Whether an error is an answer that was asked for: that there is no object, that
/// there is one already, that it has changed, or that it has not.
pub fn is_control_outcome(fault: &StoreFault) -> (control: bool)
    ensures
        control == !(fault.kind is Other),
{
    match &fault.kind {
        FaultKind::Other => false,
        _ => true,
    }
}

/// A request is told that nothing has changed only if its object was last seen as the
/// request has it.
pub proof fn nothing_is_hidden(
    found: Option<Option<Seq<char>>>,
    presented: Option<Seq<char>>,
)
    ensures
        judged(found, presented) == Lookup::Hit <==> presented is Some && found == Some(presented),
{
}

/// A request on an object is told that nothing has changed, that it has changed, or
/// nothing: the middle one exactly if the object was last seen with another tag than
/// the one presented. Where no tag was seen, or none is presented, it is asked for.
pub proof fn a_change_is_never_denied(
    found: Option<Option<Seq<char>>>,
    presented: Option<Seq<char>>,
)
    ensures
        judged(found, presented) == Lookup::NoMatch <==> (presented is Some && found is Some
            && found->0 is Some && found->0 != presented),
        judged(found, presented) == Lookup::Miss <==> (presented is None || found is None
            || found->0 is None),
{
}

/// What follows a lookup, by whether the request says how it has the object.
pub open spec fn step_after(lookup: Lookup, presents: bool) -> GetStep {
    match lookup {
        Lookup::Uncached => GetStep::Ask,
        Lookup::Hit => GetStep::NotModified,
        _ => if presents {
            GetStep::Revalidate
        } else {
            GetStep::Ask
        },
    }
}

/// What became of a version, by what was known before.
pub open spec fn became(
    known: Option<(Option<Seq<char>>, Option<Seq<char>>)>,
    seen: (Option<Seq<char>>, Option<Seq<char>>),
) -> Remembered {
    match known {
        None => Remembered::Added,
        Some(known) => if known == seen {
            Remembered::Existing
        } else {
            Remembered::Replaced
        },
    }
}

/// A request is told that nothing has changed, without the store, only where its object
/// was found as the request has it; the store is asked at once for what is written once
/// or where the request does not say how it has the object; and any other request waits
/// for whoever asks already.
pub proof fn only_a_hit_spares_the_store(
    found: Option<Option<Seq<char>>>,
    presented: Option<Seq<char>>,
)
    ensures
        step_after(judged(found, presented), presented is Some) == GetStep::NotModified <==> (
        presented is Some && found == Some(presented)),
        presented is None ==> step_after(judged(found, presented), false) == GetStep::Ask,
        presented is Some && found != Some(presented) ==> step_after(
            judged(found, presented),
            true,
        ) == GetStep::Revalidate,
        step_after(Lookup::Uncached, presented is Some) == GetStep::Ask,
        step_after(Lookup::Unknown, presented is Some) != GetStep::NotModified,
{
}

/// A version is new where nothing was known, the same exactly if tag and version are, and
/// takes the place of any other.
pub proof fn a_version_is_told_from_what_was_known(
    known: (Option<Seq<char>>, Option<Seq<char>>),
    seen: (Option<Seq<char>>, Option<Seq<char>>),
)
    ensures
        became(None, seen) == Remembered::Added,
        became(Some(known), seen) == Remembered::Existing <==> known.0 == seen.0 && known.1
            == seen.1,
        became(Some(known), seen) == Remembered::Replaced <==> known.0 != seen.0 || known.1
            != seen.1,
{
}

} // verus!
