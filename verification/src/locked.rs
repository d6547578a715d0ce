//! A map behind a lock.

use crate::error::Error;
use crate::ordmap::{Key, OrdMap};
use vstd::prelude::*;

verus! {

/// A map behind a lock that a panic of its holder poisons. What is held under a
/// poisoned lock is neither read nor changed.
#[derive(Debug)]
pub struct LockedMap<K, V> {
    pub map: OrdMap<K, V>,
    pub poisoned: bool,
}

impl<K: Key, V> LockedMap<K, V> {
    pub open spec fn wf(&self) -> bool {
        self.map.wf()
    }

    /// What is held under `key`.
    pub open spec fn at(&self, key: K::V) -> Option<V> {
        if self.map@.dom().contains(key) {
            Some(self.map@[key])
        } else {
            None
        }
    }

    /// Whether `answer` is `value`, or the error of a poisoned lock.
    pub open spec fn answers<T>(&self, answer: Result<T, Error>, value: T) -> bool {
        if self.poisoned {
            answer == Err::<T, Error>(Error::Poison)
        } else {
            answer == Ok::<T, Error>(value)
        }
    }

    /// An empty map.
    pub fn new() -> (locked: Self)
        ensures
            locked.wf(),
            locked.map@ == Map::<K::V, V>::empty(),
            !locked.poisoned,
    {
        LockedMap { map: OrdMap::new(), poisoned: false }
    }

    /// Read the map, or fail where the lock is poisoned: for a caller to whom
    /// "nothing is held" would be an answer.
    pub fn read<T, F: FnOnce(&OrdMap<K, V>) -> T>(&self, f: F) -> (read: Result<T, Error>)
        requires
            !self.poisoned ==> call_requires(f, (&self.map,)),
        ensures
            match read {
                Ok(read) => !self.poisoned && call_ensures(f, (&self.map,), read),
                Err(error) => self.poisoned && error == Error::Poison,
            },
    {
        if self.poisoned {
            Err(Error::Poison)
        } else {
            Ok(f(&self.map))
        }
    }

    /// Replace the map by what `f` makes of it, or fail where the lock is
    /// poisoned.
    pub fn write<T, F: FnOnce(OrdMap<K, V>) -> (OrdMap<K, V>, T)>(&mut self, f: F) -> (written:
        Result<T, Error>)
        requires
            !old(self).poisoned ==> call_requires(f, (old(self).map,)),
        ensures
            final(self).poisoned == old(self).poisoned,
            match written {
                Ok(written) => !old(self).poisoned && call_ensures(
                    f,
                    (old(self).map,),
                    (final(self).map, written),
                ),
                Err(error) => old(self).poisoned && error == Error::Poison && *final(self) == *old(
                    self,
                ),
            },
    {
        if self.poisoned {
            return Err(Error::Poison);
        }
        let mut held: OrdMap<K, V> = OrdMap { entries: Vec::new() };
        core::mem::swap(&mut held, &mut self.map);
        let (map, written) = f(held);
        self.map = map;
        Ok(written)
    }

    /// Replace the map by what `f` makes of it, and do nothing where the lock is
    /// poisoned.
    pub fn try_write<F: FnOnce(OrdMap<K, V>) -> OrdMap<K, V>>(&mut self, f: F)
        requires
            !old(self).poisoned ==> call_requires(f, (old(self).map,)),
        ensures
            final(self).poisoned == old(self).poisoned,
            old(self).poisoned ==> *final(self) == *old(self),
            !old(self).poisoned ==> call_ensures(f, (old(self).map,), final(self).map),
    {
        if !self.poisoned {
            let mut held: OrdMap<K, V> = OrdMap { entries: Vec::new() };
            core::mem::swap(&mut held, &mut self.map);
            self.map = f(held);
        }
    }

    /// The map, to be read and changed in place, or an error where the lock is
    /// poisoned.
    pub fn guard(&mut self) -> (guard: Result<&mut OrdMap<K, V>, Error>)
        ensures
            final(self).poisoned == old(self).poisoned,
            match guard {
                Ok(guard) => !old(self).poisoned && *guard == old(self).map && final(self).map
                    == *final(guard),
                Err(error) => old(self).poisoned && error == Error::Poison && *final(self) == *old(
                    self,
                ),
            },
    {
        if self.poisoned {
            Err(Error::Poison)
        } else {
            Ok(&mut self.map)
        }
    }

    /// The map, to be read and changed in place, unless the lock is poisoned.
    pub fn try_guard(&mut self) -> (guard: Option<&mut OrdMap<K, V>>)
        ensures
            final(self).poisoned == old(self).poisoned,
            match guard {
                Some(guard) => !old(self).poisoned && *guard == old(self).map && final(self).map
                    == *final(guard),
                None => old(self).poisoned && *final(self) == *old(self),
            },
    {
        if self.poisoned {
            None
        } else {
            Some(&mut self.map)
        }
    }

    /// How many entries are held, none under a poisoned lock.
    pub fn len(&self) -> (len: usize)
        ensures
            len == if self.poisoned {
                0
            } else {
                self.map.entries@.len()
            },
    {
        if self.poisoned {
            0
        } else {
            self.map.len()
        }
    }

    /// Keep exactly the entries for which `pred` holds, and do nothing where the
    /// lock is poisoned.
    pub fn keep_where<F: Fn(&K, &V) -> bool>(
        &mut self,
        keep: F,
        Ghost(pred): Ghost<spec_fn(K::V, V) -> bool>,
    )
        requires
            old(self).wf(),
            forall|key: &K, value: &V| #[trigger] call_requires(keep, (key, value)),
            forall|key: &K, value: &V, keeps: bool| #[trigger]
                call_ensures(keep, (key, value), keeps) ==> keeps == pred(key@, *value),
        ensures
            final(self).wf(),
            final(self).poisoned == old(self).poisoned,
            final(self).map@ == kept(*old(self), pred),
    {
        if !self.poisoned {
            self.map.keep_where(keep, Ghost(pred));
        }
    }
}

/// What a locked map holds after it was thinned by `pred`.
pub open spec fn kept<K: Key, V>(
    locked: LockedMap<K, V>,
    pred: spec_fn(K::V, V) -> bool,
) -> Map<K::V, V> {
    if locked.poisoned {
        locked.map@
    } else {
        locked.map@.restrict(
            Set::new(
                |key: K::V| locked.map@.dom().contains(key) && pred(key, locked.map@[key]),
            ),
        )
    }
}

/// Predicates that agree keep the same.
pub proof fn lemma_kept_same<K: Key, V>(
    locked: LockedMap<K, V>,
    p: spec_fn(K::V, V) -> bool,
    q: spec_fn(K::V, V) -> bool,
)
    requires
        forall|key: K::V, value: V| #[trigger] p(key, value) == q(key, value),
    ensures
        kept(locked, p) == kept(locked, q),
{
    assert(kept(locked, p) =~= kept(locked, q));
}

/// Thinning a map keeps exactly what is asked for, as it was; under a poisoned lock all of
/// it stays.
pub proof fn thinning_keeps_what_is_asked_for<K: Key, V>(
    locked: LockedMap<K, V>,
    pred: spec_fn(K::V, V) -> bool,
    key: K::V,
)
    ensures
        kept(locked, pred).dom().contains(key) <==> locked.map@.dom().contains(key) && (
        locked.poisoned || pred(key, locked.map@[key])),
        kept(locked, pred).dom().contains(key) ==> kept(locked, pred)[key] == locked.map@[key],
{
}

} // verus!
