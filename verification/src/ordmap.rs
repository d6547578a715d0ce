//! Maps and sets kept in the order of their keys.

use vstd::prelude::*;

verus! {

/// A key of an [`OrdMap`]: its views are totally ordered.
pub trait Key: View + Sized {
    /// Whether `a` comes strictly before `b`.
    spec fn before(a: Self::V, b: Self::V) -> bool;

    proof fn before_irreflexive(a: Self::V)
        ensures
            !Self::before(a, a),
    ;

    proof fn before_transitive(a: Self::V, b: Self::V, c: Self::V)
        requires
            Self::before(a, b),
            Self::before(b, c),
        ensures
            Self::before(a, c),
    ;

    proof fn before_total(a: Self::V, b: Self::V)
        ensures
            Self::before(a, b) || a == b || Self::before(b, a),
    ;

    fn less(&self, other: &Self) -> (less: bool)
        ensures
            less == Self::before(self@, other@),
    ;

    fn same(&self, other: &Self) -> (same: bool)
        ensures
            same == (self@ == other@),
    ;

    fn duplicate(&self) -> (copy: Self)
        ensures
            copy@ == self@,
    ;
}

/// A map whose entries are held in ascending order of their keys.
#[derive(Debug)]
pub struct OrdMap<K, V> {
    pub entries: Vec<(K, V)>,
}

/// Whether the keys of `entries` are strictly ascending.
pub open spec fn ascending<K: Key, V>(entries: Seq<(K, V)>) -> bool {
    forall|i: int, j: int|
        #![trigger entries[i], entries[j]]
        0 <= i < j < entries.len() ==> K::before(entries[i].0@, entries[j].0@)
}

/// Whether one of `entries` has key `key`.
pub open spec fn has_key<K: Key, V>(entries: Seq<(K, V)>, key: K::V) -> bool {
    exists|i: int| 0 <= i < entries.len() && (#[trigger] entries[i]).0@ == key
}

/// The map that `entries` stand for.
pub open spec fn map_of<K: Key, V>(entries: Seq<(K, V)>) -> Map<K::V, V> {
    Map::new(
        |key: K::V| has_key(entries, key),
        |key: K::V|
            entries[choose|i: int|
                0 <= i < entries.len() && (#[trigger] entries[i]).0@ == key].1,
    )
}

pub proof fn lemma_unique<K: Key, V>(entries: Seq<(K, V)>, i: int, j: int)
    requires
        ascending(entries),
        0 <= i < entries.len(),
        0 <= j < entries.len(),
        entries[i].0@ == entries[j].0@,
    ensures
        i == j,
{
    K::before_irreflexive(entries[i].0@);
    if i < j {
        assert(K::before(entries[i].0@, entries[j].0@));
    } else if j < i {
        assert(K::before(entries[j].0@, entries[i].0@));
    }
}

/// The map at the key of an entry holds that entry's value.
pub proof fn lemma_at<K: Key, V>(entries: Seq<(K, V)>, i: int)
    requires
        ascending(entries),
        0 <= i < entries.len(),
    ensures
        map_of(entries).dom().contains(entries[i].0@),
        map_of(entries)[entries[i].0@] == entries[i].1,
{
    let key = entries[i].0@;
    let w = choose|w: int| 0 <= w < entries.len() && (#[trigger] entries[w]).0@ == key;
    assert(entries[i].0@ == key);
    lemma_unique(entries, i, w);
}

/// A key that lies strictly between two neighbours is no key of the map.
proof fn lemma_gap<K: Key, V>(entries: Seq<(K, V)>, at: int, key: K::V)
    requires
        ascending(entries),
        0 <= at <= entries.len(),
        forall|j: int| 0 <= j < at ==> K::before((#[trigger] entries[j]).0@, key),
        forall|j: int| at <= j < entries.len() ==> !K::before((#[trigger] entries[j]).0@, key),
        at < entries.len() ==> entries[at].0@ != key,
    ensures
        !has_key(entries, key),
        forall|j: int| at <= j < entries.len() ==> K::before(key, (#[trigger] entries[j]).0@),
{
    assert forall|j: int| at <= j < entries.len() implies K::before(key, (#[trigger] entries[j]).0@) by {
        K::before_total(entries[j].0@, key);
        if entries[j].0@ == key {
            assert(j > at);
            assert(K::before(entries[at].0@, entries[j].0@));
        }
    }
    if has_key(entries, key) {
        let w = choose|w: int| 0 <= w < entries.len() && (#[trigger] entries[w]).0@ == key;
        K::before_irreflexive(key);
        assert(false);
    }
}

impl<K: Key, V> View for OrdMap<K, V> {
    type V = Map<K::V, V>;

    open spec fn view(&self) -> Map<K::V, V> {
        map_of(self.entries@)
    }
}

impl<K: Key, V> OrdMap<K, V> {
    /// The keys are in strictly ascending order.
    pub open spec fn wf(&self) -> bool {
        ascending(self.entries@)
    }

    /// The keys, in ascending order.
    pub open spec fn keys(&self) -> Seq<K::V> {
        self.entries@.map_values(|entry: (K, V)| entry.0@)
    }

    pub fn new() -> (map: Self)
        ensures
            map.wf(),
            map.entries@ == Seq::<(K, V)>::empty(),
            map@ == Map::<K::V, V>::empty(),
    {
        let map = OrdMap { entries: Vec::new() };
        assert(map@ =~= Map::<K::V, V>::empty());
        map
    }

    pub fn len(&self) -> (len: usize)
        ensures
            len == self.entries@.len(),
    {
        self.entries.len()
    }

    /// Where `key` is held, or else where it would be.
    pub fn find(&self, key: &K) -> (found: (usize, bool))
        requires
            self.wf(),
        ensures
            found.0 <= self.entries@.len(),
            forall|j: int| 0 <= j < found.0 ==> K::before((#[trigger] self.entries@[j]).0@, key@),
            forall|j: int|
                found.0 <= j < self.entries@.len() ==> !K::before(
                    (#[trigger] self.entries@[j]).0@,
                    key@,
                ),
            found.1 == self@.dom().contains(key@),
            found.1 ==> found.0 < self.entries@.len() && self.entries@[found.0 as int].0@ == key@
                && self.entries@[found.0 as int].1 == self@[key@],
            !found.1 ==> forall|j: int|
                found.0 <= j < self.entries@.len() ==> K::before(
                    key@,
                    (#[trigger] self.entries@[j]).0@,
                ),
    {
        let mut low: usize = 0;
        let mut high: usize = self.entries.len();
        while low < high
            invariant
                self.wf(),
                low <= high <= self.entries@.len(),
                forall|j: int| 0 <= j < low ==> K::before((#[trigger] self.entries@[j]).0@, key@),
                forall|j: int|
                    high <= j < self.entries@.len() ==> !K::before(
                        (#[trigger] self.entries@[j]).0@,
                        key@,
                    ),
            decreases high - low,
        {
            let mid: usize = low + (high - low) / 2;
            if self.entries[mid].0.less(key) {
                proof {
                    assert forall|j: int| 0 <= j < mid + 1 implies K::before(
                        (#[trigger] self.entries@[j]).0@,
                        key@,
                    ) by {
                        if j < mid {
                            K::before_transitive(
                                self.entries@[j].0@,
                                self.entries@[mid as int].0@,
                                key@,
                            );
                        }
                    }
                }
                low = mid + 1;
            } else {
                proof {
                    assert forall|j: int| mid <= j < self.entries@.len() implies !K::before(
                        (#[trigger] self.entries@[j]).0@,
                        key@,
                    ) by {
                        if mid < j && K::before(self.entries@[j].0@, key@) {
                            K::before_transitive(
                                self.entries@[mid as int].0@,
                                self.entries@[j].0@,
                                key@,
                            );
                        }
                    }
                }
                high = mid;
            }
        }
        let held = low < self.entries.len() && self.entries[low].0.same(key);
        proof {
            if held {
                lemma_at(self.entries@, low as int);
            } else {
                lemma_gap(self.entries@, low as int, key@);
            }
        }
        (low, held)
    }

    pub fn contains(&self, key: &K) -> (held: bool)
        requires
            self.wf(),
        ensures
            held == self@.dom().contains(key@),
    {
        self.find(key).1
    }

    pub fn get(&self, key: &K) -> (value: Option<&V>)
        requires
            self.wf(),
        ensures
            match value {
                Some(value) => self@.dom().contains(key@) && *value == self@[key@],
                None => !self@.dom().contains(key@),
            },
    {
        let (at, held) = self.find(key);
        if held {
            Some(&self.entries[at].1)
        } else {
            None
        }
    }

    /// Hold `value` under `key`, handing back what was held there.
    pub fn insert(&mut self, key: K, value: V) -> (replaced: Option<V>)
        requires
            old(self).wf(),
        ensures
            final(self).wf(),
            final(self)@ == old(self)@.insert(key@, value),
            match replaced {
                Some(replaced) => old(self)@.dom().contains(key@) && replaced == old(self)@[key@],
                None => !old(self)@.dom().contains(key@),
            },
    {
        let ghost before = self.entries@;
        let ghost given = key@;
        let (at, held) = self.find(&key);
        if held {
            let replaced = self.entries.remove(at);
            self.entries.insert(at, (key, value));
            proof {
                let after = self.entries@;
                assert(after =~= before.update(at as int, (key, value)));
                lemma_update(before, at as int, (key, value));
            }
            Some(replaced.1)
        } else {
            self.entries.insert(at, (key, value));
            proof {
                assert(self.entries@ =~= before.insert(at as int, (key, value)));
                lemma_insert(before, at as int, (key, value));
            }
            None
        }
    }

    /// Drop the entry of `key`, handing back its value.
    pub fn remove(&mut self, key: &K) -> (removed: Option<V>)
        requires
            old(self).wf(),
        ensures
            final(self).wf(),
            final(self)@ == old(self)@.remove(key@),
            match removed {
                Some(removed) => old(self)@.dom().contains(key@) && removed == old(self)@[key@],
                None => !old(self)@.dom().contains(key@),
            },
    {
        let ghost before = self.entries@;
        let (at, held) = self.find(key);
        if held {
            let removed = self.entries.remove(at);
            proof {
                assert(self.entries@ =~= before.remove(at as int));
                lemma_remove(before, at as int);
            }
            Some(removed.1)
        } else {
            assert(self@ =~= old(self)@.remove(key@));
            None
        }
    }

    /// The value of the entry at `at`, to be changed in place.
    pub fn value_mut(&mut self, at: usize) -> (value: &mut V)
        requires
            old(self).wf(),
            at < old(self).entries@.len(),
        ensures
            *value == old(self).entries@[at as int].1,
            final(self).wf(),
            final(self).entries@ == old(self).entries@.update(
                at as int,
                (old(self).entries@[at as int].0, *final(value)),
            ),
            final(self)@ == old(self)@.insert(
                old(self).entries@[at as int].0@,
                *final(value),
            ),
    {
        let ghost before = self.entries@;
        proof {
            assert forall|value: V| #![trigger before.update(at as int, (before[at as int].0, value))]
                ascending(before.update(at as int, (before[at as int].0, value))) && map_of(
                    before.update(at as int, (before[at as int].0, value)),
                ) == map_of(before).insert(before[at as int].0@, value) by {
                lemma_update(before, at as int, (before[at as int].0, value));
            }
        }
        &mut self.entries[at].1
    }

    /// Keep exactly the entries that `keep` admits.
    pub fn retain<F: Fn(&K, &V) -> bool>(&mut self, keep: F)
        requires
            old(self).wf(),
            forall|key: &K, value: &V| #[trigger] call_requires(keep, (key, value)),
        ensures
            final(self).wf(),
            forall|key: K::V| #[trigger] final(self)@.dom().contains(key) ==> old(
                self,
            )@.dom().contains(key) && final(self)@[key] == old(self)@[key],
            forall|i: int|
                #![trigger old(self).entries@[i]]
                0 <= i < old(self).entries@.len() ==> call_ensures(
                    keep,
                    (&old(self).entries@[i].0, &old(self).entries@[i].1),
                    final(self)@.dom().contains(old(self).entries@[i].0@),
                ),
            final(self).entries@.len() <= old(self).entries@.len(),
            final(self).entries@.len() == old(self).entries@.len() ==> final(self).entries@ == old(
                self,
            ).entries@,
    {
        let ghost before = self.entries@;
        let ghost mut fate: Seq<bool> = Seq::empty();
        let ghost mut from: Seq<int> = Seq::empty();
        let mut kept: Vec<(K, V)> = Vec::new();
        let mut held: Vec<(K, V)> = Vec::new();
        core::mem::swap(&mut held, &mut self.entries);
        for entry in it: held.into_iter()
            invariant
                it.seq() == before,
                fate.len() == it.index(),
                from.len() == kept@.len(),
                forall|a: int|
                    #![trigger from[a]]
                    0 <= a < from.len() ==> 0 <= from[a] < fate.len() && kept@[a] == before[from[a]]
                        && fate[from[a]],
                forall|a: int, b: int|
                    #![trigger from[a], from[b]]
                    0 <= a < b < from.len() ==> from[a] < from[b],
                forall|i: int|
                    #![trigger fate[i]]
                    0 <= i < fate.len() && fate[i] ==> exists|a: int|
                        0 <= a < from.len() && #[trigger] from[a] == i,
                forall|i: int|
                    #![trigger fate[i]]
                    0 <= i < fate.len() ==> call_ensures(
                        keep,
                        (&before[i].0, &before[i].1),
                        fate[i],
                    ),
                forall|key: &K, value: &V| #[trigger] call_requires(keep, (key, value)),
        {
            let keeps = keep(&entry.0, &entry.1);
            let ghost fate_before = fate;
            let ghost from_before = from;
            let ghost done: int = fate.len() as int;
            proof {
                assert(entry == before[done]);
                fate = fate.push(keeps);
            }
            if keeps {
                kept.push(entry);
                proof {
                    from = from.push(done);
                }
            }
            proof {
                assert forall|i: int|
                    #![trigger fate[i]]
                    0 <= i < done + 1 && fate[i] implies exists|a: int|
                    0 <= a < from.len() && #[trigger] from[a] == i by {
                    if i < done {
                        assert(fate_before[i]);
                        let a = choose|a: int|
                            0 <= a < from_before.len() && #[trigger] from_before[a] == i;
                        assert(from[a] == i);
                    } else {
                        assert(from[from.len() - 1] == i);
                    }
                }
            }
        }
        self.entries = kept;
        proof {
            let after = self.entries@;
            assert(fate.len() == before.len());
            lemma_ascending_within(from, before.len() as int);
            if after.len() == before.len() {
                assert forall|a: int| 0 <= a < after.len() implies after[a] == before[a] by {
                    assert(from[a] == a);
                }
                assert(after =~= before);
            }
            assert forall|i: int, j: int|
                #![trigger after[i], after[j]]
                0 <= i < j < after.len() implies K::before(after[i].0@, after[j].0@) by {
                assert(from[i] < from[j]);
                assert(K::before(before[from[i]].0@, before[from[j]].0@));
            }
            assert forall|key: K::V| #[trigger] self@.dom().contains(key) implies old(
                self,
            )@.dom().contains(key) && self@[key] == old(self)@[key] by {
                let a = choose|a: int| 0 <= a < after.len() && (#[trigger] after[a]).0@ == key;
                assert(from[a] < before.len());
                lemma_at(after, a);
                lemma_at(before, from[a]);
            }
            assert forall|i: int|
                #![trigger before[i]]
                0 <= i < before.len() implies call_ensures(
                keep,
                (&before[i].0, &before[i].1),
                self@.dom().contains(before[i].0@),
            ) by {
                assert(call_ensures(keep, (&before[i].0, &before[i].1), fate[i]));
                if fate[i] {
                    let a = choose|a: int| 0 <= a < from.len() && #[trigger] from[a] == i;
                    lemma_at(after, a);
                } else if self@.dom().contains(before[i].0@) {
                    let a = choose|a: int|
                        0 <= a < after.len() && (#[trigger] after[a]).0@ == before[i].0@;
                    assert(0 <= from[a] < before.len());
                    lemma_unique(before, from[a], i);
                    assert(false);
                }
            }
        }
    }
}

impl<K: Key, V> OrdMap<K, V> {
    /// Keep exactly the entries for which `pred` holds, as `keep` decides it.
    pub fn keep_where<F: Fn(&K, &V) -> bool>(
        &mut self,
        keep: F,
        Ghost(pred): Ghost<spec_fn(K::V, V) -> bool>,
    )
        requires
            old(self).wf(),
            forall|key: &K, value: &V| #[trigger] call_requires(keep, (key, value)),
            forall|key: &K, value: &V, keeps: bool| #[trigger]
                call_ensures(keep, (key, value), keeps) ==> keeps == pred(key@, *value),
        ensures
            final(self).wf(),
            final(self)@ == old(self)@.restrict(
                Set::new(|key: K::V| old(self)@.dom().contains(key) && pred(key, old(self)@[key])),
            ),
    {
        let ghost before = self.entries@;
        self.retain(keep);
        proof {
            let kept = Set::new(
                |key: K::V| map_of(before).dom().contains(key) && pred(key, map_of(before)[key]),
            );
            assert forall|key: K::V| #[trigger] self@.dom().contains(key) <==> map_of(
                before,
            ).dom().contains(key) && pred(key, map_of(before)[key]) by {
                if map_of(before).dom().contains(key) {
                    let w = choose|w: int|
                        0 <= w < before.len() && (#[trigger] before[w]).0@ == key;
                    lemma_at(before, w);
                    assert(call_ensures(
                        keep,
                        (&before[w].0, &before[w].1),
                        self@.dom().contains(before[w].0@),
                    ));
                }
            }
            assert(self@ =~= map_of(before).restrict(kept));
        }
    }
}

/// Positions picked in order out of the first `count`: each is at least its own
/// index, and none is passed over where all are picked.
proof fn lemma_ascending_within(from: Seq<int>, count: int)
    requires
        0 <= count,
        forall|a: int| #![trigger from[a]] 0 <= a < from.len() ==> 0 <= from[a] < count,
        forall|a: int, b: int|
            #![trigger from[a], from[b]]
            0 <= a < b < from.len() ==> from[a] < from[b],
    ensures
        from.len() <= count,
        from.len() == count ==> forall|a: int|
            #![trigger from[a]]
            0 <= a < from.len() ==> from[a] == a,
    decreases from.len(),
{
    if from.len() > 0 {
        let init = from.drop_last();
        let last = from[from.len() - 1];
        assert forall|a: int| #![trigger init[a]] 0 <= a < init.len() implies 0 <= init[a] < last by {
            assert(init[a] == from[a]);
        }
        assert forall|a: int, b: int|
            #![trigger init[a], init[b]]
            0 <= a < b < init.len() implies init[a] < init[b] by {
            assert(from[a] < from[b]);
        }
        lemma_ascending_within(init, last);
        if from.len() == count {
            assert forall|a: int| #![trigger from[a]] 0 <= a < from.len() implies from[a] == a by {
                if a < init.len() {
                    assert(init[a] == from[a]);
                }
            }
        }
    }
}

proof fn lemma_update<K: Key, V>(entries: Seq<(K, V)>, at: int, entry: (K, V))
    requires
        ascending(entries),
        0 <= at < entries.len(),
        entries[at].0@ == entry.0@,
    ensures
        ascending(entries.update(at, entry)),
        map_of(entries.update(at, entry)) == map_of(entries).insert(entry.0@, entry.1),
{
    let after = entries.update(at, entry);
    assert(ascending(after)) by {
        assert forall|i: int, j: int|
            #![trigger after[i], after[j]]
            0 <= i < j < after.len() implies K::before(after[i].0@, after[j].0@) by {
            assert(K::before(entries[i].0@, entries[j].0@));
        }
    }
    assert forall|key: K::V| has_key(after, key) == has_key(entries, key) by {
        if has_key(after, key) {
            let w = choose|w: int| 0 <= w < after.len() && (#[trigger] after[w]).0@ == key;
            assert(entries[w].0@ == key);
        }
        if has_key(entries, key) {
            let w = choose|w: int| 0 <= w < entries.len() && (#[trigger] entries[w]).0@ == key;
            assert(after[w].0@ == key);
        }
    }
    assert(has_key(entries, entry.0@)) by {
        assert(entries[at].0@ == entry.0@);
    }
    assert forall|key: K::V| has_key(after, key) implies map_of(after)[key] == map_of(
        entries,
    ).insert(entry.0@, entry.1)[key] by {
        let w = choose|w: int| 0 <= w < after.len() && (#[trigger] after[w]).0@ == key;
        lemma_at(after, w);
        lemma_at(entries, w);
        if w != at && key == entry.0@ {
            lemma_unique(entries, w, at);
        }
    }
    assert(map_of(after) =~= map_of(entries).insert(entry.0@, entry.1));
}

proof fn lemma_insert<K: Key, V>(entries: Seq<(K, V)>, at: int, entry: (K, V))
    requires
        ascending(entries),
        0 <= at <= entries.len(),
        forall|j: int| 0 <= j < at ==> K::before((#[trigger] entries[j]).0@, entry.0@),
        forall|j: int| at <= j < entries.len() ==> K::before(entry.0@, (#[trigger] entries[j]).0@),
    ensures
        ascending(entries.insert(at, entry)),
        map_of(entries.insert(at, entry)) == map_of(entries).insert(entry.0@, entry.1),
{
    let after = entries.insert(at, entry);
    assert forall|i: int| #![trigger after[i]] 0 <= i < after.len() implies after[i] == if i < at {
        entries[i]
    } else if i == at {
        entry
    } else {
        entries[i - 1]
    } by {}
    assert(ascending(after)) by {
        assert forall|i: int, j: int|
            #![trigger after[i], after[j]]
            0 <= i < j < after.len() implies K::before(after[i].0@, after[j].0@) by {
            let a = if i < at { i } else { i - 1 };
            let b = if j < at { j } else { j - 1 };
            if i != at && j != at {
                assert(K::before(entries[a].0@, entries[b].0@));
            } else if i == at {
                assert(K::before(entry.0@, entries[b].0@));
            } else {
                assert(K::before(entries[a].0@, entry.0@));
            }
        }
    }
    assert(after[at] == entry);
    assert forall|key: K::V| #[trigger] has_key(after, key) == (has_key(entries, key) || key
        == entry.0@) by {
        if has_key(after, key) {
            let w = choose|w: int| 0 <= w < after.len() && (#[trigger] after[w]).0@ == key;
            if w < at {
                assert(entries[w].0@ == key);
            } else if w > at {
                assert(entries[w - 1].0@ == key);
            }
        }
        if has_key(entries, key) {
            let w = choose|w: int| 0 <= w < entries.len() && (#[trigger] entries[w]).0@ == key;
            if w < at {
                assert(after[w].0@ == key);
            } else {
                assert(after[w + 1].0@ == key);
            }
        }
    }
    assert forall|key: K::V| has_key(after, key) implies map_of(after)[key] == map_of(
        entries,
    ).insert(entry.0@, entry.1)[key] by {
        let w = choose|w: int| 0 <= w < after.len() && (#[trigger] after[w]).0@ == key;
        lemma_at(after, w);
        if w < at {
            lemma_at(entries, w);
            if key == entry.0@ {
                lemma_unique(after, w, at);
            }
        } else if w > at {
            lemma_at(entries, w - 1);
            if key == entry.0@ {
                lemma_unique(after, w, at);
            }
        }
    }
    assert(map_of(after) =~= map_of(entries).insert(entry.0@, entry.1));
}

proof fn lemma_remove<K: Key, V>(entries: Seq<(K, V)>, at: int)
    requires
        ascending(entries),
        0 <= at < entries.len(),
    ensures
        ascending(entries.remove(at)),
        map_of(entries.remove(at)) == map_of(entries).remove(entries[at].0@),
{
    let after = entries.remove(at);
    assert forall|i: int| #![trigger after[i]] 0 <= i < after.len() implies after[i] == if i < at {
        entries[i]
    } else {
        entries[i + 1]
    } by {}
    assert(ascending(after)) by {
        assert forall|i: int, j: int|
            #![trigger after[i], after[j]]
            0 <= i < j < after.len() implies K::before(after[i].0@, after[j].0@) by {
            let a = if i < at { i } else { i + 1 };
            let b = if j < at { j } else { j + 1 };
            assert(K::before(entries[a].0@, entries[b].0@));
        }
    }
    let gone = entries[at].0@;
    assert forall|key: K::V| #[trigger] has_key(after, key) == (has_key(entries, key) && key
        != gone) by {
        if has_key(after, key) {
            let w = choose|w: int| 0 <= w < after.len() && (#[trigger] after[w]).0@ == key;
            let v = if w < at { w } else { w + 1 };
            assert(entries[v].0@ == key);
            if key == gone {
                lemma_unique(entries, v, at);
            }
        }
        if has_key(entries, key) && key != gone {
            let w = choose|w: int| 0 <= w < entries.len() && (#[trigger] entries[w]).0@ == key;
            if w < at {
                assert(after[w].0@ == key);
            } else {
                assert(after[w - 1].0@ == key);
            }
        }
    }
    assert forall|key: K::V| has_key(after, key) implies map_of(after)[key] == map_of(entries)[key] by {
        let w = choose|w: int| 0 <= w < after.len() && (#[trigger] after[w]).0@ == key;
        lemma_at(after, w);
        if w < at {
            lemma_at(entries, w);
        } else {
            lemma_at(entries, w + 1);
        }
    }
    assert(map_of(after) =~= map_of(entries).remove(gone));
}

/// A map holds as many keys as it has entries.
pub proof fn lemma_count<K: Key, V>(entries: Seq<(K, V)>)
    requires
        ascending(entries),
    ensures
        map_of(entries).dom().finite(),
        map_of(entries).dom().len() == entries.len(),
    decreases entries.len(),
{
    let keys = map_of(entries).dom();
    if entries.len() == 0 {
        assert(keys =~= Set::empty());
    } else {
        let init = entries.drop_last();
        let last = entries[entries.len() - 1].0@;
        assert(ascending(init)) by {
            assert forall|i: int, j: int|
                #![trigger init[i], init[j]]
                0 <= i < j < init.len() implies K::before(init[i].0@, init[j].0@) by {
                assert(K::before(entries[i].0@, entries[j].0@));
            }
        }
        lemma_count(init);
        let before = map_of(init).dom();
        assert forall|key: K::V| #[trigger] keys.contains(key) <==> (before.contains(key) || key
            == last) by {
            if keys.contains(key) {
                let w = choose|w: int| 0 <= w < entries.len() && (#[trigger] entries[w]).0@ == key;
                if w < init.len() {
                    assert(init[w].0@ == key);
                }
            }
            if before.contains(key) {
                let w = choose|w: int| 0 <= w < init.len() && (#[trigger] init[w]).0@ == key;
                assert(entries[w].0@ == key);
            }
            assert(entries[entries.len() - 1].0@ == last);
        }
        assert(keys =~= before.insert(last));
        if before.contains(last) {
            let w = choose|w: int| 0 <= w < init.len() && (#[trigger] init[w]).0@ == last;
            lemma_unique(entries, w, entries.len() - 1);
        }
    }
}

/// Maps with the same keys hold them at the same places.
pub proof fn lemma_same_keys<K: Key, V, W>(a: Seq<(K, V)>, b: Seq<(K, W)>)
    requires
        ascending(a),
        ascending(b),
        map_of(a).dom() == map_of(b).dom(),
    ensures
        a.len() == b.len(),
        forall|i: int| #![trigger a[i], b[i]] 0 <= i < a.len() ==> a[i].0@ == b[i].0@,
    decreases a.len(),
{
    lemma_count(a);
    lemma_count(b);
    if a.len() > 0 {
        let last_a = a[a.len() - 1].0@;
        let last_b = b[b.len() - 1].0@;
        assert(has_key(a, last_a) && has_key(b, last_b));
        assert(map_of(b).dom().contains(last_a));
        assert(map_of(a).dom().contains(last_b));
        let v = choose|v: int| 0 <= v < b.len() && (#[trigger] b[v]).0@ == last_a;
        let w = choose|w: int| 0 <= w < a.len() && (#[trigger] a[w]).0@ == last_b;
        if last_a != last_b {
            assert(K::before(b[v].0@, b[b.len() - 1].0@));
            assert(K::before(a[w].0@, a[a.len() - 1].0@));
            K::before_transitive(last_a, last_b, last_a);
            K::before_irreflexive(last_a);
        }
        let init_a = a.drop_last();
        let init_b = b.drop_last();
        assert(ascending(init_a)) by {
            assert forall|i: int, j: int|
                #![trigger init_a[i], init_a[j]]
                0 <= i < j < init_a.len() implies K::before(init_a[i].0@, init_a[j].0@) by {
                assert(K::before(a[i].0@, a[j].0@));
            }
        }
        assert(ascending(init_b)) by {
            assert forall|i: int, j: int|
                #![trigger init_b[i], init_b[j]]
                0 <= i < j < init_b.len() implies K::before(init_b[i].0@, init_b[j].0@) by {
                assert(K::before(b[i].0@, b[j].0@));
            }
        }
        assert forall|key: K::V| has_key(init_a, key) == has_key(init_b, key) by {
            if has_key(init_a, key) {
                let i = choose|i: int| 0 <= i < init_a.len() && (#[trigger] init_a[i]).0@ == key;
                assert(a[i].0@ == key);
                if key == last_a {
                    lemma_unique(a, i, a.len() - 1);
                }
                assert(map_of(b).dom().contains(key));
                let j = choose|j: int| 0 <= j < b.len() && (#[trigger] b[j]).0@ == key;
                assert(init_b[j].0@ == key);
            }
            if has_key(init_b, key) {
                let i = choose|i: int| 0 <= i < init_b.len() && (#[trigger] init_b[i]).0@ == key;
                assert(b[i].0@ == key);
                if key == last_b {
                    lemma_unique(b, i, b.len() - 1);
                }
                assert(map_of(a).dom().contains(key));
                let j = choose|j: int| 0 <= j < a.len() && (#[trigger] a[j]).0@ == key;
                assert(init_a[j].0@ == key);
            }
        }
        assert(map_of(init_a).dom() =~= map_of(init_b).dom());
        lemma_same_keys(init_a, init_b);
        assert forall|i: int| #![trigger a[i], b[i]] 0 <= i < a.len() implies a[i].0@ == b[i].0@ by {
            if i < init_a.len() {
                assert(init_a[i].0@ == init_b[i].0@);
            }
        }
    }
}

} // verus!
