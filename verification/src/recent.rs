//! The bytes of objects that this process wrote a short while ago, for those who
//! read along: a read of them asks nothing of the object store.
//!
//! What was written first goes first, whatever was read: a reader of what is long
//! past drives out nothing that others are about to read. Objects are written once
//! and their names are not used again, so what is held is what the store holds. One
//! that is written again all the same counts as written then.

use crate::ordmap::{lemma_at, Key, OrdMap};
use crate::path::{parts_under, prefix_parts};
use std::collections::VecDeque;
use vstd::prelude::*;
use vstd::string::*;

verus! {

/// The size above which nothing is held: one such object would drive out nearly
/// everything else.
pub const MAX_ENTRY_BYTES: usize = 8_388_608;

/// The bytes of an object.
#[derive(Debug)]
pub struct Entry {
    pub data: Vec<u8>,
    /// Whether they were read.
    pub read: bool,
}

impl View for Entry {
    type V = (Seq<u8>, bool);

    open spec fn view(&self) -> (Seq<u8>, bool) {
        (self.data@, self.read)
    }
}

/// What was written a short while ago.
#[derive(Debug)]
pub struct RecentWriteCache {
    pub entries: OrdMap<String, Entry>,
    /// The order in which it was written last.
    pub write_order: VecDeque<String>,
    pub bytes: u128,
    /// The bytes that may be held; zero, if nothing is.
    pub budget: usize,
}

/// The mathematical cache.
#[verifier::ext_equal]
pub struct Recent {
    pub entries: Map<Seq<char>, (Seq<u8>, bool)>,
    pub order: Seq<Seq<char>>,
    pub bytes: int,
    pub budget: int,
}

/// The bytes of what is held under the names of an order.
pub open spec fn held_bytes(order: Seq<Seq<char>>, entries: Map<Seq<char>, (Seq<u8>, bool)>) -> int
    decreases order.len(),
{
    if order.len() == 0 {
        0
    } else {
        held_bytes(order.drop_last(), entries) + entries[order.last()].0.len()
    }
}

/// An order without a name.
pub open spec fn without_name(order: Seq<Seq<char>>, name: Seq<char>) -> Seq<Seq<char>> {
    if order.contains(name) {
        order.remove(order.index_of(name))
    } else {
        order
    }
}

impl Recent {
    /// What is held is what the order names, each once, and its bytes are counted.
    pub open spec fn wf(self) -> bool {
        &&& self.order.no_duplicates()
        &&& forall|name: Seq<char>| #[trigger]
            self.entries.dom().contains(name) <==> self.order.contains(name)
        &&& self.bytes == held_bytes(self.order, self.entries)
    }

    /// Without the first name of the order, and what is held under it.
    pub open spec fn without_first(self) -> Recent {
        let first = self.order[0];
        Recent {
            entries: self.entries.remove(first),
            order: self.order.skip(1),
            bytes: self.bytes - self.entries[first].0.len(),
            budget: self.budget,
        }
    }

    /// Without what was written first, as far as it takes to keep to the budget.
    pub open spec fn settled(self) -> Recent
        decreases self.order.len(),
    {
        if self.bytes > self.budget && self.order.len() > 0 {
            self.without_first().settled()
        } else {
            self
        }
    }

    /// Whether an object of this size is held.
    pub open spec fn takes(self, size: nat) -> bool {
        self.budget != 0 && size <= MAX_ENTRY_BYTES && size <= self.budget
    }

    /// With another object, before the budget is looked at. One that was written before
    /// counts as written now.
    pub open spec fn with(self, name: Seq<char>, data: Seq<u8>) -> Recent {
        Recent {
            entries: self.entries.insert(name, (data, false)),
            order: without_name(self.order, name).push(name),
            bytes: self.bytes - (if self.entries.dom().contains(name) {
                self.entries[name].0.len() as int
            } else {
                0
            }) + data.len(),
            budget: self.budget,
        }
    }

    /// With another object, as far as it is held.
    pub open spec fn inserted(self, name: Seq<char>, data: Seq<u8>) -> Recent {
        if self.takes(data.len()) {
            self.with(name, data).settled()
        } else {
            self
        }
    }
}

proof fn lemma_bytes_first(order: Seq<Seq<char>>, entries: Map<Seq<char>, (Seq<u8>, bool)>)
    requires
        order.len() > 0,
    ensures
        held_bytes(order, entries) == entries[order[0]].0.len() + held_bytes(
            order.skip(1),
            entries,
        ),
    decreases order.len(),
{
    reveal_with_fuel(held_bytes, 2);
    if order.len() > 1 {
        lemma_bytes_first(order.drop_last(), entries);
        assert(order.drop_last().skip(1) =~= order.skip(1).drop_last());
    } else {
        assert(order.drop_last() =~= Seq::empty());
        assert(order.skip(1) =~= Seq::empty());
    }
}

proof fn lemma_bytes_same(
    order: Seq<Seq<char>>,
    a: Map<Seq<char>, (Seq<u8>, bool)>,
    b: Map<Seq<char>, (Seq<u8>, bool)>,
)
    requires
        forall|i: int|
            0 <= i < order.len() ==> a[#[trigger] order[i]].0.len() == b[order[i]].0.len(),
    ensures
        held_bytes(order, a) == held_bytes(order, b),
    decreases order.len(),
{
    if order.len() > 0 {
        let init = order.drop_last();
        assert forall|i: int| 0 <= i < init.len() implies a[#[trigger] init[i]].0.len()
            == b[init[i]].0.len() by {
            assert(init[i] == order[i]);
        }
        lemma_bytes_same(init, a, b);
        assert(order[order.len() - 1] == order.last());
    }
}

proof fn lemma_bytes_without(
    order: Seq<Seq<char>>,
    entries: Map<Seq<char>, (Seq<u8>, bool)>,
    at: int,
)
    requires
        0 <= at < order.len(),
    ensures
        held_bytes(order, entries) == held_bytes(order.remove(at), entries)
            + entries[order[at]].0.len(),
    decreases order.len(),
{
    if at == order.len() - 1 {
        assert(order.remove(at) =~= order.drop_last());
    } else {
        lemma_bytes_without(order.drop_last(), entries, at);
        assert(order.remove(at).drop_last() =~= order.drop_last().remove(at));
        assert(order.remove(at).last() == order.last());
    }
}

proof fn lemma_bytes_bounds(order: Seq<Seq<char>>, entries: Map<Seq<char>, (Seq<u8>, bool)>)
    ensures
        held_bytes(order, entries) >= 0,
    decreases order.len(),
{
    if order.len() > 0 {
        lemma_bytes_bounds(order.drop_last(), entries);
    }
}

proof fn lemma_without_first(state: Recent)
    requires
        state.wf(),
        state.order.len() > 0,
    ensures
        state.entries.dom().contains(state.order[0]),
        state.without_first().wf(),
        state.without_first().bytes >= 0,
{
    let next = state.without_first();
    let first = state.order[0];
    assert(state.order.contains(first));
    lemma_bytes_first(state.order, state.entries);
    assert forall|i: int| 0 <= i < next.order.len() implies #[trigger] next.order[i] != first by {
        assert(next.order[i] == state.order[i + 1]);
    }
    lemma_bytes_same(next.order, state.entries, next.entries);
    lemma_bytes_bounds(next.order, next.entries);
    assert forall|name: Seq<char>| #[trigger]
        next.entries.dom().contains(name) <==> next.order.contains(name) by {
        if next.entries.dom().contains(name) {
            assert(state.order.contains(name));
            let i = choose|i: int| 0 <= i < state.order.len() && state.order[i] == name;
            assert(next.order[i - 1] == name);
        }
        if next.order.contains(name) {
            let i = choose|i: int| 0 <= i < next.order.len() && next.order[i] == name;
            assert(state.order[i + 1] == name);
            assert(state.order.contains(name));
        }
    }
}

/// Whose turn it is to go goes to the end of the order.
proof fn lemma_rotated(state: Recent)
    requires
        state.wf(),
        state.order.len() > 0,
    ensures
        (Recent { order: state.order.skip(1).push(state.order[0]), ..state }).wf(),
{
    let first = state.order[0];
    let order = state.order.skip(1).push(first);
    lemma_bytes_first(state.order, state.entries);
    assert(order.drop_last() =~= state.order.skip(1));
    assert forall|name: Seq<char>| #[trigger]
        state.entries.dom().contains(name) <==> order.contains(name) by {
        if state.order.contains(name) {
            let i = choose|i: int| 0 <= i < state.order.len() && state.order[i] == name;
            if i > 0 {
                assert(order[i - 1] == name);
            } else {
                assert(order[order.len() - 1] == name);
            }
        }
        if order.contains(name) {
            let i = choose|i: int| 0 <= i < order.len() && order[i] == name;
            if i < order.len() - 1 {
                assert(state.order[i + 1] == name);
            } else {
                assert(state.order[0] == name);
            }
            assert(state.order.contains(name));
        }
    }
}

/// Where the names of an order are once one of them is taken out.
proof fn lemma_without_name(order: Seq<Seq<char>>, name: Seq<char>)
    requires
        order.no_duplicates(),
    ensures
        without_name(order, name).no_duplicates(),
        !without_name(order, name).contains(name),
        forall|other: Seq<char>|
            other != name ==> (#[trigger] without_name(order, name).contains(other)
                <==> order.contains(other)),
{
    let rest = without_name(order, name);
    if order.contains(name) {
        let at = order.index_of(name);
        assert forall|other: Seq<char>| other != name implies (#[trigger] rest.contains(other)
            <==> order.contains(other)) by {
            if order.contains(other) {
                let i = choose|i: int| 0 <= i < order.len() && order[i] == other;
                if i < at {
                    assert(rest[i] == other);
                } else {
                    assert(rest[i - 1] == other);
                }
            }
            if rest.contains(other) {
                let i = choose|i: int| 0 <= i < rest.len() && rest[i] == other;
                if i < at {
                    assert(order[i] == other);
                } else {
                    assert(order[i + 1] == other);
                }
            }
        }
        if rest.contains(name) {
            let i = choose|i: int| 0 <= i < rest.len() && rest[i] == name;
            if i < at {
                assert(order[i] == name);
            } else {
                assert(order[i + 1] == name);
            }
        }
    }
}

proof fn lemma_with(state: Recent, name: Seq<char>, data: Seq<u8>)
    requires
        state.wf(),
    ensures
        state.with(name, data).wf(),
        0 <= state.bytes,
        state.entries.dom().contains(name) ==> state.entries[name].0.len() <= state.bytes,
{
    let next = state.with(name, data);
    let rest = without_name(state.order, name);
    lemma_without_name(state.order, name);
    lemma_bytes_bounds(state.order, state.entries);
    lemma_bytes_bounds(rest, state.entries);
    if state.order.contains(name) {
        lemma_bytes_without(state.order, state.entries, state.order.index_of(name));
    }
    assert forall|i: int| 0 <= i < rest.len() implies #[trigger] rest[i] != name by {
        assert(rest.contains(rest[i]));
    }
    lemma_bytes_same(rest, state.entries, next.entries);
    assert(next.order.drop_last() =~= rest);
    assert forall|other: Seq<char>| #[trigger]
        next.entries.dom().contains(other) <==> next.order.contains(other) by {
        if rest.contains(other) {
            let i = choose|i: int| 0 <= i < rest.len() && rest[i] == other;
            assert(next.order[i] == other);
        }
        assert(next.order[rest.len() as int] == name);
        if next.order.contains(other) && other != name {
            let i = choose|i: int| 0 <= i < next.order.len() && next.order[i] == other;
            assert(rest[i] == other);
        }
    }
}

proof fn lemma_settled(state: Recent)
    requires
        state.wf(),
        state.budget >= 0,
    ensures
        state.settled().wf(),
        state.settled().bytes <= state.budget,
        state.settled().budget == state.budget,
        forall|name: Seq<char>| #[trigger]
            state.settled().entries.dom().contains(name) ==> state.entries.dom().contains(name)
                && state.settled().entries[name] == state.entries[name],
    decreases state.order.len(),
{
    if state.bytes > state.budget && state.order.len() > 0 {
        lemma_without_first(state);
        lemma_settled(state.without_first());
    }
}

/// The order in which a cache was written.
pub open spec fn names_view(names: Seq<String>) -> Seq<Seq<char>> {
    names.map_values(|name: String| name@)
}

/// What entries hold.
pub open spec fn contents(entries: Map<Seq<char>, Entry>) -> Map<Seq<char>, (Seq<u8>, bool)> {
    entries.map_values(|entry: Entry| entry@)
}

impl View for RecentWriteCache {
    type V = Recent;

    open spec fn view(&self) -> Recent {
        Recent {
            entries: contents(self.entries@),
            order: names_view(self.write_order@),
            bytes: self.bytes as int,
            budget: self.budget as int,
        }
    }
}

/// Take a name out of an order.
fn drop_name(order: &mut VecDeque<String>, name: &String)
    requires
        names_view(old(order)@).no_duplicates(),
    ensures
        names_view(final(order)@) == without_name(names_view(old(order)@), name@),
{
    let ghost all = names_view(order@);
    let mut at: usize = 0;
    while at < order.len()
        invariant
            at <= order@.len(),
            *order == *old(order),
            all == names_view(order@),
            all.no_duplicates(),
            forall|i: int| 0 <= i < at ==> #[trigger] all[i] != name@,
        decreases order@.len() - at,
    {
        assert(all[at as int] == order@[at as int]@);
        if order[at].same(name) {
            let _ = order.remove(at);
            proof {
                assert(all.contains(name@));
                assert(all[all.index_of(name@)] == name@);
                assert(all.index_of(name@) == at);
                assert(names_view(order@) =~= all.remove(at as int));
            }
            return ;
        }
        at = at + 1;
    }
    assert(!all.contains(name@));
}

impl RecentWriteCache {
    /// What is held is counted, and keeps to the budget.
    pub open spec fn wf(&self) -> bool {
        &&& self.entries.wf()
        &&& self@.wf()
        &&& self.bytes <= self.budget
    }

    /// Nothing was written.
    pub fn new(budget: usize) -> (cache: Self)
        ensures
            cache.wf(),
            cache@ == (Recent {
                entries: Map::empty(),
                order: Seq::empty(),
                bytes: 0,
                budget: budget as int,
            }),
    {
        let cache = RecentWriteCache {
            entries: OrdMap::new(),
            write_order: VecDeque::new(),
            bytes: 0,
            budget,
        };
        assert(cache@ =~= (Recent {
            entries: Map::empty(),
            order: Seq::empty(),
            bytes: 0,
            budget: budget as int,
        }));
        cache
    }

    /// Hold the bytes of an object that was just written, and drop what was written
    /// first until the budget is kept to. One that is too large is not held, and
    /// drops nothing.
    pub fn insert(&mut self, location: String, data: Vec<u8>)
        requires
            old(self).wf(),
        ensures
            final(self).wf(),
            final(self)@ == old(self)@.inserted(location@, data@),
    {
        let len: usize = data.len();
        if self.budget == 0 || len > MAX_ENTRY_BYTES || len > self.budget {
            return ;
        }
        let ghost name = location@;
        let ghost bytes = data@;
        proof {
            lemma_with(self@, name, bytes);
        }
        let ghost before = self@;
        let replaced = self.entries.insert(location.clone(), Entry { data, read: false });
        if let Some(replaced) = replaced {
            assert(before.entries[name] == replaced@);
            self.bytes = self.bytes - replaced.data.len() as u128;
            drop_name(&mut self.write_order, &location);
        }
        self.bytes = self.bytes + len as u128;
        let ghost written = self.write_order@;
        self.write_order.push_back(location);
        proof {
            assert(names_view(self.write_order@) =~= names_view(written).push(name));
            assert(self@.entries =~= before.with(name, bytes).entries);
            assert(self@ =~= before.with(name, bytes));
            lemma_settled(self@);
        }
        let ghost due = self@.settled();
        while self.bytes > self.budget as u128 && self.write_order.len() > 0
            invariant
                self.entries.wf(),
                self@.wf(),
                self@.budget == old(self)@.budget,
                self@.settled() == due,
            decreases self.write_order@.len(),
        {
            let ghost state = self@;
            let ghost queue = self.write_order@;
            let ghost held = self.entries@;
            proof {
                lemma_without_first(state);
            }
            let oldest = self.write_order.pop_front();
            match oldest {
                Some(oldest) => {
                    proof {
                        assert(state.order[0] == oldest@);
                        assert(names_view(self.write_order@) =~= state.order.skip(1));
                    }
                    if let Some(evicted) = self.entries.remove(&oldest) {
                        assert(state.entries[oldest@] == evicted@);
                        self.bytes = self.bytes - evicted.data.len() as u128;
                    }
                    proof {
                        assert(self@.entries =~= state.entries.remove(oldest@));
                        assert(self@ =~= state.without_first());
                    }
                },
                None => {},
            }
        }
        proof {
            assert(self@.settled() == self@);
        }
    }

    /// The bytes of an object, if they are held.
    pub fn get(&mut self, location: &str) -> (data: Option<Vec<u8>>)
        requires
            old(self).wf(),
        ensures
            final(self).wf(),
            match data {
                Some(data) => {
                    &&& old(self)@.budget != 0
                    &&& old(self)@.entries.dom().contains(location@)
                    &&& data@ == old(self)@.entries[location@].0
                    &&& final(self)@ == (Recent {
                        entries: old(self)@.entries.insert(location@, (data@, true)),
                        ..old(self)@
                    })
                },
                None => {
                    &&& old(self)@.budget == 0 || !old(self)@.entries.dom().contains(location@)
                    &&& *final(self) == *old(self)
                },
            },
    {
        if self.budget == 0 {
            return None;
        }
        let key = String::from_str(location);
        let ghost before = self@;
        let (at, held) = self.entries.find(&key);
        if !held {
            return None;
        }
        let ghost entries = self.entries.entries@;
        proof {
            lemma_at(entries, at as int);
        }
        let entry = self.entries.value_mut(at);
        let data = crate::segment::copy_all(&entry.data);
        entry.read = true;
        proof {
            let after = before.entries.insert(location@, (data@, true));
            assert(self@.entries =~= after);
            assert(after.dom() =~= before.entries.dom());
            lemma_bytes_same(before.order, before.entries, after);
        }
        Some(data)
    }

    /// Drop what is held under a prefix: names under the prefix of a topic are used
    /// again once the topic was deleted.
    pub fn purge_prefix(&mut self, prefix: &str)
        requires
            old(self).wf(),
        ensures
            final(self).wf(),
            final(self)@.budget == old(self)@.budget,
            old(self)@.budget == 0 ==> *final(self) == *old(self),
            old(self)@.budget != 0 ==> final(self)@.entries == purged(old(self)@.entries, prefix@)
                && final(self)@.order == old(self)@.order.filter(is_elsewhere(prefix@)),
    {
        if self.budget == 0 {
            return ;
        }
        let ghost before = self@;
        let count: usize = self.write_order.len();
        let mut at: usize = 0;
        proof {
            reveal(Seq::filter);
            assert(before.order.take(0).filter(is_elsewhere(prefix@)) =~= Seq::empty());
            assert(before.order.skip(0) + Seq::<Seq<char>>::empty() =~= before.order);
        }
        while at < count
            invariant
                at <= count,
                count == before.order.len(),
                before.wf(),
                self.entries.wf(),
                self@.wf(),
                self.bytes <= self.budget,
                self@.budget == before.budget,
                self@.order == before.order.skip(at as int) + before.order.take(at as int).filter(
                    is_elsewhere(prefix@),
                ),
                forall|name: Seq<char>| #[trigger]
                    self@.entries.dom().contains(name) ==> before.entries.dom().contains(name)
                        && self@.entries[name] == before.entries[name],
            decreases count - at,
        {
            let ghost state = self@;
            let ghost seen = before.order.take(at as int).filter(is_elsewhere(prefix@));
            let ghost name = before.order[at as int];
            proof {
                reveal(Seq::filter);
                lemma_without_first(state);
                lemma_rotated(state);
                assert(state.order[0] == name);
                assert(before.order.take(at + 1).drop_last() =~= before.order.take(at as int));
                assert(before.order.take(at + 1).last() == name);
                assert(state.order.skip(1) =~= before.order.skip(at + 1) + seen);
            }
            if let Some(oldest) = self.write_order.pop_front() {
                proof {
                    assert(oldest@ == name);
                    assert(names_view(self.write_order@) =~= state.order.skip(1));
                }
                let under = match prefix_parts(oldest.as_str(), prefix) {
                    Some(_) => true,
                    None => false,
                };
                if under {
                    if let Some(entry) = self.entries.remove(&oldest) {
                        assert(state.entries[name] == entry@);
                        self.bytes = self.bytes - entry.data.len() as u128;
                    }
                    proof {
                        assert(self@.entries =~= state.entries.remove(name));
                        assert(self@ =~= state.without_first());
                    }
                } else {
                    let ghost queue = self.write_order@;
                    self.write_order.push_back(oldest);
                    proof {
                        assert(names_view(self.write_order@) =~= names_view(queue).push(name));
                        assert(self@ =~= (Recent {
                            order: state.order.skip(1).push(name),
                            ..state
                        }));
                        assert(self@.order =~= before.order.skip(at + 1) + seen.push(name));
                    }
                }
            }
            at = at + 1;
        }
        proof {
            assert(before.order.take(at as int) =~= before.order);
            assert(before.order.skip(at as int) + before.order.filter(is_elsewhere(prefix@))
                =~= before.order.filter(is_elsewhere(prefix@)));
            lemma_kept(before.order, prefix@);
            assert(self@.entries =~= purged(before.entries, prefix@)) by {
                assert forall|name: Seq<char>| #[trigger]
                    self@.entries.dom().contains(name) <==> purged(
                        before.entries,
                        prefix@,
                    ).dom().contains(name) by {
                    assert(self@.entries.dom().contains(name) <==> self@.order.contains(name));
                    assert(before.entries.dom().contains(name) <==> before.order.contains(name));
                }
            }
        }
    }

    /// Whether the bytes of an object are held.
    pub fn contains(&self, location: &str) -> (held: bool)
        requires
            self.wf(),
        ensures
            held == self@.entries.dom().contains(location@),
    {
        self.entries.contains(&String::from_str(location))
    }

    /// How many objects are held.
    pub fn len(&self) -> (len: usize)
        requires
            self.wf(),
        ensures
            len == self@.entries.dom().len(),
            self@.entries.dom().finite(),
    {
        proof {
            crate::ordmap::lemma_count(self.entries.entries@);
            assert(self@.entries.dom() =~= self.entries@.dom());
        }
        self.entries.entries.len()
    }

    /// How many bytes are held.
    pub fn resident_bytes(&self) -> (bytes: usize)
        requires
            self.wf(),
        ensures
            bytes == self@.bytes,
    {
        self.bytes as usize
    }
}

/// What is held that is not under a prefix.
pub open spec fn purged(entries: Map<Seq<char>, (Seq<u8>, bool)>, prefix: Seq<char>) -> Map<
    Seq<char>,
    (Seq<u8>, bool),
> {
    entries.restrict(
        Set::new(
            |name: Seq<char>| entries.dom().contains(name) && parts_under(name, prefix) is None,
        ),
    )
}

/// Whether a name is not under a prefix.
pub open spec fn is_elsewhere(prefix: Seq<char>) -> spec_fn(Seq<char>) -> bool {
    |name: Seq<char>| parts_under(name, prefix) is None
}

proof fn lemma_kept(order: Seq<Seq<char>>, prefix: Seq<char>)
    ensures
        forall|name: Seq<char>| #[trigger]
            order.filter(is_elsewhere(prefix)).contains(name) <==> order.contains(name)
                && parts_under(name, prefix) is None,
    decreases order.len(),
{
    reveal(Seq::filter);
    let kept = order.filter(is_elsewhere(prefix));
    if order.len() > 0 {
        let init = order.drop_last();
        let before = init.filter(is_elsewhere(prefix));
        lemma_kept(init, prefix);
        assert forall|name: Seq<char>| #[trigger] kept.contains(name) <==> order.contains(name)
            && parts_under(name, prefix) is None by {
            if kept.contains(name) {
                let i = choose|i: int| 0 <= i < kept.len() && kept[i] == name;
                if i < before.len() {
                    assert(before[i] == name);
                    assert(before.contains(name));
                    let w = choose|w: int| 0 <= w < init.len() && init[w] == name;
                    assert(order[w] == name);
                } else {
                    assert(order[order.len() - 1] == name);
                }
            }
            if order.contains(name) && parts_under(name, prefix) is None {
                let w = choose|w: int| 0 <= w < order.len() && order[w] == name;
                if w < init.len() {
                    assert(init[w] == name);
                    assert(before.contains(name));
                    let i = choose|i: int| 0 <= i < before.len() && before[i] == name;
                    assert(kept[i] == name);
                } else {
                    assert(kept[kept.len() - 1] == name);
                }
            }
        }
    }
}

/// Nothing is held if nothing may be.
pub proof fn nothing_is_held_without_a_budget(state: Recent, name: Seq<char>, data: Seq<u8>)
    requires
        state.budget == 0,
    ensures
        state.inserted(name, data) == state,
{
}

/// What is held keeps to the budget, and what was held before or was written now is
/// what is held.
pub proof fn writing_keeps_to_the_budget(state: Recent, name: Seq<char>, data: Seq<u8>)
    requires
        state.wf(),
        0 <= state.bytes <= state.budget,
    ensures
        state.inserted(name, data).wf(),
        state.inserted(name, data).bytes <= state.budget,
        forall|other: Seq<char>| #[trigger]
            state.inserted(name, data).entries.dom().contains(other) ==> if other == name
                && state.takes(data.len()) {
                state.inserted(name, data).entries[other] == (data, false)
            } else {
                state.entries.dom().contains(other) && state.inserted(name, data).entries[other]
                    == state.entries[other]
            },
{
    if state.takes(data.len()) {
        lemma_with(state, name, data);
        lemma_settled(state.with(name, data));
    }
}

proof fn lemma_last_stays(state: Recent)
    requires
        state.wf(),
        state.order.len() > 0,
        state.entries[state.order.last()].0.len() <= state.budget,
    ensures
        state.settled().entries.dom().contains(state.order.last()),
    decreases state.order.len(),
{
    let name = state.order.last();
    assert(state.order[state.order.len() - 1] == name);
    assert(state.order.contains(name));
    if state.bytes > state.budget {
        let next = state.without_first();
        if state.order.len() == 1 {
            assert(held_bytes(state.order.drop_last(), state.entries) == 0);
        } else {
            lemma_without_first(state);
            assert(next.order.last() == name);
            assert(state.order[0] != name);
            lemma_last_stays(next);
        }
    }
}

/// An object that is not too large is held once it was written: what was written before
/// it goes first.
pub proof fn what_was_written_last_is_held(state: Recent, name: Seq<char>, data: Seq<u8>)
    requires
        state.wf(),
        state.takes(data.len()),
    ensures
        state.inserted(name, data).entries.dom().contains(name),
        state.inserted(name, data).entries[name] == (data, false),
{
    let next = state.with(name, data);
    lemma_with(state, name, data);
    lemma_last_stays(next);
    lemma_settled(next);
}

proof fn lemma_order_of_leaving(state: Recent, i: int, j: int)
    requires
        state.wf(),
        state.budget >= 0,
        0 <= i < j < state.order.len(),
        !state.settled().entries.dom().contains(state.order[j]),
    ensures
        !state.settled().entries.dom().contains(state.order[i]),
    decreases state.order.len(),
{
    assert(state.order.contains(state.order[j]));
    if state.bytes > state.budget && state.order.len() > 0 {
        let next = state.without_first();
        lemma_without_first(state);
        lemma_settled(next);
        if i == 0 {
            assert(!next.entries.dom().contains(state.order[0]));
        } else {
            assert(next.order[i - 1] == state.order[i]);
            assert(next.order[j - 1] == state.order[j]);
            lemma_order_of_leaving(next, i - 1, j - 1);
        }
    }
}

/// What was written first goes first: where an object goes, everything goes that was
/// last written before it, read or not. What is written now is none of that.
pub proof fn what_was_written_first_goes_first(
    state: Recent,
    name: Seq<char>,
    data: Seq<u8>,
    i: int,
    j: int,
)
    requires
        state.wf(),
        0 <= state.bytes <= state.budget,
        0 <= i < j < state.order.len(),
        state.order[i] != name,
        !state.inserted(name, data).entries.dom().contains(state.order[j]),
    ensures
        !state.inserted(name, data).entries.dom().contains(state.order[i]),
{
    let next = state.with(name, data);
    lemma_with(state, name, data);
    assert(state.order.contains(state.order[j]));
    if state.takes(data.len()) {
        if state.order[j] == name {
            what_was_written_last_is_held(state, name, data);
        } else {
            let at = if state.order.contains(name) {
                state.order.index_of(name)
            } else {
                state.order.len() as int
            };
            let a = if i < at {
                i
            } else {
                i - 1
            };
            let b = if j < at {
                j
            } else {
                j - 1
            };
            if state.order.contains(name) {
                assert(state.order[at] == name);
            }
            assert(next.order[a] == state.order[i]);
            assert(next.order[b] == state.order[j]);
            lemma_order_of_leaving(next, a, b);
        }
    }
}

/// What is held of objects: one that is larger than an entry may be, or than the budget,
/// is not, and leaves all that was held; any other is, unless nothing may be held.
pub proof fn what_is_too_large_is_not_held(state: Recent, name: Seq<char>, data: Seq<u8>)
    ensures
        data.len() > MAX_ENTRY_BYTES || data.len() > state.budget ==> state.inserted(name, data)
            == state,
        0 < state.budget && data.len() <= MAX_ENTRY_BYTES && data.len() <= state.budget
            ==> state.takes(data.len()),
{
}

/// No more goes than has to: what is left of an order is its end, nothing goes while the
/// budget is kept, and without what went last it would not have been.
pub proof fn nothing_goes_that_need_not(state: Recent)
    requires
        state.wf(),
    ensures
        ({
            let after = state.settled();
            let gone = state.order.len() - after.order.len();
            &&& gone >= 0
            &&& after.order == state.order.skip(gone)
            &&& after.budget == state.budget
            &&& state.bytes <= state.budget ==> after == state
            &&& gone == 0 ==> after == state
            &&& gone > 0 ==> after.bytes + state.entries[state.order[gone - 1]].0.len()
                > state.budget
            &&& forall|i: int|
                gone <= i < state.order.len() ==> after.entries.dom().contains(
                    #[trigger] state.order[i],
                ) && after.entries[state.order[i]] == state.entries[state.order[i]]
        }),
    decreases state.order.len(),
{
    let after = state.settled();
    assert(state.order.skip(0) =~= state.order);
    assert forall|i: int| 0 <= i < state.order.len() implies state.entries.dom().contains(
        #[trigger] state.order[i],
    ) by {
        assert(state.order.contains(state.order[i]));
    }
    if state.bytes > state.budget && state.order.len() > 0 {
        let next = state.without_first();
        let first = state.order[0];
        lemma_without_first(state);
        nothing_goes_that_need_not(next);
        let gone = next.order.len() - after.order.len();
        assert(next.order.skip(gone) =~= state.order.skip(gone + 1));
        assert forall|i: int| 0 < i < state.order.len() implies #[trigger] state.order[i]
            == next.order[i - 1] && state.order[i] != first by {}
        if gone > 0 {
            assert(next.order[gone - 1] == state.order[gone]);
            assert(next.entries[next.order[gone - 1]] == state.entries[state.order[gone]]);
        }
        assert forall|i: int| gone + 1 <= i < state.order.len() implies after.entries.dom().contains(
            #[trigger] state.order[i],
        ) && after.entries[state.order[i]] == state.entries[state.order[i]] by {
            assert(after.entries.dom().contains(next.order[i - 1]));
        }
    }
}

/// What is under a prefix goes, and nothing else.
pub proof fn only_what_is_under_a_prefix_is_purged(
    entries: Map<Seq<char>, (Seq<u8>, bool)>,
    prefix: Seq<char>,
    name: Seq<char>,
)
    ensures
        purged(entries, prefix).dom().contains(name) <==> entries.dom().contains(name)
            && parts_under(name, prefix) is None,
        purged(entries, prefix).dom().contains(name) ==> purged(entries, prefix)[name]
            == entries[name],
{
}

} // verus!
