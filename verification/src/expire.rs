//! Groups that nothing was heard of, and documents of members that no composition
//! names: which of them are dropped.

use crate::groups::{document_of, owner_of};
use crate::members::GenerationMember;
use crate::ordmap::{lemma_at, lemma_count, map_of, Key, OrdMap};
use crate::store::DynoStore;
use crate::text::{lemma_text_irreflexive, lemma_text_total, lemma_text_transitive, text_before};
use vstd::prelude::*;
use vstd::string::*;

verus! {

/// How long a group is kept that nothing is heard of: seven days, in milliseconds.
pub const GROUP_RETENTION_MS: i64 = 604_800_000;

/// Groups that one round drops at most.
pub const GROUP_EXPIRE_CHUNK: usize = 1_000;

/// The age at which the document of a member is looked at: an hour, in milliseconds.
/// A member that a composition names renews its document within its session.
pub const GROUP_MEMBER_ORPHAN_AGE_MS: i64 = 3_600_000;

/// Documents of members that one round drops.
pub const GROUP_MEMBER_RECLAIM_CHUNK: u64 = 10_000;

/// An object that was listed.
#[derive(Debug)]
pub struct Listed {
    pub location: String,
    /// When it was written, in milliseconds since the epoch.
    pub modified_ms: i64,
}

/// A group, and when anything of it was last written.
#[derive(Debug)]
pub struct AgedGroup {
    pub latest_ms: i64,
    pub group_id: String,
}

impl View for AgedGroup {
    type V = (i64, Seq<char>);

    open spec fn view(&self) -> (i64, Seq<char>) {
        (self.latest_ms, self.group_id@)
    }
}

/// The order of age, oldest first.
pub open spec fn older(a: (i64, Seq<char>), b: (i64, Seq<char>)) -> bool {
    a.0 < b.0 || (a.0 == b.0 && text_before(a.1, b.1))
}

impl Key for AgedGroup {
    open spec fn before(a: (i64, Seq<char>), b: (i64, Seq<char>)) -> bool {
        older(a, b)
    }

    proof fn before_irreflexive(a: (i64, Seq<char>)) {
        assert(Self::before(a, a) == older(a, a));
        lemma_text_irreflexive(a.1);
    }

    proof fn before_transitive(a: (i64, Seq<char>), b: (i64, Seq<char>), c: (i64, Seq<char>)) {
        assert(Self::before(a, b) == older(a, b));
        assert(Self::before(b, c) == older(b, c));
        assert(Self::before(a, c) == older(a, c));
        if a.0 == b.0 && b.0 == c.0 {
            lemma_text_transitive(a.1, b.1, c.1);
        }
    }

    proof fn before_total(a: (i64, Seq<char>), b: (i64, Seq<char>)) {
        assert(Self::before(a, b) == older(a, b));
        assert(Self::before(b, a) == older(b, a));
        lemma_text_total(a.1, b.1);
    }

    fn less(&self, other: &Self) -> (less: bool) {
        assert(Self::before(self@, other@) == older(self@, other@));
        self.latest_ms < other.latest_ms || (self.latest_ms == other.latest_ms
            && self.group_id.less(&other.group_id))
    }

    fn same(&self, other: &Self) -> (same: bool) {
        self.latest_ms == other.latest_ms && self.group_id.same(&other.group_id)
    }

    fn duplicate(&self) -> (copy: Self) {
        AgedGroup { latest_ms: self.latest_ms, group_id: self.group_id.clone() }
    }
}

/// A time before another.
pub open spec fn ago(now_ms: i64, span: i64) -> i64 {
    if now_ms - span < i64::MIN {
        i64::MIN
    } else {
        (now_ms - span) as i64
    }
}

fn time_ago(now_ms: i64, span: i64) -> (time: i64)
    requires
        span >= 0,
    ensures
        time == ago(now_ms, span),
{
    match now_ms.checked_sub(span) {
        Some(time) => time,
        None => i64::MIN,
    }
}

/// The time before which a group must not have been heard of to be dropped.
pub fn expiry_threshold(now_ms: i64) -> (time: i64)
    ensures
        time == ago(now_ms, GROUP_RETENTION_MS),
{
    time_ago(now_ms, GROUP_RETENTION_MS)
}

/// The time before which the document of a member must have been written to be
/// looked at.
pub fn orphan_threshold(now_ms: i64) -> (time: i64)
    ensures
        time == ago(now_ms, GROUP_MEMBER_ORPHAN_AGE_MS),
{
    time_ago(now_ms, GROUP_MEMBER_ORPHAN_AGE_MS)
}

/// What a listing of the consumer tree comes to.
#[derive(Debug)]
pub struct GroupTally {
    /// When anything of each group was last written.
    pub latest: OrdMap<String, i64>,
    /// The groups that have a document of a member old enough to be looked at.
    pub aged_members: OrdMap<String, ()>,
}

/// The mathematical tally.
#[verifier::ext_equal]
pub struct Tally {
    pub latest: Map<Seq<char>, i64>,
    pub aged_members: Set<Seq<char>>,
}

impl View for GroupTally {
    type V = Tally;

    open spec fn view(&self) -> Tally {
        Tally { latest: self.latest@, aged_members: self.aged_members@.dom() }
    }
}

impl Tally {
    /// Nothing was listed.
    pub open spec fn blank() -> Tally {
        Tally { latest: Map::empty(), aged_members: Set::empty() }
    }

    /// The tally with another object.
    pub open spec fn with(
        self,
        cluster: Seq<char>,
        root: Seq<char>,
        orphan_ms: i64,
        location: Seq<char>,
        modified_ms: i64,
    ) -> Tally {
        match owner_of(root, location) {
            None => self,
            Some(group_id) => Tally {
                latest: self.latest.insert(
                    group_id,
                    if self.latest.dom().contains(group_id) && self.latest[group_id] >= modified_ms {
                        self.latest[group_id]
                    } else {
                        modified_ms
                    },
                ),
                aged_members: match document_of(cluster, root, location) {
                    Some(document) if modified_ms < orphan_ms => self.aged_members.insert(
                        document.0,
                    ),
                    _ => self.aged_members,
                },
            },
        }
    }
}

/// The groups that are dropped, and those whose members' documents are looked at.
#[derive(Debug)]
pub struct Expiry {
    /// The groups that are dropped, oldest first.
    pub stale: Vec<String>,
    /// Whether more are left for the next round.
    pub capped: bool,
    pub aged_members: OrdMap<String, ()>,
}

/// The groups that nothing was heard of since a time.
pub open spec fn condemned(latest: Map<Seq<char>, i64>, threshold_ms: i64) -> Set<
    (i64, Seq<char>),
> {
    Set::new(
        |group: (i64, Seq<char>)|
            latest.dom().contains(group.1) && latest[group.1] == group.0 && group.0 < threshold_ms,
    )
}

impl GroupTally {
    pub open spec fn wf(&self) -> bool {
        self.latest.wf() && self.aged_members.wf()
    }

    /// Nothing was listed.
    pub fn new() -> (tally: Self)
        ensures
            tally.wf(),
            tally@ == Tally::blank(),
    {
        let tally = GroupTally { latest: OrdMap::new(), aged_members: OrdMap::new() };
        assert(tally@ =~= Tally::blank());
        tally
    }

    /// Take in an object of the listing. Whatever a group owns counts as a sign of
    /// it.
    pub fn note(&mut self, store: &DynoStore, root: &str, orphan_ms: i64, listed: &Listed)
        requires
            old(self).wf(),
        ensures
            final(self).wf(),
            final(self)@ == old(self)@.with(
                store.identity.cluster@,
                root@,
                orphan_ms,
                listed.location@,
                listed.modified_ms,
            ),
    {
        let location = listed.location.as_str();
        let modified: i64 = listed.modified_ms;
        let group_id = match DynoStore::group_of(root, location) {
            Some(group_id) => group_id,
            None => {
                return ;
            },
        };
        if modified < orphan_ms {
            match store.member_document_of(root, location) {
                Some((member_group, _)) => {
                    let ghost before = self.aged_members@;
                    let ghost name = member_group@;
                    let _ = self.aged_members.insert(member_group, ());
                    assert(self.aged_members@.dom() =~= before.dom().insert(name));
                },
                None => {},
            }
        }
        let latest: i64 = match self.latest.get(&group_id) {
            Some(held) => if *held >= modified {
                *held
            } else {
                modified
            },
            None => modified,
        };
        let _ = self.latest.insert(group_id, latest);
        assert(self@ =~= old(self)@.with(
            store.identity.cluster@,
            root@,
            orphan_ms,
            listed.location@,
            listed.modified_ms,
        ));
    }

    /// The groups that nothing was heard of, oldest first.
    fn aged(&self, threshold_ms: i64) -> (aged: OrdMap<AgedGroup, ()>)
        requires
            self.wf(),
        ensures
            aged.wf(),
            aged@.dom() == condemned(self@.latest, threshold_ms),
    {
        let ghost entries = self.latest.entries@;
        let mut aged: OrdMap<AgedGroup, ()> = OrdMap::new();
        let mut at: usize = 0;
        while at < self.latest.entries.len()
            invariant
                self.wf(),
                entries == self.latest.entries@,
                at <= entries.len(),
                aged.wf(),
                forall|group: (i64, Seq<char>)| #[trigger]
                    aged@.dom().contains(group) <==> group.0 < threshold_ms && exists|i: int|
                        0 <= i < at && (#[trigger] entries[i]).0@ == group.1 && entries[i].1
                            == group.0,
            decreases entries.len() - at,
        {
            let (group_id, latest) = &self.latest.entries[at];
            let ghost before = aged@;
            if *latest < threshold_ms {
                let _ = aged.insert(
                    AgedGroup { latest_ms: *latest, group_id: group_id.clone() },
                    (),
                );
            }
            proof {
                assert forall|group: (i64, Seq<char>)| #[trigger]
                    aged@.dom().contains(group) <==> group.0 < threshold_ms && exists|i: int|
                        0 <= i < at + 1 && (#[trigger] entries[i]).0@ == group.1 && entries[i].1
                            == group.0 by {
                    if aged@.dom().contains(group) {
                        if before.dom().contains(group) {
                            let i = choose|i: int|
                                0 <= i < at && (#[trigger] entries[i]).0@ == group.1
                                    && entries[i].1 == group.0;
                            assert(entries[i].0@ == group.1);
                        } else {
                            assert(entries[at as int].0@ == group.1);
                        }
                    }
                    if group.0 < threshold_ms && exists|i: int|
                        0 <= i < at + 1 && (#[trigger] entries[i]).0@ == group.1 && entries[i].1
                            == group.0 {
                        let i = choose|i: int|
                            0 <= i < at + 1 && (#[trigger] entries[i]).0@ == group.1
                                && entries[i].1 == group.0;
                        if i < at {
                            assert(before.dom().contains(group));
                        }
                    }
                }
            }
            at = at + 1;
        }
        proof {
            let stale = condemned(self@.latest, threshold_ms);
            assert forall|group: (i64, Seq<char>)| #[trigger]
                aged@.dom().contains(group) <==> stale.contains(group) by {
                if aged@.dom().contains(group) {
                    let i = choose|i: int|
                        0 <= i < at && (#[trigger] entries[i]).0@ == group.1 && entries[i].1
                            == group.0;
                    lemma_at(entries, i);
                }
                if stale.contains(group) {
                    let i = choose|i: int|
                        0 <= i < entries.len() && (#[trigger] entries[i]).0@ == group.1;
                    lemma_at(entries, i);
                }
            }
            assert(aged@.dom() =~= stale);
        }
        aged
    }

    /// Which groups are dropped: those of which nothing was written since a time, the
    /// oldest first and no more than a chunk, so that what piled up is taken down
    /// little by little. Of those that stay, the members' documents are looked at.
    pub fn expire_groups(self, threshold_ms: i64) -> (expiry: Expiry)
        requires
            self.wf(),
        ensures
            drops_the_oldest(
                expiry.stale@.map_values(|id: String| id@),
                self@.latest,
                threshold_ms,
                expiry.capped,
            ),
            expiry.aged_members.wf(),
            expiry.aged_members@.dom() == self@.aged_members.difference(
                expiry.stale@.map_values(|id: String| id@).to_set(),
            ),
    {
        let aged = self.aged(threshold_ms);
        let ghost order = aged.entries@;
        let capped = aged.entries.len() > GROUP_EXPIRE_CHUNK;
        let kept: usize = if capped {
            GROUP_EXPIRE_CHUNK
        } else {
            aged.entries.len()
        };
        let mut stale: Vec<String> = Vec::new();
        let mut aged_members = self.aged_members;
        let ghost looked_at = self@.aged_members;
        let ghost names = Seq::<Seq<char>>::empty();
        let mut at: usize = 0;
        assert(stale@.map_values(|id: String| id@) =~= names);
        assert(looked_at.difference(names.to_set()) =~= looked_at);
        while at < kept
            invariant
                at <= kept <= order.len(),
                order == aged.entries@,
                aged_members.wf(),
                names == stale@.map_values(|id: String| id@),
                names.len() == at,
                forall|i: int| 0 <= i < at ==> #[trigger] names[i] == order[i].0@.1,
                aged_members@.dom() == looked_at.difference(names.to_set()),
            decreases kept - at,
        {
            let group_id = aged.entries[at].0.group_id.clone();
            let ghost before = names;
            let ghost held = aged_members@;
            let _ = aged_members.remove(&group_id);
            proof {
                names = names.push(group_id@);
                assert(held.remove(group_id@).dom() =~= held.dom().remove(group_id@));
                assert forall|name: Seq<char>| #[trigger]
                    aged_members@.dom().contains(name) <==> looked_at.difference(
                        names.to_set(),
                    ).contains(name) by {
                    if names.contains(name) {
                        let i = choose|i: int| 0 <= i < names.len() && names[i] == name;
                        if i < before.len() {
                            assert(before[i] == name);
                        }
                    }
                    if before.contains(name) {
                        let i = choose|i: int| 0 <= i < before.len() && before[i] == name;
                        assert(names[i] == name);
                    }
                    assert(names[before.len() as int] == group_id@);
                }
                assert(aged_members@.dom() =~= looked_at.difference(names.to_set()));
            }
            let ghost stored = stale@;
            stale.push(group_id);
            assert(stale@.map_values(|id: String| id@) =~= names);
            at = at + 1;
        }
        proof {
            let stale_set = condemned(self@.latest, threshold_ms);
            lemma_count(order);
            let witness = order.map_values(|entry: (AgedGroup, ())| entry.0@);
            assert(is_order_of(witness, stale_set)) by {
                assert forall|i: int, j: int|
                    #![trigger witness[i], witness[j]]
                    0 <= i < j < witness.len() implies older(witness[i], witness[j]) by {
                    assert(AgedGroup::before(order[i].0@, order[j].0@) == older(
                        order[i].0@,
                        order[j].0@,
                    ));
                }
                assert forall|group: (i64, Seq<char>)| #[trigger]
                    witness.contains(group) <==> stale_set.contains(group) by {
                    if witness.contains(group) {
                        let i = choose|i: int| 0 <= i < witness.len() && witness[i] == group;
                        lemma_at(order, i);
                    }
                    if stale_set.contains(group) {
                        assert(map_of(order).dom().contains(group));
                        let i = choose|i: int|
                            0 <= i < order.len() && (#[trigger] order[i]).0@ == group;
                        assert(witness[i] == group);
                    }
                }
            }
            assert(names =~= witness.take(kept as int).map_values(|g: (i64, Seq<char>)| g.1));
        }
        Expiry { stale, capped, aged_members }
    }
}

/// Whether `order` holds groups by their age, each once.
pub open spec fn is_order_of(order: Seq<(i64, Seq<char>)>, groups: Set<(i64, Seq<char>)>) -> bool {
    &&& forall|i: int, j: int|
        #![trigger order[i], order[j]]
        0 <= i < j < order.len() ==> older(order[i], order[j])
    &&& forall|group: (i64, Seq<char>)| #[trigger] order.contains(group) <==> groups.contains(group)
}

/// Whether `stale` is what is dropped: by their age the first of the groups that
/// nothing was heard of, and all of them unless there are more than a chunk.
pub open spec fn drops_the_oldest(
    stale: Seq<Seq<char>>,
    latest: Map<Seq<char>, i64>,
    threshold_ms: i64,
    capped: bool,
) -> bool {
    exists|order: Seq<(i64, Seq<char>)>| #[trigger]
        is_order_of(order, condemned(latest, threshold_ms)) && capped == (order.len()
            > GROUP_EXPIRE_CHUNK) && stale == order.take(
            if capped {
                GROUP_EXPIRE_CHUNK as int
            } else {
                order.len() as int
            },
        ).map_values(|group: (i64, Seq<char>)| group.1)
}

/// No group is dropped of which anything was written since the time.
pub proof fn a_sign_of_life_keeps_a_group(
    stale: Seq<Seq<char>>,
    latest: Map<Seq<char>, i64>,
    threshold_ms: i64,
    capped: bool,
    i: int,
)
    requires
        drops_the_oldest(stale, latest, threshold_ms, capped),
        0 <= i < stale.len(),
    ensures
        latest.dom().contains(stale[i]),
        latest[stale[i]] < threshold_ms,
        stale.len() <= GROUP_EXPIRE_CHUNK,
{
    let order = choose|order: Seq<(i64, Seq<char>)>| #[trigger]
        is_order_of(order, condemned(latest, threshold_ms)) && capped == (order.len()
            > GROUP_EXPIRE_CHUNK) && stale == order.take(
            if capped {
                GROUP_EXPIRE_CHUNK as int
            } else {
                order.len() as int
            },
        ).map_values(|group: (i64, Seq<char>)| group.1);
    assert(stale[i] == order[i].1);
    assert(order.contains(order[i]));
    assert(condemned(latest, threshold_ms).contains(order[i]));
}

/// A round takes down what is oldest: a group that stays, though nothing was heard of
/// it, is younger than every group that goes.
pub proof fn the_oldest_go_first(
    stale: Seq<Seq<char>>,
    latest: Map<Seq<char>, i64>,
    threshold_ms: i64,
    capped: bool,
    i: int,
    kept: Seq<char>,
)
    requires
        drops_the_oldest(stale, latest, threshold_ms, capped),
        0 <= i < stale.len(),
        latest.dom().contains(kept),
        latest[kept] < threshold_ms,
        !stale.contains(kept),
    ensures
        capped,
        latest[stale[i]] <= latest[kept],
{
    let order = choose|order: Seq<(i64, Seq<char>)>| #[trigger]
        is_order_of(order, condemned(latest, threshold_ms)) && capped == (order.len()
            > GROUP_EXPIRE_CHUNK) && stale == order.take(
            if capped {
                GROUP_EXPIRE_CHUNK as int
            } else {
                order.len() as int
            },
        ).map_values(|group: (i64, Seq<char>)| group.1);
    let group = (latest[kept], kept);
    assert(condemned(latest, threshold_ms).contains(group));
    assert(order.contains(group));
    let k = choose|k: int| 0 <= k < order.len() && order[k] == group;
    if k < stale.len() {
        assert(stale[k] == kept);
    }
    assert(stale[i] == order[i].1);
    assert(order.contains(order[i]));
    assert(condemned(latest, threshold_ms).contains(order[i]));
    assert(older(order[i], order[k]));
}

/// Whether the document of a member is dropped: it is old, it is where the document
/// of the member that it names would be, and no composition names that member.
pub open spec fn is_orphan(
    cluster: Seq<char>,
    root: Seq<char>,
    orphan_ms: i64,
    named: Set<Seq<char>>,
    location: Seq<char>,
    modified_ms: i64,
) -> bool {
    &&& modified_ms < orphan_ms
    &&& document_of(cluster, root, location) matches Some(document)
    &&& !named.contains(document.1)
}

/// The first documents of a listing that are dropped, at most `limit` of them.
pub open spec fn orphans(
    cluster: Seq<char>,
    root: Seq<char>,
    orphan_ms: i64,
    named: Set<Seq<char>>,
    listing: Seq<Listed>,
    limit: nat,
) -> Seq<Seq<char>>
    decreases listing.len(),
{
    if listing.len() == 0 {
        Seq::empty()
    } else {
        let before = orphans(cluster, root, orphan_ms, named, listing.drop_last(), limit);
        let last = listing.last();
        if before.len() < limit && is_orphan(
            cluster,
            root,
            orphan_ms,
            named,
            last.location@,
            last.modified_ms,
        ) {
            before.push(last.location@)
        } else {
            before
        }
    }
}

/// How many documents may still be dropped in a round that dropped `reclaimed`.
pub open spec fn reclaim_budget(reclaimed: u64) -> Option<u64> {
    if reclaimed > GROUP_MEMBER_RECLAIM_CHUNK {
        None
    } else {
        Some((GROUP_MEMBER_RECLAIM_CHUNK - reclaimed) as u64)
    }
}

/// What a round dropped and may still drop make up a chunk, and a round is over once it
/// dropped more.
pub proof fn a_round_drops_a_chunk(reclaimed: u64)
    ensures
        reclaim_budget(reclaimed) is Some <==> reclaimed <= GROUP_MEMBER_RECLAIM_CHUNK,
        reclaim_budget(reclaimed) matches Some(left) ==> reclaimed + left
            == GROUP_MEMBER_RECLAIM_CHUNK,
{
}

/// The names of a composition's members.
pub open spec fn names_of(members: OrdMap<String, GenerationMember>) -> Set<Seq<char>> {
    members@.dom()
}

impl DynoStore {
    /// How many documents of members may still be dropped in a round that dropped
    /// `reclaimed`; none once the round is over.
    pub fn member_reclaim_budget(reclaimed: u64) -> (budget: Option<u64>)
        ensures
            budget == reclaim_budget(reclaimed),
    {
        GROUP_MEMBER_RECLAIM_CHUNK.checked_sub(reclaimed)
    }

    /// Which documents of a group's members are dropped, of a listing that was made
    /// after the composition was read. The budget is looked at after each that is
    /// found.
    pub fn reclaim_member_documents(
        &self,
        root: &str,
        orphan_ms: i64,
        named: &OrdMap<String, GenerationMember>,
        listing: &Vec<Listed>,
        budget: u64,
    ) -> (doomed: Vec<String>)
        requires
            named.wf(),
        ensures
            doomed@.map_values(|location: String| location@) == orphans(
                self.identity.cluster@,
                root@,
                orphan_ms,
                names_of(*named),
                listing@,
                if budget == 0 {
                    1
                } else {
                    budget as nat
                },
            ),
    {
        let ghost cluster = self.identity.cluster@;
        let ghost limit: nat = if budget == 0 {
            1
        } else {
            budget as nat
        };
        let mut doomed: Vec<String> = Vec::new();
        let mut at: usize = 0;
        assert(listing@.take(0) =~= Seq::empty());
        assert(doomed@.map_values(|location: String| location@) =~= Seq::empty());
        while at < listing.len() && (doomed.len() == 0 || (doomed.len() as u64) < budget)
            invariant
                at <= listing@.len(),
                named.wf(),
                cluster == self.identity.cluster@,
                limit == if budget == 0 {
                    1
                } else {
                    budget as nat
                },
                doomed@.len() <= at,
                doomed@.map_values(|location: String| location@) == orphans(
                    cluster,
                    root@,
                    orphan_ms,
                    names_of(*named),
                    listing@.take(at as int),
                    limit,
                ),
            decreases listing@.len() - at,
        {
            let listed = &listing[at];
            let ghost before = doomed@;
            proof {
                assert(listing@.take(at + 1).drop_last() =~= listing@.take(at as int));
                assert(listing@.take(at + 1).last() == listed);
                assert(before.map_values(|location: String| location@).len() == before.len());
            }
            if listed.modified_ms < orphan_ms {
                match self.member_document_of(root, listed.location.as_str()) {
                    Some((_, member_id)) => {
                        if !named.contains(&member_id) {
                            doomed.push(listed.location.clone());
                            assert(doomed@.map_values(|location: String| location@)
                                =~= before.map_values(|location: String| location@).push(
                                listed.location@,
                            ));
                        }
                    },
                    None => {},
                }
            }
            at = at + 1;
        }
        proof {
            let found = doomed@.map_values(|location: String| location@);
            assert(found.len() == doomed@.len());
            if at < listing@.len() {
                lemma_full(
                    cluster,
                    root@,
                    orphan_ms,
                    names_of(*named),
                    listing@,
                    limit,
                    at as int,
                );
            } else {
                assert(listing@.take(at as int) =~= listing@);
            }
        }
        doomed
    }
}

proof fn lemma_full(
    cluster: Seq<char>,
    root: Seq<char>,
    orphan_ms: i64,
    named: Set<Seq<char>>,
    listing: Seq<Listed>,
    limit: nat,
    at: int,
)
    requires
        0 <= at <= listing.len(),
        orphans(cluster, root, orphan_ms, named, listing.take(at), limit).len() >= limit,
    ensures
        orphans(cluster, root, orphan_ms, named, listing, limit) == orphans(
            cluster,
            root,
            orphan_ms,
            named,
            listing.take(at),
            limit,
        ),
    decreases listing.len(),
{
    if at < listing.len() {
        let init = listing.drop_last();
        assert(init.take(at) =~= listing.take(at));
        lemma_full(cluster, root, orphan_ms, named, init, limit, at);
    } else {
        assert(listing.take(at) =~= listing);
    }
}

/// What is dropped of a listing is listed, is old, and is the document of no member
/// that the composition names.
pub proof fn a_named_member_keeps_its_document(
    cluster: Seq<char>,
    root: Seq<char>,
    orphan_ms: i64,
    named: Set<Seq<char>>,
    listing: Seq<Listed>,
    limit: nat,
    i: int,
)
    requires
        0 <= i < orphans(cluster, root, orphan_ms, named, listing, limit).len(),
    ensures
        exists|k: int|
            0 <= k < listing.len() && (#[trigger] listing[k]).location@ == orphans(
                cluster,
                root,
                orphan_ms,
                named,
                listing,
                limit,
            )[i] && is_orphan(
                cluster,
                root,
                orphan_ms,
                named,
                listing[k].location@,
                listing[k].modified_ms,
            ) && listing[k].modified_ms < orphan_ms && (document_of(
                cluster,
                root,
                listing[k].location@,
            ) matches Some(document) && !named.contains(document.1)),
    decreases listing.len(),
{
    let init = listing.drop_last();
    let before = orphans(cluster, root, orphan_ms, named, init, limit);
    if i < before.len() {
        a_named_member_keeps_its_document(cluster, root, orphan_ms, named, init, limit, i);
        let k = choose|k: int|
            0 <= k < init.len() && (#[trigger] init[k]).location@ == before[i] && is_orphan(
                cluster,
                root,
                orphan_ms,
                named,
                init[k].location@,
                init[k].modified_ms,
            );
        assert(listing[k].location@ == before[i]);
    } else {
        assert(listing[listing.len() - 1].location@ == orphans(
            cluster,
            root,
            orphan_ms,
            named,
            listing,
            limit,
        )[i]);
    }
}

/// What a listing comes to, object by object.
pub open spec fn tallied(
    cluster: Seq<char>,
    root: Seq<char>,
    orphan_ms: i64,
    listing: Seq<Listed>,
) -> Tally
    decreases listing.len(),
{
    if listing.len() == 0 {
        Tally::blank()
    } else {
        let last = listing.last();
        tallied(cluster, root, orphan_ms, listing.drop_last()).with(
            cluster,
            root,
            orphan_ms,
            last.location@,
            last.modified_ms,
        )
    }
}

/// Whether a group owns an object of a listing.
pub open spec fn owns_at(root: Seq<char>, listing: Seq<Listed>, group_id: Seq<char>, k: int) -> bool {
    0 <= k < listing.len() && owner_of(root, listing[k].location@) == Some(group_id)
}

/// After a listing was taken in, the groups that are known are those that own an object
/// of it; the time that is held of each is no less than that of every object that it
/// owns, and is that of one of them, in whatever order they were listed.
pub proof fn the_latest_sign_is_held(
    cluster: Seq<char>,
    root: Seq<char>,
    orphan_ms: i64,
    listing: Seq<Listed>,
    group_id: Seq<char>,
)
    ensures
        ({
            let latest = tallied(cluster, root, orphan_ms, listing).latest;
            &&& latest.dom().contains(group_id) <==> exists|k: int| #[trigger]
                owns_at(root, listing, group_id, k)
            &&& forall|k: int| #[trigger]
                owns_at(root, listing, group_id, k) ==> listing[k].modified_ms <= latest[group_id]
            &&& latest.dom().contains(group_id) ==> exists|k: int| #[trigger]
                owns_at(root, listing, group_id, k) && listing[k].modified_ms == latest[group_id]
        }),
    decreases listing.len(),
{
    if listing.len() > 0 {
        let init = listing.drop_last();
        let end = listing.len() - 1;
        let before = tallied(cluster, root, orphan_ms, init).latest;
        let latest = tallied(cluster, root, orphan_ms, listing).latest;
        the_latest_sign_is_held(cluster, root, orphan_ms, init, group_id);
        assert forall|k: int| 0 <= k < end implies #[trigger] owns_at(root, listing, group_id, k)
            == owns_at(root, init, group_id, k) by {
            assert(init[k] == listing[k]);
        }
        if before.dom().contains(group_id) {
            let k = choose|k: int| #[trigger]
                owns_at(root, init, group_id, k) && init[k].modified_ms == before[group_id];
            assert(owns_at(root, listing, group_id, k));
            assert(init[k] == listing[k]);
        }
        if owns_at(root, listing, group_id, end) {
            assert(latest.dom().contains(group_id));
        }
        assert forall|k: int| #[trigger] owns_at(root, listing, group_id, k) implies listing[k].modified_ms
            <= latest[group_id] && latest.dom().contains(group_id) by {
            if k < end {
                assert(owns_at(root, init, group_id, k));
                assert(init[k] == listing[k]);
            }
        }
    }
}

/// No group is dropped that owns a listed object written at or after the threshold, in
/// whatever order the objects were listed; every group that is dropped owns one; and
/// unless there are more than a chunk, every group goes of which all that was listed
/// was written before.
pub proof fn a_listed_sign_of_life_keeps_a_group(
    cluster: Seq<char>,
    root: Seq<char>,
    orphan_ms: i64,
    listing: Seq<Listed>,
    threshold_ms: i64,
    stale: Seq<Seq<char>>,
    capped: bool,
    group_id: Seq<char>,
)
    requires
        drops_the_oldest(
            stale,
            tallied(cluster, root, orphan_ms, listing).latest,
            threshold_ms,
            capped,
        ),
    ensures
        stale.contains(group_id) ==> (exists|k: int| #[trigger]
            owns_at(root, listing, group_id, k)) && forall|k: int| #[trigger]
            owns_at(root, listing, group_id, k) ==> listing[k].modified_ms < threshold_ms,
        !capped && (exists|k: int| #[trigger] owns_at(root, listing, group_id, k)) && (forall|k: int|
         #[trigger]
            owns_at(root, listing, group_id, k) ==> listing[k].modified_ms < threshold_ms)
            ==> stale.contains(group_id),
        stale.no_duplicates(),
        capped ==> stale.len() == GROUP_EXPIRE_CHUNK,
{
    let latest = tallied(cluster, root, orphan_ms, listing).latest;
    the_latest_sign_is_held(cluster, root, orphan_ms, listing, group_id);
    if stale.contains(group_id) {
        let i = choose|i: int| 0 <= i < stale.len() && stale[i] == group_id;
        a_sign_of_life_keeps_a_group(stale, latest, threshold_ms, capped, i);
    }
    let order = choose|order: Seq<(i64, Seq<char>)>| #[trigger]
        is_order_of(order, condemned(latest, threshold_ms)) && capped == (order.len()
            > GROUP_EXPIRE_CHUNK) && stale == order.take(
            if capped {
                GROUP_EXPIRE_CHUNK as int
            } else {
                order.len() as int
            },
        ).map_values(|group: (i64, Seq<char>)| group.1);
    assert forall|i: int, j: int| 0 <= i < j < stale.len() implies stale[i] != stale[j] by {
        assert(order.contains(order[i]));
        assert(order.contains(order[j]));
        assert(older(order[i], order[j]));
        if stale[i] == stale[j] {
            assert(order[i].1 == order[j].1);
            assert(order[i].0 == order[j].0);
            lemma_text_irreflexive(order[i].1);
        }
    }
    if !capped && (exists|k: int| #[trigger] owns_at(root, listing, group_id, k)) && (forall|k: int|
     #[trigger]
        owns_at(root, listing, group_id, k) ==> listing[k].modified_ms < threshold_ms) {
        let group = (latest[group_id], group_id);
        assert(condemned(latest, threshold_ms).contains(group));
        assert(order.contains(group));
        let i = choose|i: int| 0 <= i < order.len() && order[i] == group;
        assert(stale[i] == group_id);
    }
}

/// The groups whose members' documents are looked at are those of which a document was
/// listed that is older than it may be.
pub proof fn an_aged_document_is_looked_at(
    cluster: Seq<char>,
    root: Seq<char>,
    orphan_ms: i64,
    listing: Seq<Listed>,
    group_id: Seq<char>,
)
    ensures
        tallied(cluster, root, orphan_ms, listing).aged_members.contains(group_id) <==> exists|k: int|
         #[trigger]
            is_aged_at(cluster, root, orphan_ms, listing, group_id, k),
    decreases listing.len(),
{
    if listing.len() > 0 {
        let init = listing.drop_last();
        let end = listing.len() - 1;
        an_aged_document_is_looked_at(cluster, root, orphan_ms, init, group_id);
        assert forall|k: int| 0 <= k < end implies #[trigger] is_aged_at(
            cluster,
            root,
            orphan_ms,
            listing,
            group_id,
            k,
        ) == is_aged_at(cluster, root, orphan_ms, init, group_id, k) by {
            assert(init[k] == listing[k]);
        }
        if tallied(cluster, root, orphan_ms, init).aged_members.contains(group_id) {
            let k = choose|k: int| #[trigger]
                is_aged_at(cluster, root, orphan_ms, init, group_id, k);
            assert(is_aged_at(cluster, root, orphan_ms, listing, group_id, k));
        } else if tallied(cluster, root, orphan_ms, listing).aged_members.contains(group_id) {
            assert(is_aged_at(cluster, root, orphan_ms, listing, group_id, end));
        }
        if exists|k: int| #[trigger] is_aged_at(cluster, root, orphan_ms, listing, group_id, k) {
            let k = choose|k: int| #[trigger]
                is_aged_at(cluster, root, orphan_ms, listing, group_id, k);
            if k < end {
                assert(is_aged_at(cluster, root, orphan_ms, init, group_id, k));
            }
        }
    }
}

/// Whether an object of a listing is the document of a group's member, and aged.
pub open spec fn is_aged_at(
    cluster: Seq<char>,
    root: Seq<char>,
    orphan_ms: i64,
    listing: Seq<Listed>,
    group_id: Seq<char>,
    k: int,
) -> bool {
    &&& 0 <= k < listing.len()
    &&& listing[k].modified_ms < orphan_ms
    &&& owner_of(root, listing[k].location@) is Some
    &&& document_of(cluster, root, listing[k].location@) matches Some(document) && document.0
        == group_id
}

/// No orphan is passed over while the limit leaves room: of a listing every document
/// that is old, whose place it is and whose member no composition names is dropped, in
/// the order listed, unless as many as the limit were before it.
pub proof fn orphans_go_up_to_the_limit(
    cluster: Seq<char>,
    root: Seq<char>,
    orphan_ms: i64,
    named: Set<Seq<char>>,
    listing: Seq<Listed>,
    limit: nat,
    k: int,
)
    requires
        0 <= k < listing.len(),
        listing[k].modified_ms < orphan_ms,
        document_of(cluster, root, listing[k].location@) matches Some(document)
            && !named.contains(document.1),
    ensures
        ({
            let dropped = orphans(cluster, root, orphan_ms, named, listing, limit);
            &&& dropped.len() <= limit
            &&& dropped.contains(listing[k].location@) || dropped.len() == limit
        }),
    decreases listing.len(),
{
    lemma_limited(cluster, root, orphan_ms, named, listing, limit);
    let init = listing.drop_last();
    let dropped = orphans(cluster, root, orphan_ms, named, listing, limit);
    let before = orphans(cluster, root, orphan_ms, named, init, limit);
    if k < init.len() {
        orphans_go_up_to_the_limit(cluster, root, orphan_ms, named, init, limit, k);
        if before.contains(listing[k].location@) {
            let i = choose|i: int| 0 <= i < before.len() && before[i] == listing[k].location@;
            assert(dropped[i] == listing[k].location@);
        }
    } else if before.len() < limit {
        assert(dropped[dropped.len() - 1] == listing[k].location@);
    }
}

proof fn lemma_limited(
    cluster: Seq<char>,
    root: Seq<char>,
    orphan_ms: i64,
    named: Set<Seq<char>>,
    listing: Seq<Listed>,
    limit: nat,
)
    ensures
        orphans(cluster, root, orphan_ms, named, listing, limit).len() <= limit,
    decreases listing.len(),
{
    if listing.len() > 0 {
        lemma_limited(cluster, root, orphan_ms, named, listing.drop_last(), limit);
    }
}

/// A threshold lies its span before now, or at the least time where there is none so
/// early: what was written at it or later is younger than the span.
pub proof fn thresholds_lie_a_span_ago(now_ms: i64, span: i64)
    requires
        span >= 0,
    ensures
        ago(now_ms, span) <= now_ms,
        ago(now_ms, span) == i64::MIN || now_ms - ago(now_ms, span) == span,
        now_ms - span >= i64::MIN ==> now_ms - ago(now_ms, span) == span,
{
}

} // verus!
