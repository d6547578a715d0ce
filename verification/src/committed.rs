//! The offsets that a group committed.

use crate::ordmap::{lemma_at, map_of, OrdMap};
use crate::segment::Topition;
use vstd::prelude::*;
use vstd::string::*;

verus! {

/// The commits of a group, by topic and partition.
#[derive(Debug)]
pub struct GroupOffsets<C> {
    pub committed: OrdMap<String, OrdMap<i32, C>>,
}

/// The partitions of one topic.
pub open spec fn partitions_of<C>(topic: Seq<char>, partitions: Seq<(i32, C)>) -> Seq<
    (Seq<char>, i32),
> {
    partitions.map_values(|entry: (i32, C)| (topic, entry.0))
}

/// The partitions of every topic.
pub open spec fn topitions_of<C>(topics: Seq<(String, OrdMap<i32, C>)>) -> Seq<(Seq<char>, i32)>
    decreases topics.len(),
{
    if topics.len() == 0 {
        Seq::empty()
    } else {
        topitions_of(topics.drop_last()) + partitions_of(
            topics.last().0@,
            topics.last().1.entries@,
        )
    }
}

/// Whether anything was committed for a partition of a topic.
pub open spec fn holds_any<C>(partitions: OrdMap<i32, C>) -> bool {
    exists|partition: i32| #[trigger] partitions@.dom().contains(partition)
}

impl<C> GroupOffsets<C> {
    /// Every topic and partition is there once, and no topic without a partition.
    pub open spec fn wf(&self) -> bool {
        &&& self.committed.wf()
        &&& forall|topic: Seq<char>| #[trigger]
            self.committed@.dom().contains(topic) ==> self.committed@[topic].wf() && holds_any(
                self.committed@[topic],
            )
    }

    /// Whether something was committed for a partition of a topic.
    pub open spec fn has_topic(&self, topic: Seq<char>) -> bool {
        exists|partition: i32| #[trigger] self.at((topic, partition)) is Some
    }

    /// What was committed for a partition.
    pub open spec fn at(&self, topition: (Seq<char>, i32)) -> Option<C> {
        if self.committed@.dom().contains(topition.0) && self.committed@[topition.0]@.dom().contains(
            topition.1,
        ) {
            Some(self.committed@[topition.0]@[topition.1])
        } else {
            None
        }
    }

    /// Nothing was committed.
    pub fn new() -> (offsets: Self)
        ensures
            offsets.wf(),
            forall|topition: (Seq<char>, i32)| #[trigger] offsets.at(topition) is None,
    {
        GroupOffsets { committed: OrdMap::new() }
    }

    /// What was committed for a partition.
    pub fn get(&self, topition: &Topition) -> (commit: Option<&C>)
        requires
            self.wf(),
        ensures
            match commit {
                Some(commit) => self.at(topition@) == Some(*commit),
                None => self.at(topition@) is None,
            },
    {
        match self.committed.get(&topition.topic) {
            Some(partitions) => partitions.get(&topition.partition),
            None => None,
        }
    }

    /// Commit for a partition.
    pub fn insert(&mut self, topition: &Topition, commit: C)
        requires
            old(self).wf(),
        ensures
            final(self).wf(),
            forall|other: (Seq<char>, i32)| #[trigger]
                final(self).at(other) == if other == topition@ {
                    Some(commit)
                } else {
                    old(self).at(other)
                },
    {
        let ghost before = self.committed@;
        let mut partitions: OrdMap<i32, C> = match self.committed.remove(&topition.topic) {
            Some(partitions) => partitions,
            None => OrdMap::new(),
        };
        let _ = partitions.insert(topition.partition, commit);
        assert(partitions@.dom().contains(topition.partition));
        let _ = self.committed.insert(topition.topic.clone(), partitions);
        proof {
            assert forall|topic: Seq<char>| #[trigger]
                self.committed@.dom().contains(topic) implies self.committed@[topic].wf()
                && holds_any(self.committed@[topic]) by {
                if topic != topition@.0 {
                    assert(before.dom().contains(topic));
                }
            }
            assert forall|other: (Seq<char>, i32)| #[trigger]
                self.at(other) == if other == topition@ {
                    Some(commit)
                } else {
                    old(self).at(other)
                } by {
                assert(before.dom().contains(other.0) == old(self).committed@.dom().contains(
                    other.0,
                ));
            }
        }
    }

    /// Drop what was committed for a topic, and say whether anything was. A commit
    /// that outlived its topic would be served for one of the same name.
    /// What was committed for other topics stays.
    pub fn remove_topic(&mut self, topic: &str) -> (removed: bool)
        requires
            old(self).wf(),
        ensures
            final(self).wf(),
            removed == old(self).has_topic(topic@),
            !final(self).has_topic(topic@),
            final(self).committed@ == old(self).committed@.remove(topic@),
            forall|other: (Seq<char>, i32)| #[trigger]
                final(self).at(other) == if other.0 == topic@ {
                    None
                } else {
                    old(self).at(other)
                },
            !removed ==> final(self).committed@ == old(self).committed@,
    {
        let key = String::from_str(topic);
        let ghost before = self.committed@;
        proof {
            if before.dom().contains(topic@) {
                assert(holds_any(before[topic@]));
                let partition = choose|partition: i32| #[trigger]
                    before[topic@]@.dom().contains(partition);
                assert(self.at((topic@, partition)) is Some);
            }
        }
        let removed = match self.committed.remove(&key) {
            Some(_) => true,
            None => false,
        };
        proof {
            assert forall|t: Seq<char>| #[trigger]
                self.committed@.dom().contains(t) implies self.committed@[t].wf() && holds_any(
                self.committed@[t],
            ) by {
                assert(before.dom().contains(t));
            }
            if !removed {
                assert(before.remove(topic@) =~= before);
            }
            assert forall|other: (Seq<char>, i32)| #[trigger]
                self.at(other) == if other.0 == topic@ {
                    None
                } else {
                    old(self).at(other)
                } by {
                assert(before.dom().contains(other.0) == old(self).committed@.dom().contains(
                    other.0,
                ));
            }
        }
        removed
    }

    /// The partitions that something was committed for.
    pub fn topitions(&self) -> (topitions: Vec<Topition>)
        requires
            self.wf(),
        ensures
            topitions@.map_values(|topition: Topition| topition@) == topitions_of(
                self.committed.entries@,
            ),
    {
        let ghost topics = self.committed.entries@;
        let mut topitions: Vec<Topition> = Vec::new();
        let mut at: usize = 0;
        assert(topics.take(0) =~= Seq::empty());
        assert(topitions@.map_values(|topition: Topition| topition@) =~= Seq::empty());
        while at < self.committed.entries.len()
            invariant
                at <= topics.len(),
                topics == self.committed.entries@,
                topitions@.map_values(|topition: Topition| topition@) == topitions_of(
                    topics.take(at as int),
                ),
            decreases topics.len() - at,
        {
            let (topic, partitions) = &self.committed.entries[at];
            let ghost done = topitions_of(topics.take(at as int));
            let ghost here = partitions_of(topic@, partitions.entries@);
            proof {
                assert(topics.take(at + 1).drop_last() =~= topics.take(at as int));
                assert(topics.take(at + 1).last() == topics[at as int]);
                assert(done + here.take(0) =~= done);
            }
            let mut j: usize = 0;
            while j < partitions.entries.len()
                invariant
                    j <= partitions.entries@.len(),
                    here == partitions_of(topic@, partitions.entries@),
                    topitions@.map_values(|topition: Topition| topition@) == done + here.take(
                        j as int,
                    ),
                decreases partitions.entries@.len() - j,
            {
                let ghost before = topitions@;
                let partition: i32 = partitions.entries[j].0;
                let topition = Topition::new(topic.clone(), partition);
                topitions.push(topition);
                proof {
                    assert(here.take(j + 1) =~= here.take(j as int).push((topic@, partition)));
                    assert(topitions@.map_values(|topition: Topition| topition@)
                        =~= before.map_values(|topition: Topition| topition@).push(
                        (topic@, partition),
                    ));
                    assert(topitions@.map_values(|topition: Topition| topition@) =~= done
                        + here.take(j + 1));
                }
                j = j + 1;
            }
            assert(here.take(j as int) =~= here);
            at = at + 1;
        }
        assert(topics.take(at as int) =~= topics);
        topitions
    }
}

/// A topic that was dropped has nothing more to drop.
pub proof fn a_topic_is_removed_once<C>(
    before: GroupOffsets<C>,
    after: GroupOffsets<C>,
    topic: Seq<char>,
)
    requires
        before.wf(),
        after.wf(),
        after.committed@ == before.committed@.remove(topic),
    ensures
        !after.has_topic(topic),
        after.committed@.remove(topic) == after.committed@,
        forall|other: Seq<char>|
            other != topic ==> #[trigger] after.has_topic(other) == before.has_topic(other),
{
    assert(after.committed@.remove(topic) =~= after.committed@);
    assert forall|other: Seq<char>| other != topic implies #[trigger] after.has_topic(other)
        == before.has_topic(other) by {
        if after.has_topic(other) {
            let p = choose|p: i32| #[trigger] after.at((other, p)) is Some;
            assert(before.at((other, p)) is Some);
        }
        if before.has_topic(other) {
            let p = choose|p: i32| #[trigger] before.at((other, p)) is Some;
            assert(after.at((other, p)) is Some);
        }
    }
}

/// The partitions that are listed are those that something was committed for.
pub proof fn listed_partitions_are_committed<C>(offsets: GroupOffsets<C>, topition: (Seq<char>, i32))
    requires
        offsets.wf(),
    ensures
        topitions_of(offsets.committed.entries@).contains(topition) <==> offsets.at(topition)
            is Some,
{
    let topics = offsets.committed.entries@;
    lemma_listed(topics, topition);
    if topitions_of(topics).contains(topition) {
        let (i, j) = choose|i: int, j: int|
            0 <= i < topics.len() && 0 <= j < topics[i].1.entries@.len() && topics[i].0@
                == topition.0 && #[trigger] topics[i].1.entries@[j].0 == topition.1;
        lemma_at(topics, i);
        assert(offsets.committed@[topition.0] == topics[i].1);
        lemma_at(topics[i].1.entries@, j);
        assert(topics[i].1.entries@[j].0@ == topition.1);
    }
    if offsets.at(topition) is Some {
        let i = choose|i: int| 0 <= i < topics.len() && (#[trigger] topics[i]).0@ == topition.0;
        lemma_at(topics, i);
        let partitions = topics[i].1.entries@;
        assert(map_of(partitions).dom().contains(topition.1));
        let j = choose|j: int|
            0 <= j < partitions.len() && (#[trigger] partitions[j]).0@ == topition.1;
        assert(topics[i].1.entries@[j].0 == topition.1);
    }
}

proof fn lemma_listed<C>(topics: Seq<(String, OrdMap<i32, C>)>, topition: (Seq<char>, i32))
    ensures
        topitions_of(topics).contains(topition) <==> exists|i: int, j: int|
            0 <= i < topics.len() && 0 <= j < topics[i].1.entries@.len() && topics[i].0@
                == topition.0 && #[trigger] topics[i].1.entries@[j].0 == topition.1,
    decreases topics.len(),
{
    if topics.len() > 0 {
        let init = topics.drop_last();
        let last = topics.last();
        let before = topitions_of(init);
        let here = partitions_of(last.0@, last.1.entries@);
        let all = topitions_of(topics);
        lemma_listed(init, topition);
        if all.contains(topition) {
            let k = choose|k: int| 0 <= k < all.len() && all[k] == topition;
            if k < before.len() {
                assert(before[k] == topition);
                let (i, j) = choose|i: int, j: int|
                    0 <= i < init.len() && 0 <= j < init[i].1.entries@.len() && init[i].0@
                        == topition.0 && #[trigger] init[i].1.entries@[j].0 == topition.1;
                assert(topics[i].1.entries@[j].0 == topition.1);
            } else {
                let j = k - before.len();
                assert(here[j] == topition);
                assert(topics[topics.len() - 1].1.entries@[j].0 == topition.1);
            }
        }
        if exists|i: int, j: int|
            0 <= i < topics.len() && 0 <= j < topics[i].1.entries@.len() && topics[i].0@
                == topition.0 && #[trigger] topics[i].1.entries@[j].0 == topition.1 {
            let (i, j) = choose|i: int, j: int|
                0 <= i < topics.len() && 0 <= j < topics[i].1.entries@.len() && topics[i].0@
                    == topition.0 && #[trigger] topics[i].1.entries@[j].0 == topition.1;
            if i < init.len() {
                assert(init[i].1.entries@[j].0 == topition.1);
                let k = choose|k: int| 0 <= k < before.len() && before[k] == topition;
                assert(all[k] == topition);
            } else {
                assert(here[j] == topition);
                assert(all[before.len() + j] == topition);
            }
        }
    }
}

} // verus!
