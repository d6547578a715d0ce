//! Consumer groups: where they lie, what they are made of, and when they go.

use dynostore::committed::GroupOffsets;
use dynostore::config::{StoreIdentity, Tuning};
use dynostore::expire::{
    expiry_threshold, orphan_threshold, GroupTally, Listed, GROUP_EXPIRE_CHUNK,
    GROUP_MEMBER_ORPHAN_AGE_MS, GROUP_MEMBER_RECLAIM_CHUNK, GROUP_RETENTION_MS,
};
use dynostore::members::{
    AssignmentDoc, GenerationDoc, GenerationMember, GroupState, JoinGroupResponseMember,
    MemberReply,
};
use dynostore::ordmap::OrdMap;
use dynostore::path::{join_from, parts, prefix_parts};
use dynostore::prefixes::ClientCaches;
use dynostore::segment::Topition;
use dynostore::store::DynoStore;

const ROOT: &str = "clusters/c/groups/consumers";

fn store() -> DynoStore {
    DynoStore::new(
        StoreIdentity {
            cluster: "c".to_string(),
            node: 1,
            advertised_listener: "tcp://localhost:9092".to_string(),
            writer_id: "w".to_string(),
            maintenance_seed: 7,
        },
        Tuning::new(),
    )
}

#[test]
fn groups_have_their_places() {
    let store = store();
    let some = |rest: &str| Some(format!("{ROOT}/{rest}"));
    assert_eq!(ROOT, store.groups_root());
    assert_eq!(some("g"), store.group_prefix("g"));
    assert_eq!(some("g/members"), store.group_members_prefix("g"));
    assert_eq!(
        some("g/members/m.json"),
        store.group_member_location("g", "m")
    );
    assert_eq!(
        some("g/generation.json"),
        store.group_generation_location("g")
    );
    assert_eq!(some("g/assignment"), store.group_assignments_prefix("g"));
    assert_eq!(
        some("g/assignment/0000000007.json"),
        store.group_assignment_location("g", 7)
    );
    assert_eq!(None, store.group_assignment_location("g", -1));
    assert_eq!(format!("{ROOT}/g.json"), store.legacy_group_location("g"));
    // What a path cannot hold is written otherwise.
    assert_eq!(some("a%25b"), store.group_prefix("a%b"));
}

/// What a path can hold, it holds as it is, and what it cannot it encodes.
#[test]
fn places_are_encoded() {
    let store = store();
    let some = |rest: &str| Some(format!("{ROOT}/{rest}"));
    assert_eq!(some("x y=z:1@b+c"), store.group_prefix("x y=z:1@b+c"));
    assert_eq!(some("a/b"), store.group_prefix("//a//b/"));
    assert_eq!(some("%2E%2E/a"), store.group_prefix("../a"));
    assert_eq!(some("..a"), store.group_prefix("..a"));
    assert_eq!(some("%C3%A9%7C"), store.group_prefix("\u{e9}|"));
}

/// A listing is in the order of the generations.
#[test]
fn assignments_sort_by_generation() {
    let store = store();
    let at = |generation_id| store.group_assignment_location("g", generation_id).unwrap();
    let mut last = at(0);
    for generation_id in [1, 9, 10, 99, 100, 1_000_000, i32::MAX] {
        let next = at(generation_id);
        assert!(last < next);
        last = next;
    }
    assert_eq!(None, store.group_assignment_location("/", 1));
}

/// Documents of members lead back to them.
#[test]
fn members_are_found_by_their_documents() {
    let store = store();
    let root = store.groups_root();
    for (group_id, member_id) in [("g", "m"), ("G_1-x", "0-_Z"), ("a b", "c=d")] {
        let location = store.group_member_location(group_id, member_id).unwrap();
        assert_eq!(
            Some((group_id.to_string(), member_id.to_string())),
            store.member_document_of(&root, &location)
        );
        assert_eq!(
            Some(member_id.to_string()),
            DynoStore::listed_member_id(&location)
        );
    }
    assert_eq!(None, DynoStore::listed_member_id("a/m.txt"));
    assert_eq!(None, DynoStore::listed_member_id(""));
    let other = |rest: &str| store.member_document_of(&root, &format!("{ROOT}/{rest}"));
    assert_eq!(None, other("g/assignment/m.json"));
    assert_eq!(None, other("g/members/m.txt"));
    assert_eq!(None, other("g/members"));
    assert_eq!(None, store.member_document_of(&root, "clusters/c/x"));
    // What is written otherwise does not lead back, and is not judged.
    let location = store.group_member_location("g", "a%b").unwrap();
    assert_eq!(None, store.member_document_of(&root, &location));
}

/// An id that adds no name of its own would stand for everything.
#[test]
fn an_empty_id_has_no_place() {
    let store = store();
    for id in ["", "/", "//"] {
        assert_eq!(None, store.group_prefix(id));
        assert_eq!(None, store.group_members_prefix(id));
        assert_eq!(None, store.group_generation_location(id));
        assert_eq!(None, store.group_member_location(id, "m"));
    }
    assert_eq!(None, store.group_member_location("g", ""));
    let mut clients: ClientCaches<(), i32> = ClientCaches::new();
    assert!(store.group_offsets(&mut clients, "/").unwrap().is_none());
    let handle = store.group_offsets(&mut clients, "g").unwrap().unwrap();
    assert_eq!(format!("{ROOT}/g/offsets.json"), handle.path);
    assert_eq!([("producers", 0), ("group_offsets", 1)], clients.record_occupancy());
    clients.forget_group("g");
    assert_eq!([("producers", 0), ("group_offsets", 0)], clients.record_occupancy());
}

#[test]
fn objects_lead_back_to_their_group() {
    let store = store();
    let of = |rest: &str| DynoStore::group_of(ROOT, &format!("{ROOT}/{rest}"));
    assert_eq!(Some("g".to_string()), of("g/offsets.json"));
    assert_eq!(Some("g".to_string()), of("g/members/m.json"));
    assert_eq!(Some("g".to_string()), of("g.json"));
    assert_eq!(None, of("g"));
    assert_eq!(None, DynoStore::group_of(ROOT, ROOT));
    assert_eq!(None, DynoStore::group_of(ROOT, "clusters/d/groups/consumers/g.json"));

    let document = |rest: &str| store.member_document_of(ROOT, &format!("{ROOT}/{rest}"));
    let pair = |g: &str, m: &str| Some((g.to_string(), m.to_string()));
    assert_eq!(pair("g", "m"), document("g/members/m.json"));
    assert_eq!(None, document("g/members/m.txt"));
    assert_eq!(None, document("g/offsets.json"));
    assert_eq!(None, document("g/members/.json"));
    assert_eq!(
        Some("m".to_string()),
        DynoStore::listed_member_id("a/members/m.json")
    );
    assert_eq!(None, DynoStore::listed_member_id("a/members/m"));
}

#[test]
fn paths_come_apart_and_together() {
    assert_eq!(vec!["a", "b", "c"], parts("a/b/c"));
    assert_eq!(
        Some(vec!["b".to_string(), "c".to_string()]),
        prefix_parts("a/b/c", "a")
    );
    assert_eq!(None, prefix_parts("ab/c", "a"));
    assert_eq!("b/c", join_from(&parts("a/b/c"), 1));
    assert_eq!("", join_from(&parts("a/b/c"), 3));
}

fn generation(leader: Option<&str>, members: &[&str]) -> GenerationDoc {
    let mut named = OrdMap::new();
    for member in members {
        let _ = named.insert(
            member.to_string(),
            GenerationMember {
                group_instance_id: Some(format!("i-{member}")),
            },
        );
    }
    GenerationDoc {
        generation_id: 4,
        session_timeout_ms: 45_000,
        rebalance_timeout_ms: None,
        members: named,
        leader: leader.map(str::to_string),
        protocol_type: Some("consumer".to_string()),
        protocol_name: Some("range".to_string()),
        skip_assignment: Some(false),
        inception_ms: -3,
    }
}

fn assignment(generation_id: i32) -> Option<AssignmentDoc> {
    let mut assignments = OrdMap::new();
    let _ = assignments.insert("a".to_string(), vec![1, 2]);
    Some(AssignmentDoc {
        generation_id,
        protocol_type: "consumer".to_string(),
        protocol_name: "sticky".to_string(),
        assignments,
    })
}

fn read(member: &str, expired: bool) -> MemberReply {
    MemberReply::Read {
        join_response: JoinGroupResponseMember {
            member_id: member.to_string(),
            group_instance_id: None,
            metadata: vec![7],
        },
        last_contact_ms: 99,
        expired,
    }
}

/// A group is formed by the assignment of its own generation.
#[test]
fn a_group_is_what_its_documents_say() {
    let state = |leader, assignment| {
        DynoStore::composed_group_state(&generation(leader, &["a"]), assignment)
    };
    assert!(matches!(
        state(Some("a"), assignment(4)),
        GroupState::Formed { protocol_name, leader, .. }
            if protocol_name == "sticky" && leader == "a"
    ));
    assert!(matches!(
        state(Some("a"), assignment(3)),
        GroupState::Forming { protocol_name: Some(name), leader: Some(_), .. } if name == "range"
    ));
    assert!(matches!(
        state(None, assignment(4)),
        GroupState::Forming { leader: None, .. }
    ));
    assert!(matches!(
        state(Some("a"), None),
        GroupState::Forming { .. }
    ));
}

/// Only a document that was read condemns its member.
#[test]
fn members_are_taken_for_live() {
    let replies = || {
        vec![
            read("a", false),
            read("b", true),
            MemberReply::Absent,
            MemberReply::Unreadable,
        ]
    };
    let group = DynoStore::group_view(
        Some(generation(Some("a"), &["a", "b", "c", "d"])),
        assignment(4),
        replies(),
    )
    .unwrap();
    assert_eq!(
        vec!["a", "c", "d"],
        group
            .members
            .entries
            .iter()
            .map(|(id, _)| id.as_str())
            .collect::<Vec<_>>()
    );
    let member = |id: &str| group.members.get(&id.to_string()).unwrap();
    assert_eq!(Some(99), member("a").last_contact);
    assert_eq!(vec![7], member("a").join_response.metadata);
    assert_eq!(None, member("c").last_contact);
    assert_eq!(
        Some("i-c".to_string()),
        member("c").join_response.group_instance_id
    );
    assert_eq!(0, group.inception);
    assert_eq!(4, group.generation_id);

    assert!(DynoStore::any_member_live(&replies()));
    assert!(!DynoStore::any_member_live(&vec![read("b", true)]));
    assert!(!DynoStore::any_member_live(&vec![]));
    assert!(DynoStore::is_member_live(&MemberReply::Absent));
    assert!(DynoStore::group_view(None, None, vec![]).is_none());

    assert!(DynoStore::group_state(None, None, true).is_none());
    let (occupied, _) =
        DynoStore::group_state(Some(generation(None, &["a"])), None, true).unwrap();
    assert!(occupied);
    let (occupied, _) = DynoStore::group_state(Some(generation(None, &[])), None, true).unwrap();
    assert!(!occupied);
    let (occupied, _) =
        DynoStore::group_state(Some(generation(None, &["a"])), None, false).unwrap();
    assert!(!occupied);
}

#[test]
fn commits_are_by_topic_and_partition() {
    let topition = |topic: &str, partition| Topition::new(topic.to_string(), partition);
    let mut offsets = GroupOffsets::new();
    offsets.insert(&topition("t", 1), 10);
    offsets.insert(&topition("t", 0), 11);
    offsets.insert(&topition("s", 5), 12);
    offsets.insert(&topition("t", 1), 13);
    assert_eq!(Some(&13), offsets.get(&topition("t", 1)));
    assert_eq!(None, offsets.get(&topition("t", 2)));
    assert_eq!(
        vec![("s", 5), ("t", 0), ("t", 1)],
        offsets
            .topitions()
            .iter()
            .map(|one| (one.topic(), one.partition()))
            .collect::<Vec<_>>()
    );
    offsets.insert(&topition("tt", 0), 14);
    assert!(offsets.remove_topic("t"));
    assert!(!offsets.remove_topic("t"));
    assert_eq!(Some(&14), offsets.get(&topition("tt", 0)));
    assert!(offsets.remove_topic("tt"));
    assert!(!offsets.remove_topic("u"));
    assert_eq!(1, offsets.topitions().len());
    assert!(DynoStore::group_remnants_exist(
        false,
        &offsets.topitions()
    ));
    assert!(DynoStore::group_remnants_exist(true, &vec![]));
    assert!(!DynoStore::group_remnants_exist(false, &vec![]));
}

fn listed(rest: &str, modified_ms: i64) -> Listed {
    Listed {
        location: format!("{ROOT}/{rest}"),
        modified_ms,
    }
}

/// A group goes with its newest object, and the oldest go first.
#[test]
fn groups_expire() {
    let store = store();
    let mut tally = GroupTally::new();
    for object in [
        listed("old/offsets.json", 10),
        listed("kept/offsets.json", 20),
        listed("kept/members/m.json", 2_000),
        listed("older/members/m.json", 5),
        listed("legacy.json", 1_000),
        listed("named/members/m.json", 30),
        listed("named/generation.json", 5_000),
    ] {
        tally.note(&store, ROOT, 100, &object);
    }
    let expiry = tally.expire_groups(1_000);
    assert_eq!(vec!["older", "old"], expiry.stale);
    assert!(!expiry.capped);
    assert_eq!(
        vec!["named"],
        expiry
            .aged_members
            .entries
            .iter()
            .map(|entry| entry.0.as_str())
            .collect::<Vec<_>>()
    );
}

#[test]
fn a_sweep_of_groups_is_bounded() {
    let store = store();
    let mut tally = GroupTally::new();
    for n in 0..GROUP_EXPIRE_CHUNK + 5 {
        tally.note(
            &store,
            ROOT,
            0,
            &listed(&format!("g{n}/offsets.json"), n as i64),
        );
    }
    let expiry = tally.expire_groups(1_000_000);
    assert!(expiry.capped);
    assert_eq!(GROUP_EXPIRE_CHUNK, expiry.stale.len());
    assert_eq!("g0", expiry.stale[0]);

    assert_eq!(0, expiry_threshold(GROUP_RETENTION_MS));
    assert_eq!(5, orphan_threshold(GROUP_MEMBER_ORPHAN_AGE_MS + 5));
}

/// A document that nobody names goes, if it is old enough and there is room.
#[test]
fn documents_of_nobody_are_reclaimed() {
    let store = store();
    let named = generation(None, &["a"]).members;
    let listing = vec![
        listed("g/members/a.json", 1),
        listed("g/members/b.json", 1),
        listed("g/members/c.json", 100),
        listed("g/members/d.json", 1),
        listed("g/offsets.json", 1),
    ];
    let reclaim =
        |budget| store.reclaim_member_documents(ROOT, 100, &named, &listing, budget);
    assert_eq!(
        vec![
            format!("{ROOT}/g/members/b.json"),
            format!("{ROOT}/g/members/d.json")
        ],
        reclaim(10)
    );
    assert_eq!(vec![format!("{ROOT}/g/members/b.json")], reclaim(1));
    assert_eq!(1, reclaim(0).len());

    assert_eq!(
        Some(GROUP_MEMBER_RECLAIM_CHUNK),
        DynoStore::member_reclaim_budget(0)
    );
    assert_eq!(
        Some(0),
        DynoStore::member_reclaim_budget(GROUP_MEMBER_RECLAIM_CHUNK)
    );
    assert_eq!(
        None,
        DynoStore::member_reclaim_budget(GROUP_MEMBER_RECLAIM_CHUNK + 1)
    );
}
