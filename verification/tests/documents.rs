//! Documents that several writers change, over an object store in memory.

use bytes::Bytes;
use dynostore::config::{StoreIdentity, Tuning};
use dynostore::error::{Error, ErrorCode};
use dynostore::lease::PrefixLease;
use dynostore::memo::{unchanged_version, Cache, GetStep};
use dynostore::metron::{FaultKind, StoreFault};
use dynostore::object::{ms_of_reading, DeleteStep, PutOutcome, Scan, UpdateError};
use dynostore::opticon::{
    is_contended, Creation, DeleteReply, GetReply, OptiCon, PutMode, PutReply, Step, UpdateVersion,
};
use dynostore::principals::{
    ScramMechanism, UpdateAction, UpdateEvent, UpdateReply, UPDATE_ATTEMPTS,
};
use dynostore::store::DynoStore;
use futures::executor::block_on;
use object_store::memory::InMemory;
use object_store::path::Path;
use object_store::{GetOptions, ObjectStore, ObjectStoreExt, PutOptions, PutPayload};

const PATH: &str = "abc/test.json";

fn store() -> DynoStore {
    DynoStore::new(
        StoreIdentity {
            cluster: "c".to_string(),
            node: 1,
            advertised_listener: "tcp://localhost:9092".to_string(),
            writer_id: "w".to_string(),
            maintenance_seed: 7,
        },
        Tuning::new(),
    )
}

fn payload(value: i32) -> PutPayload {
    PutPayload::from(Bytes::from(serde_json::to_vec(&value).unwrap()))
}

/// Put an object on no condition.
fn put(objects: &InMemory, value: i32) {
    let _ = block_on(objects.put(&Path::from(PATH), payload(value))).unwrap();
}

/// The value that is stored, if there is one.
fn stored(objects: &InMemory) -> Option<i32> {
    match block_on(objects.get(&Path::from(PATH))) {
        Ok(found) => {
            Some(serde_json::from_slice(&block_on(found.bytes()).unwrap()).unwrap())
        }
        Err(object_store::Error::NotFound { .. }) => None,
        Err(error) => panic!("{error}"),
    }
}

fn get_reply(objects: &InMemory, if_none_match: Option<String>) -> GetReply<i32> {
    let options = GetOptions {
        if_none_match,
        ..Default::default()
    };
    match block_on(objects.get_opts(&Path::from(PATH), options)) {
        Ok(found) => {
            let version = UpdateVersion {
                e_tag: found.meta.e_tag.clone(),
                version: found.meta.version.clone(),
            };
            let data = serde_json::from_slice(&block_on(found.bytes()).unwrap())
                .map_err(|error| Error::Message(error.to_string()));
            GetReply::Found(data, version)
        }
        Err(object_store::Error::NotFound { .. }) => GetReply::NotFound,
        Err(error @ object_store::Error::NotModified { .. }) => {
            GetReply::NotModified(Error::ObjectStore(error.to_string()))
        }
        Err(error) => GetReply::Failed(Error::ObjectStore(error.to_string())),
    }
}

fn put_reply(objects: &InMemory, value: i32, mode: &PutMode) -> PutReply {
    let mode = match mode {
        PutMode::Create => object_store::PutMode::Create,
        PutMode::Update(version) => object_store::PutMode::Update(object_store::UpdateVersion {
            e_tag: version.e_tag.clone(),
            version: version.version.clone(),
        }),
    };
    let options = PutOptions {
        mode,
        ..Default::default()
    };
    match block_on(objects.put_opts(&Path::from(PATH), payload(value), options)) {
        Ok(put) => PutReply::Stored(UpdateVersion {
            e_tag: put.e_tag,
            version: put.version,
        }),
        Err(error @ object_store::Error::Precondition { .. }) => {
            PutReply::Precondition(Error::ObjectStore(error.to_string()))
        }
        Err(object_store::Error::AlreadyExists { .. }) => PutReply::AlreadyExists,
        Err(error) => PutReply::Failed(Error::ObjectStore(error.to_string())),
    }
}

/// Read one more than the document.
fn next(objects: &InMemory, handle: &mut OptiCon<i32>) -> i32 {
    handle
        .refresh(get_reply(objects, handle.if_none_match()))
        .unwrap();
    handle.with(&0, |x| Ok(x + 1)).unwrap()
}

/// Add one to the document, and answer with a multiple of it.
fn increment(objects: &InMemory, handle: &mut OptiCon<i32>, factor: i32) -> i32 {
    loop {
        let proposal = handle.propose(&0, |x| (x + 1, Ok(factor * (x + 1))));
        let reply = put_reply(objects, proposal.data, &proposal.mode);
        match handle.with_mut(proposal, reply) {
            Step::Done(outcome) => return outcome.unwrap(),
            Step::Reread => handle.get(get_reply(objects, None)).unwrap(),
            Step::Failed(error) => panic!("{error:?}"),
        }
    }
}

fn handle() -> OptiCon<i32> {
    OptiCon::path(PATH.to_string())
}

#[test]
fn with_does_not_exist() {
    let objects = InMemory::new();
    let mut o = handle();
    assert_eq!(1, next(&objects, &mut o));
    assert_eq!(None, stored(&objects));
    assert_eq!(1, next(&objects, &mut o));
    assert_eq!(None, stored(&objects));
}

#[test]
fn with_mut_does_not_exist() {
    let objects = InMemory::new();
    let mut o = handle();
    assert_eq!(1, increment(&objects, &mut o, 1));
    assert_eq!(Some(1), stored(&objects));
    assert_eq!(2, increment(&objects, &mut o, 1));
    assert_eq!(Some(2), stored(&objects));
}

#[test]
fn with_did_exist() {
    let objects = InMemory::new();
    put(&objects, 6);
    let mut o = handle();
    assert_eq!(7, next(&objects, &mut o));
    block_on(objects.delete(&Path::from(PATH))).unwrap();
    assert_eq!(1, next(&objects, &mut o));
    assert_eq!(None, stored(&objects));
    assert_eq!(1, next(&objects, &mut o));
    assert_eq!(None, stored(&objects));
}

#[test]
fn with_mut_did_exist() {
    let objects = InMemory::new();
    put(&objects, 6);
    let mut o = handle();
    assert_eq!(7, increment(&objects, &mut o, 1));
    assert_eq!(Some(7), stored(&objects));
    block_on(objects.delete(&Path::from(PATH))).unwrap();
    assert_eq!(1, increment(&objects, &mut o, 1));
    assert_eq!(Some(1), stored(&objects));
    assert_eq!(2, increment(&objects, &mut o, 1));
    assert_eq!(Some(2), stored(&objects));
}

#[test]
fn with_already_exists() {
    let objects = InMemory::new();
    put(&objects, 6);
    let mut o = handle();
    assert_eq!(7, next(&objects, &mut o));
    assert_eq!(Some(6), stored(&objects));
    assert_eq!(7, next(&objects, &mut o));
    assert_eq!(Some(6), stored(&objects));
}

#[test]
fn with_mut_already_exists() {
    let objects = InMemory::new();
    put(&objects, 6);
    let mut o = handle();
    assert_eq!(42, increment(&objects, &mut o, 6));
    assert_eq!(Some(7), stored(&objects));
    assert_eq!(48, increment(&objects, &mut o, 6));
    assert_eq!(Some(8), stored(&objects));
}

/// Two writers lose nothing of each other.
#[test]
fn no_change_is_lost() {
    let objects = InMemory::new();
    let mut a = handle();
    let mut b = handle();
    for _ in 0..10 {
        let _ = increment(&objects, &mut a, 1);
        let _ = increment(&objects, &mut b, 1);
    }
    assert_eq!(Some(20), stored(&objects));
    assert!(!is_contended(7));
    assert!(is_contended(8));
}

#[test]
fn a_document_is_created_once_and_removed() {
    let objects = InMemory::new();
    let mut a = handle();
    let mut b = handle();
    let reply = put_reply(&objects, 3, &PutMode::Create);
    assert!(matches!(a.create(3, reply), Creation::Created));
    let reply = put_reply(&objects, 4, &PutMode::Create);
    assert!(matches!(b.create(4, reply), Creation::Refresh));
    b.refresh(get_reply(&objects, b.if_none_match())).unwrap();
    assert_eq!(Some(&3), a.get_opt());
    assert_eq!(Some(&3), b.get_opt());

    block_on(objects.delete(&Path::from(PATH))).unwrap();
    a.remove(DeleteReply::Deleted).unwrap();
    b.remove(DeleteReply::NotFound).unwrap();
    assert_eq!(None, a.get_opt());
    assert_eq!(None, b.get_opt());

    assert!(matches!(
        b.create(4, PutReply::Precondition(Error::ObjectStore("changed".to_string()))),
        Creation::Failed(Error::ObjectStore(text)) if text == "changed"
    ));
    assert!(matches!(
        b.create(4, PutReply::Failed(Error::Poison)),
        Creation::Failed(Error::Poison)
    ));
    assert!(matches!(
        b.remove(DeleteReply::Failed(Error::Poison)),
        Err(Error::Poison)
    ));
}

#[test]
fn a_failed_read_changes_nothing() {
    let objects = InMemory::new();
    put(&objects, 6);
    let mut o = handle();
    o.get(get_reply(&objects, None)).unwrap();
    assert!(matches!(
        o.get(GetReply::Failed(Error::Poison)),
        Err(Error::Poison)
    ));
    assert!(matches!(
        o.get(GetReply::NotModified(Error::ObjectStore("same".to_string()))),
        Err(Error::ObjectStore(text)) if text == "same"
    ));
    assert!(matches!(
        o.refresh(GetReply::Found(
            Err(Error::Message("damaged".to_string())),
            unchanged_version(&None)
        )),
        Err(Error::Message(_))
    ));
    assert_eq!(Some(&6), o.get_opt());
    o.refresh(get_reply(&objects, o.if_none_match())).unwrap();
    assert_eq!(Some(&6), o.get_opt());
}

/// An object store behind the versions that were seen, which counts its requests.
struct Counter {
    objects: InMemory,
    cache: Cache,
    gets: u64,
    puts: u64,
}

impl Counter {
    fn new(retention_ms: u64) -> Self {
        Counter {
            objects: InMemory::new(),
            cache: Cache::new(retention_ms),
            gets: 0,
            puts: 0,
        }
    }

    fn ask(&mut self, path: &str, presented: &Option<String>) -> GetReply<()> {
        self.gets += 1;
        let options = GetOptions {
            if_none_match: presented.clone(),
            ..Default::default()
        };
        match block_on(self.objects.get_opts(&Path::from(path), options)) {
            Ok(found) => {
                let seen = UpdateVersion {
                    e_tag: found.meta.e_tag,
                    version: found.meta.version,
                };
                let _ = self.cache.remember(path, &seen);
                GetReply::Found(Ok(()), seen)
            }
            Err(error @ object_store::Error::NotModified { .. }) => {
                let _ = self.cache.remember(path, &unchanged_version(presented));
                GetReply::NotModified(Error::ObjectStore(error.to_string()))
            }
            Err(object_store::Error::NotFound { .. }) => GetReply::NotFound,
            Err(error) => GetReply::Failed(Error::ObjectStore(error.to_string())),
        }
    }

    fn get_opts(&mut self, path: &str, presented: &Option<String>) -> GetReply<()> {
        let lookup = self.cache.lookup(path, presented);
        let step = match Cache::get_opts(lookup, presented) {
            GetStep::Revalidate => self
                .cache
                .revalidate(path, presented.as_ref().unwrap()),
            step => step,
        };
        match step {
            GetStep::NotModified => {
                GetReply::NotModified(Error::ObjectStore(format!("{path} is held")))
            }
            _ => self.ask(path, presented),
        }
    }

    fn put(&mut self, path: &str) -> Option<String> {
        self.puts += 1;
        let put = block_on(self.objects.put(&Path::from(path), payload(6))).unwrap();
        let seen = UpdateVersion {
            e_tag: put.e_tag,
            version: put.version,
        };
        let _ = self.cache.remember(path, &seen);
        seen.e_tag
    }
}

fn wait(ms: u128) {
    let started = std::time::Instant::now();
    while started.elapsed().as_millis() < ms {}
}

fn tag_of(reply: GetReply<()>) -> Option<String> {
    match reply {
        GetReply::Found(_, version) => version.e_tag,
        _ => panic!("{reply:?}"),
    }
}

#[test]
fn get() {
    let mut cache = Counter::new(100);
    let _ = block_on(cache.objects.put(&Path::from(PATH), payload(6))).unwrap();
    assert_eq!(0, cache.gets);
    let tag = tag_of(cache.get_opts(PATH, &None));
    assert_eq!(1, cache.gets);
    assert!(matches!(cache.get_opts(PATH, &tag), GetReply::NotModified(_)));
    assert_eq!(1, cache.gets);
}

#[test]
fn get_evict_get() {
    let mut cache = Counter::new(100);
    let _ = block_on(cache.objects.put(&Path::from(PATH), payload(6))).unwrap();
    assert_eq!(0, cache.gets);
    let tag = tag_of(cache.get_opts(PATH, &None));
    assert_eq!(1, cache.gets);
    assert!(matches!(cache.get_opts(PATH, &tag), GetReply::NotModified(_)));
    assert_eq!(1, cache.gets);
    wait(100);
    assert!(matches!(cache.get_opts(PATH, &tag), GetReply::NotModified(_)));
    assert_eq!(2, cache.gets);
}

#[test]
fn put_get() {
    let mut cache = Counter::new(5_000);
    assert_eq!((0, 0), (cache.puts, cache.gets));
    let tag = cache.put(PATH);
    assert_eq!((1, 0), (cache.puts, cache.gets));
    assert!(matches!(cache.get_opts(PATH, &tag), GetReply::NotModified(_)));
    assert_eq!(0, cache.gets);
    assert!(matches!(cache.get_opts(PATH, &tag), GetReply::NotModified(_)));
    assert_eq!(0, cache.gets);
}

#[test]
fn put_delete_get() {
    let mut cache = Counter::new(100);
    assert_eq!((0, 0), (cache.puts, cache.gets));
    let tag = cache.put(PATH);
    assert_eq!((1, 0), (cache.puts, cache.gets));
    block_on(cache.objects.delete(&Path::from(PATH))).unwrap();
    assert!(cache.cache.delete_stream(PATH));
    assert!(matches!(cache.get_opts(PATH, &tag), GetReply::NotFound));
    assert_eq!(1, cache.gets);
}

/// Sixteen callers find that they must ask, and take the lock one after another.
#[test]
fn concurrent_revalidations_of_one_key_cost_one_request() {
    let path = "abc/meta.json";
    let mut cache = Counter::new(100);
    let tag = cache.put(path);
    wait(150);
    assert_eq!(0, cache.gets);

    let steps = (0..16)
        .map(|_| Cache::get_opts(cache.cache.lookup(path, &tag), &tag))
        .collect::<Vec<_>>();
    for step in steps {
        assert_eq!(GetStep::Revalidate, step);
        match cache.cache.revalidate(path, tag.as_ref().unwrap()) {
            GetStep::NotModified => {}
            _ => assert!(matches!(cache.ask(path, &tag), GetReply::NotModified(_))),
        }
    }
    assert_eq!(1, cache.gets);
}

#[test]
fn body_reads_are_not_single_flighted() {
    let path = "abc/00000000000000000001.seg";
    let mut cache = Counter::new(100);
    let _ = cache.put(path);
    for _ in 0..8 {
        assert!(matches!(
            cache.get_opts(path, &None),
            GetReply::Found(Ok(()), _)
        ));
    }
    assert_eq!(8, cache.gets);
}

/// A lease is taken, renewed, yielded to, and taken over once it has run out.
#[test]
fn one_writer_holds_a_lease() {
    let version = |tag: &str| UpdateVersion {
        e_tag: Some(tag.to_string()),
        version: None,
    };
    let mut store = store();
    let ttl = store.tuning.prefix_lease_ttl;
    assert_eq!(
        "clusters/c/prefixes/p/lease.json",
        store.lease_location("p")
    );
    assert_eq!(
        "clusters/c/prefixes/p/compaction-lease.json",
        store.compaction_lease_location("p")
    );

    let claim = store.claim_lease("p", None, None, 1_000).unwrap();
    assert_eq!(1, claim.lease.epoch);
    assert_eq!("w", claim.lease.holder);
    assert_eq!(1_000 + ttl as i64, claim.lease.expires_at_ms);
    assert_eq!(1_000, claim.lease.maintained_at_ms);
    assert!(matches!(claim.mode, PutMode::Create));
    assert_eq!(
        1,
        store
            .acquire_or_renew_lease_at("p", &claim, PutReply::Stored(version("a")), 1_000)
            .unwrap()
    );
    assert_eq!(
        Some(1),
        store
            .comfortable_term("p", 999 + ttl - ttl / 3)
            .unwrap()
    );
    assert_eq!(
        None,
        store
            .comfortable_term("p", 1_000 + ttl - ttl / 3)
            .unwrap()
    );
    assert_eq!(None, store.comfortable_term("q", 0).unwrap());

    let lease = |epoch, expires_at_ms| PrefixLease {
        epoch,
        holder: "x".to_string(),
        expires_at_ms,
        maintained_at_ms: 0,
    };
    // One's own is renewed before it runs out.
    let claim = store
        .claim_lease("p", Some(lease(1, 9_000)), Some(version("a")), 2_000)
        .unwrap();
    assert_eq!(2, claim.lease.epoch);
    assert!(matches!(claim.mode, PutMode::Update(version) if version.e_tag.as_deref() == Some("a")));
    // Another's is not.
    assert!(matches!(
        store.claim_lease("p", Some(lease(5, 9_000)), Some(version("b")), 8_999),
        Err(Error::Api(ErrorCode::NotLeaderOrFollower))
    ));
    assert_eq!(None, store.comfortable_term("p", 0).unwrap());
    let claim = store
        .claim_lease("p", Some(lease(5, 9_000)), Some(version("b")), 9_000)
        .unwrap();
    assert_eq!(6, claim.lease.epoch);

    assert!(matches!(
        store.acquire_or_renew_lease_at(
            "p",
            &claim,
            PutReply::Precondition(Error::Poison),
            9_000
        ),
        Err(Error::Api(ErrorCode::NotLeaderOrFollower))
    ));
    assert!(matches!(
        store.acquire_or_renew_lease_at("p", &claim, PutReply::Failed(Error::Poison), 9_000),
        Err(Error::Poison)
    ));
    store.prefixes.leases.poisoned = true;
    assert!(matches!(
        store.claim_lease("p", None, None, 9_000),
        Err(Error::Poison)
    ));
}

#[test]
fn a_change_of_the_rules_is_given_up_in_the_end() {
    let store = store();
    assert_eq!("clusters/c/acls.json", store.acls_location());
    assert_eq!("clusters/c/quotas.json", store.quotas_location());
    assert_eq!(
        "clusters/c/users/alice/scram-sha-256.json",
        store.user_scram_credential_location("alice", ScramMechanism::Scram256)
    );
    assert_eq!(
        "clusters/c/users/alice/scram-sha-512.json",
        store.user_scram_credential_location("alice", ScramMechanism::Scram512)
    );
    // A user is one part, whatever the name holds.
    for (user, part) in [
        ("a/b", "a%2Fb"),
        ("a%2Fb", "a%252Fb"),
        ("/", "%2F"),
        (".", "%2E"),
        ("..", "%2E%2E"),
        ("%2E", "%252E"),
        ("x y@z", "x y@z"),
        ("{~}", "%7B%7E%7D"),
        ("\u{e9}\n", "%C3%A9%0A"),
    ] {
        assert_eq!(
            format!("clusters/c/users/{part}/scram-sha-256.json"),
            store.user_scram_credential_location(user, ScramMechanism::Scram256)
        );
    }
    assert_eq!(
        "clusters/c/users/scram-sha-256.json",
        store.user_scram_credential_location("", ScramMechanism::Scram256)
    );

    let mut lost = 0;
    for n in 1..=UPDATE_ATTEMPTS {
        assert!(matches!(
            store.update_acls(&mut lost, UpdateEvent::Due),
            UpdateAction::Read
        ));
        let reply = if n % 2 == 0 {
            UpdateReply::Vanished
        } else {
            UpdateReply::Outdated
        };
        assert!(matches!(
            store.update_acls(&mut lost, UpdateEvent::Replied(reply)),
            UpdateAction::Wait(ms) if ms == 5 * n as u64
        ));
    }
    match store.update_acls(&mut lost, UpdateEvent::Due) {
        UpdateAction::Failed(Error::Message(text)) => {
            assert_eq!("could not write the acls of cluster c in 16 attempts", text)
        }
        _ => unreachable!(),
    }

    let mut lost = 3;
    assert!(matches!(
        store.update_quotas(&mut lost, UpdateEvent::Replied(UpdateReply::Stored)),
        UpdateAction::Done
    ));
    match store.update_quotas(&mut lost, UpdateEvent::Replied(UpdateReply::MissingEtag)) {
        UpdateAction::Failed(Error::Message(text)) => {
            assert_eq!("quota update reported a missing etag", text)
        }
        _ => unreachable!(),
    }
    assert!(matches!(
        store.update_quotas(
            &mut lost,
            UpdateEvent::Replied(UpdateReply::Failed(Error::Poison))
        ),
        UpdateAction::Failed(Error::Poison)
    ));
    assert_eq!(3, lost);
}

#[test]
fn a_cluster_without_rules_has_empty_ones() {
    let (rules, version) =
        DynoStore::read_document(GetReply::NotFound, Vec::<i32>::new()).unwrap();
    assert!(rules.is_empty());
    assert!(version.is_none());
    let found = GetReply::Found(Ok(vec![1]), unchanged_version(&Some("t".to_string())));
    let (rules, version) = DynoStore::read_document(found, vec![]).unwrap();
    assert_eq!(vec![1], rules);
    assert_eq!(Some("t".to_string()), version.unwrap().e_tag);
    assert!(matches!(
        DynoStore::read_document(GetReply::Failed(Error::Poison), 0),
        Err(Error::Poison)
    ));
    assert!(matches!(
        DynoStore::read_document(
            GetReply::NotModified(Error::ObjectStore("same".to_string())),
            0
        ),
        Err(Error::ObjectStore(text)) if text == "same"
    ));
}

fn fault(kind: FaultKind, text: &str) -> StoreFault {
    StoreFault {
        kind,
        texts: vec![text.to_string()],
    }
}

#[test]
fn what_replies_come_to() {
    assert!(matches!(DynoStore::put_create(Ok(())), Ok(true)));
    assert!(matches!(
        DynoStore::put_create(Err(fault(FaultKind::AlreadyExists, ""))),
        Ok(false)
    ));
    assert!(DynoStore::put_create(Err(fault(FaultKind::Other, ""))).is_err());

    let missing = || {
        fault(
            FaultKind::NotFound {
                path: "p".to_string(),
            },
            "",
        )
    };
    assert!(matches!(
        DynoStore::absent_is_none::<i32>(Err(missing())),
        Ok(None)
    ));
    assert!(matches!(DynoStore::absent_is_none(Ok(4)), Ok(Some(4))));
    assert!(DynoStore::absent_is_none::<i32>(Err(fault(FaultKind::Other, ""))).is_err());

    assert!(matches!(
        DynoStore::put(PutReply::AlreadyExists),
        PutOutcome::Reread
    ));
    assert!(matches!(
        DynoStore::put(PutReply::Precondition(Error::Poison)),
        PutOutcome::Reread
    ));
    assert!(matches!(
        DynoStore::put(PutReply::Failed(Error::Poison)),
        PutOutcome::Failed(Error::Poison)
    ));
    assert!(matches!(DynoStore::put_mode(None), PutMode::Create));
    assert!(matches!(
        DynoStore::put_mode(Some(unchanged_version(&None))),
        PutMode::Update(_)
    ));
    assert!(matches!(
        DynoStore::put_lost::<i32>(GetReply::NotFound),
        UpdateError::Vanished
    ));
    assert!(matches!(
        DynoStore::put_lost(GetReply::Found(Ok(4), unchanged_version(&None))),
        UpdateError::Outdated { current: 4, .. }
    ));
    assert!(DynoStore::delete_each(DeleteReply::NotFound).is_ok());
    assert!(DynoStore::delete_each(DeleteReply::Failed(Error::Poison)).is_err());
}

#[test]
fn a_throttled_delete_is_made_again() {
    let throttled = || fault(FaultKind::Other, "SlowDown");
    assert!(matches!(
        DynoStore::delete_batches(0, Ok(())),
        DeleteStep::Done
    ));
    assert!(matches!(
        DynoStore::delete_batches(4, Err(throttled())),
        DeleteStep::Backoff { attempt: 4 }
    ));
    assert!(matches!(
        DynoStore::delete_batches(5, Err(throttled())),
        DeleteStep::Each
    ));
    assert!(matches!(
        DynoStore::delete_batches(0, Err(fault(FaultKind::Other, "reset"))),
        DeleteStep::Failed(_)
    ));
}

#[test]
fn listings_say_what_they_are_for() {
    let store = store();
    let listing = store.scan_from(Scan::SegmentIndex, "p/", "p/3");
    assert_eq!("segment_index", listing.purpose);
    assert_eq!("p/", listing.prefix);
    assert_eq!(Some("p/3".to_string()), listing.start_after);
    assert!(!listing.delimited);
    assert!(store.scan_delimited(Scan::Ping, "p").delimited);
    assert!(!store.scan(Scan::Group, "p").delimited);
    for (scan, name) in [
        (Scan::Group, "group"),
        (Scan::TopicMetadata, "topic_metadata"),
        (Scan::AdminDelete, "admin_delete"),
        (Scan::RetiredPrefix, "retired_prefix"),
        (Scan::Ping, "ping"),
    ] {
        assert_eq!(name, scan.as_str());
    }
}

#[test]
fn the_clock_counts_from_the_epoch() {
    assert_eq!(0, ms_of_reading(None));
    assert_eq!(12, ms_of_reading(Some(12)));
    assert!(DynoStore::now_ms() > 1_600_000_000_000);
}
