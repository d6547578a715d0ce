//! The versions that were seen, and the kinds of keys and of errors.

use dynostore::key_class::{is_immutable, key_class};
use dynostore::memo::{
    is_control_outcome, judge, revalidation_stripe, unchanged_version, Cache, GetStep, Lookup,
    Remembered, REVALIDATION_STRIPES,
};
use dynostore::metron::{object_store_error_name, FaultKind, StoreFault};
use dynostore::opticon::UpdateVersion;
use object_store::path::Path;
use std::error::Error;

/// An error of the object store, as the library takes it.
fn fault(error: &object_store::Error) -> StoreFault {
    let kind = match error {
        object_store::Error::NotFound { path, .. } => FaultKind::NotFound { path: path.clone() },
        object_store::Error::AlreadyExists { .. } => FaultKind::AlreadyExists,
        object_store::Error::Precondition { .. } => FaultKind::Precondition,
        object_store::Error::NotModified { .. } => FaultKind::NotModified,
        _ => FaultKind::Other,
    };
    let mut texts = vec![];
    let mut current: Option<&dyn Error> = Some(error);
    while let Some(err) = current {
        texts.push(err.to_string());
        current = err.source();
    }
    StoreFault { kind, texts }
}

fn path(text: &str) -> String {
    Path::from(text).to_string()
}

#[test]
fn asked_for_responses_are_not_faults() {
    for error in [
        object_store::Error::NotFound {
            path: "p".into(),
            source: "probe".into(),
        },
        object_store::Error::AlreadyExists {
            path: "p".into(),
            source: "create-CAS lost the race".into(),
        },
        object_store::Error::Precondition {
            path: "p".into(),
            source: "etag moved".into(),
        },
        object_store::Error::NotModified {
            path: "p".into(),
            source: "revalidated".into(),
        },
    ] {
        assert!(
            is_control_outcome(&fault(&error)),
            "{} must not count as a fault",
            object_store_error_name(&fault(&error)),
        );
    }
}

#[test]
fn a_genuine_failure_is_still_a_fault() {
    let throttled = object_store::Error::Generic {
        store: "S3",
        source: "503 SlowDown".into(),
    };

    assert!(!is_control_outcome(&fault(&throttled)));
    assert_eq!("throttle", object_store_error_name(&fault(&throttled)));

    let unnamed = object_store::Error::Generic {
        store: "S3",
        source: "connection reset by peer".into(),
    };

    assert!(!is_control_outcome(&fault(&unnamed)));
    assert_eq!("otherwise", object_store_error_name(&fault(&unnamed)));
}

#[test]
fn key_class_names_the_planes_the_404s_come_from() {
    for (text, expected) in [
        (
            "clusters/c/topics/t/partitions/0000000000/records/0.batch",
            "records",
        ),
        (
            "clusters/c/prefixes/p/segments/00000000000000000001.seg",
            "segment",
        ),
        (
            "clusters/c/topics/t/partitions/0000000000/watermark.json",
            "watermark",
        ),
        ("clusters/c/prefixes/p/seq-floor.json", "seq_floor"),
        ("clusters/c/prefixes/p/era.json", "era"),
        // The directories, so that a listing has a class as well.
        ("clusters/c/prefixes/p/segments/", "segment"),
        (
            "clusters/c/topics/t/partitions/0000000000/records/",
            "records",
        ),
    ] {
        assert_eq!(expected, key_class(&path(text)), "for {text}");
    }
}

#[test]
fn key_class_decomposes_the_group_plane() {
    for (text, expected) in [
        (
            "clusters/c/groups/consumers/g/offsets.json",
            "group_offsets",
        ),
        (
            "clusters/c/groups/consumers/g/offsets/t/partitions/0000000000.json",
            "group_offsets",
        ),
        (
            "clusters/c/groups/consumers/g/members/m.json",
            "group_member",
        ),
        (
            "clusters/c/groups/consumers/g/assignment/0000000007.json",
            "group_assignment",
        ),
        (
            "clusters/c/groups/consumers/g/generation.json",
            "group_generation",
        ),
        ("clusters/c/groups/consumers/g.json", "group"),
    ] {
        assert_eq!(expected, key_class(&path(text)), "for {text}");
    }
}

#[test]
fn key_class_names_the_rest() {
    for (text, expected) in [
        ("clusters/c/meta.json", "meta"),
        ("clusters/c/prefixes/p/lease.json", "lease"),
        ("clusters/c/producers/7.json", "producer"),
        ("clusters/c/topic-metadata/t.json", "topic_metadata"),
        ("clusters/c/topic-ids/1.json", "topic_metadata"),
        ("clusters/c/acls.json", "other"),
    ] {
        assert_eq!(expected, key_class(&path(text)), "for {text}");
    }
}

#[test]
fn only_revalidated_keys_are_memoized() {
    for immutable in [
        "clusters/c/prefixes/p/segments/00000000000000000001.seg",
        "clusters/c/topics/t/partitions/0000000000/records/0.batch",
    ] {
        assert!(is_immutable(&path(immutable)), "for {immutable}");
    }

    for revalidated in [
        "clusters/c/meta.json",
        "clusters/c/topics/t/partitions/0000000000/watermark.json",
        "clusters/c/prefixes/p/seq-floor.json",
        "clusters/c/topic-metadata/t.json",
        "clusters/c/groups/consumers/g/generation.json",
    ] {
        assert!(!is_immutable(&path(revalidated)), "for {revalidated}");
    }
}

fn version(tag: &str) -> UpdateVersion {
    UpdateVersion {
        e_tag: Some(tag.to_string()),
        version: None,
    }
}

/// A version that was just seen answers who presents its tag, and nobody else.
#[test]
fn what_was_just_seen_answers_the_request() {
    let mut cache = Cache::new(600_000);
    let key = "clusters/c/meta.json";
    let presented = Some("one".to_string());

    assert_eq!(Lookup::Miss, cache.lookup(key, &presented));
    assert_eq!(
        GetStep::Revalidate,
        Cache::get_opts(Lookup::Miss, &presented)
    );
    assert_eq!(GetStep::Ask, cache.revalidate(key, "one"));

    assert_eq!(
        Some((Remembered::Added, true)),
        cache.remember(key, &version("one"))
    );
    assert_eq!(Lookup::Hit, cache.lookup(key, &presented));
    assert_eq!(
        GetStep::NotModified,
        Cache::get_opts(Lookup::Hit, &presented)
    );
    assert_eq!(GetStep::NotModified, cache.revalidate(key, "one"));
    assert_eq!(
        Lookup::NoMatch,
        cache.lookup(key, &Some("two".to_string()))
    );
    assert_eq!(Lookup::Miss, cache.lookup(key, &None));
    assert_eq!(GetStep::Ask, Cache::get_opts(Lookup::Miss, &None));

    assert_eq!(
        Some((Remembered::Existing, true)),
        cache.remember(key, &version("one"))
    );
    assert_eq!(
        Some((Remembered::Replaced, true)),
        cache.remember(key, &version("two"))
    );
    assert!(!cache.etag_matches(key, "one"));
    assert!(cache.etag_matches(key, "two"));
    assert_eq!(GetStep::NotModified, Cache::after_wait(true));
    assert_eq!(GetStep::Ask, Cache::after_wait(false));

    cache.poisoned = true;
    assert!(!cache.etag_matches(key, "two"));
    assert_eq!(GetStep::Ask, cache.revalidate(key, "two"));
}

/// A version is forgotten with its object, with its time, and with everything else.
#[test]
fn what_is_gone_is_asked_for_again() {
    let key = "clusters/c/meta.json";

    let mut cache = Cache::new(600_000);
    let _ = cache.remember(key, &version("one"));
    assert!(cache.delete_stream(key));
    assert!(!cache.delete_stream(key));
    assert!(!cache.etag_matches(key, "one"));

    let _ = cache.remember(key, &version("one"));
    cache.expire_cached_etags();
    assert!(!cache.etag_matches(key, "one"));

    let mut brief = Cache::new(1);
    let _ = brief.remember(key, &version("one"));
    let started = std::time::Instant::now();
    while started.elapsed().as_millis() < 20 {}
    assert!(!brief.etag_matches(key, "one"));
}

#[test]
fn data_is_never_looked_up() {
    let mut cache = Cache::new(600_000);
    let key = "clusters/c/prefixes/p/segments/00000000000000000001.seg";
    assert_eq!(None, cache.remember(key, &version("one")));
    assert_eq!(
        Lookup::Uncached,
        cache.lookup(key, &Some("one".to_string()))
    );
    assert_eq!(
        GetStep::Ask,
        Cache::get_opts(Lookup::Uncached, &Some("one".to_string()))
    );

    cache.poisoned = true;
    assert_eq!(
        Lookup::Unknown,
        cache.lookup("clusters/c/meta.json", &None)
    );
    assert_eq!(
        None,
        cache.remember("clusters/c/meta.json", &version("one"))
    );
}

#[test]
fn a_version_without_a_tag_is_no_match() {
    assert_eq!(
        Lookup::Miss,
        judge(&Some((None, Some("v".to_string()))), &Some("v".to_string()))
    );
    let unchanged = unchanged_version(&Some("tag".to_string()));
    assert_eq!(Some("tag".to_string()), unchanged.e_tag);
    assert_eq!(None, unchanged.version);
}

/// FNV-1a of nothing and of one byte.
#[test]
fn stripes_are_hashes() {
    assert_eq!(
        (0xcbf2_9ce4_8422_2325u64 % 256) as usize,
        revalidation_stripe("")
    );
    assert_eq!(
        (0xaf63_dc4c_8601_ec8cu64 % 256) as usize,
        revalidation_stripe("a")
    );
    for n in 0..1_000 {
        assert!(revalidation_stripe(&format!("k{n}")) < REVALIDATION_STRIPES);
    }
}
