//! What errors are called, and how long to wait after them.

use dynostore::metron::{
    cas_conflict_backoff, conflict_delay, delete_failure_class, is_s3_throttle, is_timeout,
    is_too_many_requests, object_store_error_name, throttle_backoff, throttle_delay, FaultKind,
    ListingPages, StoreFault,
};
use std::error::Error;

fn fault_of(error: &object_store::Error) -> StoreFault {
    let kind = match error {
        object_store::Error::NotFound { path, .. } => FaultKind::NotFound { path: path.clone() },
        object_store::Error::AlreadyExists { .. } => FaultKind::AlreadyExists,
        object_store::Error::Precondition { .. } => FaultKind::Precondition,
        object_store::Error::NotModified { .. } => FaultKind::NotModified,
        _ => FaultKind::Other,
    };
    let mut texts = vec![];
    let mut current: Option<&dyn Error> = Some(error);
    while let Some(err) = current {
        texts.push(err.to_string());
        current = err.source();
    }
    StoreFault { kind, texts }
}

fn generic_s3(source: &'static str) -> StoreFault {
    fault_of(&object_store::Error::Generic {
        store: "S3",
        source: source.into(),
    })
}

fn generic_gcs(source: &'static str) -> StoreFault {
    fault_of(&object_store::Error::Generic {
        store: "GCS",
        source: source.into(),
    })
}

#[test]
fn slowdown_503_body_is_throttle() {
    assert!(is_s3_throttle(&generic_s3(
        "Status { status: 503, body: \"<Error><Code>SlowDown</Code></Error>\" }"
    )));
}

#[test]
fn parse_error_from_200_throttle_body_is_throttle() {
    assert!(is_s3_throttle(&generic_s3(
        "Got invalid DeleteObjects response: unknown variant `Code`, expected `Deleted` or `Error`"
    )));
}

#[test]
fn a_gcs_429_is_throttle() {
    let ramp = generic_gcs(
        "Server returned non-2xx status code: 429 Too Many Requests: \
         {\"error\":{\"code\":429,\"message\":\"The object exceeded its rate limit\",\
         \"errors\":[{\"reason\":\"rateLimitExceeded\"}]}}",
    );

    assert!(is_too_many_requests(&ramp));
    assert_eq!("throttle", object_store_error_name(&ramp));

    assert!(is_too_many_requests(&generic_gcs(
        "Error performing PUT in 15s, after 5 retries - rateLimitExceeded"
    )));

    assert!(!is_s3_throttle(&ramp));
}

#[test]
fn unrelated_errors_are_not_throttle() {
    assert!(!is_s3_throttle(&fault_of(&object_store::Error::NotFound {
        path: "x".into(),
        source: "missing".into(),
    })));
    assert!(!is_s3_throttle(&generic_s3("connection reset by peer")));

    assert!(!is_too_many_requests(&generic_gcs(
        "Server returned non-2xx status code: 412 Precondition Failed: "
    )));
    assert!(!is_too_many_requests(&generic_gcs(
        "Object at location x has size 429"
    )));
}

#[test]
fn throttle_and_timeout_have_their_own_reason() {
    assert_eq!(
        "throttle",
        object_store_error_name(&generic_s3(
            "Status { status: 503, body: \"<Error><Code>SlowDown</Code></Error>\" }"
        ))
    );

    assert_eq!(
        "timeout",
        object_store_error_name(&generic_s3("error sending request: operation timed out"))
    );

    assert_eq!(
        "not_found",
        object_store_error_name(&fault_of(&object_store::Error::NotFound {
            path: "x".into(),
            source: "missing".into(),
        }))
    );
    assert_eq!(
        "otherwise",
        object_store_error_name(&generic_s3("connection reset by peer"))
    );
}

#[test]
fn a_structured_variant_is_not_reclassified_by_its_source_text() {
    assert_eq!(
        "not_found",
        object_store_error_name(&fault_of(&object_store::Error::NotFound {
            path: "x".into(),
            source: "request timed out before the object was found".into(),
        }))
    );
}

#[test]
fn the_other_answers_have_names() {
    let named = |kind: FaultKind| {
        object_store_error_name(&StoreFault {
            kind,
            texts: vec!["SlowDown".to_string()],
        })
    };
    assert_eq!("pre_condition", named(FaultKind::Precondition));
    assert_eq!("already_exists", named(FaultKind::AlreadyExists));
    assert_eq!("not_modified", named(FaultKind::NotModified));
}

/// The case of letters does not matter to a timeout, and does to a throttle.
#[test]
fn timeouts_are_found_in_any_case() {
    assert!(is_timeout(&generic_s3("Deadline HAS Elapsed")));
    assert!(is_timeout(&generic_s3("Connect Timeout")));
    assert!(!is_timeout(&generic_s3("out of time")));
    assert!(!is_s3_throttle(&generic_s3("slowdown")));
}

#[test]
fn a_failed_delete_has_the_class_of_its_key() {
    let gone = fault_of(&object_store::Error::NotFound {
        path: "/clusters/c/prefixes/p/segments/1.seg".into(),
        source: "missing".into(),
    });
    assert_eq!("segment", delete_failure_class(&gone));
    assert_eq!("other", delete_failure_class(&generic_s3("no")));
}

#[test]
fn backoff_grows_and_is_capped() {
    let first = throttle_backoff(0);
    assert!((500..=750).contains(&first), "{first}");

    let capped = throttle_backoff(20);
    assert!((30_000..=45_000).contains(&capped), "{capped}");
}

#[test]
fn waits_double() {
    let floors = (0..8).map(|n| throttle_delay(n, 0)).collect::<Vec<_>>();
    assert_eq!(
        vec![500, 1_000, 2_000, 4_000, 8_000, 16_000, 30_000, 30_000],
        floors
    );
    assert_eq!(750, throttle_delay(0, 250));
    let floors = (0..6).map(|n| conflict_delay(n, 0)).collect::<Vec<_>>();
    assert_eq!(vec![1, 2, 4, 8, 16, 16], floors);
}

#[test]
fn cas_conflict_backoff_is_short_capped_and_jittered() {
    let first = cas_conflict_backoff(0);
    assert!((1..=2).contains(&first), "{first}");

    for attempt in [4, 5, 64, 1_000] {
        let capped = cas_conflict_backoff(attempt);
        assert!((16..=32).contains(&capped), "attempt {attempt}: {capped}");
    }

    assert!(64 * cas_conflict_backoff(64) < 3_000);
}

/// Chance has a say: not every wait is the same.
#[test]
fn waits_are_jittered() {
    let waits = (0..200)
        .map(|_| throttle_backoff(6))
        .collect::<std::collections::BTreeSet<_>>();
    assert!(waits.len() > 1);
}

/// A listing of two full pages and a bit is three requests; one that gives nothing is
/// one.
#[test]
fn pages_of_a_listing_are_requests() {
    let mut pages = ListingPages::new();
    assert_eq!(1, pages.requests);
    let mut ended = vec![];
    for n in 1..=2_345u64 {
        if pages.instrument_listing() {
            ended.push(n);
        }
    }
    assert_eq!(vec![1_000, 2_000], ended);
    assert_eq!(3, pages.requests);
}
