//! What a failure of the object store is called, and how long to wait after one.

use crate::key_class::key_class;
use crate::key_class::class_of;
use crate::path::{path_from, path_of};
use crate::random::random_up_to;
use crate::text::{contains_str, contains_text, push_char};
use vstd::arithmetic::power2::{lemma2_to64, lemma_pow2_strictly_increases, pow2};
use vstd::prelude::*;
use vstd::string::*;

verus! {

/// What an error of the object store is, by itself.
#[derive(Debug)]
pub enum FaultKind {
    NotFound { path: String },
    AlreadyExists,
    Precondition,
    NotModified,
    /// Anything else.
    Other,
}

/// An error of the object store: what it is, and what it and the errors behind it
/// say, from the outermost in.
#[derive(Debug)]
pub struct StoreFault {
    pub kind: FaultKind,
    pub texts: Vec<String>,
}

/// Whether a text is about a request rate that was too high for S3: a reply that
/// says so, or the trouble that one gives whoever takes it for the reply of a bulk
/// delete.
pub open spec fn tells_s3_throttle(text: Seq<char>) -> bool {
    contains_text(text, "SlowDown"@) || contains_text(text, "unknown variant `Code`"@)
        || contains_text(text, "invalid DeleteObjects response"@)
}

/// Whether a text is about too many requests, as Google's store puts it.
pub open spec fn tells_too_many_requests(text: Seq<char>) -> bool {
    contains_text(text, "429 Too Many Requests"@) || contains_text(text, "rateLimitExceeded"@)
}

/// A character in lower case, if it is a letter of ASCII.
pub open spec fn lower(c: char) -> char {
    if 'A' <= c <= 'Z' {
        ((c as u8) + 32) as char
    } else {
        c
    }
}

/// A text in lower case, as far as ASCII goes.
pub open spec fn lowered(text: Seq<char>) -> Seq<char> {
    text.map_values(|c: char| lower(c))
}

/// Whether a text is about a time that ran out.
pub open spec fn tells_timeout(text: Seq<char>) -> bool {
    contains_text(lowered(text), "timed out"@) || contains_text(lowered(text), "timeout"@)
        || contains_text(lowered(text), "deadline has elapsed"@)
}

/// Whether one of the texts of an error tells something.
pub open spec fn some_text(fault: StoreFault, tells: spec_fn(Seq<char>) -> bool) -> bool {
    exists|i: int| 0 <= i < fault.texts@.len() && tells((#[trigger] fault.texts@[i])@)
}

/// A text in lower case, as far as ASCII goes.
fn lowercase(text: &str) -> (result: String)
    ensures
        result@ == lowered(text@),
{
    let mut result = String::new();
    for c in it: text.chars()
        invariant
            it.seq() == text@,
            result@ == lowered(text@.take(it.index() as int)),
    {
        let ghost at = it.index() as int;
        let low: char = if 'A' <= c && c <= 'Z' {
            ((c as u8) + 32) as char
        } else {
            c
        };
        push_char(&mut result, low);
        assert(lowered(text@.take(at + 1)) =~= lowered(text@.take(at)).push(low));
    }
    assert(text@.take(text@.len() as int) =~= text@);
    result
}

/// Whether an error is a request rate that was too high for S3.
pub fn is_s3_throttle(fault: &StoreFault) -> (throttled: bool)
    ensures
        throttled == some_text(*fault, |text: Seq<char>| tells_s3_throttle(text)),
{
    let ghost tells = |text: Seq<char>| tells_s3_throttle(text);
    let mut at: usize = 0;
    while at < fault.texts.len()
        invariant
            at <= fault.texts@.len(),
            tells == |text: Seq<char>| tells_s3_throttle(text),
            forall|i: int| 0 <= i < at ==> !tells((#[trigger] fault.texts@[i])@),
        decreases fault.texts@.len() - at,
    {
        let text = fault.texts[at].as_str();
        if contains_str(text, "SlowDown") || contains_str(text, "unknown variant `Code`")
            || contains_str(text, "invalid DeleteObjects response") {
            assert(tells(fault.texts@[at as int]@));
            return true;
        }
        at = at + 1;
    }
    false
}

/// Whether an error is too many requests, as Google's store puts it.
pub fn is_too_many_requests(fault: &StoreFault) -> (throttled: bool)
    ensures
        throttled == some_text(*fault, |text: Seq<char>| tells_too_many_requests(text)),
{
    let ghost tells = |text: Seq<char>| tells_too_many_requests(text);
    let mut at: usize = 0;
    while at < fault.texts.len()
        invariant
            at <= fault.texts@.len(),
            tells == |text: Seq<char>| tells_too_many_requests(text),
            forall|i: int| 0 <= i < at ==> !tells((#[trigger] fault.texts@[i])@),
        decreases fault.texts@.len() - at,
    {
        let text = fault.texts[at].as_str();
        if contains_str(text, "429 Too Many Requests") || contains_str(text, "rateLimitExceeded") {
            assert(tells(fault.texts@[at as int]@));
            return true;
        }
        at = at + 1;
    }
    false
}

/// Whether an error is a time that ran out.
pub fn is_timeout(fault: &StoreFault) -> (timed_out: bool)
    ensures
        timed_out == some_text(*fault, |text: Seq<char>| tells_timeout(text)),
{
    let ghost tells = |text: Seq<char>| tells_timeout(text);
    let mut at: usize = 0;
    while at < fault.texts.len()
        invariant
            at <= fault.texts@.len(),
            tells == |text: Seq<char>| tells_timeout(text),
            forall|i: int| 0 <= i < at ==> !tells((#[trigger] fault.texts@[i])@),
        decreases fault.texts@.len() - at,
    {
        let text = lowercase(fault.texts[at].as_str());
        if contains_str(text.as_str(), "timed out") || contains_str(text.as_str(), "timeout")
            || contains_str(text.as_str(), "deadline has elapsed") {
            assert(tells(fault.texts@[at as int]@));
            return true;
        }
        at = at + 1;
    }
    false
}

/// What an error is called: by what it is, and else by what it says.
pub open spec fn name_of(fault: StoreFault) -> Seq<char> {
    match fault.kind {
        FaultKind::Precondition => "pre_condition"@,
        FaultKind::AlreadyExists => "already_exists"@,
        FaultKind::NotModified => "not_modified"@,
        FaultKind::NotFound { path } => "not_found"@,
        FaultKind::Other => if some_text(fault, |text: Seq<char>| tells_s3_throttle(text))
            || some_text(fault, |text: Seq<char>| tells_too_many_requests(text)) {
            "throttle"@
        } else if some_text(fault, |text: Seq<char>| tells_timeout(text)) {
            "timeout"@
        } else {
            "otherwise"@
        },
    }
}

/// What an error is called.
pub fn object_store_error_name(fault: &StoreFault) -> (name: &'static str)
    ensures
        name@ == name_of(*fault),
{
    match &fault.kind {
        FaultKind::Precondition => "pre_condition",
        FaultKind::AlreadyExists => "already_exists",
        FaultKind::NotModified => "not_modified",
        FaultKind::NotFound { path: _ } => "not_found",
        FaultKind::Other => {
            if is_s3_throttle(fault) || is_too_many_requests(fault) {
                "throttle"
            } else if is_timeout(fault) {
                "timeout"
            } else {
                "otherwise"
            }
        },
    }
}

/// The class of the key that a delete failed on, where the error names one.
pub fn delete_failure_class(fault: &StoreFault) -> (class: &'static str)
    ensures
        class@ == match fault.kind {
            FaultKind::NotFound { path } => class_of(path_of(path@)),
            _ => "other"@,
        },
{
    match &fault.kind {
        FaultKind::NotFound { path } => {
            let path = path_from(path.as_str());
            key_class(path.as_str())
        },
        _ => "other",
    }
}

/// The least wait after a throttled request, in milliseconds.
pub open spec fn throttle_base(attempt: u32) -> int {
    let doubled = 500 * pow2(
        if attempt < 6 {
            attempt as nat
        } else {
            6
        },
    );
    if doubled < 30_000 {
        doubled as int
    } else {
        30_000
    }
}

/// The wait after a throttled request for a draw of at most half of the least wait,
/// in milliseconds.
pub fn throttle_delay(attempt: u32, draw: u64) -> (delay: u64)
    requires
        draw <= 30_000,
    ensures
        delay == throttle_base(attempt) + draw,
{
    throttle_floor(attempt) + draw
}

fn throttle_floor(attempt: u32) -> (floor: u64)
    ensures
        floor == throttle_base(attempt),
        500 <= floor <= 30_000,
{
    proof {
        lemma2_to64();
    }
    match attempt {
        0 => 500,
        1 => 1_000,
        2 => 2_000,
        3 => 4_000,
        4 => 8_000,
        5 => 16_000,
        _ => 30_000,
    }
}

/// How long to wait before a throttled request is made again, in milliseconds:
/// longer each time up to a bound, and by up to a half more, so that those who were
/// throttled together do not come back together.
pub fn throttle_backoff(attempt: u32) -> (delay: u64)
    ensures
        throttle_base(attempt) <= delay <= throttle_base(attempt) + throttle_base(attempt) / 2,
{
    let floor: u64 = throttle_floor(attempt);
    throttle_delay(attempt, random_up_to(floor / 2))
}

/// The least wait after a sequence was lost, in milliseconds.
pub open spec fn conflict_base(attempt: nat) -> int {
    pow2(
        if attempt < 4 {
            attempt
        } else {
            4
        },
    ) as int
}

/// The wait after a sequence was lost for a draw of at most the least wait, in
/// milliseconds.
pub fn conflict_delay(attempt: usize, draw: u64) -> (delay: u64)
    requires
        draw <= 16,
    ensures
        delay == conflict_base(attempt as nat) + draw,
{
    conflict_floor(attempt) + draw
}

fn conflict_floor(attempt: usize) -> (floor: u64)
    ensures
        floor == conflict_base(attempt as nat),
        1 <= floor <= 16,
{
    proof {
        lemma2_to64();
    }
    match attempt {
        0 => 1,
        1 => 2,
        2 => 4,
        3 => 8,
        _ => 16,
    }
}

/// How long to wait before the next sequence is claimed, in milliseconds. It is
/// short, and up to twice as long by chance: peers part, and no produce waits long.
pub fn cas_conflict_backoff(attempt: usize) -> (delay: u64)
    ensures
        conflict_base(attempt as nat) <= delay <= 2 * conflict_base(attempt as nat),
{
    let floor: u64 = conflict_floor(attempt);
    conflict_delay(attempt, random_up_to(floor))
}

/// Waits only grow, up to a bound.
pub proof fn waits_grow_up_to_a_bound(a: u32, b: u32)
    requires
        a <= b,
    ensures
        500 <= throttle_base(a) <= throttle_base(b) <= 30_000,
        1 <= conflict_base(a as nat) <= conflict_base(b as nat) <= 16,
{
    lemma2_to64();
    let short_a = if a < 6 { a as nat } else { 6 };
    let short_b = if b < 6 { b as nat } else { 6 };
    if short_a < short_b {
        lemma_pow2_strictly_increases(short_a, short_b);
    }
    if 0 < short_a {
        lemma_pow2_strictly_increases(0, short_a);
    }
    let least_a = if a < 4 { a as nat } else { 4 };
    let least_b = if b < 4 { b as nat } else { 4 };
    if least_a < least_b {
        lemma_pow2_strictly_increases(least_a, least_b);
    }
    if 0 < least_a {
        lemma_pow2_strictly_increases(0, least_a);
    }
    if least_b < 4 {
        lemma_pow2_strictly_increases(least_b, 4);
    }
}

/// What an error is decides what it is called, whatever it says.
pub proof fn an_answer_is_never_renamed(a: StoreFault, b: StoreFault)
    requires
        a.kind == b.kind,
        !(a.kind is Other),
    ensures
        name_of(a) == name_of(b),
{
}

/// Keys that one request of a listing gives.
pub const LIST_PAGE_KEYS: u64 = 1_000;

/// The requests that a listing comes to, counted as its keys go by.
#[derive(Clone, Copy, Debug, PartialEq, Eq, Structural)]
pub struct ListingPages {
    pub yielded: u64,
    /// The requests that are known of.
    pub requests: u64,
}

impl ListingPages {
    /// One request is made at once, and another after every full page.
    pub open spec fn wf(&self) -> bool {
        self.requests == 1 + self.yielded / LIST_PAGE_KEYS
    }

    /// A listing that has given nothing yet: to ask is a request, though nothing
    /// comes back.
    pub fn new() -> (pages: Self)
        ensures
            pages.wf(),
            pages.yielded == 0,
    {
        ListingPages { yielded: 0, requests: 1 }
    }

    /// Count a key, and say whether it ends a page.
    pub fn instrument_listing(&mut self) -> (page: bool)
        requires
            old(self).wf(),
            old(self).yielded < u64::MAX,
        ensures
            final(self).wf(),
            final(self).yielded == old(self).yielded + 1,
            page == ((old(self).yielded + 1) % LIST_PAGE_KEYS as int == 0),
    {
        self.yielded = self.yielded + 1;
        let page = self.yielded % LIST_PAGE_KEYS == 0;
        if page {
            self.requests = self.requests + 1;
        }
        page
    }
}

/// A wait begins at its least, doubles with each attempt, and stays at its bound once it
/// is there.
pub proof fn waits_double_up_to_a_bound(attempt: u32)
    requires
        attempt < u32::MAX,
    ensures
        throttle_base(0) == 500,
        throttle_base((attempt + 1) as u32) == if 2 * throttle_base(attempt) <= 30_000 {
            2 * throttle_base(attempt)
        } else {
            30_000
        },
        conflict_base(0) == 1,
        conflict_base((attempt + 1) as nat) == if 2 * conflict_base(attempt as nat) <= 16 {
            2 * conflict_base(attempt as nat)
        } else {
            16
        },
{
    lemma2_to64();
}

/// What an error is decides before what it says: one of a kind is called by it, and only
/// one of no kind is called a throttle, where a text of it tells of one.
pub proof fn what_an_error_is_called(fault: StoreFault)
    ensures
        fault.kind is Precondition ==> name_of(fault) == "pre_condition"@,
        fault.kind is AlreadyExists ==> name_of(fault) == "already_exists"@,
        fault.kind is NotModified ==> name_of(fault) == "not_modified"@,
        fault.kind is NotFound ==> name_of(fault) == "not_found"@,
        fault.kind is Other && (exists|i: int|
            0 <= i < fault.texts@.len() && (contains_text(
                (#[trigger] fault.texts@[i])@,
                "SlowDown"@,
            ) || contains_text(fault.texts@[i]@, "429 Too Many Requests"@))) ==> name_of(fault)
            == "throttle"@,
{
    if fault.kind is Other && (exists|i: int|
        0 <= i < fault.texts@.len() && (contains_text((#[trigger] fault.texts@[i])@, "SlowDown"@)
            || contains_text(fault.texts@[i]@, "429 Too Many Requests"@))) {
        let i = choose|i: int|
            0 <= i < fault.texts@.len() && (contains_text(
                (#[trigger] fault.texts@[i])@,
                "SlowDown"@,
            ) || contains_text(fault.texts@[i]@, "429 Too Many Requests"@));
        if contains_text(fault.texts@[i]@, "SlowDown"@) {
            assert(tells_s3_throttle(fault.texts@[i]@));
        } else {
            assert(tells_too_many_requests(fault.texts@[i]@));
        }
    }
}

/// A time that ran out is told in whatever case.
pub proof fn a_timeout_is_told_in_any_case(text: Seq<char>, other: Seq<char>)
    requires
        lowered(text) == lowered(other),
    ensures
        tells_timeout(text) == tells_timeout(other),
        lowered(lowered(text)) == lowered(text),
        contains_text(lowered(text), "timed out"@) || contains_text(lowered(text), "timeout"@)
            ==> tells_timeout(text),
{
    assert(lowered(lowered(text)) =~= lowered(text));
}

} // verus!
