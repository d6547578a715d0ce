//! What is asked of the object store, and what its replies come to.

use crate::error::Error;
use crate::metron::{is_s3_throttle, some_text, tells_s3_throttle, FaultKind, StoreFault};
use crate::opticon::{Condition, DeleteReply, GetReply, PutMode, PutReply, UpdateVersion};
use crate::store::DynoStore;
use vstd::prelude::*;
use vstd::string::*;

verus! {

/// What a listing is for.
#[derive(Clone, Copy, Debug, PartialEq, Eq, Structural)]
pub enum Scan {
    SegmentIndex,
    Group,
    TopicMetadata,
    AdminDelete,
    RetiredPrefix,
    Ping,
}

/// What a listing for a purpose is counted under.
pub open spec fn purpose_of(scan: Scan) -> Seq<char> {
    match scan {
        Scan::SegmentIndex => "segment_index"@,
        Scan::Group => "group"@,
        Scan::TopicMetadata => "topic_metadata"@,
        Scan::AdminDelete => "admin_delete"@,
        Scan::RetiredPrefix => "retired_prefix"@,
        Scan::Ping => "ping"@,
    }
}

impl Scan {
    /// What the listing is counted under.
    pub fn as_str(self) -> (purpose: &'static str)
        ensures
            purpose@ == purpose_of(self),
    {
        match self {
            Scan::SegmentIndex => "segment_index",
            Scan::Group => "group",
            Scan::TopicMetadata => "topic_metadata",
            Scan::AdminDelete => "admin_delete",
            Scan::RetiredPrefix => "retired_prefix",
            Scan::Ping => "ping",
        }
    }
}

/// A listing to ask for.
#[derive(Debug)]
pub struct ScanRequest {
    /// What it is counted under.
    pub purpose: &'static str,
    pub prefix: String,
    /// The key behind which it begins.
    pub start_after: Option<String>,
    /// Whether it lists no more than what is directly under the prefix.
    pub delimited: bool,
}

/// What follows the reply to a bulk delete.
#[derive(Debug)]
pub enum DeleteStep {
    Done,
    /// Wait as long as is due after this many throttled attempts, and try again.
    Backoff { attempt: u32 },
    /// Delete the objects one by one.
    Each,
    Failed(StoreFault),
}

/// Times that a throttled bulk delete is made again.
pub const MAX_BULK_THROTTLE_RETRIES: u32 = 5;

/// What came of putting a document.
#[derive(Debug)]
pub enum PutOutcome {
    Stored(UpdateVersion),
    /// Another writer was faster: read what it wrote.
    Reread,
    Failed(Error),
}

/// Why a document was not put.
#[derive(Debug)]
pub enum UpdateError<V> {
    /// Another writer was faster, and wrote this.
    Outdated { current: V, version: UpdateVersion },
    /// What another writer wrote was deleted since.
    Vanished,
    Error(Error),
}

/// How long ago the epoch began, in milliseconds: `SystemTime::elapsed` of
/// `UNIX_EPOCH`, which fails where the clock stands before it. The clock decides, so
/// nothing is stated.
#[verifier::external_body]
fn since_epoch() -> (elapsed: Option<u128>) {
    std::time::UNIX_EPOCH.elapsed().ok().map(|elapsed| elapsed.as_millis())
}

/// A reading of the clock as a time since the epoch, in milliseconds.
pub fn ms_of_reading(elapsed: Option<u128>) -> (ms: i64)
    ensures
        ms == match elapsed {
            Some(elapsed) => elapsed as i64,
            None => 0,
        },
{
    match elapsed {
        Some(elapsed) => #[verifier::truncate] (elapsed as i64),
        None => 0,
    }
}

impl DynoStore {
    /// The time since the epoch, in milliseconds. Any time may come out.
    pub fn now_ms() -> (now: i64) {
        ms_of_reading(since_epoch())
    }

    /// List what is under a prefix.
    pub fn scan(&self, purpose: Scan, prefix: &str) -> (listing: ScanRequest)
        ensures
            listing.purpose@ == purpose_of(purpose),
            listing.prefix@ == prefix@,
            listing.start_after is None,
            !listing.delimited,
    {
        ScanRequest {
            purpose: purpose.as_str(),
            prefix: String::from_str(prefix),
            start_after: None,
            delimited: false,
        }
    }

    /// List what is under a prefix behind a key.
    pub fn scan_from(&self, purpose: Scan, prefix: &str, start_after: &str) -> (listing: ScanRequest)
        ensures
            listing.purpose@ == purpose_of(purpose),
            listing.prefix@ == prefix@,
            listing.start_after matches Some(key) && key@ == start_after@,
            !listing.delimited,
    {
        ScanRequest {
            purpose: purpose.as_str(),
            prefix: String::from_str(prefix),
            start_after: Some(String::from_str(start_after)),
            delimited: false,
        }
    }

    /// List what is directly under a prefix.
    pub fn scan_delimited(&self, purpose: Scan, prefix: &str) -> (listing: ScanRequest)
        ensures
            listing.purpose@ == purpose_of(purpose),
            listing.prefix@ == prefix@,
            listing.start_after is None,
            listing.delimited,
    {
        ScanRequest {
            purpose: purpose.as_str(),
            prefix: String::from_str(prefix),
            start_after: None,
            delimited: true,
        }
    }

    /// Whether a create created the object, by the reply to it: it did not, if there
    /// was one already.
    pub fn put_create(reply: Result<(), StoreFault>) -> (created: Result<bool, StoreFault>)
        ensures
            created == creates(reply),
    {
        match reply {
            Ok(_) => Ok(true),
            Err(fault) => {
                match &fault.kind {
                    FaultKind::AlreadyExists => {
                        return Ok(false);
                    },
                    _ => {},
                }
                Err(fault)
            },
        }
    }

    /// What a read came to. That there is no object is an answer, no failure.
    pub fn absent_is_none<V>(result: Result<V, StoreFault>) -> (found: Result<
        Option<V>,
        StoreFault,
    >)
        ensures
            found == finds(result),
    {
        match result {
            Ok(value) => Ok(Some(value)),
            Err(fault) => {
                match &fault.kind {
                    FaultKind::NotFound { path: _ } => {
                        return Ok(None);
                    },
                    _ => {},
                }
                Err(fault)
            },
        }
    }

    /// What follows the reply to a bulk delete, after `attempt` throttled ones. A
    /// throttled one has deleted nothing: it is made again as a whole, and in the end
    /// the objects are deleted one by one, which the store makes again by itself.
    pub fn delete_batches(attempt: u32, reply: Result<(), StoreFault>) -> (step: DeleteStep)
        ensures
            match reply {
                Ok(_) => step is Done,
                Err(fault) => step == after_fault(attempt, fault),
            },
    {
        match reply {
            Ok(_) => DeleteStep::Done,
            Err(fault) => {
                if !is_s3_throttle(&fault) {
                    DeleteStep::Failed(fault)
                } else if attempt >= MAX_BULK_THROTTLE_RETRIES {
                    DeleteStep::Each
                } else {
                    DeleteStep::Backoff { attempt }
                }
            },
        }
    }

    /// What the reply to the delete of one object comes to: that it is gone already
    /// is as good.
    pub fn delete_each(reply: DeleteReply) -> (done: Result<(), Error>)
        ensures
            match reply {
                DeleteReply::Failed(error) => done == Err::<(), Error>(error),
                _ => done is Ok,
            },
    {
        match reply {
            DeleteReply::Deleted => Ok(()),
            DeleteReply::NotFound => Ok(()),
            DeleteReply::Failed(error) => Err(error),
        }
    }

    /// On what condition a document is put that was read at a version, or of which
    /// there was none.
    pub fn put_mode(version: Option<UpdateVersion>) -> (mode: PutMode)
        ensures
            mode@ == match version {
                Some(version) => Condition::Update(version@),
                None => Condition::Create,
            },
    {
        match version {
            Some(version) => PutMode::Update(version),
            None => PutMode::Create,
        }
    }

    /// What follows the reply to the put of a document.
    pub fn put(reply: PutReply) -> (outcome: PutOutcome)
        ensures
            outcome == puts(reply),
    {
        match reply {
            PutReply::Stored(version) => PutOutcome::Stored(version),
            PutReply::Precondition(_) => PutOutcome::Reread,
            PutReply::AlreadyExists => PutOutcome::Reread,
            PutReply::Failed(error) => PutOutcome::Failed(error),
        }
    }

    /// What a lost put is answered, by the reply to the read that follows it. The
    /// document may be gone by then, and that is an answer as well.
    pub fn put_lost<V>(reply: GetReply<V>) -> (error: UpdateError<V>)
        ensures
            error == loses_to(reply),
    {
        match reply {
            GetReply::Found(Ok(current), version) => UpdateError::Outdated { current, version },
            GetReply::Found(Err(error), _) => UpdateError::Error(error),
            GetReply::NotFound => UpdateError::Vanished,
            GetReply::NotModified(error) => UpdateError::Error(error),
            GetReply::Failed(error) => UpdateError::Error(error),
        }
    }
}

/// What follows a bulk delete that failed.
pub open spec fn after_fault(attempt: u32, fault: StoreFault) -> DeleteStep {
    if !some_text(fault, |text: Seq<char>| tells_s3_throttle(text)) {
        DeleteStep::Failed(fault)
    } else if attempt >= MAX_BULK_THROTTLE_RETRIES {
        DeleteStep::Each
    } else {
        DeleteStep::Backoff { attempt }
    }
}

/// A bulk delete is tried again only where it was throttled, up to the bound, and then
/// each object is deleted by itself; any other failure is handed on at once.
pub proof fn only_a_throttled_delete_is_tried_again(attempt: u32, fault: StoreFault)
    ensures
        ({
            let throttled = exists|i: int|
                0 <= i < fault.texts@.len() && tells_s3_throttle((#[trigger] fault.texts@[i])@);
            let step = after_fault(attempt, fault);
            &&& !throttled ==> step == DeleteStep::Failed(fault)
            &&& throttled && attempt < MAX_BULK_THROTTLE_RETRIES ==> step
                == (DeleteStep::Backoff { attempt })
            &&& throttled && attempt >= MAX_BULK_THROTTLE_RETRIES ==> step == DeleteStep::Each
        }),
{
    let tells = |text: Seq<char>| tells_s3_throttle(text);
    if exists|i: int|
        0 <= i < fault.texts@.len() && tells_s3_throttle((#[trigger] fault.texts@[i])@) {
        let i = choose|i: int|
            0 <= i < fault.texts@.len() && tells_s3_throttle((#[trigger] fault.texts@[i])@);
        assert(tells(fault.texts@[i]@));
        assert(some_text(fault, tells));
    }
    if some_text(fault, tells) {
        let i = choose|i: int|
            0 <= i < fault.texts@.len() && tells((#[trigger] fault.texts@[i])@);
        assert(tells_s3_throttle(fault.texts@[i]@));
    }
}

/// Whether a create made the object, by the reply to it.
pub open spec fn creates(reply: Result<(), StoreFault>) -> Result<bool, StoreFault> {
    match reply {
        Ok(_) => Ok(true),
        Err(fault) => if fault.kind is AlreadyExists {
            Ok(false)
        } else {
            Err(fault)
        },
    }
}

/// What a read found, if the object is there.
pub open spec fn finds<V>(result: Result<V, StoreFault>) -> Result<Option<V>, StoreFault> {
    match result {
        Ok(value) => Ok(Some(value)),
        Err(fault) => if fault.kind is NotFound {
            Ok(None)
        } else {
            Err(fault)
        },
    }
}

/// What a put came to, by the reply to it.
pub open spec fn puts(reply: PutReply) -> PutOutcome {
    match reply {
        PutReply::Stored(version) => PutOutcome::Stored(version),
        PutReply::Precondition(_) => PutOutcome::Reread,
        PutReply::AlreadyExists => PutOutcome::Reread,
        PutReply::Failed(error) => PutOutcome::Failed(error),
    }
}

/// What a put that was lost is answered, by what is there instead.
pub open spec fn loses_to<V>(reply: GetReply<V>) -> UpdateError<V> {
    match reply {
        GetReply::Found(Ok(current), version) => UpdateError::Outdated { current, version },
        GetReply::Found(Err(error), _) => UpdateError::Error(error),
        GetReply::NotFound => UpdateError::Vanished,
        GetReply::NotModified(error) => UpdateError::Error(error),
        GetReply::Failed(error) => UpdateError::Error(error),
    }
}

/// That an object was there before is no failure of a create, and that there is none is
/// no failure of a read: every other fault of the store is handed on as it is.
pub proof fn only_the_expected_fault_is_an_answer<V>(value: V, fault: StoreFault)
    ensures
        creates(Ok(())) == Ok::<bool, StoreFault>(true),
        creates(Err(fault)) == Ok::<bool, StoreFault>(false) <==> fault.kind is AlreadyExists,
        !(fault.kind is AlreadyExists) ==> creates(Err(fault)) == Err::<bool, StoreFault>(fault),
        finds(Ok(value)) == Ok::<Option<V>, StoreFault>(Some(value)),
        finds::<V>(Err(fault)) == Ok::<Option<V>, StoreFault>(None) <==> fault.kind is NotFound,
        !(fault.kind is NotFound) ==> finds::<V>(Err(fault)) == Err::<Option<V>, StoreFault>(fault),
{
}

/// A put that another was faster than is read again, and is answered with what is there:
/// the document and its version, or that it is gone. Only a failure of the store is a
/// failure.
pub proof fn a_lost_put_is_answered_with_what_is_there<V>(
    current: V,
    version: UpdateVersion,
    error: Error,
)
    ensures
        puts(PutReply::Stored(version)) == PutOutcome::Stored(version),
        puts(PutReply::Precondition(error)) is Reread,
        puts(PutReply::AlreadyExists) is Reread,
        puts(PutReply::Failed(error)) == PutOutcome::Failed(error),
        loses_to(GetReply::Found(Ok(current), version)) == (UpdateError::Outdated {
            current,
            version,
        }),
        loses_to::<V>(GetReply::NotFound) is Vanished,
        loses_to::<V>(GetReply::Found(Err(error), version)) == UpdateError::<V>::Error(error),
        loses_to::<V>(GetReply::Failed(error)) == UpdateError::<V>::Error(error),
{
}

} // verus!
