//! Documents kept in one object each, changed by compare-and-swap.
//!
//! A handle holds the document as it was last seen, with the version it was seen
//! at. Requests are made outside: a method says what to ask for, and another
//! takes the reply.

use crate::error::Error;
use vstd::prelude::*;

verus! {

/// The version of a stored object.
#[derive(Debug)]
pub struct UpdateVersion {
    pub e_tag: Option<String>,
    pub version: Option<String>,
}

/// The mathematical version.
#[verifier::ext_equal]
pub struct Version {
    pub e_tag: Option<Seq<char>>,
    pub version: Option<Seq<char>>,
}

/// The view of an optional text.
pub open spec fn text_view(text: Option<String>) -> Option<Seq<char>> {
    match text {
        Some(text) => Some(text@),
        None => None,
    }
}

/// Copy an optional text.
pub fn copy_text(text: &Option<String>) -> (copy: Option<String>)
    ensures
        text_view(copy) == text_view(*text),
{
    match text {
        Some(text) => Some(text.clone()),
        None => None,
    }
}

impl View for UpdateVersion {
    type V = Version;

    open spec fn view(&self) -> Version {
        Version { e_tag: text_view(self.e_tag), version: text_view(self.version) }
    }
}

impl UpdateVersion {
    pub fn duplicate(&self) -> (copy: Self)
        ensures
            copy@ == self@,
    {
        UpdateVersion { e_tag: copy_text(&self.e_tag), version: copy_text(&self.version) }
    }
}

/// A document and the version that it was seen at.
#[derive(Debug)]
pub struct DataVersion<D> {
    pub data: D,
    pub version: Option<UpdateVersion>,
}

/// On what condition an object is put.
#[derive(Debug)]
pub enum PutMode {
    /// That there is none.
    Create,
    /// That it is at this version.
    Update(UpdateVersion),
}

/// The mathematical condition.
pub enum Condition {
    Create,
    Update(Version),
}

impl View for PutMode {
    type V = Condition;

    open spec fn view(&self) -> Condition {
        match self {
            PutMode::Create => Condition::Create,
            PutMode::Update(version) => Condition::Update(version@),
        }
    }
}

impl<D> DataVersion<D> {
    /// On what condition a change of this document is put.
    pub open spec fn condition(self) -> Condition {
        match self.version {
            Some(version) => Condition::Update(version@),
            None => Condition::Create,
        }
    }
}

/// What an object store answered to a read.
#[derive(Debug)]
pub enum GetReply<D> {
    /// The object, its document decoded or why it could not be.
    Found(Result<D, Error>, UpdateVersion),
    NotFound,
    /// The object has the tag asked about, with the store's own words for it.
    NotModified(Error),
    Failed(Error),
}

/// What an object store answered to a write.
#[derive(Debug)]
pub enum PutReply {
    Stored(UpdateVersion),
    /// The object was not at the version asked for, with the store's own words for it.
    Precondition(Error),
    AlreadyExists,
    Failed(Error),
}

/// What an object store answered to a delete.
#[derive(Debug)]
pub enum DeleteReply {
    Deleted,
    NotFound,
    Failed(Error),
}

/// A change to put.
#[derive(Debug)]
pub struct Proposal<D, E> {
    /// The changed document.
    pub data: D,
    pub mode: PutMode,
    /// What the change answers once it is stored.
    pub outcome: Result<E, Error>,
}

/// What to do about a change after the store answered.
#[derive(Debug)]
pub enum Step<E> {
    /// It is stored: this is its answer.
    Done(Result<E, Error>),
    /// Another writer was faster: read the document, and propose again.
    Reread,
    Failed(Error),
}

/// What to do about a create after the store answered.
#[derive(Debug)]
pub enum Creation {
    /// This call created the object.
    Created,
    /// It exists: refresh the handle, and answer that it was not created.
    Refresh,
    Failed(Error),
}

/// Conflicts of one change from which on the object is reported as contended.
pub const RETRY_WARN_THRESHOLD: u64 = 8;

/// A handle on a document.
#[derive(Debug)]
pub struct OptiCon<D> {
    pub path: String,
    pub data_version: Option<DataVersion<D>>,
}

impl<D> OptiCon<D> {
    /// The document as it was last seen.
    pub open spec fn document(self) -> Option<D> {
        match self.data_version {
            Some(seen) => Some(seen.data),
            None => None,
        }
    }

    /// On what condition a change is put.
    pub open spec fn condition(self) -> Condition {
        match self.data_version {
            Some(seen) => seen.condition(),
            None => Condition::Create,
        }
    }

    /// A handle on the document at `path`, of which nothing was seen yet.
    pub fn path(path: String) -> (handle: Self)
        ensures
            handle.path == path,
            handle.data_version is None,
    {
        OptiCon { path, data_version: None }
    }

    /// Take the reply to a read of the object.
    pub fn get(&mut self, reply: GetReply<D>) -> (taken: Result<(), Error>)
        ensures
            final(self).path == old(self).path,
            final(self).data_version == seen_after(old(self).data_version, reply),
            match reply {
                GetReply::Found(Ok(data), version) => taken is Ok && final(self).data_version
                    == Some((DataVersion { data, version: Some(version) })),
                GetReply::Found(Err(error), _) => taken == Err::<(), Error>(error)
                    && final(self).data_version == old(self).data_version,
                GetReply::NotFound => taken is Ok && final(self).data_version is None,
                GetReply::NotModified(error) => taken == Err::<(), Error>(error)
                    && final(self).data_version == old(self).data_version,
                GetReply::Failed(error) => taken == Err::<(), Error>(error) && final(self).data_version == old(self).data_version,
            },
    {
        match reply {
            GetReply::Found(Ok(data), version) => {
                self.data_version = Some(DataVersion { data, version: Some(version) });
                Ok(())
            },
            GetReply::Found(Err(error), _) => Err(error),
            GetReply::NotFound => {
                self.data_version = None;
                Ok(())
            },
            GetReply::NotModified(error) => Err(error),
            GetReply::Failed(error) => Err(error),
        }
    }

    /// The tag that a refresh asks the store to compare with.
    pub fn if_none_match(&self) -> (e_tag: Option<String>)
        ensures
            text_view(e_tag) == match self.data_version {
                Some(DataVersion { version: Some(version), .. }) => version@.e_tag,
                _ => None,
            },
    {
        match &self.data_version {
            Some(DataVersion { version: Some(version), .. }) => copy_text(&version.e_tag),
            _ => None,
        }
    }

    /// Take the reply to a conditional read: what is not modified stays.
    pub fn refresh(&mut self, reply: GetReply<D>) -> (taken: Result<(), Error>)
        ensures
            final(self).path == old(self).path,
            final(self).data_version == seen_after(old(self).data_version, reply),
            match reply {
                GetReply::Found(Ok(data), version) => taken is Ok && final(self).data_version
                    == Some((DataVersion { data, version: Some(version) })),
                GetReply::Found(Err(error), _) => taken == Err::<(), Error>(error)
                    && final(self).data_version == old(self).data_version,
                GetReply::NotFound => taken is Ok && final(self).data_version is None,
                GetReply::NotModified(_) => taken is Ok && final(self).data_version == old(
                    self,
                ).data_version,
                GetReply::Failed(error) => taken == Err::<(), Error>(error) && final(self).data_version == old(self).data_version,
            },
    {
        match reply {
            GetReply::NotModified(_) => Ok(()),
            other => self.get(other),
        }
    }

    /// Read the document, or `absent` where there is none.
    pub fn with<E, F: Fn(&D) -> Result<E, Error>>(&self, absent: &D, f: F) -> (read: Result<
        E,
        Error,
    >)
        requires
            forall|data: &D| #[trigger] call_requires(f, (data,)),
        ensures
            match self.document() {
                Some(data) => call_ensures(f, (&data,), read),
                None => call_ensures(f, (absent,), read),
            },
    {
        match &self.data_version {
            Some(seen) => f(&seen.data),
            None => f(absent),
        }
    }

    /// The document, `None` where there is none.
    pub fn get_opt(&self) -> (data: Option<&D>)
        ensures
            match data {
                Some(data) => self.document() == Some(*data),
                None => self.document() is None,
            },
    {
        match &self.data_version {
            Some(seen) => Some(&seen.data),
            None => None,
        }
    }

    /// Change the document as it was last seen, or `absent` where none was, on the
    /// condition that it still is what was seen.
    pub fn propose<E, F: Fn(&D) -> (D, Result<E, Error>)>(&self, absent: &D, change: F) -> (proposal:
        Proposal<D, E>)
        requires
            forall|data: &D| #[trigger] call_requires(change, (data,)),
        ensures
            match self.document() {
                Some(data) => call_ensures(change, (&data,), (proposal.data, proposal.outcome)),
                None => call_ensures(change, (absent,), (proposal.data, proposal.outcome)),
            },
            proposal.mode@ == self.condition(),
    {
        match &self.data_version {
            Some(seen) => {
                let (data, outcome) = change(&seen.data);
                let mode = match &seen.version {
                    Some(version) => PutMode::Update(version.duplicate()),
                    None => PutMode::Create,
                };
                Proposal { data, mode, outcome }
            },
            None => {
                let (data, outcome) = change(absent);
                Proposal { data, mode: PutMode::Create, outcome }
            },
        }
    }

    /// Take the reply to a proposal. What was stored is what was last seen.
    pub fn with_mut<E>(&mut self, proposal: Proposal<D, E>, reply: PutReply) -> (step: Step<E>)
        ensures
            final(self).path == old(self).path,
            final(self).data_version == seen_after_put(
                old(self).data_version,
                proposal.data,
                reply,
            ),
            match reply {
                PutReply::Stored(version) => step == Step::Done(proposal.outcome) && final(self).data_version == Some(
                    (DataVersion { data: proposal.data, version: Some(version) }),
                ),
                PutReply::Precondition(_) | PutReply::AlreadyExists => step is Reread && *final(self)
                    == *old(self),
                PutReply::Failed(error) => step == Step::<E>::Failed(error) && *final(self) == *old(
                    self,
                ),
            },
    {
        match reply {
            PutReply::Stored(version) => {
                self.data_version = Some(
                    DataVersion { data: proposal.data, version: Some(version) },
                );
                Step::Done(proposal.outcome)
            },
            PutReply::Precondition(_) => Step::Reread,
            PutReply::AlreadyExists => Step::Reread,
            PutReply::Failed(error) => Step::Failed(error),
        }
    }

    /// Take the reply to a create of the object as `data`.
    pub fn create(&mut self, data: D, reply: PutReply) -> (creation: Creation)
        ensures
            final(self).path == old(self).path,
            final(self).data_version == seen_after_put(old(self).data_version, data, reply),
            match reply {
                PutReply::Stored(version) => creation is Created && final(self).data_version
                    == Some((DataVersion { data, version: Some(version) })),
                PutReply::AlreadyExists => creation is Refresh && *final(self) == *old(self),
                PutReply::Precondition(error) => creation == Creation::Failed(error) && *final(self)
                    == *old(self),
                PutReply::Failed(error) => creation == Creation::Failed(error) && *final(self)
                    == *old(self),
            },
    {
        match reply {
            PutReply::Stored(version) => {
                self.data_version = Some(DataVersion { data, version: Some(version) });
                Creation::Created
            },
            PutReply::AlreadyExists => Creation::Refresh,
            PutReply::Precondition(error) => Creation::Failed(error),
            PutReply::Failed(error) => Creation::Failed(error),
        }
    }

    /// Take the reply to a delete of the object.
    pub fn remove(&mut self, reply: DeleteReply) -> (removed: Result<(), Error>)
        ensures
            final(self).path == old(self).path,
            match reply {
                DeleteReply::Deleted | DeleteReply::NotFound => removed is Ok && final(self).data_version is None,
                DeleteReply::Failed(error) => removed == Err::<(), Error>(error) && *final(self)
                    == *old(self),
            },
    {
        match reply {
            DeleteReply::Deleted => {
                self.data_version = None;
                Ok(())
            },
            DeleteReply::NotFound => {
                self.data_version = None;
                Ok(())
            },
            DeleteReply::Failed(error) => Err(error),
        }
    }
}

/// Whether an object that met `retries` conflicts is reported as contended.
pub fn is_contended(retries: u64) -> (contended: bool)
    ensures
        contended == (retries >= RETRY_WARN_THRESHOLD),
{
    retries >= RETRY_WARN_THRESHOLD
}

/// An object as the store holds it: its document and its version.
pub struct Stored<D> {
    pub data: D,
    pub version: Version,
}

/// Whether the store puts an object on a condition.
pub open spec fn admits<D>(stored: Option<Stored<D>>, condition: Condition) -> bool {
    match condition {
        Condition::Create => stored is None,
        Condition::Update(version) => stored matches Some(held) && held.version == version,
    }
}

/// Whether what a handle has seen is what the store holds, if it is at that
/// version: versions are not reused for another document.
pub open spec fn saw_version<D>(handle: OptiCon<D>, stored: Option<Stored<D>>) -> bool {
    match handle.data_version {
        Some(DataVersion { data, version: Some(version) }) => match stored {
            Some(held) => held.version == version@ ==> held.data == data,
            None => true,
        },
        Some(DataVersion { version: None, .. }) => false,
        None => true,
    }
}

/// No update is lost: a change that the store admits was made to what the store
/// holds, or to the absent document where it holds none.
pub proof fn a_change_builds_on_what_is_stored<D>(handle: OptiCon<D>, stored: Option<Stored<D>>)
    requires
        saw_version(handle, stored),
        admits(stored, handle.condition()),
    ensures
        match stored {
            Some(held) => handle.document() == Some(held.data),
            None => handle.document() is None,
        },
{
}

/// A handle that has read the object has seen its version.
pub proof fn reading_sees_the_version<D>(data: D, version: UpdateVersion, path: String)
    ensures
        saw_version(
            (OptiCon { path, data_version: Some(DataVersion { data, version: Some(version) }) }),
            Some((Stored { data, version: version@ })),
        ),
{
}

/// What a handle has seen after the reply to a read.
pub open spec fn seen_after<D>(held: Option<DataVersion<D>>, reply: GetReply<D>) -> Option<
    DataVersion<D>,
> {
    match reply {
        GetReply::Found(Ok(data), version) => Some(DataVersion { data, version: Some(version) }),
        GetReply::NotFound => None,
        _ => held,
    }
}

/// What a handle has seen after the reply to a put of `data`.
pub open spec fn seen_after_put<D>(
    held: Option<DataVersion<D>>,
    data: D,
    reply: PutReply,
) -> Option<DataVersion<D>> {
    match reply {
        PutReply::Stored(version) => Some(DataVersion { data, version: Some(version) }),
        _ => held,
    }
}

/// After a read a handle has seen what is stored: a change that it makes next is admitted
/// by the store as long as that is still there, and is made to that very document; and
/// one that found nothing creates the document. A read that failed changes nothing.
pub proof fn a_change_follows_the_last_read<D>(
    path: String,
    held: Option<DataVersion<D>>,
    data: D,
    version: UpdateVersion,
    error: Error,
)
    ensures
        ({
            let read = OptiCon {
                path,
                data_version: seen_after(held, GetReply::Found(Ok(data), version)),
            };
            let absent = OptiCon { path, data_version: seen_after(held, GetReply::NotFound) };
            &&& read.document() == Some(data)
            &&& admits(Some((Stored { data, version: version@ })), read.condition())
            &&& !admits(None::<Stored<D>>, read.condition())
            &&& absent.document() is None
            &&& admits(None::<Stored<D>>, absent.condition())
            &&& !admits(Some((Stored { data, version: version@ })), absent.condition())
            &&& seen_after(held, GetReply::Failed(error)) == held
            &&& seen_after(held, GetReply::NotModified(error)) == held
            &&& seen_after(held, GetReply::Found(Err(error), version)) == held
        }),
{
}

/// After a change was stored it is what the handle has seen, at the version that it was
/// stored at, so that the next one builds on it; a change that was not stored leaves what
/// was seen.
pub proof fn a_change_follows_the_last_change<D>(
    path: String,
    held: Option<DataVersion<D>>,
    data: D,
    version: UpdateVersion,
    error: Error,
)
    ensures
        ({
            let wrote = OptiCon {
                path,
                data_version: seen_after_put(held, data, PutReply::Stored(version)),
            };
            &&& wrote.document() == Some(data)
            &&& admits(Some((Stored { data, version: version@ })), wrote.condition())
            &&& seen_after_put(held, data, PutReply::AlreadyExists) == held
            &&& seen_after_put(held, data, PutReply::Precondition(error)) == held
            &&& seen_after_put(held, data, PutReply::Failed(error)) == held
        }),
{
}

} // verus!
