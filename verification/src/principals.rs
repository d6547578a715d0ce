//! What a cluster knows of its principals: access rules, quotas and credentials.

use crate::error::Error;
use crate::opticon::{GetReply, UpdateVersion};
use crate::path::{
    encoded_parts, joined, lemma_are_parts, lemma_encoded_parts_join, lemma_first_part,
    lemma_last_part, lemma_own_part, names_of, part_of, parting_undoes_joining, parts, parts_of,
    parts_tell_texts_apart, path_from, path_from_parts, path_of, plain_char, texts_view,
};
use crate::store::DynoStore;
use crate::text::{decimal, push_decimal};
use vstd::prelude::*;
use vstd::string::*;

verus! {

/// A mechanism of salted challenge and response.
#[derive(Clone, Copy, Debug, PartialEq, Eq, Structural)]
pub enum ScramMechanism {
    Scram256,
    Scram512,
}

/// The name of a mechanism in the key of a credential.
pub open spec fn mechanism_name(mechanism: ScramMechanism) -> Seq<char> {
    match mechanism {
        ScramMechanism::Scram256 => "scram-sha-256"@,
        ScramMechanism::Scram512 => "scram-sha-512"@,
    }
}

/// The name of the object that holds a credential of a mechanism.
pub open spec fn credential_name(mechanism: ScramMechanism) -> Seq<char> {
    mechanism_name(mechanism) + ".json"@
}

/// Where the users of a cluster are.
pub open spec fn users_root(cluster: Seq<char>) -> Seq<char> {
    "clusters/"@ + cluster + "/users"@
}

/// Where the credential of a user is: below the users of the cluster, the user as one
/// part and the mechanism as another.
pub open spec fn credential_path(
    cluster: Seq<char>,
    user: Seq<char>,
    mechanism: ScramMechanism,
) -> Seq<char> {
    joined(
        encoded_parts(parts_of(users_root(cluster)) + seq![user, credential_name(mechanism)]),
    )
}

proof fn lemma_credential_name(mechanism: ScramMechanism)
    ensures
        part_of(credential_name(mechanism)) == credential_name(mechanism),
        credential_name(mechanism).len() == 18,
        credential_name(mechanism)[10] == (if mechanism is Scram256 {
            '2'
        } else {
            '5'
        }),
{
    reveal_strlit("scram-sha-256");
    reveal_strlit("scram-sha-512");
    reveal_strlit(".json");
    let name = credential_name(mechanism);
    assert forall|i: int| 0 <= i < name.len() implies plain_char(#[trigger] name[i]) && name[i]
        != '/' by {}
    assert(name.len() == 18);
    lemma_own_part(name);
}

/// The credential of a user lies below the users of the cluster: behind the user's name
/// as one part, unless that is empty, and in an object that is called for the mechanism.
pub proof fn a_credential_lies_below_the_users(
    cluster: Seq<char>,
    user: Seq<char>,
    mechanism: ScramMechanism,
)
    ensures
        parts_of(credential_path(cluster, user, mechanism)) == names_of(users_root(cluster)) + (
        if user.len() == 0 {
            Seq::empty()
        } else {
            seq![part_of(user)]
        }) + seq![credential_name(mechanism)],
{
    let name = credential_name(mechanism);
    let texts = parts_of(users_root(cluster)) + seq![user, name];
    lemma_are_parts(texts);
    parting_undoes_joining(encoded_parts(texts));
    lemma_encoded_parts_join(parts_of(users_root(cluster)), seq![user, name]);
    lemma_credential_name(mechanism);
    let none = Seq::<Seq<char>>::empty();
    assert(seq![user, name].skip(1) =~= seq![name]);
    assert(seq![name].skip(1) =~= none);
    assert(encoded_parts(none) =~= none);
    assert(encoded_parts(seq![name]) =~= seq![name]);
    assert(encoded_parts(texts) =~= names_of(users_root(cluster)) + (if user.len() == 0 {
        Seq::empty()
    } else {
        seq![part_of(user)]
    }) + seq![name]);
}

/// The credential of a user lies in the last of five parts, behind the user's name as
/// one, where the cluster's name is one part as well.
pub proof fn a_user_is_one_part(cluster: Seq<char>, user: Seq<char>, mechanism: ScramMechanism)
    requires
        cluster.len() > 0,
        !cluster.contains('/'),
        user.len() > 0,
    ensures
        parts_of(credential_path(cluster, user, mechanism)) == seq![
            "clusters"@,
            part_of(cluster),
            "users"@,
            part_of(user),
            credential_name(mechanism),
        ],
{
    reveal_strlit("clusters/");
    reveal_strlit("clusters");
    reveal_strlit("/users");
    reveal_strlit("users");
    let (head, tail) = ("clusters"@, "users"@);
    let root = users_root(cluster);
    assert(root =~= head + seq!['/'] + (cluster + seq!['/'] + tail));
    assert forall|i: int| 0 <= i < cluster.len() implies #[trigger] cluster[i] != '/' by {
        assert(cluster.contains(cluster[i]));
    }
    lemma_first_part(head, cluster + seq!['/'] + tail);
    lemma_first_part(cluster, tail);
    lemma_last_part(Seq::empty(), tail);
    assert(parts_of(root) =~= seq![head, cluster, tail]);
    lemma_own_part(head);
    lemma_own_part(tail);
    let none = Seq::<Seq<char>>::empty();
    assert(seq![head, cluster, tail].skip(1) =~= seq![cluster, tail]);
    assert(seq![cluster, tail].skip(1) =~= seq![tail]);
    assert(seq![tail].skip(1) =~= none);
    assert(encoded_parts(none) =~= none);
    assert(encoded_parts(seq![tail]) =~= seq![tail]);
    assert(encoded_parts(seq![cluster, tail]) =~= seq![part_of(cluster), tail]);
    assert(names_of(root) =~= seq![head, part_of(cluster), tail]);
    a_credential_lies_below_the_users(cluster, user, mechanism);
    assert(parts_of(credential_path(cluster, user, mechanism)) =~= seq![
        head,
        part_of(cluster),
        tail,
        part_of(user),
        credential_name(mechanism),
    ]);
}

/// No two credentials of a cluster lie in one place: neither those of two users, nor
/// those of two mechanisms.
pub proof fn credentials_lie_apart(
    cluster: Seq<char>,
    user: Seq<char>,
    mechanism: ScramMechanism,
    other_user: Seq<char>,
    other_mechanism: ScramMechanism,
)
    requires
        credential_path(cluster, user, mechanism) == credential_path(
            cluster,
            other_user,
            other_mechanism,
        ),
    ensures
        user == other_user,
        mechanism == other_mechanism,
{
    a_credential_lies_below_the_users(cluster, user, mechanism);
    a_credential_lies_below_the_users(cluster, other_user, other_mechanism);
    lemma_credential_name(mechanism);
    lemma_credential_name(other_mechanism);
    let found = parts_of(credential_path(cluster, user, mechanism));
    let n = names_of(users_root(cluster)).len() as int;
    assert(found.last() == credential_name(mechanism));
    assert(found.last() == credential_name(other_mechanism));
    if user.len() > 0 {
        assert(found.len() == n + 2);
        assert(found[n] == part_of(user));
        assert(found[n] == part_of(other_user));
        parts_tell_texts_apart(user, other_user);
    } else {
        assert(found.len() == n + 1);
        assert(user =~= other_user);
    }
}

/// Attempts to change a document of the cluster.
pub const UPDATE_ATTEMPTS: u32 = 16;

/// What the put of a changed document came to.
#[derive(Debug)]
pub enum UpdateReply {
    Stored,
    /// Another writer was faster.
    Outdated,
    /// What another writer wrote was deleted since.
    Vanished,
    /// The store gave no tag.
    MissingEtag,
    Failed(Error),
}

/// What happened to the change of a document.
#[derive(Debug)]
pub enum UpdateEvent {
    /// An attempt is due.
    Due,
    /// The changed document was put.
    Replied(UpdateReply),
}

/// What to do about the change of a document.
#[derive(Debug)]
pub enum UpdateAction {
    /// Read the document, change what was read, and put it.
    Read,
    /// Wait for this many milliseconds: an attempt is due then.
    Wait(u64),
    Done,
    Failed(Error),
}

/// The attempts that were lost, and what to do next. A change is made to what was
/// read last, never to what lost.
pub open spec fn update_step(lost: u32, event: UpdateEvent) -> (u32, Option<UpdateAction>) {
    match event {
        UpdateEvent::Due => if lost < UPDATE_ATTEMPTS {
            (lost, Some(UpdateAction::Read))
        } else {
            (lost, None)
        },
        UpdateEvent::Replied(UpdateReply::Stored) => (lost, Some(UpdateAction::Done)),
        UpdateEvent::Replied(UpdateReply::Outdated) => (
            (lost + 1) as u32,
            Some(UpdateAction::Wait((5 * (1 + lost)) as u64)),
        ),
        UpdateEvent::Replied(UpdateReply::Vanished) => (
            (lost + 1) as u32,
            Some(UpdateAction::Wait((5 * (1 + lost)) as u64)),
        ),
        UpdateEvent::Replied(UpdateReply::MissingEtag) => (lost, None),
        UpdateEvent::Replied(UpdateReply::Failed(error)) => (
            lost,
            Some(UpdateAction::Failed(error)),
        ),
    }
}

/// Why a change was given up.
pub open spec fn gives_up(
    action: UpdateAction,
    event: UpdateEvent,
    document: Seq<char>,
    subject: Seq<char>,
    cluster: Seq<char>,
) -> bool {
    action matches UpdateAction::Failed(Error::Message(text)) && text@ == match event {
        UpdateEvent::Due => "could not write the "@ + document + " of cluster "@ + cluster
            + " in "@ + decimal(UPDATE_ATTEMPTS as nat) + " attempts"@,
        _ => subject + " update reported a missing etag"@,
    }
}

impl DynoStore {
    /// Where the access rules of the cluster are.
    pub fn acls_location(&self) -> (location: String)
        ensures
            location@ == path_of("clusters/"@ + self.identity.cluster@ + "/acls.json"@),
    {
        let mut text = String::from_str("clusters/");
        text.append(self.identity.cluster.as_str());
        text.append("/acls.json");
        path_from(text.as_str())
    }

    /// Where the quotas of the cluster's clients are.
    pub fn quotas_location(&self) -> (location: String)
        ensures
            location@ == path_of("clusters/"@ + self.identity.cluster@ + "/quotas.json"@),
    {
        let mut text = String::from_str("clusters/");
        text.append(self.identity.cluster.as_str());
        text.append("/quotas.json");
        path_from(text.as_str())
    }

    /// Where the credential of a user is. Each mechanism derives keys of its own from
    /// a password, so each has an object of its own. The name of a user is one part,
    /// whatever it holds.
    pub fn user_scram_credential_location(&self, user: &str, mechanism: ScramMechanism) -> (
    location: String)
        ensures
            location@ == credential_path(self.identity.cluster@, user@, mechanism),
    {
        let mut root = String::from_str("clusters/");
        root.append(self.identity.cluster.as_str());
        root.append("/users");
        let mut file = String::from_str(
            match mechanism {
                ScramMechanism::Scram256 => "scram-sha-256",
                ScramMechanism::Scram512 => "scram-sha-512",
            },
        );
        file.append(".json");
        let mut texts = parts(root.as_str());
        let ghost above = texts@;
        texts.push(String::from_str(user));
        texts.push(file);
        assert(texts_view(texts@) =~= texts_view(above) + seq![user@, file@]);
        path_from_parts(&texts)
    }

    /// A document of the cluster and the version to change it at, by the reply to a
    /// read. A cluster that was never given one has an empty one, of no version.
    pub fn read_document<D>(reply: GetReply<D>, empty: D) -> (read: Result<
        (D, Option<UpdateVersion>),
        Error,
    >)
        ensures
            match reply {
                GetReply::Found(Ok(document), version) => read == Ok::<
                    (D, Option<UpdateVersion>),
                    Error,
                >((document, Some(version))),
                GetReply::NotFound => read == Ok::<(D, Option<UpdateVersion>), Error>((empty, None)),
                GetReply::Found(Err(error), _) => read == Err::<(D, Option<UpdateVersion>), Error>(
                    error,
                ),
                GetReply::NotModified(error) => read == Err::<(D, Option<UpdateVersion>), Error>(
                    error,
                ),
                GetReply::Failed(error) => read == Err::<(D, Option<UpdateVersion>), Error>(error),
            },
    {
        match reply {
            GetReply::Found(Ok(document), version) => Ok((document, Some(version))),
            GetReply::NotFound => Ok((empty, None)),
            GetReply::Found(Err(error), _) => Err(error),
            GetReply::NotModified(error) => Err(error),
            GetReply::Failed(error) => Err(error),
        }
    }

    /// What to do about a change of the access rules.
    pub fn update_acls(&self, lost: &mut u32, event: UpdateEvent) -> (action: UpdateAction)
        requires
            *old(lost) <= UPDATE_ATTEMPTS,
            event is Replied ==> *old(lost) < UPDATE_ATTEMPTS,
        ensures
            *final(lost) <= UPDATE_ATTEMPTS,
            *final(lost) == update_step(*old(lost), event).0,
            match update_step(*old(lost), event).1 {
                Some(step) => action == step,
                None => gives_up(action, event, "acls"@, "acl"@, self.identity.cluster@),
            },
    {
        self.update(lost, event, "acls", "acl")
    }

    /// What to do about a change of the quotas.
    pub fn update_quotas(&self, lost: &mut u32, event: UpdateEvent) -> (action: UpdateAction)
        requires
            *old(lost) <= UPDATE_ATTEMPTS,
            event is Replied ==> *old(lost) < UPDATE_ATTEMPTS,
        ensures
            *final(lost) <= UPDATE_ATTEMPTS,
            *final(lost) == update_step(*old(lost), event).0,
            match update_step(*old(lost), event).1 {
                Some(step) => action == step,
                None => gives_up(
                    action,
                    event,
                    "client quotas"@,
                    "quota"@,
                    self.identity.cluster@,
                ),
            },
    {
        self.update(lost, event, "client quotas", "quota")
    }

    fn update(&self, lost: &mut u32, event: UpdateEvent, document: &str, subject: &str) -> (action:
        UpdateAction)
        requires
            *old(lost) <= UPDATE_ATTEMPTS,
            event is Replied ==> *old(lost) < UPDATE_ATTEMPTS,
        ensures
            *final(lost) <= UPDATE_ATTEMPTS,
            *final(lost) == update_step(*old(lost), event).0,
            match update_step(*old(lost), event).1 {
                Some(step) => action == step,
                None => gives_up(action, event, document@, subject@, self.identity.cluster@),
            },
    {
        match event {
            UpdateEvent::Due => {
                if *lost < UPDATE_ATTEMPTS {
                    UpdateAction::Read
                } else {
                    let mut text = String::from_str("could not write the ");
                    text.append(document);
                    text.append(" of cluster ");
                    text.append(self.identity.cluster.as_str());
                    text.append(" in ");
                    push_decimal(&mut text, UPDATE_ATTEMPTS as u64);
                    text.append(" attempts");
                    UpdateAction::Failed(Error::Message(text))
                }
            },
            UpdateEvent::Replied(UpdateReply::Stored) => UpdateAction::Done,
            UpdateEvent::Replied(UpdateReply::Outdated) => {
                *lost = *lost + 1;
                UpdateAction::Wait(5 * (*lost as u64))
            },
            UpdateEvent::Replied(UpdateReply::Vanished) => {
                *lost = *lost + 1;
                UpdateAction::Wait(5 * (*lost as u64))
            },
            UpdateEvent::Replied(UpdateReply::MissingEtag) => {
                let mut text = String::from_str(subject);
                text.append(" update reported a missing etag");
                UpdateAction::Failed(Error::Message(text))
            },
            UpdateEvent::Replied(UpdateReply::Failed(error)) => UpdateAction::Failed(error),
        }
    }
}

/// A change that keeps being lost is given up after [`UPDATE_ATTEMPTS`].
pub proof fn lost_changes_are_given_up(lost: u32)
    requires
        lost <= UPDATE_ATTEMPTS,
    ensures
        update_step(lost, UpdateEvent::Due).1 is None <==> lost == UPDATE_ATTEMPTS,
        lost < UPDATE_ATTEMPTS ==> update_step(
            lost,
            UpdateEvent::Replied(UpdateReply::Outdated),
        ).0 == lost + 1,
{
}

/// What follows the reply to a change. A change that is stored is done; one that lost, or
/// whose document is gone, is made again to what is read then, after a wait that grows
/// with each loss; a reply without a tag gives the change up, and a failure is handed on.
pub proof fn a_lost_change_is_made_again(lost: u32, error: Error)
    requires
        lost < UPDATE_ATTEMPTS,
    ensures
        update_step(lost, UpdateEvent::Due) == (lost, Some(UpdateAction::Read)),
        update_step(lost, UpdateEvent::Replied(UpdateReply::Stored)) == (
            lost,
            Some(UpdateAction::Done),
        ),
        update_step(lost, UpdateEvent::Replied(UpdateReply::Outdated)) == (
            (lost + 1) as u32,
            Some(UpdateAction::Wait((5 + 5 * lost) as u64)),
        ),
        update_step(lost, UpdateEvent::Replied(UpdateReply::Vanished)) == update_step(
            lost,
            UpdateEvent::Replied(UpdateReply::Outdated),
        ),
        update_step(lost, UpdateEvent::Replied(UpdateReply::MissingEtag)) == (
            lost,
            None::<UpdateAction>,
        ),
        update_step(lost, UpdateEvent::Replied(UpdateReply::Failed(error))) == (
            lost,
            Some(UpdateAction::Failed(error)),
        ),
{
}

} // verus!
