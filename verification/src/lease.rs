//! The lease of a prefix: at most one process holds a live one, and a take-over
//! raises the epoch.

use crate::error::{Error, ErrorCode};
use crate::opticon::{
    admits, text_view, Condition, PutMode, PutReply, Stored, UpdateVersion,
};
use crate::path::{path_from, path_of};
use crate::prefixes::{HeldLease, PrefixCaches};
use crate::store::DynoStore;
use vstd::prelude::*;
use vstd::string::*;

verus! {

/// A lease as it is stored.
#[derive(Debug)]
pub struct PrefixLease {
    pub epoch: i64,
    pub holder: String,
    pub expires_at_ms: i64,
    /// When the prefix was last maintained.
    pub maintained_at_ms: i64,
}

/// A lease to put.
#[derive(Debug)]
pub struct LeaseClaim {
    pub lease: PrefixLease,
    pub mode: PutMode,
}

/// Whether the object is the one that this process last wrote.
pub open spec fn is_ours(version: Option<UpdateVersion>, held: Option<HeldLease>) -> bool {
    match (version, held) {
        (Some(version), Some(held)) => match held.version {
            Some(own) => version@.e_tag == own@.e_tag,
            None => false,
        },
        _ => false,
    }
}

/// Whether a lease is over.
pub open spec fn is_expired(current: Option<PrefixLease>, now: u64) -> bool {
    match current {
        Some(lease) => now >= lease.expires_at_ms,
        None => true,
    }
}

/// Whether a process leaves a lease that was read to who holds it.
pub open spec fn yields(
    version: Option<UpdateVersion>,
    held: Option<HeldLease>,
    current: Option<PrefixLease>,
    now: u64,
) -> bool {
    !is_ours(version, held) && !is_expired(current, now)
}

/// The epoch of a term that follows what was read.
pub open spec fn next_epoch(current: Option<PrefixLease>) -> int {
    match current {
        Some(lease) => lease.epoch + 1,
        None => 1,
    }
}

/// The epoch of a held term that is used as it is.
pub open spec fn comfortable(held: Option<HeldLease>, now: u64, ttl: u64) -> Option<i64> {
    match held {
        Some(held) => if held.expires_at > now + ttl / 3 {
            Some(held.epoch)
        } else {
            None
        },
        None => None,
    }
}

/// Whether two tags are the same.
fn same_tag(a: &Option<String>, b: &Option<String>) -> (same: bool)
    ensures
        same == (text_view(*a) == text_view(*b)),
{
    match (a, b) {
        (Some(a), Some(b)) => *a == *b,
        (None, None) => true,
        _ => false,
    }
}

impl DynoStore {
    /// The object of a prefix's write lease.
    pub fn lease_location(&self, prefix: &str) -> (location: String)
        ensures
            location@ == path_of(
                "clusters/"@ + self.identity.cluster@ + "/prefixes/"@ + prefix@ + "/lease.json"@,
            ),
    {
        let mut text = String::from_str("clusters/");
        text.append(self.identity.cluster.as_str());
        text.append("/prefixes/");
        text.append(prefix);
        text.append("/lease.json");
        path_from(text.as_str())
    }

    /// The object of a prefix's compaction lease, which compactors coordinate by
    /// without fencing a writer.
    pub fn compaction_lease_location(&self, prefix: &str) -> (location: String)
        ensures
            location@ == path_of(
                "clusters/"@ + self.identity.cluster@ + "/prefixes/"@ + prefix@
                    + "/compaction-lease.json"@,
            ),
    {
        let mut text = String::from_str("clusters/");
        text.append(self.identity.cluster.as_str());
        text.append("/prefixes/");
        text.append(prefix);
        text.append("/compaction-lease.json");
        path_from(text.as_str())
    }

    /// The epoch of a term that this process holds with more than a third of it
    /// left: it is used as it is, and nothing is written.
    pub fn comfortable_term(&self, key: &str, now: u64) -> (epoch: Result<Option<i64>, Error>)
        requires
            self.wf(),
        ensures
            self.prefixes.leases.answers(
                epoch,
                comfortable(self.prefixes.leases.at(key@), now, self.tuning.prefix_lease_ttl),
            ),
    {
        let margin: u64 = self.tuning.prefix_lease_ttl / 3;
        match self.prefixes.held_lease(key) {
            Ok(Some(held)) => if held.expires_at as u128 > now as u128 + margin as u128 {
                Ok(Some(held.epoch))
            } else {
                Ok(None)
            },
            Ok(None) => Ok(None),
            Err(_) => Err(Error::Poison),
        }
    }

    /// Decide on the lease that was read: to claim it, on the condition that it is
    /// still what was read, or to yield to a live one of another.
    pub fn claim_lease(
        &mut self,
        key: &str,
        current: Option<PrefixLease>,
        version: Option<UpdateVersion>,
        now: u64,
    ) -> (claim: Result<LeaseClaim, Error>)
        requires
            old(self).wf(),
            now + old(self).tuning.prefix_lease_ttl <= i64::MAX,
            current matches Some(lease) ==> lease.epoch < i64::MAX,
        ensures
            final(self).wf(),
            *final(self) == (DynoStore { prefixes: final(self).prefixes, ..*old(self) }),
            final(self).prefixes == (PrefixCaches {
                leases: final(self).prefixes.leases,
                ..old(self).prefixes
            }),
            ({
                if old(self).prefixes.leases.poisoned {
                    claim == Err::<LeaseClaim, Error>(Error::Poison) && *final(self) == *old(self)
                } else if yields(version, old(self).prefixes.leases.at(key@), current, now) {
                    &&& claim == Err::<LeaseClaim, Error>(Error::Api(ErrorCode::NotLeaderOrFollower))
                    &&& !final(self).prefixes.leases.poisoned
                    &&& final(self).prefixes.leases.map@ == old(self).prefixes.leases.map@.remove(
                        key@,
                    )
                } else {
                    &&& *final(self) == *old(self)
                    &&& claim matches Ok(claim)
                    &&& claim.lease.epoch == next_epoch(current)
                    &&& claim.lease.holder@ == old(self).identity.writer_id@
                    &&& claim.lease.expires_at_ms == now + old(self).tuning.prefix_lease_ttl
                    &&& claim.lease.maintained_at_ms == now
                    &&& claim.mode@ == match version {
                        Some(version) => Condition::Update(version@),
                        None => Condition::Create,
                    }
                }
            }),
    {
        if self.prefixes.leases.poisoned {
            return Err(Error::Poison);
        }
        let own = match self.prefixes.leases.map.get(&String::from_str(key)) {
            Some(held) => match (&version, &held.version) {
                (Some(version), Some(own)) => same_tag(&version.e_tag, &own.e_tag),
                _ => false,
            },
            None => false,
        };
        let expired = match &current {
            Some(lease) => lease.expires_at_ms <= now as i64,
            None => true,
        };
        if !own && !expired {
            self.prefixes.drop_lease(key);
            return Err(Error::Api(ErrorCode::NotLeaderOrFollower));
        }
        let epoch: i64 = match &current {
            Some(lease) => lease.epoch + 1,
            None => 1,
        };
        Ok(
            LeaseClaim {
                lease: PrefixLease {
                    epoch,
                    holder: self.identity.writer_id.clone(),
                    expires_at_ms: (now + self.tuning.prefix_lease_ttl) as i64,
                    maintained_at_ms: now as i64,
                },
                mode: match version {
                    Some(version) => PutMode::Update(version),
                    None => PutMode::Create,
                },
            },
        )
    }

    /// Take the reply to the put of a claim: its term is held from now on, or another
    /// process was faster and this one yields.
    pub fn acquire_or_renew_lease_at(
        &mut self,
        key: &str,
        claim: &LeaseClaim,
        reply: PutReply,
        now: u64,
    ) -> (acquired: Result<i64, Error>)
        requires
            old(self).wf(),
            now + old(self).tuning.prefix_lease_ttl <= u64::MAX,
        ensures
            final(self).wf(),
            *final(self) == (DynoStore { prefixes: final(self).prefixes, ..*old(self) }),
            final(self).prefixes == (PrefixCaches {
                leases: final(self).prefixes.leases,
                ..old(self).prefixes
            }),
            final(self).prefixes.leases.poisoned == old(self).prefixes.leases.poisoned,
            !old(self).prefixes.leases.poisoned ==> final(self).prefixes.leases.at(key@)
                == term_after(
                old(self).prefixes.leases.at(key@),
                claim.lease.epoch,
                (now + old(self).tuning.prefix_lease_ttl) as u64,
                reply,
            ),
            match reply {
                PutReply::Stored(version) => {
                    &&& acquired == Ok::<i64, Error>(claim.lease.epoch)
                    &&& final(self).prefixes.leases.map@ == if old(self).prefixes.leases.poisoned {
                        old(self).prefixes.leases.map@
                    } else {
                        old(self).prefixes.leases.map@.insert(
                            key@,
                            (HeldLease {
                                epoch: claim.lease.epoch,
                                expires_at: (now + old(self).tuning.prefix_lease_ttl) as u64,
                                version: Some(version),
                            }),
                        )
                    }
                },
                PutReply::Precondition(_) | PutReply::AlreadyExists => {
                    &&& acquired == Err::<i64, Error>(Error::Api(ErrorCode::NotLeaderOrFollower))
                    &&& final(self).prefixes.leases.map@ == if old(self).prefixes.leases.poisoned {
                        old(self).prefixes.leases.map@
                    } else {
                        old(self).prefixes.leases.map@.remove(key@)
                    }
                },
                PutReply::Failed(error) => acquired == Err::<i64, Error>(error) && *final(self)
                    == *old(self),
            },
    {
        match reply {
            PutReply::Stored(version) => {
                let epoch: i64 = claim.lease.epoch;
                let expires_at: u64 = now + self.tuning.prefix_lease_ttl;
                self.prefixes.hold_lease(
                    key,
                    HeldLease { epoch, expires_at, version: Some(version) },
                );
                Ok(epoch)
            },
            PutReply::Precondition(_) => {
                self.prefixes.drop_lease(key);
                Err(Error::Api(ErrorCode::NotLeaderOrFollower))
            },
            PutReply::AlreadyExists => {
                self.prefixes.drop_lease(key);
                Err(Error::Api(ErrorCode::NotLeaderOrFollower))
            },
            PutReply::Failed(error) => Err(error),
        }
    }
}

/// Of the claims on one reading of a lease, one wins: once a lease is stored, at a
/// version of its own, the object store admits no other claim that was made on what
/// was there before.
pub proof fn one_claim_wins<D>(before: Option<Stored<D>>, after: Stored<D>, condition: Condition)
    requires
        admits(before, condition),
        before matches Some(held) ==> held.version != after.version,
    ensures
        !admits(Some(after), condition),
{
}

/// A lease that another holds is left alone until its time is over, and is claimed from
/// that moment on; one that is absent, or that this process wrote last, is claimed
/// whenever it is read. Having read it does not make it one's own: only the tag of what
/// was written does.
pub proof fn a_live_lease_is_left_alone(
    version: Option<UpdateVersion>,
    held: Option<HeldLease>,
    current: Option<PrefixLease>,
    now: u64,
)
    ensures
        current is None ==> !yields(version, held, current, now),
        current matches Some(lease) ==> (now >= lease.expires_at_ms ==> !yields(
            version,
            held,
            current,
            now,
        )),
        current matches Some(lease) ==> (now < lease.expires_at_ms && (version is None || held
            is None) ==> yields(version, held, current, now)),
        current is Some && version is Some && held is Some && held->0.version is Some && now
            < current->0.expires_at_ms ==> (yields(version, held, current, now) <==> version->0@.e_tag
            != held->0.version->0@.e_tag),
        current is Some && held is Some && held->0.version is None && now
            < current->0.expires_at_ms ==> yields(version, held, current, now),
{
}

/// A claim fences every term before it: its epoch is the one behind what was read, and
/// the first is one.
pub proof fn a_claim_outranks_what_was_read(current: Option<PrefixLease>)
    ensures
        current matches Some(lease) ==> next_epoch(current) > lease.epoch && next_epoch(current)
            <= lease.epoch + 1,
        current is None ==> next_epoch(current) == 1,
{
}

/// A held term is used without a look at its object only while more than a third of a
/// term is left of it, and with its own epoch: so a term that is over is never used.
pub proof fn a_term_is_renewed_in_time(held: HeldLease, now: u64, ttl: u64)
    ensures
        comfortable(Some(held), now, ttl) is Some <==> held.expires_at - now > ttl / 3,
        comfortable(Some(held), now, ttl) is Some ==> comfortable(Some(held), now, ttl) == Some(
            held.epoch,
        ) && now < held.expires_at,
        comfortable(None, now, ttl) is None,
{
}

/// The term that is held after the reply to the put of a claim of it.
pub open spec fn term_after(
    held: Option<HeldLease>,
    epoch: i64,
    expires_at: u64,
    reply: PutReply,
) -> Option<HeldLease> {
    match reply {
        PutReply::Stored(version) => Some(
            HeldLease { epoch, expires_at, version: Some(version) },
        ),
        PutReply::Precondition(_) => None,
        PutReply::AlreadyExists => None,
        PutReply::Failed(_) => held,
    }
}

/// A term is held once its claim is stored, with the claimed epoch and for the claimed
/// time, and what was stored is then one's own; a claim that another was faster than
/// gives up what was held; and one that failed leaves it.
pub proof fn a_term_is_held_once_it_is_stored(
    held: Option<HeldLease>,
    epoch: i64,
    expires_at: u64,
    version: UpdateVersion,
    error: Error,
)
    ensures
        ({
            let term = term_after(held, epoch, expires_at, PutReply::Stored(version));
            &&& term is Some
            &&& term->0.epoch == epoch
            &&& term->0.expires_at == expires_at
            &&& is_ours(Some(version), term)
        }),
        term_after(held, epoch, expires_at, PutReply::Precondition(error)) is None,
        term_after(held, epoch, expires_at, PutReply::AlreadyExists) is None,
        term_after(held, epoch, expires_at, PutReply::Failed(error)) == held,
{
}

} // verus!
