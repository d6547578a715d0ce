//! A refresh of a prefix's index from end to end: what it asks of the object store,
//! and in which order.

use crate::error::Error;
use crate::probe::{
    settled, unresolved, FooterOutcome, FooterReply, Listing, ProbeStep, RefreshPlan, PROBE_WINDOW,
};
use crate::store::DynoStore;
use vstd::prelude::*;

verus! {

/// How far a refresh has come.
#[derive(Debug)]
pub enum Refresh {
    /// Nothing was asked for yet.
    Begun,
    /// The segments behind the cursor are probed, and this one is next.
    Probing { cursor: u64, seq: u64 },
    Listing(Listing),
    /// The footers of the listed segments that are not known are read, in order.
    Reading {
        listing: Listing,
        discovered: Vec<(u64, i64)>,
        unread: Vec<(u64, i64)>,
        next: usize,
    },
}

/// What came of a step of a refresh.
#[derive(Debug)]
pub enum RefreshEvent {
    /// A refresh is asked for.
    Due,
    /// The lock on the refreshes of the prefix is held.
    Locked,
    /// The read of the probed segment was answered.
    Probed(FooterReply),
    /// The floor was read, or could not be.
    Floored(Option<u64>),
    /// The listing showed these segments, with when they were last modified.
    Listed(Result<Vec<(u64, i64)>, Error>),
    /// What the read of the next footer came to.
    Footer(Result<FooterOutcome, Error>),
}

/// What to do about a refresh.
#[derive(Clone, Copy, Debug, PartialEq, Eq, Structural)]
pub enum RefreshAction {
    Done,
    /// Take the lock on the refreshes of the prefix.
    Lock,
    /// Read the end of this segment.
    Read(u64),
    /// Read the floor, and only now.
    ReadFloor,
    List(Listing),
    /// Read the footer of this listed segment.
    ReadFooter(u64),
}

impl Refresh {
    pub open spec fn wf(&self) -> bool {
        match *self {
            Refresh::Probing { cursor, seq } => cursor < seq <= cursor + PROBE_WINDOW <= u64::MAX,
            Refresh::Reading { listing, discovered, unread, next } => next < unread@.len(),
            _ => true,
        }
    }

    /// Whether an event can come about at this stage.
    pub open spec fn expects(&self, event: RefreshEvent) -> bool {
        match event {
            RefreshEvent::Due | RefreshEvent::Locked => true,
            RefreshEvent::Probed(_) | RefreshEvent::Floored(_) => self is Probing,
            RefreshEvent::Listed(_) => self is Listing,
            RefreshEvent::Footer(outcome) => self is Reading && (outcome matches Ok(
                FooterOutcome::Decoded(footer),
            ) ==> footer@.entries.len() <= u32::MAX),
        }
    }
}

/// How a probe goes on.
pub open spec fn probe_goes_on(cursor: u64, step: ProbeStep) -> (Refresh, RefreshAction) {
    match step {
        ProbeStep::Read(seq) => (Refresh::Probing { cursor, seq }, RefreshAction::Read(seq)),
        ProbeStep::ReadFloor(seq) => (
            Refresh::Probing { cursor, seq },
            RefreshAction::ReadFloor,
        ),
        ProbeStep::Resolved(_) => (Refresh::Begun, RefreshAction::Done),
        ProbeStep::List(listing) => (Refresh::Listing(listing), RefreshAction::List(listing)),
    }
}

/// Whether a refresh is done.
pub open spec fn is_done(step: Result<(Refresh, RefreshAction), Error>) -> bool {
    step == Ok::<(Refresh, RefreshAction), Error>((Refresh::Begun, RefreshAction::Done))
}

impl DynoStore {
    /// Whether the sequences behind the highest that is known are numbers.
    pub open spec fn has_probe_room(&self, prefix: Seq<char>) -> bool {
        forall|seq: u64| #[trigger]
            self.prefixes.state_of(prefix).resolves(seq) ==> seq + PROBE_WINDOW <= u64::MAX
    }

    /// What to do about a refresh of a prefix's index. One that is current is served
    /// as it is, before and after the lock is waited for. The floor is read only after
    /// a segment was found absent, and what a listing does not show is dropped only
    /// once every footer that it showed is known.
    pub fn refresh_prefix_index_inner(
        &mut self,
        prefix: &str,
        force: bool,
        stage: Refresh,
        event: RefreshEvent,
        now: u64,
    ) -> (step: Result<(Refresh, RefreshAction), Error>)
        requires
            old(self).wf(),
            stage.wf(),
            stage.expects(event),
            event is Locked ==> old(self).has_probe_room(prefix@),
        ensures
            final(self).wf(),
            final(self).differs_at(*old(self), prefix@),
            step matches Ok((after, _)) ==> after.wf(),
            match event {
                RefreshEvent::Due => {
                    &&& *final(self) == *old(self)
                    &&& if force {
                        step == Ok::<(Refresh, RefreshAction), Error>(
                            (Refresh::Begun, RefreshAction::Lock),
                        )
                    } else {
                        old(self).prefixes.index.answers(
                            step,
                            (
                                Refresh::Begun,
                                if old(self).is_current(prefix@, now) {
                                    RefreshAction::Done
                                } else {
                                    RefreshAction::Lock
                                },
                            ),
                        )
                    }
                },
                RefreshEvent::Locked => {
                    &&& *final(self) == *old(self)
                    &&& match step {
                        Ok((after, RefreshAction::Done)) => after is Begun && old(self).refreshes(
                            prefix@,
                            force,
                            now,
                            RefreshPlan::Served,
                        ),
                        Ok((Refresh::Probing { cursor, seq }, RefreshAction::Read(read))) => seq
                            == cursor + 1 && read == seq && old(self).refreshes(
                            prefix@,
                            force,
                            now,
                            RefreshPlan::Probe(cursor),
                        ),
                        Ok((Refresh::Listing(listing), RefreshAction::List(list))) => listing
                            == list && old(self).refreshes(
                            prefix@,
                            force,
                            now,
                            RefreshPlan::List(listing),
                        ),
                        Ok(_) => false,
                        Err(error) => error == Error::Poison && old(self).prefixes.index.poisoned,
                    }
                },
                RefreshEvent::Probed(reply) => {
                    let cursor = stage->cursor;
                    let seq = stage->seq;
                    step matches Ok(step) && exists|next: ProbeStep|
                        step == #[trigger] probe_goes_on(cursor, next) && final(self).probed(
                            *old(self),
                            prefix@,
                            cursor,
                            seq,
                            reply,
                            next,
                        )
                },
                RefreshEvent::Floored(floor) => {
                    let cursor = stage->cursor;
                    let seq = stage->seq;
                    step matches Ok(step) && exists|next: ProbeStep|
                        step == #[trigger] probe_goes_on(cursor, next) && final(self).floored(
                            *old(self),
                            prefix@,
                            cursor,
                            seq,
                            floor,
                            now,
                            next,
                        )
                },
                RefreshEvent::Listed(Err(error)) => *final(self) == *old(self) && step == Err::<
                    (Refresh, RefreshAction),
                    Error,
                >(error),
                RefreshEvent::Listed(Ok(discovered)) => {
                    let listing = stage->0;
                    let unread = unresolved(old(self).prefixes.state_of(prefix@), discovered@);
                    if old(self).prefixes.index.poisoned {
                        *final(self) == *old(self) && step == Err::<
                            (Refresh, RefreshAction),
                            Error,
                        >(Error::Poison)
                    } else if unread.len() == 0 {
                        &&& is_done(step)
                        &&& final(self).prefixes.state_of(prefix@) == settled(
                            old(self).prefixes.state_of(prefix@),
                            listing,
                            discovered@,
                            now,
                        )
                    } else {
                        &&& *final(self) == *old(self)
                        &&& step matches Ok((after, action)) && action
                            == RefreshAction::ReadFooter(unread[0].0) && after.reads(
                            listing,
                            discovered@,
                            unread,
                            0,
                        )
                    }
                },
                RefreshEvent::Footer(Err(error)) => *final(self) == *old(self) && step == Err::<
                    (Refresh, RefreshAction),
                    Error,
                >(error),
                RefreshEvent::Footer(Ok(outcome)) => {
                    let unread = stage->unread@;
                    let next = stage->next as int;
                    let committed = outcome.applied(
                        old(self).prefixes.state_of(prefix@),
                        unread[next].0,
                        unread[next].1,
                    );
                    if old(self).prefixes.index.poisoned {
                        final(self).prefixes.state_of(prefix@) == old(self).prefixes.state_of(
                            prefix@,
                        ) && step == Err::<(Refresh, RefreshAction), Error>(Error::Poison)
                    } else if next + 1 == unread.len() {
                        &&& is_done(step)
                        &&& final(self).prefixes.state_of(prefix@) == settled(
                            committed,
                            stage->listing,
                            stage->discovered@,
                            now,
                        )
                    } else {
                        &&& final(self).prefixes.state_of(prefix@) == committed
                        &&& step matches Ok((after, action)) && action
                            == RefreshAction::ReadFooter(unread[next + 1].0) && after.reads(
                            stage->listing,
                            stage->discovered@,
                            unread,
                            next + 1,
                        )
                    }
                },
            },
    {
        match event {
            RefreshEvent::Due => {
                if force {
                    return Ok((Refresh::Begun, RefreshAction::Lock));
                }
                match self.plan_refresh(prefix, false, now) {
                    Ok(RefreshPlan::Served) => Ok((Refresh::Begun, RefreshAction::Done)),
                    Ok(_) => Ok((Refresh::Begun, RefreshAction::Lock)),
                    Err(error) => Err(error),
                }
            },
            RefreshEvent::Locked => match self.plan_refresh(prefix, force, now) {
                Ok(RefreshPlan::Served) => Ok((Refresh::Begun, RefreshAction::Done)),
                Ok(RefreshPlan::Probe(cursor)) => {
                    let seq: u64 = cursor + 1;
                    Ok((Refresh::Probing { cursor, seq }, RefreshAction::Read(seq)))
                },
                Ok(RefreshPlan::List(listing)) => Ok(
                    (Refresh::Listing(listing), RefreshAction::List(listing)),
                ),
                Err(error) => Err(error),
            },
            RefreshEvent::Probed(reply) => match stage {
                Refresh::Probing { cursor, seq } => {
                    let next = self.probe_prefix_tail(prefix, cursor, seq, reply);
                    Ok(Self::go_on(cursor, next))
                },
                _ => Ok((Refresh::Begun, RefreshAction::Done)),
            },
            RefreshEvent::Floored(floor) => match stage {
                Refresh::Probing { cursor, seq } => {
                    let next = self.probe_seq_floor(prefix, cursor, seq, floor, now);
                    Ok(Self::go_on(cursor, next))
                },
                _ => Ok((Refresh::Begun, RefreshAction::Done)),
            },
            RefreshEvent::Listed(Err(error)) => Err(error),
            RefreshEvent::Listed(Ok(discovered)) => match stage {
                Refresh::Listing(listing) => match self.footers_to_read(prefix, &discovered) {
                    Ok(unread) => self.read_on(prefix, listing, discovered, unread, 0, now),
                    Err(error) => Err(error),
                },
                _ => Ok((Refresh::Begun, RefreshAction::Done)),
            },
            RefreshEvent::Footer(Err(error)) => Err(error),
            RefreshEvent::Footer(Ok(outcome)) => match stage {
                Refresh::Reading { listing, discovered, unread, next } => {
                    let (seq, last_modified_ms) = unread[next];
                    assert(next < unread.len());
                    match self.commit_footer(prefix, seq, last_modified_ms, outcome) {
                        Ok(_) => self.read_on(prefix, listing, discovered, unread, next + 1, now),
                        Err(error) => Err(error),
                    }
                },
                _ => Ok((Refresh::Begun, RefreshAction::Done)),
            },
        }
    }

    fn go_on(cursor: u64, step: ProbeStep) -> (next: (Refresh, RefreshAction))
        ensures
            next == probe_goes_on(cursor, step),
    {
        match step {
            ProbeStep::Read(seq) => (Refresh::Probing { cursor, seq }, RefreshAction::Read(seq)),
            ProbeStep::ReadFloor(seq) => (
                Refresh::Probing { cursor, seq },
                RefreshAction::ReadFloor,
            ),
            ProbeStep::Resolved(_) => (Refresh::Begun, RefreshAction::Done),
            ProbeStep::List(listing) => (Refresh::Listing(listing), RefreshAction::List(listing)),
        }
    }

    /// Read the next footer, or end the refresh where there is none.
    fn read_on(
        &mut self,
        prefix: &str,
        listing: Listing,
        discovered: Vec<(u64, i64)>,
        unread: Vec<(u64, i64)>,
        next: usize,
        now: u64,
    ) -> (step: Result<(Refresh, RefreshAction), Error>)
        requires
            old(self).wf(),
            next <= unread@.len(),
            !old(self).prefixes.index.poisoned,
        ensures
            final(self).wf(),
            final(self).differs_at(*old(self), prefix@),
            step matches Ok((after, _)) ==> after.wf(),
            next == unread@.len() ==> is_done(step) && final(self).prefixes.state_of(prefix@)
                == settled(old(self).prefixes.state_of(prefix@), listing, discovered@, now),
            next < unread@.len() ==> *final(self) == *old(self) && (step matches Ok((after, action))
                && action == RefreshAction::ReadFooter(unread@[next as int].0) && after.reads(
                listing,
                discovered@,
                unread@,
                next as int,
            )),
    {
        if next < unread.len() {
            let (seq, _) = unread[next];
            return Ok(
                (
                    Refresh::Reading { listing, discovered, unread, next },
                    RefreshAction::ReadFooter(seq),
                ),
            );
        }
        match self.finish_listing(prefix, listing, &discovered, now) {
            Ok(_) => Ok((Refresh::Begun, RefreshAction::Done)),
            Err(error) => Err(error),
        }
    }
}

impl Refresh {
    /// Whether the footers of listed segments are read, and which one is next.
    pub open spec fn reads(
        &self,
        listing: Listing,
        discovered: Seq<(u64, i64)>,
        unread: Seq<(u64, i64)>,
        next: int,
    ) -> bool {
        &&& self is Reading
        &&& self->listing == listing
        &&& self->discovered@ == discovered
        &&& self->unread@ == unread
        &&& self->next == next
    }
}

/// A probe goes on as it was told, behind the cursor that it began at: it reads the
/// segment that it says, reads the floor for the one that was absent, lists what it says,
/// and is done once the tail is resolved.
pub proof fn a_probe_does_what_it_says(cursor: u64, step: ProbeStep)
    ensures
        ({
            let (after, action) = probe_goes_on(cursor, step);
            &&& step matches ProbeStep::Read(seq) ==> action == RefreshAction::Read(seq) && after
                == (Refresh::Probing { cursor, seq })
            &&& step matches ProbeStep::ReadFloor(seq) ==> action is ReadFloor && after
                == (Refresh::Probing { cursor, seq })
            &&& step matches ProbeStep::List(listing) ==> action == RefreshAction::List(listing)
                && after == Refresh::Listing(listing)
            &&& step is Resolved <==> action is Done
        }),
{
}

} // verus!
