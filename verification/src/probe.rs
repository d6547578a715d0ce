//! Following the tail of a prefix, and taking what a listing of it shows.

use crate::clock::fresh;
use crate::codec::{footers_are_countable, segment_footer_in};
use crate::config::PREFIX_INDEX_RECONCILE_INTERVAL;
use crate::error::Error;
use crate::fence::{arranged, fenced, fenced_view};
use crate::index::{pruned_footer, CachedSegment};
use crate::ordmap::OrdMap;
use crate::refresh::{is_cursor, IndexState};
use crate::segment::{SegmentFooter, Substream};
use crate::store::DynoStore;
use vstd::prelude::*;
use vstd::string::*;

verus! {

/// Segments that a probe reads before it gives way to a listing.
pub const PROBE_WINDOW: u64 = 4;

/// Why a prefix is listed.
#[derive(Clone, Copy, Debug, PartialEq, Eq, Structural)]
pub enum ListReason {
    /// The whole prefix is due.
    Reconcile,
    /// Nothing is known of the prefix.
    Cold,
    /// A probe failed.
    ProbeError,
    /// Names behind the cursor were freed, so that absence proves nothing.
    FloorAhead,
    Undecodable,
    OversizedFooter,
    /// More segments are new than a probe reads.
    WindowExhausted,
}

impl ListReason {
    pub open spec fn name(self) -> Seq<char> {
        match self {
            ListReason::Reconcile => "reconcile"@,
            ListReason::Cold => "cold"@,
            ListReason::ProbeError => "probe_error"@,
            ListReason::FloorAhead => "floor_ahead"@,
            ListReason::Undecodable => "undecodable"@,
            ListReason::OversizedFooter => "oversized_footer"@,
            ListReason::WindowExhausted => "window_exhausted"@,
        }
    }

    pub fn as_str(&self) -> (name: &'static str)
        ensures
            name@ == self.name(),
    {
        match self {
            ListReason::Reconcile => "reconcile",
            ListReason::Cold => "cold",
            ListReason::ProbeError => "probe_error",
            ListReason::FloorAhead => "floor_ahead",
            ListReason::Undecodable => "undecodable",
            ListReason::OversizedFooter => "oversized_footer",
            ListReason::WindowExhausted => "window_exhausted",
        }
    }
}

/// A listing to make.
#[derive(Clone, Copy, Debug, PartialEq, Eq, Structural)]
pub struct Listing {
    /// Only segments behind this one are listed.
    pub start_after: Option<u64>,
    /// Whether what is not listed is dropped.
    pub reconcile: bool,
    pub reason: ListReason,
}

impl Listing {
    /// Whether the whole prefix is listed.
    pub open spec fn whole(self) -> bool {
        self.start_after is None
    }
}

/// What a refresh of an index begins with.
#[derive(Clone, Copy, Debug, PartialEq, Eq, Structural)]
pub enum RefreshPlan {
    /// The index is served as it is.
    Served,
    /// The segments behind this one are probed.
    Probe(u64),
    List(Listing),
}

/// What a probe does next.
#[derive(Clone, Copy, Debug, PartialEq, Eq, Structural)]
pub enum ProbeStep {
    /// Read the footer of this segment.
    Read(u64),
    /// The segment is absent: read the floor, and only now.
    ReadFloor(u64),
    /// The tail is where the index says, after this many new segments.
    Resolved(u64),
    /// List instead.
    List(Listing),
}

/// What the read of a footer answered.
#[derive(Debug)]
pub enum FooterReply {
    /// The end of the object, and when it was last modified.
    Found(Vec<u8>, i64),
    Absent,
    Failed,
}

/// What became of a listed segment's footer.
#[derive(Debug)]
pub enum FooterOutcome {
    Decoded(SegmentFooter),
    /// The object has no footer that can be read.
    Undecodable,
    /// The object was deleted after it was listed.
    Vanished,
}

impl FooterOutcome {
    /// The state after the outcome: a footer comes in, or the name is stepped over.
    pub open spec fn applied(self, state: IndexState, seq: u64, last_modified_ms: i64) -> IndexState {
        match self {
            FooterOutcome::Decoded(footer) => state.with_footer(seq, footer@, last_modified_ms),
            _ => IndexState { opaque: state.opaque.insert(seq), ..state },
        }
    }
}

impl DynoStore {
    /// Whether a listing of the whole prefix is due: of one that something is known
    /// of, and that was not listed as a whole for a while.
    pub open spec fn is_reconcile_due(&self, prefix: Seq<char>, now: u64) -> bool {
        let state = self.prefixes.state_of(prefix);
        (exists|seq: u64| #[trigger] state.resolves(seq)) && !fresh(
            state.reconciled_at,
            now,
            PREFIX_INDEX_RECONCILE_INTERVAL,
        )
    }

    /// Whether an index is served as it is.
    pub open spec fn is_current(&self, prefix: Seq<char>, now: u64) -> bool {
        fresh(
            self.prefixes.state_of(prefix).refreshed_at,
            now,
            self.tuning.watermark_hint_ttl,
        ) && !self.is_reconcile_due(prefix, now)
    }

    /// Whether this is how an index is brought up to date: not at all where it is
    /// current, by a listing of the whole prefix where one is due or where nothing is
    /// known, and by a probe behind its highest segment otherwise.
    pub open spec fn refreshes(
        &self,
        prefix: Seq<char>,
        force: bool,
        now: u64,
        plan: RefreshPlan,
    ) -> bool {
        let state = self.prefixes.state_of(prefix);
        let due = self.is_reconcile_due(prefix, now);
        let stays = !force && self.is_current(prefix, now);
        match plan {
            RefreshPlan::Served => stays,
            RefreshPlan::Probe(cursor) => !stays && !due && is_cursor(state, Some(cursor)),
            RefreshPlan::List(listing) => !stays && listing.whole() && if due {
                listing.reconcile && listing.reason == ListReason::Reconcile
            } else {
                is_cursor(state, None) && !listing.reconcile && listing.reason
                    == ListReason::Cold
            },
        }
    }

    /// Decide how an index is brought up to date.
    pub fn plan_refresh(&self, prefix: &str, force: bool, now: u64) -> (plan: Result<
        RefreshPlan,
        Error,
    >)
        requires
            self.wf(),
        ensures
            match plan {
                Ok(plan) => !self.prefixes.index.poisoned && self.refreshes(
                    prefix@,
                    force,
                    now,
                    plan,
                ),
                Err(error) => self.prefixes.index.poisoned && error == Error::Poison,
            },
    {
        let freshness = match self.prefix_index_freshness(prefix, now) {
            Ok(freshness) => freshness,
            Err(_) => {
                return Err(Error::Poison);
            },
        };
        if !force && freshness.fresh && !freshness.reconcile_due {
            return Ok(RefreshPlan::Served);
        }
        if freshness.reconcile_due {
            return Ok(
                RefreshPlan::List(
                    Listing { start_after: None, reconcile: true, reason: ListReason::Reconcile },
                ),
            );
        }
        match freshness.cursor {
            Some(cursor) => Ok(RefreshPlan::Probe(cursor)),
            None => Ok(
                RefreshPlan::List(
                    Listing { start_after: None, reconcile: false, reason: ListReason::Cold },
                ),
            ),
        }
    }

    /// Whether this is what follows the reply to a probe's read: the next read where a
    /// footer was found, which comes into the index; the floor where there is no
    /// segment; and a listing otherwise, or where the window is used up.
    pub open spec fn probed(
        &self,
        before: Self,
        prefix: Seq<char>,
        cursor: u64,
        seq: u64,
        reply: FooterReply,
        step: ProbeStep,
    ) -> bool {
        let giving_way = |reason: ListReason|
            ProbeStep::List(
                Listing { start_after: Some(cursor), reconcile: false, reason },
            );
        match reply {
            FooterReply::Found(bytes, last_modified_ms) => match segment_footer_in(bytes@) {
                Ok(Some(footer)) => {
                    &&& step == if seq == cursor + PROBE_WINDOW {
                        giving_way(ListReason::WindowExhausted)
                    } else {
                        ProbeStep::Read((seq + 1) as u64)
                    }
                    &&& self.prefixes.state_of(prefix) == if before.prefixes.index.poisoned {
                        before.prefixes.state_of(prefix)
                    } else {
                        before.prefixes.state_of(prefix).with_footer(
                            seq,
                            footer,
                            last_modified_ms,
                        )
                    }
                },
                Ok(None) => step == giving_way(ListReason::Undecodable) && *self
                    == before,
                Err(_) => step == giving_way(ListReason::OversizedFooter) && *self
                    == before,
            },
            FooterReply::Absent => step == ProbeStep::ReadFloor(seq) && *self == before,
            FooterReply::Failed => step == giving_way(ListReason::ProbeError)
                && *self == before,
        }
    }

    /// Take the reply to a probe's read of segment `seq`, and say what is next.
    /// A footer that was found comes into the index.
    pub fn probe_prefix_tail(
        &mut self,
        prefix: &str,
        cursor: u64,
        seq: u64,
        reply: FooterReply,
    ) -> (step: ProbeStep)
        requires
            old(self).wf(),
            cursor < seq <= cursor + PROBE_WINDOW <= u64::MAX,
        ensures
            final(self).wf(),
            final(self).differs_at(*old(self), prefix@),
            final(self).probed(*old(self), prefix@, cursor, seq, reply, step),
    {
        match reply {
            FooterReply::Found(bytes, last_modified_ms) => {
                proof {
                    footers_are_countable(bytes@);
                }
                match Self::decode_segment_footer(bytes.as_slice()) {
                    Ok(Some(footer)) => {
                        if !self.prefixes.index.poisoned {
                            let entry = self.prefixes.index_entry(prefix);
                            entry.insert_segment(seq, CachedSegment { footer, last_modified_ms });
                        }
                        if seq - cursor == PROBE_WINDOW {
                            Self::give_way(cursor, ListReason::WindowExhausted)
                        } else {
                            ProbeStep::Read(seq + 1)
                        }
                    },
                    Ok(None) => Self::give_way(cursor, ListReason::Undecodable),
                    Err(_) => Self::give_way(cursor, ListReason::OversizedFooter),
                }
            },
            FooterReply::Absent => ProbeStep::ReadFloor(seq),
            FooterReply::Failed => Self::give_way(cursor, ListReason::ProbeError),
        }
    }

    fn give_way(cursor: u64, reason: ListReason) -> (step: ProbeStep)
        ensures
            step == ProbeStep::List(
                (Listing { start_after: Some(cursor), reconcile: false, reason }),
            ),
    {
        ProbeStep::List(Listing { start_after: Some(cursor), reconcile: false, reason })
    }

    /// Whether this is what follows the floor that was read after a segment was found
    /// absent: the tail is resolved where the floor is not past it, and then the index
    /// is up to date; otherwise, or where there is no floor, the prefix is listed.
    pub open spec fn floored(
        &self,
        before: Self,
        prefix: Seq<char>,
        cursor: u64,
        seq: u64,
        floor: Option<u64>,
        now: u64,
        step: ProbeStep,
    ) -> bool {
        match floor {
            Some(floor) if floor <= seq => {
                &&& step == ProbeStep::Resolved((seq - cursor - 1) as u64)
                &&& self.prefixes.state_of(prefix) == if before.prefixes.index.poisoned {
                    before.prefixes.state_of(prefix)
                } else {
                    (IndexState { refreshed_at: Some(now), ..before.prefixes.state_of(prefix) })
                }
            },
            _ => {
                &&& step == ProbeStep::List(
                    (Listing {
                        start_after: Some(cursor),
                        reconcile: false,
                        reason: if floor is Some {
                            ListReason::FloorAhead
                        } else {
                            ListReason::ProbeError
                        },
                    }),
                )
                &&& *self == before
            },
        }
    }

    /// Take the floor that was read after segment `seq` was found absent. The tail
    /// is proved where the floor is not past it, and only then is the index
    /// brought up to date.
    pub fn probe_seq_floor(
        &mut self,
        prefix: &str,
        cursor: u64,
        seq: u64,
        floor: Option<u64>,
        now: u64,
    ) -> (step: ProbeStep)
        requires
            old(self).wf(),
            cursor < seq <= cursor + PROBE_WINDOW,
        ensures
            final(self).wf(),
            final(self).differs_at(*old(self), prefix@),
            final(self).floored(*old(self), prefix@, cursor, seq, floor, now, step),
    {
        let floor: u64 = match floor {
            Some(floor) => floor,
            None => {
                return Self::give_way(cursor, ListReason::ProbeError);
            },
        };
        if floor > seq {
            return Self::give_way(cursor, ListReason::FloorAhead);
        }
        if !self.prefixes.index.poisoned {
            let entry = self.prefixes.index_entry(prefix);
            entry.refreshed_at = Some(now);
        }
        ProbeStep::Resolved(seq - cursor - 1)
    }

    /// Of the segments that a listing showed, those whose footer is still to be
    /// read, in the order of the listing.
    pub fn footers_to_read(&self, prefix: &str, discovered: &Vec<(u64, i64)>) -> (unread: Result<
        Vec<(u64, i64)>,
        Error,
    >)
        requires
            self.wf(),
        ensures
            match unread {
                Ok(unread) => !self.prefixes.index.poisoned && unread@ == unresolved(
                    self.prefixes.state_of(prefix@),
                    discovered@,
                ),
                Err(error) => self.prefixes.index.poisoned && error == Error::Poison,
            },
    {
        if self.prefixes.index.poisoned {
            return Err(Error::Poison);
        }
        let ghost state = self.prefixes.state_of(prefix@);
        let held = self.prefixes.index.map.get(&String::from_str(prefix));
        let mut unread: Vec<(u64, i64)> = Vec::new();
        let mut at: usize = 0;
        while at < discovered.len()
            invariant
                self.wf(),
                state == self.prefixes.state_of(prefix@),
                match held {
                    Some(index) => self.prefixes.index.at(prefix@) == Some(*index),
                    None => self.prefixes.index.at(prefix@) is None,
                },
                at <= discovered@.len(),
                unread@ == unresolved(state, discovered@.take(at as int)),
            decreases discovered@.len() - at,
        {
            let (seq, _) = discovered[at];
            let known = match held {
                Some(index) => index.segments.contains(&seq) || index.opaque.contains(&seq),
                None => false,
            };
            assert(known == state.resolves(seq));
            assert(discovered@.take(at + 1).drop_last() =~= discovered@.take(at as int));
            if !known {
                unread.push(discovered[at]);
            }
            at = at + 1;
        }
        assert(discovered@.take(at as int) =~= discovered@);
        Ok(unread)
    }

    /// Take the footer of a listed segment, or that it cannot be read. In the
    /// latter case the answer is whether the name was not stepped over before.
    pub fn commit_footer(
        &mut self,
        prefix: &str,
        seq: u64,
        last_modified_ms: i64,
        outcome: FooterOutcome,
    ) -> (stepped_over: Result<bool, Error>)
        requires
            old(self).wf(),
            outcome matches FooterOutcome::Decoded(footer) ==> footer@.entries.len() <= u32::MAX,
        ensures
            final(self).wf(),
            final(self).differs_at(*old(self), prefix@),
            old(self).prefixes.index.answers(
                stepped_over,
                !(outcome is Decoded) && !old(self).prefixes.state_of(prefix@).opaque.contains(seq),
            ),
            final(self).prefixes.state_of(prefix@) == if old(self).prefixes.index.poisoned {
                old(self).prefixes.state_of(prefix@)
            } else {
                outcome.applied(old(self).prefixes.state_of(prefix@), seq, last_modified_ms)
            },
    {
        if self.prefixes.index.poisoned {
            return Err(Error::Poison);
        }
        let entry = self.prefixes.index_entry(prefix);
        match outcome {
            FooterOutcome::Decoded(footer) => {
                entry.insert_segment(seq, CachedSegment { footer, last_modified_ms });
                Ok(false)
            },
            _ => {
                let ghost before = *entry;
                let held = entry.opaque.insert(seq, ());
                proof {
                    assert(entry.opaque@.dom() =~= before.opaque@.dom().insert(seq));
                    assert(entry.state() =~= (IndexState {
                        opaque: before.state().opaque.insert(seq),
                        ..before.state()
                    }));
                }
                Ok(held.is_none())
            },
        }
    }

    /// End a refresh by listing: the index is up to date, and of a reconciling one
    /// what the listing did not show below its own highest segment is dropped.
    pub fn finish_listing(
        &mut self,
        prefix: &str,
        listing: Listing,
        discovered: &Vec<(u64, i64)>,
        now: u64,
    ) -> (done: Result<(), Error>)
        requires
            old(self).wf(),
        ensures
            final(self).wf(),
            final(self).differs_at(*old(self), prefix@),
            old(self).prefixes.index.answers(done, ()),
            final(self).prefixes.state_of(prefix@) == if old(self).prefixes.index.poisoned {
                old(self).prefixes.state_of(prefix@)
            } else {
                settled(old(self).prefixes.state_of(prefix@), listing, discovered@, now)
            },
    {
        if self.prefixes.index.poisoned {
            return Err(Error::Poison);
        }
        let entry = self.prefixes.index_entry(prefix);
        let ghost before = entry.state();
        entry.refreshed_at = Some(now);
        entry.generation = entry.generation.wrapping_add(1);
        if listing.reconcile && discovered.len() > 0 {
            let (live, max) = live_of(discovered);
            let shown = &live;
            let keep = |seq: u64| -> (keeps: bool)
                ensures
                    keeps == (seq >= max || shown@.dom().contains(seq)),
                { seq >= max || shown.contains(&seq) };
            let ghost held = *entry;
            let _ = entry.retain_segments(keep);
            proof {
                let still = still_listed(discovered@);
                assert forall|seq: u64| #[trigger] held.segments@.dom().contains(seq) implies (
                entry.segments@.dom().contains(seq) <==> still.contains(seq)) by {
                    assert(call_ensures(keep, (seq,), entry.segments@.dom().contains(seq)));
                }
                assert(entry.contents() =~= held.contents().restrict(still));
            }
            let ghost thinned = *entry;
            let keep_name = |seq: &u64, _unit: &()| -> (keeps: bool)
                ensures
                    keeps == (*seq >= max || shown@.dom().contains(*seq)),
                { *seq >= max || shown.contains(seq) };
            entry.opaque.keep_where(
                keep_name,
                Ghost(|seq: u64, unit: ()| seq >= max || shown@.dom().contains(seq)),
            );
            proof {
                let still = still_listed(discovered@);
                assert(entry.opaque@.dom() =~= thinned.opaque@.dom().intersect(still));
            }
        }
        if listing.start_after.is_none() {
            entry.reconciled_at = Some(now);
        }
        assert(entry.state() =~= settled(before, listing, discovered@, now));
        Ok(())
    }
}

/// Of listed segments, those that the index does not know, in order.
pub open spec fn unresolved(state: IndexState, discovered: Seq<(u64, i64)>) -> Seq<(u64, i64)>
    decreases discovered.len(),
{
    if discovered.len() == 0 {
        Seq::empty()
    } else if state.resolves(discovered.last().0) {
        unresolved(state, discovered.drop_last())
    } else {
        unresolved(state, discovered.drop_last()).push(discovered.last())
    }
}

/// Whether a listing showed the sequence.
pub open spec fn shows(discovered: Seq<(u64, i64)>, seq: u64) -> bool {
    exists|i: int| 0 <= i < discovered.len() && (#[trigger] discovered[i]).0 == seq
}

/// The sequences that a listing does not prove retired: those that it showed, and
/// those that none it showed is above.
pub open spec fn still_listed(discovered: Seq<(u64, i64)>) -> Set<u64> {
    Set::new(
        |seq: u64|
            shows(discovered, seq) || forall|other: u64| #[trigger]
                shows(discovered, other) ==> other <= seq,
    )
}

/// The state after a listing was taken.
pub open spec fn settled(
    state: IndexState,
    listing: Listing,
    discovered: Seq<(u64, i64)>,
    now: u64,
) -> IndexState {
    let prunes = listing.reconcile && discovered.len() > 0;
    IndexState {
        segments: if prunes {
            state.segments.restrict(still_listed(discovered))
        } else {
            state.segments
        },
        opaque: if prunes {
            state.opaque.intersect(still_listed(discovered))
        } else {
            state.opaque
        },
        refreshed_at: Some(now),
        reconciled_at: if listing.whole() {
            Some(now)
        } else {
            state.reconciled_at
        },
        generation: state.generation.wrapping_add(1),
    }
}

/// The sequences that a listing showed, and the highest of them.
fn live_of(discovered: &Vec<(u64, i64)>) -> (live: (OrdMap<u64, ()>, u64))
    requires
        discovered@.len() > 0,
    ensures
        live.0.wf(),
        forall|seq: u64| #[trigger] live.0@.dom().contains(seq) <==> shows(discovered@, seq),
        shows(discovered@, live.1),
        forall|seq: u64| #[trigger] shows(discovered@, seq) ==> seq <= live.1,
        forall|seq: u64| #[trigger]
            still_listed(discovered@).contains(seq) <==> (seq >= live.1
                || live.0@.dom().contains(seq)),
{
    let mut live: OrdMap<u64, ()> = OrdMap::new();
    let mut max: u64 = discovered[0].0;
    let mut at: usize = 0;
    while at < discovered.len()
        invariant
            at <= discovered@.len(),
            discovered@.len() > 0,
            live.wf(),
            forall|seq: u64| #[trigger]
                live@.dom().contains(seq) <==> shows(discovered@.take(at as int), seq),
            shows(discovered@, max),
            forall|seq: u64| #[trigger] live@.dom().contains(seq) ==> seq <= max,
        decreases discovered@.len() - at,
    {
        let seq: u64 = discovered[at].0;
        let ghost before = live@.dom();
        let _ = live.insert(seq, ());
        if seq > max {
            max = seq;
        }
        proof {
            let done = discovered@.take(at as int);
            let more = discovered@.take(at + 1);
            assert forall|s: u64| #[trigger] live@.dom().contains(s) <==> shows(more, s) by {
                assert(before.contains(s) <==> shows(done, s));
                if shows(more, s) {
                    let i = choose|i: int| 0 <= i < more.len() && (#[trigger] more[i]).0 == s;
                    if i < at {
                        assert(done[i].0 == s);
                    }
                }
                if shows(done, s) {
                    let i = choose|i: int| 0 <= i < done.len() && (#[trigger] done[i]).0 == s;
                    assert(more[i].0 == s);
                }
                assert(more[at as int].0 == seq);
            }
            assert(discovered@[at as int].0 == seq);
        }
        at = at + 1;
    }
    proof {
        assert(discovered@.take(at as int) =~= discovered@);
        assert forall|seq: u64| #[trigger] still_listed(discovered@).contains(seq) <==> (seq >= max
            || live@.dom().contains(seq)) by {
            assert(shows(discovered@, max));
            if seq >= max {
                assert forall|other: u64| #[trigger] shows(discovered@, other) implies other <= seq by {
                    assert(live@.dom().contains(other));
                }
            }
        }
        assert forall|seq: u64| #[trigger] shows(discovered@, seq) implies seq <= max by {
            assert(live@.dom().contains(seq));
        }
    }
    (live, max)
}

impl DynoStore {
    /// Take the footer of one segment that is known to exist. The answer is
    /// whether it came in; where it did not, a refresh is to find out why.
    pub fn fold_segment_footer(&mut self, prefix: &str, seq: u64, reply: FooterReply, now: u64) -> (
    folded: bool)
        requires
            old(self).wf(),
        ensures
            final(self).wf(),
            final(self).differs_at(*old(self), prefix@),
            match reply {
                FooterReply::Found(bytes, last_modified_ms) => match segment_footer_in(bytes@) {
                    Ok(Some(footer)) => {
                        &&& folded == !old(self).prefixes.index.poisoned
                        &&& folded ==> final(self).prefixes.state_of(prefix@) == (IndexState {
                            refreshed_at: Some(now),
                            ..old(self).prefixes.state_of(prefix@).with_footer(
                                seq,
                                footer,
                                last_modified_ms,
                            )
                        })
                        &&& !folded ==> *final(self) == *old(self)
                    },
                    _ => !folded && *final(self) == *old(self),
                },
                _ => !folded && *final(self) == *old(self),
            },
    {
        match reply {
            FooterReply::Found(bytes, last_modified_ms) => {
                proof {
                    footers_are_countable(bytes@);
                }
                match Self::decode_segment_footer(bytes.as_slice()) {
                    Ok(Some(footer)) => {
                        if self.prefixes.index.poisoned {
                            return false;
                        }
                        let entry = self.prefixes.index_entry(prefix);
                        entry.insert_segment(seq, CachedSegment { footer, last_modified_ms });
                        entry.refreshed_at = Some(now);
                        true
                    },
                    _ => false,
                }
            },
            _ => false,
        }
    }

    /// Replace the cached footer of a segment by the object's own, as a whole: an
    /// entry of the cached one did not belong to the object. When the segment was
    /// appended stays as it was, where that is known.
    pub fn adopt_segment_trailer(
        &mut self,
        prefix: &str,
        seq: u64,
        footer: SegmentFooter,
        now: u64,
    ) -> (done: Result<(), Error>)
        requires
            old(self).wf(),
            footer@.entries.len() <= u32::MAX,
            now <= i64::MAX,
        ensures
            final(self).wf(),
            final(self).differs_at(*old(self), prefix@),
            old(self).prefixes.index.answers(done, ()),
            final(self).prefixes.state_of(prefix@) == if old(self).prefixes.index.poisoned {
                old(self).prefixes.state_of(prefix@)
            } else {
                let held = old(self).prefixes.state_of(prefix@).segments;
                (IndexState {
                    refreshed_at: Some(now),
                    ..old(self).prefixes.state_of(prefix@).with_footer(
                        seq,
                        footer@,
                        if held.dom().contains(seq) {
                            held[seq].last_modified_ms
                        } else {
                            now as i64
                        },
                    )
                })
            },
    {
        if self.prefixes.index.poisoned {
            return Err(Error::Poison);
        }
        let last_modified_ms: i64 = match self.prefixes.index.map.get(&String::from_str(prefix)) {
            Some(index) => match index.segments.get(&seq) {
                Some(cached) => cached.last_modified_ms,
                None => now as i64,
            },
            None => now as i64,
        };
        self.index_insert(prefix, seq, footer, last_modified_ms, now)
    }

    /// The next offset of a sub-stream's partition, as its segments and the
    /// persisted watermark show it. A partition whose segments are gone does not
    /// go back.
    pub fn recover_substream_next_offset(
        &self,
        prefix: &str,
        substream: &Substream,
        partition: i32,
        persisted_floor: i64,
    ) -> (next: Result<i64, Error>)
        requires
            self.wf(),
            self.offsets_in_range(prefix@, (substream@, partition)),
        ensures
            match next {
                Ok(next) => {
                    let served = fenced(
                        arranged(self.candidates_of(prefix@, (substream@, partition))),
                    );
                    let tail = if served.len() > 0 {
                        served.last().served_to
                    } else {
                        0
                    };
                    &&& !self.prefixes.index.poisoned
                    &&& next == if tail >= persisted_floor {
                        tail
                    } else {
                        persisted_floor as int
                    }
                },
                Err(error) => self.prefixes.index.poisoned && error == Error::Poison,
            },
    {
        let served = match self.valid_substream_segments(prefix, substream, partition) {
            Ok(served) => served,
            Err(_) => {
                return Err(Error::Poison);
            },
        };
        let mut tail: i64 = 0;
        if served.len() > 0 {
            assert(fenced_view(served@).last() == served@[served@.len() - 1]@);
            tail = served[served.len() - 1].end();
        }
        if tail >= persisted_floor {
            Ok(tail)
        } else {
            Ok(persisted_floor)
        }
    }

    /// The lowest offset of a sub-stream's partition that a segment holds.
    pub fn segment_region_start(&self, prefix: &str, substream: &Substream, partition: i32) -> (
    start: Result<Option<i64>, Error>)
        requires
            self.wf(),
            self.offsets_in_range(prefix@, (substream@, partition)),
        ensures
            match start {
                Ok(start) => {
                    let served = fenced(
                        arranged(self.candidates_of(prefix@, (substream@, partition))),
                    );
                    &&& !self.prefixes.index.poisoned
                    &&& start == if served.len() > 0 {
                        Some(served[0].entry.base_offset)
                    } else {
                        None
                    }
                },
                Err(error) => self.prefixes.index.poisoned && error == Error::Poison,
            },
    {
        let served = match self.valid_substream_segments(prefix, substream, partition) {
            Ok(served) => served,
            Err(_) => {
                return Err(Error::Poison);
            },
        };
        if served.len() > 0 {
            assert(fenced_view(served@)[0] == served@[0]@);
            Ok(Some(served[0].entry.base_offset))
        } else {
            Ok(None)
        }
    }
}

/// What holds of the segments of a prefix and of its floor at every time: a name
/// below a live segment is live, or below the floor.
pub open spec fn gapless(live: Set<u64>, floor: u64) -> bool {
    forall|name: u64, seq: u64|
        #![trigger live.contains(seq), live.contains(name)]
        live.contains(seq) && name < seq ==> live.contains(name) || name < floor
}

/// Whether `tail` is the highest live segment.
pub open spec fn is_tail(live: Set<u64>, tail: Option<u64>) -> bool {
    match tail {
        Some(tail) => live.contains(tail) && forall|seq: u64| #[trigger]
            live.contains(seq) ==> seq <= tail,
        None => forall|seq: u64| !#[trigger] live.contains(seq),
    }
}

/// The only sequence that a segment is created at.
pub open spec fn next_seq(tail: Option<u64>, floor: u64) -> int {
    let behind: int = match tail {
        Some(tail) => tail + 1,
        None => 0,
    };
    if behind >= floor {
        behind
    } else {
        floor as int
    }
}

/// A create behind the tail, or at the floor, leaves no gap.
pub proof fn creating_leaves_no_gap(live: Set<u64>, floor: u64, tail: Option<u64>)
    requires
        gapless(live, floor),
        is_tail(live, tail),
        next_seq(tail, floor) <= u64::MAX,
    ensures
        gapless(live.insert(next_seq(tail, floor) as u64), floor),
{
    let next = next_seq(tail, floor) as u64;
    let more = live.insert(next);
    assert forall|name: u64, seq: u64|
        #![trigger more.contains(seq), more.contains(name)]
        more.contains(seq) && name < seq implies more.contains(name) || name < floor by {
        if seq == next {
            if let Some(tail) = tail {
                if name < tail {
                    assert(live.contains(tail));
                    assert(live.contains(name) || name < floor);
                }
            }
        } else {
            assert(live.contains(seq));
            assert(live.contains(name) || name < floor);
        }
    }
}

/// Deleting segments below the floor, and raising the floor, leave no gap.
pub proof fn retiring_leaves_no_gap(live: Set<u64>, floor: u64, raised: u64, gone: Set<u64>)
    requires
        gapless(live, floor),
        floor <= raised,
        forall|seq: u64| #[trigger] gone.contains(seq) ==> seq < raised,
    ensures
        gapless(live.difference(gone), raised),
{
    let less = live.difference(gone);
    assert forall|name: u64, seq: u64|
        #![trigger less.contains(seq), less.contains(name)]
        less.contains(seq) && name < seq implies less.contains(name) || name < raised by {
        assert(live.contains(seq));
        assert(live.contains(name) || name < floor);
    }
}

/// What a probe proves: where the segment behind the cursor is absent, and a floor
/// that was read no earlier is not past it, no segment is behind the cursor.
pub proof fn absence_under_the_floor_ends_the_tail(
    live: Set<u64>,
    floor: u64,
    read: u64,
    absent: u64,
    seq: u64,
)
    requires
        gapless(live, floor),
        floor <= read <= absent,
        !live.contains(absent),
        absent <= seq,
    ensures
        !live.contains(seq),
{
    if live.contains(seq) {
        assert(live.contains(absent) || absent < floor);
    }
}

/// A reconciling listing drops no segment that is live: what was created while it
/// was made is above all that it showed, and what it showed stays.
pub proof fn reconciling_keeps_what_is_live(
    state: IndexState,
    listing: Listing,
    discovered: Seq<(u64, i64)>,
    now: u64,
    seq: u64,
)
    requires
        state.segments.dom().contains(seq),
        shows(discovered, seq) || forall|other: u64| #[trigger]
            shows(discovered, other) ==> other <= seq,
    ensures
        settled(state, listing, discovered, now).segments.dom().contains(seq),
        settled(state, listing, discovered, now).segments[seq] == state.segments[seq],
{
    assert(still_listed(discovered).contains(seq));
}

/// A reconciling listing drops every name that it proves retired.
pub proof fn reconciling_drops_what_is_retired(
    state: IndexState,
    listing: Listing,
    discovered: Seq<(u64, i64)>,
    now: u64,
    seq: u64,
    above: u64,
)
    requires
        listing.reconcile,
        !shows(discovered, seq),
        shows(discovered, above),
        seq < above,
    ensures
        !settled(state, listing, discovered, now).resolves(seq),
{
    assert(!still_listed(discovered).contains(seq));
}

/// How an index is brought up to date. It is served as it is only if nobody forces it
/// and it was refreshed within its time; a prefix that nothing is known of is listed as
/// a whole, and so is one that was not reconciled within the interval; any other is
/// probed behind the highest of its segments.
pub proof fn how_an_index_is_refreshed(
    store: DynoStore,
    prefix: Seq<char>,
    force: bool,
    now: u64,
    plan: RefreshPlan,
)
    requires
        store.refreshes(prefix, force, now, plan),
    ensures
        ({
            let state = store.prefixes.state_of(prefix);
            let known = exists|seq: u64| #[trigger] holds_name(state, seq);
            let young = state.refreshed_at is Some && state.refreshed_at->0 <= now && now
                - state.refreshed_at->0 < store.tuning.watermark_hint_ttl;
            let whole = state.reconciled_at is Some && state.reconciled_at->0 <= now && now
                - state.reconciled_at->0 < PREFIX_INDEX_RECONCILE_INTERVAL;
            &&& plan is Served <==> !force && young && (whole || !known)
            &&& plan is Probe <==> !(!force && young && (whole || !known)) && known && whole
            &&& plan is Probe ==> holds_name(state, plan->Probe_0) && forall|seq: u64| #[trigger]
                holds_name(state, seq) ==> seq <= plan->Probe_0
            &&& plan is List ==> plan->List_0.start_after is None
            &&& plan is List ==> (plan->List_0.reconcile <==> known)
            &&& plan is List && known ==> plan->List_0.reason == ListReason::Reconcile
            &&& plan is List && !known ==> plan->List_0.reason == ListReason::Cold
        }),
{
    let state = store.prefixes.state_of(prefix);
    assert forall|seq: u64| #[trigger] holds_name(state, seq) == state.resolves(seq) by {}
    if exists|seq: u64| #[trigger] state.resolves(seq) {
        let seq = choose|seq: u64| #[trigger] state.resolves(seq);
        assert(holds_name(state, seq));
    }
    if exists|seq: u64| #[trigger] holds_name(state, seq) {
        let seq = choose|seq: u64| #[trigger] holds_name(state, seq);
        assert(state.resolves(seq));
    }
}

/// Whether an index holds a sequence, as a segment or as a name that is taken.
pub open spec fn holds_name(state: IndexState, seq: u64) -> bool {
    state.segments.dom().contains(seq) || state.opaque.contains(seq)
}

/// What a probe does next. It reads on, one segment after the other, while it finds
/// footers, and gives way to a listing behind its cursor once its window is used up, or
/// where it finds what is no footer or is not answered; an absent segment has the floor
/// read.
pub proof fn how_a_probe_goes_on(
    store: DynoStore,
    before: DynoStore,
    prefix: Seq<char>,
    cursor: u64,
    seq: u64,
    reply: FooterReply,
    step: ProbeStep,
)
    requires
        store.probed(before, prefix, cursor, seq, reply, step),
        cursor < seq <= cursor + PROBE_WINDOW < u64::MAX,
    ensures
        step matches ProbeStep::Read(next) ==> next == seq + 1 && next <= cursor + PROBE_WINDOW
            && reply is Found,
        step matches ProbeStep::ReadFloor(absent) ==> absent == seq && reply is Absent,
        step matches ProbeStep::List(listing) ==> listing.start_after == Some(cursor)
            && !listing.reconcile,
        step !is Resolved,
        reply is Absent ==> step is ReadFloor,
        reply is Failed ==> step is List && step->List_0.reason == ListReason::ProbeError,
        reply is Found && seq < cursor + PROBE_WINDOW && segment_footer_in(reply->0@) is Ok
            && segment_footer_in(reply->0@)->Ok_0 is Some ==> step is Read,
        reply is Found && seq == cursor + PROBE_WINDOW && segment_footer_in(reply->0@) is Ok
            && segment_footer_in(reply->0@)->Ok_0 is Some ==> step is List
            && step->List_0.reason == ListReason::WindowExhausted,
        reply is Found && segment_footer_in(reply->0@) is Ok && segment_footer_in(
            reply->0@,
        )->Ok_0 is None ==> step is List && step->List_0.reason == ListReason::Undecodable,
        reply is Found && segment_footer_in(reply->0@) is Err ==> step is List
            && step->List_0.reason == ListReason::OversizedFooter,
{
}

/// A footer that a probe finds comes into the index under its sequence; a reply without
/// one changes nothing.
pub proof fn a_probed_footer_is_indexed(
    store: DynoStore,
    before: DynoStore,
    prefix: Seq<char>,
    cursor: u64,
    seq: u64,
    reply: FooterReply,
    step: ProbeStep,
)
    requires
        store.probed(before, prefix, cursor, seq, reply, step),
        !before.prefixes.index.poisoned,
    ensures
        ({
            let state = store.prefixes.state_of(prefix);
            let was = before.prefixes.state_of(prefix);
            if reply is Found && segment_footer_in(reply->0@) is Ok && segment_footer_in(
                reply->0@,
            )->Ok_0 is Some {
                &&& state.segments.dom().contains(seq)
                &&& state.segments[seq].last_modified_ms == reply->1
                &&& state.segments[seq].footer == pruned_footer(
                    segment_footer_in(reply->0@)->Ok_0->0,
                )
                &&& forall|other: u64|
                    other != seq ==> (#[trigger] state.segments.dom().contains(other)
                        <==> was.segments.dom().contains(other)) && state.segments[other]
                        == was.segments[other]
                &&& state.opaque == was.opaque
                &&& state.refreshed_at == was.refreshed_at
            } else {
                state == was
            }
        }),
{
}

/// A tail is resolved only where a floor was read that is not past the absent segment,
/// and the index is then up to date as of now; where the floor is past it, or there is
/// none, the prefix is listed behind the cursor and the index is as it was.
pub proof fn when_a_tail_is_resolved(
    store: DynoStore,
    before: DynoStore,
    prefix: Seq<char>,
    cursor: u64,
    seq: u64,
    floor: Option<u64>,
    now: u64,
    step: ProbeStep,
)
    requires
        store.floored(before, prefix, cursor, seq, floor, now, step),
        cursor < seq,
    ensures
        step is Resolved <==> floor is Some && floor->0 <= seq,
        step matches ProbeStep::Resolved(found) ==> found == seq - cursor - 1,
        step is Resolved && !before.prefixes.index.poisoned ==> store.prefixes.state_of(
            prefix,
        ).refreshed_at == Some(now) && store.prefixes.state_of(prefix).segments
            == before.prefixes.state_of(prefix).segments,
        step !is Resolved ==> step is List && step->List_0.start_after == Some(cursor)
            && !step->List_0.reconcile && store == before,
        floor is None ==> step is List && step->List_0.reason == ListReason::ProbeError,
        floor is Some && floor->0 > seq ==> step is List && step->List_0.reason
            == ListReason::FloorAhead,
{
}

/// Of a listing exactly the footers are read that the index does not know, in the order
/// listed.
pub proof fn only_what_is_unknown_is_read(
    state: IndexState,
    discovered: Seq<(u64, i64)>,
    listed: (u64, i64),
)
    ensures
        unresolved(state, discovered).contains(listed) <==> discovered.contains(listed)
            && !state.segments.dom().contains(listed.0) && !state.opaque.contains(listed.0),
        unresolved(state, discovered).len() <= discovered.len(),
        (forall|i: int, j: int|
            #![trigger discovered[i], discovered[j]]
            0 <= i < j < discovered.len() ==> discovered[i].0 < discovered[j].0) ==> forall|
            i: int,
            j: int,
        |
            #![trigger unresolved(state, discovered)[i], unresolved(state, discovered)[j]]
            0 <= i < j < unresolved(state, discovered).len() ==> unresolved(state, discovered)[i].0
                < unresolved(state, discovered)[j].0,
    decreases discovered.len(),
{
    if discovered.len() > 0 {
        let init = discovered.drop_last();
        let end = discovered.len() - 1;
        let before = unresolved(state, init);
        let all = unresolved(state, discovered);
        only_what_is_unknown_is_read(state, init, listed);
        assert(state.resolves(discovered[end].0) == (state.segments.dom().contains(
            discovered[end].0,
        ) || state.opaque.contains(discovered[end].0)));
        if init.contains(listed) {
            let i = choose|i: int| 0 <= i < init.len() && init[i] == listed;
            assert(discovered[i] == listed);
        }
        if discovered.contains(listed) && !init.contains(listed) {
            let i = choose|i: int| 0 <= i < discovered.len() && discovered[i] == listed;
            if i < end {
                assert(init[i] == listed);
            }
        }
        if before.contains(listed) {
            let i = choose|i: int| 0 <= i < before.len() && before[i] == listed;
            assert(all[i] == listed);
        }
        if all.contains(listed) && !before.contains(listed) {
            let i = choose|i: int| 0 <= i < all.len() && all[i] == listed;
            if i < before.len() {
                assert(before[i] == listed);
            }
            assert(discovered[end] == listed);
        }
        if !state.resolves(discovered[end].0) {
            assert(all[all.len() - 1] == discovered[end]);
        }
        if forall|i: int, j: int|
            #![trigger discovered[i], discovered[j]]
            0 <= i < j < discovered.len() ==> discovered[i].0 < discovered[j].0 {
            assert forall|i: int, j: int|
                #![trigger init[i], init[j]]
                0 <= i < j < init.len() implies init[i].0 < init[j].0 by {
                assert(discovered[i].0 < discovered[j].0);
            }
            only_what_is_unknown_is_read(state, init, listed);
            assert forall|i: int, j: int|
                #![trigger all[i], all[j]]
                0 <= i < j < all.len() implies all[i].0 < all[j].0 by {
                if j < before.len() {
                    assert(before[i].0 < before[j].0);
                } else {
                    assert(before.contains(before[i]));
                    only_what_is_unknown_is_read(state, init, before[i]);
                    let k = choose|k: int| 0 <= k < init.len() && init[k] == before[i];
                    assert(discovered[k].0 < discovered[end].0);
                }
            }
        }
    }
}

/// What a listing leaves of an index: nothing that it did not have, and all of it unless
/// the listing reconciles and showed something. It is refreshed as of now, and
/// reconciled as of now if and only if the whole prefix was listed.
pub proof fn a_listing_only_drops(
    state: IndexState,
    listing: Listing,
    discovered: Seq<(u64, i64)>,
    now: u64,
    seq: u64,
)
    ensures
        ({
            let after = settled(state, listing, discovered, now);
            &&& after.segments.dom().contains(seq) ==> state.segments.dom().contains(seq)
                && after.segments[seq] == state.segments[seq]
            &&& after.opaque.contains(seq) ==> state.opaque.contains(seq)
            &&& !listing.reconcile || discovered.len() == 0 ==> after.segments == state.segments
                && after.opaque == state.opaque
            &&& listing.reconcile && (exists|i: int|
                0 <= i < discovered.len() && (#[trigger] discovered[i]).0 == seq) ==> (
            after.segments.dom().contains(seq) <==> state.segments.dom().contains(seq)) && (
            after.opaque.contains(seq) <==> state.opaque.contains(seq))
            &&& after.refreshed_at == Some(now)
            &&& listing.start_after is None ==> after.reconciled_at == Some(now)
            &&& listing.start_after is Some ==> after.reconciled_at == state.reconciled_at
            &&& after.generation != state.generation
        }),
{
    let after = settled(state, listing, discovered, now);
    if exists|i: int| 0 <= i < discovered.len() && (#[trigger] discovered[i]).0 == seq {
        assert(shows(discovered, seq));
    }
    assert(state.generation.wrapping_add(1) != state.generation);
}

/// What a read footer does to an index: one that was decoded comes in under its
/// sequence, and any other name is known to be taken, so that neither is read again;
/// nothing else changes.
pub proof fn what_was_read_is_not_read_again(
    outcome: FooterOutcome,
    state: IndexState,
    seq: u64,
    last_modified_ms: i64,
    other: u64,
)
    requires
        other != seq,
    ensures
        ({
            let after = outcome.applied(state, seq, last_modified_ms);
            &&& after.segments.dom().contains(seq) || after.opaque.contains(seq)
            &&& outcome is Decoded ==> after.segments.dom().contains(seq)
                && after.segments[seq].last_modified_ms == last_modified_ms
                && after.segments[seq].footer == pruned_footer(outcome->Decoded_0@)
                && after.opaque == state.opaque
            &&& outcome !is Decoded ==> after.segments == state.segments
            &&& after.segments.dom().contains(other) <==> state.segments.dom().contains(other)
            &&& after.segments[other] == state.segments[other]
            &&& after.opaque.contains(other) <==> state.opaque.contains(other)
            &&& after.refreshed_at == state.refreshed_at
            &&& after.reconciled_at == state.reconciled_at
            &&& after.generation == state.generation
        }),
{
}

} // verus!
