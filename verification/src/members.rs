//! What a group is: its composition, its members and its assignment, read from
//! objects of their own and put together again.

use crate::ordmap::OrdMap;
use crate::store::DynoStore;
use vstd::prelude::*;
use vstd::string::*;

verus! {

/// A member, as a group's composition names it.
#[derive(Debug)]
pub struct GenerationMember {
    pub group_instance_id: Option<String>,
}

/// The composition of a group.
#[derive(Debug)]
pub struct GenerationDoc {
    pub generation_id: i32,
    pub session_timeout_ms: i32,
    pub rebalance_timeout_ms: Option<i32>,
    pub members: OrdMap<String, GenerationMember>,
    pub leader: Option<String>,
    pub protocol_type: Option<String>,
    pub protocol_name: Option<String>,
    pub skip_assignment: Option<bool>,
    pub inception_ms: i64,
}

/// The assignment of a generation.
#[derive(Debug)]
pub struct AssignmentDoc {
    pub generation_id: i32,
    pub protocol_type: String,
    pub protocol_name: String,
    pub assignments: OrdMap<String, Vec<u8>>,
}

/// What a member joined with.
#[derive(Debug)]
pub struct JoinGroupResponseMember {
    pub member_id: String,
    pub group_instance_id: Option<String>,
    pub metadata: Vec<u8>,
}

/// The answer to a read of a member's document.
#[derive(Debug)]
pub enum MemberReply {
    /// The document, and whether the member's session is over by the clock.
    Read { join_response: JoinGroupResponseMember, last_contact_ms: i64, expired: bool },
    /// There is no document.
    Absent,
    /// The document could not be read.
    Unreadable,
}

/// A member of a group.
#[derive(Debug)]
pub struct GroupMember {
    pub join_response: JoinGroupResponseMember,
    /// When the member was last heard of, in milliseconds since the epoch.
    pub last_contact: Option<u64>,
}

/// The state of a group.
#[derive(Debug)]
pub enum GroupState {
    Forming {
        protocol_type: Option<String>,
        protocol_name: Option<String>,
        leader: Option<String>,
    },
    Formed {
        protocol_type: String,
        protocol_name: String,
        leader: String,
        assignments: OrdMap<String, Vec<u8>>,
    },
}

/// A group.
#[derive(Debug)]
pub struct GroupDetail {
    pub session_timeout_ms: i32,
    pub rebalance_timeout_ms: Option<i32>,
    pub members: OrdMap<String, GroupMember>,
    pub generation_id: i32,
    pub skip_assignment: Option<bool>,
    /// When the group was formed, in milliseconds since the epoch.
    pub inception: u64,
    pub state: GroupState,
}

/// A time of the log as a time since the epoch.
pub open spec fn time_of(ms: i64) -> Option<u64> {
    if ms >= 0 {
        Some(ms as u64)
    } else {
        None
    }
}

fn to_system_time(ms: i64) -> (time: Option<u64>)
    ensures
        time == time_of(ms),
{
    if ms >= 0 {
        Some(ms as u64)
    } else {
        None
    }
}

/// Whether a member is taken as one. Only a document that was read condemns its
/// member: not to know is no verdict.
pub open spec fn is_live(reply: MemberReply) -> bool {
    match reply {
        MemberReply::Read { join_response, last_contact_ms, expired } => !expired,
        MemberReply::Absent => true,
        MemberReply::Unreadable => true,
    }
}

/// Whether some member is live.
pub open spec fn some_live(replies: Seq<MemberReply>) -> bool {
    exists|i: int| 0 <= i < replies.len() && is_live(#[trigger] replies[i])
}

/// Whether a member is what the reply on its document says. One whose document was
/// not read is a member all the same: the composition says so.
pub open spec fn composes(
    member: GroupMember,
    member_id: Seq<char>,
    named: GenerationMember,
    reply: MemberReply,
) -> bool {
    match reply {
        MemberReply::Read { join_response, last_contact_ms, expired } => {
            &&& member.join_response == join_response
            &&& member.last_contact == time_of(last_contact_ms)
        },
        _ => {
            &&& member.join_response.member_id@ == member_id
            &&& member.join_response.group_instance_id == named.group_instance_id
            &&& member.join_response.metadata@ == Seq::<u8>::empty()
            &&& member.last_contact is None
        },
    }
}

/// The members that are taken as such: of each live one what its reply says.
pub open spec fn composed(
    members: Map<Seq<char>, GroupMember>,
    named: Seq<(String, GenerationMember)>,
    replies: Seq<MemberReply>,
) -> bool {
    &&& forall|i: int|
        #![trigger named[i]]
        0 <= i < named.len() ==> members.dom().contains(named[i].0@) == is_live(replies[i])
    &&& forall|i: int|
        #![trigger named[i]]
        0 <= i < named.len() && is_live(replies[i]) ==> composes(
            members[named[i].0@],
            named[i].0@,
            named[i].1,
            replies[i],
        )
    &&& forall|id: Seq<char>| #[trigger]
        members.dom().contains(id) ==> exists|i: int|
            0 <= i < named.len() && (#[trigger] named[i]).0@ == id
}

fn copy_option(text: &Option<String>) -> (copy: Option<String>)
    ensures
        copy == *text,
{
    match text {
        Some(text) => Some(text.clone()),
        None => None,
    }
}

impl DynoStore {
    /// The state that a composition and the assignment of a generation put a group
    /// in: formed by an assignment of that same generation, and forming otherwise.
    pub fn composed_group_state(generation: &GenerationDoc, assignment: Option<AssignmentDoc>) -> (
    state: GroupState)
        ensures
            state == state_of_group(*generation, assignment),
    {
        match (&generation.leader, assignment) {
            (Some(leader), Some(assignment)) => {
                if assignment.generation_id == generation.generation_id {
                    return GroupState::Formed {
                        protocol_type: assignment.protocol_type,
                        protocol_name: assignment.protocol_name,
                        leader: leader.clone(),
                        assignments: assignment.assignments,
                    };
                }
            },
            _ => {},
        }
        GroupState::Forming {
            protocol_type: copy_option(&generation.protocol_type),
            protocol_name: copy_option(&generation.protocol_name),
            leader: copy_option(&generation.leader),
        }
    }

    /// Whether some member that a composition names is live, by the replies on their
    /// documents.
    pub fn any_member_live(replies: &Vec<MemberReply>) -> (live: bool)
        ensures
            live == some_live(replies@),
    {
        let mut at: usize = 0;
        while at < replies.len()
            invariant
                at <= replies@.len(),
                forall|i: int| 0 <= i < at ==> !is_live(#[trigger] replies@[i]),
            decreases replies@.len() - at,
        {
            if Self::is_member_live(&replies[at]) {
                return true;
            }
            at = at + 1;
        }
        false
    }

    /// Whether a member is live, by the reply on its document.
    pub fn is_member_live(reply: &MemberReply) -> (live: bool)
        ensures
            live == is_live(*reply),
    {
        match reply {
            MemberReply::Read { join_response: _, last_contact_ms: _, expired } => !*expired,
            MemberReply::Absent => true,
            MemberReply::Unreadable => true,
        }
    }

    fn composed_members(
        named: &OrdMap<String, GenerationMember>,
        replies: Vec<MemberReply>,
    ) -> (members: OrdMap<String, GroupMember>)
        requires
            named.wf(),
            replies@.len() == named.entries@.len(),
        ensures
            members.wf(),
            composed(members@, named.entries@, replies@),
    {
        let ghost all = replies@;
        let mut members: OrdMap<String, GroupMember> = OrdMap::new();
        let count: usize = named.entries.len();
        let mut index: usize = 0;
        for reply in it: replies.into_iter()
            invariant
                it.seq() == all,
                index == it.index(),
                named.wf(),
                count == all.len() == named.entries@.len(),
                members.wf(),
                composed(members@, named.entries@.take(it.index() as int), all),
        {
            let ghost at = it.index() as int;
            let ghost seen = named.entries@.take(at);
            let ghost after = named.entries@.take(at + 1);
            let ghost before = members@;
            let live = Self::is_member_live(&reply);
            let (id, held) = &named.entries[index];
            proof {
                if before.dom().contains(id@) {
                    let i = choose|i: int| 0 <= i < seen.len() && (#[trigger] seen[i]).0@ == id@;
                    assert(named.entries@[i].0@ == id@);
                    crate::ordmap::lemma_unique(named.entries@, i, at);
                }
            }
            if live {
                let member = match reply {
                    MemberReply::Read { join_response, last_contact_ms, expired: _ } => GroupMember {
                        join_response,
                        last_contact: to_system_time(last_contact_ms),
                    },
                    _ => GroupMember {
                        join_response: JoinGroupResponseMember {
                            member_id: id.clone(),
                            group_instance_id: copy_option(&held.group_instance_id),
                            metadata: Vec::new(),
                        },
                        last_contact: None,
                    },
                };
                let _ = members.insert(id.clone(), member);
            }
            proof {
                assert forall|i: int| #![trigger after[i]] 0 <= i < after.len() implies {
                    &&& members@.dom().contains(after[i].0@) == is_live(all[i])
                    &&& is_live(all[i]) ==> composes(
                        members@[after[i].0@],
                        after[i].0@,
                        after[i].1,
                        all[i],
                    )
                } by {
                    if i < at {
                        assert(seen[i] == after[i]);
                        if after[i].0@ == id@ {
                            crate::ordmap::lemma_unique(named.entries@, i, at);
                        }
                    }
                }
                assert forall|key: Seq<char>| #[trigger]
                    members@.dom().contains(key) implies exists|i: int|
                    0 <= i < after.len() && (#[trigger] after[i]).0@ == key by {
                    if key == id@ {
                        assert(after[at].0@ == key);
                    } else {
                        assert(before.dom().contains(key));
                        let i = choose|i: int|
                            0 <= i < seen.len() && (#[trigger] seen[i]).0@ == key;
                        assert(after[i].0@ == key);
                    }
                }
            }
            index = index + 1;
        }
        assert(named.entries@.take(all.len() as int) =~= named.entries@);
        members
    }

    /// A group, put together from its composition, the assignment of its generation
    /// and the replies on its members' documents, in the order of their ids. One
    /// without a composition is none.
    pub fn group_view(
        generation: Option<GenerationDoc>,
        assignment: Option<AssignmentDoc>,
        replies: Vec<MemberReply>,
    ) -> (group: Option<GroupDetail>)
        requires
            generation matches Some(generation) ==> generation.members.wf() && replies@.len()
                == generation.members.entries@.len(),
        ensures
            match generation {
                None => group is None,
                Some(generation) => {
                    &&& group matches Some(group)
                    &&& group.members.wf()
                    &&& composed(group.members@, generation.members.entries@, replies@)
                    &&& group.session_timeout_ms == generation.session_timeout_ms
                    &&& group.rebalance_timeout_ms == generation.rebalance_timeout_ms
                    &&& group.generation_id == generation.generation_id
                    &&& group.skip_assignment == generation.skip_assignment
                    &&& group.inception == inception_of(generation)
                    &&& group.state == state_of_group(generation, assignment)
                },
            },
    {
        match generation {
            None => None,
            Some(generation) => {
                let members = Self::composed_members(&generation.members, replies);
                let inception: u64 = match to_system_time(generation.inception_ms) {
                    Some(time) => time,
                    None => 0,
                };
                let state = Self::composed_group_state(&generation, assignment);
                Some(
                    GroupDetail {
                        session_timeout_ms: generation.session_timeout_ms,
                        rebalance_timeout_ms: generation.rebalance_timeout_ms,
                        members,
                        generation_id: generation.generation_id,
                        skip_assignment: generation.skip_assignment,
                        inception,
                        state,
                    },
                )
            },
        }
    }

    /// Whether a listed group has members, and the state that it is in, without a
    /// look at more of its members' documents than it takes to find a live one. A
    /// group without a composition is there with nobody in it.
    pub fn group_state(
        generation: Option<GenerationDoc>,
        assignment: Option<AssignmentDoc>,
        any_live: bool,
    ) -> (state: Option<(bool, GroupState)>)
        ensures
            match generation {
                None => state is None,
                Some(generation) => state == Some(
                    (
                        is_occupied(generation, any_live),
                        state_of_group(generation, assignment),
                    ),
                ),
            },
    {
        match generation {
            None => None,
            Some(generation) => {
                let occupied = any_live && generation.members.entries.len() > 0;
                Some((occupied, Self::composed_group_state(&generation, assignment)))
            },
        }
    }
}

/// The state that a composition and an assignment put a group in.
pub open spec fn state_of_group(
    generation: GenerationDoc,
    assignment: Option<AssignmentDoc>,
) -> GroupState {
    match (generation.leader, assignment) {
        (Some(leader), Some(assignment)) if assignment.generation_id
            == generation.generation_id => GroupState::Formed {
            protocol_type: assignment.protocol_type,
            protocol_name: assignment.protocol_name,
            leader,
            assignments: assignment.assignments,
        },
        (leader, _) => GroupState::Forming {
            protocol_type: generation.protocol_type,
            protocol_name: generation.protocol_name,
            leader,
        },
    }
}

/// A group is listed as empty exactly if it is described without a member: the
/// listing and the description judge members alike.
pub proof fn listing_and_description_agree(
    members: Map<Seq<char>, GroupMember>,
    named: Seq<(String, GenerationMember)>,
    replies: Seq<MemberReply>,
)
    requires
        replies.len() == named.len(),
        composed(members, named, replies),
    ensures
        (exists|id: Seq<char>| #[trigger] members.dom().contains(id)) <==> some_live(replies),
{
    if exists|id: Seq<char>| #[trigger] members.dom().contains(id) {
        let id = choose|id: Seq<char>| #[trigger] members.dom().contains(id);
        let i = choose|i: int| 0 <= i < named.len() && (#[trigger] named[i]).0@ == id;
        assert(is_live(replies[i]));
    }
    if some_live(replies) {
        let i = choose|i: int| 0 <= i < replies.len() && is_live(#[trigger] replies[i]);
        assert(members.dom().contains(named[i].0@));
    }
}

/// A member whose document could not be read is described all the same, and a
/// generation with a leader and no assignment of its own is still forming.
pub proof fn a_torn_read_is_answered(
    members: Map<Seq<char>, GroupMember>,
    generation: GenerationDoc,
    replies: Seq<MemberReply>,
    i: int,
)
    requires
        0 <= i < replies.len() == generation.members.entries@.len(),
        composed(members, generation.members.entries@, replies),
        replies[i] is Unreadable || replies[i] is Absent,
    ensures
        members.dom().contains(generation.members.entries@[i].0@),
        state_of_group(generation, None) is Forming,
{
    assert(is_live(replies[i]));
}

/// A group is formed exactly if its composition has a leader and an assignment of that
/// very generation; it then has the protocol and the assignments of that assignment.
/// Otherwise it is forming, with the protocol of its composition. The leader is the
/// composition's either way.
pub proof fn a_group_is_formed_by_its_own_assignment(
    generation: GenerationDoc,
    assignment: Option<AssignmentDoc>,
)
    ensures
        ({
            let state = state_of_group(generation, assignment);
            let own = assignment is Some && assignment->0.generation_id
                == generation.generation_id;
            &&& state is Formed <==> generation.leader is Some && own
            &&& state is Formed ==> state == (GroupState::Formed {
                protocol_type: assignment->0.protocol_type,
                protocol_name: assignment->0.protocol_name,
                leader: generation.leader->0,
                assignments: assignment->0.assignments,
            })
            &&& state !is Formed ==> state == (GroupState::Forming {
                protocol_type: generation.protocol_type,
                protocol_name: generation.protocol_name,
                leader: generation.leader,
            })
        }),
{
}

/// A member is struck off only by its own document, read and expired: one whose document
/// is absent, or could not be read, is a member, and so is one whose document was read
/// and is not expired.
pub proof fn only_an_expired_document_strikes_off(reply: MemberReply)
    ensures
        is_live(reply) <==> !(reply matches MemberReply::Read { expired, .. } && expired),
{
}

/// A described member is what its document says, or what the composition names where
/// no document was read; and a time before the epoch is none.
pub proof fn a_member_is_what_its_document_says(
    members: Map<Seq<char>, GroupMember>,
    named: Seq<(String, GenerationMember)>,
    replies: Seq<MemberReply>,
    i: int,
)
    requires
        composed(members, named, replies),
        0 <= i < named.len(),
        members.dom().contains(named[i].0@),
    ensures
        ({
            let member = members[named[i].0@];
            match replies[i] {
                MemberReply::Read { join_response, last_contact_ms, expired } => {
                    &&& !expired
                    &&& member.join_response == join_response
                    &&& last_contact_ms >= 0 ==> member.last_contact == Some(last_contact_ms as u64)
                    &&& last_contact_ms < 0 ==> member.last_contact is None
                },
                _ => {
                    &&& member.join_response.member_id@ == named[i].0@
                    &&& member.join_response.group_instance_id == named[i].1.group_instance_id
                    &&& member.join_response.metadata@.len() == 0
                    &&& member.last_contact is None
                },
            }
        }),
{
}

/// Whether a group is listed with members.
pub open spec fn is_occupied(generation: GenerationDoc, any_live: bool) -> bool {
    any_live && generation.members.entries@.len() > 0
}

/// When a group came about.
pub open spec fn inception_of(generation: GenerationDoc) -> u64 {
    match time_of(generation.inception_ms) {
        Some(time) => time,
        None => 0,
    }
}

/// A group is listed with members exactly if its composition names one and one is live,
/// and came about when its composition says, or at the epoch where it says a time before.
pub proof fn a_group_without_members_is_listed_so(generation: GenerationDoc)
    ensures
        generation.members.entries@.len() == 0 ==> !is_occupied(generation, true),
        generation.members.entries@.len() > 0 ==> is_occupied(generation, true),
        !is_occupied(generation, false),
        generation.inception_ms >= 0 ==> inception_of(generation) == generation.inception_ms,
        generation.inception_ms < 0 ==> inception_of(generation) == 0,
{
}

} // verus!
