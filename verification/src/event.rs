//! Events (PDUs) as the engine sees them: immutable records over plain
//! values, keyed by interned short ids.

use vstd::prelude::*;

verus! {

/// Membership states a member event can carry.
#[derive(Clone, Copy, PartialEq, Eq, Structural, Debug)]
pub enum Membership {
    Join,
    Leave,
    Invite,
    Ban,
    Knock,
}

/// Join rules a join-rules event can carry.
#[derive(Clone, Copy, PartialEq, Eq, Structural, Debug)]
pub enum JoinRule {
    Public,
    Invite,
    Knock,
    Restricted,
    Private,
}

/// The power-level table of a power-levels event.
#[derive(Debug)]
pub struct PowerContent {
    /// Per-user levels, keyed by user id.
    pub users: Vec<(Vec<u8>, i64)>,
    /// Level of users absent from `users`.
    pub users_default: i64,
    /// Level required to send a message event.
    pub events_default: i64,
    /// Level required to send a state event.
    pub state_default: i64,
    /// Level required to change another user's membership.
    pub ban: i64,
}

/// The part of an event's content that the authorization rules read.
#[derive(Debug)]
pub enum Content {
    /// A room-creation event.
    Create { creator: Vec<u8>, federate: bool },
    /// A power-levels event.
    Power(PowerContent),
    /// A membership event; its subject is the event's state key.
    Member { membership: Membership },
    /// A join-rules event.
    JoinRules { rule: JoinRule },
    /// Any content the rules do not read.
    Other,
}

/// An event of the room graph. `prev_events` and `auth_events` hold the
/// short ids of the referenced events, which need not be known locally.
#[derive(Debug)]
pub struct Pdu {
    /// Short id of this event.
    pub sid: u64,
    /// Full event id.
    pub event_id: Vec<u8>,
    /// Short id of the room.
    pub room: u64,
    /// Sender user id.
    pub sender: Vec<u8>,
    /// Event type.
    pub etype: Vec<u8>,
    /// State key, for state events.
    pub state_key: Option<Vec<u8>>,
    /// Interned short state key; present exactly when `state_key` is.
    pub skey: Option<u64>,
    /// Content as read by the authorization rules.
    pub content: Content,
    /// Causal parents.
    pub prev_events: Vec<u64>,
    /// Authorizing events.
    pub auth_events: Vec<u64>,
    /// Depth in the room graph.
    pub depth: u64,
    /// Origin server timestamp.
    pub ts: u64,
}

pub open spec fn is_create(p: Pdu) -> bool {
    p.content is Create
}

pub open spec fn is_power(p: Pdu) -> bool {
    p.content is Power
}

pub open spec fn is_join_rules(p: Pdu) -> bool {
    p.content is JoinRules
}

pub open spec fn is_member(p: Pdu) -> bool {
    p.content is Member
}

/// An event that carries a state key, and so occupies a state-set slot.
pub open spec fn is_state_event(p: Pdu) -> bool {
    p.skey is Some
}

impl Pdu {
    /// Whether this event carries a state key.
    pub fn has_state_key(&self) -> (r: bool)
        ensures
            r == is_state_event(*self),
    {
        self.skey.is_some()
    }
}

/// The level of `user` under the power table `pc`: the user's own entry
/// if present, else the table's default.
pub open spec fn spec_user_level(pc: PowerContent, user: Seq<u8>) -> i64 {
    if exists|i: int| 0 <= i < pc.users@.len() && (#[trigger] pc.users@[i]).0@ == user {
        let i = choose|i: int| 0 <= i < pc.users@.len() && (#[trigger] pc.users@[i]).0@ == user;
        pc.users@[i].1
    } else {
        pc.users_default
    }
}

/// A power table whose user entries carry pairwise distinct user ids, so
/// a user's level is read off unambiguously.
pub open spec fn power_users_unique(pc: PowerContent) -> bool {
    forall|i: int, j: int|
        0 <= i < j < pc.users@.len() ==> (#[trigger] pc.users@[i]).0@ !== (
        #[trigger] pc.users@[j]).0@
}

/// Reads `user`'s level off the power table.
pub fn user_level(pc: &PowerContent, user: &Vec<u8>) -> (r: i64)
    requires
        power_users_unique(*pc),
    ensures
        r == spec_user_level(*pc, user@),
{
    let mut i: usize = 0;
    while i < pc.users.len()
        invariant
            i <= pc.users@.len(),
            power_users_unique(*pc),
            forall|j: int| 0 <= j < i ==> (#[trigger] pc.users@[j]).0@ !== user@,
        decreases pc.users@.len() - i,
    {
        if crate::util::bytes_eq(&pc.users[i].0, user) {
            proof {
                let w = choose|w: int|
                    0 <= w < pc.users@.len() && (#[trigger] pc.users@[w]).0@ == user@;
                if w != i {
                    assert(pc.users@[w].0@ !== pc.users@[i as int].0@);
                }
            }
            return pc.users[i].1;
        }
        i = i + 1;
    }
    proof {
        if exists|w: int| 0 <= w < pc.users@.len() && (#[trigger] pc.users@[w]).0@ == user@ {
            let w = choose|w: int|
                0 <= w < pc.users@.len() && (#[trigger] pc.users@[w]).0@ == user@;
            assert(pc.users@[w].0@ !== user@);
        }
    }
    pc.users_default
}

} // verus!

