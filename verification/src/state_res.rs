//! The state resolver: merges divergent views of a room's state into
//! one canonical state set.
//!
//! Entries on which every view agrees are kept verbatim. The remaining
//! candidate events, together with their auth chains, are ranked by
//! mainline ordering — the depth of the power-levels event that
//! authorizes a candidate, then the candidate's own depth, then its
//! event id — and applied in ascending rank against the accumulating
//! state, so the highest-ranked authorized candidate for each slot
//! wins. The result is a function of the set of input views alone:
//! delivery order cannot change it.

use vstd::prelude::*;

use crate::event::{
    Content, JoinRule, Membership, Pdu, is_create, is_join_rules, is_member, is_power,
    spec_user_level, user_level,
};
use crate::store::EventStore;
use crate::util::{bytes_lt, bytes_less, bytes_eq, pairs_map, pairs_sorted};

verus! {

/// Level required to send a state event when no power-levels event is
/// in force.
pub const DEFAULT_STATE_LEVEL: i64 = 50;

/// Level required to change another user's membership when no
/// power-levels event is in force.
pub const DEFAULT_BAN_LEVEL: i64 = 50;

/// Level of the room creator when no power-levels event names them.
pub const CREATOR_LEVEL: i64 = 100;

/// A state set is valid for a store when every slot holds a known
/// event interned under exactly that slot's short state key.
pub open spec fn state_wf(store: Map<u64, Pdu>, m: Map<u64, u64>) -> bool {
    forall|k: u64| #[trigger]
        m.dom().contains(k) ==> store.dom().contains(m[k]) && store[m[k]].skey == Some(k)
}

/// The slot among `m` holding a creation event, if any.
pub open spec fn find_create(store: Map<u64, Pdu>, m: Map<u64, u64>) -> Option<u64> {
    if exists|k: u64|
        #[trigger] m.dom().contains(k) && store.dom().contains(m[k]) && is_create(store[m[k]]) {
        let k = choose|k: u64|
            #[trigger] m.dom().contains(k) && store.dom().contains(m[k]) && is_create(
                store[m[k]],
            );
        Some(m[k])
    } else {
        None
    }
}

/// The slot among `m` holding a power-levels event, if any.
pub open spec fn find_power(store: Map<u64, Pdu>, m: Map<u64, u64>) -> Option<u64> {
    if exists|k: u64|
        #[trigger] m.dom().contains(k) && store.dom().contains(m[k]) && is_power(store[m[k]]) {
        let k = choose|k: u64|
            #[trigger] m.dom().contains(k) && store.dom().contains(m[k]) && is_power(store[m[k]]);
        Some(m[k])
    } else {
        None
    }
}

/// The slot among `m` holding a join-rules event, if any.
pub open spec fn find_join_rules(store: Map<u64, Pdu>, m: Map<u64, u64>) -> Option<u64> {
    if exists|k: u64|
        #[trigger] m.dom().contains(k) && store.dom().contains(m[k]) && is_join_rules(
            store[m[k]],
        ) {
        let k = choose|k: u64|
            #[trigger] m.dom().contains(k) && store.dom().contains(m[k]) && is_join_rules(
                store[m[k]],
            );
        Some(m[k])
    } else {
        None
    }
}

/// The creator named by the creation event in `m`, if any.
pub open spec fn creator_of(store: Map<u64, Pdu>, m: Map<u64, u64>) -> Option<Seq<u8>> {
    match find_create(store, m) {
        Some(c) => match store[c].content {
            Content::Create { creator, .. } => Some(creator@),
            _ => None,
        },
        None => None,
    }
}

/// The sender's level under the state `m`: their entry in the
/// power-levels event in force, its default for absent users, and the
/// creator's distinguished level when no power-levels event exists.
pub open spec fn spec_sender_level(store: Map<u64, Pdu>, m: Map<u64, u64>, sender: Seq<u8>)
    -> i64 {
    match find_power(store, m) {
        Some(pw) => match store[pw].content {
            Content::Power(pc) => spec_user_level(pc, sender),
            _ => 0,
        },
        None => {
            if creator_of(store, m) == Some(sender) {
                CREATOR_LEVEL
            } else {
                0
            }
        },
    }
}

/// The join rule in force under `m`; rooms without a join-rules event
/// are invite-only.
pub open spec fn spec_join_rule(store: Map<u64, Pdu>, m: Map<u64, u64>) -> JoinRule {
    match find_join_rules(store, m) {
        Some(j) => match store[j].content {
            Content::JoinRules { rule } => rule,
            _ => JoinRule::Invite,
        },
        None => JoinRule::Invite,
    }
}

/// The level a state event needs from its sender under `m`.
pub open spec fn spec_required_level(store: Map<u64, Pdu>, m: Map<u64, u64>) -> i64 {
    match find_power(store, m) {
        Some(pw) => match store[pw].content {
            Content::Power(pc) => pc.state_default,
            _ => DEFAULT_STATE_LEVEL,
        },
        None => DEFAULT_STATE_LEVEL,
    }
}

/// The level needed to change another user's membership under `m`.
pub open spec fn spec_ban_level(store: Map<u64, Pdu>, m: Map<u64, u64>) -> i64 {
    match find_power(store, m) {
        Some(pw) => match store[pw].content {
            Content::Power(pc) => pc.ban,
            _ => DEFAULT_BAN_LEVEL,
        },
        None => DEFAULT_BAN_LEVEL,
    }
}

/// The authorization rules a candidate is held to, against the state
/// accumulated so far:
/// - a creation event is admitted only into a room with no creation
///   event yet, and must cite no auth events;
/// - everything else needs a creation event in force;
/// - a user joins only a public room, unless they created the room;
///   a user may always leave; changing another user's membership
///   takes the ban level;
/// - any other state event takes the state-default level from the
///   power-levels event in force.
pub open spec fn spec_authorized(store: Map<u64, Pdu>, e: u64, m: Map<u64, u64>) -> bool {
    let p = store[e];
    if is_create(p) {
        find_create(store, m) is None && p.auth_events@.len() == 0
    } else if find_create(store, m) is None {
        false
    } else if is_member(p) {
        let target = p.state_key->Some_0@;
        let membership = p.content->Member_membership;
        if target == p.sender@ {
            match membership {
                Membership::Join => spec_join_rule(store, m) == JoinRule::Public || creator_of(
                    store,
                    m,
                ) == Some(p.sender@),
                Membership::Leave => true,
                _ => spec_sender_level(store, m, p.sender@) >= spec_ban_level(store, m),
            }
        } else {
            spec_sender_level(store, m, p.sender@) >= spec_ban_level(store, m)
        }
    } else {
        spec_sender_level(store, m, p.sender@) >= spec_required_level(store, m)
    }
}

/// One resolution step: an authorized candidate takes its slot, an
/// unauthorized one is dropped.
pub open spec fn spec_step(store: Map<u64, Pdu>, m: Map<u64, u64>, e: u64) -> Map<u64, u64> {
    if spec_authorized(store, e, m) {
        m.insert(store[e].skey->Some_0, e)
    } else {
        m
    }
}

/// Folds the ranked candidates over the unconflicted base state.
pub open spec fn iterate_auth(store: Map<u64, Pdu>, ord: Seq<u64>, base: Map<u64, u64>) -> Map<
    u64,
    u64,
>
    decreases ord.len(),
{
    if ord.len() == 0 {
        base
    } else {
        spec_step(store, iterate_auth(store, ord.drop_last(), base), ord.last())
    }
}

/// The deepest known power-levels event among the given auth events;
/// zero when there is none.
pub open spec fn spec_power_anchor(store: Map<u64, Pdu>, auths: Seq<u64>) -> u64
    decreases auths.len(),
{
    if auths.len() == 0 {
        0
    } else {
        let rest = spec_power_anchor(store, auths.drop_last());
        let a = auths.last();
        let d: u64 = if store.dom().contains(a) && is_power(store[a]) {
            store[a].depth
        } else {
            0
        };
        if d > rest {
            d
        } else {
            rest
        }
    }
}

/// The mainline rank of a candidate: the depth of the power-levels
/// event it cites for authorization.
pub open spec fn spec_mainline_rank(store: Map<u64, Pdu>, e: u64) -> u64 {
    spec_power_anchor(store, store[e].auth_events@)
}

/// The ranking order over candidates: mainline rank, then depth, then
/// event id. A candidate applied later wins its slot, so the greatest
/// candidate in this order is the one mainline ordering ranks first.
pub open spec fn cand_lt(store: Map<u64, Pdu>, a: u64, b: u64) -> bool {
    let ra = spec_mainline_rank(store, a);
    let rb = spec_mainline_rank(store, b);
    let da = store[a].depth;
    let db = store[b].depth;
    ||| ra < rb
    ||| (ra == rb && da < db)
    ||| (ra == rb && da == db && bytes_lt(store[a].event_id@, store[b].event_id@))
}

/// A candidate sequence in strictly ascending rank order.
pub open spec fn cand_sorted(store: Map<u64, Pdu>, s: Seq<u64>) -> bool {
    forall|i: int, j: int| 0 <= i < j < s.len() ==> cand_lt(store, #[trigger] s[i], #[trigger] s[j])
}

/// Finds the creation event among the slots of `acc`.
fn find_create_exec(store: &EventStore, acc: &Vec<(u64, u64)>) -> (r: Option<u64>)
    requires
        store.wf(),
        pairs_sorted(acc@),
        state_wf(store@, pairs_map(acc@)),
    ensures
        r == find_create(store@, pairs_map(acc@)),
{
    let ghost m = pairs_map(acc@);
    proof {
        crate::util::lemma_pairs_map_domain(acc@);
    }
    let mut i: usize = 0;
    while i < acc.len()
        invariant
            i <= acc@.len(),
            store.wf(),
            pairs_sorted(acc@),
            state_wf(store@, m),
            m == pairs_map(acc@),
            forall|j: int|
                0 <= j < i ==> !is_create(store@[(#[trigger] acc@[j]).1]),
        decreases acc@.len() - i,
    {
        proof {
            crate::util::lemma_pairs_map_index(acc@, i as int);
        }
        let v = acc[i].1;
        match store.get(v) {
            Some(p) => {
                if matches!(p.content, Content::Create { .. }) {
                    proof {
                        assert(m.dom().contains(acc@[i as int].0) && store@.dom().contains(v)
                            && is_create(store@[v]));
                        let k = choose|k: u64|
                            #[trigger] m.dom().contains(k) && store@.dom().contains(m[k])
                                && is_create(store@[m[k]]);
                        store.lemma_special_kind_skey(m[k], v);
                        assert(store@[m[k]].skey == Some(k));
                        assert(store@[v].skey == Some(acc@[i as int].0));
                        assert(find_create(store@, m) == Some(v));
                    }
                    return Some(v);
                }
            },
            None => {
                proof {
                    assert(false);
                }
            },
        }
        i = i + 1;
    }
    proof {
        if exists|k: u64|
            #[trigger] m.dom().contains(k) && store@.dom().contains(m[k]) && is_create(
                store@[m[k]],
            ) {
            let k = choose|k: u64|
                #[trigger] m.dom().contains(k) && store@.dom().contains(m[k]) && is_create(
                    store@[m[k]],
                );
            let j = choose|j: int| 0 <= j < acc@.len() && (#[trigger] acc@[j]).0 == k;
            crate::util::lemma_pairs_map_index(acc@, j);
            assert(!is_create(store@[acc@[j].1]));
        }
    }
    None
}

/// Finds the power-levels event among the slots of `acc`.
fn find_power_exec(store: &EventStore, acc: &Vec<(u64, u64)>) -> (r: Option<u64>)
    requires
        store.wf(),
        pairs_sorted(acc@),
        state_wf(store@, pairs_map(acc@)),
    ensures
        r == find_power(store@, pairs_map(acc@)),
{
    let ghost m = pairs_map(acc@);
    proof {
        crate::util::lemma_pairs_map_domain(acc@);
    }
    let mut i: usize = 0;
    while i < acc.len()
        invariant
            i <= acc@.len(),
            store.wf(),
            pairs_sorted(acc@),
            state_wf(store@, m),
            m == pairs_map(acc@),
            forall|j: int|
                0 <= j < i ==> !is_power(store@[(#[trigger] acc@[j]).1]),
        decreases acc@.len() - i,
    {
        proof {
            crate::util::lemma_pairs_map_index(acc@, i as int);
        }
        let v = acc[i].1;
        match store.get(v) {
            Some(p) => {
                if matches!(p.content, Content::Power(..)) {
                    proof {
                        let k = choose|k: u64|
                            #[trigger] m.dom().contains(k) && store@.dom().contains(m[k])
                                && is_power(store@[m[k]]);
                        store.lemma_special_kind_skey(m[k], v);
                        assert(find_power(store@, m) == Some(v));
                    }
                    return Some(v);
                }
            },
            None => {
                proof {
                    assert(false);
                }
            },
        }
        i = i + 1;
    }
    proof {
        if exists|k: u64|
            #[trigger] m.dom().contains(k) && store@.dom().contains(m[k]) && is_power(
                store@[m[k]],
            ) {
            let k = choose|k: u64|
                #[trigger] m.dom().contains(k) && store@.dom().contains(m[k]) && is_power(
                    store@[m[k]],
                );
            let j = choose|j: int| 0 <= j < acc@.len() && (#[trigger] acc@[j]).0 == k;
            crate::util::lemma_pairs_map_index(acc@, j);
            assert(!is_power(store@[acc@[j].1]));
        }
    }
    None
}

/// Finds the join-rules event among the slots of `acc`.
fn find_join_rules_exec(store: &EventStore, acc: &Vec<(u64, u64)>) -> (r: Option<u64>)
    requires
        store.wf(),
        pairs_sorted(acc@),
        state_wf(store@, pairs_map(acc@)),
    ensures
        r == find_join_rules(store@, pairs_map(acc@)),
{
    let ghost m = pairs_map(acc@);
    proof {
        crate::util::lemma_pairs_map_domain(acc@);
    }
    let mut i: usize = 0;
    while i < acc.len()
        invariant
            i <= acc@.len(),
            store.wf(),
            pairs_sorted(acc@),
            state_wf(store@, m),
            m == pairs_map(acc@),
            forall|j: int|
                0 <= j < i ==> !is_join_rules(store@[(#[trigger] acc@[j]).1]),
        decreases acc@.len() - i,
    {
        proof {
            crate::util::lemma_pairs_map_index(acc@, i as int);
        }
        let v = acc[i].1;
        match store.get(v) {
            Some(p) => {
                if matches!(p.content, Content::JoinRules { .. }) {
                    proof {
                        let k = choose|k: u64|
                            #[trigger] m.dom().contains(k) && store@.dom().contains(m[k])
                                && is_join_rules(store@[m[k]]);
                        store.lemma_special_kind_skey(m[k], v);
                        assert(find_join_rules(store@, m) == Some(v));
                    }
                    return Some(v);
                }
            },
            None => {
                proof {
                    assert(false);
                }
            },
        }
        i = i + 1;
    }
    proof {
        if exists|k: u64|
            #[trigger] m.dom().contains(k) && store@.dom().contains(m[k]) && is_join_rules(
                store@[m[k]],
            ) {
            let k = choose|k: u64|
                #[trigger] m.dom().contains(k) && store@.dom().contains(m[k]) && is_join_rules(
                    store@[m[k]],
                );
            let j = choose|j: int| 0 <= j < acc@.len() && (#[trigger] acc@[j]).0 == k;
            crate::util::lemma_pairs_map_index(acc@, j);
            assert(!is_join_rules(store@[acc@[j].1]));
        }
    }
    None
}

/// Reads the sender's level off the state `acc`.
fn sender_level_exec(store: &EventStore, acc: &Vec<(u64, u64)>, sender: &Vec<u8>) -> (r: i64)
    requires
        store.wf(),
        pairs_sorted(acc@),
        state_wf(store@, pairs_map(acc@)),
    ensures
        r == spec_sender_level(store@, pairs_map(acc@), sender@),
{
    match find_power_exec(store, acc) {
        Some(pw) => {
            match store.get(pw) {
                Some(p) => match &p.content {
                    Content::Power(pc) => user_level(pc, sender),
                    _ => 0,
                },
                None => {
                    proof {
                        assert(false);
                    }
                    0
                },
            }
        },
        None => {
            match find_create_exec(store, acc) {
                Some(c) => {
                    match store.get(c) {
                        Some(p) => match &p.content {
                            Content::Create { creator, .. } => {
                                if bytes_eq(creator, sender) {
                                    CREATOR_LEVEL
                                } else {
                                    0
                                }
                            },
                            _ => {
                                proof {
                                    assert(false);
                                }
                                0
                            },
                        },
                        None => {
                            proof {
                                assert(false);
                            }
                            0
                        },
                    }
                },
                None => 0,
            }
        },
    }
}

/// Decides `spec_authorized` for a known candidate against `acc`.
pub fn authorized_exec(store: &EventStore, e: u64, acc: &Vec<(u64, u64)>) -> (r: bool)
    requires
        store.wf(),
        store@.dom().contains(e),
        pairs_sorted(acc@),
        state_wf(store@, pairs_map(acc@)),
    ensures
        r == spec_authorized(store@, e, pairs_map(acc@)),
{
    let ghost m = pairs_map(acc@);
    let p = match store.get(e) {
        Some(p) => p,
        None => {
            proof {
                assert(false);
            }
            return false;
        },
    };
    if matches!(p.content, Content::Create { .. }) {
        return find_create_exec(store, acc).is_none() && p.auth_events.len() == 0;
    }
    let create = find_create_exec(store, acc);
    if create.is_none() {
        return false;
    }
    if matches!(p.content, Content::Member { .. }) {
        let target = match &p.state_key {
            Some(t) => t,
            None => {
                proof {
                    assert(false);
                }
                return false;
            },
        };
        let membership = match &p.content {
            Content::Member { membership } => *membership,
            _ => {
                proof {
                    assert(false);
                }
                Membership::Leave
            },
        };
        if bytes_eq(target, &p.sender) {
            match membership {
                Membership::Join => {
                    let rule_public = match find_join_rules_exec(store, acc) {
                        Some(j) => {
                            match store.get(j) {
                                Some(jp) => match &jp.content {
                                    Content::JoinRules { rule } => matches!(rule, JoinRule::Public),
                                    _ => false,
                                },
                                None => {
                                    proof {
                                        assert(false);
                                    }
                                    false
                                },
                            }
                        },
                        None => false,
                    };
                    if rule_public {
                        return true;
                    }
                    // otherwise only the creator may join
                    match create {
                        Some(c) => {
                            match store.get(c) {
                                Some(cp) => match &cp.content {
                                    Content::Create { creator, .. } => bytes_eq(
                                        creator,
                                        &p.sender,
                                    ),
                                    _ => {
                                        proof {
                                            assert(false);
                                        }
                                        false
                                    },
                                },
                                None => {
                                    proof {
                                        assert(false);
                                    }
                                    false
                                },
                            }
                        },
                        None => {
                            proof {
                                assert(false);
                            }
                            false
                        },
                    }
                },
                Membership::Leave => true,
                _ => sender_level_exec(store, acc, &p.sender) >= ban_level_exec(store, acc),
            }
        } else {
            sender_level_exec(store, acc, &p.sender) >= ban_level_exec(store, acc)
        }
    } else {
        sender_level_exec(store, acc, &p.sender) >= required_level_exec(store, acc)
    }
}

/// Reads the state-default level off the state `acc`.
fn required_level_exec(store: &EventStore, acc: &Vec<(u64, u64)>) -> (r: i64)
    requires
        store.wf(),
        pairs_sorted(acc@),
        state_wf(store@, pairs_map(acc@)),
    ensures
        r == spec_required_level(store@, pairs_map(acc@)),
{
    match find_power_exec(store, acc) {
        Some(pw) => match store.get(pw) {
            Some(p) => match &p.content {
                Content::Power(pc) => pc.state_default,
                _ => DEFAULT_STATE_LEVEL,
            },
            None => {
                proof {
                    assert(false);
                }
                DEFAULT_STATE_LEVEL
            },
        },
        None => DEFAULT_STATE_LEVEL,
    }
}

/// Computes the mainline anchor: the depth of the deepest known
/// power-levels event among the given auth events.
fn power_anchor_exec(store: &EventStore, auths: &Vec<u64>) -> (r: u64)
    ensures
        r == spec_power_anchor(store@, auths@),
{
    let mut best: u64 = 0;
    let mut i: usize = 0;
    while i < auths.len()
        invariant
            i <= auths@.len(),
            best == spec_power_anchor(store@, auths@.take(i as int)),
        decreases auths@.len() - i,
    {
        proof {
            assert(auths@.take(i + 1).drop_last() =~= auths@.take(i as int));
            assert(auths@.take(i + 1).last() == auths@[i as int]);
        }
        let a = auths[i];
        match store.get(a) {
            Some(p) => {
                if matches!(p.content, Content::Power(..)) {
                    if p.depth > best {
                        best = p.depth;
                    }
                }
            },
            None => {},
        }
        i = i + 1;
    }
    proof {
        assert(auths@.take(auths@.len() as int) =~= auths@);
    }
    best
}

/// Decides `cand_lt` for two known candidates.
fn cand_less(store: &EventStore, a: u64, b: u64) -> (r: bool)
    requires
        store@.dom().contains(a),
        store@.dom().contains(b),
    ensures
        r == cand_lt(store@, a, b),
{
    let pa = match store.get(a) {
        Some(p) => p,
        None => {
            proof {
                assert(false);
            }
            return false;
        },
    };
    let pb = match store.get(b) {
        Some(p) => p,
        None => {
            proof {
                assert(false);
            }
            return false;
        },
    };
    let ra = power_anchor_exec(store, &pa.auth_events);
    let rb = power_anchor_exec(store, &pb.auth_events);
    if ra != rb {
        return ra < rb;
    }
    if pa.depth != pb.depth {
        return pa.depth < pb.depth;
    }
    bytes_less(&pa.event_id, &pb.event_id)
}

/// The ranking order is asymmetric.
pub proof fn lemma_cand_lt_asym(store: Map<u64, Pdu>, a: u64, b: u64)
    ensures
        !(cand_lt(store, a, b) && cand_lt(store, b, a)),
{
    crate::util::lemma_bytes_lt_asymmetric(store[a].event_id@, store[b].event_id@);
}

/// Two known candidates with distinct event ids are ordered one way or
/// the other.
pub proof fn lemma_cand_lt_connected(store: Map<u64, Pdu>, a: u64, b: u64)
    requires
        store[a].event_id@ !== store[b].event_id@,
    ensures
        cand_lt(store, a, b) || cand_lt(store, b, a),
{
    crate::util::lemma_bytes_lt_connected(store[a].event_id@, store[b].event_id@);
}

/// Two sequences in strictly ascending rank order holding the same
/// candidates are equal.
pub proof fn lemma_cand_sorted_unique(store: Map<u64, Pdu>, a: Seq<u64>, b: Seq<u64>)
    requires
        cand_sorted(store, a),
        cand_sorted(store, b),
        a.to_set() == b.to_set(),
        forall|x: u64, y: u64|
            #![trigger store[x].event_id, store[y].event_id]
            a.to_set().contains(x) && a.to_set().contains(y) && x != y ==> store[x].event_id@
                !== store[y].event_id@,
    ensures
        a =~= b,
    decreases a.len(),
{
    if a.len() == 0 {
        if b.len() > 0 {
            assert(b.to_set().contains(b.last()));
            assert(a.to_set().contains(b.last()));
            assert(false);
        }
    } else if b.len() == 0 {
        assert(a.to_set().contains(a.last()));
        assert(b.to_set().contains(a.last()));
        assert(false);
    } else {
        let ma = a.last();
        let mb = b.last();
        assert(a.to_set().contains(ma)) by {
            assert(a[a.len() - 1] == ma);
        }
        assert(b.to_set().contains(mb)) by {
            assert(b[b.len() - 1] == mb);
        }
        if ma != mb {
            // each last element is the maximum; two maxima of one set agree
            assert(a.to_set().contains(mb));
            let i = choose|i: int| 0 <= i < a.len() && a[i] == mb;
            if i < a.len() - 1 {
                assert(cand_lt(store, a[i], a[a.len() - 1]));
            }
            assert(ma == mb || cand_lt(store, mb, ma));
            assert(b.to_set().contains(ma));
            let j = choose|j: int| 0 <= j < b.len() && b[j] == ma;
            if j < b.len() - 1 {
                assert(cand_lt(store, b[j], b[b.len() - 1]));
            }
            assert(ma == mb || cand_lt(store, ma, mb));
            lemma_cand_lt_asym(store, ma, mb);
            assert(false);
        }
        assert(a.drop_last().to_set() =~= b.drop_last().to_set()) by {
            assert forall|x: u64| #[trigger] a.drop_last().to_set().contains(x)
                implies b.drop_last().to_set().contains(x) by {
                let i = choose|i: int| 0 <= i < a.drop_last().len() && a.drop_last()[i] == x;
                assert(a[i] == x);
                assert(cand_lt(store, x, ma));
                lemma_cand_lt_asym(store, x, ma);
                assert(x != ma) by {
                    lemma_cand_lt_asym(store, x, x);
                }
                assert(a.to_set().contains(x));
                assert(b.to_set().contains(x));
                let j = choose|j: int| 0 <= j < b.len() && b[j] == x;
                assert(j < b.len() - 1);
                assert(b.drop_last()[j] == x);
            }
            assert forall|x: u64| #[trigger] b.drop_last().to_set().contains(x)
                implies a.drop_last().to_set().contains(x) by {
                let i = choose|i: int| 0 <= i < b.drop_last().len() && b.drop_last()[i] == x;
                assert(b[i] == x);
                assert(cand_lt(store, x, mb));
                lemma_cand_lt_asym(store, x, mb);
                assert(x != mb) by {
                    lemma_cand_lt_asym(store, x, x);
                }
                assert(b.to_set().contains(x));
                assert(a.to_set().contains(x));
                let j = choose|j: int| 0 <= j < a.len() && a[j] == x;
                assert(j < a.len() - 1);
                assert(a.drop_last()[j] == x);
            }
        }
        assert forall|x: u64, y: u64|
            #![trigger store[x].event_id, store[y].event_id]
            a.drop_last().to_set().contains(x) && a.drop_last().to_set().contains(y) && x != y
            implies store[x].event_id@ !== store[y].event_id@ by {
            let i = choose|i: int| 0 <= i < a.drop_last().len() && a.drop_last()[i] == x;
            let j = choose|j: int| 0 <= j < a.drop_last().len() && a.drop_last()[j] == y;
            assert(a[i] == x);
            assert(a[j] == y);
            assert(a.to_set().contains(x));
            assert(a.to_set().contains(y));
        }
        lemma_cand_sorted_unique(store, a.drop_last(), b.drop_last());
        assert(a =~= a.drop_last().push(ma));
        assert(b =~= b.drop_last().push(mb));
    }
}

/// Inserts a fresh candidate into a rank-ordered sequence.
fn insert_ranked(store: &EventStore, v: &Vec<u64>, x: u64) -> (r: Vec<u64>)
    requires
        store.wf(),
        store@.dom().contains(x),
        cand_sorted(store@, v@),
        !v@.to_set().contains(x),
        forall|i: int| 0 <= i < v@.len() ==> store@.dom().contains(#[trigger] v@[i]),
    ensures
        cand_sorted(store@, r@),
        r@.to_set() =~= v@.to_set().insert(x),
        forall|i: int| 0 <= i < r@.len() ==> store@.dom().contains(#[trigger] r@[i]),
{
    proof {
        store.lemma_event_ids_injective();
    }
    let mut out: Vec<u64> = Vec::new();
    let mut i: usize = 0;
    while i < v.len() && cand_less(store, v[i], x)
        invariant
            i <= v@.len(),
            store.wf(),
            store@.dom().contains(x),
            cand_sorted(store@, v@),
            !v@.to_set().contains(x),
            forall|j: int| 0 <= j < v@.len() ==> store@.dom().contains(#[trigger] v@[j]),
            out@ =~= v@.take(i as int),
            forall|j: int| 0 <= j < i ==> cand_lt(store@, #[trigger] v@[j], x),
        decreases v@.len() - i,
    {
        out.push(v[i]);
        proof {
            assert(out@ =~= v@.take(i + 1));
        }
        i = i + 1;
    }
    let ghost i0 = i as int;
    proof {
        if i0 < v@.len() {
            assert(v@.to_set().contains(v@[i0])) by {
                assert(v@[i0] == v@[i0]);
            }
            assert(v@[i0] != x);
            lemma_cand_lt_connected(store@, v@[i0], x);
            assert(cand_lt(store@, x, v@[i0]));
        }
    }
    out.push(x);
    while i < v.len()
        invariant
            i0 <= i <= v@.len(),
            store.wf(),
            store@.dom().contains(x),
            cand_sorted(store@, v@),
            0 <= i0 <= v@.len(),
            i0 < v@.len() ==> cand_lt(store@, x, v@[i0]),
            forall|j: int| 0 <= j < v@.len() ==> store@.dom().contains(#[trigger] v@[j]),
            forall|j: int| 0 <= j < i0 ==> cand_lt(store@, #[trigger] v@[j], x),
            out@ =~= v@.take(i0).push(x) + v@.subrange(i0, i as int),
        decreases v@.len() - i,
    {
        out.push(v[i]);
        proof {
            assert(out@ =~= v@.take(i0).push(x) + v@.subrange(i0, i + 1));
        }
        i = i + 1;
    }
    proof {
        let s = v@;
        let o = out@;
        assert(o =~= s.take(i0).push(x) + s.subrange(i0, s.len() as int));
        assert forall|a: int, b: int| 0 <= a < b < o.len() implies cand_lt(
            store@,
            #[trigger] o[a],
            #[trigger] o[b],
        ) by {
            if a > i0 {
                assert(o[a] == s[a - 1]);
            }
            if b > i0 {
                assert(o[b] == s[b - 1]);
                if a == i0 && i0 < b - 1 {
                    assert(cand_lt(store@, x, s[i0]));
                    assert(cand_lt(store@, s[i0], s[b - 1]));
                    lemma_cand_lt_chain(store@, x, s[i0], s[b - 1]);
                }
            }
        }
        assert forall|y: u64| #[trigger] o.to_set().contains(y) implies s.to_set().insert(
            x,
        ).contains(y) by {
            let k = choose|k: int| 0 <= k < o.len() && o[k] == y;
            if k < i0 {
                assert(s[k] == y);
                assert(s.to_set().contains(y));
            } else if k > i0 {
                assert(s[k - 1] == y);
                assert(s.to_set().contains(y));
            }
        }
        assert forall|y: u64| #[trigger] s.to_set().insert(x).contains(y) implies o.to_set()
            .contains(y) by {
            if y == x {
                assert(o[i0] == x);
            } else {
                let k = choose|k: int| 0 <= k < s.len() && s[k] == y;
                if k < i0 {
                    assert(o[k] == y);
                } else {
                    assert(o[k + 1] == y);
                }
            }
        }
    }
    out
}

/// The ranking order chains: two steps compose.
pub proof fn lemma_cand_lt_chain(store: Map<u64, Pdu>, a: u64, b: u64, c: u64)
    requires
        cand_lt(store, a, b),
        cand_lt(store, b, c),
    ensures
        cand_lt(store, a, c),
{
    if spec_mainline_rank(store, a) == spec_mainline_rank(store, c) && store[a].depth == store[
        c].depth {
        crate::util::lemma_bytes_lt_transitive(
            store[a].event_id@,
            store[b].event_id@,
            store[c].event_id@,
        );
    }
}

/// Sorts distinct known candidates into ascending rank order.
fn rank_sort(store: &EventStore, v: &Vec<u64>) -> (r: Vec<u64>)
    requires
        store.wf(),
        crate::util::ids_sorted(v@),
        forall|i: int| 0 <= i < v@.len() ==> store@.dom().contains(#[trigger] v@[i]),
    ensures
        cand_sorted(store@, r@),
        r@.to_set() =~= v@.to_set(),
        forall|i: int| 0 <= i < r@.len() ==> store@.dom().contains(#[trigger] r@[i]),
{
    let mut out: Vec<u64> = Vec::new();
    let mut i: usize = 0;
    while i < v.len()
        invariant
            i <= v@.len(),
            store.wf(),
            crate::util::ids_sorted(v@),
            forall|j: int| 0 <= j < v@.len() ==> store@.dom().contains(#[trigger] v@[j]),
            cand_sorted(store@, out@),
            out@.to_set() =~= v@.take(i as int).to_set(),
            forall|j: int| 0 <= j < out@.len() ==> store@.dom().contains(#[trigger] out@[j]),
        decreases v@.len() - i,
    {
        let x = v[i];
        proof {
            // x has not been inserted yet: the prefix holds smaller ids
            if out@.to_set().contains(x) {
                let k = choose|k: int| 0 <= k < v@.take(i as int).len() && v@.take(i as int)[k] == x;
                assert(v@[k] == x);
                assert(v@[k] < v@[i as int]);
            }
            assert(v@.take(i + 1).drop_last() =~= v@.take(i as int));
            assert(v@.take(i + 1).last() == v@[i as int]);
            assert(v@.take(i + 1).to_set() =~= v@.take(i as int).to_set().insert(x));
        }
        let next = insert_ranked(store, &out, x);
        out = next;
        i = i + 1;
    }
    proof {
        assert(v@.take(v@.len() as int) =~= v@);
    }
    out
}


/// The set of state views handed in, regardless of order or
/// repetition.
pub open spec fn input_views(inputs: Seq<Vec<(u64, u64)>>) -> Set<Map<u64, u64>> {
    Set::new(
        |m: Map<u64, u64>| exists|i: int| 0 <= i < inputs.len() && m == pairs_map(inputs[i]@),
    )
}

/// Every key any view binds.
pub open spec fn all_keys(s: Set<Map<u64, u64>>) -> Set<u64> {
    Set::new(|k: u64| exists|m: Map<u64, u64>| #[trigger] s.contains(m) && m.dom().contains(k))
}

/// Every view binds `k`, and all to one value.
pub open spec fn key_unconflicted(s: Set<Map<u64, u64>>, k: u64) -> bool {
    &&& forall|m: Map<u64, u64>| #[trigger] s.contains(m) ==> m.dom().contains(k)
    &&& forall|m1: Map<u64, u64>, m2: Map<u64, u64>|
        #![trigger s.contains(m1), s.contains(m2)]
        s.contains(m1) && s.contains(m2) ==> m1[k] == m2[k]
}

/// The entries on which every view agrees, kept verbatim.
pub open spec fn unconflicted(s: Set<Map<u64, u64>>) -> Map<u64, u64> {
    Map::new(
        |k: u64| all_keys(s).contains(k) && key_unconflicted(s, k),
        |k: u64| s.choose()[k],
    )
}

/// The conflicting candidate events: every value bound under a key on
/// which the views do not agree.
pub open spec fn candidates(s: Set<Map<u64, u64>>) -> Set<u64> {
    Set::new(
        |e: u64| exists|m: Map<u64, u64>, k: u64|
            #![trigger s.contains(m), m.dom().contains(k)]
            s.contains(m) && m.dom().contains(k) && !key_unconflicted(s, k) && m[k] == e,
    )
}

/// The events fed to iterative authorization: the conflicting
/// candidates and their auth chains, kept to those known locally and
/// bearing a state key.
pub open spec fn eligible(store: Map<u64, Pdu>, s: Set<Map<u64, u64>>) -> Set<u64> {
    Set::new(
        |e: u64| (candidates(s).contains(e) || crate::auth_chain::auth_closure_from(
            store,
            candidates(s),
        ).contains(e)) && store.dom().contains(e) && store[e].skey is Some,
    )
}

/// A valid ranked ordering of the eligible events.
pub open spec fn ord_ok(store: Map<u64, Pdu>, s: Set<Map<u64, u64>>, ord: Seq<u64>) -> bool {
    cand_sorted(store, ord) && ord.to_set() == eligible(store, s)
}

/// Each input view is a member of the view set.
pub proof fn lemma_view_member(inputs: Seq<Vec<(u64, u64)>>, i: int)
    requires
        0 <= i < inputs.len(),
    ensures
        input_views(inputs).contains(pairs_map(inputs[i]@)),
{
    let m0 = pairs_map(inputs[i]@);
    assert(exists|j: int| 0 <= j < inputs.len() && m0 == pairs_map(inputs[j]@)) by {
        assert(0 <= i < inputs.len() && m0 == pairs_map(inputs[i]@));
    }
}

/// Decides whether the views agree on `k`, and on what.
fn classify_key(inputs: &Vec<Vec<(u64, u64)>>, k: u64) -> (r: Option<u64>)
    requires
        inputs@.len() > 0,
        forall|i: int| 0 <= i < inputs@.len() ==> pairs_sorted((#[trigger] inputs@[i])@),
    ensures
        match r {
            Some(v) => key_unconflicted(input_views(inputs@), k) && (forall|m: Map<u64, u64>|
                #[trigger] input_views(inputs@).contains(m) ==> m.dom().contains(k) && m[k] == v),
            None => !key_unconflicted(input_views(inputs@), k),
        },
{
    let ghost s = input_views(inputs@);
    let mut val: u64 = 0;
    let mut have: bool = false;
    let mut ii: usize = 0;
    while ii < inputs.len()
        invariant
            ii <= inputs@.len(),
            forall|i: int| 0 <= i < inputs@.len() ==> pairs_sorted((#[trigger] inputs@[i])@),
            have == (ii > 0),
            forall|i: int|
                0 <= i < ii ==> pairs_map((#[trigger] inputs@[i])@).dom().contains(k) && pairs_map(
                    inputs@[i]@,
                )[k] == val,
        decreases inputs@.len() - ii,
    {
        match crate::util::state_get(&inputs[ii], k) {
            Some(v) => {
                if have {
                    if v != val {
                        proof {
                            lemma_view_member(inputs@, 0);
                            lemma_view_member(inputs@, ii as int);
                            let m1 = pairs_map(inputs@[0]@);
                            let m2 = pairs_map(inputs@[ii as int]@);
                            assert(m1[k] == val);
                            assert(m2[k] == v);
                        }
                        return None;
                    }
                } else {
                    val = v;
                    have = true;
                }
            },
            None => {
                proof {
                    lemma_view_member(inputs@, ii as int);
                    assert(!pairs_map(inputs@[ii as int]@).dom().contains(k));
                }
                return None;
            },
        }
        ii = ii + 1;
    }
    proof {
        assert forall|m: Map<u64, u64>| #[trigger] s.contains(m) implies m.dom().contains(k)
            && m[k] == val by {
            let i = choose|i: int| 0 <= i < inputs@.len() && m == pairs_map(inputs@[i]@);
        }
    }
    Some(val)
}

/// Collects every value the views bind under `k`.
fn values_of_key(inputs: &Vec<Vec<(u64, u64)>>, k: u64) -> (vs: Vec<u64>)
    requires
        forall|i: int| 0 <= i < inputs@.len() ==> pairs_sorted((#[trigger] inputs@[i])@),
    ensures
        forall|e: u64| #[trigger]
            vs@.to_set().contains(e) <==> exists|m: Map<u64, u64>| #[trigger] input_views(
                inputs@,
            ).contains(m) && m.dom().contains(k) && m[k] == e,
{
    let ghost s = input_views(inputs@);
    let mut vs: Vec<u64> = Vec::new();
    let mut ii: usize = 0;
    while ii < inputs.len()
        invariant
            ii <= inputs@.len(),
            forall|i: int| 0 <= i < inputs@.len() ==> pairs_sorted((#[trigger] inputs@[i])@),
            forall|e: u64| #[trigger]
                vs@.to_set().contains(e) <==> exists|i: int|
                    0 <= i < ii && pairs_map((#[trigger] inputs@[i])@).dom().contains(k)
                        && pairs_map(inputs@[i]@)[k] == e,
        decreases inputs@.len() - ii,
    {
        let ghost vs0 = vs@;
        match crate::util::state_get(&inputs[ii], k) {
            Some(v) => {
                vs.push(v);
                proof {
                    assert forall|e: u64| #[trigger] vs@.to_set().contains(e) implies exists|i: int|
                        0 <= i < ii + 1 && pairs_map((#[trigger] inputs@[i])@).dom().contains(k)
                            && pairs_map(inputs@[i]@)[k] == e by {
                        let j = choose|j: int| 0 <= j < vs@.len() && vs@[j] == e;
                        if j < vs0.len() {
                            assert(vs0[j] == e);
                            assert(vs0.to_set().contains(e));
                        } else {
                            assert(e == v);
                            assert(pairs_map(inputs@[ii as int]@).dom().contains(k) && pairs_map(
                                inputs@[ii as int]@,
                            )[k] == e);
                        }
                    }
                    assert forall|e: u64|
                        (exists|i: int|
                            0 <= i < ii + 1 && pairs_map((#[trigger] inputs@[i])@).dom().contains(k)
                                && pairs_map(inputs@[i]@)[k] == e) implies #[trigger] vs@.to_set()
                        .contains(e) by {
                        let i = choose|i: int|
                            0 <= i < ii + 1 && pairs_map((#[trigger] inputs@[i])@).dom().contains(k)
                                && pairs_map(inputs@[i]@)[k] == e;
                        if i < ii {
                            assert(vs0.to_set().contains(e));
                            let j = choose|j: int| 0 <= j < vs0.len() && vs0[j] == e;
                            assert(vs@[j] == e);
                        } else {
                            assert(vs@[vs@.len() - 1] == v);
                        }
                    }
                }
            },
            None => {
                proof {
                    assert forall|e: u64|
                        (exists|i: int|
                            0 <= i < ii + 1 && pairs_map((#[trigger] inputs@[i])@).dom().contains(k)
                                && pairs_map(inputs@[i]@)[k] == e) implies #[trigger] vs@.to_set()
                        .contains(e) by {
                        let i = choose|i: int|
                            0 <= i < ii + 1 && pairs_map((#[trigger] inputs@[i])@).dom().contains(k)
                                && pairs_map(inputs@[i]@)[k] == e;
                        assert(i < ii);
                    }
                }
            },
        }
        ii = ii + 1;
    }
    proof {
        assert forall|e: u64| #[trigger] vs@.to_set().contains(e) implies exists|m: Map<u64, u64>|
            #[trigger] s.contains(m) && m.dom().contains(k) && m[k] == e by {
            let i = choose|i: int|
                0 <= i < inputs@.len() && pairs_map((#[trigger] inputs@[i])@).dom().contains(k)
                    && pairs_map(inputs@[i]@)[k] == e;
            lemma_view_member(inputs@, i);
        }
        assert forall|e: u64|
            (exists|m: Map<u64, u64>| #[trigger] s.contains(m) && m.dom().contains(k) && m[k]
                == e) implies #[trigger] vs@.to_set().contains(e) by {
            let m = choose|m: Map<u64, u64>|
                #[trigger] s.contains(m) && m.dom().contains(k) && m[k] == e;
            let i = choose|i: int| 0 <= i < inputs@.len() && m == pairs_map(inputs@[i]@);
        }
    }
    vs
}

/// Reads the ban level off the state `acc`.
fn ban_level_exec(store: &EventStore, acc: &Vec<(u64, u64)>) -> (r: i64)
    requires
        store.wf(),
        pairs_sorted(acc@),
        state_wf(store@, pairs_map(acc@)),
    ensures
        r == spec_ban_level(store@, pairs_map(acc@)),
{
    match find_power_exec(store, acc) {
        Some(pw) => match store.get(pw) {
            Some(p) => match &p.content {
                Content::Power(pc) => pc.ban,
                _ => DEFAULT_BAN_LEVEL,
            },
            None => {
                proof {
                    assert(false);
                }
                DEFAULT_BAN_LEVEL
            },
        },
        None => DEFAULT_BAN_LEVEL,
    }
}


/// Resolves divergent state views into one canonical state set.
///
/// The result is pinned to the ranked-iteration semantics over the
/// *set* of input views: entries all views agree on are kept, the
/// conflicting candidates and their auth chains are ranked and
/// iteratively authorized, and the surviving entries are returned in
/// canonical order. The room version is carried for interface parity;
/// the authorization rules here coincide for all supported versions,
/// so it does not enter the semantics.
#[verifier::loop_isolation(false)]
#[verifier::rlimit(100)]
pub fn resolve_state(
    store: &EventStore,
    room_version: u64,
    inputs: &Vec<Vec<(u64, u64)>>,
) -> (r: Vec<(u64, u64)>)
    requires
        store.wf(),
        forall|i: int| 0 <= i < inputs@.len() ==> pairs_sorted((#[trigger] inputs@[i])@),
        forall|i: int|
            0 <= i < inputs@.len() ==> state_wf(store@, pairs_map((#[trigger] inputs@[i])@)),
    ensures
        pairs_sorted(r@),
        state_wf(store@, pairs_map(r@)),
        exists|ord: Seq<u64>|
            #[trigger] ord_ok(store@, input_views(inputs@), ord) && pairs_map(r@) == iterate_auth(
                store@,
                ord,
                unconflicted(input_views(inputs@)),
            ),
{
    let ghost s = input_views(inputs@);
    if inputs.len() == 0 {
        let out: Vec<(u64, u64)> = Vec::new();
        proof {
            assert(s =~= Set::<Map<u64, u64>>::empty());
            assert(candidates(s) =~= Set::<u64>::empty());
            assert(auth_closed_from_empty(store@));
            crate::auth_chain::lemma_closure_least_from(
                store@,
                candidates(s),
                Set::<u64>::empty(),
            );
            assert(eligible(store@, s) =~= Set::<u64>::empty());
            let ord0 = Seq::<u64>::empty();
            assert(ord0.to_set() =~= Set::<u64>::empty());
            assert(unconflicted(s) =~= Map::<u64, u64>::empty());
            assert(pairs_map(out@) =~= Map::<u64, u64>::empty());
            assert(ord_ok(store@, s, ord0) && pairs_map(out@) == iterate_auth(
                store@,
                ord0,
                unconflicted(s),
            ));
        }
        return out;
    }
    // gather every key any view binds
    let mut allkeys: Vec<u64> = Vec::new();
    let mut i: usize = 0;
    while i < inputs.len()
        invariant
            i <= inputs@.len(),
            crate::util::ids_sorted(allkeys@),
            forall|k: u64| #[trigger]
                allkeys@.to_set().contains(k) <==> exists|ii: int|
                    0 <= ii < i && crate::util::key_in((#[trigger] inputs@[ii])@, k),
        decreases inputs@.len() - i,
    {
        let sv = &inputs[i];
        let mut j: usize = 0;
        while j < sv.len()
            invariant
                j <= sv@.len(),
                sv == inputs@[i as int],
                i < inputs@.len(),
                crate::util::ids_sorted(allkeys@),
                forall|k: u64| #[trigger]
                    allkeys@.to_set().contains(k) <==> (exists|ii: int|
                        0 <= ii < i && crate::util::key_in((#[trigger] inputs@[ii])@, k)) || (
                    exists|jj: int| 0 <= jj < j && (#[trigger] sv@[jj]).0 == k),
            decreases sv@.len() - j,
        {
            let k = sv[j].0;
            let ghost a0 = allkeys@;
            let next = crate::util::sorted_insert(&allkeys, k);
            allkeys = next;
            proof {
                assert forall|kk: u64| #[trigger] allkeys@.to_set().contains(kk) implies ((exists|
                    ii: int,
                |
                    0 <= ii < i && crate::util::key_in((#[trigger] inputs@[ii])@, kk)) || (exists|
                    jj: int,
                |
                    0 <= jj < j + 1 && (#[trigger] sv@[jj]).0 == kk)) by {
                    if kk == k {
                        assert(sv@[j as int].0 == kk);
                    } else {
                        assert(a0.to_set().contains(kk));
                    }
                }
                assert forall|kk: u64|
                    ((exists|ii: int|
                        0 <= ii < i && crate::util::key_in((#[trigger] inputs@[ii])@, kk)) || (
                    exists|jj: int|
                        0 <= jj < j + 1 && (#[trigger] sv@[jj]).0 == kk)) implies #[trigger] allkeys@
                    .to_set().contains(kk) by {
                    if kk == k {
                    } else {
                        if exists|jj: int| 0 <= jj < j + 1 && (#[trigger] sv@[jj]).0 == kk {
                            let jj = choose|jj: int| 0 <= jj < j + 1 && (#[trigger] sv@[jj]).0 == kk;
                            assert(jj < j);
                            assert(a0.to_set().contains(kk));
                        } else {
                            assert(a0.to_set().contains(kk));
                        }
                    }
                }
            }
            j = j + 1;
        }
        proof {
            assert forall|k: u64| #[trigger] allkeys@.to_set().contains(k) implies exists|ii: int|
                0 <= ii < i + 1 && crate::util::key_in((#[trigger] inputs@[ii])@, k) by {
                if exists|jj: int| 0 <= jj < sv@.len() && (#[trigger] sv@[jj]).0 == k {
                    assert(crate::util::key_in(inputs@[i as int]@, k));
                }
            }
            assert forall|k: u64|
                (exists|ii: int| 0 <= ii < i + 1 && crate::util::key_in((#[trigger] inputs@[ii])@, k))
                implies #[trigger] allkeys@.to_set().contains(k) by {
                let ii = choose|ii: int|
                    0 <= ii < i + 1 && crate::util::key_in((#[trigger] inputs@[ii])@, k);
                if ii == i {
                    let jj = choose|jj: int|
                        0 <= jj < inputs@[ii]@.len() && (#[trigger] inputs@[ii]@[jj]).0 == k;
                    assert(sv@[jj].0 == k);
                }
            }
        }
        i = i + 1;
    }
    proof {
        // the gathered keys are exactly the keys of the view set
        assert forall|k: u64| #[trigger] allkeys@.to_set().contains(k) implies all_keys(s).contains(
            k,
        ) by {
            let ii = choose|ii: int|
                0 <= ii < inputs@.len() && crate::util::key_in((#[trigger] inputs@[ii])@, k);
            crate::util::lemma_pairs_map_domain(inputs@[ii]@);
            lemma_view_member(inputs@, ii);
            let m0 = pairs_map(inputs@[ii]@);
            assert(s.contains(m0) && m0.dom().contains(k));
        }
        assert forall|k: u64| #[trigger] all_keys(s).contains(k) implies allkeys@.to_set().contains(
            k,
        ) by {
            let m = choose|m: Map<u64, u64>| #[trigger] s.contains(m) && m.dom().contains(k);
            let ii = choose|ii: int| 0 <= ii < inputs@.len() && m == pairs_map(inputs@[ii]@);
            crate::util::lemma_pairs_map_domain(inputs@[ii]@);
        }
        assert(allkeys@.to_set() =~= all_keys(s));
    }
    // partition into agreed entries and conflicting candidates
    let mut base: Vec<(u64, u64)> = Vec::new();
    let mut cand_raw: Vec<u64> = Vec::new();
    let mut ki: usize = 0;
    while ki < allkeys.len()
        invariant
            ki <= allkeys@.len(),
            pairs_sorted(base@),
            forall|j: int|
                0 <= j < base@.len() ==> allkeys@.take(ki as int).to_set().contains(
                    (#[trigger] base@[j]).0,
                ) && key_unconflicted(s, base@[j].0) && (forall|m: Map<u64, u64>| #[trigger]
                    s.contains(m) ==> m.dom().contains(base@[j].0) && m[base@[j].0] == base@[j].1),
            forall|k: u64|
                #![trigger key_unconflicted(s, k)]
                allkeys@.take(ki as int).to_set().contains(k) && key_unconflicted(s, k)
                    ==> crate::util::key_in(base@, k),
            forall|e: u64| #[trigger]
                cand_raw@.to_set().contains(e) <==> exists|m: Map<u64, u64>, k: u64|
                    #![trigger s.contains(m), m.dom().contains(k)]
                    s.contains(m) && m.dom().contains(k) && !key_unconflicted(s, k) && m[k] == e
                        && allkeys@.take(ki as int).to_set().contains(k),
        decreases allkeys@.len() - ki,
    {
        let k = allkeys[ki];
        let ghost b0 = base@;
        let ghost c0 = cand_raw@;
        proof {
            assert(allkeys@.take(ki + 1).drop_last() =~= allkeys@.take(ki as int));
            assert(allkeys@.take(ki + 1).last() == allkeys@[ki as int]);
            assert(allkeys@.take(ki + 1).to_set() =~= allkeys@.take(ki as int).to_set().insert(k));
        }
        match classify_key(inputs, k) {
            Some(v) => {
                proof {
                    assert forall|j: int| 0 <= j < base@.len() implies (#[trigger] base@[j]).0
                        < k by {
                        let w = choose|w: int|
                            0 <= w < allkeys@.take(ki as int).len() && allkeys@.take(ki as int)[w]
                                == base@[j].0;
                        assert(allkeys@[w] == base@[j].0);
                        assert(allkeys@[w] < allkeys@[ki as int]);
                    }
                }
                base.push((k, v));
                proof {
                    assert forall|k2: u64|
                        #![trigger key_unconflicted(s, k2)]
                        allkeys@.take(ki + 1).to_set().contains(k2) && key_unconflicted(s, k2)
                        implies crate::util::key_in(base@, k2) by {
                        if k2 == k {
                            assert(base@[base@.len() - 1].0 == k);
                        } else {
                            assert(crate::util::key_in(b0, k2));
                            let j = choose|j: int| 0 <= j < b0.len() && (#[trigger] b0[j]).0 == k2;
                            assert(base@[j].0 == k2);
                        }
                    }
                    assert forall|e: u64| #[trigger]
                        cand_raw@.to_set().contains(e) implies exists|m: Map<u64, u64>, k2: u64|
                        #![trigger s.contains(m), m.dom().contains(k2)]
                        s.contains(m) && m.dom().contains(k2) && !key_unconflicted(s, k2) && m[k2]
                            == e && allkeys@.take(ki + 1).to_set().contains(k2) by {
                        let (m, k2) = choose|m: Map<u64, u64>, k2: u64|
                            #![trigger s.contains(m), m.dom().contains(k2)]
                            s.contains(m) && m.dom().contains(k2) && !key_unconflicted(s, k2) && m[
                            k2] == e && allkeys@.take(ki as int).to_set().contains(k2);
                        assert(allkeys@.take(ki + 1).to_set().contains(k2));
                    }
                    assert forall|e: u64|
                        (exists|m: Map<u64, u64>, k2: u64|
                            #![trigger s.contains(m), m.dom().contains(k2)]
                            s.contains(m) && m.dom().contains(k2) && !key_unconflicted(s, k2) && m[
                            k2] == e && allkeys@.take(ki + 1).to_set().contains(k2))
                        implies #[trigger] cand_raw@.to_set().contains(e) by {
                        let (m, k2) = choose|m: Map<u64, u64>, k2: u64|
                            #![trigger s.contains(m), m.dom().contains(k2)]
                            s.contains(m) && m.dom().contains(k2) && !key_unconflicted(s, k2) && m[
                            k2] == e && allkeys@.take(ki + 1).to_set().contains(k2);
                        assert(k2 != k);
                        assert(allkeys@.take(ki as int).to_set().contains(k2));
                    }
                }
            },
            None => {
                let vs = values_of_key(inputs, k);
                let mut vi: usize = 0;
                while vi < vs.len()
                    invariant
                        vi <= vs@.len(),
                        !key_unconflicted(s, k),
                        allkeys@.take(ki + 1).to_set().contains(k),
                        forall|e: u64| #[trigger]
                            vs@.to_set().contains(e) <==> exists|m: Map<u64, u64>| #[trigger]
                                s.contains(m) && m.dom().contains(k) && m[k] == e,
                        forall|e: u64| #[trigger]
                            cand_raw@.to_set().contains(e) <==> (c0.to_set().contains(e) || (
                            exists|vj: int| 0 <= vj < vi && (#[trigger] vs@[vj]) == e)),
                    decreases vs@.len() - vi,
                {
                    let ghost c1 = cand_raw@;
                    cand_raw.push(vs[vi]);
                    proof {
                        assert forall|e: u64| #[trigger] cand_raw@.to_set().contains(e) implies (
                        c0.to_set().contains(e) || (exists|vj: int|
                            0 <= vj < vi + 1 && (#[trigger] vs@[vj]) == e)) by {
                            let w = choose|w: int| 0 <= w < cand_raw@.len() && cand_raw@[w] == e;
                            if w < c1.len() {
                                assert(c1[w] == e);
                                assert(c1.to_set().contains(e));
                            } else {
                                assert(vs@[vi as int] == e);
                            }
                        }
                        assert forall|e: u64|
                            (c0.to_set().contains(e) || (exists|vj: int|
                                0 <= vj < vi + 1 && (#[trigger] vs@[vj]) == e)) implies #[trigger]
                        cand_raw@.to_set().contains(e) by {
                            if c0.to_set().contains(e) {
                                assert(c1.to_set().contains(e));
                                let w = choose|w: int| 0 <= w < c1.len() && c1[w] == e;
                                assert(cand_raw@[w] == e);
                            } else {
                                let vj = choose|vj: int|
                                    0 <= vj < vi + 1 && (#[trigger] vs@[vj]) == e;
                                if vj < vi {
                                    assert(c1.to_set().contains(e));
                                    let w = choose|w: int| 0 <= w < c1.len() && c1[w] == e;
                                    assert(cand_raw@[w] == e);
                                } else {
                                    assert(cand_raw@[cand_raw@.len() - 1] == e);
                                }
                            }
                        }
                    }
                    vi = vi + 1;
                }
                proof {
                    assert forall|e: u64| #[trigger]
                        cand_raw@.to_set().contains(e) implies exists|m: Map<u64, u64>, k2: u64|
                        #![trigger s.contains(m), m.dom().contains(k2)]
                        s.contains(m) && m.dom().contains(k2) && !key_unconflicted(s, k2) && m[k2]
                            == e && allkeys@.take(ki + 1).to_set().contains(k2) by {
                        if c0.to_set().contains(e) {
                            let (m, k2) = choose|m: Map<u64, u64>, k2: u64|
                                #![trigger s.contains(m), m.dom().contains(k2)]
                                s.contains(m) && m.dom().contains(k2) && !key_unconflicted(s, k2)
                                    && m[k2] == e && allkeys@.take(ki as int).to_set().contains(k2);
                            assert(allkeys@.take(ki + 1).to_set().contains(k2));
                        } else {
                            assert(vs@.to_set().contains(e));
                            let m = choose|m: Map<u64, u64>| #[trigger]
                                s.contains(m) && m.dom().contains(k) && m[k] == e;
                        }
                    }
                    assert forall|e: u64|
                        (exists|m: Map<u64, u64>, k2: u64|
                            #![trigger s.contains(m), m.dom().contains(k2)]
                            s.contains(m) && m.dom().contains(k2) && !key_unconflicted(s, k2) && m[
                            k2] == e && allkeys@.take(ki + 1).to_set().contains(k2))
                        implies #[trigger] cand_raw@.to_set().contains(e) by {
                        let (m, k2) = choose|m: Map<u64, u64>, k2: u64|
                            #![trigger s.contains(m), m.dom().contains(k2)]
                            s.contains(m) && m.dom().contains(k2) && !key_unconflicted(s, k2) && m[
                            k2] == e && allkeys@.take(ki + 1).to_set().contains(k2);
                        if k2 == k {
                            assert(vs@.to_set().contains(e));
                            let vj = choose|vj: int| 0 <= vj < vs@.len() && vs@[vj] == e;
                        } else {
                            assert(allkeys@.take(ki as int).to_set().contains(k2));
                            assert(c0.to_set().contains(e));
                        }
                    }
                    assert forall|k2: u64|
                        #![trigger key_unconflicted(s, k2)]
                        allkeys@.take(ki + 1).to_set().contains(k2) && key_unconflicted(s, k2)
                        implies crate::util::key_in(base@, k2) by {
                        assert(k2 != k);
                        assert(allkeys@.take(ki as int).to_set().contains(k2));
                    }
                }
            },
        }
        ki = ki + 1;
    }
    proof {
        assert(allkeys@.take(allkeys@.len() as int) =~= allkeys@);
        // the agreed entries are exactly the unconflicted map
        lemma_view_member(inputs@, 0);
        let m0 = pairs_map(inputs@[0]@);
        crate::util::lemma_pairs_map_domain(base@);
        assert forall|k: u64| crate::util::key_in(base@, k) implies #[trigger] unconflicted(
            s,
        ).dom().contains(k) by {
            let j = choose|j: int| 0 <= j < base@.len() && (#[trigger] base@[j]).0 == k;
            assert(s.contains(m0) && m0.dom().contains(k));
            assert(all_keys(s).contains(k));
        }
        assert forall|k: u64| #[trigger]
            unconflicted(s).dom().contains(k) implies crate::util::key_in(base@, k) by {}
        assert forall|j: int| 0 <= j < base@.len() implies unconflicted(s)[(
        #[trigger] base@[j]).0] == base@[j].1 by {
            assert(s.contains(s.choose()));
            assert(s.choose()[base@[j].0] == base@[j].1);
        }
        crate::util::lemma_pairs_map_eq(base@, unconflicted(s));
        assert forall|k: u64| #[trigger]
            pairs_map(base@).dom().contains(k) implies store@.dom().contains(pairs_map(base@)[k])
            && store@[pairs_map(base@)[k]].skey == Some(k) by {
            let j = choose|j: int| 0 <= j < base@.len() && (#[trigger] base@[j]).0 == k;
            crate::util::lemma_pairs_map_index(base@, j);
            assert(m0.dom().contains(k) && m0[k] == base@[j].1);
        }
        // the collected values are exactly the candidate set
        assert forall|e: u64| #[trigger] cand_raw@.to_set().contains(e) implies candidates(
            s,
        ).contains(e) by {
            let (m, k2) = choose|m: Map<u64, u64>, k2: u64|
                #![trigger s.contains(m), m.dom().contains(k2)]
                s.contains(m) && m.dom().contains(k2) && !key_unconflicted(s, k2) && m[k2] == e
                    && allkeys@.take(allkeys@.len() as int).to_set().contains(k2);
        }
        assert forall|e: u64| #[trigger] candidates(s).contains(e) implies cand_raw@.to_set()
            .contains(e) by {
            let (m, k2) = choose|m: Map<u64, u64>, k2: u64|
                #![trigger s.contains(m), m.dom().contains(k2)]
                s.contains(m) && m.dom().contains(k2) && !key_unconflicted(s, k2) && m[k2] == e;
            assert(all_keys(s).contains(k2));
            assert(allkeys@.to_set().contains(k2));
        }
        assert(cand_raw@.to_set() =~= candidates(s));
    }
    // the conflicting candidates and their auth chains
    let cands = crate::util::sort_dedup(&cand_raw);
    let chain = crate::auth_chain::event_ids_iter(store, &cands);
    proof {
        crate::auth_chain::lemma_closure_seq_set(store@, cands@);
        assert(cands@.to_set() =~= candidates(s));
        assert(chain@.to_set() == crate::auth_chain::auth_closure_from(store@, candidates(s)));
    }
    let mut dvec = chain;
    let mut ci: usize = 0;
    while ci < cands.len()
        invariant
            ci <= cands@.len(),
            crate::util::ids_sorted(dvec@),
            dvec@.to_set() =~= crate::auth_chain::auth_closure_from(store@, candidates(s)).union(
                cands@.take(ci as int).to_set(),
            ),
        decreases cands@.len() - ci,
    {
        proof {
            assert(cands@.take(ci + 1).drop_last() =~= cands@.take(ci as int));
            assert(cands@.take(ci + 1).last() == cands@[ci as int]);
            assert(cands@.take(ci + 1).to_set() =~= cands@.take(ci as int).to_set().insert(
                cands@[ci as int],
            ));
        }
        let next = crate::util::sorted_insert(&dvec, cands[ci]);
        dvec = next;
        ci = ci + 1;
    }
    proof {
        assert(cands@.take(cands@.len() as int) =~= cands@);
    }
    // keep the known, state-bearing events
    let mut evec: Vec<u64> = Vec::new();
    let mut di: usize = 0;
    while di < dvec.len()
        invariant
            di <= dvec@.len(),
            crate::util::ids_sorted(dvec@),
            crate::util::ids_sorted(evec@),
            forall|j: int| 0 <= j < evec@.len() ==> store@.dom().contains(#[trigger] evec@[j]),
            forall|e: u64| #[trigger]
                evec@.to_set().contains(e) <==> dvec@.take(di as int).to_set().contains(e)
                    && store@.dom().contains(e) && store@[e].skey is Some,
        decreases dvec@.len() - di,
    {
        let e = dvec[di];
        let ghost e0 = evec@;
        proof {
            assert(dvec@.take(di + 1).drop_last() =~= dvec@.take(di as int));
            assert(dvec@.take(di + 1).last() == dvec@[di as int]);
            assert(dvec@.take(di + 1).to_set() =~= dvec@.take(di as int).to_set().insert(e));
        }
        match store.get(e) {
            Some(p) => {
                if p.has_state_key() {
                    proof {
                        assert forall|j: int| 0 <= j < e0.len() implies #[trigger] e0[j] < e by {
                            assert(e0.to_set().contains(e0[j]));
                            let w = choose|w: int|
                                0 <= w < dvec@.take(di as int).len() && dvec@.take(di as int)[w]
                                    == e0[j];
                            assert(dvec@[w] == e0[j]);
                            assert(dvec@[w] < dvec@[di as int]);
                        }
                    }
                    evec.push(e);
                    proof {
                        assert forall|x: u64| #[trigger] evec@.to_set().contains(x) implies dvec@
                            .take(di + 1).to_set().contains(x) && store@.dom().contains(x)
                            && store@[x].skey is Some by {
                            let w = choose|w: int| 0 <= w < evec@.len() && evec@[w] == x;
                            if w < e0.len() {
                                assert(e0[w] == x);
                                assert(e0.to_set().contains(x));
                            } else {
                                assert(x == e);
                            }
                        }
                        assert forall|x: u64|
                            dvec@.take(di + 1).to_set().contains(x) && store@.dom().contains(x)
                                && store@[x].skey is Some implies #[trigger] evec@.to_set()
                            .contains(x) by {
                            if x == e {
                                assert(evec@[evec@.len() - 1] == e);
                            } else {
                                assert(dvec@.take(di as int).to_set().contains(x));
                                assert(e0.to_set().contains(x));
                                let w = choose|w: int| 0 <= w < e0.len() && e0[w] == x;
                                assert(evec@[w] == x);
                            }
                        }
                    }
                }
            },
            None => {},
        }
        di = di + 1;
    }
    proof {
        assert(dvec@.take(dvec@.len() as int) =~= dvec@);
        assert forall|e: u64| #[trigger] evec@.to_set().contains(e) implies eligible(
            store@,
            s,
        ).contains(e) by {}
        assert forall|e: u64| #[trigger] eligible(store@, s).contains(e) implies evec@.to_set()
            .contains(e) by {
            assert(dvec@.to_set().contains(e));
        }
        assert(evec@.to_set() =~= eligible(store@, s));
    }
    // rank and iterate
    let ord = rank_sort(store, &evec);
    let ghost base_m = unconflicted(s);
    let mut acc = base;
    let mut t: usize = 0;
    while t < ord.len()
        invariant
            t <= ord@.len(),
            pairs_sorted(acc@),
            state_wf(store@, pairs_map(acc@)),
            pairs_map(acc@) == iterate_auth(store@, ord@.take(t as int), base_m),
            forall|j: int| 0 <= j < ord@.len() ==> store@.dom().contains(#[trigger] ord@[j]),
            ord@.to_set() == eligible(store@, s),
        decreases ord@.len() - t,
    {
        let e = ord[t];
        proof {
            assert(ord@.to_set().contains(e)) by {
                assert(ord@[t as int] == e);
            }
            assert(store@[e].skey is Some);
            assert(ord@.take(t + 1).drop_last() =~= ord@.take(t as int));
            assert(ord@.take(t + 1).last() == ord@[t as int]);
        }
        if authorized_exec(store, e, &acc) {
            match store.get(e) {
                Some(p) => {
                    match p.skey {
                        Some(k) => {
                            let next = crate::util::state_set(&acc, k, e);
                            acc = next;
                        },
                        None => {
                            proof {
                                assert(false);
                            }
                        },
                    }
                },
                None => {
                    proof {
                        assert(false);
                    }
                },
            }
        }
        t = t + 1;
    }
    proof {
        assert(ord@.take(ord@.len() as int) =~= ord@);
        assert(ord_ok(store@, s, ord@) && pairs_map(acc@) == iterate_auth(store@, ord@, base_m));
    }
    acc
}

/// The empty seed set closes to nothing.
pub open spec fn auth_closed_from_empty(store: Map<u64, Pdu>) -> bool {
    crate::auth_chain::auth_closed_from(store, Set::empty(), Set::empty())
}

/// Determinism: two resolutions over the same set of state views — in
/// whatever delivery order, with whatever repetition — return
/// entry-for-entry identical state sets. The hypotheses are exactly
/// what `resolve_state` ensures of each run.
pub proof fn lemma_resolution_deterministic(
    store: EventStore,
    in1: Seq<Vec<(u64, u64)>>,
    in2: Seq<Vec<(u64, u64)>>,
    ord1: Seq<u64>,
    ord2: Seq<u64>,
    r1: Seq<(u64, u64)>,
    r2: Seq<(u64, u64)>,
)
    requires
        store.wf(),
        input_views(in1) == input_views(in2),
        pairs_sorted(r1),
        pairs_sorted(r2),
        ord_ok(store@, input_views(in1), ord1),
        pairs_map(r1) == iterate_auth(store@, ord1, unconflicted(input_views(in1))),
        ord_ok(store@, input_views(in2), ord2),
        pairs_map(r2) == iterate_auth(store@, ord2, unconflicted(input_views(in2))),
    ensures
        r1 =~= r2,
{
    store.lemma_event_ids_injective();
    assert forall|x: u64, y: u64|
        #![trigger store@[x].event_id, store@[y].event_id]
        ord1.to_set().contains(x) && ord1.to_set().contains(y) && x != y implies store@[
    x].event_id@ !== store@[y].event_id@ by {
        assert(eligible(store@, input_views(in1)).contains(x));
        assert(eligible(store@, input_views(in1)).contains(y));
    }
    lemma_cand_sorted_unique(store@, ord1, ord2);
    assert(ord1 == ord2);
    crate::util::lemma_pairs_map_unique(r1, r2);
}

} // verus!
