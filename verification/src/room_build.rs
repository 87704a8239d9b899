//! The compute side of creating and upgrading rooms: which initial
//! state a preset implies, which state events an upgrade carries over,
//! and the power-level bump that locks the old room down. The caller
//! turns these plain decisions into events and feeds them through
//! admission under the room's guard.

use vstd::prelude::*;
use vstd::string::StringSliceAdditionalSpecFns;

use crate::event::JoinRule;

verus! {

/// The creation presets a client may ask for.
#[derive(Clone, Copy, PartialEq, Eq, Structural, Debug)]
pub enum RoomPreset {
    PrivateChat,
    PublicChat,
    TrustedPrivateChat,
}

/// The join rule a fresh room starts under: public rooms are joinable
/// by anyone, everything else is invite-only.
pub fn initial_join_rule(preset: RoomPreset) -> (r: JoinRule)
    ensures
        r == if preset == RoomPreset::PublicChat {
            JoinRule::Public
        } else {
            JoinRule::Invite
        },
{
    match preset {
        RoomPreset::PublicChat => JoinRule::Public,
        _ => JoinRule::Invite,
    }
}

/// Whether guests may join a fresh room: public rooms forbid guest
/// access, private ones allow it.
pub fn initial_guest_access(preset: RoomPreset) -> (r: bool)
    ensures
        r == (preset != RoomPreset::PublicChat),
{
    match preset {
        RoomPreset::PublicChat => false,
        _ => true,
    }
}

/// Whether everyone invited to a trusted private chat shares the
/// creator's power level.
pub fn invitees_share_creator_level(preset: RoomPreset) -> (r: bool)
    ensures
        r == (preset == RoomPreset::TrustedPrivateChat),
{
    match preset {
        RoomPreset::TrustedPrivateChat => true,
        _ => false,
    }
}

/// The level that sending events and inviting takes in a replaced
/// room: the greater of a raised floor and one above the default, so
/// ordinary members can neither post nor invite there any more.
pub fn upgraded_room_lockdown_level(users_default: i64) -> (r: i64)
    requires
        users_default < i64::MAX,
    ensures
        r == if users_default + 1 > 50 {
            users_default + 1
        } else {
            50
        },
{
    if users_default + 1 > 50 {
        users_default + 1
    } else {
        50
    }
}

/// The state events an upgrade replicates into the replacement room,
/// in the order they are sent.
pub fn transferable_state_types() -> (r: Vec<Vec<u8>>)
    ensures
        r@.len() == 9,
        r@[0]@ == "m.room.server_acl".spec_bytes(),
        r@[1]@ == "m.room.encryption".spec_bytes(),
        r@[2]@ == "m.room.name".spec_bytes(),
        r@[3]@ == "m.room.avatar".spec_bytes(),
        r@[4]@ == "m.room.topic".spec_bytes(),
        r@[5]@ == "m.room.guest_access".spec_bytes(),
        r@[6]@ == "m.room.history_visibility".spec_bytes(),
        r@[7]@ == "m.room.join_rules".spec_bytes(),
        r@[8]@ == "m.room.power_levels".spec_bytes(),
{
    let mut r: Vec<Vec<u8>> = Vec::new();
    r.push(vstd::slice::slice_to_vec("m.room.server_acl".as_bytes()));
    r.push(vstd::slice::slice_to_vec("m.room.encryption".as_bytes()));
    r.push(vstd::slice::slice_to_vec("m.room.name".as_bytes()));
    r.push(vstd::slice::slice_to_vec("m.room.avatar".as_bytes()));
    r.push(vstd::slice::slice_to_vec("m.room.topic".as_bytes()));
    r.push(vstd::slice::slice_to_vec("m.room.guest_access".as_bytes()));
    r.push(vstd::slice::slice_to_vec("m.room.history_visibility".as_bytes()));
    r.push(vstd::slice::slice_to_vec("m.room.join_rules".as_bytes()));
    r.push(vstd::slice::slice_to_vec("m.room.power_levels".as_bytes()));
    r
}

} // verus!
