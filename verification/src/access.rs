use vstd::prelude::*;

use crate::text::str_eq;
use crate::room::{Room, opt_view};
use crate::grants::GrantCache;

verus! {

/// Marker stored for rooms whose durable record predates ownership metadata.
/// It can never authorize anyone, even a client that submits the same bytes.
pub const LEGACY_UNOWNED_OWNER_KEY: &'static str = "\0cowchat:legacy-unowned";

pub fn legacy_key() -> (r: &'static str)
    ensures r@ == LEGACY_UNOWNED_OWNER_KEY@
{
    LEGACY_UNOWNED_OWNER_KEY
}

/// Who owns a room, matched without regard to visibility.
pub open spec fn owner_matches(owner_key: Option<Seq<char>>, api_key: Seq<char>, auth_disabled: bool) -> bool {
    if owner_key == Some(LEGACY_UNOWNED_OWNER_KEY@) {
        false
    } else {
        auth_disabled || match owner_key {
            Some(k) => api_key.len() > 0 && k == api_key,
            None => api_key.len() == 0,
        }
    }
}

pub fn matches_room_owner(owner_key: Option<&str>, api_key: &str, auth_disabled: bool) -> (r: bool)
    ensures r == owner_matches(match owner_key { Some(k) => Some(k@), None => None }, api_key@, auth_disabled),
{
    match owner_key {
        Some(k) => {
            if str_eq(k, LEGACY_UNOWNED_OWNER_KEY) {
                return false;
            }
            auth_disabled || (!api_key.is_empty() && str_eq(k, api_key))
        }
        None => auth_disabled || api_key.is_empty(),
    }
}

pub open spec fn opt_str_view(o: Option<&str>) -> Option<Seq<char>> {
    match o {
        Some(k) => Some(k@),
        None => None,
    }
}

/// Whether a connection may discover or use a room, by visibility and
/// ownership alone: everyone when authentication is off or the room is
/// public, otherwise only its owner.
pub open spec fn access_allowed(visibility: Seq<char>, owner_key: Option<Seq<char>>, api_key: Seq<char>, auth_disabled: bool) -> bool {
    auth_disabled || visibility == "public"@ || owner_matches(owner_key, api_key, auth_disabled)
}

pub fn can_access_room_parts(visibility: &str, owner_key: Option<&str>, api_key: &str, auth_disabled: bool) -> (r: bool)
    ensures
        r == access_allowed(visibility@, opt_str_view(owner_key), api_key@, auth_disabled),
{
    if auth_disabled || str_eq(visibility, "public") {
        return true;
    }
    matches_room_owner(owner_key, api_key, auth_disabled)
}

/// Full room-access check: visibility and ownership, or an invite grant held
/// by a non-empty key.
pub fn can_access_room(room: &Room, api_key: &str, auth_disabled: bool, grants: &GrantCache) -> (r: bool)
    requires
        grants.wf(),
    ensures
        r == (access_allowed(room.visibility@, opt_view(room.owner_key), api_key@, auth_disabled)
            || (api_key@.len() > 0 && grants.has(api_key@, room.room_id@))),
{
    let owner: Option<&str> = match &room.owner_key {
        Some(k) => Some(k.as_str()),
        None => None,
    };
    can_access_room_parts(room.visibility.as_str(), owner, api_key, auth_disabled)
        || grants.key_has_grant(api_key, room.room_id.as_str())
}

/// The legacy marker authorizes nobody, whatever key is presented and even
/// with authentication off.
pub proof fn lemma_legacy_owner_matches_nobody(api_key: Seq<char>, auth_disabled: bool)
    ensures
        !owner_matches(Some(LEGACY_UNOWNED_OWNER_KEY@), api_key, auth_disabled),
{
}

/// A keyless connection and an API-key connection never own the same room.
pub proof fn lemma_keyless_and_keyed_owners_are_disjoint(owner_key: Option<Seq<char>>, key: Seq<char>)
    requires
        key.len() > 0,
    ensures
        !(owner_matches(owner_key, Seq::empty(), false) && owner_matches(owner_key, key, false)),
{
}

/// Ownership grants access; public visibility grants access but never
/// ownership.
pub proof fn lemma_owner_can_access(visibility: Seq<char>, owner_key: Option<Seq<char>>, api_key: Seq<char>, auth_disabled: bool)
    ensures
        owner_matches(owner_key, api_key, auth_disabled) ==> access_allowed(visibility, owner_key, api_key, auth_disabled),
        visibility == "public"@ ==> access_allowed(visibility, owner_key, api_key, auth_disabled),
{
}

} // verus!
