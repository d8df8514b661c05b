use vstd::prelude::*;
use vstd::string::StrSliceExecFns;

use crate::access::{matches_room_owner, owner_matches, LEGACY_UNOWNED_OWNER_KEY};
use crate::text::{is_control, is_trim_of, to_chars, trim_span, control, owned, str_eq, lemma_trim_unique};

verus! {

/// Room names are at most this many Unicode scalar values.
pub const MAX_ROOM_NAME_CHARS: usize = 100;

/// A room as the library reasons about it. Times are milliseconds since the
/// Unix epoch.
#[derive(Debug, Clone)]
pub struct Room {
    pub room_id: String,
    pub name: String,
    pub description: Option<String>,
    pub parent_id: Option<String>,
    pub created_by: Option<String>,
    pub created_at_ms: i64,
    pub visibility: String,
    pub owner_key: Option<String>,
    pub last_activity_ms: Option<i64>,
    pub member_count: Option<u64>,
    pub encrypted: bool,
}

pub open spec fn opt_view(o: Option<String>) -> Option<Seq<char>> {
    match o {
        Some(s) => Some(s@),
        None => None,
    }
}

/// A copy of an optional string.
pub fn clone_opt(o: &Option<String>) -> (r: Option<String>)
    ensures
        opt_view(r) == opt_view(*o),
{
    match o {
        Some(s) => Some(s.clone()),
        None => None,
    }
}

/// The trim of `s` (there is exactly one).
pub open spec fn trimmed(s: Seq<char>) -> Seq<char> {
    choose|t: Seq<char>| is_trim_of(t, s)
}

pub proof fn lemma_trimmed(t: Seq<char>, s: Seq<char>)
    requires
        is_trim_of(t, s),
    ensures
        trimmed(s) == t,
{
    lemma_trim_unique(trimmed(s), t, s);
}

pub open spec fn has_control(s: Seq<char>) -> bool {
    exists|i: int| 0 <= i < s.len() && is_control(#[trigger] s[i])
}

pub open spec fn empty_name_message() -> Seq<char> {
    "Room name cannot be empty"@
}

pub open spec fn control_name_message() -> Seq<char> {
    "Room name cannot contain control characters"@
}

pub open spec fn long_name_message() -> Seq<char> {
    "Room name cannot exceed 100 Unicode scalar values"@
}

/// What canonicalizing a room name yields: the trimmed name, or the reason
/// it is refused.
pub open spec fn room_name_outcome(name: Seq<char>) -> Result<Seq<char>, Seq<char>> {
    let t = trimmed(name);
    if t.len() == 0 {
        Err(empty_name_message())
    } else if has_control(t) {
        Err(control_name_message())
    } else if t.len() > MAX_ROOM_NAME_CHARS {
        Err(long_name_message())
    } else {
        Ok(t)
    }
}

/// Canonicalize and validate a room name: trim white space; refuse empty
/// names, control characters and names over the length limit.
pub fn normalize_room_name(name: &str) -> (r: Result<String, String>)
    ensures
        match r {
            Ok(n) => room_name_outcome(name@) == Ok::<Seq<char>, Seq<char>>(n@),
            Err(m) => room_name_outcome(name@) == Err::<Seq<char>, Seq<char>>(m@),
        },
{
    let chars = to_chars(name);
    let (a, b) = trim_span(&chars);
    proof {
        lemma_trimmed(chars@.subrange(a as int, b as int), name@);
    }
    let ghost t = chars@.subrange(a as int, b as int);
    if a == b {
        return Err(owned("Room name cannot be empty"));
    }
    let mut i: usize = a;
    while i < b
        invariant
            a <= i <= b <= chars@.len(),
            t == chars@.subrange(a as int, b as int),
            t == trimmed(name@),
            chars@ == name@,
            forall|j: int| a <= j < i ==> !is_control(#[trigger] chars@[j]),
        decreases b - i,
    {
        if control(chars[i]) {
            proof {
                assert(t[i - a] == chars@[i as int]);
                assert(has_control(t));
                assert(t.len() > 0);
                assert(room_name_outcome(name@) == Err::<Seq<char>, Seq<char>>(control_name_message()));
            }
            return Err(owned("Room name cannot contain control characters"));
        }
        i = i + 1;
    }
    proof {
        assert forall|j: int| 0 <= j < t.len() implies !is_control(#[trigger] t[j]) by {
            assert(t[j] == chars@[a + j]);
        }
    }
    if b - a > MAX_ROOM_NAME_CHARS {
        return Err(owned("Room name cannot exceed 100 Unicode scalar values"));
    }
    Ok(owned(name.substring_char(a, b)))
}

/// Canonicalizing twice changes nothing.
pub proof fn lemma_room_name_idempotent(name: Seq<char>)
    requires
        room_name_outcome(name) is Ok,
    ensures
        room_name_outcome(room_name_outcome(name)->Ok_0) == room_name_outcome(name),
{
    crate::text::lemma_trim_exists(name);
    let t = trimmed(name);
    assert(t.subrange(0, t.len() as int) =~= t);
    assert(is_trim_of(t, t));
    lemma_trimmed(t, t);
}

/// Why a room-changing request is refused.
#[derive(Debug, Clone, Copy, PartialEq, Eq, Structural)]
pub enum MutationDenial {
    /// The lobby and rooms without a recorded creator are immutable.
    ProtectedRoom,
    /// The caller is not both the recorded creator and the owning principal.
    AccessDenied,
}

#[derive(Debug)]
pub enum DestroyRoomError {
    NotFound,
    AccessDenied,
    ProtectedRoom,
    /// The database refused; its message.
    Db(String),
    Cleanup(String),
}

#[derive(Debug)]
pub enum RenameRoomError {
    NotFound,
    AccessDenied,
    ProtectedRoom,
    InvalidName(String),
    NameTaken(String),
    /// The database refused; its message.
    Db(String),
}

#[derive(Debug)]
pub enum StoreError {
    /// The database refused; its message.
    Db(String),
    RoomNameTaken(String),
    InvalidRoomName(String),
    VoteNotFound,
    VoteClosed,
    AlreadyVoted,
}

/// The decision on a rename or destruction of `room` requested by
/// `agent_id` holding `api_key`.
pub open spec fn mutation_denial(room_id: Seq<char>, created_by: Option<Seq<char>>, owner_key: Option<Seq<char>>,
    agent_id: Seq<char>, api_key: Seq<char>, no_auth: bool) -> Option<MutationDenial> {
    if room_id == "lobby"@ || created_by is None {
        Some(MutationDenial::ProtectedRoom)
    } else if created_by != Some(agent_id) || !owner_matches(owner_key, api_key, no_auth) {
        Some(MutationDenial::AccessDenied)
    } else {
        None
    }
}

/// Authorize a rename or destruction: the room must be an ordinary room,
/// and the caller its recorded creator holding its owning key. Visibility
/// plays no part.
pub fn authorize_room_mutation(room: &Room, agent_id: &str, api_key: &str, no_auth: bool) -> (r: Result<(), MutationDenial>)
    ensures
        match r {
            Ok(()) => mutation_denial(room.room_id@, opt_view(room.created_by), opt_view(room.owner_key), agent_id@, api_key@, no_auth) is None,
            Err(d) => mutation_denial(room.room_id@, opt_view(room.created_by), opt_view(room.owner_key), agent_id@, api_key@, no_auth) == Some(d),
        },
{
    let creator: Option<&str> = match &room.created_by {
        Some(c) => Some(c.as_str()),
        None => None,
    };
    if str_eq(room.room_id.as_str(), "lobby") || creator.is_none() {
        return Err(MutationDenial::ProtectedRoom);
    }
    let is_creator = match creator {
        Some(c) => str_eq(c, agent_id),
        None => false,
    };
    let owner: Option<&str> = match &room.owner_key {
        Some(k) => Some(k.as_str()),
        None => None,
    };
    if !is_creator || !matches_room_owner(owner, api_key, no_auth) {
        return Err(MutationDenial::AccessDenied);
    }
    Ok(())
}

/// Decide a rename to the already canonical `name`: the room with its new
/// name, and whether the stored name must change.
pub fn plan_room_rename(room: Option<Room>, agent_id: &str, api_key: &str, no_auth: bool, name: String) -> (r: Result<(Room, bool), RenameRoomError>)
    ensures
        match room {
            None => r matches Err(RenameRoomError::NotFound),
            Some(rm) => match mutation_denial(rm.room_id@, opt_view(rm.created_by), opt_view(rm.owner_key), agent_id@, api_key@, no_auth) {
                Some(MutationDenial::ProtectedRoom) => r matches Err(RenameRoomError::ProtectedRoom),
                Some(MutationDenial::AccessDenied) => r matches Err(RenameRoomError::AccessDenied),
                None => r is Ok && r->Ok_0.1 == (rm.name@ != name@) && r->Ok_0.0.name@ == name@
                    && r->Ok_0.0.room_id@ == rm.room_id@ && r->Ok_0.0.owner_key == rm.owner_key
                    && r->Ok_0.0.created_by == rm.created_by && r->Ok_0.0.visibility == rm.visibility
                    && r->Ok_0.0.parent_id == rm.parent_id && r->Ok_0.0.description == rm.description,
            },
        },
{
    let mut room = match room {
        Some(rm) => rm,
        None => return Err(RenameRoomError::NotFound),
    };
    match authorize_room_mutation(&room, agent_id, api_key, no_auth) {
        Err(MutationDenial::ProtectedRoom) => return Err(RenameRoomError::ProtectedRoom),
        Err(MutationDenial::AccessDenied) => return Err(RenameRoomError::AccessDenied),
        Ok(()) => {}
    }
    let changed = !str_eq(room.name.as_str(), name.as_str());
    room.name = name;
    Ok((room, changed))
}

/// Decide a destruction: the room to delete, or why not.
pub fn plan_room_destroy(room: Option<Room>, agent_id: &str, api_key: &str, no_auth: bool) -> (r: Result<Room, DestroyRoomError>)
    ensures
        match room {
            None => r matches Err(DestroyRoomError::NotFound),
            Some(rm) => match mutation_denial(rm.room_id@, opt_view(rm.created_by), opt_view(rm.owner_key), agent_id@, api_key@, no_auth) {
                Some(MutationDenial::ProtectedRoom) => r matches Err(DestroyRoomError::ProtectedRoom),
                Some(MutationDenial::AccessDenied) => r matches Err(DestroyRoomError::AccessDenied),
                None => r == Ok::<Room, DestroyRoomError>(rm),
            },
        },
{
    let room = match room {
        Some(rm) => rm,
        None => return Err(DestroyRoomError::NotFound),
    };
    match authorize_room_mutation(&room, agent_id, api_key, no_auth) {
        Err(MutationDenial::ProtectedRoom) => Err(DestroyRoomError::ProtectedRoom),
        Err(MutationDenial::AccessDenied) => Err(DestroyRoomError::AccessDenied),
        Ok(()) => Ok(room),
    }
}

/// How an owner key is persisted: a keyless creator is stored as the empty
/// string, so that it stays distinguishable from a record with no owner.
pub fn persisted_owner_key(owner_key: Option<&str>) -> (r: String)
    ensures
        r@ == match owner_key { Some(k) => k@, None => Seq::<char>::empty() },
{
    match owner_key {
        Some(k) => owned(k),
        None => {
            let e = String::new();
            e
        }
    }
}

pub open spec fn decoded_owner(persisted: Option<Seq<char>>) -> Option<Seq<char>> {
    match persisted {
        Some(k) => if k.len() == 0 { None } else { Some(k) },
        None => Some(LEGACY_UNOWNED_OWNER_KEY@),
    }
}

/// Read back a persisted owner key: the empty string is a keyless owner, a
/// missing value is a legacy record that nobody owns.
pub fn decode_owner_key(persisted: Option<String>) -> (r: Option<String>)
    ensures
        opt_view(r) == decoded_owner(opt_view(persisted)),
{
    match persisted {
        Some(k) => if k.as_str().is_empty() { None } else { Some(k) },
        None => Some(owned(LEGACY_UNOWNED_OWNER_KEY)),
    }
}

/// Storing and reading back an owner key gives it back, for a keyless
/// owner and for any real key.
pub proof fn lemma_owner_key_round_trip(owner_key: Option<Seq<char>>)
    requires
        owner_key matches Some(k) ==> k.len() > 0,
    ensures
        decoded_owner(Some(match owner_key { Some(k) => k, None => Seq::<char>::empty() })) == owner_key,
{
}

} // verus!
