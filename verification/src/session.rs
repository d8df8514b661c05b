use vstd::prelude::*;

use vstd::string::StringExecFns;

use crate::broker::{Broker, LeaveOutcome};
use crate::protocol::ErrorCode;
use crate::rate_limit::{RateLimiter, TierLimits};
use crate::reconnect::{frame_view, frame_views, EventFrame, FrameView, ReclaimError, ReconnectManager};
use crate::strmap::StrMap;
use crate::text::{contains_str, owned, str_eq, strs};
use crate::voting::VoteManager;
use crate::webhooks::{nat_decimal, IpAddress};

verus! {

/// The wire protocol version this server speaks.
pub const PROTOCOL_VERSION: u32 = 2;
/// The oldest client protocol still accepted.
pub const MIN_SUPPORTED_PROTOCOL: u32 = 1;
/// How long a new connection may take to register, in seconds.
pub const REGISTER_TIMEOUT_SECS: u64 = 10;
/// How often the server pings each connected agent, in seconds.
pub const HEARTBEAT_INTERVAL_SECS: u64 = 30;
/// An agent silent for this long is disconnected, in seconds.
pub const HEARTBEAT_TIMEOUT_SECS: u64 = 90;
/// Capacity of each agent's outbound queue.
pub const OUTBOUND_QUEUE_CAPACITY: usize = 256;
/// Largest accepted NDJSON frame, in bytes.
pub const MAX_FRAME_BYTES: usize = 1048576;

/// Why a client's protocol version is refused.
#[derive(Debug, Clone, Copy, PartialEq, Eq, Structural)]
pub enum ProtocolMismatch {
    /// The client is newer than this server.
    Newer(u32),
    /// The client is older than the oldest supported version.
    Older(u32),
}

/// The protocol a client registers with; an absent version is a client from
/// before versioning, which speaks version 1.
pub open spec fn protocol_outcome(requested: Option<u32>) -> Result<u32, ProtocolMismatch> {
    let v = match requested { Some(v) => v, None => 1u32 };
    if v > PROTOCOL_VERSION {
        Err(ProtocolMismatch::Newer(v))
    } else if v < MIN_SUPPORTED_PROTOCOL {
        Err(ProtocolMismatch::Older(v))
    } else {
        Ok(v)
    }
}

/// Accept the client's protocol version or say why not.
pub fn check_protocol(requested: Option<u32>) -> (r: Result<u32, ProtocolMismatch>)
    ensures
        r == protocol_outcome(requested),
{
    let v = match requested {
        Some(v) => v,
        None => 1,
    };
    if v > PROTOCOL_VERSION {
        Err(ProtocolMismatch::Newer(v))
    } else if v < MIN_SUPPORTED_PROTOCOL {
        Err(ProtocolMismatch::Older(v))
    } else {
        Ok(v)
    }
}

pub open spec fn newer_message(v: u32) -> Seq<char> {
    "Client protocol v"@ + nat_decimal(v as nat) + " is newer than this server (v2); the server needs an upgrade"@
}

pub open spec fn older_message(v: u32) -> Seq<char> {
    "Client protocol v"@ + nat_decimal(v as nat) + " is no longer supported (server requires >= v1); run `brew upgrade cowchat`"@
}

impl ProtocolMismatch {
    /// The message the client is told before the connection closes.
    pub fn message(&self) -> (r: String)
        ensures
            r@ == match *self {
                ProtocolMismatch::Newer(v) => newer_message(v),
                ProtocolMismatch::Older(v) => older_message(v),
            },
    {
        let mut out = owned("Client protocol v");
        match self {
            ProtocolMismatch::Newer(v) => {
                crate::webhooks::push_decimal(&mut out, *v as u64);
                out.append(" is newer than this server (v2); the server needs an upgrade");
            }
            ProtocolMismatch::Older(v) => {
                crate::webhooks::push_decimal(&mut out, *v as u64);
                out.append(" is no longer supported (server requires >= v1); run `brew upgrade cowchat`");
            }
        }
        out
    }
}

/// Whether a registration's credentials are accepted: always without
/// authentication; an empty key on a transport trusted for keyless use; a
/// non-empty key that is the server's own key or that the store knows.
pub open spec fn credentials_ok(no_auth: bool, allow_keyless: bool, presented: Seq<char>, server_key: Seq<char>,
    store_valid: bool) -> bool {
    no_auth || (allow_keyless && presented.len() == 0) || (presented.len() > 0 && (presented == server_key || store_valid))
}

/// Decide a registration's credentials. `store_valid` is the store's answer
/// for the presented key; it is read only for a non-empty key that is not
/// the server's own.
pub fn authenticate(no_auth: bool, allow_keyless: bool, presented: &str, server_key: &str, store_valid: bool) -> (r: bool)
    ensures
        r == credentials_ok(no_auth, allow_keyless, presented@, server_key@, store_valid),
{
    no_auth || (allow_keyless && presented.is_empty())
        || (!presented.is_empty() && (str_eq(presented, server_key) || store_valid))
}

/// The per-key agent limit, checked unless authentication is off or the key
/// is empty; `tier` is the key's tier as stored.
pub fn agent_limit_allows(limiter: &mut RateLimiter, no_auth: bool, api_key: &str, tier: &str, now: u64) -> (r: bool)
    requires
        old(limiter).wf(),
    ensures
        final(limiter).wf(),
        (no_auth || api_key@.len() == 0) ==> r && *final(limiter) == *old(limiter),
        !(no_auth || api_key@.len() == 0) ==> ({
            let limits = if tier@ == "pro"@ { crate::rate_limit::pro_limits() } else { crate::rate_limit::free_limits() };
            let u = crate::rate_limit::usage_or_new(crate::rate_limit::lookup(old(limiter).usage(), api_key@), now);
            &&& r == (u.agent_count < limits.max_agents)
            &&& final(limiter).usage() == old(limiter).usage().insert(api_key@, u)
            &&& final(limiter).signups() == old(limiter).signups()
        }),
{
    if no_auth || api_key.is_empty() {
        return true;
    }
    let limits = TierLimits::for_tier(tier);
    limiter.check_agent_limit(api_key, &limits, now)
}

/// A refusal sent to a registering client.
pub struct Refusal {
    pub code: ErrorCode,
    pub message: String,
}

pub open spec fn foreign_identity_message() -> Seq<char> {
    "Agent ID belongs to a different API key"@
}

pub open spec fn reconnect_in_progress_message() -> Seq<char> {
    "Reconnect already in progress for this agent ID"@
}

pub open spec fn identity_in_use_message() -> Seq<char> {
    "Agent ID already in use"@
}

/// The outcome of claiming a requested stable agent id for a key: the
/// claim is made only with authentication on, a non-empty key and an id the
/// client asked for; `claim` is the store's answer (`Ok(false)` when the id
/// belongs to another key).
pub fn identity_claim_outcome(no_auth: bool, api_key: &str, stable_requested: bool, claim: Result<bool, String>)
    -> (r: Result<(), Refusal>)
    ensures
        (no_auth || api_key@.len() == 0 || !stable_requested) ==> r is Ok,
        !(no_auth || api_key@.len() == 0 || !stable_requested) ==> match claim {
            Ok(true) => r is Ok,
            Ok(false) => r matches Err(f) && f.code == ErrorCode::AgentIdTaken && f.message@ == foreign_identity_message(),
            Err(e) => r matches Err(f) && f.code == ErrorCode::InternalError && f.message@ == e@,
        },
{
    if no_auth || api_key.is_empty() || !stable_requested {
        return Ok(());
    }
    match claim {
        Ok(true) => Ok(()),
        Ok(false) => {
            let m = owned("Agent ID belongs to a different API key");
            Err(Refusal { code: ErrorCode::AgentIdTaken, message: m })
        }
        Err(e) => Err(Refusal { code: ErrorCode::InternalError, message: e }),
    }
}

/// How a registering agent enters.
#[derive(Debug, Clone, Copy, PartialEq, Eq, Structural)]
pub enum Admission {
    /// It holds a reconnect claim on its stash.
    Reclaim,
    /// It takes over a still-live connection with the same id.
    Takeover,
    /// It enters anew.
    Fresh,
}

/// Decide how a registering agent enters. `reclaim` is the result of
/// trying to claim its stash (only tried on a reconnect; `Ok(true)` when a
/// claim was obtained); `live_key` is the key of a live connection holding
/// the same id, if any.
pub fn decide_admission(reconnect: bool, reclaim: Result<bool, ReclaimError>, live_key: Option<&str>, api_key: &str, no_auth: bool)
    -> (r: Result<Admission, Refusal>)
    ensures
        reconnect && reclaim == Ok::<bool, ReclaimError>(true) ==> r == Ok::<Admission, Refusal>(Admission::Reclaim),
        reconnect && reclaim == Err::<bool, ReclaimError>(ReclaimError::CredentialMismatch) ==>
            (r matches Err(f) && f.code == ErrorCode::AgentIdTaken && f.message@ == foreign_identity_message()),
        reconnect && reclaim == Err::<bool, ReclaimError>(ReclaimError::AlreadyClaimed) ==>
            (r matches Err(f) && f.code == ErrorCode::AgentIdTaken && f.message@ == reconnect_in_progress_message()),
        (!reconnect || reclaim == Ok::<bool, ReclaimError>(false)) ==> match live_key {
            None => r == Ok::<Admission, Refusal>(Admission::Fresh),
            Some(k) => if !reconnect {
                r matches Err(f) && f.code == ErrorCode::AgentIdTaken && f.message@ == identity_in_use_message()
            } else if !no_auth && k@ != api_key@ {
                r matches Err(f) && f.code == ErrorCode::AgentIdTaken && f.message@ == foreign_identity_message()
            } else {
                r == Ok::<Admission, Refusal>(Admission::Takeover)
            },
        },
{
    if reconnect {
        match reclaim {
            Ok(true) => return Ok(Admission::Reclaim),
            Ok(false) => {}
            Err(ReclaimError::CredentialMismatch) => {
                return Err(Refusal { code: ErrorCode::AgentIdTaken, message: owned("Agent ID belongs to a different API key") });
            }
            Err(ReclaimError::AlreadyClaimed) => {
                return Err(Refusal { code: ErrorCode::AgentIdTaken, message: owned("Reconnect already in progress for this agent ID") });
            }
        }
    }
    match live_key {
        None => Ok(Admission::Fresh),
        Some(k) => {
            if !reconnect {
                Err(Refusal { code: ErrorCode::AgentIdTaken, message: owned("Agent ID already in use") })
            } else if !no_auth && !str_eq(k, api_key) {
                Err(Refusal { code: ErrorCode::AgentIdTaken, message: owned("Agent ID belongs to a different API key") })
            } else {
                Ok(Admission::Takeover)
            }
        }
    }
}

/// Whether a TCP peer may register without a key: only when keyless local
/// use is enabled and the peer is a loopback address (`127.0.0.0/8`, `::1`).
pub open spec fn keyless_tcp_ok(allow_keyless_local: bool, peer: IpAddress) -> bool {
    allow_keyless_local && match peer {
        IpAddress::V4(a, _, _, _) => a == 127,
        IpAddress::V6(s0, s1, s2, s3, s4, s5, s6, s7) =>
            s0 == 0 && s1 == 0 && s2 == 0 && s3 == 0 && s4 == 0 && s5 == 0 && s6 == 0 && s7 == 1,
    }
}

pub fn tcp_connection_allows_keyless(allow_keyless_local: bool, peer: IpAddress) -> (r: bool)
    ensures
        r == keyless_tcp_ok(allow_keyless_local, peer),
{
    allow_keyless_local && match peer {
        IpAddress::V4(a, _, _, _) => a == 127,
        IpAddress::V6(s0, s1, s2, s3, s4, s5, s6, s7) =>
            s0 == 0 && s1 == 0 && s2 == 0 && s3 == 0 && s4 == 0 && s5 == 0 && s6 == 0 && s7 == 1,
    }
}

/// The predicate "worth sending after the acknowledged replay": not already
/// replayed (by id) and not about a room the agent may no longer see.
pub open spec fn tail_keeps(replayed: Seq<Seq<char>>, blocked: Seq<Seq<char>>) -> spec_fn(FrameView) -> bool {
    |f: FrameView| !(f.id matches Some(i) && replayed.contains(i)) && !(f.room matches Some(r) && blocked.contains(r))
}

/// The frames buffered during the reconnect handshake that still have to be
/// sent, in order.
pub fn replay_tail(frames: &Vec<EventFrame>, replayed_ids: &Vec<String>, blocked_rooms: &Vec<String>) -> (r: Vec<EventFrame>)
    ensures
        frame_views(r@) == frame_views(frames@).filter(tail_keeps(strs(replayed_ids@), strs(blocked_rooms@))),
{
    let ghost p = tail_keeps(strs(replayed_ids@), strs(blocked_rooms@));
    let mut out: Vec<EventFrame> = Vec::new();
    let mut i: usize = 0;
    while i < frames.len()
        invariant
            i <= frames@.len(),
            p == tail_keeps(strs(replayed_ids@), strs(blocked_rooms@)),
            frame_views(out@) == frame_views(frames@).subrange(0, i as int).filter(p),
        decreases frames@.len() - i,
    {
        let ghost fv = frame_views(frames@);
        proof {
            assert(fv.subrange(0, i + 1) =~= fv.subrange(0, i as int).push(fv[i as int]));
            fv.subrange(0, i as int).lemma_filter_push(fv[i as int], p);
        }
        let f = &frames[i];
        let replayed = match &f.id {
            Some(id) => contains_str(replayed_ids, id.as_str()),
            None => false,
        };
        let blocked = match &f.room_id {
            Some(room) => contains_str(blocked_rooms, room.as_str()),
            None => false,
        };
        if !replayed && !blocked {
            let ghost prev = out@;
            out.push(crate::reconnect::clone_frame(f));
            proof { assert(frame_views(out@) =~= frame_views(prev).push(fv[i as int])); }
        }
        i = i + 1;
    }
    proof { assert(frame_views(frames@).subrange(0, frames@.len() as int) =~= frame_views(frames@)); }
    out
}

/// The result of cleaning up after a session, on the registry's view: the
/// registration goes only if that session still owns it.
pub open spec fn after_cleanup(m: Map<Seq<char>, (Seq<char>, Seq<char>)>, agent: Seq<char>, session: Seq<char>)
    -> Map<Seq<char>, (Seq<char>, Seq<char>)> {
    if m.contains_key(agent) && m[agent].0 == session { m.remove(agent) } else { m }
}

/// A newer connection that took over an agent id survives the cleanup of
/// the session it replaced.
pub proof fn lemma_takeover_survives_old_cleanup(m: Map<Seq<char>, (Seq<char>, Seq<char>)>, agent: Seq<char>,
    old_session: Seq<char>, new_session: Seq<char>, key: Seq<char>)
    requires
        old_session != new_session,
    ensures
        after_cleanup(m.insert(agent, (new_session, key)), agent, old_session) == m.insert(agent, (new_session, key)),
{
}

/// Keyless local use never covers a TCP peer that is not a loopback address.
pub proof fn lemma_keyless_needs_loopback(allow: bool, a: u8, b: u8, c: u8, d: u8)
    requires
        a != 127,
    ensures
        !keyless_tcp_ok(allow, IpAddress::V4(a, b, c, d)),
{
}

/// The live connection registered for an agent id.
pub struct LiveSession {
    pub session_id: String,
    pub api_key: String,
}

/// Which session currently owns each live agent id.
pub struct SessionRegistry {
    sessions: StrMap<LiveSession>,
}

impl SessionRegistry {
    /// Agent id to (session id, key).
    pub closed spec fn view(&self) -> Map<Seq<char>, (Seq<char>, Seq<char>)> {
        Map::new(|a: Seq<char>| self.sessions@.contains_key(a),
            |a: Seq<char>| (self.sessions@[a].session_id@, self.sessions@[a].api_key@))
    }

    pub closed spec fn wf(&self) -> bool {
        self.sessions.wf()
    }

    pub fn new() -> (r: Self)
        ensures
            r.wf(),
            r@ == Map::<Seq<char>, (Seq<char>, Seq<char>)>::empty(),
    {
        let r = SessionRegistry { sessions: StrMap::new() };
        proof { assert(r@ =~= Map::<Seq<char>, (Seq<char>, Seq<char>)>::empty()); }
        r
    }

    /// Make `session_id` the live session of `agent_id`, replacing any other.
    pub fn install(&mut self, agent_id: &str, session_id: &str, api_key: &str)
        requires
            old(self).wf(),
        ensures
            final(self).wf(),
            final(self)@ == old(self)@.insert(agent_id@, (session_id@, api_key@)),
    {
        let ghost g = *self;
        self.sessions.insert(owned(agent_id), LiveSession { session_id: owned(session_id), api_key: owned(api_key) });
        proof { assert(self@ =~= g@.insert(agent_id@, (session_id@, api_key@))); }
    }

    /// The key of the live connection holding `agent_id`, if any.
    pub fn live_key(&self, agent_id: &str) -> (r: Option<String>)
        requires
            self.wf(),
        ensures
            match r {
                Some(k) => self@.contains_key(agent_id@) && k@ == self@[agent_id@].1,
                None => !self@.contains_key(agent_id@),
            },
    {
        match self.sessions.get(agent_id) {
            Some(s) => Some(s.api_key.clone()),
            None => None,
        }
    }

    /// Whether `session_id` is still the live session of `agent_id`.
    pub fn is_current(&self, agent_id: &str, session_id: &str) -> (r: bool)
        requires
            self.wf(),
        ensures
            r == (self@.contains_key(agent_id@) && self@[agent_id@].0 == session_id@),
    {
        match self.sessions.get(agent_id) {
            Some(s) => str_eq(s.session_id.as_str(), session_id),
            None => false,
        }
    }

    /// Remove `agent_id`'s registration only if `session_id` still owns it.
    pub fn remove_if_current(&mut self, agent_id: &str, session_id: &str) -> (r: bool)
        requires
            old(self).wf(),
        ensures
            final(self).wf(),
            r == (old(self)@.contains_key(agent_id@) && old(self)@[agent_id@].0 == session_id@),
            final(self)@ == (if r { old(self)@.remove(agent_id@) } else { old(self)@ }),
        final(self)@ == after_cleanup(old(self)@, agent_id@, session_id@),
    {
        if !self.is_current(agent_id, session_id) {
            return false;
        }
        let ghost g = *self;
        self.sessions.remove(agent_id);
        proof { assert(self@ =~= g@.remove(agent_id@)); }
        true
    }
}

/// First step of disconnect cleanup: the agent's key gives back one agent
/// slot; if `session_id` no longer owns `agent_id` (a newer connection took
/// over) nothing else changes and `None` comes back. Otherwise the rooms
/// the agent is in come back, and when there are any its state is stashed
/// for a reconnect.
pub fn begin_disconnect(limiter: &mut RateLimiter, registry: &SessionRegistry, broker: &Broker,
    reconnect: &mut ReconnectManager, agent_id: &str, session_id: &str, name: &str, api_key: &str, now: u64)
    -> (r: Option<Vec<String>>)
    requires
        old(limiter).wf(),
        registry.wf(),
        broker.wf(),
        old(reconnect).wf(),
    ensures
        final(limiter).wf(),
        final(reconnect).wf(),
        final(limiter).signups() == old(limiter).signups(),
        api_key@.len() == 0 ==> final(limiter).usage() == old(limiter).usage(),
        api_key@.len() > 0 ==> final(limiter).usage() == (if old(limiter).usage().contains_key(api_key@)
            && old(limiter).usage()[api_key@].agent_count > 0 {
            old(limiter).usage().insert(api_key@, crate::rate_limit::KeyUsage {
                agent_count: (old(limiter).usage()[api_key@].agent_count - 1) as u64,
                ..old(limiter).usage()[api_key@]
            })
        } else {
            old(limiter).usage()
        }),
        !(registry@.contains_key(agent_id@) && registry@[agent_id@].0 == session_id@) ==>
            r is None && *final(reconnect) == *old(reconnect),
        (registry@.contains_key(agent_id@) && registry@[agent_id@].0 == session_id@) ==> ({
            &&& r matches Some(rooms)
            &&& forall|room: Seq<char>| #[trigger] strs(rooms@).contains(room) <==> broker.members(room).contains(agent_id@)
            &&& strs(rooms@).no_duplicates()
            &&& (rooms@.len() == 0 ==> *final(reconnect) == *old(reconnect))
            &&& (rooms@.len() > 0 ==> final(reconnect).stashes().contains_key(agent_id@)
                && final(reconnect).stashes()[agent_id@].api_key == api_key@
                && final(reconnect).stashes()[agent_id@].missed.len() == 0
                && final(reconnect).stashes()[agent_id@].rooms
                    == strs(rooms@).filter(crate::reconnect::live_in(final(reconnect).destroyed())))
        }),
{
    if !api_key.is_empty() {
        limiter.remove_agent(api_key);
    }
    if !registry.is_current(agent_id, session_id) {
        return None;
    }
    let rooms = broker.rooms_for_agent(agent_id);
    if rooms.len() > 0 {
        reconnect.stash(owned(agent_id), owned(name), owned(api_key), crate::text::clone_strings(&rooms), now);
    }
    Some(rooms)
}

/// What leaving one room on disconnect did.
pub struct DisconnectLeave {
    pub outcome: LeaveOutcome,
    /// The stashed members of the room whose buffers took the event.
    pub buffered_for: Vec<String>,
}

/// Leave one room on disconnect: the broker drops the agent, and the leave
/// event is buffered for every other stashed member of the room whose
/// buffer has room, unless the room is remembered as destroyed.
pub fn leave_on_disconnect(broker: &mut Broker, reconnect: &mut ReconnectManager, agent_id: &str, room_id: &str,
    event: &EventFrame, now: u64) -> (r: DisconnectLeave)
    requires
        old(broker).wf(),
        old(reconnect).wf(),
    ensures
        final(broker).wf(),
        final(reconnect).wf(),
        final(broker).members(room_id@) == crate::strmap::without(old(broker).members(room_id@), agent_id@),
        forall|room: Seq<char>| room != room_id@ ==> #[trigger] final(broker).members(room) == old(broker).members(room),
        r.outcome.now_empty == (final(broker).members(room_id@).len() == 0),
        r.outcome.holder_changed == (old(broker).holder(room_id@) == Some(agent_id@)),
        r.outcome.holder_changed ==> (if r.outcome.now_empty {
                r.outcome.new_holder is None && final(broker).holder(room_id@) is None
            } else {
                r.outcome.new_holder is Some && r.outcome.new_holder->0@ == final(broker).members(room_id@)[0]
                    && final(broker).holder(room_id@) == Some(final(broker).members(room_id@)[0])
            }),
        !r.outcome.holder_changed ==> r.outcome.new_holder is None && final(broker).holder(room_id@) == old(broker).holder(room_id@),
        final(reconnect).stashes().dom() == old(reconnect).stashes().dom(),
        event.room_id is None ==> final(reconnect).destroyed() == old(reconnect).destroyed(),
        forall|a: Seq<char>| #[trigger] strs(r.buffered_for@).contains(a) <==>
            crate::reconnect::takes_room_event(old(reconnect).stashes(), room_id@, agent_id@, a)
            && !crate::reconnect::event_blocked(*event, final(reconnect).destroyed()),
        strs(r.buffered_for@).no_duplicates(),
        forall|a: Seq<char>| #[trigger] final(reconnect).stashes().contains_key(a) ==>
            final(reconnect).stashes()[a] == (if strs(r.buffered_for@).contains(a) {
                crate::reconnect::StashView {
                    missed: old(reconnect).stashes()[a].missed.push(crate::reconnect::frame_view(*event)),
                    ..old(reconnect).stashes()[a]
                }
            } else {
                old(reconnect).stashes()[a]
            }),
{
    let outcome = broker.leave_room(agent_id, room_id, now);
    let buffered = reconnect.buffer_for_room_members(room_id, agent_id, event, now);
    DisconnectLeave { outcome, buffered_for: buffered }
}

/// Last step of disconnect cleanup: clear the agent's leaderships and
/// remove its registration if this session still owns it. Returns the
/// rooms whose leader was cleared.
pub fn end_disconnect(votes: &mut VoteManager, registry: &mut SessionRegistry, agent_id: &str, session_id: &str)
    -> (r: Vec<String>)
    requires
        old(votes).wf(),
        old(registry).wf(),
    ensures
        final(votes).wf(),
        final(registry).wf(),
        forall|room: Seq<char>| #[trigger] strs(r@).contains(room) <==>
            old(votes).leaders().contains_key(room) && old(votes).leaders()[room] == agent_id@,
        forall|room: Seq<char>| #[trigger] final(votes).leaders().contains_key(room) <==>
            old(votes).leaders().contains_key(room) && old(votes).leaders()[room] != agent_id@,
        final(registry)@ == (if old(registry)@.contains_key(agent_id@) && old(registry)@[agent_id@].0 == session_id@ {
            old(registry)@.remove(agent_id@)
        } else {
            old(registry)@
        }),
{
    let cleared = votes.clear_leader_if_agent(agent_id);
    registry.remove_if_current(agent_id, session_id);
    cleared
}

} // verus!
