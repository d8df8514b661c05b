use vstd::prelude::*;

use crate::access::{access_allowed, can_access_room_parts, opt_str_view};
use crate::broker::{lemma_newest_survives, lemma_without_membership};
use crate::expiry::{age, fresh_keys, is_fresh, lemma_prune_settles, lemma_stamped_key_survives, prune_expiring, pruned, settled};
use crate::strmap::{StrMap, without};
use crate::text::{contains_str, owned, remove_all, str_eq, strs};

verus! {

/// How long a disconnected agent's state is kept, in milliseconds.
pub const RECONNECT_WINDOW_MS: u64 = 120_000;
/// At most this many events are buffered per disconnected agent.
pub const MAX_BUFFERED_MESSAGES: usize = 200;
/// How long a destroyed room is remembered, in milliseconds.
pub const DESTROYED_ROOM_TTL_MS: u64 = 180_000;
/// At most this many destroyed rooms are remembered.
pub const MAX_DESTROYED_ROOMS: usize = 4096;

/// An outbound event as the reconnect logic sees it: its id, the room it
/// concerns (if any), and its serialized form.
#[derive(Debug, Clone)]
pub struct EventFrame {
    pub id: Option<String>,
    pub room_id: Option<String>,
    pub line: String,
}

/// An event frame as plain values.
pub struct FrameView {
    pub id: Option<Seq<char>>,
    pub room: Option<Seq<char>>,
    pub line: Seq<char>,
}

pub open spec fn frame_view(f: EventFrame) -> FrameView {
    FrameView { id: crate::room::opt_view(f.id), room: frame_room(f), line: f.line@ }
}

pub open spec fn frame_views(fs: Seq<EventFrame>) -> Seq<FrameView> {
    fs.map_values(|f: EventFrame| frame_view(f))
}

pub fn clone_frame(f: &EventFrame) -> (r: EventFrame)
    ensures
        frame_view(r) == frame_view(*f),
{
    EventFrame {
        id: match &f.id { Some(i) => Some(i.clone()), None => None },
        room_id: match &f.room_id { Some(i) => Some(i.clone()), None => None },
        line: f.line.clone(),
    }
}

pub fn clone_frames(v: &Vec<EventFrame>) -> (r: Vec<EventFrame>)
    ensures
        r@.len() == v@.len(),
        frame_views(r@) == frame_views(v@),
{
    let mut r: Vec<EventFrame> = Vec::new();
    let mut i: usize = 0;
    while i < v.len()
        invariant
            i <= v.len(),
            r@.len() == i,
            forall|j: int| 0 <= j < i ==> #[trigger] frame_view(r@[j]) == frame_view(v@[j]),
        decreases v.len() - i,
    {
        let c = clone_frame(&v[i]);
        r.push(c);
        i = i + 1;
    }
    proof { assert(frame_views(r@) =~= frame_views(v@)); }
    r
}

pub open spec fn frame_room(f: EventFrame) -> Option<Seq<char>> {
    match f.room_id {
        Some(r) => Some(r@),
        None => None,
    }
}

/// Recently destroyed rooms, stamped with their destruction time.
pub struct DestroyedRoomCache {
    rooms: StrMap<u64>,
}

impl DestroyedRoomCache {
    pub closed spec fn view(&self) -> Map<Seq<char>, u64> {
        self.rooms@
    }

    pub closed spec fn wf(&self) -> bool {
        &&& self.rooms.wf()
        &&& self.rooms@.dom().finite()
        &&& self.rooms@.dom().len() <= MAX_DESTROYED_ROOMS
    }

    pub fn new() -> (r: Self)
        ensures
            r.wf(),
            r@ == Map::<Seq<char>, u64>::empty(),
    {
        let r = DestroyedRoomCache { rooms: StrMap::new() };
        proof { r.rooms.lemma_view_finite(); }
        r
    }

    pub fn prune(&mut self, now: u64)
        requires
            old(self).wf(),
        ensures
            final(self).wf(),
            pruned(old(self)@, final(self)@, now, DESTROYED_ROOM_TTL_MS, MAX_DESTROYED_ROOMS as nat),
            forall|k: Seq<char>| old(self)@.contains_key(k) && is_fresh(now, old(self)@[k], DESTROYED_ROOM_TTL_MS)
                ==> #[trigger] final(self)@.contains_key(k),
    {
        let ghost before = self@;
        prune_expiring(&mut self.rooms, now, DESTROYED_ROOM_TTL_MS, MAX_DESTROYED_ROOMS);
        proof {
            crate::expiry::lemma_pruned_within_capacity(before, self@, now, DESTROYED_ROOM_TTL_MS, MAX_DESTROYED_ROOMS as nat);
        }
    }

    /// Remember that `room_id` was destroyed at `now`.
    pub fn insert(&mut self, room_id: &str, now: u64)
        requires
            old(self).wf(),
        ensures
            final(self).wf(),
            forall|k: Seq<char>| #[trigger] final(self)@.contains_key(k) ==> k == room_id@ || old(self)@.contains_key(k),
            (forall|k: Seq<char>| #[trigger] old(self)@.contains_key(k) ==> old(self)@[k] < now)
                ==> final(self)@.contains_key(room_id@) && final(self)@[room_id@] == now,
            fresh_keys(old(self)@, now, DESTROYED_ROOM_TTL_MS).len() < MAX_DESTROYED_ROOMS
                ==> final(self)@.contains_key(room_id@) && final(self)@[room_id@] == now,
    {
        let ghost before = self@;
        self.prune(now);
        let ghost mid = self@;
        self.rooms.insert(owned(room_id), now);
        let ghost ins = self@;
        prune_expiring(&mut self.rooms, now, DESTROYED_ROOM_TTL_MS, MAX_DESTROYED_ROOMS);
        proof {
            self.rooms.lemma_view_finite();
            lemma_newest_survives(before, mid, ins, self@, room_id@, now, DESTROYED_ROOM_TTL_MS, MAX_DESTROYED_ROOMS as nat);
            if fresh_keys(before, now, DESTROYED_ROOM_TTL_MS).len() < MAX_DESTROYED_ROOMS {
                lemma_stamped_key_survives(before, mid, ins, self@, room_id@, now, DESTROYED_ROOM_TTL_MS, MAX_DESTROYED_ROOMS as nat);
            }
        }
    }

    /// Lookup without pruning.
    pub fn has(&self, room_id: &str) -> (r: bool)
        requires
            self.wf(),
        ensures
            r == self@.contains_key(room_id@),
    {
        self.rooms.contains_key(room_id)
    }

    /// Whether `room_id` is remembered as destroyed at `now`.
    pub fn contains(&mut self, room_id: &str, now: u64) -> (r: bool)
        requires
            old(self).wf(),
        ensures
            final(self).wf(),
            pruned(old(self)@, final(self)@, now, DESTROYED_ROOM_TTL_MS, MAX_DESTROYED_ROOMS as nat),
            r == final(self)@.contains_key(room_id@),
    {
        self.prune(now);
        self.has(room_id)
    }

    pub fn len(&self) -> (n: usize)
        requires
            self.wf(),
        ensures
            n == self@.dom().len(),
    {
        proof { self.rooms.lemma_view_finite(); }
        self.rooms.len()
    }
}

/// State kept when an agent disconnects, so that it can reconnect seamlessly.
#[derive(Clone)]
pub struct StashedAgent {
    pub agent_id: String,
    pub name: String,
    pub api_key: String,
    pub rooms: Vec<String>,
    pub missed_messages: Vec<EventFrame>,
    pub disconnected_at: u64,
    pub reclaim_token: Option<String>,
}

/// A stash as plain values.
pub struct StashView {
    pub agent_id: Seq<char>,
    pub name: Seq<char>,
    pub api_key: Seq<char>,
    pub rooms: Seq<Seq<char>>,
    pub missed: Seq<FrameView>,
    pub disconnected_at: u64,
    pub reclaim_token: Option<Seq<char>>,
}

pub open spec fn stash_view(s: StashedAgent) -> StashView {
    StashView {
        agent_id: s.agent_id@,
        name: s.name@,
        api_key: s.api_key@,
        rooms: strs(s.rooms@),
        missed: frame_views(s.missed_messages@),
        disconnected_at: s.disconnected_at,
        reclaim_token: crate::room::opt_view(s.reclaim_token),
    }
}

pub fn clone_stash(s: &StashedAgent) -> (r: StashedAgent)
    ensures
        stash_view(r) == stash_view(*s),
        r.missed_messages@.len() == s.missed_messages@.len(),
{
    StashedAgent {
        agent_id: s.agent_id.clone(),
        name: s.name.clone(),
        api_key: s.api_key.clone(),
        rooms: crate::text::clone_strings(&s.rooms),
        missed_messages: clone_frames(&s.missed_messages),
        disconnected_at: s.disconnected_at,
        reclaim_token: match &s.reclaim_token { Some(t) => Some(t.clone()), None => None },
    }
}

#[derive(Debug, Clone, Copy, PartialEq, Eq, Structural)]
pub enum ReclaimError {
    CredentialMismatch,
    AlreadyClaimed,
}

/// An exclusive claim on a stash while a reconnect handshake is pending.
/// The stash stays bufferable until the claim is committed; releasing an
/// uncommitted claim makes the stash claimable again.
pub struct ReclaimLease {
    agent_id: String,
    token: String,
}

/// A fresh claim token: `uuid::Uuid::new_v4` in its text form. Nothing is
/// promised of its value, which is chance.
#[verifier::external_body]
fn fresh_claim_token() -> (r: String)
{
    uuid::Uuid::new_v4().to_string()
}

impl ReclaimLease {
    pub closed spec fn token(&self) -> Seq<char> {
        self.token@
    }

    pub closed spec fn agent(&self) -> Seq<char> {
        self.agent_id@
    }

    /// The agent whose stash this lease holds.
    pub fn agent_id(&self) -> (r: &String)
        ensures
            r@ == self.agent(),
    {
        &self.agent_id
    }

    /// The stash this lease holds, as it stands now.
    pub fn snapshot(&self, manager: &ReconnectManager) -> (r: Option<StashedAgent>)
        requires
            manager.wf(),
        ensures
            match r {
                Some(s) => manager.holds_claim(self.agent(), self.token()) && stash_view(s) == manager.stashes()[self.agent()],
                None => !manager.holds_claim(self.agent(), self.token()),
            },
    {
        match manager.stashed.get(self.agent_id.as_str()) {
            Some(entry) => match &entry.reclaim_token {
                Some(t) => if str_eq(t.as_str(), self.token.as_str()) { Some(clone_stash(entry)) } else { None },
                None => None,
            },
            None => None,
        }
    }

    /// Complete the reconnect: take the stash out of the manager.
    pub fn commit(self, manager: &mut ReconnectManager) -> (r: Option<StashedAgent>)
        requires
            old(manager).wf(),
        ensures
            final(manager).wf(),
            final(manager).destroyed() == old(manager).destroyed(),
            match r {
                Some(s) => old(manager).holds_claim(self.agent(), self.token())
                    && stash_view(s) == (StashView { reclaim_token: None, ..old(manager).stashes()[self.agent()] })
                    && final(manager).stashes() == old(manager).stashes().remove(self.agent()),
                None => !old(manager).holds_claim(self.agent(), self.token())
                    && final(manager).stashes() == old(manager).stashes(),
            },
    {
        let ghost g = *manager;
        if self.snapshot(manager).is_none() {
            return None;
        }
        let removed = manager.stashed.remove(self.agent_id.as_str());
        proof { manager.lemma_after_remove(&g, self.agent()); }
        match removed {
            Some(mut entry) => {
                entry.reclaim_token = None;
                Some(entry)
            }
            None => None,
        }
    }

    /// Abandon the reconnect: the stash stays, claimable again.
    pub fn release(self, manager: &mut ReconnectManager)
        requires
            old(manager).wf(),
        ensures
            final(manager).wf(),
            final(manager).destroyed() == old(manager).destroyed(),
            final(manager).stashes() == (if old(manager).holds_claim(self.agent(), self.token()) {
                old(manager).stashes().insert(self.agent(),
                    StashView { reclaim_token: None, ..old(manager).stashes()[self.agent()] })
            } else {
                old(manager).stashes()
            }),
    {
        if let Some(mut entry) = self.snapshot(manager) {
            proof { manager.lemma_buffer_bound(self.agent()); }
            entry.reclaim_token = None;
            manager.put(self.agent_id.clone(), entry);
        }
    }
}

/// The predicate "not remembered as destroyed in `d`".
pub open spec fn live_in(d: Map<Seq<char>, u64>) -> spec_fn(Seq<char>) -> bool {
    |r: Seq<char>| !d.contains_key(r)
}

/// The predicate "does not concern room `room`".
pub open spec fn not_about(room: Seq<char>) -> spec_fn(FrameView) -> bool {
    |f: FrameView| f.room != Some(room)
}

/// Whether a stash with key `api_key` may see a room-metadata event.
pub open spec fn sees_event(visibility: Seq<char>, owner_key: Option<Seq<char>>, granted: Seq<Seq<char>>,
    no_auth: bool, api_key: Seq<char>) -> bool {
    access_allowed(visibility, owner_key, api_key, no_auth) || (api_key.len() > 0 && granted.contains(api_key))
}

/// Whether the stash of `a` receives a room-metadata event: it exists, may
/// see the room, the event is not about a destroyed room, and its buffer has room.
pub open spec fn receives(stashes: Map<Seq<char>, StashView>, a: Seq<char>, visibility: Seq<char>,
    owner_key: Option<Seq<char>>, granted: Seq<Seq<char>>, no_auth: bool, blocked: bool) -> bool {
    &&& stashes.contains_key(a)
    &&& sees_event(visibility, owner_key, granted, no_auth, stashes[a].api_key)
    &&& !blocked
    &&& stashes[a].missed.len() < MAX_BUFFERED_MESSAGES
}

/// Whether `frame` concerns a room that `destroyed` remembers.
pub open spec fn event_blocked(frame: EventFrame, destroyed: Map<Seq<char>, u64>) -> bool {
    frame_room(frame) matches Some(room) && destroyed.contains_key(room)
}

/// Whether a room event for the other members of `room` is offered to the
/// stash of `a`: it is stashed, lists the room, and is not `except`.
pub open spec fn offers_room_event(m: Map<Seq<char>, StashView>, room: Seq<char>, except: Seq<char>, a: Seq<char>) -> bool {
    &&& m.contains_key(a)
    &&& m[a].rooms.contains(room)
    &&& a != except
}

/// Whether such an offered event fits: the buffer is below its cap.
pub open spec fn takes_room_event(m: Map<Seq<char>, StashView>, room: Seq<char>, except: Seq<char>, a: Seq<char>) -> bool {
    &&& offers_room_event(m, room, except, a)
    &&& m[a].missed.len() < MAX_BUFFERED_MESSAGES
}

/// The stashes of `m` still inside the reconnect window at `now`.
pub open spec fn fresh_stashes(m: Map<Seq<char>, StashView>, now: u64) -> Map<Seq<char>, StashView> {
    Map::new(|a: Seq<char>| m.contains_key(a) && age(now, m[a].disconnected_at) < RECONNECT_WINDOW_MS, |a: Seq<char>| m[a])
}

/// A stash with every trace of `room` removed: its membership and the
/// buffered events about it.
pub open spec fn without_room(s: StashView, room: Seq<char>) -> StashView {
    StashView { rooms: without(s.rooms, room), missed: s.missed.filter(not_about(room)), ..s }
}

/// The predicate "agent `a`'s stash in `m` lists `room`".
pub open spec fn stash_in_room(m: Map<Seq<char>, StashView>, room: Seq<char>) -> spec_fn(Seq<char>) -> bool {
    |a: Seq<char>| m.contains_key(a) && m[a].rooms.contains(room)
}

/// The frames of `v` that do not concern `room`, order kept.
pub fn frames_not_about(v: &Vec<EventFrame>, room: &str) -> (r: Vec<EventFrame>)
    ensures
        frame_views(r@) == frame_views(v@).filter(not_about(room@)),
        r@.len() <= v@.len(),
{
    let ghost p = not_about(room@);
    let mut r: Vec<EventFrame> = Vec::new();
    let mut i: usize = 0;
    while i < v.len()
        invariant
            i <= v.len(),
            p == not_about(room@),
            r@.len() <= i,
            frame_views(r@) == frame_views(v@).subrange(0, i as int).filter(p),
        decreases v.len() - i,
    {
        proof {
            assert(frame_views(v@).subrange(0, i + 1) =~= frame_views(v@).subrange(0, i as int).push(frame_views(v@)[i as int]));
            frame_views(v@).subrange(0, i as int).lemma_filter_push(frame_views(v@)[i as int], p);
        }
        let about = match &v[i].room_id {
            Some(x) => str_eq(x.as_str(), room),
            None => false,
        };
        if !about {
            let ghost prev = r@;
            r.push(clone_frame(&v[i]));
            proof { assert(frame_views(r@) =~= frame_views(prev).push(frame_views(v@)[i as int])); }
        }
        i = i + 1;
    }
    proof { assert(frame_views(v@).subrange(0, v@.len() as int) =~= frame_views(v@)); }
    r
}

/// Reconnect state of recently disconnected agents.
pub struct ReconnectManager {
    stashed: StrMap<StashedAgent>,
    destroyed_rooms: DestroyedRoomCache,
}

impl ReconnectManager {
    /// The stashes, by agent id.
    pub closed spec fn stashes(&self) -> Map<Seq<char>, StashView> {
        Map::new(|a: Seq<char>| self.stashed@.contains_key(a), |a: Seq<char>| stash_view(self.stashed@[a]))
    }

    pub closed spec fn destroyed(&self) -> Map<Seq<char>, u64> {
        self.destroyed_rooms@
    }

    pub closed spec fn agent_order(&self) -> Seq<Seq<char>> {
        self.stashed.key_seq()
    }

    pub open spec fn holds_claim(&self, agent_id: Seq<char>, token: Seq<char>) -> bool {
        &&& self.stashes().contains_key(agent_id)
        &&& self.stashes()[agent_id].reclaim_token == Some(token)
    }

    /// Every stash keeps at most the buffer limit of events.
    pub closed spec fn wf(&self) -> bool {
        &&& self.stashed.wf()
        &&& self.destroyed_rooms.wf()
        &&& forall|a: Seq<char>| #[trigger] self.stashed@.contains_key(a) ==>
                self.stashed@[a].missed_messages@.len() <= MAX_BUFFERED_MESSAGES
    }

    pub proof fn lemma_buffer_bound(&self, a: Seq<char>)
        requires
            self.wf(),
            self.stashes().contains_key(a),
        ensures
            self.stashes()[a].missed.len() <= MAX_BUFFERED_MESSAGES,
    {
        assert(self.stashed@.contains_key(a));
    }

    proof fn lemma_after_remove(&self, old_m: &Self, a: Seq<char>)
        requires
            old_m.wf(),
            self.stashed.wf(),
            self.destroyed_rooms == old_m.destroyed_rooms,
            self.stashed@ == old_m.stashed@.remove(a),
        ensures
            self.wf(),
            self.stashes() == old_m.stashes().remove(a),
    {
        assert forall|k: Seq<char>| #[trigger] self.stashed@.contains_key(k) implies
            self.stashed@[k].missed_messages@.len() <= MAX_BUFFERED_MESSAGES by {
            assert(old_m.stashed@.contains_key(k));
        }
        assert(self.stashes() =~= old_m.stashes().remove(a));
    }

    /// Store a stash under `key`, replacing any earlier one in place.
    fn put(&mut self, key: String, s: StashedAgent)
        requires
            old(self).wf(),
            s.missed_messages@.len() <= MAX_BUFFERED_MESSAGES,
        ensures
            final(self).wf(),
            final(self).stashes() == old(self).stashes().insert(key@, stash_view(s)),
            final(self).destroyed() == old(self).destroyed(),
            old(self).stashes().contains_key(key@) ==> final(self).agent_order() == old(self).agent_order(),
    {
        let ghost g = *self;
        let ghost kv = key@;
        self.stashed.insert(key, s);
        proof {
            assert forall|k: Seq<char>| #[trigger] self.stashed@.contains_key(k) implies
                self.stashed@[k].missed_messages@.len() <= MAX_BUFFERED_MESSAGES by {
                if k != kv {
                    assert(g.stashed@.contains_key(k));
                }
            }
            assert(self.stashes() =~= g.stashes().insert(kv, stash_view(s)));
        }
    }

    pub fn new() -> (r: Self)
        ensures
            r.wf(),
            r.stashes() == Map::<Seq<char>, StashView>::empty(),
            r.destroyed() == Map::<Seq<char>, u64>::empty(),
    {
        let r = ReconnectManager { stashed: StrMap::new(), destroyed_rooms: DestroyedRoomCache::new() };
        assert(r.stashes() =~= Map::<Seq<char>, StashView>::empty());
        r
    }

    /// The rooms of `rooms` not remembered as destroyed.
    fn keep_live_rooms(&self, rooms: &Vec<String>) -> (r: Vec<String>)
        requires
            self.wf(),
        ensures
            strs(r@) == strs(rooms@).filter(live_in(self.destroyed())),
    {
        let ghost p = live_in(self.destroyed());
        let mut out: Vec<String> = Vec::new();
        let mut i: usize = 0;
        while i < rooms.len()
            invariant
                self.wf(),
                p == live_in(self.destroyed()),
                i <= rooms.len(),
                strs(out@) == strs(rooms@).subrange(0, i as int).filter(p),
            decreases rooms.len() - i,
        {
            proof {
                assert(strs(rooms@).subrange(0, i + 1) =~= strs(rooms@).subrange(0, i as int).push(strs(rooms@)[i as int]));
                strs(rooms@).subrange(0, i as int).lemma_filter_push(strs(rooms@)[i as int], p);
            }
            if !self.destroyed_rooms.has(rooms[i].as_str()) {
                let ghost prev = out@;
                out.push(rooms[i].clone());
                proof { assert(strs(out@) =~= strs(prev).push(strs(rooms@)[i as int])); }
            }
            i = i + 1;
        }
        proof { assert(strs(rooms@).subrange(0, rooms@.len() as int) =~= strs(rooms@)); }
        out
    }

    /// Stash an agent's state on disconnect. Rooms already destroyed are
    /// left out, so a later reconnect cannot restore them.
    pub fn stash(&mut self, agent_id: String, name: String, api_key: String, rooms: Vec<String>, now: u64)
        requires
            old(self).wf(),
        ensures
            final(self).wf(),
            pruned(old(self).destroyed(), final(self).destroyed(), now, DESTROYED_ROOM_TTL_MS, MAX_DESTROYED_ROOMS as nat),
            final(self).stashes() == old(self).stashes().insert(agent_id@, StashView {
                agent_id: agent_id@,
                name: name@,
                api_key: api_key@,
                rooms: strs(rooms@).filter(live_in(final(self).destroyed())),
                missed: Seq::empty(),
                disconnected_at: now,
                reclaim_token: None,
            }),
    {
        self.destroyed_rooms.prune(now);
        let live = self.keep_live_rooms(&rooms);
        let key = agent_id.clone();
        let entry = StashedAgent {
            agent_id,
            name,
            api_key,
            rooms: live,
            missed_messages: Vec::new(),
            disconnected_at: now,
            reclaim_token: None,
        };
        proof { assert(frame_views(entry.missed_messages@) =~= Seq::<FrameView>::empty()); }
        self.put(key, entry);
    }

    /// Begin an exclusive reconnect claim without removing the stash.
    pub fn begin_reclaim(&mut self, agent_id: &str, api_key: &str, no_auth: bool, now: u64) -> (r: Result<Option<ReclaimLease>, ReclaimError>)
        requires
            old(self).wf(),
        ensures
            final(self).wf(),
            final(self).destroyed() == old(self).destroyed(),
            !old(self).stashes().contains_key(agent_id@) ==> (r matches Ok(None) && final(self).stashes() == old(self).stashes()),
            old(self).stashes().contains_key(agent_id@) ==> ({
                let s = old(self).stashes()[agent_id@];
                if age(now, s.disconnected_at) >= RECONNECT_WINDOW_MS {
                    (r matches Ok(None) && final(self).stashes() == old(self).stashes().remove(agent_id@))
                } else if !no_auth && s.api_key != api_key@ {
                    r == Err::<Option<ReclaimLease>, ReclaimError>(ReclaimError::CredentialMismatch)
                        && final(self).stashes() == old(self).stashes()
                } else if s.reclaim_token is Some {
                    r == Err::<Option<ReclaimLease>, ReclaimError>(ReclaimError::AlreadyClaimed)
                        && final(self).stashes() == old(self).stashes()
                } else {
                    r matches Ok(Some(lease)) && lease.agent() == agent_id@
                        && final(self).stashes() == old(self).stashes().insert(agent_id@,
                            StashView { reclaim_token: Some(lease.token()), ..s })
                        && final(self).holds_claim(agent_id@, lease.token())
                }
            }),
    {
        let ghost g = *self;
        let entry = match self.stashed.get(agent_id) {
            Some(e) => clone_stash(e),
            None => return Ok(None),
        };
        proof { assert(self.stashed@.contains_key(agent_id@)); }
        let elapsed = if now >= entry.disconnected_at { now - entry.disconnected_at } else { 0 };
        if elapsed >= RECONNECT_WINDOW_MS {
            self.stashed.remove(agent_id);
            proof { self.lemma_after_remove(&g, agent_id@); }
            return Ok(None);
        }
        if !no_auth && !str_eq(entry.api_key.as_str(), api_key) {
            return Err(ReclaimError::CredentialMismatch);
        }
        if entry.reclaim_token.is_some() {
            return Err(ReclaimError::AlreadyClaimed);
        }
        let token = fresh_claim_token();
        let mut claimed = entry;
        claimed.reclaim_token = Some(token.clone());
        self.put(owned(agent_id), claimed);
        Ok(Some(ReclaimLease { agent_id: owned(agent_id), token }))
    }

    /// Reclaim a stash in one step. A stable identity belongs to the key that
    /// stashed it; another key cannot reclaim it.
    pub fn reclaim(&mut self, agent_id: &str, api_key: &str, no_auth: bool, now: u64) -> (r: Result<Option<StashedAgent>, ReclaimError>)
        requires
            old(self).wf(),
        ensures
            final(self).wf(),
            final(self).destroyed() == old(self).destroyed(),
            !old(self).stashes().contains_key(agent_id@) ==> (r matches Ok(None) && final(self).stashes() == old(self).stashes()),
            old(self).stashes().contains_key(agent_id@) ==> ({
                let s = old(self).stashes()[agent_id@];
                if age(now, s.disconnected_at) >= RECONNECT_WINDOW_MS {
                    (r matches Ok(None) && final(self).stashes() == old(self).stashes().remove(agent_id@))
                } else if !no_auth && s.api_key != api_key@ {
                    r == Err::<Option<StashedAgent>, ReclaimError>(ReclaimError::CredentialMismatch)
                        && final(self).stashes() == old(self).stashes()
                } else if s.reclaim_token is Some {
                    r == Err::<Option<StashedAgent>, ReclaimError>(ReclaimError::AlreadyClaimed)
                        && final(self).stashes() == old(self).stashes()
                } else {
                    r matches Ok(Some(st)) && stash_view(st) == s
                        && final(self).stashes() == old(self).stashes().remove(agent_id@)
                }
            }),
    {
        let lease = match self.begin_reclaim(agent_id, api_key, no_auth, now) {
            Err(e) => return Err(e),
            Ok(None) => return Ok(None),
            Ok(Some(l)) => l,
        };
        let ghost mid = self.stashes();
        let r = lease.commit(self);
        proof {
            assert(mid.remove(agent_id@) =~= old(self).stashes().remove(agent_id@));
        }
        Ok(r)
    }

    /// Whether `agent_id` has a stash.
    pub fn is_stashed(&self, agent_id: &str) -> (r: bool)
        requires
            self.wf(),
        ensures
            r == self.stashes().contains_key(agent_id@),
    {
        self.stashed.contains_key(agent_id)
    }

    /// Buffer an event for a disconnected agent, unless it concerns a
    /// destroyed room or the agent's buffer is full.
    pub fn buffer_message(&mut self, agent_id: &str, frame: EventFrame, now: u64)
        requires
            old(self).wf(),
        ensures
            final(self).wf(),
            frame.room_id is None ==> final(self).destroyed() == old(self).destroyed(),
            frame.room_id is Some ==> pruned(old(self).destroyed(), final(self).destroyed(), now, DESTROYED_ROOM_TTL_MS, MAX_DESTROYED_ROOMS as nat),
            final(self).stashes() == (if (frame_room(frame) matches Some(room) && final(self).destroyed().contains_key(room))
                || !old(self).stashes().contains_key(agent_id@)
                || old(self).stashes()[agent_id@].missed.len() >= MAX_BUFFERED_MESSAGES {
                old(self).stashes()
            } else {
                old(self).stashes().insert(agent_id@, StashView {
                    missed: old(self).stashes()[agent_id@].missed.push(frame_view(frame)),
                    ..old(self).stashes()[agent_id@]
                })
            }),
    {
        self.try_buffer(agent_id, frame, now);
    }

    /// `buffer_message`, reporting whether the event was appended.
    fn try_buffer(&mut self, agent_id: &str, frame: EventFrame, now: u64) -> (r: bool)
        requires
            old(self).wf(),
        ensures
            final(self).wf(),
            final(self).agent_order() == old(self).agent_order(),
            frame.room_id is None ==> final(self).destroyed() == old(self).destroyed(),
            frame.room_id is Some ==> pruned(old(self).destroyed(), final(self).destroyed(), now, DESTROYED_ROOM_TTL_MS, MAX_DESTROYED_ROOMS as nat),
            r == !(event_blocked(frame, final(self).destroyed())
                || !old(self).stashes().contains_key(agent_id@)
                || old(self).stashes()[agent_id@].missed.len() >= MAX_BUFFERED_MESSAGES),
            final(self).stashes() == (if !r {
                old(self).stashes()
            } else {
                old(self).stashes().insert(agent_id@, StashView {
                    missed: old(self).stashes()[agent_id@].missed.push(frame_view(frame)),
                    ..old(self).stashes()[agent_id@]
                })
            }),
    {
        if let Some(room) = &frame.room_id {
            if self.destroyed_rooms.contains(room.as_str(), now) {
                return false;
            }
        }
        let entry = match self.stashed.get(agent_id) {
            Some(e) => clone_stash(e),
            None => return false,
        };
        proof { assert(self.stashed@.contains_key(agent_id@)); }
        if entry.missed_messages.len() < MAX_BUFFERED_MESSAGES {
            let mut updated = entry;
            let ghost before = frame_views(updated.missed_messages@);
            updated.missed_messages.push(frame);
            proof { assert(frame_views(updated.missed_messages@) =~= before.push(frame_view(frame))); }
            self.put(owned(agent_id), updated);
            true
        } else {
            false
        }
    }

    /// Buffer `frame` for every stashed member of `room_id` other than
    /// `except`, in stash order. Returns the agents whose buffers took it.
    pub(crate) fn buffer_for_room_members(&mut self, room_id: &str, except: &str, frame: &EventFrame, now: u64)
        -> (r: Vec<String>)
        requires
            old(self).wf(),
        ensures
            final(self).wf(),
            final(self).stashes().dom() == old(self).stashes().dom(),
            frame.room_id is None ==> final(self).destroyed() == old(self).destroyed(),
            forall|a: Seq<char>| #[trigger] strs(r@).contains(a) <==>
                takes_room_event(old(self).stashes(), room_id@, except@, a) && !event_blocked(*frame, final(self).destroyed()),
            strs(r@).no_duplicates(),
            forall|a: Seq<char>| #[trigger] final(self).stashes().contains_key(a) ==>
                final(self).stashes()[a] == (if strs(r@).contains(a) {
                    StashView { missed: old(self).stashes()[a].missed.push(frame_view(*frame)), ..old(self).stashes()[a] }
                } else {
                    old(self).stashes()[a]
                }),
    {
        let ghost g = *self;
        let ghost order = g.agent_order();
        let ghost mut called = false;
        let mut out: Vec<String> = Vec::new();
        let n = self.stashed.len();
        let mut i: usize = 0;
        while i < n
            invariant
                self.wf(),
                g.wf(),
                n == order.len(),
                order == g.agent_order(),
                self.agent_order() == order,
                i <= n,
                self.stashes().dom() == g.stashes().dom(),
                frame.room_id is None ==> self.destroyed() == g.destroyed(),
                !called ==> self.destroyed() == g.destroyed(),
                called && frame.room_id is Some ==>
                    settled(self.destroyed(), now, DESTROYED_ROOM_TTL_MS, MAX_DESTROYED_ROOMS as nat),
                !called ==> forall|j: int| 0 <= j < i ==> !offers_room_event(g.stashes(), room_id@, except@, #[trigger] order[j]),
                forall|a: Seq<char>| #[trigger] strs(out@).contains(a) <==>
                    (exists|j: int| 0 <= j < i && order[j] == a)
                    && takes_room_event(g.stashes(), room_id@, except@, a) && !event_blocked(*frame, self.destroyed()),
                strs(out@).no_duplicates(),
                forall|a: Seq<char>| #[trigger] self.stashes().contains_key(a) ==>
                    self.stashes()[a] == (if strs(out@).contains(a) {
                        StashView { missed: g.stashes()[a].missed.push(frame_view(*frame)), ..g.stashes()[a] }
                    } else {
                        g.stashes()[a]
                    }),
            decreases n - i,
        {
            let key = self.stashed.key_at(i).clone();
            let ghost k = key@;
            proof {
                self.stashed.lemma_key_in_view(i as int);
                assert(order[i as int] == k);
                assert forall|j: int| 0 <= j < i implies order[j] != k by {
                    g.stashed.lemma_keys_distinct(j, i as int);
                }
                assert(!strs(out@).contains(k));
                assert(self.stashes().contains_key(k));
                assert(self.stashes()[k] == g.stashes()[k]);
            }
            let in_room = contains_str(&self.stashed.value_at(i).rooms, room_id);
            if in_room && !str_eq(key.as_str(), except) {
                let ghost pre = *self;
                let ghost pre_out = out@;
                proof {
                    assert(offers_room_event(g.stashes(), room_id@, except@, k));
                }
                let copy = clone_frame(frame);
                proof {
                    assert(frame_room(copy) == frame_room(*frame));
                    assert(copy.room_id is None <==> frame.room_id is None);
                }
                let took = self.try_buffer(key.as_str(), copy, now);
                proof {
                    if frame.room_id is Some {
                        lemma_prune_settles(pre.destroyed(), self.destroyed(), now, DESTROYED_ROOM_TTL_MS, MAX_DESTROYED_ROOMS as nat);
                    }
                    if !called {
                        assert(pre_out.len() == 0) by {
                            if pre_out.len() > 0 {
                                assert(strs(pre_out).contains(strs(pre_out)[0]));
                            }
                        }
                    }
                    called = true;
                }
                if took {
                    out.push(key);
                    proof {
                        assert(strs(out@) =~= strs(pre_out).push(k));
                        assert(!strs(pre_out).contains(k));
                    }
                } else {
                    proof { assert(strs(out@) =~= strs(pre_out)); }
                }
                proof {
                    assert forall|a: Seq<char>| #[trigger] strs(out@).contains(a) <==>
                        (exists|j: int| 0 <= j < i + 1 && order[j] == a)
                        && takes_room_event(g.stashes(), room_id@, except@, a) && !event_blocked(*frame, self.destroyed()) by {
                        if a == k {
                            assert(order[i as int] == a);
                            if took {
                                assert(strs(out@)[pre_out.len() as int] == k);
                            } else {
                                assert(!strs(out@).contains(k));
                            }
                        } else {
                            if strs(out@).contains(a) {
                                let x = choose|x: int| 0 <= x < strs(out@).len() && strs(out@)[x] == a;
                                assert(strs(pre_out)[x] == a);
                                assert(strs(pre_out).contains(a));
                            }
                            if exists|j: int| 0 <= j < i + 1 && order[j] == a {
                                let j = choose|j: int| 0 <= j < i + 1 && order[j] == a;
                                assert(j < i);
                            }
                            if (exists|j: int| 0 <= j < i && order[j] == a)
                                && takes_room_event(g.stashes(), room_id@, except@, a) && !event_blocked(*frame, self.destroyed()) {
                                assert(strs(pre_out).contains(a));
                                let x = choose|x: int| 0 <= x < strs(pre_out).len() && strs(pre_out)[x] == a;
                                assert(strs(out@)[x] == a);
                            }
                        }
                    }
                    assert(strs(out@).no_duplicates());
                    assert forall|a: Seq<char>| #[trigger] self.stashes().contains_key(a) implies
                        self.stashes()[a] == (if strs(out@).contains(a) {
                            StashView { missed: g.stashes()[a].missed.push(frame_view(*frame)), ..g.stashes()[a] }
                        } else {
                            g.stashes()[a]
                        }) by {
                        assert(pre.stashes().contains_key(a));
                        if a != k {
                            assert(strs(out@).contains(a) == strs(pre_out).contains(a)) by {
                                if strs(out@).contains(a) {
                                    let x = choose|x: int| 0 <= x < strs(out@).len() && strs(out@)[x] == a;
                                    assert(strs(pre_out)[x] == a);
                                }
                                if strs(pre_out).contains(a) {
                                    let x = choose|x: int| 0 <= x < strs(pre_out).len() && strs(pre_out)[x] == a;
                                    assert(strs(out@)[x] == a);
                                }
                            }
                        }
                    }
                }
            } else {
                proof {
                    assert(!offers_room_event(g.stashes(), room_id@, except@, k));
                    assert forall|a: Seq<char>| #[trigger] strs(out@).contains(a) <==>
                        (exists|j: int| 0 <= j < i + 1 && order[j] == a)
                        && takes_room_event(g.stashes(), room_id@, except@, a) && !event_blocked(*frame, self.destroyed()) by {
                        if exists|j: int| 0 <= j < i + 1 && order[j] == a {
                            let j = choose|j: int| 0 <= j < i + 1 && order[j] == a;
                            if j == i {
                                assert(!takes_room_event(g.stashes(), room_id@, except@, a));
                            } else {
                                assert(exists|j: int| 0 <= j < i && order[j] == a);
                            }
                        }
                        if exists|j: int| 0 <= j < i && order[j] == a {
                            let j = choose|j: int| 0 <= j < i && order[j] == a;
                            assert(0 <= j < i + 1 && order[j] == a);
                        }
                    }
                }
            }
            i = i + 1;
        }
        proof {
            g.stashed.lemma_view_finite();
            assert forall|a: Seq<char>| #[trigger] strs(out@).contains(a) <==>
                takes_room_event(g.stashes(), room_id@, except@, a) && !event_blocked(*frame, self.destroyed()) by {
                if takes_room_event(g.stashes(), room_id@, except@, a) {
                    assert(g.stashed@.contains_key(a));
                    assert(order.to_set().contains(a));
                }
            }
        }
        out
    }

    /// Buffer a room-metadata event for every disconnected agent allowed to
    /// see the room: public rooms reach all, private rooms their owner and
    /// the non-empty keys in `granted_keys`. Returns who received it.
    pub fn buffer_visible_room_event(&mut self, visibility: &str, owner_key: Option<&str>, granted_keys: &Vec<String>,
        no_auth: bool, frame: &EventFrame, now: u64) -> (r: Vec<String>)
        requires
            old(self).wf(),
        ensures
            final(self).wf(),
            frame.room_id is None ==> final(self).destroyed() == old(self).destroyed(),
            frame.room_id is Some ==> pruned(old(self).destroyed(), final(self).destroyed(), now, DESTROYED_ROOM_TTL_MS, MAX_DESTROYED_ROOMS as nat),
            ({
                let blocked = frame_room(*frame) matches Some(room) && final(self).destroyed().contains_key(room);
                let gets = |a: Seq<char>| receives(old(self).stashes(), a, visibility@, opt_str_view(owner_key),
                    strs(granted_keys@), no_auth, blocked);
                &&& forall|a: Seq<char>| #[trigger] strs(r@).contains(a) <==> gets(a)
                &&& final(self).stashes().dom() == old(self).stashes().dom()
                &&& forall|a: Seq<char>| #[trigger] final(self).stashes().contains_key(a) ==>
                    final(self).stashes()[a] == (if gets(a) {
                        StashView { missed: old(self).stashes()[a].missed.push(frame_view(*frame)), ..old(self).stashes()[a] }
                    } else {
                        old(self).stashes()[a]
                    })
            }),
    {
        let destroyed = match &frame.room_id {
            Some(room) => self.destroyed_rooms.contains(room.as_str(), now),
            None => false,
        };
        let ghost g = *self;
        let ghost stashes0 = g.stashes();
        let mut out: Vec<String> = Vec::new();
        let n = self.stashed.len();
        proof {
            assert forall|j: int| 0 <= j < n implies #[trigger] g.stashes().contains_key(g.agent_order()[j]) by {
                g.stashed.lemma_key_in_view(j);
            }
        }
        let mut i: usize = 0;
        while i < n
            invariant
                self.wf(),
                g.wf(),
                stashes0 == g.stashes(),
                n == self.agent_order().len(),
                self.agent_order() == g.agent_order(),
                self.destroyed() == g.destroyed(),
                i <= n,
                self.stashes().dom() == g.stashes().dom(),
                forall|j: int| 0 <= j < n ==> #[trigger] g.stashes().contains_key(g.agent_order()[j]),
                forall|a: Seq<char>| #[trigger] self.stashes().contains_key(a) ==>
                    self.stashes()[a] == (if receives(stashes0, a, visibility@, opt_str_view(owner_key), strs(granted_keys@), no_auth, destroyed) && (exists|j: int| 0 <= j < i && g.agent_order()[j] == a) {
                        StashView { missed: g.stashes()[a].missed.push(frame_view(*frame)), ..g.stashes()[a] }
                    } else {
                        g.stashes()[a]
                    }),
                forall|a: Seq<char>| #[trigger] strs(out@).contains(a) <==>
                    receives(stashes0, a, visibility@, opt_str_view(owner_key), strs(granted_keys@), no_auth, destroyed) && (exists|j: int| 0 <= j < i && g.agent_order()[j] == a),
            decreases n - i,
        {
            let key = self.stashed.key_at(i).clone();
            let ghost k = key@;
            proof {
                self.stashed.lemma_key_in_view(i as int);
                assert(g.agent_order()[i as int] == k);
                assert(self.stashes().contains_key(k));
                if exists|j: int| 0 <= j < i && g.agent_order()[j] == k {
                    let j = choose|j: int| 0 <= j < i && g.agent_order()[j] == k;
                    g.stashed.lemma_keys_distinct(j, i as int);
                }
                assert(self.stashes()[k] == g.stashes()[k]);
            }
            let entry = clone_stash(self.stashed.value_at(i));
            let sees = can_access_room_parts(visibility, owner_key, entry.api_key.as_str(), no_auth)
                || (!entry.api_key.as_str().is_empty() && contains_str(granted_keys, entry.api_key.as_str()));
            let upd = sees && !destroyed && entry.missed_messages.len() < MAX_BUFFERED_MESSAGES;
            proof {
                assert(g.stashes().contains_key(k));
                assert(stash_view(entry) == g.stashes()[k]);
                assert(entry.missed_messages@.len() == g.stashes()[k].missed.len());
                assert(sees == sees_event(visibility@, opt_str_view(owner_key), strs(granted_keys@), no_auth, g.stashes()[k].api_key));
                assert(upd == receives(g.stashes(), k, visibility@, opt_str_view(owner_key),
                    strs(granted_keys@), no_auth, destroyed));
                assert(upd == receives(stashes0, k, visibility@, opt_str_view(owner_key), strs(granted_keys@), no_auth, destroyed));
            }
            let ghost prev_out = out@;
            let ghost prev_self = *self;
            if upd {
                let mut updated = entry;
                let ghost before = frame_views(updated.missed_messages@);
                updated.missed_messages.push(clone_frame(frame));
                proof { assert(frame_views(updated.missed_messages@) =~= before.push(frame_view(*frame))); }
                out.push(key.clone());
                proof { assert(strs(out@) =~= strs(prev_out).push(k)); }
                self.put(key, updated);
                proof {
                    assert(self.stashes()[k] == StashView { missed: g.stashes()[k].missed.push(frame_view(*frame)), ..g.stashes()[k] });
                }
            } else {
                proof { assert(strs(out@) =~= strs(prev_out)); }
            }
            proof {
                assert forall|a: Seq<char>| #[trigger] self.stashes().contains_key(a) implies
                    self.stashes()[a] == (if receives(stashes0, a, visibility@, opt_str_view(owner_key), strs(granted_keys@), no_auth, destroyed) && (exists|j: int| 0 <= j < i + 1 && g.agent_order()[j] == a) {
                        StashView { missed: g.stashes()[a].missed.push(frame_view(*frame)), ..g.stashes()[a] }
                    } else {
                        g.stashes()[a]
                    }) by {
                    assert(prev_self.stashes().contains_key(a));
                    if a != k {
                        assert(self.stashes()[a] == prev_self.stashes()[a]);
                        if exists|j: int| 0 <= j < i + 1 && g.agent_order()[j] == a {
                            let j = choose|j: int| 0 <= j < i + 1 && g.agent_order()[j] == a;
                            assert(j != i);
                            assert(exists|j: int| 0 <= j < i && g.agent_order()[j] == a);
                        }
                        if exists|j: int| 0 <= j < i && g.agent_order()[j] == a {
                            let j = choose|j: int| 0 <= j < i && g.agent_order()[j] == a;
                            assert(0 <= j < i + 1 && g.agent_order()[j] == a);
                        }
                    } else {
                        assert(0 <= i < i + 1 && g.agent_order()[i as int] == a);
                    }
                }
                assert forall|a: Seq<char>| #[trigger] strs(out@).contains(a) <==>
                    receives(stashes0, a, visibility@, opt_str_view(owner_key), strs(granted_keys@), no_auth, destroyed) && (exists|j: int| 0 <= j < i + 1 && g.agent_order()[j] == a) by {
                    if strs(out@).contains(a) {
                        if a == k {
                            assert(upd);
                            assert(0 <= i < i + 1 && g.agent_order()[i as int] == a);
                        } else {
                            let x = choose|x: int| 0 <= x < strs(out@).len() && strs(out@)[x] == a;
                            assert(x < strs(prev_out).len());
                            assert(strs(prev_out)[x] == a);
                            assert(strs(prev_out).contains(a));
                            let j = choose|j: int| 0 <= j < i && g.agent_order()[j] == a;
                            assert(0 <= j < i + 1 && g.agent_order()[j] == a);
                        }
                    }
                    if receives(stashes0, a, visibility@, opt_str_view(owner_key), strs(granted_keys@), no_auth, destroyed) && (exists|j: int| 0 <= j < i + 1 && g.agent_order()[j] == a) {
                        let j = choose|j: int| 0 <= j < i + 1 && g.agent_order()[j] == a;
                        if j < i {
                            assert(strs(prev_out).contains(a));
                            let x = choose|x: int| 0 <= x < strs(prev_out).len() && strs(prev_out)[x] == a;
                            assert(strs(out@)[x] == a);
                        } else {
                            assert(a == k);
                            assert(strs(out@)[strs(out@).len() - 1] == a);
                        }
                    }
                }
            }
            i = i + 1;
        }
        proof {
            assert forall|a: Seq<char>| g.stashes().contains_key(a) implies
                exists|j: int| 0 <= j < n && g.agent_order()[j] == a by {
                g.stashed.lemma_view_finite();
                assert(g.stashed@.contains_key(a));
                assert(g.agent_order().to_set().contains(a));
            }
        }
        out
    }

    /// Drop the stashes whose reconnect window has passed, and prune the
    /// destroyed-room memory.
    pub fn expire(&mut self, now: u64)
        requires
            old(self).wf(),
        ensures
            final(self).wf(),
            final(self).stashes() == fresh_stashes(old(self).stashes(), now),
            pruned(old(self).destroyed(), final(self).destroyed(), now, DESTROYED_ROOM_TTL_MS, MAX_DESTROYED_ROOMS as nat),
    {
        let ghost g = *self;
        let mut kept: StrMap<StashedAgent> = StrMap::new();
        let n = self.stashed.len();
        let mut i: usize = 0;
        while i < n
            invariant
                *self == g,
                g.wf(),
                n == g.agent_order().len(),
                i <= n,
                kept.wf(),
                forall|a: Seq<char>| #[trigger] kept@.contains_key(a) <==>
                    fresh_stashes(g.stashes(), now).contains_key(a) && (exists|j: int| 0 <= j < i && g.agent_order()[j] == a),
                forall|a: Seq<char>| #[trigger] kept@.contains_key(a) ==>
                    stash_view(kept@[a]) == g.stashes()[a] && kept@[a].missed_messages@.len() <= MAX_BUFFERED_MESSAGES,
            decreases n - i,
        {
            let key = self.stashed.key_at(i);
            let entry = self.stashed.value_at(i);
            let ghost k = key@;
            proof {
                self.stashed.lemma_key_in_view(i as int);
                assert(g.agent_order()[i as int] == k);
                if exists|j: int| 0 <= j < i && g.agent_order()[j] == k {
                    let j = choose|j: int| 0 <= j < i && g.agent_order()[j] == k;
                    g.stashed.lemma_keys_distinct(j, i as int);
                }
                assert(!kept@.contains_key(k));
                assert(self.stashed@.contains_key(k));
            }
            let elapsed = if now >= entry.disconnected_at { now - entry.disconnected_at } else { 0 };
            let ghost prev = kept@;
            if elapsed < RECONNECT_WINDOW_MS {
                kept.insert(key.clone(), clone_stash(entry));
            }
            proof {
                assert forall|a: Seq<char>| #[trigger] kept@.contains_key(a) <==>
                    fresh_stashes(g.stashes(), now).contains_key(a) && (exists|j: int| 0 <= j < i + 1 && g.agent_order()[j] == a) by {
                    if a != k {
                        if exists|j: int| 0 <= j < i + 1 && g.agent_order()[j] == a {
                            let j = choose|j: int| 0 <= j < i + 1 && g.agent_order()[j] == a;
                            assert(j != i);
                            assert(exists|j: int| 0 <= j < i && g.agent_order()[j] == a);
                        }
                        if exists|j: int| 0 <= j < i && g.agent_order()[j] == a {
                            let j = choose|j: int| 0 <= j < i && g.agent_order()[j] == a;
                            assert(0 <= j < i + 1 && g.agent_order()[j] == a);
                        }
                    } else {
                        assert(0 <= i < i + 1 && g.agent_order()[i as int] == a);
                    }
                }
                assert forall|a: Seq<char>| #[trigger] kept@.contains_key(a) implies
                    stash_view(kept@[a]) == g.stashes()[a] && kept@[a].missed_messages@.len() <= MAX_BUFFERED_MESSAGES by {
                    if a != k {
                        assert(prev.contains_key(a));
                    }
                }
            }
            i = i + 1;
        }
        proof {
            assert forall|a: Seq<char>| g.stashes().contains_key(a) implies
                exists|j: int| 0 <= j < n && g.agent_order()[j] == a by {
                g.stashed.lemma_view_finite();
                assert(g.stashed@.contains_key(a));
                assert(g.agent_order().to_set().contains(a));
            }
        }
        self.stashed = kept;
        self.destroyed_rooms.prune(now);
        proof {
            assert(self.stashes() =~= fresh_stashes(g.stashes(), now));
        }
    }

    /// The stashed agents whose rooms include `room_id`, in stash order.
    pub fn stashed_members_of_room(&self, room_id: &str) -> (r: Vec<String>)
        requires
            self.wf(),
        ensures
            strs(r@) == self.agent_order().filter(stash_in_room(self.stashes(), room_id@)),
    {
        let ghost p = stash_in_room(self.stashes(), room_id@);
        let mut out: Vec<String> = Vec::new();
        let n = self.stashed.len();
        let mut i: usize = 0;
        while i < n
            invariant
                self.wf(),
                n == self.agent_order().len(),
                p == stash_in_room(self.stashes(), room_id@),
                i <= n,
                strs(out@) == self.agent_order().subrange(0, i as int).filter(p),
            decreases n - i,
        {
            let ghost order = self.agent_order();
            proof {
                assert(order.subrange(0, i + 1) =~= order.subrange(0, i as int).push(order[i as int]));
                order.subrange(0, i as int).lemma_filter_push(order[i as int], p);
                self.stashed.lemma_key_in_view(i as int);
            }
            let key = self.stashed.key_at(i);
            let entry = self.stashed.value_at(i);
            if contains_str(&entry.rooms, room_id) {
                let ghost prev = out@;
                out.push(key.clone());
                proof { assert(strs(out@) =~= strs(prev).push(order[i as int])); }
            }
            i = i + 1;
        }
        proof { assert(self.agent_order().subrange(0, n as int) =~= self.agent_order()); }
        out
    }

    /// Remember `room_id` as destroyed, and remove it from every stash: from
    /// the rooms to restore and from the buffered events.
    pub fn forget_room(&mut self, room_id: &str, now: u64)
        requires
            old(self).wf(),
        ensures
            final(self).wf(),
            forall|k: Seq<char>| #[trigger] final(self).destroyed().contains_key(k) ==> k == room_id@ || old(self).destroyed().contains_key(k),
            (forall|k: Seq<char>| #[trigger] old(self).destroyed().contains_key(k) ==> old(self).destroyed()[k] < now)
                ==> final(self).destroyed().contains_key(room_id@),
            fresh_keys(old(self).destroyed(), now, DESTROYED_ROOM_TTL_MS).len() < MAX_DESTROYED_ROOMS
                ==> final(self).destroyed().contains_key(room_id@),
            final(self).stashes().dom() == old(self).stashes().dom(),
            forall|a: Seq<char>| #[trigger] final(self).stashes().contains_key(a) ==>
                final(self).stashes()[a] == without_room(old(self).stashes()[a], room_id@),
    {
        let ghost d0 = self.destroyed();
        proof {
            if forall|k: Seq<char>| #[trigger] d0.contains_key(k) ==> d0[k] < now {
                assert forall|k: Seq<char>| #[trigger] self.destroyed_rooms@.contains_key(k) implies self.destroyed_rooms@[k] < now by {
                    assert(d0.contains_key(k));
                }
            }
        }
        self.destroyed_rooms.insert(room_id, now);
        let ghost g = *self;
        let n = self.stashed.len();
        let mut i: usize = 0;
        while i < n
            invariant
                self.wf(),
                g.wf(),
                n == self.agent_order().len(),
                self.agent_order() == g.agent_order(),
                self.destroyed() == g.destroyed(),
                i <= n,
                self.stashes().dom() == g.stashes().dom(),
                forall|a: Seq<char>| #[trigger] self.stashes().contains_key(a) ==>
                    self.stashes()[a] == (if (exists|j: int| 0 <= j < i && g.agent_order()[j] == a) {
                        without_room(g.stashes()[a], room_id@)
                    } else {
                        g.stashes()[a]
                    }),
            decreases n - i,
        {
            let key = self.stashed.key_at(i).clone();
            let ghost k = key@;
            proof {
                self.stashed.lemma_key_in_view(i as int);
                assert(g.agent_order()[i as int] == k);
                if exists|j: int| 0 <= j < i && g.agent_order()[j] == k {
                    let j = choose|j: int| 0 <= j < i && g.agent_order()[j] == k;
                    g.stashed.lemma_keys_distinct(j, i as int);
                }
                assert(self.stashes().contains_key(k));
                assert(self.stashes()[k] == g.stashes()[k]);
            }
            let entry = self.stashed.value_at(i);
            let updated = StashedAgent {
                agent_id: entry.agent_id.clone(),
                name: entry.name.clone(),
                api_key: entry.api_key.clone(),
                rooms: remove_all(&entry.rooms, room_id),
                missed_messages: frames_not_about(&entry.missed_messages, room_id),
                disconnected_at: entry.disconnected_at,
                reclaim_token: match &entry.reclaim_token { Some(t) => Some(t.clone()), None => None },
            };
            proof {
                assert(self.stashed@.contains_key(k));
                assert(stash_view(updated) == without_room(g.stashes()[k], room_id@));
            }
            let ghost prev_self = *self;
            self.put(key, updated);
            proof {
                assert forall|a: Seq<char>| #[trigger] self.stashes().contains_key(a) implies
                    self.stashes()[a] == (if (exists|j: int| 0 <= j < i + 1 && g.agent_order()[j] == a) {
                        without_room(g.stashes()[a], room_id@)
                    } else {
                        g.stashes()[a]
                    }) by {
                    assert(prev_self.stashes().contains_key(a));
                    if a != k {
                        if exists|j: int| 0 <= j < i + 1 && g.agent_order()[j] == a {
                            let j = choose|j: int| 0 <= j < i + 1 && g.agent_order()[j] == a;
                            assert(j != i);
                            assert(exists|j: int| 0 <= j < i && g.agent_order()[j] == a);
                        }
                        if exists|j: int| 0 <= j < i && g.agent_order()[j] == a {
                            let j = choose|j: int| 0 <= j < i && g.agent_order()[j] == a;
                            assert(0 <= j < i + 1 && g.agent_order()[j] == a);
                        }
                    } else {
                        assert(0 <= i < i + 1 && g.agent_order()[i as int] == a);
                    }
                }
            }
            i = i + 1;
        }
        proof {
            assert forall|a: Seq<char>| g.stashes().contains_key(a) implies
                exists|j: int| 0 <= j < n && g.agent_order()[j] == a by {
                g.stashed.lemma_view_finite();
                assert(g.stashed@.contains_key(a));
                assert(g.agent_order().to_set().contains(a));
            }
        }
    }

    /// How many destroyed rooms are remembered at `now`.
    pub fn destroyed_room_count(&mut self, now: u64) -> (n: usize)
        requires
            old(self).wf(),
        ensures
            final(self).wf(),
            final(self).stashes() == old(self).stashes(),
            pruned(old(self).destroyed(), final(self).destroyed(), now, DESTROYED_ROOM_TTL_MS, MAX_DESTROYED_ROOMS as nat),
            n == final(self).destroyed().dom().len(),
    {
        self.destroyed_rooms.prune(now);
        self.destroyed_rooms.len()
    }
}

} // verus!
