use vstd::prelude::*;

use crate::expiry::{fresh_keys, is_fresh, lemma_prune_keeps_fresh, lemma_stamped_key_survives, prune_expiring, pruned};
use crate::strmap::{StrMap, without};
use crate::text::{strs, owned, clone_strings, contains_str, position_of, remove_all};

verus! {

/// How long a destroyed room stays tombstoned, in milliseconds.
pub const ROOM_TOMBSTONE_TTL_MS: u64 = 300_000;
/// At most this many tombstones are remembered.
pub const MAX_ROOM_TOMBSTONES: usize = 4096;

/// Result of a join: `new_holder` is set when the room was empty and the
/// joining agent became the turn holder.
#[derive(Debug)]
pub struct JoinOutcome {
    pub new_holder: Option<String>,
}

#[derive(Debug, Clone, Copy, PartialEq, Eq, Structural)]
pub enum JoinRoomError {
    Destroyed,
}

/// Result of a leave.
pub struct LeaveOutcome {
    pub now_empty: bool,
    /// Set when this leave moved the turn to another member.
    pub new_holder: Option<String>,
    pub holder_changed: bool,
}

/// Recently destroyed rooms, each with the instant of its destruction.
pub struct RoomLifecycleState {
    tombstones: StrMap<u64>,
}

impl RoomLifecycleState {
    pub closed spec fn wf(&self) -> bool {
        &&& self.tombstones.wf()
        &&& self.tombstones@.dom().finite()
        &&& self.tombstones@.dom().len() <= MAX_ROOM_TOMBSTONES
    }

    pub closed spec fn view(&self) -> Map<Seq<char>, u64> {
        self.tombstones@
    }

    pub fn new() -> (r: Self)
        ensures
            r.wf(),
            r@ == Map::<Seq<char>, u64>::empty(),
    {
        let r = RoomLifecycleState { tombstones: StrMap::new() };
        proof { r.tombstones.lemma_view_finite(); }
        r
    }

    /// Forget expired tombstones, then the oldest beyond capacity.
    pub fn prune(&mut self, now: u64)
        requires
            old(self).wf(),
        ensures
            final(self).wf(),
            pruned(old(self)@, final(self)@, now, ROOM_TOMBSTONE_TTL_MS, MAX_ROOM_TOMBSTONES as nat),
    {
        prune_expiring(&mut self.tombstones, now, ROOM_TOMBSTONE_TTL_MS, MAX_ROOM_TOMBSTONES);
    }

    /// Tombstones within capacity survive pruning while they are fresh.
    pub proof fn lemma_fresh_kept(before: Self, after: Self, now: u64)
        requires
            before.wf(),
            pruned(before@, after@, now, ROOM_TOMBSTONE_TTL_MS, MAX_ROOM_TOMBSTONES as nat),
        ensures
            forall|k: Seq<char>| before@.contains_key(k) && is_fresh(now, before@[k], ROOM_TOMBSTONE_TTL_MS)
                ==> #[trigger] after@.contains_key(k),
    {
        crate::expiry::lemma_pruned_within_capacity(before@, after@, now, ROOM_TOMBSTONE_TTL_MS, MAX_ROOM_TOMBSTONES as nat);
    }

    /// Record the destruction of `room_id` at `now`.
    pub fn tombstone(&mut self, room_id: &str, now: u64)
        requires
            old(self).wf(),
        ensures
            final(self).wf(),
            forall|k: Seq<char>| #[trigger] final(self)@.contains_key(k) ==>
                k == room_id@ || old(self)@.contains_key(k),
            (forall|k: Seq<char>| #[trigger] old(self)@.contains_key(k) ==> old(self)@[k] < now)
                ==> final(self)@.contains_key(room_id@) && final(self)@[room_id@] == now,
            fresh_keys(old(self)@, now, ROOM_TOMBSTONE_TTL_MS).len() < MAX_ROOM_TOMBSTONES
                ==> final(self)@.contains_key(room_id@) && final(self)@[room_id@] == now,
            final(self)@.dom().len() <= MAX_ROOM_TOMBSTONES,
    {
        let ghost before = self@;
        self.prune(now);
        let ghost mid = self@;
        self.tombstones.insert(owned(room_id), now);
        let ghost ins = self@;
        prune_expiring(&mut self.tombstones, now, ROOM_TOMBSTONE_TTL_MS, MAX_ROOM_TOMBSTONES);
        proof {
            self.tombstones.lemma_view_finite();
            lemma_newest_survives(before, mid, ins, self@, room_id@, now, ROOM_TOMBSTONE_TTL_MS, MAX_ROOM_TOMBSTONES as nat);
            if fresh_keys(before, now, ROOM_TOMBSTONE_TTL_MS).len() < MAX_ROOM_TOMBSTONES {
                lemma_stamped_key_survives(before, mid, ins, self@, room_id@, now, ROOM_TOMBSTONE_TTL_MS, MAX_ROOM_TOMBSTONES as nat);
            }
        }
    }

    pub fn contains(&self, room_id: &str) -> (r: bool)
        requires
            self.wf(),
        ensures
            r == self@.contains_key(room_id@),
    {
        self.tombstones.contains_key(room_id)
    }

    pub fn len(&self) -> (n: usize)
        requires
            self.wf(),
        ensures
            n == self@.dom().len(),
    {
        proof { self.tombstones.lemma_view_finite(); }
        self.tombstones.len()
    }
}

/// Prune, insert a key stamped `now`, prune again: when every earlier stamp
/// is older than `now`, the new key survives.
pub proof fn lemma_newest_survives(
    before: Map<Seq<char>, u64>,
    mid: Map<Seq<char>, u64>,
    ins: Map<Seq<char>, u64>,
    after: Map<Seq<char>, u64>,
    k: Seq<char>,
    now: u64,
    ttl: u64,
    cap: nat,
)
    requires
        pruned(before, mid, now, ttl, cap),
        ins == mid.insert(k, now),
        pruned(ins, after, now, ttl, cap),
        ttl > 0,
        cap > 0,
    ensures
        forall|q: Seq<char>| #[trigger] after.contains_key(q) ==> q == k || before.contains_key(q),
        (forall|q: Seq<char>| #[trigger] before.contains_key(q) ==> before[q] < now)
            ==> after.contains_key(k) && after[k] == now,
        after.dom().len() <= cap,
{
    assert forall|q: Seq<char>| #[trigger] after.contains_key(q) implies q == k || before.contains_key(q) by {
        assert(ins.contains_key(q));
        if q != k {
            assert(mid.contains_key(q));
        }
    }
    if forall|q: Seq<char>| #[trigger] before.contains_key(q) ==> before[q] < now {
        assert(is_fresh(now, now, ttl));
        if !after.contains_key(k) {
            // Not every fresh entry survived, so the cache is full, hence nonempty.
            assert(after.dom().len() == cap);
            assert(after.dom().len() > 0);
            let q = after.dom().choose();
            assert(after.contains_key(q));
            assert(ins[k] <= after[q]);
            assert(q != k);
            assert(mid.contains_key(q));
            assert(before.contains_key(q));
            assert(after[q] == before[q]);
        }
    }
}


/// Room membership in join order, the round-robin turn token of each room,
/// and the tombstones of destroyed rooms.
pub struct Broker {
    room_members: StrMap<Vec<String>>,
    turn_holders: StrMap<String>,
    room_lifecycle: RoomLifecycleState,
}

/// Nobody is listed twice in `r`, and the turn token is held exactly when
/// `r` is non-empty, always by one of its members.
pub open spec fn room_ok(m: Map<Seq<char>, Vec<String>>, h: Map<Seq<char>, String>, r: Seq<char>) -> bool {
    &&& members_in(m, r).no_duplicates()
    &&& (holder_in(h, r) is Some <==> members_in(m, r).len() > 0)
    &&& (holder_in(h, r) is Some ==> members_in(m, r).contains(holder_in(h, r)->0))
}

/// The members of `room` in join order, as kept in `m`.
pub open spec fn members_in(m: Map<Seq<char>, Vec<String>>, room: Seq<char>) -> Seq<Seq<char>> {
    if m.contains_key(room) { strs(m[room]@) } else { Seq::empty() }
}

pub open spec fn holder_in(h: Map<Seq<char>, String>, room: Seq<char>) -> Option<Seq<char>> {
    if h.contains_key(room) { Some(h[room]@) } else { None }
}

impl Broker {
    pub closed spec fn members_map(&self) -> Map<Seq<char>, Vec<String>> {
        self.room_members@
    }

    pub closed spec fn holders_map(&self) -> Map<Seq<char>, String> {
        self.turn_holders@
    }

    /// Members of `room`, in join order.
    pub open spec fn members(&self, room: Seq<char>) -> Seq<Seq<char>> {
        members_in(self.members_map(), room)
    }

    /// Current turn holder of `room`.
    pub open spec fn holder(&self, room: Seq<char>) -> Option<Seq<char>> {
        holder_in(self.holders_map(), room)
    }

    /// Rooms with a membership record.
    pub open spec fn rooms(&self) -> Set<Seq<char>> {
        self.members_map().dom()
    }

    pub closed spec fn tombstones(&self) -> Map<Seq<char>, u64> {
        self.room_lifecycle@
    }

    pub closed spec fn room_order(&self) -> Seq<Seq<char>> {
        self.room_members.key_seq()
    }

    /// Well-formedness: nobody is listed twice in a room, and the turn token
    /// is held exactly in the non-empty rooms, always by one of their members.
    pub closed spec fn wf(&self) -> bool {
        &&& self.room_members.wf()
        &&& self.turn_holders.wf()
        &&& self.room_lifecycle.wf()
        &&& forall|r: Seq<char>| #[trigger] room_ok(self.members_map(), self.holders_map(), r)
    }

    proof fn lemma_frame(old_b: &Broker, new_b: &Broker)
        requires
            old_b.wf(),
            new_b.room_members == old_b.room_members,
            new_b.turn_holders == old_b.turn_holders,
            new_b.room_lifecycle.wf(),
        ensures
            new_b.wf(),
    {
        assert forall|r: Seq<char>| #[trigger] room_ok(new_b.members_map(), new_b.holders_map(), r) by {
            assert(room_ok(old_b.members_map(), old_b.holders_map(), r));
        }
    }

    /// Prune tombstones at `now`, leaving rooms and turns as they are.
    fn prune_tombstones(&mut self, now: u64)
        requires
            old(self).wf(),
        ensures
            final(self).wf(),
            pruned(old(self).tombstones(), final(self).tombstones(), now, ROOM_TOMBSTONE_TTL_MS, MAX_ROOM_TOMBSTONES as nat),
            final(self).members_map() == old(self).members_map(),
            final(self).holders_map() == old(self).holders_map(),
            final(self).room_order() == old(self).room_order(),
            forall|k: Seq<char>| old(self).tombstones().contains_key(k) && is_fresh(now, old(self).tombstones()[k], ROOM_TOMBSTONE_TTL_MS)
                ==> #[trigger] final(self).tombstones().contains_key(k),
    {
        let ghost g = *self;
        self.room_lifecycle.prune(now);
        proof {
            Broker::lemma_frame(&g, self);
            RoomLifecycleState::lemma_fresh_kept(g.room_lifecycle, self.room_lifecycle, now);
        }
    }

    /// The per-room part of well-formedness, for callers and laws.
    pub proof fn lemma_room_ok(&self, r: Seq<char>)
        requires
            self.wf(),
        ensures
            self.members(r).no_duplicates(),
            self.holder(r) is Some <==> self.members(r).len() > 0,
            self.holder(r) is Some ==> self.members(r).contains(self.holder(r)->0),
    {
        assert(room_ok(self.members_map(), self.holders_map(), r));
    }

    pub fn new() -> (r: Self)
        ensures
            r.wf(),
            forall|room: Seq<char>| #[trigger] r.members(room) == Seq::<Seq<char>>::empty(),
            forall|room: Seq<char>| #[trigger] r.holder(room) is None,
            r.tombstones() == Map::<Seq<char>, u64>::empty(),
    {
        Broker {
            room_members: StrMap::new(),
            turn_holders: StrMap::new(),
            room_lifecycle: RoomLifecycleState::new(),
        }
    }

    /// Whether `agent_id` is a member of `room_id`.
    pub fn is_agent_in_room(&self, agent_id: &str, room_id: &str) -> (r: bool)
        requires
            self.wf(),
        ensures
            r == self.members(room_id@).contains(agent_id@),
    {
        match self.room_members.get(room_id) {
            Some(members) => contains_str(members, agent_id),
            None => false,
        }
    }

    /// All members of a room, in join order.
    pub fn get_room_members(&self, room_id: &str) -> (r: Vec<String>)
        requires
            self.wf(),
        ensures
            strs(r@) == self.members(room_id@),
    {
        match self.room_members.get(room_id) {
            Some(members) => clone_strings(members),
            None => {
                let r = Vec::new();
                assert(strs(r@) =~= Seq::<Seq<char>>::empty());
                r
            }
        }
    }

    /// Current turn-token holder for a room, if any.
    pub fn turn_holder(&self, room_id: &str) -> (r: Option<String>)
        requires
            self.wf(),
        ensures
            match r {
                Some(h) => self.holder(room_id@) == Some(h@),
                None => self.holder(room_id@) is None,
            },
    {
        match self.turn_holders.get(room_id) {
            Some(h) => Some(h.clone()),
            None => None,
        }
    }

    /// Every room whose membership lists `agent_id`.
    pub fn rooms_for_agent(&self, agent_id: &str) -> (r: Vec<String>)
        requires
            self.wf(),
        ensures
            forall|room: Seq<char>| #[trigger] strs(r@).contains(room) <==> self.members(room).contains(agent_id@),
            strs(r@).no_duplicates(),
    {
        let mut out: Vec<String> = Vec::new();
        let n = self.room_members.len();
        let mut i: usize = 0;
        while i < n
            invariant
                self.wf(),
                n == self.room_order().len(),
                i <= n,
                forall|room: Seq<char>| #[trigger] strs(out@).contains(room) <==>
                    (exists|j: int| 0 <= j < i && self.room_order()[j] == room) && self.members(room).contains(agent_id@),
                forall|a: int, b: int| 0 <= a < b < out@.len() ==> #[trigger] strs(out@)[a] != #[trigger] strs(out@)[b],
                forall|a: int| 0 <= a < out@.len() ==> exists|j: int| 0 <= j < i && self.room_order()[j] == #[trigger] strs(out@)[a],
            decreases n - i,
        {
            let members = self.room_members.value_at(i);
            let room = self.room_members.key_at(i);
            let ghost prev = out@;
            if contains_str(members, agent_id) {
                out.push(room.clone());
                proof {
                    assert forall|a: int, b: int| 0 <= a < b < out@.len() implies #[trigger] strs(out@)[a] != #[trigger] strs(out@)[b] by {
                        if b == out@.len() - 1 {
                            assert(strs(out@)[a] == strs(prev)[a]);
                            let j = choose|j: int| 0 <= j < i && self.room_order()[j] == strs(prev)[a];
                            self.room_members.lemma_keys_distinct(j, i as int);
                        } else {
                            assert(strs(out@)[a] == strs(prev)[a]);
                            assert(strs(out@)[b] == strs(prev)[b]);
                        }
                    }
                }
            }
            proof {
                assert forall|a: int| 0 <= a < out@.len() implies exists|j: int| 0 <= j < i + 1 && self.room_order()[j] == #[trigger] strs(out@)[a] by {
                    if a < prev.len() {
                        assert(strs(out@)[a] == strs(prev)[a]);
                        let j = choose|j: int| 0 <= j < i && self.room_order()[j] == strs(prev)[a];
                        assert(0 <= j < i + 1 && self.room_order()[j] == strs(out@)[a]);
                    } else {
                        assert(self.room_order()[i as int] == strs(out@)[a]);
                    }
                }
                assert forall|room: Seq<char>| #[trigger] strs(out@).contains(room) <==>
                    (exists|j: int| 0 <= j < i + 1 && self.room_order()[j] == room) && self.members(room).contains(agent_id@) by {
                    if strs(out@).contains(room) {
                        let a = choose|a: int| 0 <= a < strs(out@).len() && strs(out@)[a] == room;
                        if a < prev.len() {
                            assert(strs(prev)[a] == room);
                            assert(strs(prev).contains(room));
                        }
                    }
                    if (exists|j: int| 0 <= j < i + 1 && self.room_order()[j] == room) && self.members(room).contains(agent_id@) {
                        let j = choose|j: int| 0 <= j < i + 1 && self.room_order()[j] == room;
                        if j < i {
                            assert(strs(prev).contains(room));
                            let a = choose|a: int| 0 <= a < strs(prev).len() && strs(prev)[a] == room;
                            assert(strs(out@)[a] == room);
                        } else {
                            assert(strs(out@)[out@.len() - 1] == room);
                        }
                    }
                }
            }
            i = i + 1;
        }
        proof {
            assert forall|room: Seq<char>| #[trigger] strs(out@).contains(room) <==> self.members(room).contains(agent_id@) by {
                if self.members(room).contains(agent_id@) {
                    self.room_members.lemma_view_finite();
                    assert(self.room_order().to_set().contains(room));
                }
            }
        }
        out
    }

    /// Add `agent_id` to `room_id` unless the room was destroyed or does not
    /// exist; a joiner of an empty room takes the turn token.
    pub fn join_room(&mut self, agent_id: &str, room_id: &str, room_exists: bool, now: u64) -> (r: Result<JoinOutcome, JoinRoomError>)
        requires
            old(self).wf(),
        ensures
            final(self).wf(),
            pruned(old(self).tombstones(), final(self).tombstones(), now, ROOM_TOMBSTONE_TTL_MS, MAX_ROOM_TOMBSTONES as nat),
            r is Err <==> (final(self).tombstones().contains_key(room_id@) || !room_exists),
            old(self).tombstones().contains_key(room_id@)
                && is_fresh(now, old(self).tombstones()[room_id@], ROOM_TOMBSTONE_TTL_MS) ==> r is Err,
            r is Err ==> forall|room: Seq<char>| #[trigger] final(self).members(room) == old(self).members(room)
                && final(self).holder(room) == old(self).holder(room),
            r is Ok ==> final(self).members(room_id@) == (if old(self).members(room_id@).contains(agent_id@) {
                    old(self).members(room_id@)
                } else {
                    old(self).members(room_id@).push(agent_id@)
                }),
            r is Ok ==> match old(self).holder(room_id@) {
                Some(h) => final(self).holder(room_id@) == Some(h) && r->Ok_0.new_holder is None,
                None => final(self).holder(room_id@) == Some(agent_id@) && r->Ok_0.new_holder is Some
                    && r->Ok_0.new_holder->0@ == agent_id@,
            },
            forall|room: Seq<char>| room != room_id@ ==> #[trigger] final(self).members(room) == old(self).members(room)
                && final(self).holder(room) == old(self).holder(room),
    {
        self.prune_tombstones(now);
        if self.room_lifecycle.contains(room_id) || !room_exists {
            return Err(JoinRoomError::Destroyed);
        }
        let ghost old_members = self.members(room_id@);
        proof { self.lemma_room_ok(room_id@); }
        let new_list: Vec<String> = match self.room_members.get(room_id) {
            Some(members) => {
                let mut list = clone_strings(members);
                if !contains_str(members, agent_id) {
                    list.push(owned(agent_id));
                    proof {
                        assert(strs(list@) =~= old_members.push(agent_id@));
                    }
                }
                list
            }
            None => {
                let mut list: Vec<String> = Vec::new();
                list.push(owned(agent_id));
                proof {
                    assert(strs(list@) =~= old_members.push(agent_id@));
                }
                list
            }
        };
        proof {
            if !old_members.contains(agent_id@) {
                assert(strs(new_list@) == old_members.push(agent_id@));
                assert forall|a: int, b: int| 0 <= a < strs(new_list@).len() && 0 <= b < strs(new_list@).len() && a != b
                    implies strs(new_list@)[a] != strs(new_list@)[b] by {
                    if a < old_members.len() && b < old_members.len() {
                        assert(strs(new_list@)[a] == old_members[a]);
                        assert(strs(new_list@)[b] == old_members[b]);
                    } else if a == old_members.len() {
                        assert(strs(new_list@)[b] == old_members[b]);
                        assert(old_members.contains(old_members[b]));
                    } else {
                        assert(strs(new_list@)[a] == old_members[a]);
                        assert(old_members.contains(old_members[a]));
                    }
                }
            }
        }
        self.room_members.insert(owned(room_id), new_list);
        let new_holder = if !self.turn_holders.contains_key(room_id) {
            self.turn_holders.insert(owned(room_id), owned(agent_id));
            Some(owned(agent_id))
        } else {
            None
        };
        proof {
            assert(self.members(room_id@).contains(agent_id@)) by {
                if old_members.contains(agent_id@) {
                } else {
                    assert(self.members(room_id@)[old_members.len() as int] == agent_id@);
                }
            }
            assert forall|r: Seq<char>| #[trigger] room_ok(self.members_map(), self.holders_map(), r) by {
                assert(room_ok(old(self).members_map(), old(self).holders_map(), r));
                if r == room_id@ && self.holder(r) is Some {
                    let h = self.holder(r)->0;
                    if old(self).holder(r) is Some {
                        assert(old_members.contains(h));
                        let k = choose|k: int| 0 <= k < old_members.len() && old_members[k] == h;
                        assert(self.members(r)[k] == h);
                    }
                }
            }
        }
        Ok(JoinOutcome { new_holder })
    }

    /// Remove `agent_id` from `room_id`. If it held the turn, the first
    /// remaining member takes it; an emptied room has no holder. Rooms are
    /// never destroyed by leaving.
    pub fn leave_room(&mut self, agent_id: &str, room_id: &str, now: u64) -> (r: LeaveOutcome)
        requires
            old(self).wf(),
        ensures
            final(self).wf(),
            pruned(old(self).tombstones(), final(self).tombstones(), now, ROOM_TOMBSTONE_TTL_MS, MAX_ROOM_TOMBSTONES as nat),
            final(self).members(room_id@) == without(old(self).members(room_id@), agent_id@),
            r.now_empty == (final(self).members(room_id@).len() == 0),
            r.holder_changed == (old(self).holder(room_id@) == Some(agent_id@)),
            r.holder_changed ==> (if r.now_empty {
                    r.new_holder is None && final(self).holder(room_id@) is None
                } else {
                    r.new_holder is Some && r.new_holder->0@ == final(self).members(room_id@)[0]
                        && final(self).holder(room_id@) == Some(final(self).members(room_id@)[0])
                }),
            !r.holder_changed ==> r.new_holder is None && final(self).holder(room_id@) == old(self).holder(room_id@),
            forall|room: Seq<char>| room != room_id@ ==> #[trigger] final(self).members(room) == old(self).members(room)
                && final(self).holder(room) == old(self).holder(room),
    {
        self.prune_tombstones(now);
        let ghost g = *self;
        proof { self.lemma_room_ok(room_id@); }
        let was_holder = match self.turn_holders.get(room_id) {
            Some(h) => crate::text::str_eq(h.as_str(), agent_id),
            None => false,
        };
        let ghost old_members = self.members(room_id@);
        let mut now_empty = true;
        let remaining = match self.room_members.get(room_id) {
            Some(members) => {
                let rest = remove_all(members, agent_id);
                now_empty = rest.len() == 0;
                Some(rest)
            }
            None => None,
        };
        match remaining {
            Some(rest) => {
                self.room_members.insert(owned(room_id), rest);
            }
            None => {
                proof {
                    reveal(Seq::filter);
                    assert(without(old_members, agent_id@) =~= Seq::<Seq<char>>::empty());
                }
            }
        }
        proof {
            lemma_without_membership(old_members, agent_id@);
            lemma_without_keeps_distinct(old_members, agent_id@);
            assert(self.members(room_id@) == without(old_members, agent_id@));
        }
        let out = if was_holder {
            if now_empty {
                self.turn_holders.remove(room_id);
                LeaveOutcome { now_empty, new_holder: None, holder_changed: true }
            } else {
                let first = match self.room_members.get(room_id) {
                    Some(members) => members[0].clone(),
                    None => owned(agent_id),
                };
                proof {
                    assert(self.members(room_id@)[0] == first@);
                    assert(self.members(room_id@).contains(first@));
                }
                self.turn_holders.insert(owned(room_id), first.clone());
                LeaveOutcome { now_empty, new_holder: Some(first), holder_changed: true }
            }
        } else {
            LeaveOutcome { now_empty, new_holder: None, holder_changed: false }
        };
        proof {
            assert forall|r: Seq<char>| #[trigger] room_ok(self.members_map(), self.holders_map(), r) by {
                assert(room_ok(g.members_map(), g.holders_map(), r));
                if r == room_id@ && !was_holder && g.holder(r) is Some {
                    let h = g.holder(r)->0;
                    assert(old_members.contains(h));
                    assert(self.members(r).contains(h));
                }
            }
        }
        out
    }

    /// Pass the turn to the member after `sender_id` in join order (to the
    /// first member if the sender is not listed); an empty room has no holder.
    pub fn advance_turn_from(&mut self, room_id: &str, sender_id: &str) -> (r: Option<String>)
        requires
            old(self).wf(),
        ensures
            final(self).wf(),
            final(self).tombstones() == old(self).tombstones(),
            forall|room: Seq<char>| #[trigger] final(self).members(room) == old(self).members(room),
            forall|room: Seq<char>| room != room_id@ ==> #[trigger] final(self).holder(room) == old(self).holder(room),
            match r {
                None => old(self).members(room_id@).len() == 0 && final(self).holder(room_id@) is None,
                Some(next) => final(self).holder(room_id@) == Some(next@)
                    && next@ == next_turn(old(self).members(room_id@), sender_id@),
            },
            r is Some <==> old(self).members(room_id@).len() > 0,
    {
        proof { self.lemma_room_ok(room_id@); }
        let ghost g = *self;
        let members = self.get_room_members(room_id);
        if members.len() == 0 {
            self.turn_holders.remove(room_id);
            proof {
                assert forall|r: Seq<char>| #[trigger] room_ok(self.members_map(), self.holders_map(), r) by {
                    assert(room_ok(g.members_map(), g.holders_map(), r));
                }
            }
            return None;
        }
        let next = match position_of(&members, sender_id) {
            Some(i) => members[(i + 1) % members.len()].clone(),
            None => members[0].clone(),
        };
        proof {
            let ms = self.members(room_id@);
            if ms.contains(sender_id@) {
                let i = ms.index_of(sender_id@);
                let p = choose|p: int| 0 <= p < ms.len() && ms[p] == sender_id@ && forall|j: int| 0 <= j < p ==> ms[j] != sender_id@;
                assert(ms[i] == sender_id@);
                assert(p == i);
            }
            let ni = if ms.contains(sender_id@) { (ms.index_of(sender_id@) + 1) % (ms.len() as int) } else { 0 };
            assert(0 <= ni < ms.len());
            assert(ms[ni] == next@);
            assert(ms.contains(next@));
        }
        self.turn_holders.insert(owned(room_id), next.clone());
        proof {
            assert forall|r: Seq<char>| #[trigger] room_ok(self.members_map(), self.holders_map(), r) by {
                assert(room_ok(g.members_map(), g.holders_map(), r));
            }
        }
        Some(next)
    }

    /// Run the outcome of the authoritative deletion: on success, tombstone
    /// the room and drop its membership and turn, returning the former
    /// members; on failure nothing but expired tombstones changes.
    pub fn destroy_room_with<T, E>(&mut self, room_id: &str, deleted: Result<T, E>, now: u64) -> (r: Result<(T, Vec<String>), E>)
        requires
            old(self).wf(),
        ensures
            final(self).wf(),
            match deleted {
                Err(e) => r == Err::<(T, Vec<String>), E>(e)
                    && pruned(old(self).tombstones(), final(self).tombstones(), now, ROOM_TOMBSTONE_TTL_MS, MAX_ROOM_TOMBSTONES as nat)
                    && forall|room: Seq<char>| #[trigger] final(self).members(room) == old(self).members(room)
                        && final(self).holder(room) == old(self).holder(room),
                Ok(t) => r is Ok && r->Ok_0.0 == t && strs(r->Ok_0.1@) == old(self).members(room_id@)
                    && final(self).members(room_id@).len() == 0
                    && !final(self).rooms().contains(room_id@)
                    && final(self).holder(room_id@) is None
                    && ((forall|k: Seq<char>| #[trigger] old(self).tombstones().contains_key(k) ==> old(self).tombstones()[k] < now)
                        ==> final(self).tombstones().contains_key(room_id@) && final(self).tombstones()[room_id@] == now)
                    && (fresh_keys(old(self).tombstones(), now, ROOM_TOMBSTONE_TTL_MS).len() < MAX_ROOM_TOMBSTONES
                        ==> final(self).tombstones().contains_key(room_id@) && final(self).tombstones()[room_id@] == now)
                    && (forall|k: Seq<char>| #[trigger] final(self).tombstones().contains_key(k) ==>
                        k == room_id@ || old(self).tombstones().contains_key(k))
                    && forall|room: Seq<char>| room != room_id@ ==> #[trigger] final(self).members(room) == old(self).members(room)
                        && final(self).holder(room) == old(self).holder(room),
            },
    {
        self.prune_tombstones(now);
        match deleted {
            Err(e) => Err(e),
            Ok(t) => {
                let ghost g = *self;
                proof {
                    assert forall|k: Seq<char>| #[trigger] g.tombstones().contains_key(k) ==> k == room_id@ || old(self).tombstones().contains_key(k) by {}
                    lemma_prune_keeps_fresh(old(self).tombstones(), g.tombstones(), now, ROOM_TOMBSTONE_TTL_MS, MAX_ROOM_TOMBSTONES as nat);
                }
                self.room_lifecycle.tombstone(room_id, now);
                let members = match self.room_members.remove(room_id) {
                    Some(m) => m,
                    None => {
                        let m: Vec<String> = Vec::new();
                        assert(strs(m@) =~= Seq::<Seq<char>>::empty());
                        m
                    }
                };
                self.turn_holders.remove(room_id);
                proof {
                    assert forall|r: Seq<char>| #[trigger] room_ok(self.members_map(), self.holders_map(), r) by {
                        assert(room_ok(g.members_map(), g.holders_map(), r));
                    }
                }
                Ok((t, members))
            }
        }
    }

    /// Tombstone broker state for a room whose durable record is already gone.
    pub fn destroy_room(&mut self, room_id: &str, now: u64) -> (r: Vec<String>)
        requires
            old(self).wf(),
        ensures
            final(self).wf(),
            strs(r@) == old(self).members(room_id@),
            final(self).members(room_id@).len() == 0,
            final(self).holder(room_id@) is None,
            (forall|k: Seq<char>| #[trigger] old(self).tombstones().contains_key(k) ==> old(self).tombstones()[k] < now)
                ==> final(self).tombstones().contains_key(room_id@),
            fresh_keys(old(self).tombstones(), now, ROOM_TOMBSTONE_TTL_MS).len() < MAX_ROOM_TOMBSTONES
                ==> final(self).tombstones().contains_key(room_id@),
            forall|room: Seq<char>| room != room_id@ ==> #[trigger] final(self).members(room) == old(self).members(room)
                && final(self).holder(room) == old(self).holder(room),
    {
        let deleted: Result<(), ()> = Ok(());
        match self.destroy_room_with(room_id, deleted, now) {
            Ok((_, members)) => members,
            Err(_) => Vec::new(),
        }
    }

    /// Whether `room_id` is tombstoned at `now`.
    pub fn is_room_destroyed(&mut self, room_id: &str, now: u64) -> (r: bool)
        requires
            old(self).wf(),
        ensures
            final(self).wf(),
            pruned(old(self).tombstones(), final(self).tombstones(), now, ROOM_TOMBSTONE_TTL_MS, MAX_ROOM_TOMBSTONES as nat),
            forall|room: Seq<char>| #[trigger] final(self).members(room) == old(self).members(room)
                && final(self).holder(room) == old(self).holder(room),
            r == final(self).tombstones().contains_key(room_id@),
            old(self).tombstones().contains_key(room_id@)
                && is_fresh(now, old(self).tombstones()[room_id@], ROOM_TOMBSTONE_TTL_MS) ==> r,
    {
        self.prune_tombstones(now);
        self.room_lifecycle.contains(room_id)
    }

    /// Number of live tombstones at `now`.
    pub fn tombstone_count(&mut self, now: u64) -> (n: usize)
        requires
            old(self).wf(),
        ensures
            final(self).wf(),
            n == final(self).tombstones().dom().len(),
            n <= MAX_ROOM_TOMBSTONES,
            forall|room: Seq<char>| #[trigger] final(self).members(room) == old(self).members(room)
                && final(self).holder(room) == old(self).holder(room),
    {
        self.prune_tombstones(now);
        self.room_lifecycle.len()
    }

    /// Members of `room_id` other than `sender_id`, in join order: the
    /// recipients of a room broadcast.
    pub fn broadcast_recipients(&self, room_id: &str, sender_id: &str) -> (r: Vec<String>)
        requires
            self.wf(),
        ensures
            strs(r@) == without(self.members(room_id@), sender_id@),
    {
        match self.room_members.get(room_id) {
            Some(members) => remove_all(members, sender_id),
            None => {
                let r: Vec<String> = Vec::new();
                proof {
                    reveal(Seq::filter);
                    assert(without(self.members(room_id@), sender_id@) =~= Seq::<Seq<char>>::empty());
                    assert(strs(r@) =~= Seq::<Seq<char>>::empty());
                }
                r
            }
        }
    }

    /// The mentioned agents that are members of the room, in mention order.
    /// Outsiders never receive a mention of room content.
    pub fn mention_recipients(&self, mentions: &Vec<String>, room_id: &str) -> (r: Vec<String>)
        requires
            self.wf(),
        ensures
            strs(r@) == strs(mentions@).filter(member_of(self.members(room_id@))),
    {
        let ghost p = member_of(self.members(room_id@));
        let mut out: Vec<String> = Vec::new();
        let mut i: usize = 0;
        while i < mentions.len()
            invariant
                self.wf(),
                p == member_of(self.members(room_id@)),
                i <= mentions.len(),
                strs(out@) == strs(mentions@).subrange(0, i as int).filter(p),
            decreases mentions.len() - i,
        {
            proof {
                assert(strs(mentions@).subrange(0, i + 1) =~= strs(mentions@).subrange(0, i as int).push(strs(mentions@)[i as int]));
                strs(mentions@).subrange(0, i as int).lemma_filter_push(strs(mentions@)[i as int], p);
            }
            if self.is_agent_in_room(mentions[i].as_str(), room_id) {
                let ghost prev = out@;
                out.push(mentions[i].clone());
                proof { assert(strs(out@) =~= strs(prev).push(strs(mentions@)[i as int])); }
            }
            i = i + 1;
        }
        proof { assert(strs(mentions@).subrange(0, mentions@.len() as int) =~= strs(mentions@)); }
        out
    }

    /// Remove `agent_id` from every room it is in, one outcome per room.
    pub fn leave_all_rooms(&mut self, agent_id: &str, now: u64) -> (r: Vec<(String, LeaveOutcome)>)
        requires
            old(self).wf(),
        ensures
            final(self).wf(),
            forall|room: Seq<char>| !#[trigger] final(self).members(room).contains(agent_id@),
            forall|room: Seq<char>| #[trigger] final(self).members(room) == without(old(self).members(room), agent_id@),
            forall|i: int| 0 <= i < r@.len() ==> old(self).members(#[trigger] r@[i].0@).contains(agent_id@),
            forall|room: Seq<char>| old(self).members(room).contains(agent_id@) ==>
                exists|i: int| 0 <= i < r@.len() && #[trigger] r@[i].0@ == room,
    {
        let rooms = self.rooms_for_agent(agent_id);
        let ghost start = *self;
        let mut out: Vec<(String, LeaveOutcome)> = Vec::new();
        let mut i: usize = 0;
        while i < rooms.len()
            invariant
                self.wf(),
                i <= rooms.len(),
                forall|room: Seq<char>| #[trigger] strs(rooms@).contains(room) <==> start.members(room).contains(agent_id@),
                strs(rooms@).no_duplicates(),
                out@.len() == i,
                forall|j: int| 0 <= j < i ==> #[trigger] out@[j].0@ == strs(rooms@)[j],
                forall|room: Seq<char>| #[trigger] self.members(room) == (if strs(rooms@).subrange(0, i as int).contains(room) {
                    without(start.members(room), agent_id@)
                } else {
                    start.members(room)
                }),
            decreases rooms.len() - i,
        {
            let ghost before = *self;
            let outcome = self.leave_room(agent_id, rooms[i].as_str(), now);
            out.push((rooms[i].clone(), outcome));
            proof {
                let pre = strs(rooms@).subrange(0, i as int);
                let post = strs(rooms@).subrange(0, i + 1);
                let ri = strs(rooms@)[i as int];
                assert(post =~= pre.push(ri));
                assert forall|room: Seq<char>| #[trigger] self.members(room) == (if post.contains(room) {
                    without(start.members(room), agent_id@)
                } else {
                    start.members(room)
                }) by {
                    if room == ri {
                        assert(post[i as int] == room);
                        if pre.contains(room) {
                            let j = choose|j: int| 0 <= j < pre.len() && #[trigger] pre[j] == room;
                            assert(strs(rooms@)[j] == strs(rooms@)[i as int]);
                        }
                        lemma_without_twice(start.members(room), agent_id@);
                    } else {
                        if post.contains(room) {
                            let j = choose|j: int| 0 <= j < post.len() && #[trigger] post[j] == room;
                            assert(pre[j] == room);
                        }
                        if pre.contains(room) {
                            let j = choose|j: int| 0 <= j < pre.len() && #[trigger] pre[j] == room;
                            assert(post[j] == room);
                        }
                    }
                }
            }
            i = i + 1;
        }
        proof {
            assert forall|room: Seq<char>| #[trigger] self.members(room) == without(start.members(room), agent_id@) by {
                assert(strs(rooms@).subrange(0, rooms@.len() as int) =~= strs(rooms@));
                if !strs(rooms@).contains(room) {
                    assert(!start.members(room).contains(agent_id@));
                    lemma_without_absent(start.members(room), agent_id@);
                }
            }
            assert forall|room: Seq<char>| !#[trigger] self.members(room).contains(agent_id@) by {
                lemma_without_membership(start.members(room), agent_id@);
            }
            assert forall|room: Seq<char>| start.members(room).contains(agent_id@) implies
                exists|i: int| 0 <= i < out@.len() && #[trigger] out@[i].0@ == room by {
                assert(strs(rooms@).contains(room));
                let j = choose|j: int| 0 <= j < strs(rooms@).len() && strs(rooms@)[j] == room;
                assert(out@[j].0@ == room);
            }
            assert forall|j: int| 0 <= j < out@.len() implies start.members(#[trigger] out@[j].0@).contains(agent_id@) by {
                assert(strs(rooms@).contains(strs(rooms@)[j]));
            }
        }
        out
    }
}

/// The predicate "is one of `ms`".
pub open spec fn member_of(ms: Seq<Seq<char>>) -> spec_fn(Seq<char>) -> bool {
    |x: Seq<char>| ms.contains(x)
}

pub proof fn lemma_without_absent(s: Seq<Seq<char>>, k: Seq<char>)
    requires
        !s.contains(k),
    ensures
        without(s, k) == s,
{
    assert forall|a: int| 0 <= a < s.len() implies #[trigger] s[a] != k by {
        if s[a] == k { assert(s.contains(k)); }
    }
    crate::strmap::lemma_filter_all_keep(s, k);
}

pub proof fn lemma_without_twice(s: Seq<Seq<char>>, k: Seq<char>)
    ensures
        without(without(s, k), k) == without(s, k),
{
    lemma_without_membership(s, k);
    lemma_without_absent(without(s, k), k);
}

/// Whose turn follows `sender` in a room with members `ms` (non-empty).
pub open spec fn next_turn(ms: Seq<Seq<char>>, sender: Seq<char>) -> Seq<char> {
    if ms.contains(sender) {
        ms[(ms.index_of(sender) + 1) % (ms.len() as int)]
    } else {
        ms[0]
    }
}

/// The turn passes in join order: after the member at position `i` comes the
/// member at position `i + 1`, and after the last member the first again, so
/// every member gets the turn in a full round. A sender who is not a member
/// hands the turn to the first member.
pub proof fn lemma_turn_passes_in_join_order(ms: Seq<Seq<char>>, i: int)
    requires
        ms.no_duplicates(),
        0 <= i < ms.len(),
    ensures
        i + 1 < ms.len() ==> next_turn(ms, ms[i]) == ms[i + 1],
        i + 1 == ms.len() ==> next_turn(ms, ms[i]) == ms[0],
        forall|x: Seq<char>| !ms.contains(x) ==> next_turn(ms, x) == ms[0],
{
    assert(ms.contains(ms[i]));
    let j = ms.index_of(ms[i]);
    assert(0 <= j < ms.len() && ms[j] == ms[i]);
    assert(j == i);
    let n = ms.len() as int;
    if i + 1 < ms.len() {
        assert((i + 1) % n == i + 1) by (nonlinear_arith)
            requires
                0 <= i + 1 < n;
    } else {
        assert((i + 1) % n == 0) by (nonlinear_arith)
            requires
                i + 1 == n,
                n > 0;
    }
}

pub proof fn lemma_without_membership(s: Seq<Seq<char>>, k: Seq<char>)
    ensures
        forall|x: Seq<char>| #[trigger] without(s, k).contains(x) <==> s.contains(x) && x != k,
{
    let p = crate::strmap::not_key(k);
    assert forall|x: Seq<char>| #[trigger] without(s, k).contains(x) <==> s.contains(x) && x != k by {
        if s.contains(x) && x != k {
            let i = choose|i: int| 0 <= i < s.len() && s[i] == x;
            s.lemma_filter_contains(p, i);
        }
        if without(s, k).contains(x) {
            s.lemma_filter_contains_rev(p, x);
            let i = choose|i: int| 0 <= i < s.filter(p).len() && s.filter(p)[i] == x;
            s.lemma_filter_pred(p, i);
        }
    }
}

pub proof fn lemma_without_keeps_distinct(s: Seq<Seq<char>>, k: Seq<char>)
    requires
        s.no_duplicates(),
    ensures
        without(s, k).no_duplicates(),
    decreases s.len(),
{
    let p = crate::strmap::not_key(k);
    if s.len() == 0 {
        reveal(Seq::filter);
        assert(without(s, k) =~= Seq::<Seq<char>>::empty());
    } else {
        let init = s.drop_last();
        assert(init.no_duplicates()) by {
            assert forall|a: int, b: int| 0 <= a < init.len() && 0 <= b < init.len() && a != b implies init[a] != init[b] by {
                assert(s[a] != s[b]);
            }
        }
        lemma_without_keeps_distinct(init, k);
        assert(s =~= init.push(s.last()));
        init.lemma_filter_push(s.last(), p);
        if p(s.last()) {
            lemma_without_membership(init, k);
            assert(!init.contains(s.last())) by {
                if init.contains(s.last()) {
                    let i = choose|i: int| 0 <= i < init.len() && init[i] == s.last();
                    assert(s[i] == s[s.len() - 1]);
                }
            }
            let w = without(init, k);
            assert(!w.contains(s.last()));
            assert forall|a: int, b: int| 0 <= a < w.push(s.last()).len() && 0 <= b < w.push(s.last()).len() && a != b
                implies w.push(s.last())[a] != w.push(s.last())[b] by {
                if a == w.len() {
                    assert(w.push(s.last())[b] == w[b]);
                    assert(w.contains(w[b]));
                } else if b == w.len() {
                    assert(w.push(s.last())[a] == w[a]);
                    assert(w.contains(w[a]));
                } else {
                    assert(w.push(s.last())[a] == w[a]);
                    assert(w.push(s.last())[b] == w[b]);
                }
            }
        }
    }
}

} // verus!
