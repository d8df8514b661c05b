use vstd::prelude::*;

use crate::strmap::StrMap;
use crate::text::{strs, owned, contains_str, remove_all, clone_strings};

verus! {

pub open spec fn holds(m: Map<Seq<char>, Vec<String>>, key: Seq<char>, room: Seq<char>) -> bool {
    m.contains_key(key) && strs(m[key]@).contains(room)
}

/// In-memory mirror of invite-issued room grants: API key -> granted rooms.
pub struct GrantCache {
    grants: StrMap<Vec<String>>,
}

impl GrantCache {
    pub closed spec fn map(&self) -> Map<Seq<char>, Vec<String>> {
        self.grants@
    }

    /// Whether `key` holds a grant for `room` (empty keys included).
    pub open spec fn has(&self, key: Seq<char>, room: Seq<char>) -> bool {
        holds(self.map(), key, room)
    }

    pub closed spec fn key_order(&self) -> Seq<Seq<char>> {
        self.grants.key_seq()
    }

    /// Each key lists each room once and is kept only while it has a room.
    pub closed spec fn wf(&self) -> bool {
        &&& self.grants.wf()
        &&& forall|k: Seq<char>| #[trigger] self.map().contains_key(k) ==>
                strs(self.map()[k]@).no_duplicates() && self.map()[k]@.len() > 0
    }

    pub fn new() -> (r: Self)
        ensures
            r.wf(),
            forall|k: Seq<char>, room: Seq<char>| !#[trigger] r.has(k, room),
    {
        GrantCache { grants: StrMap::new() }
    }

    /// Record that `api_key` may access `room_id`.
    pub fn add(&mut self, api_key: &str, room_id: &str)
        requires
            old(self).wf(),
        ensures
            final(self).wf(),
            forall|k: Seq<char>, room: Seq<char>| #[trigger] final(self).has(k, room) <==>
                old(self).has(k, room) || (k == api_key@ && room == room_id@),
    {
        let ghost g = *self;
        proof {
            if g.map().contains_key(api_key@) {
                assert(strs(g.map()[api_key@]@).no_duplicates());
            }
        }
        let list = match self.grants.get(api_key) {
            Some(rooms) => {
                let mut l = clone_strings(rooms);
                if !contains_str(rooms, room_id) {
                    let ghost o = strs(l@);
                    l.push(owned(room_id));
                    proof {
                        assert(strs(l@) =~= o.push(room_id@));
                        assert forall|a: int, b: int| 0 <= a < strs(l@).len() && 0 <= b < strs(l@).len() && a != b
                            implies strs(l@)[a] != strs(l@)[b] by {
                            if a < o.len() && b < o.len() {
                                assert(strs(l@)[a] == o[a]);
                                assert(strs(l@)[b] == o[b]);
                            } else if a == o.len() {
                                assert(strs(l@)[b] == o[b]);
                                assert(o.contains(o[b]));
                            } else {
                                assert(strs(l@)[a] == o[a]);
                                assert(o.contains(o[a]));
                            }
                        }
                    }
                }
                l
            }
            None => {
                let mut l: Vec<String> = Vec::new();
                l.push(owned(room_id));
                proof { assert(strs(l@) =~= seq![room_id@]); }
                l
            }
        };
        self.grants.insert(owned(api_key), list);
        proof {
            assert forall|k: Seq<char>| #[trigger] self.map().contains_key(k) implies
                strs(self.map()[k]@).no_duplicates() && self.map()[k]@.len() > 0 by {
                if k != api_key@ {
                    assert(g.map().contains_key(k));
                }
            }
            assert forall|k: Seq<char>, room: Seq<char>| #[trigger] self.has(k, room) <==>
                g.has(k, room) || (k == api_key@ && room == room_id@) by {
                if k == api_key@ && g.map().contains_key(k) {
                    let o = strs(g.map()[k]@);
                    if strs(self.map()[k]@).contains(room) && !o.contains(room) {
                        let i = choose|i: int| 0 <= i < strs(self.map()[k]@).len() && strs(self.map()[k]@)[i] == room;
                        if i < o.len() { assert(o[i] == room); }
                    }
                    if o.contains(room) {
                        let i = choose|i: int| 0 <= i < o.len() && o[i] == room;
                        assert(strs(self.map()[k]@)[i] == room);
                    }
                    if room == room_id@ && !o.contains(room) {
                        assert(strs(self.map()[k]@)[o.len() as int] == room);
                    }
                }
                if k == api_key@ && !g.map().contains_key(k) && room == room_id@ {
                    assert(strs(self.map()[k]@)[0] == room);
                }
            }
        }
    }

    /// Grant check; an empty key never holds a grant.
    pub fn key_has_grant(&self, api_key: &str, room_id: &str) -> (r: bool)
        requires
            self.wf(),
        ensures
            r == (api_key@.len() > 0 && self.has(api_key@, room_id@)),
    {
        if api_key.is_empty() {
            return false;
        }
        match self.grants.get(api_key) {
            Some(rooms) => contains_str(rooms, room_id),
            None => false,
        }
    }

    /// Every key holding a grant for `room_id`.
    pub fn granted_keys_for_room(&self, room_id: &str) -> (r: Vec<String>)
        requires
            self.wf(),
        ensures
            forall|k: Seq<char>| #[trigger] strs(r@).contains(k) <==> self.has(k, room_id@),
    {
        let mut out: Vec<String> = Vec::new();
        let n = self.grants.len();
        let mut i: usize = 0;
        while i < n
            invariant
                self.wf(),
                n == self.key_order().len(),
                i <= n,
                forall|k: Seq<char>| #[trigger] strs(out@).contains(k) <==>
                    (exists|j: int| 0 <= j < i && self.key_order()[j] == k) && self.has(k, room_id@),
            decreases n - i,
        {
            let ghost prev = out@;
            if contains_str(self.grants.value_at(i), room_id) {
                out.push(self.grants.key_at(i).clone());
            }
            proof {
                assert forall|k: Seq<char>| #[trigger] strs(out@).contains(k) <==>
                    (exists|j: int| 0 <= j < i + 1 && self.key_order()[j] == k) && self.has(k, room_id@) by {
                    if strs(out@).contains(k) {
                        let a = choose|a: int| 0 <= a < strs(out@).len() && strs(out@)[a] == k;
                        if a < prev.len() {
                            assert(strs(prev)[a] == k);
                            assert(strs(prev).contains(k));
                        }
                    }
                    if (exists|j: int| 0 <= j < i + 1 && self.key_order()[j] == k) && self.has(k, room_id@) {
                        let j = choose|j: int| 0 <= j < i + 1 && self.key_order()[j] == k;
                        if j < i {
                            assert(strs(prev).contains(k));
                            let a = choose|a: int| 0 <= a < strs(prev).len() && strs(prev)[a] == k;
                            assert(strs(out@)[a] == k);
                        } else {
                            assert(strs(out@)[out@.len() - 1] == k);
                        }
                    }
                }
            }
            i = i + 1;
        }
        proof {
            assert forall|k: Seq<char>| #[trigger] strs(out@).contains(k) <==> self.has(k, room_id@) by {
                if self.has(k, room_id@) {
                    self.grants.lemma_view_finite();
                    assert(self.key_order().to_set().contains(k));
                }
            }
        }
        out
    }

    /// Drop every grant for a destroyed room; keys left with no room go.
    pub fn purge_room(&mut self, room_id: &str)
        requires
            old(self).wf(),
        ensures
            final(self).wf(),
            forall|k: Seq<char>, room: Seq<char>| #[trigger] final(self).has(k, room) <==>
                old(self).has(k, room) && room != room_id@,
    {
        let ghost g = *self;
        let mut next: StrMap<Vec<String>> = StrMap::new();
        let n = self.grants.len();
        let mut i: usize = 0;
        while i < n
            invariant
                self.wf(),
                *self == g,
                n == self.key_order().len(),
                i <= n,
                next.wf(),
                forall|k: Seq<char>| #[trigger] next@.contains_key(k) ==>
                    strs(next@[k]@).no_duplicates() && next@[k]@.len() > 0
                    && exists|j: int| 0 <= j < i && self.key_order()[j] == k,
                forall|k: Seq<char>, room: Seq<char>| #[trigger] holds(next@, k, room) <==>
                    ((exists|j: int| 0 <= j < i && self.key_order()[j] == k) && holds(g.map(), k, room) && room != room_id@),
            decreases n - i,
        {
            let key = self.grants.key_at(i);
            let rooms = self.grants.value_at(i);
            proof {
                self.grants.lemma_key_in_view(i as int);
                assert(self.map().contains_key(key@));
                crate::broker::lemma_without_membership(strs(rooms@), room_id@);
                crate::broker::lemma_without_keeps_distinct(strs(rooms@), room_id@);
                if next@.contains_key(key@) {
                    let j = choose|j: int| 0 <= j < i && self.key_order()[j] == key@;
                    self.grants.lemma_keys_distinct(j, i as int);
                }
            }
            let rest = remove_all(rooms, room_id);
            let ghost nprev = next@;
            if rest.len() > 0 {
                next.insert(key.clone(), rest);
            }
            proof {
                assert forall|k: Seq<char>| #[trigger] next@.contains_key(k) implies
                    strs(next@[k]@).no_duplicates() && next@[k]@.len() > 0
                    && exists|j: int| 0 <= j < i + 1 && self.key_order()[j] == k by {
                    if k != key@ {
                        let j = choose|j: int| 0 <= j < i && self.key_order()[j] == k;
                        assert(0 <= j < i + 1 && self.key_order()[j] == k);
                    } else {
                        assert(self.key_order()[i as int] == k);
                    }
                }
                assert forall|k: Seq<char>, room: Seq<char>| #[trigger] holds(next@, k, room) <==>
                    ((exists|j: int| 0 <= j < i + 1 && self.key_order()[j] == k) && holds(g.map(), k, room) && room != room_id@) by {
                    if k == key@ {
                        if exists|j: int| 0 <= j < i && self.key_order()[j] == k {
                            let j = choose|j: int| 0 <= j < i && self.key_order()[j] == k;
                            self.grants.lemma_keys_distinct(j, i as int);
                        }
                        assert(!holds(nprev, k, room));
                        if holds(g.map(), k, room) && room != room_id@ {
                            assert(strs(rest@).contains(room));
                        }
                    } else {
                        assert(holds(next@, k, room) == holds(nprev, k, room));
                        if exists|j: int| 0 <= j < i + 1 && self.key_order()[j] == k {
                            let j = choose|j: int| 0 <= j < i + 1 && self.key_order()[j] == k;
                            assert(j != i);
                            assert(0 <= j < i && self.key_order()[j] == k);
                        }
                    }
                }
            }
            i = i + 1;
        }
        proof {
            assert forall|k: Seq<char>, room: Seq<char>| #[trigger] holds(next@, k, room) <==>
                holds(g.map(), k, room) && room != room_id@ by {
                if holds(g.map(), k, room) {
                    self.grants.lemma_view_finite();
                    assert(self.key_order().to_set().contains(k));
                    let j = choose|j: int| 0 <= j < self.key_order().len() && self.key_order()[j] == k;
                    assert(0 <= j < n && self.key_order()[j] == k);
                }
            }
        }
        self.grants = next;
    }
}

} // verus!
