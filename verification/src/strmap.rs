use vstd::prelude::*;

verus! {

/// A finite map keyed by strings, kept as a vector of distinct keys in
/// insertion order.
pub struct StrMap<V> {
    entries: Vec<(String, V)>,
}

impl<V> StrMap<V> {
    pub closed spec fn entries(&self) -> Seq<(String, V)> {
        self.entries@
    }

    /// Every key occurs once.
    pub closed spec fn wf(&self) -> bool {
        forall|i: int, j: int|
            0 <= i < j < self.entries@.len() ==> #[trigger] self.entries@[i].0@ != #[trigger] self.entries@[j].0@
    }

    pub closed spec fn has(&self, k: Seq<char>) -> bool {
        exists|i: int| 0 <= i < self.entries@.len() && #[trigger] self.entries@[i].0@ == k
    }

    pub closed spec fn index_of(&self, k: Seq<char>) -> int {
        choose|i: int| 0 <= i < self.entries@.len() && #[trigger] self.entries@[i].0@ == k
    }

    pub closed spec fn view(&self) -> Map<Seq<char>, V> {
        Map::new(|k: Seq<char>| self.has(k), |k: Seq<char>| self.entries@[self.index_of(k)].1)
    }

    /// The keys, in the order in which they were first inserted.
    pub closed spec fn key_seq(&self) -> Seq<Seq<char>> {
        self.entries@.map_values(|e: (String, V)| e.0@)
    }

    proof fn lemma_index(&self, i: int)
        requires
            self.wf(),
            0 <= i < self.entries@.len(),
        ensures
            self.view().contains_key(self.entries@[i].0@),
            self.view()[self.entries@[i].0@] == self.entries@[i].1,
            self.index_of(self.entries@[i].0@) == i,
    {
        let k = self.entries@[i].0@;
        assert(self.has(k));
        let j = self.index_of(k);
        if j != i {
            if j < i {
                assert(self.entries@[j].0@ != self.entries@[i].0@);
            } else {
                assert(self.entries@[i].0@ != self.entries@[j].0@);
            }
        }
    }

    pub proof fn lemma_view_finite(&self)
        requires self.wf(),
        ensures
            self.view().dom().finite(),
            self.view().dom() =~= self.key_seq().to_set(),
            self.view().dom().len() == self.key_seq().len(),
    {
        assert forall|k: Seq<char>| self.view().dom().contains(k) <==> self.key_seq().to_set().contains(k) by {
            if self.view().dom().contains(k) {
                let i = self.index_of(k);
                assert(self.key_seq()[i] == k);
            }
            if self.key_seq().to_set().contains(k) {
                let i = choose|i: int| 0 <= i < self.key_seq().len() && self.key_seq()[i] == k;
                assert(self.entries@[i].0@ == k);
            }
        }
        assert(self.key_seq().no_duplicates()) by {
            assert forall|i: int, j: int| 0 <= i < self.key_seq().len() && 0 <= j < self.key_seq().len() && i != j
                implies self.key_seq()[i] != self.key_seq()[j] by {
                if i < j {
                    assert(self.entries@[i].0@ != self.entries@[j].0@);
                } else {
                    assert(self.entries@[j].0@ != self.entries@[i].0@);
                }
            }
        }
        assert(self.view().dom() =~= self.key_seq().to_set());
        self.key_seq().unique_seq_to_set();
        vstd::seq_lib::seq_to_set_is_finite(self.key_seq());
    }

    pub proof fn lemma_keys_distinct(&self, i: int, j: int)
        requires
            self.wf(),
            0 <= i < self.key_seq().len(),
            0 <= j < self.key_seq().len(),
            i != j,
        ensures
            self.key_seq()[i] != self.key_seq()[j],
    {
        if i < j {
            assert(self.entries@[i].0@ != self.entries@[j].0@);
        } else {
            assert(self.entries@[j].0@ != self.entries@[i].0@);
        }
    }

    pub proof fn lemma_key_in_view(&self, i: int)
        requires
            self.wf(),
            0 <= i < self.key_seq().len(),
        ensures
            self.view().contains_key(self.key_seq()[i]),
    {
        self.lemma_index(i);
    }

    pub fn new() -> (r: Self)
        ensures
            r.wf(),
            r@ == Map::<Seq<char>, V>::empty(),
            r.key_seq() == Seq::<Seq<char>>::empty(),
    {
        let r = StrMap { entries: Vec::new() };
        assert(r@ =~= Map::<Seq<char>, V>::empty());
        assert(r.key_seq() =~= Seq::<Seq<char>>::empty());
        r
    }

    pub fn len(&self) -> (n: usize)
        ensures
            n == self.key_seq().len(),
    {
        self.entries.len()
    }

    /// Position of `k` among the entries, if present.
    pub fn find(&self, k: &str) -> (r: Option<usize>)
        requires
            self.wf(),
        ensures
            match r {
                Some(i) => i < self.key_seq().len() && self.key_seq()[i as int] == k@ && self.view().contains_key(k@)
                    && self.index_of(k@) == i,
                None => !self.view().contains_key(k@),
            },
    {
        let key = crate::text::owned(k);
        let mut i: usize = 0;
        while i < self.entries.len()
            invariant
                self.wf(),
                key@ == k@,
                i <= self.entries@.len(),
                forall|j: int| 0 <= j < i ==> #[trigger] self.entries@[j].0@ != k@,
            decreases self.entries@.len() - i,
        {
            proof {
                broadcast use vstd::string::group_string_axioms;
            }
            if self.entries[i].0 == key {
                proof { self.lemma_index(i as int); }
                return Some(i);
            }
            i = i + 1;
        }
        proof {
            if self.view().contains_key(k@) {
                let j = self.index_of(k@);
                assert(self.entries@[j].0@ == k@);
            }
        }
        None
    }

    pub fn contains_key(&self, k: &str) -> (r: bool)
        requires
            self.wf(),
        ensures
            r == self.view().contains_key(k@),
    {
        self.find(k).is_some()
    }

    pub fn get(&self, k: &str) -> (r: Option<&V>)
        requires
            self.wf(),
        ensures
            match r {
                Some(v) => self.view().contains_key(k@) && *v == self.view()[k@],
                None => !self.view().contains_key(k@),
            },
    {
        match self.find(k) {
            Some(i) => {
                proof { self.lemma_index(i as int); }
                Some(&self.entries[i].1)
            }
            None => None,
        }
    }

    /// The key stored at a position (for ordered scans).
    pub fn key_at(&self, i: usize) -> (r: &String)
        requires
            i < self.key_seq().len(),
        ensures
            r@ == self.key_seq()[i as int],
    {
        &self.entries[i].0
    }

    /// The value stored at a position (for ordered scans).
    pub fn value_at(&self, i: usize) -> (r: &V)
        requires
            self.wf(),
            i < self.key_seq().len(),
        ensures
            self.view().contains_key(self.key_seq()[i as int]),
            *r == self.view()[self.key_seq()[i as int]],
    {
        proof { self.lemma_index(i as int); }
        &self.entries[i].1
    }

    pub fn insert(&mut self, k: String, v: V)
        requires
            old(self).wf(),
        ensures
            final(self).wf(),
            final(self)@ == old(self)@.insert(k@, v),
            old(self)@.contains_key(k@) ==> final(self).key_seq() == old(self).key_seq(),
            !old(self)@.contains_key(k@) ==> final(self).key_seq() == old(self).key_seq().push(k@),
    {
        let ghost old_self = *self;
        match self.find(k.as_str()) {
            Some(i) => {
                let ghost kv = k@;
                self.entries.set(i, (k, v));
                proof {
                    assert forall|a: int, b: int| 0 <= a < b < self.entries@.len()
                        implies #[trigger] self.entries@[a].0@ != #[trigger] self.entries@[b].0@ by {
                        assert(old_self.entries@[a].0@ != old_self.entries@[b].0@);
                    }
                    assert forall|q: Seq<char>| self.has(q) <==> old_self.has(q) by {
                        if self.has(q) {
                            let j = choose|j: int| 0 <= j < self.entries@.len() && #[trigger] self.entries@[j].0@ == q;
                            assert(old_self.entries@[j].0@ == q);
                        }
                        if old_self.has(q) {
                            let j = choose|j: int| 0 <= j < old_self.entries@.len() && #[trigger] old_self.entries@[j].0@ == q;
                            assert(self.entries@[j].0@ == q);
                        }
                    }
                    assert forall|q: Seq<char>| #[trigger] self@.contains_key(q) implies self@[q] == old_self@.insert(kv, self.entries@[i as int].1)[q] by {
                        let j = self.index_of(q);
                        self.lemma_index(j);
                        if q != kv {
                            old_self.lemma_index(j);
                        }
                    }
                    assert(self@ =~= old_self@.insert(kv, self.entries@[i as int].1));
                    assert(self.key_seq() =~= old_self.key_seq());
                }
            }
            None => {
                self.push_new(k, v);
            }
        }
    }

    /// Add a key that is not present yet, after all the others.
    pub fn push_new(&mut self, k: String, v: V)
        requires
            old(self).wf(),
            !old(self)@.contains_key(k@),
        ensures
            final(self).wf(),
            final(self)@ == old(self)@.insert(k@, v),
            final(self).key_seq() == old(self).key_seq().push(k@),
    {
        let ghost old_self = *self;
        let ghost kv = k@;
        self.entries.push((k, v));
        proof {
            let n = old_self.entries@.len() as int;
            assert forall|a: int, b: int| 0 <= a < b < self.entries@.len()
                implies #[trigger] self.entries@[a].0@ != #[trigger] self.entries@[b].0@ by {
                if b < n {
                    assert(old_self.entries@[a].0@ != old_self.entries@[b].0@);
                } else {
                    assert(old_self.entries@[a] == self.entries@[a]);
                    if self.entries@[a].0@ == kv {
                        assert(old_self.has(kv));
                    }
                }
            }
            assert forall|q: Seq<char>| self.has(q) <==> (old_self.has(q) || q == kv) by {
                if self.has(q) {
                    let j = choose|j: int| 0 <= j < self.entries@.len() && #[trigger] self.entries@[j].0@ == q;
                    if j < n {
                        assert(old_self.entries@[j].0@ == q);
                    }
                }
                if old_self.has(q) {
                    let j = choose|j: int| 0 <= j < old_self.entries@.len() && #[trigger] old_self.entries@[j].0@ == q;
                    assert(self.entries@[j].0@ == q);
                }
                if q == kv {
                    assert(self.entries@[n].0@ == q);
                }
            }
            assert forall|q: Seq<char>| #[trigger] self@.contains_key(q) implies self@[q] == old_self@.insert(kv, v)[q] by {
                let j = self.index_of(q);
                self.lemma_index(j);
                if q != kv {
                    old_self.lemma_index(j);
                } else {
                    self.lemma_index(n);
                }
            }
            assert(self@ =~= old_self@.insert(kv, v));
            assert(self.key_seq() =~= old_self.key_seq().push(kv));
        }
    }

    /// Take out the most recently added key and its value.
    pub fn pop_last(&mut self) -> (r: Option<(String, V)>)
        requires
            old(self).wf(),
        ensures
            final(self).wf(),
            old(self).key_seq().len() == 0 ==> r is None && final(self)@ == old(self)@,
            old(self).key_seq().len() > 0 ==> (r matches Some(e) && e.0@ == old(self).key_seq().last()
                && old(self)@.contains_key(e.0@) && old(self)@[e.0@] == e.1
                && final(self)@ == old(self)@.remove(e.0@)
                && final(self).key_seq() == old(self).key_seq().drop_last()),
    {
        let ghost old_self = *self;
        let r = self.entries.pop();
        proof {
            let n = old_self.entries@.len() as int;
            if n > 0 {
                let e = old_self.entries@[n - 1];
                old_self.lemma_index(n - 1);
                assert forall|a: int, b: int| 0 <= a < b < self.entries@.len()
                    implies #[trigger] self.entries@[a].0@ != #[trigger] self.entries@[b].0@ by {
                    assert(old_self.entries@[a].0@ != old_self.entries@[b].0@);
                }
                assert forall|q: Seq<char>| self.has(q) <==> (old_self.has(q) && q != e.0@) by {
                    if self.has(q) {
                        let j = choose|j: int| 0 <= j < self.entries@.len() && #[trigger] self.entries@[j].0@ == q;
                        assert(old_self.entries@[j].0@ == q);
                        assert(old_self.entries@[j].0@ != old_self.entries@[n - 1].0@);
                    }
                    if old_self.has(q) && q != e.0@ {
                        let j = choose|j: int| 0 <= j < old_self.entries@.len() && #[trigger] old_self.entries@[j].0@ == q;
                        assert(j != n - 1);
                        assert(self.entries@[j].0@ == q);
                    }
                }
                assert forall|q: Seq<char>| #[trigger] self@.contains_key(q) implies self@[q] == old_self@[q] by {
                    let j = self.index_of(q);
                    self.lemma_index(j);
                    old_self.lemma_index(j);
                }
                assert(self@ =~= old_self@.remove(e.0@));
                assert(self.key_seq() =~= old_self.key_seq().drop_last());
            } else {
                assert(self@ =~= old_self@);
            }
        }
        r
    }

    /// Remove `k`, keeping the order of the other keys; returns its value.
    pub fn remove(&mut self, k: &str) -> (r: Option<V>)
        requires
            old(self).wf(),
        ensures
            final(self).wf(),
            final(self)@ == old(self)@.remove(k@),
            match r {
                Some(v) => old(self)@.contains_key(k@) && v == old(self)@[k@],
                None => !old(self)@.contains_key(k@),
            },
            final(self).key_seq() == without(old(self).key_seq(), k@),
    {
        let ghost old_self = *self;
        match self.find(k) {
            Some(i) => {
                proof { old_self.lemma_index(i as int); }
                let (_, v) = self.entries.remove(i);
                proof {
                    let n = old_self.entries@.len() as int;
                    let ii = i as int;
                    assert forall|j: int| 0 <= j < self.entries@.len() implies
                        #[trigger] self.entries@[j] == old_self.entries@[if j < ii { j } else { j + 1 }] by {}
                    assert forall|a: int, b: int| 0 <= a < b < self.entries@.len()
                        implies #[trigger] self.entries@[a].0@ != #[trigger] self.entries@[b].0@ by {
                        let a2 = if a < ii { a } else { a + 1 };
                        let b2 = if b < ii { b } else { b + 1 };
                        assert(self.entries@[a] == old_self.entries@[a2]);
                        assert(self.entries@[b] == old_self.entries@[b2]);
                        assert(old_self.entries@[a2].0@ != old_self.entries@[b2].0@);
                    }
                    assert forall|q: Seq<char>| self.has(q) <==> (old_self.has(q) && q != k@) by {
                        if self.has(q) {
                            let j = choose|j: int| 0 <= j < self.entries@.len() && #[trigger] self.entries@[j].0@ == q;
                            let j2 = if j < ii { j } else { j + 1 };
                            assert(self.entries@[j] == old_self.entries@[j2]);
                            assert(old_self.entries@[j2].0@ == q);
                            if q == k@ {
                                if j2 < ii {
                                    assert(old_self.entries@[j2].0@ != old_self.entries@[i as int].0@);
                                } else {
                                    assert(old_self.entries@[i as int].0@ != old_self.entries@[j2].0@);
                                }
                            }
                        }
                        if old_self.has(q) && q != k@ {
                            let j = choose|j: int| 0 <= j < old_self.entries@.len() && #[trigger] old_self.entries@[j].0@ == q;
                            assert(j != ii);
                            let j2 = if j < ii { j } else { j - 1 };
                            assert(self.entries@[j2] == old_self.entries@[j]);
                            assert(self.entries@[j2].0@ == q);
                        }
                    }
                    assert forall|q: Seq<char>| #[trigger] self@.contains_key(q) implies self@[q] == old_self@[q] by {
                        let j = self.index_of(q);
                        self.lemma_index(j);
                        let j2 = if j < ii { j } else { j + 1 };
                        assert(self.entries@[j] == old_self.entries@[j2]);
                        old_self.lemma_index(j2);
                    }
                    assert(self@ =~= old_self@.remove(k@));
                    let ks = old_self.key_seq();
                    let pred = not_key(k@);
                    assert(ks == ks.subrange(0, i as int) + ks.subrange(i as int, n as int));
                    assert(ks.subrange(i as int, n as int) == seq![ks[i as int]] + ks.subrange(i + 1, n as int));
                    Seq::filter_distributes_over_add(ks.subrange(0, i as int), ks.subrange(i as int, n as int), pred);
                    Seq::filter_distributes_over_add(seq![ks[i as int]], ks.subrange(i + 1, n as int), pred);
                    assert(seq![ks[i as int]].filter(pred) =~= Seq::<Seq<char>>::empty()) by {
                        reveal_with_fuel(Seq::filter, 2);
                    }
                    assert forall|a: int| 0 <= a < ii implies #[trigger] ks.subrange(0, i as int)[a] != k@ by {
                        assert(old_self.entries@[a].0@ != old_self.entries@[i as int].0@);
                    }
                    assert forall|a: int| 0 <= a < n - i - 1 implies #[trigger] ks.subrange(i + 1, n as int)[a] != k@ by {
                        assert(old_self.entries@[i as int].0@ != old_self.entries@[i + 1 + a].0@);
                    }
                    lemma_filter_all_keep(ks.subrange(0, i as int), k@);
                    lemma_filter_all_keep(ks.subrange(i + 1, n as int), k@);
                    let rest = ks.subrange(0, i as int) + ks.subrange(i + 1, n as int);
                    assert(self.key_seq().len() == rest.len());
                    assert forall|j: int| 0 <= j < rest.len() implies #[trigger] self.key_seq()[j] == rest[j] by {
                        let j2 = if j < ii { j } else { j + 1 };
                        assert(self.entries@[j] == old_self.entries@[j2]);
                        assert(ks[j2] == old_self.entries@[j2].0@);
                    }
                    assert(self.key_seq() =~= rest);
                }
                Some(v)
            }
            None => {
                proof {
                    assert(self@ =~= old_self@.remove(k@));
                    assert forall|a: int| 0 <= a < old_self.key_seq().len() implies #[trigger] old_self.key_seq()[a] != k@ by {
                        if old_self.key_seq()[a] == k@ {
                            assert(old_self.entries@[a].0@ == k@);
                            assert(old_self.has(k@));
                        }
                    }
                    lemma_filter_all_keep(old_self.key_seq(), k@);
                }
                None
            }
        }
    }
}

/// `s` with every occurrence of `k` dropped.
pub open spec fn without(s: Seq<Seq<char>>, k: Seq<char>) -> Seq<Seq<char>> {
    s.filter(not_key(k))
}

pub open spec fn not_key(k: Seq<char>) -> spec_fn(Seq<char>) -> bool {
    |q: Seq<char>| q != k
}

pub proof fn lemma_filter_all_keep(s: Seq<Seq<char>>, k: Seq<char>)
    requires
        forall|a: int| 0 <= a < s.len() ==> #[trigger] s[a] != k,
    ensures
        without(s, k) == s,
    decreases s.len(),
{
    let pred = not_key(k);
    if s.len() == 0 {
        reveal(Seq::filter);
        assert(s.filter(pred) =~= s);
    } else {
        lemma_filter_all_keep(s.drop_last(), k);
        assert(s.drop_last().filter(pred) == s.drop_last());
        assert(s =~= s.drop_last().push(s.last()));
        s.drop_last().lemma_filter_push(s.last(), pred);
    }
}

} // verus!
