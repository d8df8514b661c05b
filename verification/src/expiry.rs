use vstd::prelude::*;

use crate::strmap::StrMap;

verus! {

/// Time elapsed from `at` until `now`, in milliseconds; an instant that lies
/// in the future counts as no time at all.
pub open spec fn age(now: u64, at: u64) -> int {
    if now >= at { now - at } else { 0 }
}

pub open spec fn is_fresh(now: u64, at: u64, ttl: u64) -> bool {
    age(now, at) < ttl
}

/// `after` is what pruning `before` at `now` may leave: only fresh entries
/// survive, unchanged; at most `cap` survive; a fresh entry is dropped only
/// when the cache is full, and then only if it is no younger than every
/// survivor (oldest entries are evicted first).
pub open spec fn pruned(before: Map<Seq<char>, u64>, after: Map<Seq<char>, u64>, now: u64, ttl: u64, cap: nat) -> bool {
    &&& after.dom().finite()
    &&& after.dom().len() <= cap
    &&& forall|k: Seq<char>| #[trigger] after.contains_key(k) ==>
            before.contains_key(k) && after[k] == before[k] && is_fresh(now, before[k], ttl)
    &&& forall|k: Seq<char>, k2: Seq<char>|
            before.contains_key(k) && is_fresh(now, before[k], ttl) && !after.contains_key(k)
            && #[trigger] after.contains_key(k2) ==> #[trigger] before[k] <= after[k2]
    &&& (forall|k: Seq<char>| before.contains_key(k) && is_fresh(now, before[k], ttl) ==> #[trigger] after.contains_key(k))
        || after.dom().len() == cap
}

fn elapsed_below(now: u64, at: u64, ttl: u64) -> (r: bool)
    ensures
        r == is_fresh(now, at, ttl),
{
    if now >= at {
        now - at < ttl
    } else {
        0 < ttl
    }
}

/// Drop expired entries, then evict the oldest until at most `cap` remain.
pub fn prune_expiring(entries: &mut StrMap<u64>, now: u64, ttl: u64, cap: usize)
    requires
        old(entries).wf(),
    ensures
        final(entries).wf(),
        pruned(old(entries)@, final(entries)@, now, ttl, cap as nat),
{
    let ghost before = entries@;
    let mut rest: StrMap<u64> = StrMap::new();
    std::mem::swap(entries, &mut rest);
    let mut kept: StrMap<u64> = StrMap::new();
    while rest.len() > 0
        invariant
            rest.wf(),
            kept.wf(),
            forall|k: Seq<char>| #[trigger] rest@.contains_key(k) ==> before.contains_key(k) && rest@[k] == before[k],
            forall|k: Seq<char>| #[trigger] kept@.contains_key(k) <==>
                before.contains_key(k) && !rest@.contains_key(k) && is_fresh(now, before[k], ttl),
            forall|k: Seq<char>| #[trigger] kept@.contains_key(k) ==> kept@[k] == before[k],
            forall|k: Seq<char>| #[trigger] before.contains_key(k) ==> rest@.contains_key(k) || kept@.contains_key(k)
                || !is_fresh(now, before[k], ttl),
        decreases rest.key_seq().len(),
    {
        let ghost pre_rest = rest@;
        let ghost pre_kept = kept@;
        if let Some((key, at)) = rest.pop_last() {
            if elapsed_below(now, at, ttl) {
                kept.push_new(key, at);
            }
            proof {
                assert forall|k: Seq<char>| #[trigger] before.contains_key(k) implies rest@.contains_key(k) || kept@.contains_key(k)
                    || !is_fresh(now, before[k], ttl) by {
                    assert(pre_rest.contains_key(k) || pre_kept.contains_key(k) || !is_fresh(now, before[k], ttl));
                }
            }
        }
    }
    proof {
        rest.lemma_view_finite();
        assert forall|k: Seq<char>| !rest@.contains_key(k) by {
            if rest@.contains_key(k) {
                assert(rest@.dom().contains(k));
                assert(rest@.dom().len() > 0) by {
                    vstd::set_lib::lemma_set_empty_equivalency_len(rest@.dom());
                }
            }
        }
    }
    // Evict the oldest entries while over capacity.
    while kept.len() > cap
        invariant
            kept.wf(),
            forall|k: Seq<char>| #[trigger] kept@.contains_key(k) ==>
                before.contains_key(k) && kept@[k] == before[k] && is_fresh(now, before[k], ttl),
            forall|k: Seq<char>, k2: Seq<char>|
                before.contains_key(k) && is_fresh(now, before[k], ttl) && !kept@.contains_key(k)
                && #[trigger] kept@.contains_key(k2) ==> #[trigger] before[k] <= kept@[k2],
            (forall|k: Seq<char>| before.contains_key(k) && is_fresh(now, before[k], ttl) ==> #[trigger] kept@.contains_key(k))
                || kept@.dom().len() >= cap,
        decreases kept.key_seq().len(),
    {
        proof { kept.lemma_view_finite(); }
        let m = kept.len();
        let mut oldest: usize = 0;
        let mut j: usize = 1;
        while j < m
            invariant
                kept.wf(),
                m == kept.key_seq().len(),
                m > 0,
                oldest < m,
                1 <= j <= m,
                forall|q: int| 0 <= q < j ==> kept@[#[trigger] kept.key_seq()[q]] >= kept@[kept.key_seq()[oldest as int]],
            decreases m - j,
        {
            if *kept.value_at(j) < *kept.value_at(oldest) {
                oldest = j;
            }
            proof {
                kept.lemma_key_in_view(j as int);
            }
            j = j + 1;
        }
        let victim = kept.key_at(oldest).clone();
        let ghost pre = kept@;
        let ghost pre_keys = kept.key_seq();
        proof { kept.lemma_key_in_view(oldest as int); }
        kept.remove(victim.as_str());
        proof {
            assert forall|k2: Seq<char>| #[trigger] kept@.contains_key(k2) implies pre[victim@] <= kept@[k2] by {
                assert(pre.contains_key(k2));
                kept.lemma_view_finite();
                let ghost s = pre_keys;
                assert(pre.dom().contains(k2));
                let q = choose|q: int| 0 <= q < s.len() && s[q] == k2;
                assert(pre[s[q]] >= pre[s[oldest as int]]);
            }
            kept.lemma_view_finite();
            assert(kept@.dom() == pre.dom().remove(victim@));
        }
    }
    proof { kept.lemma_view_finite(); }
    *entries = kept;
}

/// Pruning a cache that is not over capacity only drops expired entries.
pub proof fn lemma_pruned_within_capacity(before: Map<Seq<char>, u64>, after: Map<Seq<char>, u64>, now: u64, ttl: u64, cap: nat)
    requires
        pruned(before, after, now, ttl, cap),
        before.dom().finite(),
        before.dom().len() <= cap,
    ensures
        forall|k: Seq<char>| before.contains_key(k) && is_fresh(now, before[k], ttl) ==> #[trigger] after.contains_key(k),
{
    if exists|k: Seq<char>| before.contains_key(k) && is_fresh(now, before[k], ttl) && !#[trigger] after.contains_key(k) {
        let k = choose|k: Seq<char>| before.contains_key(k) && is_fresh(now, before[k], ttl) && !#[trigger] after.contains_key(k);
        assert(after.dom().len() == cap);
        assert(after.dom().subset_of(before.dom().remove(k)));
        vstd::set_lib::lemma_len_subset(after.dom(), before.dom().remove(k));
    }
}

/// The keys of `m` whose stamps are still fresh at `now`.
pub open spec fn fresh_keys(m: Map<Seq<char>, u64>, now: u64, ttl: u64) -> Set<Seq<char>> {
    m.dom().filter(|k: Seq<char>| is_fresh(now, m[k], ttl))
}

/// Pruning a cache that is not over capacity keeps exactly its fresh entries.
pub proof fn lemma_prune_keeps_fresh(before: Map<Seq<char>, u64>, after: Map<Seq<char>, u64>, now: u64, ttl: u64, cap: nat)
    requires
        pruned(before, after, now, ttl, cap),
        before.dom().finite(),
        before.dom().len() <= cap,
    ensures
        after.dom() == fresh_keys(before, now, ttl),
        fresh_keys(after, now, ttl) == fresh_keys(before, now, ttl),
{
    lemma_pruned_within_capacity(before, after, now, ttl, cap);
    assert(after.dom() =~= fresh_keys(before, now, ttl));
    assert(fresh_keys(after, now, ttl) =~= fresh_keys(before, now, ttl));
}

/// Prune, insert a key stamped `now`, prune again: while fewer fresh entries
/// than the capacity were there, the new key survives, whatever the stamps.
pub proof fn lemma_stamped_key_survives(
    before: Map<Seq<char>, u64>,
    mid: Map<Seq<char>, u64>,
    ins: Map<Seq<char>, u64>,
    after: Map<Seq<char>, u64>,
    k: Seq<char>,
    now: u64,
    ttl: u64,
    cap: nat,
)
    requires
        pruned(before, mid, now, ttl, cap),
        before.dom().finite(),
        before.dom().len() <= cap,
        ins == mid.insert(k, now),
        pruned(ins, after, now, ttl, cap),
        ttl > 0,
        fresh_keys(before, now, ttl).len() < cap,
    ensures
        after.contains_key(k),
        after[k] == now,
{
    lemma_prune_keeps_fresh(before, mid, now, ttl, cap);
    assert(mid.dom().len() < cap);
    assert(ins.dom() =~= mid.dom().insert(k));
    assert(ins.dom().len() <= cap);
    assert(is_fresh(now, ins[k], ttl));
    lemma_pruned_within_capacity(ins, after, now, ttl, cap);
    assert(after.contains_key(k));
    assert(after[k] == ins[k]);
}

/// A cache whose entries are all fresh at `now` and within capacity.
pub open spec fn settled(m: Map<Seq<char>, u64>, now: u64, ttl: u64, cap: nat) -> bool {
    &&& m.dom().finite()
    &&& m.dom().len() <= cap
    &&& forall|k: Seq<char>| #[trigger] m.contains_key(k) ==> is_fresh(now, m[k], ttl)
}

/// What pruning leaves is settled, and pruning a settled cache again at the
/// same instant changes nothing.
pub proof fn lemma_prune_settles(before: Map<Seq<char>, u64>, after: Map<Seq<char>, u64>, now: u64, ttl: u64, cap: nat)
    requires
        pruned(before, after, now, ttl, cap),
    ensures
        settled(after, now, ttl, cap),
        settled(before, now, ttl, cap) ==> after == before,
{
    if settled(before, now, ttl, cap) {
        lemma_prune_keeps_fresh(before, after, now, ttl, cap);
        assert(after.dom() =~= before.dom());
        assert(after =~= before);
    }
}

} // verus!
