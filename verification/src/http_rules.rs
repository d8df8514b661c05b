use vstd::prelude::*;

use vstd::string::{StrSliceExecFns, StringExecFns};

use crate::auth::{hash_invite_token, hex_of, sha256_of_text};
use crate::rate_limit::{current_window, lookup, RateLimiter, SIGNUP_MAX_PER_WINDOW};
use crate::room::{lemma_trimmed, trimmed};
use crate::text::{contains_str, owned, strs, to_chars, trim_span};
use crate::webhooks::IpAddress;

verus! {

/// Whether a browser `Origin` may open a WebSocket: requests without an
/// origin (non-browser clients) pass; a browser origin must be listed.
pub fn origin_allowed(origin: Option<&str>, allowed: &Vec<String>) -> (r: bool)
    ensures
        r == match origin {
            None => true,
            Some(o) => strs(allowed@).contains(o@),
        },
{
    match origin {
        None => true,
        Some(o) => contains_str(allowed, o),
    }
}

/// The address signups are counted against: the peer, or, when the peer is
/// a trusted proxy, the last hop it forwarded (when that parses).
pub fn signup_bucket(peer: IpAddress, forwarded: Option<IpAddress>, trusted_proxies: &Vec<IpAddress>) -> (r: IpAddress)
    ensures
        r == (if trusted_proxies@.contains(peer) && forwarded is Some { forwarded->Some_0 } else { peer }),
{
    let mut trusted = false;
    let mut i: usize = 0;
    while i < trusted_proxies.len()
        invariant
            i <= trusted_proxies@.len(),
            trusted == exists|j: int| 0 <= j < i && trusted_proxies@[j] == peer,
        decreases trusted_proxies@.len() - i,
    {
        if trusted_proxies[i] == peer {
            trusted = true;
        }
        i = i + 1;
    }
    proof {
        if trusted_proxies@.contains(peer) {
            let j = choose|j: int| 0 <= j < trusted_proxies@.len() && trusted_proxies@[j] == peer;
            assert(0 <= j < i && trusted_proxies@[j] == peer);
        }
    }
    if trusted {
        if let Some(f) = forwarded {
            return f;
        }
    }
    peer
}

/// Where the last comma-separated segment of `s` starts.
pub open spec fn segment_start(s: Seq<char>) -> int
    decreases s.len(),
{
    if s.len() == 0 {
        0
    } else if s.last() == ',' {
        s.len() as int
    } else {
        segment_start(s.drop_last())
    }
}

pub proof fn lemma_segment_start_bounds(s: Seq<char>)
    ensures
        0 <= segment_start(s) <= s.len(),
    decreases s.len(),
{
    if s.len() > 0 && s.last() != ',' {
        lemma_segment_start_bounds(s.drop_last());
    }
}

/// The last hop of an `X-Forwarded-For` value: the text after its last
/// comma, with surrounding white space removed.
pub fn last_forwarded_hop(value: &str) -> (r: String)
    ensures
        r@ == trimmed(value@.subrange(segment_start(value@), value@.len() as int)),
{
    let chars = to_chars(value);
    let mut start: usize = 0;
    let mut i: usize = 0;
    proof {
        assert(chars@.subrange(0, 0) =~= Seq::<char>::empty());
    }
    while i < chars.len()
        invariant
            chars@ == value@,
            i <= chars@.len(),
            start as int == segment_start(chars@.subrange(0, i as int)),
            start <= i,
        decreases chars@.len() - i,
    {
        proof {
            let s = chars@.subrange(0, i + 1);
            assert(s.drop_last() =~= chars@.subrange(0, i as int));
            assert(s.last() == chars@[i as int]);
        }
        if chars[i] == ',' {
            start = i + 1;
        }
        i = i + 1;
    }
    proof {
        assert(chars@.subrange(0, chars@.len() as int) =~= chars@);
    }
    let mut tail: Vec<char> = Vec::new();
    let mut k: usize = start;
    while k < chars.len()
        invariant
            start <= k <= chars@.len(),
            tail@ == chars@.subrange(start as int, k as int),
        decreases chars@.len() - k,
    {
        tail.push(chars[k]);
        proof { assert(tail@ =~= chars@.subrange(start as int, k + 1)); }
        k = k + 1;
    }
    let (a, b) = trim_span(&tail);
    proof {
        lemma_trimmed(tail@.subrange(a as int, b as int), tail@);
        assert(tail@.subrange(a as int, b as int) =~= value@.subrange(start + a, start + b));
    }
    owned(value.substring_char(start + a, start + b))
}

/// Why a key-creation request is refused.
#[derive(Debug, Clone, Copy, PartialEq, Eq, Structural)]
pub enum SignupRefusal {
    /// HTTP signup is disabled.
    Disabled,
    /// An admin secret is configured and the request did not present it.
    AdminSecretRequired,
    /// Too many signups from this address in the current window.
    RateLimited,
}

/// Admit a key-creation request: signup must be enabled, the configured
/// admin secret (if any) presented, and the address under its signup limit.
/// The limiter counts the attempt only when the first two checks pass.
pub fn admit_signup(limiter: &mut RateLimiter, signup_enabled: bool, admin_secret: Option<&str>,
    supplied_secret: Option<&str>, bucket: &str, now: u64) -> (r: Result<(), SignupRefusal>)
    requires
        old(limiter).wf(),
    ensures
        final(limiter).wf(),
        final(limiter).usage() == old(limiter).usage(),
        !signup_enabled ==> r == Err::<(), SignupRefusal>(SignupRefusal::Disabled) && final(limiter).signups() == old(limiter).signups(),
        signup_enabled && (admin_secret matches Some(s) && !(supplied_secret matches Some(x) && x@ == s@)) ==>
            r == Err::<(), SignupRefusal>(SignupRefusal::AdminSecretRequired) && final(limiter).signups() == old(limiter).signups(),
        signup_enabled && !(admin_secret matches Some(s) && !(supplied_secret matches Some(x) && x@ == s@)) ==> ({
            let w = current_window(lookup(old(limiter).signups(), bucket@), now);
            &&& (r is Ok <==> w.count < SIGNUP_MAX_PER_WINDOW)
            &&& (r is Err ==> r == Err::<(), SignupRefusal>(SignupRefusal::RateLimited))
            &&& final(limiter).signups() == old(limiter).signups().insert(bucket@,
                if r is Ok { crate::rate_limit::SignupWindow { count: (w.count + 1) as u32, window_start: w.window_start } } else { w })
        }),
{
    if !signup_enabled {
        return Err(SignupRefusal::Disabled);
    }
    if let Some(secret) = admin_secret {
        let ok = match supplied_secret {
            Some(x) => crate::text::str_eq(x, secret),
            None => false,
        };
        if !ok {
            return Err(SignupRefusal::AdminSecretRequired);
        }
    }
    if limiter.try_register_signup(bucket, now) {
        Ok(())
    } else {
        Err(SignupRefusal::RateLimited)
    }
}

/// Why an invite redemption is refused before the store is consulted.
#[derive(Debug, Clone, Copy, PartialEq, Eq, Structural)]
pub enum RedeemRefusal {
    /// Too many redemptions from this address in the current window.
    RateLimited,
    /// No non-empty token was given.
    TokenRequired,
}

/// First step of redeeming an invite: count the attempt against the
/// address's signup limit, require a non-empty token, and give back the
/// token's hash, the only form the store knows.
pub fn begin_redeem(limiter: &mut RateLimiter, bucket: &str, token: Option<&str>, now: u64) -> (r: Result<String, RedeemRefusal>)
    requires
        old(limiter).wf(),
    ensures
        final(limiter).wf(),
        final(limiter).usage() == old(limiter).usage(),
        ({
            let w = current_window(lookup(old(limiter).signups(), bucket@), now);
            let allowed = w.count < SIGNUP_MAX_PER_WINDOW;
            &&& final(limiter).signups() == old(limiter).signups().insert(bucket@,
                if allowed { crate::rate_limit::SignupWindow { count: (w.count + 1) as u32, window_start: w.window_start } } else { w })
            &&& !allowed ==> r == Err::<String, RedeemRefusal>(RedeemRefusal::RateLimited)
            &&& allowed && (token is None || token->Some_0@.len() == 0) ==> r == Err::<String, RedeemRefusal>(RedeemRefusal::TokenRequired)
            &&& allowed && (token matches Some(t) && t@.len() > 0) ==> (r matches Ok(h) && h@ == hex_of(sha256_of_text(token->Some_0@)))
        }),
{
    if !limiter.try_register_signup(bucket, now) {
        return Err(RedeemRefusal::RateLimited);
    }
    match token {
        Some(t) => {
            if t.is_empty() {
                Err(RedeemRefusal::TokenRequired)
            } else {
                Ok(hash_invite_token(t))
            }
        }
        None => Err(RedeemRefusal::TokenRequired),
    }
}

/// The label of a key minted by redeeming an invite to `room_name`.
pub fn invite_key_label(room_name: &str) -> (r: String)
    ensures
        r@ == "invite:"@ + room_name@,
{
    let mut label = owned("invite:");
    label.append(room_name);
    label
}

/// The embedded asset a request path names: the path without its leading
/// slashes, and `index.html` for the root.
pub open spec fn asset_path_of(path: Seq<char>) -> Seq<char>
    decreases path.len(),
{
    if path.len() > 0 && path[0] == '/' {
        asset_path_of(path.drop_first())
    } else if path.len() == 0 {
        "index.html"@
    } else {
        path
    }
}

pub fn asset_path(path: &str) -> (r: String)
    ensures
        r@ == asset_path_of(path@),
{
    let chars = to_chars(path);
    let mut i: usize = 0;
    proof { assert(path@.subrange(0, path@.len() as int) =~= path@); }
    while i < chars.len() && chars[i] == '/'
        invariant
            chars@ == path@,
            i <= chars@.len(),
            forall|j: int| 0 <= j < i ==> #[trigger] chars@[j] == '/',
            asset_path_of(path@) == asset_path_of(path@.subrange(i as int, path@.len() as int)),
        decreases chars@.len() - i,
    {
        proof {
            let s = path@.subrange(i as int, path@.len() as int);
            assert(s.drop_first() =~= path@.subrange(i + 1, path@.len() as int));
        }
        i = i + 1;
    }
    if i == chars.len() {
        proof { assert(path@.subrange(i as int, path@.len() as int) =~= Seq::<char>::empty()); }
        owned("index.html")
    } else {
        owned(path.substring_char(i, chars.len()))
    }
}

/// A room invite as stored.
pub struct InviteMeta {
    pub room_id: String,
    pub created_by_key: String,
    pub single_use: bool,
    pub redeemed_count: i64,
    pub revoked: bool,
}

/// An invite's (single use, redemptions, revoked) after one more
/// redemption, or `None` when it is revoked: a redemption counts, and it
/// revokes a single-use invite.
pub open spec fn invite_redeemed(single_use: bool, count: int, revoked: bool) -> Option<(bool, int, bool)> {
    if revoked { None } else { Some((single_use, count + 1, single_use)) }
}

/// Redeem an invite once.
pub fn redeem_invite_state(invite: &InviteMeta) -> (r: Option<InviteMeta>)
    requires
        invite.redeemed_count < i64::MAX,
    ensures
        match r {
            None => invite_redeemed(invite.single_use, invite.redeemed_count as int, invite.revoked) is None,
            Some(n) => invite_redeemed(invite.single_use, invite.redeemed_count as int, invite.revoked)
                    == Some((n.single_use, n.redeemed_count as int, n.revoked))
                && n.room_id@ == invite.room_id@ && n.created_by_key@ == invite.created_by_key@,
        },
{
    if invite.revoked {
        return None;
    }
    Some(InviteMeta {
        room_id: invite.room_id.clone(),
        created_by_key: invite.created_by_key.clone(),
        single_use: invite.single_use,
        redeemed_count: invite.redeemed_count + 1,
        revoked: invite.single_use,
    })
}

/// Revoke an invite; revoking is idempotent and keeps the count.
pub fn revoke_invite_state(invite: &InviteMeta) -> (r: InviteMeta)
    ensures
        r.revoked,
        r.single_use == invite.single_use,
        r.redeemed_count == invite.redeemed_count,
        r.room_id@ == invite.room_id@,
        r.created_by_key@ == invite.created_by_key@,
{
    InviteMeta {
        room_id: invite.room_id.clone(),
        created_by_key: invite.created_by_key.clone(),
        single_use: invite.single_use,
        redeemed_count: invite.redeemed_count,
        revoked: true,
    }
}

/// A single-use invite has exactly one successful redemption: once it is
/// redeemed, the next redemption is refused.
pub proof fn lemma_single_use_redeems_once(count: int)
    ensures
        invite_redeemed(true, count, false) == Some((true, count + 1, true)),
        invite_redeemed(true, count + 1, true) is None,
{
}

/// An open invite keeps redeeming, one count at a time, until it is revoked.
pub proof fn lemma_open_invite_redeems_until_revoked(count: int)
    ensures
        invite_redeemed(false, count, false) == Some((false, count + 1, false)),
        invite_redeemed(false, count, true) is None,
{
}

} // verus!
