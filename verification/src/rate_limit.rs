use vstd::prelude::*;

use crate::expiry::age;
use crate::strmap::StrMap;
use crate::text::{owned, str_eq};

verus! {

/// Keys one client address may mint per signup window.
pub const SIGNUP_MAX_PER_WINDOW: u32 = 10;
/// Length of the signup window, in milliseconds.
pub const SIGNUP_WINDOW_MS: u64 = 3_600_000;
/// Length of the message-rate window, in milliseconds.
pub const MESSAGE_WINDOW_MS: u64 = 60_000;

/// Per-address key-creation counter within a reset window.
#[derive(Clone, Copy, Debug, PartialEq, Eq, Structural)]
pub struct SignupWindow {
    pub count: u32,
    pub window_start: u64,
}

/// Per-key usage counters.
#[derive(Clone, Copy, Debug, PartialEq, Eq, Structural)]
pub struct KeyUsage {
    pub agent_count: u64,
    pub msg_count: u64,
    pub msg_window_start: u64,
    pub room_count: u64,
}

impl KeyUsage {
    pub fn new(now: u64) -> (r: Self)
        ensures
            r == (KeyUsage { agent_count: 0, msg_count: 0, msg_window_start: now, room_count: 0 }),
    {
        KeyUsage { agent_count: 0, msg_count: 0, msg_window_start: now, room_count: 0 }
    }
}

/// Limits of a tier.
#[derive(Debug, Clone, Copy, PartialEq, Eq, Structural)]
pub struct TierLimits {
    pub max_agents: u64,
    pub max_messages_per_minute: u64,
    pub max_rooms: u64,
    /// Largest message content accepted, in bytes as sent (after encryption).
    pub max_message_bytes: usize,
    /// Days of history kept before purging; `None` keeps it forever.
    pub history_retention_days: Option<u32>,
}

pub open spec fn free_limits() -> TierLimits {
    TierLimits {
        max_agents: 20,
        max_messages_per_minute: 200,
        max_rooms: 50,
        max_message_bytes: 65536,
        history_retention_days: Some(14),
    }
}

pub open spec fn pro_limits() -> TierLimits {
    TierLimits {
        max_agents: 200,
        max_messages_per_minute: 2000,
        max_rooms: 500,
        max_message_bytes: 262144,
        history_retention_days: Some(90),
    }
}

impl TierLimits {
    pub fn free() -> (r: Self)
        ensures
            r == free_limits(),
    {
        TierLimits {
            max_agents: 20,
            max_messages_per_minute: 200,
            max_rooms: 50,
            max_message_bytes: 64 * 1024,
            history_retention_days: Some(14),
        }
    }

    pub fn pro() -> (r: Self)
        ensures
            r == pro_limits(),
    {
        TierLimits {
            max_agents: 200,
            max_messages_per_minute: 2000,
            max_rooms: 500,
            max_message_bytes: 256 * 1024,
            history_retention_days: Some(90),
        }
    }

    /// Limits of a named tier; unknown tiers get the free limits.
    pub fn for_tier(tier: &str) -> (r: Self)
        ensures
            r == (if tier@ == "pro"@ { pro_limits() } else { free_limits() }),
    {
        if str_eq(tier, "pro") {
            Self::pro()
        } else {
            Self::free()
        }
    }
}

/// The window a signup attempt at `now` is counted in.
pub open spec fn current_window(w: Option<SignupWindow>, now: u64) -> SignupWindow {
    match w {
        Some(w) => if age(now, w.window_start) > SIGNUP_WINDOW_MS {
            SignupWindow { count: 0, window_start: now }
        } else {
            w
        },
        None => SignupWindow { count: 0, window_start: now },
    }
}

/// The usage record of a key as it stands at `now` once created.
pub open spec fn usage_or_new(u: Option<KeyUsage>, now: u64) -> KeyUsage {
    match u {
        Some(u) => u,
        None => KeyUsage { agent_count: 0, msg_count: 0, msg_window_start: now, room_count: 0 },
    }
}

pub open spec fn lookup<V>(m: Map<Seq<char>, V>, k: Seq<char>) -> Option<V> {
    if m.contains_key(k) { Some(m[k]) } else { None }
}

/// Whether a signup attempt from `ip` at `now` is allowed.
pub open spec fn signup_allowed(ws: Map<Seq<char>, SignupWindow>, ip: Seq<char>, now: u64) -> bool {
    current_window(lookup(ws, ip), now).count < SIGNUP_MAX_PER_WINDOW
}

/// The signup windows after an attempt from `ip` at `now`.
pub open spec fn signups_after(ws: Map<Seq<char>, SignupWindow>, ip: Seq<char>, now: u64) -> Map<Seq<char>, SignupWindow> {
    let w = current_window(lookup(ws, ip), now);
    ws.insert(ip, if signup_allowed(ws, ip, now) { SignupWindow { count: (w.count + 1) as u32, window_start: w.window_start } } else { w })
}

/// The usage after a key creates a room at `now`.
pub open spec fn usage_after_add_room(m: Map<Seq<char>, KeyUsage>, key: Seq<char>, now: u64) -> Map<Seq<char>, KeyUsage> {
    let u = usage_or_new(lookup(m, key), now);
    m.insert(key, KeyUsage { room_count: u.room_count.wrapping_add(1), ..u })
}

/// The usage after a key's room is destroyed.
pub open spec fn usage_after_remove_room(m: Map<Seq<char>, KeyUsage>, key: Seq<char>) -> Map<Seq<char>, KeyUsage> {
    if m.contains_key(key) && m[key].room_count > 0 {
        m.insert(key, KeyUsage { room_count: (m[key].room_count - 1) as u64, ..m[key] })
    } else {
        m
    }
}

/// Destroying a room gives its quota back: creating a room and destroying
/// it leaves a known key's usage as it was.
pub proof fn lemma_destroyed_room_releases_quota(m: Map<Seq<char>, KeyUsage>, key: Seq<char>, now: u64)
    requires
        m.contains_key(key),
        m[key].room_count < u64::MAX,
    ensures
        usage_after_remove_room(usage_after_add_room(m, key, now), key) == m,
{
    let u = m[key];
    assert(u.room_count.wrapping_add(1) == u.room_count + 1);
    assert(usage_after_remove_room(usage_after_add_room(m, key, now), key) =~= m);
}

/// No address gets more than `SIGNUP_MAX_PER_WINDOW` signups in a window:
/// an attempt keeps every window's count within the cap.
pub proof fn lemma_signup_cap(ws: Map<Seq<char>, SignupWindow>, ip: Seq<char>, now: u64)
    requires
        forall|k: Seq<char>| #[trigger] ws.contains_key(k) ==> ws[k].count <= SIGNUP_MAX_PER_WINDOW,
    ensures
        forall|k: Seq<char>| #[trigger] signups_after(ws, ip, now).contains_key(k) ==>
            signups_after(ws, ip, now)[k].count <= SIGNUP_MAX_PER_WINDOW,
{
    assert forall|k: Seq<char>| #[trigger] signups_after(ws, ip, now).contains_key(k) implies
        signups_after(ws, ip, now)[k].count <= SIGNUP_MAX_PER_WINDOW by {
        if k != ip {
            assert(ws.contains_key(k));
        }
    }
}

/// Per-key usage and per-address signup throttling.
pub struct RateLimiter {
    usage: StrMap<KeyUsage>,
    signups: StrMap<SignupWindow>,
}

impl RateLimiter {
    pub closed spec fn usage(&self) -> Map<Seq<char>, KeyUsage> {
        self.usage@
    }

    pub closed spec fn signups(&self) -> Map<Seq<char>, SignupWindow> {
        self.signups@
    }

    pub closed spec fn wf(&self) -> bool {
        self.usage.wf() && self.signups.wf()
    }

    pub fn new() -> (r: Self)
        ensures
            r.wf(),
            r.usage() == Map::<Seq<char>, KeyUsage>::empty(),
            r.signups() == Map::<Seq<char>, SignupWindow>::empty(),
    {
        RateLimiter { usage: StrMap::new(), signups: StrMap::new() }
    }

    /// Count a key-creation attempt from `ip` at `now` and say whether it is
    /// allowed: at most `SIGNUP_MAX_PER_WINDOW` per address per window.
    pub fn try_register_signup(&mut self, ip: &str, now: u64) -> (r: bool)
        requires
            old(self).wf(),
        ensures
            final(self).wf(),
            final(self).usage() == old(self).usage(),
            r == signup_allowed(old(self).signups(), ip@, now),
            final(self).signups() == signups_after(old(self).signups(), ip@, now),
            ({
                let w = current_window(lookup(old(self).signups(), ip@), now);
                &&& r == (w.count < SIGNUP_MAX_PER_WINDOW)
                &&& final(self).signups() == old(self).signups().insert(ip@,
                        if r { SignupWindow { count: (w.count + 1) as u32, window_start: w.window_start } } else { w })
            }),
    {
        let mut w = match self.signups.get(ip) {
            Some(w) => *w,
            None => SignupWindow { count: 0, window_start: now },
        };
        let elapsed = if now >= w.window_start { now - w.window_start } else { 0 };
        if elapsed > SIGNUP_WINDOW_MS {
            w = SignupWindow { count: 0, window_start: now };
        }
        if w.count >= SIGNUP_MAX_PER_WINDOW {
            self.signups.insert(owned(ip), w);
            return false;
        }
        w.count = w.count + 1;
        self.signups.insert(owned(ip), w);
        true
    }

    fn get_or_create(&mut self, api_key: &str, now: u64) -> (r: KeyUsage)
        requires
            old(self).wf(),
        ensures
            final(self).wf(),
            r == usage_or_new(lookup(old(self).usage(), api_key@), now),
            final(self).usage() == old(self).usage().insert(api_key@, r),
            final(self).signups() == old(self).signups(),
    {
        match self.usage.get(api_key) {
            Some(u) => {
                let u = *u;
                proof { assert(self.usage@.insert(api_key@, u) =~= self.usage@); }
                u
            }
            None => {
                let u = KeyUsage::new(now);
                self.usage.insert(owned(api_key), u);
                u
            }
        }
    }

    /// Whether the key may register another agent.
    pub fn check_agent_limit(&mut self, api_key: &str, limits: &TierLimits, now: u64) -> (r: bool)
        requires
            old(self).wf(),
        ensures
            final(self).wf(),
            final(self).usage() == old(self).usage().insert(api_key@, usage_or_new(lookup(old(self).usage(), api_key@), now)),
            final(self).signups() == old(self).signups(),
            r == (usage_or_new(lookup(old(self).usage(), api_key@), now).agent_count < limits.max_agents),
    {
        let u = self.get_or_create(api_key, now);
        u.agent_count < limits.max_agents
    }

    /// Whether the key may send another message; a window older than a
    /// minute is restarted at `now` with a zero count.
    pub fn check_message_rate(&mut self, api_key: &str, limits: &TierLimits, now: u64) -> (r: bool)
        requires
            old(self).wf(),
        ensures
            final(self).wf(),
            final(self).signups() == old(self).signups(),
            ({
                let u = usage_or_new(lookup(old(self).usage(), api_key@), now);
                let u2 = if age(now, u.msg_window_start) > MESSAGE_WINDOW_MS {
                    KeyUsage { msg_window_start: now, msg_count: 0, ..u }
                } else {
                    u
                };
                &&& final(self).usage() == old(self).usage().insert(api_key@, u2)
                &&& r == (u2.msg_count < limits.max_messages_per_minute)
            }),
    {
        let mut u = self.get_or_create(api_key, now);
        let elapsed = if now >= u.msg_window_start { now - u.msg_window_start } else { 0 };
        if elapsed > MESSAGE_WINDOW_MS {
            u.msg_window_start = now;
            u.msg_count = 0;
            self.usage.insert(owned(api_key), u);
        }
        u.msg_count < limits.max_messages_per_minute
    }

    /// Whether the key may own another room.
    pub fn check_room_limit(&mut self, api_key: &str, limits: &TierLimits, now: u64) -> (r: bool)
        requires
            old(self).wf(),
        ensures
            final(self).wf(),
            final(self).usage() == old(self).usage().insert(api_key@, usage_or_new(lookup(old(self).usage(), api_key@), now)),
            final(self).signups() == old(self).signups(),
            r == (usage_or_new(lookup(old(self).usage(), api_key@), now).room_count < limits.max_rooms),
    {
        let u = self.get_or_create(api_key, now);
        u.room_count < limits.max_rooms
    }

    pub fn increment_message(&mut self, api_key: &str, now: u64)
        requires
            old(self).wf(),
        ensures
            final(self).wf(),
            final(self).signups() == old(self).signups(),
            ({
                let u = usage_or_new(lookup(old(self).usage(), api_key@), now);
                final(self).usage() == old(self).usage().insert(api_key@,
                    KeyUsage { msg_count: u.msg_count.wrapping_add(1), ..u })
            }),
    {
        let mut u = self.get_or_create(api_key, now);
        u.msg_count = u.msg_count.wrapping_add(1);
        self.usage.insert(owned(api_key), u);
    }

    pub fn add_agent(&mut self, api_key: &str, now: u64)
        requires
            old(self).wf(),
        ensures
            final(self).wf(),
            final(self).signups() == old(self).signups(),
            ({
                let u = usage_or_new(lookup(old(self).usage(), api_key@), now);
                final(self).usage() == old(self).usage().insert(api_key@,
                    KeyUsage { agent_count: u.agent_count.wrapping_add(1), ..u })
            }),
    {
        let mut u = self.get_or_create(api_key, now);
        u.agent_count = u.agent_count.wrapping_add(1);
        self.usage.insert(owned(api_key), u);
    }

    /// Release one agent slot of a known key; never below zero.
    pub fn remove_agent(&mut self, api_key: &str)
        requires
            old(self).wf(),
        ensures
            final(self).wf(),
            final(self).signups() == old(self).signups(),
            final(self).usage() == (if old(self).usage().contains_key(api_key@) && old(self).usage()[api_key@].agent_count > 0 {
                let u = old(self).usage()[api_key@];
                old(self).usage().insert(api_key@, KeyUsage { agent_count: (u.agent_count - 1) as u64, ..u })
            } else {
                old(self).usage()
            }),
    {
        let found = match self.usage.get(api_key) {
            Some(u) => Some(*u),
            None => None,
        };
        if let Some(mut u) = found {
            if u.agent_count > 0 {
                u.agent_count = u.agent_count - 1;
                self.usage.insert(owned(api_key), u);
            }
        }
    }

    pub fn add_room(&mut self, api_key: &str, now: u64)
        requires
            old(self).wf(),
        ensures
            final(self).wf(),
            final(self).signups() == old(self).signups(),
            final(self).usage() == usage_after_add_room(old(self).usage(), api_key@, now),
    {
        let mut u = self.get_or_create(api_key, now);
        u.room_count = u.room_count.wrapping_add(1);
        self.usage.insert(owned(api_key), u);
    }

    /// Release one room slot of a known key; never below zero.
    pub fn remove_room(&mut self, api_key: &str)
        requires
            old(self).wf(),
        ensures
            final(self).wf(),
            final(self).signups() == old(self).signups(),
            final(self).usage() == usage_after_remove_room(old(self).usage(), api_key@),
    {
        let found = match self.usage.get(api_key) {
            Some(u) => Some(*u),
            None => None,
        };
        if let Some(mut u) = found {
            if u.room_count > 0 {
                u.room_count = u.room_count - 1;
                self.usage.insert(owned(api_key), u);
            }
        }
    }
}

} // verus!
