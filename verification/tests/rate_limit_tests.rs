use cowchat_server::rate_limit::{RateLimiter, TierLimits, SIGNUP_MAX_PER_WINDOW, SIGNUP_WINDOW_MS};

const NOW: u64 = 1_000_000;

#[test]
fn signup_throttle_caps_per_ip() {
    let mut rl = RateLimiter::new();
    for _ in 0..SIGNUP_MAX_PER_WINDOW {
        assert!(rl.try_register_signup("1.2.3.4", NOW));
    }
    // Over the cap for this IP.
    assert!(!rl.try_register_signup("1.2.3.4", NOW));
    // A different IP has its own budget.
    assert!(rl.try_register_signup("5.6.7.8", NOW));
}

#[test]
fn destroyed_room_releases_room_quota() {
    let mut rl = RateLimiter::new();
    let limits = TierLimits { max_rooms: 1, ..TierLimits::free() };
    rl.add_room("key", NOW);
    assert!(!rl.check_room_limit("key", &limits, NOW));
    rl.remove_room("key");
    assert!(rl.check_room_limit("key", &limits, NOW));
}

#[test]
fn signup_window_resets_after_an_hour() {
    let mut rl = RateLimiter::new();
    for _ in 0..SIGNUP_MAX_PER_WINDOW {
        assert!(rl.try_register_signup("1.2.3.4", NOW));
    }
    assert!(!rl.try_register_signup("1.2.3.4", NOW + SIGNUP_WINDOW_MS));
    assert!(rl.try_register_signup("1.2.3.4", NOW + SIGNUP_WINDOW_MS + 1));
}

#[test]
fn tier_limits_by_name() {
    let free = TierLimits::free();
    assert_eq!(free.max_agents, 20);
    assert_eq!(free.max_rooms, 50);
    assert_eq!(free.max_messages_per_minute, 200);
    assert_eq!(free.history_retention_days, Some(14));
    let pro = TierLimits::pro();
    assert_eq!(pro.max_agents, 200);
    assert_eq!(pro.history_retention_days, Some(90));
    assert_eq!(TierLimits::for_tier("pro"), pro);
    assert_eq!(TierLimits::for_tier("free"), free);
    assert_eq!(TierLimits::for_tier("enterprise"), free);
}

#[test]
fn agent_slots_are_counted_and_released() {
    let mut rl = RateLimiter::new();
    let limits = TierLimits { max_agents: 2, ..TierLimits::free() };
    assert!(rl.check_agent_limit("key", &limits, NOW));
    rl.add_agent("key", NOW);
    rl.add_agent("key", NOW);
    assert!(!rl.check_agent_limit("key", &limits, NOW));
    rl.remove_agent("key");
    assert!(rl.check_agent_limit("key", &limits, NOW));
    // Releasing more than was taken never goes below zero.
    rl.remove_agent("key");
    rl.remove_agent("key");
    rl.add_agent("key", NOW);
    assert!(rl.check_agent_limit("key", &limits, NOW));
}

#[test]
fn message_rate_is_per_minute() {
    let mut rl = RateLimiter::new();
    let limits = TierLimits { max_messages_per_minute: 2, ..TierLimits::free() };
    assert!(rl.check_message_rate("key", &limits, NOW));
    rl.increment_message("key", NOW);
    rl.increment_message("key", NOW);
    assert!(!rl.check_message_rate("key", &limits, NOW + 1));
    assert!(rl.check_message_rate("key", &limits, NOW + 60_001));
}
