use cowchat_server::broker::Broker;
use cowchat_server::protocol::ErrorCode;
use cowchat_server::rate_limit::{RateLimiter, TierLimits};
use cowchat_server::reconnect::{EventFrame, ReclaimError, ReconnectManager};
use cowchat_server::session::{
    agent_limit_allows, authenticate, begin_disconnect, check_protocol, decide_admission, end_disconnect,
    identity_claim_outcome, leave_on_disconnect, replay_tail, tcp_connection_allows_keyless, Admission,
    ProtocolMismatch, SessionRegistry, PROTOCOL_VERSION,
};
use cowchat_server::voting::VoteManager;
use cowchat_server::webhooks::IpAddress;

const NOW: u64 = 5_000_000;

#[test]
fn keyless_local_never_covers_non_loopback_tcp() {
    assert!(tcp_connection_allows_keyless(true, IpAddress::V4(127, 0, 0, 1)));
    assert!(tcp_connection_allows_keyless(true, IpAddress::V6(0, 0, 0, 0, 0, 0, 0, 1)));
    assert!(!tcp_connection_allows_keyless(true, IpAddress::V4(192, 0, 2, 10)));
    assert!(!tcp_connection_allows_keyless(false, IpAddress::V4(127, 0, 0, 1)));
}

#[test]
fn protocol_gate_accepts_legacy_and_current_and_rejects_future() {
    assert_eq!(check_protocol(None), Ok(1));
    assert_eq!(check_protocol(Some(1)), Ok(1));
    assert_eq!(check_protocol(Some(2)), Ok(2));
    assert_eq!(PROTOCOL_VERSION, 2);
    assert_eq!(check_protocol(Some(999)), Err(ProtocolMismatch::Newer(999)));
    assert_eq!(check_protocol(Some(0)), Err(ProtocolMismatch::Older(0)));
    assert_eq!(
        ProtocolMismatch::Newer(999).message(),
        "Client protocol v999 is newer than this server (v2); the server needs an upgrade"
    );
    assert_eq!(
        ProtocolMismatch::Older(0).message(),
        "Client protocol v0 is no longer supported (server requires >= v1); run `brew upgrade cowchat`"
    );
}

#[test]
fn credentials_are_checked_unless_keyless_local_or_no_auth() {
    // Wrong key.
    assert!(!authenticate(false, false, "wrong-key", "server-key", false));
    // The server's own key and a stored key.
    assert!(authenticate(false, false, "server-key", "server-key", false));
    assert!(authenticate(false, false, "stored-key", "server-key", true));
    // Keyless local use permits an empty key, not an arbitrary credential.
    assert!(authenticate(false, true, "", "server-key", false));
    assert!(!authenticate(false, true, "invalid-but-nonempty", "server-key", false));
    assert!(!authenticate(false, false, "", "server-key", false));
    // Without authentication anything goes.
    assert!(authenticate(true, false, "anything", "server-key", false));
}

#[test]
fn agent_limit_skips_keyless_and_counts_keys() {
    let mut rl = RateLimiter::new();
    assert!(agent_limit_allows(&mut rl, false, "", "free", NOW));
    assert!(agent_limit_allows(&mut rl, true, "key", "free", NOW));
    for _ in 0..TierLimits::free().max_agents {
        rl.add_agent("key", NOW);
    }
    assert!(!agent_limit_allows(&mut rl, false, "key", "free", NOW));
    assert!(agent_limit_allows(&mut rl, false, "key", "pro", NOW));
}

#[test]
fn identity_claims_only_for_requested_ids_of_keys() {
    assert!(identity_claim_outcome(false, "key", false, Ok(false)).is_ok());
    assert!(identity_claim_outcome(false, "", true, Ok(false)).is_ok());
    assert!(identity_claim_outcome(true, "key", true, Ok(false)).is_ok());
    assert!(identity_claim_outcome(false, "key", true, Ok(true)).is_ok());
    let taken = identity_claim_outcome(false, "key", true, Ok(false)).unwrap_err();
    assert_eq!(taken.code, ErrorCode::AgentIdTaken);
    assert_eq!(taken.message, "Agent ID belongs to a different API key");
    let broken = identity_claim_outcome(false, "key", true, Err("db gone".to_string())).unwrap_err();
    assert_eq!(broken.code, ErrorCode::InternalError);
    assert_eq!(broken.message, "db gone");
}

#[test]
fn admission_reclaims_takes_over_or_refuses() {
    assert_eq!(decide_admission(true, Ok(true), None, "k", false).ok(), Some(Admission::Reclaim));
    let r = decide_admission(true, Err(ReclaimError::CredentialMismatch), None, "k", false).unwrap_err();
    assert_eq!(r.code, ErrorCode::AgentIdTaken);
    assert_eq!(r.message, "Agent ID belongs to a different API key");
    let r = decide_admission(true, Err(ReclaimError::AlreadyClaimed), None, "k", false).unwrap_err();
    assert_eq!(r.message, "Reconnect already in progress for this agent ID");
    assert_eq!(decide_admission(false, Ok(false), None, "k", false).ok(), Some(Admission::Fresh));
    assert_eq!(decide_admission(true, Ok(false), Some("k"), "k", false).ok(), Some(Admission::Takeover));
    let r = decide_admission(true, Ok(false), Some("other"), "k", false).unwrap_err();
    assert_eq!(r.message, "Agent ID belongs to a different API key");
    assert_eq!(decide_admission(true, Ok(false), Some("other"), "k", true).ok(), Some(Admission::Takeover));
    let r = decide_admission(false, Ok(false), Some("k"), "k", false).unwrap_err();
    assert_eq!(r.message, "Agent ID already in use");
}

fn frame(id: &str, room: Option<&str>) -> EventFrame {
    EventFrame { id: Some(id.to_string()), room_id: room.map(|r| r.to_string()), line: format!("{{\"id\":\"{id}\"}}") }
}

#[test]
fn replay_tail_skips_replayed_and_blocked_frames() {
    let frames = vec![frame("1", Some("keep")), frame("2", Some("gone")), frame("3", None), frame("4", Some("keep"))];
    let tail = replay_tail(&frames, &vec!["1".to_string()], &vec!["gone".to_string()]);
    let ids: Vec<String> = tail.iter().map(|f| f.id.clone().unwrap()).collect();
    assert_eq!(ids, vec!["3".to_string(), "4".to_string()]);
}

#[test]
fn disconnect_cleanup_cannot_remove_a_newer_takeover_session() {
    let mut registry = SessionRegistry::new();
    let mut broker = Broker::new();
    let mut reconnect = ReconnectManager::new();
    let mut limiter = RateLimiter::new();
    let mut votes = VoteManager::new();
    registry.install("stable", "old-session", "owner-key");
    broker.join_room("stable", "lobby", true, NOW).unwrap();
    // A newer connection takes over the same id.
    registry.install("stable", "new-session", "owner-key");
    let r = begin_disconnect(&mut limiter, &registry, &broker, &mut reconnect, "stable", "old-session", "Stable", "owner-key", NOW);
    assert!(r.is_none());
    assert!(!reconnect.is_stashed("stable"));
    end_disconnect(&mut votes, &mut registry, "stable", "old-session");
    assert!(registry.is_current("stable", "new-session"), "newer takeover must survive old-session cleanup");
    assert!(broker.is_agent_in_room("stable", "lobby"));
}

#[test]
fn disconnect_cleanup_stashes_leaves_and_unregisters() {
    let mut registry = SessionRegistry::new();
    let mut broker = Broker::new();
    let mut reconnect = ReconnectManager::new();
    let mut limiter = RateLimiter::new();
    let mut votes = VoteManager::new();
    // Another agent is stashed in the same room.
    reconnect.stash("peer".to_string(), "Peer".to_string(), "k2".to_string(), vec!["lobby".to_string()], NOW);
    registry.install("stable", "session", "owner-key");
    limiter.add_agent("owner-key", NOW);
    broker.join_room("stable", "lobby", true, NOW).unwrap();
    votes.start_election("lobby", vec!["stable".to_string()], "stable").unwrap();
    votes.finish_election_with("lobby", false, 0);
    assert!(votes.is_leader("lobby", "stable"));

    let rooms = begin_disconnect(&mut limiter, &registry, &broker, &mut reconnect, "stable", "session", "Stable", "owner-key", NOW)
        .expect("the session still owns the id");
    assert_eq!(rooms, vec!["lobby".to_string()]);
    assert!(reconnect.is_stashed("stable"));
    let left = leave_on_disconnect(&mut broker, &mut reconnect, "stable", "lobby", &frame("left", Some("lobby")), NOW);
    assert!(left.outcome.now_empty);
    assert_eq!(left.buffered_for, vec!["peer".to_string()]);
    let cleared = end_disconnect(&mut votes, &mut registry, "stable", "session");
    assert_eq!(cleared, vec!["lobby".to_string()]);
    assert!(registry.live_key("stable").is_none());
    assert!(!broker.is_agent_in_room("stable", "lobby"));
    let peer = reconnect.reclaim("peer", "k2", false, NOW + 1).unwrap().unwrap();
    assert_eq!(peer.missed_messages.len(), 1);
}

#[test]
fn leave_event_reaches_every_other_stashed_member_with_buffer_room() {
    let mut broker = Broker::new();
    let mut reconnect = ReconnectManager::new();
    for (agent, key) in [("p1", "k1"), ("p2", "k2"), ("full", "k3"), ("elsewhere", "k4")] {
        let room = if agent == "elsewhere" { "other" } else { "lobby" };
        reconnect.stash(agent.to_string(), agent.to_string(), key.to_string(), vec![room.to_string()], NOW);
    }
    for i in 0..cowchat_server::reconnect::MAX_BUFFERED_MESSAGES {
        reconnect.buffer_message("full", frame(&format!("m{i}"), Some("lobby")), NOW);
    }
    broker.join_room("leaver", "lobby", true, NOW).unwrap();
    let left = leave_on_disconnect(&mut broker, &mut reconnect, "leaver", "lobby", &frame("left", Some("lobby")), NOW);
    assert_eq!(left.buffered_for, vec!["p1".to_string(), "p2".to_string()]);
    for agent in ["p1", "p2"] {
        let key = if agent == "p1" { "k1" } else { "k2" };
        let stash = reconnect.reclaim(agent, key, false, NOW + 1).unwrap().unwrap();
        assert_eq!(stash.missed_messages.len(), 1);
        assert_eq!(stash.missed_messages[0].id.as_deref(), Some("left"));
    }
    let full = reconnect.reclaim("full", "k3", false, NOW + 1).unwrap().unwrap();
    assert_eq!(full.missed_messages.len(), cowchat_server::reconnect::MAX_BUFFERED_MESSAGES);
    let elsewhere = reconnect.reclaim("elsewhere", "k4", false, NOW + 1).unwrap().unwrap();
    assert!(elsewhere.missed_messages.is_empty());
}
