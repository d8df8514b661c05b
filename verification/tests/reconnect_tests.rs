use cowchat_server::reconnect::{
    DestroyedRoomCache, EventFrame, ReclaimError, ReconnectManager, DESTROYED_ROOM_TTL_MS, MAX_BUFFERED_MESSAGES,
    MAX_DESTROYED_ROOMS, RECONNECT_WINDOW_MS,
};

const NOW: u64 = 100_000_000;

fn event(room: &str, content: &str) -> EventFrame {
    EventFrame {
        id: Some(format!("{room}-{content}")),
        room_id: Some(room.to_string()),
        line: format!("{{\"room_id\":\"{room}\",\"content\":\"{content}\"}}"),
    }
}

fn rooms(names: &[&str]) -> Vec<String> {
    names.iter().map(|s| s.to_string()).collect()
}

#[test]
fn expired_stash_does_not_define_identity_ownership() {
    let mut manager = ReconnectManager::new();
    manager.stash("stable".into(), "Stable".into(), "owner-key".into(), vec![], NOW);
    assert!(manager.reclaim("stable", "owner-key", false, NOW + RECONNECT_WINDOW_MS + 1_000).unwrap().is_none());
    assert!(!manager.is_stashed("stable"));
}

#[test]
fn destroyed_room_is_removed_from_reconnect_state() {
    let mut manager = ReconnectManager::new();
    manager.stash("stable".into(), "Stable".into(), "owner-key".into(), rooms(&["keep", "destroyed"]), NOW);
    manager.buffer_message("stable", event("destroyed", "secret"), NOW);
    manager.buffer_message("stable", event("keep", "keep"), NOW);
    manager.forget_room("destroyed", NOW);
    let stashed = manager.reclaim("stable", "owner-key", false, NOW).unwrap().unwrap();
    assert_eq!(stashed.rooms, rooms(&["keep"]));
    assert_eq!(stashed.missed_messages.len(), 1);
    assert_eq!(stashed.missed_messages[0].room_id.as_deref(), Some("keep"));
}

#[test]
fn stash_created_after_destruction_cannot_restore_room() {
    let mut manager = ReconnectManager::new();
    manager.forget_room("destroyed", NOW);
    manager.stash("late".into(), "Late".into(), "owner-key".into(), rooms(&["keep", "destroyed"]), NOW);
    manager.buffer_message("late", event("destroyed", "secret"), NOW);
    let stashed = manager.reclaim("late", "owner-key", false, NOW).unwrap().unwrap();
    assert_eq!(stashed.rooms, rooms(&["keep"]));
    assert!(stashed.missed_messages.is_empty());
}

#[test]
fn room_metadata_events_are_buffered_by_visibility() {
    let mut manager = ReconnectManager::new();
    manager.stash("owner".into(), "Owner".into(), "owner-key".into(), rooms(&["persistent-room"]), NOW);
    manager.stash("outsider".into(), "Outsider".into(), "other-key".into(), rooms(&["persistent-room"]), NOW);
    let mut got = manager.buffer_visible_room_event("private", Some("owner-key"), &vec![], false, &event("private-room", "renamed-private"), NOW);
    got.sort();
    assert_eq!(got, rooms(&["owner"]));
    let mut got = manager.buffer_visible_room_event("public", Some("owner-key"), &vec![], false, &event("public-room", "renamed-public"), NOW);
    got.sort();
    assert_eq!(got, rooms(&["outsider", "owner"]));
    let owner = manager.reclaim("owner", "owner-key", false, NOW).unwrap().unwrap();
    assert_eq!(owner.missed_messages.len(), 2);
    let outsider = manager.reclaim("outsider", "other-key", false, NOW).unwrap().unwrap();
    assert_eq!(outsider.missed_messages.len(), 1);
}

#[test]
fn reconnect_lease_is_exclusive_bufferable_and_abort_safe() {
    let mut manager = ReconnectManager::new();
    manager.stash("stable".into(), "Stable".into(), "owner-key".into(), rooms(&["room"]), NOW);
    let lease = manager.begin_reclaim("stable", "owner-key", false, NOW).unwrap().unwrap();
    assert!(matches!(manager.begin_reclaim("stable", "owner-key", false, NOW), Err(ReclaimError::AlreadyClaimed)));
    assert!(manager.is_stashed("stable"));
    manager.buffer_message("stable", event("room", "during-handshake"), NOW);
    assert_eq!(lease.snapshot(&manager).unwrap().missed_messages.len(), 1);
    lease.release(&mut manager);
    let lease = manager.begin_reclaim("stable", "owner-key", false, NOW).unwrap().unwrap();
    let stashed = lease.commit(&mut manager).unwrap();
    assert_eq!(stashed.missed_messages.len(), 1);
    assert!(stashed.reclaim_token.is_none());
    assert!(!manager.is_stashed("stable"));
}

#[test]
fn reclaiming_with_another_key_is_refused() {
    let mut manager = ReconnectManager::new();
    manager.stash("stable".into(), "Stable".into(), "owner-key".into(), rooms(&["room"]), NOW);
    assert!(matches!(manager.reclaim("stable", "other-key", false, NOW), Err(ReclaimError::CredentialMismatch)));
    assert!(manager.reclaim("stable", "other-key", true, NOW).unwrap().is_some());
}

#[test]
fn destruction_during_reconnect_lease_cannot_be_reported_as_restored() {
    let mut manager = ReconnectManager::new();
    manager.stash("stable".into(), "Stable".into(), "owner-key".into(), rooms(&["destroyed"]), NOW);
    let lease = manager.begin_reclaim("stable", "owner-key", false, NOW).unwrap().unwrap();
    manager.forget_room("destroyed", NOW);
    let stashed = lease.commit(&mut manager).unwrap();
    assert!(stashed.rooms.is_empty());
    assert!(stashed.missed_messages.is_empty());
}

#[test]
fn ownerless_private_events_are_buffered_only_for_keyless_stashes() {
    let mut manager = ReconnectManager::new();
    manager.stash("keyless".into(), "Keyless".into(), "".into(), rooms(&["r"]), NOW);
    manager.stash("authenticated".into(), "Authenticated".into(), "owner-key".into(), rooms(&["r"]), NOW);
    let got = manager.buffer_visible_room_event("private", None, &vec![], false, &event("ownerless", "x"), NOW);
    assert_eq!(got, rooms(&["keyless"]));
}

#[test]
fn granted_keys_receive_private_room_events_keyless_stashes_do_not() {
    let mut manager = ReconnectManager::new();
    manager.stash("granted".into(), "Granted".into(), "granted-key".into(), rooms(&["r"]), NOW);
    manager.stash("outsider".into(), "Outsider".into(), "other-key".into(), rooms(&["r"]), NOW);
    manager.stash("keyless".into(), "Keyless".into(), "".into(), rooms(&["r"]), NOW);
    let granted = rooms(&["granted-key", ""]);
    let got = manager.buffer_visible_room_event("private", Some("owner-key"), &granted, false, &event("invited-room", "x"), NOW);
    assert_eq!(got, rooms(&["granted"]));
}

#[test]
fn destroyed_room_cache_is_bounded_and_prunable() {
    let mut cache = DestroyedRoomCache::new();
    for index in 0..(MAX_DESTROYED_ROOMS + 8) {
        cache.insert(&format!("destroyed-{index}"), NOW + index as u64);
    }
    assert!(cache.len() <= MAX_DESTROYED_ROOMS);
    assert!(cache.contains(&format!("destroyed-{}", MAX_DESTROYED_ROOMS + 7), NOW + MAX_DESTROYED_ROOMS as u64 + 7));
    assert!(!cache.contains("destroyed-0", NOW + MAX_DESTROYED_ROOMS as u64 + 7));
    let later = NOW + MAX_DESTROYED_ROOMS as u64 + 8 + DESTROYED_ROOM_TTL_MS;
    let mut manager = ReconnectManager::new();
    manager.forget_room("gone", NOW);
    assert_eq!(manager.destroyed_room_count(NOW), 1);
    assert_eq!(manager.destroyed_room_count(later), 0);
}

#[test]
fn buffers_are_capped_and_expiry_drops_old_stashes() {
    let mut manager = ReconnectManager::new();
    manager.stash("a".into(), "A".into(), "k".into(), rooms(&["r"]), NOW);
    manager.stash("b".into(), "B".into(), "k".into(), rooms(&["r"]), NOW + 60_000);
    for i in 0..(MAX_BUFFERED_MESSAGES + 5) {
        manager.buffer_message("a", event("r", &format!("m{i}")), NOW);
    }
    manager.expire(NOW + RECONNECT_WINDOW_MS + 1);
    assert!(!manager.is_stashed("a"));
    assert!(manager.is_stashed("b"));
    let mut m2 = ReconnectManager::new();
    m2.stash("a".into(), "A".into(), "k".into(), rooms(&["r"]), NOW);
    for i in 0..(MAX_BUFFERED_MESSAGES + 5) {
        m2.buffer_message("a", event("r", &format!("m{i}")), NOW);
    }
    let a = m2.reclaim("a", "k", false, NOW).unwrap().unwrap();
    assert_eq!(a.missed_messages.len(), MAX_BUFFERED_MESSAGES);
    assert_eq!(m2.stashed_members_of_room("r"), Vec::<String>::new());
}

#[test]
fn rooms_forgotten_in_the_same_millisecond_are_all_remembered() {
    let mut manager = ReconnectManager::new();
    manager.forget_room("one", NOW);
    manager.forget_room("two", NOW);
    manager.stash("late".to_string(), "Late".to_string(), "k".to_string(), rooms(&["one", "two", "live"]), NOW);
    manager.buffer_message("late", event("two", "secret"), NOW);
    let stash = manager.reclaim("late", "k", false, NOW + 1).unwrap().unwrap();
    assert_eq!(stash.rooms, rooms(&["live"]));
    assert!(stash.missed_messages.is_empty());
}
