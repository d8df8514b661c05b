use cowchat_server::broker::{Broker, JoinRoomError, MAX_ROOM_TOMBSTONES, ROOM_TOMBSTONE_TTL_MS};

const NOW: u64 = 10_000_000;

#[test]
fn lifecycle_tombstones_are_bounded_under_churn() {
    let mut broker = Broker::new();
    for index in 0..(MAX_ROOM_TOMBSTONES * 2) {
        broker.destroy_room(&format!("destroyed-{index}"), NOW);
    }
    assert!(broker.tombstone_count(NOW) <= MAX_ROOM_TOMBSTONES);
    assert_eq!(
        broker.join_room("late", "destroyed-0", false, NOW).unwrap_err(),
        JoinRoomError::Destroyed,
        "authoritative absence still rejects admission after cache eviction"
    );
}

#[test]
fn destroyed_room_rejects_joins_while_its_tombstone_is_fresh() {
    let mut broker = Broker::new();
    broker.join_room("a", "doomed", true, NOW).unwrap();
    let members = broker.destroy_room("doomed", NOW);
    assert_eq!(members, vec!["a".to_string()]);
    assert!(broker.is_room_destroyed("doomed", NOW + 1));
    // Even if the store still reports the room, the tombstone wins.
    assert_eq!(broker.join_room("late", "doomed", true, NOW + 1).unwrap_err(), JoinRoomError::Destroyed);
    assert!(broker.get_room_members("doomed").is_empty());
    // After the tombstone expires only the store's answer decides.
    assert!(!broker.is_room_destroyed("doomed", NOW + ROOM_TOMBSTONE_TTL_MS));
    assert!(broker.join_room("late", "doomed", true, NOW + ROOM_TOMBSTONE_TTL_MS).is_ok());
}

#[test]
fn turn_token_goes_to_first_joiner_and_passes_round_robin() {
    let mut broker = Broker::new();
    let first = broker.join_room("a", "lobby", true, NOW).unwrap();
    assert_eq!(first.new_holder.as_deref(), Some("a"));
    let second = broker.join_room("b", "lobby", true, NOW).unwrap();
    assert!(second.new_holder.is_none());
    broker.join_room("c", "lobby", true, NOW).unwrap();
    assert_eq!(broker.turn_holder("lobby").as_deref(), Some("a"));
    assert_eq!(broker.advance_turn_from("lobby", "a").as_deref(), Some("b"));
    assert_eq!(broker.advance_turn_from("lobby", "b").as_deref(), Some("c"));
    assert_eq!(broker.advance_turn_from("lobby", "c").as_deref(), Some("a"));
    // The token is advisory: whoever speaks passes it to the member after them.
    assert_eq!(broker.advance_turn_from("lobby", "b").as_deref(), Some("c"));
    assert_eq!(broker.turn_holder("lobby").as_deref(), Some("c"));
    // A sender no longer listed passes it to the first member.
    assert_eq!(broker.advance_turn_from("lobby", "gone").as_deref(), Some("a"));
    assert_eq!(broker.advance_turn_from("empty-room", "a"), None);
}

#[test]
fn leaving_holder_passes_the_turn_and_empty_room_has_no_holder() {
    let mut broker = Broker::new();
    broker.join_room("a", "lobby", true, NOW).unwrap();
    broker.join_room("b", "lobby", true, NOW).unwrap();
    let out = broker.leave_room("a", "lobby", NOW);
    assert!(out.holder_changed);
    assert!(!out.now_empty);
    assert_eq!(out.new_holder.as_deref(), Some("b"));
    let out = broker.leave_room("b", "lobby", NOW);
    assert!(out.holder_changed);
    assert!(out.now_empty);
    assert_eq!(broker.turn_holder("lobby"), None);
}

#[test]
fn joining_twice_lists_the_agent_once() {
    let mut broker = Broker::new();
    broker.join_room("a", "lobby", true, NOW).unwrap();
    broker.join_room("a", "lobby", true, NOW).unwrap();
    assert_eq!(broker.get_room_members("lobby"), vec!["a".to_string()]);
    assert_eq!(broker.rooms_for_agent("a"), vec!["lobby".to_string()]);
}

#[test]
fn broadcasts_skip_the_sender_and_mentions_stay_in_the_room() {
    let mut broker = Broker::new();
    broker.join_room("a", "lobby", true, NOW).unwrap();
    broker.join_room("b", "lobby", true, NOW).unwrap();
    broker.join_room("c", "other-room", true, NOW).unwrap();
    assert_eq!(broker.broadcast_recipients("lobby", "a"), vec!["b".to_string()]);
    let mentions = vec!["c".to_string(), "b".to_string()];
    assert_eq!(broker.mention_recipients(&mentions, "lobby"), vec!["b".to_string()]);
}

#[test]
fn missing_room_cannot_be_joined() {
    let mut broker = Broker::new();
    assert_eq!(broker.join_room("a", "nowhere", false, NOW).unwrap_err(), JoinRoomError::Destroyed);
    assert!(broker.rooms_for_agent("a").is_empty());
}

#[test]
fn failed_persistent_destroy_changes_nothing() {
    let mut broker = Broker::new();
    broker.join_room("member", "persistent", true, NOW).unwrap();
    let failed: Result<(), String> = Err("disk full".to_string());
    let r = broker.destroy_room_with("persistent", failed, NOW);
    assert_eq!(r.unwrap_err(), "disk full");
    assert_eq!(broker.get_room_members("persistent"), vec!["member".to_string()]);
    assert!(!broker.is_room_destroyed("persistent", NOW));
    let ok: Result<u32, String> = Ok(7);
    let (value, members) = broker.destroy_room_with("persistent", ok, NOW).unwrap();
    assert_eq!(value, 7);
    assert_eq!(members, vec!["member".to_string()]);
    assert!(broker.is_room_destroyed("persistent", NOW));
}

#[test]
fn leave_all_rooms_reports_each_room() {
    let mut broker = Broker::new();
    broker.join_room("a", "r1", true, NOW).unwrap();
    broker.join_room("a", "r2", true, NOW).unwrap();
    broker.join_room("b", "r2", true, NOW).unwrap();
    let outcomes = broker.leave_all_rooms("a", NOW);
    assert_eq!(outcomes.len(), 2);
    assert!(broker.rooms_for_agent("a").is_empty());
    assert_eq!(broker.turn_holder("r2").as_deref(), Some("b"));
}

#[test]
fn destroys_in_the_same_millisecond_each_leave_a_tombstone() {
    let mut broker = Broker::new();
    broker.join_room("a", "first", true, NOW).unwrap();
    broker.destroy_room("first", NOW);
    broker.destroy_room("second", NOW);
    // A clock that stepped back does not lose the newer destruction either.
    broker.destroy_room("third", NOW - 5);
    for room in ["first", "second", "third"] {
        assert!(broker.is_room_destroyed(room, NOW), "{room} must stay tombstoned");
        assert!(matches!(broker.join_room("a", room, true, NOW), Err(JoinRoomError::Destroyed)));
    }
}
