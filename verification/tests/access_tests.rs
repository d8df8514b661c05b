use cowchat_server::access::{can_access_room, can_access_room_parts, matches_room_owner, LEGACY_UNOWNED_OWNER_KEY};
use cowchat_server::grants::GrantCache;
use cowchat_server::room::Room;

#[test]
fn private_room_access_separates_keyless_and_api_key_owners() {
    assert!(can_access_room_parts("private", None, "", false));
    assert!(!can_access_room_parts("private", Some("owner-key"), "", false));
    assert!(!can_access_room_parts("private", None, "owner-key", false));
    assert!(can_access_room_parts("private", Some("owner-key"), "owner-key", false));
    assert!(can_access_room_parts("private", Some("owner-key"), "other-key", true));
    assert!(can_access_room_parts("public", Some("owner-key"), "other-key", false));
    assert!(!matches_room_owner(Some("owner-key"), "other-key", false));
    assert!(!matches_room_owner(Some(LEGACY_UNOWNED_OWNER_KEY), LEGACY_UNOWNED_OWNER_KEY, false));
    assert!(!matches_room_owner(Some(LEGACY_UNOWNED_OWNER_KEY), "", false));
    assert!(!matches_room_owner(Some(LEGACY_UNOWNED_OWNER_KEY), "", true));
}

fn private_room(room_id: &str, owner_key: Option<&str>) -> Room {
    Room {
        room_id: room_id.to_string(),
        name: room_id.to_string(),
        description: None,
        parent_id: None,
        created_by: Some("creator".to_string()),
        created_at_ms: 0,
        visibility: "private".to_string(),
        owner_key: owner_key.map(|k| k.to_string()),
        last_activity_ms: None,
        member_count: None,
        encrypted: false,
    }
}

#[test]
fn invite_grant_opens_a_private_room_to_a_nonempty_key_only() {
    let room = private_room("invited-room", Some("owner-key"));
    let mut grants = GrantCache::new();
    assert!(!can_access_room(&room, "granted-key", false, &grants));
    grants.add("granted-key", "invited-room");
    assert!(can_access_room(&room, "granted-key", false, &grants));
    assert!(can_access_room(&room, "owner-key", false, &grants));
    assert!(!can_access_room(&room, "other-key", false, &grants));
    grants.add("", "invited-room");
    assert!(!can_access_room(&room, "", false, &grants));
}

#[test]
fn legacy_owner_marker_authorizes_nobody_even_without_auth() {
    let room = private_room("legacy", Some(LEGACY_UNOWNED_OWNER_KEY));
    let grants = GrantCache::new();
    assert!(!can_access_room(&room, LEGACY_UNOWNED_OWNER_KEY, false, &grants));
    assert!(!can_access_room(&room, "", false, &grants));
    // Turning authentication off opens rooms, not ownership.
    assert!(can_access_room(&room, "", true, &grants));
    assert!(!matches_room_owner(Some(LEGACY_UNOWNED_OWNER_KEY), "any", true));
}

#[test]
fn grants_purged_with_their_room() {
    let mut grants = GrantCache::new();
    grants.add("k1", "room-a");
    grants.add("k2", "room-a");
    grants.add("k1", "room-b");
    let mut keys = grants.granted_keys_for_room("room-a");
    keys.sort();
    assert_eq!(keys, vec!["k1".to_string(), "k2".to_string()]);
    grants.purge_room("room-a");
    assert!(!grants.key_has_grant("k1", "room-a"));
    assert!(!grants.key_has_grant("k2", "room-a"));
    assert!(grants.key_has_grant("k1", "room-b"));
    assert!(grants.granted_keys_for_room("room-a").is_empty());
}
