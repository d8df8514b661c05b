use cowchat_server::access::LEGACY_UNOWNED_OWNER_KEY;
use cowchat_server::room::{
    decode_owner_key, normalize_room_name, persisted_owner_key, plan_room_destroy, plan_room_rename, DestroyRoomError,
    RenameRoomError, Room, MAX_ROOM_NAME_CHARS,
};

fn room(room_id: &str, name: &str, created_by: Option<&str>, visibility: &str, owner_key: Option<&str>) -> Room {
    Room {
        room_id: room_id.to_string(),
        name: name.to_string(),
        description: None,
        parent_id: None,
        created_by: created_by.map(|c| c.to_string()),
        created_at_ms: 0,
        visibility: visibility.to_string(),
        owner_key: owner_key.map(|k| k.to_string()),
        last_activity_ms: None,
        member_count: None,
        encrypted: false,
    }
}

#[test]
fn room_name_validation_is_canonical_for_creation() {
    assert_eq!(normalize_room_name("  Project Room  ").unwrap(), "Project Room");
    for name in ["   ".to_string(), "bad\nname".to_string(), "🦀".repeat(MAX_ROOM_NAME_CHARS + 1)] {
        assert!(normalize_room_name(&name).is_err());
    }
    let longest_valid = "é".repeat(MAX_ROOM_NAME_CHARS);
    assert_eq!(normalize_room_name(&longest_valid).unwrap(), longest_valid);
    assert_eq!(normalize_room_name("   ").unwrap_err(), "Room name cannot be empty");
    assert_eq!(normalize_room_name("bad\nname").unwrap_err(), "Room name cannot contain control characters");
    assert_eq!(
        normalize_room_name(&"x".repeat(101)).unwrap_err(),
        "Room name cannot exceed 100 Unicode scalar values"
    );
}

#[test]
fn rename_room_is_creator_and_key_authorized_persistent_and_unique() {
    let target = room("target", "Old Name", Some("creator"), "private", Some("owner-key"));
    assert!(matches!(
        plan_room_rename(Some(target.clone()), "other", "owner-key", false, "New Name".into()),
        Err(RenameRoomError::AccessDenied)
    ));
    assert!(matches!(
        plan_room_rename(Some(target.clone()), "creator", "wrong-key", false, "New Name".into()),
        Err(RenameRoomError::AccessDenied)
    ));
    let lobby = room("lobby", "lobby", None, "public", None);
    assert!(matches!(
        plan_room_rename(Some(lobby), "creator", "owner-key", false, "New Lobby".into()),
        Err(RenameRoomError::ProtectedRoom)
    ));
    assert!(normalize_room_name("\n").is_err());
    let name = normalize_room_name("  New Name  ").unwrap();
    let (renamed, changed) = plan_room_rename(Some(target), "creator", "owner-key", false, name).unwrap();
    assert!(changed);
    assert_eq!(renamed.name, "New Name");
    assert!(matches!(plan_room_rename(None, "creator", "owner-key", false, "x".into()), Err(RenameRoomError::NotFound)));
}

#[test]
fn public_visibility_does_not_grant_room_mutation_authority() {
    let public_owned = room("public-owned", "Public Owned", Some("creator"), "public", Some("owner-key"));
    assert!(matches!(
        plan_room_rename(Some(public_owned.clone()), "creator", "other-key", false, "Denied".into()),
        Err(RenameRoomError::AccessDenied)
    ));
    assert!(matches!(
        plan_room_destroy(Some(public_owned), "creator", "other-key", false),
        Err(DestroyRoomError::AccessDenied)
    ));
}

#[test]
fn explicitly_keyless_rooms_use_a_durable_marker_and_remain_mutable() {
    let stored = persisted_owner_key(None);
    assert_eq!(stored, "");
    let owner = decode_owner_key(Some(stored));
    assert_eq!(owner, None);
    let keyless = room("keyless-room", "Keyless Room", Some("creator"), "private", None);
    assert!(matches!(
        plan_room_rename(Some(keyless.clone()), "creator", "authenticated-key", false, "Denied".into()),
        Err(RenameRoomError::AccessDenied)
    ));
    assert!(plan_room_rename(Some(keyless.clone()), "creator", "", false, "Renamed".into()).is_ok());
    assert!(plan_room_destroy(Some(keyless), "creator", "", false).is_ok());
}

#[test]
fn legacy_null_owner_room_cannot_be_claimed_by_keyless_creator_id() {
    let owner = decode_owner_key(None);
    assert_eq!(owner.as_deref(), Some(LEGACY_UNOWNED_OWNER_KEY));
    let legacy = room("legacy-private", "Legacy Private", Some("spoofable-id"), "private", owner.as_deref());
    assert!(matches!(
        plan_room_rename(Some(legacy.clone()), "spoofable-id", "", false, "Claimed".into()),
        Err(RenameRoomError::AccessDenied)
    ));
    assert!(matches!(
        plan_room_destroy(Some(legacy.clone()), "spoofable-id", "", false),
        Err(DestroyRoomError::AccessDenied)
    ));
    assert!(matches!(
        plan_room_destroy(Some(legacy), "spoofable-id", "", true),
        Err(DestroyRoomError::AccessDenied)
    ));
}

#[test]
fn owner_keys_round_trip_through_storage() {
    assert_eq!(decode_owner_key(Some(persisted_owner_key(Some("owner-key")))).as_deref(), Some("owner-key"));
    assert_eq!(decode_owner_key(Some(persisted_owner_key(None))), None);
}
