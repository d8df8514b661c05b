use cowchat_server::protocol::ErrorCode;
use cowchat_server::voting::{deadline_delay_ms, tally_vote, ElectionOutcome, VoteManager};

const NOW: i64 = 1_700_000_000_000;

fn vote_in(manager: &mut VoteManager, id: &str, room: &str, eligible: &[&str], duration: Option<u64>) {
    manager.create_vote(
        id.into(),
        room.into(),
        "Vote".into(),
        None,
        vec!["yes".into(), "no".into()],
        "creator".into(),
        duration,
        eligible.iter().map(|s| s.to_string()).collect(),
        NOW,
    );
}

#[test]
fn destroyed_room_coordination_state_is_removed() {
    let mut manager = VoteManager::new();
    vote_in(&mut manager, "vote", "doomed", &["creator"], None);
    manager.start_election("doomed", vec!["creator".into()], "creator").unwrap();
    manager.finish_election_with("doomed", false, 0);
    manager.start_election("doomed", vec!["creator".into()], "creator").unwrap();
    assert!(manager.get_leader("doomed").is_some());

    manager.forget_room("doomed");
    assert!(manager.get_vote("vote").is_none());
    assert!(matches!(manager.decline_election("doomed", "creator"), Err(ErrorCode::NoElectionActive)));
    assert!(manager.get_leader("doomed").is_none());
}

#[test]
fn ballots_are_checked_and_the_last_eligible_ballot_closes_the_vote() {
    let mut manager = VoteManager::new();
    vote_in(&mut manager, "v", "lobby", &["a", "b"], Some(60));
    assert_eq!(manager.get_vote("v").unwrap().closes_at_ms, Some(NOW + 60_000));
    assert!(matches!(manager.cast_vote("missing", "a", "A", 0), Err(ErrorCode::VoteNotFound)));
    assert!(matches!(manager.cast_vote("v", "a", "A", 99), Err(ErrorCode::InvalidOption)));
    assert!(matches!(manager.cast_vote("v", "outsider", "O", 0), Err(ErrorCode::AccessDenied)));
    let first = manager.cast_vote("v", "a", "A", 0).unwrap();
    assert_eq!((first.votes_cast, first.eligible), (1, 2));
    assert!(first.closed.is_none());
    assert!(matches!(manager.cast_vote("v", "a", "A", 1), Err(ErrorCode::AlreadyVoted)));
    let second = manager.cast_vote("v", "b", "B", 0).unwrap();
    assert_eq!((second.votes_cast, second.eligible), (2, 2));
    let closed = second.closed.expect("the last eligible ballot closes the vote");
    assert!(manager.get_vote("v").is_none());
    let tally = tally_vote(&closed);
    assert_eq!(tally.len(), 2);
    assert_eq!((tally[0].option_text.as_str(), tally[0].count), ("yes", 2));
    assert_eq!((tally[1].option_text.as_str(), tally[1].count), ("no", 0));
}

#[test]
fn invalid_option_does_not_consume_ballot() {
    let mut manager = VoteManager::new();
    vote_in(&mut manager, "v", "lobby", &["a", "b"], None);
    assert!(manager.cast_vote("v", "a", "A", 99).is_err());
    let ok = manager.cast_vote("v", "a", "A", 1).unwrap();
    assert_eq!(ok.votes_cast, 1);
}

#[test]
fn elections_pick_a_standing_candidate() {
    let mut manager = VoteManager::new();
    manager.start_election("lobby", vec!["a".into(), "b".into()], "a").unwrap();
    assert!(matches!(manager.start_election("lobby", vec![], "b"), Err(ErrorCode::ElectionInProgress)));
    manager.decline_election("lobby", "a").unwrap();
    assert_eq!(manager.standing_candidates("lobby"), vec!["b".to_string()]);
    match manager.finish_election("lobby", false) {
        ElectionOutcome::Elected(w) => assert_eq!(w, "b"),
        _ => panic!("b should be elected"),
    }
    assert!(manager.is_leader("lobby", "b"));
    assert!(!manager.is_leader("lobby", "a"));
    assert!(matches!(manager.finish_election("lobby", false), ElectionOutcome::NoElection));
}

#[test]
fn everyone_declining_elects_nobody_and_destroyed_rooms_lose_leaders() {
    let mut manager = VoteManager::new();
    manager.start_election("r", vec!["a".into()], "a").unwrap();
    manager.decline_election("r", "a").unwrap();
    assert!(matches!(manager.finish_election("r", false), ElectionOutcome::AllDeclined));
    assert!(manager.get_leader("r").is_none());
    manager.start_election("r", vec!["a".into()], "a").unwrap();
    manager.finish_election_with("r", false, 0);
    manager.start_election("r", vec!["a".into()], "a").unwrap();
    assert!(matches!(manager.finish_election("r", true), ElectionOutcome::RoomGone));
    assert!(manager.get_leader("r").is_none());
}

#[test]
fn leaders_are_cleared_per_agent() {
    let mut manager = VoteManager::new();
    for room in ["r1", "r2", "r3"] {
        let leader = if room == "r2" { "b" } else { "a" };
        manager.start_election(room, vec![leader.into()], leader).unwrap();
        manager.finish_election_with(room, false, 0);
    }
    let mut cleared = manager.clear_leader_if_agent("a");
    cleared.sort();
    assert_eq!(cleared, vec!["r1".to_string(), "r3".to_string()]);
    assert!(manager.get_leader("r1").is_none());
    assert_eq!(manager.get_leader("r2").as_deref(), Some("b"));
    assert!(manager.clear_leader("r2"));
    assert!(!manager.clear_leader("r2"));
}

#[test]
fn deadline_delay_is_never_negative() {
    assert_eq!(deadline_delay_ms(NOW + 5_000, NOW), 5_000);
    assert_eq!(deadline_delay_ms(NOW - 5_000, NOW), 0);
}
