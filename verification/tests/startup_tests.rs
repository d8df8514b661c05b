use cowchat_server::startup::{
    bind_step, plan_history_query, retention_modifier, retention_purges, still_owns_socket, BindAction, BindEvent,
    BindOutcome, BindStage, ConnectProbe, HistoryQuery, PathProbe, SocketId,
};

fn sock(inode: u64) -> SocketId {
    SocketId { is_socket: true, device: 1, inode }
}

#[test]
fn live_unix_socket_is_preserved() {
    let (s, a) = bind_step(BindStage::Probe, BindEvent::Path(PathProbe::Present(sock(7))));
    assert_eq!((s, a), (BindStage::Connect(sock(7)), BindAction::TryConnect));
    let (s, a) = bind_step(s, BindEvent::Connected(ConnectProbe::Accepting));
    assert_eq!((s, a), (BindStage::Failed, BindAction::ReportInUse));
}

#[test]
fn non_socket_path_is_preserved() {
    let file = SocketId { is_socket: false, device: 1, inode: 9 };
    let (s, a) = bind_step(BindStage::Probe, BindEvent::Path(PathProbe::Present(file)));
    assert_eq!((s, a), (BindStage::Failed, BindAction::ReportNotSocket));
}

#[test]
fn stale_socket_is_replaced_only_if_unchanged() {
    let (s, _) = bind_step(BindStage::Probe, BindEvent::Path(PathProbe::Present(sock(7))));
    let (s, a) = bind_step(s, BindEvent::Connected(ConnectProbe::Refused));
    assert_eq!((s, a), (BindStage::Recheck(sock(7)), BindAction::RecheckPath));
    // Replaced meanwhile: look again instead of removing.
    let (s2, a2) = bind_step(s, BindEvent::Path(PathProbe::Present(sock(8))));
    assert_eq!((s2, a2), (BindStage::Probe, BindAction::ProbePath));
    let (s, a) = bind_step(s, BindEvent::Path(PathProbe::Present(sock(7))));
    assert_eq!((s, a), (BindStage::Bind, BindAction::RemoveStale));
    let (s, a) = bind_step(s, BindEvent::Bound(BindOutcome::Bound));
    assert_eq!((s, a), (BindStage::Done, BindAction::Finish));
    // A bind race sends us back to look again.
    assert_eq!(bind_step(BindStage::Bind, BindEvent::Bound(BindOutcome::AddrInUse)), (BindStage::Probe, BindAction::ProbePath));
}

#[test]
fn dropping_server_does_not_unlink_a_replacement_socket() {
    assert!(still_owns_socket(sock(7), PathProbe::Present(sock(7))));
    assert!(!still_owns_socket(sock(7), PathProbe::Present(sock(8))));
    assert!(!still_owns_socket(sock(7), PathProbe::Absent));
}

#[test]
fn retention_purge_plan_follows_the_tiers() {
    let plan = retention_purges();
    assert_eq!(plan, vec![("free".to_string(), 14), ("pro".to_string(), 90)]);
    assert_eq!(retention_modifier(14), "-14 days");
    assert_eq!(retention_modifier(0), "-0 days");
}

#[test]
fn history_query_prefers_sequence_then_message_then_time() {
    assert!(matches!(plan_history_query(Some(5), Some("m".into()), Some(1)), (HistoryQuery::SinceSeq(5), false)));
    match plan_history_query(None, Some("m".into()), Some(1)) {
        (HistoryQuery::SinceMessage(m), false) => assert_eq!(m, "m"),
        _ => panic!("expected since-message"),
    }
    assert!(matches!(plan_history_query(None, None, Some(1)), (HistoryQuery::Before(1), true)));
    assert!(matches!(plan_history_query(None, None, None), (HistoryQuery::Latest, true)));
}
