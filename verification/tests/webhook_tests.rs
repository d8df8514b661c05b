use cowchat_server::webhooks::{
    check_webhook_target, delivery_step, idle_sleep_ms, is_public_ip, matches_filter, matching_subscriptions,
    retry_delay_secs, sign_request, DeliveryAction, DeliveryEvent, DeliveryStage, IpAddress, Lookup, MessageFacts,
    PendingDelivery, SubscriptionFilter, TargetError, UrlParts,
};

#[test]
fn signature_is_stable_and_verifies() {
    let s1 = sign_request("topsecret", "wh_123", 1700000000, r#"{"a":1}"#);
    let s2 = sign_request("topsecret", "wh_123", 1700000000, r#"{"a":1}"#);
    assert_eq!(s1, s2);
    assert!(s1.starts_with("v1,"));
    // Different inputs → different sig.
    let s3 = sign_request("topsecret", "wh_124", 1700000000, r#"{"a":1}"#);
    assert_ne!(s1, s3);
}

#[test]
fn signature_matches_the_standard_webhooks_scheme() {
    assert_eq!(
        sign_request("topsecret", "wh_123", 1700000000, r#"{"a":1}"#),
        "v1,Rb1bwB60aU4nItmoOHbrIVlTuITBpmPKm13t4bf6E/o="
    );
    // Negative timestamps are written with a minus sign.
    assert_eq!(sign_request("k", "wh_1", -5, "x"), "v1,qXNctcyGxtAgqJrfiyz8jg7NwECPbUtHPzIOaw9pnSc=");
}

fn sub_base() -> SubscriptionFilter {
    SubscriptionFilter { last_delivered_seq: 0, exclude_thinking: false, kinds: vec![], only_from: None, not_from: None }
}

fn msg(meta_type: Option<&str>, meta_kind: Option<&str>) -> MessageFacts {
    MessageFacts {
        seq: 5,
        agent_name: "alice".into(),
        meta_type: meta_type.map(|s| s.to_string()),
        meta_kind: meta_kind.map(|s| s.to_string()),
    }
}

#[test]
fn matches_filter_kind_and_from() {
    let msg = msg(None, Some("verdict"));
    // No filters → match.
    assert!(matches_filter(&sub_base(), &msg));
    // Kind matches: pass.
    let s = SubscriptionFilter { kinds: vec!["verdict".into()], ..sub_base() };
    assert!(matches_filter(&s, &msg));
    // Kind doesn't match: skip.
    let s = SubscriptionFilter { kinds: vec!["review_request".into()], ..sub_base() };
    assert!(!matches_filter(&s, &msg));
    // only_from matches: pass.
    let s = SubscriptionFilter { only_from: Some("alice".into()), ..sub_base() };
    assert!(matches_filter(&s, &msg));
    // only_from doesn't: skip.
    let s = SubscriptionFilter { only_from: Some("bob".into()), ..sub_base() };
    assert!(!matches_filter(&s, &msg));
    // not_from skip.
    let s = SubscriptionFilter { not_from: Some("alice".into()), ..sub_base() };
    assert!(!matches_filter(&s, &msg));
    // last_delivered_seq advances past us: skip.
    let s = SubscriptionFilter { last_delivered_seq: 5, ..sub_base() };
    assert!(!matches_filter(&s, &msg));
    // System message excluded always.
    let sys_msg = MessageFacts { meta_type: Some("system".into()), meta_kind: None, ..msg };
    assert!(!matches_filter(&sub_base(), &sys_msg));
    // Thinking pulse excluded only when exclude_thinking is set.
    let think_msg = MessageFacts { meta_type: Some("thinking".into()), ..sys_msg };
    assert!(matches_filter(&sub_base(), &think_msg));
    let s = SubscriptionFilter { exclude_thinking: true, ..sub_base() };
    assert!(!matches_filter(&s, &think_msg));
}

#[test]
fn only_matching_subscriptions_get_a_delivery() {
    let subs = vec![
        SubscriptionFilter { kinds: vec!["verdict".into()], ..sub_base() },
        SubscriptionFilter { kinds: vec!["checkpoint".into()], ..sub_base() },
        sub_base(),
    ];
    assert_eq!(matching_subscriptions(&subs, &msg(None, Some("verdict"))), vec![0, 2]);
    assert_eq!(matching_subscriptions(&subs, &msg(Some("system"), Some("verdict"))), Vec::<usize>::new());
}

#[test]
fn public_addresses_exclude_local_private_and_reserved_ranges() {
    assert!(!is_public_ip(IpAddress::V4(127, 0, 0, 1)));
    assert!(!is_public_ip(IpAddress::V4(10, 1, 2, 3)));
    assert!(!is_public_ip(IpAddress::V4(172, 16, 0, 1)));
    assert!(!is_public_ip(IpAddress::V4(192, 168, 1, 1)));
    assert!(!is_public_ip(IpAddress::V4(169, 254, 169, 254)));
    assert!(!is_public_ip(IpAddress::V4(100, 64, 0, 1)));
    assert!(!is_public_ip(IpAddress::V4(198, 18, 0, 1)));
    assert!(!is_public_ip(IpAddress::V4(0, 1, 2, 3)));
    assert!(!is_public_ip(IpAddress::V4(224, 0, 0, 1)));
    assert!(!is_public_ip(IpAddress::V4(255, 255, 255, 255)));
    assert!(is_public_ip(IpAddress::V4(93, 184, 216, 34)));
    assert!(is_public_ip(IpAddress::V4(172, 32, 0, 1)));
    assert!(!is_public_ip(IpAddress::V6(0, 0, 0, 0, 0, 0, 0, 1)));
    assert!(!is_public_ip(IpAddress::V6(0, 0, 0, 0, 0, 0, 0, 0)));
    assert!(!is_public_ip(IpAddress::V6(0xfc00, 0, 0, 0, 0, 0, 0, 1)));
    assert!(!is_public_ip(IpAddress::V6(0xfe80, 0, 0, 0, 0, 0, 0, 1)));
    assert!(!is_public_ip(IpAddress::V6(0xff02, 0, 0, 0, 0, 0, 0, 1)));
    // ::ffff:127.0.0.1
    assert!(!is_public_ip(IpAddress::V6(0, 0, 0, 0, 0, 0xffff, 0x7f00, 0x0001)));
    // ::ffff:93.184.216.34
    assert!(is_public_ip(IpAddress::V6(0, 0, 0, 0, 0, 0xffff, 0x5db8, 0xd822)));
    assert!(is_public_ip(IpAddress::V6(0x2606, 0x2800, 0x220, 1, 0x248, 0x1893, 0x25c8, 0x1946)));
}

fn url(scheme: &str, host: Option<&str>) -> UrlParts {
    UrlParts {
        scheme: scheme.to_string(),
        has_username: false,
        has_password: false,
        host: host.map(|h| h.to_string()),
        port: Some(80),
    }
}

#[test]
fn webhook_url_rejects_local_and_metadata_targets() {
    let public = vec![IpAddress::V4(93, 184, 216, 34)];
    assert_eq!(check_webhook_target(&url("http", Some("127.0.0.1")), false, &vec![IpAddress::V4(127, 0, 0, 1)]), Err(TargetError::NotPublic));
    assert_eq!(check_webhook_target(&url("http", Some("[::1]")), false, &vec![IpAddress::V6(0, 0, 0, 0, 0, 0, 0, 1)]), Err(TargetError::NotPublic));
    assert_eq!(
        check_webhook_target(&url("http", Some("169.254.169.254")), false, &vec![IpAddress::V4(169, 254, 169, 254)]),
        Err(TargetError::NotPublic)
    );
    assert_eq!(check_webhook_target(&url("ftp", Some("example.com")), false, &public), Err(TargetError::NotHttp));
    assert_eq!(check_webhook_target(&url("https", Some("example.com")), false, &public), Ok(()));
    assert_eq!(check_webhook_target(&url("https", Some("LocalHost")), false, &public), Err(TargetError::Localhost));
    assert_eq!(check_webhook_target(&url("https", Some("api.localhost")), false, &public), Err(TargetError::Localhost));
    assert_eq!(check_webhook_target(&url("https", Some("localhost.example")), false, &public), Ok(()));
    assert_eq!(check_webhook_target(&url("https", Some("localhost")), true, &vec![IpAddress::V4(127, 0, 0, 1)]), Ok(()));
    assert_eq!(check_webhook_target(&url("https", Some("example.com")), true, &vec![]), Err(TargetError::NotPublic));
    let creds = UrlParts { has_username: true, ..url("https", Some("example.com")) };
    assert_eq!(check_webhook_target(&creds, false, &public), Err(TargetError::Credentials));
    assert_eq!(check_webhook_target(&url("https", None), false, &public), Err(TargetError::NoHost));
    let no_port = UrlParts { port: None, ..url("https", Some("example.com")) };
    assert_eq!(check_webhook_target(&no_port, false, &public), Err(TargetError::NoPort));
    assert_eq!(TargetError::NotHttp.message(), "webhook_url must be http(s)");
}

fn pending(attempts: i64) -> PendingDelivery {
    PendingDelivery {
        delivery_id: "d".into(),
        subscription_id: "s".into(),
        message_seq: 42,
        message_id: "m".into(),
        attempts,
    }
}

#[test]
fn delivery_walks_lookup_connect_send() {
    let d = pending(0);
    let (stage, action) = delivery_step(DeliveryStage::LoadSubscription, DeliveryEvent::Subscription(Lookup::Found, true), &d, 0);
    assert_eq!(stage, DeliveryStage::LoadMessage);
    assert!(matches!(action, DeliveryAction::LoadMessage));
    let (stage, action) = delivery_step(stage, DeliveryEvent::Message(Lookup::Found), &d, 0);
    assert_eq!(stage, DeliveryStage::Connect);
    assert!(matches!(action, DeliveryAction::Connect));
    let (stage, action) = delivery_step(stage, DeliveryEvent::Connected(true), &d, 0);
    assert_eq!(stage, DeliveryStage::Send);
    assert!(matches!(action, DeliveryAction::Send));
    let (stage, action) = delivery_step(stage, DeliveryEvent::Sent(Ok(())), &d, 0);
    assert_eq!(stage, DeliveryStage::Finished);
    assert!(matches!(action, DeliveryAction::Delivered { advance_to: 42 }));
}

#[test]
fn deleted_or_paused_subscription_drops_the_delivery() {
    let d = pending(0);
    let (_, a) = delivery_step(DeliveryStage::LoadSubscription, DeliveryEvent::Subscription(Lookup::Missing, false), &d, 0);
    assert!(matches!(a, DeliveryAction::DropDelivery));
    let (_, a) = delivery_step(DeliveryStage::LoadSubscription, DeliveryEvent::Subscription(Lookup::Found, false), &d, 0);
    assert!(matches!(a, DeliveryAction::DropDelivery));
    let (_, a) = delivery_step(DeliveryStage::LoadSubscription, DeliveryEvent::Subscription(Lookup::Failed, true), &d, 0);
    assert!(matches!(a, DeliveryAction::Abandon));
    let (_, a) = delivery_step(DeliveryStage::LoadMessage, DeliveryEvent::Message(Lookup::Missing), &d, 0);
    assert!(matches!(a, DeliveryAction::DropDelivery));
    let (_, a) = delivery_step(DeliveryStage::Connect, DeliveryEvent::Connected(false), &pending(2), 0);
    assert!(matches!(a, DeliveryAction::BlockSubscription { attempts: 3 }));
}

#[test]
fn failures_retry_on_schedule_then_give_up() {
    assert_eq!(retry_delay_secs(0), Some(1));
    assert_eq!(retry_delay_secs(4), Some(256));
    assert_eq!(retry_delay_secs(5), None);
    let (_, a) = delivery_step(DeliveryStage::Send, DeliveryEvent::Sent(Err("HTTP 500".into())), &pending(0), 1000);
    match a {
        DeliveryAction::Retry { next_attempt_ms, attempts, error } => {
            assert_eq!(next_attempt_ms, 2000);
            assert_eq!(attempts, 1);
            assert_eq!(error, "HTTP 500");
        }
        _ => panic!("expected a retry"),
    }
    let (_, a) = delivery_step(DeliveryStage::Send, DeliveryEvent::Sent(Err("HTTP 302".into())), &pending(3), 1000);
    assert!(matches!(a, DeliveryAction::Retry { next_attempt_ms: 65_000, attempts: 4, .. }));
    // The fifth failure, as many as the schedule is long, marks the subscription failed.
    let (_, a) = delivery_step(DeliveryStage::Send, DeliveryEvent::Sent(Err("HTTP 500".into())), &pending(4), 1000);
    assert!(matches!(a, DeliveryAction::GiveUp { attempts: 5 }));
    let (_, a) = delivery_step(DeliveryStage::Send, DeliveryEvent::Sent(Err("HTTP 500".into())), &pending(5), 1000);
    assert!(matches!(a, DeliveryAction::GiveUp { attempts: 6 }));
    // An event that does not fit the stage stops the attempt.
    let (s, a) = delivery_step(DeliveryStage::Send, DeliveryEvent::Connected(true), &pending(0), 0);
    assert_eq!(s, DeliveryStage::Finished);
    assert!(matches!(a, DeliveryAction::Abandon));
}

#[test]
fn idle_worker_sleeps_until_next_retry_at_most_a_minute() {
    assert_eq!(idle_sleep_ms(None, 0), 60_000);
    assert_eq!(idle_sleep_ms(Some(500), 0), 500);
    assert_eq!(idle_sleep_ms(Some(-10), 0), 0);
    assert_eq!(idle_sleep_ms(Some(10_000_000), 0), 60_000);
}
