use cowchat_server::http_rules::{
    admit_signup, asset_path, begin_redeem, invite_key_label, last_forwarded_hop, origin_allowed, redeem_invite_state,
    revoke_invite_state, signup_bucket, InviteMeta, RedeemRefusal, SignupRefusal,
};
use cowchat_server::auth::hash_invite_token;
use cowchat_server::rate_limit::{RateLimiter, SIGNUP_MAX_PER_WINDOW};
use cowchat_server::webhooks::IpAddress;

const NOW: u64 = 2_000_000;

#[test]
fn browser_origin_must_be_explicitly_allowed() {
    let origin = Some("https://evil.example");
    assert!(!origin_allowed(origin, &vec!["https://cowchat.example".into()]));
    assert!(origin_allowed(origin, &vec!["https://evil.example".into()]));
    // Non-browser clients send no origin.
    assert!(origin_allowed(None, &vec![]));
}

#[test]
fn peer_ip_is_default_and_xff_requires_an_explicit_trusted_proxy() {
    let header = "203.0.113.10, 198.51.100.20";
    let hop = last_forwarded_hop(header);
    assert_eq!(hop, "198.51.100.20");
    let forwarded = Some(IpAddress::V4(198, 51, 100, 20));
    let direct_a = IpAddress::V4(192, 0, 2, 10);
    let direct_b = IpAddress::V4(192, 0, 2, 11);
    assert_eq!(signup_bucket(direct_a, forwarded, &vec![]), direct_a);
    assert_eq!(signup_bucket(direct_b, forwarded, &vec![]), direct_b);
    assert_eq!(
        signup_bucket(direct_a, forwarded, &vec![IpAddress::V4(192, 0, 2, 99)]),
        direct_a,
        "an untrusted direct peer must not spoof XFF even when proxies are configured"
    );
    assert_eq!(signup_bucket(direct_a, forwarded, &vec![direct_a]), IpAddress::V4(198, 51, 100, 20));
    // A trusted proxy with an unparseable hop counts against itself.
    assert_eq!(signup_bucket(direct_a, None, &vec![direct_a]), direct_a);
}

#[test]
fn forwarded_hop_is_trimmed_text_after_the_last_comma() {
    assert_eq!(last_forwarded_hop("1.1.1.1"), "1.1.1.1");
    assert_eq!(last_forwarded_hop("  a ,  b  "), "b");
    assert_eq!(last_forwarded_hop("a,"), "");
}

#[test]
fn signup_requires_explicit_mode_and_admin_secret_when_configured() {
    let mut rl = RateLimiter::new();
    assert_eq!(admit_signup(&mut rl, false, None, None, "127.0.0.1", NOW), Err(SignupRefusal::Disabled));
    assert_eq!(
        admit_signup(&mut rl, true, Some("admin-secret"), None, "127.0.0.1", NOW),
        Err(SignupRefusal::AdminSecretRequired)
    );
    assert_eq!(
        admit_signup(&mut rl, true, Some("admin-secret"), Some("wrong"), "127.0.0.1", NOW),
        Err(SignupRefusal::AdminSecretRequired)
    );
    assert_eq!(admit_signup(&mut rl, true, Some("admin-secret"), Some("admin-secret"), "127.0.0.1", NOW), Ok(()));
}

#[test]
fn signup_without_admin_secret_is_open_and_rate_limited() {
    let mut rl = RateLimiter::new();
    for _ in 0..SIGNUP_MAX_PER_WINDOW {
        assert_eq!(admit_signup(&mut rl, true, None, Some("ignored"), "127.0.0.1", NOW), Ok(()));
    }
    assert_eq!(admit_signup(&mut rl, true, None, None, "127.0.0.1", NOW), Err(SignupRefusal::RateLimited));
}

#[test]
fn invite_redeem_needs_a_token_and_counts_against_the_address() {
    let mut rl = RateLimiter::new();
    assert_eq!(begin_redeem(&mut rl, "127.0.0.1", None, NOW), Err(RedeemRefusal::TokenRequired));
    assert_eq!(begin_redeem(&mut rl, "127.0.0.1", Some(""), NOW), Err(RedeemRefusal::TokenRequired));
    assert_eq!(begin_redeem(&mut rl, "127.0.0.1", Some("cinv_wrong"), NOW), Ok(hash_invite_token("cinv_wrong")));
    for _ in 3..SIGNUP_MAX_PER_WINDOW {
        assert!(begin_redeem(&mut rl, "127.0.0.1", Some("token"), NOW).is_ok());
    }
    assert_eq!(begin_redeem(&mut rl, "127.0.0.1", Some("token"), NOW), Err(RedeemRefusal::RateLimited));
    assert_eq!(invite_key_label("Invited Room"), "invite:Invited Room");
}

fn invite(single_use: bool) -> InviteMeta {
    InviteMeta {
        room_id: "open-room".to_string(),
        created_by_key: "owner-key".to_string(),
        single_use,
        redeemed_count: 0,
        revoked: false,
    }
}

#[test]
fn test_open_invite_redeems_repeatedly_until_revoked() {
    let open = invite(false);
    let once = redeem_invite_state(&open).expect("open invite redeems");
    assert_eq!(once.room_id, "open-room");
    let twice = redeem_invite_state(&once).expect("open invite redeems again");
    assert_eq!(twice.room_id, "open-room");
    let revoked = revoke_invite_state(&twice);
    assert!(redeem_invite_state(&revoked).is_none());
    assert_eq!(revoked.redeemed_count, 2);
}

#[test]
fn single_use_invite_has_exactly_one_winner() {
    let single = invite(true);
    let won = redeem_invite_state(&single).expect("first redemption wins");
    assert!(won.revoked);
    assert_eq!(won.redeemed_count, 1);
    assert!(redeem_invite_state(&won).is_none());
}

#[test]
fn assets_default_to_the_index() {
    assert_eq!(asset_path("/"), "index.html");
    assert_eq!(asset_path(""), "index.html");
    assert_eq!(asset_path("//app.js"), "app.js");
    assert_eq!(asset_path("/css/site.css"), "css/site.css");
}
