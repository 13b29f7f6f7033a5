use tango_bridge::ice::{
    parse_force_relay, rtc_config_handler, to_webrtc_config, Cloudflare, CloudflarePlan, CloudflareReply,
    IceSettings, RtcIceConfigResponse, RtcIceServerConfig, RtcIceService,
};

fn unset() -> IceSettings {
    IceSettings { turn_enabled: None, ttl: None, refresh_skew: None, stun_urls: None, app_id: None, api_token: None }
}

fn text(s: &str) -> Option<String> {
    Some(s.to_string())
}

fn enabled() -> RtcIceService {
    RtcIceService::from_env(IceSettings {
        turn_enabled: text("1"),
        app_id: text("app"),
        api_token: text("token"),
        ..unset()
    })
}

fn answer() -> RtcIceConfigResponse {
    RtcIceConfigResponse {
        ice_servers: vec![RtcIceServerConfig {
            urls: vec!["turn:a".to_string(), "turn:b".to_string()],
            username: text("user"),
            credential: None,
        }],
        ice_transport_policy: "whatever".to_string(),
        source: None,
        turn_enabled: false,
        cf_app_id_configured: false,
        cf_api_token_configured: false,
        error: text("old"),
    }
}

fn is_answer(config: &RtcIceConfigResponse) -> bool {
    config.ice_servers.len() == 1
        && config.ice_servers[0].urls == vec!["turn:a".to_string(), "turn:b".to_string()]
        && config.ice_servers[0].username == text("user")
        && config.ice_servers[0].credential.is_none()
}

#[test]
fn yes_has_five_spellings() {
    for word in ["1", "true", "TRUE", "yes", "YES"] {
        assert!(parse_force_relay(Some(word)));
    }
    for word in ["", "0", "True", "Yes", "on", "yes ", "11"] {
        assert!(!parse_force_relay(Some(word)));
    }
    assert!(!parse_force_relay(None));
}

#[test]
fn settings_have_defaults() {
    let service = RtcIceService::from_env(unset());
    assert!(!service.turn_enabled);
    assert_eq!((service.ttl, service.refresh_skew), (86_400, 300));
    assert_eq!(
        service.fallback_stun_urls,
        vec!["stun:stun.cloudflare.com:3478".to_string(), "stun:stun.cloudflare.com:53".to_string()]
    );
    assert!(service.cf_app_id.is_none() && service.cf_api_token.is_none() && service.cache.is_none());
}

#[test]
fn settings_are_read() {
    let service = RtcIceService::from_env(IceSettings {
        turn_enabled: text("yes"),
        ttl: text("+0120"),
        refresh_skew: text("18446744073709551615"),
        stun_urls: text(" stun:a ,, \t,stun:b c\u{a0},"),
        app_id: text(" "),
        api_token: text(""),
    });
    assert!(service.turn_enabled);
    assert_eq!((service.ttl, service.refresh_skew), (120, u64::MAX));
    assert_eq!(service.fallback_stun_urls, vec!["stun:a".to_string(), "stun:b c".to_string()]);
    assert_eq!(service.cf_app_id, text(" "));
    assert_eq!(service.cf_api_token, None);
}

#[test]
fn bad_numbers_leave_the_defaults() {
    for bad in ["", "+", "-1", "1.5", " 1", "18446744073709551616", "1e3", "0x10", "++1"] {
        let service = RtcIceService::from_env(IceSettings { ttl: text(bad), refresh_skew: text(bad), ..unset() });
        assert_eq!((service.ttl, service.refresh_skew), (86_400, 300), "{}", bad);
    }
}

#[test]
fn cloudflare_is_not_asked_without_turn() {
    let mut service = enabled();
    service.turn_enabled = false;
    assert!(matches!(service.cloudflare_plan(0), CloudflarePlan::Ready(Cloudflare::NotAsked)));
    assert!(matches!(service.cloudflare_config(0), CloudflarePlan::Request { .. }));
}

#[test]
fn missing_settings_are_named() {
    let mut service = enabled();
    service.cf_api_token = None;
    match service.cloudflare_plan(0) {
        CloudflarePlan::Ready(Cloudflare::Failed(e)) => assert_eq!(e, "missing CF_TURN_API_TOKEN"),
        _ => panic!("asks without a token"),
    }
    service.cf_app_id = None;
    match service.cloudflare_config(0) {
        CloudflarePlan::Ready(Cloudflare::Failed(e)) => assert_eq!(e, "missing CF_TURN_APP_ID"),
        _ => panic!("asks without an application"),
    }
}

#[test]
fn request_goes_to_the_application() {
    match enabled().cloudflare_plan(7) {
        CloudflarePlan::Request { url, api_token, ttl } => {
            assert_eq!(
                url,
                "https://rtc.live.cloudflare.com/v1/turn/keys/app/credentials/generate-ice-servers"
            );
            assert_eq!((api_token.as_str(), ttl), ("token", 86_400));
        }
        _ => panic!("nothing is asked"),
    }
}

#[test]
fn answer_is_kept_until_it_expires() {
    let mut service = enabled();
    assert!(matches!(service.cloudflare_reply(CloudflareReply::Config(answer()), 1_000), Cloudflare::Config(_)));
    let end = 1_000 + 86_100u128 * 1_000_000_000;
    assert_eq!(service.cache.as_ref().unwrap().expires_at, end);
    match service.cloudflare_plan(end - 1) {
        CloudflarePlan::Ready(Cloudflare::Config(config)) => assert!(is_answer(&config)),
        _ => panic!("the answer is not used"),
    }
    assert!(matches!(service.cloudflare_plan(end), CloudflarePlan::Request { .. }));
}

#[test]
fn answer_is_kept_for_a_minute_at_least() {
    for (ttl, skew, seconds) in [(100, 300, 60), (360, 300, 60), (361, 300, 61), (0, 0, 60)] {
        let mut service = enabled();
        service.ttl = ttl;
        service.refresh_skew = skew;
        service.cloudflare_reply(CloudflareReply::Config(answer()), 0);
        assert_eq!(service.cache.unwrap().expires_at, seconds * 1_000_000_000);
    }
}

#[test]
fn failed_reply_keeps_the_last_answer() {
    let mut service = enabled();
    service.cloudflare_reply(CloudflareReply::Config(answer()), 0);
    let replies = [
        (CloudflareReply::RequestFailed("e".to_string()), "request: e"),
        (CloudflareReply::BadStatus("e".to_string()), "status: e"),
        (CloudflareReply::BadBody("e".to_string()), "decode: e"),
    ];
    for (reply, message) in replies {
        match service.cloudflare_reply(reply, 5) {
            Cloudflare::Failed(e) => assert_eq!(e, message),
            _ => panic!("a failure is none"),
        }
        assert!(is_answer(&service.cache.as_ref().unwrap().config));
        assert_eq!(service.cache.as_ref().unwrap().expires_at, 86_100_000_000_000);
    }
}

#[test]
fn configuration_comes_from_cloudflare() {
    let config = enabled().config(false, Cloudflare::Config(answer()));
    assert!(is_answer(&config));
    assert_eq!(config.ice_transport_policy, "all");
    assert_eq!(config.source, text("cloudflare"));
    assert_eq!(config.error, None);
    assert!(config.turn_enabled && config.cf_app_id_configured && config.cf_api_token_configured);
}

#[test]
fn configuration_falls_back() {
    let config = enabled().config(true, Cloudflare::Failed("decode: x".to_string()));
    assert_eq!(config.ice_transport_policy, "relay");
    assert_eq!(config.source, text("stun-fallback"));
    assert_eq!(config.error, text("decode: x"));
    assert_eq!(config.ice_servers.len(), 1);
    assert_eq!(config.ice_servers[0].urls.len(), 2);
    assert!(config.ice_servers[0].username.is_none());
    assert!(config.turn_enabled);
}

#[test]
fn configuration_without_turn_says_so() {
    let service = RtcIceService::from_env(IceSettings { stun_urls: text(" , "), ..unset() });
    let config = rtc_config_handler(&service, Some("yes"), Cloudflare::NotAsked);
    assert_eq!(config.error, text("RTC_TURN_ENABLED is not enabled"));
    assert_eq!(config.ice_transport_policy, "relay");
    assert!(config.ice_servers.is_empty());
    assert!(!config.turn_enabled && !config.cf_app_id_configured && !config.cf_api_token_configured);
    let config = rtc_config_handler(&service, None, Cloudflare::NotAsked);
    assert_eq!(config.ice_transport_policy, "all");
}

#[test]
fn fallback_alone_has_no_error() {
    let config = enabled().stun_fallback_config();
    assert_eq!(config.error, None);
    assert_eq!(config.ice_transport_policy, "all");
    assert_eq!(config.source, text("stun-fallback"));
}

#[test]
fn peer_connection_follows_the_configuration() {
    let mut config = answer();
    let peer = to_webrtc_config(&config);
    assert!(!peer.relay_only);
    assert_eq!(peer.ice_servers.len(), 1);
    assert_eq!(peer.ice_servers[0].urls, config.ice_servers[0].urls);
    assert_eq!(peer.ice_servers[0].username, "user");
    assert_eq!(peer.ice_servers[0].credential, "");
    config.ice_transport_policy = "relay".to_string();
    assert!(to_webrtc_config(&config).relay_only);
    config.ice_transport_policy = "Relay".to_string();
    assert!(!to_webrtc_config(&config).relay_only);
    let copy = config.clone();
    assert!(is_answer(&copy));
}
