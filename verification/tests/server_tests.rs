use discord_overlay::config::{AssetsConfig, Config, ServerConfig, StreamkitConfig, UserMap};
use discord_overlay::proxy::ProxyError;
use discord_overlay::reload::{FileStamp, LiveConfig, WatchState};
use discord_overlay::routes::{
    check_proxy_url, host_matches_exec, is_allowed_host, is_allowed_proxy_url, overlay_target, AppError,
    OverlayQuery,
};
use discord_overlay::rpc::{is_rpc_port, rpc_url, RPC_ORIGIN};

fn config(url: &str) -> Config {
    Config {
        server: ServerConfig {
            host: "127.0.0.1".to_string(),
            port: 3000,
        },
        streamkit: StreamkitConfig { url: url.to_string() },
        assets: AssetsConfig::default(),
        users: UserMap::new(),
    }
}

#[test]
fn rpc_ports_are_the_discord_client_range() {
    assert!(!is_rpc_port(6462));
    assert!(is_rpc_port(6463));
    assert!(is_rpc_port(6472));
    assert!(!is_rpc_port(6473));
    assert_eq!(RPC_ORIGIN, "https://streamkit.discord.com");
}

#[test]
fn rpc_urls_keep_the_browser_query() {
    assert_eq!(rpc_url(6463, Some("v=1&encoding=json")), "ws://127.0.0.1:6463/?v=1&encoding=json");
    assert_eq!(rpc_url(6470, None), "ws://127.0.0.1:6470/");
}

#[test]
fn asset_proxy_allows_discord_hosts_only() {
    assert!(is_allowed_proxy_url("https://discord.com/a.png"));
    assert!(is_allowed_proxy_url("https://cdn.DiscordApp.com/a.png"));
    assert!(is_allowed_proxy_url("http://streamkit.discord.gg/x"));
    assert!(!is_allowed_proxy_url("https://evildiscord.com/a.png"));
    assert!(!is_allowed_proxy_url("https://discord.com.evil.net/a.png"));
    assert!(!is_allowed_proxy_url("ftp://discord.com/a.png"));
    assert!(!is_allowed_proxy_url("not a url"));
}

#[test]
fn overlay_target_prefers_a_non_empty_query() {
    let c = config("https://streamkit.discord.com/overlay/voice/1/2");
    let q = OverlayQuery { target: Some("https://x.example/o".to_string()) };
    assert_eq!(overlay_target(&q, &c), "https://x.example/o");
    let q = OverlayQuery { target: Some(String::new()) };
    assert_eq!(overlay_target(&q, &c), "https://streamkit.discord.com/overlay/voice/1/2");
    let q = OverlayQuery { target: None };
    assert_eq!(overlay_target(&q, &c), "https://streamkit.discord.com/overlay/voice/1/2");
}

#[test]
fn app_errors_map_to_statuses() {
    let e = AppError::forbidden("no".to_string());
    assert_eq!(e.status(), 403);
    assert_eq!(e.message(), "no");
    let e = AppError::from(ProxyError::InvalidUrl("x".to_string()));
    assert_eq!(e.status(), 400);
    assert_eq!(e.message(), "invalid target URL: x");
    let e = AppError::from(ProxyError::UnsupportedScheme);
    assert_eq!(e.status(), 400);
    assert_eq!(e.message(), "only http(s) Streamkit URLs are allowed");
    let e = AppError::from(ProxyError::Request("connection refused".to_string()));
    assert_eq!(e.status(), 502);
    assert_eq!(e.message(), "HTTP request failed: connection refused");
    let e = AppError::from(ProxyError::BodyTooLarge);
    assert_eq!(e.status(), 502);
    assert_eq!(e.message(), "request body too large");
}

#[test]
fn invalid_config_is_ignored_and_valid_config_bumps_the_version() {
    let mut live = LiveConfig::new(config("https://a.example/"));
    assert_eq!(live.version(), 0);
    assert!(live.should_wait(0));
    assert!(!live.reload(None));
    assert_eq!(live.version(), 0);
    assert_eq!(live.config().streamkit.url, "https://a.example/");
    assert!(live.reload(Some(config("https://b.example/"))));
    assert_eq!(live.version(), 1);
    assert!(!live.should_wait(0));
    assert!(live.should_wait(1));
    assert_eq!(live.config().streamkit.url, "https://b.example/");
}

#[test]
fn watcher_reloads_only_on_a_new_modification_time() {
    let t1 = FileStamp { before_epoch: false, secs: 10, nanos: 5 };
    let t2 = FileStamp { before_epoch: false, secs: 10, nanos: 6 };
    let mut w = WatchState::new(Some(t1));
    assert!(!w.observe(Some(t1)));
    assert!(!w.observe(None));
    assert_eq!(w.last_modified, Some(t1));
    assert!(w.observe(Some(t2)));
    assert!(!w.observe(Some(t2)));
    let mut fresh = WatchState::new(None);
    assert!(fresh.observe(Some(t1)));
}

#[test]
fn times_on_either_side_of_the_epoch_are_told_apart() {
    let after = FileStamp { before_epoch: false, secs: 10, nanos: 5 };
    let before = FileStamp { before_epoch: true, secs: 10, nanos: 5 };
    let mut w = WatchState::new(Some(after));
    assert!(w.observe(Some(before)));
    assert_eq!(w.last_modified, Some(before));
    assert!(w.observe(Some(after)));
}

#[test]
fn version_counts_the_successful_reloads_of_a_run_of_polls() {
    let t = |n: u64| FileStamp { before_epoch: false, secs: n, nanos: 0 };
    let polls: Vec<(Option<FileStamp>, Option<Config>)> = vec![
        (Some(t(1)), Some(config("https://a.example/"))),
        (Some(t(1)), Some(config("https://ignored.example/"))),
        (None, Some(config("https://ignored.example/"))),
        (Some(t(2)), None),
        (Some(t(3)), Some(config("https://b.example/"))),
        (Some(t(3)), None),
    ];
    let mut state = WatchState::new(None);
    let mut live = LiveConfig::new(config("https://start.example/"));
    let mut versions = Vec::new();
    for (modified, loaded) in polls {
        if state.observe(modified) {
            live.reload(loaded);
        }
        versions.push(live.version());
    }
    assert_eq!(versions, vec![1, 1, 1, 1, 2, 2]);
    assert_eq!(live.config().streamkit.url, "https://b.example/");
}

#[test]
fn parsed_hosts_are_checked_against_the_allowed_domains() {
    assert!(is_allowed_host(&Some("discord.com".to_string())));
    assert!(is_allowed_host(&Some("Media.DiscordApp.com".to_string())));
    assert!(!is_allowed_host(&Some("evildiscord.com".to_string())));
    assert!(!is_allowed_host(&Some("discord.com.evil.net".to_string())));
    assert!(!is_allowed_host(&None));
    let chars = |s: &str| s.chars().collect::<Vec<char>>();
    assert!(host_matches_exec(&chars("a.discord.gg"), &chars("discord.gg")));
    assert!(!host_matches_exec(&chars("adiscord.gg"), &chars("discord.gg")));
}

#[test]
fn the_asset_proxy_refuses_other_hosts_with_403() {
    assert!(check_proxy_url("https://cdn.discordapp.com/a.png").is_ok());
    let e = check_proxy_url("https://evildiscord.com/a.png").unwrap_err();
    assert_eq!(e.status(), 403);
    assert_eq!(e.message(), "proxy only allows discord streamkit / cdn hosts");
    assert!(check_proxy_url("ftp://discord.com/a.png").is_err());
}
