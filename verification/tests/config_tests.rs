use discord_overlay::config::{
    default_assets_dir, default_host, default_port, resolve_asset_ref, AssetsConfig,
    AvatarOverride, Config, ServerConfig, StreamkitConfig, UserMap, DEFAULT_CONFIG,
};

fn avatar(idle: &str, speaking: &str, order: i64) -> AvatarOverride {
    AvatarOverride {
        idle_url: idle.to_string(),
        speaking_url: speaking.to_string(),
        order,
    }
}

fn config_with_users(users: UserMap) -> Config {
    Config {
        server: ServerConfig {
            host: "127.0.0.1".to_string(),
            port: 3000,
        },
        streamkit: StreamkitConfig {
            url: "https://streamkit.discord.com/overlay/voice".to_string(),
        },
        assets: AssetsConfig::default(),
        users,
    }
}

#[test]
fn remote_urls_unchanged() {
    let base = "http://127.0.0.1:3000";
    assert_eq!(
        resolve_asset_ref("https://cdn.example/a.png", base),
        "https://cdn.example/a.png"
    );
}

#[test]
fn bare_filename_becomes_assets_url() {
    let base = "http://127.0.0.1:3000";
    assert_eq!(
        resolve_asset_ref("alice-idle.png", base),
        "http://127.0.0.1:3000/assets/alice-idle.png"
    );
}

#[test]
fn assets_prefix_stripped() {
    let base = "http://127.0.0.1:3000";
    assert_eq!(
        resolve_asset_ref("assets/team/bob-speak.webp", base),
        "http://127.0.0.1:3000/assets/team/bob-speak.webp"
    );
}

#[test]
fn nested_local_path() {
    let base = "http://127.0.0.1:3000";
    assert_eq!(
        resolve_asset_ref("./chars/me/idle.png", base),
        "http://127.0.0.1:3000/assets/chars/me/idle.png"
    );
}

#[test]
fn bundled_default_config_is_valid() {
    let config: toml::Table = toml::from_str(DEFAULT_CONFIG).expect("default config must be valid");
    assert_eq!(config["server"]["port"].as_integer(), Some(3000));
    assert!(!config["streamkit"]["url"].as_str().unwrap().is_empty());
}

#[test]
fn absolute_url_check_ignores_ascii_case_and_covers_data_and_blob() {
    let base = "http://127.0.0.1:3000";
    assert_eq!(resolve_asset_ref("HTTPS://CDN.example/A.png", base), "HTTPS://CDN.example/A.png");
    assert_eq!(resolve_asset_ref("data:image/png;base64,AAAA", base), "data:image/png;base64,AAAA");
    assert_eq!(resolve_asset_ref("Blob:xyz", base), "Blob:xyz");
}

#[test]
fn references_are_trimmed_and_blank_stays_blank() {
    let base = "http://127.0.0.1:3000";
    assert_eq!(resolve_asset_ref("   ", base), "");
    assert_eq!(
        resolve_asset_ref("  https://cdn.example/a.png\n", base),
        "https://cdn.example/a.png"
    );
    assert_eq!(
        resolve_asset_ref("\talice.png ", base),
        "http://127.0.0.1:3000/assets/alice.png"
    );
}

#[test]
fn local_paths_are_normalized() {
    let base = "http://127.0.0.1:3000/";
    assert_eq!(
        resolve_asset_ref("././/assets/x.png", base),
        "http://127.0.0.1:3000/assets/x.png"
    );
    assert_eq!(
        resolve_asset_ref("team\\bob.webp", base),
        "http://127.0.0.1:3000/assets/team/bob.webp"
    );
    assert_eq!(
        resolve_asset_ref("/assets/assets/x.png", base),
        "http://127.0.0.1:3000/assets/assets/x.png"
    );
}

#[test]
fn defaults_match_the_documented_values() {
    assert_eq!(default_host(), "127.0.0.1");
    assert_eq!(default_port(), 3000);
    assert_eq!(default_assets_dir(), "assets");
    assert_eq!(AssetsConfig::default().dir, "assets");
}

#[test]
fn bind_and_public_addresses() {
    let mut config = config_with_users(UserMap::new());
    config.server.host = "0.0.0.0".to_string();
    config.server.port = 8080;
    assert_eq!(config.bind_addr(), "0.0.0.0:8080");
    assert_eq!(config.public_base_url(), "http://0.0.0.0:8080");
}

#[test]
fn local_assets_resolved_against_the_public_origin() {
    let mut users = UserMap::new();
    users.insert("1".to_string(), avatar("alice-idle.png", "https://cdn.example/s.png", 3));
    let mut config = config_with_users(users);
    config.resolve_local_assets();
    let a = config.users.get("1").unwrap();
    assert_eq!(a.idle_url, "http://127.0.0.1:3000/assets/alice-idle.png");
    assert_eq!(a.speaking_url, "https://cdn.example/s.png");
    assert_eq!(a.order, 3);
    assert_eq!(config.users.len(), 1);
}

#[test]
fn user_map_insert_replaces_and_reports_the_previous_avatar() {
    let mut users = UserMap::new();
    assert!(users.insert("7".to_string(), avatar("a.png", "b.png", 1)).is_none());
    assert!(users.insert("8".to_string(), avatar("c.png", "d.png", 2)).is_none());
    let previous = users.insert("7".to_string(), avatar("e.png", "f.png", 5)).unwrap();
    assert_eq!(previous.idle_url, "a.png");
    assert_eq!(users.len(), 2);
    assert_eq!(users.get("7").unwrap().idle_url, "e.png");
    assert!(users.get("9").is_none());
}

#[test]
fn resolving_a_resolved_reference_changes_nothing() {
    let base = "http://127.0.0.1:3000/";
    for raw in [
        "  alice-idle.png  ",
        ".\\chars\\me\\idle.png",
        "/assets/",
        "HTTPS://cdn.example/a.png",
        "",
    ] {
        let once = resolve_asset_ref(raw, base);
        assert_eq!(resolve_asset_ref(&once, base), once);
    }
    assert_eq!(
        resolve_asset_ref(".\\chars\\me\\idle.png", base),
        "http://127.0.0.1:3000/assets/chars/me/idle.png"
    );
}
