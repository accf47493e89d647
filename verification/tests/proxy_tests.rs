use discord_overlay::config::{AssetsConfig, AvatarOverride, Config, ServerConfig, StreamkitConfig, UserMap};
use discord_overlay::proxy::{
    check_http_url, content_type_of, head_injection, head_open_end, incoming_headers, inject_head, inject_overlay,
    localize_cookie, origin_of, outgoing_headers, parse_http_url, rebase_url, upstream_target, Header, HttpUrl,
    ProxyError, UpstreamResponse, RPC_BRIDGE_SCRIPT,
};

fn test_config() -> Config {
    Config {
        server: ServerConfig {
            host: "127.0.0.1".to_string(),
            port: 3000,
        },
        streamkit: StreamkitConfig {
            url: "https://streamkit.discord.com/overlay/voice".to_string(),
        },
        assets: AssetsConfig::default(),
        users: UserMap::new(),
    }
}

fn header(name: &str, value: &str) -> Header {
    Header {
        name: name.to_string(),
        value: value.as_bytes().to_vec(),
    }
}

#[test]
fn early_lands_after_head_open_and_late_before_head_close() {
    let html = [
        "<!doctype html><html><head><title>t</title>",
        r#"<script defer src="/static/js/main.js"></script>"#,
        "</head><body>ok</body></html>",
    ]
    .concat();
    let html = html.as_str();
    let out = inject_head(html, "<!--EARLY-->", "<!--LATE-->");
    let early = out.find("<!--EARLY-->").unwrap();
    let late = out.find("<!--LATE-->").unwrap();

    assert!(early < out.find("<title>").unwrap(), "early must precede the bundle");
    assert!(early < out.find("main.js").unwrap());
    assert!(late > out.find("main.js").unwrap());
    assert!(late < out.find("</head>").unwrap());
}

#[test]
fn injects_after_head_open_when_unclosed() {
    let html = "<html><head><title>t</title><body>ok";
    let out = inject_head(html, "<!--EARLY-->", "<!--LATE-->");
    assert!(out.find("<!--EARLY-->").unwrap() < out.find("<title>").unwrap());
    assert!(out.find("<!--LATE-->").unwrap() < out.find("<title>").unwrap());
}

#[test]
fn builds_a_document_when_there_is_no_head() {
    let out = inject_head("just text", "<!--EARLY-->", "<!--LATE-->");
    assert!(out.contains("<!--EARLY--><!--LATE-->"));
    assert!(out.contains("just text"));
}

#[test]
fn header_tag_is_not_mistaken_for_head() {
    assert_eq!(head_open_end("<header><h1>hi</h1>"), None);
    assert_eq!(head_open_end("<head lang=\"en\">"), Some(16));
}

#[test]
fn injection_has_css_and_hot_reload_but_no_base_tag() {
    let out = head_injection(&test_config(), 7);
    assert!(out.contains(r#"id="discord-overlay-custom""#));
    assert!(out.contains("const version = 7;"));
    assert!(!out.contains("__VERSION__"));
    assert!(!out.contains("<base"));
}

#[test]
fn cookies_are_rewritten_for_a_local_plain_http_origin() {
    let cookie = b"__dcfduid=abc; Domain=.discord.com; Path=/; Secure; SameSite=None; HttpOnly".to_vec();
    let out = localize_cookie(&cookie).unwrap();
    assert_eq!(
        String::from_utf8(out).unwrap(),
        "__dcfduid=abc; Path=/; SameSite=Lax; HttpOnly"
    );
}

#[test]
fn partitioned_cookies_lose_the_flag_and_invisible_values_are_dropped() {
    let cookie = b"cf_clearance=x;  partitioned ;secure;SAMESITE=NONE".to_vec();
    let out = localize_cookie(&cookie).unwrap();
    assert_eq!(String::from_utf8(out).unwrap(), "cf_clearance=x; SameSite=Lax");
    assert!(localize_cookie(&vec![b'a', 0x80]).is_none());
}

#[test]
fn head_offsets_are_in_bytes_and_case_insensitive_documents_work() {
    assert_eq!(head_open_end("é<head>"), Some(8));
    assert_eq!(head_open_end("<head"), None);
    let out = inject_head("<HTML><HEAD></HEAD></HTML>", "E", "L");
    assert_eq!(out, "<HTML><HEAD>EL</HEAD></HTML>");
    let out = inject_head("<body></head>x", "E", "L");
    assert_eq!(out, "<body>EL</head>x");
    assert_eq!(
        inject_head("x", "E", "L"),
        "<!DOCTYPE html>\n<html>\n<head>\nEL</head>\n<body>\nx\n</body>\n</html>"
    );
}

#[test]
fn overlay_is_spliced_only_into_successful_html() {
    let mut users = UserMap::new();
    users.insert(
        "5".to_string(),
        AvatarOverride {
            idle_url: "i.png".into(),
            speaking_url: "s.png".into(),
            order: 0,
        },
    );
    let mut config = test_config();
    config.users = users;
    let html = "<html><head></head><body></body></html>";
    let mut ok = UpstreamResponse {
        status: 200,
        headers: vec![header("content-type", "  text/html; charset=utf-8")],
        body: html.as_bytes().to_vec(),
    };
    assert!(ok.is_html());
    inject_overlay(&mut ok, &config, 3);
    let body = String::from_utf8(ok.body.clone()).unwrap();
    assert!(body.starts_with(&format!("<html><head>{}", RPC_BRIDGE_SCRIPT)));
    assert!(body.contains("data-userid=\"5\""));
    assert!(body.contains("const version = 3;"));
    assert!(body.ends_with("</head><body></body></html>"));

    let mut not_found = UpstreamResponse {
        status: 404,
        headers: vec![header("content-type", "text/html")],
        body: html.as_bytes().to_vec(),
    };
    inject_overlay(&mut not_found, &config, 3);
    assert_eq!(not_found.body, html.as_bytes());

    let mut script = UpstreamResponse {
        status: 200,
        headers: vec![header("content-type", "application/javascript")],
        body: b"var x;".to_vec(),
    };
    assert!(!script.is_html());
    inject_overlay(&mut script, &config, 3);
    assert_eq!(script.body, b"var x;");

    let mut binary = UpstreamResponse {
        status: 200,
        headers: vec![header("content-type", "text/html")],
        body: vec![0xff, 0xfe],
    };
    inject_overlay(&mut binary, &config, 3);
    assert_eq!(binary.body, vec![0xff, 0xfe]);
}

#[test]
fn response_headers_drop_hop_and_embedding_blockers() {
    let headers = vec![
        header("content-type", "text/html"),
        header("content-security-policy", "default-src 'self'"),
        header("x-frame-options", "DENY"),
        header("set-cookie", "a=1; Domain=discord.com; Secure"),
        header("set-cookie", "b=2; SameSite=None"),
        header("content-length", "10"),
        header("cache-control", "no-store"),
    ];
    let out = incoming_headers(&headers);
    let pairs: Vec<(String, String)> = out
        .iter()
        .map(|h| (h.name.clone(), String::from_utf8(h.value.clone()).unwrap()))
        .collect();
    assert_eq!(
        pairs,
        vec![
            ("content-type".to_string(), "text/html".to_string()),
            ("set-cookie".to_string(), "a=1".to_string()),
            ("set-cookie".to_string(), "b=2; SameSite=Lax".to_string()),
            ("cache-control".to_string(), "no-store".to_string()),
        ]
    );
}

#[test]
fn request_headers_present_streamkit_as_the_origin() {
    let target = parse_http_url("https://streamkit.discord.com/overlay/voice/1/2?a=b").unwrap();
    let headers = vec![
        header("host", "127.0.0.1:3000"),
        header("accept-encoding", "gzip"),
        header("origin", "http://127.0.0.1:3000"),
        header("referer", "http://127.0.0.1:3000/overlay/voice/1/2?x=y"),
        header("accept", "text/html"),
        header("accept", "*/*"),
    ];
    let out = outgoing_headers(&headers, &target);
    let pairs: Vec<(String, String)> = out
        .iter()
        .map(|h| (h.name.clone(), String::from_utf8(h.value.clone()).unwrap()))
        .collect();
    assert_eq!(
        pairs,
        vec![
            ("origin".to_string(), "https://streamkit.discord.com".to_string()),
            (
                "referer".to_string(),
                "https://streamkit.discord.com/overlay/voice/1/2?x=y".to_string()
            ),
            ("accept".to_string(), "*/*".to_string()),
        ]
    );
}

#[test]
fn urls_are_parsed_and_restricted_to_http() {
    let url = parse_http_url("HTTPS://Streamkit.Discord.com/overlay").unwrap();
    assert_eq!(url.scheme, "https");
    assert_eq!(url.host.as_deref(), Some("streamkit.discord.com"));
    assert_eq!(url.href, "https://streamkit.discord.com/overlay");
    assert!(matches!(parse_http_url("ftp://example.com/x"), Err(ProxyError::UnsupportedScheme)));
    match parse_http_url("not a url") {
        Err(ProxyError::InvalidUrl(m)) => assert_eq!(m, "relative URL without a base"),
        other => panic!("unexpected {:?}", other.map(|u| u.href)),
    }
    assert_eq!(
        ProxyError::InvalidUrl("bad".to_string()).message(),
        "invalid target URL: bad"
    );
}

#[test]
fn a_head_tag_after_a_header_tag_is_found() {
    assert_eq!(head_open_end("<header><head>"), Some(14));
    assert_eq!(head_open_end("<headline x><head\tid=a>"), Some(23));
    let out = inject_head("<header></header><head><title>t</title></head>", "E", "L");
    assert_eq!(out, "<header></header><head>E<title>t</title>L</head>");
}

#[test]
fn header_names_are_compared_without_regard_to_case() {
    let headers = vec![
        header("Content-Type", "text/html"),
        header("Content-Security-Policy", "default-src 'self'"),
        header("X-Frame-Options", "DENY"),
        header("Set-Cookie", "a=1; Secure"),
    ];
    let out = incoming_headers(&headers);
    let pairs: Vec<(String, String)> = out
        .iter()
        .map(|h| (h.name.clone(), String::from_utf8(h.value.clone()).unwrap()))
        .collect();
    assert_eq!(
        pairs,
        vec![
            ("content-type".to_string(), "text/html".to_string()),
            ("set-cookie".to_string(), "a=1".to_string()),
        ]
    );
    let reply = UpstreamResponse {
        status: 200,
        headers: vec![header("Content-Type", "text/html")],
        body: Vec::new(),
    };
    assert!(reply.is_html());

    let target = parse_http_url("https://streamkit.discord.com/overlay/voice").unwrap();
    let sent = outgoing_headers(
        &vec![header("Host", "127.0.0.1:3000"), header("Origin", "http://127.0.0.1:3000"), header("Accept", "*/*")],
        &target,
    );
    let pairs: Vec<(String, String)> = sent
        .iter()
        .map(|h| (h.name.clone(), String::from_utf8(h.value.clone()).unwrap()))
        .collect();
    assert_eq!(
        pairs,
        vec![
            ("origin".to_string(), "https://streamkit.discord.com".to_string()),
            ("accept".to_string(), "*/*".to_string()),
        ]
    );
}

#[test]
fn asset_content_type_defaults_to_octet_stream() {
    assert_eq!(content_type_of(&vec![header("Content-Type", "image/png")]), "image/png");
    assert_eq!(
        content_type_of(&vec![header("x", "y"), header("content-type", "text/css"), header("content-type", "a/b")]),
        "text/css"
    );
    assert_eq!(content_type_of(&vec![]), "application/octet-stream");
    let unreadable = Header { name: "content-type".to_string(), value: vec![0xc3, 0xa9] };
    assert_eq!(content_type_of(&vec![unreadable]), "application/octet-stream");
}

#[test]
fn origins_and_referers_are_taken_onto_the_target() {
    assert_eq!(
        origin_of("https://streamkit.discord.com/overlay/voice?a=b#f").as_deref(),
        Some("https://streamkit.discord.com/")
    );
    assert_eq!(
        rebase_url("https://streamkit.discord.com/overlay/voice/1/2?a=b", "http://127.0.0.1:3000/x/y?q=1").as_deref(),
        Some("https://streamkit.discord.com/x/y?q=1")
    );
    assert_eq!(
        rebase_url("https://streamkit.discord.com/a?b=c", "http://127.0.0.1:3000/p").as_deref(),
        Some("https://streamkit.discord.com/p")
    );
    assert_eq!(rebase_url("https://streamkit.discord.com/", "not a url"), None);
}

#[test]
fn relayed_paths_are_joined_onto_the_streamkit_base() {
    let url = upstream_target("https://streamkit.discord.com/overlay/voice/1/2", "/static/js/main.js?x=1").unwrap();
    assert_eq!(url.href, "https://streamkit.discord.com/static/js/main.js?x=1");
    assert_eq!(url.host.as_deref(), Some("streamkit.discord.com"));
    assert!(matches!(upstream_target("not a base", "/x"), Err(ProxyError::InvalidUrl(_))));
}

#[test]
fn localizing_a_localized_cookie_changes_nothing() {
    for cookie in [
        "__dcfduid=abc; Domain=.discord.com; Path=/; Secure; SameSite=None; HttpOnly",
        "a=1;;b\t=2 ; Partitioned",
        "Secure",
        "",
    ] {
        let once = localize_cookie(&cookie.as_bytes().to_vec()).unwrap();
        assert_eq!(localize_cookie(&once).unwrap(), once);
    }
    assert_eq!(
        String::from_utf8(localize_cookie(&b"a=1;;b\t=2 ; Partitioned".to_vec()).unwrap()).unwrap(),
        "a=1; ; b\t=2"
    );
}

#[test]
fn the_scheme_check_takes_a_parse_outcome() {
    let url = |scheme: &str| HttpUrl {
        scheme: scheme.to_string(),
        host: Some("discord.com".to_string()),
        href: format!("{}://discord.com/", scheme),
    };
    assert_eq!(check_http_url(Ok(url("https"))).unwrap().href, "https://discord.com/");
    assert!(check_http_url(Ok(url("http"))).is_ok());
    assert!(matches!(check_http_url(Ok(url("ftp"))), Err(ProxyError::UnsupportedScheme)));
    match check_http_url(Err("empty host".to_string())) {
        Err(ProxyError::InvalidUrl(m)) => assert_eq!(m, "empty host"),
        _ => panic!("expected InvalidUrl"),
    }
}
