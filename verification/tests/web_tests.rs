use discord_overlay::web::{escape_html, render_index, render_overlay_head, render_template, RPC_BRIDGE_HEAD};

#[test]
fn renders_index_values_as_html() {
    let html = render_index("assets & avatars", "http://127.0.0.1:3000");
    assert!(html.contains("assets &amp; avatars"));
    assert!(html.contains("http://127.0.0.1:3000/assets/…"));
    assert!(!html.contains("{{ASSETS_DIR}}"));
}

#[test]
fn renders_external_overlay_assets_with_version() {
    let head = render_overlay_head(7);
    assert!(head.contains(r#"href="/css?version=7""#));
    assert!(head.contains(r#"src="/web/hot-reload.js?version=7""#));
}

#[test]
fn rpc_bridge_is_only_injected_once() {
    assert!(RPC_BRIDGE_HEAD.contains(r#"src="/web/rpc-bridge.js""#));
    assert!(!render_overlay_head(7).contains("rpc-bridge.js"));
}

#[test]
fn html_special_characters_are_escaped() {
    assert_eq!(escape_html(r#"<a href="x">'&'</a>"#), "&lt;a href=&quot;x&quot;&gt;&#39;&amp;&#39;&lt;/a&gt;");
}

#[test]
fn templates_fill_every_occurrence_in_order() {
    let out = render_template("{{A}}-{{B}}-{{A}}", &[("A", "{{B}}"), ("B", "2")]);
    assert_eq!(out, "2-2-2");
    assert_eq!(render_template("{{A}}", &[]), "{{A}}");
}
