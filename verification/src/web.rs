//! Web templates and browser assets, and the renderers that fill them in.
//!
//! The templates are embedded in the library, so a standalone binary needs
//! no separate web folder at runtime.

use vstd::prelude::*;

use crate::text::{chars_of, flat_map_chars, replace, replace_all, string_of, u64_decimal, decimal};

verus! {

/// Landing page; `{{ASSETS_DIR}}` and `{{PUBLIC_BASE_URL}}` are filled in.
pub const INDEX_HTML: &'static str = r#"<!DOCTYPE html>
<html lang="en">
<head>
  <meta charset="utf-8" />
  <title>Discord Overlay Proxy</title>
  <link rel="stylesheet" href="/web/index.css" />
</head>
<body>
  <h1>Discord Overlay Proxy</h1>
  <p>Transparent Streamkit overlay with custom avatars for TikTok Live Studio.</p>
  <ul>
    <li><a href="/overlay"><code>/overlay</code></a> — proxied overlay</li>
    <li><code>/overlay?target=URL</code> — override Streamkit URL</li>
    <li><a href="/css"><code>/css</code></a> — preview generated CSS</li>
    <li><code>/assets/…</code> — local images from <code>{{ASSETS_DIR}}/</code></li>
    <li><a href="/health"><code>/health</code></a> — liveness</li>
  </ul>
  <h2>Hot reload</h2>
  <p>Save <code>config.toml</code> and every open <code>/overlay</code> (OBS / TikTok Live Studio
  browser sources included) refreshes itself within a second. A config with a syntax error is
  ignored and the previous one stays live, so the overlay never goes blank.</p>
  <p>Changing <code>assets.dir</code> is the one setting that still needs a restart.</p>
  <h2>Local images</h2>
  <p>Drop files in <code>{{ASSETS_DIR}}/</code>, then reference them in <code>config.toml</code>:</p>
  <pre>[users.YOUR_DISCORD_ID]
order = 1
idle_url = "alice-idle.png"
speaking_url = "alice-speaking.png"</pre>
  <p>They are served as <code>{{PUBLIC_BASE_URL}}/assets/…</code> (absolute URLs, so Streamkit’s base tag cannot break them).</p>
</body>
</html>
"#;

/// Stylesheet of the landing page.
pub const INDEX_CSS: &'static str = r#"body { font-family: system-ui, sans-serif; max-width: 42rem; margin: 2rem auto; padding: 0 1rem; }
code { background: #f4f4f4; padding: 0.1em 0.35em; border-radius: 4px; }
a { color: #5865f2; }
pre { background: #f4f4f4; padding: 0.75rem 1rem; border-radius: 8px; overflow-x: auto; }
"#;

/// Stylesheet shared by every overlay: transparent canvas, default avatars
/// hidden, and the voice list laid out as a flex row so `order` applies.
pub const OVERLAY_CSS: &'static str = r#"/* Transparent canvas for TikTok Live Studio / OBS */
html, body, #root, #app, .voice_container {
  background: transparent !important;
  background-color: transparent !important;
}

/* `order` only takes effect inside a flex container */
ul.voice_states {
  display: flex !important;
  flex-direction: row !important;
  flex-wrap: wrap !important;
  align-items: flex-end !important;
  gap: 8px !important;
  padding: 0 !important;
  margin: 0 !important;
  list-style: none !important;
}

li.voice_state {
  display: flex !important;
  flex-direction: column !important;
  align-items: center !important;
  background: transparent !important;
}

/* Hide Discord's default avatar art for users with custom images */
li.voice_state > img.voice_avatar {
  border: none !important;
  border-radius: 0 !important;
  box-shadow: none !important;
  object-fit: contain !important;
}

@keyframes speak-bounce {
  0%, 100% { transform: translateY(0); }
  50% { transform: translateY(-6px); }
}
"#;

/// Per-user rules; `{{USER_ID}}`, `{{IDLE_URL}}`, `{{SPEAKING_URL}}` and
/// `{{ORDER}}` are filled in for each configured user.
pub const USER_CSS_TEMPLATE: &'static str = r#"
/* User {{USER_ID}} */
li[data-userid="{{USER_ID}}"] {
  order: {{ORDER}} !important;
}
li[data-userid="{{USER_ID}}"] > img.voice_avatar {
  content: url("{{IDLE_URL}}") !important;
  width: 128px !important;
  height: 128px !important;
}
li[data-userid="{{USER_ID}}"].wrapper_speaking > img.voice_avatar,
li[data-userid="{{USER_ID}}"] > img.voice_avatar[class*="avatarSpeaking"] {
  content: url("{{SPEAKING_URL}}") !important;
  animation: speak-bounce 0.6s ease-in-out infinite !important;
}
"#;

/// Late head block of the overlay: stylesheet link and hot-reload watcher,
/// both tagged with the configuration version `{{VERSION}}`.
pub const OVERLAY_HEAD: &'static str = r#"<link id="discord-overlay-custom" rel="stylesheet" href="/css?version={{VERSION}}" />
<script src="/web/hot-reload.js?version={{VERSION}}"></script>
"#;

/// Early head block of the overlay: loads the RPC bridge before Streamkit's bundle.
pub const RPC_BRIDGE_HEAD: &'static str = r#"<script src="/web/rpc-bridge.js"></script>
"#;

/// Points Discord's local RPC websocket at this server's `/rpc/<port>/` bridge.
pub const RPC_BRIDGE_JS: &'static str = r#"(() => {
  const Native = window.WebSocket;
  const localSocket = /^ws:\/\/(?:127\.0\.0\.1|localhost):(\d+)\//i;
  const Bridged = function (url, protocols) {
    let target = String(url);
    const match = localSocket.exec(target);
    // Never rewrite a socket that already points at this proxy.
    if (match && match[1] !== location.port) {
      target = target.replace(localSocket, "ws://" + location.host + "/rpc/" + match[1] + "/");
    }
    return protocols === undefined ? new Native(target) : new Native(target, protocols);
  };
  Bridged.prototype = Native.prototype;
  for (const key of ["CONNECTING", "OPEN", "CLOSING", "CLOSED"]) {
    Bridged[key] = Native[key];
  }
  window.WebSocket = Bridged;
})();
"#;

/// Long-polls `/reload-events` and reloads the overlay when the config changes.
pub const HOT_RELOAD_JS: &'static str = r#"(() => {
  const script = document.currentScript;
  const version = Number(new URL(script.src).searchParams.get("version") || "0");
  const endpoint = new URL("/reload-events", location.origin).href;
  const sleep = (ms) => new Promise((done) => setTimeout(done, ms));
  (async () => {
    for (;;) {
      try {
        const res = await fetch(endpoint + "?since=" + version, { cache: "no-store" });
        const next = Number(await res.text());
        if (Number.isFinite(next) && next !== version) {
          location.reload();
          return;
        }
      } catch (err) {
        // Proxy restarting or unreachable — back off and keep trying.
        await sleep(2000);
      }
    }
  })();
})();
"#;

/// The placeholder `{{name}}` of a template.
pub open spec fn placeholder(name: Seq<char>) -> Seq<char> {
    "{{"@ + name + "}}"@
}

/// `template` with the placeholder of each `(name, value)` pair replaced by
/// its value, one pair after the other.
pub open spec fn render_template_spec(template: Seq<char>, values: Seq<(Seq<char>, Seq<char>)>) -> Seq<char>
    decreases values.len(),
{
    if values.len() == 0 {
        template
    } else {
        render_template_spec(
            replace_all(template, placeholder(values[0].0), values[0].1),
            values.drop_first(),
        )
    }
}

/// The views of `(name, value)` pairs.
pub open spec fn pair_strs(values: Seq<(&str, &str)>) -> Seq<(Seq<char>, Seq<char>)> {
    values.map_values(|p: (&str, &str)| (p.0@, p.1@))
}

/// HTML escaping of one character.
pub open spec fn html_char(c: char) -> Seq<char> {
    if c == '&' {
        "&amp;"@
    } else if c == '<' {
        "&lt;"@
    } else if c == '>' {
        "&gt;"@
    } else if c == '"' {
        "&quot;"@
    } else if c == '\'' {
        "&#39;"@
    } else {
        seq![c]
    }
}

/// `value` escaped for HTML text and attribute values.
pub open spec fn escape_html_spec(value: Seq<char>) -> Seq<char> {
    flat_map_chars(value, |c: char| html_char(c))
}

/// The landing page for the given assets folder and public origin.
pub open spec fn render_index_spec(assets_dir: Seq<char>, public_base_url: Seq<char>) -> Seq<char> {
    render_template_spec(
        INDEX_HTML@,
        seq![
            ("ASSETS_DIR"@, escape_html_spec(assets_dir)),
            ("PUBLIC_BASE_URL"@, escape_html_spec(public_base_url)),
        ],
    )
}

/// The late overlay head block for configuration version `version`.
pub open spec fn render_overlay_head_spec(version: u64) -> Seq<char> {
    render_template_spec(OVERLAY_HEAD@, seq![("VERSION"@, decimal(version as nat))])
}

/// Render the landing page.
pub fn render_index(assets_dir: &str, public_base_url: &str) -> (r: String)
    ensures
        r@ == render_index_spec(assets_dir@, public_base_url@),
{
    let assets_html = escape_html(assets_dir);
    let base_html = escape_html(public_base_url);
    let values: [(&str, &str); 2] = [
        ("ASSETS_DIR", assets_html.as_str()),
        ("PUBLIC_BASE_URL", base_html.as_str()),
    ];
    let r = render_template(INDEX_HTML, values.as_slice());
    assert(pair_strs(values@) =~= seq![
        ("ASSETS_DIR"@, escape_html_spec(assets_dir@)),
        ("PUBLIC_BASE_URL"@, escape_html_spec(public_base_url@)),
    ]);
    r
}

/// Render the late overlay head block for configuration version `version`.
pub fn render_overlay_head(version: u64) -> (r: String)
    ensures
        r@ == render_overlay_head_spec(version),
{
    let version_text = string_of(&u64_decimal(version));
    let values: [(&str, &str); 1] = [("VERSION", version_text.as_str())];
    let r = render_template(OVERLAY_HEAD, values.as_slice());
    assert(pair_strs(values@) =~= seq![("VERSION"@, decimal(version as nat))]);
    r
}

/// Fill in `{{name}}` placeholders of `template`, one pair at a time.
pub fn render_template(template: &str, values: &[(&str, &str)]) -> (r: String)
    ensures
        r@ == render_template_spec(template@, pair_strs(values@)),
{
    let ghost all = pair_strs(values@);
    let mut rendered = chars_of(template);
    let open = chars_of("{{");
    let close = chars_of("}}");
    proof {
        reveal_strlit("{{");
        reveal_strlit("}}");
    }
    let mut i: usize = 0;
    assert(all.skip(0) =~= all);
    while i < values.len()
        invariant
            all == pair_strs(values@),
            open@ == "{{"@,
            close@ == "}}"@,
            open@.len() == 2,
            i <= values.len(),
            render_template_spec(template@, all) == render_template_spec(rendered@, all.skip(i as int)),
        decreases values.len() - i,
    {
        let (name, value) = values[i];
        let mut pattern = chars_of("{{");
        push_all_chars(&mut pattern, name);
        push_all_chars(&mut pattern, "}}");
        proof {
            reveal_strlit("{{");
            reveal_strlit("}}");
        }
        let next = replace(&rendered, &pattern, &chars_of(value));
        proof {
            let rest = all.skip(i as int);
            assert(rest[0] == (name@, value@));
            assert(rest.drop_first() =~= all.skip(i + 1));
            assert(pattern@ =~= placeholder(name@));
        }
        rendered = next;
        i = i + 1;
    }
    assert(all.skip(values.len() as int) =~= Seq::<(Seq<char>, Seq<char>)>::empty());
    string_of(&rendered)
}

fn push_all_chars(out: &mut Vec<char>, s: &str)
    ensures
        final(out)@ == old(out)@ + s@,
{
    let v = chars_of(s);
    crate::text::push_all(out, &v);
}

/// Escape `value` for HTML text and attribute values.
pub fn escape_html(value: &str) -> (r: String)
    ensures
        r@ == escape_html_spec(value@),
{
    let v = chars_of(value);
    let mut out: Vec<char> = Vec::new();
    let mut i: usize = 0;
    proof {
        reveal_strlit("&amp;");
        reveal_strlit("&lt;");
        reveal_strlit("&gt;");
        reveal_strlit("&quot;");
        reveal_strlit("&#39;");
    }
    while i < v.len()
        invariant
            i <= v.len(),
            out@ == escape_html_spec(v@.take(i as int)),
        decreases v.len() - i,
    {
        let c = v[i];
        let piece: &str = if c == '&' {
            "&amp;"
        } else if c == '<' {
            "&lt;"
        } else if c == '>' {
            "&gt;"
        } else if c == '"' {
            "&quot;"
        } else if c == '\'' {
            "&#39;"
        } else {
            ""
        };
        proof {
            reveal_strlit("&amp;");
            reveal_strlit("&lt;");
            reveal_strlit("&gt;");
            reveal_strlit("&quot;");
            reveal_strlit("&#39;");
            reveal_strlit("");
        }
        if piece.is_empty() {
            out.push(c);
        } else {
            push_all_chars(&mut out, piece);
        }
        proof {
            let t = v@.take(i + 1);
            assert(t.drop_last() =~= v@.take(i as int));
            assert(out@ =~= escape_html_spec(v@.take(i as int)) + html_char(c));
        }
        i = i + 1;
    }
    assert(v@.take(v.len() as int) =~= v@);
    string_of(&out)
}

} // verus!
