//! Request-level decisions of the HTTP server: which Streamkit URL an
//! overlay request proxies, which hosts the asset proxy may fetch from, and
//! how failures map to HTTP statuses.

use vstd::prelude::*;

use crate::config::Config;
use crate::proxy::{opt_chars, parse_http_url, parse_http_url_spec, ProxyError};
use crate::text::{ascii_lower, chars_eq, chars_of, slice, to_ascii_lower};

verus! {

/// Seconds a `/reload-events` request parks before answering with the
/// unchanged version: short enough to survive proxies and browser timeouts.
pub const RELOAD_POLL_TIMEOUT_SECS: u64 = 25;

/// Query of `GET /overlay`.
#[derive(Debug, Clone)]
pub struct OverlayQuery {
    /// Optional override for the Streamkit URL from config.
    pub target: Option<String>,
}

/// Query of `GET /reload-events`.
#[derive(Debug, Clone)]
pub struct ReloadQuery {
    /// Config version the overlay page was rendered with (0 when omitted).
    pub since: u64,
}

/// Query of `GET /proxy`.
#[derive(Debug, Clone)]
pub struct ProxyQuery {
    /// Absolute URL of the asset to fetch.
    pub url: String,
}

/// The Streamkit URL an overlay request proxies: the query's non-empty
/// `target`, else the configured URL.
pub open spec fn overlay_target_spec(target: Option<Seq<char>>, configured: Seq<char>) -> Seq<char> {
    match target {
        Some(t) => if t.len() > 0 {
            t
        } else {
            configured
        },
        None => configured,
    }
}

/// The Streamkit URL an overlay request proxies.
pub fn overlay_target(query: &OverlayQuery, config: &Config) -> (r: String)
    ensures
        r@ == overlay_target_spec(crate::proxy::opt_chars(query.target), config.streamkit.url@),
{
    match &query.target {
        Some(t) => if t.as_str().is_empty() {
            config.streamkit.url.clone()
        } else {
            t.clone()
        },
        None => config.streamkit.url.clone(),
    }
}

/// Domains the `/proxy` endpoint is allowed to fetch from.
pub open spec fn allowed_proxy_hosts() -> Seq<Seq<char>> {
    seq!["discord.com"@, "discordapp.com"@, "discord.gg"@]
}

/// `host` is `allowed` or a real subdomain of it (not a look-alike such as
/// `evildiscord.com`).
pub open spec fn host_matches(host: Seq<char>, allowed: Seq<char>) -> bool {
    host == allowed || (host.len() > allowed.len() && host.skip(host.len() - allowed.len()) == allowed
        && host[host.len() - allowed.len() - 1] == '.')
}

/// Whether the asset proxy may fetch from `host`, the host of a parsed
/// URL: lower-cased, it is one of the allowed domains or a subdomain of one.
/// A URL without a host is refused.
pub open spec fn is_allowed_host_spec(host: Option<Seq<char>>) -> bool {
    let lower = ascii_lower(
        match host {
            Some(h) => h,
            None => Seq::empty(),
        },
    );
    exists|i: int| 0 <= i < allowed_proxy_hosts().len() && host_matches(lower, #[trigger] allowed_proxy_hosts()[i])
}

/// Whether the asset proxy may fetch `raw`: an http(s) URL whose host,
/// lower-cased, is one of the allowed domains or a subdomain of one.
pub open spec fn is_allowed_proxy_url_spec(raw: Seq<char>) -> bool {
    match parse_http_url_spec(raw) {
        Err(_) => false,
        Ok(u) => is_allowed_host_spec(u.1),
    }
}

/// Whether `host` is `allowed` or a subdomain of it.
pub fn host_matches_exec(host: &Vec<char>, allowed: &Vec<char>) -> (r: bool)
    ensures
        r == host_matches(host@, allowed@),
{
    if chars_eq(host, allowed) {
        return true;
    }
    if host.len() <= allowed.len() {
        return false;
    }
    let cut = host.len() - allowed.len();
    let tail = slice(host, cut, host.len());
    assert(tail@ =~= host@.skip(cut as int));
    chars_eq(&tail, allowed) && host[cut - 1] == '.'
}

/// Whether the asset proxy may fetch from the parsed host `host`.
pub fn is_allowed_host(host: &Option<String>) -> (r: bool)
    ensures
        r == is_allowed_host_spec(opt_chars(*host)),
{
    let lower = match host {
        Some(h) => to_ascii_lower(&chars_of(h.as_str())),
        None => {
            let empty: Vec<char> = Vec::new();
            assert(ascii_lower(Seq::<char>::empty()) =~= empty@);
            empty
        },
    };
    let names: [&str; 3] = ["discord.com", "discordapp.com", "discord.gg"];
    let ghost all = allowed_proxy_hosts();
    assert(names@.map_values(|n: &str| n@) =~= all);
    let mut i: usize = 0;
    while i < 3
        invariant
            i <= 3,
            all == allowed_proxy_hosts(),
            lower@ == ascii_lower(
                match opt_chars(*host) {
                    Some(h) => h,
                    None => Seq::empty(),
                },
            ),
            names@.map_values(|n: &str| n@) == all,
            forall|j: int| 0 <= j < i ==> !host_matches(lower@, #[trigger] all[j]),
        decreases 3 - i,
    {
        if host_matches_exec(&lower, &chars_of(names[i])) {
            assert(host_matches(lower@, all[i as int]));
            return true;
        }
        i = i + 1;
    }
    false
}

/// Whether the asset proxy may fetch `raw`.
pub fn is_allowed_proxy_url(raw: &str) -> (r: bool)
    ensures
        r == is_allowed_proxy_url_spec(raw@),
{
    match parse_http_url(raw) {
        Ok(url) => is_allowed_host(&url.host),
        Err(_) => false,
    }
}

/// The message the asset proxy refuses a URL with.
pub open spec fn proxy_refusal() -> Seq<char> {
    "proxy only allows discord streamkit / cdn hosts"@
}

/// The asset proxy's decision on `raw`: go ahead for an allowed URL, or a
/// `403 Forbidden` answer with `proxy_refusal()`.
pub fn check_proxy_url(raw: &str) -> (r: Result<(), AppError>)
    ensures
        r is Ok <==> is_allowed_proxy_url_spec(raw@),
        r matches Err(e) ==> e.status_of() == 403 && e.message_of() == proxy_refusal(),
{
    if is_allowed_proxy_url(raw) {
        Ok(())
    } else {
        Err(AppError::forbidden(String::from_str("proxy only allows discord streamkit / cdn hosts")))
    }
}

/// A request failure as it is answered: an HTTP status and a message.
#[derive(Debug)]
pub struct AppError {
    status: u16,
    message: String,
}

impl AppError {
    /// The HTTP status of the answer.
    pub closed spec fn status_of(&self) -> u16 {
        self.status
    }

    /// The text of the answer.
    pub closed spec fn message_of(&self) -> Seq<char> {
        self.message@
    }

    /// HTTP status of the answer.
    pub fn status(&self) -> (r: u16)
        ensures
            r == self.status_of(),
    {
        self.status
    }

    /// Text of the answer.
    pub fn message(&self) -> (r: &str)
        ensures
            r@ == self.message_of(),
    {
        self.message.as_str()
    }

    /// A `403 Forbidden` answer.
    pub fn forbidden(message: String) -> (r: Self)
        ensures
            r.status_of() == 403,
            r.message_of() == message@,
    {
        AppError { status: 403, message }
    }

    /// The answer to a proxy failure: `400 Bad Request` for a bad target URL,
    /// `502 Bad Gateway` for anything that went wrong upstream; the text is
    /// the error's message.
    pub fn from(err: ProxyError) -> (r: Self)
        ensures
            r.status_of() == (if err is InvalidUrl || err is UnsupportedScheme { 400u16 } else { 502u16 }),
            err matches ProxyError::InvalidUrl(m) ==> r.message_of() == "invalid target URL: "@ + m@,
            err matches ProxyError::UnsupportedScheme ==> r.message_of() == "only http(s) Streamkit URLs are allowed"@,
            err matches ProxyError::Request(t) ==> r.message_of() == "HTTP request failed: "@ + t@,
            err matches ProxyError::BodyTooLarge ==> r.message_of() == "request body too large"@,
    {
        let status: u16 = match &err {
            ProxyError::InvalidUrl(_) | ProxyError::UnsupportedScheme => 400,
            _ => 502,
        };
        AppError { status, message: err.message() }
    }
}

} // verus!
