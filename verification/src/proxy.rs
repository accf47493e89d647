//! The same-origin reverse proxy: which headers are relayed and how, how
//! upstream cookies are made storable on a local origin, and how the overlay
//! is spliced into Streamkit's HTML.

use vstd::prelude::*;
use vstd::string::StrSliceExecFns;
use vstd::utf8::{decode_utf8, encode_utf8, valid_utf8};

use crate::config::Config;
use crate::css::{generate_overlay_css, overlay_css};
use crate::text::{
    ascii_lower, chars_eq, chars_of, decimal, find, find_first, find_from, is_prefix,
    is_whitespace, is_whitespace_exec, join, join_exec, occurs_at, push_all, replace,
    replace_all, slice, split_char, split_exec, str_eq, string_of, to_ascii_lower, trim,
    trim_end_char, trim_end_char_exec, trim_exec, trim_start, trim_start_exec, u64_decimal,
    views, concat, lemma_concat_skip, lemma_replace_pieces, no_start_of, occurs_in, piece_kept,
    lemma_join_chars, lemma_split_chars, lemma_split_join, lemma_trim_chars,
    lemma_trim_is_trimmed, lemma_trim_space_prefix,
};

verus! {

// ---------------------------------------------------------------------------
// Header values
// ---------------------------------------------------------------------------

/// One HTTP header: its name and the raw bytes of its value. Names are
/// compared without regard to ASCII case, and relayed lower-cased, as
/// `http::HeaderName` holds them.
#[derive(Debug, Clone)]
pub struct Header {
    pub name: String,
    pub value: Vec<u8>,
}

impl View for Header {
    type V = (Seq<char>, Seq<u8>);

    open spec fn view(&self) -> (Seq<char>, Seq<u8>) {
        (self.name@, self.value@)
    }
}

/// The views of a list of headers.
pub open spec fn header_views(hs: Seq<Header>) -> Seq<(Seq<char>, Seq<u8>)> {
    hs.map_values(|h: Header| h@)
}

/// A byte `HeaderValue::to_str` accepts: visible ASCII or tab.
pub open spec fn is_visible_ascii(b: u8) -> bool {
    (32 <= b && b < 127) || b == 9
}

/// A byte `HeaderValue::from_str` accepts.
pub open spec fn is_header_byte(b: u8) -> bool {
    (32 <= b && b != 127) || b == 9
}

/// `HeaderValue::to_str`: the value as text when every byte is visible ASCII.
pub open spec fn header_text(v: Seq<u8>) -> Option<Seq<char>> {
    if forall|i: int| 0 <= i < v.len() ==> is_visible_ascii(#[trigger] v[i]) {
        Some(v.map_values(|b: u8| b as char))
    } else {
        None
    }
}

/// `HeaderValue::from_str`: the UTF-8 bytes of `s` when each of them is
/// allowed in a header value.
pub open spec fn header_value_of(s: Seq<char>) -> Option<Seq<u8>> {
    let b = encode_utf8(s);
    if forall|i: int| 0 <= i < b.len() ==> is_header_byte(#[trigger] b[i]) {
        Some(b)
    } else {
        None
    }
}

/// `HeaderValue::to_str`.
pub fn header_text_exec(v: &Vec<u8>) -> (r: Option<Vec<char>>)
    ensures
        r matches Some(t) ==> header_text(v@) == Some(t@),
        r is None <==> header_text(v@) is None,
{
    let mut out: Vec<char> = Vec::new();
    let mut i: usize = 0;
    while i < v.len()
        invariant
            i <= v.len(),
            out@ == v@.take(i as int).map_values(|b: u8| b as char),
            forall|j: int| 0 <= j < i ==> is_visible_ascii(#[trigger] v@[j]),
        decreases v.len() - i,
    {
        let b = v[i];
        if !((32 <= b && b < 127) || b == 9) {
            return None;
        }
        out.push(b as char);
        assert(v@.take(i + 1).map_values(|b: u8| b as char) =~= v@.take(i as int).map_values(
            |b: u8| b as char,
        ).push(b as char));
        i = i + 1;
    }
    assert(v@.take(v.len() as int) =~= v@);
    Some(out)
}

/// `HeaderValue::from_str`.
pub fn header_value_exec(s: &Vec<char>) -> (r: Option<Vec<u8>>)
    ensures
        r matches Some(b) ==> header_value_of(s@) == Some(b@),
        r is None <==> header_value_of(s@) is None,
{
    let text = string_of(s);
    let bytes = text.as_str().as_bytes_vec();
    let mut i: usize = 0;
    while i < bytes.len()
        invariant
            bytes@ == encode_utf8(s@),
            i <= bytes.len(),
            forall|j: int| 0 <= j < i ==> is_header_byte(#[trigger] bytes@[j]),
        decreases bytes.len() - i,
    {
        let b = bytes[i];
        if !((32 <= b && b != 127) || b == 9) {
            assert(!is_header_byte(bytes@[i as int]));
            return None;
        }
        i = i + 1;
    }
    Some(bytes)
}

// ---------------------------------------------------------------------------
// Cookies
// ---------------------------------------------------------------------------

/// The rewritten attribute list of a cookie: each piece trimmed, `Domain=`,
/// `Secure` and `Partitioned` dropped (any ASCII case), and
/// `SameSite=None` turned into `SameSite=Lax`.
pub open spec fn localize_cookie_parts(parts: Seq<Seq<char>>) -> Seq<Seq<char>>
    decreases parts.len(),
{
    if parts.len() == 0 {
        Seq::empty()
    } else {
        let rest = localize_cookie_parts(parts.drop_last());
        let part = trim(parts.last());
        let lower = ascii_lower(part);
        if is_prefix("domain="@, lower) || lower == "secure"@ || lower == "partitioned"@ {
            rest
        } else if lower == "samesite=none"@ {
            rest.push("SameSite=Lax"@)
        } else {
            rest.push(part)
        }
    }
}

/// An upstream `Set-Cookie` value made storable on a plain-HTTP local
/// origin; `None` when the value is not visible ASCII.
pub open spec fn localize_cookie_spec(value: Seq<u8>) -> Option<Seq<u8>> {
    match header_text(value) {
        None => None,
        Some(text) => header_value_of(join(localize_cookie_parts(split_char(text, ';')), "; "@)),
    }
}

/// A cookie attribute that a plain-HTTP local origin cannot keep:
/// `Domain=…`, `Secure`, `Partitioned` or `SameSite=None`, in any ASCII case.
pub open spec fn is_cross_site_attribute(part: Seq<char>) -> bool {
    let lower = ascii_lower(part);
    is_prefix("domain="@, lower) || lower == "secure"@ || lower == "partitioned"@ || lower
        == "samesite=none"@
}

/// A localized cookie keeps none of the attributes a local origin cannot
/// store: every attribute left is neither `Domain=`, `Secure`,
/// `Partitioned` nor `SameSite=None`.
pub proof fn law_localized_cookie_is_local(parts: Seq<Seq<char>>)
    ensures
        forall|i: int|
            0 <= i < localize_cookie_parts(parts).len() ==> !is_cross_site_attribute(
                #[trigger] localize_cookie_parts(parts)[i],
            ),
    decreases parts.len(),
{
    if parts.len() > 0 {
        law_localized_cookie_is_local(parts.drop_last());
        let rest = localize_cookie_parts(parts.drop_last());
        let lax = "SameSite=Lax"@;
        assert(!is_cross_site_attribute(lax)) by {
            reveal_strlit("SameSite=Lax");
            reveal_strlit("domain=");
            reveal_strlit("secure");
            reveal_strlit("partitioned");
            reveal_strlit("samesite=none");
            assert(ascii_lower(lax).len() == 12);
            assert(ascii_lower(lax)[0] == 's');
            assert(!is_prefix("domain="@, ascii_lower(lax))) by {
                if is_prefix("domain="@, ascii_lower(lax)) {
                    assert(ascii_lower(lax).subrange(0, 7)[0] == 'd');
                }
            }
        }
        let r = localize_cookie_parts(parts);
        assert forall|i: int| 0 <= i < r.len() implies !is_cross_site_attribute(#[trigger] r[i]) by {
            if i < rest.len() {
                assert(r[i] == rest[i]);
            }
        }
    }
}

/// A character of a readable header value: visible ASCII or tab.
pub open spec fn is_header_char(c: char) -> bool {
    c == '\t' || (' ' <= c && c <= '~')
}

/// The attributes a localized cookie keeps are trimmed, readable, free of
/// `;`, and none a local origin cannot store.
proof fn lemma_localized_parts(parts: Seq<Seq<char>>)
    requires
        forall|i: int, j: int|
            0 <= i < parts.len() && 0 <= j < parts[i].len() ==> is_header_char(#[trigger] parts[i][j])
                && parts[i][j] != ';',
    ensures
        forall|i: int|
            0 <= i < localize_cookie_parts(parts).len() ==> trim(#[trigger] localize_cookie_parts(parts)[i])
                == localize_cookie_parts(parts)[i],
        forall|i: int, j: int|
            0 <= i < localize_cookie_parts(parts).len() && 0 <= j < localize_cookie_parts(parts)[i].len()
                ==> is_header_char(#[trigger] localize_cookie_parts(parts)[i][j])
                && localize_cookie_parts(parts)[i][j] != ';',
    decreases parts.len(),
{
    if parts.len() > 0 {
        let init = parts.drop_last();
        assert forall|i: int, j: int| 0 <= i < init.len() && 0 <= j < init[i].len() implies is_header_char(
            #[trigger] init[i][j],
        ) && init[i][j] != ';' by {
            assert(init[i] == parts[i]);
        }
        lemma_localized_parts(init);
        let rest = localize_cookie_parts(init);
        let part = trim(parts.last());
        let r = localize_cookie_parts(parts);
        let ok = |c: char| is_header_char(c) && c != ';';
        assert forall|k: int| 0 <= k < parts.last().len() implies #[trigger] ok(parts.last()[k]) by {
            assert(parts.last() == parts[parts.len() - 1]);
        }
        lemma_trim_chars(parts.last(), ok);
        lemma_trim_is_trimmed(parts.last());
        let lax = "SameSite=Lax"@;
        assert(trim(lax) == lax && forall|j: int| 0 <= j < lax.len() ==> #[trigger] ok(lax[j])) by {
            reveal_strlit("SameSite=Lax");
            crate::text::lemma_trim_of_trimmed(lax);
        }
        assert forall|i: int| 0 <= i < r.len() implies trim(#[trigger] r[i]) == r[i] by {
            if i < rest.len() {
                assert(r[i] == rest[i]);
            }
        }
        assert forall|i: int, j: int| 0 <= i < r.len() && 0 <= j < r[i].len() implies is_header_char(
            #[trigger] r[i][j],
        ) && r[i][j] != ';' by {
            if i < rest.len() {
                assert(r[i] == rest[i]);
            } else {
                assert(ok(r[i][j]));
            }
        }
    }
}

/// Attributes that are already trimmed, each as it is or behind a space, and
/// none of which a local origin cannot store, are localized to themselves.
proof fn lemma_relocalize(parts: Seq<Seq<char>>, kept: Seq<Seq<char>>)
    requires
        parts.len() == kept.len(),
        forall|i: int| 0 <= i < parts.len() ==> trim(#[trigger] parts[i]) == kept[i],
        forall|i: int| 0 <= i < kept.len() ==> !is_cross_site_attribute(#[trigger] kept[i]),
    ensures
        localize_cookie_parts(parts) == kept,
    decreases parts.len(),
{
    if parts.len() > 0 {
        let n = parts.len() - 1;
        assert(trim(parts[n]) == kept[n]);
        assert(!is_cross_site_attribute(kept[n]));
        lemma_relocalize(parts.drop_last(), kept.drop_last());
        assert(kept =~= kept.drop_last().push(kept[n]));
    }
}

/// Localizing a cookie that is already localized changes nothing.
pub proof fn law_localize_cookie_idempotent(value: Seq<u8>)
    ensures
        localize_cookie_spec(value) matches Some(w) ==> localize_cookie_spec(w) == Some(w),
{
    if let Some(w) = localize_cookie_spec(value) {
        let t = header_text(value)->Some_0;
        assert forall|k: int| 0 <= k < t.len() implies is_header_char(#[trigger] t[k]) by {
            assert(t[k] == value[k] as char);
            assert(is_visible_ascii(value[k]));
        }
        let parts = split_char(t, ';');
        lemma_split_chars(t, ';', |c: char| is_header_char(c));
        lemma_localized_parts(parts);
        let kept = localize_cookie_parts(parts);
        law_localized_cookie_is_local(parts);
        let sep = "; "@;
        assert(sep =~= seq![';'] + seq![' ']) by {
            reveal_strlit("; ");
        }
        let joined = join(kept, sep);
        assert(forall|k: int| 0 <= k < joined.len() ==> is_header_char(#[trigger] joined[k])) by {
            lemma_join_chars(kept, sep, |c: char| is_header_char(c));
        }
        assert(vstd::utf8::is_ascii_chars(joined));
        vstd::utf8::is_ascii_chars_encode_utf8(joined);
        assert(w == encode_utf8(joined));
        assert forall|k: int| 0 <= k < w.len() implies is_visible_ascii(#[trigger] w[k]) by {
            assert(w[k] == joined[k] as u8);
            assert(is_header_char(joined[k]));
        }
        assert(header_text(w) == Some(joined)) by {
            assert forall|k: int| 0 <= k < w.len() implies (#[trigger] w[k]) as char == joined[k] by {
                assert(w[k] == joined[k] as u8);
                assert(is_header_char(joined[k]));
            }
            assert(w.map_values(|b: u8| b as char) =~= joined);
        }
        if kept.len() == 0 {
            assert(joined.len() == 0);
            assert(split_char(joined, ';') == seq![joined]);
            lemma_trim_is_trimmed(joined);
            assert(trim(joined) =~= joined);
            assert(!is_cross_site_attribute(joined)) by {
                reveal_strlit("domain=");
                reveal_strlit("secure");
                reveal_strlit("partitioned");
                reveal_strlit("samesite=none");
                assert(ascii_lower(joined).len() == 0);
            }
            lemma_relocalize(seq![joined], seq![joined]);
            assert(join(seq![joined], sep) == joined);
        } else {
            assert(seq![] + joined =~= joined);
            lemma_split_join(seq![], kept, seq![' '], ';');
            let again = split_char(joined, ';');
            assert forall|i: int| 0 <= i < again.len() implies trim(#[trigger] again[i]) == kept[i] by {
                if i > 0 {
                    assert(again[i] == seq![' '] + kept[i]);
                    lemma_trim_space_prefix(kept[i]);
                } else {
                    assert(again[0] =~= kept[0]);
                }
            }
            lemma_relocalize(again, kept);
        }
    }
}

/// Make an upstream cookie storable on `http://127.0.0.1`.
///
/// `Domain=.discord.com` would be rejected outright, and `Secure`,
/// `SameSite=None` and `Partitioned` cannot survive a plain-HTTP local origin.
pub fn localize_cookie(value: &Vec<u8>) -> (r: Option<Vec<u8>>)
    ensures
        r matches Some(b) ==> localize_cookie_spec(value@) == Some(b@),
        r is None <==> localize_cookie_spec(value@) is None,
{
    let text = match header_text_exec(value) {
        Some(t) => t,
        None => return None,
    };
    let parts = split_exec(&text, ';');
    let domain = chars_of("domain=");
    let secure = chars_of("secure");
    let partitioned = chars_of("partitioned");
    let samesite_none = chars_of("samesite=none");
    let mut kept: Vec<Vec<char>> = Vec::new();
    let mut i: usize = 0;
    while i < parts.len()
        invariant
            i <= parts.len(),
            domain@ == "domain="@,
            secure@ == "secure"@,
            partitioned@ == "partitioned"@,
            samesite_none@ == "samesite=none"@,
            views(kept@) == localize_cookie_parts(views(parts@).take(i as int)),
        decreases parts.len() - i,
    {
        let part = trim_exec(&parts[i]);
        let lower = to_ascii_lower(&part);
        assert(lower@.skip(0) =~= lower@);
        proof {
            let t = views(parts@).take(i + 1);
            assert(t.drop_last() =~= views(parts@).take(i as int));
            assert(t.last() == parts@[i as int]@);
        }
        if crate::text::occurs_at(&lower, 0, &domain) || chars_eq(&lower, &secure) || chars_eq(
            &lower,
            &partitioned,
        ) {
        } else if chars_eq(&lower, &samesite_none) {
            kept.push(chars_of("SameSite=Lax"));
            assert(views(kept@) =~= localize_cookie_parts(views(parts@).take(i as int)).push("SameSite=Lax"@));
        } else {
            kept.push(part);
            assert(views(kept@) =~= localize_cookie_parts(views(parts@).take(i as int)).push(part@));
        }
        i = i + 1;
    }
    assert(views(parts@).take(parts.len() as int) =~= views(parts@));
    let joined = join_exec(&kept, &chars_of("; "));
    header_value_exec(&joined)
}

// ---------------------------------------------------------------------------
// Which headers are relayed
// ---------------------------------------------------------------------------

/// Request headers that describe *our* hop and are not forwarded upstream.
/// `accept-encoding` is dropped so the upstream answers uncompressed: bodies
/// are relayed verbatim.
pub open spec fn request_hop_headers() -> Seq<Seq<char>> {
    seq![
        "host"@,
        "connection"@,
        "keep-alive"@,
        "proxy-connection"@,
        "accept-encoding"@,
        "content-length"@,
        "transfer-encoding"@,
        "upgrade"@,
        "te"@,
        "trailer"@,
    ]
}

/// Response headers that belong to the upstream hop, or that would stop the
/// browser from running the injected script / embedding the overlay in OBS.
pub open spec fn response_hop_headers() -> Seq<Seq<char>> {
    seq![
        "connection"@,
        "keep-alive"@,
        "content-length"@,
        "transfer-encoding"@,
        "content-encoding"@,
        "content-security-policy"@,
        "content-security-policy-report-only"@,
        "x-frame-options"@,
        "strict-transport-security"@,
        "alt-svc"@,
    ]
}

/// Whether `name` is one of `names`.
fn is_listed(name: &str, names: &[&str]) -> (r: bool)
    ensures
        r == names@.map_values(|n: &str| n@).contains(name@),
{
    let ghost all = names@.map_values(|n: &str| n@);
    let mut i: usize = 0;
    while i < names.len()
        invariant
            all == names@.map_values(|n: &str| n@),
            i <= names.len(),
            forall|j: int| 0 <= j < i ==> all[j] != name@,
        decreases names.len() - i,
    {
        if str_eq(name, names[i]) {
            assert(all[i as int] == name@);
            return true;
        }
        i = i + 1;
    }
    false
}

/// Whether a request header is dropped instead of forwarded upstream.
pub fn is_request_hop_header(name: &str) -> (r: bool)
    ensures
        r == request_hop_headers().contains(name@),
{
    let names: [&str; 10] = [
        "host",
        "connection",
        "keep-alive",
        "proxy-connection",
        "accept-encoding",
        "content-length",
        "transfer-encoding",
        "upgrade",
        "te",
        "trailer",
    ];
    assert(names@.map_values(|n: &str| n@) =~= request_hop_headers());
    is_listed(name, names.as_slice())
}

/// Whether an upstream response header is dropped instead of relayed.
pub fn is_response_hop_header(name: &str) -> (r: bool)
    ensures
        r == response_hop_headers().contains(name@),
{
    let names: [&str; 10] = [
        "connection",
        "keep-alive",
        "content-length",
        "transfer-encoding",
        "content-encoding",
        "content-security-policy",
        "content-security-policy-report-only",
        "x-frame-options",
        "strict-transport-security",
        "alt-svc",
    ];
    assert(names@.map_values(|n: &str| n@) =~= response_hop_headers());
    is_listed(name, names.as_slice())
}

/// A position of a header named `name` in `hs`, where there is one.
pub open spec fn header_position(hs: Seq<(Seq<char>, Seq<u8>)>, name: Seq<char>) -> int {
    choose|i: int| 0 <= i < hs.len() && hs[i].0 == name
}

/// `HeaderMap::insert`: the value of the header named `name` replaced, or
/// a new header appended when there is none.
pub open spec fn header_insert(
    hs: Seq<(Seq<char>, Seq<u8>)>,
    name: Seq<char>,
    value: Seq<u8>,
) -> Seq<(Seq<char>, Seq<u8>)> {
    if exists|i: int| 0 <= i < hs.len() && hs[i].0 == name {
        hs.update(header_position(hs, name), (name, value))
    } else {
        hs.push((name, value))
    }
}

/// No header name occurs twice.
pub open spec fn names_distinct(hs: Seq<(Seq<char>, Seq<u8>)>) -> bool {
    forall|i: int, j: int| 0 <= i < j < hs.len() ==> #[trigger] hs[i].0 != #[trigger] hs[j].0
}

/// The `Origin` sent upstream: the target's origin without a trailing slash.
pub open spec fn origin_header_value(target_href: Seq<char>) -> Option<Seq<u8>> {
    match origin_of_spec(target_href) {
        Some(origin) => header_value_of(trim_end_char(origin, '/')),
        None => None,
    }
}

/// The `Referer` sent upstream: the browser's referer path and query on the
/// target's origin.
pub open spec fn rebased_referer(value: Seq<u8>, target_href: Seq<char>) -> Option<Seq<u8>> {
    match header_text(value) {
        None => None,
        Some(referer) => match rebase_url_spec(target_href, referer) {
            Some(url) => header_value_of(url),
            None => None,
        },
    }
}

/// The value forwarded for a request header that is not hop-specific.
pub open spec fn forwarded_value(name: Seq<char>, value: Seq<u8>, target_href: Seq<char>) -> Option<Seq<u8>> {
    if name == "origin"@ {
        origin_header_value(target_href)
    } else if name == "referer"@ {
        rebased_referer(value, target_href)
    } else {
        Some(value)
    }
}

/// The headers sent upstream for the browser's request headers `hs`.
pub open spec fn outgoing_headers_spec(hs: Seq<(Seq<char>, Seq<u8>)>, target_href: Seq<char>) -> Seq<(Seq<char>, Seq<u8>)>
    decreases hs.len(),
{
    if hs.len() == 0 {
        Seq::empty()
    } else {
        let rest = outgoing_headers_spec(hs.drop_last(), target_href);
        let h = hs.last();
        let name = ascii_lower(h.0);
        if request_hop_headers().contains(name) {
            rest
        } else {
            match forwarded_value(name, h.1, target_href) {
                Some(v) => header_insert(rest, name, v),
                None => rest,
            }
        }
    }
}

/// The headers relayed to the browser for upstream response headers `hs`.
pub open spec fn incoming_headers_spec(hs: Seq<(Seq<char>, Seq<u8>)>) -> Seq<(Seq<char>, Seq<u8>)>
    decreases hs.len(),
{
    if hs.len() == 0 {
        Seq::empty()
    } else {
        let rest = incoming_headers_spec(hs.drop_last());
        let h = hs.last();
        let name = ascii_lower(h.0);
        if response_hop_headers().contains(name) {
            rest
        } else if name == "set-cookie"@ {
            match localize_cookie_spec(h.1) {
                Some(v) => rest.push((name, v)),
                None => rest,
            }
        } else {
            rest.push((name, h.1))
        }
    }
}

/// No hop-specific header is ever forwarded upstream.
pub proof fn law_outgoing_headers_skip_hop_headers(hs: Seq<(Seq<char>, Seq<u8>)>, target_href: Seq<char>)
    ensures
        forall|i: int|
            0 <= i < outgoing_headers_spec(hs, target_href).len() ==> !request_hop_headers().contains(
                (#[trigger] outgoing_headers_spec(hs, target_href)[i]).0,
            ),
    decreases hs.len(),
{
    if hs.len() > 0 {
        law_outgoing_headers_skip_hop_headers(hs.drop_last(), target_href);
        let rest = outgoing_headers_spec(hs.drop_last(), target_href);
        let h = hs.last();
        let r = outgoing_headers_spec(hs, target_href);
        assert forall|i: int| 0 <= i < r.len() implies !request_hop_headers().contains((#[trigger] r[i]).0) by {
            let name = ascii_lower(h.0);
            if !request_hop_headers().contains(name) {
                if let Some(v) = forwarded_value(name, h.1, target_href) {
                    assert(r == header_insert(rest, name, v));
                    if exists|j: int| 0 <= j < rest.len() && rest[j].0 == name {
                        let c = header_position(rest, name);
                        assert(r == rest.update(c, (name, v)));
                        if i != c {
                            assert(r[i] == rest[i]);
                        }
                    } else {
                        assert(r == rest.push((name, v)));
                        if i < rest.len() {
                            assert(r[i] == rest[i]);
                        }
                    }
                }
            }
        }
    }
}

/// No hop-specific or embedding-blocking header (such as
/// `Content-Security-Policy` or `X-Frame-Options`) is ever relayed to the
/// browser, and every relayed cookie has been localized.
pub proof fn law_incoming_headers_skip_hop_headers(hs: Seq<(Seq<char>, Seq<u8>)>)
    ensures
        forall|i: int|
            0 <= i < incoming_headers_spec(hs).len() ==> !response_hop_headers().contains(
                (#[trigger] incoming_headers_spec(hs)[i]).0,
            ),
    decreases hs.len(),
{
    if hs.len() > 0 {
        law_incoming_headers_skip_hop_headers(hs.drop_last());
        let rest = incoming_headers_spec(hs.drop_last());
        let r = incoming_headers_spec(hs);
        assert forall|i: int| 0 <= i < r.len() implies !response_hop_headers().contains((#[trigger] r[i]).0) by {
            if i < rest.len() {
                assert(r[i] == rest[i]);
            }
        }
    }
}

/// Exactly ten request headers are dropped: `host`, `connection`,
/// `keep-alive`, `proxy-connection`, `accept-encoding`, `content-length`,
/// `transfer-encoding`, `upgrade`, `te` and `trailer`, in any ASCII case.
/// Every other header but `Origin` and `Referer` (cookies included) is sent
/// upstream, lower-cased, with its value unchanged: it takes the place of an
/// earlier header of the same name, or comes last.
pub proof fn law_other_request_headers_are_forwarded(
    hs: Seq<(Seq<char>, Seq<u8>)>,
    target_href: Seq<char>,
    name: Seq<char>,
    value: Seq<u8>,
)
    ensures
        ({
            let n = ascii_lower(name);
            let sent = outgoing_headers_spec(hs.push((name, value)), target_href);
            let before = outgoing_headers_spec(hs, target_href);
            &&& seq![
                "host"@,
                "connection"@,
                "keep-alive"@,
                "proxy-connection"@,
                "accept-encoding"@,
                "content-length"@,
                "transfer-encoding"@,
                "upgrade"@,
                "te"@,
                "trailer"@,
            ].contains(n) ==> sent == before
            &&& !seq![
                "host"@,
                "connection"@,
                "keep-alive"@,
                "proxy-connection"@,
                "accept-encoding"@,
                "content-length"@,
                "transfer-encoding"@,
                "upgrade"@,
                "te"@,
                "trailer"@,
            ].contains(n) && n != "origin"@ && n != "referer"@ ==> sent == header_insert(before, n, value)
                && sent.contains((n, value))
        }),
{
    let n = ascii_lower(name);
    let hs2 = hs.push((name, value));
    assert(hs2.drop_last() =~= hs);
    let before = outgoing_headers_spec(hs, target_href);
    let sent = header_insert(before, n, value);
    if exists|i: int| 0 <= i < before.len() && before[i].0 == n {
        let c = header_position(before, n);
        assert(sent[c] == (n, value));
    } else {
        assert(sent[before.len() as int] == (n, value));
    }
}

/// Exactly ten response headers are dropped: `connection`, `keep-alive`,
/// `content-length`, `transfer-encoding`, `content-encoding`,
/// `content-security-policy`, `content-security-policy-report-only`,
/// `x-frame-options`, `strict-transport-security` and `alt-svc`, in any
/// ASCII case. Every other header but `Set-Cookie` (`Location` included) is
/// relayed to the browser, lower-cased, with its value unchanged, after the
/// headers before it.
pub proof fn law_other_response_headers_are_relayed(hs: Seq<(Seq<char>, Seq<u8>)>, name: Seq<char>, value: Seq<u8>)
    ensures
        ({
            let n = ascii_lower(name);
            let relayed = incoming_headers_spec(hs.push((name, value)));
            &&& seq![
                "connection"@,
                "keep-alive"@,
                "content-length"@,
                "transfer-encoding"@,
                "content-encoding"@,
                "content-security-policy"@,
                "content-security-policy-report-only"@,
                "x-frame-options"@,
                "strict-transport-security"@,
                "alt-svc"@,
            ].contains(n) ==> relayed == incoming_headers_spec(hs)
            &&& !seq![
                "connection"@,
                "keep-alive"@,
                "content-length"@,
                "transfer-encoding"@,
                "content-encoding"@,
                "content-security-policy"@,
                "content-security-policy-report-only"@,
                "x-frame-options"@,
                "strict-transport-security"@,
                "alt-svc"@,
            ].contains(n) && n != "set-cookie"@ ==> relayed == incoming_headers_spec(hs).push((n, value))
        }),
{
    assert(hs.push((name, value)).drop_last() =~= hs);
}

/// Headers to send upstream for the browser's request headers: hop headers
/// dropped, and `Origin` / `Referer` presented as Streamkit's own page.
pub fn outgoing_headers(headers: &Vec<Header>, target: &HttpUrl) -> (r: Vec<Header>)
    ensures
        header_views(r@) == outgoing_headers_spec(header_views(headers@), target.href@),
{
    let ghost hv = header_views(headers@);
    let origin_value: Option<Vec<u8>> = match origin_of(target.href.as_str()) {
        Some(origin) => header_value_exec(&trim_end_char_exec(&chars_of(origin.as_str()), '/')),
        None => None,
    };
    let mut out: Vec<Header> = Vec::new();
    let mut i: usize = 0;
    while i < headers.len()
        invariant
            hv == header_views(headers@),
            i <= headers.len(),
            origin_value matches Some(v) ==> origin_header_value(target.href@) == Some(v@),
            origin_value is None <==> origin_header_value(target.href@) is None,
            header_views(out@) == outgoing_headers_spec(hv.take(i as int), target.href@),
            names_distinct(header_views(out@)),
        decreases headers.len() - i,
    {
        let h = &headers[i];
        proof {
            let t = hv.take(i + 1);
            assert(t.drop_last() =~= hv.take(i as int));
            assert(t.last() == h@);
        }
        let name = string_of(&to_ascii_lower(&chars_of(h.name.as_str())));
        if !is_request_hop_header(name.as_str()) {
            let value: Option<Vec<u8>> = if str_eq(name.as_str(), "origin") {
                match &origin_value {
                    Some(v) => Some(v.clone()),
                    None => None,
                }
            } else if str_eq(name.as_str(), "referer") {
                rebase_referer(&h.value, target)
            } else {
                Some(h.value.clone())
            };
            match value {
                Some(v) => {
                    header_insert_exec(&mut out, name, v);
                },
                None => {},
            }
        }
        i = i + 1;
    }
    assert(hv.take(headers.len() as int) =~= hv);
    out
}

/// `HeaderMap::insert` on a list whose names are distinct.
fn header_insert_exec(hs: &mut Vec<Header>, name: String, value: Vec<u8>)
    requires
        names_distinct(header_views(old(hs)@)),
    ensures
        header_views(final(hs)@) == header_insert(header_views(old(hs)@), name@, value@),
        names_distinct(header_views(final(hs)@)),
{
    let ghost before = header_views(hs@);
    let mut i: usize = 0;
    while i < hs.len()
        invariant
            before == header_views(hs@),
            before == header_views(old(hs)@),
            names_distinct(before),
            i <= hs.len(),
            forall|j: int| 0 <= j < i ==> before[j].0 != name@,
        decreases hs.len() - i,
    {
        if hs[i].name == name {
            let ghost k = i as int;
            assert(before[k].0 == name@);
            let header = Header { name, value };
            hs.set(i, header);
            proof {
                let c = header_position(before, name@);
                if c != k {
                    if c < k {
                        assert(before[c].0 != before[k].0);
                    } else {
                        assert(before[k].0 != before[c].0);
                    }
                }
                assert(header_views(hs@) =~= before.update(k, (name@, value@)));
                assert forall|a: int, b: int| 0 <= a < b < header_views(hs@).len() implies #[trigger] header_views(hs@)[a].0
                    != #[trigger] header_views(hs@)[b].0 by {
                    assert(before[a].0 != before[b].0);
                }
            }
            return;
        }
        i = i + 1;
    }
    hs.push(Header { name, value });
    proof {
        assert(header_views(hs@) =~= before.push((name@, value@)));
        assert forall|a: int, b: int| 0 <= a < b < header_views(hs@).len() implies #[trigger] header_views(hs@)[a].0
            != #[trigger] header_views(hs@)[b].0 by {
            if b < before.len() {
                assert(before[a].0 != before[b].0);
            }
        }
    }
}

/// Point a `Referer` at the upstream copy of the page being proxied.
fn rebase_referer(value: &Vec<u8>, target: &HttpUrl) -> (r: Option<Vec<u8>>)
    ensures
        r matches Some(v) ==> rebased_referer(value@, target.href@) == Some(v@),
        r is None <==> rebased_referer(value@, target.href@) is None,
{
    let referer = match header_text_exec(value) {
        Some(t) => string_of(&t),
        None => return None,
    };
    match rebase_url(target.href.as_str(), referer.as_str()) {
        Some(url) => header_value_exec(&chars_of(url.as_str())),
        None => None,
    }
}

/// Headers to relay back to the browser for an upstream reply: hop and
/// embedding-blocking headers dropped, cookies localized.
pub fn incoming_headers(headers: &Vec<Header>) -> (r: Vec<Header>)
    ensures
        header_views(r@) == incoming_headers_spec(header_views(headers@)),
{
    let ghost hv = header_views(headers@);
    let mut out: Vec<Header> = Vec::new();
    let mut i: usize = 0;
    while i < headers.len()
        invariant
            hv == header_views(headers@),
            i <= headers.len(),
            header_views(out@) == incoming_headers_spec(hv.take(i as int)),
        decreases headers.len() - i,
    {
        let h = &headers[i];
        proof {
            let t = hv.take(i + 1);
            assert(t.drop_last() =~= hv.take(i as int));
            assert(t.last() == h@);
        }
        let name = string_of(&to_ascii_lower(&chars_of(h.name.as_str())));
        if !is_response_hop_header(name.as_str()) {
            if str_eq(name.as_str(), "set-cookie") {
                match localize_cookie(&h.value) {
                    Some(v) => {
                        let ghost nv = name@;
                        out.push(Header { name, value: v });
                        assert(header_views(out@) =~= incoming_headers_spec(hv.take(i as int)).push((nv, v@)));
                    },
                    None => {},
                }
            } else {
                let ghost nv = name@;
                out.push(Header { name, value: h.value.clone() });
                assert(header_views(out@) =~= incoming_headers_spec(hv.take(i as int)).push((nv, h.value@)));
            }
        }
        i = i + 1;
    }
    assert(hv.take(headers.len() as int) =~= hv);
    out
}

// ---------------------------------------------------------------------------
// URLs
// ---------------------------------------------------------------------------

/// An absolute URL as the `url` crate parses it: its scheme, its host (if
/// any) and its serialization.
#[derive(Debug, Clone)]
pub struct HttpUrl {
    pub scheme: String,
    pub host: Option<String>,
    pub href: String,
}

/// The view of an optional string.
pub open spec fn opt_chars(o: Option<String>) -> Option<Seq<char>> {
    match o {
        Some(s) => Some(s@),
        None => None,
    }
}

impl View for HttpUrl {
    type V = (Seq<char>, Option<Seq<char>>, Seq<char>);

    open spec fn view(&self) -> (Seq<char>, Option<Seq<char>>, Seq<char>) {
        (self.scheme@, opt_chars(self.host), self.href@)
    }
}

/// What `url::Url::parse` makes of `raw`: the parsed URL's scheme, host and
/// serialization, or the text of the parse error.
pub uninterp spec fn url_parse_spec(raw: Seq<char>) -> Result<(Seq<char>, Option<Seq<char>>, Seq<char>), Seq<char>>;

/// The serialization of the URL `href` after `set_path(path)` (`None` if
/// `href` does not parse).
pub uninterp spec fn url_with_path_spec(href: Seq<char>, path: Seq<char>) -> Option<Seq<char>>;

/// The serialization of the URL `href` after `set_query(query)` (`None` if
/// `href` does not parse).
pub uninterp spec fn url_with_query_spec(href: Seq<char>, query: Option<Seq<char>>) -> Option<Seq<char>>;

/// The serialization of the URL `href` after `set_fragment(fragment)`
/// (`None` if `href` does not parse).
pub uninterp spec fn url_with_fragment_spec(href: Seq<char>, fragment: Option<Seq<char>>) -> Option<Seq<char>>;

/// The `path()` of the URL `href` (`None` if `href` does not parse).
pub uninterp spec fn url_path_spec(href: Seq<char>) -> Option<Seq<char>>;

/// The `query()` of the URL `href` (`None` if `href` does not parse).
pub uninterp spec fn url_query_spec(href: Seq<char>) -> Option<Option<Seq<char>>>;

/// Whether setting a path or query of `added` characters on the URL `href`
/// stays clear of the `u32` offsets that `url::Url` keeps: a URL that does
/// not parse is left alone, and otherwise its serialization (at most 4 bytes
/// a character) plus the new part percent-encoded (at most 12 bytes a
/// character) and a separator stay within `u32::MAX` bytes.
pub open spec fn url_room(href: Seq<char>, added: int) -> bool {
    url_parse_spec(href) matches Ok(u) ==> 4 * u.2.len() + 12 * added + 3 <= 0xFFFF_FFFF
}

/// The serialization of `href.join(input)`, or the text of the error of
/// parsing `href` or of joining.
pub uninterp spec fn url_join_spec(href: Seq<char>, input: Seq<char>) -> Result<Seq<char>, Seq<char>>;

/// The view of an optional string slice.
pub open spec fn opt_str(o: Option<&str>) -> Option<Seq<char>> {
    match o {
        Some(s) => Some(s@),
        None => None,
    }
}

/// `url::Url::parse` (re-exported by reqwest), with the parsed URL's
/// `scheme()`, `host_str()` and `as_str()` read out. The contract names the
/// outcome; it claims only that the same input gives the same outcome.
#[verifier::external_body]
fn url_parse(raw: &str) -> (r: Result<HttpUrl, String>)
    ensures
        url_parse_spec(raw@) == match r {
            Ok(u) => Ok::<_, Seq<char>>(u@),
            Err(e) => Err(e@),
        },
{
    match reqwest::Url::parse(raw) {
        Ok(url) => Ok(HttpUrl {
            scheme: url.scheme().to_string(),
            host: url.host_str().map(|h| h.to_string()),
            href: url.as_str().to_string(),
        }),
        Err(e) => Err(e.to_string()),
    }
}

/// `url::Url::parse` of `href`, then `Url::set_path(path)`, read out with
/// `as_str()`. The contract names the outcome. `set_path` unwraps the new
/// serialization's length as a `u32` and panics past `u32::MAX` bytes, so
/// `requires` keeps the parsed URL and the new path within `url_room`.
#[verifier::external_body]
fn url_with_path(href: &str, path: &str) -> (r: Option<String>)
    requires
        url_room(href@, path@.len() as int),
    ensures
        url_with_path_spec(href@, path@) == opt_chars(r),
{
    let mut url = reqwest::Url::parse(href).ok()?;
    url.set_path(path);
    Some(url.as_str().to_string())
}

/// `url::Url::parse` of `href`, then `Url::set_query(query)`, read out with
/// `as_str()`. The contract names the outcome. When the URL has a fragment,
/// `set_query` unwraps the fragment's new offset as a `u32` and panics past
/// `u32::MAX` bytes, so `requires` keeps a new query within `url_room`.
#[verifier::external_body]
fn url_with_query(href: &str, query: Option<&str>) -> (r: Option<String>)
    requires
        query matches Some(q) ==> url_room(href@, q@.len() as int),
    ensures
        url_with_query_spec(href@, opt_str(query)) == opt_chars(r),
{
    let mut url = reqwest::Url::parse(href).ok()?;
    url.set_query(query);
    Some(url.as_str().to_string())
}

/// `url::Url::parse` of `href`, then `Url::set_fragment(fragment)`, read out
/// with `as_str()`. The contract names the outcome.
#[verifier::external_body]
fn url_with_fragment(href: &str, fragment: Option<&str>) -> (r: Option<String>)
    ensures
        url_with_fragment_spec(href@, opt_str(fragment)) == opt_chars(r),
{
    let mut url = reqwest::Url::parse(href).ok()?;
    url.set_fragment(fragment);
    Some(url.as_str().to_string())
}

/// `url::Url::parse` of `href`, then `Url::path()`. The contract names the
/// outcome.
#[verifier::external_body]
fn url_path(href: &str) -> (r: Option<String>)
    ensures
        url_path_spec(href@) == opt_chars(r),
{
    let url = reqwest::Url::parse(href).ok()?;
    Some(url.path().to_string())
}

/// `url::Url::parse` of `href`, then `Url::query()`. The contract names the
/// outcome.
#[verifier::external_body]
fn url_query(href: &str) -> (r: Option<Option<String>>)
    ensures
        url_query_spec(href@) == match r {
            Some(q) => Some(opt_chars(q)),
            None => None,
        },
{
    let url = reqwest::Url::parse(href).ok()?;
    Some(url.query().map(|q| q.to_string()))
}

/// `url::Url::parse` of `href`, then `Url::join(input)`, read out with
/// `as_str()`, or the text of either error. The contract names the outcome.
#[verifier::external_body]
fn url_join(href: &str, input: &str) -> (r: Result<String, String>)
    ensures
        url_join_spec(href@, input@) == match r {
            Ok(u) => Ok::<_, Seq<char>>(u@),
            Err(e) => Err(e@),
        },
{
    let url = reqwest::Url::parse(href).map_err(|e| e.to_string())?;
    match url.join(input) {
        Ok(joined) => Ok(joined.as_str().to_string()),
        Err(e) => Err(e.to_string()),
    }
}

/// The origin of the URL `href`: its serialization with the path set to
/// `/` and the query and fragment removed; `None` past `url_room`.
pub open spec fn origin_of_spec(href: Seq<char>) -> Option<Seq<char>> {
    if !url_room(href, 1) {
        None
    } else {
        match url_with_path_spec(href, "/"@) {
            None => None,
            Some(a) => match url_with_query_spec(a, None) {
                None => None,
                Some(b) => url_with_fragment_spec(b, None),
            },
        }
    }
}

/// Whether a path or query of `added` characters fits on the URL `href`.
fn has_url_room(href: &str, added: usize) -> (r: bool)
    ensures
        r == url_room(href@, added as int),
{
    match url_parse(href) {
        Err(_) => true,
        Ok(u) => {
            let n = u.href.as_str().unicode_len();
            n <= 0x3FFF_FFFF && added <= 0x1555_5555 && 4 * (n as u64) + 12 * (added as u64) + 3
                <= 0xFFFF_FFFF
        },
    }
}

/// The origin of the URL `href`: its serialization with the path set to
/// `/` and the query and fragment removed. `None` where `href` does not
/// parse, or where its serialization is too long for `url_room`.
pub fn origin_of(href: &str) -> (r: Option<String>)
    ensures
        opt_chars(r) == origin_of_spec(href@),
{
    if !has_url_room(href, 1) {
        return None;
    }
    proof {
        reveal_strlit("/");
    }
    let with_path = url_with_path(href, "/")?;
    let without_query = url_with_query(with_path.as_str(), None)?;
    url_with_fragment(without_query.as_str(), None)
}

/// The URL `target` with the path and query of the URL `referer`; `None`
/// where either does not parse, or where the result is too long for
/// `url_room`.
pub open spec fn rebase_url_spec(target: Seq<char>, referer: Seq<char>) -> Option<Seq<char>> {
    match url_path_spec(referer) {
        None => None,
        Some(path) => match url_query_spec(referer) {
            None => None,
            Some(query) => if !url_room(target, path.len() as int) {
                None
            } else {
                match url_with_path_spec(target, path) {
                    None => None,
                    Some(rebased) => match query {
                        None => url_with_query_spec(rebased, None),
                        Some(q) => if !url_room(rebased, q.len() as int) {
                            None
                        } else {
                            url_with_query_spec(rebased, Some(q))
                        },
                    },
                }
            },
        },
    }
}

/// The URL `target` with the path and query of the URL `referer`.
pub fn rebase_url(target: &str, referer: &str) -> (r: Option<String>)
    ensures
        opt_chars(r) == rebase_url_spec(target@, referer@),
{
    let path = url_path(referer)?;
    let query = url_query(referer)?;
    if !has_url_room(target, path.as_str().unicode_len()) {
        return None;
    }
    let rebased = url_with_path(target, path.as_str())?;
    match query {
        Some(q) => {
            if !has_url_room(rebased.as_str(), q.as_str().unicode_len()) {
                return None;
            }
            url_with_query(rebased.as_str(), Some(q.as_str()))
        },
        None => url_with_query(rebased.as_str(), None),
    }
}

/// The upstream URL for a request to `path_and_query` on this server: the
/// Streamkit URL `base` joined with it, then checked to be http(s).
pub open spec fn upstream_target_spec(base: Seq<char>, path_and_query: Seq<char>) -> Result<(Seq<char>, Option<Seq<char>>, Seq<char>), Option<Seq<char>>> {
    match parse_http_url_spec(base) {
        Err(e) => Err(e),
        Ok(b) => match url_join_spec(b.2, path_and_query) {
            Err(m) => Err(Some(m)),
            Ok(joined) => parse_http_url_spec(joined),
        },
    }
}

/// The upstream URL for a request to `path_and_query` on this server: the
/// Streamkit URL `base` joined with it. A bad URL is `InvalidUrl` with the
/// parser's message, a URL of another scheme `UnsupportedScheme`.
pub fn upstream_target(base: &str, path_and_query: &str) -> (r: Result<HttpUrl, ProxyError>)
    ensures
        r matches Ok(u) ==> upstream_target_spec(base@, path_and_query@) == Ok::<_, Option<Seq<char>>>(u@),
        r matches Err(ProxyError::InvalidUrl(m)) ==> upstream_target_spec(base@, path_and_query@)
            == Err::<(Seq<char>, Option<Seq<char>>, Seq<char>), _>(Some(m@)),
        r matches Err(ProxyError::UnsupportedScheme) ==> upstream_target_spec(base@, path_and_query@)
            == Err::<(Seq<char>, Option<Seq<char>>, Seq<char>), _>(None::<Seq<char>>),
        r is Ok || r matches Err(ProxyError::InvalidUrl(_)) || r matches Err(ProxyError::UnsupportedScheme),
{
    let origin = parse_http_url(base)?;
    match url_join(origin.href.as_str(), path_and_query) {
        Err(m) => Err(ProxyError::InvalidUrl(m)),
        Ok(joined) => parse_http_url(joined.as_str()),
    }
}

/// Why a proxied request could not be served.
#[derive(Debug)]
pub enum ProxyError {
    InvalidUrl(String),
    UnsupportedScheme,
    /// The upstream request failed; holds the request error's text.
    Request(String),
    BodyTooLarge,
}

impl ProxyError {
    /// The error's message.
    pub fn message(&self) -> (r: String)
        ensures
            self matches ProxyError::InvalidUrl(m) ==> r@ == "invalid target URL: "@ + m@,
            self matches ProxyError::UnsupportedScheme ==> r@ == "only http(s) Streamkit URLs are allowed"@,
            self matches ProxyError::Request(t) ==> r@ == "HTTP request failed: "@ + t@,
            self matches ProxyError::BodyTooLarge ==> r@ == "request body too large"@,
    {
        match self {
            ProxyError::InvalidUrl(m) => {
                let mut out = chars_of("invalid target URL: ");
                push_all(&mut out, &chars_of(m.as_str()));
                string_of(&out)
            },
            ProxyError::UnsupportedScheme => String::from_str("only http(s) Streamkit URLs are allowed"),
            ProxyError::Request(t) => {
                let mut out = chars_of("HTTP request failed: ");
                push_all(&mut out, &chars_of(t.as_str()));
                string_of(&out)
            },
            ProxyError::BodyTooLarge => String::from_str("request body too large"),
        }
    }
}

/// What the http(s) check makes of a parse outcome: the parser's error
/// message, `None` for a URL of another scheme, or the URL itself.
pub open spec fn http_url_spec(
    parsed: Result<(Seq<char>, Option<Seq<char>>, Seq<char>), Seq<char>>,
) -> Result<(Seq<char>, Option<Seq<char>>, Seq<char>), Option<Seq<char>>> {
    match parsed {
        Err(m) => Err(Some(m)),
        Ok(u) => if u.0 == "http"@ || u.0 == "https"@ {
            Ok(u)
        } else {
            Err(None)
        },
    }
}

/// The view of a parse outcome.
pub open spec fn parsed_view(parsed: Result<HttpUrl, String>) -> Result<(Seq<char>, Option<Seq<char>>, Seq<char>), Seq<char>> {
    match parsed {
        Ok(u) => Ok(u@),
        Err(m) => Err(m@),
    }
}

/// Keeps a parsed URL only when its scheme is `http` or `https`: a parse
/// failure is `InvalidUrl` with the parser's message, another scheme
/// `UnsupportedScheme`.
pub fn check_http_url(parsed: Result<HttpUrl, String>) -> (r: Result<HttpUrl, ProxyError>)
    ensures
        r matches Ok(u) ==> http_url_spec(parsed_view(parsed)) == Ok::<_, Option<Seq<char>>>(u@),
        r matches Err(ProxyError::InvalidUrl(m)) ==> http_url_spec(parsed_view(parsed)) == Err::<(Seq<char>, Option<Seq<char>>, Seq<char>), _>(Some(m@)),
        r matches Err(ProxyError::UnsupportedScheme) ==> http_url_spec(parsed_view(parsed)) == Err::<(Seq<char>, Option<Seq<char>>, Seq<char>), _>(None::<Seq<char>>),
        r is Ok || r matches Err(ProxyError::InvalidUrl(_)) || r matches Err(ProxyError::UnsupportedScheme),
{
    match parsed {
        Err(m) => Err(ProxyError::InvalidUrl(m)),
        Ok(url) => {
            if str_eq(url.scheme.as_str(), "http") || str_eq(url.scheme.as_str(), "https") {
                Ok(url)
            } else {
                Err(ProxyError::UnsupportedScheme)
            }
        },
    }
}

/// What `parse_http_url` gives for `raw`.
pub open spec fn parse_http_url_spec(raw: Seq<char>) -> Result<(Seq<char>, Option<Seq<char>>, Seq<char>), Option<Seq<char>>> {
    http_url_spec(url_parse_spec(raw))
}

/// Parse and validate an http(s) URL from user-controlled input.
///
/// An unparsable URL is `InvalidUrl` with the parser's message; a URL of any
/// other scheme is `UnsupportedScheme`.
pub fn parse_http_url(raw: &str) -> (r: Result<HttpUrl, ProxyError>)
    ensures
        r matches Ok(u) ==> parse_http_url_spec(raw@) == Ok::<_, Option<Seq<char>>>(u@),
        r matches Err(ProxyError::InvalidUrl(m)) ==> parse_http_url_spec(raw@) == Err::<(Seq<char>, Option<Seq<char>>, Seq<char>), _>(Some(m@)),
        r matches Err(ProxyError::UnsupportedScheme) ==> parse_http_url_spec(raw@) == Err::<(Seq<char>, Option<Seq<char>>, Seq<char>), _>(None::<Seq<char>>),
        r is Ok || r matches Err(ProxyError::InvalidUrl(_)) || r matches Err(ProxyError::UnsupportedScheme),
{
    let parsed = url_parse(raw);
    assert(parsed_view(parsed) == url_parse_spec(raw@));
    check_http_url(parsed)
}

// ---------------------------------------------------------------------------
// Upstream replies
// ---------------------------------------------------------------------------

/// An upstream reply, ready to be handed back to the browser.
#[derive(Debug, Clone)]
pub struct UpstreamResponse {
    pub status: u16,
    pub headers: Vec<Header>,
    pub body: Vec<u8>,
}

/// The value of the first header whose name, lower-cased, is `name`, as
/// `HeaderMap::get` finds it.
pub open spec fn first_header(hs: Seq<(Seq<char>, Seq<u8>)>, name: Seq<char>) -> Option<Seq<u8>>
    decreases hs.len(),
{
    if hs.len() == 0 {
        None
    } else if ascii_lower(hs[0].0) == name {
        Some(hs[0].1)
    } else {
        first_header(hs.drop_first(), name)
    }
}

/// The reply declares an HTML body: its first `content-type` is readable
/// text that starts with `text/html` after leading whitespace.
pub open spec fn is_html_spec(hs: Seq<(Seq<char>, Seq<u8>)>) -> bool {
    match first_header(hs, "content-type"@) {
        Some(v) => match header_text(v) {
            Some(t) => is_prefix("text/html"@, trim_start(t)),
            None => false,
        },
        None => false,
    }
}

/// `StatusCode::is_success`.
pub open spec fn is_success(status: u16) -> bool {
    200 <= status <= 299
}

impl UpstreamResponse {
    /// Whether the reply declares an HTML body.
    pub fn is_html(&self) -> (r: bool)
        ensures
            r == is_html_spec(header_views(self.headers@)),
    {
        let ghost hv = header_views(self.headers@);
        let mut i: usize = 0;
        assert(hv.skip(0) =~= hv);
        while i < self.headers.len()
            invariant
                hv == header_views(self.headers@),
                i <= self.headers.len(),
                first_header(hv, "content-type"@) == first_header(hv.skip(i as int), "content-type"@),
            decreases self.headers.len() - i,
        {
            let h = &self.headers[i];
            assert(hv.skip(i as int)[0] == h@);
            let name = string_of(&to_ascii_lower(&chars_of(h.name.as_str())));
            if str_eq(name.as_str(), "content-type") {
                return match header_text_exec(&h.value) {
                    Some(t) => {
                        let trimmed = trim_start_exec(&t);
                        let text_html = chars_of("text/html");
                        assert(trimmed@.skip(0) =~= trimmed@);
                        occurs_at(&trimmed, 0, &text_html)
                    },
                    None => false,
                };
            }
            assert(hv.skip(i as int).drop_first() =~= hv.skip(i + 1));
            i = i + 1;
        }
        false
    }
}

/// The content type to serve a fetched asset with: the text of the reply's
/// first `content-type`, or `application/octet-stream` where there is none
/// or it is not readable text.
pub open spec fn content_type_spec(hs: Seq<(Seq<char>, Seq<u8>)>) -> Seq<char> {
    match first_header(hs, "content-type"@) {
        Some(v) => match header_text(v) {
            Some(t) => t,
            None => "application/octet-stream"@,
        },
        None => "application/octet-stream"@,
    }
}

/// The content type to serve a fetched asset with.
pub fn content_type_of(headers: &Vec<Header>) -> (r: String)
    ensures
        r@ == content_type_spec(header_views(headers@)),
{
    let ghost hv = header_views(headers@);
    let mut i: usize = 0;
    assert(hv.skip(0) =~= hv);
    while i < headers.len()
        invariant
            hv == header_views(headers@),
            i <= headers.len(),
            first_header(hv, "content-type"@) == first_header(hv.skip(i as int), "content-type"@),
        decreases headers.len() - i,
    {
        let h = &headers[i];
        assert(hv.skip(i as int)[0] == h@);
        let name = string_of(&to_ascii_lower(&chars_of(h.name.as_str())));
        if str_eq(name.as_str(), "content-type") {
            match header_text_exec(&h.value) {
                Some(t) => {
                    return string_of(&t);
                },
                None => {
                    return "application/octet-stream".to_owned();
                },
            }
        }
        assert(hv.skip(i as int).drop_first() =~= hv.skip(i + 1));
        i = i + 1;
    }
    "application/octet-stream".to_owned()
}

// ---------------------------------------------------------------------------
// Injection into Streamkit's HTML
// ---------------------------------------------------------------------------

/// Routes Streamkit's Discord RPC socket through this server.
///
/// The bundle hardcodes `new WebSocket("ws://127.0.0.1:" + port + "/?v=1…")`,
/// and the Discord client rejects that handshake because the browser stamps it
/// with our origin. Patching `window.WebSocket` here — before the bundle runs —
/// sends it to `/rpc/<port>/` instead, where the server re-dials Discord with
/// the origin it expects.
pub const RPC_BRIDGE_SCRIPT: &'static str = r#"<script id="discord-overlay-rpc-bridge">
(() => {
  const Native = window.WebSocket;
  const localSocket = /^ws:\/\/(?:127\.0\.0\.1|localhost):(\d+)\//i;
  const Bridged = function (url, protocols) {
    let target = String(url);
    const match = localSocket.exec(target);
    // Never rewrite a socket that already points at this proxy.
    if (match && match[1] !== location.port) {
      target = target.replace(localSocket, "ws://" + location.host + "/rpc/" + match[1] + "/");
    }
    return protocols === undefined ? new Native(target) : new Native(target, protocols);
  };
  Bridged.prototype = Native.prototype;
  for (const key of ["CONNECTING", "OPEN", "CLOSING", "CLOSED"]) {
    Bridged[key] = Native[key];
  }
  window.WebSocket = Bridged;
})();
</script>"#;

/// Long-polls the proxy for config changes and reloads the overlay on any edit.
/// Served from the same origin, so a relative endpoint always resolves.
pub const HOT_RELOAD_SCRIPT: &'static str = r#"<script id="discord-overlay-hotreload">
(() => {
  const endpoint = new URL("/reload-events", location.origin).href;
  const version = __VERSION__;
  const sleep = (ms) => new Promise((done) => setTimeout(done, ms));
  (async () => {
    for (;;) {
      try {
        const res = await fetch(endpoint + "?since=" + version, { cache: "no-store" });
        const next = Number(await res.text());
        if (Number.isFinite(next) && next !== version) {
          location.reload();
          return;
        }
      } catch (err) {
        // Proxy restarting or unreachable — back off and keep trying.
        await sleep(2000);
      }
    }
  })();
})();
</script>"#;

/// Opening tag of the injected stylesheet.
pub const STYLE_OPEN: &'static str = "<style id=\"discord-overlay-custom\" type=\"text/css\">\n";

/// Everything spliced into the end of the Streamkit document head: the
/// generated avatar CSS and the watcher script tagged with `version`.
pub open spec fn head_injection_spec(users: Map<Seq<char>, crate::config::AvatarView>, version: u64) -> Seq<char> {
    STYLE_OPEN@ + overlay_css(users) + "\n</style>\n"@
        + replace_all(HOT_RELOAD_SCRIPT@, "__VERSION__"@, decimal(version as nat)) + "\n"@
}

/// The hot-reload script cut around its version placeholder.
spec fn hot_reload_pieces(version: Seq<char>) -> Seq<Seq<char>> {
    seq!["<script id=\"discord-overlay-hotreload\">\n(() => {\n  const endpoint = new URL(\"/reload-events\", location.origin).href;\n  "@, "const version = "@, version, ";"@, "\n  const sleep = (ms) => new Promise((done) => setTimeout(done, ms));\n  (async () => {\n    for (;;) {\n      try {\n        const res = await fetch(endpoint + \"?since=\" + version, { cache: \"no-store\" });\n        const next = Number(await res.text());\n        if (Number.isFinite(next) && next !== version) {\n          location.reload();\n          return;\n        }\n      } catch (err) {\n        // Proxy restarting or unreachable — back off and keep trying.\n        await sleep(2000);\n      }\n    }\n  })();\n})();\n</script>"@]
}

/// The hot-reload script is its literal text with `__VERSION__` in the
/// version slot, and no other start of `__VERSION__` in it.
proof fn lemma_hot_reload_pieces()
    ensures
        HOT_RELOAD_SCRIPT@ == concat(hot_reload_pieces("__VERSION__"@)),
        forall|k: int|
            0 <= k < 5 && k != 2 ==> no_start_of("__VERSION__"@, #[trigger] hot_reload_pieces("__VERSION__"@)[k]),
{
    reveal_strlit(r#"<script id="discord-overlay-hotreload">
(() => {
  const endpoint = new URL("/reload-events", location.origin).href;
  const version = __VERSION__;
  const sleep = (ms) => new Promise((done) => setTimeout(done, ms));
  (async () => {
    for (;;) {
      try {
        const res = await fetch(endpoint + "?since=" + version, { cache: "no-store" });
        const next = Number(await res.text());
        if (Number.isFinite(next) && next !== version) {
          location.reload();
          return;
        }
      } catch (err) {
        // Proxy restarting or unreachable — back off and keep trying.
        await sleep(2000);
      }
    }
  })();
})();
</script>"#);
    reveal_strlit("<script id=\"discord-overlay-hotreload\">\n(() => {\n  const endpoint = new URL(\"/reload-events\", location.origin).href;\n  ");
    reveal_strlit("\n  const sleep = (ms) => new Promise((done) => setTimeout(done, ms));\n  (async () => {\n    for (;;) {\n      try {\n        const res = await fetch(endpoint + \"?since=\" + version, { cache: \"no-store\" });\n        const next = Number(await res.text());\n        if (Number.isFinite(next) && next !== version) {\n          location.reload();\n          return;\n        }\n      } catch (err) {\n        // Proxy restarting or unreachable — back off and keep trying.\n        await sleep(2000);\n      }\n    }\n  })();\n})();\n</script>");
    reveal_strlit("const version = ");
    reveal_strlit(";");
    reveal_strlit("__VERSION__");
    let ps = hot_reload_pieces("__VERSION__"@);
    assert(ps.skip(0) =~= ps);
    lemma_concat_skip(ps, 0);
    lemma_concat_skip(ps, 1);
    lemma_concat_skip(ps, 2);
    lemma_concat_skip(ps, 3);
    lemma_concat_skip(ps, 4);
    assert(ps.skip(5).len() == 0);
    assert(ps[4] + concat(ps.skip(5)) =~= ps[4]);
    assert(HOT_RELOAD_SCRIPT@ =~= concat(ps));
    assert forall|k: int| 0 <= k < 5 && k != 2 implies no_start_of("__VERSION__"@, #[trigger] ps[k]) by {
        assert(k == 0 || k == 1 || k == 3 || k == 4);
    }
}

/// The head injected into a Streamkit page carries the configuration
/// version it was rendered with, in full: the hot-reload script reads
/// `const version = <v>;`, the number `/reload-events` is compared with.
pub proof fn law_injected_version_is_the_live_one(users: Map<Seq<char>, crate::config::AvatarView>, version: u64)
    ensures
        occurs_in("const version = "@ + decimal(version as nat) + ";"@, head_injection_spec(users, version)),
{
    let pat = "__VERSION__"@;
    let dec = decimal(version as nat);
    reveal_strlit("__VERSION__");
    lemma_hot_reload_pieces();
    let ps = hot_reload_pieces(pat);
    let qs = hot_reload_pieces(dec);
    assert forall|k: int| 0 <= k < ps.len() implies #[trigger] ps[k] == pat || piece_kept(ps, k, pat) by {
        if k != 2 {
            assert(no_start_of(pat, ps[k]));
        }
    }
    assert(pat[0] == '_' && pat[1] == '_' && pat.len() == 11);
    assert(!no_start_of(pat, pat));
    assert forall|k: int| 0 <= k < ps.len() implies (#[trigger] qs[k]) == (if ps[k] == pat { dec } else { ps[k] }) by {
        if k != 2 {
            assert(no_start_of(pat, ps[k]));
            assert(ps[k] != pat);
        }
    }
    lemma_replace_pieces(ps, qs, pat, dec);
    assert(qs.skip(0) =~= qs);
    lemma_concat_skip(qs, 0);
    lemma_concat_skip(qs, 1);
    lemma_concat_skip(qs, 2);
    lemma_concat_skip(qs, 3);
    lemma_concat_skip(qs, 4);
    assert(qs.skip(5).len() == 0);
    let front = STYLE_OPEN@ + overlay_css(users) + "\n</style>\n"@ + qs[0];
    let wanted = "const version = "@ + dec + ";"@;
    let rest = qs[4] + concat(qs.skip(5));
    let whole = head_injection_spec(users, version);
    assert(whole =~= front + wanted + rest + "\n"@);
    assert(whole.subrange(front.len() as int, front.len() + wanted.len() as int) =~= wanted);
}

/// Everything we splice into the Streamkit document head: the generated avatar
/// CSS and the watcher script that reloads the page when `config.toml` changes.
///
/// There is deliberately no `<base href>`: the whole Streamkit app is
/// reverse-proxied through this server, so relative URLs must keep resolving
/// against our own origin.
pub fn head_injection(config: &Config, version: u64) -> (r: String)
    ensures
        r@ == head_injection_spec(config.users@, version),
{
    let css = generate_overlay_css(&config.users);
    let version_key = chars_of("__VERSION__");
    proof {
        reveal_strlit("__VERSION__");
    }
    let hot_reload = replace(&chars_of(HOT_RELOAD_SCRIPT), &version_key, &u64_decimal(version));
    let mut out = chars_of(STYLE_OPEN);
    push_all(&mut out, &chars_of(css.as_str()));
    push_all(&mut out, &chars_of("\n</style>\n"));
    push_all(&mut out, &hot_reload);
    push_all(&mut out, &chars_of("\n"));
    string_of(&out)
}

/// An opening `<head>` tag starts at `s` in the lower-cased document
/// `lower`: `<head` followed by `>` or whitespace (so `<header>` is not one).
pub open spec fn head_tag_at(lower: Seq<char>, s: int) -> bool {
    &&& 0 <= s
    &&& s + "<head"@.len() < lower.len()
    &&& is_prefix("<head"@, lower.skip(s))
    &&& (lower[s + "<head"@.len()] == '>' || is_whitespace(lower[s + "<head"@.len()]))
}

/// The first opening `<head>` tag at or after `i`.
pub open spec fn first_head_tag_from(lower: Seq<char>, i: int) -> Option<int>
    decreases lower.len() - i,
{
    if i < 0 || i >= lower.len() {
        None
    } else if head_tag_at(lower, i) {
        Some(i)
    } else {
        first_head_tag_from(lower, i + 1)
    }
}

/// Character index just past the opening `<head …>` tag of the lower-cased
/// document `lower`: the first `<head` that is followed by `>` or whitespace,
/// up to the first `>` after it.
pub open spec fn head_open_index(lower: Seq<char>) -> Option<int> {
    match first_head_tag_from(lower, 0) {
        None => None,
        Some(start) => match find(lower.skip(start), ">"@) {
            Some(end) => Some(start + end + 1),
            None => None,
        },
    }
}

/// Byte offset just past the opening `<head …>` tag, if there is one.
pub open spec fn head_open_end_spec(lower: Seq<char>) -> Option<usize> {
    match head_open_index(lower) {
        Some(i) => Some(encode_utf8(lower.take(i)).len() as usize),
        None => None,
    }
}

/// Document wrapped around `html` when it has neither `<head>` nor `</head>`.
pub open spec fn wrap_document(html: Seq<char>, early: Seq<char>, late: Seq<char>) -> Seq<char> {
    "<!DOCTYPE html>\n<html>\n<head>\n"@ + early + late + "</head>\n<body>\n"@ + html
        + "\n</body>\n</html>"@
}

/// `early` spliced in right after `<head>` and `late` just before
/// `</head>`; with only one of the two tags, both go together at it; with
/// neither, a document is built around `html`.
pub open spec fn inject_head_spec(html: Seq<char>, early: Seq<char>, late: Seq<char>) -> Seq<char> {
    let lower = ascii_lower(html);
    let head_start = head_open_index(lower);
    let head_end = find(lower, "</head>"@);
    if head_start is Some && head_end is Some && head_start->0 <= head_end->0 {
        let start = head_start->0;
        let end = head_end->0;
        html.take(start) + early + html.subrange(start, end) + late + html.skip(end)
    } else if head_start is Some {
        let at = head_start->0;
        html.take(at) + early + late + html.skip(at)
    } else if head_end is Some {
        let at = head_end->0;
        html.take(at) + early + late + html.skip(at)
    } else {
        wrap_document(html, early, late)
    }
}

/// The first opening `<head>` tag of `lower`.
fn first_head_tag(lower: &Vec<char>) -> (r: Option<usize>)
    ensures
        r matches Some(i) ==> first_head_tag_from(lower@, 0) == Some(i as int) && i < lower.len(),
        r is None <==> first_head_tag_from(lower@, 0) is None,
{
    proof {
        reveal_strlit("<head");
    }
    let open_tag = chars_of("<head");
    let mut start: usize = 0;
    while start < lower.len()
        invariant
            open_tag@ == "<head"@,
            open_tag@.len() == 5,
            start <= lower.len(),
            first_head_tag_from(lower@, 0) == first_head_tag_from(lower@, start as int),
        decreases lower.len() - start,
    {
        if lower.len() - start > 5 && occurs_at(lower, start, &open_tag) {
            let next = lower[start + 5];
            if next == '>' || is_whitespace_exec(next) {
                assert(head_tag_at(lower@, start as int));
                return Some(start);
            }
        }
        assert(!head_tag_at(lower@, start as int));
        start = start + 1;
    }
    None
}

fn head_open_index_exec(lower: &Vec<char>) -> (r: Option<usize>)
    ensures
        r matches Some(i) ==> head_open_index(lower@) == Some(i as int) && i <= lower.len(),
        r is None <==> head_open_index(lower@) is None,
{
    proof {
        reveal_strlit(">");
    }
    let start = match first_head_tag(lower) {
        Some(s) => s,
        None => return None,
    };
    let gt = chars_of(">");
    assert(gt@.len() == 1);
    match find_from(lower, start, &gt) {
        Some(end) => {
            proof {
                crate::text::lemma_find_bounds(lower@.skip(start as int), ">"@);
                assert(end + 1 <= lower.len());
            }
            Some(end + 1)
        },
        None => None,
    }
}

/// Byte offset just past the opening `<head …>` tag of the lower-cased
/// document `lower`, if there is one.
pub fn head_open_end(lower: &str) -> (r: Option<usize>)
    ensures
        r == head_open_end_spec(lower@),
{
    let chars = chars_of(lower);
    match head_open_index_exec(&chars) {
        Some(i) => {
            let prefix = string_of(&slice(&chars, 0, i));
            assert(prefix@ =~= lower@.take(i as int));
            Some(prefix.as_str().len())
        },
        None => None,
    }
}

/// Splice `early` in right after `<head>` and `late` in just before `</head>`,
/// tolerating documents that are missing either tag.
pub fn inject_head(html: &str, early: &str, late: &str) -> (r: String)
    ensures
        r@ == inject_head_spec(html@, early@, late@),
{
    let h = chars_of(html);
    let e = chars_of(early);
    let l = chars_of(late);
    let lower = to_ascii_lower(&h);
    let head_start = head_open_index_exec(&lower);
    let close = chars_of("</head>");
    let head_end = find_first(&lower, &close);
    proof {
        crate::text::lemma_find_bounds(lower@, "</head>"@);
        assert(lower@.len() == h@.len());
        if let Some(s) = head_start {
            crate::text::lemma_find_bounds(lower@, "<head"@);
        }
    }
    let mut out: Vec<char> = Vec::new();
    let (first, second) = match (head_start, head_end) {
        (Some(start), Some(end)) => (start, end),
        (Some(at), None) => (at, at),
        (None, Some(at)) => (at, at),
        (None, None) => {
            push_all(&mut out, &chars_of("<!DOCTYPE html>\n<html>\n<head>\n"));
            push_all(&mut out, &e);
            push_all(&mut out, &l);
            push_all(&mut out, &chars_of("</head>\n<body>\n"));
            push_all(&mut out, &h);
            push_all(&mut out, &chars_of("\n</body>\n</html>"));
            return string_of(&out);
        },
    };
    if first <= second && head_start.is_some() && head_end.is_some() {
        push_all(&mut out, &slice(&h, 0, first));
        push_all(&mut out, &e);
        push_all(&mut out, &slice(&h, first, second));
        push_all(&mut out, &l);
        push_all(&mut out, &slice(&h, second, h.len()));
        assert(h@.skip(second as int) =~= h@.subrange(second as int, h@.len() as int));
        assert(h@.take(first as int) =~= h@.subrange(0, first as int));
    } else {
        push_all(&mut out, &slice(&h, 0, first));
        push_all(&mut out, &e);
        push_all(&mut out, &l);
        push_all(&mut out, &slice(&h, first, h.len()));
        assert(h@.skip(first as int) =~= h@.subrange(first as int, h@.len() as int));
        assert(h@.take(first as int) =~= h@.subrange(0, first as int));
    }
    string_of(&out)
}

/// `std::str::from_utf8`, with the decoded text copied into a `String`: the
/// bytes decode exactly when they are valid UTF-8, and then to
/// `decode_utf8` of them.
#[verifier::external_body]
fn utf8_decode(bytes: &[u8]) -> (r: Option<String>)
    ensures
        r is Some <==> valid_utf8(bytes@),
        r matches Some(s) ==> s@ == decode_utf8(bytes@),
{
    match std::str::from_utf8(bytes) {
        Ok(text) => Some(text.to_string()),
        Err(_) => None,
    }
}

/// The body of `response` after the overlay has been spliced into it: only a
/// successful HTML reply whose body is UTF-8 is changed.
pub open spec fn injected_body(
    status: u16,
    headers: Seq<(Seq<char>, Seq<u8>)>,
    body: Seq<u8>,
    users: Map<Seq<char>, crate::config::AvatarView>,
    version: u64,
) -> Seq<u8> {
    if is_success(status) && is_html_spec(headers) && valid_utf8(body) {
        encode_utf8(inject_head_spec(decode_utf8(body), RPC_BRIDGE_SCRIPT@, head_injection_spec(users, version)))
    } else {
        body
    }
}

/// Splice our CSS and hot-reload script into an HTML reply.
///
/// Anything that is not successfully-served HTML (scripts, images, Cloudflare
/// challenges, redirects) passes through untouched.
pub fn inject_overlay(response: &mut UpstreamResponse, config: &Config, version: u64)
    ensures
        final(response).status == old(response).status,
        final(response).headers@ == old(response).headers@,
        final(response).body@ == injected_body(
            old(response).status,
            header_views(old(response).headers@),
            old(response).body@,
            config.users@,
            version,
        ),
{
    if !(200 <= response.status && response.status <= 299) || !response.is_html() {
        return;
    }
    let html = match utf8_decode(response.body.as_slice()) {
        Some(text) => text,
        None => return,
    };
    // The RPC bridge must patch `window.WebSocket` before Streamkit's bundle
    // runs, so it goes first; the CSS goes last to win the cascade.
    let late = head_injection(config, version);
    let injected = inject_head(html.as_str(), RPC_BRIDGE_SCRIPT, late.as_str());
    response.body = injected.as_str().as_bytes_vec();
}

} // verus!
