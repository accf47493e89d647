//! Decisions around the WebSocket bridge to the local Discord client.

use vstd::prelude::*;

use crate::text::{chars_of, decimal, push_all, string_of, u64_decimal};

verus! {

/// Lowest port the Discord desktop client binds its RPC socket to.
pub const RPC_PORT_FIRST: u16 = 6463;

/// Highest port the Discord desktop client binds its RPC socket to.
pub const RPC_PORT_LAST: u16 = 6472;

/// Whether `port` is one the Discord desktop client listens on for RPC.
pub fn is_rpc_port(port: u16) -> (r: bool)
    ensures
        r == (RPC_PORT_FIRST <= port && port <= RPC_PORT_LAST),
{
    RPC_PORT_FIRST <= port && port <= RPC_PORT_LAST
}

/// The origin the Discord client accepts for Streamkit overlays.
pub const RPC_ORIGIN: &'static str = "https://streamkit.discord.com";

/// The Discord RPC socket URL for `port`, keeping the browser's query.
pub open spec fn rpc_url_spec(port: u16, query: Option<Seq<char>>) -> Seq<char> {
    "ws://127.0.0.1:"@ + decimal(port as nat) + match query {
        Some(q) => "/?"@ + q,
        None => "/"@,
    }
}

/// The Discord RPC socket URL the bridge dials for a browser socket on
/// `/rpc/<port>/?<query>`.
pub fn rpc_url(port: u16, query: Option<&str>) -> (r: String)
    ensures
        r@ == rpc_url_spec(port, match query { Some(q) => Some(q@), None => None }),
{
    let mut out = chars_of("ws://127.0.0.1:");
    push_all(&mut out, &u64_decimal(port as u64));
    match query {
        Some(q) => {
            push_all(&mut out, &chars_of("/?"));
            push_all(&mut out, &chars_of(q));
        },
        None => push_all(&mut out, &chars_of("/")),
    }
    string_of(&out)
}

} // verus!
