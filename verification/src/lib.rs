//! Verified core of the Discord Streamkit overlay proxy.

pub mod config;
pub mod css;
pub mod css_slots;
pub mod proxy;
pub mod reload;
pub mod routes;
pub mod rpc;
pub mod text;
pub mod web;
