//! A small reverse-proxy gateway: it picks an upstream host by matching
//! configured substrings against the request path, rewrites the request
//! headers, and relays the upstream response back to the caller.
//!
//! This crate holds the decisions of the gateway; the sockets, the HTTP
//! server and the HTTP client live with the program that embeds it.

pub mod text;
pub mod route;
pub mod headers;
pub mod args;
pub mod server;
pub mod proxy;
