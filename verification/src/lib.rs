//! Find, check and serve public HTTP(S) and SOCKS4/5 proxies.
pub mod addr;
pub mod addr_parse;
pub mod broker;
pub mod cli;
pub mod geo;
pub mod measure;
pub mod mmdb;
pub mod output;
pub mod parse;
pub mod pattern;
pub mod persist;
pub mod proxy;
pub mod server;
pub mod text;
pub mod tui;
pub mod types;
