//! The local proxy server: a pool of proxies and the handling of each client.
pub mod auth;
pub mod control;
pub mod http;
pub mod intake;
pub mod metrics;
pub mod pool;
pub mod relay;
pub mod select;
pub mod session;
pub mod socks5;
