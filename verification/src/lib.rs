//! A WireGuard-over-TCP tunnel in userspace: the verified part.
//!
//! An application opens TCP connections through the tunnel, directly or by way of a SOCKS5
//! proxy. [smoltcp](stack) turns them into IP packets, [boringtun](noise) encrypts the
//! packets, and the [transport](frame) sends each encrypted message over one TCP stream
//! behind a length prefix. [`tunnel::Datapath`] holds all of that together.
//!
//! Nothing here reads, writes or waits. Callers hand in what arrived and do what the
//! functions ask for.
pub mod client;
pub mod conf;
pub mod conn;
pub mod device;
pub mod dns;
pub mod frame;
pub mod http;
pub mod ipv4;
pub mod noise;
pub mod resolver;
pub mod socks5;
pub mod stack;
pub mod stream;
pub mod text;
pub mod tunnel;
