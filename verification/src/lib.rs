//! IP address watching: a verified core for deriving `Up`/`Down` address
//! events from successive snapshots of a host's interface addresses.
//!
//! The crate models network prefixes as plain values, keeps the watcher's
//! authoritative address set, computes minimal ordered event lists between
//! snapshots, decodes netlink-style address-change messages, and exposes a
//! poll-based queue of pending events. Platform plumbing (sockets, timers,
//! task wakers) lives outside the library and feeds it plain values.

pub mod diff;
pub mod net;
pub mod parse;
pub mod retry;
pub mod watcher;

pub use diff::{AddressSet, IfEvent};
pub use net::{IpNet, Ipv4Net, Ipv6Net};
pub use parse::ParseError;
pub use retry::RetryPolicy;
pub use watcher::Watcher;
