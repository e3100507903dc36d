//! The core of a userspace WireGuard device: routing by allowed IPs, the peer
//! indices, the control protocol and the decisions of the packet handlers.

pub mod allowed_ips;
pub mod api;
pub mod command;
pub mod device;
pub mod emit;
pub mod error;
pub mod event_loop;
pub mod framing;
pub mod handlers;
pub mod ip;
pub mod keys;
pub mod lock;
pub mod parse;
pub mod peer;
pub mod round_trip;
pub mod text;
