//! A DNS-filtering forwarder: blocklist matching, a response cache, the
//! message codec and the resolution engine that ties them together.

pub mod blocklist;
pub mod cache;
pub mod message;
pub mod config;
pub mod resolver;
pub mod shared;
