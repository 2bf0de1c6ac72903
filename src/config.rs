//! Settings that the resolution engine and the server are built from.

use vstd::prelude::*;
use std::path::PathBuf;

verus! {

#[verifier::external_type_specification]
#[verifier::external_body]
pub struct ExPathBuf(PathBuf);

/// What to answer for a blocked name.
#[derive(PartialEq, Eq, Structural, Clone, Copy, Debug)]
pub enum BlockAction {
    /// Answer with the configured sinkhole address.
    Sinkhole,
    /// Answer that the name does not exist.
    Nxdomain,
}

pub open spec fn block_action_label(a: BlockAction) -> Seq<char> {
    match a {
        BlockAction::Sinkhole => "Sinkhole"@,
        BlockAction::Nxdomain => "NXDOMAIN"@,
    }
}

impl BlockAction {
    /// The name of the action as it is shown in logs.
    pub fn to_string(&self) -> (r: String)
        ensures
            r@ == block_action_label(*self),
    {
        match self {
            BlockAction::Sinkhole => String::from_str("Sinkhole"),
            BlockAction::Nxdomain => String::from_str("NXDOMAIN"),
        }
    }
}

/// The daemon's settings, as read from its configuration file.
pub struct Config {
    /// The socket address to bind the DNS server to (e.g. "0.0.0.0:53").
    pub listen_addr: String,
    /// The upstream DNS server to forward queries to (e.g. "1.1.1.1:53").
    pub upstream_dns_addr: String,
    /// The action to take for blocked requests.
    pub block_action: BlockAction,
    /// The IPv4 address to answer with for blocked names under `Sinkhole`.
    pub sinkhole_ip: String,
    /// The file of blocked domains, one per line.
    pub blocklist_file: PathBuf,
    /// The log file.
    pub log_file: PathBuf,
    /// Log level: trace, debug, info, warn or error.
    pub log_level: String,
}

} // verus!
