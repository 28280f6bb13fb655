//! A small DNS server core: the message model, the wire codec and the
//! rules by which a request is answered or forwarded.
//!
//! Nothing here touches a socket. A caller hands in the bytes of a request,
//! carries the queries that a [`resolve::Resolution`] asks for to the
//! resolver, and sends off the bytes of the finished response.

use crate::packet::DnsPacket;
use crate::resolve::{Resolution, ResolutionView};
use vstd::prelude::*;

pub mod buffer_helpers;
pub mod header;
pub mod packet;
pub mod parser;
pub mod resolve;
pub mod roundtrip;
mod trusted;
pub mod wire;

verus! {

/// How the server is set up: the port it listens on and, where questions are
/// to be forwarded, the address of the resolver.
pub struct ServerConfig {
    pub port: u16,
    pub resolver: Option<String>,
}

/// A DNS server, as far as it decides what to answer.
pub struct DnsServer {
    config: ServerConfig,
}

impl DnsServer {
    /// The configuration that the server was made with.
    pub closed spec fn spec_config(&self) -> ServerConfig {
        self.config
    }

    /// Whether questions are forwarded to a resolver.
    pub open spec fn forwards(&self) -> bool {
        self.spec_config().resolver is Some
    }

    /// A server with the given configuration.
    pub fn new(config: ServerConfig) -> (server: DnsServer)
        ensures
            server.spec_config() == config,
    {
        DnsServer { config }
    }

    /// The configuration that the server was made with.
    pub fn config(&self) -> (config: &ServerConfig)
        ensures
            *config == self.spec_config(),
    {
        &self.config
    }

    /// Starts to answer `request`: the response is complete at once unless
    /// a resolver is configured and the request is a standard query with
    /// questions.
    pub fn begin_response(&self, request: &DnsPacket) -> (resolution: Resolution)
        ensures
            resolution@ == ResolutionView::begin(request@, self.forwards()),
    {
        Resolution::begin(request, self.config.resolver.is_some())
    }
}

} // verus!
