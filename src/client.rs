//! Client configuration and identity.

use vstd::prelude::*;
use vstd::string::StringExecFns;
use crate::error::message;
use crate::peer::SocketAddress;

verus! {

/// Default cap on concurrent peer connections.
pub const DEFAULT_MAX_PEERS: usize = 50;

/// Default piece length of new metadata: 1 MiB.
pub const DEFAULT_PIECE_SIZE: u32 = 1024 * 1024;

/// Default listening port.
pub const DEFAULT_PORT: u16 = 6881;

/// Name of the storage directory under the local data directory.
pub const DATA_DIR_NAME: &'static str = "bitswaptorrent";

/// Client configuration.
#[derive(Debug, Clone)]
pub struct ClientConfig {
    /// Cap on concurrent peer connections.
    pub max_peers: usize,
    /// Upload cap in bytes per second; 0 means unlimited.
    pub max_upload_rate: u64,
    /// Download cap in bytes per second; 0 means unlimited.
    pub max_download_rate: u64,
    /// Piece length of new metadata.
    pub piece_size: u32,
    /// Initial contacts for peer discovery.
    pub bootstrap_nodes: Vec<SocketAddress>,
    /// Whether to take part in peer discovery.
    pub enable_dht: bool,
    /// Storage root.
    pub data_dir: String,
}

/// Relies on `dirs::data_local_dir`: the user's local data directory, if the
/// platform has one; it depends on the environment, so nothing is promised.
#[verifier::external_body]
fn local_data_dir() -> (r: Option<String>) {
    match dirs::data_local_dir() {
        Some(p) => Some(p.to_string_lossy().into_owned()),
        None => None,
    }
}

/// Relies on `uuid::Uuid::new_v4`: a random 128-bit identifier; nothing is promised of it.
#[verifier::external_body]
fn random_peer_id() -> (r: u128) {
    uuid::Uuid::new_v4().as_u128()
}

fn address(host: &str, port: u16) -> (r: SocketAddress)
    ensures
        r.host@ == host@,
        r.port == port,
{
    SocketAddress { host: message(host), port }
}

impl Default for ClientConfig {
    fn default() -> (r: Self)
        ensures
            r.max_peers == DEFAULT_MAX_PEERS,
            r.max_upload_rate == 0,
            r.max_download_rate == 0,
            r.piece_size == DEFAULT_PIECE_SIZE,
            r.enable_dht,
            r.bootstrap_nodes@.len() == 2,
            r.bootstrap_nodes@[0].host@ == "67.205.187.89"@,
            r.bootstrap_nodes@[0].port == DEFAULT_PORT,
            r.bootstrap_nodes@[1].host@ == "82.221.103.244"@,
            r.bootstrap_nodes@[1].port == DEFAULT_PORT,
            exists|base: Seq<char>| r.data_dir@ == base + "/"@ + DATA_DIR_NAME@,
    {
        let mut data_dir = match local_data_dir() {
            Some(d) => d,
            None => message("."),
        };
        let ghost base = data_dir@;
        data_dir.append("/");
        data_dir.append(DATA_DIR_NAME);
        let mut bootstrap_nodes: Vec<SocketAddress> = Vec::new();
        bootstrap_nodes.push(address("67.205.187.89", DEFAULT_PORT));
        bootstrap_nodes.push(address("82.221.103.244", DEFAULT_PORT));
        ClientConfig {
            max_peers: DEFAULT_MAX_PEERS,
            max_upload_rate: 0,
            max_download_rate: 0,
            piece_size: DEFAULT_PIECE_SIZE,
            bootstrap_nodes,
            enable_dht: true,
            data_dir,
        }
    }
}

/// The client: its identity, its listening address once started, and its configuration.
#[derive(Debug)]
pub struct BitSwapClient {
    /// Identifier of this peer, random per process.
    pub peer_id: u128,
    /// Listening address, once started.
    pub local_addr: Option<SocketAddress>,
    /// Configuration.
    pub config: ClientConfig,
}

impl BitSwapClient {
    /// A client with a fresh random identifier, not yet listening.
    pub fn new(config: ClientConfig) -> (r: Self)
        ensures
            r.config == config,
            r.local_addr is None,
    {
        BitSwapClient { peer_id: random_peer_id(), local_addr: None, config }
    }

    /// Starts listening on `port` on every interface.
    pub fn start(&mut self, port: u16)
        ensures
            final(self).peer_id == old(self).peer_id,
            final(self).config == old(self).config,
            final(self).local_addr is Some,
            final(self).local_addr->Some_0.host@ == "0.0.0.0"@,
            final(self).local_addr->Some_0.port == port,
    {
        self.local_addr = Some(address("0.0.0.0", port));
    }
}

} // verus!
