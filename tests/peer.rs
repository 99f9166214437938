use bit_swap_core::client::{BitSwapClient, ClientConfig, DEFAULT_PORT};
use bit_swap_core::peer::{PeerManager, PeerStats, SocketAddress};

fn addr(host: &str, port: u16) -> SocketAddress {
    SocketAddress { host: host.to_string(), port }
}

#[test]
fn peer_stats_start_at_zero() {
    let stats = PeerStats::default();
    assert_eq!(stats, PeerStats { uploaded: 0, downloaded: 0, connected_at: None });
}

#[test]
fn peers_are_added_replaced_and_removed() {
    let mut peers = PeerManager::new();
    assert!(peers.get_peers().is_empty());
    peers.add_peer(1, addr("10.0.0.1", 6881));
    peers.add_peer(2, addr("10.0.0.2", 6882));
    peers.add_peer(1, addr("10.0.0.9", 7000));
    let list = peers.get_peers();
    assert_eq!(list.len(), 2);
    assert_eq!(list[0].peer_id, 1);
    assert_eq!(list[0].addr.host, "10.0.0.9");
    assert_eq!(list[0].addr.port, 7000);
    assert!(!list[0].connected);
    let removed = peers.remove_peer(&2).unwrap();
    assert_eq!(removed.addr.port, 6882);
    assert!(peers.remove_peer(&2).is_none());
    assert_eq!(peers.get_peers().len(), 1);
    let defaults = PeerManager::default();
    assert!(defaults.get_peers().is_empty());
}

#[test]
fn default_configuration() {
    let config = ClientConfig::default();
    assert_eq!(config.max_peers, 50);
    assert_eq!(config.max_upload_rate, 0);
    assert_eq!(config.max_download_rate, 0);
    assert_eq!(config.piece_size, 1024 * 1024);
    assert!(config.enable_dht);
    assert_eq!(config.bootstrap_nodes.len(), 2);
    assert_eq!(config.bootstrap_nodes[0].host, "67.205.187.89");
    assert_eq!(config.bootstrap_nodes[1].port, DEFAULT_PORT);
    assert!(config.data_dir.ends_with("/bitswaptorrent"));
}

#[test]
fn client_starts_listening_on_all_interfaces() {
    let a = BitSwapClient::new(ClientConfig::default());
    let mut b = BitSwapClient::new(ClientConfig::default());
    assert_ne!(a.peer_id, b.peer_id);
    assert!(b.local_addr.is_none());
    b.start(6999);
    let local = b.local_addr.unwrap();
    assert_eq!(local.host, "0.0.0.0");
    assert_eq!(local.port, 6999);
}
