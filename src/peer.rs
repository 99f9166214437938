//! The peer table: a directory of known peers, their address, connection
//! state and transfer statistics.

use vstd::prelude::*;

verus! {

/// A network address: host text and port.
#[derive(Debug, Clone)]
pub struct SocketAddress {
    /// IP address or host name.
    pub host: String,
    /// Port.
    pub port: u16,
}

/// Transfer statistics of a peer.
#[derive(Debug, Clone, Copy, PartialEq, Eq, Structural)]
pub struct PeerStats {
    /// Bytes uploaded to the peer.
    pub uploaded: u64,
    /// Bytes downloaded from the peer.
    pub downloaded: u64,
    /// When the connection was made, seconds since the Unix epoch.
    pub connected_at: Option<u64>,
}

impl Default for PeerStats {
    fn default() -> (r: Self)
        ensures
            r == (PeerStats { uploaded: 0, downloaded: 0, connected_at: None }),
    {
        PeerStats { uploaded: 0, downloaded: 0, connected_at: None }
    }
}

/// A known peer.
#[derive(Debug, Clone)]
pub struct PeerInfo {
    /// Peer identifier.
    pub peer_id: u128,
    /// Address.
    pub addr: SocketAddress,
    /// Whether a connection is open.
    pub connected: bool,
    /// Transfer statistics.
    pub stats: PeerStats,
}

/// Whether some entry has identifier `id`.
pub open spec fn has_peer(s: Seq<PeerInfo>, id: u128) -> bool {
    exists|i: int| 0 <= i < s.len() && (#[trigger] s[i]).peer_id == id
}

/// Position of the entry with identifier `id`.
pub open spec fn position_of(s: Seq<PeerInfo>, id: u128) -> int
    recommends
        has_peer(s, id),
{
    choose|i: int| 0 <= i < s.len() && (#[trigger] s[i]).peer_id == id
}

/// Whether no two entries share an identifier.
pub open spec fn unique_ids(s: Seq<PeerInfo>) -> bool {
    forall|i: int, j: int|
        0 <= i < s.len() && 0 <= j < s.len() && i != j ==> (#[trigger] s[i]).peer_id != (
        #[trigger] s[j]).peer_id
}

/// The entry a new peer gets: not connected, no transfers yet.
pub open spec fn fresh_peer(peer_id: u128, addr: SocketAddress) -> PeerInfo {
    PeerInfo {
        peer_id,
        addr,
        connected: false,
        stats: PeerStats { uploaded: 0, downloaded: 0, connected_at: None },
    }
}

/// Directory of peers, one entry per identifier, in the order they were added.
#[derive(Debug)]
pub struct PeerManager {
    peers: Vec<PeerInfo>,
}

impl View for PeerManager {
    type V = Seq<PeerInfo>;

    closed spec fn view(&self) -> Seq<PeerInfo> {
        self.peers@
    }
}

impl PeerManager {
    /// An empty directory.
    pub fn new() -> (r: Self)
        ensures
            r@ == Seq::<PeerInfo>::empty(),
            unique_ids(r@),
    {
        PeerManager { peers: Vec::new() }
    }

    fn find(&self, peer_id: u128) -> (r: Option<usize>)
        ensures
            r is Some <==> has_peer(self@, peer_id),
            r is Some ==> r->Some_0 < self@.len() && self@[r->Some_0 as int].peer_id == peer_id,
    {
        let mut i: usize = 0;
        while i < self.peers.len()
            invariant
                0 <= i <= self.peers@.len(),
                forall|k: int| 0 <= k < i ==> (#[trigger] self.peers@[k]).peer_id != peer_id,
            decreases self.peers@.len() - i,
        {
            if self.peers[i].peer_id == peer_id {
                return Some(i);
            }
            i = i + 1;
        }
        None
    }

    /// Adds a peer, not connected and with no transfers; a peer already known
    /// by this identifier is replaced in place.
    pub fn add_peer(&mut self, peer_id: u128, addr: SocketAddress)
        requires
            unique_ids(old(self)@),
        ensures
            unique_ids(final(self)@),
            has_peer(old(self)@, peer_id) ==> final(self)@ == old(self)@.update(
                position_of(old(self)@, peer_id),
                fresh_peer(peer_id, addr),
            ),
            !has_peer(old(self)@, peer_id) ==> final(self)@ == old(self)@.push(
                fresh_peer(peer_id, addr),
            ),
    {
        let info = PeerInfo { peer_id, addr, connected: false, stats: PeerStats::default() };
        match self.find(peer_id) {
            Some(i) => {
                proof {
                    let p = position_of(self@, peer_id);
                    assert(self@[p].peer_id == peer_id);
                    assert(p == i as int);
                }
                self.peers.set(i, info);
            },
            None => {
                self.peers.push(info);
                proof {
                    assert forall|i: int, j: int|
                        0 <= i < self@.len() && 0 <= j < self@.len() && i != j implies (
                        #[trigger] self@[i]).peer_id != (#[trigger] self@[j]).peer_id by {
                        if i < old(self)@.len() && j < old(self)@.len() {
                            assert(self@[i] == old(self)@[i] && self@[j] == old(self)@[j]);
                        } else if i < old(self)@.len() {
                            assert(self@[i] == old(self)@[i]);
                        } else {
                            assert(self@[j] == old(self)@[j]);
                        }
                    }
                }
            },
        }
    }

    /// Removes a peer, returning its entry, or `None` when it is not known.
    pub fn remove_peer(&mut self, peer_id: &u128) -> (r: Option<PeerInfo>)
        requires
            unique_ids(old(self)@),
        ensures
            unique_ids(final(self)@),
            has_peer(old(self)@, *peer_id) ==> r == Some(old(self)@[position_of(old(self)@, *peer_id)])
                && final(self)@ == old(self)@.remove(position_of(old(self)@, *peer_id)),
            !has_peer(old(self)@, *peer_id) ==> r is None && final(self)@ == old(self)@,
    {
        match self.find(*peer_id) {
            Some(i) => {
                proof {
                    let p = position_of(self@, *peer_id);
                    assert(self@[p].peer_id == *peer_id);
                    assert(p == i as int);
                }
                let removed = self.peers.remove(i);
                proof {
                    assert forall|a: int, b: int|
                        0 <= a < self@.len() && 0 <= b < self@.len() && a != b implies (
                        #[trigger] self@[a]).peer_id != (#[trigger] self@[b]).peer_id by {
                        let a0 = if a < i { a } else { a + 1 };
                        let b0 = if b < i { b } else { b + 1 };
                        assert(self@[a] == old(self)@[a0] && self@[b] == old(self)@[b0]);
                    }
                }
                Some(removed)
            },
            None => None,
        }
    }

    /// All known peers, in the order they were added.
    pub fn get_peers(&self) -> (r: &[PeerInfo])
        ensures
            r@ == self@,
    {
        self.peers.as_slice()
    }
}

impl Default for PeerManager {
    fn default() -> (r: Self)
        ensures
            r@ == Seq::<PeerInfo>::empty(),
    {
        PeerManager::new()
    }
}

} // verus!
