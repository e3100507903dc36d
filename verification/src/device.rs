//! The device: its keys, its sockets and its peers, which are indexed by
//! public key, by 24-bit index and by allowed IP.

use crate::allowed_ips::{route, AllowedIps};
use crate::ip::{blocks_of, AllowedIP, IpAddr, Prefix, SocketAddr};
use crate::keys::{derive_public, public_key_of, same_key, same_public_key};
use crate::peer::{Endpoint, Peer, PeerState, PeerStats, MAX_INDEX};
use std::collections::HashMap;
use vstd::prelude::*;

verus! {

/// The number of handshakes in a second that the device bears before it asks for cookies.
pub const HANDSHAKE_RATE_LIMIT: u64 = 100;

/// The largest datagram that a UDP socket hands over.
pub const MAX_UDP_SIZE: usize = 65535;

/// The number of packets that a handler takes on before it gives way.
pub const MAX_ITR: usize = 100;

/// The number of datagrams that are received in one batch.
pub const RECVMSG_NUM_CHUNKS: usize = 10;

/// How a device is to be run.
#[derive(Debug, Clone)]
pub struct DeviceConfig {
    pub n_threads: usize,
    pub use_connected_socket: bool,
    pub use_multi_queue: bool,
    pub uapi_fd: i32,
    pub config_string: Option<String>,
}

impl Default for DeviceConfig {
    fn default() -> (config: Self)
        ensures
            config.n_threads == 4,
            config.use_connected_socket,
            config.use_multi_queue,
            config.uapi_fd == -1,
            config.config_string is None,
    {
        DeviceConfig {
            n_threads: 4,
            use_connected_socket: true,
            use_multi_queue: true,
            uapi_fd: -1,
            config_string: None,
        }
    }
}

/// A static private key and the public key that belongs to it.
#[derive(Clone, Copy, Debug, PartialEq, Eq)]
pub struct KeyPair {
    pub private: [u8; 32],
    pub public: [u8; 32],
}

/// What a rate limiter is made with: the device's public key and the number of
/// handshakes in a second that it lets through.
#[derive(Clone, Copy, Debug, PartialEq, Eq)]
pub struct LimiterSetup {
    pub public: [u8; 32],
    pub capacity: u64,
}

/// One entry of the index by public key.
#[derive(Clone, Copy, Debug, PartialEq, Eq)]
pub struct KeyEntry {
    pub key: [u8; 32],
    pub index: u32,
}

/// Why a peer could not be added.
#[derive(Clone, Copy, Debug, PartialEq, Eq)]
pub enum PeerError {
    /// The device has a peer with that public key already.
    AlreadyExists,
}

/// What became of the peers when one was to be added or removed.
#[derive(Clone, Copy, Debug, PartialEq, Eq)]
pub enum PeerChange {
    /// A peer was created under this index; it needs a tunnel.
    Added { index: u32 },
    /// The peer of this index is gone; its tunnel and its connected socket,
    /// if it had one, are to be closed.
    Removed { index: u32, conn: Option<i32> },
    /// There was no such peer to remove.
    Unknown,
}

/// What became of the device's keys when a private key was set.
#[derive(Clone, Copy, Debug, PartialEq, Eq)]
pub enum KeyChange {
    /// The device had this key already: nothing is to be done.
    Unchanged,
    /// The device has a new key pair: a rate limiter is to be made with
    /// `limiter`, and the tunnel of every peer is to take the new key.
    Replaced { pair: KeyPair, limiter: LimiterSetup },
}

/// What it takes to bind the listening sockets anew.
#[derive(Debug, PartialEq, Eq)]
pub struct BindPlan {
    /// The port to bind the IPv4 socket to; 0 lets the system choose.
    pub port: u16,
    /// The sockets that are to be taken from the poller and closed before:
    /// the old listeners, then the peers' connected sockets.
    pub release: Vec<i32>,
}

impl BindPlan {
    /// Whether the system chooses the port: the IPv4 socket is then bound
    /// first and asked for its port, and the IPv6 socket is bound to that one.
    pub fn system_chooses(&self) -> (chosen: bool)
        ensures
            chosen == (self.port == 0),
    {
        self.port == 0
    }
}

/// The device as contracts see it.
#[verifier::ext_equal]
pub struct DeviceState {
    pub key_pair: Option<KeyPair>,
    pub limiter: Option<LimiterSetup>,
    pub listen_port: u16,
    pub fwmark: Option<u32>,
    pub udp4: Option<i32>,
    pub udp6: Option<i32>,
    /// The index by public key, in the order in which the peers arrived.
    pub keys: Seq<KeyEntry>,
    /// The peers by their 24-bit index.
    pub peers: Map<u32, PeerState>,
    /// The index by allowed IP: the peer's index under each block.
    pub routes: Map<Prefix, u32>,
    pub next_index: u32,
    pub config: DeviceConfig,
    pub mtu: usize,
}

impl DeviceState {
    /// Whether the device has a peer with this public key.
    pub open spec fn has_peer(self, key: [u8; 32]) -> bool {
        exists|j: int| 0 <= j < self.keys.len() && same_key((#[trigger] self.keys[j]).key, key)
    }

    /// The place of a public key in the index by public key.
    pub open spec fn position(self, key: [u8; 32]) -> int {
        choose|j: int| 0 <= j < self.keys.len() && same_key((#[trigger] self.keys[j]).key, key)
    }

    /// The index of the peer with this public key.
    pub open spec fn index_of(self, key: [u8; 32]) -> u32 {
        self.keys[self.position(key)].index
    }

    /// The peer with this public key.
    pub open spec fn peer_of(self, key: [u8; 32]) -> PeerState {
        self.peers[self.index_of(key)]
    }

    /// The three indices agree and none holds an orphan: each entry of one
    /// index leads to a peer that the two others know too.
    pub open spec fn consistent(self) -> bool {
        &&& forall|j: int|
            0 <= j < self.keys.len() ==> {
                let e = #[trigger] self.keys[j];
                &&& self.peers.contains_key(e.index)
                &&& self.peers[e.index].public_key == e.key
                &&& self.peers[e.index].index == e.index
                &&& e.index < self.next_index
            }
        &&& forall|i: u32| #[trigger]
            self.peers.contains_key(i) ==> exists|j: int|
                0 <= j < self.keys.len() && (#[trigger] self.keys[j]).index == i
        &&& forall|j: int, k: int|
            0 <= j < k < self.keys.len() ==> !same_key(
                (#[trigger] self.keys[j]).key,
                (#[trigger] self.keys[k]).key,
            )
        &&& self.next_index <= MAX_INDEX
        &&& forall|p: Prefix| #[trigger]
            self.routes.contains_key(p) ==> self.peers.contains_key(self.routes[p])
                && self.peers[self.routes[p]].allowed.contains(p)
        &&& match (self.key_pair, self.limiter) {
            (Some(pair), Some(limiter)) => pair.public == public_key_of(pair.private)
                && limiter.public == pair.public && limiter.capacity == HANDSHAKE_RATE_LIMIT,
            (None, None) => true,
            _ => false,
        }
    }

    /// Every block of every peer leads to that peer in the index by allowed IP.
    pub open spec fn routes_complete(self) -> bool {
        forall|i: u32, p: Prefix|
            self.peers.contains_key(i) && #[trigger] self.peers[i].allowed.contains(p)
                ==> self.routes.contains_key(p) && self.routes[p] == i
    }

    /// Whether none of the blocks belongs to a peer of the device.
    pub open spec fn blocks_unused(self, blocks: Set<Prefix>) -> bool {
        forall|i: u32, p: Prefix|
            self.peers.contains_key(i) && blocks.contains(p) ==> !#[trigger] self.peers[i].allowed.contains(
                p,
            )
    }

    /// The device without any peer.
    pub open spec fn cleared(self) -> DeviceState {
        DeviceState { keys: Seq::empty(), peers: Map::empty(), routes: Map::empty(), ..self }
    }

    /// What is to be told of the peers when all of them go: each one's index
    /// and connected socket, in the order of the peers' arrival.
    pub open spec fn all_removed(self) -> Seq<PeerChange> {
        Seq::new(
            self.keys.len(),
            |j: int|
                PeerChange::Removed {
                    index: self.keys[j].index,
                    conn: self.peers[self.keys[j].index].endpoint.conn,
                },
        )
    }

    /// The device without the peer of this index.
    pub open spec fn without_index(self, index: u32) -> DeviceState {
        if self.peers.contains_key(index) {
            self.without_peer(self.peers[index].public_key)
        } else {
            self
        }
    }

    /// The device without the peer of this public key, which leaves all three indices.
    pub open spec fn without_peer(self, key: [u8; 32]) -> DeviceState {
        if self.has_peer(key) {
            let j = self.position(key);
            let index = self.keys[j].index;
            DeviceState {
                keys: self.keys.remove(j),
                peers: self.peers.remove(index),
                routes: Map::new(
                    |p: Prefix| self.routes.contains_key(p) && self.routes[p] != index,
                    |p: Prefix| self.routes[p],
                ),
                ..self
            }
        } else {
            self
        }
    }

    /// The device with one more peer, which enters all three indices; the
    /// new peer takes over each of its blocks that led to another peer.
    pub open spec fn with_peer(self, peer: PeerState) -> DeviceState {
        DeviceState {
            keys: self.keys.push(KeyEntry { key: peer.public_key, index: peer.index }),
            peers: self.peers.insert(peer.index, peer),
            routes: Map::new(
                |p: Prefix| peer.allowed.contains(p) || self.routes.contains_key(p),
                |p: Prefix|
                    if peer.allowed.contains(p) {
                        peer.index
                    } else {
                        self.routes[p]
                    },
            ),
            next_index: (self.next_index + 1) as u32,
            ..self
        }
    }

    /// The device after a private key was set: unchanged where the public key
    /// that belongs to it is the device's own, and else with the new pair
    /// and a rate limiter made for it.
    pub open spec fn with_key(self, private: [u8; 32]) -> DeviceState {
        let public = public_key_of(private);
        if self.key_pair is Some && same_key(self.key_pair.unwrap().public, public) {
            self
        } else {
            DeviceState {
                key_pair: Some(KeyPair { private, public }),
                limiter: Some(LimiterSetup { public, capacity: HANDSHAKE_RATE_LIMIT }),
                ..self
            }
        }
    }

    /// The device with one peer replaced by another state of the same peer.
    pub open spec fn with_peer_state(self, index: u32, peer: PeerState) -> DeviceState {
        if self.peers.contains_key(index) {
            DeviceState { peers: self.peers.insert(index, peer), ..self }
        } else {
            self
        }
    }

    /// The device without listening sockets and without any connected socket.
    pub open spec fn unbound(self) -> DeviceState {
        DeviceState {
            udp4: None,
            udp6: None,
            peers: Map::new(
                |i: u32| self.peers.contains_key(i),
                |i: u32| self.peers[i].disconnected(),
            ),
            ..self
        }
    }

    /// The device with these listening sockets, bound to this port.
    pub open spec fn bound(self, udp4: i32, udp6: i32, port: u16) -> DeviceState {
        DeviceState { udp4: Some(udp4), udp6: Some(udp6), listen_port: port, ..self }
    }

    /// The listening sockets that are open, IPv4 first.
    pub open spec fn listeners(self) -> Seq<i32> {
        let v4 = match self.udp4 {
            Some(s) => seq![s],
            None => Seq::empty(),
        };
        match self.udp6 {
            Some(s) => v4.push(s),
            None => v4,
        }
    }

    /// Every socket of the device: the listeners, then the peers' connected
    /// sockets in the order of the peers' arrival.
    pub open spec fn sockets(self) -> Seq<i32> {
        self.listeners() + self.conns()
    }

    /// The peers' connected sockets in the order of the peers' arrival.
    pub open spec fn conns(self) -> Seq<i32> {
        open_conns(self.keys, self.peers, self.keys.len() as int)
    }

    /// The peer that `update_peer` creates from what it is given.
    pub open spec fn new_peer(
        self,
        key: [u8; 32],
        endpoint: Option<SocketAddr>,
        allowed_ips: Seq<AllowedIP>,
        keepalive: Option<u16>,
        preshared_key: Option<[u8; 32]>,
    ) -> PeerState {
        PeerState {
            public_key: key,
            index: self.next_index,
            endpoint: Endpoint { addr: endpoint, conn: None },
            allowed: blocks_of(allowed_ips),
            keepalive: match keepalive {
                Some(k) => k,
                None => 0,
            },
            preshared_key,
            stats: crate::peer::no_stats(),
        }
    }
}

/// Removing a peer keeps the three indices consistent, and complete if they were.
#[verifier::rlimit(40)]
pub proof fn lemma_remove_keeps_consistent(s: DeviceState, key: [u8; 32])
    requires
        s.consistent(),
    ensures
        s.without_peer(key).consistent(),
        s.routes_complete() ==> s.without_peer(key).routes_complete(),
        !s.without_peer(key).has_peer(key),
{
    let t = s.without_peer(key);
    if s.has_peer(key) {
        let j = s.position(key);
        let index = s.keys[j].index;
        assert forall|k: int| 0 <= k < t.keys.len() implies {
            let e = #[trigger] t.keys[k];
            &&& t.peers.contains_key(e.index)
            &&& t.peers[e.index].public_key == e.key
            &&& t.peers[e.index].index == e.index
            &&& e.index < t.next_index
            &&& !same_key(e.key, key)
        } by {
            let k0 = if k < j {
                k
            } else {
                k + 1
            };
            assert(t.keys[k] == s.keys[k0]);
            assert(!same_key(s.keys[k0].key, s.keys[j].key));
        }
        assert forall|i: u32| #[trigger] t.peers.contains_key(i) implies exists|k: int|
            0 <= k < t.keys.len() && (#[trigger] t.keys[k]).index == i by {
            let k0 = choose|k: int| 0 <= k < s.keys.len() && (#[trigger] s.keys[k]).index == i;
            let k = if k0 < j {
                k0
            } else {
                k0 - 1
            };
            assert(t.keys[k] == s.keys[k0]);
        }
        assert forall|a: int, b: int| 0 <= a < b < t.keys.len() implies !same_key(
            (#[trigger] t.keys[a]).key,
            (#[trigger] t.keys[b]).key,
        ) by {
            let a0 = if a < j {
                a
            } else {
                a + 1
            };
            let b0 = if b < j {
                b
            } else {
                b + 1
            };
            assert(t.keys[a] == s.keys[a0]);
            assert(t.keys[b] == s.keys[b0]);
        }
        if t.has_peer(key) {
            let k = choose|k: int| 0 <= k < t.keys.len() && same_key((#[trigger] t.keys[k]).key, key);
            assert(!same_key(t.keys[k].key, key));
        }
    }
}

/// Adding a peer with a new public key keeps the three indices consistent,
/// and complete if they were and no peer had one of its blocks.
#[verifier::rlimit(40)]
pub proof fn lemma_add_keeps_consistent(s: DeviceState, peer: PeerState)
    requires
        s.consistent(),
        !s.has_peer(peer.public_key),
        peer.index == s.next_index,
        s.next_index < MAX_INDEX,
    ensures
        s.with_peer(peer).consistent(),
        s.routes_complete() && s.blocks_unused(peer.allowed) ==> s.with_peer(
            peer,
        ).routes_complete(),
        s.with_peer(peer).has_peer(peer.public_key),
        s.with_peer(peer).peer_of(peer.public_key) == peer,
{
    let t = s.with_peer(peer);
    let n = s.keys.len() as int;
    assert(t.keys[n].key == peer.public_key);
    assert forall|i: u32| s.peers.contains_key(i) implies i != peer.index by {
        let k = choose|k: int| 0 <= k < s.keys.len() && (#[trigger] s.keys[k]).index == i;
        assert(s.keys[k].index < s.next_index);
    }
    assert forall|j: int| 0 <= j < t.keys.len() implies {
        let e = #[trigger] t.keys[j];
        &&& t.peers.contains_key(e.index)
        &&& t.peers[e.index].public_key == e.key
        &&& t.peers[e.index].index == e.index
        &&& e.index < t.next_index
    } by {
        if j < n {
            assert(t.keys[j] == s.keys[j]);
        }
    }
    assert forall|i: u32| #[trigger] t.peers.contains_key(i) implies exists|j: int|
        0 <= j < t.keys.len() && (#[trigger] t.keys[j]).index == i by {
        if i == peer.index {
            assert(t.keys[n].index == i);
        } else {
            let k = choose|k: int| 0 <= k < s.keys.len() && (#[trigger] s.keys[k]).index == i;
            assert(t.keys[k] == s.keys[k]);
        }
    }
    assert forall|a: int, b: int| 0 <= a < b < t.keys.len() implies !same_key(
        (#[trigger] t.keys[a]).key,
        (#[trigger] t.keys[b]).key,
    ) by {
        assert(t.keys[a] == s.keys[a]);
        if b < n {
            assert(t.keys[b] == s.keys[b]);
        }
    }
    let j = t.position(peer.public_key);
    if j < n {
        assert(t.keys[j] == s.keys[j]);
    }
}

/// A peer may change where it is reached, what socket serves it and what its
/// tunnel reports: as long as it keeps its key, its index and its blocks,
/// the indices stay consistent, and complete if they were.
pub proof fn lemma_peer_state_keeps_consistent(s: DeviceState, index: u32, peer: PeerState)
    requires
        s.consistent(),
        s.peers.contains_key(index) ==> {
            &&& peer.public_key == s.peers[index].public_key
            &&& peer.index == s.peers[index].index
            &&& peer.allowed == s.peers[index].allowed
        },
    ensures
        s.with_peer_state(index, peer).consistent(),
        s.routes_complete() ==> s.with_peer_state(index, peer).routes_complete(),
        s.with_peer_state(index, peer).keys == s.keys,
{
    let t = s.with_peer_state(index, peer);
    assert forall|j: int| 0 <= j < t.keys.len() implies {
        let e = #[trigger] t.keys[j];
        &&& t.peers.contains_key(e.index)
        &&& t.peers[e.index].public_key == e.key
        &&& t.peers[e.index].index == e.index
        &&& e.index < t.next_index
    } by {
        assert(t.keys[j] == s.keys[j]);
    }
    assert forall|i: u32| #[trigger] t.peers.contains_key(i) implies exists|j: int|
        0 <= j < t.keys.len() && (#[trigger] t.keys[j]).index == i by {
        assert(s.peers.contains_key(i));
    }
}

/// Closing the sockets touches no index: the indices stay consistent, and
/// complete if they were.
pub proof fn lemma_unbound_keeps_consistent(s: DeviceState)
    requires
        s.consistent(),
    ensures
        s.unbound().consistent(),
        s.routes_complete() ==> s.unbound().routes_complete(),
{
    let t = s.unbound();
    assert forall|j: int| 0 <= j < t.keys.len() implies {
        let e = #[trigger] t.keys[j];
        &&& t.peers.contains_key(e.index)
        &&& t.peers[e.index].public_key == e.key
        &&& t.peers[e.index].index == e.index
        &&& e.index < t.next_index
    } by {
        assert(t.keys[j] == s.keys[j]);
    }
    assert forall|i: u32| #[trigger] t.peers.contains_key(i) implies exists|j: int|
        0 <= j < t.keys.len() && (#[trigger] t.keys[j]).index == i by {
        assert(s.peers.contains_key(i));
    }
    assert forall|p: Prefix| #[trigger] t.routes.contains_key(p) implies t.peers.contains_key(
        t.routes[p],
    ) && t.peers[t.routes[p]].allowed.contains(p) by {
        assert(s.routes.contains_key(p));
    }
    if s.routes_complete() {
        assert forall|i: u32, p: Prefix|
            t.peers.contains_key(i) && #[trigger] t.peers[i].allowed.contains(
                p,
            ) implies t.routes.contains_key(p) && t.routes[p] == i by {
            assert(s.peers[i].allowed.contains(p));
        }
    }
}

/// The public key of a peer leads back to the peer's index.
pub proof fn lemma_key_leads_back(s: DeviceState, index: u32)
    requires
        s.consistent(),
        s.peers.contains_key(index),
    ensures
        s.has_peer(s.peers[index].public_key),
        s.index_of(s.peers[index].public_key) == index,
{
    let key = s.peers[index].public_key;
    let j = choose|j: int| 0 <= j < s.keys.len() && (#[trigger] s.keys[j]).index == index;
    assert(s.keys[j].key == key);
    let k = s.position(key);
    assert(same_key(s.keys[k].key, key));
    if k != j {
        if k < j {
            assert(!same_key(s.keys[k].key, s.keys[j].key));
        } else {
            assert(!same_key(s.keys[j].key, s.keys[k].key));
        }
    }
}

/// Dropping all peers leaves three empty indices, which are consistent and complete.
pub proof fn lemma_clear_keeps_consistent(s: DeviceState)
    requires
        s.consistent(),
    ensures
        s.cleared().consistent(),
        s.cleared().routes_complete(),
{
}

/// A change to the peers of a device.
pub enum PeerOp {
    /// `update_peer` with these arguments.
    Update {
        key: [u8; 32],
        remove: bool,
        endpoint: Option<SocketAddr>,
        allowed_ips: Seq<AllowedIP>,
        keepalive: Option<u16>,
        preshared_key: Option<[u8; 32]>,
    },
    /// `remove_peer` of this public key.
    Remove { key: [u8; 32] },
    /// `clear_peers`.
    Clear,
}

/// The device after one change to its peers. A peer is added only under a
/// public key that the device does not know, and while an index is left.
pub open spec fn after_op(s: DeviceState, op: PeerOp) -> DeviceState {
    match op {
        PeerOp::Clear => s.cleared(),
        PeerOp::Remove { key } => s.without_peer(key),
        PeerOp::Update { key, remove, endpoint, allowed_ips, keepalive, preshared_key } => if remove {
            s.without_peer(key)
        } else if s.has_peer(key) || s.next_index >= MAX_INDEX {
            s
        } else {
            s.with_peer(s.new_peer(key, endpoint, allowed_ips, keepalive, preshared_key))
        },
    }
}

/// The device after the first `n` of a sequence of changes to its peers.
pub open spec fn after_ops(s: DeviceState, ops: Seq<PeerOp>, n: int) -> DeviceState
    decreases n,
{
    if n <= 0 {
        s
    } else {
        after_op(after_ops(s, ops, n - 1), ops[n - 1])
    }
}

/// Whether each of the first `n` changes that adds a peer gives it blocks
/// that no peer of the device has at that time.
pub open spec fn blocks_kept_apart(s: DeviceState, ops: Seq<PeerOp>, n: int) -> bool {
    forall|i: int|
        0 <= i < n ==> match #[trigger] ops[i] {
            PeerOp::Update { remove, allowed_ips, .. } => remove || after_ops(
                s,
                ops,
                i,
            ).blocks_unused(blocks_of(allowed_ips)),
            _ => true,
        }
}

/// Index consistency: after any sequence of additions, removals and
/// clearings the three indices are consistent. Each entry of the index by
/// public key leads, through the index by index, to the peer of that key; each
/// peer of the index by index has its entry in the index by public key; each
/// entry of the index by allowed IP leads to a peer that has the block. Where
/// no peer was given a block that another peer had, each block of each peer
/// leads to that peer as well.
pub proof fn lemma_index_consistency(s: DeviceState, ops: Seq<PeerOp>, n: int)
    requires
        s.consistent(),
        0 <= n <= ops.len(),
    ensures
        after_ops(s, ops, n).consistent(),
        s.routes_complete() && blocks_kept_apart(s, ops, n) ==> after_ops(
            s,
            ops,
            n,
        ).routes_complete(),
    decreases n,
{
    if n > 0 {
        lemma_index_consistency(s, ops, n - 1);
        let before = after_ops(s, ops, n - 1);
        if s.routes_complete() && blocks_kept_apart(s, ops, n) {
            assert(blocks_kept_apart(s, ops, n - 1));
        }
        match ops[n - 1] {
            PeerOp::Clear => {
                lemma_clear_keeps_consistent(before);
            },
            PeerOp::Remove { key } => {
                lemma_remove_keeps_consistent(before, key);
            },
            PeerOp::Update { key, remove, endpoint, allowed_ips, keepalive, preshared_key } => {
                if remove {
                    lemma_remove_keeps_consistent(before, key);
                } else if !(before.has_peer(key) || before.next_index >= MAX_INDEX) {
                    lemma_add_keeps_consistent(
                        before,
                        before.new_peer(key, endpoint, allowed_ips, keepalive, preshared_key),
                    );
                }
            },
        }
    }
}

/// The device: keys, sockets and the three indices of its peers.
pub struct Device {
    key_pair: Option<KeyPair>,
    limiter: Option<LimiterSetup>,
    listen_port: u16,
    fwmark: Option<u32>,
    udp4: Option<i32>,
    udp6: Option<i32>,
    peers: Vec<KeyEntry>,
    peers_by_idx: HashMap<u32, Peer>,
    peers_by_ip: AllowedIps<u32>,
    next_index: u32,
    config: DeviceConfig,
    mtu: usize,
}

impl View for Device {
    type V = DeviceState;

    closed spec fn view(&self) -> DeviceState {
        DeviceState {
            key_pair: self.key_pair,
            limiter: self.limiter,
            listen_port: self.listen_port,
            fwmark: self.fwmark,
            udp4: self.udp4,
            udp6: self.udp6,
            keys: self.peers@,
            peers: states(self.peers_by_idx@),
            routes: self.peers_by_ip@,
            next_index: self.next_index,
            config: self.config,
            mtu: self.mtu,
        }
    }
}

/// The index by allowed IP after a peer has claimed some blocks.
spec fn claimed(routes: Map<Prefix, u32>, blocks: Set<Prefix>, index: u32) -> Map<Prefix, u32> {
    Map::new(
        |p: Prefix| blocks.contains(p) || routes.contains_key(p),
        |p: Prefix|
            if blocks.contains(p) {
                index
            } else {
                routes[p]
            },
    )
}

fn claim_blocks(routes: &mut AllowedIps<u32>, allowed_ips: &[AllowedIP], index: u32)
    requires
        old(routes).wf(),
        forall|i: int| 0 <= i < allowed_ips@.len() ==> (#[trigger] allowed_ips@[i]).valid(),
    ensures
        final(routes).wf(),
        final(routes)@ == claimed(old(routes)@, blocks_of(allowed_ips@), index),
{
    let mut i: usize = 0;
    assert(routes@ =~= claimed(old(routes)@, blocks_of(allowed_ips@.take(0)), index));
    while i < allowed_ips.len()
        invariant
            i <= allowed_ips@.len(),
            routes.wf(),
            routes@ == claimed(old(routes)@, blocks_of(allowed_ips@.take(i as int)), index),
            forall|j: int| 0 <= j < allowed_ips@.len() ==> (#[trigger] allowed_ips@[j]).valid(),
        decreases allowed_ips@.len() - i,
    {
        let block = allowed_ips[i];
        routes.insert(block.addr, block.cidr, index);
        proof {
            let before = allowed_ips@.take(i as int);
            let after = allowed_ips@.take(i + 1);
            assert(after[i as int] == block);
            assert forall|p: Prefix| blocks_of(after).contains(p) <==> (p == block.prefix()
                || blocks_of(before).contains(p)) by {
                if blocks_of(before).contains(p) {
                    let j = choose|j: int|
                        0 <= j < before.len() && (#[trigger] before[j]).prefix() == p;
                    assert(after[j].prefix() == p);
                }
                if blocks_of(after).contains(p) {
                    let j = choose|j: int| 0 <= j < after.len() && (#[trigger] after[j]).prefix() == p;
                    if j < i {
                        assert(before[j].prefix() == p);
                    }
                }
            }
            assert(routes@ =~= claimed(old(routes)@, blocks_of(after), index));
        }
        i += 1;
    }
    assert(allowed_ips@.take(i as int) =~= allowed_ips@);
}

impl Device {
    /// The device's invariant: its three indices are consistent, and each
    /// part is in order by itself.
    pub closed spec fn wf(self) -> bool {
        &&& self@.consistent()
        &&& self.peers_by_ip.wf()
        &&& forall|i: u32| #[trigger]
            self.peers_by_idx@.contains_key(i) ==> self.peers_by_idx@[i].wf()
    }

    /// In a device that is in order the three indices are consistent.
    pub proof fn lemma_consistent(self)
        requires
            self.wf(),
        ensures
            self@.consistent(),
    {
    }

    /// A device without keys, sockets or peers.
    pub fn new(config: DeviceConfig, mtu: usize) -> (device: Device)
        ensures
            device.wf(),
            device@ == (DeviceState {
                key_pair: None,
                limiter: None,
                listen_port: 0,
                fwmark: None,
                udp4: None,
                udp6: None,
                keys: Seq::empty(),
                peers: Map::empty(),
                routes: Map::empty(),
                next_index: 0,
                config,
                mtu,
            }),
    {
        let device = Device {
            key_pair: None,
            limiter: None,
            listen_port: 0,
            fwmark: None,
            udp4: None,
            udp6: None,
            peers: Vec::new(),
            peers_by_idx: HashMap::new(),
            peers_by_ip: AllowedIps::new(),
            next_index: 0,
            config,
            mtu,
        };
        assert(device@.peers =~= Map::empty());
        assert(device@.keys =~= Seq::empty());
        device
    }

    fn position_of(&self, key: &[u8; 32]) -> (found: Option<usize>)
        requires
            self.wf(),
        ensures
            match found {
                Some(j) => self@.has_peer(*key) && j == self@.position(*key),
                None => !self@.has_peer(*key),
            },
    {
        let mut j: usize = 0;
        while j < self.peers.len()
            invariant
                j <= self.peers@.len(),
                self.wf(),
                forall|k: int| 0 <= k < j ==> !same_key((#[trigger] self.peers@[k]).key, *key),
            decreases self.peers@.len() - j,
        {
            if same_public_key(&self.peers[j].key, key) {
                proof {
                    let k = self@.position(*key);
                    assert(same_key(self@.keys[j as int].key, *key));
                    assert(same_key(self@.keys[k].key, *key));
                }
                return Some(j);
            }
            j += 1;
        }
        None
    }

    fn next_index(&mut self) -> (index: u32)
        requires
            old(self).next_index < MAX_INDEX,
        ensures
            index == old(self).next_index,
            *final(self) == (Device { next_index: (index + 1) as u32, ..*old(self) }),
    {
        let next_index = self.next_index;
        self.next_index += 1;
        next_index
    }

    /// The index of the peer with this public key.
    pub fn peer_index(&self, key: &[u8; 32]) -> (index: Option<u32>)
        requires
            self.wf(),
        ensures
            index == if self@.has_peer(*key) {
                Some(self@.index_of(*key))
            } else {
                None
            },
    {
        match self.position_of(key) {
            Some(j) => Some(self.peers[j].index),
            None => None,
        }
    }

    /// The peer with this 24-bit index.
    pub fn peer_by_index(&self, index: u32) -> (peer: Option<&Peer>)
        requires
            self.wf(),
        ensures
            match peer {
                Some(p) => p.wf() && self@.peers.contains_key(index) && p@ == self@.peers[index],
                None => !self@.peers.contains_key(index),
            },
    {
        self.peers_by_idx.get(&index)
    }

    /// The peer with this public key.
    pub fn peer_by_key(&self, key: &[u8; 32]) -> (peer: Option<&Peer>)
        requires
            self.wf(),
        ensures
            match peer {
                Some(p) => p.wf() && self@.has_peer(*key) && p@ == self@.peer_of(*key),
                None => !self@.has_peer(*key),
            },
    {
        match self.position_of(key) {
            Some(j) => {
                assert(same_key(self@.keys[j as int].key, *key));
                self.peers_by_idx.get(&self.peers[j].index)
            },
            None => None,
        }
    }

    /// The peer to which the index by allowed IP sends the address: the one
    /// under the longest block that covers it.
    pub fn peer_by_ip(&self, addr: IpAddr) -> (peer: Option<&Peer>)
        requires
            self.wf(),
        ensures
            match (peer, route(self@.routes, addr)) {
                (Some(p), Some(i)) => p.wf() && self@.peers.contains_key(i) && p@
                    == self@.peers[i],
                (None, None) => true,
                _ => false,
            },
    {
        match self.peers_by_ip.find(addr) {
            Some(index) => {
                proof {
                    crate::allowed_ips::lemma_route_longest_prefix(self@.routes, addr);
                }
                self.peers_by_idx.get(index)
            },
            None => None,
        }
    }

    /// Drops every peer from all three indices. The result names each peer
    /// that is gone, in the order of the peers' arrival, with the connected
    /// socket that it had, for the caller to close.
    pub fn clear_peers(&mut self) -> (gone: Vec<PeerChange>)
        requires
            old(self).wf(),
        ensures
            final(self).wf(),
            final(self)@ == old(self)@.cleared(),
            gone@ == old(self)@.all_removed(),
    {
        let mut gone: Vec<PeerChange> = Vec::new();
        let mut j: usize = 0;
        while j < self.peers.len()
            invariant
                j <= self.peers@.len(),
                self.wf(),
                gone@ == self@.all_removed().take(j as int),
            decreases self.peers@.len() - j,
        {
            assert(self@.keys[j as int] == self.peers@[j as int]);
            let index = self.peers[j].index;
            let conn = match self.peers_by_idx.get(&index) {
                Some(peer) => peer.endpoint().conn,
                None => None,
            };
            gone.push(PeerChange::Removed { index, conn });
            assert(gone@ =~= self@.all_removed().take(j + 1));
            j += 1;
        }
        assert(gone@ =~= self@.all_removed());
        self.peers.clear();
        self.peers_by_idx.clear();
        self.peers_by_ip.clear();
        proof {
            assert(self@ =~= old(self)@.cleared());
        }
        gone
    }

    /// Whether the device can still give a new peer an index.
    pub fn has_free_index(&self) -> (free: bool)
        ensures
            free == (self@.next_index < MAX_INDEX),
    {
        self.next_index < MAX_INDEX
    }

    /// Removes the peer with this index from all three indices.
    pub fn remove_peer_by_index(&mut self, index: u32) -> (change: PeerChange)
        requires
            old(self).wf(),
        ensures
            final(self).wf(),
            final(self)@ == old(self)@.without_index(index),
            change == if old(self)@.peers.contains_key(index) {
                PeerChange::Removed { index, conn: old(self)@.peers[index].endpoint.conn }
            } else {
                PeerChange::Unknown
            },
    {
        let key = match self.peers_by_idx.get(&index) {
            Some(peer) => peer.public_key(),
            None => {
                return PeerChange::Unknown;
            },
        };
        proof {
            lemma_key_leads_back(self@, index);
        }
        self.remove_peer(&key)
    }

    /// The connected sockets of the peers, in the order of the peers' arrival.
    pub fn connected_sockets(&self) -> (conns: Vec<i32>)
        requires
            self.wf(),
        ensures
            conns@ == self@.conns(),
    {
        let mut conns: Vec<i32> = Vec::new();
        let mut j: usize = 0;
        while j < self.peers.len()
            invariant
                j <= self.peers@.len(),
                self.wf(),
                conns@ == open_conns(self@.keys, self@.peers, j as int),
            decreases self.peers@.len() - j,
        {
            assert(self@.keys[j as int] == self.peers@[j as int]);
            match self.peers_by_idx.get(&self.peers[j].index) {
                Some(peer) => match peer.endpoint().conn {
                    Some(conn) => {
                        conns.push(conn);
                    },
                    None => {},
                },
                None => {},
            }
            j += 1;
        }
        conns
    }

    /// Sets the device's private key. Nothing happens where the device has
    /// that key already; else the key pair is replaced, and with it the rate
    /// limiter.
    pub fn set_key(&mut self, private_key: [u8; 32]) -> (change: KeyChange)
        requires
            old(self).wf(),
        ensures
            final(self).wf(),
            final(self)@ == old(self)@.with_key(private_key),
            change == if final(self)@ == old(self)@ {
                KeyChange::Unchanged
            } else {
                KeyChange::Replaced {
                    pair: final(self)@.key_pair.unwrap(),
                    limiter: final(self)@.limiter.unwrap(),
                }
            },
    {
        let public = derive_public(&private_key);
        let unchanged = match &self.key_pair {
            Some(pair) => same_public_key(&pair.public, &public),
            None => false,
        };
        if unchanged {
            return KeyChange::Unchanged;
        }
        let pair = KeyPair { private: private_key, public };
        let limiter = LimiterSetup { public, capacity: HANDSHAKE_RATE_LIMIT };
        self.key_pair = Some(pair);
        self.limiter = Some(limiter);
        KeyChange::Replaced { pair, limiter }
    }

    /// Gives up the listening sockets and every connected socket, to bind
    /// the listeners anew: the result says which sockets are to be closed and
    /// which port is to be bound.
    #[verifier::rlimit(40)]
    pub fn open_listen_socket(&mut self, port: u16) -> (plan: BindPlan)
        requires
            old(self).wf(),
        ensures
            final(self).wf(),
            final(self)@ == old(self)@.unbound(),
            plan.port == port,
            plan.release@ == old(self)@.sockets(),
    {
        let mut release: Vec<i32> = Vec::new();
        match self.udp4 {
            Some(s) => {
                release.push(s);
            },
            None => {},
        }
        self.udp4 = None;
        match self.udp6 {
            Some(s) => {
                release.push(s);
            },
            None => {},
        }
        self.udp6 = None;
        assert(release@ =~= old(self)@.listeners());
        proof {
            lemma_distinct_indices(old(self)@);
            assert forall|i: u32| #[trigger]
                self.peers_by_idx@.contains_key(i) implies self.peers_by_idx@[i].wf() && exists|
                j: int,
            |
                0 <= j < self.peers@.len() && (#[trigger] self.peers@[j]).index == i by {
                assert(old(self)@.peers.contains_key(i));
                let j = choose|j: int|
                    0 <= j < old(self)@.keys.len() && (#[trigger] old(self)@.keys[j]).index == i;
                assert(self.peers@[j].index == i);
            }
        }
        let mut conns = disconnect_all(&self.peers, &mut self.peers_by_idx);
        release.append(&mut conns);
        proof {
            lemma_unbound_keeps_consistent(old(self)@);
            assert(self@.peers =~= old(self)@.unbound().peers);
            assert(self@ =~= old(self)@.unbound());
        }
        BindPlan { port, release }
    }

    /// Takes the listening sockets that were bound: `port` is the port that
    /// the system reports for them.
    pub fn listen_socket_opened(&mut self, udp4: i32, udp6: i32, port: u16)
        requires
            old(self).wf(),
        ensures
            final(self).wf(),
            final(self)@ == old(self)@.bound(udp4, udp6, port),
    {
        self.udp4 = Some(udp4);
        self.udp6 = Some(udp6);
        self.listen_port = port;
    }

    /// Keeps the mark for the sockets to come, and returns the sockets that
    /// are to get it now: the listeners, then the peers' connected sockets.
    pub fn set_fwmark(&mut self, mark: u32) -> (sockets: Vec<i32>)
        requires
            old(self).wf(),
        ensures
            final(self).wf(),
            final(self)@ == (DeviceState { fwmark: Some(mark), ..old(self)@ }),
            sockets@ == old(self)@.sockets(),
    {
        self.fwmark = Some(mark);
        let mut sockets: Vec<i32> = Vec::new();
        match self.udp4 {
            Some(s) => {
                sockets.push(s);
            },
            None => {},
        }
        match self.udp6 {
            Some(s) => {
                sockets.push(s);
            },
            None => {},
        }
        assert(sockets@ =~= old(self)@.listeners());
        let mut conns = self.connected_sockets();
        sockets.append(&mut conns);
        sockets
    }

    /// Notes the address from which a peer was last heard. A connected socket
    /// of the peer that serves another address is given up and returned, for
    /// the caller to close.
    pub fn set_endpoint(&mut self, index: u32, addr: SocketAddr) -> (closed: Option<i32>)
        requires
            old(self).wf(),
        ensures
            final(self).wf(),
            final(self)@ == old(self)@.with_peer_state(
                index,
                old(self)@.peers[index].moved_to(addr),
            ),
            closed == if old(self)@.peers.contains_key(index) && old(
                self,
            )@.peers[index].endpoint.addr != Some(addr) {
                old(self)@.peers[index].endpoint.conn
            } else {
                None
            },
    {
        match self.peers_by_idx.remove(&index) {
            Some(mut peer) => {
                let closed = peer.set_endpoint(addr);
                self.peers_by_idx.insert(index, peer);
                proof {
                    let next = old(self)@.peers[index].moved_to(addr);
                    lemma_peer_state_keeps_consistent(old(self)@, index, next);
                    assert(self@.peers =~= old(self)@.with_peer_state(index, next).peers);
                    assert(self@ =~= old(self)@.with_peer_state(index, next));
                }
                closed
            },
            None => {
                assert(self@.peers =~= old(self)@.peers);
                assert(self@ =~= old(self)@);
                None
            },
        }
    }

    /// Makes `conn` the connected socket of a peer. The socket that it
    /// replaces, if there was one, is returned, for the caller to close.
    pub fn attach_endpoint(&mut self, index: u32, conn: i32) -> (closed: Option<i32>)
        requires
            old(self).wf(),
        ensures
            final(self).wf(),
            final(self)@ == old(self)@.with_peer_state(
                index,
                PeerState {
                    endpoint: Endpoint {
                        addr: old(self)@.peers[index].endpoint.addr,
                        conn: Some(conn),
                    },
                    ..old(self)@.peers[index]
                },
            ),
            closed == if old(self)@.peers.contains_key(index) {
                old(self)@.peers[index].endpoint.conn
            } else {
                None
            },
    {
        match self.peers_by_idx.remove(&index) {
            Some(mut peer) => {
                let closed = peer.attach_endpoint(conn);
                self.peers_by_idx.insert(index, peer);
                proof {
                    let next = PeerState {
                        endpoint: Endpoint {
                            addr: old(self)@.peers[index].endpoint.addr,
                            conn: Some(conn),
                        },
                        ..old(self)@.peers[index]
                    };
                    lemma_peer_state_keeps_consistent(old(self)@, index, next);
                    assert(self@.peers =~= old(self)@.with_peer_state(index, next).peers);
                    assert(self@ =~= old(self)@.with_peer_state(index, next));
                }
                closed
            },
            None => {
                assert(self@.peers =~= old(self)@.peers);
                assert(self@ =~= old(self)@);
                None
            },
        }
    }

    /// Gives up the connected socket of a peer and keeps its address. The
    /// socket, if there was one, is returned, for the caller to close.
    pub fn shutdown_endpoint(&mut self, index: u32) -> (closed: Option<i32>)
        requires
            old(self).wf(),
        ensures
            final(self).wf(),
            final(self)@ == old(self)@.with_peer_state(
                index,
                old(self)@.peers[index].disconnected(),
            ),
            closed == if old(self)@.peers.contains_key(index) {
                old(self)@.peers[index].endpoint.conn
            } else {
                None
            },
    {
        match self.peers_by_idx.remove(&index) {
            Some(mut peer) => {
                let closed = peer.shutdown_endpoint();
                self.peers_by_idx.insert(index, peer);
                proof {
                    let next = old(self)@.peers[index].disconnected();
                    lemma_peer_state_keeps_consistent(old(self)@, index, next);
                    assert(self@.peers =~= old(self)@.with_peer_state(index, next).peers);
                    assert(self@ =~= old(self)@.with_peer_state(index, next));
                }
                closed
            },
            None => {
                assert(self@.peers =~= old(self)@.peers);
                assert(self@ =~= old(self)@);
                None
            },
        }
    }

    /// Notes what the tunnel of a peer reports of its traffic.
    pub fn record_stats(&mut self, index: u32, stats: PeerStats)
        requires
            old(self).wf(),
        ensures
            final(self).wf(),
            final(self)@ == old(self)@.with_peer_state(
                index,
                PeerState { stats, ..old(self)@.peers[index] },
            ),
    {
        match self.peers_by_idx.remove(&index) {
            Some(mut peer) => {
                peer.record_stats(stats);
                self.peers_by_idx.insert(index, peer);
                proof {
                    let next = PeerState { stats, ..old(self)@.peers[index] };
                    lemma_peer_state_keeps_consistent(old(self)@, index, next);
                    assert(self@.peers =~= old(self)@.with_peer_state(index, next).peers);
                    assert(self@ =~= old(self)@.with_peer_state(index, next));
                }
            },
            None => {
                assert(self@.peers =~= old(self)@.peers);
                assert(self@ =~= old(self)@);
            },
        }
    }

    /// The device's key pair, once a private key was set.
    pub fn key_pair(&self) -> (pair: Option<KeyPair>)
        ensures
            pair == self@.key_pair,
    {
        self.key_pair
    }

    /// What the device's rate limiter is made with; there is one exactly
    /// when the device has a key pair.
    pub fn rate_limiter(&self) -> (limiter: Option<LimiterSetup>)
        ensures
            limiter == self@.limiter,
    {
        self.limiter
    }

    /// The port that the listening sockets are bound to.
    pub fn listen_port(&self) -> (port: u16)
        ensures
            port == self@.listen_port,
    {
        self.listen_port
    }

    /// The mark that the device's sockets get, if one was set.
    pub fn fwmark(&self) -> (mark: Option<u32>)
        ensures
            mark == self@.fwmark,
    {
        self.fwmark
    }

    /// The IPv4 listening socket, while it is open.
    pub fn udp4(&self) -> (socket: Option<i32>)
        ensures
            socket == self@.udp4,
    {
        self.udp4
    }

    /// The IPv6 listening socket, while it is open.
    pub fn udp6(&self) -> (socket: Option<i32>)
        ensures
            socket == self@.udp6,
    {
        self.udp6
    }

    /// The size of the largest packet that the interface takes, as last noted.
    pub fn mtu(&self) -> (mtu: usize)
        ensures
            mtu == self@.mtu,
    {
        self.mtu
    }

    /// Notes the size of the largest packet that the interface takes.
    pub fn set_mtu(&mut self, mtu: usize)
        requires
            old(self).wf(),
        ensures
            final(self).wf(),
            final(self)@ == (DeviceState { mtu, ..old(self)@ }),
    {
        self.mtu = mtu;
    }

    /// How the device is to be run.
    pub fn config(&self) -> (config: &DeviceConfig)
        ensures
            *config == self@.config,
    {
        &self.config
    }

    /// The index by public key, in the order in which the peers arrived.
    pub fn peer_keys(&self) -> (keys: &Vec<KeyEntry>)
        ensures
            keys@ == self@.keys,
    {
        &self.peers
    }

    /// Removes the peer with this public key from all three indices.
    #[verifier::rlimit(40)]
    pub fn remove_peer(&mut self, pub_key: &[u8; 32]) -> (change: PeerChange)
        requires
            old(self).wf(),
        ensures
            final(self).wf(),
            final(self)@ == old(self)@.without_peer(*pub_key),
            change == if old(self)@.has_peer(*pub_key) {
                PeerChange::Removed {
                    index: old(self)@.index_of(*pub_key),
                    conn: old(self)@.peer_of(*pub_key).endpoint.conn,
                }
            } else {
                PeerChange::Unknown
            },
    {
        match self.position_of(pub_key) {
            None => PeerChange::Unknown,
            Some(j) => {
                assert(same_key(self@.keys[j as int].key, *pub_key));
                let entry = self.peers.remove(j);
                let index = entry.index;
                let conn = match self.peers_by_idx.remove(&index) {
                    Some(peer) => peer.endpoint().conn,
                    None => None,
                };
                assert(states(self.peers_by_idx@) =~= old(self)@.peers.remove(index));
                let gone = |v: &u32| -> (b: bool)
                    ensures
                        b == (*v == index),
                    { *v == index };
                self.peers_by_ip.remove(&gone);
                proof {
                    lemma_remove_keeps_consistent(old(self)@, *pub_key);
                    assert(self@.routes =~= old(self)@.without_peer(*pub_key).routes);
                    assert(self@.peers =~= old(self)@.without_peer(*pub_key).peers);
                    assert(self@ =~= old(self)@.without_peer(*pub_key));
                }
                PeerChange::Removed { index, conn }
            },
        }
    }

    /// Removes the peer with this public key, or adds one: a new peer gets
    /// the next index and enters all three indices. A public key that the
    /// device knows already is refused, and the device stays as it was.
    #[verifier::rlimit(40)]
    pub fn update_peer(
        &mut self,
        pub_key: [u8; 32],
        remove: bool,
        _replace_ips: bool,
        endpoint: Option<SocketAddr>,
        allowed_ips: &[AllowedIP],
        keepalive: Option<u16>,
        preshared_key: Option<[u8; 32]>,
    ) -> (change: Result<PeerChange, PeerError>)
        requires
            old(self).wf(),
            !remove && !old(self)@.has_peer(pub_key) ==> {
                &&& old(self)@.key_pair is Some
                &&& old(self)@.next_index < MAX_INDEX
                &&& forall|i: int|
                    0 <= i < allowed_ips@.len() ==> (#[trigger] allowed_ips@[i]).valid()
            },
        ensures
            final(self).wf(),
            remove ==> final(self)@ == old(self)@.without_peer(pub_key) && change == Ok::<
                PeerChange,
                PeerError,
            >(
                if old(self)@.has_peer(pub_key) {
                    PeerChange::Removed {
                        index: old(self)@.index_of(pub_key),
                        conn: old(self)@.peer_of(pub_key).endpoint.conn,
                    }
                } else {
                    PeerChange::Unknown
                },
            ),
            !remove && old(self)@.has_peer(pub_key) ==> final(self)@ == old(self)@ && change
                == Err::<PeerChange, PeerError>(PeerError::AlreadyExists),
            !remove && !old(self)@.has_peer(pub_key) ==> final(self)@ == old(self)@.with_peer(
                old(self)@.new_peer(pub_key, endpoint, allowed_ips@, keepalive, preshared_key),
            ) && change == Ok::<PeerChange, PeerError>(
                PeerChange::Added { index: old(self)@.next_index },
            ),
    {
        if remove {
            return Ok(self.remove_peer(&pub_key));
        }
        if self.position_of(&pub_key).is_some() {
            return Err(PeerError::AlreadyExists);
        }
        let next_index = self.next_index();
        let peer = Peer::new(pub_key, next_index, endpoint, allowed_ips, keepalive, preshared_key);
        let ghost added = peer@;
        self.peers.push(KeyEntry { key: pub_key, index: next_index });
        self.peers_by_idx.insert(next_index, peer);
        claim_blocks(&mut self.peers_by_ip, allowed_ips, next_index);
        proof {
            lemma_add_keeps_consistent(old(self)@, added);
            assert(self@.peers =~= old(self)@.with_peer(added).peers);
            assert(self@.routes =~= old(self)@.with_peer(added).routes);
            assert(self@ =~= old(self)@.with_peer(added));
        }
        Ok(PeerChange::Added { index: next_index })
    }
}

/// The connected sockets of the first `n` peers in the order of their arrival.
pub open spec fn open_conns(keys: Seq<KeyEntry>, peers: Map<u32, PeerState>, n: int) -> Seq<i32>
    decreases n,
{
    if n <= 0 {
        Seq::empty()
    } else {
        let rest = open_conns(keys, peers, n - 1);
        match peers[keys[n - 1].index].endpoint.conn {
            Some(conn) => rest.push(conn),
            None => rest,
        }
    }
}

/// The peers of a map as contracts see them.
pub open spec fn states(peers: Map<u32, Peer>) -> Map<u32, PeerState> {
    Map::new(|i: u32| peers.contains_key(i), |i: u32| peers[i]@)
}

proof fn lemma_distinct_indices(s: DeviceState)
    requires
        s.consistent(),
    ensures
        forall|j: int, k: int|
            0 <= j < k < s.keys.len() ==> (#[trigger] s.keys[j]).index != (#[trigger] s.keys[k]).index,
{
    assert forall|j: int, k: int| 0 <= j < k < s.keys.len() implies (#[trigger] s.keys[j]).index != (
    #[trigger] s.keys[k]).index by {
        assert(!same_key(s.keys[j].key, s.keys[k].key));
    }
}

#[verifier::rlimit(40)]
fn disconnect_all(keys: &Vec<KeyEntry>, peers: &mut HashMap<u32, Peer>) -> (closed: Vec<i32>)
    requires
        forall|j: int| 0 <= j < keys@.len() ==> old(peers)@.contains_key((#[trigger] keys@[j]).index),
        forall|j: int, k: int|
            0 <= j < k < keys@.len() ==> (#[trigger] keys@[j]).index != (#[trigger] keys@[k]).index,
        forall|i: u32| #[trigger] old(peers)@.contains_key(i) ==> old(peers)@[i].wf() && exists|
            j: int,
        |
            0 <= j < keys@.len() && (#[trigger] keys@[j]).index == i,
    ensures
        forall|i: u32| old(peers)@.contains_key(i) == #[trigger] final(peers)@.contains_key(i),
        forall|i: u32| #[trigger]
            final(peers)@.contains_key(i) ==> final(peers)@[i].wf() && final(peers)@[i]@ == old(
                peers,
            )@[i]@.disconnected(),
        closed@ == open_conns(keys@, states(old(peers)@), keys@.len() as int),
{
    let mut closed: Vec<i32> = Vec::new();
    let mut j: usize = 0;
    while j < keys.len()
        invariant
            j <= keys@.len(),
            forall|k: int, l: int|
                0 <= k < l < keys@.len() ==> (#[trigger] keys@[k]).index != (#[trigger] keys@[l]).index,
            forall|i: u32| old(peers)@.contains_key(i) == #[trigger] peers@.contains_key(i),
            forall|k: int| 0 <= k < keys@.len() ==> peers@.contains_key((#[trigger] keys@[k]).index),
            forall|i: u32| #[trigger] peers@.contains_key(i) ==> peers@[i].wf(),
            forall|k: int|
                0 <= k < j ==> peers@[(#[trigger] keys@[k]).index]@ == old(
                    peers,
                )@[keys@[k].index]@.disconnected(),
            forall|k: int|
                j <= k < keys@.len() ==> peers@[(#[trigger] keys@[k]).index]@ == old(
                    peers,
                )@[keys@[k].index]@,
            closed@ == open_conns(keys@, states(old(peers)@), j as int),
        decreases keys@.len() - j,
    {
        let index = keys[j].index;
        let ghost before = peers@;
        match peers.remove(&index) {
            Some(mut peer) => {
                match peer.shutdown_endpoint() {
                    Some(conn) => {
                        closed.push(conn);
                    },
                    None => {},
                }
                peers.insert(index, peer);
            },
            None => {},
        }
        proof {
            assert forall|k: int| 0 <= k < keys@.len() && k != j implies peers@[(
            #[trigger] keys@[k]).index] == before[keys@[k].index] by {
                if k < j {
                    assert(keys@[k].index != keys@[j as int].index);
                } else {
                    assert(keys@[j as int].index != keys@[k].index);
                }
            }
        }
        j += 1;
    }
    proof {
        assert forall|i: u32| #[trigger] peers@.contains_key(i) implies peers@[i]@ == old(
            peers,
        )@[i]@.disconnected() by {
            let k = choose|k: int| 0 <= k < keys@.len() && (#[trigger] keys@[k]).index == i;
            assert(peers@[keys@[k].index]@ == old(peers)@[keys@[k].index]@.disconnected());
        }
    }
    closed
}

} // verus!
