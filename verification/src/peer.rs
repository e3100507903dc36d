//! One peer of the device: who it is, where it is reached and which addresses
//! it may use.

use crate::allowed_ips::{route, AllowedIps};
use crate::error::Error;
use crate::ip::{blocks_of, AllowedIP, IpAddr, Prefix, SocketAddr};
use vstd::prelude::*;

verus! {

/// The largest number of peers that a device can ever have created.
pub const MAX_INDEX: u32 = 0x100_0000;

/// Where a peer is reached: its address, once known, and the connected socket
/// that serves it, if one is open.
#[derive(Clone, Copy, Debug, PartialEq, Eq)]
pub struct Endpoint {
    pub addr: Option<SocketAddr>,
    pub conn: Option<i32>,
}

/// What a peer's tunnel reports of the traffic it has carried.
#[derive(Clone, Copy, Debug, PartialEq, Eq)]
pub struct PeerStats {
    pub last_handshake_sec: Option<u64>,
    pub last_handshake_nsec: Option<u32>,
    pub rx_bytes: u64,
    pub tx_bytes: u64,
}

/// What has to be done to give a peer a connected socket.
#[derive(Clone, Copy, Debug, PartialEq, Eq)]
pub struct ConnectPlan {
    pub remote: SocketAddr,
    pub local_port: u16,
    pub fwmark: Option<u32>,
}

/// A peer as contracts see it.
#[verifier::ext_equal]
pub struct PeerState {
    pub public_key: [u8; 32],
    pub index: u32,
    pub endpoint: Endpoint,
    pub allowed: Set<Prefix>,
    pub keepalive: u16,
    pub preshared_key: Option<[u8; 32]>,
    pub stats: PeerStats,
}

/// A peer of the device.
pub struct Peer {
    public_key: [u8; 32],
    index: u32,
    endpoint: Endpoint,
    allowed_ips: AllowedIps<()>,
    keepalive: u16,
    preshared_key: Option<[u8; 32]>,
    stats: PeerStats,
}

impl View for Peer {
    type V = PeerState;

    closed spec fn view(&self) -> PeerState {
        PeerState {
            public_key: self.public_key,
            index: self.index,
            endpoint: self.endpoint,
            allowed: self.allowed_ips@.dom(),
            keepalive: self.keepalive,
            preshared_key: self.preshared_key,
            stats: self.stats,
        }
    }
}

impl PeerState {
    /// Whether one of the peer's blocks covers the address.
    pub open spec fn allows(self, addr: IpAddr) -> bool {
        exists|p: Prefix| self.allowed.contains(p) && #[trigger] p.covers(addr)
    }

    /// The peer with the given address and no connected socket, or the peer
    /// unchanged where it is reached at that address already.
    pub open spec fn moved_to(self, addr: SocketAddr) -> PeerState {
        if self.endpoint.addr == Some(addr) {
            self
        } else {
            PeerState { endpoint: Endpoint { addr: Some(addr), conn: None }, ..self }
        }
    }

    /// The peer without its connected socket.
    pub open spec fn disconnected(self) -> PeerState {
        PeerState { endpoint: Endpoint { addr: self.endpoint.addr, conn: None }, ..self }
    }
}

/// The statistics of a peer whose tunnel has carried nothing yet.
pub open spec fn no_stats() -> PeerStats {
    PeerStats { last_handshake_sec: None, last_handshake_nsec: None, rx_bytes: 0, tx_bytes: 0 }
}

impl Peer {
    /// The peer's invariant: its index has 24 bits and its table is in order.
    pub closed spec fn wf(self) -> bool {
        self.index < MAX_INDEX && self.allowed_ips.wf()
    }

    /// The index of a peer that is in order has 24 bits.
    pub proof fn lemma_index_bound(self)
        requires
            self.wf(),
        ensures
            self@.index < MAX_INDEX,
    {
    }

    /// A new peer without a connected socket and without traffic so far.
    pub fn new(
        public_key: [u8; 32],
        index: u32,
        endpoint: Option<SocketAddr>,
        allowed_ips: &[AllowedIP],
        keepalive: Option<u16>,
        preshared_key: Option<[u8; 32]>,
    ) -> (peer: Peer)
        requires
            index < MAX_INDEX,
            forall|i: int| 0 <= i < allowed_ips@.len() ==> (#[trigger] allowed_ips@[i]).valid(),
        ensures
            peer.wf(),
            peer@ == (PeerState {
                public_key,
                index,
                endpoint: Endpoint { addr: endpoint, conn: None },
                allowed: blocks_of(allowed_ips@),
                keepalive: match keepalive {
                    Some(k) => k,
                    None => 0,
                },
                preshared_key,
                stats: no_stats(),
            }),
    {
        let mut table: AllowedIps<()> = AllowedIps::new();
        let mut i: usize = 0;
        while i < allowed_ips.len()
            invariant
                i <= allowed_ips@.len(),
                table.wf(),
                table@.dom() =~= blocks_of(allowed_ips@.take(i as int)),
                forall|j: int| 0 <= j < allowed_ips@.len() ==> (#[trigger] allowed_ips@[j]).valid(),
            decreases allowed_ips@.len() - i,
        {
            let block = allowed_ips[i];
            table.insert(block.addr, block.cidr, ());
            proof {
                let before = allowed_ips@.take(i as int);
                let after = allowed_ips@.take(i + 1);
                assert(after[i as int] == block);
                assert forall|p: Prefix| blocks_of(after).contains(p) <==> (p == block.prefix()
                    || blocks_of(before).contains(p)) by {
                    if blocks_of(before).contains(p) {
                        let j = choose|j: int| 0 <= j < before.len() && (#[trigger] before[j]).prefix() == p;
                        assert(after[j].prefix() == p);
                    }
                    if blocks_of(after).contains(p) {
                        let j = choose|j: int| 0 <= j < after.len() && (#[trigger] after[j]).prefix() == p;
                        if j < i {
                            assert(before[j].prefix() == p);
                        }
                    }
                }
            }
            i += 1;
        }
        assert(allowed_ips@.take(i as int) =~= allowed_ips@);
        Peer {
            public_key,
            index,
            endpoint: Endpoint { addr: endpoint, conn: None },
            allowed_ips: table,
            keepalive: match keepalive {
                Some(k) => k,
                None => 0,
            },
            preshared_key,
            stats: PeerStats {
                last_handshake_sec: None,
                last_handshake_nsec: None,
                rx_bytes: 0,
                tx_bytes: 0,
            },
        }
    }

    /// Where the peer is reached, as it is now.
    pub fn endpoint(&self) -> (e: Endpoint)
        ensures
            e == self@.endpoint,
    {
        self.endpoint
    }

    /// The peer's static public key.
    pub fn public_key(&self) -> (k: [u8; 32])
        ensures
            k == self@.public_key,
    {
        self.public_key
    }

    /// The peer's preshared key, if it has one.
    pub fn preshared_key(&self) -> (k: Option<[u8; 32]>)
        ensures
            k == self@.preshared_key,
    {
        self.preshared_key
    }

    /// Notes the address from which the peer was last heard. A connected
    /// socket that serves another address is given up: it is returned, for the
    /// caller to close.
    pub fn set_endpoint(&mut self, addr: SocketAddr) -> (closed: Option<i32>)
        requires
            old(self).wf(),
        ensures
            final(self).wf(),
            final(self)@ == old(self)@.moved_to(addr),
            closed == if old(self)@.endpoint.addr == Some(addr) {
                None
            } else {
                old(self)@.endpoint.conn
            },
    {
        let same = match &self.endpoint.addr {
            Some(a) => a.same(&addr),
            None => false,
        };
        if same {
            None
        } else {
            let closed = self.endpoint.conn;
            self.endpoint = Endpoint { addr: Some(addr), conn: None };
            closed
        }
    }

    /// What it takes to give the peer a connected socket: refused where it
    /// has one already.
    pub fn connect_endpoint(&self, port: u16, fwmark: Option<u32>) -> (plan: Result<
        ConnectPlan,
        Error,
    >)
        requires
            self@.endpoint.addr is Some,
        ensures
            match plan {
                Ok(p) => self@.endpoint.conn is None && p == (ConnectPlan {
                    remote: self@.endpoint.addr.unwrap(),
                    local_port: port,
                    fwmark,
                }),
                Err(e) => self@.endpoint.conn is Some && e is Connect && e->Connect_0@
                    == "Connected"@,
            },
    {
        if self.endpoint.conn.is_some() {
            return Err(Error::Connect("Connected".to_owned()));
        }
        match self.endpoint.addr {
            Some(remote) => Ok(ConnectPlan { remote, local_port: port, fwmark }),
            None => Err(Error::Connect("Connected".to_owned())),
        }
    }

    /// Makes `conn` the peer's connected socket. The socket that it replaces,
    /// if there was one, is returned, for the caller to close.
    pub fn attach_endpoint(&mut self, conn: i32) -> (closed: Option<i32>)
        requires
            old(self).wf(),
        ensures
            final(self).wf(),
            final(self)@ == (PeerState {
                endpoint: Endpoint { addr: old(self)@.endpoint.addr, conn: Some(conn) },
                ..old(self)@
            }),
            closed == old(self)@.endpoint.conn,
    {
        let closed = self.endpoint.conn;
        self.endpoint = Endpoint { addr: self.endpoint.addr, conn: Some(conn) };
        closed
    }

    /// Gives up the connected socket and keeps the address. The socket, if
    /// there was one, is returned, for the caller to close.
    pub fn shutdown_endpoint(&mut self) -> (closed: Option<i32>)
        requires
            old(self).wf(),
        ensures
            final(self).wf(),
            final(self)@ == old(self)@.disconnected(),
            closed == old(self)@.endpoint.conn,
    {
        let closed = self.endpoint.conn;
        self.endpoint = Endpoint { addr: self.endpoint.addr, conn: None };
        closed
    }

    /// Whether the peer may use the address: whether one of its blocks covers it.
    pub fn is_allowed_ip(&self, addr: IpAddr) -> (allowed: bool)
        requires
            self.wf(),
        ensures
            allowed == self@.allows(addr),
    {
        let found = self.allowed_ips.find(addr);
        proof {
            crate::allowed_ips::lemma_route_longest_prefix(self.allowed_ips@, addr);
            if found is Some {
                let p = choose|p: Prefix|
                    self.allowed_ips@.contains_key(p) && p.covers(addr) && self.allowed_ips@[p]
                        == route(self.allowed_ips@, addr).unwrap() && forall|q: Prefix|
                        self.allowed_ips@.contains_key(q) && #[trigger] q.covers(addr)
                            ==> q.bits.len() <= p.bits.len();
                assert(self@.allowed.contains(p) && p.covers(addr));
            }
        }
        found.is_some()
    }

    /// The peer's blocks, each once, by its network address and in the order of the blocks.
    pub fn allowed_ips(&self) -> (list: Vec<AllowedIP>)
        requires
            self.wf(),
        ensures
            blocks_of(list@) == self@.allowed,
            forall|i: int|
                0 <= i < list@.len() ==> (#[trigger] list@[i]).valid() && list@[i].addr.is_network(
                    list@[i].cidr as nat,
                ),
            forall|i: int, j: int|
                0 <= i < j < list@.len() ==> (#[trigger] list@[i]).prefix() != (
                #[trigger] list@[j]).prefix(),
            forall|i: int, j: int|
                0 <= i < j < list@.len() ==> (#[trigger] list@[i]).prefix().precedes(
                    (#[trigger] list@[j]).prefix(),
                ),
    {
        let items = self.allowed_ips.iter();
        let mut list: Vec<AllowedIP> = Vec::new();
        let mut i: usize = 0;
        while i < items.len()
            invariant
                i <= items@.len(),
                list@.len() == i,
                forall|j: int|
                    0 <= j < i ==> (#[trigger] list@[j]).addr == items@[j].0 && list@[j].cidr
                        == items@[j].1,
            decreases items@.len() - i,
        {
            let item = items[i];
            list.push(AllowedIP { addr: item.0, cidr: item.1 });
            i += 1;
        }
        proof {
            assert forall|p: Prefix| blocks_of(list@).contains(p) == self@.allowed.contains(p) by {
                if blocks_of(list@).contains(p) {
                    let j = choose|j: int| 0 <= j < list@.len() && (#[trigger] list@[j]).prefix() == p;
                    assert(items@[j].0.prefix(items@[j].1 as nat) == p);
                }
                if self@.allowed.contains(p) {
                    let j = choose|j: int|
                        0 <= j < items@.len() && (#[trigger] items@[j]).0.prefix(items@[j].1 as nat)
                            == p;
                    assert(list@[j].prefix() == p);
                }
            }
            assert(blocks_of(list@) =~= self@.allowed);
            assert forall|i: int, j: int| 0 <= i < j < list@.len() implies (#[trigger] list@[i]).prefix()
                != (#[trigger] list@[j]).prefix() && list@[i].prefix().precedes(list@[j].prefix()) by {
                assert(items@[i].0.prefix(items@[i].1 as nat) != items@[j].0.prefix(
                    items@[j].1 as nat,
                ));
                assert(items@[i].0.prefix(items@[i].1 as nat).precedes(
                    items@[j].0.prefix(items@[j].1 as nat),
                ));
            }
        }
        list
    }

    /// The interval of the peer's keepalive packets in seconds; 0 where it sends none.
    pub fn persistent_keepalive(&self) -> (seconds: u16)
        ensures
            seconds == self@.keepalive,
    {
        self.keepalive
    }

    /// The keepalive interval that the peer's tunnel is made with: none
    /// where the peer sends no keepalive packets.
    pub fn keepalive_setting(&self) -> (setting: Option<u16>)
        ensures
            setting == if self@.keepalive == 0 {
                None
            } else {
                Some(self@.keepalive)
            },
    {
        if self.keepalive == 0 {
            None
        } else {
            Some(self.keepalive)
        }
    }

    /// The time since the peer's last handshake, in whole seconds and the
    /// nanoseconds beyond them, as its tunnel last reported it.
    pub fn time_since_last_handshake(&self) -> (age: Option<(u64, u32)>)
        ensures
            age == match (self@.stats.last_handshake_sec, self@.stats.last_handshake_nsec) {
                (Some(s), Some(n)) => Some((s, n)),
                _ => None,
            },
    {
        match (self.stats.last_handshake_sec, self.stats.last_handshake_nsec) {
            (Some(s), Some(n)) => Some((s, n)),
            _ => None,
        }
    }

    /// The peer's 24-bit index.
    pub fn index(&self) -> (index: u32)
        ensures
            index == self@.index,
    {
        self.index
    }

    /// What the peer's tunnel last reported of its traffic.
    pub fn stats(&self) -> (stats: PeerStats)
        ensures
            stats == self@.stats,
    {
        self.stats
    }

    /// Notes what the peer's tunnel reports of its traffic.
    pub fn record_stats(&mut self, stats: PeerStats)
        requires
            old(self).wf(),
        ensures
            final(self).wf(),
            final(self)@ == (PeerState { stats, ..old(self)@ }),
    {
        self.stats = stats;
    }
}

} // verus!
