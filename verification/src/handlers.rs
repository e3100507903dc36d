//! The decisions of the packet handlers. The caller receives and sends, and
//! runs the tunnels and the rate limiter; what it gets from them it hands to
//! the functions here, which say what is to be done with it.

use crate::allowed_ips::route;
use crate::device::{Device, DeviceState, MAX_ITR};
use crate::ip::{IpAddr, SocketAddr};
use crate::peer::{ConnectPlan, PeerState};
use vstd::prelude::*;

verus! {

/// What the event loop does after a handler has returned.
#[derive(Clone, Copy, Debug, PartialEq, Eq)]
pub enum Action {
    /// Wait for the next event.
    Continue,
    /// Give up the read lock and take it again, to let a writer in.
    Yield,
    /// Stop the loop.
    Exit,
}

/// The kind of a packet that passed the rate limiter, with the receiver
/// index that all kinds but the first carry.
#[derive(Clone, Copy, Debug, PartialEq, Eq)]
pub enum PacketKind {
    HandshakeInit,
    HandshakeResponse(u32),
    CookieReply(u32),
    Data(u32),
}

/// What the rate limiter makes of a datagram.
#[derive(Clone, Copy, Debug, PartialEq, Eq)]
pub enum Verdict {
    /// The datagram holds a packet of this kind.
    Packet(PacketKind),
    /// The sender is to get a cookie reply.
    Cookie,
    /// The datagram is to be dropped.
    Reject,
}

/// Why a tunnel did not do what it was asked.
#[derive(Clone, Copy, Debug, PartialEq, Eq)]
pub enum TunnelError {
    /// The session is too old to be used.
    ConnectionExpired,
    /// Any other error.
    Other,
}

/// What a tunnel returns: the packet that it may have written stays with the
/// caller, the address is the source address of a packet for the interface.
#[derive(Clone, Copy, Debug, PartialEq, Eq)]
pub enum TunnResult {
    Done,
    Error(TunnelError),
    WriteToNetwork,
    WriteToTunnelV4([u8; 4]),
    WriteToTunnelV6([u8; 16]),
}

/// What becomes of a datagram that came in on a listening socket.
#[derive(Clone, Copy, Debug, PartialEq, Eq)]
pub enum Dispatch {
    /// Send the cookie reply to the datagram's source.
    SendCookie,
    /// Drop the datagram.
    Drop,
    /// Read the handshake with the device's keys, and come back with the
    /// static public key of its sender.
    Identify,
    /// Hand the packet to the tunnel of the peer of this index.
    Handle(u32),
}

/// What leaves the device after a tunnel has handled a packet.
#[derive(Clone, Copy, Debug, PartialEq, Eq)]
pub enum Output {
    /// Nothing.
    Nothing,
    /// The packet goes to the network.
    Network,
    /// The packet goes to the interface as an IPv4 packet.
    TunnelV4,
    /// The packet goes to the interface as an IPv6 packet.
    TunnelV6,
}

/// What is to be done after a tunnel has handled a packet from the network.
#[derive(Clone, Copy, Debug, PartialEq, Eq)]
pub struct Delivery {
    pub output: Output,
    /// Whether the tunnel's queue is to be drained to the network.
    pub flush: bool,
    /// Whether the packet counts against what the handler may take on.
    pub counted: bool,
    /// A connected socket that the peer has given up, to be closed.
    pub closed: Option<i32>,
    /// A connected socket that the peer is to get.
    pub connect: Option<ConnectPlan>,
}

/// Where a packet from the interface leaves the device.
#[derive(Clone, Copy, Debug, PartialEq, Eq)]
pub enum Egress {
    /// Nowhere: the tunnel had nothing to send.
    Nothing,
    /// Nowhere: the tunnel failed, which is worth a log line.
    Failed,
    /// Through the peer's connected socket.
    Connected(i32),
    /// Through a listening socket, to the peer's address.
    Listener { socket: i32, to: SocketAddr },
    /// Nowhere: the peer has no address yet, which is worth a log line.
    NoEndpoint,
}

/// Why a read from the interface failed.
#[derive(Clone, Copy, Debug, PartialEq, Eq)]
pub enum ReadFailure {
    WouldBlock,
    Interrupted,
    Other,
}

/// What a peer's timers ask for.
#[derive(Clone, Copy, Debug, PartialEq, Eq)]
pub enum TimerStep {
    /// Nothing.
    Nothing,
    /// Nothing: the tunnel failed, which is worth a log line.
    Failed,
    /// The session has expired: the peer's connected socket, if it had
    /// one, was given up and is to be closed.
    Expired(Option<i32>),
    /// The packet goes through a listening socket to the peer's address.
    Send { socket: i32, to: SocketAddr },
}

/// The peer index that a receiver index names: its upper 24 bits.
pub open spec fn peer_of_receiver(receiver_idx: u32) -> u32 {
    receiver_idx >> 8
}

/// What becomes of a datagram after the rate limiter has seen it. Only a
/// packet reaches a tunnel: a handshake initiation after its sender is known,
/// any other packet if the receiver index names a peer.
pub open spec fn dispatch_of(s: DeviceState, verdict: Verdict) -> Dispatch {
    match verdict {
        Verdict::Cookie => Dispatch::SendCookie,
        Verdict::Reject => Dispatch::Drop,
        Verdict::Packet(PacketKind::HandshakeInit) => Dispatch::Identify,
        Verdict::Packet(PacketKind::HandshakeResponse(i)) => by_receiver(s, i),
        Verdict::Packet(PacketKind::CookieReply(i)) => by_receiver(s, i),
        Verdict::Packet(PacketKind::Data(i)) => by_receiver(s, i),
    }
}

/// The peer that a receiver index names, if the device has it.
pub open spec fn by_receiver(s: DeviceState, receiver_idx: u32) -> Dispatch {
    if s.peers.contains_key(peer_of_receiver(receiver_idx)) {
        Dispatch::Handle(peer_of_receiver(receiver_idx))
    } else {
        Dispatch::Drop
    }
}

/// The peer that sent a handshake initiation, if the handshake could be
/// read and the device has a peer of that key.
pub open spec fn identified_of(s: DeviceState, sender: Option<[u8; 32]>) -> Dispatch {
    match sender {
        Some(key) => if s.has_peer(key) {
            Dispatch::Handle(s.index_of(key))
        } else {
            Dispatch::Drop
        },
        None => Dispatch::Drop,
    }
}

/// What leaves the device for a tunnel's result: a packet for the interface
/// leaves only if the peer may use its source address.
pub open spec fn output_of(peer: PeerState, result: TunnResult) -> Output {
    match result {
        TunnResult::Done => Output::Nothing,
        TunnResult::Error(_) => Output::Nothing,
        TunnResult::WriteToNetwork => Output::Network,
        TunnResult::WriteToTunnelV4(a) => if peer.allows(IpAddr::V4(a)) {
            Output::TunnelV4
        } else {
            Output::Nothing
        },
        TunnResult::WriteToTunnelV6(a) => if peer.allows(IpAddr::V6(a)) {
            Output::TunnelV6
        } else {
            Output::Nothing
        },
    }
}

/// The delivery that does nothing.
pub open spec fn no_delivery() -> Delivery {
    Delivery { output: Output::Nothing, flush: false, counted: false, closed: None, connect: None }
}

/// What is to be done after the tunnel of a peer has handled a packet that
/// came from `src` on a listening socket. A packet that the tunnel refused
/// changes nothing. Any other makes `src` the peer's address, and asks for a
/// connected socket where the device uses them and the peer has none.
pub open spec fn udp_delivery(s: DeviceState, index: u32, result: TunnResult, src: SocketAddr) -> (
    DeviceState,
    Delivery,
) {
    if !s.peers.contains_key(index) || result is Error {
        (s, no_delivery())
    } else {
        let peer = s.peers[index];
        let moved = peer.moved_to(src);
        (
            s.with_peer_state(index, moved),
            Delivery {
                output: output_of(peer, result),
                flush: result is WriteToNetwork,
                counted: true,
                closed: if peer.endpoint.addr == Some(src) {
                    None
                } else {
                    peer.endpoint.conn
                },
                connect: if s.config.use_connected_socket && moved.endpoint.conn is None {
                    Some(ConnectPlan { remote: src, local_port: s.listen_port, fwmark: s.fwmark })
                } else {
                    None
                },
            },
        )
    }
}

/// The listening socket of the family of an address.
pub open spec fn listener_for(s: DeviceState, addr: SocketAddr) -> Option<i32> {
    if addr.ip.is_v6() {
        s.udp6
    } else {
        s.udp4
    }
}

/// Where a packet leaves that a peer's tunnel has made from a packet of the
/// interface: through the connected socket where there is one, else through
/// the listening socket of the family of the peer's address. A peer that is
/// gone has no address.
pub open spec fn egress_of(s: DeviceState, index: u32, result: TunnResult) -> Egress {
    match result {
        TunnResult::Error(_) => Egress::Failed,
        TunnResult::WriteToNetwork => if s.peers.contains_key(index) {
            let endpoint = s.peers[index].endpoint;
            match (endpoint.conn, endpoint.addr) {
                (Some(conn), _) => Egress::Connected(conn),
                (None, Some(addr)) => Egress::Listener {
                    socket: listener_for(s, addr).unwrap(),
                    to: addr,
                },
                (None, None) => Egress::NoEndpoint,
            }
        } else {
            Egress::NoEndpoint
        },
        _ => Egress::Nothing,
    }
}

/// What a peer's timers lead to: an expired session costs the peer its
/// connected socket, a packet goes out through the listening socket of the
/// family of the peer's address. Nothing happens for a peer that is gone or
/// has no address, and nothing while a listening socket is missing.
pub open spec fn timer_outcome(s: DeviceState, index: u32, result: TunnResult) -> (
    DeviceState,
    TimerStep,
) {
    if !s.peers.contains_key(index) || s.peers[index].endpoint.addr is None || s.udp4 is None
        || s.udp6 is None {
        (s, TimerStep::Nothing)
    } else {
        let peer = s.peers[index];
        match result {
            TunnResult::Error(TunnelError::ConnectionExpired) => (
                s.with_peer_state(index, peer.disconnected()),
                TimerStep::Expired(peer.endpoint.conn),
            ),
            TunnResult::Error(TunnelError::Other) => (s, TimerStep::Failed),
            TunnResult::WriteToNetwork => (
                s,
                TimerStep::Send {
                    socket: listener_for(s, peer.endpoint.addr.unwrap()).unwrap(),
                    to: peer.endpoint.addr.unwrap(),
                },
            ),
            _ => (s, TimerStep::Nothing),
        }
    }
}

/// The peers whose timers run: none while a listening socket is missing,
/// else those of the first `n` peers, in the order of their arrival, whose
/// address is known.
pub open spec fn timed_peers(s: DeviceState, n: int) -> Seq<u32>
    decreases n,
{
    if n <= 0 || s.udp4 is None || s.udp6 is None {
        Seq::empty()
    } else {
        let rest = timed_peers(s, n - 1);
        if s.peers[s.keys[n - 1].index].endpoint.addr is Some {
            rest.push(s.keys[n - 1].index)
        } else {
            rest
        }
    }
}

/// Allowed-IP enforcement: a packet that a tunnel hands over for the
/// interface leaves for the interface if and only if its source address lies
/// in one of the peer's blocks, and nothing else ever leaves for the interface.
pub proof fn lemma_allowed_ip_enforcement(peer: PeerState, result: TunnResult)
    ensures
        output_of(peer, result) is TunnelV4 <==> result is WriteToTunnelV4 && peer.allows(
            IpAddr::V4(result->WriteToTunnelV4_0),
        ),
        output_of(peer, result) is TunnelV6 <==> result is WriteToTunnelV6 && peer.allows(
            IpAddr::V6(result->WriteToTunnelV6_0),
        ),
{
}

/// Only what the rate limiter lets through reaches a tunnel: a datagram
/// that it answers with a cookie or rejects is never handed to a peer, nor
/// read as a handshake.
pub proof fn lemma_limiter_guards_tunnels(s: DeviceState, verdict: Verdict)
    ensures
        dispatch_of(s, verdict) is Handle || dispatch_of(s, verdict) is Identify ==> verdict
            is Packet,
        verdict is Cookie ==> dispatch_of(s, verdict) is SendCookie,
{
}

/// What becomes of a datagram from a listening socket, once the rate limiter has seen it.
pub fn udp_dispatch(device: &Device, verdict: Verdict) -> (dispatch: Dispatch)
    requires
        device.wf(),
    ensures
        dispatch == dispatch_of(device@, verdict),
{
    match verdict {
        Verdict::Cookie => Dispatch::SendCookie,
        Verdict::Reject => Dispatch::Drop,
        Verdict::Packet(PacketKind::HandshakeInit) => Dispatch::Identify,
        Verdict::Packet(PacketKind::HandshakeResponse(i)) => receiver(device, i),
        Verdict::Packet(PacketKind::CookieReply(i)) => receiver(device, i),
        Verdict::Packet(PacketKind::Data(i)) => receiver(device, i),
    }
}

fn receiver(device: &Device, receiver_idx: u32) -> (dispatch: Dispatch)
    requires
        device.wf(),
    ensures
        dispatch == by_receiver(device@, receiver_idx),
{
    let index = receiver_idx >> 8;
    match device.peer_by_index(index) {
        Some(_) => Dispatch::Handle(index),
        None => Dispatch::Drop,
    }
}

/// What becomes of a handshake initiation, once it was read: `sender` is the
/// static public key in it, or nothing where it could not be read.
pub fn udp_identified(device: &Device, sender: Option<[u8; 32]>) -> (dispatch: Dispatch)
    requires
        device.wf(),
    ensures
        dispatch == identified_of(device@, sender),
{
    match sender {
        Some(key) => match device.peer_index(&key) {
            Some(index) => Dispatch::Handle(index),
            None => Dispatch::Drop,
        },
        None => Dispatch::Drop,
    }
}

/// What leaves the device for the result of a peer's tunnel.
pub fn tunnel_output(device: &Device, index: u32, result: TunnResult) -> (output: Output)
    requires
        device.wf(),
    ensures
        output == if device@.peers.contains_key(index) {
            output_of(device@.peers[index], result)
        } else {
            Output::Nothing
        },
{
    match device.peer_by_index(index) {
        Some(peer) => match result {
            TunnResult::Done => Output::Nothing,
            TunnResult::Error(_) => Output::Nothing,
            TunnResult::WriteToNetwork => Output::Network,
            TunnResult::WriteToTunnelV4(a) => if peer.is_allowed_ip(IpAddr::V4(a)) {
                Output::TunnelV4
            } else {
                Output::Nothing
            },
            TunnResult::WriteToTunnelV6(a) => if peer.is_allowed_ip(IpAddr::V6(a)) {
                Output::TunnelV6
            } else {
                Output::Nothing
            },
        },
        None => Output::Nothing,
    }
}

/// What is to be done after the tunnel of a peer has handled a packet that
/// came in on a listening socket.
#[verifier::rlimit(40)]
pub fn udp_deliver(device: &mut Device, index: u32, result: TunnResult, src: SocketAddr) -> (delivery:
    Delivery)
    requires
        old(device).wf(),
    ensures
        final(device).wf(),
        (final(device)@, delivery) == udp_delivery(old(device)@, index, result, src),
{
    let none = Delivery {
        output: Output::Nothing,
        flush: false,
        counted: false,
        closed: None,
        connect: None,
    };
    if device.peer_by_index(index).is_none() {
        return none;
    }
    match result {
        TunnResult::Error(_) => {
            return none;
        },
        _ => {},
    }
    let output = tunnel_output(device, index, result);
    let flush = match result {
        TunnResult::WriteToNetwork => true,
        _ => false,
    };
    let closed = device.set_endpoint(index, src);
    let connected = match device.peer_by_index(index) {
        Some(peer) => peer.endpoint().conn.is_some(),
        None => true,
    };
    let connect = if device.config().use_connected_socket && !connected {
        Some(ConnectPlan { remote: src, local_port: device.listen_port(), fwmark: device.fwmark() })
    } else {
        None
    };
    Delivery { output, flush, counted: true, closed, connect }
}

/// Whether a handler that has taken on `handled` packets may take on another.
pub fn may_handle_more(handled: usize) -> (more: bool)
    ensures
        more == (handled < MAX_ITR),
{
    handled < MAX_ITR
}

/// The peer that a packet from the interface goes to: the one under the
/// longest block that covers the packet's destination. A packet without a
/// destination goes to none.
pub fn tun_route(device: &Device, dst: Option<IpAddr>) -> (peer: Option<u32>)
    requires
        device.wf(),
    ensures
        peer == match dst {
            Some(addr) => route(device@.routes, addr),
            None => None,
        },
{
    match dst {
        Some(addr) => match device.peer_by_ip(addr) {
            Some(peer) => {
                proof {
                    device.lemma_consistent();
                    crate::allowed_ips::lemma_route_longest_prefix(device@.routes, addr);
                }
                Some(peer.index())
            },
            None => None,
        },
        None => None,
    }
}

/// Where a packet leaves that a peer's tunnel has made from a packet of the interface.
pub fn tun_egress(device: &Device, index: u32, result: TunnResult) -> (egress: Egress)
    requires
        device.wf(),
        device@.udp4 is Some,
        device@.udp6 is Some,
        !(result is WriteToTunnelV4),
        !(result is WriteToTunnelV6),
    ensures
        egress == egress_of(device@, index, result),
{
    match result {
        TunnResult::Error(_) => Egress::Failed,
        TunnResult::WriteToNetwork => {
            let endpoint = match device.peer_by_index(index) {
                Some(peer) => peer.endpoint(),
                None => {
                    return Egress::NoEndpoint;
                },
            };
            match (endpoint.conn, endpoint.addr) {
                (Some(conn), _) => Egress::Connected(conn),
                (None, Some(addr)) => match listener(device, &addr) {
                    Some(socket) => Egress::Listener { socket, to: addr },
                    None => Egress::NoEndpoint,
                },
                (None, None) => Egress::NoEndpoint,
            }
        },
        _ => Egress::Nothing,
    }
}

fn listener(device: &Device, addr: &SocketAddr) -> (socket: Option<i32>)
    ensures
        socket == listener_for(device@, *addr),
{
    match addr.ip {
        IpAddr::V4(_) => device.udp4(),
        IpAddr::V6(_) => device.udp6(),
    }
}

/// What a failed read from the interface means for the handler: a read
/// that would block or was interrupted ends the batch, any other ends the loop.
pub fn on_read_failure(failure: ReadFailure) -> (action: Action)
    ensures
        action == match failure {
            ReadFailure::WouldBlock => Action::Continue,
            ReadFailure::Interrupted => Action::Continue,
            ReadFailure::Other => Action::Exit,
        },
{
    match failure {
        ReadFailure::WouldBlock => Action::Continue,
        ReadFailure::Interrupted => Action::Continue,
        ReadFailure::Other => Action::Exit,
    }
}

/// The peers whose timers are to run now, by their indices.
pub fn timer_peers(device: &Device) -> (peers: Vec<u32>)
    requires
        device.wf(),
    ensures
        peers@ == timed_peers(device@, device@.keys.len() as int),
{
    let mut peers: Vec<u32> = Vec::new();
    if device.udp4().is_none() || device.udp6().is_none() {
        return peers;
    }
    let keys = device.peer_keys();
    let mut j: usize = 0;
    while j < keys.len()
        invariant
            j <= keys@.len(),
            device.wf(),
            keys@ == device@.keys,
            device@.udp4 is Some,
            device@.udp6 is Some,
            peers@ == timed_peers(device@, j as int),
        decreases keys@.len() - j,
    {
        let index = keys[j].index;
        proof {
            device.lemma_consistent();
            assert(device@.keys[j as int].index == index);
        }
        match device.peer_by_index(index) {
            Some(peer) => {
                if peer.endpoint().addr.is_some() {
                    peers.push(index);
                }
            },
            None => {},
        }
        j += 1;
    }
    peers
}

/// What is to be done after the timers of a peer have run.
#[verifier::rlimit(40)]
pub fn timer_step(device: &mut Device, index: u32, result: TunnResult) -> (step: TimerStep)
    requires
        old(device).wf(),
        !(result is WriteToTunnelV4),
        !(result is WriteToTunnelV6),
    ensures
        final(device).wf(),
        (final(device)@, step) == timer_outcome(old(device)@, index, result),
{
    let addr = match device.peer_by_index(index) {
        Some(peer) => peer.endpoint().addr,
        None => None,
    };
    let to = match addr {
        Some(to) => to,
        None => {
            return TimerStep::Nothing;
        },
    };
    if device.udp4().is_none() || device.udp6().is_none() {
        return TimerStep::Nothing;
    }
    match result {
        TunnResult::Error(TunnelError::ConnectionExpired) => {
            let closed = device.shutdown_endpoint(index);
            TimerStep::Expired(closed)
        },
        TunnResult::Error(TunnelError::Other) => TimerStep::Failed,
        TunnResult::WriteToNetwork => match listener(device, &to) {
            Some(socket) => TimerStep::Send { socket, to },
            None => TimerStep::Nothing,
        },
        _ => TimerStep::Nothing,
    }
}

} // verus!
