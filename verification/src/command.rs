//! The requests and responses of the control protocol.

use crate::ip::{AllowedIP, SocketAddr};
use vstd::prelude::*;

verus! {

/// The error number of an input or output error: the request is none that the protocol knows.
pub const EIO: i32 = 5;

/// The error number of a peer that exists already.
pub const EEXIST: i32 = 17;

/// The error number of a request that cannot be read or cannot be met.
pub const EINVAL: i32 = 22;

/// The error number of a device that has used up its peer indices.
pub const ENOSPC: i32 = 28;

/// The error number of a port that is taken, or of a mark that the system refuses.
pub const EADDRINUSE: i32 = 98;

/// The 32 bytes of a key.
#[derive(Clone, Copy, Debug, PartialEq, Eq)]
pub struct KeyBytes(pub [u8; 32]);

/// A value that a request sets, or the word that it is to be unset.
#[derive(Clone, Copy, Debug, PartialEq, Eq)]
pub enum SetUnset<T> {
    Value(T),
    Unset,
}

/// What the protocol says of one peer, in a request and in a response alike.
#[derive(Clone, Debug, PartialEq, Eq)]
pub struct PeerConfig {
    pub public_key: KeyBytes,
    pub preshared_key: Option<SetUnset<KeyBytes>>,
    pub endpoint: Option<SocketAddr>,
    pub persistent_keepalive_interval: Option<u16>,
    pub allowed_ip: Vec<AllowedIP>,
}

/// One peer block of a `set` request.
#[derive(Clone, Debug, PartialEq, Eq)]
pub struct SetPeer {
    pub peer: PeerConfig,
    pub remove: bool,
    pub update_only: bool,
    pub replace_allowed_ips: bool,
}

/// A `get` request: it asks for the whole configuration.
#[derive(Clone, Copy, Debug, PartialEq, Eq)]
pub struct GetRequest;

/// A `set` request.
#[derive(Clone, Debug, PartialEq, Eq)]
pub struct SetRequest {
    pub private_key: Option<KeyBytes>,
    pub listen_port: Option<u16>,
    pub fwmark: Option<u32>,
    pub replace_peers: bool,
    pub protocol_version: Option<u32>,
    pub peers: Vec<SetPeer>,
}

/// A request of the control protocol.
#[derive(Clone, Debug, PartialEq, Eq)]
pub enum Request {
    Get(GetRequest),
    Change(SetRequest),
}

/// One peer block of the response to a `get` request.
#[derive(Clone, Debug, PartialEq, Eq)]
pub struct GetPeer {
    pub peer: PeerConfig,
    pub last_handshake_time_sec: Option<u64>,
    pub last_handshake_time_nsec: Option<u32>,
    pub rx_bytes: Option<u64>,
    pub tx_bytes: Option<u64>,
}

/// The response to a `get` request.
#[derive(Clone, Debug, PartialEq, Eq)]
pub struct GetResponse {
    pub private_key: Option<KeyBytes>,
    pub listen_port: Option<u16>,
    pub fwmark: Option<u32>,
    pub peers: Vec<GetPeer>,
    pub errno: i32,
}

/// The response to a `set` request.
#[derive(Clone, Copy, Debug, PartialEq, Eq)]
pub struct SetResponse {
    pub errno: i32,
}

/// A response of the control protocol.
#[derive(Clone, Debug, PartialEq, Eq)]
pub enum Response {
    Get(GetResponse),
    Change(SetResponse),
}

/// A peer's configuration as contracts see it.
#[verifier::ext_equal]
pub struct PeerConfigView {
    pub public_key: KeyBytes,
    pub preshared_key: Option<SetUnset<KeyBytes>>,
    pub endpoint: Option<SocketAddr>,
    pub persistent_keepalive_interval: Option<u16>,
    pub allowed_ip: Seq<AllowedIP>,
}

impl View for PeerConfig {
    type V = PeerConfigView;

    open spec fn view(&self) -> PeerConfigView {
        PeerConfigView {
            public_key: self.public_key,
            preshared_key: self.preshared_key,
            endpoint: self.endpoint,
            persistent_keepalive_interval: self.persistent_keepalive_interval,
            allowed_ip: self.allowed_ip@,
        }
    }
}

/// A peer block of a `set` request as contracts see it.
#[verifier::ext_equal]
pub struct SetPeerView {
    pub peer: PeerConfigView,
    pub remove: bool,
    pub update_only: bool,
    pub replace_allowed_ips: bool,
}

impl View for SetPeer {
    type V = SetPeerView;

    open spec fn view(&self) -> SetPeerView {
        SetPeerView {
            peer: self.peer@,
            remove: self.remove,
            update_only: self.update_only,
            replace_allowed_ips: self.replace_allowed_ips,
        }
    }
}

/// A `set` request as contracts see it.
#[verifier::ext_equal]
pub struct SetRequestView {
    pub private_key: Option<KeyBytes>,
    pub listen_port: Option<u16>,
    pub fwmark: Option<u32>,
    pub replace_peers: bool,
    pub protocol_version: Option<u32>,
    pub peers: Seq<SetPeerView>,
}

impl View for SetRequest {
    type V = SetRequestView;

    open spec fn view(&self) -> SetRequestView {
        SetRequestView {
            private_key: self.private_key,
            listen_port: self.listen_port,
            fwmark: self.fwmark,
            replace_peers: self.replace_peers,
            protocol_version: self.protocol_version,
            peers: Seq::new(self.peers@.len(), |i: int| self.peers@[i]@),
        }
    }
}

/// A request as contracts see it.
#[verifier::ext_equal]
pub enum RequestView {
    Get,
    Change(SetRequestView),
}

impl View for Request {
    type V = RequestView;

    open spec fn view(&self) -> RequestView {
        match self {
            Request::Get(_) => RequestView::Get,
            Request::Change(set) => RequestView::Change(set@),
        }
    }
}

/// A peer block of a `get` response as contracts see it.
#[verifier::ext_equal]
pub struct GetPeerView {
    pub peer: PeerConfigView,
    pub last_handshake_time_sec: Option<u64>,
    pub last_handshake_time_nsec: Option<u32>,
    pub rx_bytes: Option<u64>,
    pub tx_bytes: Option<u64>,
}

impl View for GetPeer {
    type V = GetPeerView;

    open spec fn view(&self) -> GetPeerView {
        GetPeerView {
            peer: self.peer@,
            last_handshake_time_sec: self.last_handshake_time_sec,
            last_handshake_time_nsec: self.last_handshake_time_nsec,
            rx_bytes: self.rx_bytes,
            tx_bytes: self.tx_bytes,
        }
    }
}

/// A `get` response as contracts see it.
#[verifier::ext_equal]
pub struct GetResponseView {
    pub private_key: Option<KeyBytes>,
    pub listen_port: Option<u16>,
    pub fwmark: Option<u32>,
    pub peers: Seq<GetPeerView>,
    pub errno: i32,
}

impl View for GetResponse {
    type V = GetResponseView;

    open spec fn view(&self) -> GetResponseView {
        GetResponseView {
            private_key: self.private_key,
            listen_port: self.listen_port,
            fwmark: self.fwmark,
            peers: Seq::new(self.peers@.len(), |i: int| self.peers@[i]@),
            errno: self.errno,
        }
    }
}

/// A response as contracts see it.
#[verifier::ext_equal]
pub enum ResponseView {
    Get(GetResponseView),
    Change(SetResponse),
}

impl View for Response {
    type V = ResponseView;

    open spec fn view(&self) -> ResponseView {
        match self {
            Response::Get(get) => ResponseView::Get(get@),
            Response::Change(set) => ResponseView::Change(*set),
        }
    }
}

} // verus!
