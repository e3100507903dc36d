//! The control protocol on the device: what a `get` request is answered
//! with, and the steps by which a `set` request is applied.

use crate::command::{
    GetPeer, GetPeerView, GetRequest, GetResponse, GetResponseView, KeyBytes, PeerConfig, Request,
    SetPeer, SetPeerView, SetRequest, SetRequestView, SetResponse, SetUnset, EADDRINUSE, EEXIST,
    EINVAL, ENOSPC,
};
use crate::device::{BindPlan, Device, DeviceState, KeyChange, KeyPair, LimiterSetup, PeerChange};
use crate::ip::{blocks_of, AllowedIP};
use crate::keys::same_key;
use crate::peer::{PeerState, MAX_INDEX};
use vstd::prelude::*;

verus! {

/// The hold on the device that a request needs.
#[derive(Clone, Copy, Debug, PartialEq, Eq)]
pub enum Access {
    /// The request only reads: it is answered under a reader's hold.
    Read,
    /// The request changes the device: the readers are to give way first.
    Write,
}

/// The hold on the device that a request needs: a `get` request reads, a
/// `set` request writes.
pub fn access_for(request: &Request) -> (access: Access)
    ensures
        access == match request {
            Request::Get(_) => Access::Read,
            Request::Change(_) => Access::Write,
        },
{
    match request {
        Request::Get(_) => Access::Read,
        Request::Change(_) => Access::Write,
    }
}

/// A peer block of a `get` response shows a peer as it is: its key, its
/// address, its keepalive interval, each of its blocks once, by its network
/// address and in the order of the blocks, and what its tunnel reported. The preshared key is never shown.
pub open spec fn shows(shown: GetPeerView, peer: PeerState) -> bool {
    &&& shown.peer.public_key.0 == peer.public_key
    &&& shown.peer.preshared_key is None
    &&& shown.peer.endpoint == peer.endpoint.addr
    &&& shown.peer.persistent_keepalive_interval == Some(peer.keepalive)
    &&& blocks_of(shown.peer.allowed_ip) == peer.allowed
    &&& forall|i: int|
        0 <= i < shown.peer.allowed_ip.len() ==> (#[trigger] shown.peer.allowed_ip[i]).valid()
            && shown.peer.allowed_ip[i].addr.is_network(shown.peer.allowed_ip[i].cidr as nat)
    &&& forall|i: int, j: int|
        0 <= i < j < shown.peer.allowed_ip.len() ==> (#[trigger] shown.peer.allowed_ip[i]).prefix()
            != (#[trigger] shown.peer.allowed_ip[j]).prefix()
    &&& forall|i: int, j: int|
        0 <= i < j < shown.peer.allowed_ip.len() ==> (
        #[trigger] shown.peer.allowed_ip[i]).prefix().precedes(
            (#[trigger] shown.peer.allowed_ip[j]).prefix(),
        )
    &&& shown.last_handshake_time_sec == peer.stats.last_handshake_sec
    &&& shown.last_handshake_time_nsec == peer.stats.last_handshake_nsec
    &&& shown.rx_bytes == Some(peer.stats.rx_bytes)
    &&& shown.tx_bytes == Some(peer.stats.tx_bytes)
}

/// The answer to a `get` request: the device's private key, port and mark,
/// and one block for each peer, in the order of the peers' arrival.
#[verifier::rlimit(40)]
pub fn api_get(_get: GetRequest, d: &Device) -> (response: GetResponse)
    requires
        d.wf(),
    ensures
        answers(response@, d@),
{
    let keys = d.peer_keys();
    let mut peers: Vec<GetPeer> = Vec::new();
    let mut j: usize = 0;
    proof {
        d.lemma_consistent();
    }
    while j < keys.len()
        invariant
            j <= keys@.len(),
            d.wf(),
            d@.consistent(),
            keys@ == d@.keys,
            peers@.len() == j,
            forall|k: int|
                0 <= k < j ==> shows((#[trigger] peers@[k])@, d@.peers[d@.keys[k].index]),
        decreases keys@.len() - j,
    {
        let entry = keys[j];
        assert(d@.keys[j as int] == entry);
        match d.peer_by_index(entry.index) {
            Some(peer) => {
                let stats = peer.stats();
                let shown = GetPeer {
                    peer: PeerConfig {
                        public_key: KeyBytes(entry.key),
                        preshared_key: None,
                        endpoint: peer.endpoint().addr,
                        persistent_keepalive_interval: Some(peer.persistent_keepalive()),
                        allowed_ip: peer.allowed_ips(),
                    },
                    last_handshake_time_sec: stats.last_handshake_sec,
                    last_handshake_time_nsec: stats.last_handshake_nsec,
                    rx_bytes: Some(stats.rx_bytes),
                    tx_bytes: Some(stats.tx_bytes),
                };
                assert(shows(shown@, d@.peers[entry.index]));
                peers.push(shown);
            },
            None => {
                assert(false);
            },
        }
        j += 1;
    }
    GetResponse {
        private_key: match d.key_pair() {
            Some(pair) => Some(KeyBytes(pair.private)),
            None => None,
        },
        listen_port: Some(d.listen_port()),
        fwmark: d.fwmark(),
        peers,
        errno: 0,
    }
}

/// How far a `set` request has come.
#[derive(Clone, Copy, Debug, PartialEq, Eq)]
pub enum SetStage {
    /// Nothing was done yet.
    Start,
    /// The tunnels are taking the new key.
    Rekey,
    /// The listening sockets are being bound.
    Bind,
    /// The sockets are being marked.
    Mark,
    /// The request was answered.
    Finished,
}

/// The listening sockets that were bound, and the port that the system reports for them.
#[derive(Clone, Copy, Debug, PartialEq, Eq)]
pub struct Listeners {
    pub udp4: i32,
    pub udp6: i32,
    pub port: u16,
}

/// What the caller reports when it hands a `set` request on.
#[derive(Clone, Debug, PartialEq, Eq)]
pub enum SetEvent {
    /// The request is new.
    Begin,
    /// Every tunnel was given the new key; these are the indices of the
    /// peers whose tunnel refused it.
    Rekeyed(Vec<u32>),
    /// The listening sockets were bound, or could not be.
    Bound(Option<Listeners>),
    /// The sockets were marked, or the system refused.
    Marked(bool),
}

/// What the caller is to do next for a `set` request.
#[derive(Debug, PartialEq, Eq)]
pub enum SetAction {
    /// Make a rate limiter with `limiter`, give every peer's tunnel the key
    /// pair, and report with `Rekeyed`.
    Rekey { pair: KeyPair, limiter: LimiterSetup },
    /// Close the sockets of the plan, bind the listeners, and report with `Bound`.
    Bind(BindPlan),
    /// Put the mark on these sockets, and report with `Marked`.
    Mark { mark: u32, sockets: Vec<i32> },
    /// Send the response: the request is done.
    Done(SetResponse),
}

/// One step of a `set` request: what became of the peers in it, and what is to be done next.
#[derive(Debug, PartialEq, Eq)]
pub struct SetStep {
    pub action: SetAction,
    /// The peers that were added and removed in this step, in that order:
    /// a new peer needs a tunnel, one that is gone has its tunnel and its
    /// connected socket closed.
    pub changes: Vec<PeerChange>,
}

/// A `set` request on its way through the device.
pub struct SetRun {
    request: SetRequest,
    stage: SetStage,
}

/// An event as contracts see it.
#[verifier::ext_equal]
pub enum SetEventView {
    Begin,
    Rekeyed(Seq<u32>),
    Bound(Option<Listeners>),
    Marked(bool),
}

impl View for SetEvent {
    type V = SetEventView;

    open spec fn view(&self) -> SetEventView {
        match self {
            SetEvent::Begin => SetEventView::Begin,
            SetEvent::Rekeyed(rejected) => SetEventView::Rekeyed(rejected@),
            SetEvent::Bound(bound) => SetEventView::Bound(*bound),
            SetEvent::Marked(ok) => SetEventView::Marked(*ok),
        }
    }
}

/// An action as contracts see it.
#[verifier::ext_equal]
pub enum SetActionView {
    Rekey { pair: KeyPair, limiter: LimiterSetup },
    Bind { port: u16, release: Seq<i32> },
    Mark { mark: u32, sockets: Seq<i32> },
    Done(SetResponse),
}

impl View for SetAction {
    type V = SetActionView;

    open spec fn view(&self) -> SetActionView {
        match self {
            SetAction::Rekey { pair, limiter } => SetActionView::Rekey {
                pair: *pair,
                limiter: *limiter,
            },
            SetAction::Bind(plan) => SetActionView::Bind { port: plan.port, release: plan.release@ },
            SetAction::Mark { mark, sockets } => SetActionView::Mark {
                mark: *mark,
                sockets: sockets@,
            },
            SetAction::Done(response) => SetActionView::Done(*response),
        }
    }
}

/// A step as contracts see it.
#[verifier::ext_equal]
pub struct SetStepView {
    pub action: SetActionView,
    pub changes: Seq<PeerChange>,
}

impl View for SetStep {
    type V = SetStepView;

    open spec fn view(&self) -> SetStepView {
        SetStepView { action: self.action@, changes: self.changes@ }
    }
}

/// A request on its way as contracts see it.
#[verifier::ext_equal]
pub struct SetRunView {
    pub request: SetRequestView,
    pub stage: SetStage,
}

impl View for SetRun {
    type V = SetRunView;

    closed spec fn view(&self) -> SetRunView {
        SetRunView { request: self.request@, stage: self.stage }
    }
}

/// Where one step of a `set` request leads: the device after it, the stage
/// that the request has reached, and what the caller is told.
#[verifier::ext_equal]
pub struct SetOutcome {
    pub device: DeviceState,
    pub stage: SetStage,
    pub step: SetStepView,
}

/// What applying one peer block leads to.
#[verifier::ext_equal]
pub struct PeersOutcome {
    pub device: DeviceState,
    pub errno: i32,
    pub changes: Seq<PeerChange>,
}

/// The preshared key that a peer block asks for.
pub open spec fn wanted_psk(peer: SetPeerView) -> Option<[u8; 32]> {
    match peer.peer.preshared_key {
        Some(SetUnset::Value(key)) => Some(key.0),
        _ => None,
    }
}

/// Whether every block of the list is no longer than its address.
pub open spec fn all_valid(list: Seq<AllowedIP>) -> bool {
    forall|i: int| 0 <= i < list.len() ==> (#[trigger] list[i]).valid()
}

/// One peer block applied to the device. A block that only updates and
/// names no peer of the device is passed over. A block that removes takes the
/// peer from the device. Any other block adds a peer, and is refused with
/// `EEXIST` where the device has a peer of that key, with `EINVAL` where the
/// device has no private key or a block is longer than its address, and with
/// `ENOSPC` where no index is left.
pub open spec fn apply_peer(s: DeviceState, changes: Seq<PeerChange>, p: SetPeerView) -> PeersOutcome {
    let key = p.peer.public_key.0;
    if p.update_only && !s.has_peer(key) {
        PeersOutcome { device: s, errno: 0, changes }
    } else if p.remove {
        PeersOutcome {
            device: s.without_peer(key),
            errno: 0,
            changes: if s.has_peer(key) {
                changes.push(
                    PeerChange::Removed {
                        index: s.index_of(key),
                        conn: s.peer_of(key).endpoint.conn,
                    },
                )
            } else {
                changes
            },
        }
    } else if s.has_peer(key) {
        PeersOutcome { device: s, errno: EEXIST, changes }
    } else if s.key_pair is None || !all_valid(p.peer.allowed_ip) {
        PeersOutcome { device: s, errno: EINVAL, changes }
    } else if s.next_index >= MAX_INDEX {
        PeersOutcome { device: s, errno: ENOSPC, changes }
    } else {
        PeersOutcome {
            device: s.with_peer(
                s.new_peer(
                    key,
                    p.peer.endpoint,
                    p.peer.allowed_ip,
                    p.peer.persistent_keepalive_interval,
                    wanted_psk(p),
                ),
            ),
            errno: 0,
            changes: changes.push(PeerChange::Added { index: s.next_index }),
        }
    }
}

/// The first `n` peer blocks applied in their order, up to the first that is refused.
pub open spec fn apply_peers(
    s: DeviceState,
    changes: Seq<PeerChange>,
    peers: Seq<SetPeerView>,
    n: int,
) -> PeersOutcome
    decreases n,
{
    if n <= 0 {
        PeersOutcome { device: s, errno: 0, changes }
    } else {
        let before = apply_peers(s, changes, peers, n - 1);
        if before.errno != 0 {
            before
        } else {
            apply_peer(before.device, before.changes, peers[n - 1])
        }
    }
}

/// The device without the first `n` of the peers whose tunnel refused the
/// new key, and what is told of them.
pub open spec fn drop_rejected(s: DeviceState, rejected: Seq<u32>, n: int) -> PeersOutcome
    decreases n,
{
    if n <= 0 {
        PeersOutcome { device: s, errno: 0, changes: Seq::empty() }
    } else {
        let before = drop_rejected(s, rejected, n - 1);
        let index = rejected[n - 1];
        if before.device.peers.contains_key(index) {
            PeersOutcome {
                device: before.device.without_index(index),
                errno: 0,
                changes: before.changes.push(
                    PeerChange::Removed {
                        index,
                        conn: before.device.peers[index].endpoint.conn,
                    },
                ),
            }
        } else {
            before
        }
    }
}

/// The request is answered with this error number.
pub open spec fn answered(s: DeviceState, errno: i32, changes: Seq<PeerChange>) -> SetOutcome {
    SetOutcome {
        device: s,
        stage: SetStage::Finished,
        step: SetStepView { action: SetActionView::Done(SetResponse { errno }), changes },
    }
}

/// The last part of a request: the protocol version is checked, then the peer
/// blocks are applied.
pub open spec fn peers_phase(s: DeviceState, request: SetRequestView, changes: Seq<PeerChange>) -> SetOutcome {
    if request.protocol_version is Some && request.protocol_version != Some(1u32) {
        answered(s, EINVAL, changes)
    } else {
        let done = apply_peers(s, changes, request.peers, request.peers.len() as int);
        answered(done.device, done.errno, done.changes)
    }
}

/// The part of a request that marks the sockets, and what follows it.
pub open spec fn mark_phase(s: DeviceState, request: SetRequestView, changes: Seq<PeerChange>) -> SetOutcome {
    match request.fwmark {
        Some(mark) => SetOutcome {
            device: DeviceState { fwmark: Some(mark), ..s },
            stage: SetStage::Mark,
            step: SetStepView {
                action: SetActionView::Mark { mark, sockets: s.sockets() },
                changes,
            },
        },
        None => peers_phase(s, request, changes),
    }
}

/// The part of a request that binds the listening sockets, and what follows it.
pub open spec fn bind_phase(s: DeviceState, request: SetRequestView, changes: Seq<PeerChange>) -> SetOutcome {
    match request.listen_port {
        Some(port) => SetOutcome {
            device: s.unbound(),
            stage: SetStage::Bind,
            step: SetStepView {
                action: SetActionView::Bind { port, release: s.sockets() },
                changes,
            },
        },
        None => mark_phase(s, request, changes),
    }
}

/// The first part of a request: the peers are dropped if all are to be
/// replaced, then the private key is set.
pub open spec fn start_phase(s: DeviceState, request: SetRequestView) -> SetOutcome {
    let cleared = if request.replace_peers {
        s.cleared()
    } else {
        s
    };
    let changes = if request.replace_peers {
        s.all_removed()
    } else {
        Seq::empty()
    };
    match request.private_key {
        Some(key) => {
            let keyed = cleared.with_key(key.0);
            if keyed == cleared {
                bind_phase(cleared, request, changes)
            } else {
                SetOutcome {
                    device: keyed,
                    stage: SetStage::Rekey,
                    step: SetStepView {
                        action: SetActionView::Rekey {
                            pair: keyed.key_pair.unwrap(),
                            limiter: keyed.limiter.unwrap(),
                        },
                        changes,
                    },
                }
            }
        },
        None => bind_phase(cleared, request, changes),
    }
}

/// One step of a `set` request. The request goes through its parts in this
/// order: peers dropped, private key, listening port, mark, peer blocks. It
/// stops where the caller has work to do, and goes on from there with the
/// caller's report. A port that cannot be bound and a mark that is refused
/// end it with `EADDRINUSE`; a report that does not fit the stage ends it with `EINVAL`.
pub open spec fn set_outcome(s: DeviceState, run: SetRunView, event: SetEventView) -> SetOutcome {
    match (run.stage, event) {
        (SetStage::Start, SetEventView::Begin) => start_phase(s, run.request),
        (SetStage::Rekey, SetEventView::Rekeyed(rejected)) => {
            let dropped = drop_rejected(s, rejected, rejected.len() as int);
            bind_phase(dropped.device, run.request, dropped.changes)
        },
        (SetStage::Bind, SetEventView::Bound(Some(sockets))) => mark_phase(
            s.bound(sockets.udp4, sockets.udp6, sockets.port),
            run.request,
            Seq::empty(),
        ),
        (SetStage::Bind, SetEventView::Bound(None)) => answered(s, EADDRINUSE, Seq::empty()),
        (SetStage::Mark, SetEventView::Marked(true)) => peers_phase(s, run.request, Seq::empty()),
        (SetStage::Mark, SetEventView::Marked(false)) => answered(s, EADDRINUSE, Seq::empty()),
        _ => answered(s, EINVAL, Seq::empty()),
    }
}

/// The `set` request that asks for what a `get` response shows: every peer
/// replaced by the peers shown.
pub open spec fn as_request(shown: GetResponseView) -> SetRequestView {
    SetRequestView {
        private_key: shown.private_key,
        listen_port: shown.listen_port,
        fwmark: shown.fwmark,
        replace_peers: true,
        protocol_version: None,
        peers: as_blocks(shown.peers),
    }
}

/// The peer blocks that ask for the peers shown.
pub open spec fn as_blocks(shown: Seq<GetPeerView>) -> Seq<SetPeerView> {
    Seq::new(
        shown.len(),
        |i: int|
            SetPeerView {
                peer: shown[i].peer,
                remove: false,
                update_only: false,
                replace_allowed_ips: true,
            },
    )
}

/// Whether a response is an answer of `api_get` on the device.
pub open spec fn answers(shown: GetResponseView, s: DeviceState) -> bool {
    &&& shown.errno == 0
    &&& shown.private_key == match s.key_pair {
        Some(pair) => Some(KeyBytes(pair.private)),
        None => None,
    }
    &&& shown.listen_port == Some(s.listen_port)
    &&& shown.fwmark == s.fwmark
    &&& shown.peers.len() == s.keys.len()
    &&& forall|j: int|
        0 <= j < s.keys.len() ==> shows(#[trigger] shown.peers[j], s.peers[s.keys[j].index])
}

/// A `set` request taken through all its steps where the caller's work goes
/// well: no tunnel refuses the key, the listeners are bound to the port that
/// was asked for, and the mark is taken.
pub open spec fn smooth_run(s: DeviceState, request: SetRequestView, udp4: i32, udp6: i32) -> SetOutcome {
    let a = set_outcome(s, SetRunView { request, stage: SetStage::Start }, SetEventView::Begin);
    let b = if a.stage == SetStage::Rekey {
        set_outcome(
            a.device,
            SetRunView { request, stage: a.stage },
            SetEventView::Rekeyed(Seq::empty()),
        )
    } else {
        a
    };
    let c = if b.stage == SetStage::Bind {
        set_outcome(
            b.device,
            SetRunView { request, stage: b.stage },
            SetEventView::Bound(
                Some(Listeners { udp4, udp6, port: request.listen_port.unwrap() }),
            ),
        )
    } else {
        b
    };
    if c.stage == SetStage::Mark {
        set_outcome(c.device, SetRunView { request, stage: c.stage }, SetEventView::Marked(true))
    } else {
        c
    }
}

/// Whether two peers are configured alike: same key, address, keepalive
/// interval and blocks.
pub open spec fn same_peer_config(a: PeerState, b: PeerState) -> bool {
    &&& a.public_key == b.public_key
    &&& a.endpoint.addr == b.endpoint.addr
    &&& a.keepalive == b.keepalive
    &&& a.allowed == b.allowed
}

/// Whether two devices are configured alike: same keys, port and mark, and
/// the same peers in the same order, each configured alike.
pub open spec fn same_config(a: DeviceState, b: DeviceState) -> bool {
    &&& a.key_pair == b.key_pair
    &&& a.listen_port == b.listen_port
    &&& a.fwmark == b.fwmark
    &&& a.keys.len() == b.keys.len()
    &&& forall|j: int|
        0 <= j < a.keys.len() ==> (#[trigger] a.keys[j]).key == b.keys[j].key && same_peer_config(
            a.peers[a.keys[j].index],
            b.peers[b.keys[j].index],
        )
}

#[verifier::rlimit(40)]
proof fn lemma_peers_reconstructed(
    s: DeviceState,
    shown: Seq<GetPeerView>,
    d: DeviceState,
    changes: Seq<PeerChange>,
    i: int,
)
    requires
        s.consistent(),
        d.consistent(),
        d.keys.len() == 0,
        d.key_pair is Some,
        shown.len() == s.keys.len(),
        forall|j: int| 0 <= j < s.keys.len() ==> shows(#[trigger] shown[j], s.peers[s.keys[j].index]),
        d.next_index + s.keys.len() <= MAX_INDEX,
        0 <= i <= s.keys.len(),
    ensures
        ({
            let r = apply_peers(d, changes, as_blocks(shown), i);
            &&& r.errno == 0
            &&& r.device.consistent()
            &&& r.device.keys.len() == i
            &&& r.device.next_index == d.next_index + i
            &&& r.device.key_pair == d.key_pair
            &&& r.device.listen_port == d.listen_port
            &&& r.device.fwmark == d.fwmark
            &&& forall|j: int|
                0 <= j < i ==> (#[trigger] r.device.keys[j]).key == s.keys[j].key
                    && same_peer_config(
                    r.device.peers[r.device.keys[j].index],
                    s.peers[s.keys[j].index],
                )
        }),
    decreases i,
{
    if i > 0 {
        lemma_peers_reconstructed(s, shown, d, changes, i - 1);
        let before = apply_peers(d, changes, as_blocks(shown), i - 1);
        let b = before.device;
        let p = as_blocks(shown)[i - 1];
        let key = p.peer.public_key.0;
        let target = s.peers[s.keys[i - 1].index];
        assert(shows(shown[i - 1], target));
        assert(key == s.keys[i - 1].key);
        if b.has_peer(key) {
            let j = choose|j: int|
                0 <= j < b.keys.len() && same_key((#[trigger] b.keys[j]).key, key);
            assert(!same_key(s.keys[j].key, s.keys[i - 1].key));
        }
        assert(all_valid(p.peer.allowed_ip));
        let added = b.new_peer(
            key,
            p.peer.endpoint,
            p.peer.allowed_ip,
            p.peer.persistent_keepalive_interval,
            wanted_psk(p),
        );
        crate::device::lemma_add_keeps_consistent(b, added);
        let r = apply_peers(d, changes, as_blocks(shown), i);
        assert(r.device == b.with_peer(added));
        assert forall|j: int| 0 <= j < i implies (#[trigger] r.device.keys[j]).key == s.keys[j].key
            && same_peer_config(r.device.peers[r.device.keys[j].index], s.peers[s.keys[j].index]) by {
            if j < i - 1 {
                assert(r.device.keys[j] == b.keys[j]);
                assert(b.keys[j].index < b.next_index);
            } else {
                assert(r.device.keys[j].index == added.index);
            }
        }
    }
}

/// Round trip of the configuration: what `api_get` shows of a device, asked
/// for with a `set` request on a device that has no key and no mark yet,
/// is accepted with error number 0 and leaves that device configured like
/// the first: same private key, port and mark, and the same peers with the
/// same addresses, keepalive intervals and blocks. Preshared keys are not
/// shown and so not carried over. The first device holds a private key if it
/// holds a peer, and the second has indices left for all the peers.
#[verifier::rlimit(40)]
pub proof fn lemma_get_reconstructs(
    s: DeviceState,
    shown: GetResponseView,
    fresh: DeviceState,
    udp4: i32,
    udp6: i32,
)
    requires
        s.consistent(),
        answers(shown, s),
        s.keys.len() > 0 ==> s.key_pair is Some,
        fresh.consistent(),
        fresh.key_pair is None,
        fresh.fwmark is None,
        fresh.next_index + s.keys.len() <= MAX_INDEX,
    ensures
        ({
            let out = smooth_run(fresh, as_request(shown), udp4, udp6);
            &&& out.stage == SetStage::Finished
            &&& out.step.action == SetActionView::Done(SetResponse { errno: 0 })
            &&& same_config(out.device, s)
            &&& out.device.consistent()
        }),
{
    let request = as_request(shown);
    let cleared = fresh.cleared();
    crate::device::lemma_clear_keeps_consistent(fresh);
    let a = start_phase(fresh, request);
    let keyed = match request.private_key {
        Some(key) => cleared.with_key(key.0),
        None => cleared,
    };
    assert(keyed.consistent());
    assert(keyed.key_pair == s.key_pair);
    let b = if a.stage == SetStage::Rekey {
        set_outcome(
            a.device,
            SetRunView { request, stage: a.stage },
            SetEventView::Rekeyed(Seq::empty()),
        )
    } else {
        a
    };
    assert(b.stage == SetStage::Bind);
    assert(b.device == keyed.unbound());
    crate::device::lemma_unbound_keeps_consistent(keyed);
    let bound = b.device.bound(udp4, udp6, s.listen_port);
    assert(bound.consistent());
    let c = set_outcome(
        b.device,
        SetRunView { request, stage: b.stage },
        SetEventView::Bound(Some(Listeners { udp4, udp6, port: request.listen_port.unwrap() })),
    );
    let marked = DeviceState { fwmark: s.fwmark, ..bound };
    assert(marked.consistent());
    assert(marked.keys.len() == 0);
    let out = smooth_run(fresh, request, udp4, udp6);
    assert(out == peers_phase(marked, request, Seq::empty()));
    if s.keys.len() > 0 {
        lemma_peers_reconstructed(s, shown.peers, marked, Seq::empty(), s.keys.len() as int);
    }
}

fn blocks_valid(list: &Vec<AllowedIP>) -> (ok: bool)
    ensures
        ok == all_valid(list@),
{
    let mut i: usize = 0;
    while i < list.len()
        invariant
            i <= list@.len(),
            forall|j: int| 0 <= j < i ==> (#[trigger] list@[j]).valid(),
        decreases list@.len() - i,
    {
        if !list[i].is_valid() {
            return false;
        }
        i += 1;
    }
    true
}

#[verifier::rlimit(40)]
fn apply_one(device: &mut Device, changes: &mut Vec<PeerChange>, p: &SetPeer) -> (errno: i32)
    requires
        old(device).wf(),
    ensures
        final(device).wf(),
        (PeersOutcome { device: final(device)@, errno, changes: final(changes)@ }) == apply_peer(
            old(device)@,
            old(changes)@,
            p@,
        ),
{
    let key = p.peer.public_key.0;
    let known = device.peer_index(&key).is_some();
    if p.update_only && !known {
        return 0;
    }
    if p.remove {
        match device.remove_peer(&key) {
            PeerChange::Removed { index, conn } => {
                changes.push(PeerChange::Removed { index, conn });
            },
            _ => {},
        }
        return 0;
    }
    if known {
        return EEXIST;
    }
    if device.key_pair().is_none() || !blocks_valid(&p.peer.allowed_ip) {
        return EINVAL;
    }
    if !device.has_free_index() {
        return ENOSPC;
    }
    let psk = match p.peer.preshared_key {
        Some(SetUnset::Value(k)) => Some(k.0),
        _ => None,
    };
    match device.update_peer(
        key,
        false,
        p.replace_allowed_ips,
        p.peer.endpoint,
        p.peer.allowed_ip.as_slice(),
        p.peer.persistent_keepalive_interval,
        psk,
    ) {
        Ok(change) => {
            changes.push(change);
        },
        Err(_) => {},
    }
    0
}

#[verifier::rlimit(40)]
fn run_peers(device: &mut Device, request: &SetRequest, changes: Vec<PeerChange>) -> (out: (
    SetStage,
    SetStep,
))
    requires
        old(device).wf(),
    ensures
        final(device).wf(),
        (SetOutcome { device: final(device)@, stage: out.0, step: out.1@ }) == peers_phase(
            old(device)@,
            request@,
            changes@,
        ),
{
    let mut changes = changes;
    let version_ok = match request.protocol_version {
        Some(v) => v == 1,
        None => true,
    };
    if !version_ok {
        return (
            SetStage::Finished,
            SetStep { action: SetAction::Done(SetResponse { errno: EINVAL }), changes },
        );
    }
    let ghost start = changes@;
    let mut errno: i32 = 0;
    let mut i: usize = 0;
    while i < request.peers.len() && errno == 0
        invariant
            i <= request.peers@.len(),
            device.wf(),
            (PeersOutcome { device: device@, errno, changes: changes@ }) == apply_peers(
                old(device)@,
                start,
                request@.peers,
                i as int,
            ),
            errno != 0 ==> apply_peers(
                old(device)@,
                start,
                request@.peers,
                request@.peers.len() as int,
            ) == apply_peers(old(device)@, start, request@.peers, i as int),
        decreases request.peers@.len() - i,
    {
        errno = apply_one(device, &mut changes, &request.peers[i]);
        i += 1;
        proof {
            if errno != 0 {
                lemma_refused_stays(
                    old(device)@,
                    start,
                    request@.peers,
                    i as int,
                    request@.peers.len() as int,
                );
            }
        }
    }
    (SetStage::Finished, SetStep { action: SetAction::Done(SetResponse { errno }), changes })
}

proof fn lemma_refused_stays(
    s: DeviceState,
    changes: Seq<PeerChange>,
    peers: Seq<SetPeerView>,
    i: int,
    n: int,
)
    requires
        0 <= i <= n,
        apply_peers(s, changes, peers, i).errno != 0,
    ensures
        apply_peers(s, changes, peers, n) == apply_peers(s, changes, peers, i),
    decreases n - i,
{
    if i < n {
        lemma_refused_stays(s, changes, peers, i, n - 1);
    }
}

fn run_mark(device: &mut Device, request: &SetRequest, changes: Vec<PeerChange>) -> (out: (
    SetStage,
    SetStep,
))
    requires
        old(device).wf(),
    ensures
        final(device).wf(),
        (SetOutcome { device: final(device)@, stage: out.0, step: out.1@ }) == mark_phase(
            old(device)@,
            request@,
            changes@,
        ),
{
    match request.fwmark {
        Some(mark) => {
            let sockets = device.set_fwmark(mark);
            (SetStage::Mark, SetStep { action: SetAction::Mark { mark, sockets }, changes })
        },
        None => run_peers(device, request, changes),
    }
}

fn run_bind(device: &mut Device, request: &SetRequest, changes: Vec<PeerChange>) -> (out: (
    SetStage,
    SetStep,
))
    requires
        old(device).wf(),
    ensures
        final(device).wf(),
        (SetOutcome { device: final(device)@, stage: out.0, step: out.1@ }) == bind_phase(
            old(device)@,
            request@,
            changes@,
        ),
{
    match request.listen_port {
        Some(port) => {
            let plan = device.open_listen_socket(port);
            (SetStage::Bind, SetStep { action: SetAction::Bind(plan), changes })
        },
        None => run_mark(device, request, changes),
    }
}

fn run_start(device: &mut Device, request: &SetRequest) -> (out: (SetStage, SetStep))
    requires
        old(device).wf(),
    ensures
        final(device).wf(),
        (SetOutcome { device: final(device)@, stage: out.0, step: out.1@ }) == start_phase(
            old(device)@,
            request@,
        ),
{
    let changes = if request.replace_peers {
        device.clear_peers()
    } else {
        Vec::new()
    };
    match request.private_key {
        Some(key) => match device.set_key(key.0) {
            KeyChange::Unchanged => run_bind(device, request, changes),
            KeyChange::Replaced { pair, limiter } => (
                SetStage::Rekey,
                SetStep { action: SetAction::Rekey { pair, limiter }, changes },
            ),
        },
        None => run_bind(device, request, changes),
    }
}

fn run_rejected(device: &mut Device, rejected: &Vec<u32>) -> (changes: Vec<PeerChange>)
    requires
        old(device).wf(),
    ensures
        final(device).wf(),
        (PeersOutcome { device: final(device)@, errno: 0, changes: changes@ }) == drop_rejected(
            old(device)@,
            rejected@,
            rejected@.len() as int,
        ),
{
    let mut changes: Vec<PeerChange> = Vec::new();
    let mut i: usize = 0;
    while i < rejected.len()
        invariant
            i <= rejected@.len(),
            device.wf(),
            (PeersOutcome { device: device@, errno: 0, changes: changes@ }) == drop_rejected(
                old(device)@,
                rejected@,
                i as int,
            ),
        decreases rejected@.len() - i,
    {
        match device.remove_peer_by_index(rejected[i]) {
            PeerChange::Removed { index, conn } => {
                changes.push(PeerChange::Removed { index, conn });
            },
            _ => {},
        }
        i += 1;
    }
    changes
}

impl SetRun {
    /// A request that has not begun.
    pub fn new(request: SetRequest) -> (run: SetRun)
        ensures
            run@ == (SetRunView { request: request@, stage: SetStage::Start }),
    {
        SetRun { request, stage: SetStage::Start }
    }

    /// How far the request has come.
    pub fn stage(&self) -> (stage: SetStage)
        ensures
            stage == self@.stage,
    {
        self.stage
    }
}

/// Takes a `set` request one step on: applies what can be applied, and
/// returns what the caller is to do next, or the response.
#[verifier::rlimit(40)]
pub fn api_set(run: &mut SetRun, device: &mut Device, event: SetEvent) -> (step: SetStep)
    requires
        old(device).wf(),
    ensures
        final(device).wf(),
        final(run)@.request == old(run)@.request,
        (SetOutcome { device: final(device)@, stage: final(run)@.stage, step: step@ })
            == set_outcome(old(device)@, old(run)@, event@),
{
    let (stage, step) = match (run.stage, event) {
        (SetStage::Start, SetEvent::Begin) => run_start(device, &run.request),
        (SetStage::Rekey, SetEvent::Rekeyed(rejected)) => {
            let changes = run_rejected(device, &rejected);
            run_bind(device, &run.request, changes)
        },
        (SetStage::Bind, SetEvent::Bound(Some(sockets))) => {
            device.listen_socket_opened(sockets.udp4, sockets.udp6, sockets.port);
            run_mark(device, &run.request, Vec::new())
        },
        (SetStage::Mark, SetEvent::Marked(true)) => run_peers(device, &run.request, Vec::new()),
        (SetStage::Bind, SetEvent::Bound(None)) => (
            SetStage::Finished,
            SetStep { action: SetAction::Done(SetResponse { errno: EADDRINUSE }), changes: Vec::new() },
        ),
        (SetStage::Mark, SetEvent::Marked(false)) => (
            SetStage::Finished,
            SetStep { action: SetAction::Done(SetResponse { errno: EADDRINUSE }), changes: Vec::new() },
        ),
        _ => (
            SetStage::Finished,
            SetStep { action: SetAction::Done(SetResponse { errno: EINVAL }), changes: Vec::new() },
        ),
    };
    run.stage = stage;
    step
}

} // verus!
