//! Requests and responses of the control protocol, written as text.

use crate::command::{
    GetPeer, GetPeerView, GetResponseView, KeyBytes, PeerConfig, PeerConfigView, Request,
    RequestView, Response, ResponseView, SetPeer, SetPeerView, SetRequest, SetRequestView,
    SetUnset,
};
use crate::ip::{AllowedIP, SocketAddr};
use crate::text::{
    cidr_text, decimal_text, endpoint_text, key_text, write_cidr, write_decimal, write_endpoint,
    write_key, write_str, EQUALS, LF,
};
use vstd::prelude::*;
use vstd::string::StringSliceAdditionalSpecFns;

verus! {

/// The byte `-`.
pub const MINUS: u8 = 45;

/// One line of text: a key, the sign `=`, a value and the line end.
pub open spec fn line(key: Seq<u8>, val: Seq<u8>) -> Seq<u8> {
    (key.push(EQUALS) + val).push(LF)
}

/// A whole number in decimal, with a minus sign where it is negative.
pub open spec fn int_text(i: int) -> Seq<u8> {
    if i < 0 {
        seq![MINUS] + decimal_text((-i) as nat)
    } else {
        decimal_text(i as nat)
    }
}

/// The line of a number that may be missing.
pub open spec fn number_line(key: Seq<u8>, val: Option<nat>) -> Seq<u8> {
    match val {
        Some(n) => line(key, decimal_text(n)),
        None => Seq::empty(),
    }
}

/// The line of a key that may be missing.
pub open spec fn key_line(key: Seq<u8>, val: Option<KeyBytes>) -> Seq<u8> {
    match val {
        Some(k) => line(key, key_text(k.0@)),
        None => Seq::empty(),
    }
}

/// The `allowed_ip` lines of the first `n` blocks.
pub open spec fn blocks_text(list: Seq<AllowedIP>, n: int) -> Seq<u8>
    decreases n,
{
    if n <= 0 {
        Seq::empty()
    } else {
        blocks_text(list, n - 1) + line("allowed_ip".spec_bytes(), cidr_text(list[n - 1]))
    }
}

/// The line of a preshared key: none where nothing is said of it, one
/// without a value where it is to be unset.
pub open spec fn psk_text(psk: Option<SetUnset<KeyBytes>>) -> Seq<u8> {
    match psk {
        Some(SetUnset::Value(k)) => line("preshared_key".spec_bytes(), key_text(k.0@)),
        Some(SetUnset::Unset) => line("preshared_key".spec_bytes(), Seq::empty()),
        None => Seq::empty(),
    }
}

/// The line of an endpoint that may be missing.
pub open spec fn endpoint_line(endpoint: Option<SocketAddr>) -> Seq<u8> {
    match endpoint {
        Some(e) => line("endpoint".spec_bytes(), endpoint_text(e)),
        None => Seq::empty(),
    }
}

/// The lines of a peer's configuration: its public key first, then what
/// is set of preshared key, endpoint and keepalive interval, then its blocks.
pub open spec fn config_text(p: PeerConfigView) -> Seq<u8> {
    line("public_key".spec_bytes(), key_text(p.public_key.0@)) + psk_text(p.preshared_key)
        + endpoint_line(p.endpoint) + number_line(
        "persistent_keepalive_interval".spec_bytes(),
        match p.persistent_keepalive_interval {
            Some(k) => Some(k as nat),
            None => None,
        },
    ) + blocks_text(p.allowed_ip, p.allowed_ip.len() as int)
}

/// The lines of one peer of a `get` response: its configuration, then
/// what its tunnel reported.
pub open spec fn peer_text(p: GetPeerView) -> Seq<u8> {
    config_text(p.peer) + number_line(
        "last_handshake_time_sec".spec_bytes(),
        match p.last_handshake_time_sec {
            Some(n) => Some(n as nat),
            None => None,
        },
    ) + number_line(
        "last_handshake_time_nsec".spec_bytes(),
        match p.last_handshake_time_nsec {
            Some(n) => Some(n as nat),
            None => None,
        },
    ) + number_line(
        "rx_bytes".spec_bytes(),
        match p.rx_bytes {
            Some(n) => Some(n as nat),
            None => None,
        },
    ) + number_line(
        "tx_bytes".spec_bytes(),
        match p.tx_bytes {
            Some(n) => Some(n as nat),
            None => None,
        },
    )
}

/// The lines of the first `n` peers.
pub open spec fn peers_text(peers: Seq<GetPeerView>, n: int) -> Seq<u8>
    decreases n,
{
    if n <= 0 {
        Seq::empty()
    } else {
        peers_text(peers, n - 1) + peer_text(peers[n - 1])
    }
}

/// The end of every response: the error number, and an empty line.
pub open spec fn errno_text(errno: i32) -> Seq<u8> {
    line("errno".spec_bytes(), int_text(errno as int)).push(LF)
}

/// A `get` response as text: the device's lines, the peers' lines, the error number.
pub open spec fn get_text(r: GetResponseView) -> Seq<u8> {
    key_line("private_key".spec_bytes(), r.private_key) + number_line(
        "listen_port".spec_bytes(),
        match r.listen_port {
            Some(p) => Some(p as nat),
            None => None,
        },
    ) + number_line(
        "fwmark".spec_bytes(),
        match r.fwmark {
            Some(m) => Some(m as nat),
            None => None,
        },
    ) + peers_text(r.peers, r.peers.len() as int) + errno_text(r.errno)
}

/// A response as text.
pub open spec fn response_text(r: ResponseView) -> Seq<u8> {
    match r {
        ResponseView::Get(get) => get_text(get),
        ResponseView::Change(set) => errno_text(set.errno),
    }
}

/// The line of a switch: one that says `true` where it is on, none where it is off.
pub open spec fn flag_line(key: Seq<u8>, on: bool) -> Seq<u8> {
    if on {
        line(key, "true".spec_bytes())
    } else {
        Seq::empty()
    }
}

/// The lines of one peer block of a `set` request: the peer's
/// configuration, then the switches that are on.
pub open spec fn block_text(p: SetPeerView) -> Seq<u8> {
    config_text(p.peer) + flag_line("remove".spec_bytes(), p.remove) + flag_line(
        "update_only".spec_bytes(),
        p.update_only,
    ) + flag_line("replace_allowed_ips".spec_bytes(), p.replace_allowed_ips)
}

/// The lines of the first `n` peer blocks.
pub open spec fn peer_blocks_text(peers: Seq<SetPeerView>, n: int) -> Seq<u8>
    decreases n,
{
    if n <= 0 {
        Seq::empty()
    } else {
        peer_blocks_text(peers, n - 1) + block_text(peers[n - 1])
    }
}

/// The lines of a `set` request that stand before the peer blocks.
pub open spec fn device_text(set: SetRequestView) -> Seq<u8> {
    key_line("private_key".spec_bytes(), set.private_key) + number_line(
        "listen_port".spec_bytes(),
        match set.listen_port {
            Some(p) => Some(p as nat),
            None => None,
        },
    ) + number_line(
        "fwmark".spec_bytes(),
        match set.fwmark {
            Some(m) => Some(m as nat),
            None => None,
        },
    ) + flag_line("replace_peers".spec_bytes(), set.replace_peers) + number_line(
        "protocol_version".spec_bytes(),
        match set.protocol_version {
            Some(v) => Some(v as nat),
            None => None,
        },
    )
}

/// A request as text: the command, the lines of a `set` request, and the
/// empty line that ends it.
pub open spec fn request_text(r: RequestView) -> Seq<u8> {
    match r {
        RequestView::Get => "get=1".spec_bytes().push(LF).push(LF),
        RequestView::Change(set) => ("set=1".spec_bytes().push(LF) + device_text(set)
            + peer_blocks_text(set.peers, set.peers.len() as int)).push(LF),
    }
}

proof fn lemma_assoc(x: Seq<u8>, a: Seq<u8>, b: Seq<u8>)
    ensures
        (x + a) + b == x + (a + b),
{
    assert((x + a) + b =~= x + (a + b));
}

fn write_flag_line(out: &mut Vec<u8>, key: &str, on: bool)
    ensures
        final(out)@ == old(out)@ + flag_line(key.spec_bytes(), on),
{
    if on {
        write_str(out, key);
        out.push(EQUALS);
        write_str(out, "true");
        out.push(LF);
        assert(out@ =~= old(out)@ + line(key.spec_bytes(), "true".spec_bytes()));
    } else {
        assert(out@ =~= old(out)@ + Seq::<u8>::empty());
    }
}

#[verifier::rlimit(40)]
fn write_block(out: &mut Vec<u8>, p: &SetPeer)
    ensures
        final(out)@ == old(out)@ + block_text(p@),
{
    let ghost a = config_text(p@.peer);
    let ghost b = flag_line("remove".spec_bytes(), p.remove);
    let ghost c = flag_line("update_only".spec_bytes(), p.update_only);
    let ghost d = flag_line("replace_allowed_ips".spec_bytes(), p.replace_allowed_ips);
    write_config(out, &p.peer);
    write_flag_line(out, "remove", p.remove);
    proof {
        lemma_assoc(old(out)@, a, b);
    }
    write_flag_line(out, "update_only", p.update_only);
    proof {
        lemma_assoc(old(out)@, a + b, c);
    }
    write_flag_line(out, "replace_allowed_ips", p.replace_allowed_ips);
    proof {
        lemma_assoc(old(out)@, a + b + c, d);
    }
}

#[verifier::rlimit(40)]
fn write_device(out: &mut Vec<u8>, set: &SetRequest)
    ensures
        final(out)@ == old(out)@ + device_text(set@),
{
    let ghost a = key_line("private_key".spec_bytes(), set.private_key);
    let ghost b = number_line(
        "listen_port".spec_bytes(),
        match set.listen_port {
            Some(p) => Some(p as nat),
            None => None,
        },
    );
    let ghost c = number_line(
        "fwmark".spec_bytes(),
        match set.fwmark {
            Some(m) => Some(m as nat),
            None => None,
        },
    );
    let ghost d = flag_line("replace_peers".spec_bytes(), set.replace_peers);
    let ghost e = number_line(
        "protocol_version".spec_bytes(),
        match set.protocol_version {
            Some(v) => Some(v as nat),
            None => None,
        },
    );
    write_opt_key_line(out, "private_key", &set.private_key);
    write_number_line(out, "listen_port", widen16(set.listen_port));
    proof {
        lemma_assoc(old(out)@, a, b);
    }
    write_number_line(out, "fwmark", widen32(set.fwmark));
    proof {
        lemma_assoc(old(out)@, a + b, c);
    }
    write_flag_line(out, "replace_peers", set.replace_peers);
    proof {
        lemma_assoc(old(out)@, a + b + c, d);
    }
    write_number_line(out, "protocol_version", widen32(set.protocol_version));
    proof {
        lemma_assoc(old(out)@, a + b + c + d, e);
    }
}

fn write_opt_key_line(out: &mut Vec<u8>, key: &str, val: &Option<KeyBytes>)
    ensures
        final(out)@ == old(out)@ + key_line(key.spec_bytes(), *val),
{
    match val {
        Some(k) => {
            write_key_line(out, key, &k.0);
        },
        None => {
            assert(out@ =~= old(out)@ + Seq::<u8>::empty());
        },
    }
}

/// A request as text, the empty line that ends it included.
#[verifier::rlimit(40)]
pub fn request_bytes(r: &Request) -> (text: Vec<u8>)
    ensures
        text@ == request_text(r@),
{
    let mut out: Vec<u8> = Vec::new();
    match r {
        Request::Get(_) => {
            write_str(&mut out, "get=1");
            out.push(LF);
            out.push(LF);
            assert(out@ =~= request_text(r@));
        },
        Request::Change(set) => {
            write_str(&mut out, "set=1");
            out.push(LF);
            write_device(&mut out, set);
            let ghost head = out@;
            let mut i: usize = 0;
            assert(out@ =~= head + peer_blocks_text(set@.peers, 0));
            while i < set.peers.len()
                invariant
                    i <= set.peers@.len(),
                    out@ == head + peer_blocks_text(set@.peers, i as int),
                decreases set.peers@.len() - i,
            {
                write_block(&mut out, &set.peers[i]);
                assert(set@.peers[i as int] == set.peers@[i as int]@);
                proof {
                    lemma_assoc(
                        head,
                        peer_blocks_text(set@.peers, i as int),
                        block_text(set@.peers[i as int]),
                    );
                }
                i += 1;
            }
            proof {
                lemma_assoc(
                    "set=1".spec_bytes().push(LF),
                    device_text(set@),
                    peer_blocks_text(set@.peers, set@.peers.len() as int),
                );
            }
            out.push(LF);
        },
    }
    out
}

fn write_number_line(out: &mut Vec<u8>, key: &str, val: Option<u64>)
    ensures
        final(out)@ == old(out)@ + number_line(
            key.spec_bytes(),
            match val {
                Some(n) => Some(n as nat),
                None => None,
            },
        ),
{
    match val {
        Some(n) => {
            write_str(out, key);
            out.push(EQUALS);
            write_decimal(out, n);
            out.push(LF);
            assert(out@ =~= old(out)@ + line(key.spec_bytes(), decimal_text(n as nat)));
        },
        None => {
            assert(out@ =~= old(out)@ + Seq::<u8>::empty());
        },
    }
}

fn write_key_line(out: &mut Vec<u8>, key: &str, val: &[u8; 32])
    ensures
        final(out)@ == old(out)@ + line(key.spec_bytes(), key_text(val@)),
{
    write_str(out, key);
    out.push(EQUALS);
    write_key(out, val);
    out.push(LF);
    assert(out@ =~= old(out)@ + line(key.spec_bytes(), key_text(val@)));
}

fn widen16(v: Option<u16>) -> (w: Option<u64>)
    ensures
        w == match v {
            Some(n) => Some(n as u64),
            None => None,
        },
{
    match v {
        Some(n) => Some(n as u64),
        None => None,
    }
}

fn widen32(v: Option<u32>) -> (w: Option<u64>)
    ensures
        w == match v {
            Some(n) => Some(n as u64),
            None => None,
        },
{
    match v {
        Some(n) => Some(n as u64),
        None => None,
    }
}

fn write_psk(out: &mut Vec<u8>, psk: &Option<SetUnset<KeyBytes>>)
    ensures
        final(out)@ == old(out)@ + psk_text(*psk),
{
    match psk {
        Some(SetUnset::Value(k)) => {
            write_key_line(out, "preshared_key", &k.0);
        },
        Some(SetUnset::Unset) => {
            write_str(out, "preshared_key");
            out.push(EQUALS);
            out.push(LF);
            assert(out@ =~= old(out)@ + line("preshared_key".spec_bytes(), Seq::empty()));
        },
        None => {
            assert(out@ =~= old(out)@ + Seq::<u8>::empty());
        },
    }
}

fn write_endpoint_line(out: &mut Vec<u8>, endpoint: &Option<SocketAddr>)
    ensures
        final(out)@ == old(out)@ + endpoint_line(*endpoint),
{
    match endpoint {
        Some(e) => {
            write_str(out, "endpoint");
            out.push(EQUALS);
            write_endpoint(out, e);
            out.push(LF);
            assert(out@ =~= old(out)@ + line("endpoint".spec_bytes(), endpoint_text(*e)));
        },
        None => {
            assert(out@ =~= old(out)@ + Seq::<u8>::empty());
        },
    }
}

fn write_blocks(out: &mut Vec<u8>, list: &Vec<AllowedIP>)
    ensures
        final(out)@ == old(out)@ + blocks_text(list@, list@.len() as int),
{
    let mut i: usize = 0;
    assert(out@ =~= old(out)@ + blocks_text(list@, 0));
    while i < list.len()
        invariant
            i <= list@.len(),
            out@ == old(out)@ + blocks_text(list@, i as int),
        decreases list@.len() - i,
    {
        let ghost before = out@;
        write_str(out, "allowed_ip");
        out.push(EQUALS);
        write_cidr(out, &list[i]);
        out.push(LF);
        assert(out@ =~= before + line("allowed_ip".spec_bytes(), cidr_text(list@[i as int])));
        assert(out@ =~= old(out)@ + blocks_text(list@, i + 1));
        i += 1;
    }
}

/// Writes the lines of a peer's configuration.
#[verifier::rlimit(40)]
pub fn write_config(out: &mut Vec<u8>, p: &PeerConfig)
    ensures
        final(out)@ == old(out)@ + config_text(p@),
{
    let ghost a = line("public_key".spec_bytes(), key_text(p.public_key.0@));
    let ghost b = psk_text(p.preshared_key);
    let ghost c = endpoint_line(p.endpoint);
    let ghost d = number_line(
        "persistent_keepalive_interval".spec_bytes(),
        match p.persistent_keepalive_interval {
            Some(k) => Some(k as nat),
            None => None,
        },
    );
    let ghost e = blocks_text(p.allowed_ip@, p.allowed_ip@.len() as int);
    write_key_line(out, "public_key", &p.public_key.0);
    write_psk(out, &p.preshared_key);
    proof {
        lemma_assoc(old(out)@, a, b);
    }
    write_endpoint_line(out, &p.endpoint);
    proof {
        lemma_assoc(old(out)@, a + b, c);
    }
    write_number_line(
        out,
        "persistent_keepalive_interval",
        widen16(p.persistent_keepalive_interval),
    );
    proof {
        lemma_assoc(old(out)@, a + b + c, d);
    }
    write_blocks(out, &p.allowed_ip);
    proof {
        lemma_assoc(old(out)@, a + b + c + d, e);
    }
}

#[verifier::rlimit(40)]
fn write_peer(out: &mut Vec<u8>, p: &GetPeer)
    ensures
        final(out)@ == old(out)@ + peer_text(p@),
{
    let ghost a = config_text(p@.peer);
    let ghost b = number_line(
        "last_handshake_time_sec".spec_bytes(),
        match p.last_handshake_time_sec {
            Some(n) => Some(n as nat),
            None => None,
        },
    );
    let ghost c = number_line(
        "last_handshake_time_nsec".spec_bytes(),
        match p.last_handshake_time_nsec {
            Some(n) => Some(n as nat),
            None => None,
        },
    );
    let ghost d = number_line(
        "rx_bytes".spec_bytes(),
        match p.rx_bytes {
            Some(n) => Some(n as nat),
            None => None,
        },
    );
    let ghost e = number_line(
        "tx_bytes".spec_bytes(),
        match p.tx_bytes {
            Some(n) => Some(n as nat),
            None => None,
        },
    );
    write_config(out, &p.peer);
    write_number_line(out, "last_handshake_time_sec", p.last_handshake_time_sec);
    proof {
        lemma_assoc(old(out)@, a, b);
    }
    write_number_line(out, "last_handshake_time_nsec", widen32(p.last_handshake_time_nsec));
    proof {
        lemma_assoc(old(out)@, a + b, c);
    }
    write_number_line(out, "rx_bytes", p.rx_bytes);
    proof {
        lemma_assoc(old(out)@, a + b + c, d);
    }
    write_number_line(out, "tx_bytes", p.tx_bytes);
    proof {
        lemma_assoc(old(out)@, a + b + c + d, e);
    }
}

fn write_errno(out: &mut Vec<u8>, errno: i32)
    ensures
        final(out)@ == old(out)@ + errno_text(errno),
{
    write_str(out, "errno");
    out.push(EQUALS);
    if errno < 0 {
        out.push(MINUS);
        write_decimal(out, (-(errno as i64)) as u64);
    } else {
        write_decimal(out, errno as u64);
    }
    out.push(LF);
    out.push(LF);
    assert(out@ =~= old(out)@ + errno_text(errno));
}

/// A response as text, the empty line that ends it included.
#[verifier::rlimit(40)]
pub fn response_bytes(r: &Response) -> (text: Vec<u8>)
    ensures
        text@ == response_text(r@),
{
    let mut out: Vec<u8> = Vec::new();
    match r {
        Response::Get(get) => {
            let ghost a = key_line("private_key".spec_bytes(), get.private_key);
            let ghost b = number_line(
                "listen_port".spec_bytes(),
                match get.listen_port {
                    Some(p) => Some(p as nat),
                    None => None,
                },
            );
            let ghost c = number_line(
                "fwmark".spec_bytes(),
                match get.fwmark {
                    Some(m) => Some(m as nat),
                    None => None,
                },
            );
            write_opt_key_line(&mut out, "private_key", &get.private_key);
            assert(out@ =~= a);
            write_number_line(&mut out, "listen_port", widen16(get.listen_port));
            write_number_line(&mut out, "fwmark", widen32(get.fwmark));
            let ghost head = out@;
            assert(head == a + b + c);
            let mut i: usize = 0;
            assert(out@ =~= head + peers_text(get@.peers, 0));
            while i < get.peers.len()
                invariant
                    i <= get.peers@.len(),
                    out@ == head + peers_text(get@.peers, i as int),
                decreases get.peers@.len() - i,
            {
                write_peer(&mut out, &get.peers[i]);
                assert(get@.peers[i as int] == get.peers@[i as int]@);
                proof {
                    lemma_assoc(
                        head,
                        peers_text(get@.peers, i as int),
                        peer_text(get@.peers[i as int]),
                    );
                }
                i += 1;
            }
            write_errno(&mut out, get.errno);
        },
        Response::Change(set) => {
            write_errno(&mut out, set.errno);
            assert(out@ =~= errno_text(set.errno));
        },
    }
    out
}

} // verus!
