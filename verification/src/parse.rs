//! Requests of the control protocol, read from text.

use crate::command::{
    GetRequest, KeyBytes, PeerConfig, PeerConfigView, Request, RequestView, SetPeer, SetPeerView,
    SetRequest, SetRequestView, SetUnset, EINVAL, EIO,
};
use crate::text::{
    bool_value, cidr_value, decimal_upto, endpoint_value, find, first_index, key_value,
    lemma_split_nonempty, parse_bool, parse_cidr, parse_decimal, parse_endpoint,
    parse_key, same_bytes, split, split_seq, EQUALS, LF,
};
use vstd::prelude::*;
use vstd::string::StringSliceAdditionalSpecFns;

verus! {

/// Why a text is no request.
#[derive(Clone, Copy, Debug, PartialEq, Eq)]
pub enum ParseError {
    /// The empty line that ends a request is missing.
    Incomplete,
    /// The first line is neither `get=1` nor `set=1`.
    UnknownCommand,
    /// A line cannot be read, or stands where it may not.
    Invalid,
}

impl ParseError {
    /// The error number that answers a text that is no request.
    pub fn errno(&self) -> (errno: i32)
        ensures
            errno == match self {
                ParseError::Incomplete => EINVAL,
                ParseError::UnknownCommand => EIO,
                ParseError::Invalid => EINVAL,
            },
    {
        match self {
            ParseError::Incomplete => EINVAL,
            ParseError::UnknownCommand => EIO,
            ParseError::Invalid => EINVAL,
        }
    }
}

/// Whether a text ends with an empty line: with two line ends, or is one line end.
pub open spec fn is_complete(text: Seq<u8>) -> bool {
    text.len() >= 1 && text.last() == LF && (text.len() == 1 || text[text.len() - 2] == LF)
}

/// The key with these 32 bytes.
pub open spec fn key_bytes(v: Seq<u8>) -> KeyBytes {
    KeyBytes(choose|a: [u8; 32]| a@ == v)
}

/// A key is the key with its bytes.
pub proof fn lemma_key_bytes(k: [u8; 32])
    ensures
        key_bytes(k@) == KeyBytes(k),
{
    let c = choose|a: [u8; 32]| a@ == k@;
    assert(c =~= k);
}

/// The request that sets nothing.
pub open spec fn empty_set() -> SetRequestView {
    SetRequestView {
        private_key: None,
        listen_port: None,
        fwmark: None,
        replace_peers: false,
        protocol_version: None,
        peers: Seq::empty(),
    }
}

/// The peer block that a `public_key` line begins.
pub open spec fn new_block(key: KeyBytes) -> SetPeerView {
    SetPeerView {
        peer: PeerConfigView {
            public_key: key,
            preshared_key: None,
            endpoint: None,
            persistent_keepalive_interval: None,
            allowed_ip: Seq::empty(),
        },
        remove: false,
        update_only: false,
        replace_allowed_ips: false,
    }
}

/// A line that stands before the first peer block, taken into the request.
pub open spec fn device_line(acc: SetRequestView, key: Seq<u8>, val: Seq<u8>) -> Option<
    SetRequestView,
> {
    if key == "private_key".spec_bytes() {
        match key_value(val) {
            Some(k) => Some(SetRequestView { private_key: Some(key_bytes(k)), ..acc }),
            None => None,
        }
    } else if key == "listen_port".spec_bytes() {
        match decimal_upto(val, 65535) {
            Some(port) => Some(SetRequestView { listen_port: Some(port as u16), ..acc }),
            None => None,
        }
    } else if key == "fwmark".spec_bytes() {
        match decimal_upto(val, 0xffff_ffff) {
            Some(mark) => Some(SetRequestView { fwmark: Some(mark as u32), ..acc }),
            None => None,
        }
    } else if key == "replace_peers".spec_bytes() {
        match bool_value(val) {
            Some(b) => Some(SetRequestView { replace_peers: b, ..acc }),
            None => None,
        }
    } else if key == "protocol_version".spec_bytes() {
        if decimal_upto(val, 1) == Some(1nat) {
            Some(SetRequestView { protocol_version: Some(1u32), ..acc })
        } else {
            None
        }
    } else {
        None
    }
}

/// A line of a peer block, taken into the block.
pub open spec fn peer_line(p: SetPeerView, key: Seq<u8>, val: Seq<u8>) -> Option<SetPeerView> {
    if key == "remove".spec_bytes() {
        match bool_value(val) {
            Some(b) => Some(SetPeerView { remove: b, ..p }),
            None => None,
        }
    } else if key == "update_only".spec_bytes() {
        match bool_value(val) {
            Some(b) => Some(SetPeerView { update_only: b, ..p }),
            None => None,
        }
    } else if key == "replace_allowed_ips".spec_bytes() {
        match bool_value(val) {
            Some(b) => Some(SetPeerView { replace_allowed_ips: b, ..p }),
            None => None,
        }
    } else if key == "preshared_key".spec_bytes() {
        if val.len() == 0 {
            Some(
                SetPeerView {
                    peer: PeerConfigView { preshared_key: Some(SetUnset::Unset), ..p.peer },
                    ..p
                },
            )
        } else {
            match key_value(val) {
                Some(k) => Some(
                    SetPeerView {
                        peer: PeerConfigView {
                            preshared_key: Some(SetUnset::Value(key_bytes(k))),
                            ..p.peer
                        },
                        ..p
                    },
                ),
                None => None,
            }
        }
    } else if key == "endpoint".spec_bytes() {
        match endpoint_value(val) {
            Some(e) => Some(SetPeerView { peer: PeerConfigView { endpoint: Some(e), ..p.peer }, ..p }),
            None => None,
        }
    } else if key == "persistent_keepalive_interval".spec_bytes() {
        match decimal_upto(val, 65535) {
            Some(k) => Some(
                SetPeerView {
                    peer: PeerConfigView {
                        persistent_keepalive_interval: Some(k as u16),
                        ..p.peer
                    },
                    ..p
                },
            ),
            None => None,
        }
    } else if key == "allowed_ip".spec_bytes() {
        match cidr_value(val) {
            Some(block) => Some(
                SetPeerView {
                    peer: PeerConfigView { allowed_ip: p.peer.allowed_ip.push(block), ..p.peer },
                    ..p
                },
            ),
            None => None,
        }
    } else {
        None
    }
}

/// One line of a `set` request, taken into the request: a key, the sign
/// `=` and a value. A `public_key` line begins a peer block; any other line
/// belongs to the last block that was begun, or to the device where none was.
#[verifier::opaque]
pub open spec fn set_line(acc: SetRequestView, line: Seq<u8>) -> Option<SetRequestView> {
    let k = first_index(line, EQUALS);
    if k >= line.len() {
        None
    } else {
        let key = line.subrange(0, k);
        let val = line.subrange(k + 1, line.len() as int);
        if key == "public_key".spec_bytes() {
            match key_value(val) {
                Some(pk) => Some(
                    SetRequestView { peers: acc.peers.push(new_block(key_bytes(pk))), ..acc },
                ),
                None => None,
            }
        } else if acc.peers.len() == 0 {
            device_line(acc, key, val)
        } else {
            match peer_line(acc.peers.last(), key, val) {
                Some(p) => Some(SetRequestView { peers: acc.peers.drop_last().push(p), ..acc }),
                None => None,
            }
        }
    }
}

/// The lines from `from` up to `to`, taken into the request one after the other.
pub open spec fn set_lines(acc: SetRequestView, lines: Seq<Seq<u8>>, from: int, to: int) -> Option<
    SetRequestView,
>
    decreases to - from,
{
    if to <= from {
        Some(acc)
    } else {
        match set_lines(acc, lines, from, to - 1) {
            Some(a) => set_line(a, lines[to - 1]),
            None => None,
        }
    }
}

/// The request that lines write, the empty line that ends it left aside:
/// the first line is the command, the lines of a `set` request follow it.
pub open spec fn lines_value(lines: Seq<Seq<u8>>) -> Result<RequestView, ParseError> {
    if lines.len() == 0 {
        Err(ParseError::UnknownCommand)
    } else if lines[0] == "get=1".spec_bytes() {
        if lines.len() == 1 {
            Ok(RequestView::Get)
        } else {
            Err(ParseError::Invalid)
        }
    } else if lines[0] == "set=1".spec_bytes() {
        match set_lines(empty_set(), lines, 1, lines.len() as int) {
            Some(set) => Ok(RequestView::Change(set)),
            None => Err(ParseError::Invalid),
        }
    } else {
        Err(ParseError::UnknownCommand)
    }
}

/// The request that a text writes. Each line ends with a line end, and an
/// empty line ends the request: a text without it is incomplete.
pub open spec fn request_value(text: Seq<u8>) -> Result<RequestView, ParseError> {
    if !is_complete(text) {
        Err(ParseError::Incomplete)
    } else {
        let lines = split_seq(text, LF);
        lines_value(lines.take(lines.len() - 2))
    }
}

/// Framing. A text that ends with a line end but not with an empty line is
/// incomplete; the same text with the line end of the empty line behind it
/// is complete, and is the request that its lines write.
pub proof fn lemma_terminator_completes(text: Seq<u8>)
    requires
        text.len() >= 1,
        text.last() == LF,
        !is_complete(text),
    ensures
        request_value(text) == Err::<RequestView, ParseError>(ParseError::Incomplete),
        is_complete(text.push(LF)),
        request_value(text.push(LF)) == lines_value(split_seq(text, LF).drop_last()),
{
    let whole = text.push(LF);
    assert(whole.drop_last() =~= text);
    lemma_split_nonempty(text, LF);
    let lines = split_seq(whole, LF);
    assert(lines == split_seq(text, LF).push(Seq::empty()));
    assert(lines.take(lines.len() - 2) =~= split_seq(text, LF).drop_last());
}

fn empty_request() -> (set: SetRequest)
    ensures
        set@ == empty_set(),
{
    let set = SetRequest {
        private_key: None,
        listen_port: None,
        fwmark: None,
        replace_peers: false,
        protocol_version: None,
        peers: Vec::new(),
    };
    assert(set@.peers =~= Seq::empty());
    set
}

#[verifier::rlimit(40)]
fn take_device_line(acc: &mut SetRequest, key: &[u8], val: &[u8]) -> (ok: bool)
    requires
        old(acc).peers@.len() == 0,
    ensures
        match device_line(old(acc)@, key@, val@) {
            Some(a) => ok && final(acc)@ == a,
            None => !ok,
        },
        final(acc).peers@.len() == 0,
{
    if same_bytes(key, "private_key".as_bytes()) {
        match parse_key(val) {
            Some(k) => {
                proof {
                    lemma_key_bytes(k);
                }
                acc.private_key = Some(KeyBytes(k));
                assert(acc@.peers =~= old(acc)@.peers);
                true
            },
            None => false,
        }
    } else if same_bytes(key, "listen_port".as_bytes()) {
        match parse_decimal(val, 65535) {
            Some(port) => {
                acc.listen_port = Some(port as u16);
                assert(acc@.peers =~= old(acc)@.peers);
                true
            },
            None => false,
        }
    } else if same_bytes(key, "fwmark".as_bytes()) {
        match parse_decimal(val, 0xffff_ffff) {
            Some(mark) => {
                acc.fwmark = Some(mark as u32);
                assert(acc@.peers =~= old(acc)@.peers);
                true
            },
            None => false,
        }
    } else if same_bytes(key, "replace_peers".as_bytes()) {
        match parse_bool(val) {
            Some(b) => {
                acc.replace_peers = b;
                assert(acc@.peers =~= old(acc)@.peers);
                true
            },
            None => false,
        }
    } else if same_bytes(key, "protocol_version".as_bytes()) {
        match parse_decimal(val, 1) {
            Some(v) => {
                if v == 1 {
                    acc.protocol_version = Some(1);
                    assert(acc@.peers =~= old(acc)@.peers);
                    true
                } else {
                    false
                }
            },
            None => false,
        }
    } else {
        false
    }
}

#[verifier::rlimit(40)]
fn take_peer_line(p: &mut SetPeer, key: &[u8], val: &[u8]) -> (ok: bool)
    ensures
        match peer_line(old(p)@, key@, val@) {
            Some(q) => ok && final(p)@ == q,
            None => !ok,
        },
{
    if same_bytes(key, "remove".as_bytes()) {
        match parse_bool(val) {
            Some(b) => {
                p.remove = b;
                true
            },
            None => false,
        }
    } else if same_bytes(key, "update_only".as_bytes()) {
        match parse_bool(val) {
            Some(b) => {
                p.update_only = b;
                true
            },
            None => false,
        }
    } else if same_bytes(key, "replace_allowed_ips".as_bytes()) {
        match parse_bool(val) {
            Some(b) => {
                p.replace_allowed_ips = b;
                true
            },
            None => false,
        }
    } else if same_bytes(key, "preshared_key".as_bytes()) {
        if val.len() == 0 {
            p.peer.preshared_key = Some(SetUnset::Unset);
            true
        } else {
            match parse_key(val) {
                Some(k) => {
                    proof {
                        lemma_key_bytes(k);
                    }
                    p.peer.preshared_key = Some(SetUnset::Value(KeyBytes(k)));
                    true
                },
                None => false,
            }
        }
    } else if same_bytes(key, "endpoint".as_bytes()) {
        match parse_endpoint(val) {
            Some(e) => {
                p.peer.endpoint = Some(e);
                true
            },
            None => false,
        }
    } else if same_bytes(key, "persistent_keepalive_interval".as_bytes()) {
        match parse_decimal(val, 65535) {
            Some(k) => {
                p.peer.persistent_keepalive_interval = Some(k as u16);
                true
            },
            None => false,
        }
    } else if same_bytes(key, "allowed_ip".as_bytes()) {
        match parse_cidr(val) {
            Some(block) => {
                p.peer.allowed_ip.push(block);
                true
            },
            None => false,
        }
    } else {
        false
    }
}

#[verifier::rlimit(40)]
fn take_line(acc: &mut SetRequest, line: &[u8]) -> (ok: bool)
    ensures
        match set_line(old(acc)@, line@) {
            Some(a) => ok && final(acc)@ == a,
            None => !ok,
        },
{
    reveal(set_line);
    let k = find(line, EQUALS);
    if k >= line.len() {
        return false;
    }
    let key = vstd::slice::slice_subrange(line, 0, k);
    let val = vstd::slice::slice_subrange(line, k + 1, line.len());
    if same_bytes(key, "public_key".as_bytes()) {
        match parse_key(val) {
            Some(pk) => {
                proof {
                    lemma_key_bytes(pk);
                }
                let block = SetPeer {
                    peer: PeerConfig {
                        public_key: KeyBytes(pk),
                        preshared_key: None,
                        endpoint: None,
                        persistent_keepalive_interval: None,
                        allowed_ip: Vec::new(),
                    },
                    remove: false,
                    update_only: false,
                    replace_allowed_ips: false,
                };
                assert(block@ =~= new_block(KeyBytes(pk)));
                acc.peers.push(block);
                assert(acc@.peers =~= old(acc)@.peers.push(new_block(KeyBytes(pk))));
                true
            },
            None => false,
        }
    } else if acc.peers.len() == 0 {
        take_device_line(acc, key, val)
    } else {
        match acc.peers.pop() {
            Some(mut p) => {
                assert(p@ == old(acc)@.peers.last());
                let ok = take_peer_line(&mut p, key, val);
                let ghost q = p@;
                acc.peers.push(p);
                proof {
                    if ok {
                        assert(acc@.peers =~= old(acc)@.peers.drop_last().push(q));
                    }
                }
                ok
            },
            None => false,
        }
    }
}

/// Reads a request: the command, the lines of a `set` request, and the
/// empty line that ends it.
#[verifier::rlimit(40)]
pub fn parse_request(text: &[u8]) -> (request: Result<Request, ParseError>)
    ensures
        match request {
            Ok(r) => request_value(text@) == Ok::<RequestView, ParseError>(r@),
            Err(e) => request_value(text@) == Err::<RequestView, ParseError>(e),
        },
{
    let len = text.len();
    if !(len >= 1 && text[len - 1] == LF && (len == 1 || text[len - 2] == LF)) {
        return Err(ParseError::Incomplete);
    }
    let fields = split(text, LF);
    let ghost all = split_seq(text@, LF);
    proof {
        assert(text@.drop_last().len() == len - 1);
        lemma_split_nonempty(text@.drop_last(), LF);
    }
    let n = fields.len() - 2;
    let ghost lines = all.take(n as int);
    if n == 0 {
        return Err(ParseError::UnknownCommand);
    }
    let (a0, b0) = fields[0];
    let first = vstd::slice::slice_subrange(text, a0, b0);
    assert(first@ == lines[0]);
    if same_bytes(first, "get=1".as_bytes()) {
        if n == 1 {
            return Ok(Request::Get(GetRequest));
        } else {
            return Err(ParseError::Invalid);
        }
    }
    if !same_bytes(first, "set=1".as_bytes()) {
        return Err(ParseError::UnknownCommand);
    }
    let mut acc = empty_request();
    let mut i: usize = 1;
    while i < n
        invariant
            1 <= i <= n,
            n + 2 == fields@.len(),
            all == split_seq(text@, LF),
            lines == all.take(n as int),
            fields@.len() == all.len(),
            forall|k: int|
                0 <= k < fields@.len() ==> (#[trigger] fields@[k]).0 <= fields@[k].1 <= text@.len()
                    && text@.subrange(fields@[k].0 as int, fields@[k].1 as int) == all[k],
            set_lines(empty_set(), lines, 1, i as int) == Some(acc@),
            is_complete(text@),
            lines[0] == "set=1".spec_bytes(),
            lines[0] != "get=1".spec_bytes(),
        decreases n - i,
    {
        let (a, b) = fields[i];
        let line = vstd::slice::slice_subrange(text, a, b);
        assert(line@ == lines[i as int]);
        if !take_line(&mut acc, line) {
            proof {
                lemma_set_lines_fail(empty_set(), lines, 1, i + 1, n as int);
            }
            return Err(ParseError::Invalid);
        }
        i += 1;
    }
    Ok(Request::Change(acc))
}

proof fn lemma_set_lines_fail(acc: SetRequestView, lines: Seq<Seq<u8>>, from: int, at: int, to: int)
    requires
        from <= at <= to,
        set_lines(acc, lines, from, at) is None,
    ensures
        set_lines(acc, lines, from, to) is None,
    decreases to - at,
{
    if at < to {
        lemma_set_lines_fail(acc, lines, from, at, to - 1);
    }
}

} // verus!
