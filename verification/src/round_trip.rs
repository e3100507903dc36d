//! Reading what was written: a request that is written as text and read
//! again is the same request.

use crate::command::{KeyBytes, PeerConfigView, RequestView, SetPeerView, SetRequestView, SetUnset};
use crate::emit::{
    block_text, blocks_text, device_text, endpoint_line, flag_line, key_line, line, number_line,
    peer_blocks_text, psk_text, request_text,
};
use crate::ip::{AllowedIP, SocketAddr};
use crate::parse::{
    empty_set, is_complete, lemma_key_bytes, new_block, peer_line, request_value, set_line,
    set_lines, ParseError,
};
use crate::text::{
    cidr_text, decimal_text, endpoint_text, first_index, free_of, is_digit, key_text,
    lemma_cidr_round_trip, lemma_decimal_round_trip, lemma_endpoint_round_trip, lemma_find_is,
    lemma_ip_text_bytes, lemma_key_round_trip, lemma_split_nonempty, lemma_split_single,
    split_seq, EQUALS, LF,
};
use vstd::prelude::*;
use vstd::string::StringSliceAdditionalSpecFns;

verus! {

/// Whether a text is made of whole lines, none of them empty.
pub open spec fn tidy(t: Seq<u8>) -> bool {
    t.len() == 0 || (t.len() >= 2 && t.last() == LF && t[t.len() - 2] != LF)
}

/// The lines of a text that is made of whole lines.
pub open spec fn lines(t: Seq<u8>) -> Seq<Seq<u8>> {
    split_seq(t, LF).drop_last()
}

/// The lines taken into a request one after the other.
pub open spec fn fold_lines(acc: SetRequestView, ls: Seq<Seq<u8>>) -> Option<SetRequestView>
    decreases ls.len(),
{
    if ls.len() == 0 {
        Some(acc)
    } else {
        match fold_lines(acc, ls.drop_last()) {
            Some(a) => set_line(a, ls.last()),
            None => None,
        }
    }
}

/// The lines of a text taken into a request, if there is a request to take them.
pub open spec fn feed(acc: Option<SetRequestView>, t: Seq<u8>) -> Option<SetRequestView> {
    match acc {
        Some(a) => fold_lines(a, lines(t)),
        None => None,
    }
}

/// A key, the sign `=` and a value.
pub open spec fn entry(key: Seq<u8>, val: Seq<u8>) -> Seq<u8> {
    key.push(EQUALS) + val
}

#[verifier::rlimit(40)]
proof fn lemma_split_after_line_end(a: Seq<u8>, b: Seq<u8>)
    requires
        a.len() > 0,
        a.last() == LF,
    ensures
        split_seq(a + b, LF) == split_seq(a, LF).drop_last() + split_seq(b, LF),
    decreases b.len(),
{
    lemma_split_nonempty(a.drop_last(), LF);
    let s = split_seq(a, LF).drop_last();
    assert(split_seq(a, LF) == split_seq(a.drop_last(), LF).push(Seq::empty()));
    if b.len() == 0 {
        assert(a + b =~= a);
        assert(split_seq(b, LF) =~= seq![Seq::<u8>::empty()]);
        assert(s + split_seq(b, LF) =~= split_seq(a, LF));
    } else {
        let b0 = b.drop_last();
        lemma_split_after_line_end(a, b0);
        lemma_split_nonempty(b0, LF);
        assert((a + b).drop_last() =~= a + b0);
        assert((a + b).last() == b.last());
        let g = split_seq(b0, LF);
        if b.last() == LF {
            assert((s + g).push(Seq::empty()) =~= s + g.push(Seq::empty()));
        } else {
            assert((s + g).update((s + g).len() - 1, (s + g).last().push(b.last())) =~= s
                + g.update(g.len() - 1, g.last().push(b.last())));
        }
    }
}

/// The lines of two texts, one behind the other, are the lines of the
/// first and then those of the second.
pub proof fn lemma_lines_concat(a: Seq<u8>, b: Seq<u8>)
    requires
        tidy(a),
        tidy(b),
    ensures
        tidy(a + b),
        lines(a + b) == lines(a) + lines(b),
{
    lemma_split_nonempty(b, LF);
    lemma_split_nonempty(a, LF);
    if a.len() == 0 {
        assert(a + b =~= b);
        assert(lines(a) =~= Seq::<Seq<u8>>::empty());
        assert(lines(a) + lines(b) =~= lines(b));
    } else {
        lemma_split_after_line_end(a, b);
        let s = split_seq(a, LF).drop_last();
        assert((s + split_seq(b, LF)).drop_last() =~= s + split_seq(b, LF).drop_last());
        if b.len() == 0 {
            assert(a + b =~= a);
        } else {
            assert((a + b).last() == b.last());
            assert((a + b)[(a + b).len() - 2] == b[b.len() - 2]);
        }
    }
}

/// A line with its line end is one line.
pub proof fn lemma_lines_of_line(l: Seq<u8>)
    requires
        free_of(l, LF),
        l.len() > 0,
    ensures
        tidy(l.push(LF)),
        lines(l.push(LF)) == seq![l],
{
    lemma_split_single(l, LF);
    assert(l.push(LF).drop_last() =~= l);
    assert(split_seq(l.push(LF), LF) == seq![l].push(Seq::empty()));
    assert(lines(l.push(LF)) =~= seq![l]);
}

proof fn lemma_fold_concat(acc: SetRequestView, a: Seq<Seq<u8>>, b: Seq<Seq<u8>>)
    ensures
        fold_lines(acc, a + b) == match fold_lines(acc, a) {
            Some(x) => fold_lines(x, b),
            None => None,
        },
    decreases b.len(),
{
    if b.len() == 0 {
        assert(a + b =~= a);
    } else {
        lemma_fold_concat(acc, a, b.drop_last());
        assert((a + b).drop_last() =~= a + b.drop_last());
        assert((a + b).last() == b.last());
    }
}

proof fn lemma_fold_is_set_lines(acc: SetRequestView, ls: Seq<Seq<u8>>, from: int, to: int)
    requires
        0 <= from <= to <= ls.len(),
    ensures
        set_lines(acc, ls, from, to) == fold_lines(acc, ls.subrange(from, to)),
    decreases to - from,
{
    if from < to {
        lemma_fold_is_set_lines(acc, ls, from, to - 1);
        assert(ls.subrange(from, to).drop_last() =~= ls.subrange(from, to - 1));
        assert(ls.subrange(from, to).last() == ls[to - 1]);
    } else {
        assert(ls.subrange(from, to).len() == 0);
    }
}

/// Feeding two texts, one behind the other, is feeding the first and then the second.
pub proof fn lemma_feed_concat(acc: Option<SetRequestView>, a: Seq<u8>, b: Seq<u8>)
    requires
        tidy(a),
        tidy(b),
    ensures
        tidy(a + b),
        feed(acc, a + b) == feed(feed(acc, a), b),
{
    lemma_lines_concat(a, b);
    match acc {
        Some(x) => {
            lemma_fold_concat(x, lines(a), lines(b));
        },
        None => {},
    }
}

/// Feeding nothing changes nothing.
pub proof fn lemma_feed_nothing(acc: Option<SetRequestView>)
    ensures
        feed(acc, Seq::empty()) == acc,
        tidy(Seq::<u8>::empty()),
{
    assert(lines(Seq::<u8>::empty()) =~= Seq::<Seq<u8>>::empty());
}

/// Feeding one line is taking that line.
pub proof fn lemma_feed_line(acc: SetRequestView, key: Seq<u8>, val: Seq<u8>)
    requires
        free_of(key, LF),
        free_of(val, LF),
    ensures
        tidy(line(key, val)),
        feed(Some(acc), line(key, val)) == set_line(acc, entry(key, val)),
{
    let l = entry(key, val);
    assert(free_of(l, LF));
    lemma_lines_of_line(l);
    assert(seq![l].drop_last() =~= Seq::<Seq<u8>>::empty());
    assert(fold_lines(acc, seq![l].drop_last()) == Some(acc));
}

/// The parts of an entry are its key and its value, if the key holds no sign `=`.
pub proof fn lemma_entry_parts(key: Seq<u8>, val: Seq<u8>)
    requires
        free_of(key, EQUALS),
    ensures
        first_index(entry(key, val), EQUALS) == key.len(),
        entry(key, val).subrange(0, key.len() as int) == key,
        entry(key, val).subrange(key.len() as int + 1, entry(key, val).len() as int) == val,
{
    let e = entry(key, val);
    lemma_find_is(e, EQUALS, 0, key.len() as int);
    assert(e.subrange(0, key.len() as int) =~= key);
    assert(e.subrange(key.len() as int + 1, e.len() as int) =~= val);
}

/// A word of the protocol: its length, its first byte, and that it holds
/// neither the sign `=` nor a line end.
pub open spec fn word(w: Seq<u8>, len: nat, first: u8) -> bool {
    w.len() == len && w[0] == first && free_of(w, EQUALS) && free_of(w, LF)
}

#[verifier::rlimit(40)]
proof fn lemma_device_words()
    ensures
        word("private_key".spec_bytes(), 11, 112),
        word("listen_port".spec_bytes(), 11, 108),
        word("fwmark".spec_bytes(), 6, 102),
        word("replace_peers".spec_bytes(), 13, 114),
        word("protocol_version".spec_bytes(), 16, 112),
        word("public_key".spec_bytes(), 10, 112),
        word("true".spec_bytes(), 4, 116),
{
    reveal_strlit("private_key");
    reveal_strlit("listen_port");
    reveal_strlit("fwmark");
    reveal_strlit("replace_peers");
    reveal_strlit("protocol_version");
    reveal_strlit("public_key");
    reveal_strlit("true");
    assert("private_key".is_ascii());
    assert("listen_port".is_ascii());
    assert("fwmark".is_ascii());
    assert("replace_peers".is_ascii());
    assert("protocol_version".is_ascii());
    assert("public_key".is_ascii());
    assert("true".is_ascii());
}

#[verifier::rlimit(40)]
proof fn lemma_peer_words()
    ensures
        word("public_key".spec_bytes(), 10, 112),
        word("remove".spec_bytes(), 6, 114),
        word("update_only".spec_bytes(), 11, 117),
        word("replace_allowed_ips".spec_bytes(), 19, 114),
        word("preshared_key".spec_bytes(), 13, 112),
        word("endpoint".spec_bytes(), 8, 101),
        word("persistent_keepalive_interval".spec_bytes(), 29, 112),
        word("allowed_ip".spec_bytes(), 10, 97),
        word("true".spec_bytes(), 4, 116),
{
    reveal_strlit("public_key");
    reveal_strlit("remove");
    reveal_strlit("update_only");
    reveal_strlit("replace_allowed_ips");
    reveal_strlit("preshared_key");
    reveal_strlit("endpoint");
    reveal_strlit("persistent_keepalive_interval");
    reveal_strlit("allowed_ip");
    reveal_strlit("true");
    assert("public_key".is_ascii());
    assert("remove".is_ascii());
    assert("update_only".is_ascii());
    assert("replace_allowed_ips".is_ascii());
    assert("preshared_key".is_ascii());
    assert("endpoint".is_ascii());
    assert("persistent_keepalive_interval".is_ascii());
    assert("allowed_ip".is_ascii());
    assert("true".is_ascii());
}

proof fn lemma_command_words()
    ensures
        word("get=1".spec_bytes().take(3), 3, 103),
        "get=1".spec_bytes().len() == 5,
        "set=1".spec_bytes().len() == 5,
        "get=1".spec_bytes()[0] == 103,
        "set=1".spec_bytes()[0] == 115,
        "get=1".spec_bytes()[4] == 49,
        "set=1".spec_bytes()[4] == 49,
        free_of("get=1".spec_bytes(), LF),
        free_of("set=1".spec_bytes(), LF),
{
    reveal_strlit("get=1");
    reveal_strlit("set=1");
    assert("get=1".is_ascii());
    assert("set=1".is_ascii());
}

/// A key as text holds no line end.
pub proof fn lemma_key_text_bytes(k: Seq<u8>)
    ensures
        free_of(key_text(k), LF),
        key_text(k).len() == 2 * k.len(),
{
}

/// A number as text holds no line end.
pub proof fn lemma_decimal_text_bytes(n: nat)
    ensures
        free_of(decimal_text(n), LF),
        decimal_text(n).len() > 0,
{
    lemma_decimal_round_trip(n);
    assert forall|i: int| 0 <= i < decimal_text(n).len() implies decimal_text(n)[i] != LF by {
        assert(is_digit(decimal_text(n)[i]));
    }
}

/// A socket address as text holds no line end.
pub proof fn lemma_endpoint_text_bytes(e: SocketAddr)
    ensures
        free_of(endpoint_text(e), LF),
{
    lemma_ip_text_bytes(e.ip);
    lemma_decimal_text_bytes(e.port as nat);
}

/// A block as text holds no line end.
pub proof fn lemma_cidr_text_bytes(a: AllowedIP)
    ensures
        free_of(cidr_text(a), LF),
{
    lemma_ip_text_bytes(a.addr);
    lemma_decimal_text_bytes(a.cidr as nat);
}

proof fn lemma_take_private_key(acc: SetRequestView, k: KeyBytes)
    requires
        acc.peers.len() == 0,
    ensures
        set_line(acc, entry("private_key".spec_bytes(), key_text(k.0@))) == Some(
            SetRequestView { private_key: Some(k), ..acc },
        ),
{
    reveal(set_line);
    lemma_device_words();
    lemma_entry_parts("private_key".spec_bytes(), key_text(k.0@));
    lemma_key_round_trip(k.0@);
    lemma_key_bytes(k.0);
}

proof fn lemma_take_listen_port(acc: SetRequestView, port: u16)
    requires
        acc.peers.len() == 0,
    ensures
        set_line(acc, entry("listen_port".spec_bytes(), decimal_text(port as nat))) == Some(
            SetRequestView { listen_port: Some(port), ..acc },
        ),
{
    reveal(set_line);
    lemma_device_words();
    lemma_entry_parts("listen_port".spec_bytes(), decimal_text(port as nat));
    lemma_decimal_round_trip(port as nat);
}

proof fn lemma_take_fwmark(acc: SetRequestView, mark: u32)
    requires
        acc.peers.len() == 0,
    ensures
        set_line(acc, entry("fwmark".spec_bytes(), decimal_text(mark as nat))) == Some(
            SetRequestView { fwmark: Some(mark), ..acc },
        ),
{
    reveal(set_line);
    lemma_device_words();
    lemma_entry_parts("fwmark".spec_bytes(), decimal_text(mark as nat));
    lemma_decimal_round_trip(mark as nat);
}

proof fn lemma_take_replace_peers(acc: SetRequestView)
    requires
        acc.peers.len() == 0,
    ensures
        set_line(acc, entry("replace_peers".spec_bytes(), "true".spec_bytes())) == Some(
            SetRequestView { replace_peers: true, ..acc },
        ),
{
    reveal(set_line);
    lemma_device_words();
    lemma_entry_parts("replace_peers".spec_bytes(), "true".spec_bytes());
}

proof fn lemma_take_protocol_version(acc: SetRequestView)
    requires
        acc.peers.len() == 0,
    ensures
        set_line(acc, entry("protocol_version".spec_bytes(), decimal_text(1))) == Some(
            SetRequestView { protocol_version: Some(1u32), ..acc },
        ),
{
    reveal(set_line);
    lemma_device_words();
    lemma_entry_parts("protocol_version".spec_bytes(), decimal_text(1));
    lemma_decimal_round_trip(1);
}

proof fn lemma_take_public_key(acc: SetRequestView, k: KeyBytes)
    ensures
        set_line(acc, entry("public_key".spec_bytes(), key_text(k.0@))) == Some(
            SetRequestView { peers: acc.peers.push(new_block(k)), ..acc },
        ),
{
    reveal(set_line);
    lemma_peer_words();
    lemma_entry_parts("public_key".spec_bytes(), key_text(k.0@));
    lemma_key_round_trip(k.0@);
    lemma_key_bytes(k.0);
}

/// The request with its last peer block replaced.
pub open spec fn with_last(acc: SetRequestView, p: SetPeerView) -> SetRequestView {
    SetRequestView { peers: acc.peers.drop_last().push(p), ..acc }
}

proof fn lemma_take_peer_line(acc: SetRequestView, key: Seq<u8>, val: Seq<u8>)
    requires
        acc.peers.len() > 0,
        free_of(key, EQUALS),
        key != "public_key".spec_bytes(),
    ensures
        set_line(acc, entry(key, val)) == match peer_line(acc.peers.last(), key, val) {
            Some(p) => Some(with_last(acc, p)),
            None => None,
        },
{
    reveal(set_line);
    lemma_entry_parts(key, val);
}

proof fn lemma_feed_flag(acc: SetRequestView, key: Seq<u8>, on: bool, q: SetPeerView)
    requires
        acc.peers.len() > 0,
        word(key, key.len(), key[0]),
        key != "public_key".spec_bytes(),
        on ==> peer_line(acc.peers.last(), key, "true".spec_bytes()) == Some(q),
        !on ==> q == acc.peers.last(),
    ensures
        tidy(flag_line(key, on)),
        feed(Some(acc), flag_line(key, on)) == Some(with_last(acc, q)),
{
    if on {
        lemma_peer_words();
        lemma_feed_line(acc, key, "true".spec_bytes());
        lemma_take_peer_line(acc, key, "true".spec_bytes());
    } else {
        lemma_feed_nothing(Some(acc));
        assert(acc.peers.drop_last().push(acc.peers.last()) =~= acc.peers);
    }
}

proof fn lemma_feed_remove(acc: SetRequestView, on: bool)
    requires
        acc.peers.len() > 0,
        !acc.peers.last().remove,
    ensures
        tidy(flag_line("remove".spec_bytes(), on)),
        feed(Some(acc), flag_line("remove".spec_bytes(), on)) == Some(
            with_last(acc, SetPeerView { remove: on, ..acc.peers.last() }),
        ),
{
    lemma_peer_words();
    lemma_feed_flag(
        acc,
        "remove".spec_bytes(),
        on,
        SetPeerView { remove: on, ..acc.peers.last() },
    );
}

proof fn lemma_feed_update_only(acc: SetRequestView, on: bool)
    requires
        acc.peers.len() > 0,
        !acc.peers.last().update_only,
    ensures
        tidy(flag_line("update_only".spec_bytes(), on)),
        feed(Some(acc), flag_line("update_only".spec_bytes(), on)) == Some(
            with_last(acc, SetPeerView { update_only: on, ..acc.peers.last() }),
        ),
{
    lemma_peer_words();
    lemma_feed_flag(
        acc,
        "update_only".spec_bytes(),
        on,
        SetPeerView { update_only: on, ..acc.peers.last() },
    );
}

proof fn lemma_feed_replace_ips(acc: SetRequestView, on: bool)
    requires
        acc.peers.len() > 0,
        !acc.peers.last().replace_allowed_ips,
    ensures
        tidy(flag_line("replace_allowed_ips".spec_bytes(), on)),
        feed(Some(acc), flag_line("replace_allowed_ips".spec_bytes(), on)) == Some(
            with_last(acc, SetPeerView { replace_allowed_ips: on, ..acc.peers.last() }),
        ),
{
    lemma_peer_words();
    lemma_feed_flag(
        acc,
        "replace_allowed_ips".spec_bytes(),
        on,
        SetPeerView { replace_allowed_ips: on, ..acc.peers.last() },
    );
}

proof fn lemma_feed_psk(acc: SetRequestView, psk: Option<SetUnset<KeyBytes>>)
    requires
        acc.peers.len() > 0,
        acc.peers.last().peer.preshared_key is None,
    ensures
        tidy(psk_text(psk)),
        feed(Some(acc), psk_text(psk)) == Some(
            with_last(
                acc,
                SetPeerView {
                    peer: PeerConfigView { preshared_key: psk, ..acc.peers.last().peer },
                    ..acc.peers.last()
                },
            ),
        ),
{
    lemma_peer_words();
    let key = "preshared_key".spec_bytes();
    match psk {
        Some(SetUnset::Value(k)) => {
            lemma_key_text_bytes(k.0@);
            lemma_key_round_trip(k.0@);
            lemma_key_bytes(k.0);
            lemma_feed_line(acc, key, key_text(k.0@));
            lemma_take_peer_line(acc, key, key_text(k.0@));
        },
        Some(SetUnset::Unset) => {
            lemma_feed_line(acc, key, Seq::empty());
            lemma_take_peer_line(acc, key, Seq::empty());
        },
        None => {
            lemma_feed_nothing(Some(acc));
            assert(acc.peers.drop_last().push(acc.peers.last()) =~= acc.peers);
        },
    }
}

proof fn lemma_feed_endpoint(acc: SetRequestView, endpoint: Option<SocketAddr>)
    requires
        acc.peers.len() > 0,
        acc.peers.last().peer.endpoint is None,
    ensures
        tidy(endpoint_line(endpoint)),
        feed(Some(acc), endpoint_line(endpoint)) == Some(
            with_last(
                acc,
                SetPeerView {
                    peer: PeerConfigView { endpoint, ..acc.peers.last().peer },
                    ..acc.peers.last()
                },
            ),
        ),
{
    lemma_peer_words();
    let key = "endpoint".spec_bytes();
    match endpoint {
        Some(e) => {
            lemma_endpoint_text_bytes(e);
            lemma_endpoint_round_trip(e);
            lemma_feed_line(acc, key, endpoint_text(e));
            lemma_take_peer_line(acc, key, endpoint_text(e));
        },
        None => {
            lemma_feed_nothing(Some(acc));
            assert(acc.peers.drop_last().push(acc.peers.last()) =~= acc.peers);
        },
    }
}

proof fn lemma_feed_keepalive(acc: SetRequestView, keepalive: Option<u16>)
    requires
        acc.peers.len() > 0,
        acc.peers.last().peer.persistent_keepalive_interval is None,
    ensures
        tidy(
            number_line(
                "persistent_keepalive_interval".spec_bytes(),
                match keepalive {
                    Some(k) => Some(k as nat),
                    None => None,
                },
            ),
        ),
        feed(
            Some(acc),
            number_line(
                "persistent_keepalive_interval".spec_bytes(),
                match keepalive {
                    Some(k) => Some(k as nat),
                    None => None,
                },
            ),
        ) == Some(
            with_last(
                acc,
                SetPeerView {
                    peer: PeerConfigView {
                        persistent_keepalive_interval: keepalive,
                        ..acc.peers.last().peer
                    },
                    ..acc.peers.last()
                },
            ),
        ),
{
    lemma_peer_words();
    let key = "persistent_keepalive_interval".spec_bytes();
    match keepalive {
        Some(k) => {
            lemma_decimal_text_bytes(k as nat);
            lemma_decimal_round_trip(k as nat);
            lemma_feed_line(acc, key, decimal_text(k as nat));
            lemma_take_peer_line(acc, key, decimal_text(k as nat));
        },
        None => {
            lemma_feed_nothing(Some(acc));
            assert(acc.peers.drop_last().push(acc.peers.last()) =~= acc.peers);
        },
    }
}

/// The request with more blocks behind those of its last peer block.
pub open spec fn with_blocks(acc: SetRequestView, more: Seq<AllowedIP>) -> SetRequestView {
    with_last(
        acc,
        SetPeerView {
            peer: PeerConfigView {
                allowed_ip: acc.peers.last().peer.allowed_ip + more,
                ..acc.peers.last().peer
            },
            ..acc.peers.last()
        },
    )
}

#[verifier::rlimit(40)]
proof fn lemma_feed_allowed(acc: SetRequestView, list: Seq<AllowedIP>, n: int)
    requires
        acc.peers.len() > 0,
        0 <= n <= list.len(),
        forall|i: int| 0 <= i < list.len() ==> (#[trigger] list[i]).valid(),
    ensures
        tidy(blocks_text(list, n)),
        feed(Some(acc), blocks_text(list, n)) == Some(with_blocks(acc, list.take(n))),
    decreases n,
{
    if n == 0 {
        lemma_feed_nothing(Some(acc));
        assert(acc.peers.last().peer.allowed_ip + list.take(0) =~= acc.peers.last().peer.allowed_ip);
        assert(acc.peers.drop_last().push(acc.peers.last()) =~= acc.peers);
        assert(with_blocks(acc, list.take(0)) =~= acc);
    } else {
        lemma_feed_allowed(acc, list, n - 1);
        lemma_peer_words();
        let key = "allowed_ip".spec_bytes();
        let block = list[n - 1];
        let before = with_blocks(acc, list.take(n - 1));
        lemma_cidr_text_bytes(block);
        lemma_cidr_round_trip(block);
        lemma_feed_line(before, key, cidr_text(block));
        lemma_take_peer_line(before, key, cidr_text(block));
        lemma_feed_concat(Some(acc), blocks_text(list, n - 1), line(key, cidr_text(block)));
        assert(list.take(n - 1).push(block) =~= list.take(n));
        assert(before.peers.last().peer.allowed_ip.push(block)
            =~= acc.peers.last().peer.allowed_ip + list.take(n));
        assert(before.peers.drop_last() =~= acc.peers.drop_last());
        assert(with_last(
            before,
            SetPeerView {
                peer: PeerConfigView {
                    allowed_ip: before.peers.last().peer.allowed_ip.push(block),
                    ..before.peers.last().peer
                },
                ..before.peers.last()
            },
        ) =~= with_blocks(acc, list.take(n)));
    }
}

/// Whether a peer block can be written and read again: each of its blocks
/// of addresses is no longer than its address.
pub open spec fn block_writable(p: SetPeerView) -> bool {
    forall|i: int| 0 <= i < p.peer.allowed_ip.len() ==> (#[trigger] p.peer.allowed_ip[i]).valid()
}

/// Whether a request can be written and read again: its protocol version,
/// if it names one, is 1, and each block of addresses is no longer than its address.
pub open spec fn writable(r: RequestView) -> bool {
    match r {
        RequestView::Get => true,
        RequestView::Change(set) => (set.protocol_version is None || set.protocol_version
            == Some(1u32)) && forall|i: int|
            0 <= i < set.peers.len() ==> block_writable(#[trigger] set.peers[i]),
    }
}

#[verifier::rlimit(40)]
proof fn lemma_feed_block(acc: SetRequestView, p: SetPeerView)
    requires
        block_writable(p),
    ensures
        tidy(block_text(p)),
        feed(Some(acc), block_text(p)) == Some(SetRequestView { peers: acc.peers.push(p), ..acc }),
{
    lemma_peer_words();
    let start = Some(acc);
    let t1 = line("public_key".spec_bytes(), key_text(p.peer.public_key.0@));
    let t2 = psk_text(p.peer.preshared_key);
    let t3 = endpoint_line(p.peer.endpoint);
    let t4 = number_line(
        "persistent_keepalive_interval".spec_bytes(),
        match p.peer.persistent_keepalive_interval {
            Some(k) => Some(k as nat),
            None => None,
        },
    );
    let t5 = blocks_text(p.peer.allowed_ip, p.peer.allowed_ip.len() as int);
    let t6 = flag_line("remove".spec_bytes(), p.remove);
    let t7 = flag_line("update_only".spec_bytes(), p.update_only);
    let t8 = flag_line("replace_allowed_ips".spec_bytes(), p.replace_allowed_ips);

    lemma_key_text_bytes(p.peer.public_key.0@);
    lemma_feed_line(acc, "public_key".spec_bytes(), key_text(p.peer.public_key.0@));
    lemma_take_public_key(acc, p.peer.public_key);
    let a1 = SetRequestView { peers: acc.peers.push(new_block(p.peer.public_key)), ..acc };
    assert(feed(start, t1) == Some(a1));
    assert(a1.peers.drop_last() =~= acc.peers);

    lemma_feed_psk(a1, p.peer.preshared_key);
    let a2 = feed(Some(a1), t2).unwrap();
    lemma_feed_concat(start, t1, t2);
    assert(a2.peers.drop_last() =~= acc.peers);

    lemma_feed_endpoint(a2, p.peer.endpoint);
    let a3 = feed(Some(a2), t3).unwrap();
    lemma_feed_concat(start, t1 + t2, t3);
    assert(a3.peers.drop_last() =~= acc.peers);

    lemma_feed_keepalive(a3, p.peer.persistent_keepalive_interval);
    let a4 = feed(Some(a3), t4).unwrap();
    lemma_feed_concat(start, t1 + t2 + t3, t4);
    assert(a4.peers.drop_last() =~= acc.peers);

    lemma_feed_allowed(a4, p.peer.allowed_ip, p.peer.allowed_ip.len() as int);
    let a5 = feed(Some(a4), t5).unwrap();
    lemma_feed_concat(start, t1 + t2 + t3 + t4, t5);
    assert(p.peer.allowed_ip.take(p.peer.allowed_ip.len() as int) =~= p.peer.allowed_ip);
    assert(a4.peers.last().peer.allowed_ip + p.peer.allowed_ip =~= p.peer.allowed_ip);
    assert(a5.peers.drop_last() =~= acc.peers);

    lemma_feed_remove(a5, p.remove);
    let a6 = feed(Some(a5), t6).unwrap();
    lemma_feed_concat(start, t1 + t2 + t3 + t4 + t5, t6);
    assert(a6.peers.drop_last() =~= acc.peers);

    lemma_feed_update_only(a6, p.update_only);
    let a7 = feed(Some(a6), t7).unwrap();
    lemma_feed_concat(start, t1 + t2 + t3 + t4 + t5 + t6, t7);
    assert(a7.peers.drop_last() =~= acc.peers);

    lemma_feed_replace_ips(a7, p.replace_allowed_ips);
    let a8 = feed(Some(a7), t8).unwrap();
    lemma_feed_concat(start, t1 + t2 + t3 + t4 + t5 + t6 + t7, t8);
    assert(a8.peers.drop_last() =~= acc.peers);

    assert(a8.peers.last().peer =~= p.peer);
    assert(a8.peers.last() =~= p);
    assert(a8.peers =~= acc.peers.push(p));
    assert(block_text(p) == t1 + t2 + t3 + t4 + t5 + t6 + t7 + t8);
}

proof fn lemma_feed_blocks(acc: SetRequestView, peers: Seq<SetPeerView>, n: int)
    requires
        0 <= n <= peers.len(),
        forall|i: int| 0 <= i < peers.len() ==> block_writable(#[trigger] peers[i]),
    ensures
        tidy(peer_blocks_text(peers, n)),
        feed(Some(acc), peer_blocks_text(peers, n)) == Some(
            SetRequestView { peers: acc.peers + peers.take(n), ..acc },
        ),
    decreases n,
{
    if n == 0 {
        lemma_feed_nothing(Some(acc));
        assert(acc.peers + peers.take(0) =~= acc.peers);
    } else {
        lemma_feed_blocks(acc, peers, n - 1);
        let before = SetRequestView { peers: acc.peers + peers.take(n - 1), ..acc };
        lemma_feed_block(before, peers[n - 1]);
        lemma_feed_concat(Some(acc), peer_blocks_text(peers, n - 1), block_text(peers[n - 1]));
        assert((acc.peers + peers.take(n - 1)).push(peers[n - 1]) =~= acc.peers + peers.take(n));
    }
}

#[verifier::rlimit(40)]
proof fn lemma_feed_device(set: SetRequestView)
    requires
        set.protocol_version is None || set.protocol_version == Some(1u32),
    ensures
        tidy(device_text(set)),
        feed(Some(empty_set()), device_text(set)) == Some(
            SetRequestView { peers: Seq::empty(), ..set },
        ),
{
    lemma_device_words();
    let start = Some(empty_set());
    let t1 = key_line("private_key".spec_bytes(), set.private_key);
    let t2 = number_line(
        "listen_port".spec_bytes(),
        match set.listen_port {
            Some(p) => Some(p as nat),
            None => None,
        },
    );
    let t3 = number_line(
        "fwmark".spec_bytes(),
        match set.fwmark {
            Some(m) => Some(m as nat),
            None => None,
        },
    );
    let t4 = flag_line("replace_peers".spec_bytes(), set.replace_peers);
    let t5 = number_line(
        "protocol_version".spec_bytes(),
        match set.protocol_version {
            Some(v) => Some(v as nat),
            None => None,
        },
    );
    let a0 = empty_set();
    let a1 = SetRequestView { private_key: set.private_key, ..a0 };
    match set.private_key {
        Some(k) => {
            lemma_key_text_bytes(k.0@);
            lemma_feed_line(a0, "private_key".spec_bytes(), key_text(k.0@));
            lemma_take_private_key(a0, k);
        },
        None => {
            lemma_feed_nothing(start);
        },
    }
    assert(feed(start, t1) == Some(a1));
    let a2 = SetRequestView { listen_port: set.listen_port, ..a1 };
    match set.listen_port {
        Some(port) => {
            lemma_decimal_text_bytes(port as nat);
            lemma_feed_line(a1, "listen_port".spec_bytes(), decimal_text(port as nat));
            lemma_take_listen_port(a1, port);
        },
        None => {
            lemma_feed_nothing(Some(a1));
        },
    }
    lemma_feed_concat(start, t1, t2);
    let a3 = SetRequestView { fwmark: set.fwmark, ..a2 };
    match set.fwmark {
        Some(mark) => {
            lemma_decimal_text_bytes(mark as nat);
            lemma_feed_line(a2, "fwmark".spec_bytes(), decimal_text(mark as nat));
            lemma_take_fwmark(a2, mark);
        },
        None => {
            lemma_feed_nothing(Some(a2));
        },
    }
    lemma_feed_concat(start, t1 + t2, t3);
    let a4 = SetRequestView { replace_peers: set.replace_peers, ..a3 };
    if set.replace_peers {
        lemma_feed_line(a3, "replace_peers".spec_bytes(), "true".spec_bytes());
        lemma_take_replace_peers(a3);
    } else {
        lemma_feed_nothing(Some(a3));
    }
    lemma_feed_concat(start, t1 + t2 + t3, t4);
    let a5 = SetRequestView { protocol_version: set.protocol_version, ..a4 };
    match set.protocol_version {
        Some(v) => {
            lemma_decimal_text_bytes(1);
            lemma_feed_line(a4, "protocol_version".spec_bytes(), decimal_text(1));
            lemma_take_protocol_version(a4);
        },
        None => {
            lemma_feed_nothing(Some(a4));
        },
    }
    lemma_feed_concat(start, t1 + t2 + t3 + t4, t5);
    assert(device_text(set) == t1 + t2 + t3 + t4 + t5);
    assert(a5 =~= SetRequestView { peers: Seq::empty(), ..set });
}

/// A text of whole lines with the line end of an empty line behind it is
/// complete, and without it is not; the lines before the empty line are the
/// lines of the text.
proof fn lemma_framing(body: Seq<u8>)
    requires
        tidy(body),
        body.len() > 0,
    ensures
        is_complete(body.push(LF)),
        !is_complete(body),
        split_seq(body.push(LF), LF).take(split_seq(body.push(LF), LF).len() - 2) == lines(body),
{
    let text = body.push(LF);
    lemma_split_nonempty(body, LF);
    assert(text.drop_last() =~= body);
    let ls = split_seq(text, LF);
    assert(ls == split_seq(body, LF).push(Seq::empty()));
    assert(ls.take(ls.len() - 2) =~= lines(body));
}

proof fn lemma_get_round_trip()
    ensures
        request_value(request_text(RequestView::Get)) == Ok::<RequestView, ParseError>(
            RequestView::Get,
        ),
        request_value(request_text(RequestView::Get).drop_last()) == Err::<
            RequestView,
            ParseError,
        >(ParseError::Incomplete),
{
    lemma_command_words();
    let first = "get=1".spec_bytes();
    let body = first.push(LF);
    lemma_lines_of_line(first);
    lemma_framing(body);
    assert(request_text(RequestView::Get).drop_last() =~= body);
}

/// The lines of a `set` request between the command and the empty line
/// are read back as the request.
#[verifier::rlimit(40)]
proof fn lemma_set_lines_round_trip(set: SetRequestView)
    requires
        writable(RequestView::Change(set)),
    ensures
        tidy(device_text(set) + peer_blocks_text(set.peers, set.peers.len() as int)),
        fold_lines(
            empty_set(),
            lines(device_text(set) + peer_blocks_text(set.peers, set.peers.len() as int)),
        ) == Some(set),
{
    lemma_feed_device(set);
    let dev = SetRequestView { peers: Seq::empty(), ..set };
    lemma_feed_blocks(dev, set.peers, set.peers.len() as int);
    lemma_feed_concat(
        Some(empty_set()),
        device_text(set),
        peer_blocks_text(set.peers, set.peers.len() as int),
    );
    assert(set.peers.take(set.peers.len() as int) =~= set.peers);
    assert(dev.peers + set.peers =~= set.peers);
}

#[verifier::rlimit(40)]
proof fn lemma_set_round_trip(set: SetRequestView)
    requires
        writable(RequestView::Change(set)),
    ensures
        request_value(request_text(RequestView::Change(set))) == Ok::<RequestView, ParseError>(
            RequestView::Change(set),
        ),
        request_value(request_text(RequestView::Change(set)).drop_last()) == Err::<
            RequestView,
            ParseError,
        >(ParseError::Incomplete),
{
    lemma_command_words();
    let first = "set=1".spec_bytes();
    let head = first.push(LF);
    let rest = device_text(set) + peer_blocks_text(set.peers, set.peers.len() as int);
    let body = head + rest;
    lemma_lines_of_line(first);
    lemma_set_lines_round_trip(set);
    lemma_lines_concat(head, rest);
    lemma_framing(body);
    let text = request_text(RequestView::Change(set));
    assert(head + device_text(set) + peer_blocks_text(set.peers, set.peers.len() as int)
        =~= body);
    assert(text == body.push(LF));
    assert(text.drop_last() =~= body);
    let taken = lines(body);
    assert(taken == seq![first] + lines(rest));
    assert(taken[0] == first);
    lemma_fold_is_set_lines(empty_set(), taken, 1, taken.len() as int);
    assert(taken.subrange(1, taken.len() as int) =~= lines(rest));
}

/// Reading what was written. A request that is written as text is read back
/// as the same request; the same text without its last line end, which is
/// the empty line that ends the request, is incomplete.
pub proof fn lemma_request_round_trip(r: RequestView)
    requires
        writable(r),
    ensures
        request_value(request_text(r)) == Ok::<RequestView, ParseError>(r),
        request_value(request_text(r).drop_last()) == Err::<RequestView, ParseError>(
            ParseError::Incomplete,
        ),
{
    match r {
        RequestView::Get => {
            lemma_get_round_trip();
        },
        RequestView::Change(set) => {
            lemma_set_round_trip(set);
        },
    }
}

} // verus!
