use wg_device::command::{
    GetPeer, GetRequest, GetResponse, KeyBytes, PeerConfig, Request, Response, SetPeer,
    SetRequest, SetResponse, SetUnset, EADDRINUSE, EEXIST, EINVAL, EIO, ENOSPC,
};
use wg_device::emit::{request_bytes, response_bytes, write_config};
use wg_device::framing::Framer;
use wg_device::ip::{AllowedIP, IpAddr, SocketAddr};
use wg_device::parse::{parse_request, ParseError};

const KEY_A: &str = "aa000000000000000000000000000000000000000000000000000000000000bb";
const KEY_B: &str = "cc000000000000000000000000000000000000000000000000000000000000dd";

fn key_a() -> KeyBytes {
    let mut k = [0u8; 32];
    k[0] = 0xaa;
    k[31] = 0xbb;
    KeyBytes(k)
}

fn key_b() -> KeyBytes {
    let mut k = [0u8; 32];
    k[0] = 0xcc;
    k[31] = 0xdd;
    KeyBytes(k)
}

fn no_set() -> SetRequest {
    SetRequest {
        private_key: None,
        listen_port: None,
        fwmark: None,
        replace_peers: false,
        protocol_version: None,
        peers: vec![],
    }
}

fn block(key: KeyBytes) -> SetPeer {
    SetPeer {
        peer: PeerConfig {
            public_key: key,
            preshared_key: None,
            endpoint: None,
            persistent_keepalive_interval: None,
            allowed_ip: vec![],
        },
        remove: false,
        update_only: false,
        replace_allowed_ips: false,
    }
}

#[test]
fn get_request_is_read() {
    assert_eq!(parse_request(b"get=1\n\n"), Ok(Request::Get(GetRequest)));
}

#[test]
fn get_request_with_more_lines_is_invalid() {
    assert_eq!(parse_request(b"get=1\nlisten_port=1\n\n"), Err(ParseError::Invalid));
}

#[test]
fn unknown_command_is_told_apart() {
    assert_eq!(parse_request(b"put=1\n\n"), Err(ParseError::UnknownCommand));
    assert_eq!(parse_request(b"get=2\n\n"), Err(ParseError::UnknownCommand));
    assert_eq!(parse_request(b"\n"), Err(ParseError::UnknownCommand));
    assert_eq!(parse_request(b"\n\n"), Err(ParseError::UnknownCommand));
    assert_eq!(ParseError::UnknownCommand.errno(), EIO);
}

#[test]
fn request_without_empty_line_is_incomplete() {
    assert_eq!(parse_request(b""), Err(ParseError::Incomplete));
    assert_eq!(parse_request(b"get=1"), Err(ParseError::Incomplete));
    assert_eq!(parse_request(b"get=1\n"), Err(ParseError::Incomplete));
    assert_eq!(parse_request(b"set=1\nlisten_port=51820\n"), Err(ParseError::Incomplete));
    assert_eq!(ParseError::Incomplete.errno(), EINVAL);
}

#[test]
fn request_with_the_terminator_added_succeeds() {
    let body = b"set=1\nlisten_port=51820\n".to_vec();
    assert_eq!(parse_request(&body), Err(ParseError::Incomplete));
    let mut whole = body.clone();
    whole.push(b'\n');
    let mut expected = no_set();
    expected.listen_port = Some(51820);
    assert_eq!(parse_request(&whole), Ok(Request::Change(expected)));
}

#[test]
fn empty_set_request_sets_nothing() {
    assert_eq!(parse_request(b"set=1\n\n"), Ok(Request::Change(no_set())));
}

#[test]
fn device_keys_are_read() {
    let text = format!(
        "set=1\nprivate_key={}\nlisten_port=51820\nfwmark=42\nreplace_peers=true\nprotocol_version=1\n\n",
        KEY_A
    );
    let expected = SetRequest {
        private_key: Some(key_a()),
        listen_port: Some(51820),
        fwmark: Some(42),
        replace_peers: true,
        protocol_version: Some(1),
        peers: vec![],
    };
    assert_eq!(parse_request(text.as_bytes()), Ok(Request::Change(expected)));
}

#[test]
fn peer_blocks_are_read_in_order() {
    let text = format!(
        "set=1\npublic_key={}\npreshared_key={}\nendpoint=192.0.2.5:51820\npersistent_keepalive_interval=25\nreplace_allowed_ips=true\nallowed_ip=10.0.0.2/32\nallowed_ip=fd00::/64\npublic_key={}\nremove=true\nupdate_only=true\npreshared_key=\n\n",
        KEY_A, KEY_B, KEY_B
    );
    let mut six = [0u8; 16];
    six[0] = 0xfd;
    let first = SetPeer {
        peer: PeerConfig {
            public_key: key_a(),
            preshared_key: Some(SetUnset::Value(key_b())),
            endpoint: Some(SocketAddr { ip: IpAddr::V4([192, 0, 2, 5]), port: 51820 }),
            persistent_keepalive_interval: Some(25),
            allowed_ip: vec![
                AllowedIP { addr: IpAddr::V4([10, 0, 0, 2]), cidr: 32 },
                AllowedIP { addr: IpAddr::V6(six), cidr: 64 },
            ],
        },
        remove: false,
        update_only: false,
        replace_allowed_ips: true,
    };
    let mut second = block(key_b());
    second.remove = true;
    second.update_only = true;
    second.peer.preshared_key = Some(SetUnset::Unset);
    let mut expected = no_set();
    expected.peers = vec![first, second];
    assert_eq!(parse_request(text.as_bytes()), Ok(Request::Change(expected)));
}

#[test]
fn later_line_of_a_key_wins() {
    let mut expected = no_set();
    expected.listen_port = Some(2);
    assert_eq!(
        parse_request(b"set=1\nlisten_port=1\nlisten_port=2\n\n"),
        Ok(Request::Change(expected))
    );
}

#[test]
fn malformed_lines_are_invalid() {
    let cases: Vec<String> = vec![
        "set=1\nlisten_port\n\n".to_string(),
        "set=1\nlisten_port=65536\n\n".to_string(),
        "set=1\nlisten_port=\n\n".to_string(),
        "set=1\nfwmark=4294967296\n\n".to_string(),
        "set=1\nprivate_key=abcd\n\n".to_string(),
        "set=1\nreplace_peers=yes\n\n".to_string(),
        "set=1\nprotocol_version=2\n\n".to_string(),
        "set=1\nunknown_key=1\n\n".to_string(),
        "set=1\nLISTEN_PORT=1\n\n".to_string(),
        "set=1\nremove=true\n\n".to_string(),
        "set=1\nallowed_ip=10.0.0.0/8\n\n".to_string(),
        format!("set=1\npublic_key={}\nlisten_port=1\n\n", KEY_A),
        format!("set=1\npublic_key={}\nallowed_ip=10.0.0.0/33\n\n", KEY_A),
        format!("set=1\npublic_key={}\nallowed_ip=10.0.0.0\n\n", KEY_A),
        format!("set=1\npublic_key={}\nendpoint=192.0.2.5\n\n", KEY_A),
        format!("set=1\npublic_key={}\npersistent_keepalive_interval=70000\n\n", KEY_A),
        format!("set=1\npublic_key={}\nremove=1\n\n", KEY_A),
        "set=1\n\nlisten_port=1\n\n".to_string(),
        "set=1\npublic_key=\n\n".to_string(),
    ];
    for text in cases {
        assert_eq!(parse_request(text.as_bytes()), Err(ParseError::Invalid), "{:?}", text);
    }
    assert_eq!(ParseError::Invalid.errno(), EINVAL);
}

#[test]
fn error_numbers_are_those_of_the_system() {
    assert_eq!(EIO, libc::EIO);
    assert_eq!(EEXIST, libc::EEXIST);
    assert_eq!(EINVAL, libc::EINVAL);
    assert_eq!(ENOSPC, libc::ENOSPC);
    assert_eq!(EADDRINUSE, libc::EADDRINUSE);
}

#[test]
fn set_response_is_an_error_number_and_an_empty_line() {
    assert_eq!(response_bytes(&Response::Change(SetResponse { errno: 0 })), b"errno=0\n\n".to_vec());
    assert_eq!(
        response_bytes(&Response::Change(SetResponse { errno: EADDRINUSE })),
        b"errno=98\n\n".to_vec()
    );
    assert_eq!(
        response_bytes(&Response::Change(SetResponse { errno: -22 })),
        b"errno=-22\n\n".to_vec()
    );
    assert_eq!(
        response_bytes(&Response::Change(SetResponse { errno: i32::MIN })),
        b"errno=-2147483648\n\n".to_vec()
    );
}

#[test]
fn get_response_of_an_empty_device() {
    let response = GetResponse {
        private_key: None,
        listen_port: Some(0),
        fwmark: None,
        peers: vec![],
        errno: 0,
    };
    assert_eq!(response_bytes(&Response::Get(response)), b"listen_port=0\nerrno=0\n\n".to_vec());
}

#[test]
fn get_response_lists_every_key_in_order() {
    let peer = GetPeer {
        peer: PeerConfig {
            public_key: key_b(),
            preshared_key: Some(SetUnset::Value(key_a())),
            endpoint: Some(SocketAddr { ip: IpAddr::V4([192, 0, 2, 5]), port: 51820 }),
            persistent_keepalive_interval: Some(25),
            allowed_ip: vec![
                AllowedIP { addr: IpAddr::V4([10, 0, 0, 2]), cidr: 32 },
                AllowedIP { addr: IpAddr::V4([10, 1, 0, 0]), cidr: 16 },
            ],
        },
        last_handshake_time_sec: Some(12),
        last_handshake_time_nsec: Some(345),
        rx_bytes: Some(1000),
        tx_bytes: Some(2000),
    };
    let response = GetResponse {
        private_key: Some(key_a()),
        listen_port: Some(51820),
        fwmark: Some(7),
        peers: vec![peer],
        errno: 0,
    };
    let expected = format!(
        "private_key={}\nlisten_port=51820\nfwmark=7\npublic_key={}\npreshared_key={}\nendpoint=192.0.2.5:51820\npersistent_keepalive_interval=25\nallowed_ip=10.0.0.2/32\nallowed_ip=10.1.0.0/16\nlast_handshake_time_sec=12\nlast_handshake_time_nsec=345\nrx_bytes=1000\ntx_bytes=2000\nerrno=0\n\n",
        KEY_A, KEY_B, KEY_A
    );
    assert_eq!(String::from_utf8(response_bytes(&Response::Get(response))).unwrap(), expected);
}

#[test]
fn peer_configuration_written_is_read_back_as_a_block() {
    let mut six = [0u8; 16];
    six[0] = 0x20;
    six[1] = 0x01;
    let config = PeerConfig {
        public_key: key_a(),
        preshared_key: Some(SetUnset::Unset),
        endpoint: Some(SocketAddr { ip: IpAddr::V6(six), port: 9 }),
        persistent_keepalive_interval: Some(0),
        allowed_ip: vec![AllowedIP { addr: IpAddr::V6(six), cidr: 16 }],
    };
    let mut text = b"set=1\n".to_vec();
    write_config(&mut text, &config);
    text.push(b'\n');
    let mut expected = no_set();
    expected.peers = vec![SetPeer {
        peer: config,
        remove: false,
        update_only: false,
        replace_allowed_ips: false,
    }];
    assert_eq!(parse_request(&text), Ok(Request::Change(expected)));
}

#[test]
fn framer_hands_out_a_request_at_the_empty_line() {
    let mut framer = Framer::new();
    assert_eq!(framer.on_line(b"get=1"), None);
    assert_eq!(framer.on_line(b""), Some(Ok(Request::Get(GetRequest))));
    assert_eq!(framer.on_line(b""), None);
    assert_eq!(framer.on_line(b"set=1"), None);
    assert_eq!(framer.on_line(b"fwmark=3"), None);
    let mut expected = no_set();
    expected.fwmark = Some(3);
    assert_eq!(framer.on_line(b""), Some(Ok(Request::Change(expected))));
    assert_eq!(framer.on_end(), None);
}

#[test]
fn framer_starts_anew_after_each_request() {
    let mut framer = Framer::new();
    assert_eq!(framer.on_line(b"bogus"), None);
    assert_eq!(framer.on_line(b""), Some(Err(ParseError::UnknownCommand)));
    assert_eq!(framer.on_line(b"get=1"), None);
    assert_eq!(framer.on_line(b""), Some(Ok(Request::Get(GetRequest))));
}

#[test]
fn framer_reports_a_request_cut_short() {
    let mut framer = Framer::new();
    assert_eq!(framer.on_end(), None);
    assert_eq!(framer.on_line(b"set=1"), None);
    assert_eq!(framer.on_end(), Some(ParseError::Incomplete));
    assert_eq!(framer.on_end(), None);
}

#[test]
fn framer_passes_over_empty_lines_between_requests() {
    let mut framer = Framer::new();
    assert_eq!(framer.on_line(b""), None);
    assert_eq!(framer.on_line(b""), None);
    assert_eq!(framer.on_line(b"get=1"), None);
    assert_eq!(framer.on_line(b""), Some(Ok(Request::Get(GetRequest))));
}

#[test]
fn get_request_is_written_with_its_empty_line() {
    assert_eq!(request_bytes(&Request::Get(GetRequest)), b"get=1\n\n".to_vec());
}

#[test]
fn set_request_is_written_key_by_key() {
    let mut second = block(key_b());
    second.remove = true;
    second.update_only = true;
    second.replace_allowed_ips = true;
    second.peer.preshared_key = Some(SetUnset::Unset);
    let mut first = block(key_a());
    first.peer.preshared_key = Some(SetUnset::Value(key_b()));
    first.peer.endpoint = Some(SocketAddr { ip: IpAddr::V4([192, 0, 2, 5]), port: 51820 });
    first.peer.persistent_keepalive_interval = Some(25);
    first.peer.allowed_ip = vec![AllowedIP { addr: IpAddr::V4([10, 0, 0, 2]), cidr: 32 }];
    let request = Request::Change(SetRequest {
        private_key: Some(key_a()),
        listen_port: Some(51820),
        fwmark: Some(0),
        replace_peers: true,
        protocol_version: Some(1),
        peers: vec![first, second],
    });
    let expected = format!(
        "set=1\nprivate_key={}\nlisten_port=51820\nfwmark=0\nreplace_peers=true\nprotocol_version=1\npublic_key={}\npreshared_key={}\nendpoint=192.0.2.5:51820\npersistent_keepalive_interval=25\nallowed_ip=10.0.0.2/32\npublic_key={}\npreshared_key=\nremove=true\nupdate_only=true\nreplace_allowed_ips=true\n\n",
        KEY_A, KEY_A, KEY_B, KEY_B
    );
    assert_eq!(String::from_utf8(request_bytes(&request)).unwrap(), expected);
    assert_eq!(parse_request(&request_bytes(&request)), Ok(request));
}

#[test]
fn requests_written_are_read_back() {
    let mut six = [0u8; 16];
    six[0] = 0xfd;
    six[15] = 9;
    let mut peer = block(key_b());
    peer.peer.endpoint = Some(SocketAddr { ip: IpAddr::V6(six), port: 1 });
    peer.peer.allowed_ip = vec![
        AllowedIP { addr: IpAddr::V6(six), cidr: 128 },
        AllowedIP { addr: IpAddr::V4([0, 0, 0, 0]), cidr: 0 },
    ];
    let mut with_peer = no_set();
    with_peer.peers = vec![block(key_a()), peer];
    for request in [Request::Get(GetRequest), Request::Change(no_set()), Request::Change(with_peer)] {
        let text = request_bytes(&request);
        assert_eq!(parse_request(&text), Ok(request));
        assert_eq!(parse_request(&text[..text.len() - 1]), Err(ParseError::Incomplete));
    }
}
