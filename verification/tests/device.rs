use wg_device::device::{
    Device, DeviceConfig, KeyChange, KeyEntry, PeerChange, PeerError, HANDSHAKE_RATE_LIMIT,
    MAX_ITR, MAX_UDP_SIZE, RECVMSG_NUM_CHUNKS,
};
use wg_device::ip::{AllowedIP, IpAddr, SocketAddr};
use wg_device::keys::derive_public;
use wg_device::peer::{ConnectPlan, Endpoint, Peer, PeerStats, MAX_INDEX};

fn pk(n: u8) -> [u8; 32] {
    let mut k = [0u8; 32];
    k[0] = n;
    k
}

fn net(a: u8, b: u8, c: u8, d: u8, cidr: u8) -> AllowedIP {
    AllowedIP { addr: IpAddr::V4([a, b, c, d]), cidr }
}

fn at(a: u8, b: u8, c: u8, d: u8, port: u16) -> SocketAddr {
    SocketAddr { ip: IpAddr::V4([a, b, c, d]), port }
}

fn keyed_device() -> Device {
    let mut device = Device::new(DeviceConfig::default(), 1420);
    device.set_key([1u8; 32]);
    device
}

#[test]
fn default_config_is_four_threads_and_connected_sockets() {
    let config = DeviceConfig::default();
    assert_eq!(config.n_threads, 4);
    assert!(config.use_connected_socket);
    assert!(config.use_multi_queue);
    assert_eq!(config.uapi_fd, -1);
    assert_eq!(config.config_string, None);
}

#[test]
fn constants_have_their_values() {
    assert_eq!(HANDSHAKE_RATE_LIMIT, 100);
    assert_eq!(MAX_UDP_SIZE, 65535);
    assert_eq!(MAX_ITR, 100);
    assert_eq!(RECVMSG_NUM_CHUNKS, 10);
    assert_eq!(MAX_INDEX, 1 << 24);
}

#[test]
fn new_device_is_empty() {
    let device = Device::new(DeviceConfig::default(), 1420);
    assert_eq!(device.key_pair(), None);
    assert_eq!(device.rate_limiter(), None);
    assert_eq!(device.listen_port(), 0);
    assert_eq!(device.fwmark(), None);
    assert_eq!(device.udp4(), None);
    assert_eq!(device.udp6(), None);
    assert_eq!(device.mtu(), 1420);
    assert!(device.peer_keys().is_empty());
    assert!(device.connected_sockets().is_empty());
    assert!(device.has_free_index());
    assert!(device.config().use_connected_socket);
}

#[test]
fn set_key_makes_pair_and_limiter_together() {
    let mut device = Device::new(DeviceConfig::default(), 1420);
    let private = [9u8; 32];
    let public = derive_public(&private);
    match device.set_key(private) {
        KeyChange::Replaced { pair, limiter } => {
            assert_eq!(pair.private, private);
            assert_eq!(pair.public, public);
            assert_eq!(limiter.public, public);
            assert_eq!(limiter.capacity, 100);
        }
        KeyChange::Unchanged => panic!("the key is new"),
    }
    assert_eq!(device.key_pair().unwrap().public, public);
    assert_eq!(device.rate_limiter().unwrap().public, public);
    assert_eq!(device.set_key(private), KeyChange::Unchanged);
    match device.set_key([8u8; 32]) {
        KeyChange::Replaced { pair, limiter } => {
            assert_eq!(pair.public, derive_public(&[8u8; 32]));
            assert_eq!(limiter.public, pair.public);
        }
        KeyChange::Unchanged => panic!("the key is another"),
    }
    assert_eq!(device.rate_limiter().unwrap().public, derive_public(&[8u8; 32]));
}

#[test]
fn update_peer_adds_to_all_three_indices() {
    let mut device = keyed_device();
    let change = device.update_peer(
        pk(1),
        false,
        false,
        Some(at(192, 0, 2, 5, 51820)),
        &[net(10, 0, 0, 2, 32), net(10, 1, 0, 0, 16)],
        Some(25),
        Some([3u8; 32]),
    );
    assert_eq!(change, Ok(PeerChange::Added { index: 0 }));
    assert_eq!(device.peer_keys(), &vec![KeyEntry { key: pk(1), index: 0 }]);
    assert_eq!(device.peer_index(&pk(1)), Some(0));
    let by_key = device.peer_by_key(&pk(1)).unwrap();
    assert_eq!(by_key.index(), 0);
    assert_eq!(by_key.public_key(), pk(1));
    assert_eq!(by_key.persistent_keepalive(), 25);
    assert_eq!(by_key.keepalive_setting(), Some(25));
    assert_eq!(by_key.preshared_key(), Some([3u8; 32]));
    assert_eq!(by_key.endpoint(), Endpoint { addr: Some(at(192, 0, 2, 5, 51820)), conn: None });
    assert_eq!(device.peer_by_index(0).unwrap().public_key(), pk(1));
    assert_eq!(device.peer_by_ip(IpAddr::V4([10, 0, 0, 2])).unwrap().index(), 0);
    assert_eq!(device.peer_by_ip(IpAddr::V4([10, 1, 200, 7])).unwrap().index(), 0);
    assert!(device.peer_by_ip(IpAddr::V4([10, 0, 0, 3])).is_none());
    assert!(device.peer_by_index(1).is_none());
    assert!(device.peer_by_key(&pk(2)).is_none());
}

#[test]
fn update_peer_refuses_a_known_key() {
    let mut device = keyed_device();
    assert_eq!(
        device.update_peer(pk(1), false, false, None, &[net(10, 0, 0, 2, 32)], None, None),
        Ok(PeerChange::Added { index: 0 })
    );
    assert_eq!(
        device.update_peer(pk(1), false, false, None, &[net(10, 0, 0, 3, 32)], None, None),
        Err(PeerError::AlreadyExists)
    );
    assert_eq!(device.peer_keys().len(), 1);
    assert!(device.peer_by_ip(IpAddr::V4([10, 0, 0, 3])).is_none());
    assert_eq!(device.peer_by_ip(IpAddr::V4([10, 0, 0, 2])).unwrap().index(), 0);
}

#[test]
fn indices_grow_and_are_not_used_again() {
    let mut device = keyed_device();
    for n in 0..3u8 {
        assert_eq!(
            device.update_peer(pk(n), false, false, None, &[], None, None),
            Ok(PeerChange::Added { index: n as u32 })
        );
    }
    assert_eq!(device.remove_peer(&pk(1)), PeerChange::Removed { index: 1, conn: None });
    assert_eq!(
        device.update_peer(pk(1), false, false, None, &[], None, None),
        Ok(PeerChange::Added { index: 3 })
    );
    assert_eq!(
        device.peer_keys(),
        &vec![
            KeyEntry { key: pk(0), index: 0 },
            KeyEntry { key: pk(2), index: 2 },
            KeyEntry { key: pk(1), index: 3 },
        ]
    );
}

#[test]
fn remove_peer_leaves_no_trace_in_any_index() {
    let mut device = keyed_device();
    device.update_peer(pk(1), false, false, None, &[net(10, 0, 0, 2, 32)], None, None).unwrap();
    device.update_peer(pk(2), false, false, None, &[net(10, 0, 0, 3, 32)], None, None).unwrap();
    device.attach_endpoint(0, 77);
    assert_eq!(device.remove_peer(&pk(1)), PeerChange::Removed { index: 0, conn: Some(77) });
    assert_eq!(device.peer_index(&pk(1)), None);
    assert!(device.peer_by_index(0).is_none());
    assert!(device.peer_by_ip(IpAddr::V4([10, 0, 0, 2])).is_none());
    assert_eq!(device.peer_by_ip(IpAddr::V4([10, 0, 0, 3])).unwrap().index(), 1);
    assert_eq!(device.remove_peer(&pk(1)), PeerChange::Unknown);
    assert_eq!(
        device.update_peer(pk(2), true, false, None, &[], None, None),
        Ok(PeerChange::Removed { index: 1, conn: None })
    );
    assert!(device.peer_keys().is_empty());
    assert_eq!(device.remove_peer_by_index(5), PeerChange::Unknown);
}

#[test]
fn remove_peer_by_index_finds_the_key() {
    let mut device = keyed_device();
    device.update_peer(pk(1), false, false, None, &[net(10, 0, 0, 2, 32)], None, None).unwrap();
    device.update_peer(pk(2), false, false, None, &[net(10, 0, 0, 3, 32)], None, None).unwrap();
    assert_eq!(device.remove_peer_by_index(1), PeerChange::Removed { index: 1, conn: None });
    assert_eq!(device.peer_index(&pk(2)), None);
    assert_eq!(device.peer_index(&pk(1)), Some(0));
    assert!(device.peer_by_ip(IpAddr::V4([10, 0, 0, 3])).is_none());
}

#[test]
fn later_peer_takes_over_a_shared_block() {
    let mut device = keyed_device();
    device.update_peer(pk(1), false, false, None, &[net(10, 0, 0, 0, 24)], None, None).unwrap();
    device.update_peer(pk(2), false, false, None, &[net(10, 0, 0, 0, 24)], None, None).unwrap();
    assert_eq!(device.peer_by_ip(IpAddr::V4([10, 0, 0, 9])).unwrap().index(), 1);
    device.remove_peer(&pk(2));
    assert!(device.peer_by_ip(IpAddr::V4([10, 0, 0, 9])).is_none());
    assert!(device.peer_by_key(&pk(1)).unwrap().is_allowed_ip(IpAddr::V4([10, 0, 0, 9])));
}

#[test]
fn clear_peers_names_everyone_that_goes() {
    let mut device = keyed_device();
    device.update_peer(pk(1), false, false, None, &[net(10, 0, 0, 2, 32)], None, None).unwrap();
    device.update_peer(pk(2), false, false, None, &[net(10, 0, 0, 3, 32)], None, None).unwrap();
    device.attach_endpoint(1, 9);
    assert_eq!(
        device.clear_peers(),
        vec![
            PeerChange::Removed { index: 0, conn: None },
            PeerChange::Removed { index: 1, conn: Some(9) },
        ]
    );
    assert!(device.peer_keys().is_empty());
    assert!(device.peer_by_index(0).is_none());
    assert!(device.peer_by_ip(IpAddr::V4([10, 0, 0, 2])).is_none());
    assert_eq!(
        device.update_peer(pk(1), false, false, None, &[], None, None),
        Ok(PeerChange::Added { index: 2 })
    );
}

#[test]
fn open_listen_socket_releases_every_socket() {
    let mut device = keyed_device();
    device.update_peer(pk(1), false, false, Some(at(192, 0, 2, 5, 1)), &[], None, None).unwrap();
    device.update_peer(pk(2), false, false, Some(at(192, 0, 2, 6, 1)), &[], None, None).unwrap();
    let first = device.open_listen_socket(51820);
    assert_eq!(first.port, 51820);
    assert!(first.release.is_empty());
    device.listen_socket_opened(4, 6, 51820);
    device.attach_endpoint(1, 12);
    assert_eq!(device.udp4(), Some(4));
    assert_eq!(device.udp6(), Some(6));
    assert_eq!(device.listen_port(), 51820);
    assert!(!first.system_chooses());
    let again = device.open_listen_socket(0);
    assert_eq!(again.port, 0);
    assert!(again.system_chooses());
    assert_eq!(again.release, vec![4, 6, 12]);
    assert_eq!(device.udp4(), None);
    assert_eq!(device.udp6(), None);
    assert_eq!(device.listen_port(), 51820);
    assert_eq!(
        device.peer_by_index(1).unwrap().endpoint(),
        Endpoint { addr: Some(at(192, 0, 2, 6, 1)), conn: None }
    );
    device.listen_socket_opened(5, 7, 40000);
    assert_eq!(device.listen_port(), 40000);
}

#[test]
fn set_fwmark_names_every_socket() {
    let mut device = keyed_device();
    assert_eq!(device.set_fwmark(1), Vec::<i32>::new());
    device.update_peer(pk(1), false, false, None, &[], None, None).unwrap();
    device.update_peer(pk(2), false, false, None, &[], None, None).unwrap();
    device.open_listen_socket(1);
    device.listen_socket_opened(4, 6, 1);
    device.attach_endpoint(0, 20);
    device.attach_endpoint(1, 21);
    assert_eq!(device.set_fwmark(42), vec![4, 6, 20, 21]);
    assert_eq!(device.fwmark(), Some(42));
    assert_eq!(device.connected_sockets(), vec![20, 21]);
}

#[test]
fn endpoint_moves_and_gives_up_its_socket() {
    let mut device = keyed_device();
    device.update_peer(pk(1), false, false, None, &[], None, None).unwrap();
    assert_eq!(device.set_endpoint(0, at(192, 0, 2, 5, 1)), None);
    assert_eq!(device.attach_endpoint(0, 30), None);
    assert_eq!(device.set_endpoint(0, at(192, 0, 2, 5, 1)), None);
    assert_eq!(
        device.peer_by_index(0).unwrap().endpoint(),
        Endpoint { addr: Some(at(192, 0, 2, 5, 1)), conn: Some(30) }
    );
    assert_eq!(device.set_endpoint(0, at(192, 0, 2, 5, 2)), Some(30));
    assert_eq!(
        device.peer_by_index(0).unwrap().endpoint(),
        Endpoint { addr: Some(at(192, 0, 2, 5, 2)), conn: None }
    );
    assert_eq!(device.attach_endpoint(0, 31), None);
    assert_eq!(device.attach_endpoint(0, 32), Some(31));
    assert_eq!(device.shutdown_endpoint(0), Some(32));
    assert_eq!(device.shutdown_endpoint(0), None);
    assert_eq!(
        device.peer_by_index(0).unwrap().endpoint(),
        Endpoint { addr: Some(at(192, 0, 2, 5, 2)), conn: None }
    );
    assert_eq!(device.set_endpoint(9, at(1, 1, 1, 1, 1)), None);
    assert_eq!(device.attach_endpoint(9, 1), None);
    assert_eq!(device.shutdown_endpoint(9), None);
}

#[test]
fn stats_and_mtu_are_kept() {
    let mut device = keyed_device();
    device.update_peer(pk(1), false, false, None, &[], None, None).unwrap();
    let stats = PeerStats {
        last_handshake_sec: Some(3),
        last_handshake_nsec: Some(500),
        rx_bytes: 10,
        tx_bytes: 20,
    };
    device.record_stats(0, stats);
    let peer = device.peer_by_index(0).unwrap();
    assert_eq!(peer.stats(), stats);
    assert_eq!(peer.time_since_last_handshake(), Some((3, 500)));
    device.set_mtu(9000);
    assert_eq!(device.mtu(), 9000);
}

#[test]
fn peer_alone_keeps_one_connected_socket() {
    let mut peer = Peer::new(
        pk(1),
        5,
        Some(at(192, 0, 2, 5, 51820)),
        &[net(10, 0, 0, 77, 24), net(10, 0, 0, 0, 24)],
        None,
        None,
    );
    assert_eq!(peer.index(), 5);
    assert_eq!(peer.persistent_keepalive(), 0);
    assert_eq!(peer.keepalive_setting(), None);
    assert_eq!(peer.time_since_last_handshake(), None);
    assert_eq!(peer.allowed_ips(), vec![net(10, 0, 0, 0, 24)]);
    assert!(peer.is_allowed_ip(IpAddr::V4([10, 0, 0, 200])));
    assert!(!peer.is_allowed_ip(IpAddr::V4([10, 0, 1, 0])));
    assert!(!peer.is_allowed_ip(IpAddr::V6([0u8; 16])));
    let plan = peer.connect_endpoint(51820, Some(3)).unwrap();
    assert_eq!(
        plan,
        ConnectPlan { remote: at(192, 0, 2, 5, 51820), local_port: 51820, fwmark: Some(3) }
    );
    assert_eq!(peer.attach_endpoint(40), None);
    match peer.connect_endpoint(51820, None) {
        Err(wg_device::error::Error::Connect(why)) => assert_eq!(why, "Connected"),
        other => panic!("a second socket was planned: {:?}", other),
    }
    assert_eq!(peer.shutdown_endpoint(), Some(40));
    assert_eq!(peer.endpoint(), Endpoint { addr: Some(at(192, 0, 2, 5, 51820)), conn: None });
    assert!(peer.connect_endpoint(51820, None).is_ok());
}

#[test]
fn two_writings_of_one_public_key_are_one_peer() {
    let mut device = keyed_device();
    let written = pk(1);
    let mut otherwise = pk(1);
    otherwise[31] |= 0x80;
    assert_ne!(written, otherwise);
    assert_eq!(
        device.update_peer(written, false, false, None, &[net(10, 0, 0, 2, 32)], None, None),
        Ok(PeerChange::Added { index: 0 })
    );
    assert_eq!(
        device.update_peer(otherwise, false, false, None, &[], None, None),
        Err(PeerError::AlreadyExists)
    );
    assert_eq!(device.peer_index(&otherwise), Some(0));
    assert_eq!(device.peer_by_key(&otherwise).unwrap().public_key(), written);
    assert_eq!(device.peer_index(&pk(2)), None);
    assert_eq!(device.remove_peer(&otherwise), PeerChange::Removed { index: 0, conn: None });
    assert!(device.peer_keys().is_empty());
}
