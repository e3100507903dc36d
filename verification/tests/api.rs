use wg_device::api::{
    access_for, api_get, api_set, Access, Listeners, SetAction, SetEvent, SetRun, SetStage,
};
use wg_device::command::{
    GetRequest, KeyBytes, Request, Response, SetRequest, EADDRINUSE, EEXIST, EINVAL,
};
use wg_device::device::{Device, DeviceConfig, PeerChange};
use wg_device::emit::response_bytes;
use wg_device::handlers::tun_route;
use wg_device::ip::{AllowedIP, IpAddr, SocketAddr};
use wg_device::keys::derive_public;
use wg_device::parse::parse_request;

const PEER_A: &str = "aa000000000000000000000000000000000000000000000000000000000000bb";
const PEER_B: &str = "cc000000000000000000000000000000000000000000000000000000000000dd";
const ZEROS: &str = "0000000000000000000000000000000000000000000000000000000000000000";

fn peer_a() -> [u8; 32] {
    let mut k = [0u8; 32];
    k[0] = 0xaa;
    k[31] = 0xbb;
    k
}

fn peer_b() -> [u8; 32] {
    let mut k = [0u8; 32];
    k[0] = 0xcc;
    k[31] = 0xdd;
    k
}

/// What the world around the device answers in a test.
struct World {
    rejected: Vec<u32>,
    bind_ok: bool,
    mark_ok: bool,
    next_fd: i32,
    seen: Vec<String>,
}

fn calm() -> World {
    World { rejected: vec![], bind_ok: true, mark_ok: true, next_fd: 100, seen: vec![] }
}

fn set_of(text: &str) -> SetRequest {
    match parse_request(text.as_bytes()) {
        Ok(Request::Change(set)) => set,
        other => panic!("not a set request: {:?}", other),
    }
}

fn drive(device: &mut Device, request: SetRequest, world: &mut World) -> (i32, Vec<PeerChange>) {
    let mut run = SetRun::new(request);
    let mut changes = vec![];
    let mut event = SetEvent::Begin;
    loop {
        let step = api_set(&mut run, device, event);
        changes.extend(step.changes.iter().copied());
        event = match step.action {
            SetAction::Rekey { pair, limiter } => {
                assert_eq!(run.stage(), SetStage::Rekey);
                assert_eq!(pair.public, limiter.public);
                world.seen.push("rekey".to_string());
                SetEvent::Rekeyed(world.rejected.clone())
            }
            SetAction::Bind(plan) => {
                assert_eq!(run.stage(), SetStage::Bind);
                world.seen.push(format!("bind {} release {:?}", plan.port, plan.release));
                if world.bind_ok {
                    let udp4 = world.next_fd;
                    let udp6 = world.next_fd + 1;
                    world.next_fd += 2;
                    let port = if plan.port == 0 { 40000 } else { plan.port };
                    SetEvent::Bound(Some(Listeners { udp4, udp6, port }))
                } else {
                    SetEvent::Bound(None)
                }
            }
            SetAction::Mark { mark, sockets } => {
                assert_eq!(run.stage(), SetStage::Mark);
                world.seen.push(format!("mark {} on {:?}", mark, sockets));
                SetEvent::Marked(world.mark_ok)
            }
            SetAction::Done(response) => {
                assert_eq!(run.stage(), SetStage::Finished);
                return (response.errno, changes);
            }
        };
    }
}

fn shown(device: &Device) -> String {
    String::from_utf8(response_bytes(&Response::Get(api_get(GetRequest, device)))).unwrap()
}

fn bring_up() -> Device {
    let mut device = Device::new(DeviceConfig::default(), 1420);
    let text = format!(
        "set=1\nprivate_key={}\nlisten_port=51820\npublic_key={}\nallowed_ip=10.0.0.2/32\nendpoint=192.0.2.5:51820\n\n",
        ZEROS, PEER_A
    );
    let (errno, changes) = drive(&mut device, set_of(&text), &mut calm());
    assert_eq!(errno, 0);
    assert_eq!(changes, vec![PeerChange::Added { index: 0 }]);
    device
}

#[test]
fn fresh_bring_up() {
    let device = bring_up();
    let response = api_get(GetRequest, &device);
    assert_eq!(response.errno, 0);
    assert_eq!(response.private_key, Some(KeyBytes([0u8; 32])));
    assert_eq!(response.listen_port, Some(51820));
    assert_eq!(response.fwmark, None);
    assert_eq!(response.peers.len(), 1);
    let peer = &response.peers[0];
    assert_eq!(peer.peer.public_key, KeyBytes(peer_a()));
    assert_eq!(peer.peer.preshared_key, None);
    assert_eq!(
        peer.peer.endpoint,
        Some(SocketAddr { ip: IpAddr::V4([192, 0, 2, 5]), port: 51820 })
    );
    assert_eq!(peer.peer.persistent_keepalive_interval, Some(0));
    assert_eq!(peer.peer.allowed_ip, vec![AllowedIP { addr: IpAddr::V4([10, 0, 0, 2]), cidr: 32 }]);
    assert_eq!(peer.rx_bytes, Some(0));
    assert_eq!(peer.tx_bytes, Some(0));
    assert_eq!(peer.last_handshake_time_sec, None);
    let text = shown(&device);
    assert!(text.contains("listen_port=51820\n"));
    assert!(text.contains(&format!("public_key={}\n", PEER_A)));
    assert!(text.contains("allowed_ip=10.0.0.2/32\n"));
    assert_eq!(text.matches("public_key=").count(), 1);
    assert!(text.ends_with("errno=0\n\n"));
    assert_eq!(device.key_pair().unwrap().public, derive_public(&[0u8; 32]));
    assert_eq!(tun_route(&device, Some(IpAddr::V4([10, 0, 0, 2]))), Some(0));
}

#[test]
fn bring_up_goes_through_every_step_in_order() {
    let mut device = Device::new(DeviceConfig::default(), 1420);
    let mut world = calm();
    let text = format!(
        "set=1\nprivate_key={}\nlisten_port=51820\nfwmark=5\npublic_key={}\nallowed_ip=10.0.0.2/32\n\n",
        ZEROS, PEER_A
    );
    let (errno, _) = drive(&mut device, set_of(&text), &mut world);
    assert_eq!(errno, 0);
    assert_eq!(
        world.seen,
        vec![
            "rekey".to_string(),
            "bind 51820 release []".to_string(),
            "mark 5 on [100, 101]".to_string(),
        ]
    );
    assert_eq!(device.udp4(), Some(100));
    assert_eq!(device.udp6(), Some(101));
    assert_eq!(device.fwmark(), Some(5));
}

#[test]
fn duplicate_add_rejected() {
    let mut device = bring_up();
    let text = format!(
        "set=1\nprivate_key={}\nlisten_port=51820\npublic_key={}\nallowed_ip=10.0.0.2/32\nendpoint=192.0.2.5:51820\n\n",
        ZEROS, PEER_A
    );
    let mut world = calm();
    let (errno, changes) = drive(&mut device, set_of(&text), &mut world);
    assert_ne!(errno, 0);
    assert_eq!(errno, EEXIST);
    assert!(changes.is_empty());
    assert_eq!(world.seen, vec!["bind 51820 release [100, 101]".to_string()]);
    assert_eq!(api_get(GetRequest, &device).peers.len(), 1);
}

#[test]
fn remove_peer_by_request() {
    let mut device = bring_up();
    let text = format!("set=1\npublic_key={}\nremove=true\n\n", PEER_A);
    let (errno, changes) = drive(&mut device, set_of(&text), &mut calm());
    assert_eq!(errno, 0);
    assert_eq!(changes, vec![PeerChange::Removed { index: 0, conn: None }]);
    assert!(api_get(GetRequest, &device).peers.is_empty());
    assert!(!shown(&device).contains("public_key="));
    assert_eq!(tun_route(&device, Some(IpAddr::V4([10, 0, 0, 2]))), None);
    assert!(device.peer_by_ip(IpAddr::V4([10, 0, 0, 2])).is_none());
}

#[test]
fn replace_all_peers() {
    let mut device = bring_up();
    let text = format!("set=1\nreplace_peers=true\npublic_key={}\nallowed_ip=10.0.0.3/32\n\n", PEER_B);
    let (errno, changes) = drive(&mut device, set_of(&text), &mut calm());
    assert_eq!(errno, 0);
    assert_eq!(
        changes,
        vec![PeerChange::Removed { index: 0, conn: None }, PeerChange::Added { index: 1 }]
    );
    let response = api_get(GetRequest, &device);
    assert_eq!(response.peers.len(), 1);
    assert_eq!(response.peers[0].peer.public_key, KeyBytes(peer_b()));
    assert_eq!(tun_route(&device, Some(IpAddr::V4([10, 0, 0, 2]))), None);
    assert_eq!(tun_route(&device, Some(IpAddr::V4([10, 0, 0, 3]))), Some(1));
}

#[test]
fn port_in_use() {
    let mut device = Device::new(DeviceConfig::default(), 1420);
    let mut world = calm();
    world.bind_ok = false;
    let (errno, changes) = drive(&mut device, set_of("set=1\nlisten_port=51820\n\n"), &mut world);
    assert_eq!(errno, EADDRINUSE);
    assert!(changes.is_empty());
    assert_eq!(device.listen_port(), 0);
    assert_eq!(device.udp4(), None);
    assert_eq!(device.udp6(), None);
    assert_eq!(device.key_pair(), None);
    assert!(device.peer_keys().is_empty());
    assert_eq!(shown(&device), "listen_port=0\nerrno=0\n\n");
}

#[test]
fn refused_mark_ends_the_request() {
    let mut device = Device::new(DeviceConfig::default(), 1420);
    let mut world = calm();
    world.mark_ok = false;
    let text = format!("set=1\nprivate_key={}\nfwmark=9\npublic_key={}\n\n", ZEROS, PEER_A);
    let (errno, changes) = drive(&mut device, set_of(&text), &mut world);
    assert_eq!(errno, EADDRINUSE);
    assert!(changes.is_empty());
    assert_eq!(device.fwmark(), Some(9));
    assert!(device.peer_keys().is_empty());
}

#[test]
fn peer_without_device_key_is_refused() {
    let mut device = Device::new(DeviceConfig::default(), 1420);
    let text = format!("set=1\npublic_key={}\nallowed_ip=10.0.0.2/32\n\n", PEER_A);
    let (errno, changes) = drive(&mut device, set_of(&text), &mut calm());
    assert_eq!(errno, EINVAL);
    assert!(changes.is_empty());
    assert!(device.peer_keys().is_empty());
}

#[test]
fn update_only_passes_over_unknown_peers() {
    let mut device = bring_up();
    let text = format!("set=1\npublic_key={}\nupdate_only=true\nallowed_ip=10.9.0.0/16\n\n", PEER_B);
    let (errno, changes) = drive(&mut device, set_of(&text), &mut calm());
    assert_eq!(errno, 0);
    assert!(changes.is_empty());
    assert_eq!(device.peer_keys().len(), 1);
    let text = format!("set=1\npublic_key={}\nupdate_only=true\n\n", PEER_A);
    let (errno, _) = drive(&mut device, set_of(&text), &mut calm());
    assert_eq!(errno, EEXIST);
}

#[test]
fn first_refused_block_stops_the_rest() {
    let mut device = bring_up();
    let text = format!(
        "set=1\npublic_key={}\nallowed_ip=10.0.0.3/32\npublic_key={}\npublic_key={}\nremove=true\n\n",
        PEER_B, PEER_A, PEER_B
    );
    let (errno, changes) = drive(&mut device, set_of(&text), &mut calm());
    assert_eq!(errno, EEXIST);
    assert_eq!(changes, vec![PeerChange::Added { index: 1 }]);
    assert_eq!(device.peer_keys().len(), 2);
}

#[test]
fn tunnels_that_refuse_the_key_cost_their_peers() {
    let mut device = bring_up();
    let text = format!("set=1\npublic_key={}\nallowed_ip=10.0.0.3/32\n\n", PEER_B);
    assert_eq!(drive(&mut device, set_of(&text), &mut calm()).0, 0);
    device.attach_endpoint(0, 55);
    let mut world = calm();
    world.rejected = vec![0, 7];
    let text = format!("set=1\nprivate_key={}\n\n", PEER_A);
    let (errno, changes) = drive(&mut device, set_of(&text), &mut world);
    assert_eq!(errno, 0);
    assert_eq!(changes, vec![PeerChange::Removed { index: 0, conn: Some(55) }]);
    assert_eq!(device.peer_index(&peer_a()), None);
    assert_eq!(device.peer_index(&peer_b()), Some(1));
    assert_eq!(device.key_pair().unwrap().private, peer_a());
    assert_eq!(device.rate_limiter().unwrap().public, derive_public(&peer_a()));
}

#[test]
fn same_key_again_asks_for_nothing() {
    let mut device = bring_up();
    let mut world = calm();
    let text = format!("set=1\nprivate_key={}\n\n", ZEROS);
    assert_eq!(drive(&mut device, set_of(&text), &mut world).0, 0);
    assert!(world.seen.is_empty());
}

#[test]
fn report_out_of_turn_ends_the_request() {
    let mut device = Device::new(DeviceConfig::default(), 1420);
    let mut run = SetRun::new(set_of("set=1\nlisten_port=1\n\n"));
    let step = api_set(&mut run, &mut device, SetEvent::Marked(true));
    assert_eq!(step.action, SetAction::Done(wg_device::command::SetResponse { errno: EINVAL }));
    assert_eq!(run.stage(), SetStage::Finished);
    let step = api_set(&mut run, &mut device, SetEvent::Begin);
    assert_eq!(step.action, SetAction::Done(wg_device::command::SetResponse { errno: EINVAL }));
}

#[test]
fn what_get_shows_sets_up_the_same_device() {
    let mut device = bring_up();
    let text = format!(
        "set=1\nfwmark=77\npublic_key={}\nendpoint=[fd00::9]:7\npersistent_keepalive_interval=25\nallowed_ip=10.0.0.3/32\nallowed_ip=fd00::/64\n\n",
        PEER_B
    );
    assert_eq!(drive(&mut device, set_of(&text), &mut calm()).0, 0);
    let first = shown(&device);
    let mut again = "set=1\nreplace_peers=true\n".to_string();
    for line in first.lines() {
        let status = ["rx_bytes=", "tx_bytes=", "last_handshake_time_", "errno="];
        if !line.is_empty() && !status.iter().any(|key| line.starts_with(key)) {
            again.push_str(line);
            again.push('\n');
        }
    }
    again.push('\n');
    let mut copy = Device::new(DeviceConfig::default(), 1420);
    assert_eq!(drive(&mut copy, set_of(&again), &mut calm()).0, 0);
    assert_eq!(shown(&copy), first);
}

#[test]
fn get_reads_and_set_writes() {
    assert_eq!(access_for(&Request::Get(GetRequest)), Access::Read);
    assert_eq!(access_for(&Request::Change(set_of("set=1\n\n"))), Access::Write);
}
