use wg_device::device::{Device, DeviceConfig};
use wg_device::event_loop::{
    after_wait, lifecycle, on_limiter_tick, on_monitor_tick, on_notice, opens_own_queue,
    receive_buffer_len, Lifecycle, LoopStep, Notice, WaitEvent, MONITOR_TICK_MS,
    RATE_LIMITER_RESET_MS, TIMERS_TICK_MS,
};
use wg_device::handlers::{
    may_handle_more, on_read_failure, timer_peers, timer_step, tun_egress, tun_route,
    tunnel_output, udp_deliver, udp_dispatch, udp_identified, Action, Delivery, Dispatch, Egress,
    Output, PacketKind, ReadFailure, TimerStep, TunnResult, TunnelError, Verdict,
};
use wg_device::ip::{AllowedIP, IpAddr, SocketAddr};
use wg_device::lock::{LockState, UpgradeError};
use wg_device::peer::ConnectPlan;

fn key(n: u8) -> [u8; 32] {
    let mut k = [0u8; 32];
    k[5] = n;
    k
}

fn v4(a: u8, b: u8, c: u8, d: u8, port: u16) -> SocketAddr {
    SocketAddr { ip: IpAddr::V4([a, b, c, d]), port }
}

fn v6(last: u8, port: u16) -> SocketAddr {
    let mut o = [0u8; 16];
    o[0] = 0xfd;
    o[15] = last;
    SocketAddr { ip: IpAddr::V6(o), port }
}

fn device_with(connected: bool) -> Device {
    let mut config = DeviceConfig::default();
    config.use_connected_socket = connected;
    let mut device = Device::new(config, 1420);
    device.set_key([1u8; 32]);
    device.open_listen_socket(51820);
    device.listen_socket_opened(4, 6, 51820);
    device
        .update_peer(
            key(1),
            false,
            false,
            Some(v4(192, 0, 2, 5, 51820)),
            &[AllowedIP { addr: IpAddr::V4([10, 0, 0, 0]), cidr: 24 }],
            None,
            None,
        )
        .unwrap();
    device
        .update_peer(
            key(2),
            false,
            false,
            None,
            &[
                AllowedIP { addr: IpAddr::V4([10, 0, 0, 128]), cidr: 25 },
                AllowedIP { addr: IpAddr::V6([0xfd, 0, 0, 0, 0, 0, 0, 0, 0, 0, 0, 0, 0, 0, 0, 0]), cidr: 8 },
            ],
            None,
            None,
        )
        .unwrap();
    device
}

#[test]
fn cookie_and_reject_never_reach_a_tunnel() {
    let device = device_with(true);
    assert_eq!(udp_dispatch(&device, Verdict::Cookie), Dispatch::SendCookie);
    assert_eq!(udp_dispatch(&device, Verdict::Reject), Dispatch::Drop);
}

#[test]
fn packets_find_their_peer_by_the_upper_bits_of_the_receiver_index() {
    let device = device_with(true);
    assert_eq!(udp_dispatch(&device, Verdict::Packet(PacketKind::Data(0x0000_01ff))), Dispatch::Handle(1));
    assert_eq!(udp_dispatch(&device, Verdict::Packet(PacketKind::Data(0x0000_0042))), Dispatch::Handle(0));
    assert_eq!(
        udp_dispatch(&device, Verdict::Packet(PacketKind::HandshakeResponse(0x100))),
        Dispatch::Handle(1)
    );
    assert_eq!(
        udp_dispatch(&device, Verdict::Packet(PacketKind::CookieReply(0x1ff))),
        Dispatch::Handle(1)
    );
    assert_eq!(udp_dispatch(&device, Verdict::Packet(PacketKind::Data(0x200))), Dispatch::Drop);
    assert_eq!(udp_dispatch(&device, Verdict::Packet(PacketKind::Data(u32::MAX))), Dispatch::Drop);
}

#[test]
fn handshake_initiation_finds_its_peer_by_key() {
    let device = device_with(true);
    assert_eq!(udp_dispatch(&device, Verdict::Packet(PacketKind::HandshakeInit)), Dispatch::Identify);
    assert_eq!(udp_identified(&device, Some(key(2))), Dispatch::Handle(1));
    assert_eq!(udp_identified(&device, Some(key(9))), Dispatch::Drop);
    assert_eq!(udp_identified(&device, None), Dispatch::Drop);
}

#[test]
fn packet_for_the_interface_passes_only_from_an_allowed_address() {
    let device = device_with(true);
    assert_eq!(tunnel_output(&device, 0, TunnResult::WriteToTunnelV4([10, 0, 0, 7])), Output::TunnelV4);
    assert_eq!(tunnel_output(&device, 0, TunnResult::WriteToTunnelV4([10, 0, 1, 7])), Output::Nothing);
    assert_eq!(tunnel_output(&device, 1, TunnResult::WriteToTunnelV4([10, 0, 0, 7])), Output::Nothing);
    assert_eq!(tunnel_output(&device, 1, TunnResult::WriteToTunnelV4([10, 0, 0, 200])), Output::TunnelV4);
    let mut inside = [0u8; 16];
    inside[0] = 0xfd;
    inside[9] = 3;
    assert_eq!(tunnel_output(&device, 1, TunnResult::WriteToTunnelV6(inside)), Output::TunnelV6);
    assert_eq!(tunnel_output(&device, 0, TunnResult::WriteToTunnelV6(inside)), Output::Nothing);
    assert_eq!(tunnel_output(&device, 1, TunnResult::WriteToTunnelV6([0u8; 16])), Output::Nothing);
    assert_eq!(tunnel_output(&device, 0, TunnResult::WriteToNetwork), Output::Network);
    assert_eq!(tunnel_output(&device, 0, TunnResult::Done), Output::Nothing);
    assert_eq!(tunnel_output(&device, 0, TunnResult::Error(TunnelError::Other)), Output::Nothing);
    assert_eq!(tunnel_output(&device, 9, TunnResult::WriteToNetwork), Output::Nothing);
}

#[test]
fn connected_socket_promotion() {
    let mut device = device_with(true);
    let src = v4(192, 0, 2, 5, 51820);
    let delivery = udp_deliver(&mut device, 0, TunnResult::WriteToNetwork, src);
    assert_eq!(
        delivery,
        Delivery {
            output: Output::Network,
            flush: true,
            counted: true,
            closed: None,
            connect: Some(ConnectPlan { remote: src, local_port: 51820, fwmark: None }),
        }
    );
    assert_eq!(device.attach_endpoint(0, 33), None);
    assert_eq!(device.peer_by_index(0).unwrap().endpoint().conn, Some(33));
    let next = udp_deliver(&mut device, 0, TunnResult::Done, src);
    assert_eq!(
        next,
        Delivery { output: Output::Nothing, flush: false, counted: true, closed: None, connect: None }
    );
    assert_eq!(device.peer_by_index(0).unwrap().endpoint().conn, Some(33));
}

#[test]
fn peer_heard_from_elsewhere_moves_and_connects_anew() {
    let mut device = device_with(true);
    device.set_fwmark(8);
    device.attach_endpoint(0, 33);
    let src = v4(198, 51, 100, 1, 4000);
    let delivery = udp_deliver(&mut device, 0, TunnResult::WriteToTunnelV4([10, 0, 0, 1]), src);
    assert_eq!(
        delivery,
        Delivery {
            output: Output::TunnelV4,
            flush: false,
            counted: true,
            closed: Some(33),
            connect: Some(ConnectPlan { remote: src, local_port: 51820, fwmark: Some(8) }),
        }
    );
    let endpoint = device.peer_by_index(0).unwrap().endpoint();
    assert_eq!(endpoint.addr, Some(src));
    assert_eq!(endpoint.conn, None);
}

#[test]
fn refused_packet_changes_nothing() {
    let mut device = device_with(true);
    let src = v4(198, 51, 100, 1, 4000);
    let none =
        Delivery { output: Output::Nothing, flush: false, counted: false, closed: None, connect: None };
    assert_eq!(udp_deliver(&mut device, 0, TunnResult::Error(TunnelError::Other), src), none);
    assert_eq!(udp_deliver(&mut device, 1, TunnResult::Error(TunnelError::ConnectionExpired), src), none);
    assert_eq!(udp_deliver(&mut device, 9, TunnResult::Done, src), none);
    assert_eq!(device.peer_by_index(0).unwrap().endpoint().addr, Some(v4(192, 0, 2, 5, 51820)));
    assert_eq!(device.peer_by_index(1).unwrap().endpoint().addr, None);
}

#[test]
fn device_without_connected_sockets_asks_for_none() {
    let mut device = device_with(false);
    let src = v4(192, 0, 2, 5, 51820);
    let delivery = udp_deliver(&mut device, 1, TunnResult::Done, src);
    assert_eq!(delivery.connect, None);
    assert!(delivery.counted);
    assert_eq!(device.peer_by_index(1).unwrap().endpoint().addr, Some(src));
}

#[test]
fn handler_takes_on_a_hundred_packets() {
    assert!(may_handle_more(0));
    assert!(may_handle_more(99));
    assert!(!may_handle_more(100));
    assert!(!may_handle_more(usize::MAX));
}

#[test]
fn packet_from_the_interface_goes_to_the_longest_block() {
    let device = device_with(true);
    assert_eq!(tun_route(&device, Some(IpAddr::V4([10, 0, 0, 5]))), Some(0));
    assert_eq!(tun_route(&device, Some(IpAddr::V4([10, 0, 0, 130]))), Some(1));
    assert_eq!(tun_route(&device, Some(IpAddr::V4([10, 0, 1, 1]))), None);
    assert_eq!(tun_route(&device, Some(v6(1, 0).ip)), Some(1));
    assert_eq!(tun_route(&device, Some(IpAddr::V6([0u8; 16]))), None);
    assert_eq!(tun_route(&device, None), None);
}

#[test]
fn packet_leaves_by_the_connected_socket_first() {
    let mut device = device_with(true);
    assert_eq!(
        tun_egress(&device, 0, TunnResult::WriteToNetwork),
        Egress::Listener { socket: 4, to: v4(192, 0, 2, 5, 51820) }
    );
    assert_eq!(tun_egress(&device, 1, TunnResult::WriteToNetwork), Egress::NoEndpoint);
    device.set_endpoint(1, v6(2, 9));
    assert_eq!(
        tun_egress(&device, 1, TunnResult::WriteToNetwork),
        Egress::Listener { socket: 6, to: v6(2, 9) }
    );
    device.attach_endpoint(1, 50);
    assert_eq!(tun_egress(&device, 1, TunnResult::WriteToNetwork), Egress::Connected(50));
    assert_eq!(tun_egress(&device, 1, TunnResult::Done), Egress::Nothing);
    assert_eq!(tun_egress(&device, 1, TunnResult::Error(TunnelError::Other)), Egress::Failed);
}

#[test]
fn read_failures_end_the_batch_or_the_loop() {
    assert_eq!(on_read_failure(ReadFailure::WouldBlock), Action::Continue);
    assert_eq!(on_read_failure(ReadFailure::Interrupted), Action::Continue);
    assert_eq!(on_read_failure(ReadFailure::Other), Action::Exit);
}

#[test]
fn timers_run_for_peers_with_an_address() {
    let mut device = device_with(true);
    assert_eq!(timer_peers(&device), vec![0]);
    device.set_endpoint(1, v6(2, 9));
    assert_eq!(timer_peers(&device), vec![0, 1]);
    device.open_listen_socket(1);
    assert_eq!(timer_peers(&device), Vec::<u32>::new());
}

#[test]
fn expired_session_costs_the_connected_socket() {
    let mut device = device_with(true);
    device.attach_endpoint(0, 60);
    assert_eq!(
        timer_step(&mut device, 0, TunnResult::Error(TunnelError::ConnectionExpired)),
        TimerStep::Expired(Some(60))
    );
    let endpoint = device.peer_by_index(0).unwrap().endpoint();
    assert_eq!(endpoint.conn, None);
    assert_eq!(endpoint.addr, Some(v4(192, 0, 2, 5, 51820)));
    assert_eq!(
        timer_step(&mut device, 0, TunnResult::Error(TunnelError::ConnectionExpired)),
        TimerStep::Expired(None)
    );
}

#[test]
fn timer_packets_leave_by_the_listener_of_the_family() {
    let mut device = device_with(true);
    device.attach_endpoint(0, 60);
    assert_eq!(
        timer_step(&mut device, 0, TunnResult::WriteToNetwork),
        TimerStep::Send { socket: 4, to: v4(192, 0, 2, 5, 51820) }
    );
    device.set_endpoint(1, v6(2, 9));
    assert_eq!(
        timer_step(&mut device, 1, TunnResult::WriteToNetwork),
        TimerStep::Send { socket: 6, to: v6(2, 9) }
    );
    assert_eq!(timer_step(&mut device, 0, TunnResult::Done), TimerStep::Nothing);
    assert_eq!(timer_step(&mut device, 0, TunnResult::Error(TunnelError::Other)), TimerStep::Failed);
    assert_eq!(device.peer_by_index(0).unwrap().endpoint().conn, Some(60));
}

#[test]
fn worker_loop_follows_the_handlers() {
    assert_eq!(after_wait(WaitEvent::Handled(Action::Continue), -1), LoopStep::Wait);
    assert_eq!(after_wait(WaitEvent::Handled(Action::Yield), -1), LoopStep::Reacquire);
    assert_eq!(after_wait(WaitEvent::Handled(Action::Exit), -1), LoopStep::Stop);
    assert_eq!(after_wait(WaitEvent::Failed, 3), LoopStep::Report);
}

#[test]
fn closed_control_socket_stops_the_loop() {
    assert_eq!(after_wait(WaitEvent::Eof(3), 3), LoopStep::Stop);
    assert_eq!(after_wait(WaitEvent::Eof(4), 3), LoopStep::Cancel);
    assert_eq!(after_wait(WaitEvent::Eof(-1), -1), LoopStep::Cancel);
    assert_eq!(after_wait(WaitEvent::Eof(0), 0), LoopStep::Stop);
}

#[test]
fn only_later_threads_open_their_own_queue() {
    let mut config = DeviceConfig::default();
    assert!(!opens_own_queue(0, &config));
    assert!(opens_own_queue(1, &config));
    assert!(opens_own_queue(3, &config));
    config.use_multi_queue = false;
    assert!(!opens_own_queue(0, &config));
    assert!(!opens_own_queue(1, &config));
}

#[test]
fn periods_and_buffers_have_their_sizes() {
    assert_eq!(RATE_LIMITER_RESET_MS, 1000);
    assert_eq!(TIMERS_TICK_MS, 250);
    assert_eq!(MONITOR_TICK_MS, 1000);
    assert_eq!(receive_buffer_len(), 655350);
}

#[test]
fn notices_yield_or_exit() {
    assert_eq!(on_notice(Notice::Yield), Action::Yield);
    assert_eq!(on_notice(Notice::Exit), Action::Exit);
    assert_eq!(on_notice(Notice::Signal), Action::Exit);
}

#[test]
fn limiter_is_reset_only_where_there_is_one() {
    let mut device = Device::new(DeviceConfig::default(), 1420);
    assert_eq!(on_limiter_tick(&device), (false, Action::Continue));
    device.set_key([2u8; 32]);
    assert_eq!(on_limiter_tick(&device), (true, Action::Continue));
}

#[test]
fn monitor_stops_without_its_path_and_notes_the_mtu() {
    let mut device = Device::new(DeviceConfig::default(), 1420);
    assert_eq!(on_monitor_tick(&mut device, true, Some(1500)), Action::Continue);
    assert_eq!(device.mtu(), 1500);
    assert_eq!(on_monitor_tick(&mut device, true, None), Action::Continue);
    assert_eq!(device.mtu(), 1500);
    assert_eq!(on_monitor_tick(&mut device, false, Some(9000)), Action::Exit);
    assert_eq!(device.mtu(), 1500);
}

#[test]
fn device_goes_from_new_to_running() {
    let mut device = Device::new(DeviceConfig::default(), 1420);
    assert_eq!(lifecycle(&device, false), Lifecycle::New);
    device.set_key([2u8; 32]);
    device.update_peer(key(1), false, false, None, &[], None, None).unwrap();
    assert_eq!(lifecycle(&device, false), Lifecycle::New);
    device.open_listen_socket(1);
    device.listen_socket_opened(4, 6, 1);
    assert_eq!(lifecycle(&device, false), Lifecycle::Running);
    device.clear_peers();
    assert_eq!(lifecycle(&device, false), Lifecycle::Bound);
    assert_eq!(lifecycle(&device, true), Lifecycle::Exiting);
}

#[test]
fn timers_of_a_peer_that_is_gone_do_nothing() {
    let mut device = device_with(true);
    assert_eq!(timer_step(&mut device, 9, TunnResult::WriteToNetwork), TimerStep::Nothing);
    assert_eq!(
        timer_step(&mut device, 1, TunnResult::Error(TunnelError::ConnectionExpired)),
        TimerStep::Nothing
    );
    device.open_listen_socket(1);
    assert_eq!(timer_step(&mut device, 0, TunnResult::WriteToNetwork), TimerStep::Nothing);
}

#[test]
fn packet_for_a_peer_that_is_gone_has_no_endpoint() {
    let device = device_with(true);
    assert_eq!(tun_egress(&device, 9, TunnResult::WriteToNetwork), Egress::NoEndpoint);
    assert_eq!(tun_egress(&device, 9, TunnResult::Done), Egress::Nothing);
}

#[test]
fn writer_waits_for_the_readers_and_keeps_new_ones_out() {
    let mut lock = LockState::new();
    assert!(lock.acquire_read());
    assert!(lock.acquire_read());
    assert!(lock.acquire_read());
    assert_eq!(lock.readers(), 3);
    assert!(!lock.readers_must_yield());
    assert!(!lock.acquire_write());
    assert_eq!(lock.begin_upgrade(true), Err(UpgradeError::WouldDeadlock));
    assert_eq!(lock.readers(), 3);
    assert_eq!(lock.begin_upgrade(false), Ok(()));
    assert_eq!(lock.readers(), 2);
    assert!(lock.announce());
    assert!(!lock.announce());
    assert!(lock.readers_must_yield());
    assert!(!lock.acquire_read());
    assert!(!lock.acquire_write());
    lock.release_read();
    assert!(!lock.acquire_write());
    lock.release_read();
    assert!(lock.acquire_write());
    assert!(!lock.readers_must_yield());
    assert!(!lock.acquire_read());
    assert!(!lock.acquire_write());
    lock.release_write();
    assert!(lock.acquire_read());
    assert_eq!(lock.readers(), 1);
    lock.release_read();
    lock.release_read();
    assert_eq!(lock.readers(), 0);
}
