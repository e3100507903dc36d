//! The decisions of a worker thread between two waits on the poller, and of
//! the handlers that carry no packet.

use crate::device::{Device, DeviceConfig, DeviceState, MAX_UDP_SIZE, RECVMSG_NUM_CHUNKS};
use crate::handlers::Action;
use vstd::prelude::*;

verus! {

/// The milliseconds between two resets of the rate limiter.
pub const RATE_LIMITER_RESET_MS: u64 = 1000;

/// The milliseconds between two runs of the peers' timers.
pub const TIMERS_TICK_MS: u64 = 250;

/// The milliseconds between two looks at the control socket's path.
pub const MONITOR_TICK_MS: u64 = 1000;

/// What a wait on the poller came back with.
#[derive(Clone, Copy, Debug, PartialEq, Eq)]
pub enum WaitEvent {
    /// A handler ran and returned this.
    Handled(Action),
    /// The source behind this file descriptor was closed.
    Eof(i32),
    /// The wait failed for now.
    Failed,
}

/// What a worker thread does after a wait.
#[derive(Clone, Copy, Debug, PartialEq, Eq)]
pub enum LoopStep {
    /// Wait again.
    Wait,
    /// Give up the read lock, take it again, then wait again.
    Reacquire,
    /// Trigger the exit notifier and end the thread.
    Stop,
    /// Cancel the handler of the closed source, then wait again.
    Cancel,
    /// Log the failure, then wait again.
    Report,
}

/// A source that wakes the workers without a packet.
#[derive(Clone, Copy, Debug, PartialEq, Eq)]
pub enum Notice {
    /// A writer waits for the lock.
    Yield,
    /// The device is to stop.
    Exit,
    /// The process got SIGINT or SIGTERM.
    Signal,
}

/// Where a device stands in its life.
#[derive(Clone, Copy, Debug, PartialEq, Eq)]
pub enum Lifecycle {
    /// No listening socket is bound.
    New,
    /// The listening sockets are bound, and there is no peer.
    Bound,
    /// The listening sockets are bound, and there are peers.
    Running,
    /// The device is to stop; it never leaves this stage.
    Exiting,
}

/// Where a device stands in its life. A device that was told to stop is
/// exiting, whatever else holds of it.
pub fn lifecycle(device: &Device, exit_triggered: bool) -> (stage: Lifecycle)
    ensures
        stage == if exit_triggered {
            Lifecycle::Exiting
        } else if device@.udp4 is None || device@.udp6 is None {
            Lifecycle::New
        } else if device@.keys.len() == 0 {
            Lifecycle::Bound
        } else {
            Lifecycle::Running
        },
{
    if exit_triggered {
        Lifecycle::Exiting
    } else if device.udp4().is_none() || device.udp6().is_none() {
        Lifecycle::New
    } else if device.peer_keys().len() == 0 {
        Lifecycle::Bound
    } else {
        Lifecycle::Running
    }
}

/// What a worker thread does after a wait: it goes on after a handler that
/// said so, lets a writer in after one that yields, and stops after one that
/// exits or when the control socket is closed.
pub fn after_wait(event: WaitEvent, uapi_fd: i32) -> (step: LoopStep)
    ensures
        step == match event {
            WaitEvent::Handled(Action::Continue) => LoopStep::Wait,
            WaitEvent::Handled(Action::Yield) => LoopStep::Reacquire,
            WaitEvent::Handled(Action::Exit) => LoopStep::Stop,
            WaitEvent::Eof(fd) => if uapi_fd >= 0 && uapi_fd == fd {
                LoopStep::Stop
            } else {
                LoopStep::Cancel
            },
            WaitEvent::Failed => LoopStep::Report,
        },
{
    match event {
        WaitEvent::Handled(Action::Continue) => LoopStep::Wait,
        WaitEvent::Handled(Action::Yield) => LoopStep::Reacquire,
        WaitEvent::Handled(Action::Exit) => LoopStep::Stop,
        WaitEvent::Eof(fd) => {
            if uapi_fd >= 0 && uapi_fd == fd {
                LoopStep::Stop
            } else {
                LoopStep::Cancel
            }
        },
        WaitEvent::Failed => LoopStep::Report,
    }
}

/// Whether worker thread `i` opens a queue of its own on the interface: the
/// first thread never does, the others do where the device uses several queues.
pub fn opens_own_queue(i: usize, config: &DeviceConfig) -> (own: bool)
    ensures
        own == (i != 0 && config.use_multi_queue),
{
    !(i == 0 || !config.use_multi_queue)
}

/// The number of bytes of the buffer that a worker receives datagrams into:
/// room for one batch of the largest datagrams.
pub fn receive_buffer_len() -> (len: usize)
    ensures
        len == RECVMSG_NUM_CHUNKS * MAX_UDP_SIZE,
{
    RECVMSG_NUM_CHUNKS * MAX_UDP_SIZE
}

/// What the handler of a notifier or of a signal returns.
pub fn on_notice(notice: Notice) -> (action: Action)
    ensures
        action == match notice {
            Notice::Yield => Action::Yield,
            Notice::Exit => Action::Exit,
            Notice::Signal => Action::Exit,
        },
{
    match notice {
        Notice::Yield => Action::Yield,
        Notice::Exit => Action::Exit,
        Notice::Signal => Action::Exit,
    }
}

/// What the timer of the rate limiter does: the count is reset where the
/// device has a rate limiter, and the loop goes on either way.
pub fn on_limiter_tick(device: &Device) -> (out: (bool, Action))
    ensures
        out.0 == (device@.limiter is Some),
        out.1 == Action::Continue,
{
    (device.rate_limiter().is_some(), Action::Continue)
}

/// What the monitor of the control socket does: the device stops when the
/// socket's path is gone; else the size of the interface's largest packet
/// is noted, where it could be read.
pub fn on_monitor_tick(device: &mut Device, path_exists: bool, mtu: Option<usize>) -> (action:
    Action)
    requires
        old(device).wf(),
    ensures
        final(device).wf(),
        action == if path_exists {
            Action::Continue
        } else {
            Action::Exit
        },
        final(device)@ == match mtu {
            Some(m) if path_exists => DeviceState { mtu: m, ..old(device)@ },
            _ => old(device)@,
        },
{
    if !path_exists {
        return Action::Exit;
    }
    match mtu {
        Some(m) => {
            device.set_mtu(m);
        },
        None => {},
    }
    Action::Continue
}

} // verus!
