//! The errors of the device.

use vstd::prelude::*;

verus! {

/// The error of an input or output operation of the standard library. Nothing
/// is known of a value of it; the library only carries it.
#[verifier::external_type_specification]
#[verifier::external_body]
pub struct ExIoError(std::io::Error);

/// What can go wrong when the device or one of its sockets is set up or used.
#[derive(Debug)]
pub enum Error {
    Socket(String),
    Bind(String),
    FCntl(String),
    EventQueue(String),
    IOCtl(String),
    Connect(String),
    SetSockOpt(String),
    InvalidTunnelName,
    GetSockOpt(String),
    GetSockName(String),
    UDPRead(i32),
    Timer(String),
    IfaceRead(i32),
    DropPrivileges(String),
    ApiSocket(std::io::Error),
}

} // verus!
