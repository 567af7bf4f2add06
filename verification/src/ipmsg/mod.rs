//! The IP Messenger protocol: packets, file transfer and discovery.

pub mod command;
pub mod dirstream;
pub mod discovery;
pub mod filexfer;
pub mod proto;

use vstd::prelude::*;

verus! {

/// The port of the protocol, for datagrams and for file transfer.
pub const IPMSG_PORT: u16 = 2425;

} // verus!
