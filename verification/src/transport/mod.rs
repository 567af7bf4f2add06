//! The native transport: length-prefixed frames over connections whose ends
//! know each other by fingerprint, and files sent over them.

pub mod control;
pub mod filexfer;
pub mod manager;
pub mod proto;
