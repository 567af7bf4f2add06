//! BigPaw: messages and files between the computers of one local network,
//! without a server.
//!
//! The library holds what the program decides and computes. Sockets, files,
//! the database and the clock stand outside; their results come in as values,
//! and what is to be done goes out as values.
//!
//! - `net_scope`, `net_ifaces`, `reach`: which addresses and interfaces may be
//!   used, and who is told of the program.
//! - `roster`, `groups`, `settings`, `notify`: peers, groups, what the user
//!   has set, and when a notice is shown.
//! - `discovery`: announcements over UDP and the records of mDNS.
//! - `transport`: frames, messages and files between two peers.
//! - `ipmsg`: the IP Messenger protocol.
//! - `identity`, `digest`: fingerprints.
//! - `storage`: the history of conversations.
//! - `hub`: all of it together.
//! - `shell`: the commands of a front end.
//! - the rest: text, numbers, sequences, JSON and tables for the above.

pub mod addr;
pub mod digest;
pub mod discovery;
pub mod groups;
pub mod hub;
pub mod identity;
pub mod ipmsg;
pub mod json;
pub mod moment;
pub mod net_ifaces;
pub mod net_scope;
pub mod notify;
pub mod numeral;
pub mod order;
pub mod reach;
pub mod roster;
pub mod seqs;
pub mod settings;
pub mod shell;
pub mod split;
pub mod storage;
pub mod table;
pub mod text;
pub mod transport;
pub mod utf8;

use vstd::prelude::*;

verus! {

/// The version of the native protocol.
pub const PROTOCOL_VERSION: u16 = 1;

} // verus!
