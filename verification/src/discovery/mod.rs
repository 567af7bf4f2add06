//! How peers find each other: a multicast service record, announcements sent
//! to the subnets, and announcements to addresses known from earlier.

pub mod announce;
pub mod mdns;
