//! Byte-level view of the three protocols the firewall inspects.
//!
//! Every header field is defined as a function of the packet's octets, and
//! each executable accessor is proved against that definition.

pub mod bytes;
pub mod checksum;
pub mod ethernet;
pub mod ipv4;
pub mod udp;
