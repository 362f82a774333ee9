//! Sizes and limits shared by every stage of the pipeline.

use vstd::prelude::*;

verus! {

/// Capacity, in bytes, of each buffer shared with the driver or the client.
pub const BUFFER_SIZE: usize = 4096;

/// Offset of the network-layer payload inside an Ethernet II frame.
pub const ETHERNET_FRAME_PAYLOAD: usize = 14;

/// Length of the frame check sequence a driver may leave behind a frame.
pub const ETH_CRC_LEN: usize = 4;

/// Most IPv4 payload bytes carried by one emitted packet; a multiple of 8.
pub const MTU_UDP: usize = 1480;

/// Largest datagram, header included, that a reassembly slot can hold.
pub const MAX_REASSEMBLED_FRAGMENT_SIZE: usize = 65535;

/// Largest UDP payload length the policy may report for an accepted datagram.
pub const MAX_UDP_PACKET_SIZE: usize = 65507;

/// Size of the payload buffer handed to the policy.
pub const MAX_UDP_PAYLOAD_SIZE: usize = 65507;

/// Number of reassembly slots per direction.
pub const SUPPORTED_FRAGMENTS: usize = 4;

/// Ticks after which an untouched reassembly slot may be taken over.
pub const FRAGMENT_STALE_AFTER: u64 = 60_000;

/// Most frames a direction queue holds.
pub const MAX_ENQUEUED_PACKETS: usize = 64;

} // verus!
