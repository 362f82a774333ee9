//! Ethernet II framing.

use vstd::prelude::*;
use crate::wire::bytes::{be16, read_be16};

verus! {

/// Length of the Ethernet II header.
pub const ETH_HEADER_LEN: usize = 14;

pub const ETHERTYPE_IPV4: u16 = 0x0800;

pub const ETHERTYPE_ARP: u16 = 0x0806;

pub const ETHERTYPE_IPV6: u16 = 0x86DD;

/// What a frame carries, as far as the firewall tells frames apart.
#[derive(Clone, Copy, Debug, PartialEq, Eq, Structural)]
pub enum EtherType {
    Ipv4,
    Arp,
    Ipv6,
    Other,
}

/// A frame is long enough to hold its header.
pub open spec fn frame_ok(frame: Seq<u8>) -> bool {
    frame.len() >= ETH_HEADER_LEN
}

/// The destination hardware address of a frame.
pub open spec fn dst_mac(frame: Seq<u8>) -> Seq<u8> {
    frame.subrange(0, 6)
}

/// The header of a frame: both addresses and the EtherType.
pub open spec fn header(frame: Seq<u8>) -> Seq<u8> {
    frame.subrange(0, ETH_HEADER_LEN as int)
}

/// Everything behind the header.
pub open spec fn payload(frame: Seq<u8>) -> Seq<u8> {
    frame.subrange(ETH_HEADER_LEN as int, frame.len() as int)
}

/// The EtherType field, classified.
pub open spec fn ether_type(frame: Seq<u8>) -> EtherType {
    let raw = be16(frame, 12);
    if raw == ETHERTYPE_IPV4 {
        EtherType::Ipv4
    } else if raw == ETHERTYPE_ARP {
        EtherType::Arp
    } else if raw == ETHERTYPE_IPV6 {
        EtherType::Ipv6
    } else {
        EtherType::Other
    }
}

/// The address with all bits set.
pub open spec fn is_broadcast(mac: Seq<u8>) -> bool {
    forall|i: int| 0 <= i < 6 ==> mac[i] == 0xff
}

/// The group bit of the first octet is set.
pub open spec fn is_multicast(mac: Seq<u8>) -> bool {
    mac[0] % 2 == 1
}

/// A station with address `local` listens to frames sent to `mac`.
pub open spec fn addressed_to(mac: Seq<u8>, local: Seq<u8>) -> bool {
    is_broadcast(mac) || is_multicast(mac) || mac == local
}

pub fn parse_ether_type(frame: &[u8]) -> (t: EtherType)
    requires
        frame_ok(frame@),
    ensures
        t == ether_type(frame@),
{
    let raw = read_be16(frame, 12);
    if raw == ETHERTYPE_IPV4 {
        EtherType::Ipv4
    } else if raw == ETHERTYPE_ARP {
        EtherType::Arp
    } else if raw == ETHERTYPE_IPV6 {
        EtherType::Ipv6
    } else {
        EtherType::Other
    }
}

/// Decides whether a station with address `local` listens to `frame`.
pub fn frame_addressed_to(frame: &[u8], local: &[u8; 6]) -> (b: bool)
    requires
        frame_ok(frame@),
    ensures
        b == addressed_to(dst_mac(frame@), local@),
{
    let mut all_ones = true;
    let mut same = true;
    let mut i: usize = 0;
    while i < 6
        invariant
            i <= 6,
            frame@.len() >= 14,
            all_ones == (forall|j: int| 0 <= j < i ==> frame@[j] == 0xff),
            same == (forall|j: int| 0 <= j < i ==> frame@[j] == local@[j]),
        decreases 6 - i,
    {
        if frame[i] != 0xff {
            all_ones = false;
        }
        if frame[i] != local[i] {
            same = false;
        }
        i += 1;
    }
    proof {
        let mac = dst_mac(frame@);
        assert(forall|j: int| 0 <= j < 6 ==> mac[j] == frame@[j]);
        if !all_ones {
            let j = choose|j: int| 0 <= j < 6 && frame@[j] != 0xff;
            assert(mac[j] != 0xff);
        }
        if same {
            assert(mac =~= local@);
        } else {
            let j = choose|j: int| 0 <= j < 6 && frame@[j] != local@[j];
            assert(mac[j] != local@[j]);
        }
    }
    all_ones || frame[0] % 2 == 1 || same
}

} // verus!
