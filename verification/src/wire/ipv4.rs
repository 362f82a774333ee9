//! IPv4 headers: validation, field access, and emission.

use vstd::prelude::*;
use crate::error::Error;
use crate::constants::ETH_CRC_LEN;
use crate::wire::bytes::{be16, be32, read_be16, read_be32};
use crate::wire::checksum::{
    addr_octets, ipv4_checksum_ok, ipv4_fill_checksum, ipv4_verify_checksum, with_ipv4_checksum,
    lemma_ipv4_checksum_filled,
};

verus! {

/// Length of a header without options, the only kind that is emitted.
pub const IPV4_HEADER_LEN: usize = 20;

/// Largest value of the total-length field.
pub const IPV4_MAX_TOTAL_LEN: usize = 65535;

pub const PROTO_ICMP: u8 = 1;

pub const PROTO_IGMP: u8 = 2;

pub const PROTO_UDP: u8 = 17;

/// Time to live of every emitted packet.
pub const HOP_LIMIT: u8 = 64;

/// Length of the header in octets, from the IHL field.
pub open spec fn header_len(p: Seq<u8>) -> int {
    (p[0] as int % 16) * 4
}

pub open spec fn version(p: Seq<u8>) -> int {
    p[0] as int / 16
}

/// Length of header and payload together.
pub open spec fn total_len(p: Seq<u8>) -> int {
    be16(p, 2)
}

pub open spec fn ident(p: Seq<u8>) -> int {
    be16(p, 4)
}

pub open spec fn dont_frag(p: Seq<u8>) -> bool {
    p[6] as int / 64 % 2 == 1
}

pub open spec fn more_frags(p: Seq<u8>) -> bool {
    p[6] as int / 32 % 2 == 1
}

/// Position of the payload inside its datagram, in octets.
pub open spec fn frag_offset(p: Seq<u8>) -> int {
    ((p[6] as int % 32) * 256 + p[7] as int) * 8
}

pub open spec fn hop_limit(p: Seq<u8>) -> int {
    p[8] as int
}

pub open spec fn protocol(p: Seq<u8>) -> int {
    p[9] as int
}

pub open spec fn src_addr(p: Seq<u8>) -> int {
    be32(p, 12)
}

pub open spec fn dst_addr(p: Seq<u8>) -> int {
    be32(p, 16)
}

/// The octets between the header and the end given by the total length.
pub open spec fn payload(p: Seq<u8>) -> Seq<u8> {
    p.subrange(header_len(p), total_len(p))
}

/// The packet carries part of a larger datagram.
pub open spec fn is_fragment(p: Seq<u8>) -> bool {
    more_frags(p) || frag_offset(p) > 0
}

/// The buffer holds a whole header and the whole payload it announces.
pub open spec fn lengths_ok(p: Seq<u8>) -> bool {
    &&& p.len() >= IPV4_HEADER_LEN
    &&& IPV4_HEADER_LEN <= header_len(p)
    &&& header_len(p) <= total_len(p)
    &&& total_len(p) <= p.len()
}

/// The packet is one the pipeline works on: consistent lengths, version 4,
/// and a header that passes its checksum.
pub open spec fn well_formed(p: Seq<u8>) -> bool {
    &&& lengths_ok(p)
    &&& version(p) == 4
    &&& ipv4_checksum_ok(p)
}

/// A packet without the four octets behind it that look like a frame
/// check sequence left in place by the driver.
pub open spec fn shaved(p: Seq<u8>) -> Seq<u8> {
    if total_len(p) + ETH_CRC_LEN == p.len() {
        p.subrange(0, p.len() - ETH_CRC_LEN)
    } else {
        p
    }
}

/// The fields of a header that the pipeline reads.
#[derive(Clone, Copy, Debug, PartialEq, Eq, Structural)]
pub struct Ipv4Header {
    pub header_len: u8,
    pub total_len: u16,
    pub ident: u16,
    pub more_frags: bool,
    /// In octets.
    pub frag_offset: u16,
    pub protocol: u8,
    pub src_addr: u32,
    pub dst_addr: u32,
}

/// The header fields of a packet.
pub open spec fn header_of(p: Seq<u8>) -> Ipv4Header {
    Ipv4Header {
        header_len: header_len(p) as u8,
        total_len: total_len(p) as u16,
        ident: ident(p) as u16,
        more_frags: more_frags(p),
        frag_offset: frag_offset(p) as u16,
        protocol: protocol(p) as u8,
        src_addr: src_addr(p) as u32,
        dst_addr: dst_addr(p) as u32,
    }
}

/// Checks that the buffer holds a whole header and the payload it
/// announces.
pub fn check_lengths(p: &[u8]) -> (r: Result<(), Error>)
    ensures
        r is Ok <==> lengths_ok(p@),
        r is Err ==> r == Err::<(), Error>(Error::Malformed),
{
    if p.len() < IPV4_HEADER_LEN {
        return Err(Error::Malformed);
    }
    let hl: usize = ((p[0] % 16) as usize) * 4;
    let tl: usize = read_be16(p, 2) as usize;
    if hl < IPV4_HEADER_LEN || hl > tl || tl > p.len() {
        return Err(Error::Malformed);
    }
    Ok(())
}

/// Reads the header fields of a packet whose lengths are consistent.
pub fn read_header(p: &[u8]) -> (h: Ipv4Header)
    requires
        lengths_ok(p@),
    ensures
        h == header_of(p@),
{
    let flags = p[6];
    Ipv4Header {
        header_len: (p[0] % 16) * 4,
        total_len: read_be16(p, 2),
        ident: read_be16(p, 4),
        more_frags: flags / 32 % 2 == 1,
        frag_offset: (((flags % 32) as u16) * 256 + p[7] as u16) * 8,
        protocol: p[9],
        src_addr: read_be32(p, 12),
        dst_addr: read_be32(p, 16),
    }
}

/// Removes a suspected frame check sequence from behind a packet.
pub fn shave_crc_from_ipv4(p: &[u8]) -> (r: &[u8])
    requires
        lengths_ok(p@),
    ensures
        r@ == shaved(p@),
        lengths_ok(r@),
        header_of(r@) == header_of(p@),
        payload(r@) == payload(p@),
{
    let tl: usize = read_be16(p, 2) as usize;
    if p.len() >= ETH_CRC_LEN && tl == p.len() - ETH_CRC_LEN {
        let r = &p[0..p.len() - ETH_CRC_LEN];
        assert(payload(r@) =~= payload(p@));
        r
    } else {
        p
    }
}

/// Validates a packet in full and reads its header.
pub fn parse(p: &[u8]) -> (r: Result<Ipv4Header, Error>)
    ensures
        r is Ok <==> well_formed(p@),
        r is Ok ==> r->Ok_0 == header_of(p@),
        r is Err ==> r->Err_0 == Error::Malformed,
{
    match check_lengths(p) {
        Err(e) => {
            return Err(e);
        },
        Ok(()) => {},
    }
    if p[0] / 16 != 4 {
        return Err(Error::Malformed);
    }
    if !ipv4_verify_checksum(p) {
        return Err(Error::Malformed);
    }
    Ok(read_header(p))
}

/// The flags-and-offset word of an emitted header: "don't fragment"
/// clear, "more fragments" as given, and the offset in units of 8 octets.
pub open spec fn flags_word(frag_offset: int, more_frags: bool) -> int {
    (if more_frags { 0x2000int } else { 0int }) + frag_offset / 8
}

/// An emitted header before its checksum is filled in.
pub open spec fn unsummed_header(
    src: int,
    dst: int,
    ident: int,
    frag_offset: int,
    more_frags: bool,
    payload_len: int,
) -> Seq<u8> {
    let total = IPV4_HEADER_LEN + payload_len;
    let word = flags_word(frag_offset, more_frags);
    seq![
        0x45u8,
        0u8,
        (total / 256) as u8,
        (total % 256) as u8,
        (ident / 256) as u8,
        (ident % 256) as u8,
        (word / 256) as u8,
        (word % 256) as u8,
        HOP_LIMIT,
        PROTO_UDP,
        0u8,
        0u8,
    ] + addr_octets(src) + addr_octets(dst)
}

/// The UDP-carrying packet that is emitted for the given fields and
/// payload: a header without options, hop limit 64, and a valid
/// checksum.
pub open spec fn packet_bytes(
    src: int,
    dst: int,
    ident: int,
    frag_offset: int,
    more_frags: bool,
    payload: Seq<u8>,
) -> Seq<u8> {
    with_ipv4_checksum(
        unsummed_header(src, dst, ident, frag_offset, more_frags, payload.len() as int) + payload,
    )
}

/// Inputs for which a packet can be emitted: the total length fits its
/// field and the offset is a multiple of 8 that fits its field.
pub open spec fn emittable(frag_offset: int, payload_len: int) -> bool {
    &&& 0 <= payload_len
    &&& IPV4_HEADER_LEN + payload_len <= IPV4_MAX_TOTAL_LEN
    &&& 0 <= frag_offset < 0x1_0000
    &&& frag_offset % 8 == 0
}

/// Builds one packet around `payload`.
pub fn build_packet(
    src: u32,
    dst: u32,
    ident: u16,
    frag_offset: u16,
    more_frags: bool,
    payload: &[u8],
) -> (packet: Vec<u8>)
    requires
        emittable(frag_offset as int, payload@.len() as int),
    ensures
        packet@ == packet_bytes(
            src as int,
            dst as int,
            ident as int,
            frag_offset as int,
            more_frags,
            payload@,
        ),
        packet@.len() == IPV4_HEADER_LEN + payload@.len(),
        well_formed(packet@),
        header_of(packet@) == (Ipv4Header {
            header_len: IPV4_HEADER_LEN as u8,
            total_len: (IPV4_HEADER_LEN + payload@.len()) as u16,
            ident,
            more_frags,
            frag_offset,
            protocol: PROTO_UDP,
            src_addr: src,
            dst_addr: dst,
        }),
        self::payload(packet@) == payload@,
{
    proof {
        lemma_packet_bytes(
            src as int,
            dst as int,
            ident as int,
            frag_offset as int,
            more_frags,
            payload@,
        );
    }
    let total: u16 = (IPV4_HEADER_LEN + payload.len()) as u16;
    let word: u16 = (if more_frags { 0x2000u16 } else { 0u16 }) + frag_offset / 8;
    let mut packet: Vec<u8> = Vec::with_capacity(IPV4_HEADER_LEN + payload.len());
    packet.push(0x45);
    packet.push(0);
    packet.push((total / 256) as u8);
    packet.push((total % 256) as u8);
    packet.push((ident / 256) as u8);
    packet.push((ident % 256) as u8);
    packet.push((word / 256) as u8);
    packet.push((word % 256) as u8);
    packet.push(HOP_LIMIT);
    packet.push(PROTO_UDP);
    packet.push(0);
    packet.push(0);
    packet.push((src / 0x100_0000) as u8);
    packet.push((src / 0x1_0000 % 256) as u8);
    packet.push((src / 256 % 256) as u8);
    packet.push((src % 256) as u8);
    packet.push((dst / 0x100_0000) as u8);
    packet.push((dst / 0x1_0000 % 256) as u8);
    packet.push((dst / 256 % 256) as u8);
    packet.push((dst % 256) as u8);
    assert(packet@ =~= unsummed_header(
        src as int,
        dst as int,
        ident as int,
        frag_offset as int,
        more_frags,
        payload@.len() as int,
    ));
    packet.extend_from_slice(payload);
    assert(packet@ =~= unsummed_header(
        src as int,
        dst as int,
        ident as int,
        frag_offset as int,
        more_frags,
        payload@.len() as int,
    ) + payload@);
    ipv4_fill_checksum(packet.as_mut_slice());
    packet
}

/// An emitted packet is well formed, carries exactly the payload it was
/// built around, and shows the fields it was built from.
pub proof fn lemma_packet_bytes(
    src: int,
    dst: int,
    ident: int,
    frag_offset: int,
    more_frags: bool,
    payload: Seq<u8>,
)
    requires
        emittable(frag_offset, payload.len() as int),
        0 <= src < 0x1_0000_0000,
        0 <= dst < 0x1_0000_0000,
        0 <= ident < 0x1_0000,
    ensures
        ({
            let p = packet_bytes(src, dst, ident, frag_offset, more_frags, payload);
            &&& p.len() == IPV4_HEADER_LEN + payload.len()
            &&& well_formed(p)
            &&& self::payload(p) == payload
            &&& header_len(p) == IPV4_HEADER_LEN
            &&& total_len(p) == IPV4_HEADER_LEN + payload.len()
            &&& self::ident(p) == ident
            &&& self::more_frags(p) == more_frags
            &&& !dont_frag(p)
            &&& self::frag_offset(p) == frag_offset
            &&& hop_limit(p) == HOP_LIMIT
            &&& protocol(p) == PROTO_UDP
            &&& src_addr(p) == src
            &&& dst_addr(p) == dst
        }),
{
    let raw = unsummed_header(src, dst, ident, frag_offset, more_frags, payload.len() as int)
        + payload;
    let p = packet_bytes(src, dst, ident, frag_offset, more_frags, payload);
    assert(raw[0] == 0x45u8);
    assert(header_len(raw) == 20);
    lemma_ipv4_checksum_filled(raw);
    assert(p[0] == raw[0]);
    assert(self::payload(p) =~= payload);
}

} // verus!
