//! UDP datagrams: validation, field access, and emission.

use vstd::prelude::*;
use crate::error::Error;
use crate::wire::bytes::{be16, read_be16};
use crate::wire::checksum::{
    lemma_udp_checksum_filled, lemma_udp_checksum_verifies, udp_checksum_ok, udp_fill_checksum,
    udp_verify_checksum, with_udp_checksum,
};

verus! {

pub const UDP_HEADER_LEN: usize = 8;

/// Largest value of the length field.
pub const UDP_MAX_LEN: usize = 65535;

pub open spec fn src_port(p: Seq<u8>) -> int {
    be16(p, 0)
}

pub open spec fn dst_port(p: Seq<u8>) -> int {
    be16(p, 2)
}

/// Length of header and payload together, as the header states it.
pub open spec fn length_field(p: Seq<u8>) -> int {
    be16(p, 4)
}

pub open spec fn checksum_field(p: Seq<u8>) -> int {
    be16(p, 6)
}

/// The octets between the header and the end given by the length field.
pub open spec fn payload(p: Seq<u8>) -> Seq<u8> {
    p.subrange(UDP_HEADER_LEN as int, length_field(p))
}

/// The buffer holds a whole header and the whole payload it announces.
pub open spec fn lengths_ok(p: Seq<u8>) -> bool {
    &&& p.len() >= UDP_HEADER_LEN
    &&& UDP_HEADER_LEN <= length_field(p)
    &&& length_field(p) <= p.len()
}

/// The datagram is one the policy is consulted on: consistent lengths, a
/// destination port, and a checksum that is either absent (zero) or
/// right for the given addresses.
pub open spec fn well_formed(p: Seq<u8>, src: int, dst: int) -> bool {
    &&& lengths_ok(p)
    &&& dst_port(p) != 0
    &&& (udp_checksum_ok(p, src, dst) || checksum_field(p) == 0)
}

/// The fields of a datagram that the pipeline reads.
#[derive(Clone, Copy, Debug, PartialEq, Eq, Structural)]
pub struct UdpHeader {
    pub src_port: u16,
    pub dst_port: u16,
    /// Header and payload together.
    pub length: u16,
}

pub open spec fn header_of(p: Seq<u8>) -> UdpHeader {
    UdpHeader {
        src_port: src_port(p) as u16,
        dst_port: dst_port(p) as u16,
        length: length_field(p) as u16,
    }
}

/// Validates a datagram sent from `src` to `dst` and reads its header.
pub fn parse(p: &[u8], src: u32, dst: u32) -> (r: Result<UdpHeader, Error>)
    ensures
        r is Ok <==> well_formed(p@, src as int, dst as int),
        r is Ok ==> r->Ok_0 == header_of(p@),
        r is Err ==> r->Err_0 == Error::Malformed,
{
    if p.len() < UDP_HEADER_LEN {
        return Err(Error::Malformed);
    }
    let length = read_be16(p, 4);
    if (length as usize) < UDP_HEADER_LEN || length as usize > p.len() {
        return Err(Error::Malformed);
    }
    let dst_port = read_be16(p, 2);
    if dst_port == 0 {
        return Err(Error::Malformed);
    }
    if !udp_verify_checksum(p, src, dst) && read_be16(p, 6) != 0 {
        return Err(Error::Malformed);
    }
    Ok(UdpHeader { src_port: read_be16(p, 0), dst_port, length })
}

/// A header before its checksum is filled in.
pub open spec fn unsummed_header(src_port: int, dst_port: int, payload_len: int) -> Seq<u8> {
    let length = UDP_HEADER_LEN + payload_len;
    seq![
        (src_port / 256) as u8,
        (src_port % 256) as u8,
        (dst_port / 256) as u8,
        (dst_port % 256) as u8,
        (length / 256) as u8,
        (length % 256) as u8,
        0u8,
        0u8,
    ]
}

/// The datagram that is emitted for the given ports and payload, with
/// the checksum for a journey from `src` to `dst`.
pub open spec fn datagram_bytes(
    src_port: int,
    dst_port: int,
    payload: Seq<u8>,
    src: int,
    dst: int,
) -> Seq<u8> {
    with_udp_checksum(unsummed_header(src_port, dst_port, payload.len() as int) + payload, src, dst)
}

/// Builds a datagram around `payload`.
pub fn build_datagram(src_port: u16, dst_port: u16, payload: &[u8], src: u32, dst: u32) -> (datagram:
    Vec<u8>)
    requires
        UDP_HEADER_LEN + payload@.len() <= UDP_MAX_LEN,
    ensures
        datagram@ == datagram_bytes(
            src_port as int,
            dst_port as int,
            payload@,
            src as int,
            dst as int,
        ),
        datagram@.len() == UDP_HEADER_LEN + payload@.len(),
        header_of(datagram@) == (UdpHeader {
            src_port,
            dst_port,
            length: (UDP_HEADER_LEN + payload@.len()) as u16,
        }),
        self::payload(datagram@) == payload@,
        dst_port != 0 ==> well_formed(datagram@, src as int, dst as int),
{
    proof {
        lemma_datagram_bytes(src_port as int, dst_port as int, payload@, src as int, dst as int);
    }
    let length: u16 = (UDP_HEADER_LEN + payload.len()) as u16;
    let mut datagram: Vec<u8> = Vec::with_capacity(UDP_HEADER_LEN + payload.len());
    datagram.push((src_port / 256) as u8);
    datagram.push((src_port % 256) as u8);
    datagram.push((dst_port / 256) as u8);
    datagram.push((dst_port % 256) as u8);
    datagram.push((length / 256) as u8);
    datagram.push((length % 256) as u8);
    datagram.push(0);
    datagram.push(0);
    assert(datagram@ =~= unsummed_header(src_port as int, dst_port as int, payload@.len() as int));
    datagram.extend_from_slice(payload);
    assert(datagram@ =~= unsummed_header(src_port as int, dst_port as int, payload@.len() as int)
        + payload@);
    udp_fill_checksum(datagram.as_mut_slice(), src, dst);
    datagram
}

/// An emitted datagram is as long as header and payload, carries exactly
/// the payload it was built around, shows the ports it was built from,
/// and has a checksum that is right for the addresses it was built for.
/// It is well formed unless it has no destination port.
pub proof fn lemma_datagram_bytes(src_port: int, dst_port: int, payload: Seq<u8>, src: int, dst: int)
    requires
        UDP_HEADER_LEN + payload.len() <= UDP_MAX_LEN,
        0 <= src_port < 0x1_0000,
        0 <= dst_port < 0x1_0000,
    ensures
        ({
            let d = datagram_bytes(src_port, dst_port, payload, src, dst);
            &&& d.len() == UDP_HEADER_LEN + payload.len()
            &&& lengths_ok(d)
            &&& self::payload(d) == payload
            &&& self::src_port(d) == src_port
            &&& self::dst_port(d) == dst_port
            &&& length_field(d) == UDP_HEADER_LEN + payload.len()
            &&& checksum_field(d) != 0
            &&& udp_checksum_ok(d, src, dst)
            &&& dst_port != 0 ==> well_formed(d, src, dst)
        }),
{
    let raw = unsummed_header(src_port, dst_port, payload.len() as int) + payload;
    let d = datagram_bytes(src_port, dst_port, payload, src, dst);
    assert(length_field(raw) == UDP_HEADER_LEN + payload.len());
    lemma_udp_checksum_filled(raw, src, dst);
    lemma_udp_checksum_verifies(raw, src, dst);
    assert(self::payload(d) =~= payload);
}

} // verus!
