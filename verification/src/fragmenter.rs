//! Splits a UDP datagram into IPv4 packets that fit the link.

use vstd::prelude::*;
use crate::constants::MTU_UDP;
use crate::ident::{get_pseudorandom_packet_id, IdentGenerator};
use crate::wire::ipv4;
use crate::wire::ipv4::{build_packet, packet_bytes, IPV4_HEADER_LEN, IPV4_MAX_TOTAL_LEN};

verus! {

/// The octet sequences held by a list of buffers.
pub open spec fn contents(buffers: Seq<Vec<u8>>) -> Seq<Seq<u8>> {
    Seq::new(buffers.len(), |i: int| buffers[i]@)
}

/// Number of packets emitted for a datagram of `len` octets.
pub open spec fn fragment_count(len: int) -> int {
    if len <= MTU_UDP {
        1
    } else {
        (len + MTU_UDP - 1) / (MTU_UDP as int)
    }
}

/// A datagram of `len` octets does not fit one packet.
pub open spec fn needs_fragmenting(len: int) -> bool {
    len > MTU_UDP
}

/// The identification the emitted packets carry: the one passed in,
/// unless the datagram is split and none was passed (zero), in which case
/// `fresh` is used.
pub open spec fn emitted_ident(len: int, packet_id: int, fresh: int) -> int {
    if needs_fragmenting(len) && packet_id == 0 {
        fresh
    } else {
        packet_id
    }
}

/// Offset of the `k`-th packet's payload inside the datagram.
pub open spec fn chunk_start(k: int) -> int {
    k * MTU_UDP
}

/// End of the `k`-th packet's payload inside a datagram of `len` octets.
pub open spec fn chunk_end(len: int, k: int) -> int {
    if (k + 1) * MTU_UDP <= len {
        (k + 1) * MTU_UDP
    } else {
        len
    }
}

/// The part of the datagram that the `k`-th packet carries.
pub open spec fn chunk(udp: Seq<u8>, k: int) -> Seq<u8> {
    udp.subrange(chunk_start(k), chunk_end(udp.len() as int, k))
}

/// The `k`-th packet emitted for a datagram.
pub open spec fn fragment(udp: Seq<u8>, src: int, dst: int, ident: int, k: int) -> Seq<u8> {
    packet_bytes(
        src,
        dst,
        ident,
        chunk_start(k),
        k + 1 < fragment_count(udp.len() as int),
        chunk(udp, k),
    )
}

/// All packets emitted for a datagram, in order.
pub open spec fn fragments(udp: Seq<u8>, src: int, dst: int, ident: int) -> Seq<Seq<u8>> {
    Seq::new(
        fragment_count(udp.len() as int) as nat,
        |k: int| fragment(udp, src, dst, ident, k),
    )
}

/// A datagram short enough to travel in IPv4 packets: with a header in
/// front it fits the total-length field.
pub open spec fn fits_ipv4(len: int) -> bool {
    IPV4_HEADER_LEN + len <= IPV4_MAX_TOTAL_LEN
}

/// Splits `udp_packet` (header and payload of one UDP datagram) into
/// IPv4 packets of at most `MTU_UDP` payload octets each.  A datagram
/// that fits goes out whole under `packet_id`; one that does not is
/// split, under `packet_id` or, where that is zero, under a fresh
/// identification drawn from `ids`.
pub fn fragment_large_udp_packet(
    udp_packet: &[u8],
    src_addr: u32,
    dst_addr: u32,
    packet_id: u16,
    ids: &mut IdentGenerator,
) -> (packets: Vec<Vec<u8>>)
    requires
        fits_ipv4(udp_packet@.len() as int),
    ensures
        contents(packets@) == fragments(
            udp_packet@,
            src_addr as int,
            dst_addr as int,
            emitted_ident(
                udp_packet@.len() as int,
                packet_id as int,
                IdentGenerator::successor(old(ids).last()) as int,
            ),
        ),
        final(ids).last() == (if needs_fragmenting(udp_packet@.len() as int) && packet_id == 0 {
            IdentGenerator::successor(old(ids).last())
        } else {
            old(ids).last()
        }),
{
    let len = udp_packet.len();
    let mut packets: Vec<Vec<u8>> = Vec::new();
    if len <= MTU_UDP {
        let whole = build_packet(src_addr, dst_addr, packet_id, 0, false, udp_packet);
        packets.push(whole);
        proof {
            assert(udp_packet@ =~= chunk(udp_packet@, 0));
            assert(contents(packets@) =~= fragments(
                udp_packet@,
                src_addr as int,
                dst_addr as int,
                packet_id as int,
            ));
        }
        return packets;
    }
    let ident = if packet_id == 0 { get_pseudorandom_packet_id(ids) } else { packet_id };
    let ghost count = fragment_count(len as int);
    let mut start: usize = 0;
    while len - start > MTU_UDP
        invariant
            len == udp_packet@.len(),
            fits_ipv4(len as int),
            len > MTU_UDP,
            count == fragment_count(len as int),
            start == chunk_start(packets@.len() as int),
            start < len,
            packets@.len() + 1 <= count,
            forall|k: int|
                0 <= k < packets@.len() ==> (#[trigger] packets@[k])@ == fragment(
                    udp_packet@,
                    src_addr as int,
                    dst_addr as int,
                    ident as int,
                    k,
                ),
        decreases len - start,
    {
        let piece = build_packet(
            src_addr,
            dst_addr,
            ident,
            start as u16,
            true,
            &udp_packet[start..start + MTU_UDP],
        );
        packets.push(piece);
        start += MTU_UDP;
    }
    let last = build_packet(src_addr, dst_addr, ident, start as u16, false, &udp_packet[start..len]);
    packets.push(last);
    assert(contents(packets@) =~= fragments(
        udp_packet@,
        src_addr as int,
        dst_addr as int,
        ident as int,
    ));
    packets
}

/// The payloads of the first `k` packets of a list, one after the other.
pub open spec fn joined_payloads(packets: Seq<Seq<u8>>, k: int) -> Seq<u8>
    decreases k,
{
    if k <= 0 {
        Seq::empty()
    } else {
        joined_payloads(packets, k - 1) + ipv4::payload(packets[k - 1])
    }
}

/// What one emitted packet shows of the datagram it was cut from.
pub open spec fn fragment_faithful(udp: Seq<u8>, src: int, dst: int, ident: int, k: int) -> bool {
    let packet = fragment(udp, src, dst, ident, k);
    let count = fragment_count(udp.len() as int);
    &&& ipv4::well_formed(packet)
    &&& ipv4::payload(packet) == chunk(udp, k)
    &&& ipv4::header_len(packet) == IPV4_HEADER_LEN
    &&& ipv4::total_len(packet) == IPV4_HEADER_LEN + chunk(udp, k).len()
    &&& packet.len() == ipv4::total_len(packet)
    &&& ipv4::ident(packet) == ident
    &&& ipv4::frag_offset(packet) == k * MTU_UDP
    &&& ipv4::frag_offset(packet) % 8 == 0
    &&& ipv4::more_frags(packet) == (k + 1 < count)
    &&& !ipv4::dont_frag(packet)
    &&& ipv4::hop_limit(packet) == ipv4::HOP_LIMIT
    &&& ipv4::protocol(packet) == ipv4::PROTO_UDP
    &&& ipv4::src_addr(packet) == src
    &&& ipv4::dst_addr(packet) == dst
    &&& chunk(udp, k).len() <= MTU_UDP
    &&& (k + 1 < count ==> chunk(udp, k).len() == MTU_UDP)
    &&& (udp.len() > 0 ==> chunk(udp, k).len() > 0)
}

/// Each emitted packet is a valid IPv4 packet with hop limit 64 and
/// protocol UDP; it carries its slice of the datagram at an offset that is
/// a multiple of both `MTU_UDP` and 8; all but the last carry exactly
/// `MTU_UDP` octets and announce more fragments; the last announces none.
pub proof fn lemma_fragment_faithful(udp: Seq<u8>, src: int, dst: int, ident: int, k: int)
    requires
        fits_ipv4(udp.len() as int),
        0 <= src < 0x1_0000_0000,
        0 <= dst < 0x1_0000_0000,
        0 <= ident < 0x1_0000,
        0 <= k < fragment_count(udp.len() as int),
    ensures
        fragment_faithful(udp, src, dst, ident, k),
{
    ipv4::lemma_packet_bytes(
        src,
        dst,
        ident,
        chunk_start(k),
        k + 1 < fragment_count(udp.len() as int),
        chunk(udp, k),
    );
}

/// The payloads of the first `k` emitted packets, joined, are the first
/// `k` chunks of the datagram.
pub proof fn lemma_joined_prefix(udp: Seq<u8>, src: int, dst: int, ident: int, k: int)
    requires
        fits_ipv4(udp.len() as int),
        0 <= src < 0x1_0000_0000,
        0 <= dst < 0x1_0000_0000,
        0 <= ident < 0x1_0000,
        0 <= k <= fragment_count(udp.len() as int),
    ensures
        joined_payloads(fragments(udp, src, dst, ident), k) == udp.subrange(
            0,
            if k == 0 { 0 } else { chunk_end(udp.len() as int, k - 1) },
        ),
    decreases k,
{
    let packets = fragments(udp, src, dst, ident);
    if k > 0 {
        lemma_joined_prefix(udp, src, dst, ident, k - 1);
        lemma_fragment_faithful(udp, src, dst, ident, k - 1);
        assert(packets[k - 1] == fragment(udp, src, dst, ident, k - 1));
        assert(joined_payloads(packets, k) =~= udp.subrange(0, chunk_end(udp.len() as int, k - 1)));
    } else {
        assert(joined_payloads(packets, k) =~= udp.subrange(0, 0));
    }
}

/// The emitted packets, taken together, carry the datagram: their
/// payloads joined in order are the datagram, each packet is faithful to
/// its slice, and all share one identification.
pub proof fn lemma_fragments_carry_datagram(udp: Seq<u8>, src: int, dst: int, ident: int)
    requires
        fits_ipv4(udp.len() as int),
        0 <= src < 0x1_0000_0000,
        0 <= dst < 0x1_0000_0000,
        0 <= ident < 0x1_0000,
    ensures
        ({
            let packets = fragments(udp, src, dst, ident);
            &&& packets.len() == fragment_count(udp.len() as int)
            &&& needs_fragmenting(udp.len() as int) ==> packets.len() >= 2
            &&& joined_payloads(packets, packets.len() as int) == udp
            &&& forall|k: int|
                0 <= k < packets.len() ==> packets[k] == fragment(udp, src, dst, ident, k)
                    && #[trigger] fragment_faithful(udp, src, dst, ident, k)
        }),
{
    let packets = fragments(udp, src, dst, ident);
    let count = fragment_count(udp.len() as int);
    lemma_joined_prefix(udp, src, dst, ident, count);
    assert(udp.subrange(0, chunk_end(udp.len() as int, count - 1)) =~= udp);
    assert forall|k: int| 0 <= k < packets.len() implies packets[k] == fragment(
        udp,
        src,
        dst,
        ident,
        k,
    ) && #[trigger] fragment_faithful(udp, src, dst, ident, k) by {
        lemma_fragment_faithful(udp, src, dst, ident, k);
    }
}

} // verus!
