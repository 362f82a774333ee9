//! What the pipeline leaves untouched.
//!
//! A UDP datagram that fits one packet, comes in a plain header, and is
//! accepted by the policy as it is, leaves the firewall in a frame that
//! is the frame it came in: octet for octet, but for the two checksums,
//! which are computed anew.

use vstd::prelude::*;
use crate::constants::MTU_UDP;
use crate::error::Error;
use crate::fragmenter::{chunk, fragment, fragment_count, fragments};
use crate::pipeline::{
    approved, datagram_of, framed, inspection, ipv4_outcome, packet_of, packet_ok,
    takes_reassembly, udp_frames, Inspection,
};
use crate::policy::accepted;
use crate::reassembly::EntryView;
use crate::wire::bytes::{be16, be32};
use crate::wire::checksum::{addr_octets, lemma_ipv4_checksum_filled, lemma_udp_checksum_filled};
use crate::wire::ethernet;
use crate::wire::ipv4;
use crate::wire::udp;

verus! {

/// Offset of the IPv4 header checksum inside a frame.
pub const FRAME_IP_CHECKSUM: usize = 24;

/// Offset of the UDP checksum inside a frame whose IPv4 header has no
/// options.
pub const FRAME_UDP_CHECKSUM: usize = 40;

/// The frame carries nothing but one whole UDP datagram in a plain IPv4
/// header: no octets behind the packet or behind the datagram, no
/// options, no service marks, no flags, and the hop limit that is set
/// on the way out.
pub open spec fn plain_udp_frame(frame: Seq<u8>) -> bool {
    let p = ethernet::payload(frame);
    let d = ipv4::payload(p);
    &&& ethernet::frame_ok(frame)
    &&& ipv4::well_formed(p)
    &&& ipv4::total_len(p) == p.len()
    &&& ipv4::header_len(p) == ipv4::IPV4_HEADER_LEN
    &&& p[1] == 0
    &&& p[6] == 0
    &&& p[7] == 0
    &&& ipv4::hop_limit(p) == ipv4::HOP_LIMIT
    &&& ipv4::protocol(p) == ipv4::PROTO_UDP
    &&& udp::well_formed(d, ipv4::src_addr(p), ipv4::dst_addr(p))
    &&& udp::length_field(d) == d.len()
}

/// The policy's answer accepts the payload as it is.
pub open spec fn accepts_unchanged(payload: Seq<u8>, verdict: int, buffer: Seq<u8>) -> bool {
    &&& verdict == payload.len()
    &&& accepted(verdict, buffer)
    &&& buffer.subrange(0, verdict) == payload
}

/// The position is not one of the four octets that hold a checksum.
pub open spec fn outside_checksums(i: int) -> bool {
    &&& i != FRAME_IP_CHECKSUM
    &&& i != FRAME_IP_CHECKSUM + 1
    &&& i != FRAME_UDP_CHECKSUM
    &&& i != FRAME_UDP_CHECKSUM + 1
}

/// Octets that state a 16-bit number are the number's two halves.
proof fn lemma_be16_octets(s: Seq<u8>, at: int)
    requires
        0 <= at,
        at + 2 <= s.len(),
    ensures
        (be16(s, at) / 256) as u8 == s[at],
        (be16(s, at) % 256) as u8 == s[at + 1],
{
}

/// Octets that state an address are the octets of the address.
proof fn lemma_be32_octets(s: Seq<u8>, at: int)
    requires
        0 <= at,
        at + 4 <= s.len(),
    ensures
        addr_octets(be32(s, at)) == s.subrange(at, at + 4),
{
    let v = be32(s, at);
    assert(v == ((s[at] as int * 256 + s[at + 1] as int) * 65536 + (s[at + 2] as int * 256 + s[at
        + 3] as int)));
    assert(v / 0x100_0000 == s[at] as int);
    assert(v / 0x1_0000 % 256 == s[at + 1] as int);
    assert(v / 256 % 256 == s[at + 2] as int);
    assert(v % 256 == s[at + 3] as int);
    assert(addr_octets(v) =~= s.subrange(at, at + 4));
}

/// A plain UDP frame whose datagram fits one packet and is accepted by
/// the policy as it is, is sent on as one frame of the same length that
/// differs from it in no octet outside the two checksums.  The
/// identification is kept.
pub proof fn lemma_plain_udp_unchanged(
    frame: Seq<u8>,
    table: Seq<EntryView>,
    now: u64,
    verdict: int,
    buffer: Seq<u8>,
    fresh: int,
)
    requires
        plain_udp_frame(frame),
        ipv4::payload(ethernet::payload(frame)).len() <= MTU_UDP,
        accepts_unchanged(udp::payload(ipv4::payload(ethernet::payload(frame))), verdict, buffer),
    ensures
        inspection(frame, table, now) == Inspection::Consult(ethernet::payload(frame)),
        ipv4_outcome(frame, table, now, verdict, buffer, fresh) == udp_frames(
            frame,
            ethernet::payload(frame),
            verdict,
            buffer,
            fresh,
        ),
        ipv4_outcome(frame, table, now, verdict, buffer, fresh) is Ok,
        ipv4_outcome(frame, table, now, verdict, buffer, fresh)->Ok_0.len() == 1,
        ({
            let out = ipv4_outcome(frame, table, now, verdict, buffer, fresh)->Ok_0[0];
            &&& out.len() == frame.len()
            &&& forall|i: int|
                0 <= i < frame.len() && outside_checksums(i) ==> #[trigger] out[i] == frame[i]
        }),
{
    let p = ethernet::payload(frame);
    let d = ipv4::payload(p);
    let payload = udp::payload(d);
    let src = ipv4::src_addr(p);
    let dst = ipv4::dst_addr(p);
    let id = ipv4::ident(p);
    assert(ipv4::shaved(p) == p);
    assert(packet_of(frame) == p);
    assert(packet_ok(frame));
    assert(!ipv4::is_fragment(p));
    assert(!takes_reassembly(p));
    assert(datagram_of(frame, table, now) == Ok::<Seq<u8>, Error>(p));
    assert(inspection(frame, table, now) == Inspection::Consult(p));
    // the datagram that is sent on
    let raw_udp = udp::unsummed_header(udp::src_port(d), udp::dst_port(d), payload.len() as int)
        + payload;
    let sent = udp::datagram_bytes(udp::src_port(d), udp::dst_port(d), payload, src, dst);
    assert(approved(p, verdict, buffer) == Ok::<Seq<u8>, Error>(sent));
    assert(be16(raw_udp, 4) == udp::UDP_HEADER_LEN + payload.len());
    lemma_udp_checksum_filled(raw_udp, src, dst);
    assert(sent.len() == d.len());
    lemma_be16_octets(d, 0);
    lemma_be16_octets(d, 2);
    lemma_be16_octets(d, 4);
    assert forall|j: int| 0 <= j < d.len() && j != 6 && j != 7 implies sent[j] == d[j] by {
        assert(sent[j] == raw_udp[j]);
        if j >= 8 {
            assert(payload[j - 8] == d[j]);
        }
    }
    // the packet around it
    assert(fragment_count(sent.len() as int) == 1);
    assert(chunk(sent, 0) =~= sent);
    let raw_ip = ipv4::unsummed_header(src, dst, id, 0, false, sent.len() as int) + sent;
    let packet = ipv4::packet_bytes(src, dst, id, 0, false, sent);
    assert(fragment(sent, src, dst, id, 0) == packet);
    assert(raw_ip[0] == 0x45u8);
    lemma_ipv4_checksum_filled(raw_ip);
    assert(packet.len() == p.len());
    lemma_be16_octets(p, 2);
    lemma_be16_octets(p, 4);
    lemma_be32_octets(p, 12);
    lemma_be32_octets(p, 16);
    assert(p[0] == 0x45u8);
    assert forall|j: int| 0 <= j < p.len() && j != 10 && j != 11 && j != 26 && j != 27 implies packet[j]
        == p[j] by {
        assert(packet[j] == raw_ip[j]);
        if j >= 20 {
            assert(raw_ip[j] == sent[j - 20]);
            assert(d[j - 20] == p[j]);
        } else if j >= 16 {
            assert(raw_ip[j] == addr_octets(dst)[j - 16]);
            assert(p.subrange(16, 20)[j - 16] == p[j]);
        } else if j >= 12 {
            assert(raw_ip[j] == addr_octets(src)[j - 12]);
            assert(p.subrange(12, 16)[j - 12] == p[j]);
        }
    }
    // and the frame around that
    let emitted = framed(frame, fragments(sent, src, dst, id));
    assert(udp_frames(frame, p, verdict, buffer, fresh) == Ok::<Seq<Seq<u8>>, Error>(emitted));
    let out = emitted[0];
    assert(out == ethernet::header(frame) + packet);
    assert forall|i: int| 0 <= i < frame.len() && outside_checksums(i) implies #[trigger] out[i]
        == frame[i] by {
        if i >= 14 {
            assert(out[i] == packet[i - 14]);
            assert(p[i - 14] == frame[i]);
        }
    }
}

} // verus!
