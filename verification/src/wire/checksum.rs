//! The Internet checksum (RFC 1071) of IPv4 headers and UDP datagrams.
//!
//! The sums themselves are computed by `smoltcp`; this module states what
//! they are and proves what the pipeline needs of them.

use vstd::prelude::*;
use smoltcp::wire::{IpAddress, Ipv4Address, Ipv4Packet, UdpPacket};
use crate::wire::bytes::{be16, with_be16};
use crate::wire::ipv4::header_len as ipv4_header_len;
use crate::wire::udp::length_field as udp_len_field;

verus! {

/// Sum of the 16-bit big-endian words of `s`; an odd last octet counts as
/// the high half of a word.
pub open spec fn word_sum(s: Seq<u8>) -> nat
    decreases s.len(),
{
    if s.len() == 0 {
        0
    } else if s.len() == 1 {
        s[0] as nat * 256
    } else {
        (s[0] as nat * 256 + s[1] as nat) + word_sum(s.subrange(2, s.len() as int))
    }
}

/// Adds the carries above bit 15 back into the low 16 bits, twice.
pub open spec fn fold_carries(n: nat) -> nat {
    let once = n / 0x1_0000 + n % 0x1_0000;
    once / 0x1_0000 + once % 0x1_0000
}

/// The ones'-complement sum of `s`, before the final complement.
pub open spec fn ones_sum(s: Seq<u8>) -> nat {
    fold_carries(word_sum(s))
}

/// The header of `p` sums to all ones, as a valid header does.
#[verifier::opaque]
pub open spec fn ipv4_checksum_ok(p: Seq<u8>) -> bool {
    ones_sum(p.subrange(0, ipv4_header_len(p))) == 0xffff
}

/// `p` with its header checksum field recomputed.
#[verifier::opaque]
pub open spec fn with_ipv4_checksum(p: Seq<u8>) -> Seq<u8> {
    let zeroed = with_be16(p, 10, 0);
    let sum = ones_sum(zeroed.subrange(0, ipv4_header_len(zeroed)));
    with_be16(zeroed, 10, 0xffff - sum)
}

/// The four octets of an IPv4 address given as a number.
pub open spec fn addr_octets(addr: int) -> Seq<u8> {
    seq![
        (addr / 0x100_0000) as u8,
        (addr / 0x1_0000 % 256) as u8,
        (addr / 256 % 256) as u8,
        (addr % 256) as u8,
    ]
}

/// The sum over the pseudo-header that UDP prepends for its checksum:
/// both addresses, the protocol number 17 and the UDP length.
pub open spec fn pseudo_header_sum(src: int, dst: int, len: int) -> nat {
    fold_carries(
        ones_sum(addr_octets(src)) + ones_sum(addr_octets(dst)) + ones_sum(
            seq![0u8, 17u8, (len / 256) as u8, (len % 256) as u8],
        ),
    )
}

/// The sum over pseudo-header and datagram, before the final complement.
#[verifier::opaque]
pub open spec fn udp_sum(p: Seq<u8>, src: int, dst: int) -> nat {
    fold_carries(
        pseudo_header_sum(src, dst, udp_len_field(p)) + ones_sum(p.subrange(0, udp_len_field(p))),
    )
}

/// The datagram sums to all ones together with its pseudo-header.
pub open spec fn udp_checksum_ok(p: Seq<u8>, src: int, dst: int) -> bool {
    udp_sum(p, src, dst) == 0xffff
}

/// `p` with its UDP checksum field recomputed.  A computed checksum of
/// zero is sent as all ones, since zero on the wire means "no checksum".
#[verifier::opaque]
pub open spec fn with_udp_checksum(p: Seq<u8>, src: int, dst: int) -> Seq<u8> {
    let zeroed = with_be16(p, 6, 0);
    let checksum = 0xffff - udp_sum(zeroed, src, dst);
    with_be16(zeroed, 6, if checksum == 0 { 0xffff } else { checksum })
}

/// Computes the ones'-complement sum of `data`, before the final
/// complement, word by word from the end.  The pipeline takes its
/// checksums from `smoltcp`; this function computes what they are said
/// to be, so that the two can be held against each other.
pub fn ones_complement_sum(data: &[u8]) -> (sum: u16)
    requires
        data@.len() <= 0x1_0000,
    ensures
        sum == ones_sum(data@),
{
    let len = data.len();
    let mut accum: u32 = 0;
    let mut i: usize = len;
    if len % 2 == 1 {
        accum = (data[len - 1] as u32) * 256;
        i = len - 1;
        assert(data@.subrange(i as int, len as int) =~= seq![data@[len - 1]]);
    } else {
        assert(data@.subrange(i as int, len as int) =~= Seq::<u8>::empty());
    }
    while i > 0
        invariant
            i <= len,
            len == data@.len(),
            len <= 0x1_0000,
            i % 2 == 0,
            accum == word_sum(data@.subrange(i as int, len as int)),
            accum <= 0xffff * ((len - i + 1) / 2),
        decreases i,
    {
        proof {
            let tail = data@.subrange(i - 2, len as int);
            assert(tail.subrange(2, tail.len() as int) =~= data@.subrange(i as int, len as int));
        }
        accum = accum + (data[i - 2] as u32) * 256 + data[i - 1] as u32;
        i = i - 2;
    }
    assert(data@.subrange(0, len as int) =~= data@);
    let once: u32 = accum / 0x1_0000 + accum % 0x1_0000;
    (once / 0x1_0000 + once % 0x1_0000) as u16
}

/// Calls `smoltcp::wire::Ipv4Packet::verify_checksum`, which sums the
/// first `header_len` octets of the packet and compares with all ones.
#[verifier::external_body]
pub(crate) fn ipv4_verify_checksum(packet: &[u8]) -> (ok: bool)
    requires
        packet@.len() >= 1,
        ipv4_header_len(packet@) <= packet@.len(),
    ensures
        ok == ipv4_checksum_ok(packet@),
{
    Ipv4Packet::new_unchecked(packet).verify_checksum()
}

/// Calls `smoltcp::wire::Ipv4Packet::fill_checksum`, which zeroes the
/// checksum field, sums the first `header_len` octets and stores the
/// complement of the sum in the field.
#[verifier::external_body]
pub(crate) fn ipv4_fill_checksum(packet: &mut [u8])
    requires
        old(packet)@.len() >= 12,
        ipv4_header_len(old(packet)@) <= old(packet)@.len(),
    ensures
        final(packet)@ == with_ipv4_checksum(old(packet)@),
{
    Ipv4Packet::new_unchecked(packet).fill_checksum()
}

/// Calls `smoltcp::wire::UdpPacket::verify_checksum` with two IPv4
/// addresses.  It sums the pseudo-header and the first `len` octets of the
/// datagram, `len` being the datagram's length field, and compares with
/// all ones.
#[verifier::external_body]
pub(crate) fn udp_verify_checksum(packet: &[u8], src: u32, dst: u32) -> (ok: bool)
    requires
        packet@.len() >= 6,
        udp_len_field(packet@) <= packet@.len(),
    ensures
        ok == udp_checksum_ok(packet@, src as int, dst as int),
{
    let src_addr = IpAddress::Ipv4(Ipv4Address(src.to_be_bytes()));
    let dst_addr = IpAddress::Ipv4(Ipv4Address(dst.to_be_bytes()));
    UdpPacket::new_unchecked(packet).verify_checksum(&src_addr, &dst_addr)
}

/// Calls `smoltcp::wire::UdpPacket::fill_checksum` with two IPv4
/// addresses.  It zeroes the checksum field, sums the pseudo-header and
/// the first `len` octets of the datagram, and stores the complement of
/// the sum, or all ones where the complement is zero.
#[verifier::external_body]
pub(crate) fn udp_fill_checksum(packet: &mut [u8], src: u32, dst: u32)
    requires
        old(packet)@.len() >= 8,
        udp_len_field(old(packet)@) <= old(packet)@.len(),
    ensures
        final(packet)@ == with_udp_checksum(old(packet)@, src as int, dst as int),
{
    let src_addr = IpAddress::Ipv4(Ipv4Address(src.to_be_bytes()));
    let dst_addr = IpAddress::Ipv4(Ipv4Address(dst.to_be_bytes()));
    UdpPacket::new_unchecked(packet).fill_checksum(&src_addr, &dst_addr)
}

/// A sum over `s` is at most 0xffff for each word of `s`.
pub proof fn lemma_word_sum_bound(s: Seq<u8>)
    ensures
        word_sum(s) <= 0xffff * ((s.len() + 1) / 2),
    decreases s.len(),
{
    if s.len() >= 2 {
        lemma_word_sum_bound(s.subrange(2, s.len() as int));
    }
}

/// Storing a word at an even offset changes the sum by the difference
/// between the new word and the old one.
pub proof fn lemma_word_sum_store(s: Seq<u8>, at: int, value: int)
    requires
        0 <= at,
        at % 2 == 0,
        at + 2 <= s.len(),
        0 <= value < 0x1_0000,
    ensures
        word_sum(with_be16(s, at, value)) == word_sum(s) - be16(s, at) + value,
    decreases at,
{
    let stored = with_be16(s, at, value);
    let rest = s.subrange(2, s.len() as int);
    if at == 0 {
        assert(stored.subrange(2, s.len() as int) =~= rest);
    } else {
        lemma_word_sum_store(rest, at - 2, value);
        assert(stored.subrange(2, s.len() as int) =~= with_be16(rest, at - 2, value));
    }
}

/// Folding keeps a sum within 16 bits, changes it by a multiple of
/// 0xffff, and gives zero for zero only.  The second clause names the
/// multiple.
pub proof fn lemma_fold(n: nat) -> (k: int)
    requires
        n < 0x1_0000_0000,
    ensures
        fold_carries(n) <= 0xffff,
        n > 0 ==> fold_carries(n) >= 1,
        0 <= k <= 0x1_0000,
        n == fold_carries(n) + 0xffff * k,
{
    let q: int = n as int / 0x1_0000;
    let r: int = n as int % 0x1_0000;
    let once: int = q + r;
    assert(n == 0x1_0000 * q + r);
    assert(q < 0x1_0000);
    assert(fold_carries(n) as int == if once < 0x1_0000 { once } else { once - 0xffff });
    if once < 0x1_0000 {
        q
    } else {
        q + 1
    }
}

/// A multiple of 0xffff that is not zero folds to all ones.
pub proof fn lemma_fold_multiple(n: nat, k: int)
    requires
        1 <= k <= 0x1_0001,
        n == 0xffff * k,
    ensures
        fold_carries(n) == 0xffff,
{
    if k <= 0x1_0000 {
        assert(n == 0x1_0000 * (k - 1) + (0x1_0000 - k));
        assert(n as int / 0x1_0000 == k - 1);
        assert(n as int % 0x1_0000 == 0x1_0000 - k);
    } else {
        assert(n == 0x1_0000 * 0xffff + 0xffff);
        assert(n as int / 0x1_0000 == 0xffff);
        assert(n as int % 0x1_0000 == 0xffff);
    }
}

/// A sum and the complement of its folded value fold to all ones.
pub proof fn lemma_fold_complement(n: nat)
    requires
        n < 0x1_0000_0000,
    ensures
        fold_carries(n) <= 0xffff,
        fold_carries((n + (0xffff - fold_carries(n))) as nat) == 0xffff,
{
    let k = lemma_fold(n);
    lemma_fold_multiple((n + (0xffff - fold_carries(n))) as nat, k + 1);
}

/// The folded sum of at most 65536 octets fits 16 bits.
pub proof fn lemma_ones_sum_bound(s: Seq<u8>)
    requires
        s.len() <= 0x1_0000,
    ensures
        ones_sum(s) <= 0xffff,
{
    lemma_word_sum_bound(s);
    lemma_fold_complement(word_sum(s));
}

/// The sum over pseudo-header and datagram fits 16 bits.
pub proof fn lemma_udp_sum_bound(p: Seq<u8>, src: int, dst: int)
    requires
        udp_len_field(p) <= p.len(),
        p.len() >= 6,
    ensures
        udp_sum(p, src, dst) <= 0xffff,
{
    reveal(udp_sum);
    let len = udp_len_field(p);
    lemma_ones_sum_bound(addr_octets(src));
    lemma_ones_sum_bound(addr_octets(dst));
    lemma_ones_sum_bound(seq![0u8, 17u8, (len / 256) as u8, (len % 256) as u8]);
    lemma_ones_sum_bound(p.subrange(0, len));
    let pseudo = ones_sum(addr_octets(src)) + ones_sum(addr_octets(dst)) + ones_sum(
        seq![0u8, 17u8, (len / 256) as u8, (len % 256) as u8],
    );
    lemma_fold_complement(pseudo);
    lemma_fold_complement(pseudo_header_sum(src, dst, len) + ones_sum(p.subrange(0, len)));
}

/// Recomputing the checksum of a datagram touches nothing but the
/// checksum field, and leaves a checksum that is not zero.
pub proof fn lemma_udp_checksum_filled(p: Seq<u8>, src: int, dst: int)
    requires
        p.len() >= 8,
        udp_len_field(p) <= p.len(),
    ensures
        with_udp_checksum(p, src, dst).len() == p.len(),
        forall|i: int|
            0 <= i < p.len() && i != 6 && i != 7 ==> #[trigger] with_udp_checksum(p, src, dst)[i]
                == p[i],
        be16(with_udp_checksum(p, src, dst), 6) != 0,
{
    reveal(with_udp_checksum);
    let zeroed = with_be16(p, 6, 0);
    lemma_udp_sum_bound(zeroed, src, dst);
}

/// A datagram whose checksum was just recomputed passes verification.
pub proof fn lemma_udp_checksum_verifies(p: Seq<u8>, src: int, dst: int)
    requires
        8 <= udp_len_field(p) <= p.len(),
    ensures
        udp_checksum_ok(with_udp_checksum(p, src, dst), src, dst),
{
    reveal(with_udp_checksum);
    reveal(udp_sum);
    let len = udp_len_field(p);
    let zeroed = with_be16(p, 6, 0);
    let body = zeroed.subrange(0, len);
    let pseudo = pseudo_header_sum(src, dst, len);
    let before = word_sum(body);
    lemma_udp_sum_bound(zeroed, src, dst);
    assert(pseudo <= 0xffff) by {
        lemma_ones_sum_bound(addr_octets(src));
        lemma_ones_sum_bound(addr_octets(dst));
        lemma_ones_sum_bound(seq![0u8, 17u8, (len / 256) as u8, (len % 256) as u8]);
        lemma_fold(
            ones_sum(addr_octets(src)) + ones_sum(addr_octets(dst)) + ones_sum(
                seq![0u8, 17u8, (len / 256) as u8, (len % 256) as u8],
            ),
        );
    }
    lemma_word_sum_bound(body);
    let k_before = lemma_fold(before);
    let k_sum = lemma_fold(pseudo + fold_carries(before));
    let sum = udp_sum(zeroed, src, dst);
    assert(sum == fold_carries(pseudo + fold_carries(before)));
    let checksum: int = if 0xffff - sum == 0 { 0xffff } else { 0xffff - sum };
    let filled = with_be16(zeroed, 6, checksum);
    assert(filled == with_udp_checksum(p, src, dst));
    assert(udp_len_field(filled) == len);
    assert(filled.subrange(0, len) =~= with_be16(body, 6, checksum));
    lemma_word_sum_store(body, 6, checksum);
    assert(be16(body, 6) == 0);
    let after = word_sum(filled.subrange(0, len));
    assert(after == before + checksum);
    let k_after = lemma_fold(after);
    let total = pseudo + fold_carries(after);
    // `total` is a multiple of 0xffff, and not zero since the checksum is not
    let k: int = k_sum + k_before - k_after + (if 0xffff - sum == 0 { 2int } else { 1int });
    assert(total == 0xffff * k);
    lemma_fold_multiple(total, k);
}

/// A header whose checksum was just recomputed passes verification, and
/// recomputing touches nothing but the checksum field.
pub proof fn lemma_ipv4_checksum_filled(p: Seq<u8>)
    requires
        p.len() >= 12,
        12 <= ipv4_header_len(p) <= p.len(),
    ensures
        ipv4_checksum_ok(with_ipv4_checksum(p)),
        with_ipv4_checksum(p).len() == p.len(),
        forall|i: int|
            0 <= i < p.len() && i != 10 && i != 11 ==> #[trigger] with_ipv4_checksum(p)[i] == p[i],
{
    reveal(ipv4_checksum_ok);
    reveal(with_ipv4_checksum);
    let hl = ipv4_header_len(p);
    let zeroed = with_be16(p, 10, 0);
    let header = zeroed.subrange(0, hl);
    let sum = word_sum(header);
    lemma_word_sum_bound(header);
    lemma_fold_complement(sum);
    let checksum = 0xffff - fold_carries(sum);
    let filled = with_be16(zeroed, 10, checksum);
    assert(filled == with_ipv4_checksum(p));
    assert(filled.subrange(0, hl) =~= with_be16(header, 10, checksum));
    lemma_word_sum_store(header, 10, checksum);
    assert(be16(header, 10) == 0);
}

} // verus!
