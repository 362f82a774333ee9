use firewall::constants::MTU_UDP;
use firewall::fragmenter::fragment_large_udp_packet;
use firewall::ident::{get_pseudorandom_packet_id, IdentGenerator, IDENT_SEED};
use firewall::wire::ipv4;

const SRC: u32 = 0x0a00_0001;
const DST: u32 = 0x0a00_0002;

fn pattern(len: usize) -> Vec<u8> {
    (0..len).map(|i| (i * 7 % 256) as u8).collect()
}

fn check_split(len: usize, packet_id: u16, expected_count: usize, expected_ident: u16) {
    let udp = pattern(len);
    let mut ids = IdentGenerator::new();
    let packets = fragment_large_udp_packet(&udp, SRC, DST, packet_id, &mut ids);
    assert_eq!(packets.len(), expected_count);
    let mut joined = Vec::new();
    for (k, packet) in packets.iter().enumerate() {
        let header = ipv4::parse(packet).unwrap();
        assert_eq!(header.header_len, 20);
        assert_eq!(header.total_len as usize, packet.len());
        assert_eq!(header.ident, expected_ident);
        assert_eq!(header.frag_offset as usize, k * MTU_UDP);
        assert_eq!(header.frag_offset % 8, 0);
        assert_eq!(header.more_frags, k + 1 < expected_count);
        assert_eq!(header.protocol, 17);
        assert_eq!(header.src_addr, SRC);
        assert_eq!(header.dst_addr, DST);
        assert_eq!(packet[6] & 0x40, 0);
        assert_eq!(packet[8], 64);
        if k + 1 < expected_count {
            assert_eq!(packet.len() - 20, MTU_UDP);
        } else {
            assert!(packet.len() - 20 <= MTU_UDP);
        }
        joined.extend_from_slice(&packet[20..]);
    }
    assert_eq!(joined, udp);
}

#[test]
fn datagram_that_fits_goes_out_whole() {
    check_split(13, 0x1234, 1, 0x1234);
    check_split(MTU_UDP - 1, 5, 1, 5);
    check_split(MTU_UDP, 5, 1, 5);
}

#[test]
fn datagram_that_fits_keeps_identification_zero() {
    let mut ids = IdentGenerator::new();
    let packets = fragment_large_udp_packet(&pattern(100), SRC, DST, 0, &mut ids);
    assert_eq!(packets.len(), 1);
    assert_eq!(ipv4::parse(&packets[0]).unwrap().ident, 0);
    // no identification was drawn
    assert_eq!(get_pseudorandom_packet_id(&mut ids), IDENT_SEED + 1);
}

#[test]
fn datagram_one_octet_too_long_is_split_in_two() {
    check_split(MTU_UDP + 1, 9, 2, 9);
}

#[test]
fn exact_multiples_leave_no_empty_fragment() {
    check_split(2 * MTU_UDP, 9, 2, 9);
    check_split(3 * MTU_UDP, 9, 3, 9);
}

#[test]
fn split_datagram_without_identification_gets_a_fresh_one() {
    check_split(3 * MTU_UDP - 8 + 7, 0, 3, IDENT_SEED + 1);
}

#[test]
fn largest_datagram_is_split() {
    check_split(65515, 0xffff, 45, 0xffff);
}

#[test]
fn fresh_identifications_count_up_and_wrap() {
    let mut ids = IdentGenerator::new();
    assert_eq!(get_pseudorandom_packet_id(&mut ids), 43);
    assert_eq!(get_pseudorandom_packet_id(&mut ids), 44);
    for _ in 0..(65535 - 44) {
        get_pseudorandom_packet_id(&mut ids);
    }
    assert_eq!(get_pseudorandom_packet_id(&mut ids), 0);
    assert_eq!(get_pseudorandom_packet_id(&mut ids), 1);
}

#[test]
fn each_split_draws_its_own_identification() {
    let mut ids = IdentGenerator::new();
    let first = fragment_large_udp_packet(&pattern(2000), SRC, DST, 0, &mut ids);
    let second = fragment_large_udp_packet(&pattern(2000), SRC, DST, 0, &mut ids);
    assert_eq!(ipv4::parse(&first[0]).unwrap().ident, 43);
    assert_eq!(ipv4::parse(&first[1]).unwrap().ident, 43);
    assert_eq!(ipv4::parse(&second[0]).unwrap().ident, 44);
}
