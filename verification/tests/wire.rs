use firewall::error::Error;
use firewall::wire::bytes::{read_be16, read_be32, write_be16};
use firewall::wire::ethernet::{frame_addressed_to, parse_ether_type, EtherType};
use firewall::wire::ipv4;
use firewall::wire::udp;
use smoltcp::phy::ChecksumCapabilities;
use smoltcp::wire::{
    IpAddress, IpProtocol, Ipv4Address, Ipv4Packet, Ipv4Repr, UdpPacket, UdpRepr,
};

const SRC: u32 = 0xc0a8_0001;
const DST: u32 = 0xc0a8_00fe;

fn reference_udp(src_port: u16, dst_port: u16, payload: &[u8]) -> Vec<u8> {
    let repr = UdpRepr { src_port, dst_port, payload };
    let mut bytes = vec![0u8; repr.buffer_len()];
    let mut packet = UdpPacket::new_unchecked(&mut bytes[..]);
    repr.emit(
        &mut packet,
        &IpAddress::Ipv4(Ipv4Address(SRC.to_be_bytes())),
        &IpAddress::Ipv4(Ipv4Address(DST.to_be_bytes())),
        &ChecksumCapabilities::default(),
    );
    bytes
}

fn reference_ipv4(ident: u16, offset: u16, more: bool, payload: &[u8]) -> Vec<u8> {
    let repr = Ipv4Repr {
        src_addr: Ipv4Address(SRC.to_be_bytes()),
        dst_addr: Ipv4Address(DST.to_be_bytes()),
        protocol: IpProtocol::Udp,
        payload_len: payload.len(),
        hop_limit: 64,
    };
    let mut bytes = vec![0u8; 20 + payload.len()];
    let mut packet = Ipv4Packet::new_unchecked(&mut bytes[..]);
    repr.emit(&mut packet, &ChecksumCapabilities::default());
    packet.set_ident(ident);
    packet.set_dont_frag(false);
    packet.set_more_frags(more);
    packet.set_frag_offset(offset);
    packet.payload_mut().copy_from_slice(payload);
    packet.fill_checksum();
    bytes
}

#[test]
fn big_endian_numbers_round_trip() {
    let mut b = vec![0u8; 8];
    write_be16(&mut b, 1, 0xabcd);
    assert_eq!(b, vec![0, 0xab, 0xcd, 0, 0, 0, 0, 0]);
    assert_eq!(read_be16(&b, 1), 0xabcd);
    b[4..].copy_from_slice(&[1, 2, 3, 4]);
    assert_eq!(read_be32(&b, 4), 0x0102_0304);
}

#[test]
fn ether_types_are_told_apart() {
    let mut frame = vec![0u8; 14];
    frame[12] = 0x08;
    frame[13] = 0x00;
    assert_eq!(parse_ether_type(&frame), EtherType::Ipv4);
    frame[13] = 0x06;
    assert_eq!(parse_ether_type(&frame), EtherType::Arp);
    frame[12] = 0x86;
    frame[13] = 0xdd;
    assert_eq!(parse_ether_type(&frame), EtherType::Ipv6);
    frame[13] = 0xde;
    assert_eq!(parse_ether_type(&frame), EtherType::Other);
}

#[test]
fn destination_filter_knows_broadcast_multicast_and_self() {
    let local = [2u8, 0, 0, 0, 0, 9];
    let mut frame = vec![0u8; 20];
    frame[..6].copy_from_slice(&[0xff; 6]);
    assert!(frame_addressed_to(&frame, &local));
    frame[..6].copy_from_slice(&[0x33, 0x33, 0, 0, 0, 1]);
    assert!(frame_addressed_to(&frame, &local));
    frame[..6].copy_from_slice(&local);
    assert!(frame_addressed_to(&frame, &local));
    frame[..6].copy_from_slice(&[2, 0, 0, 0, 0, 8]);
    assert!(!frame_addressed_to(&frame, &local));
    frame[..6].copy_from_slice(&[0xfe, 0xff, 0xff, 0xff, 0xff, 0xff]);
    assert!(!frame_addressed_to(&frame, &local));
}

#[test]
fn built_packet_equals_reference_packet() {
    let payload: Vec<u8> = (0..100u8).collect();
    for (ident, offset, more) in [(0u16, 0u16, false), (0xbeef, 1480, true), (7, 65528 - 1480 * 4, false)] {
        let offset = offset / 8 * 8;
        let built = ipv4::build_packet(SRC, DST, ident, offset, more, &payload);
        assert_eq!(built, reference_ipv4(ident, offset, more, &payload));
    }
}

#[test]
fn built_packet_has_the_stated_octets() {
    let built = ipv4::build_packet(0x0a00_0001, 0x0a00_0002, 0x1234, 16, true, &[0xaa, 0xbb]);
    assert_eq!(
        built,
        vec![
            0x45, 0x00, 0x00, 0x16, 0x12, 0x34, 0x20, 0x02, 0x40, 0x11, 0x34, 0x9f, 0x0a, 0x00,
            0x00, 0x01, 0x0a, 0x00, 0x00, 0x02, 0xaa, 0xbb,
        ]
    );
}

#[test]
fn parse_reads_reference_packet() {
    let bytes = reference_ipv4(0x4242, 2960, true, &[1, 2, 3, 4, 5, 6, 7, 8]);
    let header = ipv4::parse(&bytes).unwrap();
    assert_eq!(header.header_len, 20);
    assert_eq!(header.total_len, 28);
    assert_eq!(header.ident, 0x4242);
    assert!(header.more_frags);
    assert_eq!(header.frag_offset, 2960);
    assert_eq!(header.protocol, 17);
    assert_eq!(header.src_addr, SRC);
    assert_eq!(header.dst_addr, DST);
}

#[test]
fn parse_rejects_what_is_not_a_valid_packet() {
    let good = reference_ipv4(1, 0, false, &[9; 12]);
    assert!(ipv4::parse(&good).is_ok());
    // truncated
    assert_eq!(ipv4::parse(&good[..19]), Err(Error::Malformed));
    assert_eq!(ipv4::parse(&good[..31]), Err(Error::Malformed));
    // header length below the minimum
    let mut short_header = good.clone();
    short_header[0] = 0x44;
    assert_eq!(ipv4::parse(&short_header), Err(Error::Malformed));
    // header longer than the packet says it is in all
    let mut long_header = good.clone();
    long_header[0] = 0x4f;
    long_header[3] = 40;
    assert_eq!(ipv4::parse(&long_header), Err(Error::Malformed));
    // wrong version, with a checksum to match
    let mut v6 = good.clone();
    v6[0] = 0x65;
    Ipv4Packet::new_unchecked(&mut v6[..]).fill_checksum();
    assert_eq!(ipv4::parse(&v6), Err(Error::Malformed));
    // wrong checksum
    let mut bad_sum = good.clone();
    bad_sum[8] = 63;
    assert_eq!(ipv4::parse(&bad_sum), Err(Error::Malformed));
}

#[test]
fn parse_tolerates_options() {
    let mut bytes = vec![0u8; 24 + 4];
    bytes[0] = 0x46;
    bytes[3] = 28;
    bytes[8] = 1;
    bytes[9] = 17;
    bytes[20] = 1;
    bytes[21] = 1;
    bytes[22] = 1;
    bytes[23] = 0;
    Ipv4Packet::new_unchecked(&mut bytes[..]).fill_checksum();
    let header = ipv4::parse(&bytes).unwrap();
    assert_eq!(header.header_len, 24);
    assert_eq!(header.total_len, 28);
}

#[test]
fn shave_removes_exactly_four_trailing_octets() {
    let clean = reference_ipv4(1, 0, false, &[9; 12]);
    let mut with_fcs = clean.clone();
    with_fcs.extend_from_slice(&[1, 2, 3, 4]);
    assert_eq!(ipv4::shave_crc_from_ipv4(&with_fcs), &clean[..]);
    assert_eq!(ipv4::shave_crc_from_ipv4(&clean), &clean[..]);
    let mut padded = clean.clone();
    padded.extend_from_slice(&[0; 6]);
    assert_eq!(ipv4::shave_crc_from_ipv4(&padded), &padded[..]);
}

#[test]
fn built_datagram_equals_reference_datagram() {
    for payload in [&b""[..], &b"a"[..], &b"hello"[..], &[0xffu8; 1473][..]] {
        let built = udp::build_datagram(40000, 53, payload, SRC, DST);
        assert_eq!(built, reference_udp(40000, 53, payload));
    }
}

#[test]
fn built_datagram_has_the_stated_octets() {
    let built = udp::build_datagram(1234, 53, b"hello", 0x0a00_0001, 0x0a00_0002);
    assert_eq!(
        built,
        vec![0x04, 0xd2, 0x00, 0x35, 0x00, 0x0d, 0xa2, 0xf8, b'h', b'e', b'l', b'l', b'o']
    );
}

#[test]
fn udp_parse_checks_lengths_port_and_checksum() {
    let good = reference_udp(1000, 2000, b"payload");
    let header = udp::parse(&good, SRC, DST).unwrap();
    assert_eq!(header.src_port, 1000);
    assert_eq!(header.dst_port, 2000);
    assert_eq!(header.length, 15);
    // the checksum covers the addresses
    assert_eq!(udp::parse(&good, SRC, DST + 1), Err(Error::Malformed));
    // truncated
    assert_eq!(udp::parse(&good[..7], SRC, DST), Err(Error::Malformed));
    assert_eq!(udp::parse(&good[..14], SRC, DST), Err(Error::Malformed));
    // length field below the header length
    let mut tiny = good.clone();
    tiny[5] = 7;
    assert_eq!(udp::parse(&tiny, SRC, DST), Err(Error::Malformed));
    // no destination port
    let zero_port = reference_udp(1000, 0, b"payload");
    assert_eq!(udp::parse(&zero_port, SRC, DST), Err(Error::Malformed));
    // a checksum of zero means none was computed
    let mut unsummed = good.clone();
    unsummed[6] = 0;
    unsummed[7] = 0;
    assert!(udp::parse(&unsummed, SRC, DST).is_ok());
    // any other wrong checksum is refused
    let mut bad_sum = good.clone();
    bad_sum[6] ^= 0x10;
    assert_eq!(udp::parse(&bad_sum, SRC, DST), Err(Error::Malformed));
}
