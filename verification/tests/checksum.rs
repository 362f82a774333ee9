use firewall::wire::checksum::ones_complement_sum;
use smoltcp::wire::{IpAddress, Ipv4Address, Ipv4Packet, UdpPacket};

struct Lcg(u64);

impl Lcg {
    fn next(&mut self) -> u8 {
        self.0 = self.0.wrapping_mul(6364136223846793005).wrapping_add(1442695040888963407);
        (self.0 >> 33) as u8
    }

    fn bytes(&mut self, len: usize) -> Vec<u8> {
        (0..len).map(|_| self.next()).collect()
    }
}

#[test]
fn sum_of_known_words() {
    assert_eq!(ones_complement_sum(&[]), 0);
    assert_eq!(ones_complement_sum(&[0x12]), 0x1200);
    assert_eq!(ones_complement_sum(&[0x12, 0x34]), 0x1234);
    assert_eq!(ones_complement_sum(&[0xff, 0xff, 0x00, 0x01]), 0x0001);
    assert_eq!(ones_complement_sum(&[0xff, 0xff, 0xff, 0xff]), 0xffff);
    assert_eq!(ones_complement_sum(&[0x80, 0x00, 0x80, 0x00, 0x01]), 0x0101);
    // the header of RFC 1071's kind: 0x4500 + 0x0016 + 0x1234 + 0x2002 + 0x4011 + 0x0a00
    // + 0x0001 + 0x0a00 + 0x0002 = 0xcb60, whose complement is 0x349f
    let header = [
        0x45, 0x00, 0x00, 0x16, 0x12, 0x34, 0x20, 0x02, 0x40, 0x11, 0x00, 0x00, 0x0a, 0x00, 0x00,
        0x01, 0x0a, 0x00, 0x00, 0x02,
    ];
    assert_eq!(ones_complement_sum(&header), 0xcb60);
}

#[test]
fn sum_of_the_longest_input() {
    assert_eq!(ones_complement_sum(&vec![0xff; 65536]), 0xffff);
    // 32767 words of 0x0101 and one of 0x0100 make 0x80_7fff
    assert_eq!(ones_complement_sum(&vec![0x01; 65535]), 0x807f);
}

#[test]
fn header_checksum_is_the_complement_of_the_sum() {
    let mut rng = Lcg(1);
    for round in 0..500 {
        let words = 5 + round % 11;
        let mut header = rng.bytes(4 * words + round % 7);
        header[0] = 0x40 | words as u8;
        header[10] = 0;
        header[11] = 0;
        let expected = !ones_complement_sum(&header[..4 * words]);
        let mut packet = Ipv4Packet::new_unchecked(&mut header[..]);
        packet.fill_checksum();
        assert_eq!(packet.checksum(), expected);
        assert!(packet.verify_checksum());
        assert_eq!(ones_complement_sum(&header[..4 * words]), 0xffff);
    }
}

#[test]
fn header_verification_is_the_sum_being_all_ones() {
    let mut rng = Lcg(2);
    let mut valid = 0;
    for round in 0..2000 {
        let mut header = rng.bytes(20);
        header[0] = 0x45;
        if round % 2 == 0 {
            Ipv4Packet::new_unchecked(&mut header[..]).fill_checksum();
            header[1 + round % 19] ^= (round % 3) as u8;
        }
        let ok = Ipv4Packet::new_unchecked(&header[..]).verify_checksum();
        assert_eq!(ok, ones_complement_sum(&header) == 0xffff);
        if ok {
            valid += 1;
        }
    }
    assert!(valid > 100);
}

#[test]
fn datagram_checksum_is_the_complement_of_the_sum_with_pseudo_header() {
    let mut rng = Lcg(3);
    for round in 0..300 {
        let payload_len = round * 7 % 1500;
        let src = [rng.next(), rng.next(), rng.next(), rng.next()];
        let dst = [rng.next(), rng.next(), rng.next(), rng.next()];
        let mut datagram = rng.bytes(8 + payload_len);
        let len = datagram.len() as u16;
        datagram[4] = (len >> 8) as u8;
        datagram[5] = len as u8;
        datagram[6] = 0;
        datagram[7] = 0;
        let mut summed = Vec::new();
        summed.extend_from_slice(&src);
        summed.extend_from_slice(&dst);
        summed.extend_from_slice(&[0, 17, (len >> 8) as u8, len as u8]);
        summed.extend_from_slice(&datagram);
        let complement = !ones_complement_sum(&summed);
        let expected = if complement == 0 { 0xffff } else { complement };
        let src = IpAddress::Ipv4(Ipv4Address(src));
        let dst = IpAddress::Ipv4(Ipv4Address(dst));
        let mut packet = UdpPacket::new_unchecked(&mut datagram[..]);
        packet.fill_checksum(&src, &dst);
        assert_eq!(packet.checksum(), expected);
        assert!(packet.verify_checksum(&src, &dst));
    }
}
