use firewall::constants::{
    FRAGMENT_STALE_AFTER, MAX_REASSEMBLED_FRAGMENT_SIZE, MTU_UDP, SUPPORTED_FRAGMENTS,
};
use firewall::error::Error;
use firewall::fragmenter::fragment_large_udp_packet;
use firewall::ident::IdentGenerator;
use firewall::reassembly::{process_ipv4_fragment, FragmentEntry, FragmentKey, FragmentTable};
use firewall::wire::ipv4;
use smoltcp::wire::Ipv4Packet;

const SRC: u32 = 0x0a00_0001;
const DST: u32 = 0x0a00_0002;

fn pattern(len: usize) -> Vec<u8> {
    (0..len).map(|i| (i * 13 % 256) as u8).collect()
}

fn piece(ident: u16, offset: u16, more: bool, payload: &[u8]) -> Vec<u8> {
    ipv4::build_packet(SRC, DST, ident, offset, more, payload)
}

fn expect_datagram(result: Result<Option<Vec<u8>>, Error>, ident: u16, body: &[u8]) {
    let datagram = result.unwrap().unwrap();
    let packet = Ipv4Packet::new_checked(&datagram[..]).unwrap();
    assert!(packet.verify_checksum());
    assert_eq!(packet.total_len() as usize, 20 + body.len());
    assert_eq!(datagram.len(), 20 + body.len());
    assert_eq!(packet.ident(), ident);
    assert_eq!(packet.payload(), body);
    assert!(ipv4::parse(&datagram).is_ok());
}

#[test]
fn table_starts_out_empty() {
    let mut table = FragmentTable::new();
    assert_eq!(table.timestamp(), 1);
    assert_eq!(table.timestamp(), 2);
    let entry = FragmentEntry::new();
    assert!(entry.is_empty());
    assert_eq!(entry.key(), None);
    assert_eq!(entry.last_used(), 0);
}

#[test]
fn fragments_in_order_are_reassembled() {
    let body = pattern(40);
    let mut table = FragmentTable::new();
    assert_eq!(process_ipv4_fragment(&piece(3, 0, true, &body[..16]), 1, &mut table), Ok(None));
    assert_eq!(process_ipv4_fragment(&piece(3, 16, true, &body[16..32]), 2, &mut table), Ok(None));
    expect_datagram(process_ipv4_fragment(&piece(3, 32, false, &body[32..]), 3, &mut table), 3, &body);
}

#[test]
fn fragments_in_every_order_are_reassembled() {
    let body = pattern(24);
    let pieces = [
        piece(8, 0, true, &body[0..8]),
        piece(8, 8, true, &body[8..16]),
        piece(8, 16, false, &body[16..24]),
    ];
    for order in [[0, 1, 2], [0, 2, 1], [1, 0, 2], [1, 2, 0], [2, 0, 1], [2, 1, 0]] {
        let mut table = FragmentTable::new();
        assert_eq!(process_ipv4_fragment(&pieces[order[0]], 1, &mut table), Ok(None));
        assert_eq!(process_ipv4_fragment(&pieces[order[1]], 2, &mut table), Ok(None));
        expect_datagram(process_ipv4_fragment(&pieces[order[2]], 3, &mut table), 8, &body);
    }
}

#[test]
fn fragmenter_output_is_reassembled() {
    let body = pattern(3 * MTU_UDP + 100);
    let mut ids = IdentGenerator::new();
    let packets = fragment_large_udp_packet(&body, SRC, DST, 0x5151, &mut ids);
    assert_eq!(packets.len(), 4);
    let mut table = FragmentTable::new();
    for k in [3usize, 0, 2] {
        assert_eq!(process_ipv4_fragment(&packets[k], k as u64 + 1, &mut table), Ok(None));
    }
    expect_datagram(process_ipv4_fragment(&packets[1], 9, &mut table), 0x5151, &body);
}

#[test]
fn slot_is_free_again_after_completion() {
    let body = pattern(16);
    let mut table = FragmentTable::new();
    for round in 0..(2 * SUPPORTED_FRAGMENTS as u16) {
        assert_eq!(process_ipv4_fragment(&piece(round, 8, false, &body[8..]), 1, &mut table), Ok(None));
        expect_datagram(
            process_ipv4_fragment(&piece(round, 0, true, &body[..8]), 2, &mut table),
            round,
            &body,
        );
    }
}

#[test]
fn datagrams_are_kept_apart_by_key() {
    let a = pattern(16);
    let b: Vec<u8> = a.iter().map(|x| !x).collect();
    let mut table = FragmentTable::new();
    assert_eq!(process_ipv4_fragment(&piece(1, 0, true, &a[..8]), 1, &mut table), Ok(None));
    assert_eq!(process_ipv4_fragment(&piece(2, 0, true, &b[..8]), 2, &mut table), Ok(None));
    expect_datagram(process_ipv4_fragment(&piece(2, 8, false, &b[8..]), 3, &mut table), 2, &b);
    expect_datagram(process_ipv4_fragment(&piece(1, 8, false, &a[8..]), 4, &mut table), 1, &a);
}

#[test]
fn full_table_refuses_a_new_datagram() {
    let body = pattern(8);
    let mut table = FragmentTable::new();
    for ident in 0..SUPPORTED_FRAGMENTS as u16 {
        assert_eq!(process_ipv4_fragment(&piece(ident, 0, true, &body), 5, &mut table), Ok(None));
    }
    assert_eq!(
        process_ipv4_fragment(&piece(100, 0, true, &body), 6, &mut table),
        Err(Error::FragmentSetFull)
    );
    // a datagram that has a slot is still served
    expect_datagram(
        process_ipv4_fragment(&piece(2, 8, false, &body), 7, &mut table),
        2,
        &[&body[..], &body[..]].concat(),
    );
    // and the slot it gave up can be had
    assert_eq!(process_ipv4_fragment(&piece(100, 0, true, &body), 8, &mut table), Ok(None));
}

#[test]
fn stale_slot_is_taken_over() {
    let body = pattern(8);
    let mut table = FragmentTable::new();
    for ident in 0..SUPPORTED_FRAGMENTS as u16 {
        assert_eq!(process_ipv4_fragment(&piece(ident, 0, true, &body), 10, &mut table), Ok(None));
    }
    let edge = 10 + FRAGMENT_STALE_AFTER;
    assert_eq!(
        process_ipv4_fragment(&piece(100, 0, true, &body), edge, &mut table),
        Err(Error::FragmentSetFull)
    );
    assert_eq!(process_ipv4_fragment(&piece(100, 0, true, &body), edge + 1, &mut table), Ok(None));
    // the datagram that lost its slot starts over in another stale slot
    assert_eq!(process_ipv4_fragment(&piece(0, 8, false, &body), edge + 2, &mut table), Ok(None));
    expect_datagram(
        process_ipv4_fragment(&piece(100, 8, false, &body), edge + 3, &mut table),
        100,
        &[&body[..], &body[..]].concat(),
    );
}

#[test]
fn fragment_beyond_the_buffer_gives_up_the_datagram() {
    let body = pattern(64);
    let mut table = FragmentTable::new();
    assert_eq!(process_ipv4_fragment(&piece(4, 0, true, &body[..8]), 1, &mut table), Ok(None));
    let far = (MAX_REASSEMBLED_FRAGMENT_SIZE - 20 - 8) as u16 / 8 * 8;
    assert_eq!(
        process_ipv4_fragment(&piece(4, far, false, &body[..16]), 2, &mut table),
        Err(Error::TooManyFragments)
    );
    // what had been collected is gone
    assert_eq!(process_ipv4_fragment(&piece(4, 8, false, &body[8..16]), 3, &mut table), Ok(None));
    expect_datagram(
        process_ipv4_fragment(&piece(4, 0, true, &body[..8]), 4, &mut table),
        4,
        &body[..16],
    );
}

#[test]
fn fragment_that_just_fits_is_taken() {
    let mut table = FragmentTable::new();
    let last: u16 = 65512;
    assert_eq!(last as usize + 20 + 3, MAX_REASSEMBLED_FRAGMENT_SIZE);
    assert_eq!(process_ipv4_fragment(&piece(4, last, false, &[1; 3]), 1, &mut table), Ok(None));
    assert_eq!(
        process_ipv4_fragment(&piece(5, last, false, &[1; 4]), 1, &mut table),
        Err(Error::TooManyFragments)
    );
}

#[test]
fn overlapping_fragments_keep_the_later_octets() {
    let mut table = FragmentTable::new();
    assert_eq!(process_ipv4_fragment(&piece(6, 0, true, &[1; 16]), 1, &mut table), Ok(None));
    assert_eq!(process_ipv4_fragment(&piece(6, 8, true, &[2; 16]), 2, &mut table), Ok(None));
    let mut body = vec![1u8; 8];
    body.extend_from_slice(&[2; 16]);
    body.extend_from_slice(&[3; 4]);
    expect_datagram(process_ipv4_fragment(&piece(6, 24, false, &[3; 4]), 3, &mut table), 6, &body);
}

#[test]
fn slot_lookup_prefers_key_then_empty() {
    let mut table = FragmentTable::new();
    let key = FragmentKey { ident: 1, src_addr: SRC, dst_addr: DST };
    let other = FragmentKey { ident: 2, src_addr: SRC, dst_addr: DST };
    assert_eq!(table.get_packet(key, 1), Some(0));
    // nothing was stored, so the slot is still empty
    assert_eq!(table.get_packet(other, 1), Some(0));
    assert_eq!(process_ipv4_fragment(&piece(1, 0, true, &[0; 8]), 2, &mut table), Ok(None));
    assert_eq!(table.get_packet(key, 3), Some(0));
    assert_eq!(table.get_packet(other, 3), Some(1));
}
