use firewall::boundary::{
    copy_data_to_client_buf, dispatch_data_to_ethdriver, fetch_client_data, sel4_buffer_fetch,
    sel4_buffer_insert, EthdriverRxStatus, ExternalFirewallWrapper, Mutex,
};
use firewall::constants::BUFFER_SIZE;
use std::cell::Cell;

#[test]
fn copy_into_client_region_reports_length() {
    let mut region = vec![0xaau8; 16];
    let copied = copy_data_to_client_buf(vec![1, 2, 3], &mut region);
    assert_eq!(copied, 3);
    assert_eq!(&region[..4], &[1, 2, 3, 0xaa]);
}

#[test]
fn copy_is_bounded_by_the_region() {
    let mut region = vec![0u8; 4];
    assert_eq!(sel4_buffer_insert(&[7; 10], &mut region), 4);
    assert_eq!(region, vec![7; 4]);
}

#[test]
fn copy_is_bounded_by_the_buffer_size() {
    let mut region = vec![0u8; BUFFER_SIZE + 8];
    assert_eq!(sel4_buffer_insert(&vec![7; BUFFER_SIZE + 5], &mut region), BUFFER_SIZE);
    assert_eq!(region[BUFFER_SIZE - 1], 7);
    assert_eq!(region[BUFFER_SIZE], 0);
    assert_eq!(sel4_buffer_fetch(BUFFER_SIZE + 3, &region).len(), BUFFER_SIZE);
}

#[test]
fn fetch_from_client_region_returns_prefix() {
    let region = vec![9u8, 8, 7, 6];
    assert_eq!(fetch_client_data(2, &region), vec![9, 8]);
    assert_eq!(fetch_client_data(0, &region), Vec::<u8>::new());
    assert_eq!(fetch_client_data(10, &region), vec![9, 8, 7, 6]);
}

#[test]
fn dispatch_tells_the_driver_the_length_and_returns_its_status() {
    let seen = Cell::new(0);
    let mut region = vec![0u8; 32];
    let status = dispatch_data_to_ethdriver(vec![5; 9], &mut region, |len| {
        seen.set(len);
        -1
    });
    assert_eq!(status, -1);
    assert_eq!(seen.get(), 9);
    assert_eq!(&region[..10], &[5, 5, 5, 5, 5, 5, 5, 5, 5, 0]);
    assert_eq!(dispatch_data_to_ethdriver(vec![1], &mut region, |_| 0), 0);
}

#[test]
fn rx_burst_ends_on_last_frame() {
    let region = vec![5u8; 8];
    let mut status = EthdriverRxStatus::new();
    assert!(!status.is_finished());
    assert_eq!(status.next(1, 3, &region), Some(vec![5, 5, 5]));
    assert!(!status.is_finished());
    assert_eq!(status.next(-1, 0, &region), None);
    assert!(!status.is_finished());
    assert_eq!(status.next(0, 2, &region), Some(vec![5, 5]));
    assert!(status.is_finished());
    assert_eq!(status.next(1, 2, &region), None);
    assert!(status.is_finished());
}

#[test]
fn rx_length_below_zero_yields_an_empty_frame() {
    let region = vec![5u8; 8];
    let mut status = EthdriverRxStatus::new();
    assert_eq!(status.next(1, -4, &region), Some(Vec::new()));
}

#[test]
fn mutex_runs_the_operations_it_was_given() {
    let depth = Cell::new(0);
    let m = Mutex::new(|| depth.set(depth.get() + 1), || depth.set(depth.get() - 1));
    m.lock();
    assert_eq!(depth.get(), 1);
    m.unlock();
    assert_eq!(depth.get(), 0);
}

#[test]
fn wrapper_passes_arguments_and_answer_through() {
    let w = ExternalFirewallWrapper::new(
        |a: u32, b: u16, c: u32, d: u16, e: u16, mut buf: Vec<u8>, f: u16| {
            buf.push(f as u8);
            ((a + b as u32 + c + d as u32 + e as u32) as i32, buf)
        },
    );
    assert_eq!(w.call(1, 2, 3, 4, 5, vec![9], 6), (15, vec![9, 6]));
}
