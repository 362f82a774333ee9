//! Glue for the buffers and callbacks shared with the host.
//!
//! The host owns two byte regions (one shared with the driver, one with the
//! client), a lock for each, and the policy callback.  This module holds the
//! parts of that boundary which are plain computation: bounded copies in and
//! out of a region, the bookkeeping of a receive burst, and thin holders for
//! the host's callables.

use vstd::prelude::*;
use crate::constants::BUFFER_SIZE;

verus! {

/// A pair of host-provided lock and unlock operations.
pub struct Mutex<L, U> {
    inner_lock: L,
    inner_unlock: U,
}

impl<L: Fn(), U: Fn()> Mutex<L, U> {
    /// The operation that acquires the lock.
    pub closed spec fn lock_op(&self) -> L {
        self.inner_lock
    }

    /// The operation that releases the lock.
    pub closed spec fn unlock_op(&self) -> U {
        self.inner_unlock
    }

    pub fn new(lock: L, unlock: U) -> (m: Self)
        ensures
            m.lock_op() == lock,
            m.unlock_op() == unlock,
    {
        Mutex { inner_lock: lock, inner_unlock: unlock }
    }

    /// Runs the host's lock operation.
    pub fn lock(&self)
        requires
            call_requires(self.lock_op(), ()),
        ensures
            call_ensures(self.lock_op(), (), ()),
    {
        (self.inner_lock)()
    }

    /// Runs the host's unlock operation.
    pub fn unlock(&self)
        requires
            call_requires(self.unlock_op(), ()),
        ensures
            call_ensures(self.unlock_op(), (), ()),
    {
        (self.inner_unlock)()
    }
}

/// Holder of the external policy: a callable that is given the UDP
/// five-tuple, the payload length, the payload buffer and the buffer's
/// capacity, and answers with a verdict and the buffer as it left it.
pub struct ExternalFirewallWrapper<F> {
    f: F,
}

impl<F: Fn(u32, u16, u32, u16, u16, Vec<u8>, u16) -> (i32, Vec<u8>)> ExternalFirewallWrapper<F> {
    /// The wrapped callable.
    pub closed spec fn policy(&self) -> F {
        self.f
    }

    pub fn new(f: F) -> (w: Self)
        ensures
            w.policy() == f,
    {
        ExternalFirewallWrapper { f }
    }

    /// Consults the policy once.
    pub fn call(
        &self,
        src_addr: u32,
        src_port: u16,
        dst_addr: u32,
        dst_port: u16,
        payload_len: u16,
        payload: Vec<u8>,
        max_payload_len: u16,
    ) -> (answer: (i32, Vec<u8>))
        requires
            call_requires(
                self.policy(),
                (src_addr, src_port, dst_addr, dst_port, payload_len, payload, max_payload_len),
            ),
        ensures
            call_ensures(
                self.policy(),
                (src_addr, src_port, dst_addr, dst_port, payload_len, payload, max_payload_len),
                answer,
            ),
    {
        (self.f)(src_addr, src_port, dst_addr, dst_port, payload_len, payload, max_payload_len)
    }
}

/// Number of bytes a copy of `wanted` bytes moves when the region on the
/// other side holds `region` bytes: never more than either, nor than
/// `BUFFER_SIZE`.
pub open spec fn bounded_len(wanted: int, region: int) -> int {
    let cap = if region <= BUFFER_SIZE as int { region } else { BUFFER_SIZE as int };
    if wanted <= cap { wanted } else { cap }
}

/// What a region holds after `data` was copied to its start.
pub open spec fn region_after_insert(data: Seq<u8>, region: Seq<u8>) -> Seq<u8> {
    let n = bounded_len(data.len() as int, region.len() as int);
    data.subrange(0, n) + region.subrange(n, region.len() as int)
}

/// The first `len` bytes of a region, as far as the bound allows.
pub open spec fn region_prefix(len: int, region: Seq<u8>) -> Seq<u8> {
    region.subrange(0, bounded_len(len, region.len() as int))
}

fn bounded_count(wanted: usize, region: usize) -> (n: usize)
    ensures
        n == bounded_len(wanted as int, region as int),
{
    let cap = if region <= BUFFER_SIZE { region } else { BUFFER_SIZE };
    if wanted <= cap { wanted } else { cap }
}

/// Copies `data` to the start of `buffer` and returns the number of bytes
/// copied.  The rest of the buffer keeps its contents.
pub fn sel4_buffer_insert(data: &[u8], buffer: &mut [u8]) -> (n: usize)
    ensures
        n == bounded_len(data@.len() as int, old(buffer)@.len() as int),
        final(buffer)@ == region_after_insert(data@, old(buffer)@),
{
    let n = bounded_count(data.len(), buffer.len());
    let mut i: usize = 0;
    while i < n
        invariant
            i <= n,
            n <= data@.len(),
            n <= buffer@.len(),
            buffer@.len() == old(buffer)@.len(),
            buffer@ == data@.subrange(0, i as int) + old(buffer)@.subrange(
                i as int,
                old(buffer)@.len() as int,
            ),
        decreases n - i,
    {
        buffer[i] = data[i];
        i += 1;
    }
    n
}

/// Copies the first `len` bytes out of `buffer`.
pub fn sel4_buffer_fetch(len: usize, buffer: &[u8]) -> (data: Vec<u8>)
    ensures
        data@ == region_prefix(len as int, buffer@),
{
    let n = bounded_count(len, buffer.len());
    let mut data: Vec<u8> = Vec::with_capacity(n);
    let mut i: usize = 0;
    while i < n
        invariant
            i <= n,
            n <= buffer@.len(),
            data@ == buffer@.subrange(0, i as int),
        decreases n - i,
    {
        data.push(buffer[i]);
        i += 1;
    }
    data
}

/// Hands `data` to the driver for sending: copies it into the driver's
/// region, tells the driver how many bytes were copied, and passes the
/// driver's status on as it is (zero where the driver took the frame).
pub fn dispatch_data_to_ethdriver<T: Fn(i32) -> i32>(
    data: Vec<u8>,
    driver_buf: &mut [u8],
    ethdriver_tx: T,
) -> (status: i32)
    requires
        forall|len: i32| call_requires(ethdriver_tx, (len,)),
    ensures
        final(driver_buf)@ == region_after_insert(data@, old(driver_buf)@),
        call_ensures(
            ethdriver_tx,
            (bounded_len(data@.len() as int, old(driver_buf)@.len() as int) as i32,),
            status,
        ),
{
    let len = sel4_buffer_insert(data.as_slice(), driver_buf);
    ethdriver_tx(len as i32)
}

/// Copies `data` into the client's region and returns the number of bytes
/// that were copied.
pub fn copy_data_to_client_buf(data: Vec<u8>, client_buf: &mut [u8]) -> (copied: i32)
    ensures
        copied == bounded_len(data@.len() as int, old(client_buf)@.len() as int),
        final(client_buf)@ == region_after_insert(data@, old(client_buf)@),
{
    let n = sel4_buffer_insert(data.as_slice(), client_buf);
    n as i32
}

/// Copies `len` bytes out of the client's region.
pub fn fetch_client_data(len: usize, client_buf: &[u8]) -> (data: Vec<u8>)
    ensures
        data@ == region_prefix(len as int, client_buf@),
{
    sel4_buffer_fetch(len, client_buf)
}

/// Progress of one receive burst from the driver.
#[derive(Debug)]
pub struct EthdriverRxStatus {
    finished: bool,
}

/// The driver has nothing to deliver.
pub const RX_NO_DATA: i32 = -1;

/// The driver delivered its last pending frame.
pub const RX_LAST: i32 = 0;

/// The driver delivered a frame and holds more.
pub const RX_MORE: i32 = 1;

impl EthdriverRxStatus {
    /// True once the driver has reported its last pending frame.
    pub closed spec fn finished(&self) -> bool {
        self.finished
    }

    pub fn new() -> (s: EthdriverRxStatus)
        ensures
            !s.finished(),
    {
        EthdriverRxStatus { finished: false }
    }

    pub fn is_finished(&self) -> (b: bool)
        ensures
            b == self.finished(),
    {
        self.finished
    }

    /// The frame a receive step yields: none once the burst is over or when
    /// the driver has no data, otherwise the bytes the driver left in its
    /// region.
    pub open spec fn yielded(finished: bool, rx_status: i32, rx_len: i32, region: Seq<u8>) -> Option<
        Seq<u8>,
    > {
        if finished || rx_status == RX_NO_DATA {
            None
        } else {
            Some(region_prefix(if rx_len < 0 { 0 } else { rx_len as int }, region))
        }
    }

    /// Takes the driver's answer to one receive call: its status, the
    /// length it reported and its region.  The driver must not be asked
    /// again once the burst is finished.
    pub fn next(&mut self, rx_status: i32, rx_len: i32, driver_buf: &[u8]) -> (frame: Option<
        Vec<u8>,
    >)
        requires
            RX_NO_DATA <= rx_status <= RX_MORE,
        ensures
            frame is Some == Self::yielded(old(self).finished(), rx_status, rx_len, driver_buf@) is Some,
            frame is Some ==> frame->0@ == Self::yielded(
                old(self).finished(),
                rx_status,
                rx_len,
                driver_buf@,
            )->0,
            final(self).finished() == (old(self).finished() || rx_status == RX_LAST),
    {
        if self.finished || rx_status == RX_NO_DATA {
            return None;
        }
        if rx_status == RX_LAST {
            self.finished = true;
        }
        let len: usize = if rx_len < 0 { 0 } else { rx_len as usize };
        Some(sel4_buffer_fetch(len, driver_buf))
    }
}

} // verus!
