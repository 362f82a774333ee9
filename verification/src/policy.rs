//! Consulting the external policy on a UDP datagram.
//!
//! The policy sees the addresses and ports of a datagram and a buffer
//! that starts with the datagram's payload.  It may change the buffer
//! and returns a number, its verdict.  A positive verdict accepts the
//! datagram and is the length of the payload to send on; any other
//! rejects it.

use vstd::prelude::*;
use crate::boundary::ExternalFirewallWrapper;
use crate::constants::{MAX_UDP_PACKET_SIZE, MAX_UDP_PAYLOAD_SIZE};
use crate::error::Error;
use crate::wire::udp;
use crate::wire::udp::{build_datagram, datagram_bytes, UDP_HEADER_LEN};

verus! {

/// The buffer handed to the policy: the payload, followed by zeros up to
/// `MAX_UDP_PAYLOAD_SIZE` octets where the payload is shorter than that.
pub open spec fn policy_buffer(payload: Seq<u8>) -> Seq<u8> {
    if payload.len() >= MAX_UDP_PAYLOAD_SIZE {
        payload
    } else {
        payload + Seq::new((MAX_UDP_PAYLOAD_SIZE - payload.len()) as nat, |i: int| 0u8)
    }
}

/// The verdict accepts the datagram: it is positive, at most
/// `MAX_UDP_PACKET_SIZE`, and the buffer holds that many octets.
pub open spec fn accepted(verdict: int, buffer: Seq<u8>) -> bool {
    0 < verdict <= MAX_UDP_PACKET_SIZE && verdict <= buffer.len()
}

/// What follows from the policy's answer.  On acceptance it is the
/// datagram built around the first `verdict` octets of the buffer, with the ports given and a
/// checksum of its own; otherwise `Dropped`.
pub open spec fn verdict_outcome(
    src_port: int,
    dst_port: int,
    src_addr: int,
    dst_addr: int,
    verdict: int,
    buffer: Seq<u8>,
) -> Result<Seq<u8>, Error> {
    if accepted(verdict, buffer) {
        Ok(datagram_bytes(src_port, dst_port, buffer.subrange(0, verdict), src_addr, dst_addr))
    } else {
        Err(Error::Dropped)
    }
}

/// What becomes of the UDP datagram `ip_payload`, sent from `src_addr` to
/// `dst_addr`, when the policy answers with `verdict` and `buffer`:
/// `Malformed` if the datagram is not well formed (the policy is then not
/// consulted), otherwise what follows from the verdict.
pub open spec fn udp_outcome(
    ip_payload: Seq<u8>,
    src_addr: int,
    dst_addr: int,
    verdict: int,
    buffer: Seq<u8>,
) -> Result<Seq<u8>, Error> {
    if !udp::well_formed(ip_payload, src_addr, dst_addr) {
        Err(Error::Malformed)
    } else {
        verdict_outcome(
            udp::src_port(ip_payload),
            udp::dst_port(ip_payload),
            src_addr,
            dst_addr,
            verdict,
            buffer,
        )
    }
}

/// The octets behind a result, if it carries any.
pub open spec fn datagram_view(r: Result<Vec<u8>, Error>) -> Result<Seq<u8>, Error> {
    match r {
        Ok(d) => Ok(d@),
        Err(e) => Err(e),
    }
}

/// Largest length the policy is told of: that of the buffer handed over.
pub open spec fn policy_capacity(payload: Seq<u8>) -> int {
    policy_buffer(payload).len() as int
}

/// The policy `f`, handed the buffer `handed` along with the addresses,
/// ports and payload length of the datagram `ip_payload`, can give
/// `answer`.
pub open spec fn policy_gave<F: Fn(u32, u16, u32, u16, u16, Vec<u8>, u16) -> (i32, Vec<u8>)>(
    f: F,
    ip_payload: Seq<u8>,
    src_addr: u32,
    dst_addr: u32,
    handed: Vec<u8>,
    answer: (i32, Vec<u8>),
) -> bool {
    call_ensures(
        f,
        (
            src_addr,
            udp::src_port(ip_payload) as u16,
            dst_addr,
            udp::dst_port(ip_payload) as u16,
            udp::payload(ip_payload).len() as u16,
            handed,
            policy_capacity(udp::payload(ip_payload)) as u16,
        ),
        answer,
    )
}

/// `verdict` and `buffer` are an answer that the policy `f` can give when
/// it is consulted on the datagram `ip_payload` from `src_addr` to
/// `dst_addr`.
pub open spec fn policy_answered<F: Fn(u32, u16, u32, u16, u16, Vec<u8>, u16) -> (i32, Vec<u8>)>(
    f: F,
    ip_payload: Seq<u8>,
    src_addr: u32,
    dst_addr: u32,
    verdict: int,
    buffer: Seq<u8>,
) -> bool {
    exists|handed: Vec<u8>, answer: (i32, Vec<u8>)|
        {
            &&& #[trigger] policy_gave(f, ip_payload, src_addr, dst_addr, handed, answer)
            &&& handed@ == policy_buffer(udp::payload(ip_payload))
            &&& answer.0 == verdict
            &&& answer.1@ == buffer
        }
}

/// The policy `f` can answer with `verdict` and `buffer` when it is
/// consulted on the datagram `ip_payload`, and `sent` is what follows
/// from that answer.
pub open spec fn answered_with<F: Fn(u32, u16, u32, u16, u16, Vec<u8>, u16) -> (i32, Vec<u8>)>(
    f: F,
    ip_payload: Seq<u8>,
    src_addr: u32,
    dst_addr: u32,
    sent: Result<Seq<u8>, Error>,
    verdict: int,
    buffer: Seq<u8>,
) -> bool {
    &&& policy_answered(f, ip_payload, src_addr, dst_addr, verdict, buffer)
    &&& sent == udp_outcome(ip_payload, src_addr as int, dst_addr as int, verdict, buffer)
}

/// Acts on the policy's answer for a datagram with the given ports and
/// addresses.
pub fn apply_verdict(
    src_port: u16,
    dst_port: u16,
    src_addr: u32,
    dst_addr: u32,
    verdict: i32,
    buffer: &[u8],
) -> (r: Result<Vec<u8>, Error>)
    ensures
        datagram_view(r) == verdict_outcome(
            src_port as int,
            dst_port as int,
            src_addr as int,
            dst_addr as int,
            verdict as int,
            buffer@,
        ),
{
    if verdict <= 0 {
        return Err(Error::Dropped);
    }
    let len = verdict as usize;
    if len > MAX_UDP_PACKET_SIZE || len > buffer.len() {
        return Err(Error::Dropped);
    }
    Ok(build_datagram(src_port, dst_port, &buffer[0..len], src_addr, dst_addr))
}

/// Makes the buffer that is handed to the policy.
fn make_policy_buffer(payload: &[u8]) -> (buffer: Vec<u8>)
    ensures
        buffer@ == policy_buffer(payload@),
{
    let mut buffer: Vec<u8> = Vec::with_capacity(MAX_UDP_PAYLOAD_SIZE);
    let mut i: usize = 0;
    while i < payload.len()
        invariant
            i <= payload@.len(),
            buffer@ == payload@.subrange(0, i as int),
        decreases payload@.len() - i,
    {
        buffer.push(payload[i]);
        i += 1;
    }
    assert(buffer@ == payload@);
    while buffer.len() < MAX_UDP_PAYLOAD_SIZE
        invariant
            payload@.len() <= buffer@.len(),
            buffer@.len() <= MAX_UDP_PAYLOAD_SIZE || buffer@.len() == payload@.len(),
            buffer@.subrange(0, payload@.len() as int) == payload@,
            forall|j: int| payload@.len() <= j < buffer@.len() ==> buffer@[j] == 0,
        decreases MAX_UDP_PAYLOAD_SIZE - buffer@.len(),
    {
        buffer.push(0);
    }
    assert(buffer@ =~= policy_buffer(payload@));
    buffer
}

/// Validates the UDP datagram `ip_payload`, consults the policy on it,
/// and on acceptance rebuilds the datagram around the payload the policy
/// left.
pub fn process_udp<F: Fn(u32, u16, u32, u16, u16, Vec<u8>, u16) -> (i32, Vec<u8>)>(
    src_addr: u32,
    dst_addr: u32,
    ip_payload: &[u8],
    external_firewall_fn: &ExternalFirewallWrapper<F>,
) -> (r: Result<Vec<u8>, Error>)
    requires
        forall|args: (u32, u16, u32, u16, u16, Vec<u8>, u16)|
            call_requires(external_firewall_fn.policy(), args),
    ensures
        !udp::well_formed(ip_payload@, src_addr as int, dst_addr as int) ==> datagram_view(r)
            == Err::<Seq<u8>, Error>(Error::Malformed),
        udp::well_formed(ip_payload@, src_addr as int, dst_addr as int) ==> exists|
            verdict: int,
            buffer: Seq<u8>,
        | #[trigger]
            answered_with(
                external_firewall_fn.policy(),
                ip_payload@,
                src_addr,
                dst_addr,
                datagram_view(r),
                verdict,
                buffer,
            ),
{
    let header = match udp::parse(ip_payload, src_addr, dst_addr) {
        Ok(h) => h,
        Err(e) => {
            return Err(e);
        },
    };
    let payload = &ip_payload[UDP_HEADER_LEN..header.length as usize];
    let handed = make_policy_buffer(payload);
    let capacity = handed.len();
    let ghost handed_copy = handed;
    let answer = external_firewall_fn.call(
        src_addr,
        header.src_port,
        dst_addr,
        header.dst_port,
        payload.len() as u16,
        handed,
        capacity as u16,
    );
    let r = apply_verdict(
        header.src_port,
        header.dst_port,
        src_addr,
        dst_addr,
        answer.0,
        answer.1.as_slice(),
    );
    proof {
        assert(policy_gave(
            external_firewall_fn.policy(),
            ip_payload@,
            src_addr,
            dst_addr,
            handed_copy,
            answer,
        ));
        assert(answered_with(
            external_firewall_fn.policy(),
            ip_payload@,
            src_addr,
            dst_addr,
            datagram_view(r),
            answer.0 as int,
            answer.1@,
        ));
    }
    r
}

} // verus!
