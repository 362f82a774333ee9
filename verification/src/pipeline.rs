//! The per-frame pipeline of one direction.
//!
//! A frame is parsed, filtered by destination address, and told apart
//! by EtherType.  ARP passes unchanged; IPv4 is validated, reassembled
//! where it is a UDP fragment, and told apart by protocol.  ICMP and IGMP
//! pass unchanged; UDP is put before the policy and, if accepted, sent on
//! in packets that fit the link.  Everything else is dropped.

use vstd::prelude::*;
use crate::boundary::ExternalFirewallWrapper;
use crate::constants::{BUFFER_SIZE, ETHERNET_FRAME_PAYLOAD, MTU_UDP};
use crate::error::Error;
use crate::fragmenter::{
    contents, emitted_ident, fits_ipv4, fragment, fragment_faithful, fragment_large_udp_packet,
    fragments, lemma_fragment_faithful, needs_fragmenting,
};
use crate::ident::IdentGenerator;
use crate::policy::{
    accepted, answered_with, datagram_view, policy_answered, process_udp, udp_outcome,
};
use crate::queue::{enqueued, FrameQueue};
use crate::reassembly::{
    fragment_result, next_tick, process_ipv4_fragment, table_after, EntryView, FragmentTable,
};
use crate::wire::ethernet;
use crate::wire::ethernet::{parse_ether_type, frame_addressed_to, EtherType};
use crate::wire::ipv4;
use crate::wire::ipv4::{PROTO_ICMP, PROTO_IGMP, PROTO_UDP};
use crate::wire::udp;
use crate::wire::udp::lemma_datagram_bytes;

verus! {

/// What the pipeline makes of an IPv4 frame before any policy is
/// consulted.
pub enum Inspection {
    /// The frame yields nothing, for the given reason.
    Failed(Error),
    /// The frame is sent on as it came.
    PassThrough,
    /// The frame carries, or completes, the given UDP datagram, whose
    /// fate the policy decides.
    Consult(Seq<u8>),
}

/// The IPv4 packet inside a frame, without a suspected frame check
/// sequence.
pub open spec fn packet_of(frame: Seq<u8>) -> Seq<u8> {
    ipv4::shaved(ethernet::payload(frame))
}

/// The frame holds a well-formed IPv4 packet.
pub open spec fn packet_ok(frame: Seq<u8>) -> bool {
    &&& ethernet::frame_ok(frame)
    &&& ipv4::lengths_ok(ethernet::payload(frame))
    &&& ipv4::well_formed(packet_of(frame))
}

/// The packet goes through reassembly: it is a fragment of a UDP
/// datagram.
pub open spec fn takes_reassembly(p: Seq<u8>) -> bool {
    ipv4::is_fragment(p) && ipv4::protocol(p) == PROTO_UDP
}

/// The frame's packet is handed to the reassembly table.
pub open spec fn reaches_table(frame: Seq<u8>) -> bool {
    packet_ok(frame) && takes_reassembly(packet_of(frame))
}

/// The whole datagram that an IPv4 frame carries or completes, when the
/// reassembly table is in state `table` at time `now`; or the reason for
/// which there is none.
pub open spec fn datagram_of(frame: Seq<u8>, table: Seq<EntryView>, now: u64) -> Result<
    Seq<u8>,
    Error,
> {
    if !packet_ok(frame) {
        Err(Error::Malformed)
    } else if takes_reassembly(packet_of(frame)) {
        match fragment_result(table, packet_of(frame), now) {
            Err(e) => Err(e),
            Ok(None) => Err(Error::Fragmented),
            Ok(Some(d)) => if ipv4::well_formed(d) {
                Ok(d)
            } else {
                Err(Error::Malformed)
            },
        }
    } else {
        Ok(packet_of(frame))
    }
}

/// What is made of a whole datagram, by its protocol.
pub open spec fn dispatch(d: Seq<u8>) -> Inspection {
    if ipv4::protocol(d) == PROTO_ICMP || ipv4::protocol(d) == PROTO_IGMP {
        Inspection::PassThrough
    } else if ipv4::protocol(d) == PROTO_UDP {
        if udp::well_formed(ipv4::payload(d), ipv4::src_addr(d), ipv4::dst_addr(d)) {
            Inspection::Consult(d)
        } else {
            Inspection::Failed(Error::Malformed)
        }
    } else {
        Inspection::Failed(Error::Unrecognized)
    }
}

/// What is made of an IPv4 frame when the reassembly table is in state
/// `table` at time `now`.
pub open spec fn inspection(frame: Seq<u8>, table: Seq<EntryView>, now: u64) -> Inspection {
    match datagram_of(frame, table, now) {
        Err(e) => Inspection::Failed(e),
        Ok(d) => dispatch(d),
    }
}

/// The reassembly table after an IPv4 frame.
pub open spec fn table_stage(frame: Seq<u8>, table: Seq<EntryView>, now: u64) -> Seq<EntryView> {
    if reaches_table(frame) {
        table_after(table, packet_of(frame), now)
    } else {
        table
    }
}

/// The table's clock after an IPv4 frame: it ticks for each fragment.
pub open spec fn clock_stage(frame: Seq<u8>, clock: u64) -> u64 {
    if reaches_table(frame) {
        next_tick(clock)
    } else {
        clock
    }
}

/// Each packet behind the Ethernet header of `frame`.
pub open spec fn framed(frame: Seq<u8>, packets: Seq<Seq<u8>>) -> Seq<Seq<u8>> {
    Seq::new(packets.len(), |k: int| ethernet::header(frame) + packets[k])
}

/// The datagram that is sent on for the datagram `d` when the policy
/// answers with `verdict` and `buffer`.
pub open spec fn approved(d: Seq<u8>, verdict: int, buffer: Seq<u8>) -> Result<Seq<u8>, Error> {
    udp_outcome(ipv4::payload(d), ipv4::src_addr(d), ipv4::dst_addr(d), verdict, buffer)
}

/// The frames emitted for the UDP datagram `d`, which came in or was
/// completed by `frame`, when the policy answers with `verdict` and
/// `buffer` and `fresh` is the next unused identification.
pub open spec fn udp_frames(frame: Seq<u8>, d: Seq<u8>, verdict: int, buffer: Seq<u8>, fresh: int) -> Result<
    Seq<Seq<u8>>,
    Error,
> {
    match approved(d, verdict, buffer) {
        Err(e) => Err(e),
        Ok(sent) => Ok(
            framed(
                frame,
                fragments(
                    sent,
                    ipv4::src_addr(d),
                    ipv4::dst_addr(d),
                    emitted_ident(sent.len() as int, ipv4::ident(d), fresh),
                ),
            ),
        ),
    }
}

/// The frames emitted for an IPv4 frame.  The policy's answer is read
/// only where the inspection ends in `Consult`.
pub open spec fn ipv4_outcome(
    frame: Seq<u8>,
    table: Seq<EntryView>,
    now: u64,
    verdict: int,
    buffer: Seq<u8>,
    fresh: int,
) -> Result<Seq<Seq<u8>>, Error> {
    match inspection(frame, table, now) {
        Inspection::Failed(e) => Err(e),
        Inspection::PassThrough => Ok(seq![frame]),
        Inspection::Consult(d) => udp_frames(frame, d, verdict, buffer, fresh),
    }
}

/// A fresh identification is drawn for the datagram `d`: it is accepted,
/// does not fit one packet, and carries no identification of its own.
pub open spec fn draws_ident(d: Seq<u8>, verdict: int, buffer: Seq<u8>) -> bool {
    match approved(d, verdict, buffer) {
        Err(_) => false,
        Ok(sent) => needs_fragmenting(sent.len() as int) && ipv4::ident(d) == 0,
    }
}

/// The policy `f`, consulted on the datagram `d`, answered with `verdict`
/// and `buffer`; `frames` is what is emitted on that answer and
/// `last_after` the identification last drawn afterwards, `last` being
/// the one last drawn before.
pub open spec fn follows_answer<F: Fn(u32, u16, u32, u16, u16, Vec<u8>, u16) -> (i32, Vec<u8>)>(
    f: F,
    frame: Seq<u8>,
    d: Seq<u8>,
    last: u16,
    frames: Result<Seq<Seq<u8>>, Error>,
    last_after: u16,
    verdict: int,
    buffer: Seq<u8>,
) -> bool {
    &&& policy_answered(
        f,
        ipv4::payload(d),
        ipv4::src_addr(d) as u32,
        ipv4::dst_addr(d) as u32,
        verdict,
        buffer,
    )
    &&& frames == udp_frames(frame, d, verdict, buffer, IdentGenerator::successor(last) as int)
    &&& last_after == (if draws_ident(d, verdict, buffer) {
        IdentGenerator::successor(last)
    } else {
        last
    })
}

/// `frames` and `last_after` are what the IPv4 part of the pipeline can
/// end with when the inspection of `frame` ended with `found`: where the
/// policy is consulted, what follows from some answer it can give;
/// otherwise what the inspection says.
pub open spec fn ends_with<F: Fn(u32, u16, u32, u16, u16, Vec<u8>, u16) -> (i32, Vec<u8>)>(
    f: F,
    frame: Seq<u8>,
    found: Inspection,
    last: u16,
    frames: Result<Seq<Seq<u8>>, Error>,
    last_after: u16,
) -> bool {
    match found {
        Inspection::Consult(d) => exists|verdict: int, buffer: Seq<u8>| #[trigger]
            follows_answer(f, frame, d, last, frames, last_after, verdict, buffer),
        Inspection::PassThrough => frames == Ok::<Seq<Seq<u8>>, Error>(seq![frame]) && last_after
            == last,
        Inspection::Failed(e) => frames == Err::<Seq<Seq<u8>>, Error>(e) && last_after == last,
    }
}

/// The frames behind a result, if it carries any.
pub open spec fn frames_view(r: Result<Vec<Vec<u8>>, Error>) -> Result<Seq<Seq<u8>>, Error> {
    match r {
        Ok(frames) => Ok(contents(frames@)),
        Err(e) => Err(e),
    }
}

/// Puts the Ethernet header of `frame` in front of each packet.
fn frame_packets(frame: &[u8], packets: Vec<Vec<u8>>) -> (frames: Vec<Vec<u8>>)
    requires
        ethernet::frame_ok(frame@),
    ensures
        contents(frames@) == framed(frame@, contents(packets@)),
{
    let mut frames: Vec<Vec<u8>> = Vec::with_capacity(packets.len());
    let mut k: usize = 0;
    while k < packets.len()
        invariant
            k <= packets@.len(),
            ethernet::frame_ok(frame@),
            frames@.len() == k,
            forall|j: int|
                0 <= j < k ==> (#[trigger] frames@[j])@ == ethernet::header(frame@) + packets@[j]@,
        decreases packets@.len() - k,
    {
        let mut out: Vec<u8> = Vec::new();
        out.extend_from_slice(&frame[0..ETHERNET_FRAME_PAYLOAD]);
        out.extend_from_slice(packets[k].as_slice());
        assert(out@ =~= ethernet::header(frame@) + packets@[k as int]@);
        frames.push(out);
        k += 1;
    }
    assert(contents(frames@) =~= framed(frame@, contents(packets@)));
    frames
}

/// Sends the datagram `sent` on: cuts it into packets from `src_addr` to
/// `dst_addr` under the identification `ident`, or a fresh one where it
/// must be split and `ident` is zero, and puts the Ethernet header of
/// `eth_frame` in front of each.
pub fn emit_udp_frames(
    eth_frame: &[u8],
    src_addr: u32,
    dst_addr: u32,
    ident: u16,
    sent: &[u8],
    ids: &mut IdentGenerator,
) -> (frames: Vec<Vec<u8>>)
    requires
        ethernet::frame_ok(eth_frame@),
        fits_ipv4(sent@.len() as int),
    ensures
        contents(frames@) == framed(
            eth_frame@,
            fragments(
                sent@,
                src_addr as int,
                dst_addr as int,
                emitted_ident(
                    sent@.len() as int,
                    ident as int,
                    IdentGenerator::successor(old(ids).last()) as int,
                ),
            ),
        ),
        final(ids).last() == (if needs_fragmenting(sent@.len() as int) && ident == 0 {
            IdentGenerator::successor(old(ids).last())
        } else {
            old(ids).last()
        }),
{
    let packets = fragment_large_udp_packet(sent, src_addr, dst_addr, ident, ids);
    frame_packets(eth_frame, packets)
}

/// Validates the IPv4 packet inside a frame and, where it is a fragment
/// of a UDP datagram, hands it to the reassembly table.  Answers with the
/// whole datagram and its header.
pub fn obtain_datagram(eth_frame: &[u8], fragment_buffer: &mut FragmentTable) -> (r: Result<
    (Vec<u8>, ipv4::Ipv4Header),
    Error,
>)
    requires
        old(fragment_buffer).wf(),
    ensures
        final(fragment_buffer).wf(),
        final(fragment_buffer)@ == table_stage(
            eth_frame@,
            old(fragment_buffer)@,
            next_tick(old(fragment_buffer).clock()),
        ),
        final(fragment_buffer).clock() == clock_stage(eth_frame@, old(fragment_buffer).clock()),
        r is Ok ==> ethernet::frame_ok(eth_frame@),
        (match r {
            Ok((d, h)) => {
                &&& datagram_of(
                    eth_frame@,
                    old(fragment_buffer)@,
                    next_tick(old(fragment_buffer).clock()),
                ) == Ok::<Seq<u8>, Error>(d@)
                &&& ipv4::well_formed(d@)
                &&& h == ipv4::header_of(d@)
            },
            Err(e) => datagram_of(
                eth_frame@,
                old(fragment_buffer)@,
                next_tick(old(fragment_buffer).clock()),
            ) == Err::<Seq<u8>, Error>(e),
        }),
{
    if eth_frame.len() < ETHERNET_FRAME_PAYLOAD {
        return Err(Error::Malformed);
    }
    let eth_payload = &eth_frame[ETHERNET_FRAME_PAYLOAD..eth_frame.len()];
    match ipv4::check_lengths(eth_payload) {
        Err(e) => {
            return Err(e);
        },
        Ok(()) => {},
    }
    let packet = ipv4::shave_crc_from_ipv4(eth_payload);
    let header = match ipv4::parse(packet) {
        Ok(h) => h,
        Err(e) => {
            return Err(e);
        },
    };
    if (header.more_frags || header.frag_offset > 0) && header.protocol == PROTO_UDP {
        let now = fragment_buffer.timestamp();
        match process_ipv4_fragment(packet, now, fragment_buffer) {
            Err(e) => Err(e),
            Ok(None) => Err(Error::Fragmented),
            Ok(Some(d)) => match ipv4::parse(d.as_slice()) {
                Ok(h) => Ok((d, h)),
                Err(e) => Err(e),
            },
        }
    } else {
        let mut d: Vec<u8> = Vec::new();
        d.extend_from_slice(packet);
        assert(d@ =~= packet@);
        Ok((d, header))
    }
}

/// Puts a UDP datagram before the policy and, if it is accepted, cuts
/// what is sent on into packets and frames them.
fn forward_udp<F: Fn(u32, u16, u32, u16, u16, Vec<u8>, u16) -> (i32, Vec<u8>)>(
    eth_frame: &[u8],
    datagram: &[u8],
    header: ipv4::Ipv4Header,
    external_firewall_fn: &ExternalFirewallWrapper<F>,
    ids: &mut IdentGenerator,
) -> (r: Result<Vec<Vec<u8>>, Error>)
    requires
        ethernet::frame_ok(eth_frame@),
        ipv4::well_formed(datagram@),
        ipv4::protocol(datagram@) == PROTO_UDP,
        header == ipv4::header_of(datagram@),
        forall|args: (u32, u16, u32, u16, u16, Vec<u8>, u16)|
            call_requires(external_firewall_fn.policy(), args),
    ensures
        ends_with(
            external_firewall_fn.policy(),
            eth_frame@,
            dispatch(datagram@),
            old(ids).last(),
            frames_view(r),
            final(ids).last(),
        ),
{
    let ip_payload = &datagram[header.header_len as usize..header.total_len as usize];
    let outcome = process_udp(header.src_addr, header.dst_addr, ip_payload, external_firewall_fn);
    let ghost consulted = udp::well_formed(
        ip_payload@,
        header.src_addr as int,
        header.dst_addr as int,
    );
    let ghost (verdict, buffer) = if consulted {
        choose|verdict: int, buffer: Seq<u8>| #[trigger]
            answered_with(
                external_firewall_fn.policy(),
                ip_payload@,
                header.src_addr,
                header.dst_addr,
                datagram_view(outcome),
                verdict,
                buffer,
            )
    } else {
        (0int, Seq::<u8>::empty())
    };
    let r = match outcome {
        Ok(sent) => {
            proof {
                lemma_datagram_bytes(
                    udp::src_port(ip_payload@),
                    udp::dst_port(ip_payload@),
                    buffer.subrange(0, verdict),
                    header.src_addr as int,
                    header.dst_addr as int,
                );
            }
            Ok(
                emit_udp_frames(
                    eth_frame,
                    header.src_addr,
                    header.dst_addr,
                    header.ident,
                    sent.as_slice(),
                    ids,
                ),
            )
        },
        Err(e) => Err(e),
    };
    proof {
        if consulted {
            assert(dispatch(datagram@) == Inspection::Consult(datagram@));
            assert(follows_answer(
                external_firewall_fn.policy(),
                eth_frame@,
                datagram@,
                old(ids).last(),
                frames_view(r),
                ids.last(),
                verdict,
                buffer,
            ));
            assert(dispatch(datagram@)->Consult_0 == datagram@);
        } else {
            assert(dispatch(datagram@) == Inspection::Failed(Error::Malformed));
        }
        assert(ends_with(
            external_firewall_fn.policy(),
            eth_frame@,
            dispatch(datagram@),
            old(ids).last(),
            frames_view(r),
            ids.last(),
        ));
    }
    r
}

/// Runs the IPv4 part of the pipeline on a frame and answers with the
/// frames to send on.  The reassembly table takes the frame's packet in
/// where it is a fragment of a UDP datagram.  The policy is consulted
/// where the frame carries or completes a well-formed UDP datagram, and
/// what is emitted then follows from its answer.
pub fn process_ipv4<F: Fn(u32, u16, u32, u16, u16, Vec<u8>, u16) -> (i32, Vec<u8>)>(
    eth_frame: Vec<u8>,
    fragment_buffer: &mut FragmentTable,
    external_firewall_fn: &ExternalFirewallWrapper<F>,
    ids: &mut IdentGenerator,
) -> (r: Result<Vec<Vec<u8>>, Error>)
    requires
        old(fragment_buffer).wf(),
        forall|args: (u32, u16, u32, u16, u16, Vec<u8>, u16)|
            call_requires(external_firewall_fn.policy(), args),
    ensures
        final(fragment_buffer).wf(),
        final(fragment_buffer)@ == table_stage(
            eth_frame@,
            old(fragment_buffer)@,
            next_tick(old(fragment_buffer).clock()),
        ),
        final(fragment_buffer).clock() == clock_stage(eth_frame@, old(fragment_buffer).clock()),
        ends_with(
            external_firewall_fn.policy(),
            eth_frame@,
            inspection(
                eth_frame@,
                old(fragment_buffer)@,
                next_tick(old(fragment_buffer).clock()),
            ),
            old(ids).last(),
            frames_view(r),
            final(ids).last(),
        ),
{
    let (datagram, header) = match obtain_datagram(eth_frame.as_slice(), fragment_buffer) {
        Ok(found) => found,
        Err(e) => {
            return Err(e);
        },
    };
    if header.protocol == PROTO_ICMP || header.protocol == PROTO_IGMP {
        let mut frames: Vec<Vec<u8>> = Vec::new();
        frames.push(eth_frame);
        assert(contents(frames@) =~= seq![eth_frame@]);
        Ok(frames)
    } else if header.protocol == PROTO_UDP {
        forward_udp(eth_frame.as_slice(), datagram.as_slice(), header, external_firewall_fn, ids)
    } else {
        Err(Error::Unrecognized)
    }
}

/// Every frame that is emitted for a UDP datagram is a frame with a
/// valid IPv4 packet of at most `MTU_UDP` payload octets behind the
/// Ethernet header of the frame that came in, and so fits the buffers
/// shared with the driver and the client.
pub proof fn lemma_udp_frames_fit(
    frame: Seq<u8>,
    d: Seq<u8>,
    verdict: int,
    buffer: Seq<u8>,
    fresh: int,
    k: int,
)
    requires
        ethernet::frame_ok(frame),
        d.len() >= ipv4::IPV4_HEADER_LEN,
        0 <= fresh < 0x1_0000,
        udp_frames(frame, d, verdict, buffer, fresh) is Ok,
        0 <= k < udp_frames(frame, d, verdict, buffer, fresh)->Ok_0.len(),
    ensures
        ({
            let out = udp_frames(frame, d, verdict, buffer, fresh)->Ok_0[k];
            &&& ethernet::frame_ok(out)
            &&& ethernet::header(out) == ethernet::header(frame)
            &&& ipv4::well_formed(ethernet::payload(out))
            &&& ipv4::total_len(ethernet::payload(out)) == ethernet::payload(out).len()
            &&& ipv4::payload(ethernet::payload(out)).len() <= MTU_UDP
            &&& out.len() <= ETHERNET_FRAME_PAYLOAD + ipv4::IPV4_HEADER_LEN + MTU_UDP
            &&& out.len() < BUFFER_SIZE
        }),
{
    let src = ipv4::src_addr(d);
    let dst = ipv4::dst_addr(d);
    let sent = approved(d, verdict, buffer)->Ok_0;
    let ident = emitted_ident(sent.len() as int, ipv4::ident(d), fresh);
    lemma_datagram_bytes(
        udp::src_port(ipv4::payload(d)),
        udp::dst_port(ipv4::payload(d)),
        buffer.subrange(0, verdict),
        src,
        dst,
    );
    lemma_fragment_faithful(sent, src, dst, ident, k);
    assert(fragment_faithful(sent, src, dst, ident, k));
    let packet = fragment(sent, src, dst, ident, k);
    let out = udp_frames(frame, d, verdict, buffer, fresh)->Ok_0[k];
    assert(out == ethernet::header(frame) + packet);
    assert(ethernet::header(out) =~= ethernet::header(frame));
    assert(ethernet::payload(out) =~= packet);
}

/// Where the pipeline sends a frame after looking at its Ethernet
/// header.
pub enum Route {
    /// The frame is too short to be one.
    Reject,
    /// The frame is dropped without notice: it is addressed to another
    /// station, or carries neither IPv4 nor ARP.
    Ignore,
    /// The frame carries ARP and passes unchanged.
    Arp,
    /// The frame carries IPv4 and is inspected further.
    Ipv4,
}

/// The frame carries neither IPv4 nor ARP.
pub open spec fn carries_neither(frame: Seq<u8>) -> bool {
    ethernet::frame_ok(frame) ==> ethernet::ether_type(frame) != EtherType::Ipv4
        && ethernet::ether_type(frame) != EtherType::Arp
}

/// The destination filter is on and the frame is not for this station.
pub open spec fn filtered(frame: Seq<u8>, local_mac: Seq<u8>, check_mac: bool) -> bool {
    check_mac && !ethernet::addressed_to(ethernet::dst_mac(frame), local_mac)
}

pub open spec fn route(frame: Seq<u8>, local_mac: Seq<u8>, check_mac: bool) -> Route {
    if !ethernet::frame_ok(frame) {
        Route::Reject
    } else if filtered(frame, local_mac, check_mac) {
        Route::Ignore
    } else {
        match ethernet::ether_type(frame) {
            EtherType::Ipv4 => Route::Ipv4,
            EtherType::Arp => Route::Arp,
            EtherType::Ipv6 => Route::Ignore,
            EtherType::Other => Route::Ignore,
        }
    }
}

/// The queue after the frames of an outcome were offered to it; an
/// outcome that is an error leaves it as it was.
pub open spec fn queue_after(queue: Seq<Seq<u8>>, frames: Result<Seq<Seq<u8>>, Error>) -> Seq<
    Seq<u8>,
> {
    match frames {
        Ok(emitted) => enqueued(queue, emitted),
        Err(_) => queue,
    }
}

/// What the caller is told of an outcome.
pub open spec fn reported(frames: Result<Seq<Seq<u8>>, Error>) -> Result<(), Error> {
    match frames {
        Ok(_) => Ok(()),
        Err(e) => Err(e),
    }
}

/// `frames` is an outcome the IPv4 part of the pipeline can end with,
/// and `r` and `queue_final` are what the caller is told of it and what
/// the queue holds after it.
pub open spec fn settles_as<F: Fn(u32, u16, u32, u16, u16, Vec<u8>, u16) -> (i32, Vec<u8>)>(
    f: F,
    frame: Seq<u8>,
    found: Inspection,
    last: u16,
    last_after: u16,
    queue: Seq<Seq<u8>>,
    r: Result<(), Error>,
    queue_final: Seq<Seq<u8>>,
    frames: Result<Seq<Seq<u8>>, Error>,
) -> bool {
    &&& ends_with(f, frame, found, last, frames, last_after)
    &&& r == reported(frames)
    &&& queue_final == queue_after(queue, frames)
}

/// Runs the pipeline on one frame.  Frames that result are appended to
/// `packet_buffer` as far as it has room.  The answer is `Ok` where the
/// frame was sent on or dropped without notice, and the reason where it
/// was dropped for one.
pub fn process_ethernet<F: Fn(u32, u16, u32, u16, u16, Vec<u8>, u16) -> (i32, Vec<u8>)>(
    frame: Vec<u8>,
    packet_buffer: &mut FrameQueue,
    fragment_buffer: &mut FragmentTable,
    external_firewall_fn: &ExternalFirewallWrapper<F>,
    check_mac: bool,
    local_mac: &[u8; 6],
    ids: &mut IdentGenerator,
) -> (r: Result<(), Error>)
    requires
        old(packet_buffer).wf(),
        old(fragment_buffer).wf(),
        forall|args: (u32, u16, u32, u16, u16, Vec<u8>, u16)|
            call_requires(external_firewall_fn.policy(), args),
    ensures
        final(packet_buffer).wf(),
        final(fragment_buffer).wf(),
        (match route(frame@, local_mac@, check_mac) {
            Route::Reject => {
                &&& r == Err::<(), Error>(Error::Malformed)
                &&& final(packet_buffer)@ == old(packet_buffer)@
                &&& final(fragment_buffer)@ == old(fragment_buffer)@
                &&& final(fragment_buffer).clock() == old(fragment_buffer).clock()
                &&& final(ids).last() == old(ids).last()
            },
            Route::Ignore => {
                &&& r == Ok::<(), Error>(())
                &&& final(packet_buffer)@ == old(packet_buffer)@
                &&& final(fragment_buffer)@ == old(fragment_buffer)@
                &&& final(fragment_buffer).clock() == old(fragment_buffer).clock()
                &&& final(ids).last() == old(ids).last()
            },
            Route::Arp => {
                &&& r == Ok::<(), Error>(())
                &&& final(packet_buffer)@ == enqueued(old(packet_buffer)@, seq![frame@])
                &&& final(fragment_buffer)@ == old(fragment_buffer)@
                &&& final(fragment_buffer).clock() == old(fragment_buffer).clock()
                &&& final(ids).last() == old(ids).last()
            },
            Route::Ipv4 => {
                &&& final(fragment_buffer)@ == table_stage(
                    frame@,
                    old(fragment_buffer)@,
                    next_tick(old(fragment_buffer).clock()),
                )
                &&& final(fragment_buffer).clock() == clock_stage(
                    frame@,
                    old(fragment_buffer).clock(),
                )
                &&& exists|frames: Result<Seq<Seq<u8>>, Error>| #[trigger]
                    settles_as(
                        external_firewall_fn.policy(),
                        frame@,
                        inspection(
                            frame@,
                            old(fragment_buffer)@,
                            next_tick(old(fragment_buffer).clock()),
                        ),
                        old(ids).last(),
                        final(ids).last(),
                        old(packet_buffer)@,
                        r,
                        final(packet_buffer)@,
                        frames,
                    )
            },
        }),
        carries_neither(frame@) ==> final(packet_buffer)@ == old(packet_buffer)@,
        filtered(frame@, local_mac@, check_mac) ==> final(packet_buffer)@ == old(packet_buffer)@,
{
    if frame.len() < ethernet::ETH_HEADER_LEN {
        return Err(Error::Malformed);
    }
    if check_mac && !frame_addressed_to(frame.as_slice(), local_mac) {
        return Ok(());
    }
    match parse_ether_type(frame.as_slice()) {
        EtherType::Ipv4 => {
            let ghost seen = inspection(
                frame@,
                old(fragment_buffer)@,
                next_tick(old(fragment_buffer).clock()),
            );
            let outcome = process_ipv4(frame, fragment_buffer, external_firewall_fn, ids);
            let ghost frames = frames_view(outcome);
            let r = match outcome {
                Ok(emitted) => {
                    packet_buffer.enqueue_all(emitted);
                    Ok(())
                },
                Err(e) => Err(e),
            };
            assert(settles_as(
                external_firewall_fn.policy(),
                frame@,
                seen,
                old(ids).last(),
                ids.last(),
                old(packet_buffer)@,
                r,
                packet_buffer@,
                frames,
            ));
            r
        },
        EtherType::Arp => {
            packet_buffer.push(frame);
            Ok(())
        },
        EtherType::Ipv6 => Ok(()),
        EtherType::Other => Ok(()),
    }
}

} // verus!
