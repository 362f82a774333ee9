//! Packet-inspection core of a firewall that sits between an Ethernet
//! driver and a client.
//!
//! Every frame that crosses the firewall, in either direction, runs
//! through [`pipeline::process_ethernet`].  ARP, ICMP and IGMP pass as
//! they are; UDP is validated, reassembled where it comes in fragments,
//! put before an external policy that may change its payload, and sent on
//! in packets that fit the link; everything else is dropped.
//!
//! The modules, leaves first:
//!
//! * [`wire`]: Ethernet, IPv4 and UDP headers as functions of octets.
//! * [`ident`], [`queue`]: the identification counter and the bounded
//!   queue of frames that each direction owns.
//! * [`reassembly`]: the table of slots that collect fragments.
//! * [`fragmenter`]: cutting a datagram into packets.
//! * [`policy`]: consulting the policy and acting on its answer.
//! * [`pipeline`]: the per-frame decisions that tie these together.
//! * [`boundary`]: bounded copies to and from the regions shared with the
//!   host, and holders for the host's callables.
//! * [`delivery`], [`transparency`]: what holds of the whole: fragments
//!   are put together whatever their order, cutting and collecting undo
//!   each other, and a datagram that needs no change passes unchanged.

pub mod boundary;
pub mod constants;
pub mod delivery;
pub mod error;
pub mod fragmenter;
pub mod ident;
pub mod pipeline;
pub mod policy;
pub mod queue;
pub mod reassembly;
pub mod transparency;
pub mod wire;
