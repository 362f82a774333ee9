//! Reasons for which a frame yields no output.

use vstd::prelude::*;

verus! {

/// Why the pipeline emitted nothing for a frame.
#[derive(Clone, Copy, Debug, PartialEq, Eq, Structural)]
pub enum Error {
    /// A header is truncated, inconsistent, or fails its checksum.
    Malformed,
    /// The frame is a fragment and its datagram is not complete yet.
    Fragmented,
    /// No reassembly slot is free for a new datagram.
    FragmentSetFull,
    /// The fragment does not fit the reassembly buffer.
    TooManyFragments,
    /// The IPv4 payload is of a protocol that is not let through.
    Unrecognized,
    /// The policy rejected the datagram.
    Dropped,
}

} // verus!
