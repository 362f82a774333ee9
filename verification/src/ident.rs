//! Identification values for fragmented datagrams.
//!
//! Datagrams that are split on the way out and carry no identification
//! of their own are given one from a counter.  The counter is not meant
//! to be unpredictable; it only has to tell datagrams apart.

use vstd::prelude::*;

verus! {

/// Value the counter holds before the first identification is drawn.
pub const IDENT_SEED: u16 = 42;

/// Source of identification values: a 16-bit counter that wraps around.
pub struct IdentGenerator {
    last: u16,
}

impl IdentGenerator {
    /// The value most recently handed out (the seed before the first
    /// draw).
    pub closed spec fn last(&self) -> u16 {
        self.last
    }

    /// The value that follows `prev`: one more, or zero after the
    /// largest.
    pub open spec fn successor(prev: u16) -> u16 {
        if prev == u16::MAX {
            0
        } else {
            (prev + 1) as u16
        }
    }

    pub fn new() -> (g: IdentGenerator)
        ensures
            g.last() == IDENT_SEED,
    {
        IdentGenerator { last: IDENT_SEED }
    }
}

/// Draws the next identification value.
pub fn get_pseudorandom_packet_id(ids: &mut IdentGenerator) -> (id: u16)
    ensures
        id == IdentGenerator::successor(old(ids).last()),
        final(ids).last() == id,
{
    ids.last = if ids.last == u16::MAX { 0 } else { ids.last + 1 };
    ids.last
}

} // verus!
