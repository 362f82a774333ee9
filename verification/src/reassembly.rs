//! Reassembly of fragmented datagrams.
//!
//! A slot collects the octets of one datagram.  Positions are counted
//! from the start of the datagram's header: the fragment with offset zero
//! contributes its header and payload from position zero on, every other
//! fragment contributes its payload behind a header of its own length.
//! The datagram is complete once the final fragment has announced where
//! it ends and every position before that end was written.

use vstd::prelude::*;
use crate::constants::{FRAGMENT_STALE_AFTER, MAX_REASSEMBLED_FRAGMENT_SIZE, SUPPORTED_FRAGMENTS};
use crate::error::Error;
use crate::wire::bytes::{with_be16, write_be16};
use crate::wire::checksum::{ipv4_fill_checksum, with_ipv4_checksum};
use crate::wire::ipv4;
use crate::wire::ipv4::{read_header, IPV4_HEADER_LEN};

verus! {

/// What tells the fragments of one datagram from those of another.
#[derive(Clone, Copy, Debug, PartialEq, Eq, Structural)]
pub struct FragmentKey {
    pub ident: u16,
    pub src_addr: u32,
    pub dst_addr: u32,
}

/// The key under which a packet's datagram is collected.
pub open spec fn key_of(p: Seq<u8>) -> FragmentKey {
    FragmentKey {
        ident: ipv4::ident(p) as u16,
        src_addr: ipv4::src_addr(p) as u32,
        dst_addr: ipv4::dst_addr(p) as u32,
    }
}

/// The state of one reassembly slot.
#[verifier::ext_equal]
pub struct EntryView {
    /// The datagram being collected, if any.
    pub key: Option<FragmentKey>,
    /// Length of the whole datagram, once the final fragment has come.
    pub total_len: Option<int>,
    /// The octets written so far, by position.
    pub written: Map<int, u8>,
    /// Time of the last fragment taken in.
    pub last_used: u64,
}

/// A slot that collects nothing.
pub open spec fn empty_entry(last_used: u64) -> EntryView {
    EntryView { key: None, total_len: None, written: Map::empty(), last_used }
}

/// A slot after it was given up or handed its datagram out.
pub open spec fn cleared(e: EntryView) -> EntryView {
    empty_entry(e.last_used)
}

/// First position a fragment writes.
pub open spec fn first_octet(p: Seq<u8>) -> int {
    if ipv4::frag_offset(p) == 0 {
        0
    } else {
        ipv4::header_len(p) + ipv4::frag_offset(p)
    }
}

/// Position behind the last one a fragment writes.
pub open spec fn end_octet(p: Seq<u8>) -> int {
    ipv4::frag_offset(p) + ipv4::total_len(p)
}

/// The octets a fragment contributes, by position.
pub open spec fn placed(p: Seq<u8>) -> Map<int, u8> {
    Map::new(
        |i: int| first_octet(p) <= i < end_octet(p),
        |i: int| p[i - ipv4::frag_offset(p)],
    )
}

/// The fragment stays inside the reassembly buffer.
pub open spec fn fits(p: Seq<u8>) -> bool {
    end_octet(p) <= MAX_REASSEMBLED_FRAGMENT_SIZE
}

/// Every position before `total` was written.
pub open spec fn covered(written: Map<int, u8>, total: int) -> bool {
    forall|i: int| 0 <= i < total ==> written.dom().contains(i)
}

/// The end of the datagram is known and everything before it is there.
pub open spec fn complete(e: EntryView) -> bool {
    e.total_len is Some && covered(e.written, e.total_len->0)
}

/// The octets of a complete slot, in order.
pub open spec fn collected(e: EntryView) -> Seq<u8> {
    Seq::new(e.total_len->0 as nat, |i: int| e.written[i])
}

/// The collected octets start with a header that lies inside them.
pub open spec fn header_fits(d: Seq<u8>) -> bool {
    &&& d.len() >= IPV4_HEADER_LEN
    &&& IPV4_HEADER_LEN <= ipv4::header_len(d)
    &&& ipv4::header_len(d) <= d.len()
}

/// The collected octets made into a datagram: the total length is set to
/// their number and the header checksum is recomputed.
pub open spec fn assembled(d: Seq<u8>) -> Seq<u8> {
    with_ipv4_checksum(with_be16(d, 2, d.len() as int))
}

/// A slot after it took a fragment in.
pub open spec fn accumulated(e: EntryView, p: Seq<u8>, now: u64) -> EntryView {
    EntryView {
        key: Some(key_of(p)),
        total_len: if ipv4::more_frags(p) {
            e.total_len
        } else {
            Some(end_octet(p))
        },
        written: e.written.union_prefer_right(placed(p)),
        last_used: now,
    }
}

/// What a slot answers to a fragment: the datagram if the fragment
/// completes it, nothing if more is needed, or the reason for giving up.
pub open spec fn entry_result(e: EntryView, p: Seq<u8>, now: u64) -> Result<
    Option<Seq<u8>>,
    Error,
> {
    if !fits(p) {
        Err(Error::TooManyFragments)
    } else {
        let acc = accumulated(e, p, now);
        if !complete(acc) {
            Ok(None)
        } else if !header_fits(collected(acc)) {
            Err(Error::Malformed)
        } else {
            Ok(Some(assembled(collected(acc))))
        }
    }
}

/// The slot after a fragment: cleared if the fragment does not fit or
/// completes the datagram, otherwise holding the fragment as well.
pub open spec fn entry_after(e: EntryView, p: Seq<u8>, now: u64) -> EntryView {
    if !fits(p) {
        cleared(e)
    } else {
        let acc = accumulated(e, p, now);
        if complete(acc) {
            cleared(acc)
        } else {
            acc
        }
    }
}

/// The state of a slot is consistent.
pub open spec fn entry_ok(e: EntryView) -> bool {
    &&& forall|i: int| e.written.dom().contains(i) ==> 0 <= i < MAX_REASSEMBLED_FRAGMENT_SIZE
    &&& e.total_len is Some ==> 0 <= e.total_len->0 <= MAX_REASSEMBLED_FRAGMENT_SIZE
    &&& e.key is None ==> e == empty_entry(e.last_used)
}

/// The octets behind a result, if it carries any.
pub open spec fn result_view(r: Result<Option<Vec<u8>>, Error>) -> Result<Option<Seq<u8>>, Error> {
    match r {
        Ok(Some(d)) => Ok(Some(d@)),
        Ok(None) => Ok(None),
        Err(e) => Err(e),
    }
}

/// One reassembly slot: a buffer of `MAX_REASSEMBLED_FRAGMENT_SIZE`
/// octets and a record of which of them were written.
pub struct FragmentEntry {
    key: Option<FragmentKey>,
    total_len: Option<usize>,
    buffer: Vec<u8>,
    filled: Vec<bool>,
    last_used: u64,
}

impl View for FragmentEntry {
    type V = EntryView;

    closed spec fn view(&self) -> EntryView {
        EntryView {
            key: self.key,
            total_len: match self.total_len {
                Some(t) => Some(t as int),
                None => None,
            },
            written: Map::new(
                |i: int| 0 <= i < self.filled@.len() && self.filled@[i],
                |i: int| self.buffer@[i],
            ),
            last_used: self.last_used,
        }
    }
}

impl FragmentEntry {
    /// The representation is consistent.
    pub closed spec fn wf(&self) -> bool {
        &&& self.buffer@.len() == MAX_REASSEMBLED_FRAGMENT_SIZE
        &&& self.filled@.len() == MAX_REASSEMBLED_FRAGMENT_SIZE
        &&& entry_ok(self@)
    }

    /// A consistent slot has a consistent state.
    pub proof fn lemma_wf(&self)
        requires
            self.wf(),
        ensures
            entry_ok(self@),
    {
    }

    pub fn new() -> (e: FragmentEntry)
        ensures
            e.wf(),
            e@ == empty_entry(0),
    {
        let mut buffer: Vec<u8> = Vec::with_capacity(MAX_REASSEMBLED_FRAGMENT_SIZE);
        let mut filled: Vec<bool> = Vec::with_capacity(MAX_REASSEMBLED_FRAGMENT_SIZE);
        let mut i: usize = 0;
        while i < MAX_REASSEMBLED_FRAGMENT_SIZE
            invariant
                i <= MAX_REASSEMBLED_FRAGMENT_SIZE,
                buffer@.len() == i,
                filled@.len() == i,
                forall|j: int| 0 <= j < i ==> !filled@[j],
            decreases MAX_REASSEMBLED_FRAGMENT_SIZE - i,
        {
            buffer.push(0);
            filled.push(false);
            i += 1;
        }
        let e = FragmentEntry { key: None, total_len: None, buffer, filled, last_used: 0 };
        assert(e@.written =~= Map::empty());
        e
    }

    /// The datagram this slot collects, if any.
    pub fn key(&self) -> (k: Option<FragmentKey>)
        ensures
            k == self@.key,
    {
        self.key
    }

    /// Time of the last fragment taken in.
    pub fn last_used(&self) -> (t: u64)
        ensures
            t == self@.last_used,
    {
        self.last_used
    }

    /// The slot collects nothing.
    pub fn is_empty(&self) -> (b: bool)
        ensures
            b == (self@.key is None),
    {
        self.key.is_none()
    }

    /// Gives up whatever the slot collects.
    pub fn reset(&mut self)
        requires
            old(self).wf(),
        ensures
            final(self).wf(),
            final(self)@ == cleared(old(self)@),
    {
        self.key = None;
        self.total_len = None;
        let mut i: usize = 0;
        while i < MAX_REASSEMBLED_FRAGMENT_SIZE
            invariant
                i <= MAX_REASSEMBLED_FRAGMENT_SIZE,
                self.buffer@.len() == MAX_REASSEMBLED_FRAGMENT_SIZE,
                self.filled@.len() == MAX_REASSEMBLED_FRAGMENT_SIZE,
                self.key is None,
                self.total_len is None,
                self.last_used == old(self).last_used,
                forall|j: int| 0 <= j < i ==> !self.filled@[j],
            decreases MAX_REASSEMBLED_FRAGMENT_SIZE - i,
        {
            self.filled[i] = false;
            i += 1;
        }
        assert(self@.written =~= Map::empty());
    }

    /// Writes the octets of a fragment into the buffer.
    fn store(&mut self, packet: &[u8], now: u64)
        requires
            old(self).wf(),
            ipv4::lengths_ok(packet@),
            fits(packet@),
        ensures
            final(self).wf(),
            final(self)@ == accumulated(old(self)@, packet@, now),
    {
        let header = read_header(packet);
        let offset = header.frag_offset as usize;
        let end = offset + header.total_len as usize;
        let first = if offset == 0 { 0 } else { header.header_len as usize + offset };
        self.key = Some(
            FragmentKey {
                ident: header.ident,
                src_addr: header.src_addr,
                dst_addr: header.dst_addr,
            },
        );
        if !header.more_frags {
            self.total_len = Some(end);
        }
        self.last_used = now;
        let mut i: usize = first;
        while i < end
            invariant
                first <= i <= end,
                end <= MAX_REASSEMBLED_FRAGMENT_SIZE,
                offset <= first,
                end - offset <= packet@.len(),
                self.buffer@.len() == MAX_REASSEMBLED_FRAGMENT_SIZE,
                self.filled@.len() == MAX_REASSEMBLED_FRAGMENT_SIZE,
                self.key == Some(key_of(packet@)),
                self.total_len == (if ipv4::more_frags(packet@) {
                    old(self).total_len
                } else {
                    Some(end)
                }),
                self.last_used == now,
                forall|j: int|
                    0 <= j < MAX_REASSEMBLED_FRAGMENT_SIZE ==> #[trigger] self.filled@[j] == (
                    old(self).filled@[j] || first <= j < i),
                forall|j: int|
                    0 <= j < MAX_REASSEMBLED_FRAGMENT_SIZE ==> #[trigger] self.buffer@[j] == (
                    if first <= j < i {
                        packet@[j - offset]
                    } else {
                        old(self).buffer@[j]
                    }),
            decreases end - i,
        {
            self.buffer[i] = packet[i - offset];
            self.filled[i] = true;
            i += 1;
        }
        assert(self@.written =~= old(self)@.written.union_prefer_right(placed(packet@)));
    }

    /// Tells whether every position before `total` was written.
    fn is_covered(&self, total: usize) -> (b: bool)
        requires
            self.wf(),
            total <= MAX_REASSEMBLED_FRAGMENT_SIZE,
        ensures
            b == covered(self@.written, total as int),
    {
        let mut i: usize = 0;
        while i < total
            invariant
                i <= total,
                total <= MAX_REASSEMBLED_FRAGMENT_SIZE,
                self.filled@.len() == MAX_REASSEMBLED_FRAGMENT_SIZE,
                forall|j: int| 0 <= j < i ==> self.filled@[j],
            decreases total - i,
        {
            if !self.filled[i] {
                assert(!self@.written.dom().contains(i as int));
                return false;
            }
            i += 1;
        }
        true
    }

    /// Copies the first `total` octets out of the buffer.
    fn collect(&self, total: usize) -> (d: Vec<u8>)
        requires
            self.wf(),
            self@.total_len == Some(total as int),
            complete(self@),
        ensures
            d@ == collected(self@),
    {
        let mut d: Vec<u8> = Vec::with_capacity(total);
        let mut i: usize = 0;
        while i < total
            invariant
                i <= total,
                total <= MAX_REASSEMBLED_FRAGMENT_SIZE,
                self.buffer@.len() == MAX_REASSEMBLED_FRAGMENT_SIZE,
                d@.len() == i,
                forall|j: int| 0 <= j < i ==> d@[j] == self.buffer@[j],
            decreases total - i,
        {
            d.push(self.buffer[i]);
            i += 1;
        }
        assert forall|j: int| 0 <= j < total implies d@[j] == collected(self@)[j] by {
            assert(self@.written.dom().contains(j));
        }
        assert(d@ =~= collected(self@));
        d
    }

    /// Takes a fragment in and hands the datagram out if the fragment
    /// completes it.
    fn absorb(&mut self, packet: &[u8], now: u64) -> (r: Result<Option<Vec<u8>>, Error>)
        requires
            old(self).wf(),
            ipv4::lengths_ok(packet@),
        ensures
            final(self).wf(),
            final(self)@ == entry_after(old(self)@, packet@, now),
            result_view(r) == entry_result(old(self)@, packet@, now),
    {
        let header = read_header(packet);
        let end = header.frag_offset as usize + header.total_len as usize;
        if end > MAX_REASSEMBLED_FRAGMENT_SIZE {
            self.reset();
            return Err(Error::TooManyFragments);
        }
        self.store(packet, now);
        let total = match self.total_len {
            None => {
                return Ok(None);
            },
            Some(t) => t,
        };
        if !self.is_covered(total) {
            return Ok(None);
        }
        let mut datagram = self.collect(total);
        self.reset();
        if total < IPV4_HEADER_LEN {
            return Err(Error::Malformed);
        }
        let header_len = ((datagram[0] % 16) as usize) * 4;
        if header_len < IPV4_HEADER_LEN || header_len > total {
            return Err(Error::Malformed);
        }
        write_be16(datagram.as_mut_slice(), 2, total as u16);
        ipv4_fill_checksum(datagram.as_mut_slice());
        Ok(Some(datagram))
    }
}

/// What a slot is looked for: one that already collects a given
/// datagram, one that collects nothing, or one not touched for too long
/// before the given time.
#[derive(Clone, Copy, Debug)]
pub enum SlotUse {
    Holding(FragmentKey),
    Empty,
    Stale(u64),
}

/// The slot was last touched more than `FRAGMENT_STALE_AFTER` ticks
/// before `now`.
pub open spec fn stale(e: EntryView, now: u64) -> bool {
    now > e.last_used && now - e.last_used > FRAGMENT_STALE_AFTER
}

pub open spec fn suits(e: EntryView, want: SlotUse) -> bool {
    match want {
        SlotUse::Holding(key) => e.key == Some(key),
        SlotUse::Empty => e.key is None,
        SlotUse::Stale(now) => stale(e, now),
    }
}

/// The lowest index from `from` on whose slot suits.
pub open spec fn first_suiting(table: Seq<EntryView>, want: SlotUse, from: int) -> Option<int>
    decreases table.len() - from,
{
    if from < 0 || from >= table.len() {
        None
    } else if suits(table[from], want) {
        Some(from)
    } else {
        first_suiting(table, want, from + 1)
    }
}

/// The slot a fragment with the given key goes to: the one that collects
/// its datagram; failing that, the first empty one; failing that, the
/// first stale one.
pub open spec fn slot_for(table: Seq<EntryView>, key: FragmentKey, now: u64) -> Option<int> {
    if first_suiting(table, SlotUse::Holding(key), 0) is Some {
        first_suiting(table, SlotUse::Holding(key), 0)
    } else if first_suiting(table, SlotUse::Empty, 0) is Some {
        first_suiting(table, SlotUse::Empty, 0)
    } else {
        first_suiting(table, SlotUse::Stale(now), 0)
    }
}

/// A slot made ready for a datagram: kept if it collects that datagram
/// already, cleared otherwise.
pub open spec fn ready(e: EntryView, key: FragmentKey) -> EntryView {
    if e.key == Some(key) {
        e
    } else {
        cleared(e)
    }
}

/// The table after a slot was picked for a datagram.
pub open spec fn table_with_slot(table: Seq<EntryView>, key: FragmentKey, now: u64) -> Seq<
    EntryView,
> {
    match slot_for(table, key, now) {
        Some(i) => table.update(i, ready(table[i], key)),
        None => table,
    }
}

/// The table after a packet was handed to it.  A packet whose lengths
/// are inconsistent leaves it as it was.
pub open spec fn table_after(table: Seq<EntryView>, p: Seq<u8>, now: u64) -> Seq<EntryView> {
    if !ipv4::lengths_ok(p) {
        table
    } else {
        match slot_for(table, key_of(p), now) {
            Some(i) => table.update(i, entry_after(ready(table[i], key_of(p)), p, now)),
            None => table,
        }
    }
}

/// What the table answers to a packet.
pub open spec fn fragment_result(table: Seq<EntryView>, p: Seq<u8>, now: u64) -> Result<
    Option<Seq<u8>>,
    Error,
> {
    if !ipv4::lengths_ok(p) {
        Err(Error::Malformed)
    } else {
        match slot_for(table, key_of(p), now) {
            Some(i) => entry_result(ready(table[i], key_of(p)), p, now),
            None => Err(Error::FragmentSetFull),
        }
    }
}

/// No two slots collect the same datagram.
pub open spec fn keys_distinct(table: Seq<EntryView>) -> bool {
    forall|i: int, j: int|
        0 <= i < table.len() && 0 <= j < table.len() && i != j && (#[trigger] table[i]).key is Some
            ==> table[i].key != (#[trigger] table[j]).key
}

/// The state of a table is consistent.
pub open spec fn table_ok(table: Seq<EntryView>) -> bool {
    &&& table.len() == SUPPORTED_FRAGMENTS
    &&& forall|i: int| 0 <= i < table.len() ==> entry_ok(#[trigger] table[i])
    &&& keys_distinct(table)
}

/// What `first_suiting` finds is the lowest suiting index, and where it
/// finds nothing no slot suits.
pub proof fn lemma_first_suiting(table: Seq<EntryView>, want: SlotUse, from: int)
    requires
        0 <= from,
    ensures
        (match first_suiting(table, want, from) {
            Some(i) => {
                &&& from <= i < table.len()
                &&& suits(table[i], want)
                &&& forall|j: int| from <= j < i ==> !suits(#[trigger] table[j], want)
            },
            None => forall|j: int| from <= j < table.len() ==> !suits(#[trigger] table[j], want),
        }),
    decreases table.len() - from,
{
    if from < table.len() && !suits(table[from], want) {
        lemma_first_suiting(table, want, from + 1);
    }
}

/// The slot picked for a fragment lies in the table.
pub proof fn lemma_slot_for(table: Seq<EntryView>, key: FragmentKey, now: u64)
    ensures
        (match slot_for(table, key, now) {
            Some(i) => {
                &&& 0 <= i < table.len()
                &&& (table[i].key != Some(key) ==> forall|j: int|
                    0 <= j < table.len() ==> (#[trigger] table[j]).key != Some(key))
            },
            None => true,
        }),
{
    lemma_first_suiting(table, SlotUse::Holding(key), 0);
    lemma_first_suiting(table, SlotUse::Empty, 0);
    lemma_first_suiting(table, SlotUse::Stale(now), 0);
}

/// A consistent table stays consistent when a fragment is handed to it.
pub proof fn lemma_table_after_ok(table: Seq<EntryView>, p: Seq<u8>, now: u64)
    requires
        table_ok(table),
    ensures
        table_ok(table_after(table, p, now)),
{
    let key = key_of(p);
    lemma_slot_for(table, key, now);
    if !ipv4::lengths_ok(p) {
        return ;
    }
    match slot_for(table, key, now) {
        Some(i) => {
            let before = ready(table[i], key);
            let e = entry_after(before, p, now);
            let after = table.update(i, e);
            assert(entry_ok(table[i]));
            assert(entry_ok(e));
            assert(e.key is None || e.key == Some(key));
            assert forall|a: int, b: int|
                0 <= a < after.len() && 0 <= b < after.len() && a != b && (
                #[trigger] after[a]).key is Some implies after[a].key != (#[trigger] after[b]).key by {
                if a != i && b != i {
                    assert(table[a].key != table[b].key);
                } else if a == i {
                    assert(table[b].key != Some(key));
                } else {
                    assert(table[a].key != Some(key));
                }
            }
        },
        None => {},
    }
}

/// The reassembly slots of one direction, with the counter that serves
/// as their clock.
pub struct FragmentTable {
    entries: Vec<FragmentEntry>,
    clock: u64,
}

impl View for FragmentTable {
    type V = Seq<EntryView>;

    closed spec fn view(&self) -> Seq<EntryView> {
        Seq::new(self.entries@.len(), |i: int| self.entries@[i]@)
    }
}

/// The reading that follows `t` on the clock; the clock stops at its
/// largest value.
pub open spec fn next_tick(t: u64) -> u64 {
    if t == u64::MAX {
        t
    } else {
        (t + 1) as u64
    }
}

impl FragmentTable {
    /// The representation is consistent.
    pub closed spec fn wf(&self) -> bool {
        &&& forall|i: int| 0 <= i < self.entries@.len() ==> (#[trigger] self.entries@[i]).wf()
        &&& table_ok(self@)
    }

    /// The last reading of the clock.
    pub closed spec fn clock(&self) -> u64 {
        self.clock
    }

    /// A consistent table has a consistent state.
    pub proof fn lemma_wf(&self)
        requires
            self.wf(),
        ensures
            table_ok(self@),
    {
    }

    /// A table of `SUPPORTED_FRAGMENTS` empty slots.
    pub fn new() -> (t: FragmentTable)
        ensures
            t.wf(),
            t.clock() == 0,
            t@ == Seq::new(SUPPORTED_FRAGMENTS as nat, |i: int| empty_entry(0)),
    {
        let mut entries: Vec<FragmentEntry> = Vec::with_capacity(SUPPORTED_FRAGMENTS);
        let mut i: usize = 0;
        while i < SUPPORTED_FRAGMENTS
            invariant
                i <= SUPPORTED_FRAGMENTS,
                entries@.len() == i,
                forall|j: int|
                    0 <= j < i ==> (#[trigger] entries@[j]).wf() && entries@[j]@ == empty_entry(0),
            decreases SUPPORTED_FRAGMENTS - i,
        {
            entries.push(FragmentEntry::new());
            i += 1;
        }
        let t = FragmentTable { entries, clock: 0 };
        assert(t@ =~= Seq::new(SUPPORTED_FRAGMENTS as nat, |i: int| empty_entry(0)));
        t
    }

    /// Advances the clock and reads it.  Readings never decrease.
    pub fn timestamp(&mut self) -> (now: u64)
        requires
            old(self).wf(),
        ensures
            final(self).wf(),
            final(self)@ == old(self)@,
            now == next_tick(old(self).clock()),
            final(self).clock() == now,
    {
        if self.clock < u64::MAX {
            self.clock = self.clock + 1;
        }
        assert(self@ =~= old(self)@);
        self.clock
    }

    /// Finds the first slot that suits.
    fn find(&self, want: SlotUse) -> (found: Option<usize>)
        requires
            self.wf(),
        ensures
            (match found {
                Some(i) => first_suiting(self@, want, 0) == Some(i as int),
                None => first_suiting(self@, want, 0) is None,
            }),
    {
        let mut i: usize = 0;
        while i < self.entries.len()
            invariant
                i <= self.entries@.len(),
                self@.len() == self.entries@.len(),
                first_suiting(self@, want, 0) == first_suiting(self@, want, i as int),
            decreases self.entries@.len() - i,
        {
            let entry = &self.entries[i];
            assert(self@[i as int] == entry@);
            let suits = match want {
                SlotUse::Holding(key) => match entry.key() {
                    Some(k) => k.ident == key.ident && k.src_addr == key.src_addr && k.dst_addr
                        == key.dst_addr,
                    None => false,
                },
                SlotUse::Empty => entry.is_empty(),
                SlotUse::Stale(now) => now > entry.last_used() && now - entry.last_used()
                    > FRAGMENT_STALE_AFTER,
            };
            if suits {
                return Some(i);
            }
            i += 1;
        }
        None
    }

    /// Picks the slot for a datagram and makes it ready: the slot that
    /// collects the datagram, else an empty one, else a stale one, which
    /// is cleared.  Answers with the slot's index, or with nothing if
    /// every slot is busy.
    pub fn get_packet(&mut self, key: FragmentKey, now: u64) -> (slot: Option<usize>)
        requires
            old(self).wf(),
        ensures
            final(self).wf(),
            final(self).clock() == old(self).clock(),
            (match slot {
                Some(i) => slot_for(old(self)@, key, now) == Some(i as int),
                None => slot_for(old(self)@, key, now) is None,
            }),
            final(self)@ == table_with_slot(old(self)@, key, now),
    {
        proof {
            lemma_first_suiting(self@, SlotUse::Holding(key), 0);
            lemma_first_suiting(self@, SlotUse::Empty, 0);
            lemma_first_suiting(self@, SlotUse::Stale(now), 0);
        }
        match self.find(SlotUse::Holding(key)) {
            Some(i) => {
                assert(self@ =~= table_with_slot(self@, key, now));
                return Some(i);
            },
            None => {},
        }
        match self.find(SlotUse::Empty) {
            Some(i) => {
                assert(entry_ok(self@[i as int]));
                assert(self@ =~= table_with_slot(self@, key, now));
                return Some(i);
            },
            None => {},
        }
        match self.find(SlotUse::Stale(now)) {
            Some(i) => {
                let entry = &mut self.entries[i];
                entry.reset();
                assert(self@ =~= table_with_slot(old(self)@, key, now));
                assert forall|a: int, b: int|
                    0 <= a < self@.len() && 0 <= b < self@.len() && a != b && (
                    #[trigger] self@[a]).key is Some implies self@[a].key != (
                #[trigger] self@[b]).key by {
                    assert(old(self)@[a].key != old(self)@[b].key);
                }
                Some(i)
            },
            None => None,
        }
    }

    /// Hands a fragment to the slot at `slot`.
    fn absorb_at(&mut self, slot: usize, packet: &[u8], now: u64) -> (r: Result<
        Option<Vec<u8>>,
        Error,
    >)
        requires
            old(self).wf(),
            slot < old(self)@.len(),
            ipv4::lengths_ok(packet@),
            table_ok(old(self)@.update(slot as int, entry_after(old(self)@[slot as int], packet@, now))),
        ensures
            final(self).wf(),
            final(self).clock() == old(self).clock(),
            final(self)@ == old(self)@.update(
                slot as int,
                entry_after(old(self)@[slot as int], packet@, now),
            ),
            result_view(r) == entry_result(old(self)@[slot as int], packet@, now),
    {
        let entry = &mut self.entries[slot];
        let r = entry.absorb(packet, now);
        assert(self@ =~= old(self)@.update(
            slot as int,
            entry_after(old(self)@[slot as int], packet@, now),
        ));
        r
    }
}

/// Hands one fragment to the table.  The fragment goes to the slot that
/// collects its datagram, or starts a slot.  The answer is the whole
/// datagram if the fragment completes it, nothing if more fragments are
/// needed, `FragmentSetFull` if no slot can be had, `TooManyFragments` if
/// the fragment reaches beyond the reassembly buffer, and `Malformed` if
/// the lengths of the packet are inconsistent or what was collected does
/// not start with a header that lies inside it.
pub fn process_ipv4_fragment(ipv4_packet: &[u8], timestamp: u64, fragments: &mut FragmentTable) -> (r:
    Result<Option<Vec<u8>>, Error>)
    requires
        old(fragments).wf(),
    ensures
        final(fragments).wf(),
        final(fragments).clock() == old(fragments).clock(),
        final(fragments)@ == table_after(old(fragments)@, ipv4_packet@, timestamp),
        result_view(r) == fragment_result(old(fragments)@, ipv4_packet@, timestamp),
{
    match ipv4::check_lengths(ipv4_packet) {
        Err(e) => {
            return Err(e);
        },
        Ok(()) => {},
    }
    let header = read_header(ipv4_packet);
    let key = FragmentKey {
        ident: header.ident,
        src_addr: header.src_addr,
        dst_addr: header.dst_addr,
    };
    proof {
        fragments.lemma_wf();
        lemma_slot_for(fragments@, key, timestamp);
        lemma_table_after_ok(fragments@, ipv4_packet@, timestamp);
    }
    let slot = match fragments.get_packet(key, timestamp) {
        Some(i) => i,
        None => {
            return Err(Error::FragmentSetFull);
        },
    };
    proof {
        let before = old(fragments)@;
        assert(fragments@.update(
            slot as int,
            entry_after(fragments@[slot as int], ipv4_packet@, timestamp),
        ) =~= table_after(before, ipv4_packet@, timestamp));
    }
    fragments.absorb_at(slot, ipv4_packet, timestamp)
}

} // verus!
