//! What reassembly makes of the fragments of one datagram.
//!
//! The fragments of a datagram may come in any order.  As long as they
//! do not overlap and together carry the whole payload, the slot that
//! collects them hands out nothing until the last one has come, and then
//! hands out the datagram: the header of the fragment with offset zero,
//! with the length of the whole and a checksum to match, followed by the
//! payload.

use vstd::prelude::*;
use crate::constants::MAX_REASSEMBLED_FRAGMENT_SIZE;
use crate::constants::MTU_UDP;
use crate::error::Error;
use crate::fragmenter::{
    chunk_end, chunk_start, fits_ipv4, fragment, fragment_count, fragment_faithful, fragments,
    lemma_fragment_faithful,
};
use crate::reassembly::{
    accumulated, assembled, cleared, collected, complete, empty_entry, end_octet, entry_after,
    entry_result, first_suiting, fits, fragment_result, header_fits, key_of, lemma_first_suiting,
    placed, ready, slot_for, table_after, table_ok, EntryView, FragmentKey, SlotUse,
};
use crate::wire::bytes::{lemma_with_be16, with_be16};
use crate::wire::checksum::lemma_ipv4_checksum_filled;
use crate::wire::ipv4;

verus! {

/// First position of the datagram's payload that a fragment carries.
pub open spec fn span_lo(f: Seq<u8>) -> int {
    ipv4::frag_offset(f)
}

/// Position behind the last one that a fragment carries.
pub open spec fn span_hi(f: Seq<u8>) -> int {
    ipv4::frag_offset(f) + ipv4::total_len(f) - ipv4::header_len(f)
}

/// The fragment carries position `i` of the datagram's payload.
pub open spec fn carries(f: Seq<u8>, i: int) -> bool {
    span_lo(f) <= i < span_hi(f)
}

/// Two fragments carry no position in common.
pub open spec fn apart(f: Seq<u8>, g: Seq<u8>) -> bool {
    span_hi(f) <= span_lo(g) || span_hi(g) <= span_lo(f)
}

/// One of the first `k` fragments carries position `i` of the payload.
pub open spec fn carried_by(frs: Seq<Seq<u8>>, k: int, i: int) -> bool
    decreases k,
{
    k > 0 && (carries(frs[k - 1], i) || carried_by(frs, k - 1, i))
}

/// `f` is a fragment of the datagram with the given key, whose payload is
/// `body` and whose header, as the fragment with offset zero shows it,
/// is `head`: it is a packet with consistent lengths and a header as long
/// as `head`, it carries a part of `body` that is not empty, and it
/// announces more fragments unless it carries the end of `body`.
pub open spec fn fragment_of(f: Seq<u8>, key: FragmentKey, head: Seq<u8>, body: Seq<u8>) -> bool {
    &&& ipv4::lengths_ok(f)
    &&& key_of(f) == key
    &&& ipv4::header_len(f) == head.len()
    &&& span_lo(f) < span_hi(f)
    &&& span_hi(f) <= body.len()
    &&& ipv4::payload(f) == body.subrange(span_lo(f), span_hi(f))
    &&& ipv4::more_frags(f) == (span_hi(f) < body.len())
    &&& (span_lo(f) == 0 ==> f.subrange(0, head.len() as int) == head)
}

/// The fragments are those of one datagram, do not overlap, and carry
/// every position of its payload between them.
pub open spec fn tiling(frs: Seq<Seq<u8>>, key: FragmentKey, head: Seq<u8>, body: Seq<u8>) -> bool {
    &&& forall|a: int| 0 <= a < frs.len() ==> fragment_of(#[trigger] frs[a], key, head, body)
    &&& forall|a: int, b: int|
        0 <= a < frs.len() && 0 <= b < frs.len() && a != b ==> apart(
            #[trigger] frs[a],
            #[trigger] frs[b],
        )
    &&& forall|i: int| 0 <= i < body.len() ==> #[trigger] carried_by(frs, frs.len() as int, i)
}

/// The slot after the first `k` fragments were handed to it, the `j`-th
/// at time `times[j]`.
pub open spec fn fed(start: EntryView, frs: Seq<Seq<u8>>, times: Seq<u64>, k: int) -> EntryView
    decreases k,
{
    if k <= 0 {
        start
    } else {
        entry_after(fed(start, frs, times, k - 1), frs[k - 1], times[k - 1])
    }
}

/// One of the first `k` fragments wrote position `i` of the slot.
pub open spec fn reached(frs: Seq<Seq<u8>>, k: int, i: int) -> bool
    decreases k,
{
    k > 0 && (placed(frs[k - 1]).dom().contains(i) || reached(frs, k - 1, i))
}

/// One of the first `k` fragments carries the end of the payload.
pub open spec fn ended(frs: Seq<Seq<u8>>, k: int) -> bool
    decreases k,
{
    k > 0 && (!ipv4::more_frags(frs[k - 1]) || ended(frs, k - 1))
}

/// Some fragment among the first `k` carries a position that one of them
/// carries.
proof fn lemma_carrier(frs: Seq<Seq<u8>>, k: int, i: int) -> (a: int)
    requires
        carried_by(frs, k, i),
    ensures
        0 <= a < k,
        carries(frs[a], i),
    decreases k,
{
    if carries(frs[k - 1], i) {
        k - 1
    } else {
        lemma_carrier(frs, k - 1, i)
    }
}

/// What a fragment among the first `k` wrote was reached by them.
proof fn lemma_reached_by(frs: Seq<Seq<u8>>, k: int, a: int, i: int)
    requires
        0 <= a < k,
        placed(frs[a]).dom().contains(i),
    ensures
        reached(frs, k, i),
    decreases k,
{
    if a < k - 1 {
        lemma_reached_by(frs, k - 1, a, i);
    }
}

/// Where a fragment among the first `k` carries the end, they ended.
proof fn lemma_ended_by(frs: Seq<Seq<u8>>, k: int, a: int)
    requires
        0 <= a < k,
        !ipv4::more_frags(frs[a]),
    ensures
        ended(frs, k),
    decreases k,
{
    if a < k - 1 {
        lemma_ended_by(frs, k - 1, a);
    }
}

/// The first position a fragment writes behind the header was not
/// reached by fragments that do not overlap with it.
proof fn lemma_not_reached(
    frs: Seq<Seq<u8>>,
    key: FragmentKey,
    head: Seq<u8>,
    body: Seq<u8>,
    k: int,
    j: int,
)
    requires
        tiling(frs, key, head, body),
        0 <= k <= j < frs.len(),
    ensures
        !reached(frs, k, head.len() + span_lo(frs[j])),
    decreases k,
{
    if k > 0 {
        lemma_not_reached(frs, key, head, body, k - 1, j);
        assert(fragment_of(frs[k - 1], key, head, body));
        assert(fragment_of(frs[j], key, head, body));
        assert(apart(frs[k - 1], frs[j]));
    }
}

/// What a fragment writes is what the datagram holds at that position.
proof fn lemma_placed_value(f: Seq<u8>, key: FragmentKey, head: Seq<u8>, body: Seq<u8>, i: int)
    requires
        fragment_of(f, key, head, body),
        placed(f).dom().contains(i),
    ensures
        0 <= i < head.len() + body.len(),
        placed(f)[i] == (head + body)[i],
{
    let hl = head.len() as int;
    let off = ipv4::frag_offset(f);
    if i - off < hl {
        assert(off == 0);
        assert(f.subrange(0, hl)[i] == f[i]);
    } else {
        assert(ipv4::payload(f)[i - off - hl] == f[i - off]);
        assert(body.subrange(span_lo(f), span_hi(f))[i - off - hl] == body[i - hl]);
    }
}

/// The state of the slot while fragments are still missing: it holds
/// exactly what the fragments so far wrote, knows the end of the
/// datagram if one of them carried it, and has handed out nothing.
pub open spec fn collecting(
    e: EntryView,
    frs: Seq<Seq<u8>>,
    key: FragmentKey,
    head: Seq<u8>,
    body: Seq<u8>,
    k: int,
) -> bool {
    &&& forall|i: int| #[trigger] e.written.dom().contains(i) <==> reached(frs, k, i)
    &&& forall|i: int|
        e.written.dom().contains(i) ==> #[trigger] e.written[i] == (head + body)[i]
    &&& e.total_len == (if ended(frs, k) {
        Some((head.len() + body.len()) as int)
    } else {
        None::<int>
    })
    &&& k > 0 ==> e.key == Some(key)
}

/// Handing one more fragment to a slot that is collecting: the slot
/// takes it in, and unless it was the last one missing, hands out
/// nothing and goes on collecting.
proof fn lemma_step(
    e: EntryView,
    frs: Seq<Seq<u8>>,
    times: Seq<u64>,
    key: FragmentKey,
    head: Seq<u8>,
    body: Seq<u8>,
    k: int,
)
    requires
        tiling(frs, key, head, body),
        frs.len() == times.len(),
        head.len() + body.len() <= MAX_REASSEMBLED_FRAGMENT_SIZE,
        0 <= k < frs.len(),
        collecting(e, frs, key, head, body, k),
    ensures
        fits(frs[k]),
        collecting(accumulated(e, frs[k], times[k]), frs, key, head, body, k + 1),
        k + 1 < frs.len() ==> !complete(accumulated(e, frs[k], times[k])),
{
    let f = frs[k];
    let acc = accumulated(e, f, times[k]);
    assert(fragment_of(f, key, head, body));
    assert(end_octet(f) == head.len() + span_hi(f));
    assert forall|i: int| #[trigger] acc.written.dom().contains(i) <==> reached(frs, k + 1, i) by {
        if e.written.dom().contains(i) {
            assert(reached(frs, k, i));
        }
    }
    assert forall|i: int| acc.written.dom().contains(i) implies #[trigger] acc.written[i] == (head
        + body)[i] by {
        if placed(f).dom().contains(i) {
            lemma_placed_value(f, key, head, body, i);
        } else {
            assert(e.written.dom().contains(i));
        }
    }
    if k + 1 < frs.len() {
        let j = frs.len() - 1;
        lemma_not_reached(frs, key, head, body, k + 1, j);
        assert(fragment_of(frs[j], key, head, body));
        let x = head.len() + span_lo(frs[j]);
        assert(!acc.written.dom().contains(x));
        if acc.total_len is Some {
            assert(0 <= x < acc.total_len->0);
        }
    }
}

/// A slot that starts out empty is still collecting after any number of
/// fragments short of all, and has answered each of them with nothing.
proof fn lemma_collecting(
    frs: Seq<Seq<u8>>,
    times: Seq<u64>,
    key: FragmentKey,
    head: Seq<u8>,
    body: Seq<u8>,
    last_used: u64,
    k: int,
)
    requires
        tiling(frs, key, head, body),
        frs.len() == times.len(),
        head.len() + body.len() <= MAX_REASSEMBLED_FRAGMENT_SIZE,
        0 <= k < frs.len(),
    ensures
        collecting(fed(empty_entry(last_used), frs, times, k), frs, key, head, body, k),
        forall|j: int|
            0 <= j < k ==> #[trigger] entry_result(
                fed(empty_entry(last_used), frs, times, j),
                frs[j],
                times[j],
            ) == Ok::<Option<Seq<u8>>, Error>(None),
    decreases k,
{
    let start = empty_entry(last_used);
    if k > 0 {
        lemma_collecting(frs, times, key, head, body, last_used, k - 1);
        let e = fed(start, frs, times, k - 1);
        lemma_step(e, frs, times, key, head, body, k - 1);
        assert(fed(start, frs, times, k) == accumulated(e, frs[k - 1], times[k - 1]));
    }
}

/// Fragments of one datagram that do not overlap and carry the whole
/// payload between them, handed to an empty slot in whatever order they
/// come, are answered with nothing but for the last one, which is
/// answered with the datagram; the slot is empty again afterwards.
pub proof fn lemma_reassembly_any_order(
    frs: Seq<Seq<u8>>,
    times: Seq<u64>,
    key: FragmentKey,
    head: Seq<u8>,
    body: Seq<u8>,
    last_used: u64,
)
    requires
        tiling(frs, key, head, body),
        frs.len() == times.len(),
        body.len() > 0,
        head.len() + body.len() <= MAX_REASSEMBLED_FRAGMENT_SIZE,
    ensures
        frs.len() > 0,
        forall|j: int|
            0 <= j < frs.len() - 1 ==> #[trigger] entry_result(
                fed(empty_entry(last_used), frs, times, j),
                frs[j],
                times[j],
            ) == Ok::<Option<Seq<u8>>, Error>(None),
        entry_result(
            fed(empty_entry(last_used), frs, times, frs.len() - 1),
            frs[frs.len() - 1],
            times[frs.len() - 1],
        ) == Ok::<Option<Seq<u8>>, Error>(Some(assembled(head + body))),
        fed(empty_entry(last_used), frs, times, frs.len() as int) == empty_entry(
            times[frs.len() - 1],
        ),
{
    let n = frs.len() as int;
    let whole = head + body;
    let hl = head.len() as int;
    assert(carried_by(frs, n, 0));
    let first = lemma_carrier(frs, n, 0);
    assert(fragment_of(frs[first], key, head, body));
    lemma_collecting(frs, times, key, head, body, last_used, n - 1);
    let e = fed(empty_entry(last_used), frs, times, n - 1);
    lemma_step(e, frs, times, key, head, body, n - 1);
    let acc = accumulated(e, frs[n - 1], times[n - 1]);
    // the end of the datagram is known
    assert(carried_by(frs, n, body.len() - 1));
    let last = lemma_carrier(frs, n, body.len() - 1);
    assert(fragment_of(frs[last], key, head, body));
    lemma_ended_by(frs, n, last);
    // and every position before it was written
    assert forall|i: int| 0 <= i < hl + body.len() implies acc.written.dom().contains(i) by {
        if i < hl {
            assert(placed(frs[first]).dom().contains(i));
            lemma_reached_by(frs, n, first, i);
        } else {
            assert(carried_by(frs, n, i - hl));
            let a = lemma_carrier(frs, n, i - hl);
            assert(fragment_of(frs[a], key, head, body));
            assert(placed(frs[a]).dom().contains(i));
            lemma_reached_by(frs, n, a, i);
        }
    }
    assert(complete(acc));
    assert(collected(acc) =~= whole);
    assert(whole[0] == frs[first][0]) by {
        assert(frs[first].subrange(0, hl)[0] == frs[first][0]);
    }
    assert(header_fits(whole));
    assert(cleared(acc) == empty_entry(times[n - 1]));
}

/// The table after the first `k` fragments were handed to it, the `j`-th
/// at time `times[j]`.
pub open spec fn table_fed(table: Seq<EntryView>, frs: Seq<Seq<u8>>, times: Seq<u64>, k: int) -> Seq<
    EntryView,
>
    decreases k,
{
    if k <= 0 {
        table
    } else {
        table_after(table_fed(table, frs, times, k - 1), frs[k - 1], times[k - 1])
    }
}

/// While the fragments of a datagram are handed to a table that did not
/// know the datagram, one slot collects them and the others stay as
/// they were.
proof fn lemma_table_collecting(
    table: Seq<EntryView>,
    frs: Seq<Seq<u8>>,
    times: Seq<u64>,
    key: FragmentKey,
    head: Seq<u8>,
    body: Seq<u8>,
    k: int,
)
    requires
        table_ok(table),
        tiling(frs, key, head, body),
        frs.len() == times.len(),
        head.len() + body.len() <= MAX_REASSEMBLED_FRAGMENT_SIZE,
        forall|i: int| 0 <= i < table.len() ==> (#[trigger] table[i]).key != Some(key),
        1 <= k < frs.len(),
        slot_for(table, key, times[0]) is Some,
    ensures
        ({
            let slot = slot_for(table, key, times[0])->0;
            let start = empty_entry(table[slot].last_used);
            &&& 0 <= slot < table.len()
            &&& table_fed(table, frs, times, k) == table.update(slot, fed(start, frs, times, k))
            &&& forall|j: int|
                0 <= j < k ==> #[trigger] fragment_result(
                    table_fed(table, frs, times, j),
                    frs[j],
                    times[j],
                ) == entry_result(fed(start, frs, times, j), frs[j], times[j])
            &&& fragment_result(table_fed(table, frs, times, k), frs[k], times[k]) == entry_result(
                fed(start, frs, times, k),
                frs[k],
                times[k],
            )
            &&& table_after(table_fed(table, frs, times, k), frs[k], times[k]) == table.update(
                slot,
                fed(start, frs, times, k + 1),
            )
        }),
    decreases k,
{
    let slot = slot_for(table, key, times[0])->0;
    let start = empty_entry(table[slot].last_used);
    lemma_first_suiting(table, SlotUse::Holding(key), 0);
    lemma_first_suiting(table, SlotUse::Empty, 0);
    lemma_first_suiting(table, SlotUse::Stale(times[0]), 0);
    assert(fragment_of(frs[0], key, head, body));
    assert(ready(table[slot], key) == start);
    if k > 1 {
        lemma_table_collecting(table, frs, times, key, head, body, k - 1);
    } else {
        assert(table_fed(table, frs, times, 0) == table);
        assert(fed(start, frs, times, 0) == start);
    }
    lemma_collecting(frs, times, key, head, body, table[slot].last_used, k);
    let e = fed(start, frs, times, k);
    let now_table = table.update(slot, e);
    assert(table_fed(table, frs, times, k) == now_table);
    assert(fragment_of(frs[k], key, head, body));
    lemma_first_suiting(now_table, SlotUse::Holding(key), 0);
    assert(now_table[slot].key == Some(key));
    assert(first_suiting(now_table, SlotUse::Holding(key), 0) == Some(slot)) by {
        let found = first_suiting(now_table, SlotUse::Holding(key), 0);
        if found is Some && found->0 != slot {
            assert(now_table[found->0] == table[found->0]);
        }
    }
    assert(ready(now_table[slot], key) == e);
    assert(table_after(now_table, frs[k], times[k]) =~= table.update(
        slot,
        fed(start, frs, times, k + 1),
    ));
}

/// The law of reassembly in any order, for a table: where the table
/// does not know the datagram and has a slot to spare, it answers the
/// fragments with nothing but for the last one, which it answers with
/// the datagram.
pub proof fn lemma_table_reassembly_any_order(
    table: Seq<EntryView>,
    frs: Seq<Seq<u8>>,
    times: Seq<u64>,
    key: FragmentKey,
    head: Seq<u8>,
    body: Seq<u8>,
)
    requires
        table_ok(table),
        tiling(frs, key, head, body),
        frs.len() == times.len(),
        body.len() > 0,
        head.len() + body.len() <= MAX_REASSEMBLED_FRAGMENT_SIZE,
        forall|i: int| 0 <= i < table.len() ==> (#[trigger] table[i]).key != Some(key),
        frs.len() > 0,
        slot_for(table, key, times[0]) is Some,
    ensures
        frs.len() > 0,
        forall|j: int|
            0 <= j < frs.len() - 1 ==> #[trigger] fragment_result(
                table_fed(table, frs, times, j),
                frs[j],
                times[j],
            ) == Ok::<Option<Seq<u8>>, Error>(None),
        fragment_result(
            table_fed(table, frs, times, frs.len() - 1),
            frs[frs.len() - 1],
            times[frs.len() - 1],
        ) == Ok::<Option<Seq<u8>>, Error>(Some(assembled(head + body))),
{
    let n = frs.len() as int;
    let slot = slot_for(table, key, times[0])->0;
    let start = empty_entry(table[slot].last_used);
    lemma_reassembly_any_order(frs, times, key, head, body, table[slot].last_used);
    if n >= 2 {
        lemma_table_collecting(table, frs, times, key, head, body, n - 1);
        assert forall|j: int| 0 <= j < n - 1 implies #[trigger] fragment_result(
            table_fed(table, frs, times, j),
            frs[j],
            times[j],
        ) == Ok::<Option<Seq<u8>>, Error>(None) by {
            assert(entry_result(fed(start, frs, times, j), frs[j], times[j]) == Ok::<
                Option<Seq<u8>>,
                Error,
            >(None));
        }
    } else {
        lemma_first_suiting(table, SlotUse::Holding(key), 0);
        lemma_first_suiting(table, SlotUse::Empty, 0);
        lemma_first_suiting(table, SlotUse::Stale(times[0]), 0);
        assert(fragment_of(frs[0], key, head, body));
        assert(ready(table[slot], key) == start);
        assert(table_fed(table, frs, times, 0) == table);
        assert(fed(start, frs, times, 0) == start);
    }
}

/// A datagram that was put together from a header `head` of a valid
/// packet and a payload `body` is a valid packet that carries `body`
/// and states the length of the whole.
pub proof fn lemma_assembled(head: Seq<u8>, body: Seq<u8>)
    requires
        head.len() >= ipv4::IPV4_HEADER_LEN,
        ipv4::header_len(head) == head.len(),
        ipv4::version(head) == 4,
        head.len() + body.len() <= ipv4::IPV4_MAX_TOTAL_LEN,
    ensures
        ({
            let d = assembled(head + body);
            &&& ipv4::well_formed(d)
            &&& d.len() == head.len() + body.len()
            &&& ipv4::total_len(d) == head.len() + body.len()
            &&& ipv4::header_len(d) == head.len()
            &&& ipv4::payload(d) == body
            &&& forall|i: int|
                0 <= i < head.len() && i != 2 && i != 3 && i != 10 && i != 11 ==> d[i] == head[i]
        }),
{
    let whole = head + body;
    let sized = with_be16(whole, 2, whole.len() as int);
    lemma_with_be16(whole, 2, whole.len() as int);
    assert(sized[0] == whole[0]);
    lemma_ipv4_checksum_filled(sized);
    let d = assembled(whole);
    assert(d[0] == head[0]);
    assert(d[2] == sized[2] && d[3] == sized[3]);
    assert(ipv4::payload(d) =~= body);
}

/// `order` lists the numbers below `n` in some order, each once, and
/// `back` tells for each number where it stands in `order`.
pub open spec fn rearranges(order: Seq<int>, back: Seq<int>, n: int) -> bool {
    &&& order.len() == n
    &&& back.len() == n
    &&& forall|a: int| 0 <= a < n ==> 0 <= #[trigger] order[a] < n && back[order[a]] == a
    &&& forall|k: int| 0 <= k < n ==> 0 <= #[trigger] back[k] < n && order[back[k]] == k
}

/// The packets `sent`, in the order given by `order`.
pub open spec fn rearranged(sent: Seq<Seq<u8>>, order: Seq<int>) -> Seq<Seq<u8>> {
    Seq::new(order.len(), |a: int| sent[order[a]])
}

/// Among the packets handed over so far is the one that carries a given
/// position, if the packet that carries it stands among them.
proof fn lemma_carried_by(frs: Seq<Seq<u8>>, k: int, a: int, i: int)
    requires
        0 <= a < k,
        carries(frs[a], i),
    ensures
        carried_by(frs, k, i),
    decreases k,
{
    if a < k - 1 {
        lemma_carried_by(frs, k - 1, a, i);
    }
}

/// The header that the packets emitted for a datagram share, as the
/// first of them shows it.
pub open spec fn emitted_head(udp: Seq<u8>, src: int, dst: int, ident: int) -> Seq<u8> {
    fragment(udp, src, dst, ident, 0).subrange(0, ipv4::IPV4_HEADER_LEN as int)
}

/// The key under which the packets emitted for a datagram are collected.
pub open spec fn emitted_key(src: int, dst: int, ident: int) -> FragmentKey {
    FragmentKey { ident: ident as u16, src_addr: src as u32, dst_addr: dst as u32 }
}

/// The `k`-th packet that the fragmenter emits for a datagram is a
/// fragment of it that carries the `k`-th chunk.
proof fn lemma_emitted_fragment(udp: Seq<u8>, src: int, dst: int, ident: int, k: int)
    requires
        udp.len() > 0,
        fits_ipv4(udp.len() as int),
        0 <= src < 0x1_0000_0000,
        0 <= dst < 0x1_0000_0000,
        0 <= ident < 0x1_0000,
        0 <= k < fragment_count(udp.len() as int),
    ensures
        fragment_of(
            fragment(udp, src, dst, ident, k),
            emitted_key(src, dst, ident),
            emitted_head(udp, src, dst, ident),
            udp,
        ),
        span_lo(fragment(udp, src, dst, ident, k)) == chunk_start(k),
        span_hi(fragment(udp, src, dst, ident, k)) == chunk_end(udp.len() as int, k),
        emitted_head(udp, src, dst, ident).len() == ipv4::IPV4_HEADER_LEN,
{
    let f = fragment(udp, src, dst, ident, k);
    let head = emitted_head(udp, src, dst, ident);
    lemma_fragment_faithful(udp, src, dst, ident, 0);
    assert(fragment_faithful(udp, src, dst, ident, 0));
    assert(head.len() == ipv4::IPV4_HEADER_LEN);
    lemma_fragment_faithful(udp, src, dst, ident, k);
    assert(fragment_faithful(udp, src, dst, ident, k));
    assert(span_lo(f) == chunk_start(k));
    assert(span_hi(f) == chunk_end(udp.len() as int, k));
    assert(ipv4::more_frags(f) == (span_hi(f) < udp.len()));
    assert(key_of(f) == emitted_key(src, dst, ident));
    if span_lo(f) == 0 {
        assert(k == 0);
    }
}

/// The packet that stands at place `a` after rearranging is a fragment of
/// the datagram and carries the chunk whose number stands at `a`.
proof fn lemma_rearranged_fragment(
    udp: Seq<u8>,
    src: int,
    dst: int,
    ident: int,
    order: Seq<int>,
    back: Seq<int>,
    a: int,
)
    requires
        udp.len() > 0,
        fits_ipv4(udp.len() as int),
        0 <= src < 0x1_0000_0000,
        0 <= dst < 0x1_0000_0000,
        0 <= ident < 0x1_0000,
        rearranges(order, back, fragment_count(udp.len() as int)),
        0 <= a < fragment_count(udp.len() as int),
    ensures
        fragment_of(
            rearranged(fragments(udp, src, dst, ident), order)[a],
            emitted_key(src, dst, ident),
            emitted_head(udp, src, dst, ident),
            udp,
        ),
        span_lo(rearranged(fragments(udp, src, dst, ident), order)[a]) == chunk_start(order[a]),
        span_hi(rearranged(fragments(udp, src, dst, ident), order)[a]) == chunk_end(
            udp.len() as int,
            order[a],
        ),
{
    lemma_emitted_fragment(udp, src, dst, ident, order[a]);
}

/// Rearranged packets do not overlap.
proof fn lemma_rearranged_apart(
    udp: Seq<u8>,
    src: int,
    dst: int,
    ident: int,
    order: Seq<int>,
    back: Seq<int>,
    a: int,
    b: int,
)
    requires
        udp.len() > 0,
        fits_ipv4(udp.len() as int),
        0 <= src < 0x1_0000_0000,
        0 <= dst < 0x1_0000_0000,
        0 <= ident < 0x1_0000,
        rearranges(order, back, fragment_count(udp.len() as int)),
        0 <= a < fragment_count(udp.len() as int),
        0 <= b < fragment_count(udp.len() as int),
        a != b,
    ensures
        apart(
            rearranged(fragments(udp, src, dst, ident), order)[a],
            rearranged(fragments(udp, src, dst, ident), order)[b],
        ),
{
    lemma_rearranged_fragment(udp, src, dst, ident, order, back, a);
    lemma_rearranged_fragment(udp, src, dst, ident, order, back, b);
    let k = order[a];
    let l = order[b];
    assert(back[k] == a && back[l] == b);
    assert(k != l);
    if k < l {
        assert(chunk_end(udp.len() as int, k) <= chunk_start(l));
    } else {
        assert(chunk_end(udp.len() as int, l) <= chunk_start(k));
    }
}

/// Rearranged packets carry every position of the datagram.
proof fn lemma_rearranged_carry(
    udp: Seq<u8>,
    src: int,
    dst: int,
    ident: int,
    order: Seq<int>,
    back: Seq<int>,
    i: int,
)
    requires
        udp.len() > 0,
        fits_ipv4(udp.len() as int),
        0 <= src < 0x1_0000_0000,
        0 <= dst < 0x1_0000_0000,
        0 <= ident < 0x1_0000,
        rearranges(order, back, fragment_count(udp.len() as int)),
        0 <= i < udp.len(),
    ensures
        carried_by(
            rearranged(fragments(udp, src, dst, ident), order),
            fragment_count(udp.len() as int),
            i,
        ),
{
    let frs = rearranged(fragments(udp, src, dst, ident), order);
    let k = i / (MTU_UDP as int);
    assert(0 <= k < fragment_count(udp.len() as int));
    let a = back[k];
    assert(order[a] == k);
    lemma_rearranged_fragment(udp, src, dst, ident, order, back, a);
    assert(chunk_start(k) <= i < chunk_end(udp.len() as int, k));
    assert(carries(frs[a], i));
    lemma_carried_by(frs, fragment_count(udp.len() as int), a, i);
}

/// The packets that the fragmenter emits for a datagram, in whatever
/// order, are fragments of one datagram that do not overlap and carry
/// the whole of it.
pub proof fn lemma_fragments_tile(
    udp: Seq<u8>,
    src: int,
    dst: int,
    ident: int,
    order: Seq<int>,
    back: Seq<int>,
)
    requires
        udp.len() > 0,
        fits_ipv4(udp.len() as int),
        0 <= src < 0x1_0000_0000,
        0 <= dst < 0x1_0000_0000,
        0 <= ident < 0x1_0000,
        rearranges(order, back, fragment_count(udp.len() as int)),
    ensures
        tiling(
            rearranged(fragments(udp, src, dst, ident), order),
            emitted_key(src, dst, ident),
            emitted_head(udp, src, dst, ident),
            udp,
        ),
{
    let frs = rearranged(fragments(udp, src, dst, ident), order);
    let key = emitted_key(src, dst, ident);
    let head = emitted_head(udp, src, dst, ident);
    assert(frs.len() == fragment_count(udp.len() as int));
    assert forall|a: int| 0 <= a < frs.len() implies fragment_of(#[trigger] frs[a], key, head, udp) by {
        lemma_rearranged_fragment(udp, src, dst, ident, order, back, a);
    }
    assert forall|a: int, b: int| 0 <= a < frs.len() && 0 <= b < frs.len() && a != b implies apart(
        #[trigger] frs[a],
        #[trigger] frs[b],
    ) by {
        lemma_rearranged_apart(udp, src, dst, ident, order, back, a, b);
    }
    assert forall|i: int| 0 <= i < udp.len() implies #[trigger] carried_by(
        frs,
        frs.len() as int,
        i,
    ) by {
        lemma_rearranged_carry(udp, src, dst, ident, order, back, i);
    }
}

/// Fragmenting a datagram and reassembling the packets, in whatever
/// order they come, gives the datagram back.  The slot answers every
/// packet but the last with nothing, and the last with a valid packet
/// that carries the datagram, under the same addresses and
/// identification.
pub proof fn lemma_round_trip(
    udp: Seq<u8>,
    src: int,
    dst: int,
    ident: int,
    order: Seq<int>,
    back: Seq<int>,
    times: Seq<u64>,
    last_used: u64,
)
    requires
        udp.len() > 0,
        fits_ipv4(udp.len() as int),
        0 <= src < 0x1_0000_0000,
        0 <= dst < 0x1_0000_0000,
        0 <= ident < 0x1_0000,
        rearranges(order, back, fragment_count(udp.len() as int)),
        times.len() == fragment_count(udp.len() as int),
    ensures
        ({
            let delivered = rearranged(fragments(udp, src, dst, ident), order);
            let n = delivered.len() as int;
            let whole = assembled(emitted_head(udp, src, dst, ident) + udp);
            &&& n == fragment_count(udp.len() as int)
            &&& forall|j: int|
                0 <= j < n - 1 ==> #[trigger] entry_result(
                    fed(empty_entry(last_used), delivered, times, j),
                    delivered[j],
                    times[j],
                ) == Ok::<Option<Seq<u8>>, Error>(None)
            &&& entry_result(
                fed(empty_entry(last_used), delivered, times, n - 1),
                delivered[n - 1],
                times[n - 1],
            ) == Ok::<Option<Seq<u8>>, Error>(Some(whole))
            &&& ipv4::well_formed(whole)
            &&& ipv4::payload(whole) == udp
            &&& ipv4::total_len(whole) == ipv4::IPV4_HEADER_LEN + udp.len()
            &&& key_of(whole) == emitted_key(src, dst, ident)
            &&& ipv4::protocol(whole) == ipv4::PROTO_UDP
        }),
{
    let sent = fragments(udp, src, dst, ident);
    let delivered = rearranged(sent, order);
    let key = emitted_key(src, dst, ident);
    let head = emitted_head(udp, src, dst, ident);
    let first = fragment(udp, src, dst, ident, 0);
    lemma_fragment_faithful(udp, src, dst, ident, 0);
    assert(fragment_faithful(udp, src, dst, ident, 0));
    assert(head.len() == ipv4::IPV4_HEADER_LEN);
    assert(head[0] == first[0]);
    lemma_fragments_tile(udp, src, dst, ident, order, back);
    lemma_reassembly_any_order(delivered, times, key, head, udp, last_used);
    lemma_assembled(head, udp);
    let whole = assembled(head + udp);
    assert forall|i: int| 4 <= i < 20 && i != 10 && i != 11 implies whole[i] == first[i] by {
        assert(head[i] == first[i]);
    }
}

} // verus!
