//! Who holds a chunk. A chunk is free, or on lease to a packet, or held by
//! the kernel through one of a binding's rings; the statements here say that
//! the operations of a binding keep every chunk in one hand only.

use vstd::prelude::*;
use crate::chunk::{align_down, lemma_chunk_in_region, lemma_chunk_start, DEFAULT_HEADROOM};
use crate::exchange::{
    addresses, fill_count, fits, lemma_stored_packets_keeps_region, ready_count, reclaimed,
    tx_descriptor, tx_descriptors,
};
use crate::nic::{
    after_deliver, after_open, after_receive, after_send, after_transmit, can_deliver, can_send,
    can_transmit, open_decision, opens, NicState, NicView, OpenEvent,
};
use crate::packet::PacketView;
use crate::pool::{lemma_freed_all_keeps_region, PoolView};
use crate::umem::{attached, granted_cq, granted_fq, leased_packet, refilled, UmemView};

verus! {

/// The chunk in which an address lies.
pub open spec fn chunk_of(addr: u64, pool: PoolView) -> u64 {
    align_down(addr as int, pool.chunk_size as int) as u64
}

/// The chunks that the fill queue offers to the kernel.
pub open spec fn fill_chunks(nic: NicView) -> Seq<u64> {
    Seq::new(nic.fq.published.len(), |i: int| nic.fq.published[i].addr)
}

/// The chunks in which the frames of the receive ring lie.
pub open spec fn rx_chunks(nic: NicView) -> Seq<u64> {
    Seq::new(nic.rx.entries.len(), |i: int| (nic.rx.entries[i].addr - DEFAULT_HEADROOM) as u64)
}

/// The chunks in which the frames of the transmit ring lie.
pub open spec fn tx_chunks(nic: NicView, pool: PoolView) -> Seq<u64> {
    Seq::new(nic.tx.published.len(), |i: int| chunk_of(nic.tx.published[i].addr, pool))
}

/// The chunks that the completion queue gives back.
pub open spec fn cq_chunks(nic: NicView, pool: PoolView) -> Seq<u64> {
    Seq::new(nic.cq.entries.len(), |i: int| chunk_of(nic.cq.entries[i].addr, pool))
}

/// No address of `chunks` is a chunk that the kernel holds through one of
/// the binding's rings.
pub open spec fn apart_from_rings(chunks: Seq<u64>, nic: NicView, pool: PoolView) -> bool {
    &&& apart(chunks, fill_chunks(nic))
    &&& apart(chunks, rx_chunks(nic))
    &&& apart(chunks, tx_chunks(nic, pool))
    &&& apart(chunks, cq_chunks(nic, pool))
}

/// The chunks that a sequence of packets leases.
pub open spec fn leases(packets: Seq<PacketView>) -> Seq<u64> {
    Seq::new(packets.len(), |i: int| packets[i].chunk)
}

/// No address of `a` is one of `b`.
pub open spec fn apart(a: Seq<u64>, b: Seq<u64>) -> bool {
    forall|i: int, j: int| 0 <= i < a.len() && 0 <= j < b.len() ==> a[i] != b[j]
}

/// Every address of `chunks` is a chunk of the region that is not free.
pub open spec fn all_out(pool: PoolView, chunks: Seq<u64>) -> bool {
    forall|i: int|
        0 <= i < chunks.len() ==> pool.is_chunk(#[trigger] chunks[i]) && !pool.free.contains(
            chunks[i],
        )
}

/// Every chunk that the kernel holds through the binding is held once, in
/// one ring, and is not free.
pub open spec fn exclusive(nic: NicView, pool: PoolView) -> bool {
    &&& fill_chunks(nic).no_duplicates()
    &&& rx_chunks(nic).no_duplicates()
    &&& tx_chunks(nic, pool).no_duplicates()
    &&& cq_chunks(nic, pool).no_duplicates()
    &&& apart(fill_chunks(nic), rx_chunks(nic))
    &&& apart(fill_chunks(nic), tx_chunks(nic, pool))
    &&& apart(fill_chunks(nic), cq_chunks(nic, pool))
    &&& apart(rx_chunks(nic), tx_chunks(nic, pool))
    &&& apart(rx_chunks(nic), cq_chunks(nic, pool))
    &&& apart(tx_chunks(nic, pool), cq_chunks(nic, pool))
    &&& all_out(pool, fill_chunks(nic))
    &&& all_out(pool, rx_chunks(nic))
    &&& all_out(pool, tx_chunks(nic, pool))
    &&& all_out(pool, cq_chunks(nic, pool))
}

/// The packets lease chunks of the region that are not free, no two the
/// same chunk, and none a chunk that the kernel holds through the binding.
pub open spec fn leased_apart(packets: Seq<PacketView>, nic: NicView, pool: PoolView) -> bool {
    &&& leases(packets).no_duplicates()
    &&& all_out(pool, leases(packets))
    &&& apart_from_rings(leases(packets), nic, pool)
}

/// The chunk of the `i`-th packet that a receive returns.
pub open spec fn received_chunks(nic: NicView, pool: PoolView, len: nat) -> Seq<u64> {
    if nic.state == NicState::Open {
        rx_chunks(nic).take(ready_count(nic.rx, len) as int)
    } else {
        Seq::empty()
    }
}

/// Exclusivity across a receive: where the binding held every chunk in one
/// hand before, it does so afterwards; and the packets that the receive
/// returns lease chunks that are not free, no two the same chunk, and none a
/// chunk that the binding still holds.
pub proof fn lemma_receive_exclusive(nic: NicView, pool: UmemView, len: nat)
    requires
        pool.buffers.wf(),
        nic.rx.peeked == 0,
        nic.fq.reserved.len() == 0,
        nic.fq.published.len() <= nic.fq.capacity,
        exclusive(nic, pool.buffers),
    ensures
        exclusive(after_receive(nic, pool, len).0, after_receive(nic, pool, len).1.buffers),
        received_chunks(nic, pool.buffers, len).no_duplicates(),
        all_out(
            after_receive(nic, pool, len).1.buffers,
            received_chunks(nic, pool.buffers, len),
        ),
        apart_from_rings(
            received_chunks(nic, pool.buffers, len),
            after_receive(nic, pool, len).0,
            after_receive(nic, pool, len).1.buffers,
        ),
{
    if nic.state == NicState::Open {
        let after = after_receive(nic, pool, len).0;
        let rest = after_receive(nic, pool, len).1.buffers;
        let before = pool.buffers;
        let k = ready_count(nic.rx, len) as int;
        let n = fill_count(before, nic.fq, len) as int;
        let total = before.free.len() as int;
        let fresh = Seq::new(n as nat, |i: int| before.free[total - 1 - i]);
        assert(fill_chunks(after) =~= fill_chunks(nic) + fresh);
        assert(rx_chunks(after) =~= rx_chunks(nic).skip(k));
        assert(tx_chunks(after, rest) =~= tx_chunks(nic, before));
        assert(cq_chunks(after, rest) =~= cq_chunks(nic, before));
        assert(rest.free =~= before.free.take(total - n));
        // What is handed out was free, and is free no more.
        assert forall|i: int| 0 <= i < n implies before.free.contains(#[trigger] fresh[i])
            && !rest.free.contains(fresh[i]) && rest.is_chunk(fresh[i]) by {
            assert(before.free[total - 1 - i] == fresh[i]);
            if rest.free.contains(fresh[i]) {
                let j = choose|j: int| 0 <= j < rest.free.len() && rest.free[j] == fresh[i];
                assert(before.free[j] == before.free[total - 1 - i]);
            }
        }
        // What was not free stays so.
        assert forall|c: u64| !before.free.contains(c) implies !rest.free.contains(c) by {
            if rest.free.contains(c) {
                let j = choose|j: int| 0 <= j < rest.free.len() && rest.free[j] == c;
                assert(before.free[j] == c);
            }
        }
        assert(fresh.no_duplicates());
        assert(apart(fill_chunks(nic), fresh));
        assert(apart(fresh, rx_chunks(nic)));
        assert(apart(fresh, tx_chunks(nic, before)));
        assert(apart(fresh, cq_chunks(nic, before)));
        let got = received_chunks(nic, before, len);
        assert(got =~= rx_chunks(nic).take(k));
        assert(got.no_duplicates());
        assert(all_out(rest, got));
        assert(apart(got, fill_chunks(after))) by {
            assert forall|i: int, j: int|
                0 <= i < got.len() && 0 <= j < fill_chunks(after).len() implies got[i]
                != fill_chunks(after)[j] by {
                if j >= fill_chunks(nic).len() {
                    assert(fill_chunks(after)[j] == fresh[j - fill_chunks(nic).len()]);
                }
            }
        }
        assert(apart(got, rx_chunks(after))) by {
            assert forall|i: int, j: int|
                0 <= i < got.len() && 0 <= j < rx_chunks(after).len() implies got[i]
                != rx_chunks(after)[j] by {
                assert(rx_chunks(after)[j] == rx_chunks(nic)[j + k]);
            }
        }
    } else {
        assert(received_chunks(nic, pool.buffers, len) =~= Seq::<u64>::empty());
    }
}

/// A reclaim frees exactly the chunks of the completions that it takes,
/// oldest first, where those are chunks that are out, each once.
pub proof fn lemma_reclaim_frees(nic: NicView, pool: PoolView, m: nat)
    requires
        pool.wf(),
        m <= nic.cq.entries.len(),
        cq_chunks(nic, pool).no_duplicates(),
        all_out(pool, cq_chunks(nic, pool)),
    ensures
        pool.freed_all(addresses(nic.cq.entries.take(m as int))) == (PoolView {
            free: pool.free + cq_chunks(nic, pool).take(m as int),
            ..pool
        }),
    decreases m,
{
    let chunks = cq_chunks(nic, pool);
    let addrs = addresses(nic.cq.entries.take(m as int));
    if m == 0 {
        assert(pool.free + chunks.take(0) =~= pool.free);
    } else {
        lemma_reclaim_frees(nic, pool, (m - 1) as nat);
        let earlier = addresses(nic.cq.entries.take(m - 1));
        assert(addrs.drop_last() =~= earlier);
        assert(addrs.last() == nic.cq.entries[m - 1].addr);
        let before = pool.freed_all(earlier);
        let chunk = chunks[m - 1];
        assert(chunk == chunk_of(addrs.last(), before));
        assert(pool.is_chunk(chunk));
        assert(!before.free.contains(chunk)) by {
            if before.free.contains(chunk) {
                let j = choose|j: int| 0 <= j < before.free.len() && before.free[j] == chunk;
                if j < pool.free.len() {
                    assert(pool.free[j] == chunk);
                } else {
                    assert(chunks[j - pool.free.len()] == chunk);
                }
            }
        }
        assert(before.free.push(chunk) =~= pool.free + chunks.take(m as int));
    }
}

/// The address of a packet's transmit descriptor lies in the packet's chunk,
/// where the payload starts inside the chunk. A payload that starts at the
/// chunk's end is empty, and its descriptor's address lies in the chunk that
/// follows.
pub proof fn lemma_tx_descriptor_chunk(packet: PacketView, pool: PoolView)
    requires
        pool.wf(),
        fits(pool, packet),
        packet.start < packet.buffer_size,
    ensures
        chunk_of(tx_descriptor(packet).addr, pool) == packet.chunk,
{
    let cs = pool.chunk_size as int;
    let chunk = packet.chunk as int;
    let offset = packet.start as int;
    lemma_chunk_in_region(chunk, cs, pool.chunk_count as int);
    lemma_chunk_start(chunk, cs);
    vstd::arithmetic::div_mod::lemma_fundamental_div_mod_converse(
        chunk + offset,
        cs,
        chunk / cs,
        offset,
    );
}

/// Exclusivity across a send: where the binding held every chunk in one hand
/// before, and the packets lease chunks of their own that are neither free
/// nor held by the binding, and each payload starts inside its chunk, the
/// binding holds every chunk in one hand afterwards, the chunks of the
/// packets that it took among them.
pub proof fn lemma_send_exclusive(nic: NicView, pool: UmemView, packets: Seq<PacketView>)
    requires
        pool.buffers.wf(),
        nic.cq.peeked == 0,
        exclusive(nic, pool.buffers),
        forall|i: int|
            0 <= i < packets.len() ==> fits(pool.buffers, #[trigger] packets[i]) && packets[i].start
                < packets[i].buffer_size,
        leased_apart(packets, nic, pool.buffers),
    ensures
        exclusive(
            after_send(nic, pool, packets).0,
            after_send(nic, pool, packets).1.buffers,
        ),
{
    if nic.state == NicState::Open {
        let before = pool.buffers;
        let after = after_send(nic, pool, packets).0;
        let rest = after_send(nic, pool, packets).1.buffers;
        let c = ready_count(nic.cq, before.cq_size);
        let taken = addresses(nic.cq.entries.take(c as int));
        let chunks = cq_chunks(nic, before);
        lemma_reclaim_frees(nic, before, c);
        lemma_freed_all_keeps_region(before, taken);
        let swept = reclaimed(before, nic.cq);
        assert(swept.free == before.free + chunks.take(c as int));
        if can_send(nic, packets.len()) {
            lemma_stored_packets_keeps_region(swept, packets);
        }
        assert(rest.free == swept.free);
        assert(rest.chunk_size == before.chunk_size);
        assert(rest.chunk_count == before.chunk_count);
        assert(fill_chunks(after) =~= fill_chunks(nic));
        assert(rx_chunks(after) =~= rx_chunks(nic));
        assert(cq_chunks(after, rest) =~= chunks.skip(c as int));
        // What is neither free nor reclaimed stays out.
        assert forall|chunk: u64|
            !before.free.contains(chunk) && !chunks.take(c as int).contains(
                chunk,
            ) implies !rest.free.contains(chunk) by {
            if rest.free.contains(chunk) {
                let j = choose|j: int| 0 <= j < rest.free.len() && rest.free[j] == chunk;
                if j < before.free.len() {
                    assert(before.free[j] == chunk);
                } else {
                    assert(chunks.take(c as int)[j - before.free.len()] == chunk);
                }
            }
        }
        assert forall|s: Seq<u64>| all_out(before, s) && apart(s, chunks) implies all_out(
            rest,
            s,
        ) by {
            assert forall|i: int| 0 <= i < s.len() implies rest.is_chunk(#[trigger] s[i])
                && !rest.free.contains(s[i]) by {
                if chunks.take(c as int).contains(s[i]) {
                    let j = choose|j: int|
                        0 <= j < chunks.take(c as int).len() && chunks.take(c as int)[j] == s[i];
                    assert(chunks[j] == s[i]);
                }
            }
        }
        assert(apart(fill_chunks(nic), chunks));
        assert(apart(rx_chunks(nic), chunks));
        assert(apart(tx_chunks(nic, before), chunks));
        assert(apart(leases(packets), chunks));
        assert(all_out(rest, fill_chunks(nic)));
        assert(all_out(rest, rx_chunks(nic)));
        assert(all_out(rest, tx_chunks(nic, before)));
        assert(all_out(rest, leases(packets)));
        assert(all_out(rest, chunks.skip(c as int))) by {
            assert forall|i: int| 0 <= i < chunks.skip(c as int).len() implies rest.is_chunk(
                #[trigger] chunks.skip(c as int)[i],
            ) && !rest.free.contains(chunks.skip(c as int)[i]) by {
                let chunk = chunks[i + c];
                if chunks.take(c as int).contains(chunk) {
                    let j = choose|j: int|
                        0 <= j < chunks.take(c as int).len() && chunks.take(c as int)[j] == chunk;
                    assert(chunks[j] == chunk);
                }
            }
        }
        if can_send(nic, packets.len()) {
            assert(tx_chunks(after, rest) =~= tx_chunks(nic, before) + leases(packets)) by {
                assert forall|i: int| 0 <= i < packets.len() implies chunk_of(
                    #[trigger] tx_descriptors(packets)[i].addr,
                    rest,
                ) == packets[i].chunk by {
                    lemma_tx_descriptor_chunk(packets[i], before);
                }
            }
        } else {
            assert(tx_chunks(after, rest) =~= tx_chunks(nic, before));
        }
    }
}

/// Exclusivity across the kernel's landing of a frame: the chunk moves from
/// the fill queue to the receive ring and stays in one hand.
pub proof fn lemma_deliver_exclusive(nic: NicView, pool: UmemView, frame: Seq<u8>)
    requires
        pool.buffers.wf(),
        exclusive(nic, pool.buffers),
    ensures
        exclusive(
            after_deliver(nic, pool, frame).0,
            after_deliver(nic, pool, frame).1.buffers,
        ),
{
    if can_deliver(nic, pool.buffers, frame.len()) {
        let before = pool.buffers;
        let after = after_deliver(nic, pool, frame).0;
        let rest = after_deliver(nic, pool, frame).1.buffers;
        let chunk = fill_chunks(nic)[0];
        lemma_chunk_in_region(
            chunk as int,
            before.chunk_size as int,
            before.chunk_count as int,
        );
        assert(rest.free == before.free);
        assert(fill_chunks(after) =~= fill_chunks(nic).drop_first());
        assert(rx_chunks(after) =~= rx_chunks(nic).push(chunk));
        assert(tx_chunks(after, rest) =~= tx_chunks(nic, before));
        assert(cq_chunks(after, rest) =~= cq_chunks(nic, before));
        assert forall|i: int| 0 <= i < fill_chunks(after).len() implies fill_chunks(after)[i]
            == fill_chunks(nic)[i + 1] by {}
    }
}

/// Exclusivity across the kernel's sending of a frame: the chunk moves from
/// the transmit ring to the completion queue and stays in one hand.
pub proof fn lemma_transmit_exclusive(nic: NicView, pool: PoolView)
    requires
        pool.wf(),
        exclusive(nic, pool),
    ensures
        exclusive(after_transmit(nic, pool), pool),
{
    if can_transmit(nic, pool) {
        let after = after_transmit(nic, pool);
        let chunk = tx_chunks(nic, pool)[0];
        assert(fill_chunks(after) =~= fill_chunks(nic));
        assert(rx_chunks(after) =~= rx_chunks(nic));
        assert(tx_chunks(after, pool) =~= tx_chunks(nic, pool).drop_first());
        assert(cq_chunks(after, pool) =~= cq_chunks(nic, pool).push(chunk));
        assert forall|i: int| 0 <= i < tx_chunks(after, pool).len() implies tx_chunks(
            after,
            pool,
        )[i] == tx_chunks(nic, pool)[i + 1] by {}
    }
}

/// Exclusivity across a lease from the pool: the chunk that the pool hands
/// out was free, so no ring holds it, and what the binding holds stays out.
pub proof fn lemma_alloc_exclusive(nic: NicView, pool: PoolView)
    requires
        pool.wf(),
        pool.free.len() > 0,
        exclusive(nic, pool),
    ensures
        exclusive(nic, pool.taken(1)),
        leased_apart(seq![leased_packet(pool, pool.free.last())], nic, pool.taken(1)),
{
    let rest = pool.taken(1);
    let chunk = pool.free.last();
    assert forall|c: u64| !pool.free.contains(c) implies !rest.free.contains(c) by {
        if rest.free.contains(c) {
            let j = choose|j: int| 0 <= j < rest.free.len() && rest.free[j] == c;
            assert(pool.free[j] == c);
        }
    }
    assert(!rest.free.contains(chunk)) by {
        if rest.free.contains(chunk) {
            let j = choose|j: int| 0 <= j < rest.free.len() && rest.free[j] == chunk;
            assert(pool.free[j] == pool.free[pool.free.len() - 1]);
        }
    }
    assert(pool.free.contains(chunk)) by {
        assert(pool.free[pool.free.len() - 1] == chunk);
    }
    assert(tx_chunks(nic, rest) =~= tx_chunks(nic, pool));
    assert(cq_chunks(nic, rest) =~= cq_chunks(nic, pool));
    let one = leases(seq![leased_packet(pool, chunk)]);
    assert(one =~= seq![chunk]);
}

/// Exclusivity across the end of a lease: handing back a chunk that no ring
/// holds leaves what the binding holds out.
pub proof fn lemma_free_exclusive(nic: NicView, pool: PoolView, addr: u64)
    requires
        pool.wf(),
        exclusive(nic, pool),
        apart_from_rings(seq![chunk_of(addr, pool)], nic, pool),
    ensures
        exclusive(nic, pool.freed(addr)),
{
    let rest = pool.freed(addr);
    let chunk = chunk_of(addr, pool);
    let f = fill_chunks(nic);
    let r = rx_chunks(nic);
    let t = tx_chunks(nic, pool);
    let c = cq_chunks(nic, pool);
    assert(tx_chunks(nic, rest) =~= t);
    assert(cq_chunks(nic, rest) =~= c);
    assert forall|x: u64| x != chunk && !pool.free.contains(x) implies !rest.free.contains(x) by {
        if rest.free.contains(x) {
            let j = choose|j: int| 0 <= j < rest.free.len() && rest.free[j] == x;
            if j < pool.free.len() {
                assert(pool.free[j] == x);
            }
        }
    }
    assert forall|i: int| 0 <= i < f.len() implies #[trigger] f[i] != chunk by {
        assert(seq![chunk][0] == chunk);
    }
    assert forall|i: int| 0 <= i < r.len() implies #[trigger] r[i] != chunk by {
        assert(seq![chunk][0] == chunk);
    }
    assert forall|i: int| 0 <= i < t.len() implies #[trigger] t[i] != chunk by {
        assert(seq![chunk][0] == chunk);
    }
    assert forall|i: int| 0 <= i < c.len() implies #[trigger] c[i] != chunk by {
        assert(seq![chunk][0] == chunk);
    }
}

/// Exclusivity at the opening: a binding that opens holds exactly the chunks
/// that filled its fill queue, each once, and none of them is free any more.
pub proof fn lemma_open_exclusive(nic: NicView, pool: UmemView, event: OpenEvent)
    requires
        pool.wf(),
        nic.wf(pool.buffers),
        opens(nic.state, open_decision(nic.state, event, pool).0),
    ensures
        exclusive(after_open(nic, pool, event).0, after_open(nic, pool, event).1.buffers),
{
    let before = pool.buffers;
    let rest = attached(pool, nic.fq, nic.cq).buffers;
    let after = NicView {
        state: NicState::Open,
        fq: refilled(granted_fq(pool), before, before.fq_size),
        cq: granted_cq(pool),
        ..nic
    };
    let n = fill_count(before, granted_fq(pool), before.fq_size) as int;
    let total = before.free.len() as int;
    let fresh = Seq::new(n as nat, |i: int| before.free[total - 1 - i]);
    assert(fill_chunks(after) =~= fresh);
    assert(rx_chunks(after) =~= Seq::<u64>::empty());
    assert(tx_chunks(after, rest) =~= Seq::<u64>::empty());
    assert(cq_chunks(after, rest) =~= Seq::<u64>::empty());
    assert(rest.free =~= before.free.take(total - n));
    assert forall|i: int| 0 <= i < n implies rest.is_chunk(#[trigger] fresh[i])
        && !rest.free.contains(fresh[i]) by {
        assert(before.free[total - 1 - i] == fresh[i]);
        if rest.free.contains(fresh[i]) {
            let j = choose|j: int| 0 <= j < rest.free.len() && rest.free[j] == fresh[i];
            assert(before.free[j] == before.free[total - 1 - i]);
        }
    }
}

/// One send reclaims every completion: after a send on an open binding the
/// completion queue is empty, and the chunks of all its completions have
/// been handed back to the pool.
pub proof fn lemma_send_reclaims_all(nic: NicView, pool: UmemView, packets: Seq<PacketView>)
    requires
        pool.wf(),
        nic.wf(pool.buffers),
        nic.state == NicState::Open,
    ensures
        ready_count(nic.cq, pool.buffers.cq_size) == nic.cq.entries.len(),
        after_send(nic, pool, packets).0.cq.entries.len() == 0,
        reclaimed(pool.buffers, nic.cq) == pool.buffers.freed_all(addresses(nic.cq.entries)),
{
    assert(nic.cq.entries.take(nic.cq.entries.len() as int) =~= nic.cq.entries);
}

/// A receive on an open binding takes every frame that is ready, as far as
/// it was asked for.
pub proof fn lemma_receive_takes_what_is_ready(nic: NicView, pool: UmemView, len: nat)
    requires
        pool.wf(),
        nic.wf(pool.buffers),
        nic.state == NicState::Open,
    ensures
        nic.rx.entries.len() <= len ==> ready_count(nic.rx, len) == nic.rx.entries.len(),
        nic.rx.entries.len() > len ==> ready_count(nic.rx, len) == len,
{
}

} // verus!
