//! Moving chunks between the buffer pool and the rings: filling the fill
//! queue, reclaiming completions, turning receive descriptors into packets
//! and packets into transmit descriptors.

use vstd::prelude::*;
use crate::chunk::{lemma_chunk_in_region, DEFAULT_HEADROOM};
use crate::packet::{Packet, PacketView};
use crate::pool::{lemma_freed_all_keeps_region, BufferPool, PoolView};
use crate::ring::{
    min_of, ConsumerRing, ConsumerView, Descriptor, ProducerRing, ProducerView, ReservedResult,
};

verus! {

/// What each packet of a sequence holds.
pub open spec fn views(packets: Seq<Packet>) -> Seq<PacketView> {
    Seq::new(packets.len(), |i: int| packets[i]@)
}

/// The addresses of a sequence of descriptors.
pub open spec fn addresses(descs: Seq<Descriptor>) -> Seq<u64> {
    Seq::new(descs.len(), |i: int| descs[i].addr)
}

/// The fill descriptors for the `n` topmost addresses of a free stack, the
/// top one first.
pub open spec fn handed_out(free: Seq<u64>, n: nat) -> Seq<Descriptor> {
    Seq::new(n, |i: int| Descriptor { addr: free[free.len() - 1 - i], len: 0 })
}

/// How many chunks a refill moves into the fill queue: as many as were asked
/// for, as the queue has free slots, and as the pool has free chunks.
pub open spec fn fill_count(pool: PoolView, fq: ProducerView, len: nat) -> nat {
    min_of(
        min_of(len as int, pool.free.len() as int),
        fq.capacity - fq.published.len() - fq.reserved.len(),
    ) as nat
}

/// Whether a receive descriptor names a frame that lies behind the headroom
/// of one chunk of the region and ends inside that chunk.
pub open spec fn valid_rx(pool: PoolView, desc: Descriptor) -> bool {
    &&& desc.addr >= DEFAULT_HEADROOM
    &&& pool.is_chunk((desc.addr - DEFAULT_HEADROOM) as u64)
    &&& DEFAULT_HEADROOM + desc.len <= pool.chunk_size
}

/// The packet that a receive descriptor stands for: the lease of the chunk
/// in which the frame lies, with the payload window on the frame.
pub open spec fn received(pool: PoolView, desc: Descriptor) -> PacketView {
    PacketView {
        start: DEFAULT_HEADROOM as nat,
        end: (DEFAULT_HEADROOM + desc.len) as nat,
        buffer_size: pool.chunk_size,
        buffer: pool.chunk_bytes((desc.addr - DEFAULT_HEADROOM) as u64),
        chunk: (desc.addr - DEFAULT_HEADROOM) as u64,
    }
}

/// Whether a packet is the lease of a chunk of this pool's region.
pub open spec fn fits(pool: PoolView, packet: PacketView) -> bool {
    &&& packet.wf()
    &&& packet.buffer_size == pool.chunk_size
    &&& pool.is_chunk(packet.chunk)
}

/// The transmit descriptor of a packet: where its payload starts in the
/// region, and the payload's length.
pub open spec fn tx_descriptor(packet: PacketView) -> Descriptor {
    Descriptor {
        addr: (packet.chunk + packet.start) as u64,
        len: (packet.end - packet.start) as u32,
    }
}

/// The transmit descriptors of a sequence of packets, in the same order.
pub open spec fn tx_descriptors(packets: Seq<PacketView>) -> Seq<Descriptor> {
    Seq::new(packets.len(), |i: int| tx_descriptor(packets[i]))
}

/// The pool after the bytes of each packet were written back to the
/// packet's chunk, in order.
pub open spec fn stored_packets(pool: PoolView, packets: Seq<PacketView>) -> PoolView
    decreases packets.len(),
{
    if packets.len() == 0 {
        pool
    } else {
        stored_packets(pool, packets.drop_last()).stored(
            packets.last().chunk as int,
            packets.last().buffer,
        )
    }
}

/// How many entries a batch of up to `len` takes from a consumer ring: those
/// that are ready, as far as `len` and the 32 bits of a ring's count go.
pub open spec fn ready_count(ring: ConsumerView, len: nat) -> nat {
    min_of(min_of(len as int, u32::MAX as int), ring.entries.len() - ring.peeked) as nat
}

fn clamp_u32(n: usize) -> (m: u32)
    ensures
        m == min_of(n as int, u32::MAX as int),
{
    if n > u32::MAX as usize {
        u32::MAX
    } else {
        n as u32
    }
}

impl BufferPool {
    /// Refills the fill queue: reserves up to `len` slots, hands a free chunk
    /// to each, topmost first, and submits them. Answers how many chunks
    /// went into the queue.
    pub fn reserve_fq(&mut self, fq: &mut ProducerRing, len: usize) -> (filled: usize)
        requires
            old(self).wf(),
            old(fq).wf(),
            old(fq)@.reserved.len() == 0,
        ensures
            final(self).wf(),
            final(fq).wf(),
            filled == fill_count(old(self)@, old(fq)@, len as nat),
            final(self)@ == old(self)@.taken(filled as nat),
            final(fq)@ == (ProducerView {
                published: old(fq)@.published + handed_out(old(self)@.free, filled as nat),
                ..old(fq)@
            }),
    {
        let wanted: usize = if len < self.free_count() {
            len
        } else {
            self.free_count()
        };
        let granted: ReservedResult = fq.reserve(clamp_u32(wanted));
        let count: u32 = granted.count;
        proof {
            assert(old(self)@.taken(0).free =~= old(self)@.free);
        }
        let mut i: u32 = 0;
        while i < count
            invariant
                i <= count,
                count <= old(self)@.free.len(),
                self.wf(),
                fq.wf(),
                self@ == old(self)@.taken(i as nat),
                fq@.reserved.len() == count,
                fq@.published == old(fq)@.published,
                fq@.capacity == old(fq)@.capacity,
                fq@.wakeup == old(fq)@.wakeup,
                forall|j: int|
                    0 <= j < i ==> fq@.reserved[j] == (Descriptor {
                        addr: old(self)@.free[old(self)@.free.len() - 1 - j],
                        len: 0,
                    }),
            decreases count - i,
        {
            let ghost before = self@;
            match self.alloc_addr() {
                Ok(addr) => {
                    fq.write(i, Descriptor { addr, len: 0 });
                },
                Err(_) => {},
            }
            proof {
                assert(before.taken(1).free =~= old(self)@.taken((i + 1) as nat).free);
            }
            i = i + 1;
        }
        fq.submit(count);
        proof {
            assert(fq@.reserved =~= Seq::<Descriptor>::empty());
            assert(old(fq)@.reserved =~= Seq::<Descriptor>::empty());
            assert(fq@.published =~= old(fq)@.published + handed_out(
                old(self)@.free,
                count as nat,
            ));
        }
        count as usize
    }

    /// Reserves up to `len` slots of the transmit queue.
    pub fn reserve_txq(&self, txq: &mut ProducerRing, len: usize) -> (r: ReservedResult)
        requires
            old(txq).wf(),
        ensures
            final(txq).wf(),
            r.count == min_of(
                min_of(len as int, u32::MAX as int),
                old(txq).free_slots_spec(),
            ),
            r.idx == old(txq)@.reserved.len(),
            final(txq)@.capacity == old(txq)@.capacity,
            final(txq)@.published == old(txq)@.published,
            final(txq)@.wakeup == old(txq)@.wakeup,
            final(txq)@.reserved.len() == old(txq)@.reserved.len() + r.count,
            final(txq)@.reserved.take(old(txq)@.reserved.len() as int) == old(txq)@.reserved,
    {
        txq.reserve(clamp_u32(len))
    }

    /// Reclaims up to `len` chunks that the kernel has finished with: hands
    /// the address of each completion back to the pool and releases the
    /// completion queue's slots. Answers how many completions it took.
    pub fn release(&mut self, cq: &mut ConsumerRing, len: usize) -> (count: u32)
        requires
            old(self).wf(),
            old(cq).wf(),
            old(cq)@.peeked == 0,
        ensures
            final(self).wf(),
            final(cq).wf(),
            count == ready_count(old(cq)@, len as nat),
            final(self)@ == old(self)@.freed_all(
                addresses(old(cq)@.entries.take(count as int)),
            ),
            final(cq)@ == (ConsumerView {
                entries: old(cq)@.entries.skip(count as int),
                ..old(cq)@
            }),
    {
        let peeked: ReservedResult = cq.peek(clamp_u32(len));
        let count: u32 = peeked.count;
        let mut i: u32 = 0;
        while i < count
            invariant
                i <= count,
                count <= old(cq)@.entries.len(),
                self.wf(),
                cq.wf(),
                cq@ == (ConsumerView { peeked: count as nat, ..old(cq)@ }),
                self@ == old(self)@.freed_all(addresses(old(cq)@.entries.take(i as int))),
            decreases count - i,
        {
            let desc: Descriptor = cq.read(i);
            let _ = self.free_addr(desc.addr);
            proof {
                let done = addresses(old(cq)@.entries.take(i as int));
                let next = addresses(old(cq)@.entries.take(i + 1));
                assert(next.drop_last() =~= done);
                assert(next.last() == desc.addr);
            }
            i = i + 1;
        }
        cq.release(count);
        count
    }

    /// Refills the fill queue with up to `len` chunks, then turns up to
    /// `len` ready receive descriptors into packets, in arrival order, and
    /// releases their slots.
    pub fn recv(&mut self, len: usize, rxq: &mut ConsumerRing, fq: &mut ProducerRing) -> (packets:
        Vec<Packet>)
        requires
            old(self).wf(),
            old(rxq).wf(),
            old(fq).wf(),
            old(fq)@.reserved.len() == 0,
            old(rxq)@.peeked == 0,
            forall|i: int|
                0 <= i < old(rxq)@.entries.len() ==> valid_rx(
                    old(self)@,
                    #[trigger] old(rxq)@.entries[i],
                ),
        ensures
            final(self).wf(),
            final(rxq).wf(),
            final(fq).wf(),
            final(self)@ == old(self)@.taken(fill_count(old(self)@, old(fq)@, len as nat)),
            final(fq)@ == (ProducerView {
                published: old(fq)@.published + handed_out(
                    old(self)@.free,
                    fill_count(old(self)@, old(fq)@, len as nat),
                ),
                ..old(fq)@
            }),
            packets@.len() == ready_count(old(rxq)@, len as nat),
            final(rxq)@ == (ConsumerView {
                entries: old(rxq)@.entries.skip(packets@.len() as int),
                ..old(rxq)@
            }),
            forall|i: int|
                0 <= i < packets@.len() ==> (#[trigger] packets@[i])@ == received(
                    old(self)@,
                    old(rxq)@.entries[i],
                ),
    {
        let _ = self.reserve_fq(fq, len);
        let peeked: ReservedResult = rxq.peek(clamp_u32(len));
        let count: u32 = peeked.count;
        let mut packets: Vec<Packet> = Vec::new();
        let mut i: u32 = 0;
        while i < count
            invariant
                i <= count,
                count <= old(rxq)@.entries.len(),
                self.wf(),
                rxq.wf(),
                rxq@ == (ConsumerView { peeked: count as nat, ..old(rxq)@ }),
                self@.memory == old(self)@.memory,
                self@.chunk_size == old(self)@.chunk_size,
                self@.chunk_count == old(self)@.chunk_count,
                forall|j: int|
                    0 <= j < old(rxq)@.entries.len() ==> valid_rx(
                        old(self)@,
                        #[trigger] old(rxq)@.entries[j],
                    ),
                packets@.len() == i,
                forall|j: int|
                    0 <= j < i ==> (#[trigger] packets@[j])@ == received(
                        old(self)@,
                        old(rxq)@.entries[j],
                    ),
            decreases count - i,
        {
            let desc: Descriptor = rxq.read(i);
            assert(valid_rx(old(self)@, old(rxq)@.entries[i as int]));
            let chunk: u64 = desc.addr - DEFAULT_HEADROOM as u64;
            let mut packet: Packet = Packet::new(chunk, self.load_chunk(chunk));
            let _ = packet.resize(desc.len as usize);
            proof {
                assert(packet@ == received(old(self)@, desc));
            }
            packets.push(packet);
            i = i + 1;
        }
        rxq.release(count);
        packets
    }

    /// Reclaims the chunks that the kernel has finished sending, then hands
    /// all of `packets` to the transmit queue, in order, or none of them
    /// where the queue has too few free slots. Packets that were handed over
    /// leave `packets`; their bytes lie in the region, each at its chunk.
    /// Answers how many packets were handed over.
    pub fn send(
        &mut self,
        packets: &mut Vec<Packet>,
        tx: &mut ProducerRing,
        cq: &mut ConsumerRing,
    ) -> (sent: usize)
        requires
            old(self).wf(),
            old(tx).wf(),
            old(cq).wf(),
            old(tx)@.reserved.len() == 0,
            old(cq)@.peeked == 0,
            forall|i: int|
                0 <= i < old(packets)@.len() ==> fits(old(self)@, (#[trigger] old(packets)@[i])@),
        ensures
            final(self).wf(),
            final(tx).wf(),
            final(cq).wf(),
            final(cq)@ == (ConsumerView {
                entries: old(cq)@.entries.skip(
                    ready_count(old(cq)@, old(self)@.cq_size) as int,
                ),
                ..old(cq)@
            }),
            old(packets)@.len() > old(tx).free_slots_spec() ==> {
                &&& sent == 0
                &&& final(packets)@ == old(packets)@
                &&& final(tx)@ == old(tx)@
                &&& final(self)@ == reclaimed(old(self)@, old(cq)@)
            },
            old(packets)@.len() <= old(tx).free_slots_spec() ==> {
                &&& sent == old(packets)@.len()
                &&& final(packets)@.len() == 0
                &&& final(tx)@ == (ProducerView {
                    published: old(tx)@.published + tx_descriptors(views(old(packets)@)),
                    ..old(tx)@
                })
                &&& final(self)@ == stored_packets(
                    reclaimed(old(self)@, old(cq)@),
                    views(old(packets)@),
                )
            },
    {
        let _ = self.release(cq, self.cq_size());
        proof {
            lemma_freed_all_keeps_region(
                old(self)@,
                addresses(
                    old(cq)@.entries.take(
                        ready_count(old(cq)@, old(self)@.cq_size) as int,
                    ),
                ),
            );
        }
        let n: usize = packets.len();
        if n > tx.free_slots() as usize {
            return 0;
        }
        let granted: ReservedResult = self.reserve_txq(tx, n);
        assert(granted.count == n);
        assert(granted.idx == 0);
        let ghost base = self@;
        let ghost all = views(packets@);
        let mut i: usize = 0;
        while i < n
            invariant
                i <= n,
                n == packets@.len(),
                n <= u32::MAX,
                packets@ == old(packets)@,
                all == views(packets@),
                self.wf(),
                tx.wf(),
                base.wf(),
                self@.chunk_size == base.chunk_size,
                self@.chunk_count == base.chunk_count,
                base.chunk_size == old(self)@.chunk_size,
                base.chunk_count == old(self)@.chunk_count,
                forall|j: int|
                    0 <= j < old(packets)@.len() ==> fits(
                        old(self)@,
                        (#[trigger] old(packets)@[j])@,
                    ),
                self@ == stored_packets(base, all.take(i as int)),
                tx@.reserved.len() == n,
                tx@.published == old(tx)@.published,
                tx@.capacity == old(tx)@.capacity,
                tx@.wakeup == old(tx)@.wakeup,
                forall|j: int| 0 <= j < i ==> tx@.reserved[j] == tx_descriptor(all[j]),
            decreases n - i,
        {
            let packet: &Packet = &packets[i];
            assert(fits(old(self)@, old(packets)@[i as int]@));
            proof {
                lemma_chunk_in_region(
                    packet@.chunk as int,
                    self@.chunk_size as int,
                    self@.chunk_count as int,
                );
            }
            let chunk: u64 = packet.chunk_addr();
            self.store(chunk, packet.bytes());
            let desc = Descriptor {
                addr: chunk + packet.start() as u64,
                len: (packet.end() - packet.start()) as u32,
            };
            tx.write(i as u32, desc);
            proof {
                let next = all.take(i + 1);
                assert(next.drop_last() =~= all.take(i as int));
                assert(next.last() == all[i as int]);
            }
            i = i + 1;
        }
        tx.submit(n as u32);
        packets.clear();
        proof {
            assert(all.take(n as int) =~= all);
            assert(old(tx)@.reserved =~= Seq::<Descriptor>::empty());
            assert(tx@.reserved =~= Seq::<Descriptor>::empty());
            assert(tx@.published =~= old(tx)@.published + tx_descriptors(all));
        }
        n
    }
}

/// The pool after one reclaim: the addresses of the completions that the
/// reclaim takes have been handed back, oldest first.
pub open spec fn reclaimed(pool: PoolView, cq: ConsumerView) -> PoolView {
    pool.freed_all(
        addresses(cq.entries.take(ready_count(cq, pool.cq_size) as int)),
    )
}

/// Writing packets back changes the region's bytes alone: the chunks' sizes
/// and the free stack stay.
pub proof fn lemma_stored_packets_keeps_region(pool: PoolView, packets: Seq<PacketView>)
    ensures
        stored_packets(pool, packets) == (PoolView {
            memory: stored_packets(pool, packets).memory,
            ..pool
        }),
        stored_packets(pool, packets).memory.len() == pool.memory.len(),
    decreases packets.len(),
{
    if packets.len() > 0 {
        lemma_stored_packets_keeps_region(pool, packets.drop_last());
    }
}

} // verus!
