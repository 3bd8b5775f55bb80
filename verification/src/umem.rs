//! The pool that interface bindings share: the buffer pool, the fill and
//! completion queues that were registered with it, and the count of the
//! bindings that use it.

use vstd::prelude::*;
use crate::chunk::DEFAULT_HEADROOM;
use crate::exchange::{fill_count, fits, handed_out};
use crate::packet::{Packet, PacketView};
use crate::pool::{all_chunks, region_fits, sizes_fit, BufferPool, PoolError, PoolView};
use crate::ring::{ConsumerRing, ConsumerView, ProducerRing, ProducerView};

verus! {

/// How reserving the region's memory and registering it with the kernel
/// went.
#[derive(Clone, Copy, Debug, PartialEq, Eq, Structural)]
pub enum Registration {
    /// The memory is reserved and registered.
    Registered,
    /// The memory could not be reserved.
    MapFailed,
    /// The kernel refused the registration with this code; the memory has
    /// been released again.
    Refused(i32),
}

/// What a pool holds.
pub struct UmemView {
    /// The region and its free chunks.
    pub buffers: PoolView,
    /// The fill queue that was registered with the region.
    pub fq: ProducerView,
    /// The completion queue that was registered with the region.
    pub cq: ConsumerView,
    /// Number of open bindings.
    pub refcount: nat,
    /// Whether more than one binding may use the pool.
    pub shared: bool,
    /// Whether the region is registered with the kernel: it is from its
    /// creation until its last binding closes, and again once it has been
    /// registered anew.
    pub registered: bool,
}

impl UmemView {
    /// The pool is consistent: its buffers are, nothing is reserved or peeked
    /// in its own queues, which lie within their capacities, and a registered
    /// pool without a binding holds its queues empty, in the sizes that were
    /// registered.
    pub open spec fn wf(self) -> bool {
        &&& self.buffers.wf()
        &&& self.fq.reserved.len() == 0
        &&& self.cq.peeked == 0
        &&& self.fq.published.len() <= self.fq.capacity <= u32::MAX
        &&& self.cq.entries.len() <= self.cq.capacity <= u32::MAX
        &&& self.registered && self.refcount == 0 ==> self.fq == empty_producer(
            self.buffers.fq_size,
        ) && self.cq == empty_consumer(self.buffers.cq_size)
    }
}

/// The buffer pool of a region that was just registered: zeroed bytes, every
/// chunk free.
pub open spec fn fresh_buffers(
    chunk_size: nat,
    chunk_count: nat,
    fq_size: nat,
    cq_size: nat,
) -> PoolView {
    PoolView {
        chunk_size,
        chunk_count,
        free: all_chunks(chunk_size, chunk_count),
        memory: Seq::new((chunk_size * chunk_count) as nat, |i: int| 0u8),
        fq_size,
        cq_size,
    }
}

/// What creating a region answers where it fails, and `None` where it can
/// succeed.
pub open spec fn create_error(
    chunk_size: int,
    chunk_count: int,
    fq_size: int,
    cq_size: int,
    outcome: Registration,
) -> Option<PoolError> {
    if !region_fits(chunk_size, chunk_count) {
        Some(PoolError::AllocationError)
    } else if !sizes_fit(chunk_size, fq_size, cq_size) {
        Some(PoolError::RegistrationError(0))
    } else {
        match outcome {
            Registration::Registered => None,
            Registration::MapFailed => Some(PoolError::AllocationError),
            Registration::Refused(code) => Some(PoolError::RegistrationError(code)),
        }
    }
}

/// What registering a region anew answers where it fails, and `None` where
/// it succeeds: a pool with open bindings is in use, and otherwise the
/// outcome decides.
pub open spec fn rebuild_error(refcount: nat, outcome: Registration) -> Option<PoolError> {
    if refcount > 0 {
        Some(PoolError::InUse)
    } else {
        match outcome {
            Registration::Registered => None,
            Registration::MapFailed => Some(PoolError::AllocationError),
            Registration::Refused(code) => Some(PoolError::RegistrationError(code)),
        }
    }
}

/// The pool after its region was registered anew: every chunk is free, the
/// bytes are zeroed, and the pool's own queues are empty.
pub open spec fn rebuilt(pool: UmemView) -> UmemView {
    UmemView {
        buffers: fresh_buffers(
            pool.buffers.chunk_size,
            pool.buffers.chunk_count,
            pool.buffers.fq_size,
            pool.buffers.cq_size,
        ),
        fq: empty_producer(pool.buffers.fq_size),
        cq: empty_consumer(pool.buffers.cq_size),
        registered: true,
        ..pool
    }
}

/// Whether a pool takes one more binding: its region is registered, and it
/// has no binding yet or is shared.
pub open spec fn can_bind(pool: UmemView) -> bool {
    pool.registered && (pool.refcount == 0 || (pool.shared && pool.refcount < usize::MAX))
}

/// A ring of `capacity` slots with nothing in it.
pub open spec fn empty_producer(capacity: nat) -> ProducerView {
    ProducerView { capacity, published: Seq::empty(), reserved: Seq::empty(), wakeup: false }
}

/// A ring of `capacity` slots with nothing in it.
pub open spec fn empty_consumer(capacity: nat) -> ConsumerView {
    ConsumerView { capacity, entries: Seq::empty(), peeked: 0 }
}

/// The fill queue after a refill with up to `len` chunks of the pool.
pub open spec fn refilled(fq: ProducerView, pool: PoolView, len: nat) -> ProducerView {
    ProducerView {
        published: fq.published + handed_out(pool.free, fill_count(pool, fq, len)),
        ..fq
    }
}

/// The fill queue that a new binding gets: the pool's own for the pool's
/// first binding, an empty one of the same size for each further one.
pub open spec fn granted_fq(pool: UmemView) -> ProducerView {
    if pool.refcount == 0 {
        pool.fq
    } else {
        empty_producer(pool.buffers.fq_size)
    }
}

/// The completion queue that a new binding gets: the pool's own for the
/// pool's first binding, an empty one of the same size for each further one.
pub open spec fn granted_cq(pool: UmemView) -> ConsumerView {
    if pool.refcount == 0 {
        pool.cq
    } else {
        empty_consumer(pool.buffers.cq_size)
    }
}

/// The pool after a binding was attached that handed in the queues `fq` and
/// `cq`: the first binding's queues take the place of the pool's own, the
/// chunks that filled the binding's fill queue have left the free stack, and
/// the binding is counted.
pub open spec fn attached(pool: UmemView, fq: ProducerView, cq: ConsumerView) -> UmemView {
    UmemView {
        buffers: pool.buffers.taken(
            fill_count(pool.buffers, granted_fq(pool), pool.buffers.fq_size),
        ),
        fq: if pool.refcount == 0 {
            fq
        } else {
            pool.fq
        },
        cq: if pool.refcount == 0 {
            cq
        } else {
            pool.cq
        },
        refcount: pool.refcount + 1,
        ..pool
    }
}

/// The packet that leases the chunk at `addr` fresh from the pool: the
/// chunk's bytes, with an empty payload behind the headroom.
pub open spec fn leased_packet(pool: PoolView, addr: u64) -> PacketView {
    let offset = if pool.chunk_size < DEFAULT_HEADROOM {
        pool.chunk_size
    } else {
        DEFAULT_HEADROOM as nat
    };
    PacketView {
        start: offset,
        end: offset,
        buffer_size: pool.chunk_size,
        buffer: pool.chunk_bytes(addr),
        chunk: addr,
    }
}

/// The shared pool.
#[derive(Debug)]
pub struct Pool {
    pub(crate) buffer_pool: BufferPool,
    pub(crate) umem_fq: ProducerRing,
    pub(crate) umem_cq: ConsumerRing,
    pub(crate) refcount: usize,
    pub(crate) shared: bool,
    pub(crate) registered: bool,
}

impl View for Pool {
    type V = UmemView;

    closed spec fn view(&self) -> UmemView {
        UmemView {
            buffers: self.buffer_pool@,
            fq: self.umem_fq@,
            cq: self.umem_cq@,
            refcount: self.refcount as nat,
            shared: self.shared,
            registered: self.registered,
        }
    }
}

impl Pool {
    /// The parts are consistent.
    pub closed spec fn inv(&self) -> bool {
        &&& self.buffer_pool.wf()
        &&& self.umem_fq.wf()
        &&& self.umem_cq.wf()
    }

    /// The pool is consistent.
    pub open spec fn wf(&self) -> bool {
        self.inv() && self@.wf()
    }

    /// Length in bytes of the region to reserve for `chunk_count` chunks of
    /// `chunk_size` bytes, where such a region can be reserved.
    pub fn region_len(chunk_size: usize, chunk_count: usize) -> (len: Option<usize>)
        ensures
            region_fits(chunk_size as int, chunk_count as int) ==> len == Some(
                (chunk_size * chunk_count) as usize,
            ),
            !region_fits(chunk_size as int, chunk_count as int) ==> len.is_none(),
    {
        match chunk_size.checked_mul(chunk_count) {
            None => None,
            Some(n) => {
                if n == 0 || n > isize::MAX as usize {
                    None
                } else {
                    Some(n)
                }
            },
        }
    }

    /// The pool over a region of `chunk_count` chunks of `chunk_size` bytes
    /// with a fill queue of `fq_size` and a completion queue of `cq_size`
    /// slots, given how the reservation and registration of the region went.
    /// A region that cannot be reserved is an allocation error whatever the
    /// kernel said; sizes beyond 32 bits are a registration error.
    pub fn create(
        chunk_size: usize,
        chunk_count: usize,
        fq_size: usize,
        cq_size: usize,
        shared: bool,
        outcome: Registration,
    ) -> (r: Result<Pool, PoolError>)
        ensures
            match create_error(
                chunk_size as int,
                chunk_count as int,
                fq_size as int,
                cq_size as int,
                outcome,
            ) {
                Some(e) => r == Err::<Pool, PoolError>(e),
                None => r.is_ok() && r.unwrap().wf() && r.unwrap()@.buffers == fresh_buffers(
                    chunk_size as nat,
                    chunk_count as nat,
                    fq_size as nat,
                    cq_size as nat,
                ) && r.unwrap()@.fq == empty_producer(fq_size as nat) && r.unwrap()@.cq
                    == empty_consumer(cq_size as nat) && r.unwrap()@.refcount == 0
                    && r.unwrap()@.shared == shared && r.unwrap()@.registered,
            },
    {
        let buffer_pool: BufferPool = match BufferPool::new(
            chunk_size,
            chunk_count,
            fq_size,
            cq_size,
        ) {
            Err(e) => {
                return Err(e);
            },
            Ok(b) => b,
        };
        match outcome {
            Registration::MapFailed => {
                return Err(PoolError::AllocationError);
            },
            Registration::Refused(code) => {
                return Err(PoolError::RegistrationError(code));
            },
            Registration::Registered => {},
        }
        let umem_fq = ProducerRing::new(fq_size as u32);
        let umem_cq = ConsumerRing::new(cq_size as u32);
        Ok(Pool { buffer_pool, umem_fq, umem_cq, refcount: 0, shared, registered: true })
    }

    /// Registers the region anew after the kernel gave up the old
    /// registration: every chunk is free again, the bytes are zeroed and the
    /// queues are empty. Where bindings are open, or the registration
    /// failed, the pool stays as it was.
    pub fn re_init(&mut self, outcome: Registration) -> (r: Result<(), PoolError>)
        requires
            old(self).wf(),
        ensures
            final(self).wf(),
            match rebuild_error(old(self)@.refcount, outcome) {
                Some(e) => r == Err::<(), PoolError>(e) && final(self)@ == old(self)@,
                None => r.is_ok() && final(self)@ == rebuilt(old(self)@),
            },
    {
        if self.refcount > 0 {
            return Err(PoolError::InUse);
        }
        let made = Pool::create(
            self.buffer_pool.chunk_size(),
            self.buffer_pool.chunk_count(),
            self.buffer_pool.fq_size(),
            self.buffer_pool.cq_size(),
            self.shared,
            outcome,
        );
        match made {
            Err(e) => Err(e),
            Ok(pool) => {
                *self = pool;
                Ok(())
            },
        }
    }

    /// Whether the pool takes one more binding: its region is registered,
    /// and it has no binding yet or is shared.
    pub fn takes_binding(&self) -> (b: bool)
        ensures
            b == can_bind(self@),
    {
        self.registered && (self.refcount == 0 || (self.shared && self.refcount < usize::MAX))
    }

    /// Whether the region is registered with the kernel.
    pub fn is_registered(&self) -> (b: bool)
        ensures
            b == self@.registered,
    {
        self.registered
    }

    /// Attaches a binding that hands in its queues `fq` and `cq`. The pool's
    /// first binding takes the pool's own queues and leaves its own in their
    /// place; each further one gets empty queues of the pool's sizes. The
    /// fill queue is then filled from the pool as far as its capacity and
    /// the free chunks allow, and the binding is counted.
    pub fn attach(&mut self, fq: &mut ProducerRing, cq: &mut ConsumerRing)
        requires
            old(self).wf(),
            can_bind(old(self)@),
            old(fq).wf(),
            old(cq).wf(),
            old(fq)@.reserved.len() == 0,
            old(cq)@.peeked == 0,
        ensures
            final(self).wf(),
            final(fq).wf(),
            final(cq).wf(),
            final(fq)@ == refilled(
                granted_fq(old(self)@),
                old(self)@.buffers,
                old(self)@.buffers.fq_size,
            ),
            final(cq)@ == granted_cq(old(self)@),
            final(self)@ == attached(old(self)@, old(fq)@, old(cq)@),
    {
        if self.refcount == 0 {
            core::mem::swap(fq, &mut self.umem_fq);
            core::mem::swap(cq, &mut self.umem_cq);
        } else {
            *fq = ProducerRing::new(self.buffer_pool.fq_size() as u32);
            *cq = ConsumerRing::new(self.buffer_pool.cq_size() as u32);
        }
        let size: usize = self.buffer_pool.fq_size();
        let _ = self.buffer_pool.reserve_fq(fq, size);
        self.refcount = self.refcount + 1;
    }

    /// Detaches a binding: the count goes down by one, and with the last
    /// binding the region's registration goes. Answers whether no binding is
    /// left.
    pub fn detach(&mut self) -> (last: bool)
        requires
            old(self).wf(),
        ensures
            final(self).wf(),
            last == (old(self)@.refcount <= 1),
            final(self)@ == (UmemView {
                refcount: if old(self)@.refcount > 0 {
                    (old(self)@.refcount - 1) as nat
                } else {
                    0
                },
                registered: old(self)@.registered && old(self)@.refcount > 1,
                ..old(self)@
            }),
    {
        let last: bool = self.refcount <= 1;
        if self.refcount > 0 {
            self.refcount = self.refcount - 1;
        }
        if last {
            self.registered = false;
        }
        last
    }

    /// The region and its free chunks, to work on.
    pub fn buffers_mut(&mut self) -> (b: &mut BufferPool)
        ensures
            b@ == old(self)@.buffers,
            old(self).wf() ==> b.wf(),
            final(self)@ == (UmemView { buffers: final(b)@, ..old(self)@ }),
            old(self).wf() && final(b).wf() && final(b)@.fq_size == b@.fq_size && final(b)@.cq_size
                == b@.cq_size ==> final(self).wf(),
    {
        &mut self.buffer_pool
    }

    /// Number of open bindings.
    pub fn refcount(&self) -> (n: usize)
        ensures
            n == self@.refcount,
    {
        self.refcount
    }

    /// Whether more than one binding may use the pool.
    pub fn is_shared(&self) -> (b: bool)
        ensures
            b == self@.shared,
    {
        self.shared
    }

    /// The region and its free chunks.
    pub fn buffers(&self) -> (b: &BufferPool)
        ensures
            b@ == self@.buffers,
            self.wf() ==> b.wf(),
    {
        &self.buffer_pool
    }

    /// Hands out a free chunk address, or says that none is free.
    pub fn alloc_addr(&mut self) -> (r: Result<u64, PoolError>)
        requires
            old(self).wf(),
        ensures
            final(self).wf(),
            old(self)@.buffers.free.len() == 0 ==> r == Err::<u64, PoolError>(PoolError::Empty)
                && final(self)@ == old(self)@,
            old(self)@.buffers.free.len() > 0 ==> r == Ok::<u64, PoolError>(
                old(self)@.buffers.free.last(),
            ) && final(self)@ == (UmemView { buffers: old(self)@.buffers.taken(1), ..old(self)@ }),
    {
        self.buffer_pool.alloc_addr()
    }

    /// Leases a free chunk to a new packet, or answers `None` where no chunk
    /// is free.
    pub fn try_alloc_packet(&mut self) -> (r: Option<Packet>)
        requires
            old(self).wf(),
        ensures
            final(self).wf(),
            old(self)@.buffers.free.len() == 0 ==> r.is_none() && final(self)@ == old(self)@,
            old(self)@.buffers.free.len() > 0 ==> r.is_some() && r.unwrap()@ == leased_packet(
                old(self)@.buffers,
                old(self)@.buffers.free.last(),
            ) && fits(final(self)@.buffers, r.unwrap()@) && final(self)@ == (UmemView {
                buffers: old(self)@.buffers.taken(1),
                ..old(self)@
            }),
    {
        match self.buffer_pool.alloc_addr() {
            Err(_) => None,
            Ok(addr) => {
                let bytes: Vec<u8> = self.buffer_pool.load_chunk(addr);
                Some(Packet::new(addr, bytes))
            },
        }
    }

    /// Ends a packet's lease: the packet's chunk becomes free. A chunk that
    /// is free already, or that is none of the region's, is refused and the
    /// pool stays as it was.
    pub fn free_packet(&mut self, packet: Packet) -> (r: Result<(), PoolError>)
        requires
            old(self).wf(),
        ensures
            final(self).wf(),
            final(self)@ == (UmemView {
                buffers: old(self)@.buffers.freed(packet@.chunk),
                ..old(self)@
            }),
            r == old(self)@.buffers.free_outcome(packet@.chunk),
    {
        self.buffer_pool.free_addr(packet.chunk_addr())
    }
}

} // verus!
