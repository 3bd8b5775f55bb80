//! The buffer pool: one memory region cut into chunks, and the stack of the
//! chunk addresses that are free.

use vstd::prelude::*;
use crate::chunk::{
    align_addr, align_down, is_chunk_addr, lemma_align_down, lemma_chunk_in_region,
    lemma_chunk_index, lemma_chunk_start, region_limit,
};

verus! {

/// Why the pool refused.
#[derive(Clone, Copy, Debug, PartialEq, Eq, Structural)]
pub enum PoolError {
    /// No chunk is free.
    Empty,
    /// The chunk is free already.
    DoubleFree,
    /// Bindings are open on the pool.
    InUse,
    /// The address lies in no chunk of the region.
    OutOfRegion,
    /// The region has no bytes, or more than one allocation can hold.
    AllocationError,
    /// The region cannot be registered with the kernel; the code is the
    /// kernel's, or 0 where a size does not fit the 32 bits that the
    /// registration takes.
    RegistrationError(i32),
}

/// The region's bytes with `data` written over them from offset `at` on.
pub open spec fn overlay(memory: Seq<u8>, at: int, data: Seq<u8>) -> Seq<u8> {
    Seq::new(
        memory.len(),
        |i: int|
            if at <= i < at + data.len() {
                data[i - at]
            } else {
                memory[i]
            },
    )
}

/// Whether a region of `chunk_count` chunks of `chunk_size` bytes can be
/// reserved: it has at least one byte and at most `region_limit()`.
pub open spec fn region_fits(chunk_size: int, chunk_count: int) -> bool {
    0 < chunk_size * chunk_count <= region_limit()
}

/// Whether the sizes fit the 32-bit fields of the kernel's registration.
pub open spec fn sizes_fit(chunk_size: int, fq_size: int, cq_size: int) -> bool {
    chunk_size <= u32::MAX && fq_size <= u32::MAX && cq_size <= u32::MAX
}

/// The free stack of a fresh pool: every chunk address, lowest first.
pub open spec fn all_chunks(chunk_size: nat, chunk_count: nat) -> Seq<u64> {
    Seq::new(chunk_count, |k: int| (k * chunk_size) as u64)
}

/// What a buffer pool holds.
pub struct PoolView {
    /// Bytes per chunk.
    pub chunk_size: nat,
    /// Number of chunks.
    pub chunk_count: nat,
    /// The free chunk addresses; the last one is handed out next.
    pub free: Seq<u64>,
    /// The region's bytes.
    pub memory: Seq<u8>,
    /// Capacity of the fill queue.
    pub fq_size: nat,
    /// Capacity of the completion queue.
    pub cq_size: nat,
}

impl PoolView {
    /// Whether `addr` is the start of a chunk of this pool's region.
    pub open spec fn is_chunk(self, addr: u64) -> bool {
        is_chunk_addr(addr as int, self.chunk_size as int, self.chunk_count as int)
    }

    /// The pool is consistent: the region has its size, every free address is
    /// the start of a chunk, and none is free twice.
    pub open spec fn wf(self) -> bool {
        &&& region_fits(self.chunk_size as int, self.chunk_count as int)
        &&& sizes_fit(self.chunk_size as int, self.fq_size as int, self.cq_size as int)
        &&& self.memory.len() == self.chunk_size * self.chunk_count
        &&& self.chunk_size > 0
        &&& self.chunk_count > 0
        &&& self.free.len() <= self.chunk_count
        &&& self.free.no_duplicates()
        &&& forall|i: int| 0 <= i < self.free.len() ==> self.is_chunk(#[trigger] self.free[i])
    }

    /// Every chunk address of the region.
    pub open spec fn chunks(self) -> Set<u64> {
        Set::new(|addr: u64| self.is_chunk(addr))
    }

    /// The chunk addresses that are not free: on lease to a packet or held
    /// by the kernel.
    pub open spec fn leased(self) -> Set<u64> {
        Set::new(|addr: u64| self.is_chunk(addr) && !self.free.contains(addr))
    }

    /// The pool after `addr` was handed back: its chunk's address joins the
    /// free stack unless it lies outside the region or is free already.
    pub open spec fn freed(self, addr: u64) -> PoolView {
        let aligned = align_down(addr as int, self.chunk_size as int) as u64;
        if self.is_chunk(aligned) && !self.free.contains(aligned) {
            PoolView { free: self.free.push(aligned), ..self }
        } else {
            self
        }
    }

    /// What handing back `addr` answers: refused where the address lies in no
    /// chunk of the region or its chunk is free already.
    pub open spec fn free_outcome(self, addr: u64) -> Result<(), PoolError> {
        let aligned = align_down(addr as int, self.chunk_size as int) as u64;
        if !self.is_chunk(aligned) {
            Err(PoolError::OutOfRegion)
        } else if self.free.contains(aligned) {
            Err(PoolError::DoubleFree)
        } else {
            Ok(())
        }
    }

    /// The pool after each address of `addrs` was handed back in turn.
    pub open spec fn freed_all(self, addrs: Seq<u64>) -> PoolView
        decreases addrs.len(),
    {
        if addrs.len() == 0 {
            self
        } else {
            self.freed_all(addrs.drop_last()).freed(addrs.last())
        }
    }

    /// The pool after its `n` topmost free addresses were handed out.
    pub open spec fn taken(self, n: nat) -> PoolView {
        PoolView { free: self.free.take(self.free.len() - n), ..self }
    }

    /// The pool with `data` written into the region from offset `at` on.
    pub open spec fn stored(self, at: int, data: Seq<u8>) -> PoolView {
        PoolView { memory: overlay(self.memory, at, data), ..self }
    }

    /// The bytes of the chunk that starts at `addr`.
    pub open spec fn chunk_bytes(self, addr: u64) -> Seq<u8> {
        self.memory.subrange(addr as int, addr + self.chunk_size)
    }
}

/// The memory region, cut into chunks, and the free chunk addresses.
#[derive(Debug)]
pub struct BufferPool {
    chunk_size: usize,
    chunk_count: usize,
    pool: Vec<u64>,
    place: Vec<usize>,
    buffer: Vec<u8>,
    fq_size: usize,
    cq_size: usize,
}

impl View for BufferPool {
    type V = PoolView;

    closed spec fn view(&self) -> PoolView {
        PoolView {
            chunk_size: self.chunk_size as nat,
            chunk_count: self.chunk_count as nat,
            free: self.pool@,
            memory: self.buffer@,
            fq_size: self.fq_size as nat,
            cq_size: self.cq_size as nat,
        }
    }
}

impl BufferPool {
    /// Each chunk knows its place on the free stack, and each entry of the
    /// stack is the start of the chunk that points back at it.
    pub closed spec fn inv(&self) -> bool {
        &&& self.place@.len() == self.chunk_count
        &&& self.pool@.len() <= self.chunk_count
        &&& self.chunk_count < usize::MAX
        &&& forall|k: int|
            0 <= k < self.chunk_count && #[trigger] self.place@[k] != usize::MAX ==> self.place@[k]
                < self.pool@.len() && self.pool@[self.place@[k] as int] == k * self.chunk_size
        &&& forall|i: int|
            0 <= i < self.pool@.len() ==> is_chunk_addr(
                (#[trigger] self.pool@[i]) as int,
                self.chunk_size as int,
                self.chunk_count as int,
            ) && self.place@[self.pool@[i] as int / self.chunk_size as int] == i
    }

    /// The pool is consistent: the region has its size, every free address is
    /// the start of a chunk, and none is free twice.
    pub open spec fn wf(&self) -> bool {
        self.inv() && self@.wf()
    }

    proof fn lemma_inv_no_duplicates(&self)
        requires
            self.inv(),
        ensures
            self.pool@.no_duplicates(),
    {
        assert forall|i: int, j: int|
            0 <= i < self.pool@.len() && 0 <= j < self.pool@.len() && i != j implies self.pool@[i]
            != self.pool@[j] by {
            if self.pool@[i] == self.pool@[j] {
                assert(self.place@[self.pool@[i] as int / self.chunk_size as int] == i);
                assert(self.place@[self.pool@[j] as int / self.chunk_size as int] == j);
            }
        }
    }

    /// Bytes per chunk.
    pub fn chunk_size(&self) -> (n: usize)
        ensures
            n == self@.chunk_size,
    {
        self.chunk_size
    }

    /// Number of chunks.
    pub fn chunk_count(&self) -> (n: usize)
        ensures
            n == self@.chunk_count,
    {
        self.chunk_count
    }

    /// Capacity of the fill queue.
    pub fn fq_size(&self) -> (n: usize)
        ensures
            n == self@.fq_size,
    {
        self.fq_size
    }

    /// Capacity of the completion queue.
    pub fn cq_size(&self) -> (n: usize)
        ensures
            n == self@.cq_size,
    {
        self.cq_size
    }

    /// Number of free chunks.
    pub fn free_count(&self) -> (n: usize)
        ensures
            n == self@.free.len(),
    {
        self.pool.len()
    }

    /// A pool over a zeroed region of `chunk_count` chunks of `chunk_size`
    /// bytes, all of them free, lowest address first on the stack.
    pub fn new(chunk_size: usize, chunk_count: usize, fq_size: usize, cq_size: usize) -> (r: Result<
        BufferPool,
        PoolError,
    >)
        ensures
            !region_fits(chunk_size as int, chunk_count as int) ==> r == Err::<
                BufferPool,
                PoolError,
            >(PoolError::AllocationError),
            region_fits(chunk_size as int, chunk_count as int) && !sizes_fit(
                chunk_size as int,
                fq_size as int,
                cq_size as int,
            ) ==> r == Err::<BufferPool, PoolError>(PoolError::RegistrationError(0)),
            region_fits(chunk_size as int, chunk_count as int) && sizes_fit(
                chunk_size as int,
                fq_size as int,
                cq_size as int,
            ) ==> r.is_ok() && r.unwrap().wf() && r.unwrap()@ == (PoolView {
                chunk_size: chunk_size as nat,
                chunk_count: chunk_count as nat,
                free: all_chunks(chunk_size as nat, chunk_count as nat),
                memory: Seq::new((chunk_size * chunk_count) as nat, |i: int| 0u8),
                fq_size: fq_size as nat,
                cq_size: cq_size as nat,
            }),
    {
        let total: usize = match chunk_size.checked_mul(chunk_count) {
            None => {
                return Err(PoolError::AllocationError);
            },
            Some(n) => n,
        };
        if total == 0 || total > isize::MAX as usize {
            return Err(PoolError::AllocationError);
        }
        if chunk_size > u32::MAX as usize || fq_size > u32::MAX as usize || cq_size
            > u32::MAX as usize {
            return Err(PoolError::RegistrationError(0));
        }
        proof {
            assert(chunk_size > 0 && chunk_count > 0) by (nonlinear_arith)
                requires
                    chunk_size * chunk_count > 0,
            ;
            assert(chunk_count <= chunk_size * chunk_count) by (nonlinear_arith)
                requires
                    chunk_size > 0,
                    chunk_count > 0,
            ;
        }
        let mut buffer: Vec<u8> = Vec::new();
        let mut b: usize = 0;
        while b < total
            invariant
                b <= total,
                buffer@.len() == b,
                forall|i: int| 0 <= i < b ==> buffer@[i] == 0u8,
            decreases total - b,
        {
            buffer.push(0u8);
            b = b + 1;
        }
        let mut pool: Vec<u64> = Vec::new();
        let mut place: Vec<usize> = Vec::new();
        let mut k: usize = 0;
        while k < chunk_count
            invariant
                k <= chunk_count,
                chunk_size > 0,
                chunk_size * chunk_count == total,
                total <= isize::MAX,
                pool@.len() == k,
                place@.len() == k,
                forall|i: int| 0 <= i < k ==> #[trigger] pool@[i] == i * chunk_size,
                forall|i: int| 0 <= i < k ==> #[trigger] place@[i] == i,
            decreases chunk_count - k,
        {
            proof {
                assert(k * chunk_size < chunk_size * chunk_count) by (nonlinear_arith)
                    requires
                        k < chunk_count,
                        chunk_size > 0,
                ;
            }
            pool.push((k * chunk_size) as u64);
            place.push(k);
            k = k + 1;
        }
        let made = BufferPool { chunk_size, chunk_count, pool, place, buffer, fq_size, cq_size };
        proof {
            assert forall|i: int| 0 <= i < made.pool@.len() implies is_chunk_addr(
                (#[trigger] made.pool@[i]) as int,
                chunk_size as int,
                chunk_count as int,
            ) && made.place@[made.pool@[i] as int / chunk_size as int] == i by {
                lemma_chunk_index(i, chunk_size as int);
            }
            made.lemma_inv_no_duplicates();
            assert(made@.free =~= all_chunks(chunk_size as nat, chunk_count as nat));
            assert(made@.memory =~= Seq::new((chunk_size * chunk_count) as nat, |i: int| 0u8));
        }
        Ok(made)
    }

    /// Hands out the free address on top of the stack, or says that none is
    /// free.
    pub fn alloc_addr(&mut self) -> (r: Result<u64, PoolError>)
        requires
            old(self).wf(),
        ensures
            final(self).wf(),
            old(self)@.free.len() == 0 ==> r == Err::<u64, PoolError>(PoolError::Empty)
                && final(self)@ == old(self)@,
            old(self)@.free.len() > 0 ==> r == Ok::<u64, PoolError>(old(self)@.free.last())
                && final(self)@ == old(self)@.taken(1),
    {
        match self.pool.pop() {
            None => Err(PoolError::Empty),
            Some(addr) => {
                let k: usize = (addr / (self.chunk_size as u64)) as usize;
                self.place[k] = usize::MAX;
                proof {
                    let last = old(self).pool@.len() - 1;
                    assert(old(self).pool@[last] == addr);
                    assert(self.pool@ =~= old(self)@.free.take(last));
                    assert forall|c: int|
                        0 <= c < self.chunk_count && #[trigger] self.place@[c]
                            != usize::MAX implies self.place@[c] < self.pool@.len()
                        && self.pool@[self.place@[c] as int] == c * self.chunk_size by {
                        assert(old(self).place@[c] != usize::MAX);
                        if old(self).place@[c] == last {
                            lemma_chunk_index(c, self.chunk_size as int);
                        }
                    }
                    assert forall|i: int| 0 <= i < self.pool@.len() implies is_chunk_addr(
                        (#[trigger] self.pool@[i]) as int,
                        self.chunk_size as int,
                        self.chunk_count as int,
                    ) && self.place@[self.pool@[i] as int / self.chunk_size as int] == i by {
                        assert(old(self).pool@[i] == self.pool@[i]);
                    }
                    self.lemma_inv_no_duplicates();
                }
                Ok(addr)
            },
        }
    }

    /// Hands a chunk back: the address is brought down to the start of its
    /// chunk, which joins the free stack. An address outside the region and
    /// a chunk that is free already are refused, and the pool stays as it was.
    pub fn free_addr(&mut self, chunk_addr: u64) -> (r: Result<(), PoolError>)
        requires
            old(self).wf(),
        ensures
            final(self).wf(),
            final(self)@ == old(self)@.freed(chunk_addr),
            r == old(self)@.free_outcome(chunk_addr),
    {
        let aligned: u64 = align_addr(chunk_addr, self.chunk_size);
        proof {
            lemma_align_down(chunk_addr as int, self.chunk_size as int);
        }
        let k: u64 = aligned / (self.chunk_size as u64);
        if k >= self.chunk_count as u64 {
            return Err(PoolError::OutOfRegion);
        }
        let k: usize = k as usize;
        if self.place[k] != usize::MAX {
            proof {
                lemma_chunk_start(aligned as int, self.chunk_size as int);
                assert(self.pool@[self.place@[k as int] as int] == aligned);
            }
            return Err(PoolError::DoubleFree);
        }
        proof {
            if self.pool@.contains(aligned) {
                let i = choose|i: int| 0 <= i < self.pool@.len() && self.pool@[i] == aligned;
                assert(self.place@[self.pool@[i] as int / self.chunk_size as int] == i);
            }
            if self.pool@.len() == self.chunk_count {
                self.lemma_full_stack_covers(k as int);
            }
        }
        let at: usize = self.pool.len();
        self.place[k] = at;
        self.pool.push(aligned);
        proof {
            lemma_chunk_start(aligned as int, self.chunk_size as int);
            assert forall|c: int|
                0 <= c < self.chunk_count && #[trigger] self.place@[c]
                    != usize::MAX implies self.place@[c] < self.pool@.len()
                && self.pool@[self.place@[c] as int] == c * self.chunk_size by {
                if c != k {
                    assert(old(self).place@[c] == self.place@[c]);
                }
            }
            assert forall|i: int| 0 <= i < self.pool@.len() implies is_chunk_addr(
                (#[trigger] self.pool@[i]) as int,
                self.chunk_size as int,
                self.chunk_count as int,
            ) && self.place@[self.pool@[i] as int / self.chunk_size as int] == i by {
                if i < at {
                    assert(old(self).pool@[i] == self.pool@[i]);
                    assert(old(self).place@[old(self).pool@[i] as int / self.chunk_size as int]
                        == i);
                }
            }
            self.lemma_inv_no_duplicates();
            assert(self@.free =~= old(self)@.free.push(aligned));
        }
        Ok(())
    }

    /// A copy of the bytes of the chunk that starts at `addr`.
    pub fn load_chunk(&self, addr: u64) -> (bytes: Vec<u8>)
        requires
            self.wf(),
            self@.is_chunk(addr),
        ensures
            bytes@ == self@.chunk_bytes(addr),
            bytes@.len() == self@.chunk_size,
    {
        proof {
            lemma_chunk_in_region(
                addr as int,
                self.chunk_size as int,
                self.chunk_count as int,
            );
        }
        let from: usize = addr as usize;
        let window: &[u8] = vstd::slice::slice_subrange(
            self.buffer.as_slice(),
            from,
            from + self.chunk_size,
        );
        vstd::slice::slice_to_vec(window)
    }

    /// Length of the region in bytes.
    pub fn region_len(&self) -> (n: usize)
        ensures
            n == self@.memory.len(),
    {
        self.buffer.len()
    }

    /// Whether `addr` is the start of a chunk of the region.
    pub fn is_chunk(&self, addr: u64) -> (b: bool)
        requires
            self.wf(),
        ensures
            b == self@.is_chunk(addr),
    {
        addr % (self.chunk_size as u64) == 0 && addr / (self.chunk_size as u64) < (
        self.chunk_count as u64)
    }

    /// A copy of the `len` bytes of the region from offset `at` on.
    pub fn load(&self, at: u64, len: usize) -> (bytes: Vec<u8>)
        requires
            self.wf(),
            at + len <= self@.memory.len(),
        ensures
            bytes@ == self@.memory.subrange(at as int, at + len),
    {
        let from: usize = at as usize;
        let window: &[u8] = vstd::slice::slice_subrange(self.buffer.as_slice(), from, from + len);
        vstd::slice::slice_to_vec(window)
    }

    /// Writes `data` into the region from offset `at` on.
    pub fn store(&mut self, at: u64, data: &Vec<u8>)
        requires
            old(self).wf(),
            at + data@.len() <= old(self)@.memory.len(),
        ensures
            final(self).wf(),
            final(self)@ == old(self)@.stored(at as int, data@),
    {
        let n: usize = data.len();
        let base: usize = at as usize;
        let mut i: usize = 0;
        while i < n
            invariant
                i <= n,
                n == data@.len(),
                base == at,
                base + n <= self.buffer.len(),
                self.buffer@.len() == old(self).buffer@.len(),
                self.chunk_size == old(self).chunk_size,
                self.chunk_count == old(self).chunk_count,
                self.pool == old(self).pool,
                self.place == old(self).place,
                self.fq_size == old(self).fq_size,
                self.cq_size == old(self).cq_size,
                self.buffer@ =~= overlay(old(self).buffer@, at as int, data@.take(i as int)),
            decreases n - i,
        {
            self.buffer[base + i] = data[i];
            i = i + 1;
        }
        proof {
            assert(data@.take(n as int) =~= data@);
        }
    }

    proof fn lemma_full_stack_covers(&self, k: int)
        requires
            self.inv(),
            self.chunk_size > 0,
            self.pool@.len() == self.chunk_count,
            0 <= k < self.chunk_count,
        ensures
            self.place@[k] != usize::MAX,
    {
        // Every stack position is the place of a different chunk; with as
        // many positions as chunks, no chunk is left without one.
        let n = self.chunk_count as int;
        let cs = self.chunk_size as int;
        let chunk_of = |i: int| self.pool@[i] as int / cs;
        let positions = vstd::set_lib::set_int_range(0, n);
        vstd::set_lib::lemma_int_range(0, n);
        let image = positions.map(chunk_of);
        assert forall|i: int, j: int|
            positions.contains(i) && positions.contains(j) && chunk_of(i) == chunk_of(
                j,
            ) implies i == j by {
            assert(self.place@[self.pool@[i] as int / cs] == i);
            assert(self.place@[self.pool@[j] as int / cs] == j);
        }
        vstd::set_lib::lemma_map_size(positions, image, chunk_of);
        assert(image.subset_of(positions)) by {
            assert forall|c: int| image.contains(c) implies positions.contains(c) by {
                let i = choose|i: int| positions.contains(i) && chunk_of(i) == c;
                assert(is_chunk_addr(self.pool@[i] as int, cs, n));
                vstd::arithmetic::div_mod::lemma_div_pos_is_pos(self.pool@[i] as int, cs);
            }
        }
        vstd::set_lib::lemma_subset_equality(image, positions);
        assert(image.contains(k));
        let i = choose|i: int| positions.contains(i) && chunk_of(i) == k;
        assert(self.place@[self.pool@[i] as int / cs] == i);
    }
}

/// The region of a consistent pool has exactly `chunk_count` chunk addresses.
pub proof fn lemma_chunk_addresses(pool: PoolView)
    requires
        pool.wf(),
    ensures
        pool.chunks().finite(),
        pool.chunks().len() == pool.chunk_count,
{
    let n = pool.chunk_count as int;
    let cs = pool.chunk_size as int;
    let start_of = |k: int| (k * cs) as u64;
    let indices = vstd::set_lib::set_int_range(0, n);
    vstd::set_lib::lemma_int_range(0, n);
    assert forall|k: int| 0 <= k < n implies 0 <= #[trigger] (k * cs) < cs * n by {
        lemma_chunk_index(k, cs);
        assert(k * cs < cs * n) by (nonlinear_arith)
            requires
                0 <= k < n,
                0 < cs,
        ;
    }
    assert forall|j: int, k: int|
        indices.contains(j) && indices.contains(k) && start_of(j) == start_of(k) implies j
        == k by {
        assert(0 <= j * cs < cs * n);
        assert(0 <= k * cs < cs * n);
        lemma_chunk_index(j, cs);
        lemma_chunk_index(k, cs);
    }
    assert(indices.map(start_of) =~= pool.chunks()) by {
        assert forall|addr: u64| pool.chunks().contains(addr) implies indices.map(
            start_of,
        ).contains(addr) by {
            lemma_chunk_start(addr as int, cs);
            let k = addr as int / cs;
            assert(indices.contains(k));
            assert(start_of(k) == addr);
        }
        assert forall|addr: u64|
            indices.map(start_of).contains(addr) implies pool.chunks().contains(addr) by {
            let k = choose|k: int| indices.contains(k) && start_of(k) == addr;
            assert(0 <= k * cs < cs * n);
            lemma_chunk_index(k, cs);
        }
    }
    vstd::set_lib::lemma_map_size(indices, pool.chunks(), start_of);
}

/// Conservation: in every consistent pool the free chunks and the chunks
/// that are out make up the region, chunk for chunk, and no chunk is both.
pub proof fn lemma_pool_conservation(pool: PoolView)
    requires
        pool.wf(),
    ensures
        pool.leased().finite(),
        pool.free.len() + pool.leased().len() == pool.chunk_count,
        forall|addr: u64| !(pool.free.contains(addr) && pool.leased().contains(addr)),
        forall|addr: u64|
            pool.is_chunk(addr) ==> pool.free.contains(addr) || pool.leased().contains(addr),
{
    lemma_chunk_addresses(pool);
    let free_set = pool.free.to_set();
    pool.free.unique_seq_to_set();
    assert(free_set.finite());
    assert(pool.leased() =~= pool.chunks().difference(free_set));
    vstd::set_lib::lemma_set_difference_len(pool.chunks(), free_set);
    assert(pool.chunks().intersect(free_set) =~= free_set) by {
        assert forall|addr: u64| free_set.contains(addr) implies pool.chunks().contains(addr) by {
            let i = choose|i: int| 0 <= i < pool.free.len() && pool.free[i] == addr;
            assert(pool.is_chunk(pool.free[i]));
        }
    }
}

/// Alignment: a chunk that is handed back by any address inside it is stored
/// under the address brought down to the chunk's start.
pub proof fn lemma_free_stores_aligned(pool: PoolView, addr: u64)
    requires
        pool.wf(),
        pool.leased().contains(align_down(addr as int, pool.chunk_size as int) as u64),
    ensures
        pool.freed(addr).wf(),
        pool.freed(addr).free.last() == addr as int - (addr as int) % (pool.chunk_size as int),
        pool.freed(addr).free.drop_last() == pool.free,
        pool.freed(addr).free.len() + pool.freed(addr).leased().len() == pool.chunk_count,
{
    lemma_align_down(addr as int, pool.chunk_size as int);
    let aligned = align_down(addr as int, pool.chunk_size as int) as u64;
    let after = pool.freed(addr);
    assert(after.free.drop_last() =~= pool.free);
    lemma_pool_conservation(pool);
    assert(after.free.no_duplicates());
    lemma_pool_conservation(after);
}

/// Exclusivity: of the addresses that a pool hands out in a row, each from
/// the pool as the one before left it, no two are the same; an address that
/// was handed out is free no more; and when as many were handed out as were
/// free, the pool is empty.
pub proof fn lemma_allocations_distinct(pool: PoolView, i: nat, j: nat)
    requires
        pool.wf(),
        i < j < pool.free.len(),
    ensures
        pool.taken(i).wf(),
        pool.taken(i).free.len() > 0,
        pool.taken(i).taken(1) == pool.taken(i + 1),
        pool.taken(i).free.last() != pool.taken(j).free.last(),
        !pool.taken(j).free.contains(pool.taken(i).free.last()),
        pool.taken(pool.free.len()).free.len() == 0,
{
    assert(pool.taken(i).taken(1).free =~= pool.taken(i + 1).free);
    let a = pool.taken(i).free.last();
    let b = pool.taken(j).free.last();
    assert(a == pool.free[pool.free.len() - i - 1]);
    assert(b == pool.free[pool.free.len() - j - 1]);
    assert(!pool.taken(j).free.contains(a)) by {
        let rest = pool.taken(j).free;
        if rest.contains(a) {
            let k = choose|k: int| 0 <= k < rest.len() && rest[k] == a;
            assert(pool.free[k] == a);
        }
    }
}

/// Handing addresses back changes the free stack alone: the region, its
/// bytes and the queue sizes stay.
pub proof fn lemma_freed_all_keeps_region(pool: PoolView, addrs: Seq<u64>)
    ensures
        pool.freed_all(addrs) == (PoolView { free: pool.freed_all(addrs).free, ..pool }),
    decreases addrs.len(),
{
    if addrs.len() > 0 {
        lemma_freed_all_keeps_region(pool, addrs.drop_last());
    }
}

} // verus!
