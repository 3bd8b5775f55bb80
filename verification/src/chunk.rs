//! Arithmetic of chunk addresses: a memory region is cut into chunks of equal
//! size, and an address inside a chunk is brought down to the chunk's start.

use vstd::prelude::*;

verus! {

/// Payload offset of a fresh packet: room kept free in front of the payload
/// so that headers can grow.
pub const DEFAULT_HEADROOM: usize = 256;

/// The largest region, in bytes, that one allocation can hold.
pub open spec fn region_limit() -> int {
    isize::MAX as int
}

/// `addr` brought down to the nearest multiple of `chunk_size`.
pub open spec fn align_down(addr: int, chunk_size: int) -> int {
    addr - addr % chunk_size
}

/// Whether `addr` is the start of one of the `chunk_count` chunks of
/// `chunk_size` bytes that make up a region.
pub open spec fn is_chunk_addr(addr: int, chunk_size: int, chunk_count: int) -> bool {
    &&& 0 <= addr
    &&& addr % chunk_size == 0
    &&& addr / chunk_size < chunk_count
}

/// The `k`-th chunk starts at `k * chunk_size`, and nothing else does.
pub proof fn lemma_chunk_index(k: int, chunk_size: int)
    requires
        0 <= k,
        0 < chunk_size,
    ensures
        0 <= k * chunk_size,
        (k * chunk_size) % chunk_size == 0,
        (k * chunk_size) / chunk_size == k,
{
    vstd::arithmetic::mul::lemma_mul_nonnegative(k, chunk_size);
    vstd::arithmetic::div_mod::lemma_fundamental_div_mod_converse(
        k * chunk_size,
        chunk_size,
        k,
        0,
    );
}

/// A multiple of the chunk size is its chunk index times the chunk size.
pub proof fn lemma_chunk_start(addr: int, chunk_size: int)
    requires
        0 <= addr,
        0 < chunk_size,
        addr % chunk_size == 0,
    ensures
        addr == (addr / chunk_size) * chunk_size,
        0 <= addr / chunk_size,
{
    vstd::arithmetic::div_mod::lemma_fundamental_div_mod(addr, chunk_size);
    vstd::arithmetic::div_mod::lemma_div_pos_is_pos(addr, chunk_size);
    vstd::arithmetic::mul::lemma_mul_is_commutative(chunk_size, addr / chunk_size);
}

/// Aligning down lands on the start of the chunk that holds the address, and
/// moves by less than one chunk.
pub proof fn lemma_align_down(addr: int, chunk_size: int)
    requires
        0 <= addr,
        0 < chunk_size,
    ensures
        0 <= align_down(addr, chunk_size) <= addr,
        addr - align_down(addr, chunk_size) < chunk_size,
        align_down(addr, chunk_size) % chunk_size == 0,
        align_down(addr, chunk_size) / chunk_size == addr / chunk_size,
        align_down(addr, chunk_size) == (addr / chunk_size) * chunk_size,
{
    vstd::arithmetic::div_mod::lemma_fundamental_div_mod(addr, chunk_size);
    vstd::arithmetic::div_mod::lemma_mod_bound(addr, chunk_size);
    vstd::arithmetic::div_mod::lemma_div_pos_is_pos(addr, chunk_size);
    vstd::arithmetic::mul::lemma_mul_is_commutative(chunk_size, addr / chunk_size);
    lemma_chunk_index(addr / chunk_size, chunk_size);
}

/// A chunk of the region lies wholly inside it.
pub proof fn lemma_chunk_in_region(addr: int, chunk_size: int, chunk_count: int)
    requires
        0 < chunk_size,
        is_chunk_addr(addr, chunk_size, chunk_count),
    ensures
        addr + chunk_size <= chunk_size * chunk_count,
{
    lemma_chunk_start(addr, chunk_size);
    let k = addr / chunk_size;
    assert((k + 1) * chunk_size <= chunk_count * chunk_size) by (nonlinear_arith)
        requires
            k + 1 <= chunk_count,
            0 < chunk_size,
    ;
    assert((k + 1) * chunk_size == k * chunk_size + chunk_size) by (nonlinear_arith);
    vstd::arithmetic::mul::lemma_mul_is_commutative(chunk_size, chunk_count);
}

/// Brings an address down to the start of its chunk.
pub fn align_addr(addr: u64, chunk_size: usize) -> (aligned: u64)
    requires
        0 < chunk_size,
    ensures
        aligned == align_down(addr as int, chunk_size as int),
{
    proof {
        lemma_align_down(addr as int, chunk_size as int);
    }
    addr - addr % (chunk_size as u64)
}

} // verus!
