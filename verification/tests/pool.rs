use packetvisor::chunk::{align_addr, DEFAULT_HEADROOM};
use packetvisor::pool::{BufferPool, PoolError};
use packetvisor::ring::{ConsumerRing, Descriptor, ProducerRing};
use packetvisor::umem::{Pool, Registration};

fn small_pool() -> Pool {
    Pool::create(128, 4, 4, 4, false, Registration::Registered).unwrap()
}

#[test]
fn pool_of_four_small_chunks_runs_dry_and_recovers() {
    let mut pool = small_pool();
    let mut packets = Vec::new();
    for _ in 0..4 {
        let packet = pool.try_alloc_packet();
        assert!(packet.is_some());
        packets.push(packet.unwrap());
    }
    assert!(pool.try_alloc_packet().is_none());
    assert_eq!(pool.buffers().free_count(), 0);

    let returned = packets.remove(1);
    let addr = returned.chunk_addr();
    assert_eq!(addr % 128, 0);
    assert_eq!(pool.free_packet(returned), Ok(()));
    assert_eq!(pool.buffers().free_count(), 1);

    let again = pool.try_alloc_packet().unwrap();
    assert_eq!(again.chunk_addr(), addr);
    assert!(pool.try_alloc_packet().is_none());
}

#[test]
fn fresh_pool_hands_out_every_chunk_once() {
    let mut pool = BufferPool::new(128, 4, 4, 4).unwrap();
    let mut seen: Vec<u64> = Vec::new();
    for _ in 0..4 {
        let addr = pool.alloc_addr().unwrap();
        assert!(!seen.contains(&addr));
        assert_eq!(addr % 128, 0);
        assert!(addr < 512);
        seen.push(addr);
    }
    assert_eq!(pool.alloc_addr(), Err(PoolError::Empty));
    assert_eq!(pool.alloc_addr(), Err(PoolError::Empty));
}

#[test]
fn fresh_pool_hands_out_the_highest_address_first() {
    let mut pool = BufferPool::new(2048, 3, 1, 1).unwrap();
    assert_eq!(pool.alloc_addr(), Ok(4096));
    assert_eq!(pool.alloc_addr(), Ok(2048));
    assert_eq!(pool.alloc_addr(), Ok(0));
    assert_eq!(pool.alloc_addr(), Err(PoolError::Empty));
}

#[test]
fn free_and_leased_always_add_up_to_the_chunk_count() {
    let mut pool = BufferPool::new(64, 5, 1, 1).unwrap();
    let mut leased: Vec<u64> = Vec::new();
    assert_eq!(pool.free_count() + leased.len(), 5);
    for _ in 0..3 {
        leased.push(pool.alloc_addr().unwrap());
        assert_eq!(pool.free_count() + leased.len(), 5);
    }
    let back = leased.pop().unwrap();
    assert_eq!(pool.free_addr(back), Ok(()));
    assert_eq!(pool.free_count() + leased.len(), 5);
    // A refused free changes nothing.
    assert_eq!(pool.free_addr(back), Err(PoolError::DoubleFree));
    assert_eq!(pool.free_count() + leased.len(), 5);
    for addr in leased.iter() {
        assert!(pool.is_chunk(*addr));
    }
    while let Ok(addr) = pool.alloc_addr() {
        assert!(!leased.contains(&addr));
        leased.push(addr);
        assert_eq!(pool.free_count() + leased.len(), 5);
    }
    assert_eq!(leased.len(), 5);
    assert_eq!(pool.free_count(), 0);
}

#[test]
fn free_stores_the_address_aligned_down() {
    let mut pool = BufferPool::new(2048, 4, 1, 1).unwrap();
    let a = pool.alloc_addr().unwrap();
    let b = pool.alloc_addr().unwrap();
    assert_eq!(a, 6144);
    assert_eq!(b, 4096);
    // An address inside the chunk, as a transmit descriptor carries it.
    assert_eq!(pool.free_addr(b + 256 + 17), Ok(()));
    assert_eq!(pool.alloc_addr(), Ok(4096));
    assert_eq!(pool.free_addr(a + 2047), Ok(()));
    assert_eq!(pool.alloc_addr(), Ok(6144));
    assert_eq!(align_addr(6144 + 2047, 2048), 6144);
    assert_eq!(align_addr(2048, 2048), 2048);
    assert_eq!(align_addr(2047, 2048), 0);
    assert_eq!(align_addr(1000, 1), 1000);
}

#[test]
fn free_refuses_what_is_free_or_outside() {
    let mut pool = BufferPool::new(128, 4, 1, 1).unwrap();
    assert_eq!(pool.free_addr(0), Err(PoolError::DoubleFree));
    assert_eq!(pool.free_addr(130), Err(PoolError::DoubleFree));
    assert_eq!(pool.free_addr(512), Err(PoolError::OutOfRegion));
    assert_eq!(pool.free_addr(u64::MAX), Err(PoolError::OutOfRegion));
    assert_eq!(pool.free_count(), 4);
    let addr = pool.alloc_addr().unwrap();
    assert_eq!(pool.free_addr(addr), Ok(()));
    assert_eq!(pool.free_addr(addr), Err(PoolError::DoubleFree));
    assert_eq!(pool.free_count(), 4);
}

#[test]
fn a_region_without_bytes_is_an_allocation_error() {
    assert_eq!(BufferPool::new(0, 4, 1, 1).err(), Some(PoolError::AllocationError));
    assert_eq!(BufferPool::new(128, 0, 1, 1).err(), Some(PoolError::AllocationError));
    assert_eq!(BufferPool::new(usize::MAX, 2, 1, 1).err(), Some(PoolError::AllocationError));
    assert_eq!(
        BufferPool::new(usize::MAX / 2 + 1, 1, 1, 1).err(),
        Some(PoolError::AllocationError)
    );
    assert_eq!(Pool::region_len(0, 4), None);
    assert_eq!(Pool::region_len(usize::MAX, 2), None);
    assert_eq!(Pool::region_len(2048, 4096), Some(8388608));
}

#[test]
fn sizes_beyond_32_bits_are_a_registration_error() {
    let big = (u32::MAX as usize) + 1;
    assert_eq!(BufferPool::new(128, 4, big, 1).err(), Some(PoolError::RegistrationError(0)));
    assert_eq!(BufferPool::new(128, 4, 1, big).err(), Some(PoolError::RegistrationError(0)));
    assert_eq!(BufferPool::new(big, 1, 1, 1).err(), Some(PoolError::RegistrationError(0)));
    // The region is judged first.
    assert_eq!(BufferPool::new(0, 4, big, 1).err(), Some(PoolError::AllocationError));
}

#[test]
fn create_answers_what_the_kernel_said() {
    assert_eq!(
        Pool::create(128, 4, 4, 4, false, Registration::MapFailed).err(),
        Some(PoolError::AllocationError)
    );
    assert_eq!(
        Pool::create(128, 4, 4, 4, false, Registration::Refused(-22)).err(),
        Some(PoolError::RegistrationError(-22))
    );
    assert_eq!(
        Pool::create(0, 4, 4, 4, false, Registration::Refused(-22)).err(),
        Some(PoolError::AllocationError)
    );
    let pool = Pool::create(128, 4, 2, 3, true, Registration::Registered).unwrap();
    assert_eq!(pool.refcount(), 0);
    assert!(pool.is_shared());
    assert!(pool.takes_binding());
    assert_eq!(pool.buffers().chunk_size(), 128);
    assert_eq!(pool.buffers().chunk_count(), 4);
    assert_eq!(pool.buffers().fq_size(), 2);
    assert_eq!(pool.buffers().cq_size(), 3);
    assert_eq!(pool.buffers().free_count(), 4);
    assert_eq!(pool.buffers().region_len(), 512);
}

#[test]
fn a_fresh_region_is_zeroed_and_keeps_what_is_stored() {
    let mut pool = BufferPool::new(8, 2, 1, 1).unwrap();
    assert_eq!(pool.load(0, 16), vec![0u8; 16]);
    pool.store(6, &vec![1, 2, 3, 4]);
    assert_eq!(pool.load(0, 16), vec![0, 0, 0, 0, 0, 0, 1, 2, 3, 4, 0, 0, 0, 0, 0, 0]);
    assert_eq!(pool.load_chunk(8), vec![3, 4, 0, 0, 0, 0, 0, 0]);
    assert_eq!(pool.load_chunk(0), vec![0, 0, 0, 0, 0, 0, 1, 2]);
    assert_eq!(pool.load(16, 0), Vec::<u8>::new());
}

#[test]
fn a_new_packet_starts_behind_the_headroom() {
    let mut pool = Pool::create(2048, 2, 1, 1, false, Registration::Registered).unwrap();
    let packet = pool.try_alloc_packet().unwrap();
    assert_eq!(packet.start(), DEFAULT_HEADROOM);
    assert_eq!(packet.end(), DEFAULT_HEADROOM);
    assert_eq!(packet.start(), 256);
    assert_eq!(packet.buffer_size(), 2048);
    assert_eq!(packet.bytes().len(), 2048);
    assert_eq!(packet.chunk_addr(), 2048);
    assert_eq!(packet.len(), 0);

    // A chunk shorter than the headroom has its window at its end.
    let mut small = small_pool();
    let packet = small.try_alloc_packet().unwrap();
    assert_eq!(packet.start(), 128);
    assert_eq!(packet.end(), 128);
    assert_eq!(packet.buffer_size(), 128);
}

#[test]
fn alloc_addr_of_the_pool_matches_the_buffers() {
    let mut pool = small_pool();
    assert_eq!(pool.alloc_addr(), Ok(384));
    assert_eq!(pool.alloc_addr(), Ok(256));
    assert_eq!(pool.buffers().free_count(), 2);
    assert_eq!(pool.buffers_mut().free_addr(300), Ok(()));
    assert_eq!(pool.alloc_addr(), Ok(256));
    assert_eq!(pool.alloc_addr(), Ok(128));
    assert_eq!(pool.alloc_addr(), Ok(0));
    assert_eq!(pool.alloc_addr(), Err(PoolError::Empty));
}

#[test]
fn free_packet_refuses_a_second_lease_end() {
    let mut pool = small_pool();
    let packet = pool.try_alloc_packet().unwrap();
    let addr = packet.chunk_addr();
    let twin = packetvisor::packet::Packet::new(addr, vec![0u8; 128]);
    assert_eq!(pool.free_packet(packet), Ok(()));
    assert_eq!(pool.free_packet(twin), Err(PoolError::DoubleFree));
    let stray = packetvisor::packet::Packet::new(4096, vec![0u8; 128]);
    assert_eq!(pool.free_packet(stray), Err(PoolError::OutOfRegion));
    assert_eq!(pool.buffers().free_count(), 4);
}

#[test]
fn re_init_resets_an_unused_pool_only() {
    let mut pool = small_pool();
    let _ = pool.try_alloc_packet().unwrap();
    pool.buffers_mut().store(0, &vec![7u8; 4]);
    assert_eq!(pool.re_init(Registration::MapFailed), Err(PoolError::AllocationError));
    assert_eq!(pool.re_init(Registration::Refused(-12)), Err(PoolError::RegistrationError(-12)));
    assert_eq!(pool.buffers().free_count(), 3);
    assert_eq!(pool.re_init(Registration::Registered), Ok(()));
    assert_eq!(pool.buffers().free_count(), 4);
    assert_eq!(pool.buffers().load(0, 4), vec![0u8; 4]);

    let mut fq = ProducerRing::new(0);
    let mut cq = ConsumerRing::new(0);
    pool.attach(&mut fq, &mut cq);
    assert_eq!(pool.refcount(), 1);
    assert_eq!(pool.re_init(Registration::Registered), Err(PoolError::InUse));
    assert_eq!(pool.buffers().free_count(), 0);
    assert!(pool.detach());
    assert_eq!(pool.refcount(), 0);
    assert!(pool.detach());
    assert_eq!(pool.refcount(), 0);
}

#[test]
fn reserve_fq_is_bounded_by_request_ring_and_pool() {
    let mut pool = BufferPool::new(128, 4, 8, 8).unwrap();
    let mut fq = ProducerRing::new(8);
    assert_eq!(pool.reserve_fq(&mut fq, 3), 3);
    assert_eq!(fq.pending(), 3);
    assert_eq!(pool.free_count(), 1);
    assert_eq!(fq.oldest(), Some(Descriptor { addr: 384, len: 0 }));
    // The pool runs dry before the ring is full.
    assert_eq!(pool.reserve_fq(&mut fq, 5), 1);
    assert_eq!(pool.reserve_fq(&mut fq, 5), 0);
    assert_eq!(fq.pending(), 4);
    assert_eq!(fq.consume(), Some(Descriptor { addr: 384, len: 0 }));
    assert_eq!(fq.consume(), Some(Descriptor { addr: 256, len: 0 }));
    assert_eq!(fq.consume(), Some(Descriptor { addr: 128, len: 0 }));
    assert_eq!(fq.consume(), Some(Descriptor { addr: 0, len: 0 }));
    assert_eq!(fq.consume(), None);

    // The ring is full before the pool runs dry.
    let mut pool = BufferPool::new(128, 4, 2, 2).unwrap();
    let mut fq = ProducerRing::new(2);
    assert_eq!(pool.reserve_fq(&mut fq, 64), 2);
    assert_eq!(pool.free_count(), 2);
    assert_eq!(pool.reserve_fq(&mut fq, 64), 0);
}

#[test]
fn release_hands_completions_back_to_the_pool() {
    let mut pool = BufferPool::new(128, 4, 8, 8).unwrap();
    let a = pool.alloc_addr().unwrap();
    let b = pool.alloc_addr().unwrap();
    let c = pool.alloc_addr().unwrap();
    let mut cq = ConsumerRing::new(8);
    assert!(cq.produce(Descriptor { addr: b + 100, len: 0 }));
    assert!(cq.produce(Descriptor { addr: a + 5, len: 0 }));
    assert!(cq.produce(Descriptor { addr: 9999, len: 0 }));
    assert!(cq.produce(Descriptor { addr: c, len: 0 }));
    assert_eq!(pool.release(&mut cq, 3), 3);
    assert_eq!(cq.filled(), 1);
    assert_eq!(pool.free_count(), 3);
    assert_eq!(pool.alloc_addr(), Ok(a));
    assert_eq!(pool.alloc_addr(), Ok(b));
    assert_eq!(pool.release(&mut cq, 8), 1);
    assert_eq!(pool.release(&mut cq, 8), 0);
    assert_eq!(pool.alloc_addr(), Ok(c));
}

#[test]
fn reserve_txq_grants_what_is_free() {
    let pool = BufferPool::new(128, 4, 8, 8).unwrap();
    let mut tx = ProducerRing::new(2);
    let granted = pool.reserve_txq(&mut tx, 3);
    assert_eq!(granted.count, 2);
    assert_eq!(granted.idx, 0);
    let granted = pool.reserve_txq(&mut tx, 3);
    assert_eq!(granted.count, 0);
    assert_eq!(granted.idx, 2);
}
