//! Packet I/O over kernel-shared rings: a pool of fixed-size memory chunks,
//! packets that lease one chunk each, the four rings that carry chunk
//! descriptors to and from the kernel, and the interface binding that moves
//! batches of packets through them.

pub mod arp;
pub mod chunk;
pub mod dump;
pub mod exchange;
pub mod lease;
pub mod nic;
pub mod packet;
pub mod pool;
pub mod pv;
pub mod ring;
pub mod umem;
pub mod utils;
