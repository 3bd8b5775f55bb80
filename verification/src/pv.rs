//! One interface with a pool of its own, driven by free functions: open,
//! allocate, receive, send, free.

use vstd::prelude::*;
use crate::dump::{dump_text, hex_dump};
use crate::exchange::{fits, received, ready_count};
use crate::lease::{exclusive, leased_apart, leases};
use crate::nic::{
    after_deliver, after_receive, after_send, after_transmit, can_deliver, can_send, can_transmit,
    CloseAction, Interface, Nic, NicState, NicView, OpenAction, OpenEvent,
};
use crate::packet::{Packet, PacketView};
use crate::umem::{
    attached, create_error, empty_consumer, empty_producer, fresh_buffers, leased_packet, refilled,
    Pool, Registration, UmemView,
};

verus! {

/// One chunk on lease, with the payload window `[start, end)` on it.
#[derive(Debug)]
pub struct PvPacket {
    /// Offset of the first payload byte.
    pub start: u32,
    /// Offset just past the last payload byte.
    pub end: u32,
    /// Size of the chunk.
    pub size: u32,
    /// The chunk's bytes.
    pub buffer: Vec<u8>,
    /// Address of the leased chunk within the memory region; set when the
    /// lease begins and read when it ends.
    pub private: u64,
}

impl View for PvPacket {
    type V = PacketView;

    open spec fn view(&self) -> PacketView {
        PacketView {
            start: self.start as nat,
            end: self.end as nat,
            buffer_size: self.size as nat,
            buffer: self.buffer@,
            chunk: self.private,
        }
    }
}

impl PvPacket {
    /// The window lies inside the chunk, and the chunk has its full size.
    pub open spec fn wf(&self) -> bool {
        self@.wf()
    }

    /// A packet on no chunk: no bytes and an empty window.
    pub fn new() -> (packet: PvPacket)
        ensures
            packet.wf(),
            packet@ == (PacketView {
                start: 0,
                end: 0,
                buffer_size: 0,
                buffer: Seq::empty(),
                chunk: 0,
            }),
    {
        PvPacket { start: 0, end: 0, size: 0, buffer: Vec::new(), private: 0 }
    }
}

/// The hex dump of a packet's whole chunk, as ASCII text: the chunk address,
/// then the chunk's bytes, sixteen to a line.
pub fn packet_dump(packet: &PvPacket) -> (text: Vec<u8>)
    ensures
        text@ == dump_text(packet.private, packet.buffer@),
{
    hex_dump(packet.private, packet.buffer.as_slice())
}

/// What each packet of a sequence holds.
pub open spec fn pv_views(packets: Seq<PvPacket>) -> Seq<PacketView> {
    Seq::new(packets.len(), |i: int| packets[i]@)
}

fn packet_of(packet: &Packet) -> (pv: PvPacket)
    requires
        packet.wf(),
        packet@.buffer_size <= u32::MAX,
    ensures
        pv@ == packet@,
{
    PvPacket {
        start: packet.start() as u32,
        end: packet.end() as u32,
        size: packet.buffer_size() as u32,
        buffer: vstd::slice::slice_to_vec(packet.bytes().as_slice()),
        private: packet.chunk_addr(),
    }
}

fn lease_of(pv: &PvPacket) -> (packet: Packet)
    requires
        pv.wf(),
    ensures
        packet@ == pv@,
        packet.wf(),
{
    Packet::from_parts(
        pv.private,
        vstd::slice::slice_to_vec(pv.buffer.as_slice()),
        pv.start as usize,
        pv.end as usize,
    )
}

/// What an interface with its pool holds.
pub struct PvNicView {
    /// The interface's name.
    pub if_name: Seq<char>,
    /// The binding and its rings.
    pub nic: NicView,
    /// The pool.
    pub pool: UmemView,
}

/// One open interface with a pool of its own.
#[derive(Debug)]
pub struct PvNic {
    /// The interface's name.
    pub if_name: String,
    nic: Nic,
    pool: Pool,
}

impl View for PvNic {
    type V = PvNicView;

    closed spec fn view(&self) -> PvNicView {
        PvNicView { if_name: self.if_name@, nic: self.nic@, pool: self.pool@ }
    }
}

/// Whether an interface can be opened: the region can be made and was
/// registered, an interface has the name, and the kernel gave the socket.
pub open spec fn can_open(
    if_name: Seq<char>,
    interfaces: Seq<Interface>,
    chunk_size: u32,
    chunk_count: u32,
    filling_ring_size: u32,
    completion_ring_size: u32,
    region: Registration,
    socket: i32,
) -> bool {
    &&& create_error(
        chunk_size as int,
        chunk_count as int,
        filling_ring_size as int,
        completion_ring_size as int,
        region,
    ).is_none()
    &&& exists|j: int| 0 <= j < interfaces.len() && (#[trigger] interfaces[j]).name@ == if_name
    &&& socket == 0
}

/// What a freshly opened interface holds: empty receive and transmit rings,
/// an empty completion queue, and a fill queue that is filled from the fresh
/// pool as far as its capacity and the chunks allow.
pub open spec fn opened(
    if_name: Seq<char>,
    chunk_size: u32,
    chunk_count: u32,
    rx_ring_size: u32,
    tx_ring_size: u32,
    filling_ring_size: u32,
    completion_ring_size: u32,
) -> PvNicView {
    let buffers = fresh_buffers(
        chunk_size as nat,
        chunk_count as nat,
        filling_ring_size as nat,
        completion_ring_size as nat,
    );
    let pool = UmemView {
        buffers,
        fq: empty_producer(filling_ring_size as nat),
        cq: empty_consumer(completion_ring_size as nat),
        refcount: 0,
        shared: false,
        registered: true,
    };
    PvNicView {
        if_name,
        nic: NicView {
            state: NicState::Open,
            rx: empty_consumer(rx_ring_size as nat),
            tx: empty_producer(tx_ring_size as nat),
            fq: refilled(pool.fq, buffers, filling_ring_size as nat),
            cq: pool.cq,
            rx_wakeup: false,
            tx_wakeup: false,
        },
        pool: attached(pool, empty_producer(0), empty_consumer(0)),
    }
}

impl PvNic {
    /// The parts are consistent with each other.
    pub closed spec fn inv(&self) -> bool {
        &&& self.pool.wf()
        &&& self.nic.wf(self.pool@.buffers)
    }

    /// The interface is consistent: its pool is, its binding is consistent
    /// with the pool, and the binding is open.
    pub open spec fn wf(&self) -> bool {
        &&& self.inv()
        &&& self@.pool.wf()
        &&& self@.nic.wf(self@.pool.buffers)
        &&& self@.nic.state == NicState::Open
    }

    /// The binding and the pool, to work on: for the kernel's side of the
    /// rings.
    pub fn parts_mut(&mut self) -> (parts: (&mut Nic, &mut Pool))
        ensures
            parts.0@ == old(self)@.nic,
            parts.1@ == old(self)@.pool,
            old(self).wf() ==> parts.1.wf() && parts.0.wf(parts.1@.buffers),
            final(self)@ == (PvNicView {
                nic: final(parts.0)@,
                pool: final(parts.1)@,
                ..old(self)@
            }),
            final(parts.1).wf() && final(parts.0).wf(final(parts.1)@.buffers)
                && final(parts.0)@.state == NicState::Open ==> final(self).wf(),
    {
        (&mut self.nic, &mut self.pool)
    }

    /// Whether the kernel is to be woken for the fill queue.
    pub fn rx_wakeup_due(&self) -> (due: bool)
        ensures
            due == self@.nic.rx_wakeup,
    {
        self.nic.rx_wakeup_due()
    }

    /// Whether the kernel is to be woken for the transmit ring.
    pub fn tx_wakeup_due(&self) -> (due: bool)
        ensures
            due == self@.nic.tx_wakeup,
    {
        self.nic.tx_wakeup_due()
    }

    /// Number of free chunks.
    pub fn free_count(&self) -> (n: usize)
        ensures
            n == self@.pool.buffers.free.len(),
    {
        self.pool.buffers().free_count()
    }

    /// Number of chunks that the fill queue offers to the kernel.
    pub fn fill_pending(&self) -> (n: u32)
        requires
            self.wf(),
        ensures
            n == self@.nic.fq.published.len(),
    {
        self.nic.fill_pending()
    }

    /// Number of frames that wait in the transmit ring for the kernel.
    pub fn tx_pending(&self) -> (n: u32)
        requires
            self.wf(),
        ensures
            n == self@.nic.tx.published.len(),
    {
        self.nic.tx_pending()
    }
}

/// Opens the interface named `if_name` on a pool of its own, given the
/// interfaces that exist, how the registration of the region went, and the
/// kernel's answer to the request for a socket in driver mode. Answers
/// `None` where any of these failed.
pub fn pv_open(
    if_name: &String,
    interfaces: Vec<Interface>,
    chunk_size: u32,
    chunk_count: u32,
    rx_ring_size: u32,
    tx_ring_size: u32,
    filling_ring_size: u32,
    completion_ring_size: u32,
    region: Registration,
    socket: i32,
) -> (r: Option<PvNic>)
    ensures
        r.is_some() == can_open(
            if_name@,
            interfaces@,
            chunk_size,
            chunk_count,
            filling_ring_size,
            completion_ring_size,
            region,
            socket,
        ),
        r.is_some() ==> r.unwrap().wf() && r.unwrap()@ == opened(
            if_name@,
            chunk_size,
            chunk_count,
            rx_ring_size,
            tx_ring_size,
            filling_ring_size,
            completion_ring_size,
        ),
        r.is_some() ==> exclusive(r.unwrap()@.nic, r.unwrap()@.pool.buffers),
{
    let mut pool: Pool = match Pool::create(
        chunk_size as usize,
        chunk_count as usize,
        filling_ring_size as usize,
        completion_ring_size as usize,
        false,
        region,
    ) {
        Err(_) => {
            return None;
        },
        Ok(pool) => pool,
    };
    let mut nic: Nic = match Nic::new(
        if_name.as_str(),
        interfaces,
        tx_ring_size as usize,
        rx_ring_size as usize,
    ) {
        Err(_) => {
            return None;
        },
        Ok(nic) => nic,
    };
    let _ = nic.open(&mut pool, OpenEvent::Start);
    match nic.open(&mut pool, OpenEvent::Socket(socket)) {
        OpenAction::Ready => Some(PvNic { if_name: if_name.clone(), nic, pool }),
        _ => None,
    }
}

/// Hands out a free chunk address, or `u64::MAX` where no chunk is free.
pub fn pv_alloc_(nic: &mut PvNic) -> (addr: u64)
    requires
        old(nic).wf(),
    ensures
        final(nic).wf(),
        old(nic)@.pool.buffers.free.len() == 0 ==> addr == u64::MAX && final(nic)@ == old(nic)@,
        old(nic)@.pool.buffers.free.len() > 0 ==> addr == old(nic)@.pool.buffers.free.last()
            && final(nic)@ == (PvNicView {
            pool: UmemView { buffers: old(nic)@.pool.buffers.taken(1), ..old(nic)@.pool },
            ..old(nic)@
        }),
{
    match nic.pool.alloc_addr() {
        Ok(addr) => addr,
        Err(_) => u64::MAX,
    }
}

/// Leases a free chunk to a new packet, or answers `None` where no chunk is
/// free.
pub fn pv_alloc(nic: &mut PvNic) -> (r: Option<PvPacket>)
    requires
        old(nic).wf(),
    ensures
        final(nic).wf(),
        old(nic)@.pool.buffers.free.len() == 0 ==> r.is_none() && final(nic)@ == old(nic)@,
        old(nic)@.pool.buffers.free.len() > 0 ==> r.is_some() && r.unwrap()@ == leased_packet(
            old(nic)@.pool.buffers,
            old(nic)@.pool.buffers.free.last(),
        ) && fits(final(nic)@.pool.buffers, r.unwrap()@) && final(nic)@ == (PvNicView {
            pool: UmemView { buffers: old(nic)@.pool.buffers.taken(1), ..old(nic)@.pool },
            ..old(nic)@
        }),
        exclusive(old(nic)@.nic, old(nic)@.pool.buffers) ==> exclusive(
            final(nic)@.nic,
            final(nic)@.pool.buffers,
        ) && (r.is_some() ==> leased_apart(
            seq![r.unwrap()@],
            final(nic)@.nic,
            final(nic)@.pool.buffers,
        )),
{
    match nic.nic.alloc_packet(&mut nic.pool) {
        None => None,
        Some(packet) => {
            let pv = packet_of(&packet);
            proof {
                assert(seq![pv@] =~= seq![packet@]);
            }
            Some(pv)
        },
    }
}

/// Hands a chunk back: the address is brought down to the start of its
/// chunk, which becomes free. An address outside the region and a chunk that
/// is free already change nothing.
pub fn pv_free_(nic: &mut PvNic, chunk_addr: u64)
    requires
        old(nic).wf(),
    ensures
        final(nic).wf(),
        final(nic)@ == (PvNicView {
            pool: UmemView { buffers: old(nic)@.pool.buffers.freed(chunk_addr), ..old(nic)@.pool },
            ..old(nic)@
        }),
{
    let buffers = nic.pool.buffers_mut();
    let _ = buffers.free_addr(chunk_addr);
}

/// Ends the lease of the packet at `index`: its chunk becomes free and the
/// packet leaves `packets`.
pub fn pv_free(nic: &mut PvNic, packets: &mut Vec<PvPacket>, index: usize)
    requires
        old(nic).wf(),
        index < old(packets)@.len(),
    ensures
        final(nic).wf(),
        final(packets)@ == old(packets)@.remove(index as int),
        final(nic)@ == (PvNicView {
            pool: UmemView {
                buffers: old(nic)@.pool.buffers.freed(old(packets)@[index as int].private),
                ..old(nic)@.pool
            },
            ..old(nic)@
        }),
{
    pv_free_(nic, packets[index].private);
    let _ = packets.remove(index);
}

/// Receives up to `batch_size` packets and appends them to `packets`, in
/// arrival order. The fill queue is refilled first with up to `batch_size`
/// free chunks. Answers how many packets were received.
pub fn pv_receive(nic: &mut PvNic, packets: &mut Vec<PvPacket>, batch_size: u32) -> (count: u32)
    requires
        old(nic).wf(),
    ensures
        final(nic).wf(),
        count == ready_count(old(nic)@.nic.rx, batch_size as nat),
        final(packets)@.len() == old(packets)@.len() + count,
        final(packets)@.take(old(packets)@.len() as int) == old(packets)@,
        forall|i: int|
            0 <= i < count ==> (#[trigger] final(packets)@[old(packets)@.len() + i])@ == received(
                old(nic)@.pool.buffers,
                old(nic)@.nic.rx.entries[i],
            ),
        final(nic)@ == (PvNicView {
            nic: after_receive(old(nic)@.nic, old(nic)@.pool, batch_size as nat).0,
            pool: after_receive(old(nic)@.nic, old(nic)@.pool, batch_size as nat).1,
            ..old(nic)@
        }),
        exclusive(old(nic)@.nic, old(nic)@.pool.buffers) ==> exclusive(
            final(nic)@.nic,
            final(nic)@.pool.buffers,
        ) && leased_apart(
            pv_views(final(packets)@.skip(old(packets)@.len() as int)),
            final(nic)@.nic,
            final(nic)@.pool.buffers,
        ),
{
    let got: Vec<Packet> = nic.nic.receive(&mut nic.pool, batch_size as usize);
    let n: usize = got.len();
    let mut i: usize = 0;
    while i < n
        invariant
            i <= n,
            n == got@.len(),
            n <= u32::MAX,
            old(nic)@.pool.buffers.wf(),
            packets@.len() == old(packets)@.len() + i,
            packets@.take(old(packets)@.len() as int) == old(packets)@,
            forall|j: int|
                0 <= j < n ==> (#[trigger] got@[j])@ == received(
                    old(nic)@.pool.buffers,
                    old(nic)@.nic.rx.entries[j],
                ) && fits(nic@.pool.buffers, got@[j]@),
            nic@.pool.buffers.chunk_size == old(nic)@.pool.buffers.chunk_size,
            forall|j: int|
                0 <= j < i ==> (#[trigger] packets@[old(packets)@.len() + j])@ == received(
                    old(nic)@.pool.buffers,
                    old(nic)@.nic.rx.entries[j],
                ),
            forall|j: int|
                0 <= j < i ==> (#[trigger] packets@[old(packets)@.len() + j])@ == got@[j]@,
        decreases n - i,
    {
        let ghost before = packets@;
        assert(fits(nic@.pool.buffers, got@[i as int]@));
        packets.push(packet_of(&got[i]));
        proof {
            assert(packets@.take(old(packets)@.len() as int) =~= before.take(
                old(packets)@.len() as int,
            ));
        }
        i = i + 1;
    }
    proof {
        let fresh = packets@.skip(old(packets)@.len() as int);
        assert forall|j: int| 0 <= j < n implies (#[trigger] fresh[j])@ == got@[j]@ by {
            assert(fresh[j] == packets@[old(packets)@.len() + j]);
        }
        assert(leases(pv_views(fresh)) =~= leases(crate::exchange::views(got@)));
    }
    n as u32
}

/// Sends the first `batch_size` packets of `packets`: all of them, in
/// order, or none. First the chunks that the kernel has finished sending go
/// back to the pool. Then, where the transmit ring has a free slot for each
/// of the packets, their bytes are written to their chunks, their
/// descriptors are submitted, and they leave `packets`; where it has not,
/// `packets` and the ring stay as they are. Answers how many packets were
/// handed to the kernel.
pub fn pv_send(nic: &mut PvNic, packets: &mut Vec<PvPacket>, batch_size: u32) -> (sent: u32)
    requires
        old(nic).wf(),
        batch_size <= old(packets)@.len(),
        forall|i: int|
            0 <= i < batch_size ==> fits(
                old(nic)@.pool.buffers,
                (#[trigger] old(packets)@[i])@,
            ),
    ensures
        final(nic).wf(),
        final(nic)@ == (PvNicView {
            nic: after_send(
                old(nic)@.nic,
                old(nic)@.pool,
                pv_views(old(packets)@.take(batch_size as int)),
            ).0,
            pool: after_send(
                old(nic)@.nic,
                old(nic)@.pool,
                pv_views(old(packets)@.take(batch_size as int)),
            ).1,
            ..old(nic)@
        }),
        can_send(old(nic)@.nic, batch_size as nat) ==> sent == batch_size && final(packets)@
            == old(packets)@.skip(batch_size as int),
        !can_send(old(nic)@.nic, batch_size as nat) ==> sent == 0
            && final(packets)@ == old(packets)@,
        exclusive(old(nic)@.nic, old(nic)@.pool.buffers) && leased_apart(
            pv_views(old(packets)@.take(batch_size as int)),
            old(nic)@.nic,
            old(nic)@.pool.buffers,
        ) && (forall|i: int|
            0 <= i < batch_size ==> (#[trigger] old(packets)@[i]).start < old(packets)@[i].size)
            ==> exclusive(final(nic)@.nic, final(nic)@.pool.buffers),
{
    let n: usize = batch_size as usize;
    let mut batch: Vec<Packet> = Vec::new();
    let mut i: usize = 0;
    while i < n
        invariant
            i <= n,
            n == batch_size,
            n <= packets@.len(),
            packets@ == old(packets)@,
            *nic == *old(nic),
            batch@.len() == i,
            forall|j: int|
                0 <= j < batch_size ==> fits(
                    old(nic)@.pool.buffers,
                    (#[trigger] old(packets)@[j])@,
                ),
            forall|j: int| 0 <= j < i ==> (#[trigger] batch@[j])@ == old(packets)@[j]@,
        decreases n - i,
    {
        assert(fits(old(nic)@.pool.buffers, old(packets)@[i as int]@));
        batch.push(lease_of(&packets[i]));
        i = i + 1;
    }
    proof {
        assert(crate::exchange::views(batch@) =~= pv_views(
            old(packets)@.take(batch_size as int),
        ));
    }
    let room: bool = n <= nic.nic.tx_free() as usize;
    let sent: usize = nic.nic.send(&mut nic.pool, &mut batch);
    if room {
        let rest: Vec<PvPacket> = packets.split_off(n);
        *packets = rest;
        proof {
            assert(packets@ =~= old(packets)@.skip(batch_size as int));
        }
    }
    sent as u32
}

/// Closes the interface and answers what remains to be deleted in the
/// kernel: the socket, and the region's registration with it.
pub fn pv_close(nic: PvNic) -> (action: CloseAction)
    requires
        nic.wf(),
    ensures
        action == (CloseAction { delete_socket: true, delete_region: nic@.pool.refcount <= 1 }),
{
    let mut nic = nic;
    nic.nic.close(&mut nic.pool)
}

/// The kernel's side: lands a frame from the wire in the chunk that the fill
/// queue offers first, behind the headroom, and queues a receive descriptor
/// for it. Where that cannot be, the frame is dropped and nothing changes.
/// Answers whether the frame landed.
pub fn pv_deliver(nic: &mut PvNic, frame: &Vec<u8>) -> (landed: bool)
    requires
        old(nic).wf(),
    ensures
        final(nic).wf(),
        landed == can_deliver(old(nic)@.nic, old(nic)@.pool.buffers, frame@.len()),
        final(nic)@ == (PvNicView {
            nic: after_deliver(old(nic)@.nic, old(nic)@.pool, frame@).0,
            pool: after_deliver(old(nic)@.nic, old(nic)@.pool, frame@).1,
            ..old(nic)@
        }),
{
    nic.nic.deliver(&mut nic.pool, frame)
}

/// The kernel's side: sends the oldest frame of the transmit ring and queues
/// its completion. Where that cannot be, nothing changes. Answers the frame
/// that went out.
pub fn pv_transmit(nic: &mut PvNic) -> (frame: Option<Vec<u8>>)
    requires
        old(nic).wf(),
    ensures
        final(nic).wf(),
        frame.is_some() == can_transmit(old(nic)@.nic, old(nic)@.pool.buffers),
        final(nic)@ == (PvNicView {
            nic: after_transmit(old(nic)@.nic, old(nic)@.pool.buffers),
            ..old(nic)@
        }),
        frame.is_some() ==> frame.unwrap()@ == old(nic)@.pool.buffers.memory.subrange(
            old(nic)@.nic.tx.published[0].addr as int,
            old(nic)@.nic.tx.published[0].addr + old(nic)@.nic.tx.published[0].len,
        ),
{
    nic.nic.transmit(&nic.pool)
}

} // verus!
