//! The binding of one network interface to the shared pool: its state, the
//! steps that open it, and the batch operations that move packets through
//! its rings.

use vstd::prelude::*;
use pnet::datalink::MacAddr;
use crate::chunk::{lemma_chunk_in_region, DEFAULT_HEADROOM};
use crate::exchange::{
    addresses, fill_count, fits, lemma_stored_packets_keeps_region, received, ready_count,
    reclaimed, stored_packets, tx_descriptor, tx_descriptors, valid_rx, views,
};
use crate::lease::{
    exclusive, leased_apart, leases, lemma_alloc_exclusive, lemma_deliver_exclusive,
    lemma_open_exclusive, lemma_receive_exclusive, lemma_send_exclusive,
    lemma_transmit_exclusive, received_chunks,
};
use crate::packet::{Packet, PacketView};
use crate::pool::{lemma_freed_all_keeps_region, PoolError, PoolView};
use crate::ring::{ConsumerRing, ConsumerView, Descriptor, ProducerRing, ProducerView};
use crate::umem::{
    attached, can_bind, empty_consumer, empty_producer, granted_cq, granted_fq, leased_packet,
    rebuild_error, rebuilt, refilled, Pool, Registration, UmemView,
};

verus! {

/// What identifies a network interface.
#[derive(Debug)]
pub struct Interface {
    /// The interface's name.
    pub name: String,
    /// The interface's index.
    pub index: u32,
    /// The hardware address, where the interface has one.
    pub mac: Option<MacAddr>,
    /// The assigned addresses, as text.
    pub ips: Vec<String>,
}

/// Why an interface could not be bound.
#[derive(Clone, Copy, Debug, PartialEq, Eq, Structural)]
pub enum NicError {
    /// No interface has the name.
    InterfaceNotFound,
    /// A ring size does not fit in 32 bits.
    InvalidRingSize,
    /// The pool takes no further binding.
    PoolBusy,
    /// The region's memory could not be reserved.
    AllocationError,
    /// The kernel refused to register the region.
    RegistrationError(i32),
    /// The kernel refused the socket in both modes.
    SocketError(i32),
    /// The event does not answer what the binding last asked for.
    OutOfTurn,
}

/// How the kernel moves frames between the interface and the region.
#[derive(Clone, Copy, Debug, PartialEq, Eq, Structural)]
pub enum XdpMode {
    /// In the driver, the fast way.
    Driver,
    /// In the generic network stack, the way that always exists.
    Generic,
}

/// Where a binding stands.
#[derive(Clone, Copy, Debug, PartialEq, Eq, Structural)]
pub enum NicState {
    /// Made, and nothing asked of the kernel yet.
    Unopened,
    /// Waiting for the socket in driver mode.
    Driver,
    /// Waiting for the region to be registered anew.
    Rebuilding,
    /// Waiting for the socket in generic mode.
    Generic,
    /// Bound: packets can be sent and received.
    Open,
    /// Closed for good.
    Closed,
}

/// What happened outside since the binding last asked for something.
#[derive(Clone, Copy, Debug, PartialEq, Eq, Structural)]
pub enum OpenEvent {
    /// Nothing yet: the opening begins.
    Start,
    /// The kernel answered the request for a socket with this code; 0 means
    /// that the socket exists.
    Socket(i32),
    /// The region was torn down and this came of registering it anew.
    Region(Registration),
}

/// What the binding asks for next.
#[derive(Clone, Copy, Debug, PartialEq, Eq, Structural)]
pub enum OpenAction {
    /// Ask the kernel for a socket in this mode, on the rings' sizes.
    CreateSocket(XdpMode),
    /// Tear the region's registration down, pause, and register it anew.
    RebuildRegion,
    /// Nothing: the binding is open.
    Ready,
    /// Nothing: the opening failed.
    Fail(NicError),
}

/// What remains to be deleted in the kernel after a binding was closed.
#[derive(Clone, Copy, Debug, PartialEq, Eq, Structural)]
pub struct CloseAction {
    /// The binding's socket.
    pub delete_socket: bool,
    /// The region's registration, which no binding uses any more.
    pub delete_region: bool,
}

/// What a binding in `state` does on `event`, given the pool's open bindings:
/// the state it moves to and what it asks for. The driver mode is tried
/// first and the generic mode once after it; before that retry the first
/// binding of a pool has the region registered anew.
pub open spec fn open_decision(state: NicState, event: OpenEvent, pool: UmemView) -> (
    NicState,
    OpenAction,
) {
    let refcount = pool.refcount;
    let bound = if can_bind(pool) {
        (NicState::Open, OpenAction::Ready)
    } else {
        (NicState::Closed, OpenAction::Fail(NicError::PoolBusy))
    };
    match (state, event) {
        (NicState::Unopened, OpenEvent::Start) => if can_bind(pool) {
            (NicState::Driver, OpenAction::CreateSocket(XdpMode::Driver))
        } else {
            (NicState::Closed, OpenAction::Fail(NicError::PoolBusy))
        },
        (NicState::Driver, OpenEvent::Socket(code)) => if code == 0 {
            bound
        } else if refcount == 0 {
            (NicState::Rebuilding, OpenAction::RebuildRegion)
        } else {
            (NicState::Generic, OpenAction::CreateSocket(XdpMode::Generic))
        },
        (NicState::Rebuilding, OpenEvent::Region(outcome)) => match rebuild_error(
            refcount,
            outcome,
        ) {
            None => (NicState::Generic, OpenAction::CreateSocket(XdpMode::Generic)),
            Some(e) => (NicState::Closed, OpenAction::Fail(pool_failure(e))),
        },
        (NicState::Generic, OpenEvent::Socket(code)) => if code == 0 {
            bound
        } else {
            (NicState::Closed, OpenAction::Fail(NicError::SocketError(code)))
        },
        _ => (state, OpenAction::Fail(NicError::OutOfTurn)),
    }
}

/// Whether a step from `before` to `after` is the one that opens a binding.
pub open spec fn opens(before: NicState, after: NicState) -> bool {
    before != NicState::Open && after == NicState::Open
}

/// The binding and the pool after a step of the opening. The step that
/// opens the binding gives it its fill and completion queues, the pool's own
/// for the pool's first binding, fills the fill queue from the pool, and
/// counts the binding; the step that follows a new registration finds the
/// pool as new; every other step changes the state alone.
pub open spec fn after_open(nic: NicView, pool: UmemView, event: OpenEvent) -> (
    NicView,
    UmemView,
) {
    let next = open_decision(nic.state, event, pool).0;
    if opens(nic.state, next) {
        (
            NicView {
                state: next,
                fq: refilled(granted_fq(pool), pool.buffers, pool.buffers.fq_size),
                cq: granted_cq(pool),
                ..nic
            },
            attached(pool, nic.fq, nic.cq),
        )
    } else if nic.state == NicState::Rebuilding && next == NicState::Generic {
        (NicView { state: next, ..nic }, rebuilt(pool))
    } else {
        (NicView { state: next, ..nic }, pool)
    }
}

/// The binding's error for a failure of the pool.
pub open spec fn pool_failure(e: PoolError) -> NicError {
    match e {
        PoolError::AllocationError => NicError::AllocationError,
        PoolError::RegistrationError(code) => NicError::RegistrationError(code),
        _ => NicError::PoolBusy,
    }
}

/// What closing a binding in `state` comes to, given the pool's open
/// bindings: the state, the pool's bindings afterwards, and what remains to
/// be deleted. Only an open binding has anything to delete.
pub open spec fn close_decision(state: NicState, refcount: nat) -> (NicState, nat, CloseAction) {
    if state == NicState::Open {
        (
            NicState::Closed,
            if refcount > 0 {
                (refcount - 1) as nat
            } else {
                0
            },
            CloseAction { delete_socket: true, delete_region: refcount <= 1 },
        )
    } else {
        (NicState::Closed, refcount, CloseAction { delete_socket: false, delete_region: false })
    }
}

/// Whether the kernel can land a frame of `len` bytes: the binding is open,
/// the fill queue offers a chunk of the region, the frame fits in that chunk
/// behind the headroom, and the receive ring has a free slot.
pub open spec fn can_deliver(nic: NicView, pool: PoolView, len: nat) -> bool {
    &&& nic.state == NicState::Open
    &&& nic.fq.published.len() > 0
    &&& nic.rx.entries.len() < nic.rx.capacity
    &&& pool.is_chunk(nic.fq.published[0].addr)
    &&& DEFAULT_HEADROOM + len <= pool.chunk_size
}

/// Whether the kernel can send the oldest frame of the transmit ring: the
/// binding is open, the ring holds a descriptor whose frame lies inside the
/// region, and the completion queue has a free slot.
pub open spec fn can_transmit(nic: NicView, pool: PoolView) -> bool {
    &&& nic.state == NicState::Open
    &&& nic.tx.published.len() > 0
    &&& nic.cq.entries.len() < nic.cq.capacity
    &&& nic.tx.published[0].addr + nic.tx.published[0].len <= pool.memory.len()
}

/// Whether a binding in `state` has never been open.
pub open spec fn pristine(state: NicState) -> bool {
    state == NicState::Unopened || state == NicState::Driver || state == NicState::Rebuilding
        || state == NicState::Generic
}

/// What a binding holds.
pub struct NicView {
    /// Where the binding stands.
    pub state: NicState,
    /// The receive ring.
    pub rx: ConsumerView,
    /// The transmit ring.
    pub tx: ProducerView,
    /// The fill queue.
    pub fq: ProducerView,
    /// The completion queue.
    pub cq: ConsumerView,
    /// Whether the kernel is to be woken for the fill queue.
    pub rx_wakeup: bool,
    /// Whether the kernel is to be woken for the transmit ring.
    pub tx_wakeup: bool,
}

impl NicView {
    /// The binding is consistent with a pool over `pool`: nothing is reserved
    /// or peeked in its rings, each ring lies within its capacity, every
    /// ready receive descriptor names a frame in a chunk of the pool's
    /// region, the queues of an open binding have the sizes that the pool
    /// registered, and the rings of a binding that has never been open hold
    /// nothing.
    pub open spec fn wf(self, pool: PoolView) -> bool {
        &&& self.fq.reserved.len() == 0
        &&& self.tx.reserved.len() == 0
        &&& self.rx.peeked == 0
        &&& self.cq.peeked == 0
        &&& self.fq.published.len() <= self.fq.capacity <= u32::MAX
        &&& self.tx.published.len() <= self.tx.capacity <= u32::MAX
        &&& self.rx.entries.len() <= self.rx.capacity <= u32::MAX
        &&& self.cq.entries.len() <= self.cq.capacity <= u32::MAX
        &&& forall|i: int|
            0 <= i < self.rx.entries.len() ==> valid_rx(pool, #[trigger] self.rx.entries[i])
        &&& self.state == NicState::Open ==> self.fq.capacity == pool.fq_size && self.cq.capacity
            == pool.cq_size
        &&& pristine(self.state) ==> self.fq.published.len() == 0 && self.tx.published.len() == 0
            && self.rx.entries.len() == 0 && self.cq.entries.len() == 0
    }
}

/// The binding and the pool after a receive of up to `len` packets: the fill
/// queue was refilled with up to `len` free chunks, the receive descriptors
/// that became packets have left the receive ring, and the request to wake
/// the kernel for the fill queue is noted. A binding that is not open
/// changes nothing.
pub open spec fn after_receive(nic: NicView, pool: UmemView, len: nat) -> (NicView, UmemView) {
    if nic.state != NicState::Open {
        (nic, pool)
    } else {
        (
            NicView {
                rx: ConsumerView {
                    entries: nic.rx.entries.skip(ready_count(nic.rx, len) as int),
                    ..nic.rx
                },
                fq: refilled(nic.fq, pool.buffers, len),
                rx_wakeup: nic.fq.wakeup,
                ..nic
            },
            UmemView {
                buffers: pool.buffers.taken(fill_count(pool.buffers, nic.fq, len)),
                ..pool
            },
        )
    }
}

/// Whether a send hands its packets over: the binding is open and the
/// transmit ring has a free slot for each packet.
pub open spec fn can_send(nic: NicView, count: nat) -> bool {
    nic.state == NicState::Open && count <= nic.tx.capacity - nic.tx.published.len()
}

/// The binding and the pool after a send of `packets`. An open binding has
/// reclaimed the completions and noted the transmit ring's request to wake
/// the kernel, whether or not it handed anything over. Where it could hand
/// the packets over, their bytes lie in the region and their descriptors
/// have joined the transmit ring in order. A binding that is not open
/// changes nothing.
pub open spec fn after_send(nic: NicView, pool: UmemView, packets: Seq<PacketView>) -> (
    NicView,
    UmemView,
) {
    if nic.state != NicState::Open {
        (nic, pool)
    } else {
        let cq = ConsumerView {
            entries: nic.cq.entries.skip(
                ready_count(nic.cq, pool.buffers.cq_size) as int,
            ),
            ..nic.cq
        };
        if can_send(nic, packets.len()) {
            (
                NicView {
                    cq,
                    tx: ProducerView {
                        published: nic.tx.published + tx_descriptors(packets),
                        ..nic.tx
                    },
                    tx_wakeup: nic.tx.wakeup,
                    ..nic
                },
                UmemView {
                    buffers: stored_packets(reclaimed(pool.buffers, nic.cq), packets),
                    ..pool
                },
            )
        } else {
            (
                NicView { cq, tx_wakeup: nic.tx.wakeup, ..nic },
                UmemView { buffers: reclaimed(pool.buffers, nic.cq), ..pool },
            )
        }
    }
}

/// The binding and the pool after the kernel landed `frame`, where it could:
/// the chunk that the fill queue offered first holds the frame behind its
/// headroom, and the frame's descriptor has joined the receive ring.
pub open spec fn after_deliver(nic: NicView, pool: UmemView, frame: Seq<u8>) -> (
    NicView,
    UmemView,
) {
    if !can_deliver(nic, pool.buffers, frame.len()) {
        (nic, pool)
    } else {
        (
            NicView {
                fq: ProducerView { published: nic.fq.published.drop_first(), ..nic.fq },
                rx: ConsumerView {
                    entries: nic.rx.entries.push(
                        Descriptor {
                            addr: (nic.fq.published[0].addr + DEFAULT_HEADROOM) as u64,
                            len: frame.len() as u32,
                        },
                    ),
                    ..nic.rx
                },
                ..nic
            },
            UmemView {
                buffers: pool.buffers.stored(
                    nic.fq.published[0].addr + DEFAULT_HEADROOM,
                    frame,
                ),
                ..pool
            },
        )
    }
}

/// The binding after the kernel sent the oldest frame of the transmit ring,
/// where it could: the frame's descriptor has left the ring and its address
/// has joined the completion queue.
pub open spec fn after_transmit(nic: NicView, pool: PoolView) -> NicView {
    if !can_transmit(nic, pool) {
        nic
    } else {
        NicView {
            tx: ProducerView { published: nic.tx.published.drop_first(), ..nic.tx },
            cq: ConsumerView {
                entries: nic.cq.entries.push(
                    Descriptor { addr: nic.tx.published[0].addr, len: 0 },
                ),
                ..nic.cq
            },
            ..nic
        }
    }
}

/// The binding of one interface to the shared pool.
#[derive(Debug)]
pub struct Nic {
    interface: Interface,
    state: NicState,
    rxq: ConsumerRing,
    txq: ProducerRing,
    umem_fq: ProducerRing,
    umem_cq: ConsumerRing,
    rx_wakeup: bool,
    tx_wakeup: bool,
}

impl View for Nic {
    type V = NicView;

    closed spec fn view(&self) -> NicView {
        NicView {
            state: self.state,
            rx: self.rxq@,
            tx: self.txq@,
            fq: self.umem_fq@,
            cq: self.umem_cq@,
            rx_wakeup: self.rx_wakeup,
            tx_wakeup: self.tx_wakeup,
        }
    }
}

/// The position of the first interface of `interfaces` that is named `name`.
pub fn find_interface(interfaces: &Vec<Interface>, name: &str) -> (found: Option<usize>)
    ensures
        match found {
            Some(i) => i < interfaces@.len() && interfaces@[i as int].name@ == name@ && forall|
                j: int,
            |
                0 <= j < i ==> (#[trigger] interfaces@[j]).name@ != name@,
            None => forall|j: int|
                0 <= j < interfaces@.len() ==> (#[trigger] interfaces@[j]).name@ != name@,
        },
{
    let wanted: String = name.to_owned();
    let mut i: usize = 0;
    while i < interfaces.len()
        invariant
            i <= interfaces@.len(),
            wanted@ == name@,
            forall|j: int| 0 <= j < i ==> (#[trigger] interfaces@[j]).name@ != name@,
        decreases interfaces@.len() - i,
    {
        if interfaces[i].name.eq(&wanted) {
            return Some(i);
        }
        i = i + 1;
    }
    None
}

impl Nic {
    /// The rings are consistent.
    pub closed spec fn inv(&self) -> bool {
        &&& self.rxq.wf()
        &&& self.txq.wf()
        &&& self.umem_fq.wf()
        &&& self.umem_cq.wf()
    }

    /// The binding is consistent with a pool over `pool`.
    pub open spec fn wf(&self, pool: PoolView) -> bool {
        self.inv() && self@.wf(pool)
    }

    /// The interface that the binding is for.
    pub closed spec fn interface_spec(&self) -> Interface {
        self.interface
    }

    /// A binding for the first interface of `interfaces` that is named
    /// `if_name`, with a transmit ring of `tx_size` and a receive ring of
    /// `rx_size` slots. It is not open yet.
    pub fn new(if_name: &str, interfaces: Vec<Interface>, tx_size: usize, rx_size: usize) -> (r:
        Result<Nic, NicError>)
        ensures
            (forall|j: int|
                0 <= j < interfaces@.len() ==> (#[trigger] interfaces@[j]).name@ != if_name@)
                ==> r == Err::<Nic, NicError>(NicError::InterfaceNotFound),
            (exists|j: int| 0 <= j < interfaces@.len() && (#[trigger] interfaces@[j]).name@
                == if_name@) && (tx_size > u32::MAX || rx_size > u32::MAX) ==> r == Err::<
                Nic,
                NicError,
            >(NicError::InvalidRingSize),
            (exists|j: int| 0 <= j < interfaces@.len() && (#[trigger] interfaces@[j]).name@
                == if_name@) && tx_size <= u32::MAX && rx_size <= u32::MAX ==> {
                &&& r.is_ok()
                &&& r.unwrap()@ == (NicView {
                    state: NicState::Unopened,
                    rx: empty_consumer(rx_size as nat),
                    tx: empty_producer(tx_size as nat),
                    fq: empty_producer(0),
                    cq: empty_consumer(0),
                    rx_wakeup: false,
                    tx_wakeup: false,
                })
                &&& r.unwrap().inv()
                &&& r.unwrap().interface_spec().name@ == if_name@
                &&& exists|j: int|
                    0 <= j < interfaces@.len() && #[trigger] interfaces@[j]
                        == r.unwrap().interface_spec() && forall|k: int|
                        0 <= k < j ==> (#[trigger] interfaces@[k]).name@ != if_name@
            },
    {
        let mut interfaces = interfaces;
        let at: usize = match find_interface(&interfaces, if_name) {
            None => {
                return Err(NicError::InterfaceNotFound);
            },
            Some(i) => i,
        };
        if tx_size > u32::MAX as usize || rx_size > u32::MAX as usize {
            return Err(NicError::InvalidRingSize);
        }
        let ghost all = interfaces@;
        let interface: Interface = interfaces.remove(at);
        let rxq = ConsumerRing::new(rx_size as u32);
        let txq = ProducerRing::new(tx_size as u32);
        let umem_fq = ProducerRing::new(0);
        let umem_cq = ConsumerRing::new(0);
        proof {
            assert(all[at as int] == interface);
        }
        Ok(
            Nic {
                interface,
                state: NicState::Unopened,
                rxq,
                txq,
                umem_fq,
                umem_cq,
                rx_wakeup: false,
                tx_wakeup: false,
            },
        )
    }

    /// The interface that the binding is for.
    pub fn interface(&self) -> (interface: &Interface)
        ensures
            *interface == self.interface_spec(),
    {
        &self.interface
    }

    /// Where the binding stands.
    pub fn state(&self) -> (state: NicState)
        ensures
            state == self@.state,
    {
        self.state
    }

    /// Whether the kernel is to be woken for the fill queue: the last
    /// receive found the queue asking for it.
    pub fn rx_wakeup_due(&self) -> (due: bool)
        ensures
            due == self@.rx_wakeup,
    {
        self.rx_wakeup
    }

    /// Whether the kernel is to be woken for the transmit ring: the last
    /// send found the ring asking for it.
    pub fn tx_wakeup_due(&self) -> (due: bool)
        ensures
            due == self@.tx_wakeup,
    {
        self.tx_wakeup
    }

    /// Takes the binding one step further towards open: given what happened
    /// outside, moves to the next state and answers what to do next. The
    /// step that opens the binding takes the pool's fill and completion
    /// queues where the binding is the pool's first, and queues of its own
    /// otherwise, fills the fill queue from the pool as far as its capacity
    /// and the free chunks allow, and counts the binding in the pool.
    pub fn open(&mut self, pool: &mut Pool, event: OpenEvent) -> (action: OpenAction)
        requires
            old(pool).wf(),
            old(self).wf(old(pool)@.buffers),
        ensures
            final(pool).wf(),
            final(self).wf(final(pool)@.buffers),
            action == open_decision(old(self)@.state, event, old(pool)@).1,
            (final(self)@, final(pool)@) == after_open(old(self)@, old(pool)@, event),
            final(self).interface_spec() == old(self).interface_spec(),
            opens(old(self)@.state, final(self)@.state) ==> exclusive(
                final(self)@,
                final(pool)@.buffers,
            ),
    {
        let action: OpenAction = match (self.state, event) {
            (NicState::Unopened, OpenEvent::Start) => {
                if pool.takes_binding() {
                    self.state = NicState::Driver;
                    OpenAction::CreateSocket(XdpMode::Driver)
                } else {
                    self.state = NicState::Closed;
                    OpenAction::Fail(NicError::PoolBusy)
                }
            },
            (NicState::Driver, OpenEvent::Socket(code)) => {
                if code == 0 {
                    self.bind(pool)
                } else if pool.refcount() == 0 {
                    self.state = NicState::Rebuilding;
                    OpenAction::RebuildRegion
                } else {
                    self.state = NicState::Generic;
                    OpenAction::CreateSocket(XdpMode::Generic)
                }
            },
            (NicState::Rebuilding, OpenEvent::Region(outcome)) => {
                match pool.re_init(outcome) {
                    Ok(()) => {
                        self.state = NicState::Generic;
                        OpenAction::CreateSocket(XdpMode::Generic)
                    },
                    Err(e) => {
                        self.state = NicState::Closed;
                        let cause: NicError = match e {
                            PoolError::AllocationError => NicError::AllocationError,
                            PoolError::RegistrationError(code) => NicError::RegistrationError(code),
                            _ => NicError::PoolBusy,
                        };
                        OpenAction::Fail(cause)
                    },
                }
            },
            (NicState::Generic, OpenEvent::Socket(code)) => {
                if code == 0 {
                    self.bind(pool)
                } else {
                    self.state = NicState::Closed;
                    OpenAction::Fail(NicError::SocketError(code))
                }
            },
            _ => OpenAction::Fail(NicError::OutOfTurn),
        };
        proof {
            if opens(old(self)@.state, self@.state) {
                lemma_open_exclusive(old(self)@, old(pool)@, event);
            }
        }
        action
    }

    fn bind(&mut self, pool: &mut Pool) -> (action: OpenAction)
        requires
            old(pool).wf(),
            old(self).wf(old(pool)@.buffers),
        ensures
            final(pool).wf(),
            final(self).wf(final(pool)@.buffers),
            final(self).interface_spec() == old(self).interface_spec(),
            !can_bind(old(pool)@) ==> action == OpenAction::Fail(
                NicError::PoolBusy,
            ) && final(pool)@ == old(pool)@ && final(self)@ == (NicView {
                state: NicState::Closed,
                ..old(self)@
            }),
            can_bind(old(pool)@) ==> {
                &&& action == OpenAction::Ready
                &&& final(self)@ == (NicView {
                    state: NicState::Open,
                    fq: refilled(
                        granted_fq(old(pool)@),
                        old(pool)@.buffers,
                        old(pool)@.buffers.fq_size,
                    ),
                    cq: granted_cq(old(pool)@),
                    ..old(self)@
                })
                &&& final(pool)@ == attached(old(pool)@, old(self)@.fq, old(self)@.cq)
            },
    {
        if !pool.takes_binding() {
            self.state = NicState::Closed;
            return OpenAction::Fail(NicError::PoolBusy);
        }
        pool.attach(&mut self.umem_fq, &mut self.umem_cq);
        self.state = NicState::Open;
        OpenAction::Ready
    }

    /// Closes the binding and answers what remains to be deleted in the
    /// kernel. An open binding leaves the pool's count; closing any other
    /// binding, a closed one too, deletes nothing and leaves the pool as it
    /// is.
    pub fn close(&mut self, pool: &mut Pool) -> (action: CloseAction)
        requires
            old(pool).wf(),
            old(self).wf(old(pool)@.buffers),
        ensures
            final(pool).wf(),
            final(self).wf(final(pool)@.buffers),
            final(self).interface_spec() == old(self).interface_spec(),
            (final(self)@.state, final(pool)@.refcount, action) == close_decision(
                old(self)@.state,
                old(pool)@.refcount,
            ),
            final(self)@ == (NicView { state: NicState::Closed, ..old(self)@ }),
            final(pool)@ == (UmemView {
                refcount: final(pool)@.refcount,
                registered: old(pool)@.registered && !action.delete_region,
                ..old(pool)@
            }),
    {
        if self.state == NicState::Open {
            self.state = NicState::Closed;
            let last: bool = pool.detach();
            CloseAction { delete_socket: true, delete_region: last }
        } else {
            self.state = NicState::Closed;
            CloseAction { delete_socket: false, delete_region: false }
        }
    }
    /// Leases a free chunk of the pool to a new packet, or answers `None`
    /// where no chunk is free.
    pub fn alloc_packet(&self, pool: &mut Pool) -> (r: Option<Packet>)
        requires
            old(pool).wf(),
        ensures
            final(pool).wf(),
            old(pool)@.buffers.free.len() == 0 ==> r.is_none() && final(pool)@ == old(pool)@,
            old(pool)@.buffers.free.len() > 0 ==> r.is_some() && r.unwrap()@ == leased_packet(
                old(pool)@.buffers,
                old(pool)@.buffers.free.last(),
            ) && fits(final(pool)@.buffers, r.unwrap()@) && final(pool)@ == (UmemView {
                buffers: old(pool)@.buffers.taken(1),
                ..old(pool)@
            }),
            exclusive(self@, old(pool)@.buffers) ==> exclusive(self@, final(pool)@.buffers) && (
            r.is_some() ==> leased_apart(seq![r.unwrap()@], self@, final(pool)@.buffers)),
    {
        let r = pool.try_alloc_packet();
        proof {
            if exclusive(self@, old(pool)@.buffers) && old(pool)@.buffers.free.len() > 0 {
                lemma_alloc_exclusive(self@, old(pool)@.buffers);
            }
        }
        r
    }

    /// Receives up to `len` packets. First the fill queue is refilled with up
    /// to `len` free chunks; then each ready receive descriptor, up to `len`
    /// of them and in arrival order, becomes a packet on the chunk that
    /// holds the frame, and its slot is released. Fewer packets than `len`,
    /// or none, is no error. A binding that is not open receives nothing.
    pub fn receive(&mut self, pool: &mut Pool, len: usize) -> (packets: Vec<Packet>)
        requires
            old(pool).wf(),
            old(self).wf(old(pool)@.buffers),
        ensures
            final(pool).wf(),
            final(self).wf(final(pool)@.buffers),
            final(self).interface_spec() == old(self).interface_spec(),
            (final(self)@, final(pool)@) == after_receive(old(self)@, old(pool)@, len as nat),
            old(self)@.state != NicState::Open ==> packets@.len() == 0,
            old(self)@.state == NicState::Open ==> packets@.len() == ready_count(
                old(self)@.rx,
                len as nat,
            ),
            forall|i: int|
                0 <= i < packets@.len() ==> (#[trigger] packets@[i])@ == received(
                    old(pool)@.buffers,
                    old(self)@.rx.entries[i],
                ) && fits(final(pool)@.buffers, packets@[i]@),
            exclusive(old(self)@, old(pool)@.buffers) ==> exclusive(
                final(self)@,
                final(pool)@.buffers,
            ) && leased_apart(views(packets@), final(self)@, final(pool)@.buffers),
    {
        if self.state != NicState::Open {
            let none: Vec<Packet> = Vec::new();
            proof {
                assert(leases(views(none@)) =~= Seq::<u64>::empty());
            }
            return none;
        }
        let buffers = pool.buffers_mut();
        let packets: Vec<Packet> = buffers.recv(len, &mut self.rxq, &mut self.umem_fq);
        self.rx_wakeup = self.umem_fq.needs_wakeup();
        proof {
            assert forall|i: int| 0 <= i < packets@.len() implies fits(
                pool@.buffers,
                (#[trigger] packets@[i])@,
            ) by {
                let desc = old(self)@.rx.entries[i];
                assert(valid_rx(old(pool)@.buffers, desc));
                assert(packets@[i]@ == received(old(pool)@.buffers, desc));
                lemma_chunk_in_region(
                    desc.addr - DEFAULT_HEADROOM,
                    old(pool)@.buffers.chunk_size as int,
                    old(pool)@.buffers.chunk_count as int,
                );
            }
            assert forall|i: int| 0 <= i < self@.rx.entries.len() implies valid_rx(
                pool@.buffers,
                #[trigger] self@.rx.entries[i],
            ) by {
                assert(valid_rx(
                    old(pool)@.buffers,
                    old(self)@.rx.entries[i + packets@.len()],
                ));
            }
            if exclusive(old(self)@, old(pool)@.buffers) {
                lemma_receive_exclusive(old(self)@, old(pool)@, len as nat);
                assert(leases(views(packets@)) =~= received_chunks(
                    old(self)@,
                    old(pool)@.buffers,
                    len as nat,
                ));
            }
        }
        packets
    }

    /// Sends `packets`: all of them, in order, or none. First the chunks that
    /// the kernel has finished sending go back to the pool. Then, where the
    /// transmit ring has a free slot for every packet, each packet's bytes
    /// are written to its chunk, its descriptor is submitted, and the packet
    /// leaves `packets`; where it has not, `packets` and the ring stay as
    /// they are. Answers how many packets were handed to the kernel. A
    /// binding that is not open sends nothing.
    pub fn send(&mut self, pool: &mut Pool, packets: &mut Vec<Packet>) -> (sent: usize)
        requires
            old(pool).wf(),
            old(self).wf(old(pool)@.buffers),
            forall|i: int|
                0 <= i < old(packets)@.len() ==> fits(
                    old(pool)@.buffers,
                    (#[trigger] old(packets)@[i])@,
                ),
        ensures
            final(pool).wf(),
            final(self).wf(final(pool)@.buffers),
            final(self).interface_spec() == old(self).interface_spec(),
            (final(self)@, final(pool)@) == after_send(
                old(self)@,
                old(pool)@,
                views(old(packets)@),
            ),
            can_send(old(self)@, old(packets)@.len()) ==> sent == old(packets)@.len()
                && final(packets)@.len() == 0,
            !can_send(old(self)@, old(packets)@.len()) ==> sent == 0
                && final(packets)@ == old(packets)@,
            exclusive(old(self)@, old(pool)@.buffers) && leased_apart(
                views(old(packets)@),
                old(self)@,
                old(pool)@.buffers,
            ) && (forall|i: int|
                0 <= i < old(packets)@.len() ==> (#[trigger] old(packets)@[i])@.start < old(
                    packets,
                )@[i]@.buffer_size) ==> exclusive(final(self)@, final(pool)@.buffers),
    {
        if self.state != NicState::Open {
            return 0;
        }
        let room: bool = packets.len() <= self.txq.free_slots() as usize;
        let buffers = pool.buffers_mut();
        let sent: usize = buffers.send(packets, &mut self.txq, &mut self.umem_cq);
        self.tx_wakeup = self.txq.needs_wakeup();
        proof {
            lemma_freed_all_keeps_region(
                old(pool)@.buffers,
                addresses(
                    old(self)@.cq.entries.take(
                        ready_count(old(self)@.cq, old(pool)@.buffers.cq_size) as int,
                    ),
                ),
            );
            if room {
                lemma_stored_packets_keeps_region(
                    reclaimed(old(pool)@.buffers, old(self)@.cq),
                    views(old(packets)@),
                );
            }
            if exclusive(old(self)@, old(pool)@.buffers) && leased_apart(
                views(old(packets)@),
                old(self)@,
                old(pool)@.buffers,
            ) && (forall|i: int|
                0 <= i < old(packets)@.len() ==> (#[trigger] old(packets)@[i])@.start < old(
                    packets,
                )@[i]@.buffer_size) {
                lemma_send_exclusive(old(self)@, old(pool)@, views(old(packets)@));
            }
        }
        sent
    }

    /// The kernel's side: asks to be woken, or no longer, after submissions
    /// to the fill queue and to the transmit ring.
    pub fn request_wakeup(&mut self, fill: bool, transmit: bool)
        requires
            old(self).inv(),
        ensures
            final(self).inv(),
            forall|pool: PoolView| old(self).wf(pool) ==> final(self).wf(pool),
            final(self).interface_spec() == old(self).interface_spec(),
            final(self)@ == (NicView {
                fq: ProducerView { wakeup: fill, ..old(self)@.fq },
                tx: ProducerView { wakeup: transmit, ..old(self)@.tx },
                ..old(self)@
            }),
    {
        self.umem_fq.set_needs_wakeup(fill);
        self.txq.set_needs_wakeup(transmit);
    }

    /// The kernel's side: lands a frame from the wire. The frame goes into
    /// the chunk that the fill queue offers first, behind the headroom, and
    /// a receive descriptor for it joins the receive ring. Where that cannot
    /// be, the frame is dropped and nothing changes. Answers whether the
    /// frame landed.
    pub fn deliver(&mut self, pool: &mut Pool, frame: &Vec<u8>) -> (landed: bool)
        requires
            old(pool).wf(),
            old(self).wf(old(pool)@.buffers),
        ensures
            final(pool).wf(),
            final(self).wf(final(pool)@.buffers),
            final(self).interface_spec() == old(self).interface_spec(),
            landed == can_deliver(old(self)@, old(pool)@.buffers, frame@.len()),
            (final(self)@, final(pool)@) == after_deliver(old(self)@, old(pool)@, frame@),
            exclusive(old(self)@, old(pool)@.buffers) ==> exclusive(
                final(self)@,
                final(pool)@.buffers,
            ),
    {
        proof {
            if exclusive(old(self)@, old(pool)@.buffers) {
                lemma_deliver_exclusive(old(self)@, old(pool)@, frame@);
            }
        }
        if self.state != NicState::Open {
            return false;
        }
        let chunk: u64 = match self.umem_fq.oldest() {
            None => {
                return false;
            },
            Some(desc) => desc.addr,
        };
        if self.rxq.filled() >= self.rxq.capacity() {
            return false;
        }
        let chunk_size: usize = pool.buffers().chunk_size();
        if !pool.buffers().is_chunk(chunk) || frame.len() > chunk_size || DEFAULT_HEADROOM
            > chunk_size - frame.len() {
            return false;
        }
        proof {
            lemma_chunk_in_region(
                chunk as int,
                pool@.buffers.chunk_size as int,
                pool@.buffers.chunk_count as int,
            );
        }
        let at: u64 = chunk + DEFAULT_HEADROOM as u64;
        let desc = Descriptor { addr: at, len: frame.len() as u32 };
        let _ = self.umem_fq.consume();
        let buffers = pool.buffers_mut();
        buffers.store(at, frame);
        let _ = self.rxq.produce(desc);
        proof {
            assert forall|i: int| 0 <= i < self@.rx.entries.len() implies valid_rx(
                pool@.buffers,
                #[trigger] self@.rx.entries[i],
            ) by {
                if i < old(self)@.rx.entries.len() {
                    assert(valid_rx(old(pool)@.buffers, old(self)@.rx.entries[i]));
                }
            }
        }
        true
    }

    /// The kernel's side: sends the oldest frame of the transmit ring. The
    /// frame's bytes are read from the region, and the frame's address joins
    /// the completion queue. Where that cannot be, nothing changes. Answers
    /// the frame that went out.
    pub fn transmit(&mut self, pool: &Pool) -> (frame: Option<Vec<u8>>)
        requires
            pool.wf(),
            old(self).wf(pool@.buffers),
        ensures
            final(self).wf(pool@.buffers),
            final(self).interface_spec() == old(self).interface_spec(),
            frame.is_some() == can_transmit(old(self)@, pool@.buffers),
            final(self)@ == after_transmit(old(self)@, pool@.buffers),
            exclusive(old(self)@, pool@.buffers) ==> exclusive(final(self)@, pool@.buffers),
            frame.is_some() ==> frame.unwrap()@ == pool@.buffers.memory.subrange(
                old(self)@.tx.published[0].addr as int,
                old(self)@.tx.published[0].addr + old(self)@.tx.published[0].len,
            ),
    {
        proof {
            if exclusive(old(self)@, pool@.buffers) {
                lemma_transmit_exclusive(old(self)@, pool@.buffers);
            }
        }
        if self.state != NicState::Open {
            return None;
        }
        let desc: Descriptor = match self.txq.oldest() {
            None => {
                return None;
            },
            Some(desc) => desc,
        };
        if self.umem_cq.filled() >= self.umem_cq.capacity() {
            return None;
        }
        let total: usize = pool.buffers().region_len();
        if desc.len as usize > total || desc.addr > (total - desc.len as usize) as u64 {
            return None;
        }
        let bytes: Vec<u8> = pool.buffers().load(desc.addr, desc.len as usize);
        let _ = self.txq.consume();
        let _ = self.umem_cq.produce(Descriptor { addr: desc.addr, len: 0 });
        Some(bytes)
    }

    /// The kernel's side: takes the chunk that the fill queue offers first.
    /// Answers its address, or `None` where the binding is not open or the
    /// queue offers nothing.
    pub fn take_fill(&mut self) -> (taken: Option<u64>)
        requires
            old(self).inv(),
        ensures
            final(self).inv(),
            forall|pool: PoolView| old(self).wf(pool) ==> final(self).wf(pool),
            final(self).interface_spec() == old(self).interface_spec(),
            old(self)@.state == NicState::Open && old(self)@.fq.published.len() > 0 ==> taken
                == Some(old(self)@.fq.published[0].addr) && final(self)@ == (NicView {
                fq: ProducerView {
                    published: old(self)@.fq.published.drop_first(),
                    ..old(self)@.fq
                },
                ..old(self)@
            }),
            !(old(self)@.state == NicState::Open && old(self)@.fq.published.len() > 0)
                ==> taken.is_none() && final(self)@ == old(self)@,
    {
        if self.state != NicState::Open {
            return None;
        }
        match self.umem_fq.consume() {
            None => None,
            Some(desc) => Some(desc.addr),
        }
    }

    /// The kernel's side: lands a frame at `addr` in the region and queues a
    /// receive descriptor for it. The frame must lie behind the headroom of
    /// one chunk and end inside it, and the receive ring must have a free
    /// slot; else the frame is dropped and nothing changes. Answers whether
    /// the frame landed.
    pub fn land(&mut self, pool: &mut Pool, addr: u64, frame: &Vec<u8>) -> (landed: bool)
        requires
            old(pool).wf(),
            old(self).wf(old(pool)@.buffers),
        ensures
            final(pool).wf(),
            final(self).wf(final(pool)@.buffers),
            final(self).interface_spec() == old(self).interface_spec(),
            landed == (old(self)@.state == NicState::Open && old(self)@.rx.entries.len() < old(
                self,
            )@.rx.capacity && frame@.len() <= u32::MAX && valid_rx(
                old(pool)@.buffers,
                Descriptor { addr, len: frame@.len() as u32 },
            )),
            !landed ==> final(self)@ == old(self)@ && final(pool)@ == old(pool)@,
            landed ==> final(self)@ == (NicView {
                rx: ConsumerView {
                    entries: old(self)@.rx.entries.push(
                        Descriptor { addr, len: frame@.len() as u32 },
                    ),
                    ..old(self)@.rx
                },
                ..old(self)@
            }) && final(pool)@ == (UmemView {
                buffers: old(pool)@.buffers.stored(addr as int, frame@),
                ..old(pool)@
            }),
    {
        if self.state != NicState::Open {
            return false;
        }
        if self.rxq.filled() >= self.rxq.capacity() {
            return false;
        }
        let chunk_size: usize = pool.buffers().chunk_size();
        if addr < DEFAULT_HEADROOM as u64 || frame.len() > chunk_size || DEFAULT_HEADROOM
            > chunk_size - frame.len() {
            return false;
        }
        let chunk: u64 = addr - DEFAULT_HEADROOM as u64;
        if !pool.buffers().is_chunk(chunk) {
            return false;
        }
        proof {
            lemma_chunk_in_region(
                chunk as int,
                pool@.buffers.chunk_size as int,
                pool@.buffers.chunk_count as int,
            );
        }
        let desc = Descriptor { addr, len: frame.len() as u32 };
        let buffers = pool.buffers_mut();
        buffers.store(addr, frame);
        let _ = self.rxq.produce(desc);
        proof {
            assert forall|i: int| 0 <= i < self@.rx.entries.len() implies valid_rx(
                pool@.buffers,
                #[trigger] self@.rx.entries[i],
            ) by {
                if i < old(self)@.rx.entries.len() {
                    assert(valid_rx(old(pool)@.buffers, old(self)@.rx.entries[i]));
                }
            }
        }
        true
    }

    /// The kernel's side: takes the oldest descriptor of the transmit ring
    /// and the frame that it names. Answers `None`, and changes nothing,
    /// where the binding is not open, the ring is empty, or the frame does
    /// not lie inside the region.
    pub fn take_transmit(&mut self, pool: &Pool) -> (taken: Option<(Descriptor, Vec<u8>)>)
        requires
            pool.wf(),
            old(self).wf(pool@.buffers),
        ensures
            final(self).wf(pool@.buffers),
            final(self).interface_spec() == old(self).interface_spec(),
            taken.is_some() == (old(self)@.state == NicState::Open && old(self)@.tx.published.len()
                > 0 && old(self)@.tx.published[0].addr + old(self)@.tx.published[0].len
                <= pool@.buffers.memory.len()),
            taken.is_none() ==> final(self)@ == old(self)@,
            taken.is_some() ==> taken.unwrap().0 == old(self)@.tx.published[0]
                && taken.unwrap().1@ == pool@.buffers.memory.subrange(
                old(self)@.tx.published[0].addr as int,
                old(self)@.tx.published[0].addr + old(self)@.tx.published[0].len,
            ) && final(self)@ == (NicView {
                tx: ProducerView {
                    published: old(self)@.tx.published.drop_first(),
                    ..old(self)@.tx
                },
                ..old(self)@
            }),
    {
        if self.state != NicState::Open {
            return None;
        }
        let desc: Descriptor = match self.txq.oldest() {
            None => {
                return None;
            },
            Some(desc) => desc,
        };
        let total: usize = pool.buffers().region_len();
        if desc.len as usize > total || desc.addr > (total - desc.len as usize) as u64 {
            return None;
        }
        let bytes: Vec<u8> = pool.buffers().load(desc.addr, desc.len as usize);
        let _ = self.txq.consume();
        Some((desc, bytes))
    }

    /// The kernel's side: queues the completion of the frame at `addr`.
    /// Answers whether it did: the binding must be open and the completion
    /// queue must have a free slot.
    pub fn complete(&mut self, addr: u64) -> (done: bool)
        requires
            old(self).inv(),
        ensures
            final(self).inv(),
            forall|pool: PoolView| old(self).wf(pool) ==> final(self).wf(pool),
            final(self).interface_spec() == old(self).interface_spec(),
            done == (old(self)@.state == NicState::Open && old(self)@.cq.entries.len() < old(
                self,
            )@.cq.capacity),
            !done ==> final(self)@ == old(self)@,
            done ==> final(self)@ == (NicView {
                cq: ConsumerView {
                    entries: old(self)@.cq.entries.push(Descriptor { addr, len: 0 }),
                    ..old(self)@.cq
                },
                ..old(self)@
            }),
    {
        if self.state != NicState::Open {
            return false;
        }
        self.umem_cq.produce(Descriptor { addr, len: 0 })
    }

    /// Number of chunks that the fill queue offers to the kernel.
    pub fn fill_pending(&self) -> (n: u32)
        requires
            self.inv(),
        ensures
            n == self@.fq.published.len(),
    {
        self.umem_fq.pending()
    }

    /// Number of frames that wait in the receive ring.
    pub fn rx_ready(&self) -> (n: u32)
        requires
            self.inv(),
        ensures
            n == self@.rx.entries.len(),
    {
        self.rxq.filled()
    }

    /// Number of frames that wait in the transmit ring for the kernel.
    pub fn tx_pending(&self) -> (n: u32)
        requires
            self.inv(),
        ensures
            n == self@.tx.published.len(),
    {
        self.txq.pending()
    }

    /// Number of free slots of the transmit ring.
    pub fn tx_free(&self) -> (n: u32)
        requires
            self.inv(),
        ensures
            n == self@.tx.capacity - self@.tx.published.len() - self@.tx.reserved.len(),
    {
        self.txq.free_slots()
    }

    /// Number of completions that wait to be reclaimed.
    pub fn completions_ready(&self) -> (n: u32)
        requires
            self.inv(),
        ensures
            n == self@.cq.entries.len(),
    {
        self.umem_cq.filled()
    }
}

/// Closing is idempotent: to close a binding that was closed before deletes
/// nothing and changes neither the binding nor the pool's count.
pub proof fn lemma_close_idempotent(state: NicState, refcount: nat)
    ensures
        ({
            let (closed, left, _) = close_decision(state, refcount);
            close_decision(closed, left) == (
                closed,
                left,
                CloseAction { delete_socket: false, delete_region: false },
            )
        }),
        close_decision(state, refcount).0 == NicState::Closed,
{
}

/// No step leads out of the closed state, and none into the open state but
/// the kernel's word that the socket exists.
pub proof fn lemma_open_transitions(state: NicState, event: OpenEvent, pool: UmemView)
    ensures
        state == NicState::Closed ==> open_decision(state, event, pool).0 == NicState::Closed,
        state == NicState::Open ==> open_decision(state, event, pool) == (
            NicState::Open,
            OpenAction::Fail(NicError::OutOfTurn),
        ),
        open_decision(state, event, pool).0 == NicState::Open && state != NicState::Open ==> event
            == OpenEvent::Socket(0) && (state == NicState::Driver || state == NicState::Generic)
            && can_bind(pool),
{
}

/// Balance of a receive: an open binding returns as many packets as receive
/// descriptors were ready, up to `len`; and the fill queue gains exactly the
/// chunks that leave the pool's free stack, which no other part of the pool
/// or the binding gains or loses.
pub proof fn lemma_receive_balance(nic: NicView, pool: UmemView, len: nat)
    requires
        nic.state == NicState::Open,
        nic.rx.peeked == 0,
        nic.fq.published.len() + nic.fq.reserved.len() <= nic.fq.capacity,
    ensures
        nic.rx.entries.len() <= len && len <= u32::MAX ==> ready_count(nic.rx, len)
            == nic.rx.entries.len() && after_receive(nic, pool, len).0.rx.entries.len() == 0,
        after_receive(nic, pool, len).0.rx.entries.len() + ready_count(nic.rx, len)
            == nic.rx.entries.len(),
        after_receive(nic, pool, len).0.fq.published.len() - nic.fq.published.len()
            == pool.buffers.free.len() - after_receive(nic, pool, len).1.buffers.free.len(),
        after_receive(nic, pool, len).0.fq.published.len() - nic.fq.published.len() == fill_count(
            pool.buffers,
            nic.fq,
            len,
        ),
        fill_count(pool.buffers, nic.fq, len) <= len,
        after_receive(nic, pool, len).0.tx == nic.tx,
        after_receive(nic, pool, len).0.cq == nic.cq,
        after_receive(nic, pool, len).1.buffers.memory == pool.buffers.memory,
{
}

/// Atomicity of a send: an open binding whose transmit ring has too few free
/// slots hands nothing over and leaves the ring as it is; one with room
/// hands every packet over, and the ring gains their descriptors in the
/// packets' order behind what it held.
pub proof fn lemma_send_atomic(nic: NicView, pool: UmemView, packets: Seq<PacketView>)
    requires
        nic.state == NicState::Open,
    ensures
        !can_send(nic, packets.len()) ==> after_send(nic, pool, packets).0.tx == nic.tx,
        can_send(nic, packets.len()) ==> after_send(nic, pool, packets).0.tx.published.len()
            == nic.tx.published.len() + packets.len() && after_send(
            nic,
            pool,
            packets,
        ).0.tx.published.take(nic.tx.published.len() as int) == nic.tx.published && forall|i: int|
            0 <= i < packets.len() ==> #[trigger] after_send(
                nic,
                pool,
                packets,
            ).0.tx.published[nic.tx.published.len() + i] == tx_descriptor(packets[i]),
        after_send(nic, pool, packets).0.rx == nic.rx,
        after_send(nic, pool, packets).0.fq == nic.fq,
{
    if can_send(nic, packets.len()) {
        let after = after_send(nic, pool, packets).0.tx.published;
        assert(after.take(nic.tx.published.len() as int) =~= nic.tx.published);
    }
}

} // verus!
