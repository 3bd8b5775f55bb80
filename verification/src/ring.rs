//! Fixed-capacity circular slot arrays shared between user space and the
//! kernel. A producer ring carries descriptors from user space to the kernel
//! (fill, transmit); a consumer ring carries them back (receive, completion).

use vstd::prelude::*;

verus! {

/// One ring slot: where a frame lies in the memory region and how long it is.
/// Fill and completion rings use the address alone.
#[derive(Clone, Copy, Debug, PartialEq, Eq, Structural)]
pub struct Descriptor {
    pub addr: u64,
    pub len: u32,
}

/// What a reservation or a peek granted: how many slots, and the position of
/// the first of them within the slots currently held by user space.
#[derive(Clone, Copy, Debug, PartialEq, Eq, Structural)]
pub struct ReservedResult {
    pub count: u32,
    pub idx: u32,
}

/// The slot that lies `i` places after `head` in a circular array of
/// `capacity` slots.
pub open spec fn slot_of(head: int, i: int, capacity: int) -> int {
    if head + i < capacity {
        head + i
    } else {
        head + i - capacity
    }
}

/// The smaller of two numbers.
pub open spec fn min_of(a: int, b: int) -> int {
    if a <= b {
        a
    } else {
        b
    }
}

/// What a producer ring holds.
pub struct ProducerView {
    /// Number of slots.
    pub capacity: nat,
    /// Submitted descriptors that the kernel has not taken yet, oldest first.
    pub published: Seq<Descriptor>,
    /// Slots granted to user space and not yet submitted, oldest first.
    pub reserved: Seq<Descriptor>,
    /// Whether the kernel asked to be woken after the next submission.
    pub wakeup: bool,
}

/// A ring that user space fills and the kernel drains.
#[derive(Debug)]
pub struct ProducerRing {
    slots: Vec<Descriptor>,
    head: usize,
    published: usize,
    reserved: usize,
    wakeup: bool,
}

impl View for ProducerRing {
    type V = ProducerView;

    closed spec fn view(&self) -> ProducerView {
        ProducerView {
            capacity: self.slots.len() as nat,
            published: Seq::new(
                self.published as nat,
                |i: int| self.slots[slot_of(self.head as int, i, self.slots.len() as int)],
            ),
            reserved: Seq::new(
                self.reserved as nat,
                |i: int|
                    self.slots[slot_of(
                        self.head as int,
                        self.published + i,
                        self.slots.len() as int,
                    )],
            ),
            wakeup: self.wakeup,
        }
    }
}

impl ProducerRing {
    /// The cursors lie inside the slot array.
    pub closed spec fn inv(&self) -> bool {
        &&& self.slots.len() <= u32::MAX
        &&& (self.head < self.slots.len() || (self.head == 0 && self.slots.len() == 0))
        &&& self.published + self.reserved <= self.slots.len()
    }

    /// The ring is consistent: published and reserved slots together fit in
    /// the capacity, which fits in 32 bits.
    pub open spec fn wf(&self) -> bool {
        &&& self.inv()
        &&& self@.published.len() + self@.reserved.len() <= self@.capacity
        &&& self@.capacity <= u32::MAX
    }

    /// Slots that are neither published nor reserved.
    pub open spec fn free_slots_spec(&self) -> int {
        self@.capacity - self@.published.len() - self@.reserved.len()
    }

    fn slot(&self, i: usize) -> (s: usize)
        requires
            self.inv(),
            i < self.slots.len() || (i == self.slots.len() && i > 0),
        ensures
            s == slot_of(self.head as int, i as int, self.slots.len() as int),
            s < self.slots.len(),
    {
        let room: usize = self.slots.len() - self.head;
        if i < room {
            self.head + i
        } else {
            i - room
        }
    }

    /// An empty ring of `capacity` slots.
    pub fn new(capacity: u32) -> (ring: Self)
        ensures
            ring.wf(),
            ring@ == (ProducerView {
                capacity: capacity as nat,
                published: Seq::empty(),
                reserved: Seq::empty(),
                wakeup: false,
            }),
    {
        let slots: Vec<Descriptor> = vec![Descriptor { addr: 0, len: 0 }; capacity as usize];
        let ring = ProducerRing { slots, head: 0, published: 0, reserved: 0, wakeup: false };
        proof {
            assert(ring@.published =~= Seq::empty());
            assert(ring@.reserved =~= Seq::empty());
        }
        ring
    }

    /// Number of slots.
    pub fn capacity(&self) -> (n: u32)
        requires
            self.wf(),
        ensures
            n == self@.capacity,
    {
        self.slots.len() as u32
    }

    /// Number of slots that a reservation could still grant.
    pub fn free_slots(&self) -> (n: u32)
        requires
            self.wf(),
        ensures
            n == self.free_slots_spec(),
    {
        (self.slots.len() - self.published - self.reserved) as u32
    }

    /// Number of submitted descriptors that the kernel has not taken yet.
    pub fn pending(&self) -> (n: u32)
        requires
            self.wf(),
        ensures
            n == self@.published.len(),
    {
        self.published as u32
    }

    /// Asks for up to `n` free slots. Grants as many as are free, at most `n`,
    /// behind the slots reserved earlier, whose contents stay.
    pub fn reserve(&mut self, n: u32) -> (r: ReservedResult)
        requires
            old(self).wf(),
        ensures
            final(self).wf(),
            r.count == min_of(n as int, old(self).free_slots_spec()),
            r.idx == old(self)@.reserved.len(),
            final(self)@.capacity == old(self)@.capacity,
            final(self)@.published == old(self)@.published,
            final(self)@.wakeup == old(self)@.wakeup,
            final(self)@.reserved.len() == old(self)@.reserved.len() + r.count,
            final(self)@.reserved.take(old(self)@.reserved.len() as int) == old(self)@.reserved,
    {
        let free: usize = self.slots.len() - self.published - self.reserved;
        let count: u32 = if (n as usize) <= free {
            n
        } else {
            free as u32
        };
        let idx: u32 = self.reserved as u32;
        self.reserved = self.reserved + count as usize;
        proof {
            assert(self@.published =~= old(self)@.published);
            assert(self@.reserved.take(old(self)@.reserved.len() as int) =~= old(self)@.reserved);
        }
        ReservedResult { count, idx }
    }

    /// Writes a descriptor into the reserved slot at position `idx`.
    pub fn write(&mut self, idx: u32, desc: Descriptor)
        requires
            old(self).wf(),
            idx < old(self)@.reserved.len(),
        ensures
            final(self).wf(),
            final(self)@ == (ProducerView {
                reserved: old(self)@.reserved.update(idx as int, desc),
                ..old(self)@
            }),
    {
        let s: usize = self.slot(self.published + idx as usize);
        self.slots[s] = desc;
        proof {
            assert(self@.published =~= old(self)@.published);
            assert(self@.reserved =~= old(self)@.reserved.update(idx as int, desc));
        }
    }

    /// Publishes the `count` oldest reserved slots to the kernel.
    pub fn submit(&mut self, count: u32)
        requires
            old(self).wf(),
            count <= old(self)@.reserved.len(),
        ensures
            final(self).wf(),
            final(self)@ == (ProducerView {
                published: old(self)@.published + old(self)@.reserved.take(count as int),
                reserved: old(self)@.reserved.skip(count as int),
                ..old(self)@
            }),
    {
        self.published = self.published + count as usize;
        self.reserved = self.reserved - count as usize;
        proof {
            assert(self@.published =~= old(self)@.published + old(self)@.reserved.take(
                count as int,
            ));
            assert(self@.reserved =~= old(self)@.reserved.skip(count as int));
        }
    }

    /// Gives back the `count` most recently reserved slots unused.
    pub fn cancel(&mut self, count: u32)
        requires
            old(self).wf(),
            count <= old(self)@.reserved.len(),
        ensures
            final(self).wf(),
            final(self)@ == (ProducerView {
                reserved: old(self)@.reserved.take(old(self)@.reserved.len() - count),
                ..old(self)@
            }),
    {
        self.reserved = self.reserved - count as usize;
        proof {
            assert(self@.published =~= old(self)@.published);
            assert(self@.reserved =~= old(self)@.reserved.take(
                old(self)@.reserved.len() - count,
            ));
        }
    }

    /// Whether the kernel must be woken to process what was submitted.
    pub fn needs_wakeup(&self) -> (b: bool)
        ensures
            b == self@.wakeup,
    {
        self.wakeup
    }

    /// The kernel's side: raises or clears the request to be woken.
    pub fn set_needs_wakeup(&mut self, flag: bool)
        requires
            old(self).wf(),
        ensures
            final(self).wf(),
            final(self)@ == (ProducerView { wakeup: flag, ..old(self)@ }),
    {
        self.wakeup = flag;
        proof {
            assert(self@.published =~= old(self)@.published);
            assert(self@.reserved =~= old(self)@.reserved);
        }
    }

    /// The kernel's side: the oldest published descriptor, if there is one.
    pub fn oldest(&self) -> (front: Option<Descriptor>)
        requires
            self.wf(),
        ensures
            self@.published.len() == 0 ==> front.is_none(),
            self@.published.len() > 0 ==> front == Some(self@.published[0]),
    {
        if self.published == 0 {
            None
        } else {
            Some(self.slots[self.head])
        }
    }

    /// The kernel's side: takes the oldest published descriptor, if there is
    /// one.
    pub fn consume(&mut self) -> (taken: Option<Descriptor>)
        requires
            old(self).wf(),
        ensures
            final(self).wf(),
            old(self)@.published.len() == 0 ==> taken.is_none() && final(self)@ == old(self)@,
            old(self)@.published.len() > 0 ==> taken == Some(old(self)@.published[0])
                && final(self)@ == (ProducerView {
                published: old(self)@.published.drop_first(),
                ..old(self)@
            }),
    {
        if self.published == 0 {
            return None;
        }
        let desc: Descriptor = self.slots[self.head];
        let next: usize = self.slot(1);
        self.head = next;
        self.published = self.published - 1;
        proof {
            assert(self@.published =~= old(self)@.published.drop_first());
            assert(self@.reserved =~= old(self)@.reserved);
        }
        Some(desc)
    }
}

/// What a consumer ring holds.
pub struct ConsumerView {
    /// Number of slots.
    pub capacity: nat,
    /// Descriptors that the kernel filled in and user space has not released,
    /// oldest first.
    pub entries: Seq<Descriptor>,
    /// How many of the oldest entries user space has peeked and may read.
    pub peeked: nat,
}

/// A ring that the kernel fills and user space drains.
#[derive(Debug)]
pub struct ConsumerRing {
    slots: Vec<Descriptor>,
    head: usize,
    filled: usize,
    peeked: usize,
}

impl View for ConsumerRing {
    type V = ConsumerView;

    closed spec fn view(&self) -> ConsumerView {
        ConsumerView {
            capacity: self.slots.len() as nat,
            entries: Seq::new(
                self.filled as nat,
                |i: int| self.slots[slot_of(self.head as int, i, self.slots.len() as int)],
            ),
            peeked: self.peeked as nat,
        }
    }
}

impl ConsumerRing {
    /// The cursors lie inside the slot array.
    pub closed spec fn inv(&self) -> bool {
        &&& self.slots.len() <= u32::MAX
        &&& (self.head < self.slots.len() || (self.head == 0 && self.slots.len() == 0))
        &&& self.filled <= self.slots.len()
        &&& self.peeked <= self.filled
    }

    /// The ring is consistent: the peeked entries are among the filled ones,
    /// which fit in the capacity, which fits in 32 bits.
    pub open spec fn wf(&self) -> bool {
        &&& self.inv()
        &&& self@.peeked <= self@.entries.len() <= self@.capacity
        &&& self@.capacity <= u32::MAX
    }

    fn slot(&self, i: usize) -> (s: usize)
        requires
            self.inv(),
            i < self.slots.len() || (i == self.slots.len() && i > 0),
        ensures
            s == slot_of(self.head as int, i as int, self.slots.len() as int),
            s < self.slots.len(),
    {
        let room: usize = self.slots.len() - self.head;
        if i < room {
            self.head + i
        } else {
            i - room
        }
    }

    /// An empty ring of `capacity` slots.
    pub fn new(capacity: u32) -> (ring: Self)
        ensures
            ring.wf(),
            ring@ == (ConsumerView { capacity: capacity as nat, entries: Seq::empty(), peeked: 0 }),
    {
        let slots: Vec<Descriptor> = vec![Descriptor { addr: 0, len: 0 }; capacity as usize];
        let ring = ConsumerRing { slots, head: 0, filled: 0, peeked: 0 };
        proof {
            assert(ring@.entries =~= Seq::empty());
        }
        ring
    }

    /// Number of slots.
    pub fn capacity(&self) -> (n: u32)
        requires
            self.wf(),
        ensures
            n == self@.capacity,
    {
        self.slots.len() as u32
    }

    /// Number of filled entries that have not been released yet.
    pub fn filled(&self) -> (n: u32)
        requires
            self.wf(),
        ensures
            n == self@.entries.len(),
    {
        self.filled as u32
    }

    /// Number of filled entries that have not been peeked yet.
    pub fn available(&self) -> (n: u32)
        requires
            self.wf(),
        ensures
            n == self@.entries.len() - self@.peeked,
    {
        (self.filled - self.peeked) as u32
    }

    /// Asks how many filled entries, at most `n`, are ready to read behind the
    /// ones peeked earlier, and hands them to user space.
    pub fn peek(&mut self, n: u32) -> (r: ReservedResult)
        requires
            old(self).wf(),
        ensures
            final(self).wf(),
            r.count == min_of(n as int, old(self)@.entries.len() - old(self)@.peeked),
            r.idx == old(self)@.peeked,
            final(self)@ == (ConsumerView {
                peeked: old(self)@.peeked + r.count as nat,
                ..old(self)@
            }),
    {
        let ready: usize = self.filled - self.peeked;
        let count: u32 = if (n as usize) <= ready {
            n
        } else {
            ready as u32
        };
        let idx: u32 = self.peeked as u32;
        self.peeked = self.peeked + count as usize;
        proof {
            assert(self@.entries =~= old(self)@.entries);
        }
        ReservedResult { count, idx }
    }

    /// Reads the peeked entry at position `idx`.
    pub fn read(&self, idx: u32) -> (desc: Descriptor)
        requires
            self.wf(),
            idx < self@.peeked,
        ensures
            desc == self@.entries[idx as int],
    {
        let s: usize = self.slot(idx as usize);
        self.slots[s]
    }

    /// Returns the `count` oldest peeked entries to the kernel as free slots.
    pub fn release(&mut self, count: u32)
        requires
            old(self).wf(),
            count <= old(self)@.peeked,
        ensures
            final(self).wf(),
            final(self)@ == (ConsumerView {
                entries: old(self)@.entries.skip(count as int),
                peeked: (old(self)@.peeked - count) as nat,
                ..old(self)@
            }),
    {
        if count > 0 {
            let next: usize = self.slot(count as usize);
            self.head = next;
            self.filled = self.filled - count as usize;
            self.peeked = self.peeked - count as usize;
        }
        proof {
            assert(self@.entries =~= old(self)@.entries.skip(count as int));
        }
    }

    /// The kernel's side: appends a descriptor unless the ring is full, and
    /// says whether it did.
    pub fn produce(&mut self, desc: Descriptor) -> (done: bool)
        requires
            old(self).wf(),
        ensures
            final(self).wf(),
            done == (old(self)@.entries.len() < old(self)@.capacity),
            done ==> final(self)@ == (ConsumerView {
                entries: old(self)@.entries.push(desc),
                ..old(self)@
            }),
            !done ==> final(self)@ == old(self)@,
    {
        if self.filled == self.slots.len() {
            return false;
        }
        let s: usize = self.slot(self.filled);
        self.slots[s] = desc;
        self.filled = self.filled + 1;
        proof {
            assert(self@.entries =~= old(self)@.entries.push(desc));
        }
        true
    }
}

} // verus!
