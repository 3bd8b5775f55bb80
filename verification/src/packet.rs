//! A packet: the lease of one chunk, with a window `[start, end)` on the
//! chunk's bytes that holds the payload.

use vstd::prelude::*;
use crate::chunk::DEFAULT_HEADROOM;
use crate::dump::{dump_text, hex_dump};

verus! {

/// Why a packet refused to change its payload.
#[derive(Clone, Copy, Debug, PartialEq, Eq, Structural)]
pub enum PacketError {
    /// The data is longer than the chunk.
    BufferTooSmall,
    /// The payload fits neither behind `start` nor in front of it.
    HeadroomExhausted,
}

/// What a packet holds.
pub struct PacketView {
    /// Offset of the first payload byte within the chunk.
    pub start: nat,
    /// Offset just past the last payload byte.
    pub end: nat,
    /// Size of the chunk.
    pub buffer_size: nat,
    /// The chunk's bytes.
    pub buffer: Seq<u8>,
    /// Address of the chunk within the memory region.
    pub chunk: u64,
}

impl PacketView {
    /// The window lies inside the chunk, and the chunk has its full size.
    pub open spec fn wf(self) -> bool {
        &&& self.start <= self.end <= self.buffer_size
        &&& self.buffer.len() == self.buffer_size
    }

    /// The bytes of the window.
    pub open spec fn payload(self) -> Seq<u8> {
        self.buffer.subrange(self.start as int, self.end as int)
    }

    /// The packet after its payload was replaced by `data`: the data lies at
    /// the front of the chunk and the window covers exactly the data.
    pub open spec fn replaced(self, data: Seq<u8>) -> PacketView {
        PacketView {
            start: 0,
            end: data.len(),
            buffer: data + self.buffer.skip(data.len() as int),
            ..self
        }
    }

    /// The packet after a resize to `size` bytes that succeeds: the payload
    /// keeps its start where it fits behind it, and otherwise moves in front
    /// of the old start.
    pub open spec fn resized(self, size: nat) -> PacketView {
        if self.start + size <= self.buffer_size {
            PacketView { end: self.start + size, ..self }
        } else {
            PacketView { start: (self.start - size) as nat, end: self.start, ..self }
        }
    }

    /// Whether a resize to `size` bytes can succeed.
    pub open spec fn can_resize(self, size: nat) -> bool {
        self.start + size <= self.buffer_size || size <= self.start
    }
}

/// One chunk on lease, with the payload window on it.
#[derive(Debug)]
pub struct Packet {
    /// Offset of the first payload byte.
    pub start: usize,
    /// Offset just past the last payload byte.
    pub end: usize,
    /// Size of the chunk.
    pub buffer_size: usize,
    /// The chunk's bytes.
    pub buffer: Vec<u8>,
    private: u64,
}

impl View for Packet {
    type V = PacketView;

    closed spec fn view(&self) -> PacketView {
        PacketView {
            start: self.start as nat,
            end: self.end as nat,
            buffer_size: self.buffer_size as nat,
            buffer: self.buffer@,
            chunk: self.private,
        }
    }
}

impl Packet {
    /// The window lies inside the chunk, and the chunk has its full size.
    pub open spec fn wf(&self) -> bool {
        self@.wf()
    }

    /// A packet on the chunk at `chunk_addr` with the bytes `buffer`. The
    /// payload is empty and starts behind the headroom, or at the end of a
    /// chunk that is shorter than the headroom.
    pub fn new(chunk_addr: u64, buffer: Vec<u8>) -> (packet: Packet)
        ensures
            packet.wf(),
            packet@.chunk == chunk_addr,
            packet@.buffer == buffer@,
            packet@.buffer_size == buffer@.len(),
            packet@.start == packet@.end,
            packet@.start == (if buffer@.len() < DEFAULT_HEADROOM {
                buffer@.len()
            } else {
                DEFAULT_HEADROOM as nat
            }),
    {
        let size: usize = buffer.len();
        let offset: usize = if size < DEFAULT_HEADROOM {
            size
        } else {
            DEFAULT_HEADROOM
        };
        Packet { start: offset, end: offset, buffer_size: size, buffer, private: chunk_addr }
    }

    /// A packet on the chunk at `chunk_addr` with the bytes `buffer` and the
    /// payload window `[start, end)`.
    pub fn from_parts(chunk_addr: u64, buffer: Vec<u8>, start: usize, end: usize) -> (packet:
        Packet)
        requires
            start <= end <= buffer@.len(),
        ensures
            packet.wf(),
            packet@ == (PacketView {
                start: start as nat,
                end: end as nat,
                buffer_size: buffer@.len(),
                buffer: buffer@,
                chunk: chunk_addr,
            }),
    {
        let size: usize = buffer.len();
        Packet { start, end, buffer_size: size, buffer, private: chunk_addr }
    }

    /// Takes the packet apart: the chunk's bytes.
    pub fn into_bytes(self) -> (bytes: Vec<u8>)
        ensures
            bytes@ == self@.buffer,
    {
        self.buffer
    }

    /// Address of the leased chunk within the memory region.
    pub fn chunk_addr(&self) -> (addr: u64)
        ensures
            addr == self@.chunk,
    {
        self.private
    }

    /// Offset of the first payload byte within the chunk.
    pub fn start(&self) -> (n: usize)
        ensures
            n == self@.start,
    {
        self.start
    }

    /// Offset just past the last payload byte.
    pub fn end(&self) -> (n: usize)
        ensures
            n == self@.end,
    {
        self.end
    }

    /// Size of the chunk.
    pub fn buffer_size(&self) -> (n: usize)
        ensures
            n == self@.buffer_size,
    {
        self.buffer_size
    }

    /// The chunk's bytes.
    pub fn bytes(&self) -> (bytes: &Vec<u8>)
        ensures
            bytes@ == self@.buffer,
    {
        &self.buffer
    }

    /// Length of the payload.
    pub fn len(&self) -> (n: usize)
        requires
            self.wf(),
        ensures
            n == self@.end - self@.start,
            n == self@.payload().len(),
    {
        self.end - self.start
    }

    /// Replaces the payload with `new_data`, put at the front of the chunk.
    /// Data longer than the chunk is refused and the packet stays as it was.
    pub fn replace_data(&mut self, new_data: &Vec<u8>) -> (r: Result<(), PacketError>)
        requires
            old(self).wf(),
        ensures
            final(self).wf(),
            new_data@.len() > old(self)@.buffer_size ==> r == Err::<(), PacketError>(
                PacketError::BufferTooSmall,
            ) && final(self)@ == old(self)@,
            new_data@.len() <= old(self)@.buffer_size ==> r.is_ok() && final(self)@ == old(
                self,
            )@.replaced(new_data@),
    {
        let n: usize = new_data.len();
        if n > self.buffer_size {
            return Err(PacketError::BufferTooSmall);
        }
        let mut i: usize = 0;
        while i < n
            invariant
                i <= n,
                n == new_data@.len(),
                n <= self.buffer_size,
                self.buffer_size == old(self).buffer_size,
                self.start == old(self).start,
                self.end == old(self).end,
                self.private == old(self).private,
                self.buffer@.len() == old(self).buffer@.len(),
                self.buffer@.len() == self.buffer_size,
                self.buffer@ =~= new_data@.take(i as int) + old(self).buffer@.skip(i as int),
            decreases n - i,
        {
            self.buffer[i] = new_data[i];
            i = i + 1;
        }
        self.start = 0;
        self.end = n;
        proof {
            assert(new_data@.take(n as int) =~= new_data@);
            assert(self@.buffer =~= old(self)@.replaced(new_data@).buffer);
        }
        Ok(())
    }

    /// The payload window, for reading and for changing in place.
    pub fn get_buffer_mut(&mut self) -> (window: &mut [u8])
        requires
            old(self).wf(),
        ensures
            window@ == old(self)@.payload(),
            final(self)@ == (PacketView {
                buffer: old(self)@.buffer.subrange(0, old(self)@.start as int) + (final(window)@
                    + old(self)@.buffer.subrange(
                    old(self)@.end as int,
                    old(self)@.buffer_size as int,
                )),
                ..old(self)@
            }),
    {
        let start: usize = self.start;
        let len: usize = self.end - self.start;
        let whole: &mut [u8] = self.buffer.as_mut_slice();
        let (front, rest) = whole.split_at_mut(start);
        let (window, back) = rest.split_at_mut(len);
        proof {
            assert(window@ =~= old(self)@.payload());
            assert(front@ =~= old(self)@.buffer.subrange(0, old(self)@.start as int));
            assert(back@ =~= old(self)@.buffer.subrange(
                old(self)@.end as int,
                old(self)@.buffer_size as int,
            ));
        }
        window
    }

    /// A copy of the payload.
    pub fn get_buffer(&self) -> (payload: Vec<u8>)
        requires
            self.wf(),
        ensures
            payload@ == self@.payload(),
    {
        let window: &[u8] = vstd::slice::slice_subrange(
            self.buffer.as_slice(),
            self.start,
            self.end,
        );
        vstd::slice::slice_to_vec(window)
    }

    /// The hex dump of the payload, as ASCII text: the chunk address, then
    /// the payload bytes, sixteen to a line. An empty payload gives the
    /// opening and closing lines alone.
    pub fn dump(&self) -> (text: Vec<u8>)
        requires
            self.wf(),
        ensures
            text@ == dump_text(self@.chunk, self@.payload()),
    {
        let window: &[u8] = vstd::slice::slice_subrange(
            self.buffer.as_slice(),
            self.start,
            self.end,
        );
        hex_dump(self.private, window)
    }

    /// Sets the payload length to `size`. The payload keeps its start where
    /// `size` bytes fit behind it; otherwise it moves to the `size` bytes in
    /// front of the old start. Where those do not exist either the packet
    /// stays as it was.
    pub fn resize(&mut self, size: usize) -> (r: Result<(), PacketError>)
        requires
            old(self).wf(),
        ensures
            final(self).wf(),
            old(self)@.can_resize(size as nat) ==> r.is_ok() && final(self)@ == old(self)@.resized(
                size as nat,
            ),
            !old(self)@.can_resize(size as nat) ==> r == Err::<(), PacketError>(
                PacketError::HeadroomExhausted,
            ) && final(self)@ == old(self)@,
    {
        if size <= self.buffer_size - self.start {
            self.end = self.start + size;
            Ok(())
        } else if size <= self.start {
            self.end = self.start;
            self.start = self.start - size;
            Ok(())
        } else {
            Err(PacketError::HeadroomExhausted)
        }
    }
}

/// Replacing the payload and reading it back gives exactly the data, for
/// every packet and all data that fits in its chunk.
pub proof fn lemma_replace_then_read(packet: PacketView, data: Seq<u8>)
    requires
        packet.wf(),
        data.len() <= packet.buffer_size,
    ensures
        packet.replaced(data).wf(),
        packet.replaced(data).payload() == data,
{
    assert(packet.replaced(data).payload() =~= data);
}

} // verus!
