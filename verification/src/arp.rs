//! Telling ARP requests from other frames, and turning a request into the
//! reply, in place.

use vstd::prelude::*;
use pnet::datalink::MacAddr;
use crate::dump::push_all;
use crate::packet::PacketView;
use crate::pv::{pv_free, PvNic, PvNicView, PvPacket};
use crate::umem::UmemView;
use crate::utils::{mac_octets, octets_of};

verus! {

/// Length of an ARP reply in an Ethernet frame.
pub const ARP_RSPN_PACKET_SIZE: u32 = 42;

/// The ARP reply to the station with the hardware address `requester`, sent
/// from the hardware address `mac`: the Ethernet header, the ARP header for
/// a reply on Ethernet and IPv4, the sender 10.0.0.4 and the target
/// 10.0.0.5.
pub open spec fn arp_response(requester: Seq<u8>, mac: Seq<u8>) -> Seq<u8> {
    requester + mac + seq![0x08u8, 0x06u8] + seq![0x00u8, 0x01u8, 0x08u8, 0x00u8, 0x06u8, 0x04u8]
        + seq![0x00u8, 0x02u8] + mac + seq![0x0au8, 0x00u8, 0x00u8, 0x04u8] + requester
        + seq![0x0au8, 0x00u8, 0x00u8, 0x05u8]
}

/// Overwrites the first 42 payload bytes with the ARP reply to the frame
/// that the payload holds, sent from the hardware address with the octets
/// `mac`: the reply goes to the hardware address that sent the frame. The
/// payload is then those 42 bytes.
pub fn write_arp_response(packet: &mut PvPacket, mac: &[u8; 6])
    requires
        old(packet).wf(),
        old(packet).start + ARP_RSPN_PACKET_SIZE <= old(packet).size,
    ensures
        final(packet).wf(),
        final(packet)@ == (PacketView {
            end: (old(packet).start + ARP_RSPN_PACKET_SIZE) as nat,
            buffer: old(packet).buffer@.take(old(packet).start as int) + (arp_response(
                old(packet).buffer@.subrange(old(packet).start + 6, old(packet).start + 12),
                mac@,
            ) + old(packet).buffer@.skip(old(packet).start + ARP_RSPN_PACKET_SIZE)),
            ..old(packet)@
        }),
{
    let start: usize = packet.start as usize;
    let requester: Vec<u8> = vstd::slice::slice_to_vec(
        vstd::slice::slice_subrange(packet.buffer.as_slice(), start + 6, start + 12),
    );
    let mut reply: Vec<u8> = Vec::new();
    push_all(&mut reply, requester.as_slice());
    push_all(&mut reply, mac.as_slice());
    push_all(&mut reply, [0x08u8, 0x06u8].as_slice());
    push_all(&mut reply, [0x00u8, 0x01u8, 0x08u8, 0x00u8, 0x06u8, 0x04u8].as_slice());
    push_all(&mut reply, [0x00u8, 0x02u8].as_slice());
    push_all(&mut reply, mac.as_slice());
    push_all(&mut reply, [0x0au8, 0x00u8, 0x00u8, 0x04u8].as_slice());
    push_all(&mut reply, requester.as_slice());
    push_all(&mut reply, [0x0au8, 0x00u8, 0x00u8, 0x05u8].as_slice());
    proof {
        assert([0x08u8, 0x06u8]@ =~= seq![0x08u8, 0x06u8]);
        assert([0x00u8, 0x01u8, 0x08u8, 0x00u8, 0x06u8, 0x04u8]@ =~= seq![
            0x00u8,
            0x01u8,
            0x08u8,
            0x00u8,
            0x06u8,
            0x04u8,
        ]);
        assert([0x00u8, 0x02u8]@ =~= seq![0x00u8, 0x02u8]);
        assert([0x0au8, 0x00u8, 0x00u8, 0x04u8]@ =~= seq![0x0au8, 0x00u8, 0x00u8, 0x04u8]);
        assert([0x0au8, 0x00u8, 0x00u8, 0x05u8]@ =~= seq![0x0au8, 0x00u8, 0x00u8, 0x05u8]);
        assert(reply@ == arp_response(requester@, mac@));
        assert(reply@.len() == 42);
    }
    let mut i: usize = 0;
    while i < 42
        invariant
            i <= 42,
            reply@.len() == 42,
            start == old(packet).start,
            start + 42 <= packet.buffer.len(),
            packet.buffer@.len() == old(packet).buffer@.len(),
            packet.start == old(packet).start,
            packet.end == old(packet).end,
            packet.size == old(packet).size,
            packet.private == old(packet).private,
            packet.buffer@ =~= old(packet).buffer@.take(start as int) + (reply@.take(i as int)
                + old(packet).buffer@.skip(start + i)),
        decreases 42 - i,
    {
        packet.buffer[start + i] = reply[i];
        i = i + 1;
    }
    packet.end = packet.start + ARP_RSPN_PACKET_SIZE;
    proof {
        assert(reply@.take(42) =~= reply@);
    }
}

/// Overwrites the first 42 payload bytes with the ARP reply to the frame
/// that the payload holds, sent from `src_mac_address`: the reply goes to
/// the hardware address that sent the frame. The payload is then those 42
/// bytes.
pub fn gen_arp_response_packet(packet: &mut PvPacket, src_mac_address: &MacAddr)
    requires
        old(packet).wf(),
        old(packet).start + ARP_RSPN_PACKET_SIZE <= old(packet).size,
    ensures
        final(packet).wf(),
        final(packet)@ == (PacketView {
            end: (old(packet).start + ARP_RSPN_PACKET_SIZE) as nat,
            buffer: old(packet).buffer@.take(old(packet).start as int) + (arp_response(
                old(packet).buffer@.subrange(old(packet).start + 6, old(packet).start + 12),
                mac_octets(*src_mac_address),
            ) + old(packet).buffer@.skip(old(packet).start + ARP_RSPN_PACKET_SIZE)),
            ..old(packet)@
        }),
{
    let mac: [u8; 6] = octets_of(src_mac_address);
    write_arp_response(packet, &mac);
}

/// Whether a frame is an ARP request: it has the header's 22 bytes, the
/// Ethernet type of ARP and the operation code of a request.
pub open spec fn is_arp_request_frame(frame: Seq<u8>) -> bool {
    &&& frame.len() >= 22
    &&& frame[12] == 0x08
    &&& frame[13] == 0x06
    &&& frame[20] == 0x00
    &&& frame[21] == 0x01
}

/// Whether the packet's payload is an ARP request.
pub fn is_arp_request(packet: &PvPacket) -> (r: bool)
    requires
        packet.wf(),
    ensures
        r == is_arp_request_frame(packet@.payload()),
{
    if packet.end - packet.start < 22 {
        return false;
    }
    let at: usize = packet.start as usize;
    packet.buffer[at + 12] == 0x08 && packet.buffer[at + 13] == 0x06 && packet.buffer[at + 20]
        == 0x00 && packet.buffer[at + 21] == 0x01
}

/// The packets of a batch that are ARP requests, in order.
pub open spec fn arp_requests(packets: Seq<PvPacket>) -> Seq<PvPacket>
    decreases packets.len(),
{
    if packets.len() == 0 {
        Seq::empty()
    } else if is_arp_request_frame(packets.last()@.payload()) {
        arp_requests(packets.drop_last()).push(packets.last())
    } else {
        arp_requests(packets.drop_last())
    }
}

/// The chunk addresses of the packets of a batch that are no ARP requests,
/// in order.
pub open spec fn other_chunks(packets: Seq<PvPacket>) -> Seq<u64>
    decreases packets.len(),
{
    if packets.len() == 0 {
        Seq::empty()
    } else if is_arp_request_frame(packets.last()@.payload()) {
        other_chunks(packets.drop_last())
    } else {
        other_chunks(packets.drop_last()).push(packets.last().private)
    }
}

/// Goes through the first `batch_size` packets: the ARP requests stay, in
/// order, and every other packet's lease ends. Answers how many ARP requests
/// there were.
pub fn process_packets(nic: &mut PvNic, packets: &mut Vec<PvPacket>, batch_size: u32) -> (processed:
    u32)
    requires
        old(nic).wf(),
        batch_size <= old(packets)@.len(),
        forall|i: int| 0 <= i < batch_size ==> (#[trigger] old(packets)@[i]).wf(),
    ensures
        final(nic).wf(),
        processed == arp_requests(old(packets)@.take(batch_size as int)).len(),
        final(packets)@ == arp_requests(old(packets)@.take(batch_size as int)) + old(
            packets,
        )@.skip(batch_size as int),
        final(nic)@ == (PvNicView {
            pool: UmemView {
                buffers: old(nic)@.pool.buffers.freed_all(
                    other_chunks(old(packets)@.take(batch_size as int)),
                ),
                ..old(nic)@.pool
            },
            ..old(nic)@
        }),
{
    let mut seen: u32 = 0;
    let mut kept: u32 = 0;
    proof {
        assert(old(packets)@.take(0) =~= Seq::<PvPacket>::empty());
        assert(packets@ =~= arp_requests(old(packets)@.take(0)) + old(packets)@.skip(0));
    }
    while seen < batch_size
        invariant
            seen <= batch_size,
            batch_size <= old(packets)@.len(),
            forall|i: int| 0 <= i < batch_size ==> (#[trigger] old(packets)@[i]).wf(),
            nic.wf(),
            kept == arp_requests(old(packets)@.take(seen as int)).len(),
            kept <= seen,
            packets@ == arp_requests(old(packets)@.take(seen as int)) + old(packets)@.skip(
                seen as int,
            ),
            nic@ == (PvNicView {
                pool: UmemView {
                    buffers: old(nic)@.pool.buffers.freed_all(
                        other_chunks(old(packets)@.take(seen as int)),
                    ),
                    ..old(nic)@.pool
                },
                ..old(nic)@
            }),
        decreases batch_size - seen,
    {
        let ghost before = packets@;
        let ghost head = old(packets)@.take(seen as int);
        let ghost next = old(packets)@.take(seen + 1);
        proof {
            assert(next.drop_last() =~= head);
            assert(next.last() == old(packets)@[seen as int]);
            assert(before[kept as int] == old(packets)@[seen as int]);
            assert(old(packets)@[seen as int].wf());
        }
        if is_arp_request(&packets[kept as usize]) {
            kept = kept + 1;
            proof {
                assert(packets@ =~= arp_requests(next) + old(packets)@.skip(seen + 1));
            }
        } else {
            pv_free(nic, packets, kept as usize);
            proof {
                assert(packets@ =~= arp_requests(next) + old(packets)@.skip(seen + 1));
                let chunks = other_chunks(next);
                assert(chunks.drop_last() =~= other_chunks(head));
                assert(chunks.last() == old(packets)@[seen as int].private);
            }
        }
        seen = seen + 1;
    }
    kept
}

} // verus!
