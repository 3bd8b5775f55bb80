use packetvisor::arp::{
    gen_arp_response_packet, is_arp_request, process_packets, write_arp_response,
    ARP_RSPN_PACKET_SIZE,
};
use packetvisor::nic::Interface;
use packetvisor::pv::{pv_alloc, pv_open};
use packetvisor::umem::Registration;
use packetvisor::pv::PvPacket;
use packetvisor::utils::{
    check, endian, endian16, endian32, endian48, endian64, get, macAddr_to_u64, set_bits,
};
use pnet::datalink::MacAddr;

fn packet(start: u32, end: u32, bytes: Vec<u8>) -> PvPacket {
    PvPacket { start, end, size: bytes.len() as u32, buffer: bytes, private: 0 }
}

#[test]
fn endian_reads_the_least_significant_byte_first() {
    let bytes: [u8; 9] = [0x01, 0x02, 0x03, 0x04, 0x05, 0x06, 0x07, 0x08, 0x09];
    assert_eq!(endian16(&bytes), 0x0201);
    assert_eq!(endian32(&bytes), 0x04030201);
    assert_eq!(endian48(&bytes), 0x060504030201);
    assert_eq!(endian64(&bytes), 0x0807060504030201);
    assert_eq!(endian(&bytes, 0), 0);
    assert_eq!(endian(&bytes, 1), 0x01);
    assert_eq!(endian(&bytes, 3), 0x030201);
    assert_eq!(endian(&bytes, 7), 0x07060504030201);
    assert_eq!(endian(&bytes[1..], 8), 0x0908070605040302);
    assert_eq!(endian64(&[0xff; 8]), u64::MAX);
    assert_eq!(endian16(&[0xff, 0xff]), u16::MAX);
    assert_eq!(endian32(&[0, 0, 0, 0x80]), 0x80000000);
}

#[test]
fn mac_addr_to_u64_puts_the_first_octet_lowest() {
    assert_eq!(macAddr_to_u64(&MacAddr::new(1, 2, 3, 4, 5, 6)), 0x060504030201);
    assert_eq!(macAddr_to_u64(&MacAddr::new(0xff, 0, 0, 0, 0, 0)), 0xff);
    assert_eq!(macAddr_to_u64(&MacAddr::new(0, 0, 0, 0, 0, 0xff)), 0xff0000000000);
    assert_eq!(macAddr_to_u64(&MacAddr::zero()), 0);
    assert_eq!(macAddr_to_u64(&MacAddr::broadcast()), 0xffffffffffff);
}

#[test]
fn set_bits_writes_the_lowest_bytes() {
    let mut bytes = [0xeeu8; 10];
    set_bits(&mut bytes, 0x1122334455667788, 8);
    assert_eq!(bytes, [0x88, 0x77, 0x66, 0x55, 0x44, 0x33, 0x22, 0x11, 0xee, 0xee]);
    set_bits(&mut bytes[2..], 0xabcdef, 2);
    assert_eq!(bytes, [0x88, 0x77, 0xef, 0xcd, 0x44, 0x33, 0x22, 0x11, 0xee, 0xee]);
    set_bits(&mut bytes, u64::MAX, 0);
    assert_eq!(bytes[0], 0x88);
    set_bits(&mut bytes, 5, 3);
    assert_eq!(&bytes[..4], &[5, 0, 0, 0xcd]);
}

#[test]
fn check_tells_whether_the_bytes_lie_in_the_payload() {
    let p = packet(256, 300, vec![0u8; 512]);
    assert_eq!(check(&p, 0, 44), Ok(0));
    assert_eq!(check(&p, 0, 45), Err(1));
    assert_eq!(check(&p, 40, 4), Ok(0));
    assert_eq!(check(&p, 41, 4), Err(1));
    assert_eq!(check(&p, 44, 0), Ok(0));
    assert_eq!(check(&p, 45, 0), Err(1));
    assert_eq!(check(&p, u32::MAX, u32::MAX), Err(1));
    assert_eq!(check(&p, u32::MAX, 0), Err(1));
    let q = packet(u32::MAX, u32::MAX, Vec::new());
    assert_eq!(check(&q, 0, 0), Ok(0));
    assert_eq!(check(&q, 1, 0), Err(1));
}

#[test]
fn get_reads_from_the_payload() {
    let bytes: Vec<u8> = (0..64u8).collect();
    let p = packet(10, 30, bytes);
    assert_eq!(get(&p, 0, 1), Ok(10));
    assert_eq!(get(&p, 0, 2), Ok(0x0b0a));
    assert_eq!(get(&p, 2, 4), Ok(0x0f0e0d0c));
    assert_eq!(get(&p, 12, 8), Ok(0x1d1c1b1a19181716));
    assert_eq!(get(&p, 13, 8), Err(1));
    assert_eq!(get(&p, 20, 0), Ok(0));
    assert_eq!(get(&p, 21, 0), Err(1));
}

#[test]
fn set_writes_into_the_payload() {
    let mut p = packet(10, 30, vec![0u8; 64]);
    assert!(packetvisor::utils::set(&mut p, 2, 4, 0xa1b2c3d4e5).is_ok());
    assert_eq!(&p.buffer[12..16], &[0xe5, 0xd4, 0xc3, 0xb2]);
    assert_eq!(p.buffer[11], 0);
    assert_eq!(p.buffer[16], 0);
    assert_eq!(get(&p, 2, 4), Ok(0xb2c3d4e5));
    assert_eq!(packetvisor::utils::set(&mut p, 17, 4, 1).err(), Some(2));
    assert!(packetvisor::utils::set(&mut p, 16, 4, 0x01020304).is_ok());
    assert_eq!(&p.buffer[26..30], &[4, 3, 2, 1]);
    assert_eq!(p.buffer[30], 0);
    assert_eq!(p.start, 10);
    assert_eq!(p.end, 30);
    assert!(packetvisor::utils::set(&mut p, 0, 8, u64::MAX).is_ok());
    assert_eq!(get(&p, 0, 8), Ok(u64::MAX));
    // The packet comes back, as it now is.
    let back = packetvisor::utils::set(&mut p, 1, 2, 0x0102).unwrap();
    assert_eq!(&back.buffer[11..13], &[0x02, 0x01]);
    assert_eq!(back.start, 10);
    // Bytes beyond the size asked for are cut off.
    assert!(packetvisor::utils::set(&mut p, 0, 2, 0xaabbccdd).is_ok());
    assert_eq!(get(&p, 0, 2), Ok(0xccdd));
}

#[test]
fn the_arp_reply_goes_back_to_the_requester() {
    let mut bytes = vec![0xccu8; 512];
    // An ARP request: broadcast from 02:00:00:00:00:01.
    let request: Vec<u8> = vec![
        0xff, 0xff, 0xff, 0xff, 0xff, 0xff, 0x02, 0x00, 0x00, 0x00, 0x00, 0x01, 0x08, 0x06, 0x00,
        0x01, 0x08, 0x00, 0x06, 0x04, 0x00, 0x01, 0x02, 0x00, 0x00, 0x00, 0x00, 0x01, 0x0a, 0x00,
        0x00, 0x05, 0x00, 0x00, 0x00, 0x00, 0x00, 0x00, 0x0a, 0x00, 0x00, 0x04,
    ];
    bytes[256..256 + 42].copy_from_slice(&request);
    let mut p = packet(256, 256 + 60, bytes);
    gen_arp_response_packet(&mut p, &MacAddr::new(0x02, 0xaa, 0xbb, 0xcc, 0xdd, 0xee));
    let reply: Vec<u8> = vec![
        0x02, 0x00, 0x00, 0x00, 0x00, 0x01, 0x02, 0xaa, 0xbb, 0xcc, 0xdd, 0xee, 0x08, 0x06, 0x00,
        0x01, 0x08, 0x00, 0x06, 0x04, 0x00, 0x02, 0x02, 0xaa, 0xbb, 0xcc, 0xdd, 0xee, 0x0a, 0x00,
        0x00, 0x04, 0x02, 0x00, 0x00, 0x00, 0x00, 0x01, 0x0a, 0x00, 0x00, 0x05,
    ];
    assert_eq!(ARP_RSPN_PACKET_SIZE, 42);
    assert_eq!(p.start, 256);
    assert_eq!(p.end, 256 + 42);
    assert_eq!(&p.buffer[256..298], &reply[..]);
    assert_eq!(p.buffer[255], 0xcc);
    assert_eq!(p.buffer[298], 0xcc);
    assert_eq!(p.size, 512);
}

#[test]
fn the_arp_reply_fits_a_chunk_exactly() {
    let mut p = packet(0, 0, (0..42u8).collect());
    gen_arp_response_packet(&mut p, &MacAddr::new(1, 2, 3, 4, 5, 6));
    assert_eq!(p.end, 42);
    assert_eq!(&p.buffer[0..6], &[6, 7, 8, 9, 10, 11]);
    assert_eq!(&p.buffer[6..12], &[1, 2, 3, 4, 5, 6]);
    assert_eq!(&p.buffer[22..28], &[1, 2, 3, 4, 5, 6]);
    assert_eq!(&p.buffer[32..38], &[6, 7, 8, 9, 10, 11]);
}

fn arp_frame(opcode: u8) -> Vec<u8> {
    let mut f = vec![0u8; 42];
    f[12] = 0x08;
    f[13] = 0x06;
    f[21] = opcode;
    f
}

#[test]
fn is_arp_request_looks_at_type_and_opcode() {
    assert!(is_arp_request(&packet(0, 42, arp_frame(1))));
    assert!(!is_arp_request(&packet(0, 42, arp_frame(2))));
    let mut ip = arp_frame(1);
    ip[13] = 0x00;
    assert!(!is_arp_request(&packet(0, 42, ip)));
    // The header must lie inside the payload.
    assert!(is_arp_request(&packet(0, 22, arp_frame(1))));
    assert!(!is_arp_request(&packet(0, 21, arp_frame(1))));
    assert!(!is_arp_request(&packet(0, 0, arp_frame(1))));
    let mut shifted = vec![0xffu8; 10];
    shifted.extend(arp_frame(1));
    assert!(is_arp_request(&packet(10, 52, shifted.clone())));
    assert!(!is_arp_request(&packet(9, 52, shifted)));
}

#[test]
fn process_packets_keeps_the_arp_requests() {
    let interfaces = vec![Interface {
        name: "veth0".to_string(),
        index: 1,
        mac: None,
        ips: Vec::new(),
    }];
    let mut nic = pv_open(
        &"veth0".to_string(),
        interfaces,
        2048,
        8,
        4,
        4,
        2,
        2,
        Registration::Registered,
        0,
    )
    .unwrap();
    let mut packets = Vec::new();
    for opcode in [2u8, 1, 1, 2, 1] {
        let mut p = pv_alloc(&mut nic).unwrap();
        p.buffer[256..298].copy_from_slice(&arp_frame(opcode));
        p.end = p.start + 42;
        packets.push(p);
    }
    let chunks: Vec<u64> = packets.iter().map(|p| p.private).collect();
    assert_eq!(nic.free_count(), 1);
    // The last packet lies outside the batch.
    assert_eq!(process_packets(&mut nic, &mut packets, 4), 2);
    assert_eq!(packets.len(), 3);
    assert_eq!(packets[0].private, chunks[1]);
    assert_eq!(packets[1].private, chunks[2]);
    assert_eq!(packets[2].private, chunks[4]);
    assert_eq!(nic.free_count(), 3);
    assert_eq!(process_packets(&mut nic, &mut packets, 0), 0);
    assert_eq!(packets.len(), 3);
    assert_eq!(process_packets(&mut nic, &mut packets, 3), 3);
    assert_eq!(nic.free_count(), 3);
}

#[test]
fn write_arp_response_takes_the_octets_as_they_are() {
    let mut p = packet(2, 50, (0..64u8).collect());
    write_arp_response(&mut p, &[0xa1, 0xa2, 0xa3, 0xa4, 0xa5, 0xa6]);
    let reply: Vec<u8> = vec![
        8, 9, 10, 11, 12, 13, 0xa1, 0xa2, 0xa3, 0xa4, 0xa5, 0xa6, 0x08, 0x06, 0x00, 0x01, 0x08,
        0x00, 0x06, 0x04, 0x00, 0x02, 0xa1, 0xa2, 0xa3, 0xa4, 0xa5, 0xa6, 0x0a, 0x00, 0x00, 0x04,
        8, 9, 10, 11, 12, 13, 0x0a, 0x00, 0x00, 0x05,
    ];
    assert_eq!(p.start, 2);
    assert_eq!(p.end, 44);
    assert_eq!(&p.buffer[2..44], &reply[..]);
    assert_eq!(&p.buffer[0..2], &[0, 1]);
    assert_eq!(p.buffer[44], 44);
}
