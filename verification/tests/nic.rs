use packetvisor::nic::{
    find_interface, CloseAction, Interface, Nic, NicError, NicState, OpenAction, OpenEvent,
    XdpMode,
};
use packetvisor::packet::Packet;
use packetvisor::umem::{Pool, Registration};
use pnet::datalink::MacAddr;

fn interface(name: &str, index: u32) -> Interface {
    Interface {
        name: name.to_string(),
        index,
        mac: Some(MacAddr::new(2, 0, 0, 0, 0, index as u8)),
        ips: vec![format!("10.0.0.{}/24", index)],
    }
}

fn interfaces() -> Vec<Interface> {
    vec![interface("lo", 1), interface("eth0", 2), interface("eth1", 3)]
}

fn pool(chunk_count: usize, fq: usize, cq: usize, shared: bool) -> Pool {
    Pool::create(2048, chunk_count, fq, cq, shared, Registration::Registered).unwrap()
}

fn open_nic(pool: &mut Pool, name: &str, tx: usize, rx: usize) -> Nic {
    let mut nic = Nic::new(name, interfaces(), tx, rx).unwrap();
    assert_eq!(nic.open(pool, OpenEvent::Start), OpenAction::CreateSocket(XdpMode::Driver));
    assert_eq!(nic.open(pool, OpenEvent::Socket(0)), OpenAction::Ready);
    assert_eq!(nic.state(), NicState::Open);
    nic
}

fn frame(len: usize, seed: u8) -> Vec<u8> {
    (0..len).map(|i| seed.wrapping_add(i as u8)).collect()
}

#[test]
fn find_interface_gives_the_first_of_that_name() {
    let mut all = interfaces();
    all.push(interface("eth0", 9));
    assert_eq!(find_interface(&all, "eth0"), Some(1));
    assert_eq!(find_interface(&all, "lo"), Some(0));
    assert_eq!(find_interface(&all, "eth1"), Some(2));
    assert_eq!(find_interface(&all, "eth"), None);
    assert_eq!(find_interface(&all, ""), None);
    assert_eq!(find_interface(&Vec::new(), "eth0"), None);
}

#[test]
fn new_fails_for_an_unknown_interface() {
    assert_eq!(Nic::new("wlan0", interfaces(), 8, 8).err(), Some(NicError::InterfaceNotFound));
    assert_eq!(Nic::new("eth0", Vec::new(), 8, 8).err(), Some(NicError::InterfaceNotFound));
    let big = (u32::MAX as usize) + 1;
    assert_eq!(Nic::new("eth0", interfaces(), big, 8).err(), Some(NicError::InvalidRingSize));
    assert_eq!(Nic::new("eth0", interfaces(), 8, big).err(), Some(NicError::InvalidRingSize));
    // The name is judged first.
    assert_eq!(Nic::new("wlan0", interfaces(), big, 8).err(), Some(NicError::InterfaceNotFound));
}

#[test]
fn new_binds_the_named_interface_unopened() {
    let nic = Nic::new("eth1", interfaces(), 4, 16).unwrap();
    assert_eq!(nic.state(), NicState::Unopened);
    assert_eq!(nic.interface().name, "eth1");
    assert_eq!(nic.interface().index, 3);
    assert_eq!(nic.interface().mac, Some(MacAddr::new(2, 0, 0, 0, 0, 3)));
    assert_eq!(nic.interface().ips, vec!["10.0.0.3/24".to_string()]);
    assert_eq!(nic.tx_free(), 4);
    assert_eq!(nic.rx_ready(), 0);
    assert_eq!(nic.fill_pending(), 0);
    assert!(!nic.rx_wakeup_due());
    assert!(!nic.tx_wakeup_due());
}

#[test]
fn open_fills_the_fill_queue_to_its_capacity() {
    let mut pool = pool(16, 8, 8, false);
    let nic = open_nic(&mut pool, "eth0", 4, 4);
    assert_eq!(nic.fill_pending(), 8);
    assert_eq!(pool.buffers().free_count(), 8);
    assert_eq!(pool.refcount(), 1);
}

#[test]
fn open_fills_no_more_chunks_than_the_pool_has() {
    let mut pool = pool(3, 8, 8, false);
    let nic = open_nic(&mut pool, "eth0", 4, 4);
    assert_eq!(nic.fill_pending(), 3);
    assert_eq!(pool.buffers().free_count(), 0);
}

#[test]
fn a_binding_that_is_not_open_moves_nothing() {
    let mut pool = pool(16, 8, 8, false);
    let mut nic = Nic::new("eth0", interfaces(), 4, 4).unwrap();
    assert!(nic.receive(&mut pool, 64).is_empty());
    let mut packets = vec![pool.try_alloc_packet().unwrap()];
    assert_eq!(nic.send(&mut pool, &mut packets), 0);
    assert_eq!(packets.len(), 1);
    assert!(!nic.deliver(&mut pool, &frame(60, 1)));
    assert_eq!(nic.transmit(&pool), None);
    assert_eq!(nic.state(), NicState::Unopened);
    assert_eq!(pool.buffers().free_count(), 15);
}

#[test]
fn the_driver_mode_is_tried_first_and_the_generic_mode_after_it() {
    let mut pool = pool(16, 8, 8, false);
    pool.buffers_mut().store(0, &vec![0xee; 4]);
    let mut nic = Nic::new("eth0", interfaces(), 4, 4).unwrap();
    assert_eq!(nic.open(&mut pool, OpenEvent::Start), OpenAction::CreateSocket(XdpMode::Driver));
    assert_eq!(nic.state(), NicState::Driver);
    // The first binding of a pool has the region registered anew.
    assert_eq!(nic.open(&mut pool, OpenEvent::Socket(-95)), OpenAction::RebuildRegion);
    assert_eq!(nic.state(), NicState::Rebuilding);
    assert_eq!(
        nic.open(&mut pool, OpenEvent::Region(Registration::Registered)),
        OpenAction::CreateSocket(XdpMode::Generic)
    );
    assert_eq!(nic.state(), NicState::Generic);
    assert_eq!(pool.buffers().load(0, 4), vec![0u8; 4]);
    assert_eq!(nic.open(&mut pool, OpenEvent::Socket(0)), OpenAction::Ready);
    assert_eq!(nic.state(), NicState::Open);
    assert_eq!(nic.fill_pending(), 8);
    assert_eq!(pool.refcount(), 1);
}

#[test]
fn the_opening_fails_when_the_generic_mode_fails_too() {
    let mut pool = pool(16, 8, 8, false);
    let mut nic = Nic::new("eth0", interfaces(), 4, 4).unwrap();
    let _ = nic.open(&mut pool, OpenEvent::Start);
    let _ = nic.open(&mut pool, OpenEvent::Socket(-95));
    let _ = nic.open(&mut pool, OpenEvent::Region(Registration::Registered));
    assert_eq!(
        nic.open(&mut pool, OpenEvent::Socket(-16)),
        OpenAction::Fail(NicError::SocketError(-16))
    );
    assert_eq!(nic.state(), NicState::Closed);
    assert_eq!(pool.refcount(), 0);
    assert_eq!(pool.buffers().free_count(), 16);
    // No way leads back.
    assert_eq!(nic.open(&mut pool, OpenEvent::Start), OpenAction::Fail(NicError::OutOfTurn));
    assert_eq!(nic.open(&mut pool, OpenEvent::Socket(0)), OpenAction::Fail(NicError::OutOfTurn));
    assert_eq!(nic.state(), NicState::Closed);
}

#[test]
fn the_opening_fails_when_the_region_cannot_be_registered_anew() {
    let mut pool = pool(16, 8, 8, false);
    let mut nic = Nic::new("eth0", interfaces(), 4, 4).unwrap();
    let _ = nic.open(&mut pool, OpenEvent::Start);
    let _ = nic.open(&mut pool, OpenEvent::Socket(-1));
    assert_eq!(
        nic.open(&mut pool, OpenEvent::Region(Registration::Refused(-12))),
        OpenAction::Fail(NicError::RegistrationError(-12))
    );
    assert_eq!(nic.state(), NicState::Closed);

    let mut nic = Nic::new("eth0", interfaces(), 4, 4).unwrap();
    let _ = nic.open(&mut pool, OpenEvent::Start);
    let _ = nic.open(&mut pool, OpenEvent::Socket(-1));
    assert_eq!(
        nic.open(&mut pool, OpenEvent::Region(Registration::MapFailed)),
        OpenAction::Fail(NicError::AllocationError)
    );
    assert_eq!(nic.state(), NicState::Closed);
}

#[test]
fn an_event_out_of_turn_changes_nothing() {
    let mut pool = pool(16, 8, 8, false);
    let mut nic = Nic::new("eth0", interfaces(), 4, 4).unwrap();
    assert_eq!(nic.open(&mut pool, OpenEvent::Socket(0)), OpenAction::Fail(NicError::OutOfTurn));
    assert_eq!(nic.state(), NicState::Unopened);
    let _ = nic.open(&mut pool, OpenEvent::Start);
    assert_eq!(
        nic.open(&mut pool, OpenEvent::Region(Registration::Registered)),
        OpenAction::Fail(NicError::OutOfTurn)
    );
    assert_eq!(nic.open(&mut pool, OpenEvent::Start), OpenAction::Fail(NicError::OutOfTurn));
    assert_eq!(nic.state(), NicState::Driver);
    assert_eq!(nic.open(&mut pool, OpenEvent::Socket(0)), OpenAction::Ready);
    assert_eq!(nic.open(&mut pool, OpenEvent::Socket(0)), OpenAction::Fail(NicError::OutOfTurn));
    assert_eq!(nic.state(), NicState::Open);
    assert_eq!(pool.refcount(), 1);
    assert_eq!(nic.fill_pending(), 8);
}

#[test]
fn a_pool_that_is_not_shared_takes_one_binding() {
    let mut pool = pool(16, 4, 4, false);
    let _first = open_nic(&mut pool, "eth0", 4, 4);
    let mut second = Nic::new("eth1", interfaces(), 4, 4).unwrap();
    assert_eq!(second.open(&mut pool, OpenEvent::Start), OpenAction::Fail(NicError::PoolBusy));
    assert_eq!(second.state(), NicState::Closed);
    assert_eq!(pool.refcount(), 1);
    assert!(!pool.takes_binding());
}

#[test]
fn a_binding_that_loses_the_race_for_an_unshared_pool_fails() {
    let mut pool = pool(16, 4, 4, false);
    let mut first = Nic::new("eth0", interfaces(), 4, 4).unwrap();
    let mut second = Nic::new("eth1", interfaces(), 4, 4).unwrap();
    let _ = first.open(&mut pool, OpenEvent::Start);
    let _ = second.open(&mut pool, OpenEvent::Start);
    assert_eq!(first.open(&mut pool, OpenEvent::Socket(0)), OpenAction::Ready);
    assert_eq!(second.open(&mut pool, OpenEvent::Socket(0)), OpenAction::Fail(NicError::PoolBusy));
    assert_eq!(second.state(), NicState::Closed);
    assert_eq!(pool.refcount(), 1);
    assert_eq!(pool.buffers().free_count(), 12);
}

#[test]
fn a_shared_pool_takes_several_bindings() {
    let mut pool = pool(16, 4, 4, true);
    let first = open_nic(&mut pool, "eth0", 4, 4);
    assert_eq!(first.fill_pending(), 4);
    let mut second = Nic::new("eth1", interfaces(), 4, 4).unwrap();
    let _ = second.open(&mut pool, OpenEvent::Start);
    // A further binding retries in generic mode without touching the region.
    assert_eq!(
        second.open(&mut pool, OpenEvent::Socket(-95)),
        OpenAction::CreateSocket(XdpMode::Generic)
    );
    assert_eq!(second.state(), NicState::Generic);
    assert_eq!(second.open(&mut pool, OpenEvent::Socket(0)), OpenAction::Ready);
    assert_eq!(second.fill_pending(), 4);
    assert_eq!(pool.refcount(), 2);
    assert_eq!(pool.buffers().free_count(), 8);
}

#[test]
fn receive_returns_the_frames_that_are_queued() {
    let mut pool = pool(16, 8, 8, false);
    let mut nic = open_nic(&mut pool, "eth0", 4, 8);
    let frames = vec![frame(60, 1), frame(100, 2), frame(1500, 3)];
    for f in frames.iter() {
        assert!(nic.deliver(&mut pool, f));
    }
    assert_eq!(nic.rx_ready(), 3);
    assert_eq!(nic.fill_pending(), 5);
    assert_eq!(pool.buffers().free_count(), 8);

    let packets = nic.receive(&mut pool, 64);
    assert_eq!(packets.len(), 3);
    for (packet, f) in packets.iter().zip(frames.iter()) {
        assert_eq!(packet.end() - packet.start(), f.len());
        assert_eq!(packet.start(), 256);
        assert_eq!(packet.buffer_size(), 2048);
        assert_eq!(&packet.get_buffer(), f);
        assert_eq!(packet.chunk_addr() % 2048, 0);
    }
    // The fill queue is full again: three chunks went in.
    assert_eq!(nic.fill_pending(), 8);
    assert_eq!(pool.buffers().free_count(), 5);
    assert_eq!(nic.rx_ready(), 0);
    // No two packets lease the same chunk.
    assert_ne!(packets[0].chunk_addr(), packets[1].chunk_addr());
    assert_ne!(packets[0].chunk_addr(), packets[2].chunk_addr());
    assert_ne!(packets[1].chunk_addr(), packets[2].chunk_addr());
    // Frames arrive in the chunks that the fill queue offered, in order.
    assert_eq!(packets[0].chunk_addr(), 15 * 2048);
    assert_eq!(packets[1].chunk_addr(), 14 * 2048);
    assert_eq!(packets[2].chunk_addr(), 13 * 2048);
}

#[test]
fn receive_takes_no_more_than_asked_for() {
    let mut pool = pool(16, 8, 8, false);
    let mut nic = open_nic(&mut pool, "eth0", 4, 8);
    for i in 0..5u8 {
        assert!(nic.deliver(&mut pool, &frame(64 + i as usize, i)));
    }
    let first = nic.receive(&mut pool, 2);
    assert_eq!(first.len(), 2);
    assert_eq!(first[0].len(), 64);
    assert_eq!(first[1].len(), 65);
    assert_eq!(nic.rx_ready(), 3);
    // Two were asked for, so two chunks went into the fill queue.
    assert_eq!(nic.fill_pending(), 5);
    let rest = nic.receive(&mut pool, 64);
    assert_eq!(rest.len(), 3);
    assert_eq!(rest[0].len(), 66);
    assert_eq!(rest[2].len(), 68);
    assert_eq!(nic.fill_pending(), 8);
    assert!(nic.receive(&mut pool, 64).is_empty());
    assert!(nic.receive(&mut pool, 0).is_empty());
}

#[test]
fn receive_with_no_frame_is_no_error() {
    let mut pool = pool(16, 8, 8, false);
    let mut nic = open_nic(&mut pool, "eth0", 4, 8);
    assert!(nic.receive(&mut pool, 64).is_empty());
    assert_eq!(nic.fill_pending(), 8);
    assert_eq!(pool.buffers().free_count(), 8);
    assert_eq!(nic.state(), NicState::Open);
}

#[test]
fn deliver_drops_what_cannot_land() {
    let mut pool = pool(4, 2, 2, false);
    let mut nic = open_nic(&mut pool, "eth0", 4, 1);
    // Too long for a chunk behind the headroom.
    assert!(!nic.deliver(&mut pool, &frame(2048 - 256 + 1, 0)));
    assert!(nic.deliver(&mut pool, &frame(2048 - 256, 0)));
    // The receive ring has one slot.
    assert!(!nic.deliver(&mut pool, &frame(60, 0)));
    assert_eq!(nic.fill_pending(), 1);
    let got = nic.receive(&mut pool, 8);
    assert_eq!(got.len(), 1);
    assert_eq!(got[0].len(), 1792);
    assert_eq!(got[0].end(), 2048);
    assert!(nic.deliver(&mut pool, &Vec::new()));
    let got = nic.receive(&mut pool, 8);
    assert_eq!(got.len(), 1);
    assert_eq!(got[0].len(), 0);
}

#[test]
fn deliver_needs_a_chunk_in_the_fill_queue() {
    let mut pool = pool(2, 2, 2, false);
    let mut nic = open_nic(&mut pool, "eth0", 4, 4);
    assert!(nic.deliver(&mut pool, &frame(60, 0)));
    assert!(nic.deliver(&mut pool, &frame(60, 0)));
    assert!(!nic.deliver(&mut pool, &frame(60, 0)));
    // Nothing is free to refill with until a packet is given back.
    let mut got = nic.receive(&mut pool, 8);
    assert_eq!(got.len(), 2);
    assert_eq!(nic.fill_pending(), 0);
    assert!(!nic.deliver(&mut pool, &frame(60, 0)));
    assert!(pool.free_packet(got.pop().unwrap()).is_ok());
    assert!(nic.receive(&mut pool, 8).is_empty());
    assert_eq!(nic.fill_pending(), 1);
    assert!(nic.deliver(&mut pool, &frame(60, 0)));
}

#[test]
fn send_with_a_full_ring_sends_nothing() {
    let mut pool = pool(16, 4, 4, false);
    let mut nic = open_nic(&mut pool, "eth0", 2, 4);
    let mut packets: Vec<Packet> = Vec::new();
    for i in 0..3u8 {
        let mut packet = nic.alloc_packet(&mut pool).unwrap();
        assert!(packet.replace_data(&frame(60, i)).is_ok());
        packets.push(packet);
    }
    assert_eq!(nic.send(&mut pool, &mut packets), 0);
    assert_eq!(packets.len(), 3);
    assert_eq!(packets[0].get_buffer(), frame(60, 0));
    assert_eq!(packets[2].get_buffer(), frame(60, 2));
    assert_eq!(nic.tx_pending(), 0);
    assert_eq!(nic.tx_free(), 2);
    assert!(!nic.tx_wakeup_due());
    assert_eq!(nic.transmit(&pool), None);
}

#[test]
fn send_hands_all_packets_over_in_order() {
    let mut pool = pool(16, 4, 4, false);
    let mut nic = open_nic(&mut pool, "eth0", 4, 4);
    let mut packets: Vec<Packet> = Vec::new();
    let mut chunks: Vec<u64> = Vec::new();
    for i in 0..3u8 {
        let mut packet = nic.alloc_packet(&mut pool).unwrap();
        assert!(packet.resize(40 + i as usize).is_ok());
        let data = frame(40 + i as usize, 10 * i);
        packet.get_buffer_mut().copy_from_slice(&data);
        chunks.push(packet.chunk_addr());
        packets.push(packet);
    }
    let free_before = pool.buffers().free_count();
    assert_eq!(nic.send(&mut pool, &mut packets), 3);
    assert!(packets.is_empty());
    assert_eq!(nic.tx_pending(), 3);
    assert_eq!(nic.tx_free(), 1);
    // The chunks belong to the kernel until it completes them.
    assert_eq!(pool.buffers().free_count(), free_before);

    assert_eq!(nic.transmit(&pool), Some(frame(40, 0)));
    assert_eq!(nic.transmit(&pool), Some(frame(41, 10)));
    assert_eq!(nic.completions_ready(), 2);
    assert_eq!(nic.tx_pending(), 1);

    // The next send reclaims what was completed.
    let mut none: Vec<Packet> = Vec::new();
    assert_eq!(nic.send(&mut pool, &mut none), 0);
    assert_eq!(nic.completions_ready(), 0);
    assert_eq!(pool.buffers().free_count(), free_before + 2);
    assert_eq!(pool.alloc_addr(), Ok(chunks[1]));
    assert_eq!(pool.alloc_addr(), Ok(chunks[0]));

    assert_eq!(nic.transmit(&pool), Some(frame(42, 20)));
    assert_eq!(nic.transmit(&pool), None);
}

#[test]
fn send_fills_the_ring_to_the_last_slot() {
    let mut pool = pool(16, 4, 4, false);
    let mut nic = open_nic(&mut pool, "eth0", 2, 4);
    let mut packets = vec![
        nic.alloc_packet(&mut pool).unwrap(),
        nic.alloc_packet(&mut pool).unwrap(),
    ];
    assert_eq!(nic.send(&mut pool, &mut packets), 2);
    assert!(packets.is_empty());
    assert_eq!(nic.tx_free(), 0);
    let mut more = vec![nic.alloc_packet(&mut pool).unwrap()];
    assert_eq!(nic.send(&mut pool, &mut more), 0);
    assert_eq!(more.len(), 1);
    assert!(nic.transmit(&pool).is_some());
    assert_eq!(nic.send(&mut pool, &mut more), 1);
    assert!(more.is_empty());
}

#[test]
fn transmit_waits_for_room_in_the_completion_queue() {
    let mut pool = pool(16, 4, 1, false);
    let mut nic = open_nic(&mut pool, "eth0", 4, 4);
    let mut packets = vec![
        nic.alloc_packet(&mut pool).unwrap(),
        nic.alloc_packet(&mut pool).unwrap(),
    ];
    assert_eq!(nic.send(&mut pool, &mut packets), 2);
    assert_eq!(nic.transmit(&pool), Some(Vec::new()));
    assert_eq!(nic.transmit(&pool), None);
    assert_eq!(nic.tx_pending(), 1);
    let mut none: Vec<Packet> = Vec::new();
    assert_eq!(nic.send(&mut pool, &mut none), 0);
    assert_eq!(nic.transmit(&pool), Some(Vec::new()));
}

#[test]
fn a_received_packet_can_be_sent_back() {
    let mut pool = pool(8, 4, 4, false);
    let mut nic = open_nic(&mut pool, "eth0", 4, 4);
    assert!(nic.deliver(&mut pool, &frame(64, 7)));
    let mut packets = nic.receive(&mut pool, 64);
    assert_eq!(packets.len(), 1);
    let chunk = packets[0].chunk_addr();
    {
        let payload = packets[0].get_buffer_mut();
        payload.swap(0, 1);
    }
    assert_eq!(nic.send(&mut pool, &mut packets), 1);
    let mut expected = frame(64, 7);
    expected.swap(0, 1);
    assert_eq!(nic.transmit(&pool), Some(expected));
    let mut none: Vec<Packet> = Vec::new();
    let free = pool.buffers().free_count();
    assert_eq!(nic.send(&mut pool, &mut none), 0);
    assert_eq!(pool.buffers().free_count(), free + 1);
    assert_eq!(pool.alloc_addr(), Ok(chunk));
}

#[test]
fn the_kernel_is_woken_when_it_asks_for_it() {
    let mut pool = pool(16, 4, 4, false);
    let mut nic = open_nic(&mut pool, "eth0", 1, 4);
    let _ = nic.receive(&mut pool, 8);
    assert!(!nic.rx_wakeup_due());
    let mut packets = vec![nic.alloc_packet(&mut pool).unwrap()];
    assert_eq!(nic.send(&mut pool, &mut packets), 1);
    assert!(!nic.tx_wakeup_due());

    nic.request_wakeup(true, true);
    let _ = nic.receive(&mut pool, 8);
    assert!(nic.rx_wakeup_due());
    // The ring is full: nothing is handed over, and the kernel is woken all
    // the same, so that it drains the ring.
    let mut packets = vec![nic.alloc_packet(&mut pool).unwrap()];
    assert_eq!(nic.send(&mut pool, &mut packets), 0);
    assert_eq!(packets.len(), 1);
    assert!(nic.tx_wakeup_due());
    nic.request_wakeup(true, false);
    assert_eq!(nic.send(&mut pool, &mut packets), 0);
    assert!(!nic.tx_wakeup_due());
    nic.request_wakeup(true, true);
    assert!(nic.transmit(&pool).is_some());
    assert_eq!(nic.send(&mut pool, &mut packets), 1);
    assert!(nic.tx_wakeup_due());
    // An empty batch asks the ring too.
    let mut none: Vec<Packet> = Vec::new();
    assert_eq!(nic.send(&mut pool, &mut none), 0);
    assert!(nic.tx_wakeup_due());

    nic.request_wakeup(false, true);
    let _ = nic.receive(&mut pool, 8);
    assert!(!nic.rx_wakeup_due());
}

#[test]
fn close_deletes_once() {
    let mut pool = pool(16, 4, 4, false);
    let mut nic = open_nic(&mut pool, "eth0", 4, 4);
    assert_eq!(pool.refcount(), 1);
    assert_eq!(nic.close(&mut pool), CloseAction { delete_socket: true, delete_region: true });
    assert_eq!(nic.state(), NicState::Closed);
    assert_eq!(pool.refcount(), 0);
    let free = pool.buffers().free_count();
    assert_eq!(nic.close(&mut pool), CloseAction { delete_socket: false, delete_region: false });
    assert_eq!(nic.close(&mut pool), CloseAction { delete_socket: false, delete_region: false });
    assert_eq!(nic.state(), NicState::Closed);
    assert_eq!(pool.refcount(), 0);
    assert_eq!(pool.buffers().free_count(), free);
    assert!(nic.receive(&mut pool, 8).is_empty());
}

#[test]
fn the_last_binding_takes_the_region_with_it() {
    let mut pool = pool(16, 4, 4, true);
    let mut first = open_nic(&mut pool, "eth0", 4, 4);
    let mut second = open_nic(&mut pool, "eth1", 4, 4);
    assert_eq!(pool.refcount(), 2);
    assert_eq!(first.close(&mut pool), CloseAction { delete_socket: true, delete_region: false });
    assert_eq!(pool.refcount(), 1);
    assert_eq!(first.close(&mut pool), CloseAction { delete_socket: false, delete_region: false });
    assert_eq!(pool.refcount(), 1);
    assert_eq!(second.close(&mut pool), CloseAction { delete_socket: true, delete_region: true });
    assert_eq!(pool.refcount(), 0);
}

#[test]
fn closing_a_binding_that_never_opened_deletes_nothing() {
    let mut pool = pool(16, 4, 4, false);
    let mut nic = Nic::new("eth0", interfaces(), 4, 4).unwrap();
    assert_eq!(nic.close(&mut pool), CloseAction { delete_socket: false, delete_region: false });
    assert_eq!(nic.state(), NicState::Closed);
    let mut nic = Nic::new("eth0", interfaces(), 4, 4).unwrap();
    let _ = nic.open(&mut pool, OpenEvent::Start);
    assert_eq!(nic.close(&mut pool), CloseAction { delete_socket: false, delete_region: false });
    assert_eq!(nic.open(&mut pool, OpenEvent::Socket(0)), OpenAction::Fail(NicError::OutOfTurn));
    assert_eq!(pool.refcount(), 0);
}

#[test]
fn a_pool_whose_last_binding_closed_must_be_registered_anew() {
    let mut pool = pool(16, 4, 4, false);
    let mut nic = open_nic(&mut pool, "eth0", 4, 4);
    assert!(pool.is_registered());
    let _ = nic.close(&mut pool);
    assert!(!pool.is_registered());
    assert!(!pool.takes_binding());
    let mut next = Nic::new("eth0", interfaces(), 4, 4).unwrap();
    assert_eq!(next.open(&mut pool, OpenEvent::Start), OpenAction::Fail(NicError::PoolBusy));
    assert_eq!(next.state(), NicState::Closed);

    assert_eq!(pool.re_init(Registration::Registered), Ok(()));
    assert!(pool.is_registered());
    assert_eq!(pool.buffers().free_count(), 16);
    let again = open_nic(&mut pool, "eth0", 4, 4);
    assert_eq!(again.fill_pending(), 4);
    assert_eq!(pool.refcount(), 1);
}

#[test]
fn the_kernel_side_moves_one_descriptor_at_a_time() {
    let mut pool = pool(4, 2, 2, false);
    let mut nic = open_nic(&mut pool, "eth0", 2, 2);
    // Fill queue to the wire.
    assert_eq!(nic.take_fill(), Some(3 * 2048));
    assert_eq!(nic.take_fill(), Some(2 * 2048));
    assert_eq!(nic.take_fill(), None);
    // Wire to receive ring: the frame must lie behind a chunk's headroom.
    assert!(!nic.land(&mut pool, 3 * 2048, &frame(60, 1)));
    assert!(!nic.land(&mut pool, 3 * 2048 + 255, &frame(60, 1)));
    assert!(!nic.land(&mut pool, 4 * 2048 + 256, &frame(60, 1)));
    assert!(!nic.land(&mut pool, 3 * 2048 + 256, &frame(1793, 1)));
    assert!(!nic.land(&mut pool, 100, &frame(60, 1)));
    assert!(nic.land(&mut pool, 3 * 2048 + 256, &frame(60, 1)));
    assert!(nic.land(&mut pool, 2 * 2048 + 256, &frame(1792, 2)));
    assert!(!nic.land(&mut pool, 2 * 2048 + 256, &frame(1, 2)));
    let mut packets = nic.receive(&mut pool, 8);
    assert_eq!(packets.len(), 2);
    assert_eq!(packets[0].chunk_addr(), 3 * 2048);
    assert_eq!(packets[0].get_buffer(), frame(60, 1));
    assert_eq!(packets[1].get_buffer(), frame(1792, 2));

    // Transmit ring to the wire, and the completion back.
    assert_eq!(nic.send(&mut pool, &mut packets), 2);
    let (desc, bytes) = nic.take_transmit(&pool).unwrap();
    assert_eq!(desc.addr, 3 * 2048 + 256);
    assert_eq!(desc.len, 60);
    assert_eq!(bytes, frame(60, 1));
    assert!(nic.complete(desc.addr));
    let (desc, bytes) = nic.take_transmit(&pool).unwrap();
    assert_eq!(desc.addr, 2 * 2048 + 256);
    assert_eq!(desc.len, 1792);
    assert_eq!(bytes, frame(1792, 2));
    assert!(nic.take_transmit(&pool).is_none());
    assert!(nic.complete(desc.addr));
    assert!(!nic.complete(0));
    assert_eq!(nic.completions_ready(), 2);
    let mut none: Vec<Packet> = Vec::new();
    assert_eq!(nic.send(&mut pool, &mut none), 0);
    assert_eq!(pool.buffers().free_count(), 2);

    let _ = nic.close(&mut pool);
    assert_eq!(nic.take_fill(), None);
    assert!(!nic.complete(0));
}

#[test]
fn the_descriptor_names_the_start_of_the_payload() {
    let mut pool = pool(8, 1, 4, false);
    let mut nic = open_nic(&mut pool, "eth0", 4, 4);
    let mut first = nic.alloc_packet(&mut pool).unwrap();
    let mut second = nic.alloc_packet(&mut pool).unwrap();
    assert!(first.resize(100).is_ok());
    assert!(second.replace_data(&frame(7, 3)).is_ok());
    let chunks = [first.chunk_addr(), second.chunk_addr()];
    let mut packets = vec![first, second];
    assert_eq!(nic.send(&mut pool, &mut packets), 2);
    let (desc, bytes) = nic.take_transmit(&pool).unwrap();
    assert_eq!(desc.addr, chunks[0] + 256);
    assert_eq!(desc.len, 100);
    assert_eq!(bytes.len(), 100);
    let (desc, bytes) = nic.take_transmit(&pool).unwrap();
    assert_eq!(desc.addr, chunks[1]);
    assert_eq!(desc.len, 7);
    assert_eq!(bytes, frame(7, 3));
}

#[test]
fn an_empty_packet_at_the_end_of_its_chunk_is_sent_from_there() {
    let mut pool = Pool::create(128, 4, 1, 4, false, Registration::Registered).unwrap();
    let mut nic = open_nic(&mut pool, "eth0", 4, 4);
    let packet = nic.alloc_packet(&mut pool).unwrap();
    let chunk = packet.chunk_addr();
    assert_eq!(chunk, 256);
    assert_eq!(packet.start(), 128);
    assert_eq!(packet.end(), 128);
    let mut packets = vec![packet];
    assert_eq!(nic.send(&mut pool, &mut packets), 1);
    let (desc, bytes) = nic.take_transmit(&pool).unwrap();
    assert_eq!(desc.addr, chunk + 128);
    assert_eq!(desc.len, 0);
    assert!(bytes.is_empty());
}

#[test]
fn every_chunk_is_in_one_hand_through_a_round_trip() {
    let mut pool = pool(6, 2, 4, false);
    let mut nic = open_nic(&mut pool, "eth0", 4, 4);
    let mut held: Vec<Packet> = Vec::new();
    for round in 0..20u8 {
        assert!(nic.deliver(&mut pool, &frame(64, round)));
        let mut got = nic.receive(&mut pool, 8);
        assert_eq!(got.len(), 1);
        if let Some(own) = nic.alloc_packet(&mut pool) {
            assert_ne!(own.chunk_addr(), got[0].chunk_addr());
            held.push(own);
        }
        for other in held.iter() {
            assert_ne!(other.chunk_addr(), got[0].chunk_addr());
        }
        assert_eq!(nic.send(&mut pool, &mut got), 1);
        assert_eq!(nic.transmit(&pool), Some(frame(64, round)));
        if held.len() > 2 {
            assert!(pool.free_packet(held.remove(0)).is_ok());
        }
        let in_rings = nic.fill_pending() + nic.rx_ready() + nic.tx_pending()
            + nic.completions_ready();
        assert_eq!(pool.buffers().free_count() + held.len() + in_rings as usize, 6);
    }
}
