use virtio::device::{DeviceResources, WakeStep};
use virtio::dma::{DmaMemory, DmaRange, DmaSegment};
use virtio::error::{DeviceDownReason, DeviceError};
use virtio::interrupt::Interrupt;
use virtio::queue::QueueLayout;
use virtio::vsock::{
    packet_bytes, VsockDeclaration, VsockDevice, VsockHeader, VsockPacket, VIRTIO_F_VERSION_1,
    VIRTIO_VSOCK_F_SEQPACKET, VSOCK_OP_REQUEST, VSOCK_OP_RW, VSOCK_TYPE_SEQPACKET,
    VSOCK_TYPE_STREAM,
};

const BASE: u64 = 0x1000;

const RINGS: usize = 0x200;

fn put(memory: &mut [u8], at: usize, bytes: &[u8]) {
    memory[at..at + bytes.len()].copy_from_slice(bytes);
}

fn descriptor(
    memory: &mut [u8],
    queue: usize,
    index: usize,
    address: u64,
    length: u32,
    flags: u16,
    next: u16,
) {
    let at = queue * RINGS + index * 16;
    put(memory, at, &address.to_le_bytes());
    put(memory, at + 8, &length.to_le_bytes());
    put(memory, at + 12, &flags.to_le_bytes());
    put(memory, at + 14, &next.to_le_bytes());
}

fn offer(memory: &mut [u8], queue: usize, heads: &[u16]) {
    let ring = queue * RINGS + 0x80;
    put(memory, ring + 2, &(heads.len() as u16).to_le_bytes());
    for (slot, head) in heads.iter().enumerate() {
        put(memory, ring + 4 + slot * 2, &head.to_le_bytes());
    }
}

fn used(memory: &DmaMemory<'_>, queue: usize, slot: u64) -> (u16, u32, u32) {
    let ring = BASE + (queue * RINGS) as u64 + 0xa0;
    let index = memory.read(DmaRange::new(ring + 2, 2)).expect("index");
    let element = memory.read(DmaRange::new(ring + 4 + slot * 8, 8)).expect("element");
    (
        u16::from_le_bytes(index[..].try_into().expect("index")),
        u32::from_le_bytes(element[0..4].try_into().expect("head")),
        u32::from_le_bytes(element[4..8].try_into().expect("length")),
    )
}

fn resources(memory: &mut [u8], queues: usize, notifiers: usize, features: u64) -> DeviceResources<'_> {
    let layouts = (0..queues)
        .map(|queue| {
            let at = BASE + (queue * RINGS) as u64;
            QueueLayout {
                index: queue as u16,
                size: 8,
                descriptors: DmaRange::new(at, 8 * 16),
                available: DmaRange::new(at + 0x80, 4 + 8 * 2),
                used: DmaRange::new(at + 0xa0, 4 + 8 * 8),
            }
        })
        .collect();
    DeviceResources {
        queues: layouts,
        dma: DmaMemory::new(1, vec![DmaSegment::new(BASE, memory)]).expect("memory"),
        notifier_count: notifiers,
        negotiated_features: features,
    }
}

fn header(length: u32, packet_type: u16) -> VsockHeader {
    VsockHeader {
        source_cid: 3,
        destination_cid: 2,
        source_port: 1024,
        destination_port: 1025,
        length,
        packet_type,
        operation: VSOCK_OP_RW,
        flags: 0x0102_0304,
        buffer_allocation: 65536,
        forward_count: 9,
    }
}

fn packet(packet_type: u16, payload: &[u8]) -> VsockPacket {
    VsockPacket { header: header(payload.len() as u32, packet_type), payload: payload.to_vec() }
}

fn device(memory: &mut [u8], features: u64) -> VsockDevice<'_> {
    VsockDeclaration::new(3, 8, ())
        .expect("declaration")
        .activate(resources(memory, 3, 4, VIRTIO_F_VERSION_1 | features))
        .expect("device")
}

#[test]
fn header_round_trip_preserves_stream_packet() {
    let header = VsockHeader {
        source_cid: 3,
        destination_cid: 2,
        source_port: 1024,
        destination_port: 1025,
        length: 3,
        packet_type: VSOCK_TYPE_STREAM,
        operation: VSOCK_OP_REQUEST,
        flags: 0,
        buffer_allocation: 65536,
        forward_count: 0,
    };
    assert_eq!(
        VsockHeader::decode(&header.encode()).expect("header"),
        header
    );
    VsockPacket {
        header,
        payload: b"abc".to_vec(),
    }
    .validate()
    .expect("packet");
}

#[test]
fn seqpacket_packet_is_valid() {
    let header = VsockHeader {
        source_cid: 3,
        destination_cid: 2,
        source_port: 1024,
        destination_port: 1025,
        length: 3,
        packet_type: VSOCK_TYPE_SEQPACKET,
        operation: VSOCK_OP_REQUEST,
        flags: 0,
        buffer_allocation: 65536,
        forward_count: 0,
    };
    VsockPacket {
        header,
        payload: b"abc".to_vec(),
    }
    .validate()
    .expect("seqpacket");
}

#[test]
fn a_header_has_its_fields_in_place() {
    let bytes = header(3, VSOCK_TYPE_STREAM).encode();
    assert_eq!(bytes[0..8], 3u64.to_le_bytes());
    assert_eq!(bytes[8..16], 2u64.to_le_bytes());
    assert_eq!(bytes[16..20], 1024u32.to_le_bytes());
    assert_eq!(bytes[20..24], 1025u32.to_le_bytes());
    assert_eq!(bytes[24..28], 3u32.to_le_bytes());
    assert_eq!(bytes[28..30], 1u16.to_le_bytes());
    assert_eq!(bytes[30..32], 5u16.to_le_bytes());
    assert_eq!(bytes[32..36], 0x0102_0304u32.to_le_bytes());
    assert_eq!(bytes[36..40], 65536u32.to_le_bytes());
    assert_eq!(bytes[40..44], 9u32.to_le_bytes());
    assert!(matches!(
        VsockHeader::decode(&bytes[..43]),
        Err(DeviceError::Descriptor("invalid virtio-vsock header length"))
    ));
    let raw: Vec<u8> = (0..44).map(|byte| byte * 5).collect();
    assert_eq!(VsockHeader::decode(&raw).expect("header").encode()[..], raw[..]);
}

#[test]
fn invalid_packets_are_refused() {
    assert!(packet(3, b"").validate().is_err());
    let mut wrong = packet(VSOCK_TYPE_STREAM, b"abc");
    wrong.header.length = 2;
    assert!(matches!(
        wrong.validate(),
        Err(DeviceError::Descriptor("invalid virtio-vsock packet"))
    ));
    assert!(packet(VSOCK_TYPE_STREAM, &vec![0u8; 65536]).validate().is_ok());
    assert!(packet(VSOCK_TYPE_STREAM, &vec![0u8; 65537]).validate().is_err());
    assert!(packet_bytes(&wrong).is_err());
}

#[test]
fn guests_have_their_own_context() {
    for cid in [0u64, 1, 2] {
        assert!(matches!(
            VsockDeclaration::new(cid, 8, ()),
            Err(DeviceError::InvalidLayout("invalid virtio-vsock declaration"))
        ));
    }
    assert!(VsockDeclaration::new(3, 12, ()).is_err());
    assert!(VsockDeclaration::new(3, 0, ()).is_err());
    let declaration = VsockDeclaration::new(3, 8, 5u8).expect("declaration");
    assert_eq!(declaration.guest_cid(), 3);
    assert_eq!(*declaration.backend(), 5);
    let layout = declaration.layout();
    assert_eq!(layout.queue_count, 3);
    assert_eq!(layout.notifier_count, 4);
    assert_eq!(layout.required_features, VIRTIO_F_VERSION_1);
    assert_eq!(layout.optional_features, 3);
}

#[test]
fn packets_of_the_guest_reach_the_backend() {
    let mut memory = vec![0u8; 0x3000];
    let sent = packet(VSOCK_TYPE_STREAM, b"payload");
    let bytes = packet_bytes(&sent).expect("bytes");
    put(&mut memory, 0x1000, &bytes);
    descriptor(&mut memory, 1, 0, BASE + 0x1000, 44, 1, 1);
    descriptor(&mut memory, 1, 1, BASE + 0x1000 + 44, 7, 0, 0);
    offer(&mut memory, 1, &[0]);
    let mut device = device(&mut memory, 0);
    let work = device.begin_transmit().expect("transmit").expect("packet");
    assert_eq!(work.packet, sent);
    assert_eq!(work.used_length, 51);
    assert_eq!(
        device.finish_transmit(&work.chain, work.used_length).expect("finish"),
        Interrupt::Queue { queue_index: 1, vector: 1 }
    );
    assert_eq!(used(device.memory(), 1, 0), (1, 0, 51));
    assert!(device.begin_transmit().expect("transmit").is_none());
}

#[test]
fn packets_of_the_backend_reach_the_guest() {
    let mut memory = vec![0u8; 0x3000];
    descriptor(&mut memory, 0, 1, BASE + 0x1000, 40, 3, 2);
    descriptor(&mut memory, 0, 2, BASE + 0x1800, 100, 2, 0);
    offer(&mut memory, 0, &[1]);
    let mut device = device(&mut memory, 0);
    assert!(device.begin_receive(false).expect("idle").is_none());
    let chain = device.begin_receive(true).expect("receive").expect("chain");
    let sent = packet(VSOCK_TYPE_STREAM, b"reply");
    let bytes = packet_bytes(&sent).expect("bytes");
    assert_eq!(
        device.finish_receive(&chain, Some(sent)).expect("finish"),
        Interrupt::Queue { queue_index: 0, vector: 0 }
    );
    let mut found = device.memory().read(DmaRange::new(BASE + 0x1000, 40)).expect("first");
    found.extend(device.memory().read(DmaRange::new(BASE + 0x1800, 9)).expect("second"));
    assert_eq!(found, bytes);
    assert_eq!(used(device.memory(), 0, 0), (1, 1, 49));
}

#[test]
fn seqpacket_passes_only_if_negotiated() {
    let bytes = packet_bytes(&packet(VSOCK_TYPE_SEQPACKET, b"x")).expect("bytes");
    let mut memory = vec![0u8; 0x3000];
    put(&mut memory, 0x1000, &bytes);
    descriptor(&mut memory, 1, 0, BASE + 0x1000, 45, 0, 0);
    descriptor(&mut memory, 0, 0, BASE + 0x1800, 100, 2, 0);
    offer(&mut memory, 1, &[0]);
    offer(&mut memory, 0, &[0]);
    let mut again = memory.clone();
    let mut device_without = device(&mut memory, 0);
    assert!(matches!(
        device_without.begin_transmit(),
        Err(DeviceError::Descriptor("virtio-vsock packet type was not negotiated"))
    ));
    let chain = device_without.begin_receive(true).expect("receive").expect("chain");
    assert!(matches!(
        device_without.finish_receive(&chain, Some(packet(VSOCK_TYPE_SEQPACKET, b"x"))),
        Err(DeviceError::Descriptor("virtio-vsock packet type was not negotiated"))
    ));
    let mut device_with = device(&mut again, VIRTIO_VSOCK_F_SEQPACKET);
    assert!(device_with.begin_transmit().expect("transmit").is_some());
}

#[test]
fn malformed_vsock_chains_are_refused() {
    let mut memory = vec![0u8; 0x3000];
    descriptor(&mut memory, 1, 0, BASE + 0x1000, 43, 0, 0);
    descriptor(&mut memory, 1, 1, BASE + 0x1000, 50, 0, 0);
    descriptor(&mut memory, 1, 2, BASE + 0x1000, 44, 2, 0);
    descriptor(&mut memory, 1, 3, BASE + 0x1000, 44, 0, 0);
    let cases: [(u16, &str); 4] = [
        (0, "short virtio-vsock TX chain"),
        (1, "virtio-vsock TX chain length mismatch"),
        (2, "vsock TX chain is writable"),
        (3, "invalid virtio-vsock packet"),
    ];
    for (head, text) in cases {
        let mut memory = memory.clone();
        offer(&mut memory, 1, &[head]);
        let mut device = device(&mut memory, 0);
        match device.begin_transmit() {
            Err(DeviceError::Descriptor(found)) => assert_eq!(found, text),
            _ => panic!("accepted"),
        }
    }
}

#[test]
fn receive_chains_must_be_writable_and_long_enough() {
    let mut memory = vec![0u8; 0x3000];
    descriptor(&mut memory, 0, 0, BASE + 0x1000, 100, 0, 0);
    descriptor(&mut memory, 0, 1, BASE + 0x1000, 44, 2, 0);
    let mut short = memory.clone();
    offer(&mut memory, 0, &[0]);
    offer(&mut short, 0, &[1]);
    let mut readable = device(&mut memory, 0);
    let chain = readable.begin_receive(true).expect("receive").expect("chain");
    assert!(matches!(
        readable.finish_receive(&chain, Some(packet(VSOCK_TYPE_STREAM, b"x"))),
        Err(DeviceError::Descriptor("vsock RX chain is readable"))
    ));
    let mut small = device(&mut short, 0);
    let chain = small.begin_receive(true).expect("receive").expect("chain");
    assert!(matches!(
        small.finish_receive(&chain, Some(packet(VSOCK_TYPE_STREAM, b"x"))),
        Err(DeviceError::Descriptor("virtio-vsock RX chain is too short"))
    ));
    assert!(matches!(
        small.finish_receive(&chain, None),
        Err(DeviceError::Descriptor("vsock packet disappeared"))
    ));
}

#[test]
fn event_chains_come_back_unused() {
    let mut memory = vec![0u8; 0x3000];
    descriptor(&mut memory, 2, 4, BASE + 0x1000, 4, 2, 0);
    offer(&mut memory, 2, &[4]);
    let mut device = device(&mut memory, 0);
    assert!(device.process_event().expect("event"));
    assert!(!device.process_event().expect("event"));
    assert_eq!(used(device.memory(), 2, 0), (1, 4, 0));
}

#[test]
fn a_vsock_device_works_when_it_was_kicked() {
    let mut memory = vec![0u8; 0x3000];
    let mut device = device(&mut memory, 0);
    assert_eq!(device.on_wake(), WakeStep::Sleep);
    device.kick();
    assert_eq!(device.on_wake(), WakeStep::Process);
    assert_eq!(device.on_wake(), WakeStep::Sleep);
    device.kick();
    device.stop(DeviceDownReason::Stop);
    assert_eq!(device.on_wake(), WakeStep::Drain);
    assert!(matches!(
        device.process_event(),
        Err(DeviceError::Down(DeviceDownReason::Revoked))
    ));
}
