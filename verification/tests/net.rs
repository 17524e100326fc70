use virtio::device::{DeviceResources, WakeStep};
use virtio::dma::{DmaMemory, DmaRange, DmaSegment};
use virtio::error::{DeviceDownReason, DeviceError};
use virtio::interrupt::Interrupt;
use virtio::net::{
    control_queue, rx_queue, tx_queue, NetDeclaration, NetDevice, VIRTIO_F_VERSION_1,
    VIRTIO_NET_F_CTRL_VQ, VIRTIO_NET_F_MAC, VIRTIO_NET_F_MQ, VIRTIO_NET_F_STATUS,
    VIRTIO_NET_S_LINK_UP,
};
use virtio::queue::QueueLayout;

const BASE: u64 = 0x1000;

const RINGS: usize = 0x200;

fn put(memory: &mut [u8], at: usize, bytes: &[u8]) {
    memory[at..at + bytes.len()].copy_from_slice(bytes);
}

fn descriptor(
    memory: &mut [u8],
    queue: usize,
    index: usize,
    address: u64,
    length: u32,
    flags: u16,
    next: u16,
) {
    let at = queue * RINGS + index * 16;
    put(memory, at, &address.to_le_bytes());
    put(memory, at + 8, &length.to_le_bytes());
    put(memory, at + 12, &flags.to_le_bytes());
    put(memory, at + 14, &next.to_le_bytes());
}

fn offer(memory: &mut [u8], queue: usize, heads: &[u16]) {
    let ring = queue * RINGS + 0x80;
    put(memory, ring + 2, &(heads.len() as u16).to_le_bytes());
    for (slot, head) in heads.iter().enumerate() {
        put(memory, ring + 4 + slot * 2, &head.to_le_bytes());
    }
}

fn used(memory: &DmaMemory<'_>, queue: usize, slot: u64) -> (u16, u32, u32) {
    let ring = BASE + (queue * RINGS) as u64 + 0xa0;
    let index = memory.read(DmaRange::new(ring + 2, 2)).expect("index");
    let element = memory.read(DmaRange::new(ring + 4 + slot * 8, 8)).expect("element");
    (
        u16::from_le_bytes(index[..].try_into().expect("index")),
        u32::from_le_bytes(element[0..4].try_into().expect("head")),
        u32::from_le_bytes(element[4..8].try_into().expect("length")),
    )
}

fn resources(memory: &mut [u8], queues: usize, notifiers: usize, features: u64) -> DeviceResources<'_> {
    let layouts = (0..queues)
        .map(|queue| {
            let at = BASE + (queue * RINGS) as u64;
            QueueLayout {
                index: queue as u16,
                size: 8,
                descriptors: DmaRange::new(at, 8 * 16),
                available: DmaRange::new(at + 0x80, 4 + 8 * 2),
                used: DmaRange::new(at + 0xa0, 4 + 8 * 8),
            }
        })
        .collect();
    DeviceResources {
        queues: layouts,
        dma: DmaMemory::new(1, vec![DmaSegment::new(BASE, memory)]).expect("memory"),
        notifier_count: notifiers,
        negotiated_features: features,
    }
}

struct TestBackend;

const MAC: [u8; 6] = [0x02, 0, 0, 0, 0, 1];

fn device(memory: &mut [u8], pairs: usize) -> NetDevice<'_> {
    NetDeclaration::new(MAC, pairs, 8, ())
        .expect("declaration")
        .activate(resources(memory, pairs * 2 + 1, pairs * 2 + 2, VIRTIO_F_VERSION_1))
        .expect("device")
}

#[test]
fn declaration_exposes_modern_link_up_config() {
    let declaration =
        NetDeclaration::new([0x02, 0, 0, 0, 0, 1], 4, 128, TestBackend).expect("valid declaration");
    let layout = declaration.layout();
    assert_eq!(layout.queue_count, 9);
    assert_eq!(layout.notifier_count, 10);
    assert_eq!(layout.required_features, VIRTIO_F_VERSION_1);
    assert_eq!(
        layout.optional_features,
        VIRTIO_NET_F_MAC | VIRTIO_NET_F_STATUS | VIRTIO_NET_F_CTRL_VQ | VIRTIO_NET_F_MQ
    );
    let config = declaration.config_bytes();
    assert_eq!(&config[..6], &[0x02, 0, 0, 0, 0, 1]);
    assert_eq!(
        u16::from_le_bytes(config[6..8].try_into().expect("status")),
        VIRTIO_NET_S_LINK_UP
    );
    assert_eq!(
        u16::from_le_bytes(config[8..10].try_into().expect("pairs")),
        4
    );
    assert!(NetDeclaration::new([0; 6], 1, 128, TestBackend).is_err());
    assert!(NetDeclaration::new([1, 0, 0, 0, 0, 1], 1, 128, TestBackend).is_err());
}

#[test]
fn invalid_net_declarations_are_told_apart() {
    assert!(matches!(
        NetDeclaration::new(MAC, 0, 8, ()),
        Err(DeviceError::InvalidLayout("invalid virtio-net queue pair count"))
    ));
    assert!(NetDeclaration::new(MAC, 1, 8, ()).is_ok());
    assert!(NetDeclaration::new(MAC, 4, 8, ()).is_ok());
    for pairs in [5, 65535, usize::MAX] {
        assert!(matches!(
            NetDeclaration::new([0; 6], pairs, 0, ()),
            Err(DeviceError::InvalidLayout("invalid virtio-net queue pair count"))
        ));
    }
    assert!(matches!(
        NetDeclaration::new(MAC, 1, 0, ()),
        Err(DeviceError::InvalidLayout("invalid virtio-net queue size"))
    ));
    assert!(matches!(
        NetDeclaration::new([0x03, 0, 0, 0, 0, 1], 1, 8, ()),
        Err(DeviceError::InvalidLayout("invalid virtio-net MAC address"))
    ));
    let declaration = NetDeclaration::new(MAC, 2, 8, 6u8).expect("declaration").clone();
    assert_eq!(declaration.mac(), MAC);
    assert_eq!(*declaration.backend(), 6);
    assert_eq!(declaration.config_bytes()[8..10], 2u16.to_le_bytes());
}

#[test]
fn queues_of_a_pair_lie_side_by_side() {
    assert_eq!((rx_queue(0), tx_queue(0)), (0, 1));
    assert_eq!((rx_queue(3), tx_queue(3)), (6, 7));
    assert_eq!(control_queue(4), 8);
}

fn control(memory: &mut [u8], queue: usize, command: [u8; 2], pairs: u16) {
    put(memory, 0x1800, &command);
    put(memory, 0x1810, &pairs.to_le_bytes());
    memory[0x1820] = 0xff;
    descriptor(memory, queue, 0, BASE + 0x1800, 2, 1, 1);
    descriptor(memory, queue, 1, BASE + 0x1810, 2, 1, 2);
    descriptor(memory, queue, 2, BASE + 0x1820, 1, 2, 0);
    offer(memory, queue, &[0]);
}

#[test]
fn a_driver_sets_the_number_of_pairs() {
    let cases: [([u8; 2], u16, u8, usize); 5] = [
        ([4, 0], 2, 0, 2),
        ([4, 0], 0, 1, 1),
        ([4, 0], 3, 1, 1),
        ([4, 1], 2, 1, 1),
        ([3, 0], 2, 1, 1),
    ];
    for (command, asked, status, active) in cases {
        let mut memory = vec![0u8; 0x3000];
        control(&mut memory, 4, command, asked);
        let mut device = device(&mut memory, 2);
        assert_eq!(device.maximum_queue_pairs(), 2);
        assert_eq!(device.active_queue_pairs(), 1);
        assert_eq!(
            device.process_control().expect("control"),
            Some(Interrupt::Queue { queue_index: 4, vector: 4 })
        );
        assert_eq!(device.active_queue_pairs(), active);
        assert_eq!(
            device.memory().read(DmaRange::new(BASE + 0x1820, 1)).expect("status"),
            vec![status]
        );
        assert_eq!(used(device.memory(), 4, 0), (1, 0, 1));
        assert_eq!(device.process_control().expect("control"), None);
    }
}

#[test]
fn malformed_control_chains_are_refused() {
    let mut memory = vec![0u8; 0x3000];
    control(&mut memory, 4, [4, 0], 2);
    descriptor(&mut memory, 4, 3, BASE + 0x1800, 2, 0, 0);
    descriptor(&mut memory, 4, 4, BASE + 0x1800, 3, 1, 2);
    descriptor(&mut memory, 4, 5, BASE + 0x1800, 2, 1, 2);
    descriptor(&mut memory, 4, 6, BASE + 0x1800, 2, 1, 7);
    descriptor(&mut memory, 4, 7, BASE + 0x1810, 2, 0, 0);
    let cases: [(u16, &str); 4] = [
        (3, "virtio-net control chain is too short"),
        (4, "invalid virtio-net control header"),
        (5, "invalid virtio-net queue-pair request"),
        (6, "invalid virtio-net control status"),
    ];
    for (head, text) in cases {
        let mut memory = memory.clone();
        offer(&mut memory, 4, &[head]);
        let mut device = device(&mut memory, 2);
        match device.process_control() {
            Err(DeviceError::Descriptor(found)) => assert_eq!(found, text),
            _ => panic!("accepted"),
        }
    }
}

#[test]
fn frames_of_the_guest_reach_the_backend() {
    let mut memory = vec![0u8; 0x3000];
    put(&mut memory, 0x1a00, &[0xee; 12]);
    put(&mut memory, 0x1a0c, b"frame");
    descriptor(&mut memory, 3, 0, BASE + 0x1a00, 17, 0, 0);
    offer(&mut memory, 3, &[0]);
    control(&mut memory, 4, [4, 0], 2);
    let mut device = device(&mut memory, 2);
    let mut scan = device.start_transmit();
    assert!(device.begin_transmit(&mut scan).expect("transmit").is_none());
    device.process_control().expect("control");
    let mut scan = device.start_transmit();
    assert_eq!((scan.pair, scan.limit), (0, 2));
    let work = device.begin_transmit(&mut scan).expect("transmit").expect("frame");
    assert_eq!(work.queue_index, 3);
    assert_eq!(work.frame, b"frame".to_vec());
    assert_eq!(
        device.finish_transmit(work.queue_index, &work.chain).expect("finish"),
        Interrupt::Queue { queue_index: 3, vector: 3 }
    );
    assert_eq!(used(device.memory(), 3, 0), (1, 0, 0));
    assert!(device.begin_transmit(&mut scan).expect("transmit").is_none());
    assert_eq!(scan.pair, 2);
}

#[test]
fn frames_of_the_wrong_length_are_refused() {
    let mut memory = vec![0u8; 0x3000];
    descriptor(&mut memory, 1, 0, BASE + 0x1800, 12, 0, 0);
    descriptor(&mut memory, 1, 1, BASE + 0x1800, 13, 2, 0);
    let mut writable = memory.clone();
    offer(&mut memory, 1, &[0]);
    offer(&mut writable, 1, &[1]);
    let mut header_only = device(&mut memory, 1);
    let mut scan = header_only.start_transmit();
    assert!(matches!(
        header_only.begin_transmit(&mut scan),
        Err(DeviceError::Descriptor("invalid virtio-net TX frame length"))
    ));
    let mut wrong_way = device(&mut writable, 1);
    let mut scan = wrong_way.start_transmit();
    assert!(matches!(
        wrong_way.begin_transmit(&mut scan),
        Err(DeviceError::Descriptor("virtio-net TX chain is writable"))
    ));
}

#[test]
fn frames_of_the_backend_reach_the_guest() {
    let mut memory = vec![0xaau8; 0x3000];
    memory[..0x1000].fill(0);
    descriptor(&mut memory, 0, 5, BASE + 0x1800, 14, 3, 6);
    descriptor(&mut memory, 0, 6, BASE + 0x1900, 64, 2, 0);
    offer(&mut memory, 0, &[5]);
    let mut device = device(&mut memory, 1);
    assert!(device.begin_receive(false).expect("idle").is_none());
    let work = device.begin_receive(true).expect("receive").expect("chain");
    assert_eq!(work.queue_index, 0);
    assert_eq!(
        device.finish_receive(0, &work.chain, Some(b"abcde".to_vec())).expect("finish"),
        Interrupt::Queue { queue_index: 0, vector: 0 }
    );
    let mut expected = vec![0u8; 12];
    expected.extend(b"ab");
    assert_eq!(device.memory().read(DmaRange::new(BASE + 0x1800, 14)).expect("first"), expected);
    assert_eq!(device.memory().read(DmaRange::new(BASE + 0x1900, 4)).expect("second"), b"cde\xaa");
    assert_eq!(used(device.memory(), 0, 0), (1, 5, 17));
}

#[test]
fn receiving_takes_turns() {
    let mut memory = vec![0u8; 0x3000];
    control(&mut memory, 4, [4, 0], 2);
    descriptor(&mut memory, 0, 0, BASE + 0x1900, 64, 2, 0);
    descriptor(&mut memory, 2, 0, BASE + 0x1a00, 64, 2, 0);
    offer(&mut memory, 0, &[0]);
    offer(&mut memory, 2, &[0]);
    let mut device = device(&mut memory, 2);
    device.process_control().expect("control");
    let first = device.begin_receive(true).expect("receive").expect("first");
    let second = device.begin_receive(true).expect("receive").expect("second");
    assert_eq!((first.queue_index, second.queue_index), (0, 2));
    assert!(device.begin_receive(true).expect("receive").is_none());
}

#[test]
fn frames_that_cannot_be_received_are_refused() {
    let mut memory = vec![0u8; 0x3000];
    descriptor(&mut memory, 0, 0, BASE + 0x1800, 13, 2, 0);
    offer(&mut memory, 0, &[0]);
    let mut device = device(&mut memory, 1);
    let chain = device.begin_receive(true).expect("receive").expect("chain").chain;
    assert!(matches!(
        device.finish_receive(0, &chain, None),
        Err(DeviceError::Descriptor("virtio-net frame disappeared"))
    ));
    assert!(matches!(
        device.finish_receive(0, &chain, Some(vec![])),
        Err(DeviceError::Descriptor("invalid virtio-net RX frame length"))
    ));
    assert!(matches!(
        device.finish_receive(0, &chain, Some(vec![0; 65537])),
        Err(DeviceError::Descriptor("invalid virtio-net RX frame length"))
    ));
    assert!(matches!(
        device.finish_receive(0, &chain, Some(vec![1, 2])),
        Err(DeviceError::Descriptor("virtio-net RX chain is too short"))
    ));
    let mut readable = chain.clone();
    readable.descriptors[0].flags = 0;
    assert!(matches!(
        device.finish_receive(0, &readable, Some(vec![1])),
        Err(DeviceError::Descriptor("virtio-net RX chain is readable"))
    ));
    assert!(device.finish_receive(0, &chain, Some(vec![1])).is_ok());
}

#[test]
fn a_net_device_works_when_it_was_kicked() {
    let mut memory = vec![0u8; 0x3000];
    let mut device = device(&mut memory, 1);
    assert_eq!(device.on_wake(), WakeStep::Sleep);
    device.kick();
    assert_eq!(device.on_wake(), WakeStep::Process);
    assert_eq!(device.on_wake(), WakeStep::Sleep);
    device.stop(DeviceDownReason::Reset);
    assert_eq!(device.on_wake(), WakeStep::Drain);
    assert!(device.process_control().is_err());
}
