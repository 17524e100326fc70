use virtio::console::{ConsoleSpec, VIRTIO_CONSOLE_F_MULTIPORT, VIRTIO_F_VERSION_1};
use virtio::device::{DeviceResources, WakeStep};
use virtio::dma::{DmaMemory, DmaRange, DmaSegment};
use virtio::error::{DeviceDownReason, DeviceError};
use virtio::interrupt::Interrupt;
use virtio::queue::QueueLayout;

const BASE: u64 = 0x1000;

const RINGS: usize = 0x200;

fn put(memory: &mut [u8], at: usize, bytes: &[u8]) {
    memory[at..at + bytes.len()].copy_from_slice(bytes);
}

fn descriptor(
    memory: &mut [u8],
    queue: usize,
    index: usize,
    address: u64,
    length: u32,
    flags: u16,
    next: u16,
) {
    let at = queue * RINGS + index * 16;
    put(memory, at, &address.to_le_bytes());
    put(memory, at + 8, &length.to_le_bytes());
    put(memory, at + 12, &flags.to_le_bytes());
    put(memory, at + 14, &next.to_le_bytes());
}

fn offer(memory: &mut [u8], queue: usize, heads: &[u16]) {
    let ring = queue * RINGS + 0x80;
    put(memory, ring + 2, &(heads.len() as u16).to_le_bytes());
    for (slot, head) in heads.iter().enumerate() {
        put(memory, ring + 4 + slot * 2, &head.to_le_bytes());
    }
}

fn used(memory: &DmaMemory<'_>, queue: usize, slot: u64) -> (u16, u32, u32) {
    let ring = BASE + (queue * RINGS) as u64 + 0xa0;
    let index = memory.read(DmaRange::new(ring + 2, 2)).expect("index");
    let element = memory.read(DmaRange::new(ring + 4 + slot * 8, 8)).expect("element");
    (
        u16::from_le_bytes(index[..].try_into().expect("index")),
        u32::from_le_bytes(element[0..4].try_into().expect("head")),
        u32::from_le_bytes(element[4..8].try_into().expect("length")),
    )
}

fn resources(memory: &mut [u8], queues: usize, notifiers: usize, features: u64) -> DeviceResources<'_> {
    let layouts = (0..queues)
        .map(|queue| {
            let at = BASE + (queue * RINGS) as u64;
            QueueLayout {
                index: queue as u16,
                size: 8,
                descriptors: DmaRange::new(at, 8 * 16),
                available: DmaRange::new(at + 0x80, 4 + 8 * 2),
                used: DmaRange::new(at + 0xa0, 4 + 8 * 8),
            }
        })
        .collect();
    DeviceResources {
        queues: layouts,
        dma: DmaMemory::new(1, vec![DmaSegment::new(BASE, memory)]).expect("memory"),
        notifier_count: notifiers,
        negotiated_features: features,
    }
}

struct NullBackend;

#[test]
fn single_port_layout_is_two_queues() {
    let spec = ConsoleSpec::new(128, NullBackend).expect("spec");
    let layout = spec.layout();
    assert_eq!(layout.queue_count, 2);
    assert_eq!(layout.required_features, VIRTIO_F_VERSION_1);
    assert_eq!(layout.optional_features & VIRTIO_CONSOLE_F_MULTIPORT, 0);
}

#[test]
fn console_queue_size_is_a_power_of_two() {
    for size in [0u16, 3, 100] {
        assert!(matches!(
            ConsoleSpec::new(size, ()),
            Err(DeviceError::InvalidLayout("invalid virtio-console queue size"))
        ));
    }
    assert_eq!(*ConsoleSpec::new(1, 7u8).expect("spec").backend(), 7);
}

#[test]
fn console_output_reaches_the_backend() {
    let mut memory = vec![0u8; 0x2000];
    put(&mut memory, 0x1000, b"hello world");
    descriptor(&mut memory, 1, 0, BASE + 0x1000, 6, 1, 1);
    descriptor(&mut memory, 1, 1, BASE + 0x1006, 5, 0, 0);
    offer(&mut memory, 1, &[0]);
    let spec = ConsoleSpec::new(8, ()).expect("spec");
    let mut device =
        spec.activate(resources(&mut memory, 2, 2, VIRTIO_F_VERSION_1)).expect("device");
    let output = device.begin_transmit().expect("transmit").expect("output");
    assert_eq!(output.bytes, b"hello world".to_vec());
    let interrupt = device.finish_transmit(&output.chain).expect("finish");
    assert_eq!(interrupt, Interrupt::Queue { queue_index: 1, vector: 1 });
    assert_eq!(used(device.memory(), 1, 0), (1, 0, 0));
    assert!(device.begin_transmit().expect("transmit").is_none());
}

#[test]
fn console_input_reaches_the_guest() {
    let mut memory = vec![0u8; 0x2000];
    descriptor(&mut memory, 0, 2, BASE + 0x1000, 3, 3, 3);
    descriptor(&mut memory, 0, 3, BASE + 0x1100, 8, 2, 0);
    offer(&mut memory, 0, &[2]);
    let spec = ConsoleSpec::new(8, ()).expect("spec");
    let mut device =
        spec.activate(resources(&mut memory, 2, 2, VIRTIO_F_VERSION_1)).expect("device");
    assert!(device.begin_receive(false).expect("idle").is_none());
    let input = device.begin_receive(true).expect("receive").expect("input");
    assert_eq!(input.capacity, 11);
    let interrupt = device.finish_receive(&input.chain, Some(b"login".to_vec())).expect("finish");
    assert_eq!(interrupt, Interrupt::Queue { queue_index: 0, vector: 0 });
    assert_eq!(device.memory().read(DmaRange::new(BASE + 0x1000, 3)).expect("first"), b"log");
    assert_eq!(
        device.memory().read(DmaRange::new(BASE + 0x1100, 8)).expect("second"),
        b"in\0\0\0\0\0\0"
    );
    assert_eq!(used(device.memory(), 0, 0), (1, 2, 5));
}

#[test]
fn console_chains_of_the_wrong_direction_are_refused() {
    let mut memory = vec![0u8; 0x2000];
    descriptor(&mut memory, 0, 0, BASE + 0x1000, 3, 0, 0);
    descriptor(&mut memory, 1, 0, BASE + 0x1000, 3, 2, 0);
    offer(&mut memory, 0, &[0]);
    offer(&mut memory, 1, &[0]);
    let spec = ConsoleSpec::new(8, ()).expect("spec");
    let mut device =
        spec.activate(resources(&mut memory, 2, 2, VIRTIO_F_VERSION_1)).expect("device");
    assert!(matches!(
        device.begin_transmit(),
        Err(DeviceError::Descriptor("console transmit chain is writable"))
    ));
    assert!(matches!(
        device.begin_receive(true),
        Err(DeviceError::Descriptor("console receive chain is readable"))
    ));
}

#[test]
fn console_input_must_fit_and_exist() {
    let mut memory = vec![0u8; 0x2000];
    descriptor(&mut memory, 0, 0, BASE + 0x1000, 2, 2, 0);
    offer(&mut memory, 0, &[0]);
    let spec = ConsoleSpec::new(8, ()).expect("spec");
    let mut device =
        spec.activate(resources(&mut memory, 2, 2, VIRTIO_F_VERSION_1)).expect("device");
    let input = device.begin_receive(true).expect("receive").expect("input");
    assert!(matches!(
        device.finish_receive(&input.chain, None),
        Err(DeviceError::Down(DeviceDownReason::Stop))
    ));
    assert!(matches!(
        device.finish_receive(&input.chain, Some(b"abc".to_vec())),
        Err(DeviceError::Descriptor("console receive chain is too short"))
    ));
}

#[test]
fn a_stopped_console_touches_nothing() {
    let mut memory = vec![0u8; 0x2000];
    descriptor(&mut memory, 1, 0, BASE + 0x1000, 3, 0, 0);
    offer(&mut memory, 1, &[0]);
    let spec = ConsoleSpec::new(8, ()).expect("spec");
    let mut device =
        spec.activate(resources(&mut memory, 2, 2, VIRTIO_F_VERSION_1)).expect("device");
    assert_eq!(device.on_wake(), WakeStep::Process);
    device.stop(DeviceDownReason::Reset);
    assert_eq!(device.on_wake(), WakeStep::Drain);
    assert!(matches!(
        device.begin_transmit(),
        Err(DeviceError::Down(DeviceDownReason::Revoked))
    ));
    assert!(device.memory().is_drained());
}
