use virtio::device::{DeviceResources, WakeStep};
use virtio::dma::{DmaMemory, DmaRange, DmaSegment};
use virtio::error::{DeviceDownReason, DeviceError};
use virtio::interrupt::Interrupt;
use virtio::queue::QueueLayout;
use virtio::rng::{RngDevice, RngFill, RngSpec, VIRTIO_F_VERSION_1};

const BASE: u64 = 0x1000;

const RINGS: usize = 0x200;

fn put(memory: &mut [u8], at: usize, bytes: &[u8]) {
    memory[at..at + bytes.len()].copy_from_slice(bytes);
}

fn descriptor(
    memory: &mut [u8],
    queue: usize,
    index: usize,
    address: u64,
    length: u32,
    flags: u16,
    next: u16,
) {
    let at = queue * RINGS + index * 16;
    put(memory, at, &address.to_le_bytes());
    put(memory, at + 8, &length.to_le_bytes());
    put(memory, at + 12, &flags.to_le_bytes());
    put(memory, at + 14, &next.to_le_bytes());
}

fn offer(memory: &mut [u8], queue: usize, heads: &[u16]) {
    let ring = queue * RINGS + 0x80;
    put(memory, ring + 2, &(heads.len() as u16).to_le_bytes());
    for (slot, head) in heads.iter().enumerate() {
        put(memory, ring + 4 + slot * 2, &head.to_le_bytes());
    }
}

fn used(memory: &DmaMemory<'_>, queue: usize, slot: u64) -> (u16, u32, u32) {
    let ring = BASE + (queue * RINGS) as u64 + 0xa0;
    let index = memory.read(DmaRange::new(ring + 2, 2)).expect("index");
    let element = memory.read(DmaRange::new(ring + 4 + slot * 8, 8)).expect("element");
    (
        u16::from_le_bytes(index[..].try_into().expect("index")),
        u32::from_le_bytes(element[0..4].try_into().expect("head")),
        u32::from_le_bytes(element[4..8].try_into().expect("length")),
    )
}

fn resources(memory: &mut [u8], queues: usize, notifiers: usize, features: u64) -> DeviceResources<'_> {
    let layouts = (0..queues)
        .map(|queue| {
            let at = BASE + (queue * RINGS) as u64;
            QueueLayout {
                index: queue as u16,
                size: 8,
                descriptors: DmaRange::new(at, 8 * 16),
                available: DmaRange::new(at + 0x80, 4 + 8 * 2),
                used: DmaRange::new(at + 0xa0, 4 + 8 * 8),
            }
        })
        .collect();
    DeviceResources {
        queues: layouts,
        dma: DmaMemory::new(1, vec![DmaSegment::new(BASE, memory)]).expect("memory"),
        notifier_count: notifiers,
        negotiated_features: features,
    }
}

fn device(memory: &mut [u8]) -> RngDevice<'_> {
    RngSpec::new(8)
        .expect("spec")
        .activate(resources(memory, 1, 1, VIRTIO_F_VERSION_1))
        .expect("device")
}

#[test]
fn spec_requires_modern_virtio() {
    let spec = RngSpec::new(128).expect("spec");
    let layout = spec.layout();
    assert_eq!(layout.queue_count, 1);
    assert_eq!(layout.required_features, VIRTIO_F_VERSION_1);
}

#[test]
fn rng_queue_size_is_a_power_of_two() {
    assert!(matches!(
        RngSpec::new(0),
        Err(DeviceError::InvalidLayout("invalid virtio-rng queue size"))
    ));
    assert!(RngSpec::new(3).is_err());
    assert_eq!(RngSpec::new(32768).expect("spec").layout().maximum_queue_size, 32768);
}

/// Fills what is left of a chain with the bytes that `entropy` gives, and tells how long
/// each piece was.
fn fill_with(
    device: &mut RngDevice<'_>,
    fill: &mut RngFill,
    entropy: &mut dyn Iterator<Item = u8>,
) -> Result<Vec<usize>, DeviceError> {
    let mut lengths = Vec::new();
    while let Some(buffer) = device.next_buffer(fill)? {
        for byte in buffer.iter_mut() {
            *byte = entropy.next().expect("entropy");
        }
        lengths.push(buffer.len());
    }
    Ok(lengths)
}

#[test]
fn entropy_fills_every_buffer() {
    let mut memory = vec![0u8; 0x1000];
    descriptor(&mut memory, 0, 0, BASE + 0x800, 3, 3, 1);
    descriptor(&mut memory, 0, 1, BASE + 0x900, 2, 2, 0);
    offer(&mut memory, 0, &[0]);
    let mut device = device(&mut memory);
    let mut fill = device.begin_fill().expect("fill").expect("chain");
    let lengths = fill_with(&mut device, &mut fill, &mut (1..=5)).expect("filled");
    assert_eq!(lengths, [3, 2]);
    assert_eq!(
        device.finish_fill(fill).expect("finish"),
        Interrupt::Queue { queue_index: 0, vector: 0 }
    );
    assert_eq!(device.memory().read(DmaRange::new(BASE + 0x800, 4)).expect("one"), [1, 2, 3, 0]);
    assert_eq!(device.memory().read(DmaRange::new(BASE + 0x900, 3)).expect("two"), [4, 5, 0]);
    assert_eq!(used(device.memory(), 0, 0), (1, 0, 5));
    assert!(device.begin_fill().expect("fill").is_none());
}

#[test]
fn a_buffer_across_segments_is_filled_in_pieces() {
    let mut memory = vec![0u8; 0x1000];
    descriptor(&mut memory, 0, 0, BASE + 0x1000 - 3, 5, 3, 1);
    descriptor(&mut memory, 0, 1, BASE + 0x800, 1, 2, 0);
    offer(&mut memory, 0, &[0]);
    let mut more = vec![0u8; 0x10];
    let mut unused = [0u8; 1];
    let mut resources = resources(&mut unused, 1, 1, VIRTIO_F_VERSION_1);
    resources.dma = DmaMemory::new(
        1,
        vec![DmaSegment::new(BASE + 0x1000, &mut more), DmaSegment::new(BASE, &mut memory)],
    )
    .expect("memory");
    let mut device = RngSpec::new(8).expect("spec").activate(resources).expect("device");
    let mut fill = device.begin_fill().expect("fill").expect("chain");
    let lengths = fill_with(&mut device, &mut fill, &mut (1..=6)).expect("filled");
    assert_eq!(lengths, [3, 2, 1]);
    device.finish_fill(fill).expect("finish");
    assert_eq!(
        device.memory().read(DmaRange::new(BASE + 0x1000 - 4, 7)).expect("across"),
        [0, 1, 2, 3, 4, 5, 0]
    );
    assert_eq!(device.memory().read(DmaRange::new(BASE + 0x800, 2)).expect("one"), [6, 0]);
    assert_eq!(used(device.memory(), 0, 0), (1, 0, 6));
}

#[test]
fn overlapping_buffers_are_filled_in_order() {
    let mut memory = vec![0u8; 0x1000];
    descriptor(&mut memory, 0, 0, BASE + 0x800, 4, 3, 1);
    descriptor(&mut memory, 0, 1, BASE + 0x802, 4, 2, 0);
    offer(&mut memory, 0, &[0]);
    let mut device = device(&mut memory);
    let mut fill = device.begin_fill().expect("fill").expect("chain");
    fill_with(&mut device, &mut fill, &mut (1..=8)).expect("filled");
    device.finish_fill(fill).expect("finish");
    assert_eq!(
        device.memory().read(DmaRange::new(BASE + 0x800, 7)).expect("both"),
        [1, 2, 5, 6, 7, 8, 0]
    );
    assert_eq!(used(device.memory(), 0, 0), (1, 0, 8));
}

#[test]
fn buffers_in_front_of_a_bad_one_are_filled() {
    for (length, flags) in [(0u32, 2u16), (4, 0)] {
        let mut memory = vec![0u8; 0x1000];
        descriptor(&mut memory, 0, 0, BASE + 0x800, 3, 3, 1);
        descriptor(&mut memory, 0, 1, BASE + 0x900, length, flags, 0);
        offer(&mut memory, 0, &[0]);
        let mut device = device(&mut memory);
        let mut fill = device.begin_fill().expect("fill").expect("chain");
        assert!(matches!(
            fill_with(&mut device, &mut fill, &mut (7..)),
            Err(DeviceError::Descriptor("virtio-rng descriptor is not writable"))
        ));
        assert_eq!(device.memory().read(DmaRange::new(BASE + 0x800, 4)).expect("one"), [7, 8, 9, 0]);
    }
}

#[test]
fn unmapped_buffers_get_no_entropy() {
    let mut memory = vec![0u8; 0x1000];
    descriptor(&mut memory, 0, 0, 0x9_0000, 3, 2, 0);
    offer(&mut memory, 0, &[0]);
    let mut device = device(&mut memory);
    let mut fill = device.begin_fill().expect("fill").expect("chain");
    assert!(matches!(
        device.next_buffer(&mut fill),
        Err(DeviceError::DmaRange { gpa: 0x9_0000, length: 3 })
    ));
}

#[test]
fn a_buffer_that_ends_outside_is_not_filled_at_all() {
    let mut memory = vec![0u8; 0x1000];
    descriptor(&mut memory, 0, 0, BASE + 0xffc, 8, 2, 0);
    offer(&mut memory, 0, &[0]);
    let mut device = device(&mut memory);
    let mut fill = device.begin_fill().expect("fill").expect("chain");
    assert!(matches!(
        device.next_buffer(&mut fill),
        Err(DeviceError::DmaRange { gpa: 0x1ffc, length: 8 })
    ));
    assert_eq!(device.memory().read(DmaRange::new(BASE + 0xffc, 4)).expect("tail"), [0; 4]);
}

#[test]
fn a_stopped_rng_takes_nothing() {
    let mut memory = vec![0u8; 0x1000];
    descriptor(&mut memory, 0, 0, BASE + 0x800, 3, 2, 0);
    offer(&mut memory, 0, &[0]);
    let mut device = device(&mut memory);
    assert_eq!(device.on_wake(), WakeStep::Process);
    device.stop(DeviceDownReason::Stop);
    assert_eq!(device.on_wake(), WakeStep::Drain);
    assert!(matches!(
        device.begin_fill(),
        Err(DeviceError::Down(DeviceDownReason::Revoked))
    ));
}
