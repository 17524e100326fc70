use virtio::device::{DeviceResources, WakeStep};
use virtio::dma::{DmaMemory, DmaRange, DmaSegment};
use virtio::error::{DeviceDownReason, DeviceError};
use virtio::interrupt::Interrupt;
use virtio::memory::{
    next_generation, ConfigView, MemoryConfig, MemoryConfigState, MemoryDevice, MemoryRequest,
    MemoryResponse, MemorySpec, CONFIG_SIZE, VIRTIO_F_VERSION_1, VIRTIO_MEM_STATE_MIXED,
};
use virtio::queue::QueueLayout;

const BASE: u64 = 0x1000;

const RINGS: usize = 0x200;

fn put(memory: &mut [u8], at: usize, bytes: &[u8]) {
    memory[at..at + bytes.len()].copy_from_slice(bytes);
}

fn descriptor(
    memory: &mut [u8],
    queue: usize,
    index: usize,
    address: u64,
    length: u32,
    flags: u16,
    next: u16,
) {
    let at = queue * RINGS + index * 16;
    put(memory, at, &address.to_le_bytes());
    put(memory, at + 8, &length.to_le_bytes());
    put(memory, at + 12, &flags.to_le_bytes());
    put(memory, at + 14, &next.to_le_bytes());
}

fn offer(memory: &mut [u8], queue: usize, heads: &[u16]) {
    let ring = queue * RINGS + 0x80;
    put(memory, ring + 2, &(heads.len() as u16).to_le_bytes());
    for (slot, head) in heads.iter().enumerate() {
        put(memory, ring + 4 + slot * 2, &head.to_le_bytes());
    }
}

fn used(memory: &DmaMemory<'_>, queue: usize, slot: u64) -> (u16, u32, u32) {
    let ring = BASE + (queue * RINGS) as u64 + 0xa0;
    let index = memory.read(DmaRange::new(ring + 2, 2)).expect("index");
    let element = memory.read(DmaRange::new(ring + 4 + slot * 8, 8)).expect("element");
    (
        u16::from_le_bytes(index[..].try_into().expect("index")),
        u32::from_le_bytes(element[0..4].try_into().expect("head")),
        u32::from_le_bytes(element[4..8].try_into().expect("length")),
    )
}

fn resources(memory: &mut [u8], queues: usize, notifiers: usize, features: u64) -> DeviceResources<'_> {
    let layouts = (0..queues)
        .map(|queue| {
            let at = BASE + (queue * RINGS) as u64;
            QueueLayout {
                index: queue as u16,
                size: 8,
                descriptors: DmaRange::new(at, 8 * 16),
                available: DmaRange::new(at + 0x80, 4 + 8 * 2),
                used: DmaRange::new(at + 0xa0, 4 + 8 * 8),
            }
        })
        .collect();
    DeviceResources {
        queues: layouts,
        dma: DmaMemory::new(1, vec![DmaSegment::new(BASE, memory)]).expect("memory"),
        notifier_count: notifiers,
        negotiated_features: features,
    }
}

const CONFIG: MemoryConfig = MemoryConfig {
    block_size: 4096,
    node_id: 3,
    addr: 0x4000,
    region_size: 0x8000,
    usable_region_size: 0x6000,
    plugged_size: 0x2000,
    requested_size: 0x3000,
};

fn device(memory: &mut [u8]) -> MemoryDevice<'_> {
    let state = MemoryConfigState::new(CONFIG).expect("config");
    MemorySpec::new(8, ())
        .expect("spec")
        .activate(resources(memory, 1, 2, VIRTIO_F_VERSION_1), &state)
        .expect("device")
}

#[test]
fn config_is_the_standard_56_byte_shape() {
    let config = MemoryConfig {
        block_size: 2 << 20,
        node_id: 0,
        addr: 1 << 30,
        region_size: 1 << 30,
        usable_region_size: 1 << 30,
        plugged_size: 0,
        requested_size: 0,
    };
    let state = MemoryConfigState::new(config).expect("config");
    let view = ConfigView { state: &state };
    let mut bytes = [0; CONFIG_SIZE];
    view.read(0, &mut bytes).expect("read config");
    assert_eq!(
        u64::from_le_bytes(bytes[0..8].try_into().expect("block size")),
        2 << 20
    );
}

#[test]
fn config_update_advances_generation() {
    let initial = MemoryConfig {
        block_size: 4096,
        node_id: 0,
        addr: 0,
        region_size: 4096,
        usable_region_size: 4096,
        plugged_size: 0,
        requested_size: 0,
    };
    let mut state = MemoryConfigState::new(initial).expect("config");
    let mut updates = state.subscribe();
    state
        .update(MemoryConfig {
            requested_size: 4096,
            ..initial
        })
        .expect("update");
    assert_eq!(*updates.borrow_and_update(), 1);
}

#[test]
fn a_subscriber_hears_of_an_update() {
    let mut state = MemoryConfigState::new(CONFIG).expect("state");
    let mut updates = state.subscribe();
    for generation in 1..4u64 {
        state.update_heard(CONFIG, &updates).expect("update");
        assert!(updates.has_changed().expect("sender"));
        assert_eq!(*updates.borrow_and_update(), generation);
    }
    let changed = MemoryConfig { plugged_size: 0, ..CONFIG };
    state.update_heard(changed, &updates).expect("update");
    assert_eq!(state.snapshot(), changed);
    assert_eq!(*updates.borrow_and_update(), 4);
    assert!(state.update_heard(MemoryConfig { plugged_size: 1, ..CONFIG }, &updates).is_err());
    assert_eq!(state.snapshot(), changed);
    assert!(!updates.has_changed().expect("sender"));
}

#[test]
fn refused_updates_are_not_announced() {
    let mut state = MemoryConfigState::new(CONFIG).expect("config");
    let mut updates = ConfigView { state: &state }.subscribe();
    assert_eq!(*updates.borrow_and_update(), 0);
    assert!(state.update(MemoryConfig { plugged_size: 1, ..CONFIG }).is_err());
    assert_eq!(state.snapshot(), CONFIG);
    assert!(!updates.has_changed().expect("sender"));
    state.update(MemoryConfig { plugged_size: 0, ..CONFIG }).expect("update");
    state.update(CONFIG).expect("update");
    assert_eq!(*updates.borrow_and_update(), 2);
    assert_eq!(next_generation(2), 3);
    assert_eq!(next_generation(u64::MAX), 0);
}

#[test]
fn receivers_belong_to_the_configuration_they_were_asked_of() {
    let mut state = MemoryConfigState::new(CONFIG).expect("config");
    let other = MemoryConfigState::new(CONFIG).expect("other");
    let direct = state.subscribe();
    let viewed = ConfigView { state: &state }.subscribe();
    assert!(direct.same_channel(&viewed));
    assert!(!direct.same_channel(&other.subscribe()));
    state.update(CONFIG).expect("update");
    assert!(direct.same_channel(&state.subscribe()));
    assert_eq!((*direct.borrow(), *viewed.borrow()), (1, 1));
}

#[test]
fn config_fields_have_their_places() {
    let state = MemoryConfigState::new(CONFIG).expect("config");
    let view = ConfigView { state: &state };
    assert_eq!(view.size(), 56);
    let mut bytes = [0xffu8; 56];
    view.read(0, &mut bytes).expect("read");
    assert_eq!(bytes[0..8], 4096u64.to_le_bytes());
    assert_eq!(bytes[8..10], 3u16.to_le_bytes());
    assert_eq!(bytes[10..16], [0; 6]);
    assert_eq!(bytes[16..24], 0x4000u64.to_le_bytes());
    assert_eq!(bytes[24..32], 0x8000u64.to_le_bytes());
    assert_eq!(bytes[32..40], 0x6000u64.to_le_bytes());
    assert_eq!(bytes[40..48], 0x2000u64.to_le_bytes());
    assert_eq!(bytes[48..56], 0x3000u64.to_le_bytes());
    let mut some = [0u8; 2];
    view.read(8, &mut some).expect("node");
    assert_eq!(some, [3, 0]);
    assert!(matches!(
        view.read(55, &mut some),
        Err(DeviceError::InvalidLayout("virtio-mem config read exceeds size"))
    ));
    assert!(matches!(
        view.read(usize::MAX, &mut some),
        Err(DeviceError::InvalidLayout("virtio-mem config offset overflow"))
    ));
}

#[test]
fn invalid_configurations_are_refused() {
    assert!(matches!(
        MemoryConfigState::new(MemoryConfig { block_size: 0, ..CONFIG }),
        Err(DeviceError::InvalidLayout("virtio-mem block size is not a power of two"))
    ));
    assert!(MemoryConfigState::new(MemoryConfig { block_size: 4095, ..CONFIG }).is_err());
    assert!(matches!(
        MemoryConfigState::new(MemoryConfig { addr: 0x4001, ..CONFIG }),
        Err(DeviceError::InvalidLayout("virtio-mem value is not block aligned"))
    ));
    for config in [
        MemoryConfig { usable_region_size: 0x9000, ..CONFIG },
        MemoryConfig { plugged_size: 0x7000, ..CONFIG },
        MemoryConfig { requested_size: 0x7000, ..CONFIG },
    ] {
        assert!(matches!(
            MemoryConfigState::new(config),
            Err(DeviceError::InvalidLayout("invalid virtio-mem region sizes"))
        ));
    }
}

#[test]
fn memory_specs_offer_their_features() {
    assert!(matches!(
        MemorySpec::new(6, ()),
        Err(DeviceError::InvalidLayout("invalid virtio-mem queue size"))
    ));
    let spec = MemorySpec::new(16, 1u8).expect("spec");
    let layout = spec.layout();
    assert_eq!(layout.queue_count, 1);
    assert_eq!(layout.notifier_count, 2);
    assert_eq!(layout.maximum_queue_size, 16);
    assert_eq!(layout.optional_features, 2);
    let spec = spec.with_acpi_pxm();
    assert_eq!(spec.layout().optional_features, 3);
    assert_eq!(*spec.backend(), 1);
}

fn request(memory: &mut [u8], kind: u16, addr: u64, blocks: u16) {
    put(memory, 0x800, &kind.to_le_bytes());
    put(memory, 0x808, &addr.to_le_bytes());
    put(memory, 0x810, &blocks.to_le_bytes());
    put(memory, 0x900, &[0xaa; 10]);
    descriptor(memory, 0, 0, BASE + 0x800, 24, 1, 1);
    descriptor(memory, 0, 1, BASE + 0x900, 10, 2, 0);
    offer(memory, 0, &[0]);
}

#[test]
fn requests_are_read_and_answered() {
    let cases = [
        (0u16, MemoryRequest::Plug { addr: 0x4000, blocks: 2 }, MemoryResponse::Ack, 0u16, 0u16),
        (1, MemoryRequest::Unplug { addr: 0x4000, blocks: 2 }, MemoryResponse::Nack, 1, 0),
        (2, MemoryRequest::UnplugAll, MemoryResponse::Busy, 2, 0),
        (2, MemoryRequest::UnplugAll, MemoryResponse::Error, 3, 0),
        (
            3,
            MemoryRequest::State { addr: 0x4000, blocks: 2 },
            MemoryResponse::State(VIRTIO_MEM_STATE_MIXED),
            0,
            2,
        ),
    ];
    for (kind, expected, response, number, state) in cases {
        let mut memory = vec![0u8; 0x1000];
        request(&mut memory, kind, 0x4000, 2);
        let mut device = device(&mut memory);
        let work = device.begin_request().expect("request").expect("work");
        assert_eq!(work.request, expected);
        assert_eq!(
            device.finish_request(&work.chain, response).expect("finish"),
            Interrupt::Queue { queue_index: 0, vector: 0 }
        );
        let answer = device.memory().read(DmaRange::new(BASE + 0x900, 10)).expect("answer");
        assert_eq!(answer[0..2], number.to_le_bytes());
        assert_eq!(answer[2..8], [0; 6]);
        assert_eq!(answer[8..10], state.to_le_bytes());
        assert_eq!(used(device.memory(), 0, 0), (1, 0, 10));
        assert!(device.begin_request().expect("request").is_none());
    }
}

#[test]
fn malformed_memory_requests_are_refused() {
    let mut memory = vec![0u8; 0x1000];
    request(&mut memory, 9, 0, 0);
    descriptor(&mut memory, 0, 2, BASE + 0x800, 24, 0, 0);
    descriptor(&mut memory, 0, 3, BASE + 0x800, 23, 1, 1);
    descriptor(&mut memory, 0, 4, BASE + 0x800, 24, 1, 2);
    let cases: [(u16, &str); 4] = [
        (0, "unknown virtio-mem request"),
        (2, "virtio-mem request must have two descriptors"),
        (3, "invalid virtio-mem request descriptor"),
        (4, "invalid virtio-mem response descriptor"),
    ];
    for (head, text) in cases {
        let mut memory = memory.clone();
        offer(&mut memory, 0, &[head]);
        let mut device = device(&mut memory);
        match device.begin_request() {
            Err(DeviceError::Descriptor(found)) => assert_eq!(found, text),
            _ => panic!("accepted"),
        }
    }
}

#[test]
fn a_stopped_memory_device_drains() {
    let mut memory = vec![0u8; 0x1000];
    request(&mut memory, 2, 0, 0);
    let mut device = device(&mut memory);
    assert_eq!(device.on_wake(), WakeStep::Process);
    let work = device.begin_request().expect("request").expect("work");
    device.stop(DeviceDownReason::SurpriseRemoval);
    assert_eq!(device.on_wake(), WakeStep::Drain);
    assert!(matches!(
        device.finish_request(&work.chain, MemoryResponse::Ack),
        Err(DeviceError::Down(DeviceDownReason::Revoked))
    ));
}
