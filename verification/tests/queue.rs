use virtio::device::{closes_host_backend, DeviceLayout, DeviceResources};
use virtio::dma::{DmaMemory, DmaRange, DmaSegment};
use virtio::error::{DeviceDownReason, DeviceError};
use virtio::queue::{QueueLayout, QueueState, VirtQueue};

fn layout() -> QueueLayout {
    QueueLayout {
        index: 0,
        size: 8,
        descriptors: DmaRange::new(0x1000, 8 * 16),
        available: DmaRange::new(0x1080, 4 + 8 * 2),
        used: DmaRange::new(0x10a0, 4 + 8 * 8),
    }
}

fn queue(memory: &mut [u8]) -> (DmaMemory<'_>, VirtQueue) {
    let dma = DmaMemory::new(1, vec![DmaSegment::new(0x1000, memory)]).expect("DMA memory");
    let queue = VirtQueue::new(layout(), &dma).expect("valid queue");
    (dma, queue)
}

fn descriptor(memory: &mut [u8], index: usize, address: u64, length: u32, flags: u16, next: u16) {
    let at = index * 16;
    memory[at..at + 8].copy_from_slice(&address.to_le_bytes());
    memory[at + 8..at + 12].copy_from_slice(&length.to_le_bytes());
    memory[at + 12..at + 14].copy_from_slice(&flags.to_le_bytes());
    memory[at + 14..at + 16].copy_from_slice(&next.to_le_bytes());
}

#[test]
fn pops_and_completes_a_chain() {
    let mut memory = [0u8; 512];
    memory[0..8].copy_from_slice(&0x1100u64.to_le_bytes());
    memory[8..12].copy_from_slice(&512u32.to_le_bytes());
    memory[12..14].copy_from_slice(&0u16.to_le_bytes());
    memory[0x82..0x84].copy_from_slice(&1u16.to_le_bytes());
    memory[0x84..0x86].copy_from_slice(&0u16.to_le_bytes());
    let (mut dma, queue) = queue(&mut memory);
    let mut state = QueueState::new();

    let chain = queue.pop(&dma, &mut state).expect("pop").expect("chain");
    assert_eq!(chain.head, 0);
    assert!(state.inflight());
    queue
        .complete(&mut dma, &mut state, &chain, 513)
        .expect("complete");
    assert!(!state.inflight());
    let used = dma.lease(DmaRange::new(0x10a0, 12)).expect("used ring");
    let bytes = used.parts()[0].read_slice(&dma);
    assert_eq!(u16::from_le_bytes(bytes[2..4].try_into().expect("idx")), 1);
    assert_eq!(u32::from_le_bytes(bytes[4..8].try_into().expect("head")), 0);
    assert_eq!(u32::from_le_bytes(bytes[8..12].try_into().expect("length")), 513);
}

#[test]
fn a_chain_follows_its_links() {
    let mut memory = [0u8; 512];
    descriptor(&mut memory, 3, 0x1100, 4, 1, 5);
    descriptor(&mut memory, 5, 0x1110, 8, 2, 0);
    memory[0x82..0x84].copy_from_slice(&1u16.to_le_bytes());
    memory[0x84..0x86].copy_from_slice(&3u16.to_le_bytes());
    let (dma, queue) = queue(&mut memory);
    let mut state = QueueState::new();
    let chain = queue.pop(&dma, &mut state).expect("pop").expect("chain");
    assert_eq!(chain.head, 3);
    assert_eq!(chain.descriptors.len(), 2);
    assert_eq!(chain.descriptors[0].address, 0x1100);
    assert!(!chain.descriptors[0].writable());
    assert_eq!(chain.descriptors[1].range(), DmaRange::new(0x1110, 8));
    assert!(chain.descriptors[1].writable());
    assert!(queue.pop(&dma, &mut state).expect("pop").is_none());
    assert_eq!(queue.layout().size, 8);
}

#[test]
fn a_cycle_of_links_is_refused() {
    let mut memory = [0u8; 512];
    descriptor(&mut memory, 0, 0x1100, 4, 1, 0);
    memory[0x82..0x84].copy_from_slice(&1u16.to_le_bytes());
    let (dma, queue) = queue(&mut memory);
    let mut state = QueueState::new();
    assert!(matches!(queue.pop(&dma, &mut state), Err(DeviceError::Descriptor(_))));
    assert!(!state.inflight());
}

#[test]
fn a_head_beyond_the_queue_is_refused() {
    let mut memory = [0u8; 512];
    memory[0x82..0x84].copy_from_slice(&1u16.to_le_bytes());
    memory[0x84..0x86].copy_from_slice(&8u16.to_le_bytes());
    let (dma, queue) = queue(&mut memory);
    let mut state = QueueState::new();
    assert!(matches!(queue.pop(&dma, &mut state), Err(DeviceError::Descriptor(_))));
}

#[test]
fn an_available_index_too_far_ahead_is_refused() {
    let mut memory = [0u8; 512];
    memory[0x82..0x84].copy_from_slice(&9u16.to_le_bytes());
    let (dma, queue) = queue(&mut memory);
    let mut state = QueueState::new();
    assert!(matches!(
        queue.pop(&dma, &mut state),
        Err(DeviceError::InvalidQueue {
            queue: 0,
            reason: "available index exceeds queue size"
        })
    ));
}

#[test]
fn an_empty_queue_gives_nothing() {
    let mut memory = [0u8; 512];
    let (dma, queue) = queue(&mut memory);
    let mut state = QueueState::default();
    assert!(queue.pop(&dma, &mut state).expect("pop").is_none());
}

#[test]
fn a_completion_needs_a_chain_in_flight() {
    let mut memory = [0u8; 512];
    memory[0x82..0x84].copy_from_slice(&1u16.to_le_bytes());
    let (mut dma, queue) = queue(&mut memory);
    let mut state = QueueState::new();
    let chain = queue.pop(&dma, &mut state).expect("pop").expect("chain");
    queue.complete(&mut dma, &mut state, &chain, 0).expect("complete");
    assert!(matches!(
        queue.complete(&mut dma, &mut state, &chain, 0),
        Err(DeviceError::InvalidQueue {
            queue: 0,
            reason: "completion without an inflight request"
        })
    ));
}

#[test]
fn bad_layouts_are_refused() {
    let mut memory = [0u8; 512];
    let dma = DmaMemory::new(1, vec![DmaSegment::new(0x1000, &mut memory)]).expect("memory");
    for size in [0u16, 3, 6] {
        assert!(matches!(
            (QueueLayout { size, ..layout() }).validate(&dma),
            Err(DeviceError::InvalidQueue {
                queue: 0,
                reason: "size must be a non-zero power of two"
            })
        ));
    }
    assert!(matches!(
        (QueueLayout { size: 16, ..layout() }).validate(&dma),
        Err(DeviceError::InvalidQueue { queue: 0, reason: "virtqueue ring is too small" })
    ));
    assert!(matches!(
        (QueueLayout { used: DmaRange::new(0x2000, 68), ..layout() }).validate(&dma),
        Err(DeviceError::DmaRange { gpa: 0x2000, length: 68 })
    ));
    assert!(layout().validate(&dma).is_ok());
}

fn resources(memory: &mut [u8]) -> DeviceResources<'_> {
    DeviceResources {
        queues: vec![layout()],
        dma: DmaMemory::new(1, vec![DmaSegment::new(0x1000, memory)]).expect("memory"),
        notifier_count: 1,
        negotiated_features: 0x11,
    }
}

fn needs() -> DeviceLayout {
    DeviceLayout {
        queue_count: 1,
        maximum_queue_size: 8,
        notifier_count: 1,
        required_features: 0x10,
        optional_features: 0,
    }
}

#[test]
fn resources_are_held_against_the_layout() {
    let mut memory = [0u8; 512];
    let resources = resources(&mut memory);
    assert!(resources.validate(&needs()).is_ok());
    assert!(matches!(
        resources.validate(&DeviceLayout { queue_count: 2, ..needs() }),
        Err(DeviceError::InvalidLayout("unexpected queue count"))
    ));
    assert!(matches!(
        resources.validate(&DeviceLayout { notifier_count: 2, ..needs() }),
        Err(DeviceError::InvalidLayout("missing interrupt notifier"))
    ));
    assert!(matches!(
        resources.validate(&DeviceLayout { required_features: 0x30, ..needs() }),
        Err(DeviceError::InvalidLayout("required feature not negotiated"))
    ));
    assert!(matches!(
        resources.validate(&DeviceLayout { maximum_queue_size: 4, ..needs() }),
        Err(DeviceError::InvalidQueue { queue: 0, reason: "queue size exceeds device limit" })
    ));
}

#[test]
fn only_surprise_removal_closes_host_backend() {
    assert!(!closes_host_backend(DeviceDownReason::Stop));
    assert!(!closes_host_backend(DeviceDownReason::Reset));
    assert!(!closes_host_backend(DeviceDownReason::Revoked));
    assert!(closes_host_backend(DeviceDownReason::SurpriseRemoval));
}
