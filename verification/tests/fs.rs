use std::path::PathBuf;

use virtio::device::DeviceResources;
use virtio::dma::{DmaMemory, DmaRange, DmaSegment};
use virtio::error::{DeviceDownReason, DeviceError};
use virtio::fs::{parse_chain, FsDeclaration, FsDevice, FsNext, FsWork, VIRTIO_F_VERSION_1};
use virtio::fuse::{entry_out, FileMetadata};
use virtio::interrupt::Interrupt;
use virtio::queue::{Descriptor, DescriptorChain, QueueLayout};

const BASE: u64 = 0x1000;

const RINGS: usize = 0x200;

fn put(memory: &mut [u8], at: usize, bytes: &[u8]) {
    memory[at..at + bytes.len()].copy_from_slice(bytes);
}

fn descriptor(
    memory: &mut [u8],
    queue: usize,
    index: usize,
    address: u64,
    length: u32,
    flags: u16,
    next: u16,
) {
    let at = queue * RINGS + index * 16;
    put(memory, at, &address.to_le_bytes());
    put(memory, at + 8, &length.to_le_bytes());
    put(memory, at + 12, &flags.to_le_bytes());
    put(memory, at + 14, &next.to_le_bytes());
}

fn offer(memory: &mut [u8], queue: usize, heads: &[u16]) {
    let ring = queue * RINGS + 0x80;
    put(memory, ring + 2, &(heads.len() as u16).to_le_bytes());
    for (slot, head) in heads.iter().enumerate() {
        put(memory, ring + 4 + slot * 2, &head.to_le_bytes());
    }
}

fn used(memory: &DmaMemory<'_>, queue: usize, slot: u64) -> (u16, u32, u32) {
    let ring = BASE + (queue * RINGS) as u64 + 0xa0;
    let index = memory.read(DmaRange::new(ring + 2, 2)).expect("index");
    let element = memory.read(DmaRange::new(ring + 4 + slot * 8, 8)).expect("element");
    (
        u16::from_le_bytes(index[..].try_into().expect("index")),
        u32::from_le_bytes(element[0..4].try_into().expect("head")),
        u32::from_le_bytes(element[4..8].try_into().expect("length")),
    )
}

fn resources(memory: &mut [u8], queues: usize, notifiers: usize, features: u64) -> DeviceResources<'_> {
    let layouts = (0..queues)
        .map(|queue| {
            let at = BASE + (queue * RINGS) as u64;
            QueueLayout {
                index: queue as u16,
                size: 8,
                descriptors: DmaRange::new(at, 8 * 16),
                available: DmaRange::new(at + 0x80, 4 + 8 * 2),
                used: DmaRange::new(at + 0xa0, 4 + 8 * 8),
            }
        })
        .collect();
    DeviceResources {
        queues: layouts,
        dma: DmaMemory::new(1, vec![DmaSegment::new(BASE, memory)]).expect("memory"),
        notifier_count: notifiers,
        negotiated_features: features,
    }
}

fn declare(tag: &str, queues: usize) -> Result<FsDeclaration, DeviceError> {
    FsDeclaration::open(PathBuf::from("/srv/shared"), true, tag, queues, 8)
}

fn device(memory: &mut [u8], queues: usize) -> FsDevice<'_> {
    declare("shared", queues - 1)
        .expect("declaration")
        .activate(resources(memory, queues, queues, VIRTIO_F_VERSION_1))
        .expect("device")
}

fn started(device: &mut FsDevice<'_>) -> FsWork {
    match device.next().expect("next") {
        FsNext::Start(work) => work,
        other => panic!("{:?}", other),
    }
}

#[test]
fn declaration_exports_standard_config() {
    let declaration = FsDeclaration::open(PathBuf::from("/srv/shared"), true, "shared", 2, 128)
        .expect("declaration");
    assert_eq!(declaration.config_bytes()[..6], *b"shared");
    assert_eq!(
        u32::from_le_bytes(
            declaration.config_bytes()[36..40]
                .try_into()
                .expect("queue count")
        ),
        2
    );
    assert_eq!(declaration.layout().queue_count, 3);
    let reply = entry_out(9, &FileMetadata { length: 4, directory: false, symlink: false });
    assert_eq!(
        u64::from_le_bytes(reply[40..48].try_into().expect("attr inode")),
        9
    );
}

#[test]
fn a_cloned_export_is_the_same() {
    let declaration = declare("shared", 2).expect("declaration");
    let copy = declaration.clone();
    assert_eq!(format!("{:?}", copy), format!("{:?}", declaration));
    assert_eq!(copy.root(), &PathBuf::from("/srv/shared"));
}

#[test]
fn invalid_exports_are_told_apart() {
    assert!(matches!(
        FsDeclaration::open(PathBuf::from("/srv/file"), false, "", 0, 8),
        Err(DeviceError::InvalidLayout("virtio-fs root is not a directory"))
    ));
    assert!(matches!(
        declare("", 1),
        Err(DeviceError::InvalidLayout("invalid virtio-fs tag"))
    ));
    assert!(declare(&"x".repeat(36), 1).is_ok());
    assert!(declare(&"x".repeat(37), 1).is_err());
    assert!(declare(&"\u{e9}".repeat(19), 1).is_err());
    assert!(matches!(
        declare("x", 0),
        Err(DeviceError::InvalidLayout("invalid virtio-fs request queue count"))
    ));
    assert!(declare("x", 65534).is_ok());
    assert!(declare("x", 65535).is_err());
    let declaration = declare("tag", 3).expect("declaration");
    assert_eq!(declaration.root(), &PathBuf::from("/srv/shared"));
    assert_eq!(declaration.config().request_queue_count, 3);
    assert_eq!(declaration.config().tag[..4], *b"tag\0");
    assert_eq!(declaration.layout().notifier_count, 4);
    assert_eq!(declaration.layout().required_features, 1 << 32);
}

fn request(memory: &mut [u8], queue: usize, at: usize, first: u8) {
    put(memory, at, &[first; 48]);
    descriptor(memory, queue, 0, BASE + at as u64, 40, 1, 1);
    descriptor(memory, queue, 1, BASE + at as u64 + 40, 8, 1, 2);
    descriptor(memory, queue, 2, BASE + at as u64 + 0x40, 10, 3, 3);
    descriptor(memory, queue, 3, BASE + at as u64 + 0x60, 32, 2, 0);
    offer(memory, queue, &[0]);
}

#[test]
fn requests_are_answered_in_their_buffers() {
    let mut memory = vec![0u8; 0x2000];
    request(&mut memory, 1, 0x1000, 7);
    let mut device = device(&mut memory, 2);
    assert!(matches!(device.next(), Ok(FsNext::WaitForWake)));
    device.on_wake();
    let work = started(&mut device);
    assert_eq!(work.queue_index, 1);
    assert_eq!(work.request, vec![7u8; 48]);
    assert_eq!(
        work.reply,
        vec![DmaRange::new(BASE + 0x1040, 10), DmaRange::new(BASE + 0x1060, 32)]
    );
    assert!(matches!(device.next(), Ok(FsNext::WaitForCompletionOrWake)));
    let reply: Vec<u8> = (1..=16).collect();
    assert_eq!(
        device.on_completion(&work, &reply).expect("completion"),
        Some(Interrupt::Queue { queue_index: 1, vector: 1 })
    );
    assert_eq!(
        device.memory().read(DmaRange::new(BASE + 0x1040, 10)).expect("one")[..],
        reply[..10]
    );
    assert_eq!(
        device.memory().read(DmaRange::new(BASE + 0x1060, 6)).expect("two")[..],
        reply[10..]
    );
    assert_eq!(used(device.memory(), 1, 0), (1, 0, 16));
    assert!(matches!(device.next(), Ok(FsNext::WaitForWake)));
}

#[test]
fn an_empty_answer_uses_nothing() {
    let mut memory = vec![0u8; 0x2000];
    request(&mut memory, 0, 0x1000, 7);
    let mut device = device(&mut memory, 2);
    device.on_wake();
    let work = started(&mut device);
    assert!(device.on_completion(&work, &[]).expect("completion").is_some());
    assert_eq!(used(device.memory(), 0, 0), (1, 0, 0));
}

#[test]
fn answers_must_fit_their_buffers() {
    let mut memory = vec![0u8; 0x2000];
    request(&mut memory, 0, 0x1000, 7);
    let mut device = device(&mut memory, 2);
    device.on_wake();
    let work = started(&mut device);
    assert!(matches!(
        device.on_completion(&work, &[0; 43]),
        Err(DeviceError::Descriptor("virtio-fs reply does not fit descriptors"))
    ));
}

#[test]
fn queues_are_looked_through_in_turn() {
    let mut memory = vec![0u8; 0x2000];
    request(&mut memory, 0, 0x1000, 1);
    request(&mut memory, 2, 0x1200, 3);
    let mut device = device(&mut memory, 3);
    assert_eq!(device.maximum_inflight(), 12);
    device.on_wake();
    let first = started(&mut device);
    let second = started(&mut device);
    assert_eq!((first.queue_index, second.queue_index), (0, 2));
    assert!(matches!(device.next(), Ok(FsNext::WaitForCompletionOrWake)));
    device.on_completion(&second, &[]).expect("second");
    device.on_completion(&first, &[]).expect("first");
    assert!(matches!(device.next(), Ok(FsNext::WaitForWake)));
}

#[test]
fn no_more_than_64_requests_are_under_way() {
    let mut memory = vec![0u8; 0x6000];
    assert_eq!(device(&mut memory, 16).maximum_inflight(), 64);
    assert_eq!(device(&mut memory, 17).maximum_inflight(), 64);
    assert_eq!(device(&mut memory, 2).maximum_inflight(), 8);
}

#[test]
fn a_device_that_goes_down_drains() {
    let mut memory = vec![0u8; 0x2000];
    request(&mut memory, 0, 0x1000, 1);
    let mut device = device(&mut memory, 2);
    device.on_wake();
    let work = started(&mut device);
    assert!(device.check_live().is_ok());
    device.stop(DeviceDownReason::Stop);
    assert!(matches!(
        device.check_live(),
        Err(DeviceError::Down(DeviceDownReason::Revoked))
    ));
    assert!(matches!(device.next(), Ok(FsNext::WaitForCompletionOrWake)));
    device.on_wake();
    assert!(matches!(device.next(), Ok(FsNext::WaitForCompletionOrWake)));
    assert_eq!(device.on_completion(&work, &[1]).expect("completion"), None);
    assert!(matches!(device.next(), Ok(FsNext::End)));
}

#[test]
fn a_device_ends_only_without_leases() {
    let mut memory = vec![0u8; 0x2000];
    let mut resources = resources(&mut memory, 2, 2, VIRTIO_F_VERSION_1);
    let lease = resources.dma.lease(DmaRange::new(BASE, 1)).expect("lease");
    let mut device =
        declare("shared", 1).expect("declaration").activate(resources).expect("device");
    assert!(matches!(device.next(), Ok(FsNext::WaitForWake)));
    device.stop(DeviceDownReason::Stop);
    assert!(matches!(device.next(), Ok(FsNext::Drain)));
    assert_eq!(lease.parts().len(), 1);
    assert!(!device.memory().is_drained());
}

#[test]
fn a_new_run_starts_afresh() {
    let mut memory = vec![0u8; 0x2000];
    request(&mut memory, 0, 0x1000, 1);
    let mut device = device(&mut memory, 2);
    device.begin_run();
    device.on_wake();
    started(&mut device);
    device.begin_run();
    assert!(matches!(device.next(), Ok(FsNext::WaitForWake)));
    device.stop(DeviceDownReason::Reset);
    assert!(matches!(device.next(), Ok(FsNext::End)));
}

fn chain(descriptors: &[(u64, u32, u16)]) -> DescriptorChain {
    DescriptorChain {
        head: 0,
        descriptors: descriptors
            .iter()
            .map(|&(address, length, flags)| Descriptor { address, length, flags, next: 0 })
            .collect(),
    }
}

#[test]
fn malformed_fs_chains_are_refused() {
    let mut bytes = [0u8; 256];
    let memory = DmaMemory::new(1, vec![DmaSegment::new(BASE, &mut bytes)]).expect("memory");
    assert!(parse_chain(&memory, &chain(&[(BASE, 40, 0), (BASE + 64, 16, 2)])).is_ok());
    for descriptors in [
        vec![(BASE, 39, 0), (BASE + 64, 16, 2)],
        vec![(BASE, 40, 0)],
        vec![(BASE + 64, 16, 2)],
    ] {
        assert!(matches!(
            parse_chain(&memory, &chain(&descriptors)),
            Err(DeviceError::Descriptor("invalid virtio-fs descriptor directions"))
        ));
    }
    assert!(matches!(
        parse_chain(&memory, &chain(&[(BASE, 40, 0), (BASE + 64, 0, 2)])),
        Err(DeviceError::Descriptor("zero-length virtio-fs descriptor"))
    ));
    assert!(matches!(
        parse_chain(&memory, &chain(&[(0x9000, 40, 0), (BASE + 64, 16, 2)])),
        Err(DeviceError::DmaRange { gpa: 0x9000, length: 40 })
    ));
}
