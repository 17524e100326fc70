use std::path::PathBuf;

use virtio::block::{
    BlockDeclaration, BlockDevice, FileOperation, VIRTIO_BLK_F_FLUSH, VIRTIO_BLK_F_MQ,
};
use virtio::device::DeviceResources;
use virtio::dma::{DmaMemory, DmaRange, DmaSegment};
use virtio::error::{DeviceDownReason, DeviceError, IoError};
use virtio::queue::QueueLayout;

fn resources(memory: &mut [u8]) -> DeviceResources<'_> {
    DeviceResources {
        queues: vec![QueueLayout {
            index: 0,
            size: 8,
            descriptors: DmaRange::new(0, 8 * 16),
            available: DmaRange::new(128, 8),
            used: DmaRange::new(136, 8),
        }],
        dma: DmaMemory::new(1, vec![DmaSegment::new(0, memory)]).expect("memory"),
        notifier_count: 1,
        negotiated_features: VIRTIO_BLK_F_FLUSH,
    }
}

#[test]
fn reads_writes_flushes_and_stops() {
    let mut image = vec![0u8; 4096];
    let declaration = BlockDeclaration::new(PathBuf::from("disk.raw"), 1, 128);
    let mut memory = [0u8; 256];
    let mut device = BlockDevice::open(&declaration, resources(&mut memory));
    assert_eq!(device.resources().queues.len(), 1);

    match device.write_at(512, b"vmm".len()).expect("write") {
        FileOperation::Write { offset, length } => {
            let start = offset as usize;
            image[start..start + length].copy_from_slice(b"vmm");
        }
        _ => panic!("not a write"),
    }
    assert_eq!(device.flush().expect("flush"), FileOperation::Sync);
    let mut buffer = [0u8; 3];
    match device.read_at(512, buffer.len()).expect("read") {
        FileOperation::Read { offset, length } => {
            let start = offset as usize;
            buffer.copy_from_slice(&image[start..start + length]);
        }
        _ => panic!("not a read"),
    }
    assert_eq!(&buffer, b"vmm");

    device.kick();
    assert!(device.take_kick());
    assert!(!device.take_kick());
    device.shutdown(DeviceDownReason::Revoked);
    assert!(matches!(
        device.flush(),
        Err(DeviceError::Down(DeviceDownReason::Revoked))
    ));
}

#[test]
fn a_read_only_image_is_not_written() {
    let declaration = BlockDeclaration::new(PathBuf::from("disk.raw"), 1, 128);
    assert!(declaration.open_mode().write);
    let declaration = declaration.read_only();
    assert!(declaration.open_mode().read);
    assert!(!declaration.open_mode().write);
    assert_eq!(declaration.path(), &PathBuf::from("disk.raw"));
    let mut memory = [0u8; 256];
    let mut device = BlockDevice::open(&declaration, resources(&mut memory));
    assert!(matches!(
        device.write_at(0, 1),
        Err(DeviceError::Io(IoError::PermissionDenied))
    ));
    assert!(device.read_at(0, 1).is_ok());
    device.shutdown(DeviceDownReason::Stop);
    assert!(matches!(
        device.write_at(0, 1),
        Err(DeviceError::Down(DeviceDownReason::Revoked))
    ));
    assert!(device.read_at(0, 1).is_err());
}

#[test]
fn a_cloned_declaration_is_the_same() {
    let declaration = BlockDeclaration::new(PathBuf::from("disk.raw"), 3, 128).read_only();
    let copy = declaration.clone();
    assert_eq!(format!("{:?}", copy), format!("{:?}", declaration));
    assert_eq!(copy.path(), &PathBuf::from("disk.raw"));
}

#[test]
fn a_block_device_needs_flush() {
    let declaration = BlockDeclaration::new(PathBuf::from("disk.raw"), 4, 256);
    let layout = declaration.layout();
    assert_eq!(layout.queue_count, 4);
    assert_eq!(layout.notifier_count, 4);
    assert_eq!(layout.maximum_queue_size, 256);
    assert_eq!(layout.required_features, 1 << 9);
    let mut memory = [0u8; 256];
    assert!(matches!(
        declaration.activate(resources(&mut memory)),
        Err(DeviceError::InvalidLayout("unexpected queue count"))
    ));
}

#[test]
fn a_block_device_has_one_to_four_queues() {
    let cases: [(usize, usize, u64); 6] = [
        (0, 1, 0),
        (1, 1, 0),
        (2, 2, 1 << 12),
        (4, 4, 1 << 12),
        (5, 4, 1 << 12),
        (usize::MAX, 4, 1 << 12),
    ];
    assert_eq!(VIRTIO_BLK_F_MQ, 1 << 12);
    for (asked, queues, features) in cases {
        let declaration = BlockDeclaration::new(PathBuf::from("disk.raw"), asked, 128);
        let layout = declaration.layout();
        assert_eq!(layout.queue_count, queues);
        assert_eq!(layout.notifier_count, queues);
        assert_eq!(layout.optional_features, features);
        assert_eq!(declaration.read_only().layout(), layout);
    }
}

#[test]
fn a_block_device_is_activated_with_valid_queues() {
    let declaration = BlockDeclaration::new(PathBuf::from("disk.raw"), 1, 128);
    let mut memory = [0u8; 512];
    let mut resources = resources(&mut memory);
    resources.queues[0].available = DmaRange::new(128, 20);
    resources.queues[0].used = DmaRange::new(160, 68);
    let mut device = declaration.activate(resources).expect("device");
    assert!(device.check_live().is_ok());
    assert!(!device.take_kick());
}
