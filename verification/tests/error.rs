use virtio::error::{DeviceDownReason, DeviceError, IoError};

#[test]
fn errors_describe_themselves() {
    assert_eq!(
        DeviceError::Down(DeviceDownReason::SurpriseRemoval).message(),
        "device is down: SurpriseRemoval"
    );
    assert_eq!(
        DeviceError::InvalidLayout("unexpected queue count").message(),
        "invalid device layout: unexpected queue count"
    );
    assert_eq!(
        DeviceError::InvalidQueue { queue: 120, reason: "too small" }.message(),
        "invalid queue 120: too small"
    );
    assert_eq!(
        DeviceError::DmaRange { gpa: 0x10af, length: 4096 }.message(),
        "DMA GPA range 0x10af length=4096 is not mapped"
    );
    assert_eq!(
        DeviceError::DmaRange { gpa: 0, length: 0 }.message(),
        "DMA GPA range 0x0 length=0 is not mapped"
    );
    assert_eq!(
        DeviceError::DmaAlignment { alignment: 4096 }.message(),
        "DMA mapping is not aligned to 4096 bytes"
    );
    assert_eq!(
        DeviceError::Descriptor("short").message(),
        "descriptor chain is malformed: short"
    );
    assert_eq!(
        DeviceError::Io(IoError::PermissionDenied).message(),
        "I/O failed: permission denied"
    );
    assert_eq!(
        DeviceError::Worker(String::from("cancelled")).message(),
        "blocking device worker failed: cancelled"
    );
}

#[test]
fn only_the_operating_system_gives_error_numbers() {
    let os = IoError::Os { code: 2, text: String::from("No such file or directory") };
    assert_eq!(os.raw_os_error(), Some(2));
    assert_eq!(os.text(), "No such file or directory");
    assert_eq!(IoError::PermissionDenied.raw_os_error(), None);
    assert_eq!(IoError::Other { text: String::from("short read") }.raw_os_error(), None);
}
