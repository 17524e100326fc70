use virtio::dma::{DmaMemory, DmaRange, DmaSegment};
use virtio::error::{DeviceDownReason, DeviceError};

fn memory<'a>(first: &'a mut [u8], second: &'a mut [u8]) -> DmaMemory<'a> {
    DmaMemory::new(7, vec![DmaSegment::new(0x1000, first), DmaSegment::new(0x1010, second)])
        .expect("valid DMA memory")
}

#[test]
fn translates_across_segments_and_drains_before_unmap() {
    let mut first = [0u8; 16];
    let mut second = [0u8; 16];
    first[8] = b'a';
    second[0] = b'b';
    let mut dma = memory(&mut first, &mut second);

    let lease = dma.lease(DmaRange::new(0x1008, 16)).expect("lease");
    assert_eq!(lease.parts().len(), 2);
    assert_eq!(lease.parts()[0].length(), 8);
    assert_eq!(lease.parts()[1].length(), 8);
    assert_eq!(lease.parts()[0].read_slice(&dma)[0], b'a');
    assert_eq!(lease.parts()[1].read_slice(&dma)[0], b'b');

    dma.revoke();
    assert!(matches!(
        dma.lease(DmaRange::new(0x1000, 1)),
        Err(DeviceError::Down(DeviceDownReason::Revoked))
    ));
    assert!(!dma.is_drained());
    assert!(dma.release(lease));
    assert!(dma.is_drained());
}

#[test]
fn range_end_is_the_first_address_behind_it() {
    assert_eq!(DmaRange::new(0x1000, 16).end(), Some(0x1010));
    assert_eq!(DmaRange::new(u64::MAX, 1).end(), None);
}

#[test]
fn segments_are_ordered_by_address() {
    let mut first = [0u8; 16];
    let mut second = [0u8; 16];
    let dma = DmaMemory::new(
        9,
        vec![DmaSegment::new(0x3000, &mut second), DmaSegment::new(0x1000, &mut first)],
    )
    .expect("memory");
    assert_eq!(dma.generation(), 9);
    assert_eq!(dma.segments().len(), 2);
    assert_eq!(dma.segments()[0].gpa(), 0x1000);
    assert_eq!(dma.segments()[0].length(), 16);
    assert_eq!(dma.segments()[1].gpa(), 0x3000);
}

#[test]
fn bad_segments_are_refused() {
    assert!(matches!(
        DmaMemory::new(0, vec![]),
        Err(DeviceError::InvalidLayout("DMA mapping has no segments"))
    ));
    let mut empty: [u8; 0] = [];
    assert!(matches!(
        DmaMemory::new(0, vec![DmaSegment::new(0x1000, &mut empty)]),
        Err(DeviceError::InvalidLayout("invalid DMA segment"))
    ));
    let mut bytes = [0u8; 16];
    assert!(matches!(
        DmaMemory::new(0, vec![DmaSegment::new(u64::MAX - 4, &mut bytes)]),
        Err(DeviceError::InvalidLayout("invalid DMA segment"))
    ));
    let mut first = [0u8; 16];
    let mut second = [0u8; 16];
    assert!(matches!(
        DmaMemory::new(
            0,
            vec![DmaSegment::new(0x1000, &mut first), DmaSegment::new(0x100f, &mut second)],
        ),
        Err(DeviceError::InvalidLayout("overlapping DMA segments"))
    ));
}

#[test]
fn bytes_written_across_segments_are_read_back() {
    let mut first = [1u8; 16];
    let mut second = [2u8; 16];
    let mut dma = memory(&mut first, &mut second);
    dma.write(0x100e, &[9, 8, 7, 6]).expect("write");
    assert_eq!(dma.read(DmaRange::new(0x100d, 6)).expect("read"), vec![1, 9, 8, 7, 6, 2]);
    assert_eq!(dma.read(DmaRange::new(0x1000, 0)).expect("empty"), Vec::<u8>::new());
}

#[test]
fn unmapped_ranges_are_refused() {
    let mut first = [0u8; 16];
    let mut second = [0u8; 16];
    let mut dma = memory(&mut first, &mut second);
    assert!(dma.check_range(DmaRange::new(0x1000, 32)).is_ok());
    assert!(matches!(
        dma.check_range(DmaRange::new(0x1001, 32)),
        Err(DeviceError::DmaRange { gpa: 0x1001, length: 32 })
    ));
    assert!(matches!(
        dma.write(0x101f, &[1, 2]),
        Err(DeviceError::DmaRange { gpa: 0x101f, length: 2 })
    ));
    assert!(matches!(
        dma.read(DmaRange::new(u64::MAX, 2)),
        Err(DeviceError::DmaRange { gpa: u64::MAX, length: 2 })
    ));
    assert_eq!(dma.read(DmaRange::new(0x101f, 1)).expect("read"), vec![0]);
}

#[test]
fn parts_are_written_in_place() {
    let mut first = [0u8; 16];
    let mut second = [0u8; 16];
    let mut dma = memory(&mut first, &mut second);
    let mut lease = dma.lease(DmaRange::new(0x100f, 2)).expect("lease");
    assert_eq!(lease.parts_mut().len(), 2);
    assert_eq!(lease.parts()[1].gpa(), 0x1010);
    lease.parts()[1].write_slice(&mut dma)[0] = 5;
    assert!(dma.release(lease));
    assert_eq!(dma.read(DmaRange::new(0x100f, 2)).expect("read"), vec![0, 5]);
}

#[test]
fn a_lender_gets_back_what_the_segment_held() {
    let mut first = [0u8; 16];
    let mut second = [0u8; 16];
    let mut dma = memory(&mut first, &mut second);
    dma.write(0x100f, &[8, 9]).expect("write");
    drop(dma);
    assert_eq!((first[15], second[0], second[1]), (8, 9, 0));
}

#[test]
fn parts_outlast_stores_leases_and_the_revocation() {
    let mut first = [0u8; 16];
    let mut second = [0u8; 16];
    let mut dma = memory(&mut first, &mut second);
    let lease = dma.lease(DmaRange::new(0x1008, 2)).expect("lease");
    let other = dma.lease(DmaRange::new(0x1000, 1)).expect("other");
    dma.write(0x1008, &[4, 5]).expect("write");
    assert!(!dma.release(other));
    dma.revoke();
    assert!(!dma.is_drained());
    assert_eq!(lease.parts()[0].read_slice(&dma), [4, 5]);
    lease.parts()[0].write_slice(&mut dma)[1] = 6;
    assert_eq!(lease.parts()[0].read_slice(&dma), [4, 6]);
    assert!(dma.release(lease));
    assert!(dma.is_drained());
}

#[test]
fn revoked_memory_keeps_its_bytes_to_itself() {
    let mut first = [3u8; 16];
    let mut second = [0u8; 16];
    let mut dma = memory(&mut first, &mut second);
    assert!(!dma.is_revoked());
    dma.revoke();
    assert!(dma.is_revoked());
    assert!(dma.read(DmaRange::new(0x1000, 1)).is_err());
    assert!(dma.write(0x1000, &[1]).is_err());
}

#[test]
fn leases_are_counted() {
    let mut first = [0u8; 16];
    let mut second = [0u8; 16];
    let mut dma = memory(&mut first, &mut second);
    let one = dma.lease(DmaRange::new(0x1000, 1)).expect("one");
    let two = dma.lease(DmaRange::new(0x1000, 1)).expect("two");
    assert!(dma.lease(DmaRange::new(0x2000, 1)).is_err());
    assert!(!dma.release(one));
    assert!(!dma.is_drained());
    assert!(dma.release(two));
    assert!(dma.is_drained());
}
