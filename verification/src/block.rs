//! Raw file as a virtio block device.

use std::path::PathBuf;

use vstd::prelude::*;

use crate::device::{DeviceLayout, DeviceResources};
use crate::error::{DeviceDownReason, DeviceError, IoError};

verus! {

pub const VIRTIO_BLK_F_FLUSH: u64 = 0x200;

/// The device has more than one request queue.
pub const VIRTIO_BLK_F_MQ: u64 = 0x1000;

/// The most request queues a device has.
pub const MAXIMUM_QUEUE_COUNT: usize = 4;

/// The number of request queues next to `count` that a device can have.
pub open spec fn queue_count_within(count: usize) -> usize {
    if count == 0 {
        1
    } else if count > MAXIMUM_QUEUE_COUNT {
        MAXIMUM_QUEUE_COUNT
    } else {
        count
    }
}

/// A path of the host's file system.
#[verifier::external_type_specification]
#[verifier::external_body]
pub struct ExPathBuf(std::path::PathBuf);

/// The clone of a path is the same path.
pub assume_specification [<PathBuf as Clone>::clone](path: &PathBuf) -> (copy: PathBuf)
    ensures
        copy == *path,
;

/// A block device to be activated, with the path of its image.
#[derive(Debug)]
pub struct BlockDeclaration {
    path: PathBuf,
    queue_count: usize,
    maximum_queue_size: u16,
    read_only: bool,
}

/// How the image of a device is opened.
#[derive(Clone, Copy, Debug, PartialEq, Eq, Structural)]
pub struct OpenMode {
    pub read: bool,
    pub write: bool,
}

impl Clone for BlockDeclaration {
    fn clone(&self) -> (copy: Self)
        ensures
            copy == *self,
    {
        proof {
            use_type_invariant(self);
        }
        BlockDeclaration {
            path: self.path.clone(),
            queue_count: self.queue_count,
            maximum_queue_size: self.maximum_queue_size,
            read_only: self.read_only,
        }
    }
}

impl BlockDeclaration {
    #[verifier::type_invariant]
    spec fn valid(self) -> bool {
        1 <= self.queue_count <= MAXIMUM_QUEUE_COUNT
    }

    /// The path of the image.
    pub closed spec fn spec_path(self) -> PathBuf {
        self.path
    }

    /// How many queues the device has.
    pub closed spec fn spec_queue_count(self) -> usize {
        self.queue_count
    }

    /// The largest queue the device takes.
    pub closed spec fn spec_maximum_queue_size(self) -> u16 {
        self.maximum_queue_size
    }

    /// Whether the guest may not write.
    pub closed spec fn spec_read_only(self) -> bool {
        self.read_only
    }

    /// Declares a device with one to four request queues: a count outside that is
    /// brought to the next one inside.
    pub fn new(path: PathBuf, queue_count: usize, maximum_queue_size: u16) -> (declaration: Self)
        ensures
            1 <= declaration.spec_queue_count() <= 4,
            1 <= queue_count <= 4 ==> declaration.spec_queue_count() == queue_count,
            declaration.spec_path() == path,
            declaration.spec_queue_count() == queue_count_within(queue_count),
            declaration.spec_maximum_queue_size() == maximum_queue_size,
            !declaration.spec_read_only(),
    {
        let queue_count: usize = if queue_count == 0 {
            1
        } else if queue_count > MAXIMUM_QUEUE_COUNT {
            MAXIMUM_QUEUE_COUNT
        } else {
            queue_count
        };
        BlockDeclaration { path, queue_count, maximum_queue_size, read_only: false }
    }

    /// The same device, which the guest may not write.
    pub fn read_only(self) -> (declaration: Self)
        ensures
            declaration.spec_path() == self.spec_path(),
            declaration.spec_queue_count() == self.spec_queue_count(),
            declaration.spec_maximum_queue_size() == self.spec_maximum_queue_size(),
            declaration.spec_read_only(),
    {
        proof {
            use_type_invariant(&self);
        }
        BlockDeclaration {
            path: self.path,
            queue_count: self.queue_count,
            maximum_queue_size: self.maximum_queue_size,
            read_only: true,
        }
    }

    pub fn path(&self) -> (path: &PathBuf)
        ensures
            *path == self.spec_path(),
    {
        &self.path
    }

    /// How the image is opened: always to be read, and to be written unless the device
    /// is read-only.
    pub fn open_mode(&self) -> (mode: OpenMode)
        ensures
            mode.read,
            mode.write == !self.spec_read_only(),
    {
        OpenMode { read: true, write: !self.read_only }
    }

    /// What the device needs.  With more than one queue it offers the driver to use them
    /// all.
    pub open spec fn spec_layout(self) -> DeviceLayout {
        DeviceLayout {
            queue_count: self.spec_queue_count(),
            maximum_queue_size: self.spec_maximum_queue_size(),
            notifier_count: self.spec_queue_count(),
            required_features: VIRTIO_BLK_F_FLUSH,
            optional_features: if self.spec_queue_count() > 1 {
                VIRTIO_BLK_F_MQ
            } else {
                0
            },
        }
    }

    pub fn layout(&self) -> (layout: DeviceLayout)
        ensures
            layout == self.spec_layout(),
            1 <= layout.queue_count <= MAXIMUM_QUEUE_COUNT,
    {
        proof {
            use_type_invariant(self);
        }
        DeviceLayout {
            queue_count: self.queue_count,
            maximum_queue_size: self.maximum_queue_size,
            notifier_count: self.queue_count,
            required_features: VIRTIO_BLK_F_FLUSH,
            optional_features: if self.queue_count > 1 {
                VIRTIO_BLK_F_MQ
            } else {
                0
            },
        }
    }

    /// Activates the device; its image is then opened as `open_mode()` says.
    pub fn activate<'a>(&self, resources: DeviceResources<'a>) -> (result: Result<
        BlockDevice<'a>,
        DeviceError,
    >)
        requires
            resources.dma@.wf(),
        ensures
            result is Ok <==> resources.flaw(self.spec_layout()) is None,
            match result {
                Ok(device) => {
                    &&& resources.flaw(self.spec_layout()) is None
                    &&& device.spec_resources() == resources
                    &&& device@ == (Block {
                        read_only: self.spec_read_only(),
                        kicked: false,
                        down: false,
                    })
                },
                Err(error) => resources.flaw(self.spec_layout()) == Some(error),
            },
    {
        resources.validate(&self.layout())?;
        Ok(BlockDevice::open(self, resources))
    }
}

/// What is to be done with the image.
#[derive(Clone, Copy, Debug, PartialEq, Eq, Structural)]
pub enum FileOperation {
    /// Read exactly `length` bytes at `offset`.
    Read { offset: u64, length: usize },
    /// Write exactly `length` bytes at `offset`.
    Write { offset: u64, length: usize },
    /// Bring what was written to the disk.
    Sync,
}

/// A block device at work.
pub struct Block {
    pub read_only: bool,
    pub kicked: bool,
    pub down: bool,
}

impl Block {
    /// What becomes of a request for `operation`.
    pub open spec fn admitted(self, operation: FileOperation) -> Result<FileOperation, DeviceError> {
        if self.down {
            Err(DeviceError::Down(DeviceDownReason::Revoked))
        } else if self.read_only && operation is Write {
            Err(DeviceError::Io(IoError::PermissionDenied))
        } else {
            Ok(operation)
        }
    }
}

/// A device that is down does nothing with its image, and a read-only one writes
/// nothing; every other request is carried out.
pub proof fn law_image_is_guarded(device: Block, operation: FileOperation)
    ensures
        device.admitted(operation) is Ok <==> !device.down && !(device.read_only
            && operation is Write),
        device.admitted(operation) is Ok ==> device.admitted(operation) == Ok::<
            FileOperation,
            DeviceError,
        >(operation),
{
}

/// An active block device.
#[derive(Debug)]
pub struct BlockDevice<'a> {
    resources: DeviceResources<'a>,
    read_only: bool,
    kicked: bool,
    down: bool,
}

impl<'a> View for BlockDevice<'a> {
    type V = Block;

    closed spec fn view(&self) -> Block {
        Block { read_only: self.read_only, kicked: self.kicked, down: self.down }
    }
}

impl<'a> BlockDevice<'a> {
    /// What the device was activated with.
    pub closed spec fn spec_resources(self) -> DeviceResources<'a> {
        self.resources
    }

    pub fn open(declaration: &BlockDeclaration, resources: DeviceResources<'a>) -> (device: Self)
        ensures
            device.spec_resources() == resources,
            device@ == (Block {
                read_only: declaration.spec_read_only(),
                kicked: false,
                down: false,
            }),
    {
        BlockDevice { resources, read_only: declaration.read_only, kicked: false, down: false }
    }

    /// Whether the guest rang the doorbell since the last call.
    pub fn take_kick(&mut self) -> (kicked: bool)
        ensures
            kicked == old(self)@.kicked,
            final(self)@ == (Block { kicked: false, ..old(self)@ }),
            final(self).spec_resources() == old(self).spec_resources(),
    {
        let kicked: bool = self.kicked;
        self.kicked = false;
        kicked
    }

    pub fn resources(&self) -> (resources: &DeviceResources<'a>)
        ensures
            *resources == self.spec_resources(),
    {
        &self.resources
    }

    /// Notes that the guest rang the doorbell.
    pub fn kick(&mut self)
        ensures
            final(self)@ == (Block { kicked: true, ..old(self)@ }),
            final(self).spec_resources() == old(self).spec_resources(),
    {
        self.kicked = true;
    }

    /// Takes the device down, whatever the reason.
    pub fn shutdown(&mut self, reason: DeviceDownReason)
        ensures
            final(self)@ == (Block { down: true, ..old(self)@ }),
            final(self).spec_resources() == old(self).spec_resources(),
    {
        self.down = true;
    }

    /// What to do to read `length` bytes at `offset`.
    pub fn read_at(&self, offset: u64, length: usize) -> (result: Result<
        FileOperation,
        DeviceError,
    >)
        ensures
            result == self@.admitted(FileOperation::Read { offset, length }),
            result is Ok <==> !self@.down,
            result matches Ok(operation) ==> operation == (FileOperation::Read { offset, length }),
    {
        self.check_live()?;
        Ok(FileOperation::Read { offset, length })
    }

    /// What to do to write `length` bytes at `offset`.
    pub fn write_at(&self, offset: u64, length: usize) -> (result: Result<
        FileOperation,
        DeviceError,
    >)
        ensures
            result == self@.admitted(FileOperation::Write { offset, length }),
            result is Ok <==> !self@.down && !self@.read_only,
            result matches Ok(operation) ==> operation == (FileOperation::Write { offset, length }),
    {
        self.check_live()?;
        if self.read_only {
            return Err(DeviceError::Io(IoError::PermissionDenied));
        }
        Ok(FileOperation::Write { offset, length })
    }

    /// What to do to make what was written last.
    pub fn flush(&self) -> (result: Result<FileOperation, DeviceError>)
        ensures
            result == self@.admitted(FileOperation::Sync),
            result is Ok <==> !self@.down,
            result matches Ok(operation) ==> operation is Sync,
    {
        self.check_live()?;
        Ok(FileOperation::Sync)
    }

    /// Whether the device still works.
    pub fn check_live(&self) -> (result: Result<(), DeviceError>)
        ensures
            result == if self@.down {
                Err::<(), DeviceError>(DeviceError::Down(DeviceDownReason::Revoked))
            } else {
                Ok::<(), DeviceError>(())
            },
    {
        if self.down {
            return Err(DeviceError::Down(DeviceDownReason::Revoked));
        }
        Ok(())
    }
}

/// A device that is down refuses everything as revoked, a read-only one refuses to write and
/// nothing else, and what is asked of an image is asked of the very bytes that the request names.
pub proof fn law_requests_are_carried_out_as_asked(device: Block, offset: u64, length: usize)
    ensures
        !device.down ==> {
            &&& device.admitted(FileOperation::Read { offset, length }) == Ok::<
                FileOperation,
                DeviceError,
            >(FileOperation::Read { offset, length })
            &&& device.admitted(FileOperation::Sync) == Ok::<FileOperation, DeviceError>(
                FileOperation::Sync,
            )
        },
        !device.down && !device.read_only ==> device.admitted(
            (FileOperation::Write { offset, length }),
        ) == Ok::<FileOperation, DeviceError>(FileOperation::Write { offset, length }),
        !device.down && device.read_only ==> device.admitted(
            (FileOperation::Write { offset, length }),
        ) == Err::<FileOperation, DeviceError>(DeviceError::Io(IoError::PermissionDenied)),
        device.down ==> forall|operation: FileOperation| #[trigger]
            device.admitted(operation) == Err::<FileOperation, DeviceError>(
                DeviceError::Down(DeviceDownReason::Revoked),
            ),
{
}

/// A device has one to four queues: as many as were asked for, or the next number to that.
pub proof fn law_queue_counts(asked: usize)
    ensures
        1 <= queue_count_within(asked) <= 4,
        1 <= asked <= 4 ==> queue_count_within(asked) == asked,
        asked < 1 ==> queue_count_within(asked) == 1,
        asked > 4 ==> queue_count_within(asked) == 4,
{
}

/// A device has a notifier for each queue, needs the flush of its image, and with more than one
/// queue offers the driver to use them all.
pub proof fn law_block_layout(declaration: BlockDeclaration)
    ensures
        declaration.spec_layout().queue_count == declaration.spec_queue_count(),
        declaration.spec_layout().notifier_count == declaration.spec_queue_count(),
        declaration.spec_layout().maximum_queue_size == declaration.spec_maximum_queue_size(),
        declaration.spec_layout().required_features == 0x200,
        declaration.spec_queue_count() > 1 ==> declaration.spec_layout().optional_features == 0x1000,
        declaration.spec_queue_count() <= 1 ==> declaration.spec_layout().optional_features == 0,
{
}

/// The numbers of virtio-blk, and the most queues that a device has.
pub proof fn law_block_numbers()
    ensures
        VIRTIO_BLK_F_FLUSH == 0x200,
        VIRTIO_BLK_F_MQ == 0x1000,
        MAXIMUM_QUEUE_COUNT == 4,
{
}

} // verus!
