//! Transport-independent virtio device logic.
//!
//! The embedding monitor owns the transport, the DMA mapping, the async runtime and
//! the device lifecycle.  This crate owns what a virtio device decides: how guest
//! memory is translated and leased, how virtqueues are walked and completed, and how
//! each device reads its requests and answers them.  Verus proves the contracts of its
//! functions; those of the few that call into another crate or the standard library are
//! believed, and say so where they stand.

pub mod block;
pub mod bytes;
pub mod chain;
pub mod console;
pub mod device;
pub mod dma;
pub mod driver;
pub mod error;
pub mod fs;
pub mod fuse;
pub mod guest;
pub mod inodes;
pub mod interrupt;
pub mod memory;
pub mod net;
pub mod num;
pub mod paging;
pub mod queue;
pub mod rng;
pub mod session;
pub mod vsock;

pub use block::{BlockDeclaration, BlockDevice};
pub use console::ConsoleSpec;
pub use device::{DeviceLayout, DeviceResources};
pub use dma::{DmaLease, DmaMemory, DmaPart, DmaRange, DmaSegment};
pub use error::{DeviceDownReason, DeviceError};
pub use fs::{FsConfig, FsDeclaration, VIRTIO_FS_TAG_SIZE};
pub use interrupt::Interrupt;
pub use memory::{MemoryConfig, MemoryConfigState, MemoryRequest, MemoryResponse, MemorySpec};
pub use net::NetDeclaration;
pub use queue::{QueueLayout, QueueState, VirtQueue};
pub use rng::RngSpec;
pub use vsock::{VsockDeclaration, VsockHeader, VsockPacket};
