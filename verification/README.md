# virtio

Transport-independent virtio devices whose decisions are verified with
[Verus](https://github.com/verus-lang/verus).

An embedding monitor owns the transport, the DMA mapping, the async runtime and the
device lifecycle. This crate owns what a device decides: how guest memory is translated
and leased, how virtqueues are walked and completed, and how requests are read and
answered.

## Layout

- `src/` is the verified library. `guest.rs` models guest memory; `dma.rs`, `queue.rs`,
  `chain.rs` and `device.rs` are what all devices share; `console.rs`, `net.rs`,
  `vsock.rs`, `memory.rs`, `rng.rs`, `block.rs` and `fs.rs` are the devices. `fuse.rs`,
  `inodes.rs` and `session.rs` hold what virtio-fs says and knows, and `paging.rs` the
  law of a directory read page by page.
- `app/` is ordinary Rust around it: backends, notifiers, the tasks that drive the
  devices, and the files of the host.
- `tests/` runs the library on concrete guests.

Each step of a device that waits for the outside is split: a function that takes a chain
off its queue and says what is wanted, and one that takes what came back and answers the
guest. Entropy is filled into the guest's buffers in place, one stretch of memory at a
time. The public proof functions named `law_..` state what holds across
functions.
