//! virtio-fs: a directory of the host, exported read-only.

use std::path::PathBuf;

use vstd::prelude::*;

use crate::bytes;
use crate::bytes::{put_slice, put_u32, put_zeros, to_array};
use crate::chain;
use crate::device;
use crate::device::{DeviceLayout, DeviceResources, QueueSet, Queues};
use crate::dma::{DmaMemory, DmaRange};
use crate::driver;
use crate::error::{DeviceDownReason, DeviceError};
use crate::fuse::FUSE_IN_HEADER_SIZE;
use crate::guest::GuestMemory;
use crate::interrupt;
use crate::interrupt::{queue_interrupt, Interrupt};
use crate::queue::{Chain, Descriptor, DescriptorChain};

verus! {

pub const VIRTIO_F_VERSION_1: u64 = 0x1_0000_0000;

pub const VIRTIO_FS_TAG_SIZE: usize = 36;

/// How many requests of each queue are worked on at once.
pub const MAXIMUM_INFLIGHT_PER_QUEUE: usize = 4;

/// How many requests are worked on at once.
pub const MAXIMUM_INFLIGHT_REQUESTS: usize = 64;

/// The configuration of an export.
#[derive(Clone, Debug, PartialEq, Eq)]
pub struct FsConfig {
    pub tag: [u8; 36],
    pub request_queue_count: u32,
}

/// An export to be activated.
#[derive(Debug)]
pub struct FsDeclaration {
    root: PathBuf,
    tag: [u8; 36],
    request_queue_count: u16,
    maximum_queue_size: u16,
}

impl Clone for FsDeclaration {
    fn clone(&self) -> (copy: Self)
        ensures
            copy == *self,
    {
        FsDeclaration {
            root: self.root.clone(),
            tag: self.tag,
            request_queue_count: self.request_queue_count,
            maximum_queue_size: self.maximum_queue_size,
        }
    }
}

/// Whether a tag has a name and fits the configuration space.
pub open spec fn is_tag(tag: Seq<u8>) -> bool {
    1 <= tag.len() <= VIRTIO_FS_TAG_SIZE
}

/// Whether an export can have so many request queues.
pub open spec fn is_queue_count(count: usize) -> bool {
    1 <= count <= u16::MAX - 1
}

impl FsDeclaration {
    /// The exported directory.
    pub closed spec fn spec_root(self) -> PathBuf {
        self.root
    }

    /// The tag, padded with zeros.
    pub closed spec fn spec_tag(self) -> [u8; 36] {
        self.tag
    }

    /// How many request queues the device has.
    pub closed spec fn spec_request_queue_count(self) -> u16 {
        self.request_queue_count
    }

    /// The largest queue the device takes.
    pub closed spec fn spec_maximum_queue_size(self) -> u16 {
        self.maximum_queue_size
    }

    /// Declares the export of `root`, a canonical path, if it `is_directory`.
    pub fn open(
        root: PathBuf,
        is_directory: bool,
        tag: &str,
        request_queue_count: usize,
        maximum_queue_size: u16,
    ) -> (result: Result<Self, DeviceError>)
        ensures
            result is Ok <==> is_directory && is_tag(vstd::utf8::encode_utf8(tag@)) && 1
                <= request_queue_count <= 65_534,
            ({
                let text = vstd::utf8::encode_utf8(tag@);
                match result {
                    Ok(declaration) => {
                        &&& is_directory
                        &&& is_tag(text)
                        &&& is_queue_count(request_queue_count)
                        &&& declaration.spec_root() == root
                        &&& declaration.spec_tag()@ == text + bytes::zeros(
                            (VIRTIO_FS_TAG_SIZE - text.len()) as nat,
                        )
                        &&& declaration.spec_request_queue_count() == request_queue_count
                        &&& declaration.spec_maximum_queue_size() == maximum_queue_size
                    },
                    Err(error) => if !is_directory {
                        error == DeviceError::InvalidLayout("virtio-fs root is not a directory")
                    } else if !is_tag(text) {
                        error == DeviceError::InvalidLayout("invalid virtio-fs tag")
                    } else {
                        &&& !is_queue_count(request_queue_count)
                        &&& error == DeviceError::InvalidLayout(
                            "invalid virtio-fs request queue count",
                        )
                    },
                }
            }),
    {
        if !is_directory {
            return Err(DeviceError::InvalidLayout("virtio-fs root is not a directory"));
        }
        let text = tag.as_bytes();
        if text.len() == 0 || text.len() > VIRTIO_FS_TAG_SIZE {
            return Err(DeviceError::InvalidLayout("invalid virtio-fs tag"));
        }
        if request_queue_count == 0 || request_queue_count > (u16::MAX - 1) as usize {
            return Err(DeviceError::InvalidLayout("invalid virtio-fs request queue count"));
        }
        let mut padded: Vec<u8> = Vec::with_capacity(VIRTIO_FS_TAG_SIZE);
        put_slice(&mut padded, text);
        assert(padded@ =~= text@);
        put_zeros(&mut padded, VIRTIO_FS_TAG_SIZE - text.len());
        Ok(
            FsDeclaration {
                root,
                tag: to_array::<36>(padded.as_slice()),
                request_queue_count: request_queue_count as u16,
                maximum_queue_size,
            },
        )
    }

    pub fn root(&self) -> (root: &PathBuf)
        ensures
            *root == self.spec_root(),
    {
        &self.root
    }

    pub fn config(&self) -> (config: FsConfig)
        ensures
            config.tag == self.spec_tag(),
            config.request_queue_count == self.spec_request_queue_count(),
    {
        FsConfig { tag: self.tag, request_queue_count: self.request_queue_count as u32 }
    }

    /// The configuration space: the tag and the number of request queues.
    pub fn config_bytes(&self) -> (bytes: [u8; 40])
        ensures
            bytes@ == self.spec_tag()@ + bytes::le_bytes(
                self.spec_request_queue_count() as nat,
                4,
            ),
            bytes@.take(36) == self.spec_tag()@,
            bytes::le_field(bytes@, 36, 4) == self.spec_request_queue_count(),
    {
        proof {
            let b = self.tag@ + bytes::le_bytes(self.request_queue_count as nat, 4);
            bytes::lemma_limits();
            bytes::lemma_value_of_bytes(self.request_queue_count as nat, 4);
            assert(b.take(36) =~= self.tag@);
            assert(b.subrange(36, 40) =~= bytes::le_bytes(self.request_queue_count as nat, 4));
        }
        let config = self.config();
        let mut out: Vec<u8> = Vec::with_capacity(40);
        put_slice(&mut out, config.tag.as_slice());
        assert(out@ =~= self.tag@);
        put_u32(&mut out, config.request_queue_count);
        proof {
            bytes::lemma_le_bytes_len(self.request_queue_count as nat, 4);
        }
        to_array::<40>(out.as_slice())
    }

    /// What the device needs: a queue for urgent requests in front of the request
    /// queues, and a notifier for each.
    pub open spec fn spec_layout(self) -> DeviceLayout {
        DeviceLayout {
            queue_count: (self.spec_request_queue_count() + 1) as usize,
            maximum_queue_size: self.spec_maximum_queue_size(),
            notifier_count: (self.spec_request_queue_count() + 1) as usize,
            required_features: VIRTIO_F_VERSION_1,
            optional_features: 0,
        }
    }

    pub fn layout(&self) -> (layout: DeviceLayout)
        ensures
            layout == self.spec_layout(),
    {
        DeviceLayout {
            queue_count: self.request_queue_count as usize + 1,
            maximum_queue_size: self.maximum_queue_size,
            notifier_count: self.request_queue_count as usize + 1,
            required_features: VIRTIO_F_VERSION_1,
            optional_features: 0,
        }
    }

    pub fn activate<'a>(&self, resources: DeviceResources<'a>) -> (result: Result<
        FsDevice<'a>,
        DeviceError,
    >)
        requires
            resources.dma@.wf(),
        ensures
            result is Ok <==> resources.flaw(self.spec_layout()) is None,
            match result {
                Ok(device) => {
                    &&& resources.flaw(self.spec_layout()) is None
                    &&& device.wf()
                    &&& device@ == (Fs {
                        queues: device::fresh_queues(resources),
                        down: false,
                        pending: 0,
                        next_queue: 0,
                        scan: false,
                    })
                },
                Err(error) => resources.flaw(self.spec_layout()) == Some(error),
            },
    {
        let queues = QueueSet::activate(resources, &self.layout())?;
        Ok(FsDevice { queues, down: false, pending: 0, next_queue: 0, scan: false })
    }
}

/// The buffers of a chain that hold the request.
pub open spec fn request_ranges(descriptors: Seq<Descriptor>) -> Seq<DmaRange>
    decreases descriptors.len(),
{
    if descriptors.len() == 0 {
        Seq::empty()
    } else if descriptors[0].spec_writable() {
        request_ranges(descriptors.drop_first())
    } else {
        seq![descriptors[0].spec_range()] + request_ranges(descriptors.drop_first())
    }
}

/// The buffers of a chain that take the answer.
pub open spec fn reply_ranges(descriptors: Seq<Descriptor>) -> Seq<DmaRange>
    decreases descriptors.len(),
{
    if descriptors.len() == 0 {
        Seq::empty()
    } else if descriptors[0].spec_writable() {
        seq![descriptors[0].spec_range()] + reply_ranges(descriptors.drop_first())
    } else {
        reply_ranges(descriptors.drop_first())
    }
}

/// Why the first bad buffer of a chain is bad, if there is one: it is empty, or it holds
/// a part of the request that cannot be read.
pub open spec fn first_refusal(mem: GuestMemory, descriptors: Seq<Descriptor>) -> Option<DeviceError>
    decreases descriptors.len(),
{
    if descriptors.len() == 0 {
        None
    } else if descriptors[0].length == 0 {
        Some(DeviceError::Descriptor("zero-length virtio-fs descriptor"))
    } else if !descriptors[0].spec_writable() && mem.fault(descriptors[0].spec_range()) is Some {
        mem.fault(descriptors[0].spec_range())
    } else {
        first_refusal(mem, descriptors.drop_first())
    }
}

/// The request in a chain, and the buffers for its answer.
pub open spec fn parsed(mem: GuestMemory, descriptors: Seq<Descriptor>) -> Result<
    (Seq<u8>, Seq<DmaRange>),
    DeviceError,
> {
    let request = chain::joined(mem, request_ranges(descriptors));
    let reply = reply_ranges(descriptors);
    match first_refusal(mem, descriptors) {
        Some(error) => Err(error),
        None => if request.len() < FUSE_IN_HEADER_SIZE || reply.len() == 0 {
            Err(DeviceError::Descriptor("invalid virtio-fs descriptor directions"))
        } else {
            Ok((request, reply))
        },
    }
}

/// The guest addresses of a buffer that is not empty.
pub fn descriptor_range(address: u64, length: u32) -> (result: Result<DmaRange, DeviceError>)
    ensures
        result == if length == 0 {
            Err::<DmaRange, DeviceError>(
                DeviceError::Descriptor("zero-length virtio-fs descriptor"),
            )
        } else {
            Ok::<DmaRange, DeviceError>(DmaRange { gpa: address, length: length as usize })
        },
{
    if length == 0 {
        return Err(DeviceError::Descriptor("zero-length virtio-fs descriptor"));
    }
    Ok(DmaRange { gpa: address, length: length as usize })
}

/// Reads the request in a chain, and finds the buffers for its answer.
pub fn parse_chain(memory: &DmaMemory, chain: &DescriptorChain) -> (result: Result<
    (Vec<u8>, Vec<DmaRange>),
    DeviceError,
>)
    requires
        memory@.wf(),
    ensures
        match result {
            Ok((request, reply)) => parsed(memory@, chain.descriptors@) == Ok::<
                (Seq<u8>, Seq<DmaRange>),
                DeviceError,
            >((request@, reply@)),
            Err(error) => parsed(memory@, chain.descriptors@) == Err::<
                (Seq<u8>, Seq<DmaRange>),
                DeviceError,
            >(error),
        },
{
    let mut request: Vec<u8> = Vec::new();
    let mut reply: Vec<DmaRange> = Vec::new();
    let mut i: usize = 0;
    let ghost mem = memory@;
    let ghost all = chain.descriptors@;
    proof {
        assert(all.skip(0) =~= all);
        assert(request@ + chain::joined(mem, request_ranges(all)) =~= chain::joined(
            mem,
            request_ranges(all),
        ));
        assert(reply@ + reply_ranges(all) =~= reply_ranges(all));
    }
    while i < chain.descriptors.len()
        invariant
            i <= all.len(),
            all == chain.descriptors@,
            mem == memory@,
            mem.wf(),
            first_refusal(mem, all.skip(i as int)) == first_refusal(mem, all),
            request@ + chain::joined(mem, request_ranges(all.skip(i as int))) == chain::joined(
                mem,
                request_ranges(all),
            ),
            reply@ + reply_ranges(all.skip(i as int)) == reply_ranges(all),
        decreases all.len() - i,
    {
        let descriptor = chain.descriptors[i];
        let ghost rest = all.skip(i + 1);
        let ghost request_before = request@;
        let ghost reply_before = reply@;
        proof {
            assert(all.skip(i as int)[0] == descriptor);
            assert(all.skip(i as int).drop_first() =~= rest);
        }
        let range = descriptor_range(descriptor.address, descriptor.length)?;
        assert(range == descriptor.spec_range());
        if descriptor.writable() {
            reply.push(range);
            proof {
                assert(reply_before + (seq![range] + reply_ranges(rest)) =~= reply@ + reply_ranges(
                    rest,
                ));
            }
        } else {
            let piece = memory.read(range)?;
            put_slice(&mut request, piece.as_slice());
            proof {
                let ranges = seq![range] + request_ranges(rest);
                assert(ranges.drop_first() =~= request_ranges(rest));
                let tail = chain::joined(mem, request_ranges(rest));
                assert(request_before + (piece@ + tail) =~= request@ + tail);
            }
        }
        i = i + 1;
    }
    proof {
        assert(request@ + Seq::<u8>::empty() =~= request@);
        assert(reply@ + Seq::<DmaRange>::empty() =~= reply@);
        assert(all.skip(i as int).len() == 0);
    }
    if request.len() < FUSE_IN_HEADER_SIZE || reply.len() == 0 {
        return Err(DeviceError::Descriptor("invalid virtio-fs descriptor directions"));
    }
    Ok((request, reply))
}

/// What writing an answer gives, and what it leaves behind.
#[verifier::ext_equal]
pub struct Written {
    pub result: Result<u32, DeviceError>,
    pub memory: GuestMemory,
}

/// What writing an answer into its buffers gives.
pub open spec fn written(mem: GuestMemory, ranges: Seq<DmaRange>, reply: Seq<u8>) -> Written {
    let spread = chain::scattered(mem, ranges, reply);
    if reply.len() == 0 {
        Written { result: Ok(0), memory: mem }
    } else if chain::total(ranges) > usize::MAX {
        Written {
            result: Err(DeviceError::Descriptor("virtio-fs reply capacity overflow")),
            memory: mem,
        }
    } else if reply.len() > chain::total(ranges) {
        Written {
            result: Err(DeviceError::Descriptor("virtio-fs reply does not fit descriptors")),
            memory: mem,
        }
    } else if spread.result is Err {
        Written { result: Err(spread.result->Err_0), memory: spread.memory }
    } else if reply.len() > u32::MAX {
        Written {
            result: Err(DeviceError::Descriptor("virtio-fs reply too large")),
            memory: spread.memory,
        }
    } else {
        Written { result: Ok(reply.len() as u32), memory: spread.memory }
    }
}

/// A request that is worked on.
#[derive(Debug)]
pub struct FsWork {
    pub queue_index: usize,
    pub chain: DescriptorChain,
    pub request: Vec<u8>,
    pub reply: Vec<DmaRange>,
}

/// A request that is worked on.
#[verifier::ext_equal]
pub struct Work {
    pub queue_index: int,
    pub chain: Chain,
    pub request: Seq<u8>,
    pub reply: Seq<DmaRange>,
}

impl View for FsWork {
    type V = Work;

    open spec fn view(&self) -> Work {
        Work {
            queue_index: self.queue_index as int,
            chain: self.chain@,
            request: self.request@,
            reply: self.reply@,
        }
    }
}

/// What taking the next request off queue `i` gives.
pub open spec fn taken(queues: Queues, i: int) -> Result<Option<Work>, DeviceError> {
    match queues.pop_result(i) {
        Err(error) => Err(error),
        Ok(None) => Ok(None),
        Ok(Some(chain)) => match parsed(queues.memory, chain.descriptors) {
            Err(error) => Err(error),
            Ok((request, reply)) => Ok(Some(Work { queue_index: i, chain, request, reply })),
        },
    }
}

/// What looking for the next request gives.
pub struct Search {
    pub result: Result<Option<Work>, DeviceError>,
    pub queues: Queues,
    pub next_queue: usize,
}

/// The number behind `number`; the last one is followed by zero.
pub open spec fn following(number: usize) -> usize {
    if number == usize::MAX {
        0
    } else {
        (number + 1) as usize
    }
}

/// What looking for the next request in `left` queues in turn gives.
pub open spec fn search(queues: Queues, next_queue: usize, left: nat) -> Search
    decreases left,
{
    if left == 0 {
        Search { result: Ok(None), queues, next_queue }
    } else {
        let i = next_queue as int % queues.layouts.len() as int;
        let after = queues.after_pop(i);
        match taken(queues, i) {
            Ok(None) => search(after, following(next_queue), (left - 1) as nat),
            result => Search { result, queues: after, next_queue: following(next_queue) },
        }
    }
}

/// A step of the device.
#[derive(Debug)]
pub enum FsNext {
    /// Nothing is to be done: sleep until the guest rings the doorbell.
    WaitForWake,
    /// Start to work on a request, beside those under way.
    Start(FsWork),
    /// Sleep until a request is done or the guest rings the doorbell.
    WaitForCompletionOrWake,
    /// The device is down and nothing is under way: wait until no lease is outstanding.
    Drain,
    /// The device is down, nothing is under way and no lease is outstanding: end.
    End,
}

/// A step of the device.
pub enum Next {
    WaitForWake,
    Start(Work),
    WaitForCompletionOrWake,
    Drain,
    End,
}

impl View for FsNext {
    type V = Next;

    open spec fn view(&self) -> Next {
        match *self {
            FsNext::WaitForWake => Next::WaitForWake,
            FsNext::Start(work) => Next::Start(work@),
            FsNext::WaitForCompletionOrWake => Next::WaitForCompletionOrWake,
            FsNext::Drain => Next::Drain,
            FsNext::End => Next::End,
        }
    }
}

/// An export at work.
#[verifier::ext_equal]
pub struct Fs {
    pub queues: Queues,
    pub down: bool,
    /// How many requests are under way.
    pub pending: usize,
    pub next_queue: usize,
    /// Whether the queues are to be looked through.
    pub scan: bool,
}

impl Fs {
    /// How many requests may be under way: four for each queue, and no more than 64.
    pub open spec fn maximum_inflight(self) -> int {
        if self.queues.layouts.len() * MAXIMUM_INFLIGHT_PER_QUEUE > MAXIMUM_INFLIGHT_REQUESTS {
            MAXIMUM_INFLIGHT_REQUESTS as int
        } else {
            self.queues.layouts.len() * MAXIMUM_INFLIGHT_PER_QUEUE
        }
    }

    /// The device sleeps: until the guest wakes it, or until a request is done too.
    pub open spec fn asleep(self) -> Next {
        if self.pending == 0 {
            Next::WaitForWake
        } else {
            Next::WaitForCompletionOrWake
        }
    }

    /// The next step, and the device after it.
    pub open spec fn next(self) -> (Result<Next, DeviceError>, Fs) {
        let found = search(self.queues, self.next_queue, self.queues.layouts.len());
        let searched = Fs { queues: found.queues, next_queue: found.next_queue, ..self };
        if self.down {
            (
                Ok(
                    if self.pending != 0 {
                        Next::WaitForCompletionOrWake
                    } else if self.queues.memory.active != 0 {
                        Next::Drain
                    } else {
                        Next::End
                    },
                ),
                Fs { scan: false, ..self },
            )
        } else if self.scan && self.pending < self.maximum_inflight() {
            match found.result {
                Err(error) => (Err(error), searched),
                Ok(Some(work)) => (
                    Ok(Next::Start(work)),
                    Fs { pending: (self.pending + 1) as usize, ..searched },
                ),
                Ok(None) => (Ok(self.asleep()), Fs { scan: false, ..searched }),
            }
        } else {
            (Ok(self.asleep()), Fs { scan: false, ..self })
        }
    }

    /// What answering a request gives.
    pub open spec fn finish(self, work: Work, reply: Seq<u8>) -> (
        Result<Interrupt, DeviceError>,
        Queues,
    ) {
        let i = work.queue_index;
        let outcome = written(self.queues.memory, work.reply, reply);
        let stored = self.queues.with_memory(outcome.memory);
        match outcome.result {
            Err(error) => (Err(error), stored),
            Ok(used) => (
                match stored.complete_result(i, work.chain.head, used) {
                    Err(error) => Err(error),
                    Ok(()) => if i >= self.queues.notifier_count {
                        Err(DeviceError::InvalidLayout("missing virtio-fs interrupt notifier"))
                    } else if i > u16::MAX {
                        Err(DeviceError::InvalidLayout("queue index exceeds u16"))
                    } else {
                        Ok(interrupt::spec_queue_interrupt(i as u16))
                    },
                },
                stored.after_complete(i, work.chain.head, used),
            ),
        }
    }

    /// What happens when a request is done: it is answered, unless the device went down
    /// in the meantime.
    pub open spec fn completed(self, work: Work, reply: Seq<u8>) -> (
        Result<Option<Interrupt>, DeviceError>,
        Fs,
    ) {
        let fewer = Fs { pending: (self.pending - 1) as usize, ..self };
        if self.down {
            (Ok(None), fewer)
        } else {
            let (result, queues) = self.finish(work, reply);
            match result {
                Err(error) => (Err(error), Fs { queues, ..fewer }),
                Ok(signal) => (Ok(Some(signal)), Fs { queues, scan: true, ..fewer }),
            }
        }
    }
}

/// An active export.
#[derive(Debug)]
pub struct FsDevice<'a> {
    queues: QueueSet<'a>,
    down: bool,
    pending: usize,
    next_queue: usize,
    scan: bool,
}

impl<'a> View for FsDevice<'a> {
    type V = Fs;

    closed spec fn view(&self) -> Fs {
        Fs {
            queues: self.queues@,
            down: self.down,
            pending: self.pending,
            next_queue: self.next_queue,
            scan: self.scan,
        }
    }
}

impl<'a> FsDevice<'a> {
    /// The device has a queue, no more requests are under way than may be, and a device
    /// that is down has had its memory taken away.
    pub open spec fn wf(self) -> bool {
        &&& self@.queues.wf()
        &&& self@.queues.layouts.len() >= 1
        &&& self@.pending <= self@.maximum_inflight()
        &&& self@.down ==> self@.queues.memory.revoked
    }

    /// The guest memory that the device works on.
    pub fn memory(&self) -> (memory: &DmaMemory<'a>)
        ensures
            memory@ == self@.queues.memory,
    {
        &self.queues.resources.dma
    }

    /// Whether the device still works.
    pub fn check_live(&self) -> (result: Result<(), DeviceError>)
        ensures
            result == if self@.down {
                Err::<(), DeviceError>(DeviceError::Down(DeviceDownReason::Revoked))
            } else {
                Ok::<(), DeviceError>(())
            },
    {
        if self.down {
            return Err(DeviceError::Down(DeviceDownReason::Revoked));
        }
        Ok(())
    }

    /// Takes the device down, whatever the reason.
    pub fn stop(&mut self, reason: DeviceDownReason)
        requires
            old(self).wf(),
        ensures
            final(self).wf(),
            final(self)@ == (Fs { queues: old(self)@.queues.stopped(), down: true, ..old(self)@ }),
            final(self)@.down,
            final(self)@.queues.memory.revoked,
            final(self)@.queues.cursors == old(self)@.queues.cursors,
    {
        self.down = true;
        self.queues.stop();
    }

    /// How many requests may be under way.
    pub fn maximum_inflight(&self) -> (maximum: usize)
        ensures
            maximum == self@.maximum_inflight(),
    {
        let queues: usize = self.queues.resources.queues.len();
        if queues > MAXIMUM_INFLIGHT_REQUESTS / MAXIMUM_INFLIGHT_PER_QUEUE {
            MAXIMUM_INFLIGHT_REQUESTS
        } else {
            queues * MAXIMUM_INFLIGHT_PER_QUEUE
        }
    }

    /// Takes the next request off a queue.
    pub fn take_work(&mut self, queue_index: usize) -> (result: Result<Option<FsWork>, DeviceError>)
        requires
            old(self).wf(),
            queue_index < old(self)@.queues.layouts.len(),
        ensures
            final(self).wf(),
            final(self)@ == (Fs {
                queues: old(self)@.queues.after_pop(queue_index as int),
                ..old(self)@
            }),
            match result {
                Ok(Some(work)) => taken(old(self)@.queues, queue_index as int) == Ok::<
                    Option<Work>,
                    DeviceError,
                >(Some(work@)),
                Ok(None) => taken(old(self)@.queues, queue_index as int) == Ok::<
                    Option<Work>,
                    DeviceError,
                >(None),
                Err(error) => taken(old(self)@.queues, queue_index as int) == Err::<
                    Option<Work>,
                    DeviceError,
                >(error),
            },
    {
        let popped = self.queues.pop(queue_index)?;
        match popped {
            None => Ok(None),
            Some(chain) => {
                let (request, reply) = parse_chain(&self.queues.resources.dma, &chain)?;
                Ok(Some(FsWork { queue_index, chain, request, reply }))
            },
        }
    }

    /// Takes the next request off the queues, which are looked through in turn.
    fn find_work(&mut self) -> (result: Result<Option<FsWork>, DeviceError>)
        requires
            old(self).wf(),
        ensures
            final(self).wf(),
            final(self)@.queues.layouts == old(self)@.queues.layouts,
            ({
                let found = search(
                    old(self)@.queues,
                    old(self)@.next_queue,
                    old(self)@.queues.layouts.len(),
                );
                &&& final(self)@ == (Fs {
                    queues: found.queues,
                    next_queue: found.next_queue,
                    ..old(self)@
                })
                &&& match result {
                    Ok(Some(work)) => found.result == Ok::<Option<Work>, DeviceError>(Some(work@)),
                    Ok(None) => found.result == Ok::<Option<Work>, DeviceError>(None),
                    Err(error) => found.result == Err::<Option<Work>, DeviceError>(error),
                }
            }),
    {
        let count: usize = self.queues.resources.queues.len();
        let mut left: usize = count;
        let ghost found = search(self@.queues, self@.next_queue, count as nat);
        while left > 0
            invariant
                self.wf(),
                left <= count,
                count == old(self)@.queues.layouts.len(),
                self@.queues.layouts == old(self)@.queues.layouts,
                self@ == (Fs {
                    queues: self@.queues,
                    next_queue: self@.next_queue,
                    ..old(self)@
                }),
                found == search(old(self)@.queues, old(self)@.next_queue, count as nat),
                search(self@.queues, self@.next_queue, left as nat) == found,
            decreases left,
        {
            let queue_index: usize = self.next_queue % count;
            let next_queue: usize = self.next_queue.wrapping_add(1);
            let taken = self.take_work(queue_index);
            self.next_queue = next_queue;
            match taken {
                Err(error) => {
                    return Err(error);
                },
                Ok(Some(work)) => {
                    return Ok(Some(work));
                },
                Ok(None) => {},
            }
            left = left - 1;
        }
        Ok(None)
    }

    /// Begins a run: what an earlier run had under way is forgotten, and the queues are
    /// looked through from the first on once the guest rings the doorbell.
    pub fn begin_run(&mut self)
        requires
            old(self).wf(),
        ensures
            final(self).wf(),
            final(self)@ == (Fs { pending: 0, next_queue: 0, scan: false, ..old(self)@ }),
    {
        self.pending = 0;
        self.next_queue = 0;
        self.scan = false;
    }

    /// The next step.
    pub fn next(&mut self) -> (result: Result<FsNext, DeviceError>)
        requires
            old(self).wf(),
        ensures
            final(self).wf(),
            final(self)@ == old(self)@.next().1,
            match result {
                Ok(next) => old(self)@.next().0 == Ok::<Next, DeviceError>(next@),
                Err(error) => old(self)@.next().0 == Err::<Next, DeviceError>(error),
            },
    {
        if self.down {
            self.scan = false;
            if self.pending != 0 {
                return Ok(FsNext::WaitForCompletionOrWake);
            }
            if !self.queues.resources.dma.is_drained() {
                return Ok(FsNext::Drain);
            }
            return Ok(FsNext::End);
        }
        if self.scan && self.pending < self.maximum_inflight() {
            let found = self.find_work()?;
            if let Some(work) = found {
                self.pending = self.pending + 1;
                return Ok(FsNext::Start(work));
            }
        }
        self.scan = false;
        if self.pending == 0 {
            return Ok(FsNext::WaitForWake);
        }
        Ok(FsNext::WaitForCompletionOrWake)
    }

    /// The guest rang the doorbell.
    pub fn on_wake(&mut self)
        requires
            old(self).wf(),
        ensures
            final(self).wf(),
            final(self)@ == (Fs { scan: true, ..old(self)@ }),
    {
        self.scan = true;
    }

    /// A request that was started is done.
    pub fn on_completion(&mut self, work: &FsWork, reply: &[u8]) -> (result: Result<
        Option<Interrupt>,
        DeviceError,
    >)
        requires
            old(self).wf(),
            old(self)@.pending > 0,
            work.queue_index < old(self)@.queues.layouts.len(),
        ensures
            final(self).wf(),
            result == old(self)@.completed(work@, reply@).0,
            final(self)@ == old(self)@.completed(work@, reply@).1,
    {
        self.pending = self.pending - 1;
        if self.down {
            return Ok(None);
        }
        let signal = self.complete_work(work, reply)?;
        self.scan = true;
        Ok(Some(signal))
    }

    /// Answers a request, and hands its chain back.
    pub fn complete_work(&mut self, work: &FsWork, reply: &[u8]) -> (result: Result<
        Interrupt,
        DeviceError,
    >)
        requires
            old(self).wf(),
            work.queue_index < old(self)@.queues.layouts.len(),
        ensures
            final(self).wf(),
            result == old(self)@.finish(work@, reply@).0,
            final(self)@ == (Fs { queues: old(self)@.finish(work@, reply@).1, ..old(self)@ }),
    {
        let used_length: u32 = self.write_reply(work.reply.as_slice(), reply)?;
        self.queues.complete(work.queue_index, &work.chain, used_length)?;
        if work.queue_index >= self.queues.resources.notifier_count {
            return Err(DeviceError::InvalidLayout("missing virtio-fs interrupt notifier"));
        }
        if work.queue_index > u16::MAX as usize {
            return Err(DeviceError::InvalidLayout("queue index exceeds u16"));
        }
        Ok(queue_interrupt(work.queue_index as u16))
    }

    /// Writes an answer into its buffers.
    fn write_reply(&mut self, ranges: &[DmaRange], reply: &[u8]) -> (result: Result<
        u32,
        DeviceError,
    >)
        requires
            old(self).wf(),
        ensures
            final(self).wf(),
            result == written(old(self)@.queues.memory, ranges@, reply@).result,
            final(self)@ == (Fs {
                queues: old(self)@.queues.with_memory(
                    written(old(self)@.queues.memory, ranges@, reply@).memory,
                ),
                ..old(self)@
            }),
    {
        if reply.len() == 0 {
            return Ok(0);
        }
        let capacity: usize = match chain::capacity(ranges) {
            Some(capacity) => capacity,
            None => {
                return Err(DeviceError::Descriptor("virtio-fs reply capacity overflow"));
            },
        };
        if reply.len() > capacity {
            return Err(DeviceError::Descriptor("virtio-fs reply does not fit descriptors"));
        }
        self.queues.store(ranges, reply)?;
        if reply.len() as u64 > u32::MAX as u64 {
            return Err(DeviceError::Descriptor("virtio-fs reply too large"));
        }
        Ok(reply.len() as u32)
    }
}

/// A device that is down starts nothing, and ends as soon as nothing is under way and no
/// lease is outstanding.
pub proof fn law_down_device_drains(device: Fs)
    requires
        device.down,
    ensures
        device.next().0 == Ok::<Next, DeviceError>(Next::End) <==> device.pending == 0
            && device.queues.memory.active == 0,
        device.next().0 == Ok::<Next, DeviceError>(Next::Drain) <==> device.pending == 0
            && device.queues.memory.active != 0,
        device.pending > 0 ==> device.next().0 == Ok::<Next, DeviceError>(
            Next::WaitForCompletionOrWake,
        ),
        device.next().1.queues == device.queues,
        device.next().1.pending == device.pending,
{
}

/// A run ends only after the device was stopped, which took its memory away so that no
/// new lease can be made, and only at a moment when nothing is under way and no lease is
/// alive.
pub proof fn law_run_ends_only_when_drained(device: FsDevice, range: DmaRange)
    requires
        device.wf(),
        device@.next().0 == Ok::<Next, DeviceError>(Next::End),
    ensures
        device@.down,
        device@.pending == 0,
        device@.queues.memory.active == 0,
        device@.queues.memory.fault(range) == Some(
            DeviceError::Down(DeviceDownReason::Revoked),
        ),
{
}

/// Only `stop()` takes a device down: no step of a run does, nor a request that is done.
pub proof fn law_only_stop_takes_down(device: Fs, work: Work, reply: Seq<u8>)
    ensures
        device.next().1.down == device.down,
        device.completed(work, reply).1.down == device.down,
        !device.down ==> device.next().0 != Ok::<Next, DeviceError>(Next::End),
{
}

/// A request is started only while the device is up and fewer are under way than may be.
pub proof fn law_steps_are_bounded(device: Fs)
    ensures
        device.next().0 matches Ok(Next::Start(_)) ==> {
            &&& !device.down
            &&& device.pending < device.maximum_inflight()
            &&& device.next().1.pending == device.pending + 1
        },
        !(device.next().0 matches Ok(Next::Start(_))) ==> device.next().1.pending
            == device.pending,
{
}

proof fn lemma_search_finds_nothing(queues: Queues, next_queue: usize, left: nat, k: int)
    requires
        search(queues, next_queue, left).result == Ok::<Option<Work>, DeviceError>(None),
        queues.layouts.len() >= 1,
        queues.layouts.len() == queues.cursors.len(),
        next_queue + left <= usize::MAX,
        0 <= k < left,
    ensures
        queues.pop_result((next_queue + k) % queues.layouts.len() as int) == Ok::<
            Option<Chain>,
            DeviceError,
        >(None),
    decreases left,
{
    let i = next_queue as int % queues.layouts.len() as int;
    assert(taken(queues, i) == Ok::<Option<Work>, DeviceError>(None));
    assert(queues.after_pop(i) =~= queues);
    if k > 0 {
        lemma_search_finds_nothing(queues, following(next_queue), (left - 1) as nat, k - 1);
    }
}

/// A device that looked through its queues and found no request found every queue
/// without one, as long as the count of the queues does not start over from zero.
pub proof fn law_idle_device_has_looked_everywhere(device: Fs, i: int)
    requires
        device.queues.wf(),
        device.scan,
        !device.down,
        device.pending < device.maximum_inflight(),
        device.next_queue + device.queues.layouts.len() <= usize::MAX,
        device.next().0 == Ok::<Next, DeviceError>(Next::WaitForWake) || device.next().0 == Ok::<
            Next,
            DeviceError,
        >(Next::WaitForCompletionOrWake),
        0 <= i < device.queues.layouts.len(),
    ensures
        device.queues.pop_result(i) == Ok::<Option<Chain>, DeviceError>(None),
{
    let count = device.queues.layouts.len() as int;
    let first = device.next_queue as int;
    let k = (i - first) % count;
    assert((first + k) % count == i) by {
        vstd::arithmetic::div_mod::lemma_add_mod_noop_right(first, i - first, count);
        vstd::arithmetic::div_mod::lemma_small_mod(i as nat, count as nat);
    }
    lemma_search_finds_nothing(device.queues, device.next_queue, count as nat, k);
}

/// What the guest finds after a request was answered: if the buffers for the answer are
/// apart from each other and from the used ring, they hold the answer, and the used
/// ring names the chain and the length of the answer.
pub proof fn law_answer_reaches_guest(device: Fs, work: Work, reply: Seq<u8>)
    requires
        device.queues.wf(),
        0 <= work.queue_index < device.queues.layouts.len(),
        device.queues.layouts.len() <= device.queues.notifier_count,
        device.queues.layouts.len() <= u16::MAX,
        device.queues.cursors[work.queue_index].inflight,
        !device.queues.memory.revoked,
        chain::first_fault(device.queues.memory, work.reply) is None,
        chain::all_apart(work.reply),
        forall|k: int|
            0 <= k < work.reply.len() ==> chain::apart(
                #[trigger] work.reply[k],
                device.queues.layouts[work.queue_index].used,
            ),
        reply.len() <= chain::total(work.reply) <= usize::MAX,
        reply.len() <= u32::MAX,
    ensures
        ({
            let (result, after) = device.finish(work, reply);
            let layout = device.queues.layouts[work.queue_index];
            let slot = device.queues.cursors[work.queue_index].next_used as int % layout.size as int;
            let element = layout.used.gpa + 4 + 8 * slot;
            &&& result == Ok::<Interrupt, DeviceError>(
                interrupt::spec_queue_interrupt(work.queue_index as u16),
            )
            &&& chain::joined(after.memory, work.reply).subrange(0, reply.len() as int) == reply
            &&& chain::joined(after.memory, work.reply).skip(reply.len() as int) == chain::joined(
                device.queues.memory,
                work.reply,
            ).skip(reply.len() as int)
            &&& bytes::le_value(after.memory.peek(element, 4)) == work.chain.head
            &&& bytes::le_value(after.memory.peek(element + 4, 4)) == reply.len()
        }),
{
    device::law_delivered_bytes_reach_guest(
        device.queues,
        work.queue_index,
        work.reply,
        reply,
        work.chain.head,
        reply.len() as u32,
    );
}

/// The bytes of the buffers of a chain that are for reading, one behind the other.
pub open spec fn asked_bytes(mem: GuestMemory, descriptors: Seq<Descriptor>) -> Seq<u8>
    decreases descriptors.len(),
{
    if descriptors.len() == 0 {
        Seq::empty()
    } else if descriptors.last().flags & 2 == 0 {
        asked_bytes(mem, descriptors.drop_last()) + mem.peek(
            descriptors.last().address as int,
            descriptors.last().length as int,
        )
    } else {
        asked_bytes(mem, descriptors.drop_last())
    }
}

/// The buffers of a chain that are for writing, in their order.
pub open spec fn answer_buffers(descriptors: Seq<Descriptor>) -> Seq<DmaRange>
    decreases descriptors.len(),
{
    if descriptors.len() == 0 {
        Seq::empty()
    } else if descriptors.last().flags & 2 != 0 {
        answer_buffers(descriptors.drop_last()).push(
            DmaRange {
                gpa: descriptors.last().address,
                length: descriptors.last().length as usize,
            },
        )
    } else {
        answer_buffers(descriptors.drop_last())
    }
}

/// Whether a driver has laid a request: no buffer is empty, those for reading can be touched and
/// hold at least the forty bytes of a header, and there is a buffer for the answer.
pub open spec fn is_request(mem: GuestMemory, descriptors: Seq<Descriptor>) -> bool {
    &&& forall|k: int|
        0 <= k < descriptors.len() ==> (#[trigger] descriptors[k]).length > 0 && (
        descriptors[k].flags & 2 == 0 ==> mem.fault(
            DmaRange { gpa: descriptors[k].address, length: descriptors[k].length as usize },
        ) is None)
    &&& asked_bytes(mem, descriptors).len() >= 40
    &&& answer_buffers(descriptors).len() > 0
}

proof fn lemma_one_more_buffer(mem: GuestMemory, front: Seq<Descriptor>, last: Descriptor)
    ensures
        request_ranges(front.push(last)) == if last.spec_writable() {
            request_ranges(front)
        } else {
            request_ranges(front).push(last.spec_range())
        },
        reply_ranges(front.push(last)) == if last.spec_writable() {
            reply_ranges(front).push(last.spec_range())
        } else {
            reply_ranges(front)
        },
    decreases front.len(),
{
    let all = front.push(last);
    if front.len() == 0 {
        assert(all.drop_first() =~= Seq::empty());
        assert(request_ranges(all.drop_first()) =~= Seq::empty());
        assert(reply_ranges(all.drop_first()) =~= Seq::empty());
        assert(request_ranges(front) =~= Seq::empty());
        assert(reply_ranges(front) =~= Seq::empty());
        assert(seq![last.spec_range()] + Seq::<DmaRange>::empty() =~= Seq::empty().push(
            last.spec_range(),
        ));
    } else {
        let rest = front.drop_first();
        assert(all.drop_first() =~= rest.push(last));
        lemma_one_more_buffer(mem, rest, last);
        let first = seq![front[0].spec_range()];
        assert(first + request_ranges(rest).push(last.spec_range()) =~= (first + request_ranges(
            rest,
        )).push(last.spec_range()));
        assert(first + reply_ranges(rest).push(last.spec_range()) =~= (first + reply_ranges(
            rest,
        )).push(last.spec_range()));
    }
}

proof fn lemma_asked_and_answered(mem: GuestMemory, descriptors: Seq<Descriptor>)
    ensures
        chain::joined(mem, request_ranges(descriptors)) == asked_bytes(mem, descriptors),
        reply_ranges(descriptors) == answer_buffers(descriptors),
    decreases descriptors.len(),
{
    if descriptors.len() == 0 {
        assert(request_ranges(descriptors) =~= Seq::empty());
        assert(reply_ranges(descriptors) =~= answer_buffers(descriptors));
    } else {
        let front = descriptors.drop_last();
        let last = descriptors.last();
        assert(descriptors =~= front.push(last));
        lemma_asked_and_answered(mem, front);
        lemma_one_more_buffer(mem, front, last);
        if !last.spec_writable() {
            driver::lemma_one_more(mem, request_ranges(front), last.spec_range());
        }
    }
}

proof fn lemma_first_refusal(mem: GuestMemory, descriptors: Seq<Descriptor>)
    ensures
        first_refusal(mem, descriptors) is None <==> forall|k: int|
            0 <= k < descriptors.len() ==> (#[trigger] descriptors[k]).length > 0 && (
            descriptors[k].flags & 2 == 0 ==> mem.fault(
                DmaRange { gpa: descriptors[k].address, length: descriptors[k].length as usize },
            ) is None),
    decreases descriptors.len(),
{
    if descriptors.len() > 0 {
        let rest = descriptors.drop_first();
        lemma_first_refusal(mem, rest);
        if first_refusal(mem, descriptors) is None {
            assert forall|k: int| 0 <= k < descriptors.len() implies (
            #[trigger] descriptors[k]).length > 0 && (descriptors[k].flags & 2 == 0 ==> mem.fault(
                DmaRange { gpa: descriptors[k].address, length: descriptors[k].length as usize },
            ) is None) by {
                if k > 0 {
                    assert(rest[k - 1] == descriptors[k]);
                }
            }
        } else if descriptors[0].length > 0 && !(descriptors[0].flags & 2 == 0 && mem.fault(
            descriptors[0].spec_range(),
        ) is Some) {
            let k = choose|k: int|
                0 <= k < rest.len() && !((#[trigger] rest[k]).length > 0 && (rest[k].flags & 2 == 0
                    ==> mem.fault(
                    DmaRange { gpa: rest[k].address, length: rest[k].length as usize },
                ) is None));
            assert(rest[k] == descriptors[k + 1]);
        }
    }
}

/// A chain is a request exactly as the driver has laid one: what it asks is the bytes of the
/// buffers for reading, in order and in full, and it is answered in the buffers for writing.
pub proof fn law_requests_are_read(mem: GuestMemory, descriptors: Seq<Descriptor>)
    ensures
        is_request(mem, descriptors) ==> parsed(mem, descriptors) == Ok::<
            (Seq<u8>, Seq<DmaRange>),
            DeviceError,
        >((asked_bytes(mem, descriptors), answer_buffers(descriptors))),
        !is_request(mem, descriptors) ==> parsed(mem, descriptors) is Err,
{
    lemma_asked_and_answered(mem, descriptors);
    lemma_first_refusal(mem, descriptors);
}

/// Whether no chain is to be taken off queue `i` now: one is in flight, or none is offered.
pub open spec fn is_idle(queues: Queues, i: int) -> bool {
    queues.cursors[i].inflight || driver::u16_at(
        queues.memory,
        queues.layouts[i].available.gpa + 2,
    ) == queues.cursors[i].last_available
}

proof fn lemma_search_finds(queues: Queues, next_queue: usize, left: nat, k: int, chain: Chain)
    requires
        queues.wf(),
        !queues.memory.revoked,
        queues.layouts.len() >= 1,
        next_queue + left <= usize::MAX,
        0 <= k < left,
        forall|j: int|
            0 <= j < k ==> #[trigger] is_idle(
                queues,
                (next_queue + j) % queues.layouts.len() as int,
            ),
        driver::is_offered(queues, (next_queue + k) % queues.layouts.len() as int, chain),
        is_request(queues.memory, chain.descriptors),
    ensures
        ({
            let i = (next_queue + k) % queues.layouts.len() as int;
            let found = search(queues, next_queue, left);
            &&& found.result == Ok::<Option<Work>, DeviceError>(
                Some(
                    Work {
                        queue_index: i,
                        chain,
                        request: asked_bytes(queues.memory, chain.descriptors),
                        reply: answer_buffers(chain.descriptors),
                    },
                ),
            )
            &&& found.queues == queues.after_pop(i)
            &&& found.next_queue == next_queue + k + 1
        }),
    decreases left,
{
    let i = next_queue as int % queues.layouts.len() as int;
    if k == 0 {
        driver::law_next_chain_is_taken(queues, i, chain);
        law_requests_are_read(queues.memory, chain.descriptors);
    } else {
        assert(is_idle(queues, (next_queue + 0) % queues.layouts.len() as int));
        driver::law_idle_queues(queues, i);
        assert forall|j: int| 0 <= j < k - 1 implies #[trigger] is_idle(
            queues,
            (following(next_queue) + j) % queues.layouts.len() as int,
        ) by {
            assert(is_idle(queues, (next_queue + (j + 1)) % queues.layouts.len() as int));
        }
        lemma_search_finds(queues, following(next_queue), (left - 1) as nat, k - 1, chain);
    }
}

/// A request that waits is started: while the device is up, is to look through its queues and may
/// have another request under way, it starts the request of the first queue in turn that has one,
/// with the bytes that the driver asks by and the buffers for the answer, and goes on with the
/// queue behind that one.
pub proof fn law_waiting_request_is_started(device: Fs, k: int, chain: Chain)
    requires
        device.queues.wf(),
        device.queues.layouts.len() >= 1,
        !device.queues.memory.revoked,
        !device.down,
        device.scan,
        device.pending < 64,
        device.pending < 4 * device.queues.layouts.len(),
        device.next_queue + device.queues.layouts.len() <= usize::MAX,
        0 <= k < device.queues.layouts.len(),
        forall|j: int|
            0 <= j < k ==> #[trigger] is_idle(
                device.queues,
                (device.next_queue + j) % device.queues.layouts.len() as int,
            ),
        driver::is_offered(
            device.queues,
            (device.next_queue + k) % device.queues.layouts.len() as int,
            chain,
        ),
        is_request(device.queues.memory, chain.descriptors),
    ensures
        ({
            let i = (device.next_queue + k) % device.queues.layouts.len() as int;
            let (next, after) = device.next();
            &&& next == Ok::<Next, DeviceError>(
                Next::Start(
                    Work {
                        queue_index: i,
                        chain,
                        request: asked_bytes(device.queues.memory, chain.descriptors),
                        reply: answer_buffers(chain.descriptors),
                    },
                ),
            )
            &&& after.queues == device.queues.after_pop(i)
            &&& after.pending == device.pending + 1
            &&& after.next_queue == device.next_queue + k + 1
            &&& after.scan
            &&& !after.down
        }),
{
    lemma_search_finds(
        device.queues,
        device.next_queue,
        device.queues.layouts.len(),
        k,
        chain,
    );
}

/// Four requests may be under way for each queue, and no more than 64.
pub proof fn law_requests_under_way(device: Fs)
    ensures
        device.queues.layouts.len() <= 16 ==> device.maximum_inflight() == 4
            * device.queues.layouts.len(),
        device.queues.layouts.len() > 16 ==> device.maximum_inflight() == 64,
{
}

/// A device that is up sleeps until the guest wakes it, or until a request is done too if one is
/// under way, once it has nothing to look for or may have no more under way.
pub proof fn law_busy_device_sleeps(device: Fs)
    requires
        !device.down,
        !device.scan || device.pending >= 64 || device.pending >= 4 * device.queues.layouts.len(),
    ensures
        device.pending == 0 ==> device.next().0 == Ok::<Next, DeviceError>(Next::WaitForWake),
        device.pending > 0 ==> device.next().0 == Ok::<Next, DeviceError>(
            Next::WaitForCompletionOrWake,
        ),
        device.next().1.queues == device.queues,
        device.next().1.pending == device.pending,
        device.next().1.next_queue == device.next_queue,
        !device.next().1.scan,
{
}

/// A request without an answer is handed back with nothing written, and the guest's memory but for
/// the used ring stays as it is.
pub proof fn law_unanswered_requests_are_returned(device: Fs, work: Work)
    requires
        device.queues.wf(),
        0 <= work.queue_index < device.queues.layouts.len(),
        device.queues.layouts.len() <= device.queues.notifier_count,
        device.queues.layouts.len() <= u16::MAX,
        device.queues.cursors[work.queue_index].inflight,
        !device.queues.memory.revoked,
    ensures
        ({
            let i = work.queue_index;
            let (result, after) = device.finish(work, Seq::empty());
            &&& result == Ok::<Interrupt, DeviceError>(
                Interrupt::Queue { queue_index: i as u16, vector: i as u16 },
            )
            &&& driver::is_returned(device.queues, i, after, work.chain.head, 0)
            &&& after == device.queues.after_complete(i, work.chain.head, 0)
        }),
{
    driver::lemma_returned(device.queues, work.queue_index, work.chain.head, 0);
    assert(device.queues.with_memory(device.queues.memory) =~= device.queues);
}

/// An answer that does not fit its buffers is refused: nothing is written, and the chain is not
/// handed back.
pub proof fn law_long_answers_are_refused(device: Fs, work: Work, reply: Seq<u8>)
    requires
        reply.len() > chain::total(work.reply),
    ensures
        device.finish(work, reply).0 is Err,
        device.finish(work, reply).1 == device.queues,
{
    assert(device.finish(work, reply).1 =~= device.queues);
}

/// A request that is done is no longer under way; while the device is up it is answered, and if it
/// was, the queues are looked through again; once the device is down nothing is written.
pub proof fn law_done_requests_are_answered(device: Fs, work: Work, reply: Seq<u8>)
    requires
        device.pending > 0,
    ensures
        ({
            let (result, after) = device.completed(work, reply);
            &&& after.pending == device.pending - 1
            &&& after.next_queue == device.next_queue
            &&& device.down ==> result == Ok::<Option<Interrupt>, DeviceError>(None)
                && after.queues == device.queues
            &&& !device.down ==> {
                &&& after.queues == device.finish(work, reply).1
                &&& match device.finish(work, reply).0 {
                    Ok(signal) => result == Ok::<Option<Interrupt>, DeviceError>(Some(signal))
                        && after.scan,
                    Err(error) => result == Err::<Option<Interrupt>, DeviceError>(error),
                }
            }
        }),
{
}

/// A tag has one to 36 bytes, and an export one to 65534 request queues; it has a queue for urgent
/// requests besides, a notifier for each, and needs version 1 of virtio and nothing else.
pub proof fn law_fs_layout(declaration: FsDeclaration, tag: Seq<u8>, count: usize)
    ensures
        is_tag(tag) <==> 1 <= tag.len() <= 36,
        is_queue_count(count) <==> 1 <= count <= 65_534,
        declaration.spec_layout().queue_count == declaration.spec_request_queue_count() + 1,
        declaration.spec_layout().notifier_count == declaration.spec_request_queue_count() + 1,
        declaration.spec_layout().maximum_queue_size == declaration.spec_maximum_queue_size(),
        declaration.spec_layout().required_features == 0x1_0000_0000,
        declaration.spec_layout().optional_features == 0,
{
}

/// A chain that is laid as no request is not worked on: taking it off its queue gives an error.
pub proof fn law_malformed_requests_fail(queues: Queues, i: int, chain: Chain)
    requires
        queues.wf(),
        !queues.memory.revoked,
        0 <= i < queues.layouts.len(),
        driver::is_offered(queues, i, chain),
        !is_request(queues.memory, chain.descriptors),
    ensures
        taken(queues, i) is Err,
{
    driver::law_next_chain_is_taken(queues, i, chain);
    law_requests_are_read(queues.memory, chain.descriptors);
}

/// The numbers of virtio-fs, and how many requests may be under way.
pub proof fn law_fs_numbers()
    ensures
        VIRTIO_F_VERSION_1 == 0x1_0000_0000,
        VIRTIO_FS_TAG_SIZE == 36,
        MAXIMUM_INFLIGHT_PER_QUEUE == 4,
        MAXIMUM_INFLIGHT_REQUESTS == 64,
{
}

/// No request is given exactly when no chain is taken off the queue: a chain that is taken is given
/// with its request or refused, and what the queue fails with, the device fails with.
pub proof fn law_no_chain_is_passed_over(queues: Queues, i: int)
    ensures
        taken(queues, i) == Ok::<Option<Work>, DeviceError>(None) <==> queues.pop_result(i) == Ok::<
            Option<Chain>,
            DeviceError,
        >(None),
        queues.pop_result(i) matches Err(error) ==> taken(queues, i) == Err::<
            Option<Work>,
            DeviceError,
        >(error),
{
}

/// A queue that fails, or a chain that is laid as no request, fails the step that finds it: with all
/// queues in turn in front of it idle, the device gives that error and starts nothing.
pub proof fn law_failing_queue_fails_the_step(device: Fs, k: int, error: DeviceError)
    requires
        device.queues.wf(),
        device.queues.layouts.len() >= 1,
        !device.queues.memory.revoked,
        !device.down,
        device.scan,
        device.pending < 64,
        device.pending < 4 * device.queues.layouts.len(),
        device.next_queue + device.queues.layouts.len() <= usize::MAX,
        0 <= k < device.queues.layouts.len(),
        forall|j: int|
            0 <= j < k ==> #[trigger] is_idle(
                device.queues,
                (device.next_queue + j) % device.queues.layouts.len() as int,
            ),
        taken(device.queues, (device.next_queue + k) % device.queues.layouts.len() as int) == Err::<
            Option<Work>,
            DeviceError,
        >(error),
    ensures
        device.next().0 == Err::<Next, DeviceError>(error),
        device.next().1.pending == device.pending,
        device.next().1.queues == device.queues.after_pop(
            (device.next_queue + k) % device.queues.layouts.len() as int,
        ),
{
    lemma_search_fails(
        device.queues,
        device.next_queue,
        device.queues.layouts.len(),
        k,
        error,
    );
}

proof fn lemma_search_fails(
    queues: Queues,
    next_queue: usize,
    left: nat,
    k: int,
    error: DeviceError,
)
    requires
        queues.wf(),
        !queues.memory.revoked,
        queues.layouts.len() >= 1,
        next_queue + left <= usize::MAX,
        0 <= k < left,
        forall|j: int|
            0 <= j < k ==> #[trigger] is_idle(
                queues,
                (next_queue + j) % queues.layouts.len() as int,
            ),
        taken(queues, (next_queue + k) % queues.layouts.len() as int) == Err::<
            Option<Work>,
            DeviceError,
        >(error),
    ensures
        search(queues, next_queue, left).result == Err::<Option<Work>, DeviceError>(error),
        search(queues, next_queue, left).queues == queues.after_pop(
            (next_queue + k) % queues.layouts.len() as int,
        ),
    decreases left,
{
    let i = next_queue as int % queues.layouts.len() as int;
    if k > 0 {
        assert(is_idle(queues, (next_queue + 0) % queues.layouts.len() as int));
        driver::law_idle_queues(queues, i);
        assert forall|j: int| 0 <= j < k - 1 implies #[trigger] is_idle(
            queues,
            (following(next_queue) + j) % queues.layouts.len() as int,
        ) by {
            assert(is_idle(queues, (next_queue + (j + 1)) % queues.layouts.len() as int));
        }
        lemma_search_fails(queues, following(next_queue), (left - 1) as nat, k - 1, error);
    }
}

} // verus!
