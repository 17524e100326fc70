//! Split virtqueues: where they lie in guest memory, how a chain is taken off the
//! available ring, and how it is handed back through the used ring.

use vstd::prelude::*;

use crate::bytes;
use crate::bytes::{get_u16, get_u32, get_u64, put_u16, put_u32};
use crate::dma::{DmaMemory, DmaRange};
use crate::error::DeviceError;
use crate::guest;
use crate::guest::GuestMemory;
use crate::num::is_power_of_two;

verus! {

/// The bytes of a descriptor in the descriptor table.
pub const VIRTQ_DESC_SIZE: usize = 16;

/// The descriptor continues at its `next` index.
pub const VIRTQ_DESC_F_NEXT: u16 = 1;

/// The device writes the descriptor's buffer, where it would otherwise read it.
pub const VIRTQ_DESC_F_WRITE: u16 = 2;

/// The bytes in front of the entries of the available ring.
pub const VIRTQ_AVAIL_HEADER_SIZE: usize = 4;

/// The bytes in front of the elements of the used ring.
pub const VIRTQ_USED_HEADER_SIZE: usize = 4;

/// The bytes of an element of the used ring.
pub const VIRTQ_USED_ELEMENT_SIZE: usize = 8;

/// Where a virtqueue lies.
#[derive(Clone, Copy, Debug, PartialEq, Eq, Structural)]
pub struct QueueLayout {
    pub index: u16,
    pub size: u16,
    pub descriptors: DmaRange,
    pub available: DmaRange,
    pub used: DmaRange,
}

/// The refusal of a range that is not mapped.
pub open spec fn unmapped(range: DmaRange) -> DeviceError {
    DeviceError::DmaRange { gpa: range.gpa, length: range.length }
}

/// Whether `mem` maps all of `range`.
pub open spec fn maps(mem: GuestMemory, range: DmaRange) -> bool {
    mem.covers(range.gpa as int, range.length as int)
}

impl QueueLayout {
    /// Whether each ring has room for its entries.
    pub open spec fn roomy(self) -> bool {
        &&& self.descriptors.length >= self.size * VIRTQ_DESC_SIZE
        &&& self.available.length >= VIRTQ_AVAIL_HEADER_SIZE + self.size * 2
        &&& self.used.length >= VIRTQ_USED_HEADER_SIZE + self.size * VIRTQ_USED_ELEMENT_SIZE
    }

    /// A layout that can be walked: the size is a power of two, each ring has room, and
    /// none runs over the top of the address space.
    pub open spec fn sound(self) -> bool {
        &&& vstd::arithmetic::power2::is_pow2(self.size as int)
        &&& self.size > 0
        &&& self.roomy()
        &&& self.descriptors.gpa + self.descriptors.length <= u64::MAX
        &&& self.available.gpa + self.available.length <= u64::MAX
        &&& self.used.gpa + self.used.length <= u64::MAX
    }

    /// What is wrong with the layout in `mem`, if anything.
    pub open spec fn flaw(self, mem: GuestMemory) -> Option<DeviceError> {
        if !vstd::arithmetic::power2::is_pow2(self.size as int) {
            Some(
                DeviceError::InvalidQueue {
                    queue: self.index,
                    reason: "size must be a non-zero power of two",
                },
            )
        } else if !self.roomy() {
            Some(
                DeviceError::InvalidQueue {
                    queue: self.index,
                    reason: "virtqueue ring is too small",
                },
            )
        } else if !maps(mem, self.descriptors) {
            Some(unmapped(self.descriptors))
        } else if !maps(mem, self.available) {
            Some(unmapped(self.available))
        } else if !maps(mem, self.used) {
            Some(unmapped(self.used))
        } else {
            None
        }
    }

    pub fn validate(self, memory: &DmaMemory) -> (result: Result<(), DeviceError>)
        requires
            memory@.wf(),
        ensures
            match result {
                Ok(()) => self.flaw(memory@) is None && self.sound(),
                Err(error) => self.flaw(memory@) == Some(error),
            },
    {
        if self.size == 0 || !is_power_of_two(self.size as u64) {
            proof {
                reveal(vstd::arithmetic::power2::is_pow2);
            }
            return Err(
                DeviceError::InvalidQueue {
                    queue: self.index,
                    reason: "size must be a non-zero power of two",
                },
            );
        }
        let size: usize = self.size as usize;
        if self.descriptors.length < size * VIRTQ_DESC_SIZE || self.available.length
            < VIRTQ_AVAIL_HEADER_SIZE + size * 2 || self.used.length < VIRTQ_USED_HEADER_SIZE + size
            * VIRTQ_USED_ELEMENT_SIZE {
            return Err(
                DeviceError::InvalidQueue {
                    queue: self.index,
                    reason: "virtqueue ring is too small",
                },
            );
        }
        memory.check_range(self.descriptors)?;
        memory.check_range(self.available)?;
        memory.check_range(self.used)?;
        Ok(())
    }

    /// The bytes of the descriptor at `index`.
    pub open spec fn descriptor_range(self, index: int) -> DmaRange {
        DmaRange {
            gpa: (self.descriptors.gpa + index * VIRTQ_DESC_SIZE) as u64,
            length: VIRTQ_DESC_SIZE,
        }
    }

    /// The running index that the guest advances as it makes chains available.
    pub open spec fn available_index_range(self) -> DmaRange {
        DmaRange { gpa: (self.available.gpa + 2) as u64, length: 2 }
    }

    /// The available ring's entry in `slot`.
    pub open spec fn available_entry_range(self, slot: int) -> DmaRange {
        DmaRange {
            gpa: (self.available.gpa + VIRTQ_AVAIL_HEADER_SIZE + slot * 2) as u64,
            length: 2,
        }
    }

    /// The used ring's element in `slot`: four bytes of head, four bytes of length.
    pub open spec fn used_element_gpa(self, slot: int) -> int {
        self.used.gpa + VIRTQ_USED_HEADER_SIZE + slot * VIRTQ_USED_ELEMENT_SIZE
    }

    /// The descriptor that `mem` holds at `index`.
    pub open spec fn descriptor_at(self, mem: GuestMemory, index: int) -> Descriptor {
        Descriptor::parse(mem.peek(self.descriptor_range(index).gpa as int, VIRTQ_DESC_SIZE as int))
    }

    /// The descriptors of the chain that starts at `current`, followed through at most
    /// `budget` of them.
    pub open spec fn walk(self, mem: GuestMemory, current: u16, budget: nat) -> Result<
        Seq<Descriptor>,
        DeviceError,
    >
        decreases budget,
    {
        if budget == 0 {
            Err(DeviceError::Descriptor("descriptor chain loop"))
        } else if mem.fault(self.descriptor_range(current as int)) is Some {
            Err(mem.fault(self.descriptor_range(current as int))->0)
        } else {
            let descriptor = self.descriptor_at(mem, current as int);
            if !descriptor.continues() {
                Ok(seq![descriptor])
            } else if descriptor.next >= self.size {
                Err(DeviceError::Descriptor("next index exceeds queue size"))
            } else {
                behind(seq![descriptor], self.walk(mem, descriptor.next, (budget - 1) as nat))
            }
        }
    }

    /// The descriptors of the chain with head `head`.
    pub open spec fn chain_at(self, mem: GuestMemory, head: u16) -> Result<
        Seq<Descriptor>,
        DeviceError,
    > {
        if head >= self.size {
            Err(DeviceError::Descriptor("head index exceeds queue size"))
        } else {
            self.walk(mem, head, self.size as nat)
        }
    }

    /// What taking the next chain off the available ring gives.
    pub open spec fn pop_result(self, mem: GuestMemory, cursor: QueueCursor) -> Result<
        Option<Chain>,
        DeviceError,
    > {
        let index_range = self.available_index_range();
        let entry_range = self.available_entry_range(cursor.last_available as int % self.size as int);
        let available = bytes::le_value(mem.peek(index_range.gpa as int, 2)) as u16;
        let head = bytes::le_value(mem.peek(entry_range.gpa as int, 2)) as u16;
        if cursor.inflight {
            Ok(None)
        } else if mem.fault(index_range) is Some {
            Err(mem.fault(index_range)->0)
        } else if available == cursor.last_available {
            Ok(None)
        } else if behind_by(available, cursor.last_available) > self.size {
            Err(
                DeviceError::InvalidQueue {
                    queue: self.index,
                    reason: "available index exceeds queue size",
                },
            )
        } else if mem.fault(entry_range) is Some {
            Err(mem.fault(entry_range)->0)
        } else {
            match self.chain_at(mem, head) {
                Ok(descriptors) => Ok(Some(Chain { head, descriptors })),
                Err(error) => Err(error),
            }
        }
    }

    /// The cursor after a pop.
    pub open spec fn pop_cursor(self, mem: GuestMemory, cursor: QueueCursor) -> QueueCursor {
        if self.pop_result(mem, cursor) matches Ok(Some(_)) {
            QueueCursor {
                last_available: following(cursor.last_available),
                inflight: true,
                ..cursor
            }
        } else {
            cursor
        }
    }

    /// What handing a chain back through the used ring gives.
    pub open spec fn completion(
        self,
        mem: GuestMemory,
        cursor: QueueCursor,
        head: u16,
        used_length: u32,
    ) -> Completion {
        let element = self.used_element_gpa(cursor.next_used as int % self.size as int);
        let head_range = DmaRange { gpa: element as u64, length: 4 };
        let length_range = DmaRange { gpa: (element + 4) as u64, length: 4 };
        let index_range = DmaRange { gpa: (self.used.gpa + 2) as u64, length: 2 };
        let with_head = mem.poke(element, bytes::le_bytes(head as nat, 4));
        let with_element = with_head.poke(element + 4, bytes::le_bytes(used_length as nat, 4));
        let advanced = QueueCursor { next_used: following(cursor.next_used), ..cursor };
        let with_index = with_element.poke(
            self.used.gpa + 2,
            bytes::le_bytes(advanced.next_used as nat, 2),
        );
        if !cursor.inflight {
            Completion {
                result: Err(
                    DeviceError::InvalidQueue {
                        queue: self.index,
                        reason: "completion without an inflight request",
                    },
                ),
                cursor,
                memory: mem,
            }
        } else if mem.fault(head_range) is Some {
            Completion { result: Err(mem.fault(head_range)->0), cursor, memory: mem }
        } else if mem.fault(length_range) is Some {
            Completion { result: Err(mem.fault(length_range)->0), cursor, memory: with_head }
        } else if mem.fault(index_range) is Some {
            Completion {
                result: Err(mem.fault(index_range)->0),
                cursor: advanced,
                memory: with_element,
            }
        } else {
            Completion {
                result: Ok(()),
                cursor: QueueCursor { inflight: false, ..advanced },
                memory: with_index,
            }
        }
    }
}

/// Descriptors in front of what follows them, if that could be read.
pub open spec fn behind(front: Seq<Descriptor>, rest: Result<Seq<Descriptor>, DeviceError>) -> Result<
    Seq<Descriptor>,
    DeviceError,
> {
    match rest {
        Ok(rest) => Ok(front + rest),
        Err(error) => Err(error),
    }
}

/// The running index behind `index`.
pub open spec fn following(index: u16) -> u16 {
    if index == u16::MAX {
        0
    } else {
        (index + 1) as u16
    }
}

/// How far the running index `from` is behind `to`.
pub open spec fn behind_by(to: u16, from: u16) -> int {
    if to >= from {
        to - from
    } else {
        to - from + 0x1_0000
    }
}

/// Where a device stands in a queue's rings.
#[verifier::ext_equal]
pub struct QueueCursor {
    pub last_available: u16,
    pub next_used: u16,
    pub inflight: bool,
}

/// What a completion gives, and what it leaves behind.
#[verifier::ext_equal]
pub struct Completion {
    pub result: Result<(), DeviceError>,
    pub cursor: QueueCursor,
    pub memory: GuestMemory,
}

/// A chain as the guest built it.
#[verifier::ext_equal]
pub struct Chain {
    pub head: u16,
    pub descriptors: Seq<Descriptor>,
}

/// Where a device stands in a queue's rings.
#[derive(Clone, Copy, Debug, PartialEq, Eq)]
pub struct QueueState {
    last_available: u16,
    next_used: u16,
    inflight: bool,
}

impl View for QueueState {
    type V = QueueCursor;

    closed spec fn view(&self) -> QueueCursor {
        QueueCursor {
            last_available: self.last_available,
            next_used: self.next_used,
            inflight: self.inflight,
        }
    }
}

impl QueueState {
    pub fn new() -> (state: Self)
        ensures
            state@ == (QueueCursor { last_available: 0, next_used: 0, inflight: false }),
    {
        QueueState { last_available: 0, next_used: 0, inflight: false }
    }

    pub fn inflight(self) -> (inflight: bool)
        ensures
            inflight == self@.inflight,
    {
        self.inflight
    }
}

impl Default for QueueState {
    fn default() -> (state: Self)
        ensures
            state@ == (QueueCursor { last_available: 0, next_used: 0, inflight: false }),
    {
        QueueState::new()
    }
}

/// A buffer that a driver offers.
#[derive(Clone, Copy, Debug, PartialEq, Eq, Structural)]
pub struct Descriptor {
    pub address: u64,
    pub length: u32,
    pub flags: u16,
    pub next: u16,
}

impl Descriptor {
    /// The descriptor that `bytes` spell.
    pub open spec fn parse(bytes: Seq<u8>) -> Descriptor {
        Descriptor {
            address: bytes::le_field(bytes, 0, 8) as u64,
            length: bytes::le_field(bytes, 8, 4) as u32,
            flags: bytes::le_field(bytes, 12, 2) as u16,
            next: bytes::le_field(bytes, 14, 2) as u16,
        }
    }

    /// Whether another descriptor follows in the chain.
    pub open spec fn continues(self) -> bool {
        self.flags & VIRTQ_DESC_F_NEXT != 0
    }

    /// Whether the device writes the buffer.
    pub open spec fn spec_writable(self) -> bool {
        self.flags & VIRTQ_DESC_F_WRITE != 0
    }

    /// Whether the device writes the buffer.
    pub fn writable(self) -> (writable: bool)
        ensures
            writable == self.spec_writable(),
    {
        self.flags & VIRTQ_DESC_F_WRITE != 0
    }

    /// The guest addresses of the buffer.
    pub open spec fn spec_range(self) -> DmaRange {
        DmaRange { gpa: self.address, length: self.length as usize }
    }

    /// The guest addresses of the buffer.
    pub fn range(self) -> (range: DmaRange)
        ensures
            range == self.spec_range(),
    {
        DmaRange::new(self.address, self.length as usize)
    }
}

/// A chain of descriptors.
#[derive(Clone, Debug, PartialEq, Eq)]
pub struct DescriptorChain {
    pub head: u16,
    pub descriptors: Vec<Descriptor>,
}

impl View for DescriptorChain {
    type V = Chain;

    open spec fn view(&self) -> Chain {
        Chain { head: self.head, descriptors: self.descriptors@ }
    }
}

/// A queue whose layout was found valid.
#[derive(Clone, Copy, Debug)]
pub struct VirtQueue {
    layout: QueueLayout,
}

impl VirtQueue {
    /// The queue's layout.
    pub closed spec fn spec_layout(self) -> QueueLayout {
        self.layout
    }

    /// The queue's layout can be walked.
    pub open spec fn wf(self) -> bool {
        self.spec_layout().sound()
    }

    pub fn new(layout: QueueLayout, memory: &DmaMemory) -> (result: Result<Self, DeviceError>)
        requires
            memory@.wf(),
        ensures
            match result {
                Ok(queue) => {
                    &&& layout.flaw(memory@) is None
                    &&& queue.spec_layout() == layout
                    &&& queue.wf()
                },
                Err(error) => layout.flaw(memory@) == Some(error),
            },
    {
        layout.validate(memory)?;
        Ok(VirtQueue { layout })
    }

    pub fn layout(self) -> (layout: QueueLayout)
        ensures
            layout == self.spec_layout(),
    {
        self.layout
    }

    fn read_descriptor(self, memory: &DmaMemory, index: u16) -> (result: Result<
        Descriptor,
        DeviceError,
    >)
        requires
            memory@.wf(),
            self.wf(),
            index < self.spec_layout().size,
        ensures
            match result {
                Ok(descriptor) => {
                    &&& memory@.fault(self.spec_layout().descriptor_range(index as int)) is None
                    &&& descriptor == self.spec_layout().descriptor_at(memory@, index as int)
                },
                Err(error) => memory@.fault(self.spec_layout().descriptor_range(index as int))
                    == Some(error),
            },
    {
        assert(index * VIRTQ_DESC_SIZE + VIRTQ_DESC_SIZE <= self.layout.size * VIRTQ_DESC_SIZE);
        let gpa: u64 = self.layout.descriptors.gpa + index as u64 * VIRTQ_DESC_SIZE as u64;
        let bytes = memory.read(DmaRange::new(gpa, VIRTQ_DESC_SIZE))?;
        Ok(
            Descriptor {
                address: get_u64(bytes.as_slice(), 0),
                length: get_u32(bytes.as_slice(), 8),
                flags: get_u16(bytes.as_slice(), 12),
                next: get_u16(bytes.as_slice(), 14),
            },
        )
    }

    /// Follows the chain with head `head` through the descriptor table.
    pub fn read_chain(self, memory: &DmaMemory, head: u16) -> (result: Result<
        DescriptorChain,
        DeviceError,
    >)
        requires
            memory@.wf(),
            self.wf(),
        ensures
            match result {
                Ok(chain) => {
                    &&& chain.head == head
                    &&& self.spec_layout().chain_at(memory@, head) == Ok::<
                        Seq<Descriptor>,
                        DeviceError,
                    >(chain.descriptors@)
                },
                Err(error) => self.spec_layout().chain_at(memory@, head) == Err::<
                    Seq<Descriptor>,
                    DeviceError,
                >(error),
            },
    {
        if head >= self.layout.size {
            return Err(DeviceError::Descriptor("head index exceeds queue size"));
        }
        let ghost layout = self.spec_layout();
        let ghost mem = memory@;
        let mut current: u16 = head;
        let mut descriptors: Vec<Descriptor> = Vec::new();
        let mut left: u16 = self.layout.size;
        assert(behind(descriptors@, layout.walk(mem, current, left as nat)) == layout.walk(
            mem,
            head,
            layout.size as nat,
        )) by {
            if let Ok(all) = layout.walk(mem, head, layout.size as nat) {
                assert(Seq::<Descriptor>::empty() + all =~= all);
            }
        }
        while left > 0
            invariant
                memory@ == mem,
                mem.wf(),
                layout == self.spec_layout(),
                self.wf(),
                current < layout.size,
                behind(descriptors@, layout.walk(mem, current, left as nat)) == layout.walk(
                    mem,
                    head,
                    layout.size as nat,
                ),
                head < layout.size,
            decreases left,
        {
            let ghost rest = layout.walk(mem, current, left as nat);
            let descriptor = self.read_descriptor(memory, current)?;
            let ghost before = descriptors@;
            descriptors.push(descriptor);
            if descriptor.flags & VIRTQ_DESC_F_NEXT == 0 {
                assert(descriptors@ =~= before + seq![descriptor]);
                return Ok(DescriptorChain { head, descriptors });
            }
            if descriptor.next >= self.layout.size {
                return Err(DeviceError::Descriptor("next index exceeds queue size"));
            }
            current = descriptor.next;
            left = left - 1;
            proof {
                let tail = layout.walk(mem, current, left as nat);
                if let Ok(more) = tail {
                    assert(before + (seq![descriptor] + more) =~= descriptors@ + more);
                }
            }
        }
        Err(DeviceError::Descriptor("descriptor chain loop"))
    }

    /// Takes the next chain off the available ring, unless one is still in flight.
    pub fn pop(self, memory: &DmaMemory, state: &mut QueueState) -> (result: Result<
        Option<DescriptorChain>,
        DeviceError,
    >)
        requires
            memory@.wf(),
            self.wf(),
        ensures
            self.spec_layout().pop_result(memory@, old(state)@) == popped(result),
            final(state)@ == self.spec_layout().pop_cursor(memory@, old(state)@),
    {
        if state.inflight {
            return Ok(None);
        }
        let size: u16 = self.layout.size;
        let index_bytes = memory.read(DmaRange::new(self.layout.available.gpa + 2, 2))?;
        proof {
            assert(index_bytes@.subrange(0, 2) =~= index_bytes@);
        }
        let available: u16 = get_u16(index_bytes.as_slice(), 0);
        if available == state.last_available {
            return Ok(None);
        }
        if available.wrapping_sub(state.last_available) > size {
            return Err(
                DeviceError::InvalidQueue {
                    queue: self.layout.index,
                    reason: "available index exceeds queue size",
                },
            );
        }
        let slot: u64 = (state.last_available % size) as u64;
        let entry_bytes = memory.read(
            DmaRange::new(
                self.layout.available.gpa + VIRTQ_AVAIL_HEADER_SIZE as u64 + slot * 2,
                2,
            ),
        )?;
        proof {
            assert(entry_bytes@.subrange(0, 2) =~= entry_bytes@);
        }
        let head: u16 = get_u16(entry_bytes.as_slice(), 0);
        let chain = self.read_chain(memory, head)?;
        state.last_available = state.last_available.wrapping_add(1);
        state.inflight = true;
        Ok(Some(chain))
    }

    /// Hands a chain back through the used ring, with the number of bytes written to it.
    pub fn complete(
        self,
        memory: &mut DmaMemory,
        state: &mut QueueState,
        chain: &DescriptorChain,
        used_length: u32,
    ) -> (result: Result<(), DeviceError>)
        requires
            old(memory)@.wf(),
            self.wf(),
        ensures
            (Completion { result, cursor: final(state)@, memory: final(memory)@ })
                == self.spec_layout().completion(old(memory)@, old(state)@, chain.head, used_length),
    {
        if !state.inflight {
            return Err(
                DeviceError::InvalidQueue {
                    queue: self.layout.index,
                    reason: "completion without an inflight request",
                },
            );
        }
        let ghost mem = memory@;
        let slot: u64 = (state.next_used % self.layout.size) as u64;
        assert(slot < self.layout.size);
        assert(slot * VIRTQ_USED_ELEMENT_SIZE + VIRTQ_USED_ELEMENT_SIZE <= self.layout.size
            * VIRTQ_USED_ELEMENT_SIZE);
        let element: u64 = self.layout.used.gpa + VIRTQ_USED_HEADER_SIZE as u64 + slot
            * VIRTQ_USED_ELEMENT_SIZE as u64;
        let mut head_bytes: Vec<u8> = Vec::new();
        put_u32(&mut head_bytes, chain.head as u32);
        let mut length_bytes: Vec<u8> = Vec::new();
        put_u32(&mut length_bytes, used_length);
        proof {
            bytes::lemma_le_bytes_len(chain.head as nat, 4);
            bytes::lemma_le_bytes_len(used_length as nat, 4);
            assert(head_bytes@ =~= bytes::le_bytes(chain.head as nat, 4));
            assert(length_bytes@ =~= bytes::le_bytes(used_length as nat, 4));
            guest::lemma_poke_keeps_layout(mem, element as int, head_bytes@);
            let with_head = mem.poke(element as int, head_bytes@);
            guest::lemma_poke_keeps_layout(with_head, element + 4, length_bytes@);
        }
        memory.write(element, head_bytes.as_slice())?;
        memory.write(element + 4, length_bytes.as_slice())?;
        release_fence();
        state.next_used = state.next_used.wrapping_add(1);
        let mut index_bytes: Vec<u8> = Vec::new();
        put_u16(&mut index_bytes, state.next_used);
        proof {
            bytes::lemma_le_bytes_len(state.next_used as nat, 2);
            assert(index_bytes@ =~= bytes::le_bytes(state.next_used as nat, 2));
        }
        memory.write(self.layout.used.gpa + 2, index_bytes.as_slice())?;
        state.inflight = false;
        Ok(())
    }
}

/// The result of a pop, as what it stands for.
pub open spec fn popped(result: Result<Option<DescriptorChain>, DeviceError>) -> Result<
    Option<Chain>,
    DeviceError,
> {
    match result {
        Ok(Some(chain)) => Ok(Some(chain@)),
        Ok(None) => Ok(None),
        Err(error) => Err(error),
    }
}

/// `std::sync::atomic::fence` with release order.  It keeps the stores in front of it
/// from becoming visible to the guest after the stores behind it; nothing is claimed of
/// it here.
#[verifier::external_body]
fn release_fence() {
    std::sync::atomic::fence(std::sync::atomic::Ordering::Release)
}

/// Whether `descriptors` are a chain in `mem` that starts at `head`: each descriptor but
/// the last names the next one, the last names none, and there are no more of them than
/// `budget`.
pub open spec fn is_linked(
    layout: QueueLayout,
    mem: GuestMemory,
    head: u16,
    descriptors: Seq<Descriptor>,
    budget: nat,
) -> bool {
    &&& 0 < descriptors.len() <= budget
    &&& descriptors[0] == layout.descriptor_at(mem, head as int)
    &&& !descriptors.last().continues()
    &&& forall|i: int|
        0 <= i < descriptors.len() - 1 ==> {
            &&& (#[trigger] descriptors[i]).continues()
            &&& descriptors[i].next < layout.size
            &&& descriptors[i + 1] == layout.descriptor_at(mem, descriptors[i].next as int)
        }
}

proof fn lemma_walk_is_linked(
    layout: QueueLayout,
    mem: GuestMemory,
    current: u16,
    budget: nat,
    descriptors: Seq<Descriptor>,
)
    requires
        layout.walk(mem, current, budget) == Ok::<Seq<Descriptor>, DeviceError>(descriptors),
    ensures
        is_linked(layout, mem, current, descriptors, budget),
    decreases budget,
{
    let first = layout.descriptor_at(mem, current as int);
    if first.continues() {
        let rest = layout.walk(mem, first.next, (budget - 1) as nat)->Ok_0;
        lemma_walk_is_linked(layout, mem, first.next, (budget - 1) as nat, rest);
        assert(descriptors =~= seq![first] + rest);
        assert forall|i: int| 0 <= i < descriptors.len() - 1 implies {
            &&& (#[trigger] descriptors[i]).continues()
            &&& descriptors[i].next < layout.size
            &&& descriptors[i + 1] == layout.descriptor_at(mem, descriptors[i].next as int)
        } by {
            if i > 0 {
                assert(descriptors[i] == rest[i - 1]);
                assert(descriptors[i + 1] == rest[i]);
            }
        }
    }
}

/// A chain that is read follows the links that the guest laid, ends where they end, and
/// is never longer than the queue.
pub proof fn law_chain_follows_links(
    layout: QueueLayout,
    mem: GuestMemory,
    head: u16,
    descriptors: Seq<Descriptor>,
)
    requires
        layout.chain_at(mem, head) == Ok::<Seq<Descriptor>, DeviceError>(descriptors),
    ensures
        is_linked(layout, mem, head, descriptors, layout.size as nat),
{
    lemma_walk_is_linked(layout, mem, head, layout.size as nat, descriptors);
}

/// A readable chain that is no longer than the queue is read in full.
pub proof fn law_linked_chain_is_read(
    layout: QueueLayout,
    mem: GuestMemory,
    head: u16,
    descriptors: Seq<Descriptor>,
)
    requires
        head < layout.size,
        is_linked(layout, mem, head, descriptors, layout.size as nat),
        forall|i: int|
            0 <= i < layout.size ==> mem.fault(#[trigger] layout.descriptor_range(i)) is None,
    ensures
        layout.chain_at(mem, head) == Ok::<Seq<Descriptor>, DeviceError>(descriptors),
{
    lemma_linked_walk(layout, mem, head, layout.size as nat, descriptors);
}

proof fn lemma_linked_walk(
    layout: QueueLayout,
    mem: GuestMemory,
    current: u16,
    budget: nat,
    descriptors: Seq<Descriptor>,
)
    requires
        current < layout.size,
        is_linked(layout, mem, current, descriptors, budget),
        forall|i: int|
            0 <= i < layout.size ==> mem.fault(#[trigger] layout.descriptor_range(i)) is None,
    ensures
        layout.walk(mem, current, budget) == Ok::<Seq<Descriptor>, DeviceError>(descriptors),
    decreases budget,
{
    let first = descriptors[0];
    assert(mem.fault(layout.descriptor_range(current as int)) is None);
    if descriptors.len() == 1 {
        assert(descriptors =~= seq![first]);
    } else {
        let rest = descriptors.drop_first();
        assert(first.continues() && first.next < layout.size);
        assert(rest[0] == descriptors[1]);
        assert forall|i: int| 0 <= i < rest.len() - 1 implies {
            &&& (#[trigger] rest[i]).continues()
            &&& rest[i].next < layout.size
            &&& rest[i + 1] == layout.descriptor_at(mem, rest[i].next as int)
        } by {
            assert(rest[i] == descriptors[i + 1]);
            assert(rest[i + 1] == descriptors[i + 2]);
        }
        lemma_linked_walk(layout, mem, first.next, (budget - 1) as nat, rest);
        assert(seq![first] + rest =~= descriptors);
    }
}

/// While a chain is in flight, no other is handed out.
pub proof fn law_one_chain_in_flight(layout: QueueLayout, mem: GuestMemory, cursor: QueueCursor)
    requires
        cursor.inflight,
    ensures
        layout.pop_result(mem, cursor) == Ok::<Option<Chain>, DeviceError>(None),
        layout.pop_cursor(mem, cursor) == cursor,
{
}

/// A chain in flight on a valid queue can be completed for as long as the memory is not
/// revoked.
pub proof fn law_completion_succeeds(
    layout: QueueLayout,
    mem: GuestMemory,
    cursor: QueueCursor,
    head: u16,
    used_length: u32,
)
    requires
        layout.sound(),
        layout.flaw(mem) is None,
        !mem.revoked,
        cursor.inflight,
    ensures
        layout.completion(mem, cursor, head, used_length).result is Ok,
{
    let slot = cursor.next_used as int % layout.size as int;
    let element = layout.used_element_gpa(slot);
    assert(0 <= slot < layout.size);
    assert(element + 8 <= layout.used.gpa + layout.used.length);
    assert(mem.covers(element, 4));
    assert(mem.covers(element + 4, 4));
    assert(mem.covers(layout.used.gpa + 2, 2));
}

/// A completed chain stands in the used ring: its head and length in the slot that was
/// next, and a running index that has moved by one.
pub proof fn law_completion_is_recorded(
    layout: QueueLayout,
    mem: GuestMemory,
    cursor: QueueCursor,
    head: u16,
    used_length: u32,
)
    requires
        mem.wf(),
        layout.sound(),
        layout.completion(mem, cursor, head, used_length).result is Ok,
    ensures
        ({
            let after = layout.completion(mem, cursor, head, used_length);
            let element = layout.used.gpa + 4 + 8 * (cursor.next_used as int % layout.size as int);
            let next_used = (cursor.next_used + 1) % 0x1_0000;
            &&& bytes::le_value(after.memory.peek(element, 4)) == head
            &&& bytes::le_value(after.memory.peek(element + 4, 4)) == used_length
            &&& bytes::le_value(after.memory.peek(layout.used.gpa + 2, 2)) == next_used
            &&& after.cursor.last_available == cursor.last_available
            &&& after.cursor.next_used == next_used
            &&& !after.cursor.inflight
        }),
{
    let slot = cursor.next_used as int % layout.size as int;
    assert(0 <= slot < layout.size);
    let element = layout.used_element_gpa(slot);
    let next = following(cursor.next_used);
    let head_bytes = bytes::le_bytes(head as nat, 4);
    let length_bytes = bytes::le_bytes(used_length as nat, 4);
    let index_bytes = bytes::le_bytes(next as nat, 2);
    bytes::lemma_limits();
    bytes::lemma_value_of_bytes(head as nat, 4);
    bytes::lemma_value_of_bytes(used_length as nat, 4);
    bytes::lemma_value_of_bytes(next as nat, 2);
    let one = mem.poke(element, head_bytes);
    let two = one.poke(element + 4, length_bytes);
    guest::lemma_poke_keeps_layout(mem, element, head_bytes);
    guest::lemma_poke_keeps_layout(one, element + 4, length_bytes);
    guest::lemma_poke_keeps_layout(two, layout.used.gpa + 2, index_bytes);
    assert(element + 8 <= layout.used.gpa + layout.used.length);
    assert(mem.covers(element, 4));
    assert(mem.covers(element + 4, 4));
    assert(mem.covers(layout.used.gpa + 2, 2));
    guest::law_peek_after_poke(mem, element, head_bytes);
    guest::law_poke_elsewhere(one, element + 4, length_bytes, element, 4);
    guest::law_poke_elsewhere(two, layout.used.gpa + 2, index_bytes, element, 4);
    guest::law_peek_after_poke(one, element + 4, length_bytes);
    guest::law_poke_elsewhere(two, layout.used.gpa + 2, index_bytes, element + 4, 4);
    guest::law_peek_after_poke(two, layout.used.gpa + 2, index_bytes);
}

/// A completion changes no byte outside the used ring.
pub proof fn law_completion_stays_in_used_ring(
    layout: QueueLayout,
    mem: GuestMemory,
    cursor: QueueCursor,
    head: u16,
    used_length: u32,
    gpa: int,
    length: int,
)
    requires
        mem.wf(),
        layout.sound(),
        0 <= length,
        mem.covers(gpa, length),
        gpa + length <= layout.used.gpa || layout.used.gpa + layout.used.length <= gpa,
    ensures
        layout.completion(mem, cursor, head, used_length).memory.peek(gpa, length) == mem.peek(
            gpa,
            length,
        ),
{
    let slot = cursor.next_used as int % layout.size as int;
    assert(0 <= slot < layout.size);
    let element = layout.used_element_gpa(slot);
    assert(element + 8 <= layout.used.gpa + layout.used.length);
    let next = following(cursor.next_used);
    let head_bytes = bytes::le_bytes(head as nat, 4);
    let length_bytes = bytes::le_bytes(used_length as nat, 4);
    let index_bytes = bytes::le_bytes(next as nat, 2);
    bytes::lemma_le_bytes_len(head as nat, 4);
    bytes::lemma_le_bytes_len(used_length as nat, 4);
    bytes::lemma_le_bytes_len(next as nat, 2);
    let one = mem.poke(element, head_bytes);
    let two = one.poke(element + 4, length_bytes);
    guest::lemma_poke_keeps_layout(mem, element, head_bytes);
    guest::lemma_poke_keeps_layout(one, element + 4, length_bytes);
    guest::law_poke_elsewhere(mem, element, head_bytes, gpa, length);
    guest::law_poke_elsewhere(one, element + 4, length_bytes, gpa, length);
    guest::law_poke_elsewhere(two, layout.used.gpa + 2, index_bytes, gpa, length);
}

/// The used ring keeps pace with the available ring: as many chains were completed as
/// were taken, but for the one that is in flight.
pub open spec fn in_pace(cursor: QueueCursor) -> bool {
    cursor.last_available == if cursor.inflight {
        following(cursor.next_used)
    } else {
        cursor.next_used
    }
}

/// A queue starts in pace, and stays in pace through every pop and every completion
/// that succeeds.
pub proof fn law_queue_keeps_pace(
    layout: QueueLayout,
    mem: GuestMemory,
    cursor: QueueCursor,
    head: u16,
    used_length: u32,
)
    requires
        in_pace(cursor),
    ensures
        in_pace(QueueCursor { last_available: 0, next_used: 0, inflight: false }),
        in_pace(layout.pop_cursor(mem, cursor)),
        ({
            let after = layout.completion(mem, cursor, head, used_length);
            after.result is Ok ==> in_pace(after.cursor)
        }),
{
}

/// A layout without a flaw can be walked.
pub proof fn law_flawless_layout_is_sound(layout: QueueLayout, mem: GuestMemory)
    requires
        layout.flaw(mem) is None,
    ensures
        layout.sound(),
{
    reveal(vstd::arithmetic::power2::is_pow2);
}

/// The numbers of a split virtqueue.
pub proof fn law_queue_numbers()
    ensures
        VIRTQ_DESC_SIZE == 16,
        VIRTQ_DESC_F_NEXT == 1,
        VIRTQ_DESC_F_WRITE == 2,
        VIRTQ_AVAIL_HEADER_SIZE == 4,
        VIRTQ_USED_HEADER_SIZE == 4,
        VIRTQ_USED_ELEMENT_SIZE == 8,
{
}

} // verus!
