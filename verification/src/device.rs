//! What every device has in common: the layout it declares, the resources it is
//! activated with, and the queues it then works on.

use vstd::prelude::*;

use crate::bytes;
use crate::chain;
use crate::dma::{DmaMemory, DmaRange};
use crate::error::{DeviceDownReason, DeviceError};
use crate::guest;
use crate::guest::GuestMemory;
use crate::queue::{Chain, DescriptorChain, QueueCursor, QueueLayout, QueueState, VirtQueue};
use crate::queue;

verus! {

/// The device speaks version 1 of virtio.
pub const VIRTIO_F_VERSION_1: u64 = 0x1_0000_0000;

/// What a device needs from its transport.
#[derive(Clone, Debug, PartialEq, Eq, Structural)]
pub struct DeviceLayout {
    pub queue_count: usize,
    pub maximum_queue_size: u16,
    pub notifier_count: usize,
    pub required_features: u64,
    pub optional_features: u64,
}

/// What a transport hands to a device: its queues, the guest memory, the number of
/// interrupt notifiers, and the features that were negotiated.
#[derive(Debug)]
pub struct DeviceResources<'a> {
    pub queues: Vec<QueueLayout>,
    pub dma: DmaMemory<'a>,
    pub notifier_count: usize,
    pub negotiated_features: u64,
}

/// What is wrong with a queue for a device that allows at most `maximum` entries, if
/// anything.
pub open spec fn queue_flaw(queue: QueueLayout, maximum: u16, mem: GuestMemory) -> Option<
    DeviceError,
> {
    if queue.size > maximum {
        Some(
            DeviceError::InvalidQueue {
                queue: queue.index,
                reason: "queue size exceeds device limit",
            },
        )
    } else {
        queue.flaw(mem)
    }
}

/// What is wrong with the first bad one of `queues`, if there is one.
pub open spec fn first_queue_flaw(queues: Seq<QueueLayout>, maximum: u16, mem: GuestMemory) -> Option<
    DeviceError,
>
    decreases queues.len(),
{
    if queues.len() == 0 {
        None
    } else if queue_flaw(queues[0], maximum, mem) is Some {
        queue_flaw(queues[0], maximum, mem)
    } else {
        first_queue_flaw(queues.drop_first(), maximum, mem)
    }
}

impl<'a> DeviceResources<'a> {
    /// Why the resources do not meet `layout`, if they do not.
    pub open spec fn flaw(self, layout: DeviceLayout) -> Option<DeviceError> {
        if self.queues@.len() != layout.queue_count {
            Some(DeviceError::InvalidLayout("unexpected queue count"))
        } else if self.notifier_count < layout.notifier_count {
            Some(DeviceError::InvalidLayout("missing interrupt notifier"))
        } else if self.negotiated_features & layout.required_features != layout.required_features {
            Some(DeviceError::InvalidLayout("required feature not negotiated"))
        } else {
            first_queue_flaw(self.queues@, layout.maximum_queue_size, self.dma@)
        }
    }

    pub fn validate(&self, layout: &DeviceLayout) -> (result: Result<(), DeviceError>)
        requires
            self.dma@.wf(),
        ensures
            match result {
                Ok(()) => self.flaw(*layout) is None,
                Err(error) => self.flaw(*layout) == Some(error),
            },
    {
        if self.queues.len() != layout.queue_count {
            return Err(DeviceError::InvalidLayout("unexpected queue count"));
        }
        if self.notifier_count < layout.notifier_count {
            return Err(DeviceError::InvalidLayout("missing interrupt notifier"));
        }
        if self.negotiated_features & layout.required_features != layout.required_features {
            return Err(DeviceError::InvalidLayout("required feature not negotiated"));
        }
        let mut i: usize = 0;
        assert(self.queues@.skip(0) =~= self.queues@);
        while i < self.queues.len()
            invariant
                i <= self.queues@.len(),
                self.dma@.wf(),
                first_queue_flaw(
                    self.queues@.skip(i as int),
                    layout.maximum_queue_size,
                    self.dma@,
                ) == first_queue_flaw(self.queues@, layout.maximum_queue_size, self.dma@),
                self.flaw(*layout) == first_queue_flaw(
                    self.queues@,
                    layout.maximum_queue_size,
                    self.dma@,
                ),
            decreases self.queues@.len() - i,
        {
            let queue = self.queues[i];
            proof {
                assert(self.queues@.skip(i as int)[0] == queue);
                assert(self.queues@.skip(i as int).drop_first() =~= self.queues@.skip(i + 1));
            }
            if queue.size > layout.maximum_queue_size {
                return Err(
                    DeviceError::InvalidQueue {
                        queue: queue.index,
                        reason: "queue size exceeds device limit",
                    },
                );
            }
            queue.validate(&self.dma)?;
            i = i + 1;
        }
        Ok(())
    }
}

proof fn lemma_no_first_queue_flaw(queues: Seq<QueueLayout>, maximum: u16, mem: GuestMemory, i: int)
    requires
        first_queue_flaw(queues, maximum, mem) is None,
        0 <= i < queues.len(),
    ensures
        queue_flaw(queues[i], maximum, mem) is None,
    decreases queues.len(),
{
    if i > 0 {
        lemma_no_first_queue_flaw(queues.drop_first(), maximum, mem, i - 1);
    }
}

/// Resources that meet a layout have the declared number of queues, none larger than
/// declared and each valid, enough notifiers, and every required feature.
pub proof fn law_flawless_resources(resources: DeviceResources, layout: DeviceLayout)
    requires
        resources.flaw(layout) is None,
    ensures
        resources.queues@.len() == layout.queue_count,
        resources.notifier_count >= layout.notifier_count,
        resources.negotiated_features & layout.required_features == layout.required_features,
        forall|i: int|
            #![trigger resources.queues@[i]]
            0 <= i < resources.queues@.len() ==> {
                &&& resources.queues@[i].size <= layout.maximum_queue_size
                &&& resources.queues@[i].flaw(resources.dma@) is None
                &&& resources.queues@[i].sound()
            },
{
    assert forall|i: int|
        #![trigger resources.queues@[i]]
        0 <= i < resources.queues@.len() implies {
        &&& resources.queues@[i].size <= layout.maximum_queue_size
        &&& resources.queues@[i].flaw(resources.dma@) is None
        &&& resources.queues@[i].sound()
    } by {
        lemma_no_first_queue_flaw(
            resources.queues@,
            layout.maximum_queue_size,
            resources.dma@,
            i,
        );
        queue::law_flawless_layout_is_sound(resources.queues@[i], resources.dma@);
    }
}

/// Whether the host side of a device is closed when the device goes down for `reason`.
pub fn closes_host_backend(reason: DeviceDownReason) -> (closes: bool)
    ensures
        closes == (reason is SurpriseRemoval),
        reason is Stop || reason is Reset || reason is Revoked ==> !closes,
{
    match reason {
        DeviceDownReason::SurpriseRemoval => true,
        _ => false,
    }
}

/// What a device does when it is woken.
#[derive(Clone, Copy, Debug, PartialEq, Eq, Structural)]
pub enum WakeStep {
    /// The device is down: wait until no lease is outstanding, then end.
    Drain,
    /// Nobody rang the doorbell: sleep again.
    Sleep,
    /// Work on the queues, then sleep again.
    Process,
}

/// The queues of an active device, where it stands in each, and the memory they lie in.
#[verifier::ext_equal]
pub struct Queues {
    pub layouts: Seq<QueueLayout>,
    pub cursors: Seq<QueueCursor>,
    pub memory: GuestMemory,
    pub notifier_count: usize,
    pub negotiated_features: u64,
}

impl Queues {
    /// Each queue has a cursor and a layout without a flaw.
    pub open spec fn wf(self) -> bool {
        &&& self.memory.wf()
        &&& self.layouts.len() == self.cursors.len()
        &&& forall|i: int|
            #![trigger self.layouts[i]]
            0 <= i < self.layouts.len() ==> self.layouts[i].flaw(self.memory) is None
    }

    /// What taking the next chain off queue `i` gives.
    pub open spec fn pop_result(self, i: int) -> Result<Option<Chain>, DeviceError> {
        self.layouts[i].pop_result(self.memory, self.cursors[i])
    }

    /// The queues after that.
    pub open spec fn after_pop(self, i: int) -> Queues {
        Queues {
            cursors: self.cursors.update(
                i,
                self.layouts[i].pop_cursor(self.memory, self.cursors[i]),
            ),
            ..self
        }
    }

    /// What handing a chain back to queue `i` gives.
    pub open spec fn complete_result(self, i: int, head: u16, used_length: u32) -> Result<
        (),
        DeviceError,
    > {
        self.layouts[i].completion(self.memory, self.cursors[i], head, used_length).result
    }

    /// The queues after that.
    pub open spec fn after_complete(self, i: int, head: u16, used_length: u32) -> Queues {
        let completion = self.layouts[i].completion(
            self.memory,
            self.cursors[i],
            head,
            used_length,
        );
        Queues {
            cursors: self.cursors.update(i, completion.cursor),
            memory: completion.memory,
            ..self
        }
    }

    /// The queues with other bytes in memory.
    pub open spec fn with_memory(self, memory: GuestMemory) -> Queues {
        Queues { memory, ..self }
    }

    /// The queues after the memory was taken away.
    pub open spec fn stopped(self) -> Queues {
        Queues { memory: GuestMemory { revoked: true, ..self.memory }, ..self }
    }
}

/// Whether two memories map the same addresses.
pub open spec fn same_mapping(a: GuestMemory, b: GuestMemory) -> bool {
    forall|gpa: int, length: int| #[trigger] a.covers(gpa, length) == b.covers(gpa, length)
}

/// Queues stay well-formed as long as the memory maps what it mapped.
pub proof fn lemma_queues_with_memory(queues: Queues, memory: GuestMemory)
    requires
        queues.wf(),
        memory.wf(),
        same_mapping(memory, queues.memory),
    ensures
        queues.with_memory(memory).wf(),
{
    let after = queues.with_memory(memory);
    assert forall|i: int|
        #![trigger after.layouts[i]]
        0 <= i < after.layouts.len() implies after.layouts[i].flaw(memory) is None by {
        let layout = queues.layouts[i];
        assert(layout.flaw(queues.memory) is None);
        assert(memory.covers(layout.descriptors.gpa as int, layout.descriptors.length as int));
        assert(memory.covers(layout.available.gpa as int, layout.available.length as int));
        assert(memory.covers(layout.used.gpa as int, layout.used.length as int));
    }
}

/// A completion maps and unmaps nothing.
pub proof fn lemma_completion_keeps_mapping(
    layout: QueueLayout,
    mem: GuestMemory,
    cursor: QueueCursor,
    head: u16,
    used_length: u32,
)
    requires
        mem.wf(),
    ensures
        layout.completion(mem, cursor, head, used_length).memory.wf(),
        same_mapping(layout.completion(mem, cursor, head, used_length).memory, mem),
{
    let element = layout.used_element_gpa(cursor.next_used as int % layout.size as int);
    let head_bytes = bytes::le_bytes(head as nat, 4);
    let length_bytes = bytes::le_bytes(used_length as nat, 4);
    let index_bytes = bytes::le_bytes(queue::following(cursor.next_used) as nat, 2);
    let one = mem.poke(element, head_bytes);
    let two = one.poke(element + 4, length_bytes);
    let three = two.poke(layout.used.gpa + 2, index_bytes);
    guest::lemma_poke_keeps_layout(mem, element, head_bytes);
    guest::lemma_poke_keeps_layout(one, element + 4, length_bytes);
    guest::lemma_poke_keeps_layout(two, layout.used.gpa + 2, index_bytes);
    assert forall|gpa: int, length: int|
        #[trigger] two.covers(gpa, length) == mem.covers(gpa, length) by {
        assert(one.covers(gpa, length) == mem.covers(gpa, length));
    }
    assert forall|gpa: int, length: int|
        #[trigger] three.covers(gpa, length) == mem.covers(gpa, length) by {
        assert(two.covers(gpa, length) == mem.covers(gpa, length));
    }
}

/// The queues of an active device.
#[derive(Debug)]
pub struct QueueSet<'a> {
    pub resources: DeviceResources<'a>,
    pub states: Vec<QueueState>,
}

/// The states as what they stand for.
pub open spec fn cursors_of(states: Seq<QueueState>) -> Seq<QueueCursor> {
    Seq::new(states.len(), |i: int| states[i]@)
}

impl<'a> View for QueueSet<'a> {
    type V = Queues;

    open spec fn view(&self) -> Queues {
        Queues {
            layouts: self.resources.queues@,
            cursors: cursors_of(self.states@),
            memory: self.resources.dma@,
            notifier_count: self.resources.notifier_count,
            negotiated_features: self.resources.negotiated_features,
        }
    }
}

/// The queues of a device that was just activated.
pub open spec fn fresh_queues(resources: DeviceResources) -> Queues {
    Queues {
        layouts: resources.queues@,
        cursors: Seq::new(
            resources.queues@.len(),
            |i: int| QueueCursor { last_available: 0, next_used: 0, inflight: false },
        ),
        memory: resources.dma@,
        notifier_count: resources.notifier_count,
        negotiated_features: resources.negotiated_features,
    }
}

impl<'a> QueueSet<'a> {
    /// Takes over resources that meet `layout`.
    pub fn activate(resources: DeviceResources<'a>, layout: &DeviceLayout) -> (result: Result<
        Self,
        DeviceError,
    >)
        requires
            resources.dma@.wf(),
        ensures
            match result {
                Ok(queues) => {
                    &&& resources.flaw(*layout) is None
                    &&& queues@ == fresh_queues(resources)
                    &&& queues@.wf()
                    &&& queues@.layouts.len() == layout.queue_count
                    &&& queues@.notifier_count >= layout.notifier_count
                },
                Err(error) => resources.flaw(*layout) == Some(error),
            },
    {
        resources.validate(layout)?;
        let count: usize = resources.queues.len();
        let mut states: Vec<QueueState> = Vec::with_capacity(count);
        let mut i: usize = 0;
        while i < count
            invariant
                i <= count,
                states@.len() == i,
                forall|k: int|
                    0 <= k < i ==> (#[trigger] states@[k])@ == (QueueCursor {
                        last_available: 0,
                        next_used: 0,
                        inflight: false,
                    }),
            decreases count - i,
        {
            states.push(QueueState::new());
            i = i + 1;
        }
        proof {
            law_flawless_resources(resources, *layout);
            assert(cursors_of(states@) =~= fresh_queues(resources).cursors);
        }
        Ok(QueueSet { resources, states })
    }

    /// Takes the next chain off queue `i`.
    pub fn pop(&mut self, i: usize) -> (result: Result<Option<DescriptorChain>, DeviceError>)
        requires
            old(self)@.wf(),
            i < old(self)@.layouts.len(),
        ensures
            queue::popped(result) == old(self)@.pop_result(i as int),
            final(self)@ == old(self)@.after_pop(i as int),
            final(self)@.wf(),
    {
        let ghost before = self@;
        let queue = VirtQueue::new(self.resources.queues[i], &self.resources.dma)?;
        let mut state = self.states[i];
        let result = queue.pop(&self.resources.dma, &mut state);
        self.states[i] = state;
        proof {
            assert(self@.cursors =~= before.after_pop(i as int).cursors);
        }
        result
    }

    /// Hands a chain back to queue `i`.
    pub fn complete(&mut self, i: usize, chain: &DescriptorChain, used_length: u32) -> (result: Result<
        (),
        DeviceError,
    >)
        requires
            old(self)@.wf(),
            i < old(self)@.layouts.len(),
        ensures
            result == old(self)@.complete_result(i as int, chain.head, used_length),
            final(self)@ == old(self)@.after_complete(i as int, chain.head, used_length),
            final(self)@.wf(),
    {
        let ghost before = self@;
        let queue = VirtQueue::new(self.resources.queues[i], &self.resources.dma)?;
        let mut state = self.states[i];
        let result = queue.complete(&mut self.resources.dma, &mut state, chain, used_length);
        self.states[i] = state;
        proof {
            lemma_completion_keeps_mapping(
                before.layouts[i as int],
                before.memory,
                before.cursors[i as int],
                chain.head,
                used_length,
            );
            assert(self@.cursors =~= before.after_complete(
                i as int,
                chain.head,
                used_length,
            ).cursors);
            lemma_queues_with_memory(before, self@.memory);
        }
        result
    }

    /// Stores `data`, filling `ranges` one after the other.
    pub fn store(&mut self, ranges: &[DmaRange], data: &[u8]) -> (result: Result<(), DeviceError>)
        requires
            old(self)@.wf(),
        ensures
            result == chain::scattered(old(self)@.memory, ranges@, data@).result,
            final(self)@ == old(self)@.with_memory(
                chain::scattered(old(self)@.memory, ranges@, data@).memory,
            ),
            final(self)@.wf(),
    {
        let ghost before = self@;
        let result = chain::scatter(&mut self.resources.dma, ranges, data);
        proof {
            chain::lemma_scatter_keeps_layout(before.memory, ranges@, data@);
            lemma_queues_with_memory(before, self@.memory);
        }
        result
    }

    /// Takes the guest memory away from the device.
    pub fn stop(&mut self)
        requires
            old(self)@.wf(),
        ensures
            final(self)@ == old(self)@.stopped(),
            final(self)@.wf(),
    {
        let ghost before = self@;
        self.resources.dma.revoke();
        proof {
            assert forall|a: int| #[trigger] self@.memory.mapped(a) == before.memory.mapped(a) by {
                if before.memory.mapped(a) {
                    let k = choose|k: int| before.memory.holds(k, a);
                    assert(self@.memory.holds(k, a));
                }
                if self@.memory.mapped(a) {
                    let k = choose|k: int| self@.memory.holds(k, a);
                    assert(before.memory.holds(k, a));
                }
            }
            assert forall|gpa: int, length: int|
                #[trigger] self@.memory.covers(gpa, length) == before.memory.covers(
                    gpa,
                    length,
                ) by {
                if before.memory.covers(gpa, length) {
                    assert forall|a: int| gpa <= a < gpa + length implies
                        #[trigger] self@.memory.mapped(a) by {
                        assert(before.memory.mapped(a));
                    }
                }
                if self@.memory.covers(gpa, length) {
                    assert forall|a: int| gpa <= a < gpa + length implies
                        #[trigger] before.memory.mapped(a) by {
                        assert(self@.memory.mapped(a));
                    }
                }
            }
            lemma_queues_with_memory(before, self@.memory);
        }
    }
}

/// A stopped device touches nothing any more: it takes no chain, hands none back and
/// stores no byte.
pub proof fn law_stopped_device_touches_nothing(
    queues: Queues,
    i: int,
    head: u16,
    used_length: u32,
    ranges: Seq<DmaRange>,
    data: Seq<u8>,
)
    requires
        queues.layouts.len() == queues.cursors.len(),
        0 <= i < queues.layouts.len(),
    ensures
        ({
            let stopped = queues.stopped();
            let revoked = DeviceError::Down(DeviceDownReason::Revoked);
            &&& stopped.pop_result(i) == if queues.cursors[i].inflight {
                Ok::<Option<Chain>, DeviceError>(None)
            } else {
                Err::<Option<Chain>, DeviceError>(revoked)
            }
            &&& stopped.after_pop(i) == stopped
            &&& stopped.complete_result(i, head, used_length) is Err
            &&& stopped.after_complete(i, head, used_length) == stopped
            &&& chain::gathered(stopped.memory, ranges) is Err || ranges.len() == 0
            &&& chain::scattered(stopped.memory, ranges, data).memory == stopped.memory
        }),
{
    let stopped = queues.stopped();
    assert(stopped.after_pop(i) =~= stopped);
    assert(stopped.after_complete(i, head, used_length) =~= stopped);
}

/// What a driver finds after bytes were stored in its buffers and the chain was handed
/// back: if the buffers overlap neither each other nor the used ring, they hold the
/// bytes, and behind them what they held before, and the used ring names the chain and the
/// length it was completed with.
pub proof fn law_delivered_bytes_reach_guest(
    queues: Queues,
    i: int,
    ranges: Seq<DmaRange>,
    data: Seq<u8>,
    head: u16,
    used_length: u32,
)
    requires
        queues.wf(),
        0 <= i < queues.layouts.len(),
        queues.cursors[i].inflight,
        !queues.memory.revoked,
        chain::first_fault(queues.memory, ranges) is None,
        chain::all_apart(ranges),
        forall|k: int|
            0 <= k < ranges.len() ==> chain::apart(#[trigger] ranges[k], queues.layouts[i].used),
        data.len() <= chain::total(ranges),
    ensures
        ({
            let stored = queues.with_memory(
                chain::scattered(queues.memory, ranges, data).memory,
            );
            let after = stored.after_complete(i, head, used_length);
            let layout = queues.layouts[i];
            let slot = queues.cursors[i].next_used as int % layout.size as int;
            let element = layout.used.gpa + 4 + 8 * slot;
            &&& chain::scattered(queues.memory, ranges, data).result is Ok
            &&& stored.complete_result(i, head, used_length) is Ok
            &&& chain::joined(after.memory, ranges).subrange(0, data.len() as int) == data
            &&& chain::joined(after.memory, ranges).skip(data.len() as int) == chain::joined(
                queues.memory,
                ranges,
            ).skip(data.len() as int)
            &&& bytes::le_value(after.memory.peek(element, 4)) == head
            &&& bytes::le_value(after.memory.peek(element + 4, 4)) == used_length
        }),
{
    let mem = queues.memory;
    let spread = chain::scattered(mem, ranges, data).memory;
    let stored = queues.with_memory(spread);
    let layout = queues.layouts[i];
    let cursor = queues.cursors[i];
    chain::law_gather_after_scatter(mem, ranges, data);
    chain::lemma_scatter_keeps_layout(mem, ranges, data);
    lemma_queues_with_memory(queues, spread);
    assert(stored.layouts[i].flaw(spread) is None);
    queue::law_flawless_layout_is_sound(layout, spread);
    queue::law_completion_succeeds(layout, spread, cursor, head, used_length);
    queue::law_completion_is_recorded(layout, spread, cursor, head, used_length);
    lemma_joined_after_completion(layout, spread, cursor, head, used_length, ranges);
    chain::law_what_stands_behind_stays(mem, ranges, data);
}

/// A completion does not change what is read from buffers apart from the used ring.
proof fn lemma_joined_after_completion(
    layout: QueueLayout,
    mem: GuestMemory,
    cursor: QueueCursor,
    head: u16,
    used_length: u32,
    ranges: Seq<DmaRange>,
)
    requires
        mem.wf(),
        layout.sound(),
        chain::first_fault(mem, ranges) is None,
        forall|k: int| 0 <= k < ranges.len() ==> chain::apart(#[trigger] ranges[k], layout.used),
    ensures
        chain::joined(layout.completion(mem, cursor, head, used_length).memory, ranges)
            == chain::joined(mem, ranges),
    decreases ranges.len(),
{
    if ranges.len() > 0 {
        let first = ranges[0];
        assert(chain::apart(first, layout.used));
        queue::law_completion_stays_in_used_ring(
            layout,
            mem,
            cursor,
            head,
            used_length,
            first.gpa as int,
            first.length as int,
        );
        assert forall|k: int| 0 <= k < ranges.drop_first().len() implies chain::apart(
            #[trigger] ranges.drop_first()[k],
            layout.used,
        ) by {
            assert(ranges.drop_first()[k] == ranges[k + 1]);
        }
        lemma_joined_after_completion(
            layout,
            mem,
            cursor,
            head,
            used_length,
            ranges.drop_first(),
        );
    }
}

/// The number of the feature that every device needs.
pub proof fn law_device_numbers()
    ensures
        VIRTIO_F_VERSION_1 == 0x1_0000_0000,
{
}

} // verus!
