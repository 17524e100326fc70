//! virtio-rng: entropy of the host for the guest.

use vstd::prelude::*;

use crate::bytes;
use crate::chain;
use crate::device;
use crate::device::{DeviceLayout, DeviceResources, QueueSet, Queues, WakeStep};
use crate::dma;
use crate::dma::{DmaMemory, DmaRange};
use crate::driver;
use crate::error::{DeviceDownReason, DeviceError};
use crate::guest;
use crate::guest::GuestMemory;
use crate::interrupt;
use crate::interrupt::{queue_interrupt, Interrupt};
use crate::num::is_power_of_two;
use crate::queue::{Chain, Descriptor, DescriptorChain};

verus! {

pub const VIRTIO_F_VERSION_1: u64 = 0x1_0000_0000;

const QUEUE_RNG: usize = 0;

const QUEUE_COUNT: usize = 1;

/// An entropy device to be activated.
#[derive(Clone, Debug)]
pub struct RngSpec {
    maximum_queue_size: u16,
}

impl RngSpec {
    /// The largest queue the device takes.
    pub closed spec fn spec_maximum_queue_size(self) -> u16 {
        self.maximum_queue_size
    }

    pub fn new(maximum_queue_size: u16) -> (result: Result<Self, DeviceError>)
        ensures
            result is Ok <==> vstd::arithmetic::power2::is_pow2(maximum_queue_size as int),
            match result {
                Ok(spec) => {
                    &&& vstd::arithmetic::power2::is_pow2(maximum_queue_size as int)
                    &&& spec.spec_maximum_queue_size() == maximum_queue_size
                },
                Err(error) => {
                    &&& !vstd::arithmetic::power2::is_pow2(maximum_queue_size as int)
                    &&& error == DeviceError::InvalidLayout("invalid virtio-rng queue size")
                },
            },
    {
        if !is_power_of_two(maximum_queue_size as u64) {
            return Err(DeviceError::InvalidLayout("invalid virtio-rng queue size"));
        }
        Ok(RngSpec { maximum_queue_size })
    }

    /// What the device needs.
    pub open spec fn spec_layout(self) -> DeviceLayout {
        DeviceLayout {
            queue_count: 1,
            maximum_queue_size: self.spec_maximum_queue_size(),
            notifier_count: 1,
            required_features: VIRTIO_F_VERSION_1,
            optional_features: 0,
        }
    }

    pub fn layout(&self) -> (layout: DeviceLayout)
        ensures
            layout == self.spec_layout(),
    {
        DeviceLayout {
            queue_count: QUEUE_COUNT,
            maximum_queue_size: self.maximum_queue_size,
            notifier_count: QUEUE_COUNT,
            required_features: VIRTIO_F_VERSION_1,
            optional_features: 0,
        }
    }

    pub fn activate<'a>(&self, resources: DeviceResources<'a>) -> (result: Result<
        RngDevice<'a>,
        DeviceError,
    >)
        requires
            resources.dma@.wf(),
        ensures
            result is Ok <==> resources.flaw(self.spec_layout()) is None,
            match result {
                Ok(device) => {
                    &&& resources.flaw(self.spec_layout()) is None
                    &&& device.wf()
                    &&& device@ == (Rng { queues: device::fresh_queues(resources), down: false })
                },
                Err(error) => resources.flaw(self.spec_layout()) == Some(error),
            },
    {
        let queues = QueueSet::activate(resources, &self.layout())?;
        Ok(RngDevice { queues, down: false })
    }
}

/// Why a buffer cannot be filled, if it cannot be.
pub open spec fn refusal(mem: GuestMemory, descriptor: Descriptor) -> Option<DeviceError> {
    if !descriptor.spec_writable() || descriptor.length == 0 {
        Some(DeviceError::Descriptor("virtio-rng descriptor is not writable"))
    } else {
        mem.fault(descriptor.spec_range())
    }
}

/// How much was filled, with `more` bytes: none if that does not fit a `usize`.
pub open spec fn lengthened(length: Option<usize>, more: int) -> Option<usize> {
    match length {
        None => None,
        Some(length) => if length + more > usize::MAX {
            None
        } else {
            Some((length + more) as usize)
        },
    }
}

/// A chain that is being filled.
#[verifier::ext_equal]
pub struct Fill {
    pub chain: Chain,
    /// How many buffers were filled.
    pub index: int,
    /// How many bytes of the buffer behind them were filled.
    pub done: int,
    /// How many bytes were filled in all, if that fits a `usize`.
    pub length: Option<usize>,
}

impl Fill {
    /// A chain of which nothing was filled.
    pub open spec fn start(chain: Chain) -> Fill {
        Fill { chain, index: 0, done: 0, length: Some(0) }
    }

    /// A buffer that was filled in part lies below the top of the address space, and is
    /// not full.
    pub open spec fn wf(self) -> bool {
        &&& 0 <= self.index <= self.chain.descriptors.len()
        &&& 0 <= self.done
        &&& self.ended() ==> self.done == 0
        &&& self.done > 0 ==> {
            let descriptor = self.chain.descriptors[self.index];
            &&& self.done < descriptor.spec_range().length
            &&& descriptor.address + descriptor.spec_range().length <= u64::MAX
        }
    }

    /// Whether every buffer was filled.
    pub open spec fn ended(self) -> bool {
        self.index == self.chain.descriptors.len()
    }

    /// What is left of the buffer that is filled next.
    pub open spec fn rest(self) -> DmaRange {
        let range = self.chain.descriptors[self.index].spec_range();
        DmaRange {
            gpa: (range.gpa + self.done) as u64,
            length: (range.length - self.done) as usize,
        }
    }

    /// What is left to be filled.
    pub open spec fn left(self) -> Seq<DmaRange> {
        if self.ended() {
            Seq::empty()
        } else {
            seq![self.rest()] + chain::ranges_of(self.chain.descriptors).skip(self.index + 1)
        }
    }

    /// How many bytes are filled next, if any are left: those of a buffer that lie in one
    /// region.  A buffer is judged before its first byte is filled.
    pub open spec fn next(self, mem: GuestMemory) -> Result<Option<int>, DeviceError> {
        if self.length is None {
            Err(DeviceError::Descriptor("virtio-rng length overflow"))
        } else if self.ended() {
            Ok(None)
        } else if self.done == 0 && refusal(mem, self.chain.descriptors[self.index]) is Some {
            Err(refusal(mem, self.chain.descriptors[self.index])->0)
        } else if mem.fault(self.rest()) is Some {
            Err(mem.fault(self.rest())->0)
        } else {
            Ok(Some(mem.run(self.rest().gpa as int, self.rest().length as int)))
        }
    }

    /// The filling behind the next `count` bytes.
    pub open spec fn advanced(self, count: int) -> Fill {
        let full = self.rest().length == count;
        Fill {
            chain: self.chain,
            index: if full {
                self.index + 1
            } else {
                self.index
            },
            done: if full {
                0
            } else {
                self.done + count
            },
            length: lengthened(self.length, count),
        }
    }
}

/// A chain that is being filled.
#[derive(Debug)]
pub struct RngFill {
    chain: DescriptorChain,
    index: usize,
    done: usize,
    length: Option<usize>,
}

impl View for RngFill {
    type V = Fill;

    closed spec fn view(&self) -> Fill {
        Fill {
            chain: self.chain@,
            index: self.index as int,
            done: self.done as int,
            length: self.length,
        }
    }
}

/// An entropy device at work.
#[verifier::ext_equal]
pub struct Rng {
    pub queues: Queues,
    pub down: bool,
}

impl Rng {
    /// What taking the next chain gives.
    pub open spec fn demand(self) -> Result<Option<Fill>, DeviceError> {
        match self.queues.pop_result(0) {
            Err(error) => Err(error),
            Ok(None) => Ok(None),
            Ok(Some(chain)) => Ok(Some(Fill::start(chain))),
        }
    }

    /// What handing a filled chain back gives.
    pub open spec fn supply(self, fill: Fill) -> (Result<Interrupt, DeviceError>, Queues) {
        let head = fill.chain.head;
        match fill.length {
            None => (
                Err(DeviceError::Descriptor("virtio-rng length overflow")),
                self.queues,
            ),
            Some(length) => if length > u32::MAX {
                (Err(DeviceError::Descriptor("virtio-rng length exceeds u32")), self.queues)
            } else {
                (
                    match self.queues.complete_result(0, head, length as u32) {
                        Ok(()) => Ok(interrupt::spec_queue_interrupt(0)),
                        Err(error) => Err(error),
                    },
                    self.queues.after_complete(0, head, length as u32),
                )
            },
        }
    }

    /// The device with other bytes in memory.
    pub open spec fn with_memory(self, memory: GuestMemory) -> Rng {
        Rng { queues: self.queues.with_memory(memory), ..self }
    }
}

/// An active entropy device.
#[derive(Debug)]
pub struct RngDevice<'a> {
    queues: QueueSet<'a>,
    down: bool,
}

impl<'a> View for RngDevice<'a> {
    type V = Rng;

    closed spec fn view(&self) -> Rng {
        Rng { queues: self.queues@, down: self.down }
    }
}

impl<'a> RngDevice<'a> {
    /// The device has its queue.
    pub open spec fn wf(self) -> bool {
        self@.queues.wf() && self@.queues.layouts.len() == 1
    }

    /// The guest memory that the device works on.
    pub fn memory(&self) -> (memory: &DmaMemory<'a>)
        ensures
            memory@ == self@.queues.memory,
    {
        &self.queues.resources.dma
    }

    /// Takes the device down, whatever the reason.
    pub fn stop(&mut self, reason: DeviceDownReason)
        requires
            old(self).wf(),
        ensures
            final(self).wf(),
            final(self)@ == (Rng { queues: old(self)@.queues.stopped(), down: true }),
            final(self)@.down,
            final(self)@.queues.memory.revoked,
            final(self)@.queues.cursors == old(self)@.queues.cursors,
    {
        self.down = true;
        self.queues.stop();
    }

    /// What to do on a wake-up.
    pub fn on_wake(&self) -> (step: WakeStep)
        ensures
            step == if self@.down {
                WakeStep::Drain
            } else {
                WakeStep::Process
            },
            step is Drain <==> self@.down,
            step is Process <==> !self@.down,
    {
        if self.down {
            WakeStep::Drain
        } else {
            WakeStep::Process
        }
    }

    /// Takes the next chain.
    pub fn begin_fill(&mut self) -> (result: Result<Option<RngFill>, DeviceError>)
        requires
            old(self).wf(),
        ensures
            final(self).wf(),
            final(self)@ == (Rng { queues: old(self)@.queues.after_pop(0), ..old(self)@ }),
            match result {
                Ok(Some(fill)) => {
                    &&& old(self)@.demand() == Ok::<Option<Fill>, DeviceError>(Some(fill@))
                    &&& fill@.wf()
                },
                Ok(None) => old(self)@.demand() == Ok::<Option<Fill>, DeviceError>(None),
                Err(error) => old(self)@.demand() == Err::<Option<Fill>, DeviceError>(error),
            },
    {
        let popped = self.queues.pop(QUEUE_RNG)?;
        match popped {
            None => Ok(None),
            Some(chain) => {
                let fill = RngFill { chain, index: 0, done: 0, length: Some(0) };
                proof {
                    assert(fill@ =~= Fill::start(chain@));
                }
                Ok(Some(fill))
            },
        }
    }

    /// The bytes of guest memory to be filled with entropy next, if any are left.
    pub fn next_buffer<'m>(&'m mut self, fill: &mut RngFill) -> (result: Result<
        Option<&'m mut [u8]>,
        DeviceError,
    >)
        requires
            old(self).wf(),
            old(fill)@.wf(),
        ensures
            final(fill)@.wf(),
            match result {
                Ok(Some(buffer)) => {
                    let memory = old(self)@.queues.memory;
                    let count = buffer@.len() as int;
                    let gpa = old(fill)@.rest().gpa as int;
                    &&& old(fill)@.next(memory) == Ok::<Option<int>, DeviceError>(Some(count))
                    &&& final(fill)@ == old(fill)@.advanced(count)
                    &&& buffer@ == memory.peek(gpa, count)
                    &&& final(buffer)@.len() == count ==> {
                        &&& final(self).wf()
                        &&& final(self)@ == old(self)@.with_memory(
                            memory.poke(gpa, final(buffer)@),
                        )
                    }
                },
                Ok(None) => {
                    &&& old(fill)@.next(old(self)@.queues.memory) == Ok::<
                        Option<int>,
                        DeviceError,
                    >(None)
                    &&& final(fill)@ == old(fill)@
                    &&& *final(self) == *old(self)
                },
                Err(error) => {
                    &&& old(fill)@.next(old(self)@.queues.memory) == Err::<
                        Option<int>,
                        DeviceError,
                    >(error)
                    &&& final(fill)@ == old(fill)@
                    &&& *final(self) == *old(self)
                },
            },
    {
        let length: usize = match fill.length {
            None => {
                return Err(DeviceError::Descriptor("virtio-rng length overflow"));
            },
            Some(length) => length,
        };
        if fill.index == fill.chain.descriptors.len() {
            return Ok(None);
        }
        let descriptor = fill.chain.descriptors[fill.index];
        if fill.done == 0 && (!descriptor.writable() || descriptor.length == 0) {
            return Err(DeviceError::Descriptor("virtio-rng descriptor is not writable"));
        }
        let whole = descriptor.range();
        let rest = DmaRange::new(whole.gpa + fill.done as u64, whole.length - fill.done);
        let parts = self.queues.resources.dma.grant(rest)?;
        let ghost before = self@;
        proof {
            let mem = before.queues.memory;
            let gpa = rest.gpa as int;
            dma::lemma_first_part(dma::parts_of(parts@), mem, gpa, rest.length as int);
            assert(dma::parts_of(parts@)[0] == parts@[0]@);
            assert forall|data: Seq<u8>| before.queues.with_memory(
                #[trigger] mem.poke(gpa, data),
            ).wf() by {
                guest::lemma_poke_keeps_layout(mem, gpa, data);
                device::lemma_queues_with_memory(before.queues, mem.poke(gpa, data));
            }
        }
        let count: usize = parts[0].length();
        if count == rest.length {
            fill.index = fill.index + 1;
            fill.done = 0;
        } else {
            fill.done = fill.done + count;
        }
        fill.length = length.checked_add(count);
        Ok(Some(parts[0].slice_of_mut(&mut self.queues.resources.dma)))
    }

    /// Hands a chain back whose buffers were all filled.
    pub fn finish_fill(&mut self, fill: RngFill) -> (result: Result<Interrupt, DeviceError>)
        requires
            old(self).wf(),
            fill@.ended(),
        ensures
            final(self).wf(),
            result == old(self)@.supply(fill@).0,
            final(self)@ == (Rng { queues: old(self)@.supply(fill@).1, ..old(self)@ }),
    {
        let length: usize = match fill.length {
            None => {
                return Err(DeviceError::Descriptor("virtio-rng length overflow"));
            },
            Some(length) => length,
        };
        if length as u64 > u32::MAX as u64 {
            return Err(DeviceError::Descriptor("virtio-rng length exceeds u32"));
        }
        self.queues.complete(QUEUE_RNG, &fill.chain, length as u32)?;
        Ok(queue_interrupt(0))
    }
}

/// Whether `pieces` of entropy fill what is left of a chain: each is as long as what is
/// filled next, and nothing is left behind the last.
pub open spec fn fills(mem: GuestMemory, fill: Fill, pieces: Seq<Seq<u8>>) -> bool
    decreases pieces.len(),
{
    if pieces.len() == 0 {
        fill.next(mem) == Ok::<Option<int>, DeviceError>(None)
    } else {
        &&& fill.next(mem) == Ok::<Option<int>, DeviceError>(Some(pieces[0].len() as int))
        &&& fills(
            mem.poke(fill.rest().gpa as int, pieces[0]),
            fill.advanced(pieces[0].len() as int),
            pieces.drop_first(),
        )
    }
}

/// The memory and the filling after `pieces` of entropy were stored, each where it is
/// filled next.
pub open spec fn poured(mem: GuestMemory, fill: Fill, pieces: Seq<Seq<u8>>) -> (GuestMemory, Fill)
    decreases pieces.len(),
{
    if pieces.len() == 0 {
        (mem, fill)
    } else {
        poured(
            mem.poke(fill.rest().gpa as int, pieces[0]),
            fill.advanced(pieces[0].len() as int),
            pieces.drop_first(),
        )
    }
}

/// A chain whose buffers can be filled is filled to its end: as long as a byte is left,
/// the next bytes are there to be filled, filling them leaves fewer, and whatever they are
/// filled with, the other buffers can be filled as before.
pub proof fn law_filling_goes_on(mem: GuestMemory, fill: Fill, data: Seq<u8>)
    requires
        mem.wf(),
        fill.wf(),
        fill.length is Some,
        !fill.ended(),
        refusal(mem, fill.chain.descriptors[fill.index]) is None,
    ensures
        match fill.next(mem) {
            Ok(Some(count)) => {
                &&& 0 < count <= fill.rest().length
                &&& fill.advanced(count).wf()
                &&& chain::total(fill.advanced(count).left()) + count == chain::total(fill.left())
            },
            _ => false,
        },
        forall|k: int|
            0 <= k < fill.chain.descriptors.len() ==> refusal(
                mem.poke(fill.rest().gpa as int, data),
                #[trigger] fill.chain.descriptors[k],
            ) == refusal(mem, fill.chain.descriptors[k]),
{
    let rest = fill.rest();
    let whole = fill.chain.descriptors[fill.index].spec_range();
    assert(mem.covers(whole.gpa as int, whole.length as int));
    assert(mem.covers(rest.gpa as int, rest.length as int));
    lemma_next_count(mem, fill);
    lemma_advanced(fill, fill.next(mem)->Ok_0->0);
    guest::lemma_poke_keeps_layout(mem, rest.gpa as int, data);
}

/// What is filled next is part of what is left of the buffer, and not nothing.
proof fn lemma_next_count(mem: GuestMemory, fill: Fill)
    requires
        mem.wf(),
        fill.wf(),
        fill.length is Some,
        !fill.ended(),
        fill.next(mem) is Ok,
    ensures
        fill.next(mem) matches Ok(Some(count)) && 0 < count <= fill.rest().length,
        mem.covers(fill.rest().gpa as int, fill.rest().length as int),
        fill.rest().gpa == fill.chain.descriptors[fill.index].address + fill.done,
        fill.rest().gpa + fill.rest().length <= u64::MAX,
{
    let rest = fill.rest();
    assert(mem.covers(rest.gpa as int, rest.length as int));
    assert(mem.mapped(rest.gpa as int));
    let i = choose|i: int| mem.holds(i, rest.gpa as int);
    guest::lemma_run(mem, i, rest.gpa as int, rest.length as int);
}

/// Filling a part of a buffer leaves its other part, and filling all of it leaves the
/// buffers behind it.
proof fn lemma_advanced(fill: Fill, count: int)
    requires
        fill.wf(),
        !fill.ended(),
        0 < count <= fill.rest().length,
        fill.rest().gpa == fill.chain.descriptors[fill.index].address + fill.done,
        fill.rest().gpa + fill.rest().length <= u64::MAX,
    ensures
        fill.advanced(count).wf(),
        fill.left()[0] == fill.rest(),
        count == fill.rest().length ==> fill.advanced(count).left() == fill.left().drop_first(),
        count < fill.rest().length ==> fill.advanced(count).left() == seq![
            DmaRange {
                gpa: (fill.rest().gpa + count) as u64,
                length: (fill.rest().length - count) as usize,
            },
        ] + fill.left().drop_first(),
        chain::total(fill.advanced(count).left()) + count == chain::total(fill.left()),
{
    let after = fill.advanced(count);
    let ranges = chain::ranges_of(fill.chain.descriptors);
    assert(fill.left().drop_first() =~= ranges.skip(fill.index + 1));
    if count == fill.rest().length {
        if after.ended() {
            assert(after.left() =~= ranges.skip(fill.index + 1));
        } else {
            assert(after.rest() == ranges[after.index]);
            assert(after.left() =~= ranges.skip(fill.index + 1));
        }
    } else {
        assert(after.left().drop_first() =~= ranges.skip(fill.index + 1));
        assert(after.left() =~= seq![after.rest()] + fill.left().drop_first());
    }
}

/// Storing the first bytes of a range, and then the others behind them, is storing all.
proof fn lemma_scatter_in_two(
    mem: GuestMemory,
    range: DmaRange,
    ranges: Seq<DmaRange>,
    first: Seq<u8>,
    others: Seq<u8>,
)
    requires
        mem.fault(range) is None,
        0 < first.len() < range.length,
    ensures
        ({
            let rest = DmaRange {
                gpa: (range.gpa + first.len()) as u64,
                length: (range.length - first.len()) as usize,
            };
            chain::scattered(mem, seq![range] + ranges, first + others).memory
                == chain::scattered(
                mem.poke(range.gpa as int, first),
                seq![rest] + ranges,
                others,
            ).memory
        }),
{
    let rest = DmaRange {
        gpa: (range.gpa + first.len()) as u64,
        length: (range.length - first.len()) as usize,
    };
    let data = first + others;
    let next = mem.poke(range.gpa as int, first);
    assert((seq![range] + ranges).drop_first() =~= ranges);
    assert((seq![rest] + ranges).drop_first() =~= ranges);
    assert(mem.covers(range.gpa as int, range.length as int));
    assert(mem.covers(rest.gpa as int, rest.length as int));
    guest::lemma_poke_keeps_layout(mem, range.gpa as int, first);
    assert(next.covers(rest.gpa as int, rest.length as int));
    let count = chain::lesser(range.length as nat, data.len()) as int;
    if others.len() == 0 {
        assert(data =~= first);
        assert(data.subrange(0, count) =~= first);
        let none = data.subrange(count, data.len() as int);
        assert(none.len() == 0);
        assert(chain::scattered(next, ranges, none).memory == next);
    } else {
        let more = count - first.len();
        assert(next.fault(rest) is None);
        assert(rest.gpa == range.gpa + first.len());
        assert(more == chain::lesser(rest.length as nat, others.len()));
        guest::lemma_poke_concat(mem, range.gpa as int, first, others.subrange(0, more));
        assert(data.subrange(0, count) =~= first + others.subrange(0, more));
        assert(data.subrange(count, data.len() as int) =~= others.subrange(
            more,
            others.len() as int,
        ));
    }
}

/// Filling a chain piece by piece is spreading all of the entropy over what was left.
proof fn lemma_poured(mem: GuestMemory, fill: Fill, pieces: Seq<Seq<u8>>)
    requires
        mem.wf(),
        fill.wf(),
        fills(mem, fill, pieces),
    ensures
        ({
            let entropy = pieces.flatten();
            let (after, ended) = poured(mem, fill, pieces);
            &&& chain::first_fault(mem, fill.left()) is None
            &&& after == chain::scattered(mem, fill.left(), entropy).memory
            &&& entropy.len() == chain::total(fill.left())
            &&& ended.ended()
            &&& ended.chain == fill.chain
            &&& fill.length matches Some(before) && ended.length matches Some(length) && length
                == before + entropy.len()
        }),
    decreases pieces.len(),
{
    if pieces.len() != 0 {
        let first = pieces[0];
        let count = first.len() as int;
        let rest = fill.rest();
        let next = mem.poke(rest.gpa as int, first);
        let others = pieces.drop_first().flatten();
        lemma_next_count(mem, fill);
        lemma_advanced(fill, count);
        guest::lemma_poke_keeps_layout(mem, rest.gpa as int, first);
        lemma_poured(next, fill.advanced(count), pieces.drop_first());
        let behind = fill.left().drop_first();
        assert(fill.left() =~= seq![rest] + behind);
        assert(pieces.flatten() =~= first + others);
        if count == rest.length {
            assert((first + others).subrange(0, count) =~= first);
            assert((first + others).subrange(count, (first + others).len() as int) =~= others);
        } else {
            lemma_scatter_in_two(mem, rest, behind, first, others);
            assert(fill.advanced(count).left().drop_first() =~= behind);
        }
        chain::lemma_same_faults(mem, next, behind);
    }
}

/// A buffer can be filled exactly if it is for writing, not empty, and can be touched.
pub proof fn law_fillable_buffers(mem: GuestMemory, descriptor: Descriptor)
    ensures
        refusal(mem, descriptor) is None <==> {
            &&& descriptor.flags & 2 != 0
            &&& descriptor.length > 0
            &&& mem.fault(
                DmaRange { gpa: descriptor.address, length: descriptor.length as usize },
            ) is None
        },
        descriptor.flags & 2 == 0 || descriptor.length == 0 ==> refusal(mem, descriptor) == Some(
            DeviceError::Descriptor("virtio-rng descriptor is not writable"),
        ),
{
}

/// The next chain of the queue is filled from its first byte on.
pub proof fn law_next_chain_is_filled(device: Rng, chain: Chain)
    requires
        device.queues.wf(),
        device.queues.layouts.len() == 1,
        !device.queues.memory.revoked,
        driver::is_offered(device.queues, 0, chain),
    ensures
        device.demand() is Ok,
        device.demand()->Ok_0 is Some,
        ({
            let fill = device.demand()->Ok_0->0;
            &&& fill.chain == chain
            &&& fill.index == 0
            &&& fill.done == 0
            &&& fill.length == Some(0usize)
        }),
{
    driver::law_next_chain_is_taken(device.queues, 0, chain);
}

/// What is filled next is a stretch of the first buffer that is not full: it starts behind what
/// was filled of it, and ends with the buffer or with the region that it lies in.
pub proof fn law_stretches_follow_each_other(mem: GuestMemory, fill: Fill, i: int)
    requires
        mem.wf(),
        fill.wf(),
        fill.length is Some,
        !fill.ended(),
        refusal(mem, fill.chain.descriptors[fill.index]) is None,
        0 <= i < mem.regions.len(),
        mem.regions[i].gpa <= fill.chain.descriptors[fill.index].address + fill.done,
        fill.chain.descriptors[fill.index].address + fill.done < mem.regions[i].gpa
            + mem.regions[i].bytes.len(),
    ensures
        ({
            let buffer = fill.chain.descriptors[fill.index];
            let start = buffer.address + fill.done;
            let left = buffer.length - fill.done;
            let here = mem.regions[i].gpa + mem.regions[i].bytes.len() - start;
            let count = if left < here {
                left
            } else {
                here
            };
            &&& fill.next(mem) == Ok::<Option<int>, DeviceError>(Some(count))
            &&& fill.rest().gpa == start
            &&& fill.advanced(count).index == if left == count {
                fill.index + 1
            } else {
                fill.index
            }
            &&& fill.advanced(count).done == if left == count {
                0
            } else {
                fill.done + count
            }
            &&& fill.advanced(count).chain == fill.chain
            &&& fill.length->0 + count <= usize::MAX ==> fill.advanced(count).length == Some(
                (fill.length->0 + count) as usize,
            )
        }),
{
    let rest = fill.rest();
    let whole = fill.chain.descriptors[fill.index].spec_range();
    assert(mem.covers(whole.gpa as int, whole.length as int));
    assert(mem.covers(rest.gpa as int, rest.length as int));
    assert(mem.holds(i, rest.gpa as int));
    guest::lemma_run(mem, i, rest.gpa as int, rest.length as int);
}

/// A filled chain is handed back with the number of bytes that were filled.
pub proof fn law_filled_chain_is_returned(device: Rng, fill: Fill)
    requires
        device.queues.wf(),
        device.queues.layouts.len() == 1,
        device.queues.cursors[0].inflight,
        !device.queues.memory.revoked,
        fill.length is Some,
    ensures
        fill.length->0 <= u32::MAX ==> {
            &&& device.supply(fill).0 == Ok::<Interrupt, DeviceError>(
                Interrupt::Queue { queue_index: 0, vector: 0 },
            )
            &&& driver::is_returned(
                device.queues,
                0,
                device.supply(fill).1,
                fill.chain.head,
                fill.length->0 as int,
            )
        },
        fill.length->0 > u32::MAX ==> device.supply(fill).0 is Err && device.supply(fill).1
            == device.queues,
{
    if fill.length->0 <= u32::MAX {
        driver::lemma_returned(device.queues, 0, fill.chain.head, fill.length->0 as u32);
    }
}

/// A device has one queue with a notifier, and needs version 1 of virtio and nothing else.
pub proof fn law_rng_layout(spec: RngSpec)
    ensures
        spec.spec_layout().queue_count == 1,
        spec.spec_layout().notifier_count == 1,
        spec.spec_layout().maximum_queue_size == spec.spec_maximum_queue_size(),
        spec.spec_layout().required_features == 0x1_0000_0000,
        spec.spec_layout().optional_features == 0,
{
}

/// What the guest finds after its chain was filled, piece by piece, and handed back: if its
/// buffers are apart from each other and from the used ring, they hold the entropy, and the
/// used ring names the chain and the length of all.
pub proof fn law_entropy_reaches_guest(device: Rng, chain: Chain, pieces: Seq<Seq<u8>>)
    requires
        device.queues.wf(),
        device.queues.layouts.len() == 1,
        device.queues.cursors[0].inflight,
        !device.queues.memory.revoked,
        fills(device.queues.memory, Fill::start(chain), pieces),
        chain::all_apart(chain::ranges_of(chain.descriptors)),
        forall|k: int|
            0 <= k < chain.descriptors.len() ==> chain::apart(
                #[trigger] chain::ranges_of(chain.descriptors)[k],
                device.queues.layouts[0].used,
            ),
        chain::total(chain::ranges_of(chain.descriptors)) <= u32::MAX,
    ensures
        ({
            let entropy = pieces.flatten();
            let (memory, fill) = poured(device.queues.memory, Fill::start(chain), pieces);
            let (result, after) = device.with_memory(memory).supply(fill);
            let layout = device.queues.layouts[0];
            let slot = device.queues.cursors[0].next_used as int % layout.size as int;
            let element = layout.used.gpa + 4 + 8 * slot;
            &&& fill.ended()
            &&& result == Ok::<Interrupt, DeviceError>(interrupt::spec_queue_interrupt(0))
            &&& chain::joined(after.memory, chain::ranges_of(chain.descriptors)) == entropy
            &&& bytes::le_value(after.memory.peek(element, 4)) == chain.head
            &&& bytes::le_value(after.memory.peek(element + 4, 4)) == entropy.len()
        }),
{
    let ranges = chain::ranges_of(chain.descriptors);
    let mem = device.queues.memory;
    let start = Fill::start(chain);
    let entropy = pieces.flatten();
    lemma_poured(mem, start, pieces);
    if !start.ended() {
        assert(start.rest() == ranges[0]);
    }
    assert(start.left() =~= ranges);
    device::law_delivered_bytes_reach_guest(
        device.queues,
        0,
        ranges,
        entropy,
        chain.head,
        entropy.len() as u32,
    );
    let (memory, fill) = poured(mem, start, pieces);
    let after = device.with_memory(memory).supply(fill).1;
    chain::lemma_joined_len(after.memory, ranges);
    let found = chain::joined(after.memory, ranges);
    assert(found.subrange(0, entropy.len() as int) =~= found);
}

/// The number of the feature that the device needs.
pub proof fn law_rng_numbers()
    ensures
        VIRTIO_F_VERSION_1 == 0x1_0000_0000,
{
}

/// No chain is filled exactly when none is taken off the queue, and what the queue fails with, the
/// device fails with.
pub proof fn law_no_chain_is_passed_over(device: Rng)
    ensures
        device.demand() == Ok::<Option<Fill>, DeviceError>(None) <==> device.queues.pop_result(0)
            == Ok::<Option<Chain>, DeviceError>(None),
        device.queues.pop_result(0) matches Err(error) ==> device.demand() == Err::<
            Option<Fill>,
            DeviceError,
        >(error),
{
}

} // verus!
