//! Single-port virtio-console.

use vstd::prelude::*;

use crate::bytes;
use crate::chain;
use crate::chain::Spread;
use crate::device::{DeviceLayout, DeviceResources, QueueSet, Queues, WakeStep};
use crate::device;
use crate::dma::DmaMemory;
use crate::driver;
use crate::error::{DeviceDownReason, DeviceError};
use crate::guest::GuestMemory;
use crate::interrupt::{queue_interrupt, Interrupt};
use crate::interrupt;
use crate::num::is_power_of_two;
use crate::queue::{Chain, Descriptor, DescriptorChain};

verus! {

pub const VIRTIO_F_VERSION_1: u64 = 0x1_0000_0000;

pub const VIRTIO_CONSOLE_F_SIZE: u64 = 0x1;

pub const VIRTIO_CONSOLE_F_MULTIPORT: u64 = 0x2;

pub const VIRTIO_CONSOLE_F_EMERG_WRITE: u64 = 0x4;

const QUEUE_RECEIVE: usize = 0;

const QUEUE_TRANSMIT: usize = 1;

const QUEUE_COUNT: usize = 2;

/// A console to be activated, with the backend that serves it.
#[derive(Debug)]
pub struct ConsoleSpec<B> {
    maximum_queue_size: u16,
    backend: B,
}

impl<B> ConsoleSpec<B> {
    /// The largest queue the console takes.
    pub closed spec fn spec_maximum_queue_size(self) -> u16 {
        self.maximum_queue_size
    }

    /// The backend that serves the console.
    pub closed spec fn spec_backend(self) -> B {
        self.backend
    }

    pub fn new(maximum_queue_size: u16, backend: B) -> (result: Result<Self, DeviceError>)
        ensures
            result is Ok <==> vstd::arithmetic::power2::is_pow2(maximum_queue_size as int),
            match result {
                Ok(spec) => {
                    &&& vstd::arithmetic::power2::is_pow2(maximum_queue_size as int)
                    &&& spec.spec_maximum_queue_size() == maximum_queue_size
                    &&& spec.spec_backend() == backend
                },
                Err(error) => {
                    &&& !vstd::arithmetic::power2::is_pow2(maximum_queue_size as int)
                    &&& error == DeviceError::InvalidLayout("invalid virtio-console queue size")
                },
            },
    {
        if !is_power_of_two(maximum_queue_size as u64) {
            return Err(DeviceError::InvalidLayout("invalid virtio-console queue size"));
        }
        Ok(ConsoleSpec { maximum_queue_size, backend })
    }

    /// The backend that serves the console.
    pub fn backend(&self) -> (backend: &B)
        ensures
            *backend == self.spec_backend(),
    {
        &self.backend
    }

    /// What the console needs.
    pub open spec fn spec_layout(self) -> DeviceLayout {
        DeviceLayout {
            queue_count: 2,
            maximum_queue_size: self.spec_maximum_queue_size(),
            notifier_count: 2,
            required_features: VIRTIO_F_VERSION_1,
            optional_features: 0,
        }
    }

    pub fn layout(&self) -> (layout: DeviceLayout)
        ensures
            layout == self.spec_layout(),
    {
        DeviceLayout {
            queue_count: QUEUE_COUNT,
            maximum_queue_size: self.maximum_queue_size,
            notifier_count: QUEUE_COUNT,
            required_features: VIRTIO_F_VERSION_1,
            optional_features: 0,
        }
    }

    pub fn activate<'a>(&self, resources: DeviceResources<'a>) -> (result: Result<
        ConsoleDevice<'a>,
        DeviceError,
    >)
        requires
            resources.dma@.wf(),
        ensures
            result is Ok <==> resources.flaw(self.spec_layout()) is None,
            match result {
                Ok(device) => {
                    &&& resources.flaw(self.spec_layout()) is None
                    &&& device.wf()
                    &&& device@ == (Console { queues: device::fresh_queues(resources), down: false })
                },
                Err(error) => resources.flaw(self.spec_layout()) == Some(error),
            },
    {
        let queues = QueueSet::activate(resources, &self.layout())?;
        Ok(ConsoleDevice { queues, down: false })
    }
}

/// The bytes that a transmit chain carries.
pub open spec fn transmitted(mem: GuestMemory, descriptors: Seq<Descriptor>) -> Result<
    Seq<u8>,
    DeviceError,
> {
    if chain::some_writable(descriptors) {
        Err(DeviceError::Descriptor("console transmit chain is writable"))
    } else {
        chain::gathered(mem, chain::ranges_of(descriptors))
    }
}

/// Reads a transmit chain.
pub fn read_chain(memory: &DmaMemory, chain: &DescriptorChain) -> (result: Result<
    Vec<u8>,
    DeviceError,
>)
    requires
        memory@.wf(),
    ensures
        match result {
            Ok(bytes) => transmitted(memory@, chain.descriptors@) == Ok::<Seq<u8>, DeviceError>(
                bytes@,
            ),
            Err(error) => transmitted(memory@, chain.descriptors@) == Err::<Seq<u8>, DeviceError>(
                error,
            ),
        },
{
    if chain::any_writable(chain) {
        return Err(DeviceError::Descriptor("console transmit chain is writable"));
    }
    chain::gather(memory, chain::ranges(chain).as_slice())
}

/// How much a receive chain takes, when `counted` bytes were counted in front of
/// `descriptors`.
pub open spec fn receivable(descriptors: Seq<Descriptor>, counted: nat) -> Result<nat, DeviceError>
    decreases descriptors.len(),
{
    if descriptors.len() == 0 {
        Ok(counted)
    } else if !descriptors[0].spec_writable() {
        Err(DeviceError::Descriptor("console receive chain is readable"))
    } else if counted + descriptors[0].length > usize::MAX {
        Err(DeviceError::Descriptor("console receive capacity overflows usize"))
    } else {
        receivable(descriptors.drop_first(), counted + descriptors[0].length as nat)
    }
}

/// How much a receive chain takes.
pub fn writable_capacity(chain: &DescriptorChain) -> (result: Result<usize, DeviceError>)
    ensures
        match result {
            Ok(capacity) => receivable(chain.descriptors@, 0) == Ok::<nat, DeviceError>(
                capacity as nat,
            ),
            Err(error) => receivable(chain.descriptors@, 0) == Err::<nat, DeviceError>(error),
        },
{
    let mut capacity: usize = 0;
    let mut i: usize = 0;
    assert(chain.descriptors@.skip(0) =~= chain.descriptors@);
    while i < chain.descriptors.len()
        invariant
            i <= chain.descriptors@.len(),
            receivable(chain.descriptors@.skip(i as int), capacity as nat) == receivable(
                chain.descriptors@,
                0,
            ),
        decreases chain.descriptors@.len() - i,
    {
        let descriptor = chain.descriptors[i];
        proof {
            assert(chain.descriptors@.skip(i as int)[0] == descriptor);
            assert(chain.descriptors@.skip(i as int).drop_first() =~= chain.descriptors@.skip(
                i + 1,
            ));
        }
        if !descriptor.writable() {
            return Err(DeviceError::Descriptor("console receive chain is readable"));
        }
        match capacity.checked_add(descriptor.length as usize) {
            Some(more) => {
                capacity = more;
            },
            None => {
                return Err(DeviceError::Descriptor("console receive capacity overflows usize"));
            },
        }
        i = i + 1;
    }
    Ok(capacity)
}

/// What storing `data` in a receive chain gives.
pub open spec fn received(mem: GuestMemory, descriptors: Seq<Descriptor>, data: Seq<u8>) -> Spread {
    match receivable(descriptors, 0) {
        Err(error) => Spread { result: Err(error), memory: mem },
        Ok(capacity) => if data.len() > capacity {
            Spread {
                result: Err(DeviceError::Descriptor("console receive chain is too short")),
                memory: mem,
            }
        } else {
            chain::scattered(mem, chain::ranges_of(descriptors), data)
        },
    }
}

/// A receive chain that is taken has room for what its buffers hold together.
proof fn lemma_receivable_is_total(descriptors: Seq<Descriptor>, counted: nat, capacity: nat)
    requires
        receivable(descriptors, counted) == Ok::<nat, DeviceError>(capacity),
    ensures
        capacity == counted + chain::total(chain::ranges_of(descriptors)),
    decreases descriptors.len(),
{
    let ranges = chain::ranges_of(descriptors);
    if descriptors.len() > 0 {
        assert(ranges.drop_first() =~= chain::ranges_of(descriptors.drop_first()));
        lemma_receivable_is_total(
            descriptors.drop_first(),
            counted + descriptors[0].length as nat,
            capacity,
        );
    }
}

/// A console at work.
#[verifier::ext_equal]
pub struct Console {
    pub queues: Queues,
    pub down: bool,
}

/// A chain whose bytes are on their way to the backend.
#[derive(Debug)]
pub struct ConsoleOutput {
    pub chain: DescriptorChain,
    pub bytes: Vec<u8>,
}

/// A chain that waits for input, and how much of it it takes.
#[derive(Debug)]
pub struct ConsoleInput {
    pub chain: DescriptorChain,
    pub capacity: usize,
}

impl Console {
    /// What taking the next transmit chain gives.
    pub open spec fn output(self) -> Result<Option<(Chain, Seq<u8>)>, DeviceError> {
        match self.queues.pop_result(1) {
            Err(error) => Err(error),
            Ok(None) => Ok(None),
            Ok(Some(chain)) => match transmitted(self.queues.memory, chain.descriptors) {
                Err(error) => Err(error),
                Ok(bytes) => Ok(Some((chain, bytes))),
            },
        }
    }

    /// What taking the next receive chain gives.
    pub open spec fn input(self) -> Result<Option<(Chain, nat)>, DeviceError> {
        match self.queues.pop_result(0) {
            Err(error) => Err(error),
            Ok(None) => Ok(None),
            Ok(Some(chain)) => match receivable(chain.descriptors, 0) {
                Err(error) => Err(error),
                Ok(capacity) => Ok(Some((chain, capacity))),
            },
        }
    }

    /// What handing `bytes` to the guest in `chain` gives.
    pub open spec fn deliver(self, chain: Chain, bytes: Seq<u8>) -> (
        Result<Interrupt, DeviceError>,
        Queues,
    ) {
        let spread = received(self.queues.memory, chain.descriptors, bytes);
        let stored = self.queues.with_memory(spread.memory);
        if spread.result is Err {
            (Err(spread.result->Err_0), stored)
        } else if bytes.len() > u32::MAX {
            (Err(DeviceError::Descriptor("console input too large")), stored)
        } else {
            let used = bytes.len() as u32;
            (
                match stored.complete_result(0, chain.head, used) {
                    Ok(()) => Ok(interrupt::spec_queue_interrupt(0)),
                    Err(error) => Err(error),
                },
                stored.after_complete(0, chain.head, used),
            )
        }
    }
}

/// An active console.
#[derive(Debug)]
pub struct ConsoleDevice<'a> {
    queues: QueueSet<'a>,
    down: bool,
}

impl<'a> View for ConsoleDevice<'a> {
    type V = Console;

    closed spec fn view(&self) -> Console {
        Console { queues: self.queues@, down: self.down }
    }
}

impl<'a> ConsoleDevice<'a> {
    /// The console has its two queues.
    pub open spec fn wf(self) -> bool {
        self@.queues.wf() && self@.queues.layouts.len() == 2
    }

    /// The guest memory that the device works on.
    pub fn memory(&self) -> (memory: &DmaMemory<'a>)
        ensures
            memory@ == self@.queues.memory,
    {
        &self.queues.resources.dma
    }

    /// Takes the console down, whatever the reason.
    pub fn stop(&mut self, reason: DeviceDownReason)
        requires
            old(self).wf(),
        ensures
            final(self).wf(),
            final(self)@ == (Console { queues: old(self)@.queues.stopped(), down: true }),
            final(self)@.down,
            final(self)@.queues.memory.revoked,
            final(self)@.queues.cursors == old(self)@.queues.cursors,
    {
        self.down = true;
        self.queues.stop();
    }

    /// What to do on a wake-up.
    pub fn on_wake(&self) -> (step: WakeStep)
        ensures
            step == if self@.down {
                WakeStep::Drain
            } else {
                WakeStep::Process
            },
            step is Drain <==> self@.down,
            step is Process <==> !self@.down,
    {
        if self.down {
            WakeStep::Drain
        } else {
            WakeStep::Process
        }
    }

    /// Takes the next transmit chain and the bytes it carries.
    pub fn begin_transmit(&mut self) -> (result: Result<Option<ConsoleOutput>, DeviceError>)
        requires
            old(self).wf(),
        ensures
            final(self).wf(),
            final(self)@ == (Console { queues: old(self)@.queues.after_pop(1), ..old(self)@ }),
            match result {
                Ok(Some(output)) => old(self)@.output() == Ok::<
                    Option<(Chain, Seq<u8>)>,
                    DeviceError,
                >(Some((output.chain@, output.bytes@))),
                Ok(None) => old(self)@.output() == Ok::<Option<(Chain, Seq<u8>)>, DeviceError>(
                    None,
                ),
                Err(error) => old(self)@.output() == Err::<Option<(Chain, Seq<u8>)>, DeviceError>(
                    error,
                ),
            },
    {
        let popped = self.queues.pop(QUEUE_TRANSMIT)?;
        match popped {
            None => Ok(None),
            Some(chain) => {
                let bytes = read_chain(&self.queues.resources.dma, &chain)?;
                Ok(Some(ConsoleOutput { chain, bytes }))
            },
        }
    }

    /// Hands a transmit chain back, once the backend has taken its bytes.
    pub fn finish_transmit(&mut self, chain: &DescriptorChain) -> (result: Result<
        Interrupt,
        DeviceError,
    >)
        requires
            old(self).wf(),
        ensures
            final(self).wf(),
            final(self)@ == (Console {
                queues: old(self)@.queues.after_complete(1, chain.head, 0),
                ..old(self)@
            }),
            result == match old(self)@.queues.complete_result(1, chain.head, 0) {
                Ok(()) => Ok::<Interrupt, DeviceError>(interrupt::spec_queue_interrupt(1)),
                Err(error) => Err::<Interrupt, DeviceError>(error),
            },
            old(self)@.queues.cursors[1].inflight && !old(self)@.queues.memory.revoked ==> {
                &&& result == Ok::<Interrupt, DeviceError>(
                    Interrupt::Queue { queue_index: 1, vector: 1 },
                )
                &&& driver::is_returned(old(self)@.queues, 1, final(self)@.queues, chain.head, 0)
            },
    {
        proof {
            driver::lemma_returned(self@.queues, 1, chain.head, 0);
        }
        self.queues.complete(QUEUE_TRANSMIT, chain, 0)?;
        Ok(queue_interrupt(1))
    }

    /// Takes the next receive chain, if the backend has input.
    pub fn begin_receive(&mut self, has_input: bool) -> (result: Result<
        Option<ConsoleInput>,
        DeviceError,
    >)
        requires
            old(self).wf(),
        ensures
            final(self).wf(),
            !has_input ==> result == Ok::<Option<ConsoleInput>, DeviceError>(None) && final(self)@
                == old(self)@,
            has_input ==> {
                &&& final(self)@ == (Console { queues: old(self)@.queues.after_pop(0), ..old(self)@ })
                &&& match result {
                    Ok(Some(input)) => old(self)@.input() == Ok::<
                        Option<(Chain, nat)>,
                        DeviceError,
                    >(Some((input.chain@, input.capacity as nat))),
                    Ok(None) => old(self)@.input() == Ok::<Option<(Chain, nat)>, DeviceError>(None),
                    Err(error) => old(self)@.input() == Err::<Option<(Chain, nat)>, DeviceError>(
                        error,
                    ),
                }
            },
    {
        if !has_input {
            return Ok(None);
        }
        let popped = self.queues.pop(QUEUE_RECEIVE)?;
        match popped {
            None => Ok(None),
            Some(chain) => {
                let capacity = writable_capacity(&chain)?;
                Ok(Some(ConsoleInput { chain, capacity }))
            },
        }
    }

    /// Hands the input that the backend gave to the guest.
    pub fn finish_receive(&mut self, chain: &DescriptorChain, input: Option<Vec<u8>>) -> (result: Result<
        Interrupt,
        DeviceError,
    >)
        requires
            old(self).wf(),
        ensures
            final(self).wf(),
            match input {
                None => {
                    &&& result == Err::<Interrupt, DeviceError>(
                        DeviceError::Down(DeviceDownReason::Stop),
                    )
                    &&& final(self)@ == old(self)@
                },
                Some(bytes) => {
                    &&& result == old(self)@.deliver(chain@, bytes@).0
                    &&& final(self)@ == (Console {
                        queues: old(self)@.deliver(chain@, bytes@).1,
                        ..old(self)@
                    })
                },
            },
    {
        let bytes = match input {
            Some(bytes) => bytes,
            None => {
                return Err(DeviceError::Down(DeviceDownReason::Stop));
            },
        };
        self.write_chain(chain, bytes.as_slice())?;
        if bytes.len() as u64 > u32::MAX as u64 {
            return Err(DeviceError::Descriptor("console input too large"));
        }
        self.queues.complete(QUEUE_RECEIVE, chain, bytes.len() as u32)?;
        Ok(queue_interrupt(0))
    }

    /// Stores `data` in a receive chain.
    fn write_chain(&mut self, chain: &DescriptorChain, data: &[u8]) -> (result: Result<
        (),
        DeviceError,
    >)
        requires
            old(self).wf(),
        ensures
            final(self).wf(),
            result == received(old(self)@.queues.memory, chain.descriptors@, data@).result,
            final(self)@ == (Console {
                queues: old(self)@.queues.with_memory(
                    received(old(self)@.queues.memory, chain.descriptors@, data@).memory,
                ),
                ..old(self)@
            }),
    {
        let capacity = writable_capacity(chain)?;
        if data.len() > capacity {
            return Err(DeviceError::Descriptor("console receive chain is too short"));
        }
        self.queues.store(chain::ranges(chain).as_slice(), data)
    }
}

/// A chain for writing takes as much as its buffers hold together, if that can be counted;
/// a chain with a buffer that is not for writing is refused.
proof fn lemma_receivable(descriptors: Seq<Descriptor>, counted: nat)
    ensures
        !chain::some_readable(descriptors) && counted + chain::total(
            chain::ranges_of(descriptors),
        ) <= usize::MAX ==> receivable(descriptors, counted) == Ok::<nat, DeviceError>(
            counted + chain::total(chain::ranges_of(descriptors)),
        ),
        chain::some_readable(descriptors) || counted + chain::total(chain::ranges_of(descriptors))
            > usize::MAX ==> receivable(descriptors, counted) is Err || counted > usize::MAX,
    decreases descriptors.len(),
{
    if descriptors.len() > 0 {
        let rest = descriptors.drop_first();
        assert(chain::ranges_of(descriptors).drop_first() =~= chain::ranges_of(rest));
        lemma_receivable(rest, counted + descriptors[0].length as nat);
        if !chain::some_readable(descriptors) {
            assert(descriptors[0].spec_writable());
            assert forall|k: int| 0 <= k < rest.len() implies (#[trigger] rest[k]).spec_writable() by {
                assert(descriptors[k + 1].spec_writable());
            }
        } else if descriptors[0].spec_writable() {
            let k = choose|k: int|
                0 <= k < descriptors.len() && !(#[trigger] descriptors[k]).spec_writable();
            assert(!rest[k - 1].spec_writable());
        }
    }
}

/// What a driver sends reaches the backend: if the next chain of the transmit queue is for
/// reading, the backend gets the bytes of its buffers, in order and in full.
pub proof fn law_output_reaches_backend(device: Console, chain: Chain)
    requires
        device.queues.wf(),
        device.queues.layouts.len() == 2,
        !device.queues.memory.revoked,
        driver::is_offered(device.queues, 1, chain),
        driver::is_for_reading(device.queues.memory, chain.descriptors),
    ensures
        device.output() == Ok::<Option<(Chain, Seq<u8>)>, DeviceError>(
            Some((chain, driver::content(device.queues.memory, chain.descriptors))),
        ),
{
    driver::law_next_chain_is_taken(device.queues, 1, chain);
    driver::lemma_directions(device.queues.memory, chain.descriptors);
}

/// What reaches the backend was sent: the chain is the next one of the transmit queue, no
/// buffer of it is for writing, and the bytes are those of its buffers.
pub proof fn law_backend_gets_what_was_sent(device: Console, chain: Chain, bytes: Seq<u8>)
    requires
        device.queues.wf(),
        device.queues.layouts.len() == 2,
        device.output() == Ok::<Option<(Chain, Seq<u8>)>, DeviceError>(Some((chain, bytes))),
    ensures
        driver::is_offered(device.queues, 1, chain),
        forall|k: int|
            0 <= k < chain.descriptors.len() ==> (#[trigger] chain.descriptors[k]).flags & 2 == 0,
        bytes == driver::content(device.queues.memory, chain.descriptors),
{
    driver::law_only_the_next_chain_is_taken(device.queues, 1, chain);
    driver::lemma_content(device.queues.memory, chain.descriptors);
    assert forall|k: int| 0 <= k < chain.descriptors.len() implies (
    #[trigger] chain.descriptors[k]).flags & 2 == 0 by {
        chain::law_buffers_are_as_described(chain.descriptors, k);
    }
}

/// A chain for input is taken with the room that its buffers have together; one with a buffer
/// that is not for writing is refused.
pub proof fn law_room_for_input_is_counted(device: Console, chain: Chain)
    requires
        device.queues.wf(),
        device.queues.layouts.len() == 2,
        !device.queues.memory.revoked,
        driver::is_offered(device.queues, 0, chain),
        driver::room(chain.descriptors) <= usize::MAX,
    ensures
        (forall|k: int|
            0 <= k < chain.descriptors.len() ==> (#[trigger] chain.descriptors[k]).flags & 2 != 0)
            ==> device.input() == Ok::<Option<(Chain, nat)>, DeviceError>(
            Some((chain, driver::room(chain.descriptors))),
        ),
        forall|k: int|
            0 <= k < chain.descriptors.len() && (#[trigger] chain.descriptors[k]).flags & 2 == 0
                ==> device.input() is Err,
{
    driver::law_next_chain_is_taken(device.queues, 0, chain);
    driver::lemma_content(device.queues.memory, chain.descriptors);
    lemma_receivable(chain.descriptors, 0);
    assert forall|k: int|
        0 <= k < chain.descriptors.len() && (#[trigger] chain.descriptors[k]).flags & 2
            == 0 implies device.input() is Err by {
        chain::law_buffers_are_as_described(chain.descriptors, k);
    }
    if forall|k: int|
        0 <= k < chain.descriptors.len() ==> (#[trigger] chain.descriptors[k]).flags & 2 != 0 {
        assert(!chain::some_readable(chain.descriptors));
    }
}

/// What the guest finds after input was received and the chain handed back: if its buffers
/// are for writing, apart from each other and from the used ring, they hold the input, and
/// the used ring names the chain and the length of the input.
pub proof fn law_input_reaches_guest(device: Console, chain: Chain, input: Seq<u8>)
    requires
        device.queues.wf(),
        device.queues.layouts.len() == 2,
        device.queues.cursors[0].inflight,
        !device.queues.memory.revoked,
        driver::is_for_writing(device.queues.memory, chain.descriptors),
        driver::is_apart(chain.descriptors, device.queues.layouts[0].used),
        input.len() <= driver::room(chain.descriptors) <= usize::MAX,
        input.len() <= u32::MAX,
    ensures
        ({
            let (result, after) = device.deliver(chain, input);
            let found = driver::content(after.memory, chain.descriptors);
            &&& result == Ok::<Interrupt, DeviceError>(
                Interrupt::Queue { queue_index: 0, vector: 0 },
            )
            &&& found.take(input.len() as int) == input
            &&& driver::is_delivered(
                device.queues,
                0,
                chain,
                after,
                input,
                input.len() as int,
            )
        }),
{
    driver::lemma_directions(device.queues.memory, chain.descriptors);
    driver::lemma_content(device.queues.memory, chain.descriptors);
    lemma_receivable(chain.descriptors, 0);
    driver::law_stored_bytes_are_found(
        device.queues,
        0,
        chain,
        input,
        input.len() as u32,
    );
}

/// Input that does not fit its chain is refused, and the guest's memory and the queues stay
/// as they are.
pub proof fn law_long_input_is_refused(device: Console, chain: Chain, input: Seq<u8>)
    requires
        input.len() > driver::room(chain.descriptors),
    ensures
        device.deliver(chain, input).0 is Err,
        device.deliver(chain, input).1 == device.queues,
{
    driver::lemma_content(device.queues.memory, chain.descriptors);
    if let Ok(capacity) = receivable(chain.descriptors, 0) {
        lemma_receivable_is_total(chain.descriptors, 0, capacity);
    }
    assert(device.deliver(chain, input).1 =~= device.queues);
}

/// A console has two queues with a notifier each, and needs version 1 of virtio and nothing
/// else.
pub proof fn law_console_layout<B>(spec: ConsoleSpec<B>)
    ensures
        spec.spec_layout().queue_count == 2,
        spec.spec_layout().notifier_count == 2,
        spec.spec_layout().maximum_queue_size == spec.spec_maximum_queue_size(),
        spec.spec_layout().required_features == 0x1_0000_0000,
        spec.spec_layout().optional_features == 0,
{
}

/// The numbers of virtio-console.
pub proof fn law_console_numbers()
    ensures
        VIRTIO_F_VERSION_1 == 0x1_0000_0000,
        VIRTIO_CONSOLE_F_SIZE == 0x1,
        VIRTIO_CONSOLE_F_MULTIPORT == 0x2,
        VIRTIO_CONSOLE_F_EMERG_WRITE == 0x4,
{
}

/// No output is given exactly when no chain is taken off the transmit queue, and no room for input
/// exactly when none is taken off the receive queue: a chain that is taken is given or refused, and
/// what a queue fails with, the console fails with.
pub proof fn law_no_chain_is_passed_over(device: Console)
    ensures
        device.output() == Ok::<Option<(Chain, Seq<u8>)>, DeviceError>(None)
            <==> device.queues.pop_result(1) == Ok::<Option<Chain>, DeviceError>(None),
        device.input() == Ok::<Option<(Chain, nat)>, DeviceError>(None)
            <==> device.queues.pop_result(0) == Ok::<Option<Chain>, DeviceError>(None),
        device.queues.pop_result(1) matches Err(error) ==> device.output() == Err::<
            Option<(Chain, Seq<u8>)>,
            DeviceError,
        >(error),
        device.queues.pop_result(0) matches Err(error) ==> device.input() == Err::<
            Option<(Chain, nat)>,
            DeviceError,
        >(error),
{
}

} // verus!
