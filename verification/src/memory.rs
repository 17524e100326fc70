//! virtio-mem: guest memory that is plugged and unplugged in blocks.

use vstd::prelude::*;

use crate::bytes;
use crate::bytes::{get_u16, get_u64, put_u16, put_u64, put_zeros, to_array};
use crate::chain;
use crate::chain::Spread;
use crate::device;
use crate::device::{DeviceLayout, DeviceResources, QueueSet, Queues, WakeStep};
use crate::dma::{DmaMemory, DmaRange};
use crate::driver;
use crate::error::{DeviceDownReason, DeviceError};
use crate::guest::GuestMemory;
use crate::interrupt;
use crate::interrupt::{queue_interrupt, Interrupt};
use crate::num::is_power_of_two;
use crate::queue::{Chain, Descriptor, DescriptorChain};

verus! {

pub const VIRTIO_F_VERSION_1: u64 = 0x1_0000_0000;

pub const VIRTIO_MEM_F_ACPI_PXM: u64 = 0x1;

pub const VIRTIO_MEM_F_UNPLUGGED_INACCESSIBLE: u64 = 0x2;

pub const VIRTIO_MEM_REQ_PLUG: u16 = 0;

pub const VIRTIO_MEM_REQ_UNPLUG: u16 = 1;

pub const VIRTIO_MEM_REQ_UNPLUG_ALL: u16 = 2;

pub const VIRTIO_MEM_REQ_STATE: u16 = 3;

pub const VIRTIO_MEM_RESP_ACK: u16 = 0;

pub const VIRTIO_MEM_RESP_NACK: u16 = 1;

pub const VIRTIO_MEM_RESP_BUSY: u16 = 2;

pub const VIRTIO_MEM_RESP_ERROR: u16 = 3;

pub const VIRTIO_MEM_STATE_PLUGGED: u16 = 0;

pub const VIRTIO_MEM_STATE_UNPLUGGED: u16 = 1;

pub const VIRTIO_MEM_STATE_MIXED: u16 = 2;

const REQUEST_QUEUE: usize = 0;

/// The bytes of the configuration space.
pub const CONFIG_SIZE: usize = 56;

/// The bytes of a request.
pub const REQUEST_SIZE: usize = 24;

/// The bytes of a response.
pub const RESPONSE_SIZE: usize = 10;

/// The region that a device manages, and how much of it is plugged.
#[derive(Clone, Copy, Debug, PartialEq, Eq, Structural)]
pub struct MemoryConfig {
    pub block_size: u64,
    pub node_id: u16,
    pub addr: u64,
    pub region_size: u64,
    pub usable_region_size: u64,
    pub plugged_size: u64,
    pub requested_size: u64,
}

impl MemoryConfig {
    /// The region and its parts consist of whole blocks.
    pub open spec fn aligned(self) -> bool {
        &&& self.addr as int % self.block_size as int == 0
        &&& self.region_size as int % self.block_size as int == 0
        &&& self.usable_region_size as int % self.block_size as int == 0
        &&& self.plugged_size as int % self.block_size as int == 0
        &&& self.requested_size as int % self.block_size as int == 0
    }

    /// What is plugged and what is requested lies in the usable part of the region.
    pub open spec fn nested(self) -> bool {
        &&& self.usable_region_size <= self.region_size
        &&& self.plugged_size <= self.usable_region_size
        &&& self.requested_size <= self.usable_region_size
    }

    /// What is wrong with the configuration, if anything.
    pub open spec fn flaw(self) -> Option<DeviceError> {
        if !vstd::arithmetic::power2::is_pow2(self.block_size as int) {
            Some(DeviceError::InvalidLayout("virtio-mem block size is not a power of two"))
        } else if !self.aligned() {
            Some(DeviceError::InvalidLayout("virtio-mem value is not block aligned"))
        } else if !self.nested() {
            Some(DeviceError::InvalidLayout("invalid virtio-mem region sizes"))
        } else {
            None
        }
    }

    pub fn validate(self) -> (result: Result<Self, DeviceError>)
        ensures
            result == match self.flaw() {
                None => Ok::<Self, DeviceError>(self),
                Some(error) => Err::<Self, DeviceError>(error),
            },
    {
        proof {
            reveal(vstd::arithmetic::power2::is_pow2);
        }
        if self.block_size == 0 || !is_power_of_two(self.block_size) {
            return Err(DeviceError::InvalidLayout("virtio-mem block size is not a power of two"));
        }
        if self.addr % self.block_size != 0 || self.region_size % self.block_size != 0
            || self.usable_region_size % self.block_size != 0 || self.plugged_size
            % self.block_size != 0 || self.requested_size % self.block_size != 0 {
            return Err(DeviceError::InvalidLayout("virtio-mem value is not block aligned"));
        }
        if self.usable_region_size > self.region_size || self.plugged_size
            > self.usable_region_size || self.requested_size > self.usable_region_size {
            return Err(DeviceError::InvalidLayout("invalid virtio-mem region sizes"));
        }
        Ok(self)
    }

    /// The configuration space.
    pub open spec fn spec_bytes(self) -> Seq<u8> {
        bytes::le_bytes(self.block_size as nat, 8) + bytes::le_bytes(self.node_id as nat, 2)
            + bytes::zeros(6) + bytes::le_bytes(self.addr as nat, 8) + bytes::le_bytes(
            self.region_size as nat,
            8,
        ) + bytes::le_bytes(self.usable_region_size as nat, 8) + bytes::le_bytes(
            self.plugged_size as nat,
            8,
        ) + bytes::le_bytes(self.requested_size as nat, 8)
    }

    pub fn encode(self) -> (bytes: [u8; 56])
        ensures
            bytes@ == self.spec_bytes(),
    {
        let mut out: Vec<u8> = Vec::with_capacity(CONFIG_SIZE);
        put_u64(&mut out, self.block_size);
        assert(out@ =~= bytes::le_bytes(self.block_size as nat, 8));
        put_u16(&mut out, self.node_id);
        put_zeros(&mut out, 6);
        put_u64(&mut out, self.addr);
        put_u64(&mut out, self.region_size);
        put_u64(&mut out, self.usable_region_size);
        put_u64(&mut out, self.plugged_size);
        put_u64(&mut out, self.requested_size);
        proof {
            lemma_config_len(self);
        }
        to_array::<56>(out.as_slice())
    }
}

proof fn lemma_config_len(config: MemoryConfig)
    ensures
        config.spec_bytes().len() == CONFIG_SIZE,
{
    bytes::lemma_le_bytes_len(config.block_size as nat, 8);
    bytes::lemma_le_bytes_len(config.node_id as nat, 2);
    bytes::lemma_le_bytes_len(config.addr as nat, 8);
    bytes::lemma_le_bytes_len(config.region_size as nat, 8);
    bytes::lemma_le_bytes_len(config.usable_region_size as nat, 8);
    bytes::lemma_le_bytes_len(config.plugged_size as nat, 8);
    bytes::lemma_le_bytes_len(config.requested_size as nat, 8);
}

/// A driver reads each field of the configuration back from its place in the
/// configuration space.
pub proof fn law_config_is_read_back(config: MemoryConfig)
    ensures
        config.spec_bytes().len() == CONFIG_SIZE,
        bytes::le_field(config.spec_bytes(), 0, 8) == config.block_size,
        bytes::le_field(config.spec_bytes(), 8, 2) == config.node_id,
        bytes::le_field(config.spec_bytes(), 16, 8) == config.addr,
        bytes::le_field(config.spec_bytes(), 24, 8) == config.region_size,
        bytes::le_field(config.spec_bytes(), 32, 8) == config.usable_region_size,
        bytes::le_field(config.spec_bytes(), 40, 8) == config.plugged_size,
        bytes::le_field(config.spec_bytes(), 48, 8) == config.requested_size,
        forall|k: int| 10 <= k < 16 ==> #[trigger] config.spec_bytes()[k] == 0,
{
    let b = config.spec_bytes();
    lemma_config_len(config);
    bytes::lemma_limits();
    bytes::lemma_value_of_bytes(config.block_size as nat, 8);
    bytes::lemma_value_of_bytes(config.node_id as nat, 2);
    bytes::lemma_value_of_bytes(config.addr as nat, 8);
    bytes::lemma_value_of_bytes(config.region_size as nat, 8);
    bytes::lemma_value_of_bytes(config.usable_region_size as nat, 8);
    bytes::lemma_value_of_bytes(config.plugged_size as nat, 8);
    bytes::lemma_value_of_bytes(config.requested_size as nat, 8);
    assert(b.subrange(0, 8) =~= bytes::le_bytes(config.block_size as nat, 8));
    assert(b.subrange(8, 10) =~= bytes::le_bytes(config.node_id as nat, 2));
    assert(b.subrange(16, 24) =~= bytes::le_bytes(config.addr as nat, 8));
    assert(b.subrange(24, 32) =~= bytes::le_bytes(config.region_size as nat, 8));
    assert(b.subrange(32, 40) =~= bytes::le_bytes(config.usable_region_size as nat, 8));
    assert(b.subrange(40, 48) =~= bytes::le_bytes(config.plugged_size as nat, 8));
    assert(b.subrange(48, 56) =~= bytes::le_bytes(config.requested_size as nat, 8));
}

/// The sending side of a watch channel of tokio.
#[verifier::external_type_specification]
#[verifier::external_body]
#[verifier::reject_recursive_types(T)]
pub struct ExWatchSender<T>(tokio::sync::watch::Sender<T>);

/// The receiving side of a watch channel of tokio.
#[verifier::external_type_specification]
#[verifier::external_body]
#[verifier::reject_recursive_types(T)]
pub struct ExWatchReceiver<T>(tokio::sync::watch::Receiver<T>);

/// The number that the channel of `sender` holds, which is what its receivers read.
/// Each sender in this module is the only one of its channel: it is made by
/// `open_channel()`, kept in a private field and never cloned, and receivers cannot
/// send.
pub uninterp spec fn held(sender: tokio::sync::watch::Sender<u64>) -> u64;

/// Whether `receiver` hears what `sender` sends: both are handles of one channel, and
/// stay so for as long as they live.
pub uninterp spec fn is_connected(
    sender: tokio::sync::watch::Sender<u64>,
    receiver: tokio::sync::watch::Receiver<u64>,
) -> bool;

/// Calls `tokio::sync::watch::channel` and keeps the sending side: the channel holds the
/// number that it was opened with.
#[verifier::external_body]
fn open_channel(initial: u64) -> (sender: tokio::sync::watch::Sender<u64>)
    ensures
        held(sender) == initial,
{
    tokio::sync::watch::channel(initial).0
}

/// Calls `tokio::sync::watch::Sender::borrow`, which gives the number that the channel
/// holds.
#[verifier::external_body]
fn latest_generation(sender: &tokio::sync::watch::Sender<u64>) -> (generation: u64)
    ensures
        generation == held(*sender),
{
    *sender.borrow()
}

/// Calls `tokio::sync::watch::Sender::send`: the channel then holds the number, or, if
/// nobody was subscribed at that moment, what it held before.  A receiver of the channel
/// that is borrowed for the call is subscribed throughout, so that with such a `listener`
/// the channel then holds the number.  Nobody's subscription changes.
#[verifier::external_body]
fn publish_generation(
    sender: &mut tokio::sync::watch::Sender<u64>,
    listener: Option<&tokio::sync::watch::Receiver<u64>>,
    generation: u64,
)
    ensures
        (listener is Some && is_connected(*old(sender), *listener->0)) ==> held(*final(sender))
            == generation,
        held(*final(sender)) == generation || held(*final(sender)) == held(*old(sender)),
        forall|receiver: tokio::sync::watch::Receiver<u64>|
            #[trigger] is_connected(*final(sender), receiver) == is_connected(
                *old(sender),
                receiver,
            ),
{
    let _ = (sender.send(generation), listener);
}

/// Calls `tokio::sync::watch::Sender::subscribe`: the receiver is a handle of the
/// sender's own channel.  When it reads which number is left unsaid: that is up to the
/// task that holds it.
#[verifier::external_body]
fn open_receiver(sender: &tokio::sync::watch::Sender<u64>) -> (receiver: tokio::sync::watch::Receiver<
    u64,
>)
    ensures
        is_connected(*sender, receiver),
{
    sender.subscribe()
}

/// The generation behind `generation`; the last one is followed by zero.
pub open spec fn spec_next_generation(generation: u64) -> u64 {
    if generation == u64::MAX {
        0
    } else {
        (generation + 1) as u64
    }
}

/// The generation behind `generation`.
pub fn next_generation(generation: u64) -> (next: u64)
    ensures
        next == spec_next_generation(generation),
{
    generation.wrapping_add(1)
}

/// A configuration without a flaw.
struct ValidConfig {
    config: MemoryConfig,
}

impl ValidConfig {
    #[verifier::type_invariant]
    spec fn valid(self) -> bool {
        self.config.flaw() is None
    }
}

/// The configuration of a device, and a channel that announces its changes.
pub struct MemoryConfigState {
    current: ValidConfig,
    updates: tokio::sync::watch::Sender<u64>,
}

impl MemoryConfigState {
    /// The configuration.
    pub closed spec fn spec_config(self) -> MemoryConfig {
        self.current.config
    }

    /// The channel that announces changes.
    pub closed spec fn spec_updates(self) -> tokio::sync::watch::Sender<u64> {
        self.updates
    }

    pub fn new(config: MemoryConfig) -> (result: Result<Self, DeviceError>)
        ensures
            result is Ok <==> config.flaw() is None,
            match result {
                Ok(state) => {
                    &&& config.flaw() is None
                    &&& state.spec_config() == config
                    &&& held(state.spec_updates()) == 0
                },
                Err(error) => config.flaw() == Some(error),
            },
    {
        config.validate()?;
        Ok(MemoryConfigState { current: ValidConfig { config }, updates: open_channel(0) })
    }

    /// The configuration, which is valid in every state.
    pub fn snapshot(&self) -> (config: MemoryConfig)
        ensures
            config == self.spec_config(),
            config.flaw() is None,
    {
        proof {
            use_type_invariant(&self.current);
        }
        self.current.config
    }

    /// Replaces a configuration by another valid one, and announces the next generation
    /// to those who are subscribed; they stay subscribed.  The generation stays if nobody
    /// is.  A refused configuration is not announced.
    pub fn update(&mut self, config: MemoryConfig) -> (result: Result<(), DeviceError>)
        ensures
            forall|receiver: tokio::sync::watch::Receiver<u64>|
                #[trigger] is_connected(final(self).spec_updates(), receiver) == is_connected(
                    old(self).spec_updates(),
                    receiver,
                ),
            match config.flaw() {
                None => {
                    &&& result == Ok::<(), DeviceError>(())
                    &&& final(self).spec_config() == config
                    &&& held(final(self).spec_updates()) == spec_next_generation(
                        held(old(self).spec_updates()),
                    ) || held(final(self).spec_updates()) == held(old(self).spec_updates())
                },
                Some(error) => {
                    &&& result == Err::<(), DeviceError>(error)
                    &&& *final(self) == *old(self)
                },
            },
    {
        self.replace(config, None)
    }

    /// Does what `update()` does while `receiver` is subscribed: the generation then
    /// advances, and the receiver can read it.
    pub fn update_heard(
        &mut self,
        config: MemoryConfig,
        receiver: &tokio::sync::watch::Receiver<u64>,
    ) -> (result: Result<(), DeviceError>)
        requires
            is_connected(old(self).spec_updates(), *receiver),
        ensures
            forall|other: tokio::sync::watch::Receiver<u64>|
                #[trigger] is_connected(final(self).spec_updates(), other) == is_connected(
                    old(self).spec_updates(),
                    other,
                ),
            match config.flaw() {
                None => {
                    &&& result == Ok::<(), DeviceError>(())
                    &&& final(self).spec_config() == config
                    &&& held(final(self).spec_updates()) == spec_next_generation(
                        held(old(self).spec_updates()),
                    )
                },
                Some(error) => {
                    &&& result == Err::<(), DeviceError>(error)
                    &&& *final(self) == *old(self)
                },
            },
    {
        self.replace(config, Some(receiver))
    }

    /// Replaces a configuration by another valid one, and announces the next generation:
    /// it advances if `listener` is subscribed, and else advances or stays.
    fn replace(
        &mut self,
        config: MemoryConfig,
        listener: Option<&tokio::sync::watch::Receiver<u64>>,
    ) -> (result: Result<(), DeviceError>)
        ensures
            forall|receiver: tokio::sync::watch::Receiver<u64>|
                #[trigger] is_connected(final(self).spec_updates(), receiver) == is_connected(
                    old(self).spec_updates(),
                    receiver,
                ),
            match config.flaw() {
                None => {
                    &&& result == Ok::<(), DeviceError>(())
                    &&& final(self).spec_config() == config
                    &&& held(final(self).spec_updates()) == spec_next_generation(
                        held(old(self).spec_updates()),
                    ) || held(final(self).spec_updates()) == held(old(self).spec_updates())
                    &&& (listener is Some && is_connected(
                        old(self).spec_updates(),
                        *listener->0,
                    )) ==> held(final(self).spec_updates()) == spec_next_generation(
                        held(old(self).spec_updates()),
                    )
                },
                Some(error) => {
                    &&& result == Err::<(), DeviceError>(error)
                    &&& *final(self) == *old(self)
                },
            },
    {
        config.validate()?;
        self.current = ValidConfig { config };
        let generation: u64 = next_generation(latest_generation(&self.updates));
        publish_generation(&mut self.updates, listener, generation);
        Ok(())
    }

    /// A receiver of the generations that are announced from now on.
    pub fn subscribe(&self) -> (receiver: tokio::sync::watch::Receiver<u64>)
        ensures
            is_connected(self.spec_updates(), receiver),
    {
        open_receiver(&self.updates)
    }
}

/// The configuration space as a transport sees it.
pub struct ConfigView<'a> {
    pub state: &'a MemoryConfigState,
}

impl<'a> ConfigView<'a> {
    pub fn size(&self) -> (size: usize)
        ensures
            size == CONFIG_SIZE,
    {
        CONFIG_SIZE
    }

    /// Fills `bytes` from the configuration space, starting at `offset`.
    pub fn read(&self, offset: usize, bytes: &mut [u8]) -> (result: Result<(), DeviceError>)
        ensures
            final(bytes)@.len() == old(bytes)@.len(),
            if offset + old(bytes)@.len() > usize::MAX {
                &&& result == Err::<(), DeviceError>(
                    DeviceError::InvalidLayout("virtio-mem config offset overflow"),
                )
                &&& final(bytes)@ == old(bytes)@
            } else if offset + old(bytes)@.len() > CONFIG_SIZE {
                &&& result == Err::<(), DeviceError>(
                    DeviceError::InvalidLayout("virtio-mem config read exceeds size"),
                )
                &&& final(bytes)@ == old(bytes)@
            } else {
                &&& result == Ok::<(), DeviceError>(())
                &&& final(bytes)@ == self.state.spec_config().spec_bytes().subrange(
                    offset as int,
                    offset + old(bytes)@.len(),
                )
            },
            result is Ok <==> offset + old(bytes)@.len() <= 56,
            result is Ok ==> forall|k: int|
                0 <= k < old(bytes)@.len() ==> #[trigger] final(bytes)@[k]
                    == self.state.spec_config().spec_bytes()[offset + k],
    {
        let config = self.state.snapshot().encode();
        let end: usize = match offset.checked_add(bytes.len()) {
            Some(end) => end,
            None => {
                return Err(DeviceError::InvalidLayout("virtio-mem config offset overflow"));
            },
        };
        if end > CONFIG_SIZE {
            return Err(DeviceError::InvalidLayout("virtio-mem config read exceeds size"));
        }
        let mut i: usize = 0;
        while i < bytes.len()
            invariant
                i <= bytes@.len(),
                bytes@.len() == old(bytes)@.len(),
                config@ == self.state.spec_config().spec_bytes(),
                end == offset + bytes@.len(),
                end <= CONFIG_SIZE,
                forall|k: int| 0 <= k < i ==> bytes@[k] == config@[offset + k],
            decreases bytes@.len() - i,
        {
            bytes[i] = config[offset + i];
            i = i + 1;
        }
        proof {
            assert(bytes@ =~= config@.subrange(offset as int, end as int));
        }
        Ok(())
    }

    /// A receiver of the generations that are announced from now on.
    pub fn subscribe(&self) -> (receiver: tokio::sync::watch::Receiver<u64>)
        ensures
            is_connected(self.state.spec_updates(), receiver),
    {
        self.state.subscribe()
    }
}

/// What a driver asks for.
#[derive(Clone, Copy, Debug, PartialEq, Eq, Structural)]
pub enum MemoryRequest {
    Plug { addr: u64, blocks: u16 },
    Unplug { addr: u64, blocks: u16 },
    UnplugAll,
    State { addr: u64, blocks: u16 },
}

/// What a driver is answered.
#[derive(Clone, Copy, Debug, PartialEq, Eq, Structural)]
pub enum MemoryResponse {
    Ack,
    Nack,
    Busy,
    Error,
    State(u16),
}

/// The request that `bytes` spell.
pub open spec fn decoded(bytes: Seq<u8>) -> Result<MemoryRequest, DeviceError> {
    let kind = bytes::le_field(bytes, 0, 2);
    let addr = bytes::le_field(bytes, 8, 8) as u64;
    let blocks = bytes::le_field(bytes, 16, 2) as u16;
    if kind == VIRTIO_MEM_REQ_PLUG {
        Ok(MemoryRequest::Plug { addr, blocks })
    } else if kind == VIRTIO_MEM_REQ_UNPLUG {
        Ok(MemoryRequest::Unplug { addr, blocks })
    } else if kind == VIRTIO_MEM_REQ_UNPLUG_ALL {
        Ok(MemoryRequest::UnplugAll)
    } else if kind == VIRTIO_MEM_REQ_STATE {
        Ok(MemoryRequest::State { addr, blocks })
    } else {
        Err(DeviceError::Descriptor("unknown virtio-mem request"))
    }
}

/// The request in a chain.
pub open spec fn requested(mem: GuestMemory, descriptors: Seq<Descriptor>) -> Result<
    MemoryRequest,
    DeviceError,
> {
    let request = descriptors[0];
    let response = descriptors[1];
    let range = DmaRange { gpa: request.address, length: REQUEST_SIZE };
    if descriptors.len() != 2 {
        Err(DeviceError::Descriptor("virtio-mem request must have two descriptors"))
    } else if request.spec_writable() || request.length != REQUEST_SIZE {
        Err(DeviceError::Descriptor("invalid virtio-mem request descriptor"))
    } else if !response.spec_writable() || response.length != RESPONSE_SIZE {
        Err(DeviceError::Descriptor("invalid virtio-mem response descriptor"))
    } else if mem.fault(range) is Some {
        Err(mem.fault(range)->0)
    } else {
        decoded(mem.peek(request.address as int, REQUEST_SIZE as int))
    }
}

/// Reads the request in a chain.
pub fn parse_request(memory: &DmaMemory, chain: &DescriptorChain) -> (result: Result<
    MemoryRequest,
    DeviceError,
>)
    requires
        memory@.wf(),
    ensures
        result == requested(memory@, chain.descriptors@),
{
    if chain.descriptors.len() != 2 {
        return Err(DeviceError::Descriptor("virtio-mem request must have two descriptors"));
    }
    let request = chain.descriptors[0];
    let response = chain.descriptors[1];
    if request.writable() || request.length != REQUEST_SIZE as u32 {
        return Err(DeviceError::Descriptor("invalid virtio-mem request descriptor"));
    }
    if !response.writable() || response.length != RESPONSE_SIZE as u32 {
        return Err(DeviceError::Descriptor("invalid virtio-mem response descriptor"));
    }
    let bytes = memory.read(DmaRange { gpa: request.address, length: REQUEST_SIZE })?;
    let kind: u16 = get_u16(bytes.as_slice(), 0);
    let addr: u64 = get_u64(bytes.as_slice(), 8);
    let blocks: u16 = get_u16(bytes.as_slice(), 16);
    if kind == VIRTIO_MEM_REQ_PLUG {
        Ok(MemoryRequest::Plug { addr, blocks })
    } else if kind == VIRTIO_MEM_REQ_UNPLUG {
        Ok(MemoryRequest::Unplug { addr, blocks })
    } else if kind == VIRTIO_MEM_REQ_UNPLUG_ALL {
        Ok(MemoryRequest::UnplugAll)
    } else if kind == VIRTIO_MEM_REQ_STATE {
        Ok(MemoryRequest::State { addr, blocks })
    } else {
        Err(DeviceError::Descriptor("unknown virtio-mem request"))
    }
}

/// The number that stands for a response.
pub open spec fn spec_response_type(response: MemoryResponse) -> u16 {
    match response {
        MemoryResponse::Ack => VIRTIO_MEM_RESP_ACK,
        MemoryResponse::Nack => VIRTIO_MEM_RESP_NACK,
        MemoryResponse::Busy => VIRTIO_MEM_RESP_BUSY,
        MemoryResponse::Error => VIRTIO_MEM_RESP_ERROR,
        MemoryResponse::State(_) => VIRTIO_MEM_RESP_ACK,
    }
}

/// The state that a response reports, or zero.
pub open spec fn spec_response_state(response: MemoryResponse) -> u16 {
    match response {
        MemoryResponse::State(state) => state,
        _ => 0,
    }
}

/// The bytes of a response.
pub open spec fn spec_response_bytes(response: MemoryResponse) -> Seq<u8> {
    bytes::le_bytes(spec_response_type(response) as nat, 2) + bytes::zeros(6) + bytes::le_bytes(
        spec_response_state(response) as nat,
        2,
    )
}

/// The bytes of a response.
pub fn response_bytes(response: MemoryResponse) -> (out: Vec<u8>)
    ensures
        out@ == spec_response_bytes(response),
        out@.len() == RESPONSE_SIZE,
{
    let response_type: u16 = match response {
        MemoryResponse::Ack => VIRTIO_MEM_RESP_ACK,
        MemoryResponse::Nack => VIRTIO_MEM_RESP_NACK,
        MemoryResponse::Busy => VIRTIO_MEM_RESP_BUSY,
        MemoryResponse::Error => VIRTIO_MEM_RESP_ERROR,
        MemoryResponse::State(_) => VIRTIO_MEM_RESP_ACK,
    };
    let state: u16 = match response {
        MemoryResponse::State(state) => state,
        _ => 0,
    };
    let mut out: Vec<u8> = Vec::with_capacity(RESPONSE_SIZE);
    put_u16(&mut out, response_type);
    assert(out@ =~= bytes::le_bytes(response_type as nat, 2));
    put_zeros(&mut out, 6);
    put_u16(&mut out, state);
    proof {
        bytes::lemma_le_bytes_len(response_type as nat, 2);
        bytes::lemma_le_bytes_len(state as nat, 2);
    }
    out
}

/// A driver reads the response and the state it reports back from their places.
pub proof fn law_response_is_read_back(response: MemoryResponse)
    ensures
        spec_response_bytes(response).len() == RESPONSE_SIZE,
        bytes::le_field(spec_response_bytes(response), 0, 2) == spec_response_type(response),
        bytes::le_field(spec_response_bytes(response), 8, 2) == spec_response_state(response),
{
    let b = spec_response_bytes(response);
    bytes::lemma_limits();
    bytes::lemma_value_of_bytes(spec_response_type(response) as nat, 2);
    bytes::lemma_value_of_bytes(spec_response_state(response) as nat, 2);
    assert(b.subrange(0, 2) =~= bytes::le_bytes(spec_response_type(response) as nat, 2));
    assert(b.subrange(8, 10) =~= bytes::le_bytes(spec_response_state(response) as nat, 2));
}

/// What writing a response into its buffer gives.
pub open spec fn responded(
    mem: GuestMemory,
    descriptors: Seq<Descriptor>,
    response: MemoryResponse,
) -> Spread {
    chain::scattered(
        mem,
        seq![DmaRange { gpa: descriptors[1].address, length: RESPONSE_SIZE }],
        spec_response_bytes(response),
    )
}

/// A memory device to be activated, with the backend that serves it.
#[derive(Debug)]
pub struct MemorySpec<B> {
    maximum_queue_size: u16,
    backend: B,
    optional_features: u64,
}

impl<B> MemorySpec<B> {
    /// The largest queue the device takes.
    pub closed spec fn spec_maximum_queue_size(self) -> u16 {
        self.maximum_queue_size
    }

    /// The backend that serves the device.
    pub closed spec fn spec_backend(self) -> B {
        self.backend
    }

    /// The features that a driver may choose.
    pub closed spec fn spec_optional_features(self) -> u64 {
        self.optional_features
    }

    pub fn new(maximum_queue_size: u16, backend: B) -> (result: Result<Self, DeviceError>)
        ensures
            result is Ok <==> vstd::arithmetic::power2::is_pow2(maximum_queue_size as int),
            match result {
                Ok(spec) => {
                    &&& vstd::arithmetic::power2::is_pow2(maximum_queue_size as int)
                    &&& spec.spec_maximum_queue_size() == maximum_queue_size
                    &&& spec.spec_backend() == backend
                    &&& spec.spec_optional_features() == VIRTIO_MEM_F_UNPLUGGED_INACCESSIBLE
                },
                Err(error) => {
                    &&& !vstd::arithmetic::power2::is_pow2(maximum_queue_size as int)
                    &&& error == DeviceError::InvalidLayout("invalid virtio-mem queue size")
                },
            },
    {
        if !is_power_of_two(maximum_queue_size as u64) {
            return Err(DeviceError::InvalidLayout("invalid virtio-mem queue size"));
        }
        Ok(
            MemorySpec {
                maximum_queue_size,
                backend,
                optional_features: VIRTIO_MEM_F_UNPLUGGED_INACCESSIBLE,
            },
        )
    }

    /// Offers the driver to learn the node of the region.
    pub fn with_acpi_pxm(self) -> (spec: Self)
        ensures
            spec.spec_optional_features() & 1 == 1,
            spec.spec_optional_features() & 2 == self.spec_optional_features() & 2,
            spec.spec_maximum_queue_size() == self.spec_maximum_queue_size(),
            spec.spec_backend() == self.spec_backend(),
            spec.spec_optional_features() == self.spec_optional_features() | VIRTIO_MEM_F_ACPI_PXM,
    {
        let features: u64 = self.optional_features;
        assert((features | 1) & 1 == 1) by (bit_vector);
        assert((features | 1) & 2 == features & 2) by (bit_vector);
        MemorySpec {
            maximum_queue_size: self.maximum_queue_size,
            backend: self.backend,
            optional_features: self.optional_features | VIRTIO_MEM_F_ACPI_PXM,
        }
    }

    /// The backend that serves the device.
    pub fn backend(&self) -> (backend: &B)
        ensures
            *backend == self.spec_backend(),
    {
        &self.backend
    }

    /// What the device needs: a queue, and a notifier for it and for the configuration.
    pub open spec fn spec_layout(self) -> DeviceLayout {
        DeviceLayout {
            queue_count: 1,
            maximum_queue_size: self.spec_maximum_queue_size(),
            notifier_count: 2,
            required_features: VIRTIO_F_VERSION_1,
            optional_features: self.spec_optional_features(),
        }
    }

    pub fn layout(&self) -> (layout: DeviceLayout)
        ensures
            layout == self.spec_layout(),
    {
        DeviceLayout {
            queue_count: 1,
            maximum_queue_size: self.maximum_queue_size,
            notifier_count: 2,
            required_features: VIRTIO_F_VERSION_1,
            optional_features: self.optional_features,
        }
    }

    /// Activates the device with the configuration that its backend keeps.
    pub fn activate<'a>(&self, resources: DeviceResources<'a>, state: &MemoryConfigState) -> (result: Result<
        MemoryDevice<'a>,
        DeviceError,
    >)
        requires
            resources.dma@.wf(),
        ensures
            result is Ok <==> resources.flaw(self.spec_layout()) is None,
            match result {
                Ok(device) => {
                    &&& resources.flaw(self.spec_layout()) is None
                    &&& device.wf()
                    &&& device@ == (Memory { queues: device::fresh_queues(resources), down: false })
                },
                Err(error) => resources.flaw(self.spec_layout()) == Some(error),
            },
    {
        let queues = QueueSet::activate(resources, &self.layout())?;
        state.snapshot().validate()?;
        Ok(MemoryDevice { queues, down: false })
    }
}

/// A memory device at work.
#[verifier::ext_equal]
pub struct Memory {
    pub queues: Queues,
    pub down: bool,
}

/// A request on its way to the backend, with the chain it came in.
#[derive(Debug)]
pub struct MemoryWork {
    pub chain: DescriptorChain,
    pub request: MemoryRequest,
}

impl Memory {
    /// What taking the next request gives.
    pub open spec fn request(self) -> Result<Option<(Chain, MemoryRequest)>, DeviceError> {
        match self.queues.pop_result(0) {
            Err(error) => Err(error),
            Ok(None) => Ok(None),
            Ok(Some(chain)) => match requested(self.queues.memory, chain.descriptors) {
                Err(error) => Err(error),
                Ok(request) => Ok(Some((chain, request))),
            },
        }
    }

    /// What answering the request in `chain` gives.
    pub open spec fn respond(self, chain: Chain, response: MemoryResponse) -> (
        Result<Interrupt, DeviceError>,
        Queues,
    ) {
        let spread = responded(self.queues.memory, chain.descriptors, response);
        let stored = self.queues.with_memory(spread.memory);
        if spread.result is Err {
            (Err(spread.result->Err_0), stored)
        } else {
            (
                match stored.complete_result(0, chain.head, 10) {
                    Ok(()) => Ok(interrupt::spec_queue_interrupt(0)),
                    Err(error) => Err(error),
                },
                stored.after_complete(0, chain.head, 10),
            )
        }
    }
}

/// An active memory device.
#[derive(Debug)]
pub struct MemoryDevice<'a> {
    queues: QueueSet<'a>,
    down: bool,
}

impl<'a> View for MemoryDevice<'a> {
    type V = Memory;

    closed spec fn view(&self) -> Memory {
        Memory { queues: self.queues@, down: self.down }
    }
}

impl<'a> MemoryDevice<'a> {
    /// The device has its queue.
    pub open spec fn wf(self) -> bool {
        self@.queues.wf() && self@.queues.layouts.len() == 1
    }

    /// The guest memory that the device works on.
    pub fn memory(&self) -> (memory: &DmaMemory<'a>)
        ensures
            memory@ == self@.queues.memory,
    {
        &self.queues.resources.dma
    }

    /// Takes the device down, whatever the reason.
    pub fn stop(&mut self, reason: DeviceDownReason)
        requires
            old(self).wf(),
        ensures
            final(self).wf(),
            final(self)@ == (Memory { queues: old(self)@.queues.stopped(), down: true }),
            final(self)@.down,
            final(self)@.queues.memory.revoked,
            final(self)@.queues.cursors == old(self)@.queues.cursors,
    {
        self.down = true;
        self.queues.stop();
    }

    /// What to do on a wake-up.
    pub fn on_wake(&self) -> (step: WakeStep)
        ensures
            step == if self@.down {
                WakeStep::Drain
            } else {
                WakeStep::Process
            },
            step is Drain <==> self@.down,
            step is Process <==> !self@.down,
    {
        if self.down {
            WakeStep::Drain
        } else {
            WakeStep::Process
        }
    }

    /// Takes the next request.
    pub fn begin_request(&mut self) -> (result: Result<Option<MemoryWork>, DeviceError>)
        requires
            old(self).wf(),
        ensures
            final(self).wf(),
            final(self)@ == (Memory { queues: old(self)@.queues.after_pop(0), ..old(self)@ }),
            match result {
                Ok(Some(work)) => {
                    &&& work.chain.descriptors@.len() == 2
                    &&& old(self)@.request() == Ok::<
                        Option<(Chain, MemoryRequest)>,
                        DeviceError,
                    >(Some((work.chain@, work.request)))
                },
                Ok(None) => old(self)@.request() == Ok::<
                    Option<(Chain, MemoryRequest)>,
                    DeviceError,
                >(None),
                Err(error) => old(self)@.request() == Err::<
                    Option<(Chain, MemoryRequest)>,
                    DeviceError,
                >(error),
            },
    {
        let popped = self.queues.pop(REQUEST_QUEUE)?;
        match popped {
            None => Ok(None),
            Some(chain) => {
                let request = parse_request(&self.queues.resources.dma, &chain)?;
                Ok(Some(MemoryWork { chain, request }))
            },
        }
    }

    /// Answers a request with what the backend responded, and hands its chain back.
    pub fn finish_request(&mut self, chain: &DescriptorChain, response: MemoryResponse) -> (result: Result<
        Interrupt,
        DeviceError,
    >)
        requires
            old(self).wf(),
            chain.descriptors@.len() >= 2,
        ensures
            final(self).wf(),
            result == old(self)@.respond(chain@, response).0,
            final(self)@ == (Memory {
                queues: old(self)@.respond(chain@, response).1,
                ..old(self)@
            }),
    {
        self.write_response(chain, response)?;
        self.queues.complete(REQUEST_QUEUE, chain, RESPONSE_SIZE as u32)?;
        Ok(queue_interrupt(0))
    }

    /// Writes a response into its buffer.
    fn write_response(&mut self, chain: &DescriptorChain, response: MemoryResponse) -> (result: Result<
        (),
        DeviceError,
    >)
        requires
            old(self).wf(),
            chain.descriptors@.len() >= 2,
        ensures
            final(self).wf(),
            result == responded(old(self)@.queues.memory, chain.descriptors@, response).result,
            final(self)@ == (Memory {
                queues: old(self)@.queues.with_memory(
                    responded(old(self)@.queues.memory, chain.descriptors@, response).memory,
                ),
                ..old(self)@
            }),
    {
        let range = DmaRange { gpa: chain.descriptors[1].address, length: RESPONSE_SIZE };
        let ranges: Vec<DmaRange> = vec![range];
        let data = response_bytes(response);
        proof {
            assert(ranges@ =~= seq![range]);
        }
        self.queues.store(ranges.as_slice(), data.as_slice())
    }
}

/// The bytes by which a driver makes a request: its kind, the address of the first block and the
/// number of blocks, each in its place among zeros.
pub open spec fn request_bytes(kind: u16, addr: u64, blocks: u16) -> Seq<u8> {
    bytes::le_bytes(kind as nat, 2) + bytes::zeros(6) + bytes::le_bytes(addr as nat, 8)
        + bytes::le_bytes(blocks as nat, 2) + bytes::zeros(6)
}

/// What a driver asks for by the bytes of a request is what is read of them, whatever the address
/// and the number of blocks: plugging, unplugging, unplugging all, or the state, by the kinds
/// zero to three, and nothing by any other kind.
pub proof fn law_requests_are_read_back(kind: u16, addr: u64, blocks: u16)
    ensures
        request_bytes(kind, addr, blocks).len() == 24,
        ({
            let read = decoded(request_bytes(kind, addr, blocks));
            &&& kind == 0 ==> read == Ok::<MemoryRequest, DeviceError>(
                MemoryRequest::Plug { addr, blocks },
            )
            &&& kind == 1 ==> read == Ok::<MemoryRequest, DeviceError>(
                MemoryRequest::Unplug { addr, blocks },
            )
            &&& kind == 2 ==> read == Ok::<MemoryRequest, DeviceError>(MemoryRequest::UnplugAll)
            &&& kind == 3 ==> read == Ok::<MemoryRequest, DeviceError>(
                MemoryRequest::State { addr, blocks },
            )
            &&& kind > 3 ==> read == Err::<MemoryRequest, DeviceError>(
                DeviceError::Descriptor("unknown virtio-mem request"),
            )
        }),
{
    let b = request_bytes(kind, addr, blocks);
    bytes::lemma_limits();
    bytes::lemma_value_of_bytes(kind as nat, 2);
    bytes::lemma_value_of_bytes(addr as nat, 8);
    bytes::lemma_value_of_bytes(blocks as nat, 2);
    assert(b.subrange(0, 2) =~= bytes::le_bytes(kind as nat, 2));
    assert(b.subrange(8, 16) =~= bytes::le_bytes(addr as nat, 8));
    assert(b.subrange(16, 18) =~= bytes::le_bytes(blocks as nat, 2));
}

/// What is read of a request depends on its kind, its address and its number of blocks alone,
/// whatever the driver has between them.
pub proof fn law_only_request_fields_count(bytes: Seq<u8>)
    requires
        bytes.len() == 24,
    ensures
        decoded(bytes) == decoded(
            request_bytes(
                bytes::le_field(bytes, 0, 2) as u16,
                bytes::le_field(bytes, 8, 8) as u64,
                bytes::le_field(bytes, 16, 2) as u16,
            ),
        ),
{
    let kind = bytes::le_field(bytes, 0, 2) as u16;
    let addr = bytes::le_field(bytes, 8, 8) as u64;
    let blocks = bytes::le_field(bytes, 16, 2) as u16;
    bytes::lemma_limits();
    bytes::lemma_bytes_of_value(bytes.subrange(0, 2));
    bytes::lemma_bytes_of_value(bytes.subrange(8, 16));
    bytes::lemma_bytes_of_value(bytes.subrange(16, 18));
    law_requests_are_read_back(kind, addr, blocks);
}

/// Whether a driver has laid a request: 24 bytes for reading, and ten for the response.
pub open spec fn is_request(mem: GuestMemory, descriptors: Seq<Descriptor>) -> bool {
    &&& descriptors.len() == 2
    &&& descriptors[0].flags & 2 == 0
    &&& descriptors[0].length == 24
    &&& mem.fault(DmaRange { gpa: descriptors[0].address, length: 24 }) is None
    &&& descriptors[1].flags & 2 != 0
    &&& descriptors[1].length == 10
}

/// What a driver asks for reaches the backend: if the next chain of the queue is laid as a
/// request and holds its bytes, the backend gets that request, and a request of a kind that there
/// is not is refused.
pub proof fn law_request_reaches_backend(
    device: Memory,
    chain: Chain,
    kind: u16,
    addr: u64,
    blocks: u16,
)
    requires
        device.queues.wf(),
        device.queues.layouts.len() == 1,
        !device.queues.memory.revoked,
        driver::is_offered(device.queues, 0, chain),
        is_request(device.queues.memory, chain.descriptors),
        device.queues.memory.peek(chain.descriptors[0].address as int, 24) == request_bytes(
            kind,
            addr,
            blocks,
        ),
    ensures
        ({
            let given = device.request();
            &&& kind == 0 ==> given == Ok::<Option<(Chain, MemoryRequest)>, DeviceError>(
                Some((chain, MemoryRequest::Plug { addr, blocks })),
            )
            &&& kind == 1 ==> given == Ok::<Option<(Chain, MemoryRequest)>, DeviceError>(
                Some((chain, MemoryRequest::Unplug { addr, blocks })),
            )
            &&& kind == 2 ==> given == Ok::<Option<(Chain, MemoryRequest)>, DeviceError>(
                Some((chain, MemoryRequest::UnplugAll)),
            )
            &&& kind == 3 ==> given == Ok::<Option<(Chain, MemoryRequest)>, DeviceError>(
                Some((chain, MemoryRequest::State { addr, blocks })),
            )
            &&& kind > 3 ==> given is Err
        }),
{
    driver::law_next_chain_is_taken(device.queues, 0, chain);
    law_requests_are_read_back(kind, addr, blocks);
}

/// A chain that is not laid as a request is refused.
pub proof fn law_malformed_requests_are_refused(mem: GuestMemory, descriptors: Seq<Descriptor>)
    requires
        !is_request(mem, descriptors),
    ensures
        requested(mem, descriptors) is Err,
{
}

/// A driver tells a response by its number: zero for one that was met, and then the state that
/// was asked for stands at the end, one for a refusal, two for a busy device, three for an error.
pub proof fn law_response_numbers(response: MemoryResponse)
    ensures
        ({
            let b = spec_response_bytes(response);
            let number = bytes::le_field(b, 0, 2);
            let state = bytes::le_field(b, 8, 2);
            &&& b.len() == 10
            &&& match response {
                MemoryResponse::Ack => number == 0 && state == 0,
                MemoryResponse::Nack => number == 1 && state == 0,
                MemoryResponse::Busy => number == 2 && state == 0,
                MemoryResponse::Error => number == 3 && state == 0,
                MemoryResponse::State(reported) => number == 0 && state == reported,
            }
            &&& forall|k: int| 2 <= k < 8 ==> #[trigger] b[k] == 0
        }),
{
    law_response_is_read_back(response);
    bytes::lemma_le_bytes_len(spec_response_type(response) as nat, 2);
}

/// A configuration is valid exactly if its blocks have a size that is a power of two, the region
/// and all that is said of it are whole blocks, the usable part lies in the region, and what is
/// plugged and what is requested lie in the usable part.
pub proof fn law_valid_configs(config: MemoryConfig)
    ensures
        config.flaw() is None <==> {
            &&& vstd::arithmetic::power2::is_pow2(config.block_size as int)
            &&& config.addr as int % config.block_size as int == 0
            &&& config.region_size as int % config.block_size as int == 0
            &&& config.usable_region_size as int % config.block_size as int == 0
            &&& config.plugged_size as int % config.block_size as int == 0
            &&& config.requested_size as int % config.block_size as int == 0
            &&& config.usable_region_size <= config.region_size
            &&& config.plugged_size <= config.usable_region_size
            &&& config.requested_size <= config.usable_region_size
        },
{
}

/// Each change of a configuration has the next generation, and only after 2^64 of them does a
/// number come again.
pub proof fn law_generations_count_up(generation: u64)
    ensures
        spec_next_generation(generation) == (generation + 1) % 0x1_0000_0000_0000_0000,
        spec_next_generation(generation) != generation,
{
}

/// A device has one queue and a notifier for it and for the configuration, and offers what its
/// declaration says.
pub proof fn law_memory_layout<B>(spec: MemorySpec<B>)
    ensures
        spec.spec_layout().queue_count == 1,
        spec.spec_layout().notifier_count == 2,
        spec.spec_layout().maximum_queue_size == spec.spec_maximum_queue_size(),
        spec.spec_layout().required_features == 0x1_0000_0000,
        spec.spec_layout().optional_features == spec.spec_optional_features(),
{
}

/// What the guest finds after a request was answered: if the buffer for the response is apart
/// from the used ring, it holds the response, and the used ring names the chain and the ten bytes
/// of a response.
pub proof fn law_response_reaches_guest(device: Memory, chain: Chain, response: MemoryResponse)
    requires
        device.queues.wf(),
        device.queues.layouts.len() == 1,
        device.queues.cursors[0].inflight,
        chain.descriptors.len() == 2,
        device.queues.memory.fault(
            (DmaRange { gpa: chain.descriptors[1].address, length: 10 }),
        ) is None,
        chain::apart(
            (DmaRange { gpa: chain.descriptors[1].address, length: 10 }),
            device.queues.layouts[0].used,
        ),
    ensures
        ({
            let (result, after) = device.respond(chain, response);
            let found = after.memory.peek(chain.descriptors[1].address as int, 10);
            &&& result == Ok::<Interrupt, DeviceError>(
                Interrupt::Queue { queue_index: 0, vector: 0 },
            )
            &&& found == spec_response_bytes(response)
            &&& driver::is_returned(device.queues, 0, after, chain.head, 10)
        }),
{
    let range = DmaRange { gpa: chain.descriptors[1].address, length: RESPONSE_SIZE };
    let ranges = seq![range];
    let data = spec_response_bytes(response);
    law_response_is_read_back(response);
    reveal_with_fuel(chain::first_fault, 2);
    reveal_with_fuel(chain::total, 2);
    reveal_with_fuel(chain::joined, 2);
    assert(ranges.drop_first() =~= Seq::<DmaRange>::empty());
    device::law_delivered_bytes_reach_guest(device.queues, 0, ranges, data, chain.head, 10);
    let spread = chain::scattered(device.queues.memory, ranges, data);
    chain::lemma_scatter_keeps_layout(device.queues.memory, ranges, data);
    device::lemma_queues_with_memory(device.queues, spread.memory);
    driver::lemma_returned(device.queues.with_memory(spread.memory), 0, chain.head, 10);
    let after = device.respond(chain, response).1;
    let found = after.memory.peek(range.gpa as int, 10);
    assert(chain::joined(after.memory, ranges) =~= found);
    assert(found.subrange(0, 10) =~= found);
}

/// The numbers of virtio-mem, and the sizes of its messages.
pub proof fn law_memory_numbers()
    ensures
        VIRTIO_F_VERSION_1 == 0x1_0000_0000,
        VIRTIO_MEM_F_ACPI_PXM == 0x1,
        VIRTIO_MEM_F_UNPLUGGED_INACCESSIBLE == 0x2,
        VIRTIO_MEM_REQ_PLUG == 0,
        VIRTIO_MEM_REQ_UNPLUG == 1,
        VIRTIO_MEM_REQ_UNPLUG_ALL == 2,
        VIRTIO_MEM_REQ_STATE == 3,
        VIRTIO_MEM_RESP_ACK == 0,
        VIRTIO_MEM_RESP_NACK == 1,
        VIRTIO_MEM_RESP_BUSY == 2,
        VIRTIO_MEM_RESP_ERROR == 3,
        VIRTIO_MEM_STATE_PLUGGED == 0,
        VIRTIO_MEM_STATE_UNPLUGGED == 1,
        VIRTIO_MEM_STATE_MIXED == 2,
        CONFIG_SIZE == 56,
        REQUEST_SIZE == 24,
        RESPONSE_SIZE == 10,
{
}

/// No request is given exactly when no chain is taken off the queue: a chain that is taken is given
/// with its request or refused, and what the queue fails with, the device fails with.
pub proof fn law_no_chain_is_passed_over(device: Memory)
    ensures
        device.request() == Ok::<Option<(Chain, MemoryRequest)>, DeviceError>(None)
            <==> device.queues.pop_result(0) == Ok::<Option<Chain>, DeviceError>(None),
        device.queues.pop_result(0) matches Err(error) ==> device.request() == Err::<
            Option<(Chain, MemoryRequest)>,
            DeviceError,
        >(error),
{
}

} // verus!
