//! virtio-vsock: stream and seqpacket sockets between guest and host.

use vstd::prelude::*;

use crate::bytes;
use crate::bytes::{get_u16, get_u32, get_u64, put_slice, put_u16, put_u32, put_u64, to_array};
use crate::chain;
use crate::chain::Spread;
use crate::device;
use crate::device::{DeviceLayout, DeviceResources, QueueSet, Queues, WakeStep};
use crate::dma::DmaMemory;
use crate::driver;
use crate::error::{DeviceDownReason, DeviceError};
use crate::guest::GuestMemory;
use crate::interrupt;
use crate::interrupt::{queue_interrupt, Interrupt};
use crate::num::is_power_of_two;
use crate::queue;
use crate::queue::{Chain, Descriptor, DescriptorChain};

verus! {

pub const VIRTIO_F_VERSION_1: u64 = 0x1_0000_0000;

pub const VIRTIO_VSOCK_F_STREAM: u64 = 0x1;

pub const VIRTIO_VSOCK_F_SEQPACKET: u64 = 0x2;

pub const VSOCK_HOST_CID: u64 = 2;

pub const VSOCK_TYPE_STREAM: u16 = 1;

pub const VSOCK_TYPE_SEQPACKET: u16 = 2;

pub const VSOCK_OP_REQUEST: u16 = 1;

pub const VSOCK_OP_RESPONSE: u16 = 2;

pub const VSOCK_OP_RST: u16 = 3;

pub const VSOCK_OP_SHUTDOWN: u16 = 4;

pub const VSOCK_OP_RW: u16 = 5;

pub const VSOCK_OP_CREDIT_UPDATE: u16 = 6;

pub const VSOCK_OP_CREDIT_REQUEST: u16 = 7;

const QUEUE_RX: usize = 0;

const QUEUE_TX: usize = 1;

const QUEUE_EVENT: usize = 2;

const QUEUE_COUNT: usize = 3;

/// The bytes of a packet header.
pub const HEADER_SIZE: usize = 44;

/// The most payload a packet carries.
pub const MAXIMUM_PACKET_SIZE: usize = 65_536;

/// The header of a packet.
#[derive(Clone, Copy, Debug, PartialEq, Eq, Structural)]
pub struct VsockHeader {
    pub source_cid: u64,
    pub destination_cid: u64,
    pub source_port: u32,
    pub destination_port: u32,
    pub length: u32,
    pub packet_type: u16,
    pub operation: u16,
    pub flags: u32,
    pub buffer_allocation: u32,
    pub forward_count: u32,
}

impl VsockHeader {
    /// The header that `bytes` spell.
    pub open spec fn parse(bytes: Seq<u8>) -> VsockHeader {
        VsockHeader {
            source_cid: bytes::le_field(bytes, 0, 8) as u64,
            destination_cid: bytes::le_field(bytes, 8, 8) as u64,
            source_port: bytes::le_field(bytes, 16, 4) as u32,
            destination_port: bytes::le_field(bytes, 20, 4) as u32,
            length: bytes::le_field(bytes, 24, 4) as u32,
            packet_type: bytes::le_field(bytes, 28, 2) as u16,
            operation: bytes::le_field(bytes, 30, 2) as u16,
            flags: bytes::le_field(bytes, 32, 4) as u32,
            buffer_allocation: bytes::le_field(bytes, 36, 4) as u32,
            forward_count: bytes::le_field(bytes, 40, 4) as u32,
        }
    }

    /// The bytes of the header.
    pub open spec fn spec_bytes(self) -> Seq<u8> {
        bytes::le_bytes(self.source_cid as nat, 8) + bytes::le_bytes(self.destination_cid as nat, 8)
            + bytes::le_bytes(self.source_port as nat, 4) + bytes::le_bytes(
            self.destination_port as nat,
            4,
        ) + bytes::le_bytes(self.length as nat, 4) + bytes::le_bytes(self.packet_type as nat, 2)
            + bytes::le_bytes(self.operation as nat, 2) + bytes::le_bytes(self.flags as nat, 4)
            + bytes::le_bytes(self.buffer_allocation as nat, 4) + bytes::le_bytes(
            self.forward_count as nat,
            4,
        )
    }

    pub fn decode(bytes: &[u8]) -> (result: Result<Self, DeviceError>)
        ensures
            result == if bytes@.len() == HEADER_SIZE {
                Ok::<Self, DeviceError>(VsockHeader::parse(bytes@))
            } else {
                Err::<Self, DeviceError>(
                    DeviceError::Descriptor("invalid virtio-vsock header length"),
                )
            },
    {
        if bytes.len() != HEADER_SIZE {
            return Err(DeviceError::Descriptor("invalid virtio-vsock header length"));
        }
        Ok(
            VsockHeader {
                source_cid: get_u64(bytes, 0),
                destination_cid: get_u64(bytes, 8),
                source_port: get_u32(bytes, 16),
                destination_port: get_u32(bytes, 20),
                length: get_u32(bytes, 24),
                packet_type: get_u16(bytes, 28),
                operation: get_u16(bytes, 30),
                flags: get_u32(bytes, 32),
                buffer_allocation: get_u32(bytes, 36),
                forward_count: get_u32(bytes, 40),
            },
        )
    }

    pub fn encode(self) -> (bytes: [u8; 44])
        ensures
            bytes@ == self.spec_bytes(),
    {
        let mut out: Vec<u8> = Vec::with_capacity(HEADER_SIZE);
        put_u64(&mut out, self.source_cid);
        assert(out@ =~= bytes::le_bytes(self.source_cid as nat, 8));
        put_u64(&mut out, self.destination_cid);
        put_u32(&mut out, self.source_port);
        put_u32(&mut out, self.destination_port);
        put_u32(&mut out, self.length);
        put_u16(&mut out, self.packet_type);
        put_u16(&mut out, self.operation);
        put_u32(&mut out, self.flags);
        put_u32(&mut out, self.buffer_allocation);
        put_u32(&mut out, self.forward_count);
        proof {
            lemma_header_len(self);
        }
        to_array::<44>(out.as_slice())
    }
}

pub proof fn lemma_header_len(header: VsockHeader)
    ensures
        header.spec_bytes().len() == HEADER_SIZE,
{
    bytes::lemma_le_bytes_len(header.source_cid as nat, 8);
    bytes::lemma_le_bytes_len(header.destination_cid as nat, 8);
    bytes::lemma_le_bytes_len(header.source_port as nat, 4);
    bytes::lemma_le_bytes_len(header.destination_port as nat, 4);
    bytes::lemma_le_bytes_len(header.length as nat, 4);
    bytes::lemma_le_bytes_len(header.packet_type as nat, 2);
    bytes::lemma_le_bytes_len(header.operation as nat, 2);
    bytes::lemma_le_bytes_len(header.flags as nat, 4);
    bytes::lemma_le_bytes_len(header.buffer_allocation as nat, 4);
    bytes::lemma_le_bytes_len(header.forward_count as nat, 4);
}

/// Decoding an encoded header gives the header back.
pub proof fn law_decode_after_encode(header: VsockHeader)
    ensures
        VsockHeader::parse(header.spec_bytes()) == header,
{
    let b = header.spec_bytes();
    lemma_header_len(header);
    bytes::lemma_limits();
    bytes::lemma_value_of_bytes(header.source_cid as nat, 8);
    bytes::lemma_value_of_bytes(header.destination_cid as nat, 8);
    bytes::lemma_value_of_bytes(header.source_port as nat, 4);
    bytes::lemma_value_of_bytes(header.destination_port as nat, 4);
    bytes::lemma_value_of_bytes(header.length as nat, 4);
    bytes::lemma_value_of_bytes(header.packet_type as nat, 2);
    bytes::lemma_value_of_bytes(header.operation as nat, 2);
    bytes::lemma_value_of_bytes(header.flags as nat, 4);
    bytes::lemma_value_of_bytes(header.buffer_allocation as nat, 4);
    bytes::lemma_value_of_bytes(header.forward_count as nat, 4);
    assert(b.subrange(0, 8) =~= bytes::le_bytes(header.source_cid as nat, 8));
    assert(b.subrange(8, 16) =~= bytes::le_bytes(header.destination_cid as nat, 8));
    assert(b.subrange(16, 20) =~= bytes::le_bytes(header.source_port as nat, 4));
    assert(b.subrange(20, 24) =~= bytes::le_bytes(header.destination_port as nat, 4));
    assert(b.subrange(24, 28) =~= bytes::le_bytes(header.length as nat, 4));
    assert(b.subrange(28, 30) =~= bytes::le_bytes(header.packet_type as nat, 2));
    assert(b.subrange(30, 32) =~= bytes::le_bytes(header.operation as nat, 2));
    assert(b.subrange(32, 36) =~= bytes::le_bytes(header.flags as nat, 4));
    assert(b.subrange(36, 40) =~= bytes::le_bytes(header.buffer_allocation as nat, 4));
    assert(b.subrange(40, 44) =~= bytes::le_bytes(header.forward_count as nat, 4));
}

/// Encoding a decoded header gives the bytes back.
pub proof fn law_encode_after_decode(bytes: Seq<u8>)
    requires
        bytes.len() == HEADER_SIZE,
    ensures
        VsockHeader::parse(bytes).spec_bytes() == bytes,
{
    bytes::lemma_limits();
    bytes::lemma_bytes_of_value(bytes.subrange(0, 8));
    bytes::lemma_bytes_of_value(bytes.subrange(8, 16));
    bytes::lemma_bytes_of_value(bytes.subrange(16, 20));
    bytes::lemma_bytes_of_value(bytes.subrange(20, 24));
    bytes::lemma_bytes_of_value(bytes.subrange(24, 28));
    bytes::lemma_bytes_of_value(bytes.subrange(28, 30));
    bytes::lemma_bytes_of_value(bytes.subrange(30, 32));
    bytes::lemma_bytes_of_value(bytes.subrange(32, 36));
    bytes::lemma_bytes_of_value(bytes.subrange(36, 40));
    bytes::lemma_bytes_of_value(bytes.subrange(40, 44));
    assert(VsockHeader::parse(bytes).spec_bytes() =~= bytes);
}

/// A packet as what it carries.
#[verifier::ext_equal]
pub struct Packet {
    pub header: VsockHeader,
    pub payload: Seq<u8>,
}

impl Packet {
    /// A packet of a known type, as long as its header says, and not too long.
    pub open spec fn valid(self) -> bool {
        &&& self.header.packet_type == VSOCK_TYPE_STREAM || self.header.packet_type
            == VSOCK_TYPE_SEQPACKET
        &&& self.header.length == self.payload.len()
        &&& self.payload.len() <= MAXIMUM_PACKET_SIZE
    }

    /// The bytes of the packet.
    pub open spec fn bytes(self) -> Seq<u8> {
        self.header.spec_bytes() + self.payload
    }

    /// The packet that `bytes` spell, or why they spell none.
    pub open spec fn of(bytes: Seq<u8>) -> Result<Packet, DeviceError> {
        let header = VsockHeader::parse(bytes.subrange(0, HEADER_SIZE as int));
        let packet = Packet {
            header,
            payload: bytes.subrange(HEADER_SIZE as int, bytes.len() as int),
        };
        if bytes.len() < HEADER_SIZE {
            Err(DeviceError::Descriptor("short virtio-vsock TX chain"))
        } else if bytes.len() != HEADER_SIZE + header.length {
            Err(DeviceError::Descriptor("virtio-vsock TX chain length mismatch"))
        } else if !packet.valid() {
            Err(DeviceError::Descriptor("invalid virtio-vsock packet"))
        } else {
            Ok(packet)
        }
    }
}

/// A valid packet is read back from the bytes it is sent as.
pub proof fn law_packet_round_trip(packet: Packet)
    requires
        packet.valid(),
    ensures
        Packet::of(packet.bytes()) == Ok::<Packet, DeviceError>(packet),
{
    let b = packet.bytes();
    lemma_header_len(packet.header);
    assert(b.subrange(0, HEADER_SIZE as int) =~= packet.header.spec_bytes());
    assert(b.subrange(HEADER_SIZE as int, b.len() as int) =~= packet.payload);
    law_decode_after_encode(packet.header);
}

/// A packet that is read from bytes is valid, and is sent as those bytes.
pub proof fn law_read_packet_is_valid(bytes: Seq<u8>, packet: Packet)
    requires
        Packet::of(bytes) == Ok::<Packet, DeviceError>(packet),
    ensures
        packet.valid(),
        packet.bytes() == bytes,
{
    law_encode_after_decode(bytes.subrange(0, HEADER_SIZE as int));
    assert(packet.bytes() =~= bytes);
}

/// A packet.
#[derive(Clone, Debug, PartialEq, Eq)]
pub struct VsockPacket {
    pub header: VsockHeader,
    pub payload: Vec<u8>,
}

impl View for VsockPacket {
    type V = Packet;

    open spec fn view(&self) -> Packet {
        Packet { header: self.header, payload: self.payload@ }
    }
}

impl VsockPacket {
    pub fn validate(&self) -> (result: Result<(), DeviceError>)
        ensures
            result == if self@.valid() {
                Ok::<(), DeviceError>(())
            } else {
                Err::<(), DeviceError>(DeviceError::Descriptor("invalid virtio-vsock packet"))
            },
    {
        if (self.header.packet_type != VSOCK_TYPE_STREAM && self.header.packet_type
            != VSOCK_TYPE_SEQPACKET) || self.header.length as usize != self.payload.len()
            || self.payload.len() > MAXIMUM_PACKET_SIZE {
            return Err(DeviceError::Descriptor("invalid virtio-vsock packet"));
        }
        Ok(())
    }
}

/// A vsock device to be activated, with the backend that serves it.
#[derive(Debug)]
pub struct VsockDeclaration<B> {
    guest_cid: u64,
    maximum_queue_size: u16,
    backend: B,
}

impl<B> VsockDeclaration<B> {
    /// The guest's context identifier.
    pub closed spec fn spec_guest_cid(self) -> u64 {
        self.guest_cid
    }

    /// The largest queue the device takes.
    pub closed spec fn spec_maximum_queue_size(self) -> u16 {
        self.maximum_queue_size
    }

    /// The backend that serves the device.
    pub closed spec fn spec_backend(self) -> B {
        self.backend
    }

    pub fn new(guest_cid: u64, maximum_queue_size: u16, backend: B) -> (result: Result<
        Self,
        DeviceError,
    >)
        ensures
            result is Ok <==> guest_cid >= 3 && vstd::arithmetic::power2::is_pow2(
                maximum_queue_size as int,
            ),
            match result {
                Ok(declaration) => {
                    &&& guest_cid > VSOCK_HOST_CID
                    &&& vstd::arithmetic::power2::is_pow2(maximum_queue_size as int)
                    &&& declaration.spec_guest_cid() == guest_cid
                    &&& declaration.spec_maximum_queue_size() == maximum_queue_size
                    &&& declaration.spec_backend() == backend
                },
                Err(error) => {
                    &&& guest_cid <= VSOCK_HOST_CID || !vstd::arithmetic::power2::is_pow2(
                        maximum_queue_size as int,
                    )
                    &&& error == DeviceError::InvalidLayout("invalid virtio-vsock declaration")
                },
            },
    {
        if guest_cid <= VSOCK_HOST_CID || !is_power_of_two(maximum_queue_size as u64) {
            return Err(DeviceError::InvalidLayout("invalid virtio-vsock declaration"));
        }
        Ok(VsockDeclaration { guest_cid, maximum_queue_size, backend })
    }

    pub fn guest_cid(&self) -> (guest_cid: u64)
        ensures
            guest_cid == self.spec_guest_cid(),
    {
        self.guest_cid
    }

    /// The backend that serves the device.
    pub fn backend(&self) -> (backend: &B)
        ensures
            *backend == self.spec_backend(),
    {
        &self.backend
    }

    /// What the device needs.
    pub open spec fn spec_layout(self) -> DeviceLayout {
        DeviceLayout {
            queue_count: 3,
            maximum_queue_size: self.spec_maximum_queue_size(),
            notifier_count: 4,
            required_features: VIRTIO_F_VERSION_1,
            optional_features: 3,
        }
    }

    pub fn layout(&self) -> (layout: DeviceLayout)
        ensures
            layout == self.spec_layout(),
    {
        assert(VIRTIO_VSOCK_F_STREAM | VIRTIO_VSOCK_F_SEQPACKET == 3) by (bit_vector);
        DeviceLayout {
            queue_count: QUEUE_COUNT,
            maximum_queue_size: self.maximum_queue_size,
            notifier_count: QUEUE_COUNT + 1,
            required_features: VIRTIO_F_VERSION_1,
            optional_features: VIRTIO_VSOCK_F_STREAM | VIRTIO_VSOCK_F_SEQPACKET,
        }
    }

    /// STREAM is the baseline socket type: a driver may negotiate SEQPACKET without
    /// acknowledging the STREAM bit, and still use streams.
    pub fn activate<'a>(&self, resources: DeviceResources<'a>) -> (result: Result<
        VsockDevice<'a>,
        DeviceError,
    >)
        requires
            resources.dma@.wf(),
        ensures
            result is Ok <==> resources.flaw(self.spec_layout()) is None,
            match result {
                Ok(device) => {
                    &&& resources.flaw(self.spec_layout()) is None
                    &&& device.wf()
                    &&& device@ == (Vsock {
                        queues: device::fresh_queues(resources),
                        kicked: false,
                        down: false,
                        stream_supported: true,
                        seqpacket_supported: resources.negotiated_features
                            & VIRTIO_VSOCK_F_SEQPACKET != 0,
                    })
                    &&& device@.stream_supported
                    &&& device@.seqpacket_supported <==> resources.negotiated_features & 2 != 0
                },
                Err(error) => resources.flaw(self.spec_layout()) == Some(error),
            },
    {
        let seqpacket_supported: bool = resources.negotiated_features & VIRTIO_VSOCK_F_SEQPACKET
            != 0;
        let queues = QueueSet::activate(resources, &self.layout())?;
        Ok(
            VsockDevice {
                queues,
                kicked: false,
                down: false,
                stream_supported: true,
                seqpacket_supported,
            },
        )
    }
}

/// The packet that a transmit chain carries.
pub open spec fn transmitted(mem: GuestMemory, descriptors: Seq<Descriptor>) -> Result<
    Packet,
    DeviceError,
> {
    if chain::some_writable(descriptors) {
        Err(DeviceError::Descriptor("vsock TX chain is writable"))
    } else {
        match chain::gathered(mem, chain::ranges_of(descriptors)) {
            Err(error) => Err(error),
            Ok(bytes) => Packet::of(bytes),
        }
    }
}

/// The result of reading a packet, as what it stands for.
pub open spec fn packet_read(result: Result<VsockPacket, DeviceError>) -> Result<Packet, DeviceError> {
    match result {
        Ok(packet) => Ok(packet@),
        Err(error) => Err(error),
    }
}

/// Reads the packet that a transmit chain carries.
pub fn read_packet(memory: &DmaMemory, chain: &DescriptorChain) -> (result: Result<
    VsockPacket,
    DeviceError,
>)
    requires
        memory@.wf(),
    ensures
        packet_read(result) == transmitted(memory@, chain.descriptors@),
{
    if chain::any_writable(chain) {
        return Err(DeviceError::Descriptor("vsock TX chain is writable"));
    }
    let bytes = chain::gather(memory, chain::ranges(chain).as_slice())?;
    if bytes.len() < HEADER_SIZE {
        return Err(DeviceError::Descriptor("short virtio-vsock TX chain"));
    }
    let header = VsockHeader::decode(
        vstd::slice::slice_subrange(bytes.as_slice(), 0, HEADER_SIZE),
    )?;
    if bytes.len() as u64 != HEADER_SIZE as u64 + header.length as u64 {
        return Err(DeviceError::Descriptor("virtio-vsock TX chain length mismatch"));
    }
    let mut payload: Vec<u8> = Vec::with_capacity(bytes.len() - HEADER_SIZE);
    put_slice(
        &mut payload,
        vstd::slice::slice_subrange(bytes.as_slice(), HEADER_SIZE, bytes.len()),
    );
    let packet = VsockPacket { header, payload };
    proof {
        assert(packet.payload@ =~= bytes@.subrange(HEADER_SIZE as int, bytes@.len() as int));
    }
    packet.validate()?;
    Ok(packet)
}

/// The bytes of a packet, if it is valid.
pub fn packet_bytes(packet: &VsockPacket) -> (result: Result<Vec<u8>, DeviceError>)
    ensures
        match result {
            Ok(bytes) => packet@.valid() && bytes@ == packet@.bytes(),
            Err(error) => !packet@.valid() && error == DeviceError::Descriptor(
                "invalid virtio-vsock packet",
            ),
        },
{
    packet.validate()?;
    let mut bytes: Vec<u8> = Vec::with_capacity(HEADER_SIZE + packet.payload.len());
    let header = packet.header.encode();
    put_slice(&mut bytes, header.as_slice());
    put_slice(&mut bytes, packet.payload.as_slice());
    proof {
        assert(bytes@ =~= packet@.bytes());
    }
    Ok(bytes)
}

/// What storing `data` in a receive chain gives.
pub open spec fn received(mem: GuestMemory, descriptors: Seq<Descriptor>, data: Seq<u8>) -> Spread {
    let ranges = chain::ranges_of(descriptors);
    if chain::some_readable(descriptors) {
        Spread {
            result: Err(DeviceError::Descriptor("vsock RX chain is readable")),
            memory: mem,
        }
    } else if chain::total(ranges) > usize::MAX {
        Spread {
            result: Err(DeviceError::Descriptor("vsock RX capacity overflows usize")),
            memory: mem,
        }
    } else if chain::total(ranges) < data.len() {
        Spread {
            result: Err(DeviceError::Descriptor("virtio-vsock RX chain is too short")),
            memory: mem,
        }
    } else {
        chain::scattered(mem, ranges, data)
    }
}

/// A packet on its way to the backend, with the chain it came in.
#[derive(Debug)]
pub struct VsockTransmit {
    pub chain: DescriptorChain,
    pub packet: VsockPacket,
    pub used_length: u32,
}

/// A vsock device at work.
#[verifier::ext_equal]
pub struct Vsock {
    pub queues: Queues,
    pub kicked: bool,
    pub down: bool,
    pub stream_supported: bool,
    pub seqpacket_supported: bool,
}

/// The length a transmit chain is completed with: the packet and its header.
pub open spec fn transmit_length(length: u32) -> u32 {
    if length + HEADER_SIZE > u32::MAX {
        u32::MAX
    } else {
        (length + HEADER_SIZE) as u32
    }
}

impl Vsock {
    /// Whether packets of the given type may pass.
    pub open spec fn supports(self, packet_type: u16) -> bool {
        if packet_type == VSOCK_TYPE_STREAM {
            self.stream_supported
        } else if packet_type == VSOCK_TYPE_SEQPACKET {
            self.seqpacket_supported
        } else {
            false
        }
    }

    /// What taking the next transmit chain gives.
    pub open spec fn transmit(self) -> Result<Option<(Chain, Packet)>, DeviceError> {
        match self.queues.pop_result(1) {
            Err(error) => Err(error),
            Ok(None) => Ok(None),
            Ok(Some(chain)) => match transmitted(self.queues.memory, chain.descriptors) {
                Err(error) => Err(error),
                Ok(packet) => if self.supports(packet.header.packet_type) {
                    Ok(Some((chain, packet)))
                } else {
                    Err(DeviceError::Descriptor("virtio-vsock packet type was not negotiated"))
                },
            },
        }
    }

    /// What handing a packet to the guest in `chain` gives.
    pub open spec fn deliver(self, chain: Chain, packet: Packet) -> (
        Result<Interrupt, DeviceError>,
        Queues,
    ) {
        if !self.supports(packet.header.packet_type) {
            (
                Err(DeviceError::Descriptor("virtio-vsock packet type was not negotiated")),
                self.queues,
            )
        } else if !packet.valid() {
            (Err(DeviceError::Descriptor("invalid virtio-vsock packet")), self.queues)
        } else {
            let spread = received(self.queues.memory, chain.descriptors, packet.bytes());
            let stored = self.queues.with_memory(spread.memory);
            let used = packet.bytes().len() as u32;
            if spread.result is Err {
                (Err(spread.result->Err_0), stored)
            } else {
                (
                    match stored.complete_result(0, chain.head, used) {
                        Ok(()) => Ok(interrupt::spec_queue_interrupt(0)),
                        Err(error) => Err(error),
                    },
                    stored.after_complete(0, chain.head, used),
                )
            }
        }
    }
}

/// An active vsock device.
#[derive(Debug)]
pub struct VsockDevice<'a> {
    queues: QueueSet<'a>,
    kicked: bool,
    down: bool,
    stream_supported: bool,
    seqpacket_supported: bool,
}

impl<'a> View for VsockDevice<'a> {
    type V = Vsock;

    closed spec fn view(&self) -> Vsock {
        Vsock {
            queues: self.queues@,
            kicked: self.kicked,
            down: self.down,
            stream_supported: self.stream_supported,
            seqpacket_supported: self.seqpacket_supported,
        }
    }
}

impl<'a> VsockDevice<'a> {
    /// The device has its three queues.
    pub open spec fn wf(self) -> bool {
        self@.queues.wf() && self@.queues.layouts.len() == 3
    }

    /// The guest memory that the device works on.
    pub fn memory(&self) -> (memory: &DmaMemory<'a>)
        ensures
            memory@ == self@.queues.memory,
    {
        &self.queues.resources.dma
    }

    /// Whether the device was taken down.
    pub fn is_down(&self) -> (down: bool)
        ensures
            down == self@.down,
    {
        self.down
    }

    /// Notes that the guest rang the doorbell.
    pub fn kick(&mut self)
        ensures
            final(self)@ == (Vsock { kicked: true, ..old(self)@ }),
    {
        self.kicked = true;
    }

    /// Takes the device down, whatever the reason.
    pub fn stop(&mut self, reason: DeviceDownReason)
        requires
            old(self).wf(),
        ensures
            final(self).wf(),
            final(self)@ == (Vsock {
                queues: old(self)@.queues.stopped(),
                down: true,
                ..old(self)@
            }),
            final(self)@.down,
            final(self)@.queues.memory.revoked,
            final(self)@.queues.cursors == old(self)@.queues.cursors,
    {
        self.down = true;
        self.queues.stop();
    }

    /// What to do on a wake-up.
    pub fn on_wake(&mut self) -> (step: WakeStep)
        ensures
            step == if old(self)@.down {
                WakeStep::Drain
            } else if !old(self)@.kicked {
                WakeStep::Sleep
            } else {
                WakeStep::Process
            },
            final(self)@ == (Vsock {
                kicked: old(self)@.down && old(self)@.kicked,
                ..old(self)@
            }),
            step is Drain <==> old(self)@.down,
            step is Process <==> !old(self)@.down && old(self)@.kicked,
            step is Process ==> !final(self)@.kicked,
    {
        if self.down {
            return WakeStep::Drain;
        }
        if !self.kicked {
            return WakeStep::Sleep;
        }
        self.kicked = false;
        WakeStep::Process
    }

    fn validate_packet_type(&self, packet: &VsockPacket) -> (result: Result<(), DeviceError>)
        ensures
            result == if self@.supports(packet.header.packet_type) {
                Ok::<(), DeviceError>(())
            } else {
                Err::<(), DeviceError>(
                    DeviceError::Descriptor("virtio-vsock packet type was not negotiated"),
                )
            },
    {
        let supported: bool = if packet.header.packet_type == VSOCK_TYPE_STREAM {
            self.stream_supported
        } else if packet.header.packet_type == VSOCK_TYPE_SEQPACKET {
            self.seqpacket_supported
        } else {
            false
        };
        if supported {
            Ok(())
        } else {
            Err(DeviceError::Descriptor("virtio-vsock packet type was not negotiated"))
        }
    }

    /// Takes the next transmit chain and the packet it carries.
    pub fn begin_transmit(&mut self) -> (result: Result<Option<VsockTransmit>, DeviceError>)
        requires
            old(self).wf(),
        ensures
            final(self).wf(),
            final(self)@ == (Vsock { queues: old(self)@.queues.after_pop(1), ..old(self)@ }),
            match result {
                Ok(Some(work)) => {
                    &&& old(self)@.transmit() == Ok::<Option<(Chain, Packet)>, DeviceError>(
                        Some((work.chain@, work.packet@)),
                    )
                    &&& work.used_length == transmit_length(work.packet.header.length)
                },
                Ok(None) => old(self)@.transmit() == Ok::<Option<(Chain, Packet)>, DeviceError>(
                    None,
                ),
                Err(error) => old(self)@.transmit() == Err::<Option<(Chain, Packet)>, DeviceError>(
                    error,
                ),
            },
    {
        let popped = self.queues.pop(QUEUE_TX)?;
        match popped {
            None => Ok(None),
            Some(chain) => {
                let packet = read_packet(&self.queues.resources.dma, &chain)?;
                self.validate_packet_type(&packet)?;
                let used_length: u32 = packet.header.length.saturating_add(HEADER_SIZE as u32);
                Ok(Some(VsockTransmit { chain, packet, used_length }))
            },
        }
    }

    /// Hands a transmit chain back, once the backend has taken its packet.
    pub fn finish_transmit(&mut self, chain: &DescriptorChain, used_length: u32) -> (result: Result<
        Interrupt,
        DeviceError,
    >)
        requires
            old(self).wf(),
        ensures
            final(self).wf(),
            final(self)@ == (Vsock {
                queues: old(self)@.queues.after_complete(1, chain.head, used_length),
                ..old(self)@
            }),
            result == match old(self)@.queues.complete_result(1, chain.head, used_length) {
                Ok(()) => Ok::<Interrupt, DeviceError>(interrupt::spec_queue_interrupt(1)),
                Err(error) => Err::<Interrupt, DeviceError>(error),
            },
            old(self)@.queues.cursors[1].inflight && !old(self)@.queues.memory.revoked ==> {
                &&& result == Ok::<Interrupt, DeviceError>(
                    Interrupt::Queue { queue_index: 1, vector: 1 },
                )
                &&& driver::is_returned(
                    old(self)@.queues,
                    1,
                    final(self)@.queues,
                    chain.head,
                    used_length as int,
                )
            },
    {
        proof {
            driver::lemma_returned(self@.queues, 1, chain.head, used_length);
        }
        self.queues.complete(QUEUE_TX, chain, used_length)?;
        Ok(queue_interrupt(1))
    }

    /// Takes the next receive chain, if the backend has a packet.
    pub fn begin_receive(&mut self, has_packet: bool) -> (result: Result<
        Option<DescriptorChain>,
        DeviceError,
    >)
        requires
            old(self).wf(),
        ensures
            final(self).wf(),
            !has_packet ==> result == Ok::<Option<DescriptorChain>, DeviceError>(None)
                && final(self)@ == old(self)@,
            has_packet ==> {
                &&& queue::popped(result) == old(self)@.queues.pop_result(0)
                &&& final(self)@ == (Vsock { queues: old(self)@.queues.after_pop(0), ..old(self)@ })
            },
            forall|chain: Chain|
                has_packet && !old(self)@.queues.memory.revoked && #[trigger] driver::is_offered(
                    old(self)@.queues,
                    0,
                    chain,
                ) ==> queue::popped(result) == Ok::<Option<Chain>, DeviceError>(Some(chain)),
    {
        proof {
            let queues = self@.queues;
            assert forall|chain: Chain|
                !queues.memory.revoked && #[trigger] driver::is_offered(
                    queues,
                    0,
                    chain,
                ) implies queues.pop_result(0) == Ok::<Option<Chain>, DeviceError>(
                Some(chain),
            ) by {
                driver::law_next_chain_is_taken(queues, 0, chain);
            }
        }
        if !has_packet {
            return Ok(None);
        }
        self.queues.pop(QUEUE_RX)
    }

    /// Hands the packet that the backend gave to the guest.
    pub fn finish_receive(&mut self, chain: &DescriptorChain, packet: Option<VsockPacket>) -> (result: Result<
        Interrupt,
        DeviceError,
    >)
        requires
            old(self).wf(),
        ensures
            final(self).wf(),
            match packet {
                None => {
                    &&& result == Err::<Interrupt, DeviceError>(
                        DeviceError::Descriptor("vsock packet disappeared"),
                    )
                    &&& final(self)@ == old(self)@
                },
                Some(packet) => {
                    &&& result == old(self)@.deliver(chain@, packet@).0
                    &&& final(self)@ == (Vsock {
                        queues: old(self)@.deliver(chain@, packet@).1,
                        ..old(self)@
                    })
                },
            },
    {
        let packet = match packet {
            Some(packet) => packet,
            None => {
                return Err(DeviceError::Descriptor("vsock packet disappeared"));
            },
        };
        self.validate_packet_type(&packet)?;
        let bytes = packet_bytes(&packet)?;
        proof {
            lemma_header_len(packet.header);
        }
        self.write_packet(chain, bytes.as_slice())?;
        self.queues.complete(QUEUE_RX, chain, bytes.len() as u32)?;
        Ok(queue_interrupt(0))
    }

    /// Stores the bytes of a packet in a receive chain.
    fn write_packet(&mut self, chain: &DescriptorChain, data: &[u8]) -> (result: Result<
        (),
        DeviceError,
    >)
        requires
            old(self).wf(),
        ensures
            final(self).wf(),
            result == received(old(self)@.queues.memory, chain.descriptors@, data@).result,
            final(self)@ == (Vsock {
                queues: old(self)@.queues.with_memory(
                    received(old(self)@.queues.memory, chain.descriptors@, data@).memory,
                ),
                ..old(self)@
            }),
    {
        if chain::any_readable(chain) {
            return Err(DeviceError::Descriptor("vsock RX chain is readable"));
        }
        let ranges = chain::ranges(chain);
        let capacity: usize = match chain::capacity(ranges.as_slice()) {
            Some(capacity) => capacity,
            None => {
                return Err(DeviceError::Descriptor("vsock RX capacity overflows usize"));
            },
        };
        if capacity < data.len() {
            return Err(DeviceError::Descriptor("virtio-vsock RX chain is too short"));
        }
        self.queues.store(ranges.as_slice(), data)
    }

    /// Hands the next event chain back unused, and says whether there was one.
    pub fn process_event(&mut self) -> (result: Result<bool, DeviceError>)
        requires
            old(self).wf(),
        ensures
            final(self).wf(),
            ({
                let popped = old(self)@.queues.after_pop(2);
                match old(self)@.queues.pop_result(2) {
                    Err(error) => {
                        &&& result == Err::<bool, DeviceError>(error)
                        &&& final(self)@ == (Vsock { queues: popped, ..old(self)@ })
                    },
                    Ok(None) => {
                        &&& result == Ok::<bool, DeviceError>(false)
                        &&& final(self)@ == (Vsock { queues: popped, ..old(self)@ })
                    },
                    Ok(Some(chain)) => {
                        &&& result == match popped.complete_result(2, chain.head, 0) {
                            Ok(()) => Ok::<bool, DeviceError>(true),
                            Err(error) => Err::<bool, DeviceError>(error),
                        }
                        &&& final(self)@ == (Vsock {
                            queues: popped.after_complete(2, chain.head, 0),
                            ..old(self)@
                        })
                    },
                }
            }),
            forall|chain: Chain| #[trigger]
                driver::is_offered(old(self)@.queues, 2, chain)
                    && !old(self)@.queues.memory.revoked ==> {
                    &&& result == Ok::<bool, DeviceError>(true)
                    &&& driver::is_returned(
                        old(self)@.queues.after_pop(2),
                        2,
                        final(self)@.queues,
                        chain.head,
                        0,
                    )
                },
    {
        proof {
            let queues = self@.queues;
            assert forall|chain: Chain| #[trigger]
                driver::is_offered(queues, 2, chain) && !queues.memory.revoked implies {
                &&& queues.pop_result(2) == Ok::<Option<Chain>, DeviceError>(Some(chain))
                &&& queues.after_pop(2).complete_result(2, chain.head, 0) is Ok
                &&& driver::is_returned(
                    queues.after_pop(2),
                    2,
                    queues.after_pop(2).after_complete(2, chain.head, 0),
                    chain.head,
                    0,
                )
            } by {
                driver::law_next_chain_is_taken(queues, 2, chain);
                driver::lemma_returned(queues.after_pop(2), 2, chain.head, 0);
            }
        }
        let popped = self.queues.pop(QUEUE_EVENT)?;
        match popped {
            None => Ok(false),
            Some(chain) => {
                self.queues.complete(QUEUE_EVENT, &chain, 0)?;
                Ok(true)
            },
        }
    }
}

/// A packet of a type that was not negotiated never passes: a transmit chain that
/// carries one is refused.
pub proof fn law_only_negotiated_types_pass(device: Vsock, chain: Chain, packet: Packet)
    requires
        device.transmit() == Ok::<Option<(Chain, Packet)>, DeviceError>(Some((chain, packet))),
    ensures
        packet.valid(),
        device.supports(packet.header.packet_type),
{
    let bytes = chain::gathered(device.queues.memory, chain::ranges_of(chain.descriptors))->Ok_0;
    law_read_packet_is_valid(bytes, packet);
}

/// Where a driver has each field of a header: the two identifiers in the first sixteen bytes,
/// then the ports, the length, the type, the operation, the flags and the two counts of the
/// flow control.
pub proof fn law_header_fields(header: VsockHeader)
    ensures
        ({
            let b = header.spec_bytes();
            &&& b.len() == 44
            &&& bytes::le_field(b, 0, 8) == header.source_cid
            &&& bytes::le_field(b, 8, 8) == header.destination_cid
            &&& bytes::le_field(b, 16, 4) == header.source_port
            &&& bytes::le_field(b, 20, 4) == header.destination_port
            &&& bytes::le_field(b, 24, 4) == header.length
            &&& bytes::le_field(b, 28, 2) == header.packet_type
            &&& bytes::le_field(b, 30, 2) == header.operation
            &&& bytes::le_field(b, 32, 4) == header.flags
            &&& bytes::le_field(b, 36, 4) == header.buffer_allocation
            &&& bytes::le_field(b, 40, 4) == header.forward_count
        }),
{
    law_decode_after_encode(header);
    lemma_header_len(header);
    let b = header.spec_bytes();
    bytes::lemma_limits();
    bytes::lemma_bytes_of_value(b.subrange(0, 8));
    bytes::lemma_bytes_of_value(b.subrange(8, 16));
    bytes::lemma_bytes_of_value(b.subrange(16, 20));
    bytes::lemma_bytes_of_value(b.subrange(20, 24));
    bytes::lemma_bytes_of_value(b.subrange(24, 28));
    bytes::lemma_bytes_of_value(b.subrange(28, 30));
    bytes::lemma_bytes_of_value(b.subrange(30, 32));
    bytes::lemma_bytes_of_value(b.subrange(32, 36));
    bytes::lemma_bytes_of_value(b.subrange(36, 40));
    bytes::lemma_bytes_of_value(b.subrange(40, 44));
}

/// A packet is valid exactly if it is of type one or two, its payload is as long as its header
/// says, be that nothing, and no longer than 64 KiB; and it is sent as its header and then its
/// payload.
pub proof fn law_valid_packets(packet: Packet)
    ensures
        packet.valid() <==> {
            &&& packet.header.packet_type == 1 || packet.header.packet_type == 2
            &&& packet.header.length == packet.payload.len()
            &&& packet.payload.len() <= 65_536
        },
        packet.bytes().len() == 44 + packet.payload.len(),
        packet.bytes().take(44) == packet.header.spec_bytes(),
        packet.bytes().skip(44) == packet.payload,
{
    lemma_header_len(packet.header);
    assert(packet.bytes().take(44) =~= packet.header.spec_bytes());
    assert(packet.bytes().skip(44) =~= packet.payload);
}

/// Packets of type one pass if streams are supported, those of type two if sequenced packets
/// are, and no others.
pub proof fn law_supported_types(device: Vsock, packet_type: u16)
    ensures
        device.supports(packet_type) <==> {
            ||| packet_type == 1 && device.stream_supported
            ||| packet_type == 2 && device.seqpacket_supported
        },
{
}

/// What a driver sends reaches the backend: if the next chain of the transmit queue is for
/// reading, its buffers hold the header and the payload of a packet, be that nothing, and
/// packets of its type pass, the backend gets that packet.
pub proof fn law_sent_packet_reaches_backend(device: Vsock, chain: Chain, packet: Packet)
    requires
        device.queues.wf(),
        device.queues.layouts.len() == 3,
        !device.queues.memory.revoked,
        driver::is_offered(device.queues, 1, chain),
        driver::is_for_reading(device.queues.memory, chain.descriptors),
        driver::content(device.queues.memory, chain.descriptors) == packet.header.spec_bytes()
            + packet.payload,
        packet.header.length == packet.payload.len(),
        packet.payload.len() <= 65_536,
        (packet.header.packet_type == 1 && device.stream_supported) || (packet.header.packet_type
            == 2 && device.seqpacket_supported),
    ensures
        device.transmit() == Ok::<Option<(Chain, Packet)>, DeviceError>(Some((chain, packet))),
{
    driver::law_next_chain_is_taken(device.queues, 1, chain);
    driver::lemma_directions(device.queues.memory, chain.descriptors);
    law_packet_round_trip(packet);
}

/// What reaches the backend was sent: the buffers of the chain, the next one of the transmit
/// queue and none of them for writing, hold its header and its payload and nothing else.
pub proof fn law_backend_gets_sent_packets(device: Vsock, chain: Chain, packet: Packet)
    requires
        device.queues.wf(),
        device.queues.layouts.len() == 3,
        device.transmit() == Ok::<Option<(Chain, Packet)>, DeviceError>(Some((chain, packet))),
    ensures
        driver::is_offered(device.queues, 1, chain),
        driver::content(device.queues.memory, chain.descriptors) == packet.header.spec_bytes()
            + packet.payload,
        packet.header.length == packet.payload.len(),
        packet.payload.len() <= 65_536,
        (packet.header.packet_type == 1 && device.stream_supported) || (packet.header.packet_type
            == 2 && device.seqpacket_supported),
        forall|k: int|
            0 <= k < chain.descriptors.len() ==> (#[trigger] chain.descriptors[k]).flags & 2 == 0,
{
    driver::law_only_the_next_chain_is_taken(device.queues, 1, chain);
    driver::lemma_content(device.queues.memory, chain.descriptors);
    let bytes = chain::gathered(device.queues.memory, chain::ranges_of(chain.descriptors))->Ok_0;
    law_read_packet_is_valid(bytes, packet);
    assert forall|k: int| 0 <= k < chain.descriptors.len() implies (
    #[trigger] chain.descriptors[k]).flags & 2 == 0 by {
        chain::law_buffers_are_as_described(chain.descriptors, k);
    }
}

/// A transmit chain is handed back with the length of its packet and the header.
pub proof fn law_transmit_length(packet: Packet)
    requires
        packet.valid(),
    ensures
        transmit_length(packet.header.length) == 44 + packet.payload.len(),
{
}

/// What the guest finds after a packet was received and the chain handed back: if its buffers
/// are for writing, apart from each other and from the used ring, they hold the header and the
/// payload, and the used ring names the chain and the length of both.
pub proof fn law_packet_reaches_guest(device: Vsock, chain: Chain, packet: Packet)
    requires
        device.queues.wf(),
        device.queues.layouts.len() == 3,
        device.queues.cursors[0].inflight,
        !device.queues.memory.revoked,
        (packet.header.packet_type == 1 && device.stream_supported) || (packet.header.packet_type
            == 2 && device.seqpacket_supported),
        packet.header.length == packet.payload.len(),
        packet.payload.len() <= 65_536,
        driver::is_for_writing(device.queues.memory, chain.descriptors),
        driver::is_apart(chain.descriptors, device.queues.layouts[0].used),
        44 + packet.payload.len() <= driver::room(chain.descriptors) <= usize::MAX,
    ensures
        ({
            let (result, after) = device.deliver(chain, packet);
            let found = driver::content(after.memory, chain.descriptors);
            let length = 44 + packet.payload.len();
            &&& result == Ok::<Interrupt, DeviceError>(
                Interrupt::Queue { queue_index: 0, vector: 0 },
            )
            &&& found.take(length as int) == packet.header.spec_bytes() + packet.payload
            &&& Packet::of(found.take(length as int)) == Ok::<Packet, DeviceError>(packet)
            &&& driver::is_delivered(
                device.queues,
                0,
                chain,
                after,
                packet.header.spec_bytes() + packet.payload,
                length as int,
            )
        }),
{
    lemma_header_len(packet.header);
    law_packet_round_trip(packet);
    driver::lemma_directions(device.queues.memory, chain.descriptors);
    driver::lemma_content(device.queues.memory, chain.descriptors);
    driver::law_stored_bytes_are_found(
        device.queues,
        0,
        chain,
        packet.bytes(),
        packet.bytes().len() as u32,
    );
}

/// A packet that is not valid, does not pass or does not fit its chain is refused, and so is one
/// for a chain with a buffer that is not for writing: the guest's memory and the queues stay as
/// they are.
pub proof fn law_bad_receives_are_refused(device: Vsock, chain: Chain, packet: Packet, k: int)
    requires
        packet.header.length != packet.payload.len() || packet.payload.len() > 65_536 || !((
        packet.header.packet_type == 1 && device.stream_supported) || (packet.header.packet_type
            == 2 && device.seqpacket_supported)) || 44 + packet.payload.len() > driver::room(
            chain.descriptors,
        ) || (0 <= k < chain.descriptors.len() && chain.descriptors[k].flags & 2 == 0),
    ensures
        device.deliver(chain, packet).0 is Err,
        device.deliver(chain, packet).1 == device.queues,
{
    lemma_header_len(packet.header);
    driver::lemma_content(device.queues.memory, chain.descriptors);
    if 0 <= k < chain.descriptors.len() {
        chain::law_buffers_are_as_described(chain.descriptors, k);
    }
    assert(device.deliver(chain, packet).1 =~= device.queues);
}

/// A device has three queues and a notifier for each and for the configuration, and offers
/// streams and sequenced packets.
pub proof fn law_vsock_layout<B>(declaration: VsockDeclaration<B>)
    ensures
        declaration.spec_layout().queue_count == 3,
        declaration.spec_layout().notifier_count == 4,
        declaration.spec_layout().maximum_queue_size == declaration.spec_maximum_queue_size(),
        declaration.spec_layout().required_features == 0x1_0000_0000,
        declaration.spec_layout().optional_features == 0x1 + 0x2,
{
}

/// The numbers of virtio-vsock, and the limits of a packet.
pub proof fn law_vsock_numbers()
    ensures
        VIRTIO_F_VERSION_1 == 0x1_0000_0000,
        VIRTIO_VSOCK_F_STREAM == 0x1,
        VIRTIO_VSOCK_F_SEQPACKET == 0x2,
        VSOCK_HOST_CID == 2,
        VSOCK_TYPE_STREAM == 1,
        VSOCK_TYPE_SEQPACKET == 2,
        VSOCK_OP_REQUEST == 1,
        VSOCK_OP_RESPONSE == 2,
        VSOCK_OP_RST == 3,
        VSOCK_OP_SHUTDOWN == 4,
        VSOCK_OP_RW == 5,
        VSOCK_OP_CREDIT_UPDATE == 6,
        VSOCK_OP_CREDIT_REQUEST == 7,
        HEADER_SIZE == 44,
        MAXIMUM_PACKET_SIZE == 65_536,
{
}

/// No packet is given exactly when no chain is taken off the transmit queue: a chain that is taken
/// is given with its packet or refused, and what the queue fails with, the device fails with.
pub proof fn law_no_chain_is_passed_over(device: Vsock)
    ensures
        device.transmit() == Ok::<Option<(Chain, Packet)>, DeviceError>(None)
            <==> device.queues.pop_result(1) == Ok::<Option<Chain>, DeviceError>(None),
        device.queues.pop_result(1) matches Err(error) ==> device.transmit() == Err::<
            Option<(Chain, Packet)>,
            DeviceError,
        >(error),
{
}

} // verus!
